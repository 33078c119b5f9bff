//! Reading the Opus packets back out of an Ogg/Opus file, as the writer in
//! [`crate::ogg`] lays them down: chained logical streams (one per serial,
//! in order of first appearance), packets split across pages, a torn tail
//! dropped, and a page that continues a packet whose start is missing
//! skipped up to the end of that packet. What is done with the packets
//! (header parsing, the pre-skip) follows.
use crate::ogg::{
    concat_bytes, lacing_of, lemma_built_page_parses, lemma_lacing_sums_to_len, lemma_page_end_advances,
    lemma_page_starts_chain, lemma_sum_concat, lemma_sum_full_segments, lemma_sum_u8_nonneg, next_page_end, ogg_page,
    page_end, page_starts,
    serial_at, sum_u8,
};
use crate::text::{ascii_lowercase, str_eq, to_ascii_lowercase};
use std::collections::HashMap;
use vstd::prelude::*;

verus! {

/// The state of one logical stream while its pages are read: the packet
/// being assembled, whether a continued packet of unknown start is being
/// skipped, and the packets completed so far.
pub struct StreamPackets {
    pub serial: u32,
    pub partial: Seq<u8>,
    pub skipping: bool,
    pub packets: Seq<Seq<u8>>,
}

/// Whether a page's header type says it continues a packet from the
/// previous page.
pub open spec fn continued(header_type: u8) -> bool {
    header_type % 2 == 1
}

/// Entering a page: a continuation with nothing buffered is skipped up to
/// the end of its first packet; a fresh page drops a packet the previous
/// page promised to continue but never did.
pub open spec fn enter_page(s: StreamPackets, header_type: u8) -> StreamPackets {
    if continued(header_type) && s.partial.len() == 0 {
        StreamPackets { skipping: true, ..s }
    } else if !continued(header_type) && s.partial.len() > 0 {
        StreamPackets { partial: Seq::empty(), ..s }
    } else {
        s
    }
}

/// One segment of `lace` bytes `seg`: a segment shorter than 255 ends a
/// packet (or the skipped one).
pub open spec fn seg_step(s: StreamPackets, lace: u8, seg: Seq<u8>) -> StreamPackets {
    if s.skipping {
        StreamPackets { skipping: lace == 255, ..s }
    } else if lace < 255 {
        StreamPackets { partial: Seq::empty(), packets: s.packets.push(s.partial + seg), ..s }
    } else {
        StreamPackets { partial: s.partial + seg, ..s }
    }
}

/// Lacing value `i` of the page at `p`.
pub open spec fn lace_at(buf: Seq<u8>, p: int, i: int) -> u8 {
    buf[p + 27 + i]
}

/// Offset of segment `i` of the page at `p`.
pub open spec fn seg_start(buf: Seq<u8>, p: int, i: int) -> int {
    p + 27 + buf[p + 26] as int + sum_u8(buf.subrange(p + 27, p + 27 + i))
}

/// A stream after entering the page at `p` and reading its first `k`
/// segments.
pub open spec fn page_segments(s: StreamPackets, buf: Seq<u8>, p: int, k: nat) -> StreamPackets
    decreases k,
{
    if k == 0 {
        enter_page(s, buf[p + 5])
    } else {
        let st = page_segments(s, buf, p, (k - 1) as nat);
        let lo = seg_start(buf, p, k - 1);
        let lace = lace_at(buf, p, k - 1);
        seg_step(st, lace, buf.subrange(lo, lo + lace as int))
    }
}

/// A stream after reading the whole page at `p`.
pub open spec fn page_step(s: StreamPackets, buf: Seq<u8>, p: int) -> StreamPackets {
    page_segments(s, buf, p, buf[p + 26] as nat)
}

/// A stream seen for the first time.
pub open spec fn new_stream(serial: u32) -> StreamPackets {
    StreamPackets { serial, partial: Seq::empty(), skipping: false, packets: Seq::empty() }
}

/// Index of the stream with `serial`, searching from the back.
pub open spec fn stream_index(t: Seq<StreamPackets>, serial: u32) -> Option<int>
    decreases t.len(),
{
    if t.len() == 0 {
        None
    } else if t.last().serial == serial {
        Some(t.len() - 1)
    } else {
        stream_index(t.drop_last(), serial)
    }
}

/// The streams of the complete pages at `starts`, in order of first
/// appearance.
pub open spec fn demux(buf: Seq<u8>, starts: Seq<int>) -> Seq<StreamPackets>
    decreases starts.len(),
{
    if starts.len() == 0 {
        Seq::empty()
    } else {
        demux_step(demux(buf, starts.drop_last()), buf, starts.last())
    }
}

/// The streams `t` after reading the page at `p` into the stream of its
/// serial (a new one, appended, for a serial not seen yet).
pub open spec fn demux_step(t: Seq<StreamPackets>, buf: Seq<u8>, p: int) -> Seq<StreamPackets> {
    let serial = serial_at(buf, p);
    match stream_index(t, serial) {
        Some(i) => t.update(i, page_step(t[i], buf, p)),
        None => t.push(page_step(new_stream(serial), buf, p)),
    }
}

proof fn lemma_stream_index_bounds(t: Seq<StreamPackets>, serial: u32)
    ensures
        stream_index(t, serial) matches Some(i) ==> 0 <= i < t.len() && t[i].serial == serial,
    decreases t.len(),
{
    if t.len() > 0 && t.last().serial != serial {
        lemma_stream_index_bounds(t.drop_last(), serial);
    }
}

proof fn lemma_prefix_sum_le(s: Seq<u8>, i: int)
    requires
        0 <= i <= s.len(),
    ensures
        sum_u8(s.subrange(0, i)) <= sum_u8(s),
    decreases s.len(),
{
    if i < s.len() {
        assert(s.drop_last() =~= s.subrange(0, s.len() - 1));
        lemma_prefix_sum_le(s.drop_last(), i);
        assert(s.drop_last().subrange(0, i) =~= s.subrange(0, i));
    } else {
        assert(s.subrange(0, i) =~= s);
    }
}

/// The lacing values of whole packets laid one after another.
pub open spec fn packets_lacing(ps: Seq<Seq<u8>>) -> Seq<u8>
    decreases ps.len(),
{
    if ps.len() == 0 {
        Seq::empty()
    } else {
        packets_lacing(ps.drop_last()) + lacing_of(ps.last().len())
    }
}

/// The bytes of packets laid one after another.
pub open spec fn packets_body(ps: Seq<Seq<u8>>) -> Seq<u8>
    decreases ps.len(),
{
    if ps.len() == 0 {
        Seq::empty()
    } else {
        packets_body(ps.drop_last()) + ps.last()
    }
}

/// A stream after reading the first `k` segments of lacing `l` over the
/// body `b`.
pub open spec fn segs(s: StreamPackets, l: Seq<u8>, b: Seq<u8>, k: nat) -> StreamPackets
    decreases k,
{
    if k == 0 {
        s
    } else {
        let st = segs(s, l, b, (k - 1) as nat);
        let a = sum_u8(l.subrange(0, k - 1));
        seg_step(st, l[k - 1], b.subrange(a, a + l[k - 1] as int))
    }
}

proof fn lemma_packets_sum(ps: Seq<Seq<u8>>)
    ensures
        sum_u8(packets_lacing(ps)) == packets_body(ps).len(),
    decreases ps.len(),
{
    if ps.len() > 0 {
        lemma_packets_sum(ps.drop_last());
        lemma_lacing_sums_to_len(ps.last().len());
        lemma_sum_concat(packets_lacing(ps.drop_last()), lacing_of(ps.last().len()));
    }
}

/// Reading a page's segments is reading its lacing over its body.
proof fn lemma_page_segments_are_segs(s: StreamPackets, buf: Seq<u8>, l: Seq<u8>, b: Seq<u8>, k: nat)
    requires
        l.len() <= 255,
        27 + l.len() + b.len() <= buf.len(),
        buf[26] == l.len(),
        buf.subrange(27, 27 + l.len() as int) == l,
        buf.subrange(27 + l.len() as int, (27 + l.len() + b.len()) as int) == b,
        sum_u8(l) == b.len(),
        k <= l.len(),
    ensures
        page_segments(s, buf, 0, k) == segs(enter_page(s, buf[5]), l, b, k),
    decreases k,
{
    if k > 0 {
        lemma_page_segments_are_segs(s, buf, l, b, (k - 1) as nat);
        let i = k - 1;
        assert(lace_at(buf, 0, i) == l[i]) by {
            assert(buf.subrange(27, 27 + l.len() as int)[i] == buf[27 + i]);
        }
        assert(buf.subrange(27, 27 + i) =~= l.subrange(0, i)) by {
            assert forall|j: int| 0 <= j < i implies #[trigger] buf.subrange(27, 27 + i)[j] == l.subrange(0, i)[j] by {
                assert(buf.subrange(27, 27 + l.len() as int)[j] == buf[27 + j]);
            }
        }
        let a = sum_u8(l.subrange(0, i));
        lemma_sum_u8_nonneg(l.subrange(0, i));
        assert(l.subrange(0, i + 1).drop_last() =~= l.subrange(0, i));
        lemma_prefix_sum_le(l, i + 1);
        assert(a + l[i] <= b.len());
        assert(seg_start(buf, 0, i) == 27 + l.len() + a);
        let lo = 27 + l.len() + a;
        assert(buf.subrange(lo, lo + l[i] as int) =~= b.subrange(a, a + l[i] as int)) by {
            assert forall|j: int| 0 <= j < l[i] implies #[trigger] buf.subrange(lo, lo + l[i] as int)[j] == b.subrange(a, a + l[i] as int)[j] by {
                assert(buf.subrange(27 + l.len() as int, (27 + l.len() + b.len()) as int)[a + j] == buf[lo + j]);
            }
        }
    }
}

/// Segments of a first part of the lacing only read the first part of the
/// body.
proof fn lemma_segs_prefix(s: StreamPackets, l1: Seq<u8>, l2: Seq<u8>, b1: Seq<u8>, b2: Seq<u8>, k: nat)
    requires
        sum_u8(l1) == b1.len(),
        k <= l1.len(),
    ensures
        segs(s, l1 + l2, b1 + b2, k) == segs(s, l1, b1, k),
    decreases k,
{
    if k > 0 {
        lemma_segs_prefix(s, l1, l2, b1, b2, (k - 1) as nat);
        let i = k - 1;
        assert((l1 + l2).subrange(0, i) =~= l1.subrange(0, i));
        assert(l1.subrange(0, i + 1).drop_last() =~= l1.subrange(0, i));
        lemma_prefix_sum_le(l1, i + 1);
        let a = sum_u8(l1.subrange(0, i));
        lemma_sum_u8_nonneg(l1.subrange(0, i));
        assert((b1 + b2).subrange(a, a + l1[i] as int) =~= b1.subrange(a, a + l1[i] as int));
    }
}

/// Segments past a first part continue from where the first part left off.
proof fn lemma_segs_split(s: StreamPackets, l1: Seq<u8>, l2: Seq<u8>, b1: Seq<u8>, b2: Seq<u8>, k: nat)
    requires
        sum_u8(l1) == b1.len(),
        sum_u8(l2) == b2.len(),
        k <= l2.len(),
    ensures
        segs(s, l1 + l2, b1 + b2, l1.len() + k) == segs(segs(s, l1, b1, l1.len()), l2, b2, k),
    decreases k,
{
    if k == 0 {
        lemma_segs_prefix(s, l1, l2, b1, b2, l1.len());
    } else {
        lemma_segs_split(s, l1, l2, b1, b2, (k - 1) as nat);
        let i = k - 1;
        let n = l1.len() + i;
        assert((l1 + l2)[n] == l2[i]);
        assert((l1 + l2).subrange(0, n) =~= l1 + l2.subrange(0, i));
        lemma_sum_concat(l1, l2.subrange(0, i));
        let a2 = sum_u8(l2.subrange(0, i));
        lemma_sum_u8_nonneg(l2.subrange(0, i));
        assert(l2.subrange(0, i + 1).drop_last() =~= l2.subrange(0, i));
        lemma_prefix_sum_le(l2, i + 1);
        let a = b1.len() + a2;
        assert((b1 + b2).subrange(a, a + l2[i] as int) =~= b2.subrange(a2, a2 + l2[i] as int));
    }
}

/// The segments of one packet's lacing over its bytes complete that packet
/// (after whatever was already buffered).
proof fn lemma_one_packet(s: StreamPackets, p: Seq<u8>)
    requires
        !s.skipping,
    ensures
        segs(s, lacing_of(p.len()), p, lacing_of(p.len()).len()) == (StreamPackets {
            partial: Seq::empty(),
            packets: s.packets.push(s.partial + p),
            ..s
        }),
{
    let n = p.len();
    let l = lacing_of(n);
    let q = n / 255;
    lemma_lacing_sums_to_len(n);
    vstd::arithmetic::div_mod::lemma_fundamental_div_mod(n as int, 255);
    assert forall|j: nat| j <= q implies #[trigger] segs(s, l, p, j) == (StreamPackets {
        partial: s.partial + p.subrange(0, 255 * (j as int)),
        ..s
    }) by {
        lemma_full_segments(s, p, j);
    }
    let st = segs(s, l, p, q);
    assert(l.subrange(0, q as int) =~= Seq::new(q, |i: int| 255u8));
    lemma_sum_full_segments(q);
    assert(l[q as int] == (n % 255) as u8);
    assert(p.subrange(255 * (q as int), 255 * (q as int) + (n % 255) as int) =~= p.subrange(255 * (q as int), n as int));
    assert(s.partial + p.subrange(0, 255 * (q as int)) + p.subrange(255 * (q as int), n as int) =~= s.partial + p);
    assert(segs(s, l, p, q + 1) == seg_step(st, l[q as int], p.subrange(255 * (q as int), 255 * (q as int) + (n % 255) as int)));
}

proof fn lemma_full_segments(s: StreamPackets, p: Seq<u8>, j: nat)
    requires
        !s.skipping,
        j <= p.len() / 255,
    ensures
        segs(s, lacing_of(p.len()), p, j) == (StreamPackets {
            partial: s.partial + p.subrange(0, 255 * (j as int)),
            ..s
        }),
    decreases j,
{
    let n = p.len();
    let l = lacing_of(n);
    if j == 0 {
        assert(s.partial + p.subrange(0, 0) =~= s.partial);
    } else {
        lemma_full_segments(s, p, (j - 1) as nat);
        vstd::arithmetic::div_mod::lemma_fundamental_div_mod(n as int, 255);
        assert(l.subrange(0, j - 1) =~= Seq::new((j - 1) as nat, |i: int| 255u8));
        lemma_sum_full_segments((j - 1) as nat);
        assert(l[j - 1] == 255u8);
        let a = 255 * (j - 1);
        assert(s.partial + p.subrange(0, a) + p.subrange(a, a + 255) =~= s.partial + p.subrange(0, 255 * (j as int)));
    }
}

/// Whole packets laid into lacing and body read back as those packets.
proof fn lemma_packets_read_back(s: StreamPackets, ps: Seq<Seq<u8>>)
    requires
        !s.skipping,
        s.partial.len() == 0,
    ensures
        segs(s, packets_lacing(ps), packets_body(ps), packets_lacing(ps).len()) == (StreamPackets {
            packets: s.packets + ps,
            ..s
        }),
    decreases ps.len(),
{
    if ps.len() == 0 {
        assert(s.packets + ps =~= s.packets);
    } else {
        let front = ps.drop_last();
        let p = ps.last();
        lemma_packets_read_back(s, front);
        lemma_packets_sum(front);
        lemma_lacing_sums_to_len(p.len());
        lemma_segs_split(s, packets_lacing(front), lacing_of(p.len()), packets_body(front), p, lacing_of(p.len()).len());
        let mid = segs(s, packets_lacing(front), packets_body(front), packets_lacing(front).len());
        lemma_one_packet(mid, p);
        assert(mid.partial =~= Seq::<u8>::empty());
        assert(mid.partial + p =~= p);
        assert(s.packets + front.push(p) =~= (s.packets + front).push(p));
        assert(front.push(p) =~= ps);
    }
}

/// What a read gives back of a write: a page built from whole packets (its
/// lacing and body as the muxer lays them down), read by a stream that is
/// not skipping, ends with nothing buffered and exactly those packets added,
/// in order. A page that does not continue a packet drops any leftover
/// partial packet first.
pub proof fn lemma_page_of_packets_reads_back(
    header_type: u8,
    granule: u64,
    serial: u32,
    page_seq: u32,
    ps: Seq<Seq<u8>>,
    s: StreamPackets,
)
    requires
        !continued(header_type),
        !s.skipping,
        packets_lacing(ps).len() <= 255,
    ensures
        page_step(
            s,
            ogg_page(header_type, granule, serial, page_seq, packets_lacing(ps), packets_body(ps)),
            0,
        ) == (StreamPackets { partial: Seq::empty(), packets: s.packets + ps, ..s }),
{
    let l = packets_lacing(ps);
    let b = packets_body(ps);
    lemma_packets_sum(ps);
    lemma_built_page_parses(header_type, granule, serial, page_seq, l, b);
    let page = ogg_page(header_type, granule, serial, page_seq, l, b);
    lemma_page_segments_are_segs(s, page, l, b, l.len());
    let entered = enter_page(s, header_type);
    assert(entered == (StreamPackets { partial: Seq::empty(), ..s })) by {
        if s.partial.len() == 0 {
            assert(s.partial =~= Seq::<u8>::empty());
        }
    }
    lemma_packets_read_back(entered, ps);
}

/// A file of one such page reads back as one stream holding those packets.
pub proof fn lemma_single_page_file_reads_back(
    header_type: u8,
    granule: u64,
    serial: u32,
    page_seq: u32,
    ps: Seq<Seq<u8>>,
)
    requires
        !continued(header_type),
        packets_lacing(ps).len() <= 255,
    ensures
        ({
            let page = ogg_page(header_type, granule, serial, page_seq, packets_lacing(ps), packets_body(ps));
            let d = demux(page, page_starts(page, 0));
            &&& d.len() == 1
            &&& d[0].serial == serial
            &&& d[0].packets == ps
        }),
{
    let l = packets_lacing(ps);
    let b = packets_body(ps);
    lemma_packets_sum(ps);
    lemma_built_page_parses(header_type, granule, serial, page_seq, l, b);
    let page = ogg_page(header_type, granule, serial, page_seq, l, b);
    assert(page_end(page, page.len() as int) is None);
    assert(page_starts(page, page.len() as int) =~= Seq::<int>::empty());
    assert(page_starts(page, 0) == seq![0int] + page_starts(page, page.len() as int));
    assert(page_starts(page, 0) =~= seq![0int]);
    let starts = seq![0int];
    assert(starts.drop_last() =~= Seq::<int>::empty());
    assert(starts.last() == 0);
    assert(serial_at(page, 0) == serial);
    assert(demux(page, starts.drop_last()) =~= Seq::<StreamPackets>::empty());
    assert(stream_index(Seq::<StreamPackets>::empty(), serial) is None);
    lemma_page_of_packets_reads_back(header_type, granule, serial, page_seq, ps, new_stream(serial));
    assert(Seq::<Seq<u8>>::empty() + ps =~= ps);
    let d = demux(page, starts);
    assert(d == Seq::<StreamPackets>::empty().push(page_step(new_stream(serial), page, 0)));
}

/// Whether the complete pages from `off` on tile `buf` exactly to its end.
pub open spec fn pages_cover(buf: Seq<u8>, off: int) -> bool
    decreases buf.len() - off,
{
    if off == buf.len() {
        true
    } else {
        match page_end(buf, off) {
            Some(e) => {
                proof {
                    lemma_page_end_advances(buf, off);
                }
                pages_cover(buf, e)
            },
            None => false,
        }
    }
}

/// Two buffers that hold the same `n` bytes at `p1` and `p2` agree on the
/// byte at `x` of those bytes.
proof fn lemma_window_byte(b1: Seq<u8>, p1: int, b2: Seq<u8>, p2: int, n: int, x: int)
    requires
        0 <= p1,
        0 <= p2,
        0 <= x < n,
        p1 + n <= b1.len(),
        p2 + n <= b2.len(),
        b1.subrange(p1, p1 + n) == b2.subrange(p2, p2 + n),
    ensures
        b1[p1 + x] == b2[p2 + x],
{
    assert(b1.subrange(p1, p1 + n)[x] == b1[p1 + x]);
    assert(b2.subrange(p2, p2 + n)[x] == b2[p2 + x]);
}

/// Two buffers that hold the same `n` bytes at `p1` and `p2` agree on the
/// part `x..y` of those bytes.
proof fn lemma_window_part(b1: Seq<u8>, p1: int, b2: Seq<u8>, p2: int, n: int, x: int, y: int)
    requires
        0 <= p1,
        0 <= p2,
        0 <= x <= y <= n,
        p1 + n <= b1.len(),
        p2 + n <= b2.len(),
        b1.subrange(p1, p1 + n) == b2.subrange(p2, p2 + n),
    ensures
        b1.subrange(p1 + x, p1 + y) == b2.subrange(p2 + x, p2 + y),
{
    assert forall|j: int| 0 <= j < y - x implies #[trigger] b1.subrange(p1 + x, p1 + y)[j]
        == b2.subrange(p2 + x, p2 + y)[j] by {
        lemma_window_byte(b1, p1, b2, p2, n, x + j);
    }
    assert(b1.subrange(p1 + x, p1 + y) =~= b2.subrange(p2 + x, p2 + y));
}

/// A page is decided by its own bytes: the same page bytes at another
/// offset of another buffer form the same page there.
proof fn lemma_page_end_window(b1: Seq<u8>, p1: int, b2: Seq<u8>, p2: int, n: int)
    requires
        0 <= p1,
        0 <= p2,
        p1 + n <= b1.len(),
        p2 + n <= b2.len(),
        page_end(b1, p1) == Some(p1 + n),
        b1.subrange(p1, p1 + n) == b2.subrange(p2, p2 + n),
    ensures
        page_end(b2, p2) == Some(p2 + n),
{
    lemma_page_end_advances(b1, p1);
    lemma_window_part(b1, p1, b2, p2, n, 0, 4);
    lemma_window_byte(b1, p1, b2, p2, n, 26);
    let k = b1[p1 + 26] as int;
    lemma_window_part(b1, p1, b2, p2, n, 27, 27 + k);
}

/// The same page bytes read the same: a stream reads the page at `p1` of
/// `b1` as it reads the page at `p2` of `b2`, and both carry one serial.
proof fn lemma_page_step_window(s: StreamPackets, b1: Seq<u8>, p1: int, b2: Seq<u8>, p2: int, n: int)
    requires
        0 <= p1,
        0 <= p2,
        p1 + n <= b1.len(),
        p2 + n <= b2.len(),
        page_end(b1, p1) == Some(p1 + n),
        b1.subrange(p1, p1 + n) == b2.subrange(p2, p2 + n),
    ensures
        page_step(s, b1, p1) == page_step(s, b2, p2),
        serial_at(b1, p1) == serial_at(b2, p2),
{
    lemma_page_end_advances(b1, p1);
    lemma_window_byte(b1, p1, b2, p2, n, 14);
    lemma_window_byte(b1, p1, b2, p2, n, 15);
    lemma_window_byte(b1, p1, b2, p2, n, 16);
    lemma_window_byte(b1, p1, b2, p2, n, 17);
    lemma_window_byte(b1, p1, b2, p2, n, 26);
    lemma_page_segments_window(s, b1, p1, b2, p2, n, b1[p1 + 26] as nat);
}

proof fn lemma_page_segments_window(
    s: StreamPackets,
    b1: Seq<u8>,
    p1: int,
    b2: Seq<u8>,
    p2: int,
    n: int,
    k: nat,
)
    requires
        0 <= p1,
        0 <= p2,
        p1 + n <= b1.len(),
        p2 + n <= b2.len(),
        page_end(b1, p1) == Some(p1 + n),
        b1.subrange(p1, p1 + n) == b2.subrange(p2, p2 + n),
        k <= b1[p1 + 26],
    ensures
        page_segments(s, b1, p1, k) == page_segments(s, b2, p2, k),
    decreases k,
{
    lemma_page_end_advances(b1, p1);
    lemma_window_byte(b1, p1, b2, p2, n, 5);
    lemma_window_byte(b1, p1, b2, p2, n, 26);
    if k > 0 {
        lemma_page_segments_window(s, b1, p1, b2, p2, n, (k - 1) as nat);
        let i = k - 1;
        let m = b1[p1 + 26] as int;
        let lacing = b1.subrange(p1 + 27, p1 + 27 + m);
        lemma_window_part(b1, p1, b2, p2, n, 27, 27 + i);
        lemma_window_byte(b1, p1, b2, p2, n, 27 + i);
        assert(lacing.subrange(0, i + 1) =~= b1.subrange(p1 + 27, p1 + 27 + i + 1));
        assert(lacing.subrange(0, i + 1).drop_last() =~= lacing.subrange(0, i));
        assert(lacing.subrange(0, i) =~= b1.subrange(p1 + 27, p1 + 27 + i));
        lemma_prefix_sum_le(lacing, i + 1);
        lemma_sum_u8_nonneg(lacing.subrange(0, i));
        let a = sum_u8(lacing.subrange(0, i));
        let lace = lace_at(b1, p1, i) as int;
        assert(lacing[i] == lace_at(b1, p1, i));
        assert(sum_u8(lacing.subrange(0, i + 1)) == a + lace);
        let lo = 27 + m + a;
        assert(lo + lace <= n);
        assert(seg_start(b1, p1, i) == p1 + lo);
        assert(seg_start(b2, p2, i) == p2 + lo);
        lemma_window_part(b1, p1, b2, p2, n, lo, lo + lace);
    }
}

/// The complete pages of a buffer placed after `a` are its own pages,
/// shifted by `a`'s length.
proof fn lemma_starts_shift(a: Seq<u8>, b: Seq<u8>, off: int)
    requires
        0 <= off,
    ensures
        page_starts(a + b, a.len() + off) == page_starts(b, off).map_values(|q: int| q + a.len()),
    decreases b.len() - off,
{
    let ab = a + b;
    match page_end(b, off) {
        Some(e) => {
            lemma_page_end_advances(b, off);
            assert(b.subrange(off, e) =~= ab.subrange(a.len() + off, a.len() + off + (e - off)));
            lemma_page_end_window(b, off, ab, a.len() + off, e - off);
            lemma_starts_shift(a, b, e);
            assert(page_starts(b, off) == seq![off] + page_starts(b, e));
            assert(page_starts(ab, a.len() + off) == seq![a.len() + off] + page_starts(ab, a.len() + e));
            assert(page_starts(b, off).map_values(|q: int| q + a.len()) =~= seq![a.len() + off]
                + page_starts(b, e).map_values(|q: int| q + a.len()));
        },
        None => {
            if let Some(e2) = page_end(ab, a.len() + off) {
                lemma_page_end_advances(ab, a.len() + off);
                let n = e2 - (a.len() + off);
                assert(ab.subrange(a.len() + off, a.len() + off + n) =~= b.subrange(off, off + n));
                lemma_page_end_window(ab, a.len() + off, b, off, n);
            }
            assert(page_starts(b, off).map_values(|q: int| q + a.len()) =~= Seq::<int>::empty());
        },
    }
}

/// The complete pages of `a + b`, when the pages of `a` from `off` reach
/// exactly its end: those pages, then the pages of `b` shifted by `a`'s
/// length.
proof fn lemma_starts_concat(a: Seq<u8>, b: Seq<u8>, off: int)
    requires
        0 <= off,
        pages_cover(a, off),
    ensures
        page_starts(a + b, off) == page_starts(a, off) + page_starts(b, 0).map_values(|q: int| q + a.len()),
    decreases a.len() - off,
{
    let ab = a + b;
    if off == a.len() {
        assert(page_end(a, off) is None);
        assert(page_starts(a, off) =~= Seq::<int>::empty());
        lemma_starts_shift(a, b, 0);
        assert(page_starts(a, off) + page_starts(b, 0).map_values(|q: int| q + a.len())
            =~= page_starts(b, 0).map_values(|q: int| q + a.len()));
    } else {
        let e = page_end(a, off)->0;
        lemma_page_end_advances(a, off);
        assert(a.subrange(off, e) =~= ab.subrange(off, off + (e - off)));
        lemma_page_end_window(a, off, ab, off, e - off);
        lemma_starts_concat(a, b, e);
        assert(page_starts(a, off) == seq![off] + page_starts(a, e));
        assert(page_starts(ab, off) == seq![off] + page_starts(ab, e));
        assert(page_starts(ab, off) =~= page_starts(a, off) + page_starts(b, 0).map_values(|q: int| q + a.len()));
    }
}


/// The streams `t` after reading the pages at `starts` in order.
pub open spec fn demux_from(t: Seq<StreamPackets>, buf: Seq<u8>, starts: Seq<int>) -> Seq<StreamPackets>
    decreases starts.len(),
{
    if starts.len() == 0 {
        t
    } else {
        demux_step(demux_from(t, buf, starts.drop_last()), buf, starts.last())
    }
}

proof fn lemma_demux_is_demux_from(buf: Seq<u8>, starts: Seq<int>)
    ensures
        demux(buf, starts) == demux_from(Seq::empty(), buf, starts),
    decreases starts.len(),
{
    if starts.len() > 0 {
        lemma_demux_is_demux_from(buf, starts.drop_last());
    }
}

/// Reading two runs of pages is reading the first, then the second.
proof fn lemma_demux_from_concat(t: Seq<StreamPackets>, buf: Seq<u8>, s1: Seq<int>, s2: Seq<int>)
    ensures
        demux_from(t, buf, s1 + s2) == demux_from(demux_from(t, buf, s1), buf, s2),
    decreases s2.len(),
{
    if s2.len() == 0 {
        assert(s1 + s2 =~= s1);
    } else {
        lemma_demux_from_concat(t, buf, s1, s2.drop_last());
        assert((s1 + s2).drop_last() =~= s1 + s2.drop_last());
        assert((s1 + s2).last() == s2.last());
    }
}

/// Pages that lie wholly inside `a` read the same in `a + b`.
proof fn lemma_demux_from_front(t: Seq<StreamPackets>, a: Seq<u8>, b: Seq<u8>, starts: Seq<int>)
    requires
        forall|i: int|
            0 <= i < starts.len() ==> 0 <= starts[i] && (#[trigger] page_end(a, starts[i])) is Some,
    ensures
        demux_from(t, a + b, starts) == demux_from(t, a, starts),
    decreases starts.len(),
{
    if starts.len() > 0 {
        let front = starts.drop_last();
        assert forall|i: int| 0 <= i < front.len() implies 0 <= front[i] && (#[trigger] page_end(a, front[i])) is Some by {
            assert(front[i] == starts[i]);
        }
        lemma_demux_from_front(t, a, b, front);
        let p = starts.last();
        assert(page_end(a, starts[starts.len() - 1]) is Some);
        let e = page_end(a, p)->0;
        lemma_page_end_advances(a, p);
        assert(a.subrange(p, e) =~= (a + b).subrange(p, p + (e - p)));
        let u = demux_from(t, a, front);
        lemma_page_step_window(new_stream(serial_at(a, p)), a, p, a + b, p, e - p);
        lemma_stream_index_bounds(u, serial_at(a, p));
        if let Some(i) = stream_index(u, serial_at(a, p)) {
            lemma_page_step_window(u[i], a, p, a + b, p, e - p);
        }
    }
}

/// Pages of `b` read the same at their shifted offsets in `a + b`.
proof fn lemma_demux_from_back(t: Seq<StreamPackets>, a: Seq<u8>, b: Seq<u8>, starts: Seq<int>)
    requires
        forall|i: int|
            0 <= i < starts.len() ==> 0 <= starts[i] && (#[trigger] page_end(b, starts[i])) is Some,
    ensures
        demux_from(t, a + b, starts.map_values(|q: int| q + a.len())) == demux_from(t, b, starts),
    decreases starts.len(),
{
    if starts.len() > 0 {
        let front = starts.drop_last();
        assert forall|i: int| 0 <= i < front.len() implies 0 <= front[i] && (#[trigger] page_end(b, front[i])) is Some by {
            assert(front[i] == starts[i]);
        }
        lemma_demux_from_back(t, a, b, front);
        let shifted = starts.map_values(|q: int| q + a.len());
        assert(shifted.drop_last() =~= front.map_values(|q: int| q + a.len()));
        let p = starts.last();
        assert(page_end(b, starts[starts.len() - 1]) is Some);
        assert(shifted.last() == a.len() + p);
        let e = page_end(b, p)->0;
        lemma_page_end_advances(b, p);
        assert(b.subrange(p, e) =~= (a + b).subrange(a.len() + p, a.len() + p + (e - p)));
        let u = demux_from(t, b, front);
        lemma_page_step_window(new_stream(serial_at(b, p)), b, p, a + b, a.len() + p, e - p);
        lemma_stream_index_bounds(u, serial_at(b, p));
        if let Some(i) = stream_index(u, serial_at(b, p)) {
            lemma_page_step_window(u[i], b, p, a + b, a.len() + p, e - p);
        }
    }
}

proof fn lemma_stream_index_absent(t: Seq<StreamPackets>, serial: u32)
    requires
        forall|i: int| 0 <= i < t.len() ==> (#[trigger] t[i]).serial != serial,
    ensures
        stream_index(t, serial) is None,
    decreases t.len(),
{
    if t.len() > 0 {
        assert(t.last() == t[t.len() - 1]);
        assert forall|i: int| 0 <= i < t.drop_last().len() implies (#[trigger] t.drop_last()[i]).serial != serial by {
            assert(t.drop_last()[i] == t[i]);
        }
        lemma_stream_index_absent(t.drop_last(), serial);
    }
}

/// Looking a serial absent from `t` up in `t + u` finds it where `u` has it.
proof fn lemma_stream_index_concat(t: Seq<StreamPackets>, u: Seq<StreamPackets>, serial: u32)
    requires
        forall|i: int| 0 <= i < t.len() ==> (#[trigger] t[i]).serial != serial,
    ensures
        stream_index(t + u, serial) == match stream_index(u, serial) {
            Some(i) => Some(t.len() + i),
            None => None::<int>,
        },
    decreases u.len(),
{
    if u.len() == 0 {
        assert(t + u =~= t);
        lemma_stream_index_absent(t, serial);
    } else {
        assert((t + u).last() == u.last());
        assert((t + u).drop_last() =~= t + u.drop_last());
        lemma_stream_index_concat(t, u.drop_last(), serial);
    }
}

/// Reading pages whose serials are all new to `t` leaves `t` as it is and
/// appends the streams those pages make on their own.
proof fn lemma_demux_from_append(t: Seq<StreamPackets>, buf: Seq<u8>, starts: Seq<int>)
    requires
        forall|i: int, j: int|
            0 <= i < t.len() && 0 <= j < starts.len() ==> (#[trigger] t[i]).serial != serial_at(buf, #[trigger] starts[j]),
    ensures
        demux_from(t, buf, starts) == t + demux_from(Seq::empty(), buf, starts),
    decreases starts.len(),
{
    if starts.len() == 0 {
        assert(t + Seq::<StreamPackets>::empty() =~= t);
    } else {
        let front = starts.drop_last();
        assert forall|i: int, j: int| 0 <= i < t.len() && 0 <= j < front.len() implies (#[trigger] t[i]).serial
            != serial_at(buf, #[trigger] front[j]) by {
            assert(front[j] == starts[j]);
        }
        lemma_demux_from_append(t, buf, front);
        let u = demux_from(Seq::empty(), buf, front);
        let p = starts.last();
        let serial = serial_at(buf, p);
        assert forall|i: int| 0 <= i < t.len() implies (#[trigger] t[i]).serial != serial by {
            assert(starts[starts.len() - 1] == p);
        }
        lemma_stream_index_concat(t, u, serial);
        lemma_stream_index_bounds(u, serial);
        match stream_index(u, serial) {
            Some(i) => {
                assert((t + u)[t.len() + i] == u[i]);
                assert((t + u).update(t.len() + i, page_step(u[i], buf, p)) =~= t + u.update(
                    i,
                    page_step(u[i], buf, p),
                ));
            },
            None => {
                assert((t + u).push(page_step(new_stream(serial), buf, p)) =~= t + u.push(
                    page_step(new_stream(serial), buf, p),
                ));
            },
        }
    }
}

proof fn lemma_page_segments_serial(s: StreamPackets, buf: Seq<u8>, p: int, k: nat)
    ensures
        page_segments(s, buf, p, k).serial == s.serial,
    decreases k,
{
    if k > 0 {
        lemma_page_segments_serial(s, buf, p, (k - 1) as nat);
    }
}

/// Every stream read from pages carries the serial of one of them.
proof fn lemma_stream_serials(buf: Seq<u8>, starts: Seq<int>)
    ensures
        ({
            let d = demux_from(Seq::empty(), buf, starts);
            forall|i: int|
                0 <= i < d.len() ==> exists|j: int| 0 <= j < starts.len() && (#[trigger] d[i]).serial == serial_at(buf, #[trigger] starts[j])
        }),
    decreases starts.len(),
{
    if starts.len() > 0 {
        let front = starts.drop_last();
        lemma_stream_serials(buf, front);
        let u = demux_from(Seq::empty(), buf, front);
        let p = starts.last();
        let serial = serial_at(buf, p);
        let d = demux_from(Seq::empty(), buf, starts);
        lemma_stream_index_bounds(u, serial);
        assert forall|i: int| 0 <= i < d.len() implies exists|j: int| 0 <= j < starts.len() && (#[trigger] d[i]).serial
            == serial_at(buf, #[trigger] starts[j]) by {
            if i < u.len() && !(stream_index(u, serial) == Some(i)) {
                assert(d[i] == u[i]);
                let j = choose|j: int| 0 <= j < front.len() && u[i].serial == serial_at(buf, #[trigger] front[j]);
                assert(front[j] == starts[j]);
            } else {
                let st = if i < u.len() { u[i] } else { new_stream(serial) };
                lemma_page_segments_serial(st, buf, p, buf[p + 26] as nat);
                if i < u.len() {
                    let j = choose|j: int| 0 <= j < front.len() && u[i].serial == serial_at(buf, #[trigger] front[j]);
                    assert(front[j] == starts[j]);
                } else {
                    assert(d[i].serial == serial);
                    assert(starts[starts.len() - 1] == p);
                }
            }
        }
    }
}

/// Glued chunks read back in order: when the pages of `a` reach exactly to
/// its end and no page of `b` carries the serial of a page of `a`, reading
/// `a + b` gives the streams of `a` followed by the streams of `b`.
pub proof fn lemma_glued_streams_read_in_order(a: Seq<u8>, b: Seq<u8>)
    requires
        pages_cover(a, 0),
        forall|i: int, j: int|
            0 <= i < page_starts(a, 0).len() && 0 <= j < page_starts(b, 0).len() ==> serial_at(
                a,
                #[trigger] page_starts(a, 0)[i],
            ) != serial_at(b, #[trigger] page_starts(b, 0)[j]),
    ensures
        demux(a + b, page_starts(a + b, 0)) == demux(a, page_starts(a, 0)) + demux(b, page_starts(b, 0)),
{
    let sa = page_starts(a, 0);
    let sb = page_starts(b, 0);
    let sh = sb.map_values(|q: int| q + a.len());
    lemma_starts_concat(a, b, 0);
    lemma_page_starts_chain(a, 0);
    lemma_page_starts_chain(b, 0);
    lemma_demux_is_demux_from(a + b, sa + sh);
    lemma_demux_from_concat(Seq::empty(), a + b, sa, sh);
    lemma_demux_from_front(Seq::empty(), a, b, sa);
    let t = demux_from(Seq::empty(), a, sa);
    lemma_demux_is_demux_from(a, sa);
    lemma_demux_from_back(t, a, b, sb);
    lemma_stream_serials(a, sa);
    assert forall|i: int, j: int| 0 <= i < t.len() && 0 <= j < sb.len() implies (#[trigger] t[i]).serial
        != serial_at(b, #[trigger] sb[j]) by {
        let k = choose|k: int| 0 <= k < sa.len() && t[i].serial == serial_at(a, #[trigger] sa[k]);
    }
    lemma_demux_from_append(t, b, sb);
    lemma_demux_is_demux_from(b, sb);
}


/// Complete pages of `b` remain complete pages, shifted, after `a`.
proof fn lemma_cover_shift(a: Seq<u8>, b: Seq<u8>, off: int)
    requires
        0 <= off,
        pages_cover(b, off),
    ensures
        pages_cover(a + b, a.len() + off),
    decreases b.len() - off,
{
    if off != b.len() {
        let e = page_end(b, off)->0;
        lemma_page_end_advances(b, off);
        assert(b.subrange(off, e) =~= (a + b).subrange(a.len() + off, a.len() + off + (e - off)));
        lemma_page_end_window(b, off, a + b, a.len() + off, e - off);
        lemma_cover_shift(a, b, e);
    }
}

/// Buffers tiled by complete pages stay tiled when concatenated.
proof fn lemma_cover_concat(a: Seq<u8>, b: Seq<u8>, off: int)
    requires
        0 <= off,
        pages_cover(a, off),
        pages_cover(b, 0),
    ensures
        pages_cover(a + b, off),
    decreases a.len() - off,
{
    if off == a.len() {
        lemma_cover_shift(a, b, 0);
    } else {
        let e = page_end(a, off)->0;
        lemma_page_end_advances(a, off);
        assert(a.subrange(off, e) =~= (a + b).subrange(off, off + (e - off)));
        lemma_page_end_window(a, off, a + b, off, e - off);
        lemma_cover_concat(a, b, e);
    }
}

proof fn lemma_chunks_cover(cs: Seq<Seq<u8>>)
    requires
        forall|k: int| 0 <= k < cs.len() ==> pages_cover(#[trigger] cs[k], 0),
    ensures
        pages_cover(concat_bytes(cs), 0),
    decreases cs.len(),
{
    if cs.len() > 0 {
        let front = cs.drop_last();
        assert forall|k: int| 0 <= k < front.len() implies pages_cover(#[trigger] front[k], 0) by {
            assert(front[k] == cs[k]);
        }
        lemma_chunks_cover(front);
        assert(pages_cover(cs[cs.len() - 1], 0));
        lemma_cover_concat(concat_bytes(front), cs.last(), 0);
    }
}

/// Whether some page of some chunk of `cs` carries `serial`.
pub open spec fn chunk_has_serial(cs: Seq<Seq<u8>>, serial: u32) -> bool {
    exists|k: int, j: int|
        0 <= k < cs.len() && 0 <= j < page_starts(cs[k], 0).len() && serial_at(
            #[trigger] cs[k],
            #[trigger] page_starts(cs[k], 0)[j],
        ) == serial
}

/// Every page of glued chunks carries the serial of a page of one of them.
proof fn lemma_glued_serials(cs: Seq<Seq<u8>>)
    requires
        forall|k: int| 0 <= k < cs.len() - 1 ==> pages_cover(#[trigger] cs[k], 0),
    ensures
        ({
            let g = concat_bytes(cs);
            forall|i: int|
                0 <= i < page_starts(g, 0).len() ==> chunk_has_serial(cs, serial_at(g, #[trigger] page_starts(g, 0)[i]))
        }),
    decreases cs.len(),
{
    if cs.len() == 0 {
        assert(page_end(Seq::<u8>::empty(), 0) is None);
    } else {
        let front = cs.drop_last();
        let a = concat_bytes(front);
        let b = cs.last();
        assert forall|k: int| 0 <= k < front.len() - 1 implies pages_cover(#[trigger] front[k], 0) by {
            assert(front[k] == cs[k]);
        }
        lemma_glued_serials(front);
        assert forall|k: int| 0 <= k < front.len() implies pages_cover(#[trigger] front[k], 0) by {
            assert(front[k] == cs[k]);
        }
        lemma_chunks_cover(front);
        lemma_starts_concat(a, b, 0);
        lemma_page_starts_chain(a, 0);
        lemma_page_starts_chain(b, 0);
        let sa = page_starts(a, 0);
        let sb = page_starts(b, 0);
        let g = concat_bytes(cs);
        assert(g == a + b);
        assert forall|i: int| 0 <= i < page_starts(g, 0).len() implies chunk_has_serial(
            cs,
            serial_at(g, #[trigger] page_starts(g, 0)[i]),
        ) by {
            if i < sa.len() {
                let p = sa[i];
                assert(page_starts(g, 0)[i] == p);
                assert(page_end(a, sa[i]) is Some);
                let e = page_end(a, p)->0;
                assert(a.subrange(p, e) =~= g.subrange(p, p + (e - p)));
                lemma_page_step_window(new_stream(0), a, p, g, p, e - p);
                assert(chunk_has_serial(front, serial_at(a, sa[i])));
                let (k, j) = choose|k: int, j: int|
                    0 <= k < front.len() && 0 <= j < page_starts(front[k], 0).len() && serial_at(
                        #[trigger] front[k],
                        #[trigger] page_starts(front[k], 0)[j],
                    ) == serial_at(a, sa[i]);
                assert(front[k] == cs[k]);
                assert(serial_at(cs[k], page_starts(cs[k], 0)[j]) == serial_at(g, p));
            } else {
                let j = i - sa.len();
                let q = sb[j];
                assert(page_starts(g, 0)[i] == a.len() + q);
                assert(page_end(b, sb[j]) is Some);
                let e = page_end(b, q)->0;
                assert(b.subrange(q, e) =~= g.subrange(a.len() + q, a.len() + q + (e - q)));
                lemma_page_step_window(new_stream(0), b, q, g, a.len() + q, e - q);
                let k = cs.len() - 1;
                assert(cs[k] == b);
                assert(serial_at(cs[k], page_starts(cs[k], 0)[j]) == serial_at(g, a.len() + q));
            }
        }
    }
}

/// The streams of each chunk on its own, chunk after chunk.
pub open spec fn chunk_streams(cs: Seq<Seq<u8>>) -> Seq<StreamPackets>
    decreases cs.len(),
{
    if cs.len() == 0 {
        Seq::empty()
    } else {
        chunk_streams(cs.drop_last()) + demux(cs.last(), page_starts(cs.last(), 0))
    }
}

/// Glued chunks decode in order: when every chunk but the last is whole
/// pages through to its end and no two chunks share a serial, reading the
/// glued bytes gives each chunk's streams, chunk after chunk.
pub proof fn lemma_glued_chunks_read_in_order(cs: Seq<Seq<u8>>)
    requires
        forall|k: int| 0 <= k < cs.len() - 1 ==> pages_cover(#[trigger] cs[k], 0),
        forall|k1: int, k2: int, i: int, j: int|
            0 <= k1 < k2 < cs.len() && 0 <= i < page_starts(cs[k1], 0).len() && 0 <= j < page_starts(
                cs[k2],
                0,
            ).len() ==> serial_at(#[trigger] cs[k1], #[trigger] page_starts(cs[k1], 0)[i]) != serial_at(
                #[trigger] cs[k2],
                #[trigger] page_starts(cs[k2], 0)[j],
            ),
    ensures
        demux(concat_bytes(cs), page_starts(concat_bytes(cs), 0)) == chunk_streams(cs),
    decreases cs.len(),
{
    if cs.len() == 0 {
        assert(page_end(Seq::<u8>::empty(), 0) is None);
        assert(page_starts(Seq::<u8>::empty(), 0) =~= Seq::<int>::empty());
    } else {
        let front = cs.drop_last();
        let a = concat_bytes(front);
        let b = cs.last();
        let last = cs.len() - 1;
        assert forall|k: int| 0 <= k < front.len() - 1 implies pages_cover(#[trigger] front[k], 0) by {
            assert(front[k] == cs[k]);
        }
        assert forall|k1: int, k2: int, i: int, j: int|
            0 <= k1 < k2 < front.len() && 0 <= i < page_starts(front[k1], 0).len() && 0 <= j
                < page_starts(front[k2], 0).len() implies serial_at(
            #[trigger] front[k1],
            #[trigger] page_starts(front[k1], 0)[i],
        ) != serial_at(#[trigger] front[k2], #[trigger] page_starts(front[k2], 0)[j]) by {
            assert(front[k1] == cs[k1]);
            assert(front[k2] == cs[k2]);
        }
        lemma_glued_chunks_read_in_order(front);
        assert forall|k: int| 0 <= k < front.len() implies pages_cover(#[trigger] front[k], 0) by {
            assert(front[k] == cs[k]);
        }
        lemma_chunks_cover(front);
        lemma_glued_serials(front);
        let sa = page_starts(a, 0);
        let sb = page_starts(b, 0);
        assert(cs[last] == b);
        assert forall|i: int, j: int| 0 <= i < sa.len() && 0 <= j < sb.len() implies serial_at(
            a,
            #[trigger] sa[i],
        ) != serial_at(b, #[trigger] sb[j]) by {
            assert(chunk_has_serial(front, serial_at(a, sa[i])));
            let (k, m) = choose|k: int, m: int|
                0 <= k < front.len() && 0 <= m < page_starts(front[k], 0).len() && serial_at(
                    #[trigger] front[k],
                    #[trigger] page_starts(front[k], 0)[m],
                ) == serial_at(a, sa[i]);
            assert(front[k] == cs[k]);
            assert(serial_at(cs[k], page_starts(cs[k], 0)[m]) != serial_at(cs[last], page_starts(cs[last], 0)[j]));
        }
        lemma_glued_streams_read_in_order(a, b);
        assert(concat_bytes(cs) == a + b);
    }
}


/// One page of a stream, as a writer lays it down: its header type,
/// granule and sequence number, and the whole packets it holds.
pub struct PacketPage {
    pub header_type: u8,
    pub granule: u64,
    pub page_seq: u32,
    pub packets: Seq<Seq<u8>>,
}

/// The bytes of `pages`, all of stream `serial`, one after another.
pub open spec fn packet_pages(serial: u32, pages: Seq<PacketPage>) -> Seq<u8>
    decreases pages.len(),
{
    if pages.len() == 0 {
        Seq::empty()
    } else {
        let pg = pages.last();
        packet_pages(serial, pages.drop_last()) + ogg_page(
            pg.header_type,
            pg.granule,
            serial,
            pg.page_seq,
            packets_lacing(pg.packets),
            packets_body(pg.packets),
        )
    }
}

/// The packets of `pages`, page after page.
pub open spec fn pages_packets(pages: Seq<PacketPage>) -> Seq<Seq<u8>>
    decreases pages.len(),
{
    if pages.len() == 0 {
        Seq::empty()
    } else {
        pages_packets(pages.drop_last()) + pages.last().packets
    }
}

/// A page placed after `a` reads as it reads on its own.
proof fn lemma_page_step_shift(s: StreamPackets, a: Seq<u8>, page: Seq<u8>)
    requires
        page_end(page, 0) == Some(page.len() as int),
    ensures
        page_step(s, a + page, a.len() as int) == page_step(s, page, 0),
        serial_at(a + page, a.len() as int) == serial_at(page, 0),
{
    let b = a + page;
    assert(page.subrange(0, page.len() as int) =~= b.subrange(a.len() as int, (a.len() + page.len()) as int));
    lemma_page_step_window(s, page, 0, b, a.len() as int, page.len() as int);
}

/// Appending one complete page to bytes tiled by pages: still tiled, and
/// read as the bytes before it, then that page.
proof fn lemma_demux_append_page(a: Seq<u8>, page: Seq<u8>)
    requires
        pages_cover(a, 0),
        page_end(page, 0) == Some(page.len() as int),
    ensures
        pages_cover(a + page, 0),
        demux(a + page, page_starts(a + page, 0)) == demux_step(
            demux(a, page_starts(a, 0)),
            a + page,
            a.len() as int,
        ),
{
    lemma_page_end_advances(page, 0);
    assert(pages_cover(page, page.len() as int));
    assert(pages_cover(page, 0));
    assert(page_end(page, page.len() as int) is None);
    assert(page_starts(page, page.len() as int) =~= Seq::<int>::empty());
    assert(page_starts(page, 0) =~= seq![0int]);
    lemma_cover_concat(a, page, 0);
    let b = a + page;
    lemma_starts_concat(a, page, 0);
    let sa = page_starts(a, 0);
    let sh = page_starts(page, 0).map_values(|q: int| q + a.len());
    assert(sh =~= seq![a.len() as int]);
    lemma_page_starts_chain(a, 0);
    lemma_demux_is_demux_from(b, sa + sh);
    lemma_demux_from_concat(Seq::empty(), b, sa, sh);
    lemma_demux_from_front(Seq::empty(), a, page, sa);
    lemma_demux_is_demux_from(a, sa);
    let t = demux(a, sa);
    assert(demux_from(Seq::empty(), b, sa) == t);
    assert(sh.drop_last() =~= Seq::<int>::empty());
    assert(sh.last() == a.len());
    assert(demux_from(t, b, sh.drop_last()) == t);
    assert(demux_from(t, b, sh) == demux_step(t, b, a.len() as int));
    assert(page_starts(b, 0) == sa + sh);
}

/// What a read gives back of a written stream: pages of one serial, each
/// holding whole packets and none continuing a packet, read back as one
/// stream holding all those packets in order, nothing left buffered.
pub proof fn lemma_stream_of_packet_pages_reads_back(serial: u32, pages: Seq<PacketPage>)
    requires
        pages.len() > 0,
        forall|i: int|
            0 <= i < pages.len() ==> !continued((#[trigger] pages[i]).header_type) && packets_lacing(
                pages[i].packets,
            ).len() <= 255,
    ensures
        ({
            let b = packet_pages(serial, pages);
            demux(b, page_starts(b, 0)) == seq![
                StreamPackets {
                    serial: serial,
                    partial: Seq::empty(),
                    skipping: false,
                    packets: pages_packets(pages),
                },
            ]
        }),
        pages_cover(packet_pages(serial, pages), 0),
    decreases pages.len(),
{
    let front = pages.drop_last();
    let pg = pages.last();
    assert(pages[pages.len() - 1] == pg);
    let a = packet_pages(serial, front);
    let l = packets_lacing(pg.packets);
    let body = packets_body(pg.packets);
    lemma_packets_sum(pg.packets);
    let page = ogg_page(pg.header_type, pg.granule, serial, pg.page_seq, l, body);
    lemma_built_page_parses(pg.header_type, pg.granule, serial, pg.page_seq, l, body);
    if front.len() > 0 {
        assert forall|i: int| 0 <= i < front.len() implies !continued((#[trigger] front[i]).header_type)
            && packets_lacing(front[i].packets).len() <= 255 by {
            assert(front[i] == pages[i]);
        }
        lemma_stream_of_packet_pages_reads_back(serial, front);
    } else {
        assert(a =~= Seq::<u8>::empty());
        assert(pages_cover(a, 0));
        assert(page_end(a, 0) is None);
        assert(page_starts(a, 0) =~= Seq::<int>::empty());
    }
    lemma_demux_append_page(a, page);
    let b = a + page;
    assert(packet_pages(serial, pages) == b);
    let t = demux(a, page_starts(a, 0));
    lemma_page_step_shift(new_stream(serial), a, page);
    assert(serial_at(page, 0) == serial);
    let total = StreamPackets {
        serial: serial,
        partial: Seq::empty(),
        skipping: false,
        packets: pages_packets(pages),
    };
    if front.len() > 0 {
        let st = StreamPackets {
            serial: serial,
            partial: Seq::empty(),
            skipping: false,
            packets: pages_packets(front),
        };
        assert(stream_index(t, serial) == Some(0int));
        lemma_page_step_shift(st, a, page);
        lemma_page_of_packets_reads_back(pg.header_type, pg.granule, serial, pg.page_seq, pg.packets, st);
        assert(t.update(0, page_step(st, b, a.len() as int)) =~= seq![total]);
    } else {
        assert(stream_index(t, serial) is None);
        lemma_page_of_packets_reads_back(
            pg.header_type,
            pg.granule,
            serial,
            pg.page_seq,
            pg.packets,
            new_stream(serial),
        );
        assert(pages_packets(pages) =~= Seq::<Seq<u8>>::empty() + pg.packets);
        assert(t.push(page_step(new_stream(serial), b, a.len() as int)) =~= seq![total]);
    }
}

/// A logical stream being read.
pub struct StreamState {
    pub serial: u32,
    pub partial: Vec<u8>,
    pub skipping: bool,
    pub packets: Vec<Vec<u8>>,
}

pub open spec fn stream_view(s: StreamState) -> StreamPackets {
    StreamPackets {
        serial: s.serial,
        partial: s.partial@,
        skipping: s.skipping,
        packets: s.packets@.map_values(|p: Vec<u8>| p@),
    }
}

pub open spec fn streams_view(v: Seq<StreamState>) -> Seq<StreamPackets> {
    v.map_values(|s: StreamState| stream_view(s))
}

fn enter_page_exec(st: &mut StreamState, header_type: u8)
    ensures
        stream_view(*final(st)) == enter_page(stream_view(*old(st)), header_type),
{
    let cont = header_type % 2 == 1;
    if cont && st.partial.len() == 0 {
        st.skipping = true;
    } else if !cont && st.partial.len() > 0 {
        st.partial.clear();
    }
    proof {
        assert(stream_view(*st) =~= enter_page(stream_view(*old(st)), header_type));
    }
}

fn seg_step_exec(st: &mut StreamState, lace: u8, data: &[u8], lo: usize)
    requires
        lo + lace <= data@.len(),
    ensures
        stream_view(*final(st)) == seg_step(
            stream_view(*old(st)),
            lace,
            data@.subrange(lo as int, lo + lace as int),
        ),
{
    let ghost before = stream_view(*st);
    let ghost seg = data@.subrange(lo as int, lo + lace as int);
    if st.skipping {
        if lace < 255 {
            st.skipping = false;
        }
        proof {
            assert(stream_view(*st) =~= seg_step(before, lace, seg));
        }
        return;
    }
    assert(data@.len() == data.len());
    let hi = lo + lace as usize;
    let mut k: usize = lo;
    while k < hi
        invariant
            lo <= k <= hi,
            hi == lo + lace,
            hi <= data@.len(),
            st.partial@ == before.partial + data@.subrange(lo as int, k as int),
            st.serial == before.serial,
            st.skipping == before.skipping,
            st.packets@.map_values(|p: Vec<u8>| p@) == before.packets,
        decreases hi - k,
    {
        st.partial.push(data[k]);
        k = k + 1;
        proof {
            assert(st.partial@ =~= before.partial + data@.subrange(lo as int, k as int));
        }
    }
    if lace < 255 {
        let mut packet: Vec<u8> = Vec::new();
        std::mem::swap(&mut packet, &mut st.partial);
        st.packets.push(packet);
        proof {
            assert(st.packets@.map_values(|p: Vec<u8>| p@) =~= before.packets.push(before.partial + seg));
        }
    }
    proof {
        assert(stream_view(*st) =~= seg_step(before, lace, seg));
    }
}

/// Read the complete page at `pos` into its stream.
fn read_page(st: &mut StreamState, data: &[u8], pos: usize, end: usize)
    requires
        page_end(data@, pos as int) == Some(end as int),
    ensures
        stream_view(*final(st)) == page_step(stream_view(*old(st)), data@, pos as int),
{
    proof {
        lemma_page_end_advances(data@, pos as int);
    }
    let nsegs = data[pos + 26] as usize;
    let header_end = pos + 27 + nsegs;
    let ghost lacing = data@.subrange(pos + 27, header_end as int);
    assert(end == header_end + sum_u8(lacing));
    enter_page_exec(st, data[pos + 5]);
    let mut i: usize = 0;
    let mut off: usize = header_end;
    proof {
        assert(data@.subrange(pos + 27, pos + 27 + 0) =~= Seq::<u8>::empty());
    }
    while i < nsegs
        invariant
            page_end(data@, pos as int) == Some(end as int),
            nsegs == data@[pos + 26],
            header_end == pos + 27 + nsegs,
            lacing == data@.subrange(pos + 27, header_end as int),
            end == header_end + sum_u8(lacing),
            end <= data@.len(),
            i <= nsegs,
            off == header_end + sum_u8(lacing.subrange(0, i as int)),
            off == seg_start(data@, pos as int, i as int),
            stream_view(*st) == page_segments(stream_view(*old(st)), data@, pos as int, i as nat),
        decreases nsegs - i,
    {
        let lace = data[pos + 27 + i];
        proof {
            assert(lacing.subrange(0, i as int + 1).drop_last() =~= lacing.subrange(0, i as int));
            assert(lacing.subrange(0, i as int + 1).last() == lace);
            lemma_prefix_sum_le(lacing, i as int + 1);
            assert(data@.subrange(pos + 27, pos + 27 + i + 1) =~= lacing.subrange(0, i as int + 1));
            assert(data@.subrange(pos + 27, pos + 27 + i) =~= lacing.subrange(0, i as int));
        }
        seg_step_exec(st, lace, data, off);
        off = off + lace as usize;
        i = i + 1;
    }
}

/// The streams `t`, held in `held` under their serials, `order` giving
/// the serials in the order of `t` (each once).
pub open spec fn streams_held(order: Seq<u32>, held: Map<u32, StreamState>, t: Seq<StreamPackets>) -> bool {
    &&& order.len() == t.len()
    &&& forall|i: int, j: int| 0 <= i < j < order.len() ==> order[i] != order[j]
    &&& forall|i: int| 0 <= i < t.len() ==> (#[trigger] t[i]).serial == order[i]
    &&& forall|i: int|
        0 <= i < order.len() ==> held.contains_key(#[trigger] order[i]) && stream_view(held[order[i]]) == t[i]
    &&& forall|s: u32| #[trigger] held.contains_key(s) ==> exists|i: int| 0 <= i < order.len() && order[i] == s
}

proof fn lemma_stream_index_present(t: Seq<StreamPackets>, serial: u32, i: int)
    requires
        0 <= i < t.len(),
        t[i].serial == serial,
    ensures
        stream_index(t, serial) is Some,
    decreases t.len(),
{
    if t.last().serial != serial {
        assert(i != t.len() - 1);
        assert(t.drop_last()[i] == t[i]);
        lemma_stream_index_present(t.drop_last(), serial, i);
    }
}

/// Looking a serial up among held streams agrees with [`stream_index`].
proof fn lemma_stream_index_held(order: Seq<u32>, held: Map<u32, StreamState>, t: Seq<StreamPackets>, serial: u32)
    requires
        streams_held(order, held, t),
    ensures
        match stream_index(t, serial) {
            Some(i) => 0 <= i < t.len() && order[i] == serial && held.contains_key(serial),
            None => !held.contains_key(serial),
        },
{
    lemma_stream_index_bounds(t, serial);
    if let Some(i) = stream_index(t, serial) {
        assert(t[i].serial == order[i]);
        assert(held.contains_key(order[i]));
    } else if held.contains_key(serial) {
        let i = choose|i: int| 0 <= i < order.len() && order[i] == serial;
        assert(t[i].serial == order[i]);
        lemma_stream_index_present(t, serial, i);
    }
}

/// One logical stream of a file: its serial and its packets in order.
pub struct DemuxedStream {
    pub serial: u32,
    pub packets: Vec<Vec<u8>>,
}

/// The logical streams of an Ogg/Opus file (see [`demux`]), read up to the
/// first incomplete page.
pub fn demux_ogg(data: &[u8]) -> (r: Vec<DemuxedStream>)
    ensures
        ({
            let d = demux(data@, page_starts(data@, 0));
            &&& r@.len() == d.len()
            &&& forall|i: int|
                0 <= i < d.len() ==> #[trigger] r@[i].serial == d[i].serial && r@[i].packets@.map_values(
                    |p: Vec<u8>| p@,
                ) == d[i].packets
        }),
{
    let mut order: Vec<u32> = Vec::new();
    let mut streams: HashMap<u32, StreamState> = HashMap::new();
    let mut pos: usize = 0;
    let ghost mut prefix: Seq<int> = Seq::empty();
    proof {
        assert(prefix + page_starts(data@, 0) =~= page_starts(data@, 0));
    }
    loop
        invariant
            pos <= data@.len(),
            page_starts(data@, 0) == prefix + page_starts(data@, pos as int),
            streams_held(order@, streams@, demux(data@, prefix)),
        ensures
            page_starts(data@, 0) == prefix,
            streams_held(order@, streams@, demux(data@, prefix)),
        decreases data@.len() - pos,
    {
        match next_page_end(data, pos) {
            None => {
                proof {
                    assert(page_starts(data@, pos as int) =~= Seq::<int>::empty());
                    assert(prefix + Seq::<int>::empty() =~= prefix);
                }
                break;
            },
            Some(next) => {
                proof {
                    lemma_page_end_advances(data@, pos as int);
                }
                let serial: u32 = (data[pos + 14] as u32) | ((data[pos + 15] as u32) << 8u32) | ((
                data[pos + 16] as u32) << 16u32) | ((data[pos + 17] as u32) << 24u32);
                let ghost t0 = demux(data@, prefix);
                let ghost p2 = prefix.push(pos as int);
                proof {
                    assert(p2.drop_last() =~= prefix);
                    assert(p2.last() == pos as int);
                    lemma_stream_index_held(order@, streams@, t0, serial);
                }
                let ghost t1: Seq<StreamPackets>;
                let ghost k: int;
                if !streams.contains_key(&serial) {
                    let fresh = StreamState { serial, partial: Vec::new(), skipping: false, packets: Vec::new() };
                    proof {
                        assert(fresh.partial@ =~= Seq::<u8>::empty());
                        assert(fresh.packets@.map_values(|p: Vec<u8>| p@) =~= Seq::<Seq<u8>>::empty());
                        assert(stream_view(fresh) == new_stream(serial));
                    }
                    let ghost held0 = streams@;
                    let ghost order0 = order@;
                    streams.insert(serial, fresh);
                    order.push(serial);
                    proof {
                        t1 = t0.push(new_stream(serial));
                        k = t0.len() as int;
                        assert forall|i: int| 0 <= i < order@.len() implies streams@.contains_key(#[trigger] order@[i])
                            && stream_view(streams@[order@[i]]) == t1[i] by {
                            if i < order0.len() {
                                assert(order@[i] == order0[i]);
                                assert(held0.contains_key(order0[i]));
                                assert(order0[i] != serial);
                            }
                        }
                        assert forall|s: u32| #[trigger] streams@.contains_key(s) implies exists|i: int|
                            0 <= i < order@.len() && order@[i] == s by {
                            if s == serial {
                                assert(order@[k] == s);
                            } else {
                                assert(held0.contains_key(s));
                                let i = choose|i: int| 0 <= i < order0.len() && order0[i] == s;
                                assert(order@[i] == s);
                            }
                        }
                        assert forall|i: int, j: int| 0 <= i < j < order@.len() implies order@[i] != order@[j] by {
                            if j == order0.len() {
                                assert(held0.contains_key(order0[i]));
                            } else {
                                assert(order@[i] == order0[i] && order@[j] == order0[j]);
                            }
                        }
                        assert(forall|i: int| 0 <= i < t1.len() ==> (#[trigger] t1[i]).serial == order@[i]);
                        assert(streams_held(order@, streams@, t1));
                    }
                } else {
                    proof {
                        t1 = t0;
                        k = stream_index(t0, serial)->0;
                    }
                }
                proof {
                    assert(t1[k].serial == serial);
                    assert(order@[k] == serial);
                    assert(demux(data@, p2) == t1.update(k, page_step(t1[k], data@, pos as int)));
                }
                let ghost held1 = streams@;
                let removed = streams.remove(&serial);
                let mut st = match removed {
                    Some(st) => st,
                    None => {
                        proof {
                            assert(false);
                        }
                        StreamState { serial, partial: Vec::new(), skipping: false, packets: Vec::new() }
                    },
                };
                proof {
                    assert(st == held1[serial]);
                    assert(stream_view(st) == t1[k]);
                }
                read_page(&mut st, data, pos, next);
                let ghost after = stream_view(st);
                streams.insert(serial, st);
                proof {
                    let t2 = t1.update(k, after);
                    lemma_page_segments_serial(t1[k], data@, pos as int, data@[pos + 26] as nat);
                    assert(streams@ == held1.insert(serial, st));
                    assert forall|i: int| 0 <= i < order@.len() implies streams@.contains_key(#[trigger] order@[i])
                        && stream_view(streams@[order@[i]]) == t2[i] by {
                        if i != k {
                            assert(order@[i] != serial);
                            assert(held1.contains_key(order@[i]));
                        }
                    }
                    assert forall|s: u32| #[trigger] streams@.contains_key(s) implies exists|i: int|
                        0 <= i < order@.len() && order@[i] == s by {
                        if s == serial {
                            assert(order@[k] == s);
                        } else {
                            assert(held1.contains_key(s));
                        }
                    }
                    assert(forall|i: int| 0 <= i < t2.len() ==> (#[trigger] t2[i]).serial == order@[i]);
                    assert(streams_held(order@, streams@, t2));
                }
                proof {
                    assert(page_starts(data@, pos as int) == seq![pos as int] + page_starts(
                        data@,
                        next as int,
                    ));
                    assert(prefix + page_starts(data@, pos as int) =~= p2 + page_starts(
                        data@,
                        next as int,
                    ));
                    prefix = p2;
                }
                pos = next;
            },
        }
    }
    let ghost d = demux(data@, prefix);
    let mut out: Vec<DemuxedStream> = Vec::new();
    let mut i: usize = 0;
    while i < order.len()
        invariant
            i <= order@.len(),
            order@.len() == d.len(),
            out@.len() == i,
            forall|a: int, b: int| 0 <= a < b < order@.len() ==> order@[a] != order@[b],
            forall|j: int| 0 <= j < d.len() ==> (#[trigger] d[j]).serial == order@[j],
            forall|j: int|
                i <= j < order@.len() ==> streams@.contains_key(#[trigger] order@[j]) && stream_view(
                    streams@[order@[j]],
                ) == d[j],
            forall|j: int|
                0 <= j < i ==> #[trigger] out@[j].serial == d[j].serial && out@[j].packets@.map_values(
                    |p: Vec<u8>| p@,
                ) == d[j].packets,
        decreases order@.len() - i,
    {
        let serial = order[i];
        let ghost held = streams@;
        let removed = streams.remove(&serial);
        let st = match removed {
            Some(st) => st,
            None => {
                proof {
                    assert(held.contains_key(order@[i as int]));
                    assert(false);
                }
                StreamState { serial, partial: Vec::new(), skipping: false, packets: Vec::new() }
            },
        };
        proof {
            assert(stream_view(st) == d[i as int]);
            assert forall|j: int| i + 1 <= j < order@.len() implies streams@.contains_key(#[trigger] order@[j])
                && stream_view(streams@[order@[j]]) == d[j] by {
                assert(order@[j] != order@[i as int]);
                assert(held.contains_key(order@[j]));
            }
        }
        out.push(DemuxedStream { serial: st.serial, packets: st.packets });
        i = i + 1;
    }
    out
}

/// The pre-skip (encoder lookahead at 48 kHz) an OpusHead packet states,
/// in 16 kHz samples: 0 for a packet that is no OpusHead.
pub open spec fn head_pre_skip_16k(packet: Seq<u8>) -> nat {
    if packet.len() >= 12 && packet.subrange(0, 8) == seq![0x4fu8, 0x70u8, 0x75u8, 0x73u8, 0x48u8, 0x65u8, 0x61u8, 0x64u8] {
        ((packet[10] as nat + 256 * packet[11] as nat) / 3) as nat
    } else {
        0
    }
}

/// What a stream's reader does with its packets: empty packets are
/// ignored; the first one is the OpusHead (its pre-skip is kept), the
/// second the OpusTags (or, in a malformed stream, a lost first audio
/// packet); every later one is audio to decode. The pre-skip is then
/// dropped from the front of the decoded audio.
pub struct OpusPacketReader {
    pub headers_seen: u8,
    pub pre_skip_16k: usize,
}

impl OpusPacketReader {
    pub fn new() -> (r: Self)
        ensures
            r.headers_seen == 0 && r.pre_skip_16k == 0,
    {
        OpusPacketReader { headers_seen: 0, pre_skip_16k: 0 }
    }

    /// Take one packet; `true` when it is audio to decode.
    pub fn on_packet(&mut self, packet: &[u8]) -> (decode: bool)
        requires
            old(self).headers_seen <= 2,
        ensures
            final(self).headers_seen <= 2,
            packet@.len() == 0 ==> !decode && *final(self) == *old(self),
            packet@.len() > 0 && old(self).headers_seen == 0 ==> !decode && final(self).headers_seen == 1
                && final(self).pre_skip_16k == head_pre_skip_16k(packet@),
            packet@.len() > 0 && old(self).headers_seen == 1 ==> !decode && final(self).headers_seen == 2
                && final(self).pre_skip_16k == old(self).pre_skip_16k,
            packet@.len() > 0 && old(self).headers_seen == 2 ==> decode && *final(self) == *old(self),
    {
        if packet.len() == 0 {
            return false;
        }
        if self.headers_seen == 0 {
            let magic = packet.len() >= 12 && packet[0] == 0x4f && packet[1] == 0x70 && packet[2]
                == 0x75 && packet[3] == 0x73 && packet[4] == 0x48 && packet[5] == 0x65 && packet[6]
                == 0x61 && packet[7] == 0x64;
            proof {
                let m = seq![0x4fu8, 0x70u8, 0x75u8, 0x73u8, 0x48u8, 0x65u8, 0x61u8, 0x64u8];
                if packet@.len() >= 12 {
                    if magic {
                        assert(packet@.subrange(0, 8) =~= m);
                    } else {
                        assert(packet@.subrange(0, 8) != m) by {
                            if packet@.subrange(0, 8) == m {
                                assert(packet@.subrange(0, 8)[0] == packet@[0]);
                                assert(packet@.subrange(0, 8)[1] == packet@[1]);
                                assert(packet@.subrange(0, 8)[2] == packet@[2]);
                                assert(packet@.subrange(0, 8)[3] == packet@[3]);
                                assert(packet@.subrange(0, 8)[4] == packet@[4]);
                                assert(packet@.subrange(0, 8)[5] == packet@[5]);
                                assert(packet@.subrange(0, 8)[6] == packet@[6]);
                                assert(packet@.subrange(0, 8)[7] == packet@[7]);
                            }
                        }
                    }
                }
            }
            self.pre_skip_16k = if magic {
                (packet[10] as usize + 256 * packet[11] as usize) / 3
            } else {
                0
            };
            self.headers_seen = 1;
            return false;
        }
        if self.headers_seen == 1 {
            self.headers_seen = 2;
            return false;
        }
        true
    }

    /// How many samples to drop from the front of `produced` freshly
    /// decoded samples: what is left of the pre-skip, at most all of them.
    pub fn trim(&mut self, produced: usize) -> (drop: usize)
        ensures
            drop == if old(self).pre_skip_16k <= produced {
                old(self).pre_skip_16k
            } else {
                produced
            },
            final(self).pre_skip_16k == old(self).pre_skip_16k - drop,
            final(self).headers_seen == old(self).headers_seen,
    {
        let drop = if self.pre_skip_16k <= produced {
            self.pre_skip_16k
        } else {
            produced
        };
        self.pre_skip_16k = self.pre_skip_16k - drop;
        drop
    }
}

/// The audio formats files are decoded from.
#[derive(Clone, Copy, Debug, PartialEq, Eq, Structural)]
pub enum AudioFormat {
    Wav,
    OggOpus,
}

/// The format of a file by its extension (`None`: no UTF-8 extension),
/// compared in ASCII lowercase: `wav`, or `ogg`/`opus`; any other is
/// refused, naming it.
pub fn audio_format(extension: Option<&str>) -> (r: Result<AudioFormat, String>)
    ensures
        ({
            let ext = match extension {
                Some(e) => ascii_lowercase(e@),
                None => Seq::<char>::empty(),
            };
            &&& ext == "wav"@ ==> r == Ok::<AudioFormat, String>(AudioFormat::Wav)
            &&& (ext == "ogg"@ || ext == "opus"@) ==> r == Ok::<AudioFormat, String>(AudioFormat::OggOpus)
            &&& (ext != "wav"@ && ext != "ogg"@ && ext != "opus"@) ==> (r matches Err(m) && m@
                == "unsupported audio format '."@ + ext + "' (supported: .wav, .ogg, .opus)"@)
        }),
{
    let ext = match extension {
        Some(e) => to_ascii_lowercase(e),
        None => String::new(),
    };
    proof {
        reveal_strlit("wav");
        reveal_strlit("ogg");
        reveal_strlit("opus");
        assert("wav"@.len() == 3 && "ogg"@.len() == 3 && "opus"@.len() == 4);
        assert("wav"@[0] != "ogg"@[0]);
    }
    if str_eq(ext.as_str(), "wav") {
        Ok(AudioFormat::Wav)
    } else if str_eq(ext.as_str(), "ogg") || str_eq(ext.as_str(), "opus") {
        Ok(AudioFormat::OggOpus)
    } else {
        let mut m = String::new();
        m.append("unsupported audio format '.");
        m.append(ext.as_str());
        m.append("' (supported: .wav, .ogg, .opus)");
        Err(m)
    }
}

} // verus!
