//! Ogg page framing for the crash-safe Opus recording chunks: the page CRC,
//! lacing, page assembly, a packet-to-page muxer, and the repair of a file
//! whose last page was torn by a crash.
use crate::demux::{
    continued, demux, lemma_stream_of_packet_pages_reads_back, packet_pages, packets_body, packets_lacing,
    pages_packets, PacketPage, StreamPackets,
};
use std::collections::HashMap;
use vstd::std_specs::iter::IteratorSpec;
use vstd::prelude::*;

verus! {

/// One step of the Ogg CRC register: shift left by one bit, folding in the
/// polynomial 0x04C11DB7 when the bit shifted out was set.
pub open spec fn crc_shift(c: u32) -> u32 {
    if c & 0x8000_0000u32 != 0 {
        ((c << 1u32) ^ 0x04c1_1db7u32) as u32
    } else {
        (c << 1u32) as u32
    }
}

/// `n` register shifts.
pub open spec fn crc_shifts(c: u32, n: nat) -> u32
    decreases n,
{
    if n == 0 {
        c
    } else {
        crc_shift(crc_shifts(c, (n - 1) as nat))
    }
}

/// The register after feeding one byte.
pub open spec fn crc_byte(crc: u32, b: u8) -> u32 {
    crc_shifts(crc ^ ((b as u32) << 24u32), 8)
}

/// Ogg CRC-32 of a byte sequence: polynomial 0x04C11DB7, no reflection,
/// initial value 0.
pub open spec fn crc_of(data: Seq<u8>) -> u32
    decreases data.len(),
{
    if data.len() == 0 {
        0
    } else {
        crc_byte(crc_of(data.drop_last()), data.last())
    }
}

/// Ogg CRC of `data[lo..hi]`.
fn crc_of_range(data: &[u8], lo: usize, hi: usize) -> (r: u32)
    requires
        lo <= hi <= data@.len(),
    ensures
        r == crc_of(data@.subrange(lo as int, hi as int)),
{
    let mut crc: u32 = 0;
    let mut i: usize = lo;
    while i < hi
        invariant
            lo <= i <= hi <= data@.len(),
            crc == crc_of(data@.subrange(lo as int, i as int)),
        decreases hi - i,
    {
        let b = data[i];
        let start: u32 = crc ^ ((b as u32) << 24u32);
        let mut c: u32 = start;
        let mut k: usize = 0;
        while k < 8
            invariant
                k <= 8,
                c == crc_shifts(start, k as nat),
            decreases 8 - k,
        {
            if c & 0x8000_0000u32 != 0 {
                c = (c << 1u32) ^ 0x04c1_1db7u32;
            } else {
                c = c << 1u32;
            }
            k = k + 1;
        }
        proof {
            let s = data@.subrange(lo as int, i as int + 1);
            assert(s.drop_last() =~= data@.subrange(lo as int, i as int));
            assert(s.last() == b);
        }
        crc = c;
        i = i + 1;
    }
    crc
}

/// Ogg page CRC of `data` (the page with its CRC field zeroed).
pub fn ogg_crc(data: &[u8]) -> (r: u32)
    ensures
        r == crc_of(data@),
{
    proof {
        assert(data@.subrange(0, data@.len() as int) =~= data@);
    }
    crc_of_range(data, 0, data.len())
}

/// Sum of a byte sequence, each byte read as a length.
pub open spec fn sum_u8(s: Seq<u8>) -> int
    decreases s.len(),
{
    if s.len() == 0 {
        0
    } else {
        sum_u8(s.drop_last()) + s.last() as int
    }
}

/// Lacing values of a packet of `len` bytes: `len / 255` full segments of
/// 255 and one terminating segment of `len % 255` (a 0 when `len` is an
/// exact multiple of 255).
pub open spec fn lacing_of(len: nat) -> Seq<u8> {
    Seq::new(len / 255 + 1, |i: int| if i < len / 255 { 255u8 } else { (len % 255) as u8 })
}

pub proof fn lemma_sum_full_segments(q: nat)
    ensures
        sum_u8(Seq::new(q, |i: int| 255u8)) == 255 * q,
    decreases q,
{
    if q > 0 {
        assert(Seq::new(q, |i: int| 255u8).drop_last() =~= Seq::new((q - 1) as nat, |i: int| 255u8));
        lemma_sum_full_segments((q - 1) as nat);
    }
}

/// The lacing values of a packet add up to the packet's length.
pub proof fn lemma_lacing_sums_to_len(len: nat)
    ensures
        sum_u8(lacing_of(len)) == len,
        lacing_of(len).len() == len / 255 + 1,
{
    let q = len / 255;
    let l = lacing_of(len);
    assert(l.drop_last() =~= Seq::new(q, |i: int| 255u8));
    lemma_sum_full_segments(q);
    vstd::arithmetic::div_mod::lemma_fundamental_div_mod(len as int, 255);
}

/// Lacing segments for a packet of `len` bytes.
pub fn lacing_for(len: usize) -> (r: Vec<u8>)
    ensures
        r@ == lacing_of(len as nat),
        sum_u8(r@) == len,
{
    let mut v: Vec<u8> = Vec::new();
    let mut remaining: usize = len;
    while remaining >= 255
        invariant
            v@ == Seq::new(v@.len(), |i: int| 255u8),
            len == 255 * v@.len() + remaining,
        decreases remaining,
    {
        v.push(255u8);
        remaining = remaining - 255;
    }
    let ghost q = v@.len();
    v.push(remaining as u8);
    proof {
        assert(len as nat / 255 == q && len as nat % 255 == remaining) by (nonlinear_arith)
            requires
                len == 255 * q + remaining,
                remaining < 255,
        ;
        assert(v@ =~= lacing_of(len as nat));
        lemma_lacing_sums_to_len(len as nat);
    }
    v
}

/// Little-endian bytes of a `u16`.
pub open spec fn le_u16(x: u16) -> Seq<u8> {
    seq![x as u8, (x >> 8u16) as u8]
}

/// Little-endian bytes of a `u32`.
pub open spec fn le_u32(x: u32) -> Seq<u8> {
    seq![x as u8, (x >> 8u32) as u8, (x >> 16u32) as u8, (x >> 24u32) as u8]
}

/// Little-endian bytes of a `u64`.
pub open spec fn le_u64(x: u64) -> Seq<u8> {
    seq![
        x as u8,
        (x >> 8u64) as u8,
        (x >> 16u64) as u8,
        (x >> 24u64) as u8,
        (x >> 32u64) as u8,
        (x >> 40u64) as u8,
        (x >> 48u64) as u8,
        (x >> 56u64) as u8,
    ]
}

fn push_le_u16(out: &mut Vec<u8>, x: u16)
    ensures
        final(out)@ == old(out)@ + le_u16(x),
{
    out.push(x as u8);
    out.push((x >> 8u16) as u8);
    proof {
        assert(final(out)@ =~= old(out)@ + le_u16(x));
    }
}

fn push_le_u32(out: &mut Vec<u8>, x: u32)
    ensures
        final(out)@ == old(out)@ + le_u32(x),
{
    out.push(x as u8);
    out.push((x >> 8u32) as u8);
    out.push((x >> 16u32) as u8);
    out.push((x >> 24u32) as u8);
    proof {
        assert(final(out)@ =~= old(out)@ + le_u32(x));
    }
}

fn push_le_u64(out: &mut Vec<u8>, x: u64)
    ensures
        final(out)@ == old(out)@ + le_u64(x),
{
    out.push(x as u8);
    out.push((x >> 8u64) as u8);
    out.push((x >> 16u64) as u8);
    out.push((x >> 24u64) as u8);
    out.push((x >> 32u64) as u8);
    out.push((x >> 40u64) as u8);
    out.push((x >> 48u64) as u8);
    out.push((x >> 56u64) as u8);
    proof {
        assert(final(out)@ =~= old(out)@ + le_u64(x));
    }
}

fn push_all(out: &mut Vec<u8>, src: &[u8])
    ensures
        final(out)@ == old(out)@ + src@,
{
    let mut i: usize = 0;
    while i < src.len()
        invariant
            i <= src.len(),
            out@ == old(out)@ + src@.subrange(0, i as int),
        decreases src.len() - i,
    {
        out.push(src[i]);
        i = i + 1;
        proof {
            assert(out@ =~= old(out)@ + src@.subrange(0, i as int));
        }
    }
    proof {
        assert(src@.subrange(0, src@.len() as int) =~= src@);
    }
}

/// The capture pattern that opens every Ogg page.
pub open spec fn capture_pattern() -> Seq<u8> {
    seq![0x4fu8, 0x67u8, 0x67u8, 0x53u8]
}

/// A page as laid out before its CRC is computed: capture pattern, version
/// 0, header type, granule, serial, sequence number, a zeroed CRC field, the
/// segment count, the segment table and the body.
pub open spec fn page_without_crc(
    header_type: u8,
    granule: u64,
    serial: u32,
    page_seq: u32,
    lacing: Seq<u8>,
    body: Seq<u8>,
) -> Seq<u8> {
    capture_pattern() + seq![0u8, header_type] + le_u64(granule) + le_u32(serial) + le_u32(
        page_seq,
    ) + seq![0u8, 0u8, 0u8, 0u8] + seq![(lacing.len() % 256) as u8] + lacing + body
}

/// `p` with bytes 22..26 replaced by the little-endian CRC of `p`.
pub open spec fn with_crc(p: Seq<u8>) -> Seq<u8> {
    p.subrange(0, 22) + le_u32(crc_of(p)) + p.subrange(26, p.len() as int)
}

/// A complete Ogg page with its CRC stamped in.
pub open spec fn ogg_page(
    header_type: u8,
    granule: u64,
    serial: u32,
    page_seq: u32,
    lacing: Seq<u8>,
    body: Seq<u8>,
) -> Seq<u8> {
    with_crc(page_without_crc(header_type, granule, serial, page_seq, lacing, body))
}

fn stamp_crc(p: &mut Vec<u8>)
    requires
        old(p)@.len() >= 26,
    ensures
        final(p)@ == with_crc(old(p)@),
{
    let crc = ogg_crc(p.as_slice());
    p.set(22, crc as u8);
    p.set(23, (crc >> 8u32) as u8);
    p.set(24, (crc >> 16u32) as u8);
    p.set(25, (crc >> 24u32) as u8);
    proof {
        assert(final(p)@ =~= with_crc(old(p)@));
    }
}

/// Build one complete Ogg page (header + segment table + body) with a
/// correct CRC.
pub fn build_page(
    header_type: u8,
    granule: u64,
    serial: u32,
    page_seq: u32,
    lacing: &[u8],
    body: &[u8],
) -> (r: Vec<u8>)
    requires
        27 + lacing@.len() + body@.len() <= usize::MAX,
    ensures
        r@ == ogg_page(header_type, granule, serial, page_seq, lacing@, body@),
{
    let mut p: Vec<u8> = Vec::new();
    p.push(0x4fu8);
    p.push(0x67u8);
    p.push(0x67u8);
    p.push(0x53u8);
    p.push(0u8);
    p.push(header_type);
    push_le_u64(&mut p, granule);
    push_le_u32(&mut p, serial);
    push_le_u32(&mut p, page_seq);
    p.push(0u8);
    p.push(0u8);
    p.push(0u8);
    p.push(0u8);
    let nsegs: u8 = (lacing.len() % 256) as u8;
    p.push(nsegs);
    push_all(&mut p, lacing);
    push_all(&mut p, body);
    proof {
        assert(p@ =~= page_without_crc(header_type, granule, serial, page_seq, lacing@, body@));
    }
    stamp_crc(&mut p);
    p
}


/// Header-type flag of the first page of a logical stream.
pub const HEADER_BOS: u8 = 0x02;

/// Header-type flag of the last page of a logical stream.
pub const HEADER_EOS: u8 = 0x04;

/// The abstract state of a [`PageMuxer`].
pub struct MuxerState {
    pub serial: u32,
    pub page_seq: u32,
    pub bos_written: bool,
    /// Lacing values of the packets in the page being assembled.
    pub lacing: Seq<u8>,
    /// Bytes of the packets in the page being assembled.
    pub body: Seq<u8>,
    /// Granule of the last packet completed in the current page.
    pub granule: u64,
    pub packets_in_page: u32,
}

/// Accumulates packets into pages and appends whole pages to a byte sink.
pub struct PageMuxer {
    serial: u32,
    page_seq: u32,
    bos_written: bool,
    lacing: Vec<u8>,
    body: Vec<u8>,
    granule: u64,
    packets_in_page: u32,
}

impl View for PageMuxer {
    type V = MuxerState;

    closed spec fn view(&self) -> MuxerState {
        MuxerState {
            serial: self.serial,
            page_seq: self.page_seq,
            bos_written: self.bos_written,
            lacing: self.lacing@,
            body: self.body@,
            granule: self.granule,
            packets_in_page: self.packets_in_page,
        }
    }
}

/// Header type of the next page a muxer in state `m` emits.
pub open spec fn next_header_type(m: MuxerState, eos: bool) -> u8 {
    if !m.bos_written {
        HEADER_BOS
    } else if eos {
        HEADER_EOS
    } else {
        0
    }
}

/// Whether a page is pending or must be emitted anyway.
pub open spec fn flush_emits(m: MuxerState, eos: bool) -> bool {
    m.lacing.len() > 0 || eos
}

/// The bytes a flush of a muxer in state `m` appends.
pub open spec fn flushed_page(m: MuxerState, eos: bool) -> Seq<u8> {
    ogg_page(next_header_type(m, eos), m.granule, m.serial, m.page_seq, m.lacing, m.body)
}

/// The state after a flush that emitted a page.
pub open spec fn after_flush(m: MuxerState) -> MuxerState {
    MuxerState {
        bos_written: true,
        page_seq: (m.page_seq + 1) as u32,
        lacing: Seq::empty(),
        body: Seq::empty(),
        packets_in_page: 0,
        ..m
    }
}

/// Whether adding a packet of `len` bytes to state `m` first flushes the
/// current page (its lacing would overflow the 255-entry segment table).
pub open spec fn add_flushes_first(m: MuxerState, len: nat) -> bool {
    m.lacing.len() > 0 && m.lacing.len() + lacing_of(len).len() > 255
}

impl PageMuxer {
    /// Body and lacing agree, and a page built from them fits in memory.
    pub open spec fn wf(&self) -> bool {
        &&& sum_u8(self@.lacing) == self@.body.len()
        &&& 27 + self@.lacing.len() + self@.body.len() <= usize::MAX
    }

    pub fn new(serial: u32) -> (r: Self)
        ensures
            r.wf(),
            r@ == (MuxerState {
                serial: serial,
                page_seq: 0,
                bos_written: false,
                lacing: Seq::empty(),
                body: Seq::empty(),
                granule: 0,
                packets_in_page: 0,
            }),
    {
        PageMuxer {
            serial,
            page_seq: 0,
            bos_written: false,
            lacing: Vec::new(),
            body: Vec::new(),
            granule: 0,
            packets_in_page: 0,
        }
    }

    /// The sequence number the next emitted page carries.
    pub fn page_seq(&self) -> (r: u32)
        ensures
            r == self@.page_seq,
    {
        self.page_seq
    }

    /// Bytes of the page being assembled.
    pub fn body_len(&self) -> (r: usize)
        ensures
            r == self@.body.len(),
    {
        self.body.len()
    }

    /// Number of packets in the page being assembled.
    pub fn packets_in_page(&self) -> (r: u32)
        ensures
            r == self@.packets_in_page,
    {
        self.packets_in_page
    }

    /// Stamp the granule the next emitted page carries.
    pub fn set_granule(&mut self, granule: u64)
        ensures
            final(self)@ == (MuxerState { granule: granule, ..old(self)@ }),
            old(self).wf() ==> final(self).wf(),
    {
        self.granule = granule;
    }

    /// Emit the current page. With `eos`, an end-of-stream page is emitted
    /// even when empty (a valid zero-length terminating page).
    pub fn flush(&mut self, out: &mut Vec<u8>, eos: bool)
        requires
            old(self).wf(),
            flush_emits(old(self)@, eos) ==> old(self)@.page_seq < u32::MAX,
        ensures
            final(self).wf(),
            flush_emits(old(self)@, eos) ==> {
                &&& final(out)@ == old(out)@ + flushed_page(old(self)@, eos)
                &&& final(self)@ == after_flush(old(self)@)
            },
            !flush_emits(old(self)@, eos) ==> final(out)@ == old(out)@ && final(self)@ == old(self)@,
    {
        if self.lacing.len() == 0 && !eos {
            return;
        }
        let header_type: u8 = if !self.bos_written {
            HEADER_BOS
        } else if eos {
            HEADER_EOS
        } else {
            0
        };
        let page = build_page(
            header_type,
            self.granule,
            self.serial,
            self.page_seq,
            self.lacing.as_slice(),
            self.body.as_slice(),
        );
        push_all(out, page.as_slice());
        self.bos_written = true;
        self.page_seq = self.page_seq + 1;
        self.lacing.clear();
        self.body.clear();
        self.packets_in_page = 0;
        proof {
            assert(sum_u8(self.lacing@) == 0);
        }
    }

    /// Add one packet to the current page, flushing first if it would not
    /// fit in the 255-entry segment table.
    pub fn add_packet(&mut self, data: &[u8], granule: u64, out: &mut Vec<u8>)
        requires
            old(self).wf(),
            old(self)@.packets_in_page < u32::MAX,
            add_flushes_first(old(self)@, data@.len()) ==> old(self)@.page_seq < u32::MAX,
            27 + old(self)@.lacing.len() + old(self)@.body.len() + 2 * data@.len() + 1
                <= usize::MAX,
        ensures
            final(self).wf(),
            ({
                let m = if add_flushes_first(old(self)@, data@.len()) {
                    after_flush(old(self)@)
                } else {
                    old(self)@
                };
                &&& final(out)@ == if add_flushes_first(old(self)@, data@.len()) {
                    old(out)@ + flushed_page(old(self)@, false)
                } else {
                    old(out)@
                }
                &&& final(self)@ == (MuxerState {
                    lacing: m.lacing + lacing_of(data@.len()),
                    body: m.body + data@,
                    granule: granule,
                    packets_in_page: (m.packets_in_page + 1) as u32,
                    ..m
                })
            }),
    {
        let seg = lacing_for(data.len());
        proof {
            lemma_lacing_sums_to_len(data@.len());
            assert(seg@.len() <= data@.len() + 1) by {
                assert(data@.len() / 255 <= data@.len());
            }
        }
        if self.lacing.len() > 0 && self.lacing.len() + seg.len() > 255 {
            self.flush(out, false);
        }
        push_all(&mut self.lacing, seg.as_slice());
        push_all(&mut self.body, data);
        self.granule = granule;
        self.packets_in_page = self.packets_in_page + 1;
        proof {
            lemma_sum_concat(old(self)@.lacing, seg@);
            lemma_sum_concat(Seq::<u8>::empty(), seg@);
            assert(Seq::<u8>::empty() + seg@ =~= seg@);
        }
    }
}

/// The sum over a concatenation is the sum of the sums.
pub proof fn lemma_sum_concat(a: Seq<u8>, b: Seq<u8>)
    ensures
        sum_u8(a + b) == sum_u8(a) + sum_u8(b),
    decreases b.len(),
{
    if b.len() == 0 {
        assert(a + b =~= a);
    } else {
        assert((a + b).drop_last() =~= a + b.drop_last());
        lemma_sum_concat(a, b.drop_last());
    }
}


/// Opus pre-skip, in 48 kHz samples, stamped into every stream this tool
/// writes (the typical libopus encoder lookahead).
pub const PRE_SKIP_48K: u16 = 312;

/// The little-endian `u64` stored at `buf[off..off + 8]`.
pub open spec fn u64_le_at(buf: Seq<u8>, off: int) -> u64 {
    (buf[off] as u64) | ((buf[off + 1] as u64) << 8u64) | ((buf[off + 2] as u64) << 16u64) | ((
    buf[off + 3] as u64) << 24u64) | ((buf[off + 4] as u64) << 32u64) | ((buf[off + 5] as u64)
        << 40u64) | ((buf[off + 6] as u64) << 48u64) | ((buf[off + 7] as u64) << 56u64)
}

/// The little-endian `u32` stored at `buf[off..off + 4]`.
pub open spec fn u32_le_at(buf: Seq<u8>, off: int) -> u32 {
    (buf[off] as u32) | ((buf[off + 1] as u32) << 8u32) | ((buf[off + 2] as u32) << 16u32) | ((
    buf[off + 3] as u32) << 24u32)
}

/// End offset of the complete Ogg page starting at `off`, if one starts
/// there: the capture pattern, a full 27-byte header, a full segment table
/// and a full body all lie inside `buf`.
pub open spec fn page_end(buf: Seq<u8>, off: int) -> Option<int> {
    if 0 <= off && off + 27 <= buf.len() && buf.subrange(off, off + 4) == capture_pattern() {
        let header_end = off + 27 + buf[off + 26] as int;
        if header_end <= buf.len() {
            let end = header_end + sum_u8(buf.subrange(off + 27, header_end));
            if end <= buf.len() {
                Some(end)
            } else {
                None
            }
        } else {
            None
        }
    } else {
        None
    }
}

pub proof fn lemma_sum_u8_nonneg(s: Seq<u8>)
    ensures
        0 <= sum_u8(s) <= 255 * s.len(),
    decreases s.len(),
{
    if s.len() > 0 {
        lemma_sum_u8_nonneg(s.drop_last());
    }
}

pub proof fn lemma_page_end_advances(buf: Seq<u8>, off: int)
    ensures
        page_end(buf, off) matches Some(e) ==> {
            &&& off + 27 <= e <= buf.len()
            &&& off + 27 + buf[off + 26] as int <= e
        },
{
    if page_end(buf, off) is Some {
        let header_end = off + 27 + buf[off + 26] as int;
        lemma_sum_u8_nonneg(buf.subrange(off + 27, header_end));
    }
}

/// Start offsets of the consecutive complete pages from `off` on, stopping
/// at the first offset where no complete page starts.
pub open spec fn page_starts(buf: Seq<u8>, off: int) -> Seq<int>
    decreases buf.len() - off,
{
    match page_end(buf, off) {
        Some(e) => {
            proof {
                lemma_page_end_advances(buf, off);
            }
            seq![off] + page_starts(buf, e)
        },
        None => Seq::empty(),
    }
}

/// Granule field of the page starting at `off`.
pub open spec fn granule_at(buf: Seq<u8>, off: int) -> u64 {
    u64_le_at(buf, off + 6)
}

/// Granule of the last of the pages at `starts` whose granule is not the
/// "no packet finished here" marker `u64::MAX`, or 0 if there is none.
pub open spec fn last_valid_granule(buf: Seq<u8>, starts: Seq<int>) -> u64
    decreases starts.len(),
{
    if starts.len() == 0 {
        0
    } else if granule_at(buf, starts.last()) != u64::MAX {
        granule_at(buf, starts.last())
    } else {
        last_valid_granule(buf, starts.drop_last())
    }
}

/// Samples at 16 kHz that a final granule position stands for.
pub open spec fn samples_for_granule(g: u64) -> u64 {
    if g >= PRE_SKIP_48K as u64 {
        ((g - PRE_SKIP_48K as u64) / 3) as u64
    } else {
        0
    }
}

/// The page at `start` with its header type given the end-of-stream flag
/// and its CRC field zeroed.
pub open spec fn eos_page_unstamped(buf: Seq<u8>, start: int, end: int) -> Seq<u8> {
    let page = buf.subrange(start, end);
    page.update(5, page[5] | HEADER_EOS).update(22, 0).update(23, 0).update(24, 0).update(25, 0)
}

/// What a repair leaves of `buf` when its last complete page starts at
/// `start` and ends at `end`: everything before that page unchanged, the
/// page itself flagged end-of-stream with a fresh CRC, nothing after it.
pub open spec fn repaired_bytes(buf: Seq<u8>, start: int, end: int) -> Seq<u8> {
    buf.subrange(0, start) + with_crc(eos_page_unstamped(buf, start, end))
}

/// Why a torn chunk could not be repaired.
#[derive(Clone, Copy, Debug, PartialEq, Eq, Structural)]
pub enum RepairError {
    /// Fewer than the two setup pages (OpusHead, OpusTags) are complete.
    NoRecoverableAudio { complete_pages: u32 },
}

impl RepairError {
    /// The complete pages the file still had.
    pub fn complete_pages(&self) -> (r: u32)
        ensures
            r == self->complete_pages,
    {
        match self {
            RepairError::NoRecoverableAudio { complete_pages } => *complete_pages,
        }
    }
}

fn sum_range(buf: &[u8], lo: usize, hi: usize) -> (r: usize)
    requires
        lo <= hi <= buf@.len(),
        hi - lo <= 255,
    ensures
        r == sum_u8(buf@.subrange(lo as int, hi as int)),
{
    let mut total: usize = 0;
    let mut i: usize = lo;
    while i < hi
        invariant
            lo <= i <= hi <= buf@.len(),
            hi - lo <= 255,
            total == sum_u8(buf@.subrange(lo as int, i as int)),
            total <= 255 * (i - lo),
        decreases hi - i,
    {
        proof {
            let s = buf@.subrange(lo as int, i as int + 1);
            assert(s.drop_last() =~= buf@.subrange(lo as int, i as int));
        }
        total = total + buf[i] as usize;
        i = i + 1;
    }
    total
}

/// Exec form of [`page_end`].
pub(crate) fn next_page_end(buf: &[u8], off: usize) -> (r: Option<usize>)
    ensures
        r matches Some(e) ==> page_end(buf@, off as int) == Some(e as int),
        r is None ==> page_end(buf@, off as int) is None,
{
    if buf.len() < 27 || off > buf.len() - 27 {
        return None;
    }
    if !(buf[off] == 0x4f && buf[off + 1] == 0x67 && buf[off + 2] == 0x67 && buf[off + 3] == 0x53) {
        proof {
            assert(buf@.subrange(off as int, off + 4) != capture_pattern()) by {
                if buf@.subrange(off as int, off + 4) == capture_pattern() {
                    assert(buf@.subrange(off as int, off + 4)[0] == buf@[off as int]);
                    assert(buf@.subrange(off as int, off + 4)[1] == buf@[off + 1]);
                    assert(buf@.subrange(off as int, off + 4)[2] == buf@[off + 2]);
                    assert(buf@.subrange(off as int, off + 4)[3] == buf@[off + 3]);
                }
            }
        }
        return None;
    }
    proof {
        assert(buf@.subrange(off as int, off + 4) =~= capture_pattern());
    }
    let nsegs = buf[off + 26] as usize;
    if nsegs > buf.len() - (off + 27) {
        return None;
    }
    let header_end = off + 27 + nsegs;
    let body_len = sum_range(buf, off + 27, header_end);
    if body_len > buf.len() - header_end {
        return None;
    }
    Some(header_end + body_len)
}

fn read_u64_le(buf: &[u8], off: usize) -> (r: u64)
    requires
        off + 8 <= buf@.len(),
    ensures
        r == u64_le_at(buf@, off as int),
{
    (buf[off] as u64) | ((buf[off + 1] as u64) << 8u64) | ((buf[off + 2] as u64) << 16u64) | ((
    buf[off + 3] as u64) << 24u64) | ((buf[off + 4] as u64) << 32u64) | ((buf[off + 5] as u64)
        << 40u64) | ((buf[off + 6] as u64) << 48u64) | ((buf[off + 7] as u64) << 56u64)
}

/// Recover the bytes of a chunk left behind by a crash: walk its Ogg pages,
/// drop the torn trailing data, mark the last complete page end-of-stream
/// with a fresh CRC, and report the recovered sample count at 16 kHz.
/// Refused when fewer than the two setup pages are complete.
pub fn repair_truncated(buf: Vec<u8>) -> (r: Result<(Vec<u8>, u64), RepairError>)
    ensures
        ({
            let starts = page_starts(buf@, 0);
            match r {
                Ok((out, samples)) => {
                    let last = starts.last();
                    &&& starts.len() >= 2
                    &&& page_end(buf@, last) is Some
                    &&& out@ == repaired_bytes(buf@, last, page_end(buf@, last)->0)
                    &&& samples == samples_for_granule(last_valid_granule(buf@, starts))
                },
                Err(e) => starts.len() < 2 && e == RepairError::NoRecoverableAudio {
                    complete_pages: starts.len() as u32,
                },
            }
        }),
{
    let mut buf = buf;
    let ghost orig = buf@;
    let mut offset: usize = 0;
    let mut last_good_end: usize = 0;
    let mut last_page_start: usize = 0;
    let mut last_granule: u64 = 0;
    let mut page_count: usize = 0;
    let ghost mut prefix: Seq<int> = Seq::empty();
    proof {
        assert(prefix + page_starts(orig, 0) =~= page_starts(orig, 0));
    }
    loop
        invariant
            buf@ == orig,
            offset <= buf@.len(),
            page_starts(orig, 0) == prefix + page_starts(orig, offset as int),
            page_count == prefix.len(),
            prefix.len() > 0 ==> {
                &&& last_page_start == prefix.last()
                &&& page_end(orig, last_page_start as int) == Some(offset as int)
                &&& last_good_end == offset
            },
            last_granule == last_valid_granule(orig, prefix),
            27 * page_count <= offset,
        ensures
            buf@ == orig,
            page_starts(orig, 0) == prefix,
            page_count == prefix.len(),
            prefix.len() > 0 ==> {
                &&& last_page_start == prefix.last()
                &&& page_end(orig, last_page_start as int) == Some(last_good_end as int)
            },
            last_granule == last_valid_granule(orig, prefix),
        decreases buf@.len() - offset,
    {
        match next_page_end(buf.as_slice(), offset) {
            None => {
                proof {
                    assert(page_starts(orig, offset as int) =~= Seq::<int>::empty());
                    assert(prefix + Seq::<int>::empty() =~= prefix);
                }
                break;
            },
            Some(end) => {
                proof {
                    lemma_page_end_advances(orig, offset as int);
                }
                let granule = read_u64_le(buf.as_slice(), offset + 6);
                if granule != u64::MAX {
                    last_granule = granule;
                }
                proof {
                    let p2 = prefix.push(offset as int);
                    assert(p2.drop_last() =~= prefix);
                    assert(page_starts(orig, offset as int) == seq![offset as int] + page_starts(
                        orig,
                        end as int,
                    ));
                    assert(prefix + page_starts(orig, offset as int) =~= p2 + page_starts(
                        orig,
                        end as int,
                    ));
                    prefix = p2;
                }
                last_page_start = offset;
                last_good_end = end;
                page_count = page_count + 1;
                offset = end;
            },
        }
    }
    if page_count < 2 {
        return Err(RepairError::NoRecoverableAudio { complete_pages: page_count as u32 });
    }
    let ghost end = last_good_end as int;
    proof {
        lemma_page_end_advances(orig, last_page_start as int);
    }
    let flags = buf[last_page_start + 5] | HEADER_EOS;
    buf.set(last_page_start + 5, flags);
    buf.set(last_page_start + 22, 0);
    buf.set(last_page_start + 23, 0);
    buf.set(last_page_start + 24, 0);
    buf.set(last_page_start + 25, 0);
    let ghost s = last_page_start as int;
    let ghost unstamped = eos_page_unstamped(orig, s, end);
    proof {
        assert(buf@.subrange(s, end) =~= unstamped);
    }
    let crc = crc_of_range(buf.as_slice(), last_page_start, last_good_end);
    buf.set(last_page_start + 22, crc as u8);
    buf.set(last_page_start + 23, (crc >> 8u32) as u8);
    buf.set(last_page_start + 24, (crc >> 16u32) as u8);
    buf.set(last_page_start + 25, (crc >> 24u32) as u8);
    proof {
        assert(buf@.subrange(s, end) =~= with_crc(unstamped));
    }
    buf.truncate(last_good_end);
    proof {
        assert(buf@.subrange(0, s) =~= orig.subrange(0, s));
        assert(buf@ =~= buf@.subrange(0, s) + buf@.subrange(s, end));
    }
    let samples: u64 = if last_granule >= PRE_SKIP_48K as u64 {
        (last_granule - PRE_SKIP_48K as u64) / 3
    } else {
        0
    };
    Ok((buf, samples))
}


/// Whether the CRC stored in page `p` matches the page's contents.
pub open spec fn page_crc_ok(p: Seq<u8>) -> bool {
    &&& p.len() >= 26
    &&& u32_le_at(p, 22) == crc_of(p.update(22, 0).update(23, 0).update(24, 0).update(25, 0))
}

proof fn lemma_u32_le_roundtrip(x: u32)
    ensures
        (x as u8 as u32) | (((x >> 8u32) as u8 as u32) << 8u32) | (((x >> 16u32) as u8 as u32)
            << 16u32) | (((x >> 24u32) as u8 as u32) << 24u32) == x,
{
    assert((x as u8 as u32) | (((x >> 8u32) as u8 as u32) << 8u32) | (((x >> 16u32) as u8 as u32)
        << 16u32) | (((x >> 24u32) as u8 as u32) << 24u32) == x) by (bit_vector);
}

/// Stamping the CRC of a page whose CRC field is zero yields a page whose
/// stored CRC is valid.
pub proof fn lemma_with_crc_valid(p: Seq<u8>)
    requires
        p.len() >= 26,
        p[22] == 0 && p[23] == 0 && p[24] == 0 && p[25] == 0,
    ensures
        page_crc_ok(with_crc(p)),
        with_crc(p).len() == p.len(),
{
    let q = with_crc(p);
    assert(q.update(22, 0).update(23, 0).update(24, 0).update(25, 0) =~= p);
    lemma_u32_le_roundtrip(crc_of(p));
}

/// Every page the muxer builds parses back as one complete page spanning
/// the whole buffer, with a valid CRC and the granule it was given, as long
/// as its lacing fits the 255-entry segment table and accounts for the body.
pub proof fn lemma_built_page_parses(
    header_type: u8,
    granule: u64,
    serial: u32,
    page_seq: u32,
    lacing: Seq<u8>,
    body: Seq<u8>,
)
    requires
        lacing.len() <= 255,
        sum_u8(lacing) == body.len(),
    ensures
        ({
            let page = ogg_page(header_type, granule, serial, page_seq, lacing, body);
            &&& page_end(page, 0) == Some(page.len() as int)
            &&& page_crc_ok(page)
            &&& page[5] == header_type
            &&& granule_at(page, 0) == granule
            &&& u32_le_at(page, 14) == serial
            &&& u32_le_at(page, 18) == page_seq
            &&& page.len() == 27 + lacing.len() + body.len()
            &&& page[26] == lacing.len()
            &&& page.subrange(27, 27 + lacing.len() as int) == lacing
            &&& page.subrange(27 + lacing.len() as int, page.len() as int) == body
        }),
{
    let raw = page_without_crc(header_type, granule, serial, page_seq, lacing, body);
    let page = with_crc(raw);
    lemma_with_crc_valid(raw);
    assert(page.subrange(0, 4) =~= capture_pattern());
    assert(page[26] == lacing.len());
    assert(page.subrange(27, 27 + lacing.len() as int) =~= lacing);
    assert(page.subrange(27 + lacing.len() as int, page.len() as int) =~= body);
    assert(granule_at(page, 0) == granule) by {
        assert(page.subrange(6, 14) =~= le_u64(granule));
        assert((granule as u8 as u64) | (((granule >> 8u64) as u8 as u64) << 8u64) | (((granule
            >> 16u64) as u8 as u64) << 16u64) | (((granule >> 24u64) as u8 as u64) << 24u64) | (((
        granule >> 32u64) as u8 as u64) << 32u64) | (((granule >> 40u64) as u8 as u64) << 40u64)
            | (((granule >> 48u64) as u8 as u64) << 48u64) | (((granule >> 56u64) as u8 as u64)
            << 56u64) == granule) by (bit_vector);
    }
    assert(u32_le_at(page, 14) == serial) by {
        lemma_u32_le_roundtrip(serial);
    }
    assert(u32_le_at(page, 18) == page_seq) by {
        lemma_u32_le_roundtrip(page_seq);
    }
}

/// The complete pages found from `off` form a chain: each starts where the
/// previous ended, all lie within the buffer, and they come in order.
pub proof fn lemma_page_starts_chain(buf: Seq<u8>, off: int)
    requires
        0 <= off,
    ensures
        ({
            let starts = page_starts(buf, off);
            &&& forall|i: int|
                0 <= i < starts.len() ==> {
                    &&& #[trigger] page_end(buf, starts[i]) is Some
                    &&& off <= starts[i]
                    &&& starts[i] + 27 <= page_end(buf, starts[i])->0 <= buf.len()
                    &&& page_starts(buf, starts[i]) == starts.subrange(i, starts.len() as int)
                }
            &&& forall|i: int|
                0 <= i < starts.len() - 1 ==> starts[i + 1] == #[trigger] page_end(
                    buf,
                    starts[i],
                )->0
            &&& forall|i: int, j: int|
                0 <= i < j < starts.len() ==> page_end(buf, #[trigger] starts[i])->0
                    <= #[trigger] starts[j]
        }),
    decreases buf.len() - off,
{
    let starts = page_starts(buf, off);
    match page_end(buf, off) {
        Some(e) => {
            lemma_page_end_advances(buf, off);
            lemma_page_starts_chain(buf, e);
            let rest = page_starts(buf, e);
            assert(starts == seq![off] + rest);
            assert(starts.subrange(0, starts.len() as int) =~= starts);
            assert forall|i: int| 0 < i < starts.len() implies starts.subrange(
                i,
                starts.len() as int,
            ) =~= rest.subrange(i - 1, rest.len() as int) by {}
            assert forall|i: int| 0 <= i < starts.len() - 1 implies starts[i + 1]
                == #[trigger] page_end(buf, starts[i])->0 by {
                if i == 0 {
                    if rest.len() > 0 {
                        assert(rest[0] == e);
                    }
                } else {
                    assert(starts[i] == rest[i - 1]);
                    assert(starts[i + 1] == rest[i]);
                }
            }
            assert forall|i: int, j: int| 0 <= i < j < starts.len() implies page_end(
                buf,
                #[trigger] starts[i],
            )->0 <= #[trigger] starts[j] by {
                assert(starts[j] == rest[j - 1]);
                if i > 0 {
                    assert(starts[i] == rest[i - 1]);
                }
            }
        },
        None => {},
    }
}

/// Whether a complete page starting at `off` depends only on the bytes from
/// `off` to its end: another buffer that agrees there has the same page.
proof fn lemma_page_end_local(a: Seq<u8>, b: Seq<u8>, off: int)
    requires
        page_end(a, off) is Some,
        page_end(a, off)->0 <= b.len(),
        b.subrange(off, page_end(a, off)->0) == a.subrange(off, page_end(a, off)->0),
    ensures
        page_end(b, off) == page_end(a, off),
{
    let e = page_end(a, off)->0;
    lemma_page_end_advances(a, off);
    let sa = a.subrange(off, e);
    let sb = b.subrange(off, e);
    assert(b[off + 26] == sb[26]);
    assert(a[off + 26] == sa[26]);
    let he = off + 27 + a[off + 26] as int;
    assert(b.subrange(off, off + 4) =~= sb.subrange(0, 4));
    assert(a.subrange(off, off + 4) =~= sa.subrange(0, 4));
    assert(b.subrange(off + 27, he) =~= sb.subrange(27, he - off));
    assert(a.subrange(off + 27, he) =~= sa.subrange(27, he - off));
}

/// The last page of a repaired chunk: it spans to the end of the output,
/// carries the end-of-stream flag and a valid CRC.
#[verifier::rlimit(40)]
proof fn lemma_repaired_last_page(buf: Seq<u8>, last: int, end: int)
    requires
        page_end(buf, last) == Some(end),
    ensures
        ({
            let out = repaired_bytes(buf, last, end);
            &&& out.len() == end
            &&& out.subrange(0, last) == buf.subrange(0, last)
            &&& out[last + 5] & HEADER_EOS == HEADER_EOS
            &&& page_crc_ok(out.subrange(last, out.len() as int))
            &&& page_end(out, last) == Some(end)
        }),
{
    lemma_page_end_advances(buf, last);
    let u = eos_page_unstamped(buf, last, end);
    let out = repaired_bytes(buf, last, end);
    lemma_with_crc_valid(u);
    assert(out.subrange(last, out.len() as int) =~= with_crc(u));
    assert(out.subrange(0, last) =~= buf.subrange(0, last));
    let flag = buf[last + 5];
    assert(out[last + 5] == flag | HEADER_EOS);
    assert((flag | 4u8) & 4u8 == 4u8) by (bit_vector);
    let he = last + 27 + buf[last + 26] as int;
    assert(out[last + 26] == buf[last + 26]);
    assert(out.subrange(last, last + 4) =~= buf.subrange(last, last + 4));
    assert(out.subrange(last + 27, he) =~= buf.subrange(last + 27, he));
}

/// A repaired chunk is a clean Ogg stream made of exactly the complete
/// pages of the torn input: it is never longer than the input, every byte
/// before its last page is unchanged, that last page ends the file, carries
/// the end-of-stream flag and a valid CRC, and walking its pages finds the
/// same page boundaries as walking the input's complete pages.
pub proof fn lemma_repair_yields_clean_stream(buf: Seq<u8>)
    requires
        page_starts(buf, 0).len() >= 2,
    ensures
        ({
            let starts = page_starts(buf, 0);
            let last = starts.last();
            let end = page_end(buf, last)->0;
            let out = repaired_bytes(buf, last, end);
            &&& out.len() == end <= buf.len()
            &&& out.subrange(0, last) == buf.subrange(0, last)
            &&& out[last + 5] & HEADER_EOS == HEADER_EOS
            &&& page_crc_ok(out.subrange(last, out.len() as int))
            &&& page_end(out, last) == Some(out.len() as int)
            &&& page_starts(out, 0) == starts
        }),
{
    let starts = page_starts(buf, 0);
    lemma_page_starts_chain(buf, 0);
    let k = starts.len() - 1;
    let last = starts.last();
    assert(page_end(buf, starts[k]) is Some);
    let end = page_end(buf, last)->0;
    let out = repaired_bytes(buf, last, end);
    lemma_repaired_last_page(buf, last, end);
    assert forall|i: int| 0 <= i < starts.len() implies page_end(out, #[trigger] starts[i])
        == page_end(buf, starts[i]) by {
        if i < k {
            let ei = page_end(buf, starts[i])->0;
            assert(ei <= starts[k]);
            assert(out.subrange(starts[i], ei) =~= buf.subrange(starts[i], ei)) by {
                assert(out.subrange(0, last) == buf.subrange(0, last));
                assert forall|t: int| 0 <= t < ei - starts[i] implies out.subrange(starts[i], ei)[t]
                    == buf.subrange(starts[i], ei)[t] by {
                    assert(out.subrange(0, last)[starts[i] + t] == out[starts[i] + t]);
                    assert(buf.subrange(0, last)[starts[i] + t] == buf[starts[i] + t]);
                }
            }
            lemma_page_end_local(buf, out, starts[i]);
        }
    }
    lemma_repaired_walk(buf, out, starts, 0);
    assert(starts.subrange(0, starts.len() as int) =~= starts);
}

proof fn lemma_repaired_walk(buf: Seq<u8>, out: Seq<u8>, starts: Seq<int>, i: int)
    requires
        starts == page_starts(buf, 0),
        starts.len() >= 1,
        0 <= i < starts.len(),
        out.len() == page_end(buf, starts.last())->0,
        forall|j: int| 0 <= j < starts.len() ==> page_end(out, #[trigger] starts[j]) == page_end(
            buf,
            starts[j],
        ),
        forall|j: int|
            0 <= j < starts.len() ==> {
                &&& #[trigger] page_end(buf, starts[j]) is Some
                &&& starts[j] + 27 <= page_end(buf, starts[j])->0 <= buf.len()
            },
        forall|j: int|
            0 <= j < starts.len() - 1 ==> starts[j + 1] == #[trigger] page_end(buf, starts[j])->0,
    ensures
        page_starts(out, starts[i]) == starts.subrange(i, starts.len() as int),
    decreases starts.len() - i,
{
    let e = page_end(buf, starts[i])->0;
    assert(page_end(out, starts[i]) == Some(e));
    if i + 1 < starts.len() {
        lemma_repaired_walk(buf, out, starts, i + 1);
        assert(starts[i + 1] == e);
        assert(starts.subrange(i, starts.len() as int) =~= seq![starts[i]] + starts.subrange(
            i + 1,
            starts.len() as int,
        ));
    } else {
        assert(page_end(out, e) is None);
        assert(page_starts(out, e) =~= Seq::<int>::empty());
        assert(starts.subrange(i, starts.len() as int) =~= seq![starts[i]]);
    }
}


/// Input sample rate recorded in OpusHead (16 kHz mono recordings).
pub const IN_RATE_HZ: u32 = 16_000;

/// OpusHead identification packet: magic, version 1, one channel, the
/// pre-skip, the input sample rate, zero output gain, mapping family 0.
pub open spec fn opus_head_bytes(pre_skip: u16) -> Seq<u8> {
    seq![0x4fu8, 0x70u8, 0x75u8, 0x73u8, 0x48u8, 0x65u8, 0x61u8, 0x64u8] + seq![1u8, 1u8]
        + le_u16(pre_skip) + le_u32(IN_RATE_HZ) + seq![0u8, 0u8] + seq![0u8]
}

/// The vendor string this tool writes into OpusTags.
pub open spec fn vendor_bytes() -> Seq<u8> {
    seq![0x68u8, 0x61u8, 0x6eu8, 0x64u8, 0x79u8]
}

/// OpusTags comment packet: magic, vendor length and vendor string, and a
/// user-comment count of zero.
pub open spec fn opus_tags_bytes() -> Seq<u8> {
    seq![0x4fu8, 0x70u8, 0x75u8, 0x73u8, 0x54u8, 0x61u8, 0x67u8, 0x73u8] + le_u32(5)
        + vendor_bytes() + le_u32(0)
}

/// The OpusHead packet for `pre_skip`.
pub fn opus_head(pre_skip: u16) -> (r: Vec<u8>)
    ensures
        r@ == opus_head_bytes(pre_skip),
        r@.len() == 19,
{
    let mut v: Vec<u8> = Vec::new();
    v.push(0x4f);
    v.push(0x70);
    v.push(0x75);
    v.push(0x73);
    v.push(0x48);
    v.push(0x65);
    v.push(0x61);
    v.push(0x64);
    v.push(1);
    v.push(1);
    push_le_u16(&mut v, pre_skip);
    push_le_u32(&mut v, IN_RATE_HZ);
    v.push(0);
    v.push(0);
    v.push(0);
    proof {
        assert(v@ =~= opus_head_bytes(pre_skip));
    }
    v
}

/// The OpusTags packet.
pub fn opus_tags() -> (r: Vec<u8>)
    ensures
        r@ == opus_tags_bytes(),
        r@.len() == 21,
{
    let mut v: Vec<u8> = Vec::new();
    v.push(0x4f);
    v.push(0x70);
    v.push(0x75);
    v.push(0x73);
    v.push(0x54);
    v.push(0x61);
    v.push(0x67);
    v.push(0x73);
    push_le_u32(&mut v, 5);
    v.push(0x68);
    v.push(0x61);
    v.push(0x6e);
    v.push(0x64);
    v.push(0x79);
    push_le_u32(&mut v, 0);
    proof {
        assert(v@ =~= opus_tags_bytes());
    }
    v
}

/// 32-bit FNV-1a hash of a byte sequence.
pub open spec fn fnv1a(s: Seq<u8>) -> u32
    decreases s.len(),
{
    if s.len() == 0 {
        0x811c_9dc5u32
    } else {
        vstd::wrapping::u32_specs::wrapping_mul(fnv1a(s.drop_last()) ^ (s.last() as u32), 0x0100_0193u32)
    }
}

/// The file name used for the serial when a path has none (or none that is
/// valid UTF-8): `handy-chunk`.
pub open spec fn default_chunk_name() -> Seq<u8> {
    seq![0x68u8, 0x61u8, 0x6eu8, 0x64u8, 0x79u8, 0x2du8, 0x63u8, 0x68u8, 0x75u8, 0x6eu8, 0x6bu8]
}

/// Stream serial for a chunk file named `file_name` (its UTF-8 bytes):
/// FNV-1a of the name with the low bit forced on, so it is never 0.
pub open spec fn serial_spec(file_name: Option<Seq<u8>>) -> u32 {
    let name = match file_name {
        Some(n) => n,
        None => default_chunk_name(),
    };
    fnv1a(name) | 1u32
}

fn fnv1a_exec(name: &[u8]) -> (r: u32)
    ensures
        r == fnv1a(name@),
{
    let mut h: u32 = 0x811c_9dc5;
    let mut i: usize = 0;
    while i < name.len()
        invariant
            i <= name.len(),
            h == fnv1a(name@.subrange(0, i as int)),
        decreases name.len() - i,
    {
        proof {
            let t = name@.subrange(0, i as int + 1);
            assert(t.drop_last() =~= name@.subrange(0, i as int));
        }
        h = h ^ (name[i] as u32);
        h = h.wrapping_mul(0x0100_0193);
        i = i + 1;
    }
    proof {
        assert(name@.subrange(0, name@.len() as int) =~= name@);
    }
    h
}

/// The serial hashes the whole file name with 32-bit FNV-1a (offset basis
/// 0x811c9dc5, prime 0x01000193) and forces the low bit on: the empty name
/// gives the offset basis, and every further byte of a name, however long,
/// moves the hash by one xor-then-multiply step. A path without a usable
/// name hashes `handy-chunk`.
pub proof fn lemma_serial_hashes_every_byte(name: Seq<u8>, x: u8)
    ensures
        serial_spec(Some(Seq::<u8>::empty())) == 0x811c_9dc5u32 | 1u32,
        serial_spec(None) == serial_spec(
            Some(seq![0x68u8, 0x61u8, 0x6eu8, 0x64u8, 0x79u8, 0x2du8, 0x63u8, 0x68u8, 0x75u8, 0x6eu8, 0x6bu8]),
        ),
        serial_spec(Some(name)) == fnv1a(name) | 1u32,
        fnv1a(name.push(x)) == vstd::wrapping::u32_specs::wrapping_mul(fnv1a(name) ^ (x as u32), 0x0100_0193u32),
        serial_spec(Some(name.push(x))) == vstd::wrapping::u32_specs::wrapping_mul(
            fnv1a(name) ^ (x as u32),
            0x0100_0193u32,
        ) | 1u32,
{
    assert(name.push(x).drop_last() =~= name);
}

/// One FNV-1a step keeps two different states different, and keeps their
/// low bits apart exactly when the bytes' low bits differ from the states'.
proof fn lemma_fnv_step_keeps_apart(a: u32, b: u32, x: u32, y: u32)
    requires
        x < 256,
        y < 256,
        a ^ x != b ^ y,
    ensures
        vstd::wrapping::u32_specs::wrapping_mul(a ^ x, 0x0100_0193u32) != vstd::wrapping::u32_specs::wrapping_mul(
            b ^ y,
            0x0100_0193u32,
        ),
        (vstd::wrapping::u32_specs::wrapping_mul(a ^ x, 0x0100_0193u32) & 1u32) == ((a ^ x) & 1u32),
        (vstd::wrapping::u32_specs::wrapping_mul(b ^ y, 0x0100_0193u32) & 1u32) == ((b ^ y) & 1u32),
{
    let c = a ^ x;
    let d = b ^ y;
    let mc = vstd::wrapping::u32_specs::wrapping_mul(c, 0x0100_0193u32);
    let md = vstd::wrapping::u32_specs::wrapping_mul(d, 0x0100_0193u32);
    assert(mc == ((c as int * 0x0100_0193) % 0x1_0000_0000) as u32);
    assert(md == ((d as int * 0x0100_0193) % 0x1_0000_0000) as u32);
    assert(mc == c.wrapping_mul(0x0100_0193u32));
    assert(md == d.wrapping_mul(0x0100_0193u32));
    assert(c != d ==> c.wrapping_mul(0x0100_0193u32) != d.wrapping_mul(0x0100_0193u32)) by (bit_vector);
    assert(c.wrapping_mul(0x0100_0193u32) & 1u32 == c & 1u32) by (bit_vector);
    assert(d.wrapping_mul(0x0100_0193u32) & 1u32 == d & 1u32) by (bit_vector);
}

/// Hashing the same further bytes after two different states keeps them
/// different, with their low bits still equal.
proof fn lemma_fnv_suffix_keeps_apart(a: Seq<u8>, b: Seq<u8>, q: Seq<u8>)
    requires
        fnv1a(a) != fnv1a(b),
        fnv1a(a) & 1u32 == fnv1a(b) & 1u32,
    ensures
        fnv1a(a + q) != fnv1a(b + q),
        fnv1a(a + q) & 1u32 == fnv1a(b + q) & 1u32,
    decreases q.len(),
{
    if q.len() == 0 {
        assert(a + q =~= a);
        assert(b + q =~= b);
    } else {
        let q0 = q.drop_last();
        lemma_fnv_suffix_keeps_apart(a, b, q0);
        assert((a + q).drop_last() =~= a + q0);
        assert((b + q).drop_last() =~= b + q0);
        assert((a + q).last() == q.last());
        assert((b + q).last() == q.last());
        let ha = fnv1a(a + q0);
        let hb = fnv1a(b + q0);
        let x = q.last() as u32;
        assert(ha ^ x != hb ^ x && (ha ^ x) & 1u32 == (hb ^ x) & 1u32) by (bit_vector)
            requires
                ha != hb,
                ha & 1u32 == hb & 1u32,
        ;
        lemma_fnv_step_keeps_apart(ha, hb, x, x);
    }
}

/// File names that differ in a single byte hash to different FNV-1a
/// values; when the two differing bytes are both odd or both even (chunk
/// indexes 1 and 3, 2 and 4, ...), their serials differ too.
pub proof fn lemma_one_byte_apart_names_get_different_serials(p: Seq<u8>, u: u8, v: u8, q: Seq<u8>)
    requires
        u != v,
    ensures
        fnv1a(p.push(u) + q) != fnv1a(p.push(v) + q),
        u % 2 == v % 2 ==> serial_spec(Some(p.push(u) + q)) != serial_spec(Some(p.push(v) + q)),
{
    let h = fnv1a(p);
    assert(p.push(u).drop_last() =~= p);
    assert(p.push(v).drop_last() =~= p);
    let x = u as u32;
    let y = v as u32;
    assert(h ^ x != h ^ y) by (bit_vector)
        requires
            x != y,
    ;
    lemma_fnv_step_keeps_apart(h, h, x, y);
    let ha = fnv1a(p.push(u));
    let hb = fnv1a(p.push(v));
    if u % 2 == v % 2 {
        assert((h ^ x) & 1u32 == (h ^ y) & 1u32) by (bit_vector)
            requires
                x % 2 == y % 2,
        ;
        lemma_fnv_suffix_keeps_apart(p.push(u), p.push(v), q);
        let fa = fnv1a(p.push(u) + q);
        let fb = fnv1a(p.push(v) + q);
        assert(fa | 1u32 != fb | 1u32) by (bit_vector)
            requires
                fa != fb,
                fa & 1u32 == fb & 1u32,
        ;
    } else {
        lemma_fnv_any_suffix_keeps_apart(p.push(u), p.push(v), q);
    }
}

/// Hashing the same further bytes after two different states keeps them
/// different.
proof fn lemma_fnv_any_suffix_keeps_apart(a: Seq<u8>, b: Seq<u8>, q: Seq<u8>)
    requires
        fnv1a(a) != fnv1a(b),
    ensures
        fnv1a(a + q) != fnv1a(b + q),
    decreases q.len(),
{
    if q.len() == 0 {
        assert(a + q =~= a);
        assert(b + q =~= b);
    } else {
        let q0 = q.drop_last();
        lemma_fnv_any_suffix_keeps_apart(a, b, q0);
        assert((a + q).drop_last() =~= a + q0);
        assert((b + q).drop_last() =~= b + q0);
        assert((a + q).last() == q.last());
        assert((b + q).last() == q.last());
        let ha = fnv1a(a + q0);
        let hb = fnv1a(b + q0);
        let x = q.last() as u32;
        assert(ha ^ x != hb ^ x) by (bit_vector)
            requires
                ha != hb,
        ;
        lemma_fnv_step_keeps_apart(ha, hb, x, x);
    }
}

proof fn lemma_fnv_push(a: Seq<u8>, x: u8)
    ensures
        fnv1a(a.push(x)) == (fnv1a(a) ^ (x as u32)).wrapping_mul(0x0100_0193u32),
{
    assert(a.push(x).drop_last() =~= a);
    let c = fnv1a(a) ^ (x as u32);
    assert(vstd::wrapping::u32_specs::wrapping_mul(c, 0x0100_0193u32) == c.wrapping_mul(0x0100_0193u32));
}

/// Two chunk files of one take, named alike but for the last digit of the
/// chunk index (`...-chunk-1.opus` and `...-chunk-2.opus`), always get
/// different serials, so their glued recording is a valid chain.
pub proof fn lemma_chunk_serials_differ(p: Seq<u8>, u: u8, v: u8)
    requires
        0x30 <= u <= 0x39,
        0x30 <= v <= 0x39,
        u != v,
    ensures
        serial_spec(Some(p.push(u) + seq![0x2eu8, 0x6fu8, 0x70u8, 0x75u8, 0x73u8])) != serial_spec(
            Some(p.push(v) + seq![0x2eu8, 0x6fu8, 0x70u8, 0x75u8, 0x73u8]),
        ),
{
    let h = fnv1a(p);
    let fa = serial_hash_of_digit(p, u);
    let fb = serial_hash_of_digit(p, v);
    let x = u as u32;
    let y = v as u32;
    assert(((((((((((((h ^ x).wrapping_mul(0x0100_0193u32) ^ 0x2eu32).wrapping_mul(0x0100_0193u32)) ^ 0x6fu32).wrapping_mul(
        0x0100_0193u32,
    )) ^ 0x70u32).wrapping_mul(0x0100_0193u32)) ^ 0x75u32).wrapping_mul(0x0100_0193u32)) ^ 0x73u32).wrapping_mul(
        0x0100_0193u32,
    )) | 1u32) != ((((((((((((h ^ y).wrapping_mul(0x0100_0193u32) ^ 0x2eu32).wrapping_mul(0x0100_0193u32))
        ^ 0x6fu32).wrapping_mul(0x0100_0193u32)) ^ 0x70u32).wrapping_mul(0x0100_0193u32)) ^ 0x75u32).wrapping_mul(
        0x0100_0193u32,
    )) ^ 0x73u32).wrapping_mul(0x0100_0193u32)) | 1u32)) by (bit_vector)
        requires
            0x30 <= x <= 0x39,
            0x30 <= y <= 0x39,
            x != y,
    ;
}

/// The FNV-1a hash of `p`, the digit `d` and `.opus`, step by step.
proof fn serial_hash_of_digit(p: Seq<u8>, d: u8) -> (r: u32)
    ensures
        r == fnv1a(p.push(d) + seq![0x2eu8, 0x6fu8, 0x70u8, 0x75u8, 0x73u8]),
        r == (((((((((((fnv1a(p) ^ (d as u32)).wrapping_mul(0x0100_0193u32) ^ 0x2eu32).wrapping_mul(0x0100_0193u32))
            ^ 0x6fu32).wrapping_mul(0x0100_0193u32)) ^ 0x70u32).wrapping_mul(0x0100_0193u32)) ^ 0x75u32).wrapping_mul(
            0x0100_0193u32,
        )) ^ 0x73u32).wrapping_mul(0x0100_0193u32)),
{
    let a0 = p.push(d);
    let a1 = a0.push(0x2eu8);
    let a2 = a1.push(0x6fu8);
    let a3 = a2.push(0x70u8);
    let a4 = a3.push(0x75u8);
    let a5 = a4.push(0x73u8);
    lemma_fnv_push(p, d);
    lemma_fnv_push(a0, 0x2eu8);
    lemma_fnv_push(a1, 0x6fu8);
    lemma_fnv_push(a2, 0x70u8);
    lemma_fnv_push(a3, 0x75u8);
    lemma_fnv_push(a4, 0x73u8);
    assert(a5 =~= p.push(d) + seq![0x2eu8, 0x6fu8, 0x70u8, 0x75u8, 0x73u8]);
    fnv1a(a5)
}

/// Derive a stream serial from a chunk's file name (its UTF-8 bytes, `None`
/// when the path has no such name) so distinct chunks get distinct serials,
/// which a byte-concatenated full recording needs to be a valid chained
/// stream.
pub fn serial_for(file_name: Option<&[u8]>) -> (r: u32)
    ensures
        r == serial_spec(
            match file_name {
                Some(n) => Some(n@),
                None => None,
            },
        ),
        r & 1 == 1,
{
    let h = match file_name {
        Some(name) => fnv1a_exec(name),
        None => {
            let default_name: [u8; 11] = [
                0x68, 0x61, 0x6e, 0x64, 0x79, 0x2d, 0x63, 0x68, 0x75, 0x6e, 0x6b,
            ];
            proof {
                assert(default_name@ =~= default_chunk_name());
            }
            fnv1a_exec(&default_name)
        },
    };
    let r = h | 1;
    assert(r & 1 == 1) by (bit_vector)
        requires
            r == h | 1,
    ;
    r
}


/// Samples (16 kHz) in one native Opus frame of 20 ms.
pub const ENC_FRAME_SAMPLES: u64 = 320;

/// Upper bound of one encoded Opus packet (the encoder's output buffer).
pub const MAX_PACKET_BYTES: usize = 4000;

/// Packets per audio page: a page (a crash-recovery checkpoint) roughly
/// every 500 ms of audio.
pub const PACKETS_PER_PAGE: u32 = 25;

/// Granule position (48 kHz, including the pre-skip) after `samples_16k`
/// samples at 16 kHz.
pub open spec fn granule_for(samples_16k: u64) -> int {
    PRE_SKIP_48K as int + 3 * samples_16k as int
}

/// The Ogg side of an Ogg/Opus stream: header pages, one packet per encoded
/// 20 ms frame with its granule, a page every [`PACKETS_PER_PAGE`] packets,
/// and a terminating page whose granule reflects the true sample count.
pub struct OggOpusStream {
    muxer: PageMuxer,
    encoded_samples_16k: u64,
    /// The packets of the page being assembled.
    pending: Ghost<Seq<Seq<u8>>>,
    /// The pages written so far.
    written: Ghost<Seq<PacketPage>>,
}

impl OggOpusStream {
    pub closed spec fn muxer_state(&self) -> MuxerState {
        self.muxer@
    }

    pub closed spec fn encoded_samples(&self) -> u64 {
        self.encoded_samples_16k
    }

    /// The whole packets the page being assembled holds.
    pub closed spec fn pending(&self) -> Seq<Seq<u8>> {
        self.pending@
    }

    /// Every packet of the stream so far: those on the written pages, then
    /// those of the page being assembled.
    pub closed spec fn packets(&self) -> Seq<Seq<u8>> {
        pages_packets(self.written@) + self.pending@
    }

    /// The bytes of the pages written so far.
    pub closed spec fn bytes(&self) -> Seq<u8> {
        packet_pages(self.muxer@.serial, self.written@)
    }

    pub closed spec fn wf(&self) -> bool {
        &&& self.muxer.wf()
        &&& self.muxer@.lacing.len() <= 255
        &&& self.muxer@.packets_in_page <= PACKETS_PER_PAGE
        &&& self.muxer@.bos_written
        &&& self.muxer@.page_seq >= 2
        &&& self.muxer@.lacing == packets_lacing(self.pending@)
        &&& self.muxer@.body == packets_body(self.pending@)
        &&& forall|i: int|
            0 <= i < self.written@.len() ==> !continued((#[trigger] self.written@[i]).header_type)
                && packets_lacing(self.written@[i].packets).len() <= 255
    }

    /// The page being assembled is made of whole packets: its lacing and
    /// body are those of the pending packets laid one after another.
    pub proof fn lemma_page_holds_pending(&self)
        requires
            self.wf(),
        ensures
            self.muxer_state().lacing == packets_lacing(self.pending()),
            self.muxer_state().body == packets_body(self.pending()),
    {
    }

    /// Start a stream with `serial`: OpusHead alone on the first
    /// (beginning-of-stream) page, then OpusTags on the second.
    pub fn start(serial: u32, out: &mut Vec<u8>) -> (r: Self)
        ensures
            r.wf(),
            r.encoded_samples() == 0,
            r.muxer_state().serial == serial,
            r.muxer_state().page_seq == 2,
            r.muxer_state().granule == 0,
            r.muxer_state().lacing.len() == 0,
            r.pending() == Seq::<Seq<u8>>::empty(),
            r.packets() == seq![opus_head_bytes(PRE_SKIP_48K), opus_tags_bytes()],
            final(out)@ == old(out)@ + r.bytes(),
            final(out)@ == old(out)@ + ogg_page(
                HEADER_BOS,
                0,
                serial,
                0,
                lacing_of(19),
                opus_head_bytes(PRE_SKIP_48K),
            ) + ogg_page(0, 0, serial, 1, lacing_of(21), opus_tags_bytes()),
    {
        let ghost o = out@;
        let mut muxer = PageMuxer::new(serial);
        let head = opus_head(PRE_SKIP_48K);
        muxer.add_packet(head.as_slice(), 0, out);
        muxer.flush(out, false);
        let ghost after_head = out@;
        let tags = opus_tags();
        muxer.add_packet(tags.as_slice(), 0, out);
        muxer.flush(out, false);
        proof {
            assert(lacing_of(19).len() == 1);
            assert(lacing_of(21).len() == 1);
            assert(Seq::<u8>::empty() + lacing_of(19) =~= lacing_of(19));
            assert(Seq::<u8>::empty() + lacing_of(21) =~= lacing_of(21));
            assert(Seq::<u8>::empty() + head@ =~= head@);
            assert(Seq::<u8>::empty() + tags@ =~= tags@);
        }
        let ghost hp = PacketPage { header_type: HEADER_BOS, granule: 0, page_seq: 0, packets: seq![head@] };
        let ghost tp = PacketPage { header_type: 0, granule: 0, page_seq: 1, packets: seq![tags@] };
        let ghost w0: Seq<PacketPage> = seq![hp, tp];
        proof {
            assert(packets_lacing(Seq::<Seq<u8>>::empty()) =~= Seq::<u8>::empty());
            assert(packets_body(Seq::<Seq<u8>>::empty()) =~= Seq::<u8>::empty());
            assert(seq![head@].drop_last() =~= Seq::<Seq<u8>>::empty());
            assert(seq![tags@].drop_last() =~= Seq::<Seq<u8>>::empty());
            assert(packets_lacing(seq![head@]) =~= lacing_of(19));
            assert(packets_body(seq![head@]) =~= head@);
            assert(packets_lacing(seq![tags@]) =~= lacing_of(21));
            assert(packets_body(seq![tags@]) =~= tags@);
            let w = w0;
            assert(w.drop_last() =~= seq![hp]);
            assert(w.last() == tp);
            assert(seq![hp].drop_last() =~= Seq::<PacketPage>::empty());
            assert(seq![hp].last() == hp);
            let hpage = ogg_page(HEADER_BOS, 0, serial, 0, lacing_of(19), head@);
            let tpage = ogg_page(0, 0, serial, 1, lacing_of(21), tags@);
            assert(packet_pages(serial, Seq::<PacketPage>::empty()) =~= Seq::<u8>::empty());
            assert(packet_pages(serial, seq![hp]) == packet_pages(serial, Seq::<PacketPage>::empty()) + hpage);
            assert(packet_pages(serial, seq![hp]) =~= hpage);
            assert(packet_pages(serial, w) == packet_pages(serial, seq![hp]) + tpage);
            assert(pages_packets(Seq::<PacketPage>::empty()) =~= Seq::<Seq<u8>>::empty());
            assert(pages_packets(seq![hp]) == pages_packets(Seq::<PacketPage>::empty()) + seq![head@]);
            assert(pages_packets(w) == pages_packets(seq![hp]) + seq![tags@]);
            assert(packet_pages(serial, w) =~= ogg_page(HEADER_BOS, 0, serial, 0, lacing_of(19), head@) + ogg_page(
                0,
                0,
                serial,
                1,
                lacing_of(21),
                tags@,
            ));
            assert(pages_packets(w) + Seq::<Seq<u8>>::empty() =~= seq![head@, tags@]);
            assert(out@ =~= o + packet_pages(serial, w));
        }
        OggOpusStream {
            muxer,
            encoded_samples_16k: 0,
            pending: Ghost(Seq::empty()),
            written: Ghost(w0),
        }
    }

    /// Whether [`Self::push_packet`] may take a packet of `len` bytes: it is
    /// no longer than [`MAX_PACKET_BYTES`] and neither the sample counter,
    /// the granule nor the page counter would overflow.
    pub fn can_push_packet(&self, len: usize) -> (r: bool)
        requires
            self.wf(),
        ensures
            r == (granule_for((self.encoded_samples() + ENC_FRAME_SAMPLES) as u64) <= u64::MAX
                && self.encoded_samples() + ENC_FRAME_SAMPLES <= u64::MAX
                && self.muxer_state().page_seq < u32::MAX - 1
                && len <= MAX_PACKET_BYTES
                && 27 + 255 + self.muxer_state().body.len() + 2 * len + 1 <= usize::MAX),
    {
        if len > MAX_PACKET_BYTES || self.encoded_samples_16k > u64::MAX - ENC_FRAME_SAMPLES {
            return false;
        }
        let next = self.encoded_samples_16k + ENC_FRAME_SAMPLES;
        if next > (u64::MAX - PRE_SKIP_48K as u64) / 3 {
            return false;
        }
        if self.muxer.page_seq() >= u32::MAX - 1 {
            return false;
        }
        let body = self.muxer.body_len();
        body <= usize::MAX - 27 - 255 - 1 - 2 * len
    }

    /// Whether [`Self::finish`] may stamp `true_samples_16k`: neither the
    /// granule nor the page counter would overflow.
    pub fn can_finish(&self, true_samples_16k: u64) -> (r: bool)
        requires
            self.wf(),
        ensures
            r == (granule_for(true_samples_16k) <= u64::MAX && self.muxer_state().page_seq < u32::MAX),
    {
        true_samples_16k <= (u64::MAX - PRE_SKIP_48K as u64) / 3 && self.muxer.page_seq() < u32::MAX
    }

    /// Append one encoded 20 ms packet; its granule counts every sample fed
    /// to the encoder so far. A page is emitted once it holds
    /// [`PACKETS_PER_PAGE`] packets.
    pub fn push_packet(&mut self, packet: &[u8], out: &mut Vec<u8>)
        requires
            old(self).wf(),
            granule_for((old(self).encoded_samples() + ENC_FRAME_SAMPLES) as u64) <= u64::MAX,
            old(self).encoded_samples() + ENC_FRAME_SAMPLES <= u64::MAX,
            old(self).muxer_state().page_seq < u32::MAX - 1,
            packet@.len() <= MAX_PACKET_BYTES,
            27 + 255 + old(self).muxer_state().body.len() + 2 * packet@.len() + 1 <= usize::MAX,
        ensures
            final(self).wf(),
            final(self).encoded_samples() == old(self).encoded_samples() + ENC_FRAME_SAMPLES,
            final(self).muxer_state().granule == granule_for(final(self).encoded_samples()),
            final(self).muxer_state().serial == old(self).muxer_state().serial,
            final(self).muxer_state().page_seq >= old(self).muxer_state().page_seq,
            old(out)@.is_prefix_of(final(out)@),
            ({
                let m0 = old(self).muxer_state();
                let first = add_flushes_first(m0, packet@.len());
                let m1 = if first { after_flush(m0) } else { m0 };
                let m2 = MuxerState {
                    lacing: m1.lacing + lacing_of(packet@.len()),
                    body: m1.body + packet@,
                    granule: granule_for(final(self).encoded_samples()) as u64,
                    packets_in_page: (m1.packets_in_page + 1) as u32,
                    ..m1
                };
                let full = m2.packets_in_page >= PACKETS_PER_PAGE;
                &&& final(out)@ == old(out)@ + (if first { flushed_page(m0, false) } else { Seq::empty() })
                    + (if full { flushed_page(m2, false) } else { Seq::empty() })
                &&& final(self).muxer_state() == if full { after_flush(m2) } else { m2 }
                &&& final(self).pending() == if full {
                    Seq::<Seq<u8>>::empty()
                } else {
                    (if first { Seq::<Seq<u8>>::empty() } else { old(self).pending() }).push(packet@)
                }
            }),
            final(self).packets() == old(self).packets().push(packet@),
            final(self).bytes() == old(self).bytes() + final(out)@.subrange(
                old(out)@.len() as int,
                final(out)@.len() as int,
            ),
    {
        self.encoded_samples_16k = self.encoded_samples_16k + ENC_FRAME_SAMPLES;
        let granule: u64 = PRE_SKIP_48K as u64 + self.encoded_samples_16k * 3;
        let ghost o = out@;
        proof {
            lemma_lacing_sums_to_len(packet@.len());
            assert(packet@.len() / 255 <= 15);
        }
        let ghost m0 = self.muxer@;
        let ghost w0 = self.written@;
        let ghost pend0 = self.pending@;
        let ghost first = add_flushes_first(self.muxer@, packet@.len());
        let ghost p1: Seq<Seq<u8>> = if first { Seq::empty() } else { self.pending@ };
        let ghost page1 = PacketPage { header_type: 0, granule: m0.granule, page_seq: m0.page_seq, packets: pend0 };
        let ghost w1: Seq<PacketPage> = if first { w0.push(page1) } else { w0 };
        self.muxer.add_packet(packet, granule, out);
        let ghost o2 = out@;
        let ghost m2 = self.muxer@;
        let ghost p2 = p1.push(packet@);
        proof {
            assert(p2.drop_last() =~= p1);
            assert(packets_lacing(Seq::<Seq<u8>>::empty()) =~= Seq::<u8>::empty());
            assert(packets_body(Seq::<Seq<u8>>::empty()) =~= Seq::<u8>::empty());
            self.pending = Ghost(p2);
            self.written = Ghost(w1);
            assert(w0.push(page1).drop_last() =~= w0);
            assert(w0.push(page1).last() == page1);
            assert(pages_packets(w0.push(page1)) == pages_packets(w0) + pend0);
            assert(packet_pages(m0.serial, w0.push(page1)) == packet_pages(m0.serial, w0) + flushed_page(m0, false));
            assert(lacing_of(packet@.len()).len() <= 16) by {
                lemma_lacing_sums_to_len(packet@.len());
            }
            assert(m2.lacing.len() <= 255);
            assert forall|i: int| 0 <= i < w1.len() implies !continued((#[trigger] w1[i]).header_type)
                && packets_lacing(w1[i].packets).len() <= 255 by {
                if i < w0.len() {
                    assert(w1[i] == w0[i]);
                }
            }
        }
        let ghost page2 = PacketPage { header_type: 0, granule: m2.granule, page_seq: m2.page_seq, packets: p2 };
        if self.muxer.packets_in_page() >= PACKETS_PER_PAGE {
            self.muxer.flush(out, false);
            proof {
                self.pending = Ghost(Seq::empty());
                self.written = Ghost(w1.push(page2));
                assert(w1.push(page2).drop_last() =~= w1);
                assert(w1.push(page2).last() == page2);
                assert(pages_packets(w1.push(page2)) == pages_packets(w1) + p2);
                assert(packet_pages(m0.serial, w1.push(page2)) == packet_pages(m0.serial, w1) + flushed_page(m2, false));
                assert forall|i: int| 0 <= i < w1.push(page2).len() implies !continued(
                    (#[trigger] w1.push(page2)[i]).header_type,
                ) && packets_lacing(w1.push(page2)[i].packets).len() <= 255 by {
                    if i < w1.len() {
                        assert(w1.push(page2)[i] == w1[i]);
                    }
                }
            }
        }
        proof {
            let pp0 = pages_packets(w0);
            if first {
                assert(pp0 + pend0 + p2 =~= (pp0 + pend0).push(packet@));
                assert(pp0 + pend0 + p2 + Seq::<Seq<u8>>::empty() =~= (pp0 + pend0).push(packet@));
            } else {
                assert(pp0 + p2 + Seq::<Seq<u8>>::empty() =~= (pp0 + pend0).push(packet@));
                assert(pp0 + p2 =~= (pp0 + pend0).push(packet@));
            }
        }
        proof {
            assert(o.is_prefix_of(o2));
            assert(o.is_prefix_of(out@)) by {
                assert(o2.is_prefix_of(out@));
            }
            let m0 = old(self).muxer_state();
            if add_flushes_first(m0, packet@.len()) {
                assert(o2 =~= o + flushed_page(m0, false));
            } else {
                assert(o2 =~= o + Seq::<u8>::empty());
            }
            if m2.packets_in_page >= PACKETS_PER_PAGE {
                assert(out@ =~= o2 + flushed_page(m2, false));
            } else {
                assert(out@ =~= o2 + Seq::<u8>::empty());
            }
            let b0 = packet_pages(m0.serial, w0);
            let added = out@.subrange(o.len() as int, out@.len() as int);
            if first {
                if m2.packets_in_page >= PACKETS_PER_PAGE {
                    assert(added =~= flushed_page(m0, false) + flushed_page(m2, false));
                    assert(b0 + flushed_page(m0, false) + flushed_page(m2, false) =~= b0 + added);
                } else {
                    assert(added =~= flushed_page(m0, false));
                }
            } else {
                if m2.packets_in_page >= PACKETS_PER_PAGE {
                    assert(added =~= flushed_page(m2, false));
                } else {
                    assert(added =~= Seq::<u8>::empty());
                    assert(b0 + added =~= b0);
                }
            }
        }
    }

    /// Terminate the stream: the last page carries the end-of-stream flag
    /// and a granule that reflects `true_samples_16k`, the real (un-padded)
    /// sample count, so a decoder trims the zero-padded tail.
    pub fn finish(self, true_samples_16k: u64, out: &mut Vec<u8>)
        requires
            self.wf(),
            granule_for(true_samples_16k) <= u64::MAX,
            self.muxer_state().page_seq < u32::MAX,
        ensures
            final(out)@ == old(out)@ + ogg_page(
                HEADER_EOS,
                granule_for(true_samples_16k) as u64,
                self.muxer_state().serial,
                self.muxer_state().page_seq,
                self.muxer_state().lacing,
                self.muxer_state().body,
            ),
            ({
                let m = self.muxer_state();
                let whole = self.bytes() + ogg_page(
                    HEADER_EOS,
                    granule_for(true_samples_16k) as u64,
                    m.serial,
                    m.page_seq,
                    m.lacing,
                    m.body,
                );
                demux(whole, page_starts(whole, 0)) == seq![
                    StreamPackets {
                        serial: m.serial,
                        partial: Seq::empty(),
                        skipping: false,
                        packets: self.packets(),
                    },
                ]
            }),
    {
        proof {
            let m = self.muxer@;
            let lp = PacketPage {
                header_type: HEADER_EOS,
                granule: granule_for(true_samples_16k) as u64,
                page_seq: m.page_seq,
                packets: self.pending@,
            };
            let pages = self.written@.push(lp);
            assert(pages.drop_last() =~= self.written@);
            assert(pages.last() == lp);
            assert forall|i: int| 0 <= i < pages.len() implies !continued((#[trigger] pages[i]).header_type)
                && packets_lacing(pages[i].packets).len() <= 255 by {
                if i < self.written@.len() {
                    assert(pages[i] == self.written@[i]);
                }
            }
            lemma_stream_of_packet_pages_reads_back(m.serial, pages);
        }
        let mut muxer = self.muxer;
        let g: u64 = PRE_SKIP_48K as u64 + true_samples_16k * 3;
        muxer.set_granule(g);
        muxer.flush(out, true);
    }
}


/// Serial field of the page starting at `off`.
pub open spec fn serial_at(buf: Seq<u8>, off: int) -> u32 {
    u32_le_at(buf, off + 14)
}

/// Highest granule per logical stream (keyed by serial) among the pages at
/// `starts`; pages whose granule is `u64::MAX` (no packet finished there)
/// are ignored.
pub open spec fn granule_map(buf: Seq<u8>, starts: Seq<int>) -> Map<u32, u64>
    decreases starts.len(),
{
    if starts.len() == 0 {
        Map::empty()
    } else {
        let m = granule_map(buf, starts.drop_last());
        let p = starts.last();
        let g = granule_at(buf, p);
        let serial = serial_at(buf, p);
        if g == u64::MAX || (m.contains_key(serial) && m[serial] >= g) {
            m
        } else {
            m.insert(serial, g)
        }
    }
}

/// Adds the samples the granule of stream `k` in `m` stands for.
pub open spec fn add_stream_samples(m: Map<u32, u64>) -> spec_fn(int, u32) -> int {
    |acc: int, k: u32| acc + samples_for_granule(m[k]) as int
}

/// Sum of the 16 kHz sample counts the granules of the streams `keys` of
/// `m` stand for.
pub open spec fn streams_samples(m: Map<u32, u64>, keys: Set<u32>) -> int {
    keys.fold(0int, add_stream_samples(m))
}

proof fn lemma_granule_map_size(buf: Seq<u8>, starts: Seq<int>)
    ensures
        granule_map(buf, starts).dom().finite(),
        granule_map(buf, starts).dom().len() <= starts.len(),
    decreases starts.len(),
{
    if starts.len() > 0 {
        lemma_granule_map_size(buf, starts.drop_last());
    }
}

proof fn lemma_streams_samples_step(m: Map<u32, u64>, keys: Set<u32>, k: u32)
    requires
        keys.finite(),
        !keys.contains(k),
    ensures
        streams_samples(m, keys.insert(k)) == streams_samples(m, keys) + samples_for_granule(m[k]),
{
    let f = add_stream_samples(m);
    assert forall|a1: u32, a2: u32, b: int| #[trigger] f(f(b, a2), a1) == f(f(b, a1), a2) by {}
    vstd::set::fold::lemma_fold_insert(keys, 0int, f, k);
}

/// Total recorded samples (16 kHz) of a possibly chained Ogg/Opus file:
/// for every logical stream, the samples its highest granule stands for,
/// added up over the streams. `None` when no complete page finished a
/// packet.
pub fn opus_total_samples(data: &[u8]) -> (r: Option<u128>)
    ensures
        ({
            let m = granule_map(data@, page_starts(data@, 0));
            match r {
                Some(n) => m.dom().len() > 0 && n == streams_samples(m, m.dom()),
                None => m.dom().len() == 0,
            }
        }),
{
    let mut per_serial: HashMap<u32, u64> = HashMap::new();
    let mut pos: usize = 0;
    let ghost mut prefix: Seq<int> = Seq::empty();
    proof {
        assert(prefix + page_starts(data@, 0) =~= page_starts(data@, 0));
        assert(per_serial@ =~= granule_map(data@, prefix));
    }
    loop
        invariant
            pos <= data@.len(),
            page_starts(data@, 0) == prefix + page_starts(data@, pos as int),
            per_serial@ == granule_map(data@, prefix),
            27 * prefix.len() <= pos,
        ensures
            page_starts(data@, 0) == prefix,
            per_serial@ == granule_map(data@, prefix),
            27 * prefix.len() <= data@.len(),
        decreases data@.len() - pos,
    {
        match next_page_end(data, pos) {
            None => {
                proof {
                    assert(page_starts(data@, pos as int) =~= Seq::<int>::empty());
                    assert(prefix + Seq::<int>::empty() =~= prefix);
                }
                break;
            },
            Some(next) => {
                proof {
                    lemma_page_end_advances(data@, pos as int);
                }
                let granule = read_u64_le(data, pos + 6);
                let serial: u32 = (data[pos + 14] as u32) | ((data[pos + 15] as u32) << 8u32) | ((
                data[pos + 16] as u32) << 16u32) | ((data[pos + 17] as u32) << 24u32);
                let ghost p2 = prefix.push(pos as int);
                proof {
                    assert(p2.drop_last() =~= prefix);
                    assert(p2.last() == pos as int);
                }
                if granule != u64::MAX {
                    let keep = match per_serial.get(&serial) {
                        Some(highest) => *highest >= granule,
                        None => false,
                    };
                    if !keep {
                        per_serial.insert(serial, granule);
                    }
                }
                proof {
                    assert(page_starts(data@, pos as int) == seq![pos as int] + page_starts(
                        data@,
                        next as int,
                    ));
                    assert(prefix + page_starts(data@, pos as int) =~= p2 + page_starts(
                        data@,
                        next as int,
                    ));
                    prefix = p2;
                }
                pos = next;
            },
        }
    }
    proof {
        lemma_granule_map_size(data@, prefix);
    }
    if per_serial.is_empty() {
        proof {
            assert(per_serial@.dom() =~= Set::<u32>::empty());
        }
        return None;
    }
    let ghost m = per_serial@;
    let mut total: u128 = 0;
    let ghost mut seen: Set<u32> = Set::empty();
    let streams = per_serial.iter();
    proof {
        vstd::set::fold::lemma_fold_empty(0int, add_stream_samples(m));
        let v = streams.remaining();
        assert forall|k: u32| #[trigger] m.contains_key(k) implies exists|i: int| 0 <= i < v.len() && *v[i].0 == k by {
            assert(v.contains((&k, &m[k])));
            let i = choose|i: int| 0 <= i < v.len() && v[i] == (&k, &m[k]);
            assert(*v[i].0 == k);
        }
    }
    for (serial, highest) in it: streams
        invariant
            m == per_serial@,
            m.dom().finite(),
            m.dom().len() <= data@.len(),
            it.seq().len() == m.dom().len(),
            it.seq().no_duplicates(),
            forall|i: int| 0 <= i < it.seq().len() ==> m.contains_key(*(#[trigger] it.seq()[i]).0)
                && m[*it.seq()[i].0] == *it.seq()[i].1,
            forall|k: u32| #[trigger] m.contains_key(k) ==> seen.contains(k) || exists|i: int| it.index() <= i < it.seq().len() && *it.seq()[i].0 == k,
            seen.finite(),
            seen.len() == it.index(),
            forall|k: u32| #[trigger] seen.contains(k) <==> exists|i: int| 0 <= i < it.index() && *it.seq()[i].0 == k,
            total == streams_samples(m, seen),
            total <= it.index() * 0x8000_0000_0000_0000,
        ensures
            seen == m.dom(),
            total == streams_samples(m, seen),
    {
        let ghost n = it.index();
        let ghost k = *serial;
        proof {
            assert(*it.seq()[n].0 == k);
            if seen.contains(k) {
                let i = choose|i: int| 0 <= i < n && *it.seq()[i].0 == k;
                assert(it.seq()[i] == it.seq()[n]);
            }
        }
        let g = *highest;
        let samples: u64 = if g >= PRE_SKIP_48K as u64 {
            (g - PRE_SKIP_48K as u64) / 3
        } else {
            0
        };
        proof {
            assert(samples < 0x8000_0000_0000_0000);
            assert(n < it.seq().len() && it.seq().len() <= data@.len());
            assert(data@.len() == data.len());
            assert(n < 0x1_0000_0000_0000_0000);
            assert(n * 0x8000_0000_0000_0000 + 0x8000_0000_0000_0000 <= u128::MAX) by (nonlinear_arith)
                requires
                    n < 0x1_0000_0000_0000_0000,
            ;
            assert(n * 0x8000_0000_0000_0000 + 0x8000_0000_0000_0000 == (n + 1) * 0x8000_0000_0000_0000) by (nonlinear_arith);
            lemma_streams_samples_step(m, seen, k);
        }
        total = total + samples as u128;
        proof {
            seen = seen.insert(k);
        }
    }
    Some(total)
}

/// The bytes of chunk files laid end to end.
pub open spec fn concat_bytes(chunks: Seq<Seq<u8>>) -> Seq<u8>
    decreases chunks.len(),
{
    if chunks.len() == 0 {
        Seq::empty()
    } else {
        concat_bytes(chunks.drop_last()) + chunks.last()
    }
}

/// Why chunks could not be glued.
#[derive(Clone, Copy, Debug, PartialEq, Eq, Structural)]
pub enum GlueError {
    NoChunks,
}

/// Glue finalized chunk files (their bytes, in order) into one full
/// recording: each chunk is a complete Ogg stream with its own serial, so
/// their concatenation is a valid chained stream; a single chunk is copied
/// as it is. There must be at least one chunk.
pub fn glue_chunks(chunks: &Vec<Vec<u8>>) -> (r: Result<Vec<u8>, GlueError>)
    ensures
        match r {
            Ok(out) => chunks@.len() > 0 && out@ == concat_bytes(chunks@.map_values(|c: Vec<u8>| c@)),
            Err(e) => chunks@.len() == 0 && e == GlueError::NoChunks,
        },
{
    if chunks.len() == 0 {
        return Err(GlueError::NoChunks);
    }
    let ghost views = chunks@.map_values(|c: Vec<u8>| c@);
    let mut out: Vec<u8> = Vec::new();
    let mut i: usize = 0;
    while i < chunks.len()
        invariant
            i <= chunks@.len(),
            views == chunks@.map_values(|c: Vec<u8>| c@),
            out@ == concat_bytes(views.subrange(0, i as int)),
        decreases chunks@.len() - i,
    {
        let chunk = &chunks[i];
        let mut k: usize = 0;
        let ghost base = out@;
        while k < chunk.len()
            invariant
                k <= chunk@.len(),
                out@ == base + chunk@.subrange(0, k as int),
            decreases chunk@.len() - k,
        {
            out.push(chunk[k]);
            k = k + 1;
            proof {
                assert(out@ =~= base + chunk@.subrange(0, k as int));
            }
        }
        proof {
            assert(chunk@.subrange(0, chunk@.len() as int) =~= chunk@);
            assert(views.subrange(0, i as int + 1).drop_last() =~= views.subrange(0, i as int));
            assert(views.subrange(0, i as int + 1).last() == chunk@);
        }
        i = i + 1;
    }
    proof {
        assert(views.subrange(0, chunks@.len() as int) =~= views);
    }
    Ok(out)
}

} // verus!
