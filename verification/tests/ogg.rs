use handy::ogg::{
    build_page, glue_chunks, lacing_for, ogg_crc, opus_head, opus_tags, opus_total_samples,
    repair_truncated, serial_for, GlueError, OggOpusStream, PageMuxer, RepairError, HEADER_BOS,
    HEADER_EOS, IN_RATE_HZ, PRE_SKIP_48K,
};

struct PageInfo {
    header_type: u8,
    granule: u64,
    serial: u32,
    page_seq: u32,
    body: Vec<u8>,
}

fn parse_pages(bytes: &[u8]) -> Vec<PageInfo> {
    let mut offset = 0usize;
    let mut pages = Vec::new();
    while offset + 27 <= bytes.len() && &bytes[offset..offset + 4] == b"OggS" {
        let header_type = bytes[offset + 5];
        let granule = u64::from_le_bytes(bytes[offset + 6..offset + 14].try_into().unwrap());
        let serial = u32::from_le_bytes(bytes[offset + 14..offset + 18].try_into().unwrap());
        let page_seq = u32::from_le_bytes(bytes[offset + 18..offset + 22].try_into().unwrap());
        let nsegs = bytes[offset + 26] as usize;
        let header_end = offset + 27 + nsegs;
        if header_end > bytes.len() {
            break;
        }
        let body_len: usize = bytes[offset + 27..header_end].iter().map(|&b| b as usize).sum();
        let page_end = header_end + body_len;
        if page_end > bytes.len() {
            break;
        }
        pages.push(PageInfo {
            header_type,
            granule,
            serial,
            page_seq,
            body: bytes[header_end..page_end].to_vec(),
        });
        offset = page_end;
    }
    pages
}

fn crc_ok(bytes: &[u8]) -> bool {
    let mut offset = 0usize;
    while offset + 27 <= bytes.len() && &bytes[offset..offset + 4] == b"OggS" {
        let nsegs = bytes[offset + 26] as usize;
        let header_end = offset + 27 + nsegs;
        if header_end > bytes.len() {
            return false;
        }
        let body_len: usize = bytes[offset + 27..header_end].iter().map(|&b| b as usize).sum();
        let page_end = header_end + body_len;
        if page_end > bytes.len() {
            return false;
        }
        let mut page = bytes[offset..page_end].to_vec();
        let stored = u32::from_le_bytes(page[22..26].try_into().unwrap());
        page[22..26].copy_from_slice(&[0u8; 4]);
        if ogg_crc(&page) != stored {
            return false;
        }
        offset = page_end;
    }
    true
}

/// A stream of `packets` fake 20 ms packets, with `true_samples` real samples.
fn stream(serial: u32, packets: usize, true_samples: u64) -> Vec<u8> {
    let mut out = Vec::new();
    let mut s = OggOpusStream::start(serial, &mut out);
    for i in 0..packets {
        let packet = vec![(i % 251) as u8; 40 + (i % 7)];
        s.push_packet(&packet, &mut out);
    }
    s.finish(true_samples, &mut out);
    out
}

#[test]
fn ogg_crc_matches_the_unreflected_zero_init_polynomial() {
    assert_eq!(ogg_crc(b""), 0);
    assert_eq!(ogg_crc(b"123456789"), 0x89A1_897F);
}

#[test]
fn lacing_terminates_with_a_short_segment() {
    assert_eq!(lacing_for(0), vec![0]);
    assert_eq!(lacing_for(100), vec![100]);
    assert_eq!(lacing_for(255), vec![255, 0]);
    assert_eq!(lacing_for(600), vec![255, 255, 90]);
}

#[test]
fn a_built_page_carries_its_fields_and_a_valid_crc() {
    let page = build_page(HEADER_BOS, 0x0102, 77, 3, &[3], &[9, 8, 7]);
    assert_eq!(&page[0..4], b"OggS");
    assert_eq!(page.len(), 27 + 1 + 3);
    assert!(crc_ok(&page));
    let pages = parse_pages(&page);
    assert_eq!(pages.len(), 1);
    assert_eq!(pages[0].header_type, HEADER_BOS);
    assert_eq!(pages[0].granule, 0x0102);
    assert_eq!(pages[0].serial, 77);
    assert_eq!(pages[0].page_seq, 3);
    assert_eq!(pages[0].body, vec![9, 8, 7]);
}

#[test]
fn the_muxer_flushes_pages_with_sequential_numbers() {
    let mut out = Vec::new();
    let mut m = PageMuxer::new(5);
    m.add_packet(&[1, 2], 10, &mut out);
    m.add_packet(&[3], 20, &mut out);
    assert_eq!(m.packets_in_page(), 2);
    m.flush(&mut out, false);
    m.flush(&mut out, true);
    let pages = parse_pages(&out);
    assert_eq!(pages.len(), 2);
    assert_eq!(pages[0].header_type, HEADER_BOS);
    assert_eq!(pages[0].body, vec![1, 2, 3]);
    assert_eq!(pages[0].granule, 20);
    assert_eq!(pages[1].header_type, HEADER_EOS);
    assert_eq!(pages[1].page_seq, 1);
    assert!(crc_ok(&out));
}

#[test]
fn stream_header_pages_have_correct_structure() {
    let bytes = stream(serial_for(Some(b"handy-10-chunk-1.opus")), 2, 480);
    assert!(crc_ok(&bytes));
    let pages = parse_pages(&bytes);
    assert_eq!(pages.len(), 3, "head + tags + one audio/EOS page");
    assert_eq!(pages[0].header_type & 0x02, 0x02);
    assert_eq!(pages[0].page_seq, 0);
    assert_eq!(pages[0].serial, serial_for(Some(b"handy-10-chunk-1.opus")));
    assert_eq!(&pages[0].body[0..8], b"OpusHead");
    assert_eq!(pages[0].body[8], 1);
    assert_eq!(pages[0].body[9], 1);
    assert_eq!(u16::from_le_bytes([pages[0].body[10], pages[0].body[11]]), PRE_SKIP_48K);
    assert_eq!(u32::from_le_bytes(pages[0].body[12..16].try_into().unwrap()), IN_RATE_HZ);
    assert_eq!(pages[0].granule, 0);
    assert_eq!(pages[1].header_type, 0x00);
    assert_eq!(&pages[1].body[0..8], b"OpusTags");
    let vendor_len = u32::from_le_bytes(pages[1].body[8..12].try_into().unwrap()) as usize;
    assert_eq!(&pages[1].body[12..12 + vendor_len], b"handy");
    let last = pages.last().unwrap();
    assert_eq!(last.header_type & 0x04, 0x04);
    assert_eq!(last.granule, PRE_SKIP_48K as u64 + 480 * 3);
    assert_eq!(opus_head(PRE_SKIP_48K).len(), 19);
    assert_eq!(opus_tags().len(), 21);
}

#[test]
fn stream_flags_and_granules_are_correct_across_pages() {
    let bytes = stream(9, 120, 120 * 320);
    assert!(crc_ok(&bytes));
    let pages = parse_pages(&bytes);
    assert_eq!(pages.len(), 2 + 4 + 1, "four full 25-packet pages and a 20-packet EOS page");
    for (i, p) in pages.iter().enumerate() {
        assert_eq!(p.page_seq, i as u32);
        assert_eq!(p.header_type & 0x02 != 0, i == 0);
        assert_eq!(p.header_type & 0x04 != 0, i == pages.len() - 1);
    }
    assert_eq!(pages[2].granule, PRE_SKIP_48K as u64 + 25 * 320 * 3);
    let audio_granules: Vec<u64> = pages[2..].iter().map(|p| p.granule).collect();
    for pair in audio_granules.windows(2) {
        assert!(pair[1] >= pair[0]);
    }
}

#[test]
fn zero_packet_stream_is_a_valid_minimal_stream() {
    let bytes = stream(3, 0, 0);
    assert!(crc_ok(&bytes));
    let pages = parse_pages(&bytes);
    assert_eq!(pages.len(), 3);
    let last = pages.last().unwrap();
    assert_eq!(last.header_type & 0x04, 0x04);
    assert!(last.body.is_empty());
    assert_eq!(last.granule, PRE_SKIP_48K as u64);
}

#[test]
fn repair_recovers_a_stream_with_only_its_setup_pages() {
    let mut out = Vec::new();
    let _s = OggOpusStream::start(11, &mut out);
    let (repaired, samples) = repair_truncated(out).unwrap();
    assert_eq!(samples, 0);
    assert!(crc_ok(&repaired));
    let pages = parse_pages(&repaired);
    assert_eq!(pages.len(), 2);
    assert_eq!(pages.last().unwrap().header_type & 0x04, 0x04);
}

#[test]
fn repair_rejects_bytes_with_no_complete_pages() {
    let mut bytes = stream(4, 0, 0);
    bytes.truncate(10);
    assert_eq!(
        repair_truncated(bytes),
        Err(RepairError::NoRecoverableAudio { complete_pages: 0 })
    );
    let mut out = Vec::new();
    let _s = OggOpusStream::start(11, &mut out);
    let head_only = out[..out.len() - 5].to_vec();
    let err = repair_truncated(head_only).unwrap_err();
    assert_eq!(err.complete_pages(), 1);
}

#[test]
fn repair_handles_truncation_at_many_offsets() {
    let full = stream(17, 200, 200 * 320);
    let full_len = full.len();
    for chop in [1usize, 5, 20, 37, 60, 90] {
        let mut truncated = full.clone();
        truncated.truncate(full_len - chop);
        let (repaired, samples) = repair_truncated(truncated.clone()).unwrap();
        assert!(samples > 0, "chop {chop}");
        assert!(crc_ok(&repaired), "chop {chop}");
        let pages = parse_pages(&repaired);
        assert!(pages.len() >= 2);
        assert_eq!(pages.last().unwrap().header_type & 0x04, 0x04);
        assert!(repaired.len() <= truncated.len());
        let mut last_page_start = 0usize;
        for _ in 0..pages.len() - 1 {
            let nsegs = repaired[last_page_start + 26] as usize;
            let header_end = last_page_start + 27 + nsegs;
            let body_len: usize =
                repaired[last_page_start + 27..header_end].iter().map(|&b| b as usize).sum();
            last_page_start = header_end + body_len;
        }
        assert_eq!(&repaired[..last_page_start], &full[..last_page_start]);
        let last = pages.last().unwrap();
        assert_eq!(samples, (last.granule - PRE_SKIP_48K as u64) / 3);
    }
}

#[test]
fn crc_check_detects_corruption() {
    let bytes = stream(18, 15, 4800);
    assert!(crc_ok(&bytes));
    let mut corrupted = bytes.clone();
    let tail = corrupted.len() - 1;
    corrupted[tail] ^= 0x01;
    assert!(!crc_ok(&corrupted));
    let mut corrupted_header = bytes.clone();
    corrupted_header[7] ^= 0xFF;
    assert!(!crc_ok(&corrupted_header));
}

#[test]
fn glue_chunks_rejects_empty_list() {
    assert_eq!(glue_chunks(&vec![]), Err(GlueError::NoChunks));
}

#[test]
fn glued_chunks_keep_each_chain_and_sum_their_durations() {
    let a = stream(serial_for(Some(b"handy-4-chunk-1.opus")), 30, 30 * 320);
    let b = stream(serial_for(Some(b"handy-4-chunk-2.opus")), 10, 10 * 320 - 100);
    assert_eq!(glue_chunks(&vec![a.clone()]).unwrap(), a);
    let glued = glue_chunks(&vec![a.clone(), b.clone()]).unwrap();
    assert_eq!(glued.len(), a.len() + b.len());
    assert_eq!(&glued[..a.len()], &a[..]);
    let pages = parse_pages(&glued);
    let bos: Vec<usize> = (0..pages.len()).filter(|&i| pages[i].header_type & 0x02 != 0).collect();
    let eos: Vec<usize> = (0..pages.len()).filter(|&i| pages[i].header_type & 0x04 != 0).collect();
    assert_eq!(bos.len(), 2);
    assert_eq!(eos.len(), 2);
    assert_ne!(pages[bos[0]].serial, pages[bos[1]].serial);
    assert_eq!(opus_total_samples(&glued), Some((30 * 320 + 10 * 320 - 100) as u128));
    assert_eq!(opus_total_samples(b"not ogg"), None);
}

#[test]
fn serials_are_odd_and_name_dependent() {
    let a = serial_for(Some(b"handy-1-chunk-1.opus"));
    let b = serial_for(Some(b"handy-1-chunk-2.opus"));
    assert_eq!(a & 1, 1);
    assert_ne!(a, b);
    assert_eq!(serial_for(None), serial_for(Some(b"handy-chunk")));
}

#[test]
fn streams_with_equal_durations_each_count_towards_the_total() {
    let a = stream(serial_for(Some(b"handy-9-chunk-1.opus")), 5, 5 * 320);
    let b = stream(serial_for(Some(b"handy-9-chunk-2.opus")), 5, 5 * 320);
    let glued = glue_chunks(&vec![a.clone(), b]).unwrap();
    assert_eq!(opus_total_samples(&a), Some(5 * 320));
    assert_eq!(opus_total_samples(&glued), Some(2 * 5 * 320));
}
