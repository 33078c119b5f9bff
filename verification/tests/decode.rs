use handy::demux::{audio_format, demux_ogg, AudioFormat, OpusPacketReader};
use handy::ogg::{build_page, glue_chunks, opus_head, OggOpusStream, HEADER_BOS, HEADER_EOS, PRE_SKIP_48K};

fn stream(serial: u32, packets: &[Vec<u8>]) -> Vec<u8> {
    let mut out = Vec::new();
    let mut s = OggOpusStream::start(serial, &mut out);
    for p in packets {
        s.push_packet(p, &mut out);
    }
    s.finish(packets.len() as u64 * 320, &mut out);
    out
}

#[test]
fn chained_streams_demux_in_order_of_first_appearance() {
    let a: Vec<Vec<u8>> = (0..30u8).map(|i| vec![i; 3 + i as usize]).collect();
    let b: Vec<Vec<u8>> = (0..3u8).map(|i| vec![200 + i; 300]).collect();
    let glued = glue_chunks(&vec![stream(7, &a), stream(9, &b)]).unwrap();
    let streams = demux_ogg(&glued);
    assert_eq!(streams.len(), 2);
    assert_eq!(streams[0].serial, 7);
    assert_eq!(streams[1].serial, 9);
    assert_eq!(streams[0].packets.len(), 2 + 30);
    assert_eq!(streams[0].packets[0], opus_head(PRE_SKIP_48K));
    assert_eq!(&streams[0].packets[2..], &a[..]);
    assert_eq!(&streams[1].packets[2..], &b[..]);
}

#[test]
fn a_packet_continued_across_pages_is_joined_and_an_orphan_continuation_skipped() {
    let first = vec![1u8; 255];
    let mut bytes = Vec::new();
    // A continuation whose start was never seen: skipped up to its end.
    bytes.extend(build_page(0x01, 0, 5, 0, &[255, 4, 2], &[[9u8; 255].as_slice(), &[9; 4], &[3, 3]].concat()));
    // A packet begun on one page and finished on the next.
    bytes.extend(build_page(0, 0, 5, 1, &[255], &first));
    bytes.extend(build_page(0x01, 0, 5, 2, &[10], &[2u8; 10]));
    // A page promising a continuation, then a fresh page: the torn packet is dropped.
    bytes.extend(build_page(0, 0, 5, 3, &[255], &[4u8; 255]));
    bytes.extend(build_page(HEADER_EOS, 0, 5, 4, &[1], &[8]));
    // A torn tail is ignored.
    let torn = build_page(HEADER_BOS, 0, 5, 5, &[1], &[6]);
    bytes.extend(&torn[..torn.len() - 1]);
    let streams = demux_ogg(&bytes);
    assert_eq!(streams.len(), 1);
    let mut joined = first.clone();
    joined.extend([2u8; 10]);
    assert_eq!(streams[0].packets, vec![vec![3, 3], joined, vec![8]]);
}

#[test]
fn headers_are_consumed_and_the_pre_skip_trimmed() {
    let mut r = OpusPacketReader::new();
    assert!(!r.on_packet(&[]));
    assert!(!r.on_packet(&opus_head(312)));
    assert_eq!(r.pre_skip_16k, 104);
    assert!(!r.on_packet(b"OpusTags"));
    assert!(r.on_packet(&[1, 2, 3]));
    assert_eq!(r.trim(60), 60);
    assert_eq!(r.trim(60), 44);
    assert_eq!(r.trim(60), 0);
    let mut bad = OpusPacketReader::new();
    assert!(!bad.on_packet(b"NotAHead...."));
    assert_eq!(bad.pre_skip_16k, 0);
}

#[test]
fn unsupported_extension_is_rejected() {
    let err = audio_format(Some("mp3")).unwrap_err();
    assert!(err.contains("unsupported audio format"));
    assert_eq!(err, "unsupported audio format '.mp3' (supported: .wav, .ogg, .opus)");
    assert_eq!(audio_format(Some("WAV")), Ok(AudioFormat::Wav));
    assert_eq!(audio_format(Some("Opus")), Ok(AudioFormat::OggOpus));
    assert_eq!(audio_format(Some("ogg")), Ok(AudioFormat::OggOpus));
    assert_eq!(
        audio_format(None),
        Err("unsupported audio format '.' (supported: .wav, .ogg, .opus)".to_string())
    );
}

#[test]
fn glued_chunks_read_as_each_chunk_in_turn() {
    let c1 = stream(21, &[vec![1u8; 600], vec![2u8; 5]]);
    let c2 = stream(22, &[vec![3u8; 40]]);
    let c3 = stream(23, &(0..70u8).map(|i| vec![i; 1 + i as usize]).collect::<Vec<_>>());
    let glued = glue_chunks(&vec![c1.clone(), c2.clone(), c3.clone()]).unwrap();
    let whole: Vec<(u32, Vec<Vec<u8>>)> =
        demux_ogg(&glued).into_iter().map(|s| (s.serial, s.packets)).collect();
    let mut each: Vec<(u32, Vec<Vec<u8>>)> = Vec::new();
    for c in [&c1, &c2, &c3] {
        each.extend(demux_ogg(c).into_iter().map(|s| (s.serial, s.packets)));
    }
    assert_eq!(whole.len(), 3);
    assert_eq!(whole, each);
}
