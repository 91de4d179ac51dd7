use still_core::stream::{MemoryStream, SeekFrom, SeekOutcome};
use still_core::vst3::{cid_to_id, is_effect, pack_state, parse_id, unpack_state};

#[test]
fn id_roundtrip() {
    let cid: [u8; 16] = [
        0x01, 0x23, 0x45, 0x67, 0x89, 0xab, 0xcd, 0xef, 0xfe, 0xdc, 0xba, 0x98, 0x76, 0x54, 0x32,
        0x10,
    ];
    let id = cid_to_id(&cid);
    assert_eq!(id, "vst3:0123456789abcdeffedcba9876543210");
    assert_eq!(parse_id(&id), Some(cid));
}

#[test]
fn parse_rejects_malformed() {
    assert_eq!(parse_id("aufx:dcmp:appl"), None);
    assert_eq!(parse_id("vst3:"), None);
    assert_eq!(parse_id("vst3:0123"), None);
    assert_eq!(parse_id("vst3:0123456789abcdeffedcba98765432zz"), None);
    assert_eq!(parse_id("vst3:0123456789abcdeffedcba98765432100"), None);
}

#[test]
fn parse_accepts_uppercase_hex() {
    let id = "vst3:0123456789ABCDEFFEDCBA9876543210";
    let cid = parse_id(id).unwrap();
    assert_eq!(cid_to_id(&cid), "vst3:0123456789abcdeffedcba9876543210");
}

#[test]
fn effect_filter() {
    assert!(is_effect("Fx|EQ"));
    assert!(is_effect("Fx"));
    assert!(is_effect(""));
    assert!(!is_effect("Instrument|Synth"));
    assert!(!is_effect("Instrument"));
}

#[test]
fn container_roundtrip_and_fuzz() {
    let (c, k) = unpack_state(&pack_state(b"component", b"controller")).unwrap();
    assert_eq!(c, b"component");
    assert_eq!(k, b"controller");
    let (c, k) = unpack_state(&pack_state(b"", b"")).unwrap();
    assert!(c.is_empty() && k.is_empty());

    assert!(unpack_state(b"").is_none());
    assert!(unpack_state(b"XXXX\x01\x00\x00\x00a").is_none());
    // Truncated payloads and oversized declared lengths must fail clean.
    let good = pack_state(b"abcdef", b"ghij");
    for cut in 0..good.len() {
        let _ = unpack_state(&good[..cut]);
    }
    let mut evil = pack_state(b"abc", b"de");
    evil[4] = 0xff;
    evil[5] = 0xff;
    assert!(unpack_state(&evil).is_none());
}

#[test]
fn container_layout_is_magic_and_lengths() {
    let blob = pack_state(b"ab", b"c");
    assert_eq!(blob, b"SV31\x02\x00\x00\x00ab\x01\x00\x00\x00c".to_vec());
}

#[test]
fn stream_roundtrip_write_seek_read() {
    let mut s = MemoryStream::new();
    let payload = b"hello vst3 state";
    assert_eq!(s.write(payload), payload.len());
    assert_eq!(s.tell(), payload.len() as u64);
    assert_eq!(s.seek(0, SeekFrom::Start), SeekOutcome::Moved(0));
    assert_eq!(s.read(64), payload.to_vec());
    assert_eq!(s.seek(-4, SeekFrom::End), SeekOutcome::Moved(12));
    assert_eq!(s.read(64), b"tate".to_vec());
    assert_eq!(s.seek(-100, SeekFrom::Current), SeekOutcome::BeforeStart);
    assert_eq!(s.tell(), 16);
}

#[test]
fn stream_write_past_end_zero_fills() {
    let mut s = MemoryStream::with_data(b"ab");
    assert_eq!(s.seek(4, SeekFrom::Start), SeekOutcome::Moved(4));
    s.write(b"xy");
    assert_eq!(s.take_data(), b"ab\x00\x00xy".to_vec());
    assert_eq!(s.tell(), 6);
}

#[test]
fn stream_reads_stop_at_the_end() {
    let mut s = MemoryStream::with_data(b"abc");
    assert_eq!(s.read(2), b"ab".to_vec());
    assert_eq!(s.read(5), b"c".to_vec());
    assert!(s.read(5).is_empty());
    s.seek(10, SeekFrom::Start);
    assert!(s.read(1).is_empty());
}
