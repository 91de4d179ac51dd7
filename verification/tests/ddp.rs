use md5::{Digest, Md5};
use still_core::ddp::{
    ddpid_packet, ddpms_packets, msf, normalize_isrc, pq_sheet, pq_stream, Disc, FilesetError,
    Track, IMAGE_NAME,
};

fn disc() -> Disc {
    Disc {
        title: "Barn Sessions".into(),
        performer: "The Copper Stills".into(),
        ean: Some("1234567890128".into()),
        tracks: vec![
            Track {
                number: 1,
                title: "Opener".into(),
                start_sector: 0,
                length_sectors: 14816,
                isrc: Some("FRAB12600001".into()),
                pregap_sectors: 0,
            },
            Track {
                number: 2,
                title: "Closer".into(),
                start_sector: 14816,
                length_sectors: 10883,
                isrc: None,
                pregap_sectors: 0,
            },
        ],
    }
}

fn field(bytes: &[u8], off: usize, width: usize) -> String {
    String::from_utf8_lossy(&bytes[off..off + width]).to_string()
}

#[test]
fn msf_math() {
    assert_eq!(msf(0), (0, 0, 0));
    assert_eq!(msf(150), (0, 2, 0));
    assert_eq!(msf(14816 + 150), (3, 19, 41));
}

#[test]
fn isrc_validation() {
    assert_eq!(
        normalize_isrc("fr-ab1-26-00001").unwrap().as_deref(),
        Some("FRAB12600001")
    );
    assert_eq!(normalize_isrc("  ").unwrap(), None);
    assert!(normalize_isrc("123456789012").is_err()); // starts with digits
    assert!(normalize_isrc("FRAB126001").is_err()); // too short
    assert!(normalize_isrc("FRAB1260000A").is_err()); // letter in designation
}

#[test]
fn isrc_error_names_the_input() {
    let e = normalize_isrc("not an isrc").unwrap_err();
    assert_eq!(
        e,
        "\"not an isrc\" is not a valid ISRC (expected CC-XXX-YY-NNNNN: 2 letters, 3 alphanumerics, 7 digits)"
    );
}

/// DDPID: 128 bytes, level at 0, EAN at 8, MSL at 29, "CD" at 87.
#[test]
fn ddpid_layout() {
    let p = ddpid_packet(&disc(), 256);
    assert_eq!(p.len(), 128);
    assert_eq!(field(&p, 0, 8), "DDP 2.00");
    assert_eq!(field(&p, 8, 13), "1234567890128");
    assert_eq!(field(&p, 29, 8).trim(), "256");
    assert_eq!(field(&p, 87, 2), "CD");
    assert!(p.iter().all(|b| b.is_ascii() && !b.is_ascii_control()));
}

#[test]
fn ddpid_masks_non_ascii_title() {
    let mut d = disc();
    d.title = "Été".into();
    let p = ddpid_packet(&d, 256);
    assert_eq!(field(&p, 38, 3), "_t_");
}

/// DDPMS: two 128-byte packets — D0 audio (sectors, CDM=DA, pause
/// included as PG2) then S0 subcode (bytes, SUB="PQ DESCR").
#[test]
fn ddpms_layout() {
    let d = disc();
    let ms = ddpms_packets(&d, IMAGE_NAME, 6 * 64);
    assert_eq!(ms.len(), 256);
    let d0 = &ms[..128];
    assert_eq!(field(d0, 0, 4), "VVVM");
    assert_eq!(field(d0, 4, 2), "D0");
    assert_eq!(field(d0, 6, 8), "        ", "DSP blank");
    assert_eq!(field(d0, 14, 8), format!("{:08}", 150 + 14816 + 10883));
    assert_eq!(field(d0, 22, 8), "        ", "DSS blank: pause in image");
    assert_eq!(field(d0, 38, 2), "DA");
    assert_eq!(field(d0, 40, 1), "0");
    assert_eq!(field(d0, 41, 1), "0");
    assert_eq!(field(d0, 46, 4), " 150");
    assert_eq!(field(d0, 71, 3), "017");
    assert_eq!(field(d0, 74, 17).trim(), "IMAGE.DAT");

    let s0 = &ms[128..];
    assert_eq!(field(s0, 0, 4), "VVVM");
    assert_eq!(field(s0, 4, 2), "S0");
    assert_eq!(field(s0, 14, 8), format!("{:08}", 6 * 64));
    assert_eq!(field(s0, 30, 8), "PQ DESCR");
    assert_eq!(field(s0, 74, 17).trim(), "PQDESCR");
}

/// PQ stream: lead-in with EAN, track 1 index 00 at 00:00:00 and index
/// 01 at 00:02:00, later tracks at absolute time, lead-out at AA.
#[test]
fn pq_stream_layout() {
    let pq = pq_stream(&disc());
    assert_eq!(pq.len() % 64, 0);
    let packets: Vec<&[u8]> = pq.chunks(64).collect();
    assert_eq!(packets.len(), 5);

    for p in &packets {
        assert_eq!(field(p, 0, 4), "VVVS");
        assert_eq!(field(p, 8, 2), "  ", "hours stay blank");
        assert_eq!(field(p, 16, 2), "01", "control/ADR: audio, position");
    }
    // Lead-in carries the UPC/EAN.
    assert_eq!(field(packets[0], 4, 2), "00");
    assert_eq!(field(packets[0], 32, 13), "1234567890128");
    // Track 1: index 00 at absolute zero, index 01 after the pause.
    assert_eq!(field(packets[1], 4, 4), "0100");
    assert_eq!(field(packets[1], 10, 6), "000000");
    assert_eq!(field(packets[1], 20, 12), "FRAB12600001");
    assert_eq!(field(packets[2], 4, 4), "0101");
    assert_eq!(field(packets[2], 10, 6), "000200");
    // Track 2 index 01 at 150+14816 sectors = 03:19:41.
    assert_eq!(field(packets[3], 4, 4), "0201");
    assert_eq!(field(packets[3], 10, 6), "031941");
    // Lead-out at 150+25699 = 05:44:49.
    assert_eq!(field(packets[4], 4, 2), "AA");
    assert_eq!(field(packets[4], 10, 6), "054449");
}

/// PQ sheet and PQ stream agree to the frame.
#[test]
fn pq_sheet_agrees_with_stream() {
    let d = disc();
    let sheet = pq_sheet(&d);
    assert!(sheet.contains(" 01  01  00:02:00"), "{sheet}");
    assert!(sheet.contains(" 02  01  03:19:41"), "{sheet}");
    assert!(sheet.contains(" AA  01  05:44:49"), "{sheet}");
    assert!(sheet.contains("FRAB12600001"), "{sheet}");
    assert!(sheet.contains("1234567890128"), "{sheet}");
}

#[test]
fn program_sectors_is_the_last_end() {
    assert_eq!(disc().program_sectors(), 25699);
    assert_eq!(Disc::default().program_sectors(), 0);
}

#[test]
fn fileset_refuses_a_misaligned_or_short_image() {
    let d = disc();
    assert_eq!(
        still_core::ddp::fileset_files(&d, &[0u8; 5]).err(),
        Some(FilesetError::NotSectorAligned { audio_bytes: 5 })
    );
    let e = still_core::ddp::fileset_files(&d, &vec![0u8; 3 * 2352]).err().unwrap();
    assert_eq!(
        e,
        FilesetError::LengthMismatch { audio_sectors: 3, program: 25699 }
    );
    assert_eq!(
        e.message(),
        "audio image is 3 sectors but the track list describes 25699"
    );
}

fn small_disc() -> Disc {
    let mut d = disc();
    d.tracks[0].length_sectors = 3;
    d.tracks[1].start_sector = 3;
    d.tracks[1].length_sectors = 2;
    d
}

fn hex_digest(bytes: &[u8]) -> String {
    Md5::digest(bytes).iter().map(|b| format!("{b:02x}")).collect()
}

#[test]
fn fileset_lists_metadata_and_checksums() {
    let d = small_disc();
    let audio: Vec<u8> = (0..5 * 2352).map(|i| (i % 251) as u8).collect();
    let files = still_core::ddp::fileset_files(&d, &audio).unwrap();
    let names: Vec<&str> = files.iter().map(|f| f.name.as_str()).collect();
    assert_eq!(
        names,
        vec!["IMAGE.DAT", "DDPID", "DDPMS", "PQDESCR", "PQ_SHEET.TXT", "CHECKSUM.MD5"]
    );
    // The image is the lead-in pause, then the audio.
    assert_eq!(files[0].bytes.len(), 155 * 2352);
    assert!(files[0].bytes[..150 * 2352].iter().all(|b| *b == 0));
    assert_eq!(&files[0].bytes[150 * 2352..], &audio[..]);
    assert_eq!(files[1].bytes.len(), 128);
    assert_eq!(field(&files[1].bytes, 29, 8).trim(), "256");
    let chk = String::from_utf8(files[5].bytes.clone()).unwrap();
    assert_eq!(chk.lines().count(), 5);
    // Every line is `md5sum` output for the file it names.
    let mut image = vec![0u8; 150 * 2352];
    image.extend_from_slice(&audio);
    let first = chk.lines().next().unwrap();
    assert_eq!(first, format!("{}  IMAGE.DAT", hex_digest(&image)));
    for (line, f) in chk.lines().skip(1).zip(files[1..5].iter()) {
        assert_eq!(line, format!("{}  {}", hex_digest(&f.bytes), f.name));
    }
}

#[test]
fn image_file_prepends_the_pause() {
    let img = still_core::ddp::image_file(&[7u8, 8, 9]);
    assert_eq!(img.len(), 150 * 2352 + 3);
    assert_eq!(&img[150 * 2352..], &[7, 8, 9]);
    assert!(img[..150 * 2352].iter().all(|b| *b == 0));
}

#[test]
fn disc_fits_checks_representable_ends() {
    let mut d = disc();
    assert!(d.fits());
    d.tracks[1].start_sector = u64::MAX - 5;
    d.tracks[1].length_sectors = 10;
    assert!(!d.fits());
    d.tracks[1].length_sectors = 5;
    // The end itself fits, the lead-in pause on top of it does not.
    assert!(!d.fits());
    d.tracks[1].start_sector = u64::MAX - 200;
    d.tracks[1].length_sectors = 50;
    assert!(d.fits());
}
