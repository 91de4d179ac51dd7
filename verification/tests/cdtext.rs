use still_core::cdtext::{cdtext_stream, crc16, has_text, latin1, LANG_ENGLISH, PACK_LEN};
use still_core::ddp::{Disc, Track};

/// Known-answer: CRC-CCITT/XModem of "123456789" is 0x31C3.
#[test]
fn crc_known_vector() {
    assert_eq!(crc16(b"123456789"), 0x31C3);
}

fn disc() -> Disc {
    Disc {
        title: "Barn Sessions".into(),
        performer: "The Copper Stills".into(),
        ean: Some("1234567890128".into()),
        tracks: vec![
            Track {
                number: 1,
                title: "Opener".into(),
                start_sector: 0,
                length_sectors: 100,
                isrc: Some("FRAB12600001".into()),
                pregap_sectors: 0,
            },
            Track {
                number: 2,
                title: "Éléphant".into(), // Latin-1 accents survive
                start_sector: 100,
                length_sectors: 50,
                isrc: None,
                pregap_sectors: 0,
            },
        ],
    }
}

/// Decode the stream the way a reader does: accumulate text bytes of
/// one pack type, split on NUL, attribute per track.
fn decode(stream: &[u8], pack_type: u8) -> Vec<String> {
    let mut buf = Vec::new();
    for p in stream.chunks(PACK_LEN) {
        if p[0] == pack_type && p[3] & 0x70 == 0 {
            buf.extend_from_slice(&p[4..16]);
        }
    }
    buf.split(|b| *b == 0)
        .map(|s| s.iter().map(|b| *b as char).collect::<String>())
        .collect()
}

#[test]
fn stream_is_valid_and_readable() {
    let s = cdtext_stream(&disc());
    assert_eq!(s.len() % PACK_LEN, 0);

    for (i, p) in s.chunks(PACK_LEN).enumerate() {
        assert_eq!(p[2] as usize, i, "sequence must be continuous");
        let crc = !crc16(&p[..16]);
        assert_eq!(
            ((p[16] as u16) << 8) | p[17] as u16,
            crc,
            "pack {i} CRC"
        );
    }

    let titles = decode(&s, 0x80);
    assert_eq!(titles[0], "Barn Sessions");
    assert_eq!(titles[1], "Opener");
    assert!(titles[2].starts_with('É'), "{titles:?}");
    let performers = decode(&s, 0x81);
    assert_eq!(performers[0], "The Copper Stills");
    assert_eq!(performers[1], "The Copper Stills");
    let codes = decode(&s, 0x8E);
    assert_eq!(codes[0], "1234567890128");
    assert_eq!(codes[1], "FRAB12600001");
    assert_eq!(codes[2], "");

    // Size info: 3 packs, charset Latin-1, last track 2, counts add up.
    let info: Vec<&[u8]> = s
        .chunks(PACK_LEN)
        .filter(|p| p[0] == 0x8F)
        .collect();
    assert_eq!(info.len(), 3);
    let payload: Vec<u8> = info.iter().flat_map(|p| p[4..16].to_vec()).collect();
    assert_eq!(payload[0], 0x00, "ISO 8859-1");
    assert_eq!(payload[1], 1);
    assert_eq!(payload[2], 2);
    let total = s.len() / PACK_LEN;
    assert_eq!(payload[20] as usize, total - 1, "last sequence number");
    assert_eq!(payload[28], LANG_ENGLISH);
    let declared: usize = payload[4..20].iter().map(|c| *c as usize).sum();
    assert_eq!(declared, total, "declared pack counts must cover the block");
}

#[test]
fn empty_disc_has_no_text() {
    let d = Disc::default();
    assert!(!has_text(&d));
    assert!(has_text(&disc()));
}

#[test]
fn latin1_masks_outside_the_charset() {
    assert_eq!(latin1("aé€\n"), vec![b'a', 0xE9, b'_', b'_']);
}

#[test]
fn no_codes_without_ean_or_isrc() {
    let mut d = disc();
    d.ean = None;
    for t in &mut d.tracks {
        t.isrc = None;
    }
    let s = cdtext_stream(&d);
    assert!(s.chunks(PACK_LEN).all(|p| p[0] != 0x8E));
}
