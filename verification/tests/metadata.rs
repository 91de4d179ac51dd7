use still_core::metadata::{disc_numbering, expand_macros, is_empty_meta, resolve_tags, year_of, AlbumMeta, MacroContext};

fn meta() -> AlbumMeta {
    AlbumMeta {
        album: "Live at the Barn".into(),
        album_artist: "The Copper Stills".into(),
        artist: "".into(),
        date: "2026-08-01".into(),
        genre: "Rock".into(),
        comment: "".into(),
        disc_breaks: vec![7, 13],
        catalog_ean: "".into(),
        artwork_path: "".into(),
    }
}

#[test]
fn disc_numbering_splits_at_breaks() {
    let b = vec![7, 13];
    // 18 tracks: 1-6 disc 1, 7-12 disc 2, 13-18 disc 3.
    assert_eq!(disc_numbering(&b, 1, 18), (1, 6, 1, 3));
    assert_eq!(disc_numbering(&b, 6, 18), (6, 6, 1, 3));
    assert_eq!(disc_numbering(&b, 7, 18), (1, 6, 2, 3));
    assert_eq!(disc_numbering(&b, 12, 18), (6, 6, 2, 3));
    assert_eq!(disc_numbering(&b, 13, 18), (1, 6, 3, 3));
    assert_eq!(disc_numbering(&b, 18, 18), (6, 6, 3, 3));
}

#[test]
fn disc_numbering_defaults_to_single_disc() {
    assert_eq!(disc_numbering(&[], 5, 12), (5, 12, 1, 1));
    // Out-of-range/duplicate/unsorted breaks are cleaned up.
    assert_eq!(disc_numbering(&[99, 1, 7, 7], 8, 12), (2, 6, 2, 2));
}

#[test]
fn macros_expand_everywhere() {
    let m = meta();
    let numbering = disc_numbering(&m.disc_breaks, 8, 18);
    let ctx = MacroContext {
        meta: &m,
        title: "Ashes",
        source_stem: "concert",
        numbering,
    };
    assert_eq!(
        expand_macros("{album} \u{2014} Disc {disc}/{dtotal}", &ctx),
        "Live at the Barn \u{2014} Disc 2/3"
    );
    assert_eq!(expand_macros("{n} of {ntotal}", &ctx), "02 of 6");
    assert_eq!(expand_macros("{year}", &ctx), "2026");
    // Empty artist falls back to the album artist.
    assert_eq!(expand_macros("{artist}", &ctx), "The Copper Stills");
}

#[test]
fn resolve_tags_fills_numbering_and_fallbacks() {
    let m = meta();
    let t = resolve_tags(&m, "Boreal", "concert", 13, 18);
    assert_eq!(t.track, 1);
    assert_eq!(t.track_total, 6);
    assert_eq!(t.disc, 3);
    assert_eq!(t.disc_total, 3);
    assert_eq!(t.artist, "The Copper Stills");
    assert_eq!(t.album, "Live at the Barn");
}

#[test]
fn dynamic_album_per_disc() {
    let mut m = meta();
    m.album = "Anthology (Disc {disc})".into();
    let t1 = resolve_tags(&m, "A", "s", 2, 18);
    let t3 = resolve_tags(&m, "B", "s", 14, 18);
    assert_eq!(t1.album, "Anthology (Disc 1)");
    assert_eq!(t3.album, "Anthology (Disc 3)");
}

#[test]
fn disc_starts_always_increase_and_numbers_stay_in_range() {
    // Law: every track number lands on one disc, inside that disc's count.
    let breaks = vec![12, 3, 3, 40, 0, 8];
    for total in 1..=15u32 {
        for n in 1..=total {
            let (t, tt, d, dt) = disc_numbering(&breaks, n, total);
            assert!(t >= 1 && t <= tt, "{n}/{total}");
            assert!(d >= 1 && d <= dt, "{n}/{total}");
        }
    }
}

#[test]
fn title_and_source_macros_and_year_edges() {
    let m = meta();
    let ctx = MacroContext { meta: &m, title: "Intro", source_stem: "take1", numbering: (3, 9, 1, 1) };
    assert_eq!(expand_macros("{titre} / {title} from {source}", &ctx), "Intro / Intro from take1");
    assert_eq!(year_of("08/2026"), "0820");
    assert_eq!(year_of("26"), "");
}

#[test]
fn empty_metadata_is_detected() {
    let mut m = meta();
    assert!(!is_empty_meta(&m));
    m.album.clear();
    m.album_artist.clear();
    m.date.clear();
    m.genre.clear();
    assert!(is_empty_meta(&m));
    m.comment = "x".into();
    assert!(!is_empty_meta(&m));
}
