use still_core::plugins::PluginFormat;
use still_core::scan::{cache_is_stale, reusable, ScanState, ScannedBundle, ScannedClass};

fn class(hex: &str, name: &str, vendor: &str, sub: &str) -> ScannedClass {
    ScannedClass { cid_hex: hex.into(), name: name.into(), vendor: vendor.into(), subcategories: sub.into() }
}

fn bundles() -> Vec<ScannedBundle> {
    vec![
        ScannedBundle {
            path: "/VST3/Fake.vst3".into(),
            binary_mtime: 42,
            classes: vec![
                class("00112233445566778899aabbccddeeff", "Fake EQ", "Vendor", "Fx|EQ"),
                class("ffeeddccbbaa99887766554433221100", "Synth", "Vendor", "Instrument|Synth"),
            ],
        },
        ScannedBundle {
            path: "/VST3/Other.vst3".into(),
            binary_mtime: 7,
            classes: vec![
                class("0123456789abcdeffedcba9876543210", "comp", "", ""),
                class("00112233445566778899aabbccddeeff", "Fake EQ", "Vendor", "Fx"),
            ],
        },
    ]
}

#[test]
fn registry_lists_effects_and_finds_bundles() {
    let mut s = ScanState::new();
    assert!(s.needs_cache_load());
    s.set_cache_path("/cache.json".into());
    s.install(bundles());
    assert!(!s.needs_cache_load());
    let list = s.list_effects();
    let rows: Vec<(String, String, String)> =
        list.iter().map(|p| (p.id.clone(), p.name.clone(), p.manufacturer.clone())).collect();
    // Sorted ignoring case; the duplicate class id appears once; an
    // instrument is left out; a class without vendor is "Unknown".
    assert_eq!(
        rows,
        vec![
            ("vst3:0123456789abcdeffedcba9876543210".into(), "comp".into(), "Unknown".into()),
            ("vst3:00112233445566778899aabbccddeeff".into(), "Fake EQ".into(), "Vendor".into()),
        ]
    );
    assert!(list.iter().all(|p| p.format == PluginFormat::Vst3));
    // The later registration of a class id wins.
    let cid = [0x00, 0x11, 0x22, 0x33, 0x44, 0x55, 0x66, 0x77, 0x88, 0x99, 0xaa, 0xbb, 0xcc, 0xdd, 0xee, 0xff];
    assert_eq!(s.bundle_for_cid(&cid).as_deref(), Some("/VST3/Other.vst3"));
    let synth = [0xff, 0xee, 0xdd, 0xcc, 0xbb, 0xaa, 0x99, 0x88, 0x77, 0x66, 0x55, 0x44, 0x33, 0x22, 0x11, 0x00];
    assert_eq!(s.bundle_for_cid(&synth).as_deref(), Some("/VST3/Fake.vst3"));
    assert_eq!(s.bundle_for_cid(&[0u8; 16]), None);
}

#[test]
fn cache_staleness_and_reuse() {
    let cached = bundles();
    assert_eq!(reusable(&cached, &"/VST3/Fake.vst3".to_string(), 42), Some(0));
    assert_eq!(reusable(&cached, &"/VST3/Fake.vst3".to_string(), 43), None);
    assert_eq!(reusable(&cached, &"/VST3/New.vst3".to_string(), 1), None);
    let same = vec![("/VST3/Fake.vst3".to_string(), 42), ("/VST3/Other.vst3".to_string(), 7)];
    assert!(!cache_is_stale(&cached, &same));
    let changed = vec![("/VST3/Fake.vst3".to_string(), 42), ("/VST3/Other.vst3".to_string(), 8)];
    assert!(cache_is_stale(&cached, &changed));
    let added = vec![("/VST3/Added.vst3".to_string(), 1)];
    assert!(cache_is_stale(&cached, &added));
    assert!(!cache_is_stale(&cached, &vec![]));
}

#[test]
fn ensure_scanned_reads_the_cache_once() {
    let mut s = ScanState::new();
    s.ensure_scanned(bundles());
    assert!(!s.needs_cache_load());
    assert_eq!(s.list_effects().len(), 2);
    // Already filled: a later (empty) cache does not replace it.
    s.ensure_scanned(Vec::new());
    assert_eq!(s.list_effects().len(), 2);
    // An explicit install does.
    s.install(Vec::new());
    assert!(s.list_effects().is_empty());
}
