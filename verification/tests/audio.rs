use still_core::timeline::{
    check_extension, check_extension_list, check_extensions, nearest_zero_crossing, snap_clip, snap_to_zero_crossing, snap_window,
    window_crossing, ClipInfo,
};

fn bits(v: &[f32]) -> Vec<u32> {
    v.iter().map(|x| x.to_bits()).collect()
}

#[test]
fn zero_crossing_finds_nearest_sign_change() {
    //            0     1     2    3     4     5
    let s = bits(&[0.5, 0.4, -0.1, -0.2, 0.3, 0.4]);
    // Crossings occur entering index 2 and index 4.
    assert_eq!(nearest_zero_crossing(&s, 1), Some(2));
    assert_eq!(nearest_zero_crossing(&s, 5), Some(4));
}

#[test]
fn zero_crossing_none_when_constant_sign() {
    let s = bits(&[0.5, 0.4, 0.3, 0.2]);
    assert_eq!(nearest_zero_crossing(&s, 2), None);
}

#[test]
fn zero_crossing_handles_tiny_input() {
    assert_eq!(nearest_zero_crossing(&[], 0), None);
    assert_eq!(nearest_zero_crossing(&bits(&[0.1]), 0), None);
}

#[test]
fn zero_crossing_prefers_the_right_at_equal_distance_and_treats_zeros() {
    // Crossings entering 1 (distance 0 from center 0 on the right) and so on.
    let s = bits(&[-0.2, 0.0, 0.0, 0.5]);
    // -0.2 -> 0.0 is not a crossing (0.0 is not > 0), 0.0 -> 0.0 neither,
    // 0.0 -> 0.5 is (from <= 0 to > 0).
    assert_eq!(nearest_zero_crossing(&s, 0), Some(3));
    let t = bits(&[0.3, -0.3, 0.3]);
    // Center 1: right (1 -> 2) at distance 0 wins over left.
    assert_eq!(nearest_zero_crossing(&t, 1), Some(2));
    // NaN never crosses.
    assert_eq!(nearest_zero_crossing(&bits(&[f32::NAN, 1.0, f32::NAN]), 0), None);
    // A center past the end is clamped.
    assert_eq!(nearest_zero_crossing(&t, 99), Some(2));
}

fn clip(path: &str, start: u64, dur: u64) -> ClipInfo {
    ClipInfo { path: path.into(), name: path.into(), start_sample: start, duration_samples: dur }
}

#[test]
fn snapping_maps_local_crossings_back_to_the_timeline() {
    let clips = vec![clip("/a.wav", 0, 1000), clip("/b.wav", 1000, 500)];
    assert_eq!(snap_clip(&clips, 1200), Some(1));
    assert_eq!(snap_clip(&clips, 5000), Some(1));
    assert_eq!(snap_clip(&[], 5), None);
    assert_eq!(snap_to_zero_crossing(&clips, 1200, Some(210)), 1210);
    // Capped at the clip's length; nothing found keeps the position.
    assert_eq!(snap_to_zero_crossing(&clips, 1200, Some(9999)), 1500);
    assert_eq!(snap_to_zero_crossing(&clips, 1200, None), 1200);
    assert_eq!(snap_to_zero_crossing(&[], 77, Some(3)), 77);
}

#[test]
fn snap_windows() {
    // 20 ms at 48 kHz = 960 samples each side.
    assert_eq!(snap_window(10_000, 20, 48_000), (9_040, 10_960));
    // Never less than 64 samples, never before 0.
    assert_eq!(snap_window(10, 0, 48_000), (0, 74));
    let mono = bits(&[0.2, 0.1, -0.1, -0.3]);
    assert_eq!(window_crossing(&mono, 1001, 1000), Some(1002));
    assert_eq!(window_crossing(&mono, 999, 1000), None);
    assert_eq!(window_crossing(&[], 1000, 1000), None);
}

#[test]
fn import_extensions() {
    assert!(check_extension("wav").is_ok());
    assert!(check_extension("aif").is_ok());
    assert_eq!(
        check_extension("ogg"),
        Err("Unsupported file type \".ogg\". Supported formats: WAV, FLAC, MP3, AIFF.".to_string())
    );
    assert!(check_extensions(&vec!["/a/b.WAV".to_string(), "/c.Flac".to_string()]).is_ok());
    assert_eq!(
        check_extensions(&vec!["/a/b.wav".to_string(), "/notes.txt".to_string(), "/x.ogg".to_string()]),
        Err("Unsupported file type \".txt\". Supported formats: WAV, FLAC, MP3, AIFF.".to_string())
    );
    assert_eq!(
        check_extensions(&vec!["/a/noext".to_string()]),
        Err("Unsupported file type \".\". Supported formats: WAV, FLAC, MP3, AIFF.".to_string())
    );
}

#[test]
fn extension_lists_refuse_the_first_unsupported() {
    let list = |v: &[&str]| v.iter().map(|s| s.to_string()).collect::<Vec<String>>();
    assert!(check_extension_list(&list(&["wav", "mp3", "aiff"])).is_ok());
    assert!(check_extension_list(&list(&[])).is_ok());
    assert_eq!(
        check_extension_list(&list(&["flac", "ogg", "txt"])),
        Err("Unsupported file type \".ogg\". Supported formats: WAV, FLAC, MP3, AIFF.".to_string())
    );
    assert_eq!(
        check_extension_list(&list(&[""])),
        Err("Unsupported file type \".\". Supported formats: WAV, FLAC, MP3, AIFF.".to_string())
    );
}
