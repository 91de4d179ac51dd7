use still_core::error::StillError;
use still_core::scanning::{format_label, session_info, LayerScan};
use still_core::timeline::ScannedLayer;

#[test]
fn clips_are_laid_back_to_back_and_pinned_clips_wait() {
    let mut l = LayerScan::new(None);
    assert_eq!(l.begin_clip("/a.wav", 44_100, 2, None).unwrap(), 0);
    l.end_clip("/a.wav".into(), "a.wav".into(), 1_000).unwrap();
    // Pinned after the end: silence fills the gap.
    assert_eq!(l.begin_clip("/b.wav", 44_100, 2, Some(1_500)).unwrap(), 500);
    l.end_clip("/b.wav".into(), "b.wav".into(), 200).unwrap();
    // Pinned before the end: no silence, the clip follows.
    assert_eq!(l.begin_clip("/c.wav", 44_100, 2, Some(10)).unwrap(), 0);
    l.end_clip("/c.wav".into(), "c.wav".into(), 5).unwrap();
    let (layer, rate) = l.finish().unwrap();
    assert_eq!(rate, 44_100);
    assert_eq!(layer.channels, 2);
    assert_eq!(layer.duration_samples, 1_705);
    let starts: Vec<u64> = layer.clips.iter().map(|c| c.start_sample).collect();
    assert_eq!(starts, vec![0, 1_500, 1_700]);
}

#[test]
fn formats_must_agree() {
    let mut l = LayerScan::new(Some(48_000));
    match l.begin_clip("/x.wav", 44_100, 2, None) {
        Err(StillError::UnsupportedFormat(m)) => assert_eq!(
            m,
            "/x.wav: every layer must share the session sample rate (48000 Hz expected \u{2014} this file is 44100 Hz)"
        ),
        other => panic!("{other:?}"),
    }
    l.begin_clip("/y.wav", 48_000, 1, None).unwrap();
    l.end_clip("/y.wav".into(), "y.wav".into(), 10).unwrap();
    match l.begin_clip("/z.wav", 48_000, 2, None) {
        Err(StillError::UnsupportedFormat(m)) => assert_eq!(
            m,
            "/z.wav: every clip must share the first clip's format (48000 Hz, 1 channel(s) expected \u{2014} this file is 48000 Hz, 2 channel(s))"
        ),
        other => panic!("{other:?}"),
    }
    match l.end_clip("/e.wav".into(), "e.wav".into(), 0) {
        Err(StillError::Decode(m)) => assert_eq!(m, "/e.wav: the file contains no decodable audio"),
        other => panic!("{other:?}"),
    }
    match LayerScan::new(None).finish() {
        Err(StillError::Decode(m)) => assert_eq!(m, "no audio file given"),
        other => panic!("{other:?}"),
    }
}

#[test]
fn session_takes_the_longest_and_widest_layer() {
    let mut a = LayerScan::new(None);
    a.begin_clip("/a.flac", 44_100, 1, None).unwrap();
    a.end_clip("/a.flac".into(), "a.flac".into(), 300).unwrap();
    let (la, rate) = a.finish().unwrap();
    let mut b = LayerScan::new(Some(rate));
    b.begin_clip("/b.wav", 44_100, 2, None).unwrap();
    b.end_clip("/b.wav".into(), "b.wav".into(), 100).unwrap();
    let (lb, _) = b.finish().unwrap();
    let layers: Vec<ScannedLayer> = vec![la, lb];
    let info = session_info(layers, rate, "/a.flac".into(), format_label("/a.flac"));
    assert_eq!(info.duration_samples, 300);
    assert_eq!(info.channels, 2);
    assert_eq!(info.clips.len(), 1);
    assert_eq!(info.format, "FLAC");
    assert_eq!(format_label("/noext"), "AUDIO");
    assert_eq!(format_label("/music/take.Flac"), "FLAC");
    assert_eq!(format_label("rel/dir/a.b.wav"), "WAV");
    assert_eq!(format_label("/x/.wav"), "AUDIO");
}
