use still_core::peaks::PeakPyramid;
use still_core::project::RegionSpan;
use still_core::silence::{detect_track_regions, SilenceParams};

const SR: u32 = 44_100;
const SEC: u64 = SR as u64;

fn quantize(v: f32) -> i8 {
    (v.clamp(-1.0, 1.0) * 127.0).round() as i8
}

/// Default detection settings: -40 dBFS (peaks under 1.27 of 127 are
/// silent), 1.5 s gaps, 15 s tracks.
fn params() -> SilenceParams {
    SilenceParams { silent_below: 2, min_silence_ms: 1500, min_track_seconds: 15 }
}

/// Build a mono signal: segments of (seconds, loud?).
fn signal(segments: &[(f32, bool)]) -> Vec<f32> {
    let mut out = Vec::new();
    for &(secs, loud) in segments {
        let n = (secs * SR as f32) as usize;
        let amp = if loud { 0.6 } else { 0.001 };
        for i in 0..n {
            out.push(amp * (i as f32 * 0.05).sin());
        }
    }
    out
}

fn detect(samples: &[f32], params: &SilenceParams) -> Vec<RegionSpan> {
    let mut base = Vec::new();
    let mut b = 0;
    while b * 256 < samples.len() {
        let end = ((b + 1) * 256).min(samples.len());
        let mn = samples[b * 256..end].iter().cloned().fold(f32::INFINITY, f32::min);
        let mx = samples[b * 256..end].iter().cloned().fold(f32::NEG_INFINITY, f32::max);
        base.push(quantize(mn));
        base.push(quantize(mx));
        b += 1;
    }
    let p = PeakPyramid::from_base(vec![base]);
    detect_track_regions(&p, SR, samples.len() as u64, params)
}

fn approx(v: u64, secs: f32) -> bool {
    (v as f64 - (secs as f64 * SR as f64)).abs() < 0.2 * SR as f64
}

#[test]
fn finds_two_tracks_around_a_gap() {
    let samples = signal(&[(20.0, true), (2.0, false), (25.0, true)]);
    let regions = detect(&samples, &params());
    assert_eq!(regions.len(), 2);
    assert!(approx(regions[0].start, 0.0));
    assert!(approx(regions[0].end, 20.0));
    assert!(approx(regions[1].start, 22.0));
    assert!(approx(regions[1].end, 47.0));
}

#[test]
fn leading_and_trailing_silence_are_excluded() {
    let samples = signal(&[(3.0, false), (20.0, true), (4.0, false)]);
    let regions = detect(&samples, &params());
    assert_eq!(regions.len(), 1);
    assert!(approx(regions[0].start, 3.0));
    assert!(approx(regions[0].end, 23.0));
}

#[test]
fn short_silences_do_not_split_a_track() {
    let samples = signal(&[(20.0, true), (0.5, false), (20.0, true)]);
    let regions = detect(&samples, &params());
    assert_eq!(regions.len(), 1);
    assert!(approx(regions[0].end, 40.5));
}

#[test]
fn short_sound_spans_are_dropped() {
    let samples = signal(&[(20.0, true), (2.0, false), (5.0, true), (2.0, false), (20.0, true)]);
    let regions = detect(&samples, &params());
    assert_eq!(regions.len(), 2);
}

#[test]
fn continuous_audio_is_one_track() {
    let samples = signal(&[(30.0, true)]);
    let regions = detect(&samples, &params());
    assert_eq!(regions.len(), 1);
    assert_eq!(regions[0].start, 0);
    assert_eq!(regions[0].end as f64 / SEC as f64, 30.0);
}

#[test]
fn proposals_are_ordered_and_long_enough() {
    let samples = signal(&[(1.0, false), (16.0, true), (3.0, false), (15.5, true), (2.0, false), (40.0, true)]);
    let p = params();
    let regions = detect(&samples, &p);
    for w in regions.windows(2) {
        assert!(w[0].end <= w[1].start);
    }
    for r in &regions {
        assert!(r.end - r.start >= p.min_track_seconds as u64 * SEC);
        assert!(r.end <= samples.len() as u64);
    }
    assert_eq!(regions.len(), 3);
}
