use still_core::peaks::{downsample, PeakLevel, PeakPyramid, BASE_SAMPLES_PER_BUCKET, MAX_TOP_LEVEL_BUCKETS};

fn quantize(v: f32) -> i8 {
    (v.clamp(-1.0, 1.0) * 127.0).round() as i8
}

/// Base level of interleaved samples (min/max per 256-sample bucket).
fn base_of(samples: &[f32], channels: usize) -> (Vec<Vec<i8>>, u64) {
    let mut base = vec![Vec::new(); channels];
    let frames = samples.len() / channels;
    let mut b = 0;
    while b * 256 < frames {
        let end = ((b + 1) * 256).min(frames);
        for c in 0..channels {
            let mut mn = f32::INFINITY;
            let mut mx = f32::NEG_INFINITY;
            for f in b * 256..end {
                let s = samples[f * channels + c];
                mn = mn.min(s);
                mx = mx.max(s);
            }
            base[c].push(quantize(mn));
            base[c].push(quantize(mx));
        }
        b += 1;
    }
    (base, frames as u64)
}

fn pyramid_from_mono(samples: &[f32]) -> (PeakPyramid, u64) {
    let (base, frames) = base_of(samples, 1);
    (PeakPyramid::from_base(base), frames)
}

#[test]
fn pyramid_downsamples_until_small() {
    // 2^20 samples → 4096 base buckets → needs one extra level to reach 2048
    let samples = vec![0.1f32; 1 << 20];
    let (p, _) = pyramid_from_mono(&samples);
    assert!(p.levels.len() >= 2);
    let top = p.levels.last().unwrap();
    assert!(top.channels[0].len() / 2 <= MAX_TOP_LEVEL_BUCKETS);
}

#[test]
fn query_picks_matching_resolution() {
    let samples = vec![0.2f32; 1 << 20];
    let (p, frames) = pyramid_from_mono(&samples);
    // Whole file in 1000 buckets → must use a coarse level
    let s = p.query(0, frames, 1000);
    assert!(s.channels[0].len() / 2 <= 1000);
    assert!(s.samples_per_bucket > BASE_SAMPLES_PER_BUCKET);
    // Tiny window → finest level
    let s = p.query(0, 10_000, 1000);
    assert_eq!(s.samples_per_bucket, BASE_SAMPLES_PER_BUCKET);
}

#[test]
fn query_clamps_out_of_range() {
    let samples = vec![0.2f32; 10_000];
    let (p, frames) = pyramid_from_mono(&samples);
    let s = p.query(frames + 5000, frames + 9000, 100);
    assert!(s.channels[0].is_empty());
}

#[test]
fn pyramid_levels_halve_exactly() {
    // 5000 buckets: 5000 → 2500 → 1250.
    let base = vec![(0..10_000).map(|i| (i % 200) as i8 - 100).collect::<Vec<i8>>()];
    let p = PeakPyramid::from_base(base);
    assert_eq!(p.levels.len(), 3);
    assert_eq!(p.levels[1].samples_per_bucket, 512);
    assert_eq!(p.levels[2].samples_per_bucket, 1024);
    assert_eq!(p.levels[1].channels[0].len(), 5000);
    assert_eq!(p.levels[2].channels[0].len(), 2500);
    // Small inputs stay a single level.
    let small = PeakPyramid::from_base(vec![vec![-3, 4], vec![0, 1]]);
    assert_eq!(small.levels.len(), 1);
    assert_eq!(small.levels[0].channels, vec![vec![-3, 4], vec![0, 1]]);
}

#[test]
fn downsample_merges_pairs_and_keeps_an_odd_tail() {
    let level = PeakLevel { samples_per_bucket: 256, channels: vec![vec![-5, 3, -7, 1, 2, 9]] };
    let d = downsample(&level);
    assert_eq!(d.samples_per_bucket, 512);
    assert_eq!(d.channels, vec![vec![-7, 3, 2, 9]]);
}
