use still_core::album::{album_layout, album_playlists, gap_samples, AlbumItem};
use still_core::project::TrackInfo;
use still_core::timeline::{clip_segments, layer_parts, AudioInfo, ClipInfo, ScannedLayer, TimelinePart};

const SR: u32 = 44_100;
const SEC: u64 = SR as u64;

fn clip(path: &str, start: u64, dur: u64) -> ClipInfo {
    ClipInfo {
        path: path.into(),
        name: path.into(),
        start_sample: start,
        duration_samples: dur,
    }
}

#[test]
fn clip_segments_maps_ranges() {
    let clips = vec![clip("a", 0, 1000), clip("b", 1000, 500), clip("c", 1500, 1000)];
    // Fully inside one clip.
    assert_eq!(clip_segments(&clips, 100, 900), vec![(0, 100, 900)]);
    // Crossing one boundary.
    assert_eq!(
        clip_segments(&clips, 800, 1200),
        vec![(0, 800, 1000), (1, 0, 200)]
    );
    // Spanning all three clips.
    assert_eq!(
        clip_segments(&clips, 500, 2000),
        vec![(0, 500, 1000), (1, 0, 500), (2, 0, 500)]
    );
    // Exactly on a boundary: no empty segment.
    assert_eq!(clip_segments(&clips, 1000, 1500), vec![(1, 0, 500)]);
}

#[test]
fn layer_parts_fill_take_gaps_with_silence() {
    // Two takes with a 500-sample hole between them.
    let clips = vec![clip("a", 0, 1000), clip("b", 1500, 1000)];
    assert_eq!(
        layer_parts(&clips, 800, 1700),
        vec![
            TimelinePart::File { clip: 0, start: 800, end: 1000 },
            TimelinePart::Silence { samples: 500 },
            TimelinePart::File { clip: 1, start: 0, end: 200 },
        ]
    );
    // After the layer's end: silence up to the range end.
    assert_eq!(
        layer_parts(&clips, 2400, 3000),
        vec![
            TimelinePart::File { clip: 1, start: 900, end: 1000 },
            TimelinePart::Silence { samples: 500 },
        ]
    );
    // Before the first clip of a late layer.
    let late = vec![clip("c", 100, 50)];
    assert_eq!(
        layer_parts(&late, 0, 200),
        vec![
            TimelinePart::Silence { samples: 100 },
            TimelinePart::File { clip: 0, start: 0, end: 50 },
            TimelinePart::Silence { samples: 50 },
        ]
    );
}

#[test]
fn layer_parts_cover_the_range_exactly() {
    let clips = vec![clip("a", 10, 30), clip("b", 60, 5), clip("c", 90, 100)];
    for (s, e) in [(0u64, 200u64), (15, 95), (40, 60), (0, 0), (300, 400)] {
        let total: u64 = layer_parts(&clips, s, e)
            .iter()
            .map(|p| match p {
                TimelinePart::File { start, end, .. } => end - start,
                TimelinePart::Silence { samples } => *samples,
            })
            .sum();
        assert_eq!(total, e - s);
    }
}

fn info_two_clips() -> AudioInfo {
    let clips = vec![
        ClipInfo {
            path: "/a.wav".into(),
            name: "a.wav".into(),
            start_sample: 0,
            duration_samples: 10 * SEC,
        },
        ClipInfo {
            path: "/b.wav".into(),
            name: "b.wav".into(),
            start_sample: 10 * SEC,
            duration_samples: 10 * SEC,
        },
    ];
    AudioInfo {
        path: "/a.wav".into(),
        clips: clips.clone(),
        layers: vec![ScannedLayer {
            clips,
            channels: 2,
            duration_samples: 20 * SEC,
        }],
        duration_samples: 20 * SEC,
        sample_rate: SR,
        channels: 2,
        format: "WAV".into(),
    }
}

fn track(id: u32, number: u32, start: u64, end: u64, gap: u32) -> TrackInfo {
    TrackInfo {
        id,
        number,
        title: format!("T{number}"),
        start_sample: start,
        end_sample: end,
        isrc: String::new(),
        gap_before_ms: None,
        gap_before_effective_ms: gap,
    }
}

#[test]
fn album_layout_positions() {
    let tracks = vec![
        track(1, 1, SEC, 4 * SEC, 0),
        track(2, 2, 5 * SEC, 8 * SEC, 2_000),
        track(3, 3, 9 * SEC, 12 * SEC, 0), // segue override
    ];
    let l = album_layout(&tracks, SR);
    assert_eq!(l.tracks[0].start_sample, 0);
    assert_eq!(l.tracks[1].start_sample, 3 * SEC + 2 * SEC);
    assert_eq!(l.tracks[2].start_sample, 8 * SEC);
    assert_eq!(l.total_samples, 11 * SEC);
}

#[test]
fn album_playlists_slices_and_gaps() {
    let info = info_two_clips();
    // Track 1 crosses the clip boundary; track 2 lives in clip 2.
    let tracks = vec![
        track(1, 1, 8 * SEC, 12 * SEC, 0),
        track(2, 2, 14 * SEC, 16 * SEC, 2_000),
    ];
    let layout = album_layout(&tracks, SR);
    let spans: Vec<(u64, u64)> = tracks.iter().map(|t| (t.start_sample, t.end_sample)).collect();
    let pls = album_playlists(&info, &layout, &spans);
    assert_eq!(pls.len(), 1);
    assert_eq!(
        pls[0],
        vec![
            AlbumItem::Slice { path: "/a.wav".into(), source_offset: 8 * SEC, samples: 2 * SEC },
            AlbumItem::Slice { path: "/b.wav".into(), source_offset: 0, samples: 2 * SEC },
            AlbumItem::Gap { samples: 2 * SEC },
            AlbumItem::Slice { path: "/b.wav".into(), source_offset: 4 * SEC, samples: 2 * SEC },
        ]
    );
    // Total program length per lane == album total.
    let sum: u64 = pls[0]
        .iter()
        .map(|i| match i {
            AlbumItem::Gap { samples } | AlbumItem::Slice { samples, .. } => *samples,
        })
        .sum();
    assert_eq!(sum, layout.total_samples);
}

#[test]
fn gaps_round_down_to_whole_samples() {
    assert_eq!(gap_samples(2_000, 44_100), 88_200);
    assert_eq!(gap_samples(1, 44_100), 44);
    assert_eq!(gap_samples(0, 96_000), 0);
}

#[test]
fn adjacent_gaps_merge_in_a_lane() {
    // A take hole at the start of a track right after its album gap.
    let mut info = info_two_clips();
    info.layers[0].clips = vec![clip("/late.wav", 2 * SEC, 2 * SEC)];
    let tracks = vec![track(1, 1, 0, 3 * SEC, 1_000)];
    let layout = album_layout(&tracks, SR);
    let pls = album_playlists(&info, &layout, &[(0, 3 * SEC)]);
    assert_eq!(
        pls[0],
        vec![
            AlbumItem::Gap { samples: 3 * SEC },
            AlbumItem::Slice { path: "/late.wav".into(), source_offset: 0, samples: SEC },
        ]
    );
}
