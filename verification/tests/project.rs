use still_core::peaks::PeakPyramid;
use still_core::project::{
    ripple_regions, sanitize_regions, Project, ProjectState, Region, RegionEdge, RegionSpan,
};
use still_core::timeline::{AudioInfo, ClipInfo, ScannedLayer};
use still_core::tracks::LayerLevel;

const SR: u32 = 44_100;
const SEC: u64 = SR as u64;

fn state(duration_secs: u64) -> ProjectState {
    let clips = vec![ClipInfo {
        path: "/tmp/test.wav".into(),
        name: "test.wav".into(),
        start_sample: 0,
        duration_samples: duration_secs * SEC,
    }];
    let info = AudioInfo {
        path: "/tmp/test.wav".into(),
        clips: clips.clone(),
        layers: vec![ScannedLayer {
            clips,
            channels: 2,
            duration_samples: duration_secs * SEC,
        }],
        duration_samples: duration_secs * SEC,
        sample_rate: SR,
        channels: 2,
        format: "WAV".into(),
    };
    ProjectState::new(Project::new(vec![info.path.clone()]), info, vec![PeakPyramid::empty()])
}

/// Base layer with `clip_secs` clips laid back-to-back; optional second
/// layer mirroring the same clips (aligned takes).
fn multi_state(clip_secs: &[u64], second_layer: bool) -> ProjectState {
    let mut clips = Vec::new();
    let mut pos = 0u64;
    for (i, secs) in clip_secs.iter().enumerate() {
        clips.push(ClipInfo {
            path: format!("/tmp/clip{}.wav", i + 1),
            name: format!("clip{}.wav", i + 1),
            start_sample: pos,
            duration_samples: secs * SEC,
        });
        pos += secs * SEC;
    }
    let layer = ScannedLayer {
        clips: clips.clone(),
        channels: 2,
        duration_samples: pos,
    };
    let mut layers = vec![layer.clone()];
    let mut groups: Vec<Vec<String>> = vec![clips.iter().map(|c| c.path.clone()).collect()];
    if second_layer {
        layers.push(layer);
        groups.push(clips.iter().map(|c| c.path.clone()).collect());
    }
    let info = AudioInfo {
        path: clips[0].path.clone(),
        clips,
        layers,
        duration_samples: pos,
        sample_rate: SR,
        channels: 2,
        format: "WAV".into(),
    };
    let peaks = if second_layer {
        vec![PeakPyramid::empty(), PeakPyramid::empty()]
    } else {
        vec![PeakPyramid::empty()]
    };
    ProjectState::new(Project::new_layers(groups), info, peaks)
}

fn region(id: u32, start: u64, end: u64) -> Region {
    Region::new(id, start, end, None)
}

#[test]
fn ripple_regions_all_cases() {
    let min = 200 * SEC / 1000;
    let (s0, e0) = (10 * SEC, 14 * SEC); // remove 4 s at 10 s
    let mut regions = vec![
        region(0, 0, 5 * SEC),                     // before: untouched
        region(0, 11 * SEC, 13 * SEC),             // inside: dropped
        region(0, 20 * SEC, 25 * SEC),             // after: shifted -4 s
        region(0, 8 * SEC, 12 * SEC),              // straddles start: trimmed to [8,10)
        region(0, 12 * SEC, 20 * SEC),             // straddles end: [10,16)
        region(0, 9 * SEC, 15 * SEC),              // contains span: [9,11)
        region(0, 13 * SEC + SEC / 2, 14 * SEC + 50), // trimmed under 200 ms: dropped
    ];
    ripple_regions(&mut regions, s0, e0, min);
    let spans: Vec<(u64, u64)> = regions.iter().map(|r| (r.start, r.end)).collect();
    assert_eq!(
        spans,
        vec![
            (0, 5 * SEC),
            (16 * SEC, 21 * SEC),
            (8 * SEC, 10 * SEC),
            (10 * SEC, 16 * SEC),
            (9 * SEC, 11 * SEC),
        ]
    );
}

#[test]
fn plan_remove_clip_shifts_and_pins() {
    let s = multi_state(&[3, 2, 3], false);
    let plan = s.plan_remove_clip(1).ok().unwrap();
    assert_eq!((plan.span.start, plan.span.end), (3 * SEC, 5 * SEC));
    assert_eq!(plan.groups.len(), 1);
    let g = &plan.groups[0];
    assert_eq!(g.len(), 2);
    assert_eq!(g[0].path, "/tmp/clip1.wav");
    assert_eq!(g[0].start, Some(0));
    assert_eq!(g[1].path, "/tmp/clip3.wav");
    assert_eq!(g[1].start, Some(3 * SEC));
    assert!(s.plan_remove_clip(9).is_err());
    let single = multi_state(&[3], false);
    assert!(single.plan_remove_clip(0).is_err(), "last clip refused");
}

#[test]
fn plan_remove_clip_take_layers() {
    let s = multi_state(&[3, 2, 3], true);
    let plan = s.plan_remove_clip(1).ok().unwrap();
    assert_eq!(plan.groups.len(), 2, "both layers survive");
    for g in &plan.groups {
        assert_eq!(g.len(), 2);
        assert_eq!(g[1].start, Some(3 * SEC), "later takes stay aligned");
    }
}

#[test]
fn remove_clip_undo_restores_everything() {
    let mut s = multi_state(&[3, 2, 3], false);
    s.add_region(6 * SEC, 8 * SEC, Some("Late".into())).ok().unwrap();
    let plan = s.plan_remove_clip(1).ok().unwrap();
    s.apply_remove_clip(&plan);
    assert_eq!(s.project.layers[0].sources.len(), 2);
    assert_eq!(s.project.regions[0].start, 4 * SEC, "region rippled");
    let report = s.undo();
    assert!(report.applied && report.audio_changed);
    assert_eq!(s.project.layers[0].sources.len(), 3, "sources restored");
    assert_eq!(s.project.regions[0].start, 6 * SEC, "region restored");
    assert_eq!(s.info.duration_samples, 8 * SEC, "audio restored");
    let report = s.redo();
    assert!(report.applied && report.audio_changed);
    assert_eq!(s.project.layers[0].sources.len(), 2);
}

#[test]
fn region_undo_leaves_layers_alone() {
    let mut s = state(120);
    s.add_region(10 * SEC, 40 * SEC, None).ok().unwrap();
    // A non-undoable layer change in between must survive the undo.
    s.project.layers[0].gain_db_bits = (-6.0f32).to_bits();
    let report = s.undo();
    assert!(report.applied && !report.audio_changed);
    assert_eq!(s.project.regions.len(), 0);
    assert_eq!(f32::from_bits(s.project.layers[0].gain_db_bits), -6.0);
}

#[test]
fn clips_to_tracks_titles_and_skips() {
    let mut s = multi_state(&[3, 2, 3], false);
    // Occupy clip 2's span: that clip must be skipped, not error.
    s.add_region(3 * SEC, 5 * SEC, Some("Taken".into())).ok().unwrap();
    let added = s.clips_to_tracks(None).ok().unwrap();
    assert_eq!(added, 2);
    let tracks = s.tracks();
    assert_eq!(tracks.len(), 3);
    assert_eq!(tracks[0].title, "clip1");
    assert_eq!(tracks[1].title, "Taken");
    assert_eq!(tracks[2].title, "clip3");
    assert!(s.clips_to_tracks(Some(&[7])).is_err());
    // One undo step removes both added tracks.
    s.undo();
    assert_eq!(s.tracks().len(), 1);
}

#[test]
fn add_region_orders_and_numbers_tracks() {
    let mut s = state(120);
    s.add_region(60 * SEC, 90 * SEC, None).ok().unwrap();
    s.add_region(10 * SEC, 40 * SEC, None).ok().unwrap();
    let tracks = s.tracks();
    assert_eq!(tracks.len(), 2);
    assert_eq!(tracks[0].start_sample, 10 * SEC);
    assert_eq!(tracks[0].number, 1);
    assert_eq!(tracks[0].title, "Track 01");
    assert_eq!(tracks[1].start_sample, 60 * SEC);
    assert_eq!(tracks[1].title, "Track 02");
}

#[test]
fn add_region_accepts_reversed_bounds() {
    let mut s = state(120);
    s.add_region(40 * SEC, 10 * SEC, None).ok().unwrap();
    let t = &s.tracks()[0];
    assert_eq!(t.start_sample, 10 * SEC);
    assert_eq!(t.end_sample, 40 * SEC);
}

#[test]
fn add_region_trims_overlapping_edges() {
    let mut s = state(120);
    s.add_region(30 * SEC, 60 * SEC, None).ok().unwrap();
    // Overlaps the start of the existing region: trimmed to end at 30 s.
    s.add_region(10 * SEC, 40 * SEC, None).ok().unwrap();
    let tracks = s.tracks();
    assert_eq!(tracks[0].end_sample, 30 * SEC);
    // Fully containing an existing region: rejected.
    assert!(s.add_region(5 * SEC, 100 * SEC, None).is_err());
    // Fully inside an existing region: rejected (no room).
    assert!(s.add_region(35 * SEC, 55 * SEC, None).is_err());
}

#[test]
fn add_region_rejects_too_short() {
    let mut s = state(120);
    assert!(s.add_region(SEC, SEC + 100, None).is_err());
}

#[test]
fn add_region_error_messages() {
    let mut s = state(120);
    s.add_region(30 * SEC, 60 * SEC, None).ok().unwrap();
    match s.add_region(5 * SEC, 100 * SEC, None) {
        Err(e) => assert_eq!(
            e.message(),
            "Invalid marker: the selection contains an existing track"
        ),
        Ok(_) => panic!("accepted a span containing a track"),
    }
    match s.add_region(35 * SEC, 55 * SEC, None) {
        Err(e) => assert!(e.message().starts_with("Invalid marker: not enough room here")),
        Ok(_) => panic!("accepted a span inside a track"),
    }
}

#[test]
fn move_edges_clamp_to_neighbors_and_length() {
    let mut s = state(120);
    let a = s.add_region(10 * SEC, 40 * SEC, None).ok().unwrap();
    let b = s.add_region(60 * SEC, 90 * SEC, None).ok().unwrap();
    // b.start can't cross a.end.
    let p = s.move_edge(b, RegionEdge::Start, 20 * SEC).ok().unwrap();
    assert_eq!(p, 40 * SEC);
    // a.end can't cross b.start (now 40 s).
    let q = s.move_edge(a, RegionEdge::End, 80 * SEC).ok().unwrap();
    assert_eq!(q, 40 * SEC);
    // a.start can't make the region shorter than min length.
    let r = s.move_edge(a, RegionEdge::Start, 119 * SEC).ok().unwrap();
    assert!(r < 40 * SEC);
    // end can't exceed the file duration.
    let e = s.move_edge(b, RegionEdge::End, 500 * SEC).ok().unwrap();
    assert_eq!(e, 120 * SEC);
}

#[test]
fn failed_move_keeps_history() {
    let mut s = state(120);
    s.add_region(10 * SEC, 40 * SEC, None).ok().unwrap();
    assert!(s.move_edge(999, RegionEdge::Start, 0).is_err());
    // The failed move left one undo step: the add.
    assert!(s.undo().applied);
    assert!(s.tracks().is_empty());
    assert!(!s.undo().applied);
}

#[test]
fn rename_and_default_titles() {
    let mut s = state(120);
    let a = s.add_region(10 * SEC, 40 * SEC, None).ok().unwrap();
    s.rename_track(a, "Opening").ok().unwrap();
    assert_eq!(s.tracks()[0].title, "Opening");
    // A region added before it renumbers, but the custom title sticks.
    s.add_region(SEC, 5 * SEC, None).ok().unwrap();
    let tracks = s.tracks();
    assert_eq!(tracks[0].title, "Track 01");
    assert_eq!(tracks[1].title, "Opening");
    // Empty title restores the default.
    s.rename_track(a, "  ").ok().unwrap();
    assert_eq!(s.tracks()[1].title, "Track 02");
}

#[test]
fn remove_region_frees_the_span() {
    let mut s = state(120);
    let a = s.add_region(10 * SEC, 40 * SEC, None).ok().unwrap();
    s.remove_region(a).ok().unwrap();
    assert!(s.tracks().is_empty());
    // The span is free again.
    s.add_region(10 * SEC, 40 * SEC, None).ok().unwrap();
    assert!(s.remove_region(999).is_err());
}

#[test]
fn undo_redo_round_trip() {
    let mut s = state(120);
    s.add_region(10 * SEC, 40 * SEC, None).ok().unwrap();
    assert_eq!(s.tracks().len(), 1);
    assert!(s.undo().applied);
    assert!(s.tracks().is_empty());
    assert!(s.redo().applied);
    assert_eq!(s.tracks().len(), 1);
    assert!(!s.redo().applied);
}

#[test]
fn bulk_add_skips_misfits_single_undo() {
    let mut s = state(120);
    s.add_region(30 * SEC, 60 * SEC, None).ok().unwrap();
    let added = s.add_regions(&[
        RegionSpan { start: 5 * SEC, end: 20 * SEC },
        RegionSpan { start: 35 * SEC, end: 50 * SEC }, // inside existing
        RegionSpan { start: 70 * SEC, end: 90 * SEC },
    ]);
    assert_eq!(added, 2);
    assert_eq!(s.tracks().len(), 3);
    assert!(s.undo().applied);
    assert_eq!(s.tracks().len(), 1);
}

/// The linear volume a resolved layer level plays at.
fn volume(l: &LayerLevel) -> f32 {
    let db = f32::from_bits(l.gain_db_bits);
    if !l.audible || db <= -60.0 {
        0.0
    } else {
        10f32.powf(db / 20.0)
    }
}

fn volumes(levels: &[LayerLevel]) -> Vec<f32> {
    levels.iter().map(volume).collect()
}

#[test]
fn solo_and_overrides_resolve_volumes() {
    let mut s = state(600);
    s.project = Project::new_layers(vec![
        vec!["/tmp/a.wav".into()],
        vec!["/tmp/b.wav".into()],
        vec!["/tmp/c.wav".into()],
    ]);
    let ids: Vec<u32> = s.project.layers.iter().map(|l| l.id).collect();

    // No solo, no mute: everyone at unity.
    assert_eq!(volumes(&s.layer_levels(None)), vec![1.0, 1.0, 1.0]);
    // Session solo on layer 2: only layer 2 audible.
    s.set_layer_solo(ids[1], true).ok().unwrap();
    assert_eq!(volumes(&s.layer_levels(None)), vec![0.0, 1.0, 0.0]);
    // Solo wins over mute on the soloed layer itself.
    s.set_layer_muted(ids[1], true).ok().unwrap();
    assert_eq!(volumes(&s.layer_levels(None)), vec![0.0, 1.0, 0.0]);
    s.set_layer_muted(ids[1], false).ok().unwrap();

    // A track that overrides the solo away and mutes layer 3 instead.
    let track = s.add_region(10 * SEC, 20 * SEC, None).ok().unwrap();
    s.set_track_layer_flag(track, ids[1], true, Some(false)).ok().unwrap();
    s.set_track_layer_flag(track, ids[2], false, Some(true)).ok().unwrap();
    let region = s.project.regions.iter().find(|r| r.id == track).cloned().unwrap();
    assert_eq!(volumes(&s.layer_levels(Some(&region))), vec![1.0, 1.0, 0.0]);
    // The session mix is untouched outside the track.
    assert_eq!(volumes(&s.layer_levels(None)), vec![0.0, 1.0, 0.0]);
    // volume_spans exposes the override region for playback automation.
    let spans = s.volume_spans();
    assert_eq!(spans.len(), 1);
    assert_eq!(spans[0].0, 10 * SEC);
    assert_eq!(volumes(&spans[0].2), vec![1.0, 1.0, 0.0]);
    // Clearing both flags empties the span list.
    s.set_track_layer_flag(track, ids[1], true, None).ok().unwrap();
    s.set_track_layer_flag(track, ids[2], false, None).ok().unwrap();
    assert!(s.volume_spans().is_empty());
}

#[test]
fn suggests_indexed_titles() {
    let mut s = state(600);
    // Nothing titled yet: no suggestion.
    assert_eq!(s.suggest_title(), "");
    s.add_region(10 * SEC, 40 * SEC, None).ok().unwrap();
    assert_eq!(s.suggest_title(), "");
    // First custom title "Jam" counts as the first occurrence.
    s.add_region(60 * SEC, 90 * SEC, Some("Jam".into())).ok().unwrap();
    assert_eq!(s.suggest_title(), "Jam-2");
    let next = s.suggest_title();
    s.add_region(100 * SEC, 130 * SEC, Some(next)).ok().unwrap();
    assert_eq!(s.suggest_title(), "Jam-3");
    // A new base resets the sequence.
    s.add_region(150 * SEC, 180 * SEC, Some("Ballad".into())).ok().unwrap();
    assert_eq!(s.suggest_title(), "Ballad-2");
    // Existing higher index wins: "Ballad-7" gives "Ballad-8".
    let id = s.add_region(200 * SEC, 230 * SEC, Some("Ballad-7".into())).ok().unwrap();
    assert_eq!(s.suggest_title(), "Ballad-8");
    // The base comes from that region's current title.
    s.rename_track(id, "Encore").ok().unwrap();
    assert_eq!(s.suggest_title(), "Encore-2");
}

#[test]
fn add_region_with_blank_title_uses_default() {
    let mut s = state(120);
    s.add_region(10 * SEC, 40 * SEC, Some("   ".into())).ok().unwrap();
    assert_eq!(s.tracks()[0].title, "Track 01");
    assert_eq!(s.suggest_title(), "");
}

#[test]
fn sanitize_drops_degenerate_regions() {
    let mut p = Project::new(vec!["/tmp/x.wav".into()]);
    p.regions.push(region(1, 0, 10 * SEC));
    p.regions.push(region(2, 200 * SEC, 300 * SEC));
    sanitize_regions(&mut p, 120 * SEC, SR);
    assert_eq!(p.regions.len(), 1);
}

#[test]
fn sanitize_clamps_to_the_duration() {
    let mut p = Project::new(vec!["/tmp/x.wav".into()]);
    p.regions.push(region(1, 100 * SEC, 300 * SEC));
    sanitize_regions(&mut p, 120 * SEC, SR);
    assert_eq!((p.regions[0].start, p.regions[0].end), (100 * SEC, 120 * SEC));
}

#[test]
fn renames_layers_with_fallback() {
    let mut state = state(60);
    let id = state.project.layers[0].id;
    assert!(state.rename_layer(id, "  Room mic  ").is_ok());
    assert_eq!(state.project.layers[0].custom_name.as_deref(), Some("Room mic"));
    // Empty clears back to the fallback.
    state.rename_layer(id, "   ").ok().unwrap();
    assert!(state.project.layers[0].custom_name.is_none());
    // Unknown id errors.
    assert!(state.rename_layer(9999, "x").is_err());
}

#[test]
fn isrc_is_normalized_and_validated() {
    let mut s = state(120);
    let a = s.add_region(10 * SEC, 40 * SEC, None).ok().unwrap();
    s.set_track_isrc(a, "fr-ab1-26-00001").ok().unwrap();
    assert_eq!(s.tracks()[0].isrc, "FRAB12600001");
    assert!(s.set_track_isrc(a, "nope").is_err());
    s.set_track_isrc(a, "").ok().unwrap();
    assert_eq!(s.tracks()[0].isrc, "");
}

#[test]
fn removing_a_layer_shrinks_the_timeline() {
    let mut s = multi_state(&[3, 2], true);
    s.info.layers[1].duration_samples = 9 * SEC;
    s.info.duration_samples = 9 * SEC;
    s.add_region(6 * SEC, 8 * SEC, None).ok().unwrap();
    let second = s.project.layers[1].id;
    assert!(s.remove_layer(s.project.layers[0].id).is_err(), "base layer stays");
    s.remove_layer(second).ok().unwrap();
    assert_eq!(s.project.layers.len(), 1);
    assert_eq!(s.info.duration_samples, 5 * SEC);
    // The region past the new end is gone.
    assert!(s.project.regions.is_empty());
}

#[test]
fn added_regions_stay_inside_and_apart() {
    let mut s = state(120);
    s.add_region(30 * SEC, 60 * SEC, None).ok().unwrap();
    // Runs past the end of the timeline and over the first track.
    s.add_region(200 * SEC, 50 * SEC, None).ok().unwrap();
    s.add_region(0, 35 * SEC, None).ok().unwrap();
    let rs = &s.project.regions;
    assert_eq!((rs[1].start, rs[1].end), (60 * SEC, 120 * SEC));
    assert_eq!((rs[2].start, rs[2].end), (0, 30 * SEC));
    let min = SEC / 5;
    for (i, a) in rs.iter().enumerate() {
        assert!(a.start + min <= a.end && a.end <= 120 * SEC);
        for b in rs.iter().skip(i + 1) {
            assert!(a.end <= b.start || b.end <= a.start);
        }
    }
    // A span holding a whole track is refused, and nothing changes.
    let before = s.project.regions.len();
    assert!(s.add_region(55 * SEC, 125 * SEC, None).is_err());
    assert_eq!(s.project.regions.len(), before);
}
