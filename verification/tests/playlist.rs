use still_core::playlist::{play_items, Chunk, PlayItem, Playlist};
use still_core::timeline::ClipInfo;

fn clip(path: &str, start: u64, dur: u64) -> ClipInfo {
    ClipInfo { path: path.into(), name: path.into(), start_sample: start, duration_samples: dur }
}

fn lens(items: &[PlayItem]) -> Vec<(bool, u64)> {
    items
        .iter()
        .map(|i| match i {
            PlayItem::File { samples, .. } => (true, *samples),
            PlayItem::Silence { samples } => (false, *samples),
        })
        .collect()
}

#[test]
fn takes_get_silent_gaps() {
    let items = play_items(&[clip("/a.wav", 0, 100), clip("/b.wav", 150, 50), clip("/c.wav", 200, 10)]);
    assert_eq!(lens(&items), vec![(true, 100), (false, 50), (true, 50), (true, 10)]);
    let late = play_items(&[clip("/a.wav", 30, 10)]);
    assert_eq!(lens(&late), vec![(false, 30), (true, 10)]);
}

#[test]
fn reads_are_planned_across_items() {
    let mut p = Playlist::new(play_items(&[clip("/a.wav", 0, 100), clip("/b.wav", 150, 50)]));
    assert_eq!(p.total_samples(), 200);
    let r = p.plan_read(80);
    assert_eq!(r, vec![Chunk { item: 0, start: 0, frames: 80, out_offset: 0, file: true }]);
    let r = p.plan_read(80);
    assert_eq!(
        r,
        vec![
            Chunk { item: 0, start: 80, frames: 20, out_offset: 0, file: true },
            Chunk { item: 1, start: 0, frames: 50, out_offset: 20, file: false },
            Chunk { item: 2, start: 0, frames: 10, out_offset: 70, file: true },
        ]
    );
    assert_eq!(p.pos, 160);
    // The end: only what is left, then nothing.
    let r = p.plan_read(100);
    assert_eq!(r, vec![Chunk { item: 2, start: 10, frames: 40, out_offset: 0, file: true }]);
    assert!(p.finished());
    assert!(p.plan_read(10).is_empty());
    assert_eq!(p.pos, 200);
}

#[test]
fn seeking_lands_in_the_right_item() {
    let mut p = Playlist::new(play_items(&[clip("/a.wav", 0, 100), clip("/b.wav", 150, 50)]));
    p.seek(120);
    assert_eq!((p.pos, p.item_idx, p.item_pos), (120, 1, 20));
    p.seek(100);
    assert_eq!((p.pos, p.item_idx, p.item_pos), (100, 1, 0));
    p.seek(5000);
    assert_eq!((p.pos, p.item_idx, p.item_pos), (200, 3, 0));
    p.seek(0);
    let r = p.plan_read(5);
    assert_eq!(r, vec![Chunk { item: 0, start: 0, frames: 5, out_offset: 0, file: true }]);
}

#[test]
fn empty_items_are_skipped() {
    let items = vec![
        PlayItem::Silence { samples: 0 },
        PlayItem::File { path: "/x.wav".into(), samples: 4 },
    ];
    let mut p = Playlist::new(items);
    p.seek(0);
    assert_eq!(p.item_idx, 1);
    let r = p.plan_read(10);
    assert_eq!(r, vec![Chunk { item: 1, start: 0, frames: 4, out_offset: 0, file: true }]);
}
