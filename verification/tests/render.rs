use still_core::render::{InsertSection, RenderCursor, SectionStep, Transport, BLOCK_FRAMES};

/// Counts of what a section's processors went through.
#[derive(Default)]
struct Probe {
    processed: usize,
    resets: usize,
}

fn run(cursor: &mut RenderCursor, probes: &mut [Probe]) -> usize {
    let (n, steps) = cursor.next_block(BLOCK_FRAMES);
    for (p, step) in probes.iter_mut().zip(steps) {
        match step {
            SectionStep::Skip => {},
            SectionStep::Process => p.processed += 1,
            SectionStep::ResetThenProcess => {
                p.resets += 1;
                p.processed += 1;
            },
        }
    }
    n
}

fn seek(cursor: &mut RenderCursor, probes: &mut [Probe], target: u64) {
    cursor.seek(target);
    for p in probes.iter_mut() {
        p.resets += 1;
    }
}

/// A spanned section processes only inside its span, resets when
/// entering it, and an unspanned section runs everywhere.
#[test]
fn sections_gate_by_span_and_reset_on_entry() {
    let n = 44_100u64;
    let mut r = RenderCursor::new(n);
    let span = (BLOCK_FRAMES as u64 * 2, BLOCK_FRAMES as u64 * 4);
    r.add_section(Some(span));
    r.add_section(None);
    let mut probes = vec![Probe::default(), Probe::default()];
    let mut track_on = Vec::new();
    for _ in 0..6 {
        let before = probes[0].processed;
        run(&mut r, &mut probes);
        track_on.push(probes[0].processed > before);
    }
    // Blocks 0-1 before the span, 2-3 inside, 4-5 after.
    assert_eq!(track_on, vec![false, false, true, true, false, false]);
    assert_eq!(probes[0].processed, 2);
    assert_eq!(probes[0].resets, 1, "reset on span entry");
    assert_eq!(probes[1].processed, 6, "master always runs");
    // Seek back before the span: re-entering must reset again.
    seek(&mut r, &mut probes, 0);
    for _ in 0..3 {
        run(&mut r, &mut probes);
    }
    assert_eq!(probes[0].resets, 3, "seek + re-entry");
}

#[test]
fn renders_exactly_to_the_end() {
    let n = 4_410u64;
    let mut r = RenderCursor::new(n);
    let mut rendered = 0u64;
    loop {
        let (got, _) = r.next_block(BLOCK_FRAMES);
        if got == 0 {
            break;
        }
        rendered += got as u64;
    }
    assert_eq!(rendered, n);
    assert!(r.finished());
}

#[test]
fn block_sizes_and_clamped_seeks() {
    let mut r = RenderCursor::new(1_000);
    assert_eq!(r.next_block(100).0, 100);
    assert_eq!(r.next_block(4_096).0, BLOCK_FRAMES);
    assert_eq!(r.pos, 612);
    assert_eq!(r.next_block(4_096).0, 388);
    assert_eq!(r.next_block(4_096).0, 0);
    r.seek(5_000);
    assert_eq!(r.pos, 1_000);
    r.seek(10);
    assert_eq!(r.pos, 10);
    assert!(!r.finished());
}

#[test]
fn idle_blocks_follow_the_playhead() {
    let mut r = RenderCursor::new(10_000);
    r.add_section(Some((100, 200)));
    r.add_section(None);
    assert_eq!(r.idle_sections(), vec![false, true]);
    r.seek(150);
    assert_eq!(r.idle_sections(), vec![true, true]);
    // Idle blocks leave the sections as they were: the next real block
    // still enters the span.
    let (_, steps) = r.next_block(10);
    assert_eq!(steps, vec![SectionStep::ResetThenProcess, SectionStep::ResetThenProcess]);
    let (_, steps) = r.next_block(10);
    assert_eq!(steps, vec![SectionStep::Process, SectionStep::Process]);
    let s = InsertSection::new(Some((5, 6)));
    assert!(s.active_at(5) && !s.active_at(6) && !s.active_at(4));
}

#[test]
fn transport_follows_commands() {
    let mut t = Transport::new();
    // Without a session nothing plays; sections wait for the next load.
    assert!(!t.resume());
    assert!(!t.playing);
    assert!(!t.seek(10));
    t.set_sections(vec![Some((0, 100)), None]);
    t.load(1_000);
    assert!(t.pending.is_empty());
    let c = t.cursor.as_ref().unwrap();
    assert_eq!((c.pos, c.total_samples, c.sections.len()), (0, 1_000, 2));
    assert!(!t.playing);
    // Play to the end, then play again: it rewinds.
    assert!(!t.resume());
    assert!(t.playing);
    while t.cursor.as_mut().unwrap().next_block(BLOCK_FRAMES).0 > 0 {}
    t.check_end(10, 20);
    assert!(t.playing, "frames still queued for the device");
    t.check_end(20, 20);
    assert!(!t.playing);
    assert!(t.resume());
    assert_eq!(t.cursor.as_ref().unwrap().pos, 0);
    // Seek clamps; stop rewinds and stops.
    assert!(t.seek(5_000));
    assert_eq!(t.cursor.as_ref().unwrap().pos, 1_000);
    assert!(t.stop());
    assert!(!t.playing);
    assert_eq!(t.cursor.as_ref().unwrap().pos, 0);
    // A new topology replaces the sections of the loaded session at once.
    t.set_sections(vec![None]);
    assert_eq!(t.cursor.as_ref().unwrap().sections.len(), 1);
    t.pause();
    assert!(!t.playing);
}
