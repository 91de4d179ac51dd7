//! Block scheduling of the render side of the engine: how many frames a
//! block holds, and which master-bus insert sections run on it. A track's
//! chain is a section with a span: it runs only on blocks starting inside
//! the span, and starts clean (its processors reset) each time the
//! playhead enters it. The global mastering chain has no span and runs on
//! every block. The processors themselves live with the caller, index-
//! aligned with the sections. The transport decides what the engine's
//! commands (load, play, pause, seek, stop) do to the playhead.

use vstd::prelude::*;

verus! {

/// Frames rendered per block at most.
pub const BLOCK_FRAMES: usize = 512;

/// What a master-bus section does during one block.
#[derive(Debug, Clone, Copy, PartialEq, Eq)]
pub enum SectionStep {
    /// Outside its span: the block passes through untouched.
    Skip,
    /// Inside its span, as on the block before: process.
    Process,
    /// Just entered its span: reset the processors, then process.
    ResetThenProcess,
}

/// One insert chain on the master bus. `span: None` = always active;
/// `Some((start, end))` = active while the block starts in `start..end`.
#[derive(Debug, Clone, Copy)]
pub struct InsertSection {
    pub span: Option<(u64, u64)>,
    /// Whether the section ran on the previous block.
    pub was_active: bool,
}

/// Whether a section with `span` is active for a block starting at `pos`.
pub open spec fn active(span: Option<(u64, u64)>, pos: u64) -> bool {
    match span {
        None => true,
        Some((start, end)) => start <= pos && pos < end,
    }
}

/// What a section does on a block starting at `pos`.
pub open spec fn step_of(s: InsertSection, pos: u64) -> SectionStep {
    if !active(s.span, pos) {
        SectionStep::Skip
    } else if s.was_active {
        SectionStep::Process
    } else {
        SectionStep::ResetThenProcess
    }
}

impl InsertSection {
    /// A section that has not run yet.
    pub fn new(span: Option<(u64, u64)>) -> (r: Self)
        ensures
            r.span == span,
            !r.was_active,
    {
        InsertSection { span, was_active: false }
    }

    pub fn active_at(&self, pos: u64) -> (r: bool)
        ensures
            r == active(self.span, pos),
    {
        match self.span {
            None => true,
            Some((start, end)) => start <= pos && pos < end,
        }
    }
}

/// The playhead of a render and its master-bus sections, in processing
/// order.
#[derive(Debug)]
pub struct RenderCursor {
    /// Next timeline sample to render.
    pub pos: u64,
    pub total_samples: u64,
    pub sections: Vec<InsertSection>,
}

/// Frames of the next block: at most `frames` and `BLOCK_FRAMES`, and no
/// further than the end.
pub open spec fn block_frames(pos: u64, total: u64, frames: nat) -> nat {
    if pos >= total {
        0
    } else {
        let left = (total - pos) as nat;
        let a = if frames < BLOCK_FRAMES { frames } else { BLOCK_FRAMES as nat };
        if a < left {
            a
        } else {
            left
        }
    }
}

/// The sections after a block starting at `pos`: each remembers whether
/// it was active.
pub open spec fn after_block(s: Seq<InsertSection>, pos: u64) -> Seq<InsertSection> {
    s.map_values(|x: InsertSection| InsertSection { span: x.span, was_active: active(x.span, pos) })
}

/// The sections after a seek: none counts as having run.
pub open spec fn after_seek(s: Seq<InsertSection>) -> Seq<InsertSection> {
    s.map_values(|x: InsertSection| InsertSection { span: x.span, was_active: false })
}

/// The steps of every section on a block starting at `pos`.
pub open spec fn steps_at(s: Seq<InsertSection>, pos: u64) -> Seq<SectionStep> {
    s.map_values(|x: InsertSection| step_of(x, pos))
}

impl RenderCursor {
    /// The playhead never passes the end.
    pub open spec fn wf(&self) -> bool {
        self.pos <= self.total_samples
    }

    /// At the start of a render of `total_samples`, with no section.
    pub fn new(total_samples: u64) -> (r: Self)
        ensures
            r.wf(),
            r.pos == 0,
            r.total_samples == total_samples,
            r.sections@.len() == 0,
    {
        RenderCursor { pos: 0, total_samples, sections: Vec::new() }
    }

    /// Append a section (after those already there).
    pub fn add_section(&mut self, span: Option<(u64, u64)>)
        ensures
            final(self).pos == old(self).pos,
            final(self).total_samples == old(self).total_samples,
            final(self).sections@ == old(self).sections@.push(InsertSection { span, was_active: false }),
    {
        self.sections.push(InsertSection::new(span));
    }

    pub fn finished(&self) -> (r: bool)
        ensures
            r == (self.pos >= self.total_samples),
    {
        self.pos >= self.total_samples
    }

    /// Move the playhead (clamped to the end). Every processor is reset
    /// by the caller, so no section counts as having run: entering a span
    /// afterwards resets again.
    pub fn seek(&mut self, target: u64)
        ensures
            final(self).wf(),
            final(self).pos == if target < old(self).total_samples {
                target
            } else {
                old(self).total_samples
            },
            final(self).total_samples == old(self).total_samples,
            final(self).sections@ == after_seek(old(self).sections@),
    {
        self.pos = if target < self.total_samples {
            target
        } else {
            self.total_samples
        };
        let n = self.sections.len();
        let mut k: usize = 0;
        while k < n
            invariant
                n == self.sections@.len(),
                n == old(self).sections@.len(),
                self.total_samples == old(self).total_samples,
                self.pos == if target < old(self).total_samples {
                    target
                } else {
                    old(self).total_samples
                },
                k <= n,
                forall|j: int|
                    0 <= j < n ==> (#[trigger] self.sections@[j]).span == old(self).sections@[j].span,
                forall|j: int| 0 <= j < k ==> !(#[trigger] self.sections@[j]).was_active,
            decreases n - k,
        {
            let span = self.sections[k].span;
            self.sections.set(k, InsertSection { span, was_active: false });
            k += 1;
        }
        assert(self.sections@ =~= after_seek(old(self).sections@));
    }

    /// Which sections run while the transport is stopped: silence goes
    /// through those active at the playhead, which does not move.
    pub fn idle_sections(&self) -> (r: Vec<bool>)
        ensures
            r@.len() == self.sections@.len(),
            forall|k: int| 0 <= k < r@.len() ==> r@[k] == active(#[trigger] self.sections@[k].span, self.pos),
    {
        let mut out: Vec<bool> = Vec::new();
        let mut k: usize = 0;
        while k < self.sections.len()
            invariant
                k <= self.sections@.len(),
                out@.len() == k,
                forall|j: int| 0 <= j < k ==> out@[j] == active(#[trigger] self.sections@[j].span, self.pos),
            decreases self.sections@.len() - k,
        {
            out.push(self.sections[k].active_at(self.pos));
            k += 1;
        }
        out
    }

    /// Schedule the next block of at most `frames` frames: how many frames
    /// it holds and what each section does on it. At the end nothing is
    /// rendered and nothing changes.
    pub fn next_block(&mut self, frames: usize) -> (r: (usize, Vec<SectionStep>))
        requires
            old(self).wf(),
        ensures
            final(self).wf(),
            r.0 == block_frames(old(self).pos, old(self).total_samples, frames as nat),
            final(self).pos == old(self).pos + r.0,
            final(self).total_samples == old(self).total_samples,
            old(self).pos >= old(self).total_samples ==> r.1@.len() == 0 && final(self).sections@
                == old(self).sections@,
            old(self).pos < old(self).total_samples ==> r.1@ == steps_at(old(self).sections@, old(self).pos)
                && final(self).sections@ == after_block(old(self).sections@, old(self).pos),
    {
        if self.pos >= self.total_samples {
            return (0, Vec::new());
        }
        let left = self.total_samples - self.pos;
        let a: usize = if frames < BLOCK_FRAMES {
            frames
        } else {
            BLOCK_FRAMES
        };
        let n: usize = if (a as u64) < left {
            a
        } else {
            left as usize
        };
        let pos = self.pos;
        let count = self.sections.len();
        let mut steps: Vec<SectionStep> = Vec::new();
        let mut k: usize = 0;
        while k < count
            invariant
                count == self.sections@.len(),
                count == old(self).sections@.len(),
                pos == old(self).pos,
                self.pos == pos,
                self.total_samples == old(self).total_samples,
                n as u64 <= self.total_samples - pos,
                n == block_frames(pos, self.total_samples, frames as nat),
                k <= count,
                steps@.len() == k,
                forall|j: int| 0 <= j < k ==> #[trigger] steps@[j] == step_of(old(self).sections@[j], pos),
                forall|j: int|
                    0 <= j < count ==> (#[trigger] self.sections@[j]).span == old(self).sections@[j].span,
                forall|j: int|
                    0 <= j < k ==> (#[trigger] self.sections@[j]).was_active == active(
                        old(self).sections@[j].span,
                        pos,
                    ),
                forall|j: int|
                    k <= j < count ==> (#[trigger] self.sections@[j]).was_active == old(
                        self,
                    ).sections@[j].was_active,
            decreases count - k,
        {
            let s = self.sections[k];
            let on = s.active_at(pos);
            let step = if !on {
                SectionStep::Skip
            } else if s.was_active {
                SectionStep::Process
            } else {
                SectionStep::ResetThenProcess
            };
            steps.push(step);
            self.sections.set(k, InsertSection { span: s.span, was_active: on });
            k += 1;
        }
        assert(steps@ =~= steps_at(old(self).sections@, pos));
        assert(self.sections@ =~= after_block(old(self).sections@, pos));
        self.pos = self.pos + n as u64;
        (n, steps)
    }
}

// ---------------------------------------------------------------------------
// Transport.

/// The engine's transport: the session being played (if one is loaded),
/// whether it plays, and master-bus sections sent before any session
/// (installed by the next load).
#[derive(Debug)]
pub struct Transport {
    pub cursor: Option<RenderCursor>,
    pub playing: bool,
    pub pending: Vec<Option<(u64, u64)>>,
}

/// Fresh sections for `spans`, none having run.
pub open spec fn fresh_sections(spans: Seq<Option<(u64, u64)>>) -> Seq<InsertSection> {
    spans.map_values(|s: Option<(u64, u64)>| InsertSection { span: s, was_active: false })
}

fn sections_for(spans: &Vec<Option<(u64, u64)>>) -> (r: Vec<InsertSection>)
    ensures
        r@ == fresh_sections(spans@),
{
    let mut out: Vec<InsertSection> = Vec::new();
    let mut i: usize = 0;
    while i < spans.len()
        invariant
            i <= spans@.len(),
            out@ == fresh_sections(spans@).take(i as int),
        decreases spans@.len() - i,
    {
        out.push(InsertSection::new(spans[i]));
        i += 1;
        assert(out@ =~= fresh_sections(spans@).take(i as int));
    }
    assert(fresh_sections(spans@).take(spans@.len() as int) =~= fresh_sections(spans@));
    out
}

/// Whether playback ends: the session is rendered to its end and the
/// device played everything sent.
pub open spec fn ends(cursor: Option<RenderCursor>, ring_read: u64, ring_written: u64) -> bool {
    match cursor {
        Some(c) => c.pos >= c.total_samples && ring_read >= ring_written,
        None => false,
    }
}

impl Transport {
    /// Every loaded session's playhead is within it.
    pub open spec fn wf(&self) -> bool {
        self.cursor matches Some(c) ==> c.wf()
    }

    /// No session, stopped.
    pub fn new() -> (r: Self)
        ensures
            r.wf(),
            r.cursor is None,
            !r.playing,
            r.pending@.len() == 0,
    {
        Transport { cursor: None, playing: false, pending: Vec::new() }
    }

    /// Load a session of `total_samples`: stopped at its start, with the
    /// sections sent before it (which are then no longer pending).
    pub fn load(&mut self, total_samples: u64)
        ensures
            final(self).wf(),
            !final(self).playing,
            final(self).pending@.len() == 0,
            ({
                &&& final(self).cursor matches Some(c)
                &&& c.pos == 0
                &&& c.total_samples == total_samples
                &&& c.sections@ == fresh_sections(old(self).pending@)
            }),
    {
        let mut spans: Vec<Option<(u64, u64)>> = Vec::new();
        std::mem::swap(&mut spans, &mut self.pending);
        let sections = sections_for(&spans);
        self.cursor = Some(RenderCursor { pos: 0, total_samples, sections });
        self.playing = false;
    }

    /// Install the master-bus sections: at once when a session is loaded
    /// (none having run), else kept for the next load.
    pub fn set_sections(&mut self, spans: Vec<Option<(u64, u64)>>)
        requires
            old(self).wf(),
        ensures
            final(self).wf(),
            final(self).playing == old(self).playing,
            match old(self).cursor {
                Some(c) => {
                    &&& final(self).pending == old(self).pending
                    &&& final(self).cursor matches Some(d)
                    &&& d.pos == c.pos
                    &&& d.total_samples == c.total_samples
                    &&& d.sections@ == fresh_sections(spans@)
                },
                None => final(self).cursor is None && final(self).pending@ == spans@,
            },
    {
        match self.cursor.take() {
            Some(c) => {
                let sections = sections_for(&spans);
                self.cursor = Some(RenderCursor { pos: c.pos, total_samples: c.total_samples, sections });
            },
            None => {
                self.pending = spans;
            },
        }
    }

    pub fn pause(&mut self)
        ensures
            !final(self).playing,
            final(self).cursor == old(self).cursor,
            final(self).pending == old(self).pending,
    {
        self.playing = false;
    }

    /// Play, from the start when the session had played to its end.
    /// Returns whether the playhead was rewound (every processor is then
    /// reset). Without a session nothing happens.
    pub fn resume(&mut self) -> (rewound: bool)
        requires
            old(self).wf(),
        ensures
            final(self).wf(),
            final(self).pending == old(self).pending,
            match old(self).cursor {
                None => !rewound && *final(self) == *old(self),
                Some(c) => {
                    &&& final(self).playing
                    &&& rewound == (c.pos >= c.total_samples)
                    &&& final(self).cursor matches Some(d)
                    &&& d.total_samples == c.total_samples
                    &&& if rewound {
                        d.pos == 0 && d.sections@ == after_seek(c.sections@)
                    } else {
                        d == c
                    }
                },
            },
    {
        let mut rewound = false;
        match self.cursor.as_mut() {
            None => {
                return false;
            },
            Some(c) => {
                if c.finished() {
                    c.seek(0);
                    rewound = true;
                }
            },
        }
        self.playing = true;
        rewound
    }

    /// Move the playhead (clamped to the session); every processor is
    /// reset. Returns whether a session was there to seek in.
    pub fn seek(&mut self, target: u64) -> (sought: bool)
        requires
            old(self).wf(),
        ensures
            final(self).wf(),
            final(self).playing == old(self).playing,
            final(self).pending == old(self).pending,
            sought == (old(self).cursor is Some),
            match old(self).cursor {
                None => final(self).cursor is None,
                Some(c) => {
                    &&& final(self).cursor matches Some(d)
                    &&& d.total_samples == c.total_samples
                    &&& d.pos == if target < c.total_samples {
                        target
                    } else {
                        c.total_samples
                    }
                    &&& d.sections@ == after_seek(c.sections@)
                },
            },
    {
        match self.cursor.as_mut() {
            None => false,
            Some(c) => {
                c.seek(target);
                true
            },
        }
    }

    /// Stop: back to the start, not playing.
    pub fn stop(&mut self) -> (sought: bool)
        requires
            old(self).wf(),
        ensures
            final(self).wf(),
            !final(self).playing,
            final(self).pending == old(self).pending,
            sought == (old(self).cursor is Some),
            match old(self).cursor {
                None => final(self).cursor is None,
                Some(c) => {
                    &&& final(self).cursor matches Some(d)
                    &&& d.total_samples == c.total_samples
                    &&& d.pos == 0
                    &&& d.sections@ == after_seek(c.sections@)
                },
            },
    {
        let sought = self.seek(0);
        self.playing = false;
        sought
    }

    /// After the device has played `ring_read` of the `ring_written`
    /// frames sent: playback ends once the session is rendered to its end
    /// and everything sent was heard.
    pub fn check_end(&mut self, ring_read: u64, ring_written: u64)
        ensures
            final(self).cursor == old(self).cursor,
            final(self).pending == old(self).pending,
            final(self).playing == (old(self).playing && !ends(old(self).cursor, ring_read, ring_written)),
    {
        let done = match &self.cursor {
            Some(c) => c.finished() && ring_read >= ring_written,
            None => false,
        };
        if done {
            self.playing = false;
        }
    }
}

/// After a seek, a section whose span holds the playhead starts clean on
/// the next block: a seek never lets a chain carry state into its span.
pub proof fn law_seek_then_enter_resets(s: Seq<InsertSection>, pos: u64, k: int)
    requires
        0 <= k < s.len(),
        active(s[k].span, pos),
    ensures
        steps_at(after_seek(s), pos)[k] == SectionStep::ResetThenProcess,
{
}

/// A section that ran on a block and is still active on the next one
/// keeps its state (no reset inside a span).
pub proof fn law_no_reset_inside_span(s: Seq<InsertSection>, p: u64, q: u64, k: int)
    requires
        0 <= k < s.len(),
        active(s[k].span, p),
        active(s[k].span, q),
    ensures
        steps_at(after_block(s, p), q)[k] == SectionStep::Process,
{
}

/// A block never goes past the end, and a non-empty request renders
/// nothing only at the end: rendering block after block stops exactly at
/// the end.
pub proof fn law_blocks_stop_at_end(pos: u64, total: u64, frames: nat)
    requires
        pos <= total,
        frames > 0,
    ensures
        pos + block_frames(pos, total, frames) <= total,
        block_frames(pos, total, frames) == 0 <==> pos == total,
{
}

} // verus!
