//! The playlist of one layer: its files and silent take-gaps laid back to
//! back on the timeline, with a sample-exact cursor. Reading plans, for a
//! number of frames, which part of which item fills which part of the
//! output; decoding the files is the caller's.

use vstd::prelude::*;
use crate::timeline::{clip_end, clips_fit, ClipInfo};

verus! {

/// One playlist item: a file or a silent gap, with its length in samples.
#[derive(Debug, Clone)]
pub enum PlayItem {
    File { path: String, samples: u64 },
    Silence { samples: u64 },
}

pub open spec fn item_len(i: PlayItem) -> nat {
    match i {
        PlayItem::File { samples, .. } => samples as nat,
        PlayItem::Silence { samples } => samples as nat,
    }
}

/// Timeline position where item `n` starts: the lengths of the items
/// before it.
pub open spec fn start_of(items: Seq<PlayItem>, n: int) -> nat
    decreases n,
{
    if n <= 0 || n > items.len() {
        0
    } else {
        start_of(items, n - 1) + item_len(items[n - 1])
    }
}

pub proof fn lemma_start_mono(items: Seq<PlayItem>, a: int, b: int)
    requires
        0 <= a <= b <= items.len(),
    ensures
        start_of(items, a) <= start_of(items, b),
    decreases b - a,
{
    if a < b {
        lemma_start_mono(items, a, b - 1);
    }
}

/// The playlist of a layer's clips (in timeline order): a silent gap
/// before every clip that starts after the previous one ends, then the
/// clip's file.
pub open spec fn items_of(clips: Seq<ClipInfo>, n: int, cursor: nat) -> Seq<PlayItem>
    decreases n,
{
    if n <= 0 || n > clips.len() {
        seq![]
    } else {
        items_of(clips, n - 1, cursor) + {
            let c = clips[n - 1];
            let at = if n == 1 {
                cursor
            } else {
                clip_end(clips[n - 2])
            };
            (if c.start_sample > at {
                seq![PlayItem::Silence { samples: (c.start_sample - at) as u64 }]
            } else {
                Seq::<PlayItem>::empty()
            }) + seq![PlayItem::File { path: c.path, samples: c.duration_samples }]
        }
    }
}

/// The playlist of a layer's clips, starting at timeline position 0.
pub fn play_items(clips: &[ClipInfo]) -> (r: Vec<PlayItem>)
    requires
        clips_fit(clips@),
    ensures
        r@ == items_of(clips@, clips@.len() as int, 0),
{
    let mut items: Vec<PlayItem> = Vec::new();
    let mut cursor: u64 = 0;
    let mut i: usize = 0;
    while i < clips.len()
        invariant
            i <= clips@.len(),
            clips_fit(clips@),
            items@ == items_of(clips@, i as int, 0),
            cursor == if i == 0 { 0 } else { clip_end(clips@[i - 1]) },
        decreases clips@.len() - i,
    {
        let c = &clips[i];
        let ghost before = items@;
        if c.start_sample > cursor {
            items.push(PlayItem::Silence { samples: c.start_sample - cursor });
        }
        items.push(PlayItem::File { path: c.path.clone(), samples: c.duration_samples });
        assert(clip_end(clips@[i as int]) <= u64::MAX);
        cursor = c.start_sample + c.duration_samples;
        i += 1;
        assert(items@ =~= items_of(clips@, i as int, 0));
    }
    items
}

/// A part of a read: `frames` frames of item `item` from its local sample
/// `start`, filling the output from frame `out_offset`; `file` tells a
/// file part (to decode) from silence (left at zero).
#[derive(Debug, Clone, Copy, PartialEq, Eq)]
pub struct Chunk {
    pub item: usize,
    pub start: u64,
    pub frames: usize,
    pub out_offset: usize,
    pub file: bool,
}

/// A cursor over a layer's playlist.
#[derive(Debug)]
pub struct Playlist {
    pub items: Vec<PlayItem>,
    /// Total length of the playlist.
    pub total: u64,
    /// Timeline position of the next frame.
    pub pos: u64,
    /// The item holding the next frame (`items.len()` at the end).
    pub item_idx: usize,
    /// Samples already read within that item.
    pub item_pos: u64,
}

impl Playlist {
    /// The cursor agrees with the items: its position is the start of its
    /// item plus the samples read within it.
    pub open spec fn wf(&self) -> bool {
        &&& self.total == start_of(self.items@, self.items@.len() as int)
        &&& self.item_idx <= self.items@.len()
        &&& self.pos == start_of(self.items@, self.item_idx as int) + self.item_pos
        &&& self.item_idx < self.items@.len() ==> self.item_pos <= item_len(self.items@[self.item_idx as int])
        &&& self.item_idx == self.items@.len() ==> self.item_pos == 0
    }

    pub fn new(items: Vec<PlayItem>) -> (r: Self)
        requires
            start_of(items@, items@.len() as int) <= u64::MAX,
        ensures
            r.wf(),
            r.items@ == items@,
            r.pos == 0,
            r.item_idx == 0,
    {
        let mut total: u64 = 0;
        let mut i: usize = 0;
        while i < items.len()
            invariant
                i <= items@.len(),
                start_of(items@, items@.len() as int) <= u64::MAX,
                total == start_of(items@, i as int),
            decreases items@.len() - i,
        {
            proof {
                lemma_start_mono(items@, i + 1, items@.len() as int);
            }
            let len = match &items[i] {
                PlayItem::File { samples, .. } => *samples,
                PlayItem::Silence { samples } => *samples,
            };
            total = total + len;
            i += 1;
        }
        Playlist { items, total, pos: 0, item_idx: 0, item_pos: 0 }
    }

    pub fn total_samples(&self) -> (r: u64)
        ensures
            r == self.total,
    {
        self.total
    }

    pub fn finished(&self) -> (r: bool)
        ensures
            r == (self.pos >= self.total),
    {
        self.pos >= self.total
    }

    /// Jump to a timeline position (clamped to the end): the cursor lands
    /// in the first item that has samples past it.
    pub fn seek(&mut self, target: u64)
        requires
            old(self).wf(),
        ensures
            final(self).wf(),
            final(self).items@ == old(self).items@,
            final(self).total == old(self).total,
            final(self).pos == if target < old(self).total {
                target
            } else {
                old(self).total
            },
            final(self).item_idx < final(self).items@.len() ==> final(self).item_pos < item_len(
                final(self).items@[final(self).item_idx as int],
            ),
            forall|k: int| 0 < k <= final(self).item_idx ==> #[trigger] start_of(final(self).items@, k) <= final(self).pos,
    {
        let t = if target < self.total { target } else { self.total };
        let ghost items = self.items@;
        let n = self.items.len();
        let mut acc: u64 = 0;
        let mut i: usize = 0;
        while i < n
            invariant
                n == items.len(),
                items == self.items@,
                items == old(self).items@,
                self.total == old(self).total,
                self.total == start_of(items, n as int),
                self.total <= u64::MAX,
                t <= self.total,
                t == if target < old(self).total { target } else { old(self).total },
                i <= n,
                acc == start_of(items, i as int),
                acc <= t,
                forall|k: int| 0 < k <= i ==> #[trigger] start_of(items, k) <= t,
            decreases n - i,
        {
            proof {
                lemma_start_mono(items, i + 1, n as int);
            }
            let len = match &self.items[i] {
                PlayItem::File { samples, .. } => *samples,
                PlayItem::Silence { samples } => *samples,
            };
            if t < acc + len {
                self.item_idx = i;
                self.item_pos = t - acc;
                self.pos = t;
                return;
            }
            acc = acc + len;
            i += 1;
        }
        self.item_idx = n;
        self.item_pos = 0;
        self.pos = self.total;
    }

    /// Plans a read of `frames` frames and moves the cursor past them:
    /// the parts of the items that fill the output in order, from the
    /// cursor on, until the frames are filled or the playlist ends (the
    /// rest of the output is silence).
    pub fn plan_read(&mut self, frames: usize) -> (r: Vec<Chunk>)
        requires
            old(self).wf(),
        ensures
            final(self).wf(),
            final(self).items@ == old(self).items@,
            final(self).total == old(self).total,
            final(self).pos == if old(self).pos + frames <= old(self).total {
                old(self).pos + frames
            } else {
                old(self).total as int
            },
            forall|j: int|
                0 <= j < r@.len() ==> {
                    let c = #[trigger] r@[j];
                    &&& c.item < final(self).items@.len()
                    &&& c.frames > 0
                    &&& c.start + c.frames <= item_len(final(self).items@[c.item as int])
                    &&& c.file == final(self).items@[c.item as int] is File
                    &&& start_of(final(self).items@, c.item as int) + c.start == old(self).pos + c.out_offset
                    &&& c.out_offset + c.frames <= frames
                },
            forall|j: int| 0 < j < r@.len() ==> #[trigger] r@[j].out_offset == r@[j - 1].out_offset + r@[j - 1].frames,
            r@.len() > 0 ==> r@[0].out_offset == 0,
            r@.len() > 0 ==> r@.last().out_offset + r@.last().frames == final(self).pos - old(self).pos,
    {
        let ghost start = self.pos;
        let ghost items = self.items@;
        let n = self.items.len();
        let mut chunks: Vec<Chunk> = Vec::new();
        let mut done: usize = 0;
        while done < frames && self.item_idx < n
            invariant
                self.wf(),
                n == self.items@.len(),
                items == self.items@,
                items == old(self).items@,
                self.total == old(self).total,
                self.total <= u64::MAX,
                done <= frames,
                self.pos == start + done,
                start == old(self).pos,
                forall|j: int|
                    0 <= j < chunks@.len() ==> {
                        let c = #[trigger] chunks@[j];
                        &&& c.item < items.len()
                        &&& c.frames > 0
                        &&& c.start + c.frames <= item_len(items[c.item as int])
                        &&& c.file == items[c.item as int] is File
                        &&& start_of(items, c.item as int) + c.start == start + c.out_offset
                        &&& c.out_offset + c.frames <= done
                    },
                forall|j: int| 0 < j < chunks@.len() ==> #[trigger] chunks@[j].out_offset == chunks@[j - 1].out_offset
                    + chunks@[j - 1].frames,
                chunks@.len() > 0 ==> chunks@[0].out_offset == 0,
                chunks@.len() > 0 ==> chunks@.last().out_offset + chunks@.last().frames == done,
                chunks@.len() == 0 ==> done == 0,
            decreases frames - done, n - self.item_idx,
        {
            proof {
                lemma_start_mono(items, self.item_idx + 1, n as int);
            }
            let (len, is_file) = match &self.items[self.item_idx] {
                PlayItem::File { samples, .. } => (*samples, true),
                PlayItem::Silence { samples } => (*samples, false),
            };
            if self.item_pos >= len {
                self.item_idx = self.item_idx + 1;
                self.item_pos = 0;
                continue;
            }
            let left = len - self.item_pos;
            let room = frames - done;
            let want: usize = if left < room as u64 { left as usize } else { room };
            chunks.push(Chunk { item: self.item_idx, start: self.item_pos, frames: want, out_offset: done, file: is_file });
            self.item_pos = self.item_pos + want as u64;
            self.pos = self.pos + want as u64;
            done = done + want;
        }
        proof {
            if done < frames {
                assert(self.item_idx == n);
                assert(self.pos == self.total);
            } else if self.item_idx < n {
                lemma_start_mono(items, self.item_idx + 1, n as int);
            }
        }
        chunks
    }
}

} // verus!
