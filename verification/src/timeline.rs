//! The session timeline: clips laid on layers, timeline ranges mapped
//! onto clip files, and the derived album program (tracks with their
//! gaps).

use vstd::prelude::*;
use crate::float_bits::{f32_negative, f32_non_negative, f32_not_positive, f32_positive};
use crate::sorting::{lowercase, to_lowercase};
use crate::text::{chars_of, extend_str, string_of};
use crate::paths::{path_extension, path_piece, plain_path, spec_extension};

verus! {

/// One source file placed on the session timeline. Positions are
/// timeline samples.
#[derive(Debug)]
pub struct ClipInfo {
    pub path: String,
    /// File name (display).
    pub name: String,
    /// Timeline position of the clip's first sample.
    pub start_sample: u64,
    pub duration_samples: u64,
}

/// Scan result for one layer: its clips, channel count and total length.
/// Layers are time-synchronized: they all start at t = 0.
#[derive(Debug)]
pub struct ScannedLayer {
    pub clips: Vec<ClipInfo>,
    pub channels: u16,
    pub duration_samples: u64,
}

/// The scanned session audio: every layer with its clips. The duration
/// in seconds is derived by the display layer from `duration_samples`
/// and `sample_rate`.
#[derive(Debug)]
pub struct AudioInfo {
    /// First clip's path of the base layer.
    pub path: String,
    /// Base layer's clips (timeline boundaries shown in the UI).
    pub clips: Vec<ClipInfo>,
    /// All layers, index-aligned with the project's layer list.
    pub layers: Vec<ScannedLayer>,
    /// Total timeline length (longest layer).
    pub duration_samples: u64,
    pub sample_rate: u32,
    /// Session channel count (max over layers).
    pub channels: u16,
    /// Display string, e.g. "FLAC".
    pub format: String,
}

impl Clone for ClipInfo {
    fn clone(&self) -> (r: Self)
        ensures
            r == *self,
    {
        ClipInfo {
            path: self.path.clone(),
            name: self.name.clone(),
            start_sample: self.start_sample,
            duration_samples: self.duration_samples,
        }
    }
}

/// A scanned layer as plain values.
pub struct ScannedLayerView {
    pub clips: Seq<ClipInfo>,
    pub channels: u16,
    pub duration_samples: u64,
}

impl View for ScannedLayer {
    type V = ScannedLayerView;

    open spec fn view(&self) -> ScannedLayerView {
        ScannedLayerView {
            clips: self.clips@,
            channels: self.channels,
            duration_samples: self.duration_samples,
        }
    }
}

impl Clone for ScannedLayer {
    fn clone(&self) -> (r: Self)
        ensures
            r@ == self@,
    {
        let clips = self.clips.clone();
        proof {
            assert(clips@ =~= self.clips@);
        }
        ScannedLayer { clips, channels: self.channels, duration_samples: self.duration_samples }
    }
}

/// The scanned audio as plain values.
pub struct AudioInfoView {
    pub path: Seq<char>,
    pub clips: Seq<ClipInfo>,
    pub layers: Seq<ScannedLayerView>,
    pub duration_samples: u64,
    pub sample_rate: u32,
    pub channels: u16,
    pub format: Seq<char>,
}

impl View for AudioInfo {
    type V = AudioInfoView;

    open spec fn view(&self) -> AudioInfoView {
        AudioInfoView {
            path: self.path@,
            clips: self.clips@,
            layers: self.layers@.map_values(|l: ScannedLayer| l@),
            duration_samples: self.duration_samples,
            sample_rate: self.sample_rate,
            channels: self.channels,
            format: self.format@,
        }
    }
}

impl Clone for AudioInfo {
    fn clone(&self) -> (r: Self)
        ensures
            r@ == self@,
    {
        let clips = self.clips.clone();
        let layers = self.layers.clone();
        let r = AudioInfo {
            path: self.path.clone(),
            clips,
            layers,
            duration_samples: self.duration_samples,
            sample_rate: self.sample_rate,
            channels: self.channels,
            format: self.format.clone(),
        };
        proof {
            assert(r.clips@ =~= self.clips@);
            assert(r.layers@.map_values(|l: ScannedLayer| l@) =~= self.layers@.map_values(
                |l: ScannedLayer| l@,
            ));
        }
        r
    }
}

/// End of a clip on the timeline.
pub open spec fn clip_end(c: ClipInfo) -> nat {
    (c.start_sample + c.duration_samples) as nat
}

/// Every clip end is representable.
pub open spec fn clips_fit(clips: Seq<ClipInfo>) -> bool {
    forall|i: int| 0 <= i < clips.len() ==> clip_end(#[trigger] clips[i]) <= u64::MAX
}

/// A piece of a layer over a timeline range: part of a source file, or a
/// silent gap.
#[derive(Debug, Clone, Copy, PartialEq, Eq)]
pub enum TimelinePart {
    /// (clip index, local start sample, local end sample)
    File { clip: usize, start: u64, end: u64 },
    Silence { samples: u64 },
}

/// Length of a part in samples.
pub open spec fn part_len(p: TimelinePart) -> nat {
    match p {
        TimelinePart::File { start, end, .. } => (end - start) as nat,
        TimelinePart::Silence { samples } => samples as nat,
    }
}

pub open spec fn parts_len(ps: Seq<TimelinePart>) -> nat
    decreases ps.len(),
{
    if ps.len() == 0 {
        0
    } else {
        parts_len(ps.drop_last()) + part_len(ps.last())
    }
}

/// The walk of `layer_parts`: from clip `i` with the range covered up to
/// `cursor`.
pub open spec fn parts_from(clips: Seq<ClipInfo>, i: int, cursor: nat, end: nat) -> Seq<
    TimelinePart,
>
    decreases clips.len() - i,
{
    let tail: Seq<TimelinePart> = if cursor < end {
        seq![TimelinePart::Silence { samples: (end - cursor) as u64 }]
    } else {
        seq![]
    };
    if i < 0 || i >= clips.len() {
        tail
    } else {
        let c = clips[i];
        let cs = c.start_sample as nat;
        let ce = clip_end(c);
        if ce <= cursor {
            parts_from(clips, i + 1, cursor, end)
        } else if cs >= end {
            tail
        } else {
            let gap: Seq<TimelinePart> = if cs > cursor {
                seq![TimelinePart::Silence { samples: (cs - cursor) as u64 }]
            } else {
                seq![]
            };
            let from = if cs > cursor {
                cs
            } else {
                cursor
            };
            let e = if end < ce {
                end
            } else {
                ce
            };
            if from < e {
                gap + seq![
                    TimelinePart::File { clip: i as usize, start: (from - cs) as u64, end: (e - cs) as u64 },
                ] + parts_from(clips, i + 1, e, end)
            } else {
                gap + parts_from(clips, i + 1, from, end)
            }
        }
    }
}

proof fn lemma_parts_len_add(a: Seq<TimelinePart>, b: Seq<TimelinePart>)
    ensures
        parts_len(a + b) == parts_len(a) + parts_len(b),
    decreases b.len(),
{
    if b.len() == 0 {
        assert(a + b =~= a);
    } else {
        assert((a + b).drop_last() =~= a + b.drop_last());
        lemma_parts_len_add(a, b.drop_last());
    }
}

proof fn lemma_tail_len(cursor: nat, end: nat)
    requires
        cursor < end <= u64::MAX,
    ensures
        parts_len(seq![TimelinePart::Silence { samples: (end - cursor) as u64 }]) == end - cursor,
{
    let s = seq![TimelinePart::Silence { samples: (end - cursor) as u64 }];
    assert(s.drop_last() =~= Seq::<TimelinePart>::empty());
    assert(parts_len(s.drop_last()) == 0);
    assert(s.last() == TimelinePart::Silence { samples: (end - cursor) as u64 });
}

/// The parts cover the rest of the range exactly.
proof fn lemma_parts_from_len(clips: Seq<ClipInfo>, i: int, cursor: nat, end: nat)
    requires
        0 <= i,
        cursor <= end <= u64::MAX,
        clips_fit(clips),
    ensures
        parts_len(parts_from(clips, i, cursor, end)) == end - cursor,
    decreases clips.len() - i,
{
    if i >= clips.len() {
        if cursor < end {
            lemma_tail_len(cursor, end);
        }
    } else {
        let c = clips[i];
        let cs = c.start_sample as nat;
        let ce = clip_end(c);
        if ce <= cursor {
            lemma_parts_from_len(clips, i + 1, cursor, end);
        } else if cs >= end {
            if cursor < end {
                lemma_tail_len(cursor, end);
            }
        } else {
            let gap: Seq<TimelinePart> = if cs > cursor {
                seq![TimelinePart::Silence { samples: (cs - cursor) as u64 }]
            } else {
                seq![]
            };
            if cs > cursor {
                lemma_tail_len(cursor, cs);
            }
            let from = if cs > cursor {
                cs
            } else {
                cursor
            };
            let e = if end < ce {
                end
            } else {
                ce
            };
            if from < e {
                let f = seq![
                    TimelinePart::File { clip: i as usize, start: (from - cs) as u64, end: (e - cs) as u64 },
                ];
                assert(f.drop_last() =~= Seq::<TimelinePart>::empty());
                assert(parts_len(f.drop_last()) == 0);
                assert(parts_len(f) == e - from);
                lemma_parts_from_len(clips, i + 1, e, end);
                lemma_parts_len_add(gap, f);
                lemma_parts_len_add(gap + f, parts_from(clips, i + 1, e, end));
            } else {
                lemma_parts_from_len(clips, i + 1, from, end);
                lemma_parts_len_add(gap, parts_from(clips, i + 1, from, end));
            }
        }
    }
}

/// Decompose a timeline range into file parts and silent gaps for one
/// layer (clips in timeline order).
pub fn layer_parts(clips: &[ClipInfo], start: u64, end: u64) -> (r: Vec<TimelinePart>)
    requires
        clips_fit(clips@),
    ensures
        r@ == parts_from(clips@, 0, start as nat, end as nat),
        start <= end ==> parts_len(r@) == end - start,
{
    let mut parts: Vec<TimelinePart> = Vec::new();
    let mut cursor = start;
    let mut i: usize = 0;
    while i < clips.len()
        invariant
            i <= clips@.len(),
            clips_fit(clips@),
            parts@ + parts_from(clips@, i as int, cursor as nat, end as nat) == parts_from(
                clips@,
                0,
                start as nat,
                end as nat,
            ),
        decreases clips@.len() - i,
    {
        let c = &clips[i];
        let cs = c.start_sample;
        let ce = cs + c.duration_samples;
        if ce <= cursor {
            i += 1;
            continue;
        }
        if cs >= end {
            i = clips.len();
            continue;
        }
        let ghost before = parts@;
        let ghost cur0 = cursor;
        if cs > cursor {
            parts.push(TimelinePart::Silence { samples: cs - cursor });
            cursor = cs;
        }
        let e = if end < ce {
            end
        } else {
            ce
        };
        if cursor < e {
            parts.push(TimelinePart::File { clip: i, start: cursor - cs, end: e - cs });
            cursor = e;
        }
        proof {
            broadcast use crate::text::lemma_add_assoc;

            assert(parts@ + parts_from(clips@, i + 1, cursor as nat, end as nat) == before
                + parts_from(clips@, i as int, cur0 as nat, end as nat));
        }
        i += 1;
    }
    if cursor < end {
        parts.push(TimelinePart::Silence { samples: end - cursor });
    }
    proof {
        if start <= end {
            lemma_parts_from_len(clips@, 0, start as nat, end as nat);
        }
    }
    parts
}

/// The segments of `clip_segments` contributed by the first `n` clips.
pub open spec fn clip_segs(clips: Seq<ClipInfo>, start: u64, end: u64, n: int) -> Seq<
    (usize, u64, u64),
>
    decreases n,
{
    if n <= 0 {
        seq![]
    } else {
        let prev = clip_segs(clips, start, end, n - 1);
        let c = clips[n - 1];
        let s = if start >= c.start_sample {
            start as nat
        } else {
            c.start_sample as nat
        };
        let e = if end <= clip_end(c) {
            end as nat
        } else {
            clip_end(c)
        };
        if s < e {
            prev.push(((n - 1) as usize, (s - c.start_sample) as u64, (e - c.start_sample) as u64))
        } else {
            prev
        }
    }
}

/// Map a timeline range onto the clips it covers: (clip index, local
/// start, local end), local positions being samples within that clip's
/// file. Clips the range misses, or only touches, contribute nothing.
pub fn clip_segments(clips: &[ClipInfo], start: u64, end: u64) -> (r: Vec<(usize, u64, u64)>)
    requires
        clips_fit(clips@),
    ensures
        r@ == clip_segs(clips@, start, end, clips@.len() as int),
{
    let mut out: Vec<(usize, u64, u64)> = Vec::new();
    let mut i: usize = 0;
    while i < clips.len()
        invariant
            i <= clips@.len(),
            clips_fit(clips@),
            out@ == clip_segs(clips@, start, end, i as int),
        decreases clips@.len() - i,
    {
        let c = &clips[i];
        let c_end = c.start_sample + c.duration_samples;
        let s = if start >= c.start_sample {
            start
        } else {
            c.start_sample
        };
        let e = if end <= c_end {
            end
        } else {
            c_end
        };
        if s < e {
            out.push((i, s - c.start_sample, e - c.start_sample));
        }
        i += 1;
    }
    out
}


// ---------------------------------------------------------------------------
// Snapping to zero crossings.

/// A sign change between samples `i` and `i + 1` (samples as `f32` bit
/// patterns): from `<= 0` to `> 0`, or from `>= 0` to `< 0`.
pub open spec fn crossing_at(s: Seq<u32>, i: int) -> bool {
    (f32_not_positive(s[i]) && f32_positive(s[i + 1])) || (f32_non_negative(s[i]) && f32_negative(s[i + 1]))
}

/// The crossing found at distance `d` from `c`: on the right first, then
/// on the left; the index returned is that of the sample after the sign
/// change.
pub open spec fn found_at(s: Seq<u32>, c: int, d: int) -> Option<int> {
    if c + d + 1 < s.len() && crossing_at(s, c + d) {
        Some(c + d + 1)
    } else if d <= c && c - d + 1 < s.len() && crossing_at(s, c - d) {
        Some(c - d + 1)
    } else {
        None
    }
}

pub open spec fn search_from(s: Seq<u32>, c: int, d: int) -> Option<int>
    decreases s.len() - d,
{
    if d < 0 || d >= s.len() {
        None
    } else {
        match found_at(s, c, d) {
            Some(i) => Some(i),
            None => search_from(s, c, d + 1),
        }
    }
}

/// Distance between two indices.
pub open spec fn dist(a: int, b: int) -> int {
    if a >= b {
        a - b
    } else {
        b - a
    }
}

/// The zero crossing nearest to `center` (clamped into the samples),
/// searching outwards: the index of the sample after the sign change, or
/// `None` when the samples never change sign.
pub open spec fn spec_nearest_zero_crossing(s: Seq<u32>, center: int) -> Option<int> {
    if s.len() < 2 {
        None
    } else {
        search_from(s, if center < s.len() - 1 { center } else { s.len() - 1 }, 0)
    }
}

/// In `samples` (`f32` bit patterns), the index of the zero crossing
/// nearest to `center`; `None` when the window has no sign change.
pub fn nearest_zero_crossing(samples: &[u32], center: usize) -> (r: Option<usize>)
    ensures
        spec_nearest_zero_crossing(samples@, center as int) == match r {
            Some(i) => Some(i as int),
            None => None::<int>,
        },
        r matches Some(i) ==> 1 <= i < samples@.len() && crossing_at(samples@, i - 1),
        r matches Some(i) ==> forall|k: int|
            0 <= k < samples@.len() - 1 && #[trigger] crossing_at(samples@, k) ==> dist(k, center as int) >= dist(
                i - 1,
                center as int,
            ) || center >= samples@.len(),
        r is None ==> forall|k: int| 0 <= k < samples@.len() - 1 ==> !#[trigger] crossing_at(samples@, k),
{
    let n = samples.len();
    if n < 2 {
        return None;
    }
    let c = if center < n - 1 { center } else { n - 1 };
    let ghost s = samples@;
    let mut d: usize = 0;
    while d < n
        invariant
            n == s.len(),
            s == samples@,
            n >= 2,
            c < n,
            c as int == if center < n - 1 { center as int } else { n - 1 },
            d <= n,
            search_from(s, c as int, 0) == search_from(s, c as int, d as int),
            forall|e: int| 0 <= e < d ==> found_at(s, c as int, e) is None,
        decreases n - d,
    {
        let mut found: Option<usize> = None;
        if d + 1 < n - c && crossing(samples[c + d], samples[c + d + 1]) {
            found = Some(c + d + 1);
        } else if d <= c && c - d < n - 1 && crossing(samples[c - d], samples[c - d + 1]) {
            found = Some(c - d + 1);
        }
        assert(found_at(s, c as int, d as int) == match found {
            Some(i) => Some(i as int),
            None => None::<int>,
        });
        if let Some(i) = found {
            proof {
                assert forall|k: int| 0 <= k < s.len() - 1 && #[trigger] crossing_at(s, k) implies dist(k, c as int)
                    >= d by {
                    if dist(k, c as int) < d {
                        let e = dist(k, c as int);
                        if k >= c {
                            assert(found_at(s, c as int, e) is Some);
                        } else {
                            if !(c + e + 1 < s.len() && crossing_at(s, c + e)) {
                                assert(found_at(s, c as int, e) == Some(c - e + 1));
                            }
                        }
                    }
                }
            }
            return Some(i);
        }
        d += 1;
    }
    proof {
        assert forall|k: int| 0 <= k < s.len() - 1 implies !#[trigger] crossing_at(s, k) by {
            if crossing_at(s, k) {
                let e = dist(k, c as int);
                if k >= c {
                    assert(found_at(s, c as int, e) is Some);
                } else {
                    if !(c + e + 1 < s.len() && crossing_at(s, c + e)) {
                        assert(found_at(s, c as int, e) == Some(c - e + 1));
                    }
                }
            }
        }
    }
    None
}

fn crossing(a: u32, b: u32) -> (r: bool)
    ensures
        r == ((f32_not_positive(a) && f32_positive(b)) || (f32_non_negative(a) && f32_negative(b))),
{
    let a_not_pos = a == 0 || (0x8000_0000 <= a && a <= 0xff80_0000);
    let b_pos = 1 <= b && b <= 0x7f80_0000;
    let a_non_neg = a <= 0x7f80_0000 || a == 0x8000_0000;
    let b_neg = 0x8000_0001 <= b && b <= 0xff80_0000;
    (a_not_pos && b_pos) || (a_non_neg && b_neg)
}

/// Whether a clip covers a timeline position.
pub open spec fn covers(c: ClipInfo, position: u64) -> bool {
    c.start_sample <= position && position < clip_end(c)
}

/// The first of the first `n` clips covering `position`, or -1.
pub open spec fn first_covering(clips: Seq<ClipInfo>, position: u64, n: int) -> int
    decreases n,
{
    if n <= 0 {
        -1
    } else if first_covering(clips, position, n - 1) >= 0 {
        first_covering(clips, position, n - 1)
    } else if covers(clips[n - 1], position) {
        n - 1
    } else {
        -1
    }
}

proof fn lemma_first_covering_range(clips: Seq<ClipInfo>, position: u64, m: int)
    requires
        0 <= m <= clips.len(),
    ensures
        -1 <= first_covering(clips, position, m) < m,
    decreases m,
{
    if m > 0 {
        lemma_first_covering_range(clips, position, m - 1);
    }
}

proof fn lemma_first_covering_stable(clips: Seq<ClipInfo>, position: u64, n: int, m: int)
    requires
        0 <= n <= m <= clips.len(),
        first_covering(clips, position, n) >= 0,
    ensures
        first_covering(clips, position, m) == first_covering(clips, position, n),
    decreases m - n,
{
    if n < m {
        lemma_first_covering_stable(clips, position, n, m - 1);
    }
}

/// The clip a snap looks into: the first covering the position, else the
/// last clip.
pub open spec fn spec_snap_clip(clips: Seq<ClipInfo>, position: u64) -> Option<int> {
    let k = first_covering(clips, position, clips.len() as int);
    if k >= 0 {
        Some(k)
    } else if clips.len() > 0 {
        Some(clips.len() - 1)
    } else {
        None
    }
}

pub fn snap_clip(clips: &[ClipInfo], position: u64) -> (r: Option<usize>)
    requires
        clips_fit(clips@),
    ensures
        spec_snap_clip(clips@, position) == match r {
            Some(k) => Some(k as int),
            None => None::<int>,
        },
        r matches Some(k) ==> k < clips@.len(),
{
    let mut i: usize = 0;
    while i < clips.len()
        invariant
            i <= clips@.len(),
            clips_fit(clips@),
            first_covering(clips@, position, i as int) == -1,
        decreases clips@.len() - i,
    {
        let c = &clips[i];
        assert(clip_end(clips@[i as int]) <= u64::MAX);
        if c.start_sample <= position && position < c.start_sample + c.duration_samples {
            proof {
                lemma_first_covering_stable(clips@, position, i + 1, clips@.len() as int);
            }
            return Some(i);
        }
        i += 1;
    }
    proof {
        lemma_first_covering_range(clips@, position, clips@.len() as int);
    }
    if clips.len() > 0 {
        Some(clips.len() - 1)
    } else {
        None
    }
}

/// The timeline position a snap lands on: the crossing found in the
/// snap's clip (its local position, capped at the clip's length), or
/// the position itself when there is no clip or nothing was found.
pub open spec fn spec_snap(clips: Seq<ClipInfo>, position: u64, found: Option<u64>) -> nat {
    match spec_snap_clip(clips, position) {
        Some(k) => match found {
            Some(p) => (clips[k].start_sample + if p <= clips[k].duration_samples {
                p as nat
            } else {
                clips[k].duration_samples as nat
            }) as nat,
            None => position as nat,
        },
        None => position as nat,
    }
}

/// Snap a timeline position to the zero crossing `found` (at a local
/// position of the clip `snap_clip` names; `None` when decoding the
/// window found none). Snapping is best effort: never an error.
pub fn snap_to_zero_crossing(clips: &[ClipInfo], position: u64, found: Option<u64>) -> (r: u64)
    requires
        clips_fit(clips@),
    ensures
        r == spec_snap(clips@, position, found),
{
    let sc = snap_clip(clips, position);
    match sc {
        Some(k) => match found {
            Some(p) => {
                let c = &clips[k];
                assert(clip_end(clips@[k as int]) <= u64::MAX);
                c.start_sample + if p <= c.duration_samples { p } else { c.duration_samples }
            },
            None => position,
        },
        None => position,
    }
}

/// Half-width of the window decoded around a snap position, in samples:
/// `window_ms` at the file's rate, at least 64.
pub open spec fn spec_snap_half_window(window_ms: u32, sample_rate: u32) -> nat {
    let w = (window_ms as nat) * (sample_rate as nat) / 1000;
    if w >= 64 {
        w
    } else {
        64
    }
}

/// The window decoded around a local position: (first sample, end).
pub fn snap_window(position: u64, window_ms: u32, sample_rate: u32) -> (r: (u64, u64))
    requires
        position + spec_snap_half_window(window_ms, sample_rate) <= u64::MAX,
    ensures
        r.0 == if position >= spec_snap_half_window(window_ms, sample_rate) {
            position - spec_snap_half_window(window_ms, sample_rate)
        } else {
            0
        },
        r.1 == position + spec_snap_half_window(window_ms, sample_rate),
{
    assert((window_ms as u64) * (sample_rate as u64) <= 0xffff_ffff * 0xffff_ffff) by (nonlinear_arith);
    let w0 = (window_ms as u64) * (sample_rate as u64) / 1000;
    let w = if w0 >= 64 { w0 } else { 64 };
    let start = if position >= w { position - w } else { 0 };
    (start, position + w)
}

/// The crossing of a decoded window as a local position: `samples` (the
/// mono mix, `f32` bits) start at `window_start`, the search centred on
/// the position (a centre past the window counts as its end); nothing
/// when the window is empty or starts after the position.
pub open spec fn spec_window_crossing(samples: Seq<u32>, position: u64, window_start: u64) -> Option<nat> {
    if samples.len() == 0 || position < window_start {
        None
    } else {
        let offset = position - window_start;
        match spec_nearest_zero_crossing(samples, if offset < samples.len() { offset } else { samples.len() as int }) {
            Some(i) => Some((window_start + i) as nat),
            None => None,
        }
    }
}

pub fn window_crossing(samples: &[u32], position: u64, window_start: u64) -> (r: Option<u64>)
    requires
        window_start + samples@.len() <= u64::MAX,
    ensures
        match spec_window_crossing(samples@, position, window_start) {
            Some(p) => r == Some(p as u64),
            None => r is None,
        },
{
    if samples.len() == 0 || position < window_start {
        return None;
    }
    let offset = position - window_start;
    let center: usize = if offset < samples.len() as u64 { offset as usize } else { samples.len() };
    let found = nearest_zero_crossing(samples, center);
    assert(center as int == if offset < samples@.len() { offset as int } else { samples@.len() as int });
    match found {
        Some(i) => Some(window_start + i as u64),
        None => None,
    }
}


// ---------------------------------------------------------------------------
// Accepted source files.

/// The file extensions (lower case) the importer accepts.
pub open spec fn supported_extension(ext: Seq<char>) -> bool {
    ext == "wav"@ || ext == "flac"@ || ext == "mp3"@ || ext == "aiff"@ || ext == "aif"@
}

pub fn is_supported_extension(ext: &str) -> (r: bool)
    ensures
        r == supported_extension(ext@),
{
    let e = String::from_str(ext);
    e == String::from_str("wav") || e == String::from_str("flac") || e == String::from_str("mp3")
        || e == String::from_str("aiff") || e == String::from_str("aif")
}

/// What importing a file of another type is answered.
pub open spec fn unsupported_message(ext: Seq<char>) -> Seq<char> {
    "Unsupported file type \"."@ + ext + "\". Supported formats: WAV, FLAC, MP3, AIFF."@
}

/// Accept a file by its (lower-case) extension.
pub fn check_extension(ext: &str) -> (r: Result<(), String>)
    ensures
        supported_extension(ext@) ==> r is Ok,
        !supported_extension(ext@) ==> (r matches Err(m) && m@ == unsupported_message(ext@)),
{
    if is_supported_extension(ext) {
        Ok(())
    } else {
        let mut m: Vec<char> = chars_of("Unsupported file type \".");
        extend_str(&mut m, ext);
        extend_str(&mut m, "\". Supported formats: WAV, FLAC, MP3, AIFF.");
        Err(string_of(m.as_slice()))
    }
}

/// The first of `exts` from index `k` on that is not supported, if any.
pub open spec fn first_unsupported(exts: Seq<Seq<char>>, k: int) -> Option<Seq<char>>
    decreases exts.len() - k,
{
    if k < 0 || k >= exts.len() {
        None
    } else if !supported_extension(exts[k]) {
        Some(exts[k])
    } else {
        first_unsupported(exts, k + 1)
    }
}

/// The texts of a list of strings.
pub open spec fn ext_texts(v: Seq<String>) -> Seq<Seq<char>> {
    v.map_values(|s: String| s@)
}

/// Accept a set of (lower-case) extensions: the first unsupported one is
/// refused.
pub fn check_extension_list(exts: &Vec<String>) -> (r: Result<(), String>)
    ensures
        match first_unsupported(ext_texts(exts@), 0) {
            None => r is Ok,
            Some(e) => r matches Err(m) && m@ == unsupported_message(e),
        },
{
    let ghost all = ext_texts(exts@);
    let mut i: usize = 0;
    while i < exts.len()
        invariant
            i <= exts@.len(),
            all == ext_texts(exts@),
            first_unsupported(all, i as int) == first_unsupported(all, 0),
        decreases exts@.len() - i,
    {
        assert(all[i as int] == exts@[i as int]@);
        match check_extension(exts[i].as_str()) {
            Ok(()) => {},
            Err(m) => {
                return Err(m);
            },
        }
        i += 1;
    }
    Ok(())
}

/// `ext` is what the importer reads as the extension of `path`: nothing,
/// or the lower case of a piece of the path.
pub open spec fn read_extension(ext: Seq<char>, path: Seq<char>) -> bool {
    &&& ext.len() == 0 || exists|piece: Seq<char>| path_piece(piece, path) && ext == #[trigger] lowercase(piece)
    &&& plain_path(path) ==> ext == match spec_extension(path) {
        Some(e) => lowercase(e),
        None => Seq::<char>::empty(),
    }
}

/// `exts` holds what the importer reads as the extension of each path.
pub open spec fn extensions_read(exts: Seq<Seq<char>>, paths: Seq<String>) -> bool {
    &&& exts.len() == paths.len()
    &&& forall|i: int| 0 <= i < exts.len() ==> read_extension(#[trigger] exts[i], paths[i]@)
}

/// Accept a set of files to import by their extensions (ignoring case):
/// the first unsupported one is refused with its extension.
pub fn check_extensions(paths: &Vec<String>) -> (r: Result<(), String>)
    ensures
        exists|exts: Seq<Seq<char>>|
            {
                &&& #[trigger] extensions_read(exts, paths@)
                &&& match first_unsupported(exts, 0) {
                    None => r is Ok,
                    Some(e) => r matches Err(m) && m@ == unsupported_message(e),
                }
            },
{
    let mut exts: Vec<String> = Vec::new();
    let mut i: usize = 0;
    while i < paths.len()
        invariant
            i <= paths@.len(),
            exts@.len() == i,
            forall|k: int| 0 <= k < i ==> read_extension(#[trigger] exts@[k]@, paths@[k]@),
        decreases paths@.len() - i,
    {
        let ext = match path_extension(paths[i].as_str()) {
            Some(e) => to_lowercase(e.as_str()),
            None => String::new(),
        };
        exts.push(ext);
        i += 1;
    }
    let r = check_extension_list(&exts);
    proof {
        let t = ext_texts(exts@);
        assert forall|k: int| 0 <= k < t.len() implies read_extension(#[trigger] t[k], paths@[k]@) by {
            assert(t[k] == exts@[k]@);
        }
        assert(extensions_read(t, paths@));
    }
    r
}

} // verus!
