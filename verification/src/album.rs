//! The delivered album: tracks in order with the resolved gaps between
//! them, and per-layer playlists of that program. Everything here is
//! derived from the recipe; the source timeline is never touched.

use vstd::prelude::*;
use crate::project::TrackInfo;
use crate::timeline::{AudioInfo, ClipInfo, clip_end, clips_fit};

verus! {

#[derive(Debug, Clone, PartialEq, Eq)]
pub struct AlbumTrack {
    /// Region id (stable key).
    pub id: u32,
    pub number: u32,
    pub title: String,
    /// Start position in album time (samples at the session rate).
    pub start_sample: u64,
    pub length_samples: u64,
    /// Resolved gap before this track (0 for track 1), in ms.
    pub gap_before_ms: u32,
}

#[derive(Debug, Clone, PartialEq, Eq)]
pub struct AlbumLayout {
    pub tracks: Vec<AlbumTrack>,
    pub total_samples: u64,
}

/// Samples in a gap of `ms` milliseconds (rounded down).
pub open spec fn gap_len(ms: u32, sample_rate: u32) -> nat {
    (ms * sample_rate / 1000) as nat
}

pub fn gap_samples(ms: u32, sample_rate: u32) -> (r: u64)
    ensures
        r == gap_len(ms, sample_rate),
{
    proof {
        assert(ms * sample_rate <= 0xffff_ffff * 0xffff_ffff) by (nonlinear_arith)
            requires
                ms <= 0xffff_ffff,
                sample_rate <= 0xffff_ffff,
        ;
    }
    ms as u64 * sample_rate as u64 / 1000
}

/// Length of a track's source span (an inverted span counts as empty).
pub open spec fn span_len(t: TrackInfo) -> nat {
    if t.end_sample >= t.start_sample {
        (t.end_sample - t.start_sample) as nat
    } else {
        0
    }
}

/// Album time after the first `k` tracks, each preceded by its gap.
pub open spec fn layout_end(tracks: Seq<TrackInfo>, sample_rate: u32, k: int) -> nat
    decreases k,
{
    if k <= 0 {
        0
    } else {
        layout_end(tracks, sample_rate, k - 1) + gap_len(
            tracks[k - 1].gap_before_effective_ms,
            sample_rate,
        ) + span_len(tracks[k - 1])
    }
}

proof fn lemma_layout_end_mono(tracks: Seq<TrackInfo>, sample_rate: u32, j: int, k: int)
    requires
        0 <= j <= k,
    ensures
        layout_end(tracks, sample_rate, j) <= layout_end(tracks, sample_rate, k),
    decreases k - j,
{
    if j < k {
        lemma_layout_end_mono(tracks, sample_rate, j, k - 1);
    }
}

/// Track `k` of the layout of `tracks`.
pub open spec fn album_track(tracks: Seq<TrackInfo>, sample_rate: u32, k: int) -> AlbumTrack {
    let t = tracks[k];
    AlbumTrack {
        id: t.id,
        number: t.number,
        title: t.title,
        start_sample: (layout_end(tracks, sample_rate, k) + gap_len(
            t.gap_before_effective_ms,
            sample_rate,
        )) as u64,
        length_samples: span_len(t) as u64,
        gap_before_ms: t.gap_before_effective_ms,
    }
}

/// The shape of the album program: each track is exactly as long as its
/// source span (nothing when the span is inverted; its gap is not part of
/// it); the first track starts after its own gap, and each next track
/// starts where the previous one ends plus its gap; the program ends where
/// the last track ends.
pub proof fn law_layout_tracks_and_gaps(tracks: Seq<TrackInfo>, sample_rate: u32)
    requires
        layout_end(tracks, sample_rate, tracks.len() as int) <= u64::MAX,
    ensures
        forall|k: int|
            0 <= k < tracks.len() ==> (#[trigger] album_track(tracks, sample_rate, k)).length_samples
                == if tracks[k].end_sample >= tracks[k].start_sample {
                tracks[k].end_sample - tracks[k].start_sample
            } else {
                0
            },
        tracks.len() > 0 ==> album_track(tracks, sample_rate, 0).start_sample
            == tracks[0].gap_before_effective_ms * sample_rate / 1000,
        forall|k: int|
            0 <= k < tracks.len() - 1 ==> (#[trigger] album_track(tracks, sample_rate, k + 1)).start_sample
                == album_track(tracks, sample_rate, k).start_sample + album_track(
                tracks,
                sample_rate,
                k,
            ).length_samples + tracks[k + 1].gap_before_effective_ms * sample_rate / 1000,
        tracks.len() > 0 ==> layout_end(tracks, sample_rate, tracks.len() as int) == album_track(
            tracks,
            sample_rate,
            tracks.len() - 1,
        ).start_sample + album_track(tracks, sample_rate, tracks.len() - 1).length_samples,
{
    let n = tracks.len() as int;
    if n > 0 {
        lemma_layout_end_mono(tracks, sample_rate, 1, n);
    }
    assert forall|k: int| 0 <= k < n - 1 implies (#[trigger] album_track(tracks, sample_rate, k + 1)).start_sample
        == album_track(tracks, sample_rate, k).start_sample + album_track(tracks, sample_rate, k).length_samples
        + tracks[k + 1].gap_before_effective_ms * sample_rate / 1000 by {
        lemma_layout_end_mono(tracks, sample_rate, k + 2, n);
        assert(layout_end(tracks, sample_rate, k + 2) <= u64::MAX);
    }
}

/// Lay the tracks out in album time: each track preceded by its resolved
/// gap, the first one at its gap (0 for a first track without gap).
pub fn album_layout(tracks: &[TrackInfo], sample_rate: u32) -> (r: AlbumLayout)
    requires
        layout_end(tracks@, sample_rate, tracks@.len() as int) <= u64::MAX,
    ensures
        r.tracks@.len() == tracks@.len(),
        forall|k: int|
            0 <= k < tracks@.len() ==> #[trigger] r.tracks@[k] == album_track(
                tracks@,
                sample_rate,
                k,
            ),
        r.total_samples == layout_end(tracks@, sample_rate, tracks@.len() as int),
{
    let mut pos: u64 = 0;
    let mut out: Vec<AlbumTrack> = Vec::new();
    let mut i: usize = 0;
    while i < tracks.len()
        invariant
            i <= tracks@.len(),
            layout_end(tracks@, sample_rate, tracks@.len() as int) <= u64::MAX,
            pos == layout_end(tracks@, sample_rate, i as int),
            out@.len() == i,
            forall|k: int| 0 <= k < i ==> #[trigger] out@[k] == album_track(tracks@, sample_rate, k),
        decreases tracks@.len() - i,
    {
        let t = &tracks[i];
        proof {
            lemma_layout_end_mono(tracks@, sample_rate, i + 1, tracks@.len() as int);
        }
        pos = pos + gap_samples(t.gap_before_effective_ms, sample_rate);
        let len = t.end_sample.saturating_sub(t.start_sample);
        out.push(
            AlbumTrack {
                id: t.id,
                number: t.number,
                title: t.title.clone(),
                start_sample: pos,
                length_samples: len,
                gap_before_ms: t.gap_before_effective_ms,
            },
        );
        pos = pos + len;
        i += 1;
    }
    AlbumLayout { tracks: out, total_samples: pos }
}

/// One item of a layer's album program: silence, or a slice of a source
/// file starting `source_offset` samples into the file.
#[derive(Debug, Clone, PartialEq, Eq)]
pub enum AlbumItem {
    Gap { samples: u64 },
    Slice { path: String, source_offset: u64, samples: u64 },
}

pub open spec fn item_len(it: AlbumItem) -> nat {
    match it {
        AlbumItem::Gap { samples } => samples as nat,
        AlbumItem::Slice { samples, .. } => samples as nat,
    }
}

/// Total program length of a playlist.
pub open spec fn items_len(items: Seq<AlbumItem>) -> nat
    decreases items.len(),
{
    if items.len() == 0 {
        0
    } else {
        items_len(items.drop_last()) + item_len(items.last())
    }
}

/// Append `n` samples of silence, merged into a trailing gap; nothing for
/// an empty gap.
pub open spec fn push_gap(items: Seq<AlbumItem>, n: nat) -> Seq<AlbumItem> {
    if n == 0 {
        items
    } else if items.len() > 0 && items.last() is Gap {
        items.drop_last().push(AlbumItem::Gap { samples: (items.last()->Gap_samples + n) as u64 })
    } else {
        items.push(AlbumItem::Gap { samples: n as u64 })
    }
}

/// The walk over a layer's clips from clip `j` across `[cursor, e)`,
/// filling holes with silence.
pub open spec fn walk(clips: Seq<ClipInfo>, j: int, cursor: nat, e: nat, items: Seq<AlbumItem>) -> Seq<
    AlbumItem,
>
    decreases clips.len() - j,
{
    if j < 0 || j >= clips.len() {
        if cursor < e {
            push_gap(items, (e - cursor) as nat)
        } else {
            items
        }
    } else {
        let c = clips[j];
        let cs = c.start_sample as nat;
        let ce = clip_end(c);
        if ce <= cursor || cs >= e {
            walk(clips, j + 1, cursor, e, items)
        } else {
            let seg_start = if cursor >= cs {
                cursor
            } else {
                cs
            };
            let with_gap = if seg_start > cursor {
                push_gap(items, (seg_start - cursor) as nat)
            } else {
                items
            };
            let seg_end = if ce <= e {
                ce
            } else {
                e
            };
            let slice = AlbumItem::Slice {
                path: c.path,
                source_offset: (seg_start - cs) as u64,
                samples: (seg_end - seg_start) as u64,
            };
            walk(clips, j + 1, seg_end, e, with_gap.push(slice))
        }
    }
}

/// A layer's playlist over the first `k` tracks.
pub open spec fn lane(
    clips: Seq<ClipInfo>,
    tracks: Seq<AlbumTrack>,
    spans: Seq<(u64, u64)>,
    sample_rate: u32,
    k: int,
) -> Seq<AlbumItem>
    decreases k,
{
    if k <= 0 {
        seq![]
    } else {
        let before = push_gap(
            lane(clips, tracks, spans, sample_rate, k - 1),
            gap_len(tracks[k - 1].gap_before_ms, sample_rate),
        );
        walk(clips, 0, spans[k - 1].0 as nat, spans[k - 1].1 as nat, before)
    }
}

/// Program length of the first `k` tracks: gaps plus source spans.
pub open spec fn program_len(
    tracks: Seq<AlbumTrack>,
    spans: Seq<(u64, u64)>,
    sample_rate: u32,
    k: int,
) -> nat
    decreases k,
{
    if k <= 0 {
        0
    } else {
        program_len(tracks, spans, sample_rate, k - 1) + gap_len(
            tracks[k - 1].gap_before_ms,
            sample_rate,
        ) + (spans[k - 1].1 - spans[k - 1].0) as nat
    }
}

/// Number of tracks that get a playlist entry (the shorter list wins).
pub open spec fn paired(layout: AlbumLayout, spans: Seq<(u64, u64)>) -> int {
    if layout.tracks@.len() <= spans.len() {
        layout.tracks@.len() as int
    } else {
        spans.len() as int
    }
}

/// Inputs `album_playlists` accepts: spans in order, every clip end
/// representable, and every lane's length representable.
pub open spec fn playlists_fit(info: AudioInfo, layout: AlbumLayout, spans: Seq<(u64, u64)>) -> bool {
    &&& forall|k: int| 0 <= k < spans.len() ==> (#[trigger] spans[k]).0 <= spans[k].1
    &&& forall|l: int| 0 <= l < info.layers@.len() ==> clips_fit(#[trigger] info.layers@[l].clips@)
    &&& program_len(layout.tracks@, spans, info.sample_rate, paired(layout, spans)) <= u64::MAX
}

proof fn lemma_items_len_push(items: Seq<AlbumItem>, it: AlbumItem)
    ensures
        items_len(items.push(it)) == items_len(items) + item_len(it),
{
    assert(items.push(it).drop_last() =~= items);
}

proof fn lemma_push_gap_len(items: Seq<AlbumItem>, n: nat)
    requires
        items_len(items) + n <= u64::MAX,
    ensures
        items_len(push_gap(items, n)) == items_len(items) + n,
{
    if n == 0 {
    } else if items.len() > 0 && items.last() is Gap {
        let d = items.drop_last();
        lemma_items_len_push(d, AlbumItem::Gap { samples: (items.last()->Gap_samples + n) as u64 });
    } else {
        lemma_items_len_push(items, AlbumItem::Gap { samples: n as u64 });
    }
}

proof fn lemma_walk_len(clips: Seq<ClipInfo>, j: int, cursor: nat, e: nat, items: Seq<AlbumItem>)
    requires
        0 <= j,
        cursor <= e,
        clips_fit(clips),
        items_len(items) + (e - cursor) <= u64::MAX,
    ensures
        items_len(walk(clips, j, cursor, e, items)) == items_len(items) + (e - cursor),
    decreases clips.len() - j,
{
    if j >= clips.len() {
        if cursor < e {
            lemma_push_gap_len(items, (e - cursor) as nat);
        }
    } else {
        let c = clips[j];
        let cs = c.start_sample as nat;
        let ce = clip_end(c);
        if ce <= cursor || cs >= e {
            lemma_walk_len(clips, j + 1, cursor, e, items);
        } else {
            let seg_start = if cursor >= cs {
                cursor
            } else {
                cs
            };
            let with_gap = if seg_start > cursor {
                push_gap(items, (seg_start - cursor) as nat)
            } else {
                items
            };
            if seg_start > cursor {
                lemma_push_gap_len(items, (seg_start - cursor) as nat);
            }
            let seg_end = if ce <= e {
                ce
            } else {
                e
            };
            let slice = AlbumItem::Slice {
                path: c.path,
                source_offset: (seg_start - cs) as u64,
                samples: (seg_end - seg_start) as u64,
            };
            lemma_items_len_push(with_gap, slice);
            lemma_walk_len(clips, j + 1, seg_end, e, with_gap.push(slice));
        }
    }
}

proof fn lemma_program_len_mono(
    tracks: Seq<AlbumTrack>,
    spans: Seq<(u64, u64)>,
    sample_rate: u32,
    j: int,
    k: int,
)
    requires
        0 <= j <= k,
    ensures
        program_len(tracks, spans, sample_rate, j) <= program_len(tracks, spans, sample_rate, k),
    decreases k - j,
{
    if j < k {
        lemma_program_len_mono(tracks, spans, sample_rate, j, k - 1);
    }
}

proof fn lemma_lane_len(
    clips: Seq<ClipInfo>,
    tracks: Seq<AlbumTrack>,
    spans: Seq<(u64, u64)>,
    sample_rate: u32,
    k: int,
)
    requires
        0 <= k <= spans.len(),
        k <= tracks.len(),
        forall|i: int| 0 <= i < spans.len() ==> (#[trigger] spans[i]).0 <= spans[i].1,
        clips_fit(clips),
        program_len(tracks, spans, sample_rate, k) <= u64::MAX,
    ensures
        items_len(lane(clips, tracks, spans, sample_rate, k)) == program_len(
            tracks,
            spans,
            sample_rate,
            k,
        ),
    decreases k,
{
    if k > 0 {
        lemma_program_len_mono(tracks, spans, sample_rate, k - 1, k);
        lemma_lane_len(clips, tracks, spans, sample_rate, k - 1);
        let prev = lane(clips, tracks, spans, sample_rate, k - 1);
        let g = gap_len(tracks[k - 1].gap_before_ms, sample_rate);
        lemma_push_gap_len(prev, g);
        let sp = spans[k - 1];
        lemma_walk_len(clips, 0, sp.0 as nat, sp.1 as nat, push_gap(prev, g));
    }
}

/// Append silence to a playlist, merging it into a trailing gap.
fn push_gap_exec(items: &mut Vec<AlbumItem>, samples: u64)
    requires
        items_len(old(items)@) + samples <= u64::MAX,
    ensures
        final(items)@ == push_gap(old(items)@, samples as nat),
        items_len(final(items)@) == items_len(old(items)@) + samples,
{
    proof {
        lemma_push_gap_len(items@, samples as nat);
    }
    if samples == 0 {
        return ;
    }
    let n = items.len();
    if n > 0 {
        let merged: Option<u64> = match &items[n - 1] {
            AlbumItem::Gap { samples: g } => Some(*g),
            AlbumItem::Slice { .. } => None,
        };
        if let Some(g) = merged {
            proof {
                assert(items@.drop_last().push(items@.last()) =~= items@);
                lemma_items_len_push(items@.drop_last(), items@.last());
            }
            items.pop();
            items.push(AlbumItem::Gap { samples: g + samples });
            return ;
        }
    }
    items.push(AlbumItem::Gap { samples });
}

/// Per-layer album playlists: for each track in album order, its gap,
/// then the layer's clips across the track's source span, with silence
/// wherever the layer has no clip under the track. `spans` are the
/// tracks' source spans, in the order of the layout's tracks.
pub fn album_playlists(info: &AudioInfo, layout: &AlbumLayout, spans: &[(u64, u64)]) -> (r: Vec<
    Vec<AlbumItem>,
>)
    requires
        playlists_fit(*info, *layout, spans@),
    ensures
        r@.len() == info.layers@.len(),
        forall|l: int|
            0 <= l < r@.len() ==> (#[trigger] r@[l])@ == lane(
                info.layers@[l].clips@,
                layout.tracks@,
                spans@,
                info.sample_rate,
                paired(*layout, spans@),
            ),
        forall|l: int|
            0 <= l < r@.len() ==> items_len((#[trigger] r@[l])@) == program_len(
                layout.tracks@,
                spans@,
                info.sample_rate,
                paired(*layout, spans@),
            ),
{
    let mut out: Vec<Vec<AlbumItem>> = Vec::new();
    let ntracks: usize = if layout.tracks.len() <= spans.len() {
        layout.tracks.len()
    } else {
        spans.len()
    };
    let sr = info.sample_rate;
    let mut li: usize = 0;
    while li < info.layers.len()
        invariant
            li <= info.layers@.len(),
            playlists_fit(*info, *layout, spans@),
            ntracks == paired(*layout, spans@),
            sr == info.sample_rate,
            out@.len() == li,
            forall|l: int|
                0 <= l < li ==> (#[trigger] out@[l])@ == lane(
                    info.layers@[l].clips@,
                    layout.tracks@,
                    spans@,
                    sr,
                    ntracks as int,
                ),
        decreases info.layers@.len() - li,
    {
        let clips = &info.layers[li].clips;
        let ghost cl = clips@;
        assert(clips_fit(cl));
        let mut items: Vec<AlbumItem> = Vec::new();
        let mut k: usize = 0;
        while k < ntracks
            invariant
                k <= ntracks,
                ntracks == paired(*layout, spans@),
                ntracks <= spans@.len(),
                ntracks <= layout.tracks@.len(),
                forall|i: int| 0 <= i < spans@.len() ==> (#[trigger] spans@[i]).0 <= spans@[i].1,
                clips_fit(cl),
                cl == clips@,
                program_len(layout.tracks@, spans@, sr, ntracks as int) <= u64::MAX,
                items@ == lane(cl, layout.tracks@, spans@, sr, k as int),
            decreases ntracks - k,
        {
            proof {
                lemma_program_len_mono(layout.tracks@, spans@, sr, k + 1, ntracks as int);
                lemma_lane_len(cl, layout.tracks@, spans@, sr, k as int);
            }
            let g = gap_samples(layout.tracks[k].gap_before_ms, sr);
            push_gap_exec(&mut items, g);
            let (s, e) = spans[k];
            let ghost before = items@;
            let mut cursor = s;
            let mut j: usize = 0;
            while j < clips.len()
                invariant
                    j <= cl.len(),
                    cl == clips@,
                    clips_fit(cl),
                    s <= cursor <= e,
                    items_len(items@) + (e - cursor) <= u64::MAX,
                    walk(cl, j as int, cursor as nat, e as nat, items@) == walk(
                        cl,
                        0,
                        s as nat,
                        e as nat,
                        before,
                    ),
                decreases cl.len() - j,
            {
                let c = &clips[j];
                let cs = c.start_sample;
                let ce = cs + c.duration_samples;
                if ce <= cursor || cs >= e {
                    j += 1;
                    continue;
                }
                let seg_start = if cursor >= cs {
                    cursor
                } else {
                    cs
                };
                if seg_start > cursor {
                    push_gap_exec(&mut items, seg_start - cursor);
                }
                let seg_end = if ce <= e {
                    ce
                } else {
                    e
                };
                let slice = AlbumItem::Slice {
                    path: c.path.clone(),
                    source_offset: seg_start - cs,
                    samples: seg_end - seg_start,
                };
                proof {
                    lemma_items_len_push(items@, slice);
                }
                items.push(slice);
                cursor = seg_end;
                j += 1;
            }
            if cursor < e {
                push_gap_exec(&mut items, e - cursor);
            }
            k += 1;
        }
        out.push(items);
        li += 1;
    }
    proof {
        assert forall|l: int| 0 <= l < out@.len() implies items_len((#[trigger] out@[l])@)
            == program_len(layout.tracks@, spans@, sr, ntracks as int) by {
            assert(clips_fit(info.layers@[l].clips@));
            lemma_lane_len(info.layers@[l].clips@, layout.tracks@, spans@, sr, ntracks as int);
        }
    }
    out
}

/// Each lane of the album playlists lasts exactly as long as the album
/// layout: when the spans are the tracks' own source spans, the program
/// length of the first `k` tracks (gaps plus spans) is the layout's album
/// time after them.
pub proof fn law_lanes_match_layout(
    tracks: Seq<TrackInfo>,
    sample_rate: u32,
    layout_tracks: Seq<AlbumTrack>,
    spans: Seq<(u64, u64)>,
    k: int,
)
    requires
        0 <= k <= tracks.len(),
        k <= layout_tracks.len(),
        k <= spans.len(),
        forall|i: int|
            0 <= i < k ==> #[trigger] layout_tracks[i] == album_track(tracks, sample_rate, i),
        forall|i: int|
            0 <= i < k ==> #[trigger] spans[i] == (tracks[i].start_sample, tracks[i].end_sample),
        forall|i: int| 0 <= i < k ==> (#[trigger] tracks[i]).start_sample <= tracks[i].end_sample,
    ensures
        program_len(layout_tracks, spans, sample_rate, k) == layout_end(tracks, sample_rate, k),
    decreases k,
{
    if k > 0 {
        law_lanes_match_layout(tracks, sample_rate, layout_tracks, spans, k - 1);
        assert(layout_tracks[k - 1] == album_track(tracks, sample_rate, k - 1));
        assert(spans[k - 1] == (tracks[k - 1].start_sample, tracks[k - 1].end_sample));
        assert(tracks[k - 1].start_sample <= tracks[k - 1].end_sample);
    }
}

} // verus!
