//! Track proposals from silence: the sound spans between qualifying
//! silences of the mix's peak data (leading and trailing silence and the
//! gaps between tracks are left out).

use vstd::prelude::*;
use crate::peaks::{PeakLevel, PeakPyramid};
use crate::project::RegionSpan;

verus! {

/// Silence detection settings. The level under which a bucket counts as
/// silent is given on the `i8` peak scale: a bucket is silent when every
/// channel's peaks stay strictly below `silent_below` in magnitude.
#[derive(Debug, Clone, Copy, PartialEq, Eq)]
pub struct SilenceParams {
    pub silent_below: u16,
    /// Minimum silence length for a gap to separate two tracks.
    pub min_silence_ms: u32,
    /// Sound spans shorter than this are not proposed as tracks.
    pub min_track_seconds: u32,
}

pub open spec fn abs8(x: i8) -> int {
    if x < 0 {
        -x
    } else {
        x as int
    }
}

/// Bucket `b` of one channel peaks strictly below `below`.
pub open spec fn channel_quiet(ch: Seq<i8>, b: int, below: int) -> bool {
    abs8(ch[2 * b]) < below && abs8(ch[2 * b + 1]) < below
}

/// Bucket `b` is silent in every channel.
pub open spec fn bucket_silent(chs: Seq<Seq<i8>>, b: int, below: int) -> bool {
    forall|c: int| 0 <= c < chs.len() ==> channel_quiet(#[trigger] chs[c], b, below)
}

/// What the scan needs from its inputs.
pub struct Scan {
    pub chs: Seq<Seq<i8>>,
    pub below: int,
    pub spb: nat,
    pub dur: nat,
    pub min_silence: nat,
    pub count: int,
}

/// The qualifying silence runs found from bucket `b` on, with a run
/// open since `run` if any: a run qualifies when it is long enough or
/// touches either edge of the file.
pub open spec fn runs(sc: Scan, b: int, run: Option<int>) -> Seq<(u64, u64)>
    decreases sc.count + 1 - b,
{
    if b < 0 || b > sc.count {
        seq![]
    } else {
        let silent = b < sc.count && bucket_silent(sc.chs, b, sc.below);
        if silent && run is None {
            runs(sc, b + 1, Some(b))
        } else if !silent && run is Some {
            let st = run->0;
            let s = st * sc.spb;
            let e = if b * sc.spb <= sc.dur {
                b * sc.spb
            } else {
                sc.dur as int
            };
            let keep = e - s >= sc.min_silence || st == 0 || b == sc.count;
            let rest = runs(sc, b + 1, None);
            if keep {
                seq![(s as u64, e as u64)] + rest
            } else {
                rest
            }
        } else {
            runs(sc, b + 1, run)
        }
    }
}

/// The sound spans between silences `sil[i..]`, from `cursor` to `dur`.
pub open spec fn sound_spans(sil: Seq<(u64, u64)>, dur: u64, i: int, cursor: u64) -> Seq<RegionSpan>
    decreases sil.len() - i,
{
    if i < 0 || i >= sil.len() {
        if cursor < dur {
            seq![RegionSpan { start: cursor, end: dur }]
        } else {
            seq![]
        }
    } else {
        let (s, e) = sil[i];
        let head = if s > cursor {
            seq![RegionSpan { start: cursor, end: s }]
        } else {
            seq![]
        };
        head + sound_spans(
            sil,
            dur,
            i + 1,
            if cursor >= e {
                cursor
            } else {
                e
            },
        )
    }
}

/// The spans at least `min` long, in order.
pub open spec fn long_enough(spans: Seq<RegionSpan>, min: nat) -> Seq<RegionSpan>
    decreases spans.len(),
{
    if spans.len() == 0 {
        spans
    } else {
        let p = long_enough(spans.drop_last(), min);
        if spans.last().end - spans.last().start >= min {
            p.push(spans.last())
        } else {
            p
        }
    }
}

/// Spans in order, each non-empty, none overlapping the next, all within
/// `[0, dur]`.
pub open spec fn ordered_spans(spans: Seq<RegionSpan>, dur: u64) -> bool {
    &&& forall|i: int| 0 <= i < spans.len() ==> (#[trigger] spans[i]).start < spans[i].end <= dur
    &&& forall|i: int, j: int|
        0 <= i < j < spans.len() ==> (#[trigger] spans[i]).end <= (#[trigger] spans[j]).start
}

/// Silence runs in the scan's shape: each `s <= e <= dur`.
pub open spec fn runs_shape(sil: Seq<(u64, u64)>, dur: u64) -> bool {
    forall|k: int| 0 <= k < sil.len() ==> (#[trigger] sil[k]).0 <= sil[k].1 <= dur
}

proof fn lemma_sound_spans(sil: Seq<(u64, u64)>, dur: u64, i: int, cursor: u64)
    requires
        0 <= i,
        runs_shape(sil, dur),
    ensures
        ordered_spans(sound_spans(sil, dur, i, cursor), dur),
        forall|k: int|
            0 <= k < sound_spans(sil, dur, i, cursor).len() ==> cursor <= (#[trigger] sound_spans(
                sil,
                dur,
                i,
                cursor,
            )[k]).start,
    decreases sil.len() - i,
{
    if i < sil.len() {
        let (s, e) = sil[i];
        let next = if cursor >= e {
            cursor
        } else {
            e
        };
        lemma_sound_spans(sil, dur, i + 1, next);
        let rest = sound_spans(sil, dur, i + 1, next);
        let head = if s > cursor {
            seq![RegionSpan { start: cursor, end: s }]
        } else {
            seq![]
        };
        let all = head + rest;
        assert(sil[i] == (s, e));
        assert forall|k: int| 0 <= k < all.len() implies (#[trigger] all[k]).start < all[k].end
            <= dur && cursor <= all[k].start by {
            if k >= head.len() {
                assert(all[k] == rest[k - head.len()]);
            }
        }
        assert forall|a: int, b: int| 0 <= a < b < all.len() implies (#[trigger] all[a]).end
            <= (#[trigger] all[b]).start by {
            if a >= head.len() {
                assert(all[a] == rest[a - head.len()]);
                assert(all[b] == rest[b - head.len()]);
            } else {
                assert(all[b] == rest[b - head.len()]);
            }
        }
    }
}

proof fn lemma_long_enough(spans: Seq<RegionSpan>, min: nat, dur: u64)
    requires
        ordered_spans(spans, dur),
    ensures
        ordered_spans(long_enough(spans, min), dur),
        forall|k: int|
            0 <= k < long_enough(spans, min).len() ==> (#[trigger] long_enough(spans, min)[k]).end
                - long_enough(spans, min)[k].start >= min,
        forall|k: int|
            0 <= k < long_enough(spans, min).len() ==> spans.contains(
                #[trigger] long_enough(spans, min)[k],
            ),
    decreases spans.len(),
{
    if spans.len() > 0 {
        let d = spans.drop_last();
        assert forall|i: int, j: int| 0 <= i < j < d.len() implies (#[trigger] d[i]).end
            <= (#[trigger] d[j]).start by {
            assert(d[i] == spans[i] && d[j] == spans[j]);
        }
        assert forall|i: int| 0 <= i < d.len() implies (#[trigger] d[i]).start < d[i].end <= dur by {
            assert(d[i] == spans[i]);
        }
        lemma_long_enough(d, min, dur);
        let p = long_enough(d, min);
        let last = spans.last();
        assert(spans[spans.len() - 1] == last);
        if last.end - last.start >= min {
            let out = p.push(last);
            assert forall|k: int| 0 <= k < out.len() implies spans.contains(#[trigger] out[k]) by {
                if k < p.len() {
                    assert(out[k] == p[k]);
                    assert(d.contains(p[k]));
                    let m = choose|m: int| 0 <= m < d.len() && d[m] == p[k];
                    assert(spans[m] == d[m]);
                } else {
                    assert(spans[spans.len() - 1] == out[k]);
                }
            }
            assert forall|a: int, b: int| 0 <= a < b < out.len() implies (#[trigger] out[a]).end
                <= (#[trigger] out[b]).start by {
                if b < p.len() {
                    assert(out[a] == p[a] && out[b] == p[b]);
                } else {
                    assert(out[a] == p[a]);
                    assert(d.contains(p[a]));
                    let m = choose|m: int| 0 <= m < d.len() && d[m] == p[a];
                    assert(spans[m] == d[m]);
                }
            }
            assert forall|k: int| 0 <= k < out.len() implies (#[trigger] out[k]).start < out[k].end
                <= dur && out[k].end - out[k].start >= min by {
                if k < p.len() {
                    assert(out[k] == p[k]);
                }
            }
        } else {
            assert forall|k: int| 0 <= k < p.len() implies spans.contains(#[trigger] p[k]) by {
                assert(d.contains(p[k]));
                let m = choose|m: int| 0 <= m < d.len() && d[m] == p[k];
                assert(spans[m] == d[m]);
            }
        }
    }
}

/// The inputs a scan of `level` reads without failing: channels long
/// enough for every bucket of the first, bucket positions representable
/// and none (but the end) past the duration.
pub open spec fn scan_ok(level: PeakLevel, dur: u64) -> bool {
    let chs = level.data();
    let count = if chs.len() > 0 {
        chs[0].len() / 2
    } else {
        0
    };
    &&& chs.len() > 0
    &&& forall|c: int| 0 <= c < chs.len() ==> 2 * count <= (#[trigger] chs[c]).len()
    &&& count * level.samples_per_bucket <= u64::MAX
    &&& count == 0 || (count - 1) * level.samples_per_bucket <= dur
}

/// The scan of `level` for the given settings.
pub open spec fn scan_of(level: PeakLevel, sample_rate: u32, dur: u64, params: SilenceParams) -> Scan {
    let chs = level.data();
    Scan {
        chs,
        below: params.silent_below as int,
        spb: level.samples_per_bucket as nat,
        dur: dur as nat,
        min_silence: (params.min_silence_ms * sample_rate / 1000) as nat,
        count: (chs[0].len() / 2) as int,
    }
}

/// The proposals `detect_track_regions` makes.
pub open spec fn proposals(p: PeakPyramid, sample_rate: u32, dur: u64, params: SilenceParams) -> Seq<
    RegionSpan,
> {
    if p.levels@.len() == 0 {
        seq![]
    } else {
        long_enough(
            sound_spans(runs(scan_of(p.levels@[0], sample_rate, dur, params), 0, None), dur, 0, 0),
            (params.min_track_seconds * sample_rate) as nat,
        )
    }
}

proof fn lemma_runs_shape(sc: Scan, b: int, run: Option<int>)
    requires
        0 <= b,
        sc.count >= 0,
        sc.count == 0 || (sc.count - 1) * sc.spb <= sc.dur,
        sc.dur <= u64::MAX,
        run matches Some(st) ==> 0 <= st < b && st < sc.count,
    ensures
        runs_shape(runs(sc, b, run), sc.dur as u64),
    decreases sc.count + 1 - b,
{
    if b <= sc.count {
        let silent = b < sc.count && bucket_silent(sc.chs, b, sc.below);
        if silent && run is None {
            lemma_runs_shape(sc, b + 1, Some(b));
        } else if !silent && run is Some {
            lemma_runs_shape(sc, b + 1, None);
            let st = run->0;
            assert(st * sc.spb <= (sc.count - 1) * sc.spb) by (nonlinear_arith)
                requires
                    st <= sc.count - 1,
            {
            }
            assert(st * sc.spb <= b * sc.spb) by (nonlinear_arith)
                requires
                    st <= b,
            {
            }
            let rest = runs(sc, b + 1, None);
            let s = st * sc.spb;
            let e = if b * sc.spb <= sc.dur {
                b * sc.spb
            } else {
                sc.dur as int
            };
            let all = seq![(s as u64, e as u64)] + rest;
            assert forall|k: int| 0 <= k < all.len() implies (#[trigger] all[k]).0 <= all[k].1
                <= sc.dur by {
                if k > 0 {
                    assert(all[k] == rest[k - 1]);
                }
            }
        } else {
            lemma_runs_shape(sc, b + 1, run);
        }
    }
}

/// A silence run open since bucket 0, with buckets before `m` silent,
/// yields first the run from the file start to where it ends, which is
/// not before bucket `m` (or the end of the file).
proof fn lemma_leading_run(sc: Scan, b: int, m: int)
    requires
        1 <= b <= m <= sc.count,
        sc.dur <= u64::MAX,
        forall|k: int| 0 <= k < m ==> bucket_silent(sc.chs, k, sc.below),
    ensures
        runs(sc, b, Some(0)).len() > 0,
        runs(sc, b, Some(0))[0].0 == 0,
        runs(sc, b, Some(0))[0].1 >= if m * sc.spb <= sc.dur {
            m * sc.spb
        } else {
            sc.dur as int
        },
    decreases sc.count + 1 - b,
{
    let silent = b < sc.count && bucket_silent(sc.chs, b, sc.below);
    if silent {
        lemma_leading_run(sc, b + 1, if m >= b + 1 { m } else { b + 1 });
        if m < b + 1 {
            assert(b * sc.spb <= (b + 1) * sc.spb) by (nonlinear_arith);
        }
    } else {
        assert(b >= m);
        assert(m * sc.spb <= b * sc.spb) by (nonlinear_arith)
            requires
                m <= b,
        ;
        assert(0 * sc.spb == 0);
    }
}

/// Leading silence is never proposed as a track: when the first `m`
/// buckets of the mix are silent, every proposed track starts at or
/// after bucket `m` (or at the end of the file), however short that
/// silence is.
pub proof fn law_leading_silence_excluded(
    p: PeakPyramid,
    sample_rate: u32,
    dur: u64,
    params: SilenceParams,
    m: int,
)
    requires
        p.levels@.len() > 0,
        scan_ok(p.levels@[0], dur),
        1 <= m <= p.levels@[0].data()[0].len() / 2,
        forall|b: int|
            0 <= b < m ==> bucket_silent(p.levels@[0].data(), b, params.silent_below as int),
    ensures
        forall|k: int|
            0 <= k < proposals(p, sample_rate, dur, params).len() ==> (#[trigger] proposals(
                p,
                sample_rate,
                dur,
                params,
            )[k]).start >= if m * p.levels@[0].samples_per_bucket <= dur {
                m * p.levels@[0].samples_per_bucket
            } else {
                dur as int
            },
{
    let level = p.levels@[0];
    let sc = scan_of(level, sample_rate, dur, params);
    let bound = if m * sc.spb <= sc.dur {
        m * sc.spb
    } else {
        sc.dur as int
    };
    assert(bucket_silent(sc.chs, 0, sc.below));
    assert(runs(sc, 0, None) == runs(sc, 1, Some(0)));
    lemma_leading_run(sc, 1, m);
    lemma_runs_shape(sc, 0, None);
    let sil = runs(sc, 0, None);
    let (s0, e0) = sil[0];
    assert(s0 == 0);
    assert(e0 >= bound);
    assert(sound_spans(sil, dur, 0, 0) == sound_spans(sil, dur, 1, e0));
    lemma_sound_spans(sil, dur, 1, e0);
    let spans = sound_spans(sil, dur, 1, e0);
    lemma_long_enough(spans, (params.min_track_seconds * sample_rate) as nat, dur);
    let out = proposals(p, sample_rate, dur, params);
    assert forall|k: int| 0 <= k < out.len() implies (#[trigger] out[k]).start >= bound by {
        assert(spans.contains(out[k]));
        let j = choose|j: int| 0 <= j < spans.len() && spans[j] == out[k];
        assert(e0 <= spans[j].start);
    }
}

/// Where the silence that runs to the end of the scan (buckets `m` on
/// all silent) leads: the runs found still include it, last, reaching the
/// end of the scan, and none starts after bucket `m`.
proof fn lemma_trailing_runs(sc: Scan, b: int, run: Option<int>, m: int)
    requires
        0 <= m < sc.count,
        0 <= b <= sc.count,
        sc.dur <= u64::MAX,
        (sc.count - 1) * sc.spb <= sc.dur,
        forall|k: int| m <= k < sc.count ==> bucket_silent(sc.chs, k, sc.below),
        match run {
            Some(st) => 0 <= st < b && st <= m,
            None => b <= m,
        },
    ensures
        runs(sc, b, run).len() > 0,
        runs(sc, b, run).last().1 == if sc.count * sc.spb <= sc.dur {
            sc.count * sc.spb
        } else {
            sc.dur as int
        },
        forall|j: int| 0 <= j < runs(sc, b, run).len() ==> (#[trigger] runs(sc, b, run)[j]).0 <= m * sc.spb,
    decreases sc.count + 1 - b,
{
    let silent = b < sc.count && bucket_silent(sc.chs, b, sc.below);
    if silent && run is None {
        lemma_trailing_runs(sc, b + 1, Some(b), m);
    } else if !silent && run is Some {
        let st = run->0;
        assert(st * sc.spb <= m * sc.spb) by (nonlinear_arith)
            requires
                st <= m,
        ;
        assert(m * sc.spb <= (sc.count - 1) * sc.spb) by (nonlinear_arith)
            requires
                m <= sc.count - 1,
        ;
        let r = runs(sc, b, run);
        let s = st * sc.spb;
        let e = if b * sc.spb <= sc.dur {
            b * sc.spb
        } else {
            sc.dur as int
        };
        if b == sc.count {
            assert(runs(sc, b + 1, None) =~= Seq::<(u64, u64)>::empty());
            assert(r =~= seq![(s as u64, e as u64)]);
        } else {
            assert(b < m);
            lemma_trailing_runs(sc, b + 1, None, m);
            let rest = runs(sc, b + 1, None);
            assert forall|j: int| 0 <= j < r.len() implies (#[trigger] r[j]).0 <= m * sc.spb by {
                if r.len() > rest.len() && j > 0 {
                    assert(r[j] == rest[j - 1]);
                } else if r.len() == rest.len() {
                    assert(r[j] == rest[j]);
                }
            }
        }
    } else {
        if !silent {
            assert(b < m);
        }
        lemma_trailing_runs(sc, b + 1, run, m);
    }
}

/// No sound span ends after `x` when every silence from `i` on starts by
/// `x` and the last one reaches the end of the file.
proof fn lemma_sound_ends(sil: Seq<(u64, u64)>, dur: u64, i: int, cursor: u64, x: int)
    requires
        0 <= i < sil.len(),
        forall|j: int| i <= j < sil.len() ==> (#[trigger] sil[j]).0 <= x,
        sil.last().1 >= dur,
    ensures
        forall|k: int|
            0 <= k < sound_spans(sil, dur, i, cursor).len() ==> (#[trigger] sound_spans(
                sil,
                dur,
                i,
                cursor,
            )[k]).end <= x,
    decreases sil.len() - i,
{
    let (s, e) = sil[i];
    let next = if cursor >= e {
        cursor
    } else {
        e
    };
    let head = if s > cursor {
        seq![RegionSpan { start: cursor, end: s }]
    } else {
        seq![]
    };
    let rest = sound_spans(sil, dur, i + 1, next);
    if i + 1 < sil.len() {
        lemma_sound_ends(sil, dur, i + 1, next, x);
    } else {
        assert(sil.last() == sil[i]);
        assert(rest =~= Seq::<RegionSpan>::empty());
    }
    let all = sound_spans(sil, dur, i, cursor);
    assert(all == head + rest);
    assert forall|k: int| 0 <= k < all.len() implies (#[trigger] all[k]).end <= x by {
        if k >= head.len() {
            assert(all[k] == rest[k - head.len()]);
        }
    }
}

/// Trailing silence is never proposed as a track: when the mix is
/// silent from bucket `m` to the end of the file (the buckets covering
/// the whole file), every proposed track ends by bucket `m`, however
/// short that silence is.
pub proof fn law_trailing_silence_excluded(
    p: PeakPyramid,
    sample_rate: u32,
    dur: u64,
    params: SilenceParams,
    m: int,
)
    requires
        p.levels@.len() > 0,
        scan_ok(p.levels@[0], dur),
        0 <= m < p.levels@[0].data()[0].len() / 2,
        dur <= (p.levels@[0].data()[0].len() / 2) * p.levels@[0].samples_per_bucket,
        forall|b: int|
            m <= b < p.levels@[0].data()[0].len() / 2 ==> bucket_silent(
                p.levels@[0].data(),
                b,
                params.silent_below as int,
            ),
    ensures
        forall|k: int|
            0 <= k < proposals(p, sample_rate, dur, params).len() ==> (#[trigger] proposals(
                p,
                sample_rate,
                dur,
                params,
            )[k]).end <= m * p.levels@[0].samples_per_bucket,
{
    let level = p.levels@[0];
    let sc = scan_of(level, sample_rate, dur, params);
    let x = m * sc.spb;
    lemma_trailing_runs(sc, 0, None, m);
    let sil = runs(sc, 0, None);
    lemma_sound_ends(sil, dur, 0, 0, x);
    let spans = sound_spans(sil, dur, 0, 0);
    lemma_runs_shape(sc, 0, None);
    lemma_sound_spans(sil, dur, 0, 0);
    lemma_long_enough(spans, (params.min_track_seconds * sample_rate) as nat, dur);
    let out = proposals(p, sample_rate, dur, params);
    assert forall|k: int| 0 <= k < out.len() implies (#[trigger] out[k]).end <= x by {
        assert(spans.contains(out[k]));
        let j = choose|j: int| 0 <= j < spans.len() && spans[j] == out[k];
        assert(spans[j].end <= x);
    }
}

/// The runs found come in order, none overlapping the next, and none
/// starts before the open run (or, with none open, before bucket `b`).
proof fn lemma_runs_sorted(sc: Scan, b: int, run: Option<int>)
    requires
        0 <= b,
        sc.count >= 0,
        sc.count == 0 || (sc.count - 1) * sc.spb <= sc.dur,
        sc.dur <= u64::MAX,
        run matches Some(st) ==> 0 <= st < b && st < sc.count,
    ensures
        forall|j: int|
            0 <= j < runs(sc, b, run).len() ==> (#[trigger] runs(sc, b, run)[j]).0 >= match run {
                Some(st) => st * sc.spb,
                None => b * sc.spb,
            },
        forall|i: int, j: int|
            0 <= i < j < runs(sc, b, run).len() ==> (#[trigger] runs(sc, b, run)[i]).1 <= (#[trigger] runs(
                sc,
                b,
                run,
            )[j]).0,
    decreases sc.count + 1 - b,
{
    if b <= sc.count {
        let silent = b < sc.count && bucket_silent(sc.chs, b, sc.below);
        assert(b * sc.spb <= (b + 1) * sc.spb) by (nonlinear_arith);
        if silent && run is None {
            lemma_runs_sorted(sc, b + 1, Some(b));
            assert(runs(sc, b, run) == runs(sc, b + 1, Some(b)));
        } else if !silent && run is Some {
            lemma_runs_sorted(sc, b + 1, None);
            let st = run->0;
            assert(st * sc.spb <= (sc.count - 1) * sc.spb) by (nonlinear_arith)
                requires
                    st <= sc.count - 1,
            ;
            assert(st * sc.spb <= b * sc.spb) by (nonlinear_arith)
                requires
                    st <= b,
            ;
            let rest = runs(sc, b + 1, None);
            let r = runs(sc, b, run);
            assert forall|j: int| 0 <= j < r.len() implies (#[trigger] r[j]).0 >= st * sc.spb by {
                if r.len() > rest.len() && j > 0 {
                    assert(r[j] == rest[j - 1]);
                } else if r.len() == rest.len() {
                    assert(r[j] == rest[j]);
                }
            }
            assert forall|i: int, j: int| 0 <= i < j < r.len() implies (#[trigger] r[i]).1 <= (#[trigger] r[j]).0 by {
                if r.len() > rest.len() {
                    assert(r[j] == rest[j - 1]);
                    if i > 0 {
                        assert(r[i] == rest[i - 1]);
                    }
                } else {
                    assert(r[i] == rest[i] && r[j] == rest[j]);
                }
            }
        } else {
            lemma_runs_sorted(sc, b + 1, run);
            assert(runs(sc, b, run) == runs(sc, b + 1, run));
        }
    }
}

/// A run open since `st`, silent up to bucket `c`, which is not silent:
/// the run closes there, and when it is long enough it is found first.
proof fn lemma_open_run(sc: Scan, b: int, st: int, c: int)
    requires
        0 <= st < b <= c < sc.count,
        sc.dur <= u64::MAX,
        forall|k: int| b <= k < c ==> bucket_silent(sc.chs, k, sc.below),
        !bucket_silent(sc.chs, c, sc.below),
        c * sc.spb <= sc.dur,
        c * sc.spb - st * sc.spb >= sc.min_silence,
    ensures
        runs(sc, b, Some(st)) == seq![((st * sc.spb) as u64, (c * sc.spb) as u64)] + runs(sc, c + 1, None),
    decreases c - b,
{
    if b < c {
        lemma_open_run(sc, b + 1, st, c);
    }
}

/// A maximal silent run from bucket `a` to bucket `c` (neither bucket
/// `a - 1` nor `c` silent) at least the minimum silence long is among the
/// runs found by a scan that reaches bucket `a` with no run open.
proof fn lemma_run_found(sc: Scan, b: int, run: Option<int>, a: int, c: int)
    requires
        0 <= b <= a < c < sc.count,
        1 <= a,
        sc.dur <= u64::MAX,
        !bucket_silent(sc.chs, a - 1, sc.below),
        forall|k: int| a <= k < c ==> bucket_silent(sc.chs, k, sc.below),
        !bucket_silent(sc.chs, c, sc.below),
        c * sc.spb <= sc.dur,
        c * sc.spb - a * sc.spb >= sc.min_silence,
        b < a || run is None,
        run matches Some(st) ==> 0 <= st < b,
    ensures
        runs(sc, b, run).contains(((a * sc.spb) as u64, (c * sc.spb) as u64)),
    decreases a - b,
{
    let target = ((a * sc.spb) as u64, (c * sc.spb) as u64);
    if b == a {
        lemma_open_run(sc, a + 1, a, c);
        assert(runs(sc, a, None) == runs(sc, a + 1, Some(a)));
        assert(runs(sc, a, None)[0] == target);
    } else {
        let silent = bucket_silent(sc.chs, b, sc.below);
        if silent && run is None {
            lemma_run_found(sc, b + 1, Some(b), a, c);
        } else if !silent && run is Some {
            lemma_run_found(sc, b + 1, None, a, c);
            let rest = runs(sc, b + 1, None);
            let r = runs(sc, b, run);
            let j = choose|j: int| 0 <= j < rest.len() && rest[j] == target;
            if r.len() > rest.len() {
                assert(r[j + 1] == rest[j]);
            } else {
                assert(r[j] == rest[j]);
            }
        } else {
            lemma_run_found(sc, b + 1, run, a, c);
        }
    }
}

/// No sound span reaches into silence `q`: each ends by its start or
/// begins after its end.
proof fn lemma_sound_avoid(sil: Seq<(u64, u64)>, dur: u64, i: int, cursor: u64, q: int)
    requires
        0 <= i <= q < sil.len(),
        runs_shape(sil, dur),
        forall|x: int, y: int| 0 <= x < y < sil.len() ==> (#[trigger] sil[x]).1 <= (#[trigger] sil[y]).0,
    ensures
        forall|k: int|
            0 <= k < sound_spans(sil, dur, i, cursor).len() ==> (#[trigger] sound_spans(
                sil,
                dur,
                i,
                cursor,
            )[k]).end <= sil[q].0 || sound_spans(sil, dur, i, cursor)[k].start >= sil[q].1,
    decreases sil.len() - i,
{
    let (s, e) = sil[i];
    let next = if cursor >= e {
        cursor
    } else {
        e
    };
    let head = if s > cursor {
        seq![RegionSpan { start: cursor, end: s }]
    } else {
        seq![]
    };
    let rest = sound_spans(sil, dur, i + 1, next);
    if i < q {
        lemma_sound_avoid(sil, dur, i + 1, next, q);
        assert(sil[i].0 <= sil[i].1 <= sil[q].0);
    } else {
        lemma_sound_spans(sil, dur, i + 1, next);
    }
    let all = sound_spans(sil, dur, i, cursor);
    assert(all == head + rest);
    assert forall|k: int| 0 <= k < all.len() implies (#[trigger] all[k]).end <= sil[q].0 || all[k].start
        >= sil[q].1 by {
        if k >= head.len() {
            assert(all[k] == rest[k - head.len()]);
        }
    }
}

/// A silence long enough separates tracks: when buckets `a` to `c - 1`
/// are silent, with sound just before and just after, and that silence
/// lasts at least the minimum silence, no proposed track reaches into it.
pub proof fn law_long_silence_separates(
    p: PeakPyramid,
    sample_rate: u32,
    dur: u64,
    params: SilenceParams,
    a: int,
    c: int,
)
    requires
        p.levels@.len() > 0,
        scan_ok(p.levels@[0], dur),
        1 <= a < c < p.levels@[0].data()[0].len() / 2,
        !bucket_silent(p.levels@[0].data(), a - 1, params.silent_below as int),
        forall|b: int| a <= b < c ==> bucket_silent(p.levels@[0].data(), b, params.silent_below as int),
        !bucket_silent(p.levels@[0].data(), c, params.silent_below as int),
        c * p.levels@[0].samples_per_bucket <= dur,
        (c - a) * p.levels@[0].samples_per_bucket >= params.min_silence_ms * sample_rate / 1000,
    ensures
        forall|k: int|
            0 <= k < proposals(p, sample_rate, dur, params).len() ==> (#[trigger] proposals(
                p,
                sample_rate,
                dur,
                params,
            )[k]).end <= a * p.levels@[0].samples_per_bucket || proposals(p, sample_rate, dur, params)[k].start
                >= c * p.levels@[0].samples_per_bucket,
{
    let level = p.levels@[0];
    let sc = scan_of(level, sample_rate, dur, params);
    assert(c * sc.spb - a * sc.spb == (c - a) * sc.spb) by (nonlinear_arith);
    assert(a * sc.spb <= c * sc.spb) by (nonlinear_arith)
        requires
            a <= c,
    ;
    lemma_run_found(sc, 0, None, a, c);
    lemma_runs_sorted(sc, 0, None);
    lemma_runs_shape(sc, 0, None);
    let sil = runs(sc, 0, None);
    let target = ((a * sc.spb) as u64, (c * sc.spb) as u64);
    let q = choose|q: int| 0 <= q < sil.len() && sil[q] == target;
    lemma_sound_avoid(sil, dur, 0, 0, q);
    let spans = sound_spans(sil, dur, 0, 0);
    lemma_sound_spans(sil, dur, 0, 0);
    lemma_long_enough(spans, (params.min_track_seconds * sample_rate) as nat, dur);
    let out = proposals(p, sample_rate, dur, params);
    assert forall|k: int| 0 <= k < out.len() implies (#[trigger] out[k]).end <= a * sc.spb || out[k].start
        >= c * sc.spb by {
        assert(spans.contains(out[k]));
        let j = choose|j: int| 0 <= j < spans.len() && spans[j] == out[k];
        assert(spans[j].end <= sil[q].0 || spans[j].start >= sil[q].1);
    }
}

/// Propose track regions: the sound spans that remain between qualifying
/// silences of the first (finest) level. The spans come in order, do not
/// overlap, lie within the file and are each at least the minimum track
/// length.
pub fn detect_track_regions(
    pyramid: &PeakPyramid,
    sample_rate: u32,
    duration_samples: u64,
    params: &SilenceParams,
) -> (r: Vec<RegionSpan>)
    requires
        pyramid.levels@.len() > 0 ==> scan_ok(pyramid.levels@[0], duration_samples),
    ensures
        r@ == proposals(*pyramid, sample_rate, duration_samples, *params),
        ordered_spans(r@, duration_samples),
        forall|k: int|
            0 <= k < r@.len() ==> (#[trigger] r@[k]).end - r@[k].start >= params.min_track_seconds
                * sample_rate,
{
    if pyramid.levels.len() == 0 {
        return Vec::new();
    }
    let level = &pyramid.levels[0];
    let ghost sc = scan_of(*level, sample_rate, duration_samples, *params);
    let ghost chs = level.data();
    proof {
        assert(chs[0] == level.channels@[0]@);
    }
    let spb = level.samples_per_bucket as u64;
    let count = level.channels[0].len() / 2;
    let below = params.silent_below as i32;
    proof {
        assert(params.min_silence_ms * sample_rate <= 0xffff_ffff * 0xffff_ffff) by (nonlinear_arith)
            requires
                params.min_silence_ms <= 0xffff_ffff,
                sample_rate <= 0xffff_ffff,
        ;
        assert(params.min_track_seconds * sample_rate <= 0xffff_ffff * 0xffff_ffff)
            by (nonlinear_arith)
            requires
                params.min_track_seconds <= 0xffff_ffff,
                sample_rate <= 0xffff_ffff,
        ;
    }
    let min_silence = (params.min_silence_ms as u64 * sample_rate as u64) / 1000;
    let min_track = params.min_track_seconds as u64 * sample_rate as u64;
    let mut silences: Vec<(u64, u64)> = Vec::new();
    let mut run: Option<usize> = None;
    let mut b: usize = 0;
    proof {
        assert(silences@ + runs(sc, 0, None) =~= runs(sc, 0, None));
    }
    while b <= count
        invariant
            b <= count + 1,
            count <= usize::MAX / 2,
            count == sc.count,
            sc == scan_of(*level, sample_rate, duration_samples, *params),
            chs == level.data(),
            spb == sc.spb,
            below == sc.below,
            min_silence == sc.min_silence,
            scan_ok(*level, duration_samples),
            run matches Some(st) ==> st < b && st < count,
            silences@ + runs(sc, b as int, match run {
                Some(st) => Some(st as int),
                None => None,
            }) == runs(sc, 0, None),
        decreases count + 1 - b,
    {
        let mut silent = b < count;
        if b < count {
            let mut c: usize = 0;
            while c < level.channels.len()
                invariant
                    c <= level.channels@.len(),
                    b < count,
                    chs == level.data(),
                    scan_ok(*level, duration_samples),
                    count == chs[0].len() / 2,
                    below == sc.below,
                    sc.chs == chs,
                    silent == forall|m: int|
                        0 <= m < c ==> channel_quiet(#[trigger] chs[m], b as int, below as int),
                decreases level.channels@.len() - c,
            {
                let ch = &level.channels[c];
                let chl = ch.len();
                proof {
                    assert(chs[c as int] == ch@);
                    assert(2 * count <= chs[c as int].len());
                    assert(chl == ch@.len());
                }
                let mn = ch[b * 2] as i32;
                let mx = ch[b * 2 + 1] as i32;
                let amn = if mn < 0 {
                    -mn
                } else {
                    mn
                };
                let amx = if mx < 0 {
                    -mx
                } else {
                    mx
                };
                proof {
                    assert(abs8(chs[c as int][2 * b as int]) == amn);
                    assert(abs8(chs[c as int][2 * b + 1]) == amx);
                }
                let ghost was = silent;
                if !(amn < below && amx < below) {
                    silent = false;
                }
                proof {
                    if !channel_quiet(chs[c as int], b as int, below as int) {
                        assert(!(forall|m: int|
                            0 <= m < c + 1 ==> channel_quiet(
                                #[trigger] chs[m],
                                b as int,
                                below as int,
                            )));
                    }
                }
                c += 1;
            }
            proof {
                assert(silent == bucket_silent(chs, b as int, below as int));
            }
        }
        let ghost cur_run = match run {
            Some(st) => Some(st as int),
            None => None::<int>,
        };
        match run {
            None => {
                if silent {
                    run = Some(b);
                }
            },
            Some(st) => {
                if !silent {
                    proof {
                        assert(st * spb <= b * spb) by (nonlinear_arith)
                            requires
                                st <= b,
                        {
                        }
                        assert(b * spb <= count * spb) by (nonlinear_arith)
                            requires
                                b <= count,
                        {
                        }
                    }
                    let s = st as u64 * spb;
                    let bs = b as u64 * spb;
                    let e = if bs <= duration_samples {
                        bs
                    } else {
                        duration_samples
                    };
                    let at_edge = st == 0 || b == count;
                    proof {
                        if st > 0 {
                            assert(st * spb <= (count - 1) * spb) by (nonlinear_arith)
                                requires
                                    st <= count - 1,
                            {
                            }
                        }
                    }
                    if e - s >= min_silence || at_edge {
                        let ghost before = silences@;
                        silences.push((s, e));
                        proof {
                            crate::text::lemma_add_assoc(
                                before,
                                seq![(s, e)],
                                runs(sc, b + 1, None),
                            );
                            assert(silences@ =~= before + seq![(s, e)]);
                        }
                    }
                    run = None;
                }
            },
        }
        b += 1;
    }
    proof {
        assert(runs(sc, b as int, None) =~= Seq::<(u64, u64)>::empty());
        assert(silences@ =~= runs(sc, 0, None));
        lemma_runs_shape(sc, 0, None);
    }
    let ghost sil = silences@;
    let mut spans: Vec<RegionSpan> = Vec::new();
    let mut cursor: u64 = 0;
    let mut i: usize = 0;
    while i < silences.len()
        invariant
            i <= sil.len(),
            silences@ == sil,
            spans@ + sound_spans(sil, duration_samples, i as int, cursor) == sound_spans(
                sil,
                duration_samples,
                0,
                0,
            ),
        decreases sil.len() - i,
    {
        let (s, e) = silences[i];
        let ghost before = spans@;
        if s > cursor {
            spans.push(RegionSpan { start: cursor, end: s });
        }
        let next = if cursor >= e {
            cursor
        } else {
            e
        };
        proof {
            let head = if s > cursor {
                seq![RegionSpan { start: cursor, end: s }]
            } else {
                Seq::<RegionSpan>::empty()
            };
            assert(spans@ =~= before + head);
            crate::text::lemma_add_assoc(
                before,
                head,
                sound_spans(sil, duration_samples, i + 1, next),
            );
        }
        cursor = next;
        i += 1;
    }
    if cursor < duration_samples {
        spans.push(RegionSpan { start: cursor, end: duration_samples });
    } else {
        proof {
            assert(spans@ + Seq::<RegionSpan>::empty() =~= spans@);
        }
    }
    let ghost all = spans@;
    proof {
        assert(all =~= sound_spans(sil, duration_samples, 0, 0));
        lemma_sound_spans(sil, duration_samples, 0, 0);
        lemma_long_enough(all, min_track as nat, duration_samples);
    }
    let mut out: Vec<RegionSpan> = Vec::new();
    let mut k: usize = 0;
    while k < spans.len()
        invariant
            k <= all.len(),
            spans@ == all,
            ordered_spans(all, duration_samples),
            out@ == long_enough(all.take(k as int), min_track as nat),
        decreases all.len() - k,
    {
        let sp = spans[k];
        proof {
            assert(all.take(k + 1).drop_last() =~= all.take(k as int));
            assert(all[k as int].start < all[k as int].end);
        }
        if sp.end - sp.start >= min_track {
            out.push(sp);
        }
        k += 1;
    }
    proof {
        assert(all.take(all.len() as int) =~= all);
    }
    out
}

} // verus!
