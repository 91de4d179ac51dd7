//! Multi-resolution min/max peaks of the session audio, quantized to
//! `i8`, and the window queries the waveform display makes.

use vstd::prelude::*;
use vstd::arithmetic::power2::{
    lemma2_to64, lemma2_to64_rest, lemma_pow2_strictly_increases, lemma_pow2_unfold, pow2,
};

verus! {

/// Resolution of the finest peak level, in samples per bucket.
pub const BASE_SAMPLES_PER_BUCKET: u32 = 256;

/// Coarser levels are generated (x2 each) until one fits a whole screen.
pub const MAX_TOP_LEVEL_BUCKETS: usize = 2048;

/// A copy of a vector of plain values.
pub fn copy_vec<T: Copy>(v: &Vec<T>) -> (r: Vec<T>)
    ensures
        r@ == v@,
{
    let mut out: Vec<T> = Vec::new();
    let mut i: usize = 0;
    while i < v.len()
        invariant
            i <= v@.len(),
            out@ == v@.take(i as int),
        decreases v@.len() - i,
    {
        out.push(v[i]);
        i += 1;
        proof {
            assert(out@ =~= v@.take(i as int));
        }
    }
    proof {
        assert(v@.take(v@.len() as int) =~= v@);
    }
    out
}

/// A copy of per-channel peak data.
pub fn copy_channels(v: &Vec<Vec<i8>>) -> (r: Vec<Vec<i8>>)
    ensures
        r@.len() == v@.len(),
        forall|c: int| 0 <= c < v@.len() ==> #[trigger] r@[c]@ == v@[c]@,
{
    let mut out: Vec<Vec<i8>> = Vec::new();
    let mut i: usize = 0;
    while i < v.len()
        invariant
            i <= v@.len(),
            out@.len() == i,
            forall|c: int| 0 <= c < i ==> #[trigger] out@[c]@ == v@[c]@,
        decreases v@.len() - i,
    {
        out.push(copy_vec(&v[i]));
        i += 1;
    }
    out
}

/// One resolution level of the peak pyramid.
#[derive(Debug)]
pub struct PeakLevel {
    pub samples_per_bucket: u32,
    /// Per channel: interleaved `[min0, max0, min1, max1, ...]`
    /// (-127..=127 maps to -1.0..=1.0).
    pub channels: Vec<Vec<i8>>,
}

impl PeakLevel {
    /// The level's contents as plain sequences.
    pub open spec fn data(self) -> Seq<Seq<i8>> {
        Seq::new(self.channels@.len(), |c: int| self.channels@[c]@)
    }
}

impl Clone for PeakLevel {
    fn clone(&self) -> (r: Self)
        ensures
            r.samples_per_bucket == self.samples_per_bucket,
            r.data() == self.data(),
    {
        let channels = copy_channels(&self.channels);
        let r = PeakLevel { samples_per_bucket: self.samples_per_bucket, channels };
        proof {
            assert(r.data() =~= self.data());
        }
        r
    }
}

/// Multi-resolution min/max peaks for a whole file, ordered fine to coarse.
#[derive(Debug)]
pub struct PeakPyramid {
    pub levels: Vec<PeakLevel>,
}

impl PeakPyramid {
    /// Every level as (samples per bucket, per-channel data).
    pub open spec fn data(self) -> Seq<(u32, Seq<Seq<i8>>)> {
        Seq::new(
            self.levels@.len(),
            |i: int| (self.levels@[i].samples_per_bucket, self.levels@[i].data()),
        )
    }

    /// An empty pyramid (no levels).
    pub fn empty() -> (r: Self)
        ensures
            r.levels@.len() == 0,
    {
        PeakPyramid { levels: Vec::new() }
    }
}

impl Clone for PeakPyramid {
    fn clone(&self) -> (r: Self)
        ensures
            r.data() == self.data(),
    {
        let mut levels: Vec<PeakLevel> = Vec::new();
        let mut i: usize = 0;
        while i < self.levels.len()
            invariant
                i <= self.levels@.len(),
                levels@.len() == i,
                forall|j: int|
                    0 <= j < i ==> (#[trigger] levels@[j]).samples_per_bucket
                        == self.levels@[j].samples_per_bucket && levels@[j].data()
                        == self.levels@[j].data(),
            decreases self.levels@.len() - i,
        {
            levels.push(self.levels[i].clone());
            i += 1;
        }
        let r = PeakPyramid { levels };
        proof {
            assert(r.data() =~= self.data());
        }
        r
    }
}

/// A window of peaks returned to the display layer.
#[derive(Debug, Clone)]
pub struct PeakSlice {
    pub samples_per_bucket: u32,
    /// Sample position of the first returned bucket.
    pub start_sample: u64,
    /// Per channel: interleaved `[min, max, ...]`.
    pub channels: Vec<Vec<i8>>,
}

/// `a.div_ceil(b)`.
pub open spec fn div_ceil(a: nat, b: nat) -> nat {
    if b == 0 {
        0
    } else {
        ((a + b - 1) / b as int) as nat
    }
}

/// `r` is the base resolution doubled some number of times.
pub open spec fn is_grid(r: nat) -> bool {
    exists|k: nat| r == 256 * #[trigger] pow2(k)
}

/// The grid `target_spb` picks: the finest doubling of the base
/// resolution that fits `span` samples into `max_buckets` buckets (at
/// least one).
pub open spec fn fits_grid(span: nat, max_buckets: nat, r: nat) -> bool {
    let mb = if max_buckets >= 1 {
        max_buckets
    } else {
        1
    };
    &&& is_grid(r)
    &&& div_ceil(span, r) <= mb
    &&& (r == 256 || div_ceil(span, r / 2) > mb)
}

/// `a.div_ceil(b)`.
pub fn div_ceil_u64(a: u64, b: u64) -> (r: u64)
    requires
        b > 0,
    ensures
        r == div_ceil(a as nat, b as nat),
{
    let q = a / b;
    proof {
        assert((a + b - 1) / (b as int) == if a % b == 0 {
            q as int
        } else {
            q + 1
        }) by (nonlinear_arith)
            requires
                b > 0,
                q == a / b,
        {
            let m = a % b;
            assert(a == q * b + m);
            assert(0 <= m < b);
            if m == 0 {
                assert(a + b - 1 == q * b + (b - 1));
            } else {
                assert(a + b - 1 == (q + 1) * b + (m - 1));
            }
        }
    }
    if a % b == 0 {
        q
    } else {
        proof {
            assert(q < 0xffff_ffff_ffff_ffff) by (nonlinear_arith)
                requires
                    q == a / b,
                    a % b != 0,
                    b > 0,
                    a <= 0xffff_ffff_ffff_ffff,
            {
                assert(b >= 2);
                assert(q * b <= a);
                assert(q * 2 <= q * b);
            }
        }
        q + 1
    }
}

proof fn lemma_div_ceil_mono(a: nat, b: nat, c: nat)
    requires
        0 < b <= c,
    ensures
        div_ceil(a, c) <= div_ceil(a, b),
{
    assert(((a + c - 1) / c as int) <= ((a + b - 1) / b as int)) by (nonlinear_arith)
        requires
            0 < b <= c,
    {
        let q = (a + c - 1) / c as int;
        assert(q * c <= a + c - 1);
        assert(q * b <= q * c);
        if q > 0 {
            assert((q - 1) * c + 1 <= a);
            assert((q - 1) * b + 1 <= a);
            assert(q * b <= a + b - 1);
        }
    }
}

/// Smallest power-of-two multiple of the base resolution that fits
/// `span` into `max_buckets` buckets (several pyramids are queried on a
/// common grid this way and merged bucket-wise).
pub fn target_spb(span: u64, max_buckets: u32) -> (r: u64)
    requires
        div_ceil(span as nat, 0x8000_0000_0000_0000) <= (if max_buckets >= 1 {
            max_buckets
        } else {
            1
        }),
    ensures
        fits_grid(span as nat, max_buckets as nat, r as nat),
{
    let mb: u64 = if max_buckets >= 1 {
        max_buckets as u64
    } else {
        1
    };
    let mut spb: u64 = 256;
    let ghost mut k: nat = 0;
    proof {
        lemma2_to64();
        lemma2_to64_rest();
    }
    while div_ceil_u64(span, spb) > mb
        invariant
            spb == 256 * pow2(k),
            k <= 55,
            spb == 256 || div_ceil(span as nat, (spb / 2) as nat) > mb,
            div_ceil(span as nat, 0x8000_0000_0000_0000) <= mb,
            pow2(55) == 0x80_0000_0000_0000,
            mb == (if max_buckets >= 1 {
                max_buckets
            } else {
                1
            }),
        decreases 55 - k,
    {
        proof {
            if k == 55 {
                assert(spb == 0x8000_0000_0000_0000);
            }
            lemma_pow2_unfold(k + 1);
            if k + 1 < 55 {
                lemma_pow2_strictly_increases(k + 1, 55);
            }
        }
        spb = spb * 2;
        proof {
            k = k + 1;
        }
    }
    proof {
        assert(is_grid(spb as nat));
    }
    spb
}

/// The finest level, searching down from level `i`, whose resolution
/// divides `spb`; -1 when none does.
pub open spec fn find_level(levels: Seq<(u32, Seq<Seq<i8>>)>, spb: nat, i: int) -> int
    decreases i + 1,
{
    if i < 0 || i >= levels.len() {
        -1
    } else if levels[i].0 <= spb && spb % (levels[i].0 as nat) == 0 {
        i
    } else {
        find_level(levels, spb, i - 1)
    }
}

/// The level a query on grid `spb` reads: the coarsest level whose
/// resolution divides `spb`, else the first.
pub open spec fn chosen_level(levels: Seq<(u32, Seq<Seq<i8>>)>, spb: nat) -> int {
    let f = find_level(levels, spb, levels.len() - 1);
    if f >= 0 {
        f
    } else {
        0
    }
}

/// Least `g[2q]` over the first `p` pairs (`i8::MAX` when none).
pub open spec fn group_min(g: Seq<i8>, p: int) -> i8
    decreases p,
{
    if p <= 0 {
        127
    } else {
        let m = group_min(g, p - 1);
        if g[2 * (p - 1)] < m {
            g[2 * (p - 1)]
        } else {
            m
        }
    }
}

/// Greatest `g[2q + 1]` over the first `p` pairs (`i8::MIN` when none).
pub open spec fn group_max(g: Seq<i8>, p: int) -> i8
    decreases p,
{
    if p <= 0 {
        -128i8
    } else {
        let m = group_max(g, p - 1);
        if g[2 * (p - 1) + 1] > m {
            g[2 * (p - 1) + 1]
        } else {
            m
        }
    }
}

/// Min/max pairs merged `k` at a time (the last group may be shorter).
pub open spec fn aggregate(w: Seq<i8>, k: nat) -> Seq<i8>
    decreases w.len(),
{
    if w.len() == 0 || k == 0 {
        seq![]
    } else {
        let n = if w.len() <= 2 * k {
            w.len()
        } else {
            2 * k
        };
        let g = w.take(n as int);
        seq![group_min(g, (n / 2) as int), group_max(g, (n / 2) as int)] + aggregate(
            w.skip(n as int),
            k,
        )
    }
}

/// The window bounds (first and last bucket of the chosen level) of a
/// query, and the number `k` of level buckets per grid bucket.
pub open spec fn query_window(p: PeakPyramid, spb: nat, start: nat, end: nat) -> (nat, nat, nat) {
    let lv = p.data()[chosen_level(p.data(), spb)];
    let lspb = lv.0 as nat;
    let k = if spb / lspb >= 1 {
        spb / lspb
    } else {
        1
    };
    let bc = lv.1[0].len() / 2;
    let a = (start / spb) * k;
    let b = div_ceil(end, spb) * k;
    (if a <= bc {
        a
    } else {
        bc
    }, if b <= bc {
        b
    } else {
        bc
    }, k)
}

/// What `query_with_spb` reads without failing: a pyramid with levels of
/// positive resolution whose chosen level has channels long enough for
/// the window, on a positive grid.
pub open spec fn query_ok(p: PeakPyramid, spb: nat, start: nat, end: nat) -> bool {
    let d = p.data();
    let lv = d[chosen_level(d, spb)];
    let (first, last, k) = query_window(p, spb, start, end);
    &&& spb > 0
    &&& d.len() > 0
    &&& forall|i: int| 0 <= i < d.len() ==> (#[trigger] d[i]).0 > 0
    &&& lv.1.len() > 0
    &&& forall|c: int| 0 <= c < lv.1.len() ==> 2 * last <= (#[trigger] lv.1[c]).len()
    &&& first <= last
    &&& div_ceil(end, spb) * k <= u64::MAX
    &&& (k == 1 || 2 * k <= usize::MAX)
}

/// The peaks of channel `c` over the query window on grid `spb`.
pub open spec fn query_channel(p: PeakPyramid, spb: nat, start: nat, end: nat, c: int) -> Seq<i8> {
    let lv = p.data()[chosen_level(p.data(), spb)];
    let (first, last, k) = query_window(p, spb, start, end);
    let w = lv.1[c].subrange(2 * first as int, 2 * last as int);
    if k == 1 {
        w
    } else {
        aggregate(w, k)
    }
}

proof fn lemma_find_level(levels: Seq<(u32, Seq<Seq<i8>>)>, spb: nat, i: int)
    requires
        -1 <= i < levels.len(),
    ensures
        -1 <= find_level(levels, spb, i) <= i,
        find_level(levels, spb, i) < levels.len(),
    decreases i + 1,
{
    if i >= 0 && i < levels.len() {
        lemma_find_level(levels, spb, i - 1);
    }
}

fn group_min_max(w: &[i8], from: usize, n: usize) -> (r: (i8, i8))
    requires
        from + n <= w@.len(),
        n % 2 == 0,
    ensures
        r == (group_min(w@.subrange(from as int, (from + n) as int), (n / 2) as int), group_max(
            w@.subrange(from as int, (from + n) as int),
            (n / 2) as int,
        )),
{
    let ghost g = w@.subrange(from as int, (from + n) as int);
    let wl = w.len();
    assert(wl == w@.len());
    let mut mn: i8 = 127;
    let mut mx: i8 = -128;
    let mut q: usize = 0;
    while q < n / 2
        invariant
            q <= n / 2,
            from + n <= w@.len(),
            wl == w@.len(),
            g == w@.subrange(from as int, (from + n) as int),
            mn == group_min(g, q as int),
            mx == group_max(g, q as int),
        decreases n / 2 - q,
    {
        assert(2 * q + 2 <= n);
        let idx = from + 2 * q;
        let a = w[idx];
        let b = w[idx + 1];
        proof {
            assert(g[2 * q as int] == a);
            assert(g[2 * q + 1] == b);
        }
        if a < mn {
            mn = a;
        }
        if b > mx {
            mx = b;
        }
        q += 1;
    }
    (mn, mx)
}

/// Merge the window `w[from..to]` `k` pairs at a time.
fn aggregate_exec(w: &[i8], from: usize, to: usize, k: usize) -> (r: Vec<i8>)
    requires
        from <= to <= w@.len(),
        (to - from) % 2 == 0,
        k >= 1,
        2 * k <= usize::MAX,
    ensures
        r@ == aggregate(w@.subrange(from as int, to as int), k as nat),
{
    let mut out: Vec<i8> = Vec::new();
    let mut i = from;
    while i < to
        invariant
            from <= i <= to <= w@.len(),
            (to - i) % 2 == 0,
            k >= 1,
            2 * k <= usize::MAX,
            out@ + aggregate(w@.subrange(i as int, to as int), k as nat) == aggregate(
                w@.subrange(from as int, to as int),
                k as nat,
            ),
        decreases to - i,
    {
        let n = if to - i <= 2 * k {
            to - i
        } else {
            2 * k
        };
        let (mn, mx) = group_min_max(w, i, n);
        proof {
            let rest = w@.subrange(i as int, to as int);
            assert(rest.take(n as int) =~= w@.subrange(i as int, (i + n) as int));
            assert(rest.skip(n as int) =~= w@.subrange((i + n) as int, to as int));
            assert(aggregate(rest, k as nat) == seq![mn, mx] + aggregate(
                rest.skip(n as int),
                k as nat,
            ));
        }
        let ghost before = out@;
        out.push(mn);
        out.push(mx);
        proof {
            assert(out@ =~= before + seq![mn, mx]);
            crate::text::lemma_add_assoc(
                before,
                seq![mn, mx],
                aggregate(w@.subrange((i + n) as int, to as int), k as nat),
            );
        }
        i = i + n;
    }
    proof {
        assert(w@.subrange(to as int, to as int) =~= Seq::<i8>::empty());
        assert(out@ + Seq::<i8>::empty() =~= out@);
    }
    out
}

/// `r` is the slice of `p` over `[start, end)` on grid `spb`.
pub open spec fn slice_is(r: PeakSlice, p: PeakPyramid, spb: nat, start: nat, end: nat) -> bool {
    let (first, last, k) = query_window(p, spb, start, end);
    let lv = p.data()[chosen_level(p.data(), spb)];
    &&& r.samples_per_bucket == (if spb <= u32::MAX {
        spb as u32
    } else {
        u32::MAX
    })
    &&& r.start_sample == (first / k) * spb
    &&& r.channels@.len() == lv.1.len()
    &&& forall|c: int|
        0 <= c < lv.1.len() ==> (#[trigger] r.channels@[c])@ == query_channel(p, spb, start, end, c)
}

impl PeakPyramid {
    /// Number of channels (of the finest level; 0 without levels).
    pub fn channel_count(&self) -> (r: usize)
        ensures
            r == if self.levels@.len() == 0 {
                0
            } else {
                self.levels@[0].channels@.len()
            },
    {
        if self.levels.len() == 0 {
            0
        } else {
            self.levels[0].channels.len()
        }
    }

    /// Query on an exact grid of `spb` samples per bucket: aggregates
    /// from the coarsest stored level whose resolution divides `spb`.
    pub fn query_with_spb(&self, spb: u64, start_sample: u64, end_sample: u64) -> (r: PeakSlice)
        requires
            query_ok(*self, spb as nat, start_sample as nat, end_sample as nat),
        ensures
            slice_is(r, *self, spb as nat, start_sample as nat, end_sample as nat),
    {
        let ghost d = self.data();
        proof {
            lemma_find_level(d, spb as nat, d.len() - 1);
        }
        let mut li: usize = self.levels.len();
        let mut found: Option<usize> = None;
        while li > 0 && found.is_none()
            invariant
                li <= self.levels@.len(),
                d == self.data(),
                forall|i: int| 0 <= i < d.len() ==> (#[trigger] d[i]).0 > 0,
                spb > 0,
                found is None ==> find_level(d, spb as nat, d.len() - 1) == find_level(
                    d,
                    spb as nat,
                    li - 1,
                ),
                found matches Some(f) ==> f as int == find_level(d, spb as nat, d.len() - 1),
            decreases li,
        {
            let lspb = self.levels[li - 1].samples_per_bucket as u64;
            proof {
                assert(d[li - 1].0 == lspb);
            }
            if lspb <= spb && spb % lspb == 0 {
                found = Some(li - 1);
                li = 0;
            } else {
                li -= 1;
            }
        }
        let idx = match found {
            Some(f) => f,
            None => 0,
        };
        proof {
            assert(idx as int == chosen_level(d, spb as nat));
        }
        let level = &self.levels[idx];
        proof {
            assert(d[idx as int] == (level.samples_per_bucket, level.data()));
        }
        let lspb = level.samples_per_bucket as u64;
        let k: u64 = if spb / lspb >= 1 {
            spb / lspb
        } else {
            1
        };
        let bc = (level.channels[0].len() / 2) as u64;
        proof {
            assert(level.data()[0] == level.channels@[0]@);
            assert((start_sample / spb) * k <= start_sample) by (nonlinear_arith)
                requires
                    spb > 0,
                    lspb > 0,
                    k == (if spb / lspb >= 1 {
                        spb / lspb
                    } else {
                        1
                    }),
                    k <= spb,
            {
                assert((start_sample / spb) * spb <= start_sample);
                assert((start_sample / spb) * k <= (start_sample / spb) * spb);
            }
        }
        let a = (start_sample / spb) * k;
        let b = div_ceil_u64(end_sample, spb) * k;
        let first = if a <= bc {
            a
        } else {
            bc
        };
        let last = if b <= bc {
            b
        } else {
            bc
        };
        let mut channels: Vec<Vec<i8>> = Vec::new();
        let mut c: usize = 0;
        while c < level.channels.len()
            invariant
                c <= level.channels@.len(),
                level.data() == d[chosen_level(d, spb as nat)].1,
                d == self.data(),
                query_window(*self, spb as nat, start_sample as nat, end_sample as nat) == (
                    first as nat,
                    last as nat,
                    k as nat,
                ),
                forall|m: int| 0 <= m < level.channels@.len() ==> 2 * last <= (#[trigger] level.data()[m]).len(),
                first <= last,
                k >= 1,
                k <= spb,
                k == 1 || 2 * k <= usize::MAX,
                channels@.len() == c,
                forall|m: int|
                    0 <= m < c ==> (#[trigger] channels@[m])@ == query_channel(
                        *self,
                        spb as nat,
                        start_sample as nat,
                        end_sample as nat,
                        m,
                    ),
            decreases level.channels@.len() - c,
        {
            let ch = &level.channels[c];
            proof {
                assert(level.data()[c as int] == ch@);
            }
            let len = ch.len();
            proof {
                assert(2 * last <= ch@.len());
                assert(len == ch@.len());
            }
            let lo = (first as usize) * 2;
            let hi = (last as usize) * 2;
            proof {
                assert(lo == 2 * first);
                assert(hi == 2 * last);
            }
            let out = if k == 1 {
                let mut v: Vec<i8> = Vec::new();
                let mut i = lo;
                while i < hi
                    invariant
                        lo <= i <= hi <= ch@.len(),
                        v@ == ch@.subrange(lo as int, i as int),
                    decreases hi - i,
                {
                    v.push(ch[i]);
                    i += 1;
                    proof {
                        assert(v@ =~= ch@.subrange(lo as int, i as int));
                    }
                }
                v
            } else {
                aggregate_exec(ch.as_slice(), lo, hi, k as usize)
            };
            channels.push(out);
            c += 1;
        }
        proof {
            assert((first / k) * spb <= start_sample) by (nonlinear_arith)
                requires
                    first <= (start_sample / spb) * k,
                    k >= 1,
                    spb > 0,
            {
                assert(first / k <= start_sample / spb);
                assert((first / k) * spb <= (start_sample / spb) * spb);
                assert((start_sample / spb) * spb <= start_sample);
            }
        }
        let spb_out: u32 = if spb <= 0xffff_ffff {
            spb as u32
        } else {
            0xffff_ffff
        };
        PeakSlice { samples_per_bucket: spb_out, start_sample: (first / k) * spb, channels }
    }
}

/// Only one grid fits a span into a bucket budget.
pub proof fn lemma_fits_grid_unique(span: nat, max_buckets: nat, a: nat, b: nat)
    requires
        fits_grid(span, max_buckets, a),
        fits_grid(span, max_buckets, b),
    ensures
        a == b,
{
    let i = choose|i: nat| a == 256 * #[trigger] pow2(i);
    let j = choose|j: nat| b == 256 * #[trigger] pow2(j);
    if i < j {
        lemma_pow2_unfold(j);
        if i < (j - 1) as nat {
            lemma_pow2_strictly_increases(i, (j - 1) as nat);
        }
        assert(a <= b / 2);
        assert(b != 256) by {
            lemma_pow2_strictly_increases(0, j);
            lemma2_to64();
        }
        lemma_div_ceil_mono(span, a, b / 2);
    } else if j < i {
        lemma_pow2_unfold(i);
        if j < (i - 1) as nat {
            lemma_pow2_strictly_increases(j, (i - 1) as nat);
        }
        assert(b <= a / 2);
        assert(a != 256) by {
            lemma_pow2_strictly_increases(0, i);
            lemma2_to64();
        }
        lemma_div_ceil_mono(span, b, a / 2);
    }
}

/// `end.saturating_sub(start).max(1)`.
pub open spec fn query_span(start: u64, end: u64) -> nat {
    if end > start + 1 {
        (end - start) as nat
    } else {
        1
    }
}

impl PeakPyramid {
    /// Pick the finest grid whose bucket count over `[start, end)` fits in
    /// `max_buckets`, and return the matching window of peaks.
    pub fn query(&self, start_sample: u64, end_sample: u64, max_buckets: u32) -> (r: PeakSlice)
        requires
            div_ceil(query_span(start_sample, end_sample), 0x8000_0000_0000_0000) <= (
            if max_buckets >= 1 {
                max_buckets
            } else {
                1
            }),
            forall|g: nat|
                fits_grid(query_span(start_sample, end_sample), max_buckets as nat, g) ==> query_ok(
                    *self,
                    g,
                    start_sample as nat,
                    end_sample as nat,
                ),
        ensures
            exists|g: nat|
                fits_grid(query_span(start_sample, end_sample), max_buckets as nat, g) && slice_is(
                    r,
                    *self,
                    g,
                    start_sample as nat,
                    end_sample as nat,
                ),
    {
        let d = end_sample.saturating_sub(start_sample);
        let span: u64 = if d >= 1 {
            d
        } else {
            1
        };
        let spb = target_spb(span, max_buckets);
        let r = self.query_with_spb(spb, start_sample, end_sample);
        assert(fits_grid(query_span(start_sample, end_sample), max_buckets as nat, spb as nat));
        r
    }
}

/// One channel at half the resolution: neighboring buckets merged (min
/// of mins, max of maxes), an odd last bucket kept as is.
pub open spec fn halve(ch: Seq<i8>) -> Seq<i8>
    decreases ch.len(),
{
    if ch.len() >= 4 {
        seq![
            if ch[0] <= ch[2] {
                ch[0]
            } else {
                ch[2]
            },
            if ch[1] >= ch[3] {
                ch[1]
            } else {
                ch[3]
            },
        ] + halve(ch.skip(4))
    } else if ch.len() >= 2 {
        seq![ch[0], ch[1]]
    } else {
        seq![]
    }
}

/// The next coarser level: twice the samples per bucket, every channel
/// halved.
pub fn downsample(level: &PeakLevel) -> (r: PeakLevel)
    requires
        level.samples_per_bucket * 2 <= u32::MAX,
        forall|c: int| 0 <= c < level.channels@.len() ==> (#[trigger] level.channels@[c])@.len() % 2 == 0,
    ensures
        r.samples_per_bucket == level.samples_per_bucket * 2,
        r.data().len() == level.data().len(),
        forall|c: int| 0 <= c < r.data().len() ==> #[trigger] r.data()[c] == halve(level.data()[c]),
{
    let mut channels: Vec<Vec<i8>> = Vec::new();
    let mut c: usize = 0;
    while c < level.channels.len()
        invariant
            c <= level.channels@.len(),
            forall|m: int| 0 <= m < level.channels@.len() ==> (#[trigger] level.channels@[m])@.len() % 2 == 0,
            channels@.len() == c,
            forall|m: int| 0 <= m < c ==> (#[trigger] channels@[m])@ == halve(level.channels@[m]@),
        decreases level.channels@.len() - c,
    {
        let ch = &level.channels[c];
        let n = ch.len();
        let mut out: Vec<i8> = Vec::new();
        let mut i: usize = 0;
        proof {
            assert(ch@.skip(0) =~= ch@);
            assert(out@ + halve(ch@) =~= halve(ch@));
        }
        while n - i >= 4
            invariant
                i <= n == ch@.len(),
                n % 2 == 0,
                i % 4 == 0,
                out@ + halve(ch@.skip(i as int)) == halve(ch@),
            decreases n - i,
        {
            let a = if ch[i] <= ch[i + 2] {
                ch[i]
            } else {
                ch[i + 2]
            };
            let b = if ch[i + 1] >= ch[i + 3] {
                ch[i + 1]
            } else {
                ch[i + 3]
            };
            proof {
                let rest = ch@.skip(i as int);
                assert(rest.skip(4) =~= ch@.skip(i + 4));
                assert(halve(rest) == seq![a, b] + halve(ch@.skip(i + 4)));
                crate::text::lemma_add_assoc(out@, seq![a, b], halve(ch@.skip(i + 4)));
            }
            let ghost before = out@;
            out.push(a);
            out.push(b);
            proof {
                assert(out@ =~= before + seq![a, b]);
            }
            i += 4;
        }
        if i < n {
            proof {
                let rest = ch@.skip(i as int);
                assert(rest.len() == 2);
                assert(halve(rest) == seq![ch@[i as int], ch@[i + 1]]);
            }
            let ghost before = out@;
            out.push(ch[i]);
            out.push(ch[i + 1]);
            proof {
                assert(out@ =~= before + seq![ch@[i as int], ch@[i + 1]]);
            }
        } else {
            proof {
                assert(halve(ch@.skip(i as int)) =~= Seq::<i8>::empty());
                assert(out@ + Seq::<i8>::empty() =~= out@);
            }
        }
        channels.push(out);
        c += 1;
    }
    let r = PeakLevel { samples_per_bucket: level.samples_per_bucket * 2, channels };
    r
}


/// Length of a halved channel: one bucket per two, rounded up.
pub proof fn lemma_halve_len(ch: Seq<i8>)
    requires
        ch.len() % 2 == 0,
    ensures
        halve(ch).len() == 2 * ((ch.len() / 2 + 1) / 2),
    decreases ch.len(),
{
    if ch.len() >= 4 {
        lemma_halve_len(ch.skip(4));
    }
}

/// The levels of a pyramid built on a base level: each level the previous
/// one halved at twice the samples per bucket, up to the first whose
/// first channel has at most `MAX_TOP_LEVEL_BUCKETS` buckets.
pub open spec fn built_levels(levels: Seq<(u32, Seq<Seq<i8>>)>, base: Seq<Seq<i8>>) -> bool {
    &&& levels.len() >= 1
    &&& levels[0] == (BASE_SAMPLES_PER_BUCKET, base)
    &&& forall|i: int|
        0 < i < levels.len() ==> {
            &&& (#[trigger] levels[i]).0 == levels[i - 1].0 * 2
            &&& levels[i].1.len() == levels[i - 1].1.len()
            &&& forall|c: int| 0 <= c < levels[i].1.len() ==> #[trigger] levels[i].1[c] == halve(levels[i - 1].1[c])
        }
    &&& forall|i: int| 0 <= i < levels.len() - 1 ==> (#[trigger] levels[i]).1[0].len() / 2 > MAX_TOP_LEVEL_BUCKETS
    &&& levels.last().1[0].len() / 2 <= MAX_TOP_LEVEL_BUCKETS
}

impl PeakPyramid {
    /// The pyramid of a base level (one `[min, max, ...]` vector per
    /// channel at `BASE_SAMPLES_PER_BUCKET`): coarser levels are added,
    /// each halving the previous, until one fits a whole screen.
    #[verifier::rlimit(40)]
    pub fn from_base(base: Vec<Vec<i8>>) -> (r: Self)
        requires
            base@.len() >= 1,
            forall|c: int| 0 <= c < base@.len() ==> (#[trigger] base@[c])@.len() % 2 == 0,
            base@[0]@.len() <= u32::MAX,
        ensures
            built_levels(r.data(), Seq::new(base@.len(), |c: int| base@[c]@)),
    {
        let ghost b0 = base@[0]@.len() / 2;
        let ghost base_data = Seq::new(base@.len(), |c: int| base@[c]@);
        let first = PeakLevel { samples_per_bucket: BASE_SAMPLES_PER_BUCKET, channels: base };
        assert(first.data() =~= base_data);
        let mut levels: Vec<PeakLevel> = Vec::new();
        levels.push(first);
        let mut done = false;
        while !done
            invariant
                levels@.len() >= 1,
                levels@[0].samples_per_bucket == BASE_SAMPLES_PER_BUCKET,
                levels@[0].data() == base_data,
                base_data.len() >= 1,
                forall|i: int|
                    0 < i < levels@.len() ==> {
                        &&& (#[trigger] levels@[i]).samples_per_bucket == levels@[i - 1].samples_per_bucket * 2
                        &&& levels@[i].data().len() == levels@[i - 1].data().len()
                        &&& forall|c: int|
                            0 <= c < levels@[i].data().len() ==> #[trigger] levels@[i].data()[c] == halve(
                                levels@[i - 1].data()[c],
                            )
                    },
                forall|i: int| 0 <= i < levels@.len() - 1 ==> (#[trigger] levels@[i]).data()[0].len() / 2 > MAX_TOP_LEVEL_BUCKETS,
                done ==> levels@.last().data()[0].len() / 2 <= MAX_TOP_LEVEL_BUCKETS,
                levels@.last().data().len() == base_data.len(),
                levels@.last().channels@.len() == base_data.len(),
                forall|c: int| 0 <= c < levels@.last().channels@.len() ==> (#[trigger] levels@.last().channels@[c])@.len() % 2 == 0,
                levels@.last().samples_per_bucket % 256 == 0,
                levels@.last().samples_per_bucket >= 256,
                b0 <= 0x7fff_ffff,
                (levels@.last().samples_per_bucket / 256) as int * (levels@.last().data()[0].len() / 2 - 1) <= b0,
            decreases levels@.last().data()[0].len(), if done { 0int } else { 1int },
        {
            let n = levels.len();
            let last = &levels[n - 1];
            let len0 = last.channels[0].len();
            assert(last.data()[0] == last.channels@[0]@);
            if len0 / 2 <= MAX_TOP_LEVEL_BUCKETS {
                done = true;
            } else {
                let spb = last.samples_per_bucket;
                let ghost m: int = (spb / 256) as int;
                let ghost b: int = (len0 / 2) as int;
                assert(m * (b - 1) <= b0);
                assert(m * 2047 <= b0) by (nonlinear_arith)
                    requires
                        m * (b - 1) <= b0,
                        b > 2048,
                        m >= 1,
                ;
                let next = downsample(last);
                proof {
                    lemma_halve_len(last.channels@[0]@);
                    assert(next.data()[0] == halve(last.data()[0]));
                    let b2: int = (b + 1) / 2;
                    assert(2 * b2 <= b + 1);
                    assert((2 * m) * (b2 - 1) <= b0) by (nonlinear_arith)
                        requires
                            m * (b - 1) <= b0,
                            b > 2048,
                            2 * b2 <= b + 1,
                            m >= 1,
                    ;
                    assert forall|c: int| 0 <= c < next.channels@.len() implies (#[trigger] next.channels@[c])@.len() % 2 == 0 by {
                        assert(next.data()[c] == next.channels@[c]@);
                        assert(last.data()[c] == last.channels@[c]@);
                        lemma_halve_len(last.channels@[c]@);
                    }
                }
                let ghost prev = levels@;
                levels.push(next);
                proof {
                    assert(levels@[n as int] == next);
                    assert(levels@.last() == next);
                    assert forall|i: int| 0 <= i < levels@.len() - 1 implies (#[trigger] levels@[i]).data()[0].len() / 2
                        > MAX_TOP_LEVEL_BUCKETS by {
                        if i < n - 1 {
                            assert(levels@[i] == prev[i]);
                        }
                    }
                }
            }
        }
        let r = PeakPyramid { levels };
        proof {
            let d = r.data();
            assert(d[0] == (BASE_SAMPLES_PER_BUCKET, base_data));
            assert forall|i: int| 0 < i < d.len() implies {
                &&& (#[trigger] d[i]).0 == d[i - 1].0 * 2
                &&& d[i].1.len() == d[i - 1].1.len()
                &&& forall|c: int| 0 <= c < d[i].1.len() ==> #[trigger] d[i].1[c] == halve(d[i - 1].1[c])
            } by {
                assert(d[i] == (r.levels@[i].samples_per_bucket, r.levels@[i].data()));
                assert(d[i - 1] == (r.levels@[i - 1].samples_per_bucket, r.levels@[i - 1].data()));
                assert(r.levels@[i].samples_per_bucket == r.levels@[i - 1].samples_per_bucket * 2);
            }
            assert forall|i: int| 0 <= i < d.len() - 1 implies (#[trigger] d[i]).1[0].len() / 2 > MAX_TOP_LEVEL_BUCKETS by {
                assert(d[i] == (r.levels@[i].samples_per_bucket, r.levels@[i].data()));
                assert(r.levels@[i].data()[0].len() / 2 > MAX_TOP_LEVEL_BUCKETS);
            }
            assert(d.last() == (r.levels@.last().samples_per_bucket, r.levels@.last().data()));
        }
        r
    }
}

} // verus!
