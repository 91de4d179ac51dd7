//! What the project derives from its regions: the position-ordered track
//! list with default titles, the next title to suggest, and the audible
//! state of each layer inside a track.

use vstd::prelude::*;
use crate::project::{
    chain_views, MasteringPluginView, ChainTarget, Layer, MasteringPluginCfg, ProjectState, Region, RegionView, TrackInfo, lookup,
    get_entry, layer_index_of, index_of_id, opt_view,
};
use crate::text::{dec, dec_zero, push_dec, push_dec_zero, chars_of, string_of, extend_str};
use crate::paths::{file_name, path_piece, plain_path, spec_file_name};

verus! {

/// Stable insertion of index `x` into `order`, which is sorted by
/// `starts`: after every index whose start is not later.
pub open spec fn insert_sorted(order: Seq<int>, starts: Seq<u64>, x: int) -> Seq<int>
    decreases order.len(),
{
    if order.len() == 0 {
        seq![x]
    } else if starts[order.last()] <= starts[x] {
        order.push(x)
    } else {
        insert_sorted(order.drop_last(), starts, x).push(order.last())
    }
}

/// The first `n` indices, stably sorted by `starts`.
pub open spec fn sorted_order(starts: Seq<u64>, n: int) -> Seq<int>
    decreases n,
{
    if n <= 0 {
        seq![]
    } else {
        insert_sorted(sorted_order(starts, n - 1), starts, n - 1)
    }
}

/// Indices below `n`, each once, ordered by `starts`.
pub open spec fn is_order(order: Seq<int>, starts: Seq<u64>, n: int) -> bool {
    &&& order.len() == n
    &&& forall|i: int| 0 <= i < order.len() ==> 0 <= #[trigger] order[i] < n
    &&& forall|i: int, j: int|
        0 <= i < j < order.len() ==> #[trigger] order[i] != #[trigger] order[j]
    &&& forall|i: int, j: int|
        0 <= i < j < order.len() ==> starts[#[trigger] order[i]] <= starts[#[trigger] order[j]]
}

proof fn lemma_insert_sorted(order: Seq<int>, starts: Seq<u64>, x: int, n: int)
    requires
        0 <= x < starts.len(),
        n <= starts.len(),
        x >= n,
        order.len() <= n,
        forall|i: int| 0 <= i < order.len() ==> 0 <= #[trigger] order[i] < n,
        forall|i: int, j: int|
            0 <= i < j < order.len() ==> #[trigger] order[i] != #[trigger] order[j],
        forall|i: int, j: int|
            0 <= i < j < order.len() ==> starts[#[trigger] order[i]] <= starts[#[trigger] order[j]],
    ensures
        ({
            let o = insert_sorted(order, starts, x);
            &&& o.len() == order.len() + 1
            &&& forall|i: int| 0 <= i < o.len() ==> (0 <= #[trigger] o[i] < n || o[i] == x)
            &&& forall|i: int| 0 <= i < o.len() ==> (#[trigger] o[i] == x || order.contains(o[i]))
            &&& o.contains(x)
            &&& forall|i: int, j: int| 0 <= i < j < o.len() ==> #[trigger] o[i] != #[trigger] o[j]
            &&& forall|i: int, j: int|
                0 <= i < j < o.len() ==> starts[#[trigger] o[i]] <= starts[#[trigger] o[j]]
        }),
    decreases order.len(),
{
    let o = insert_sorted(order, starts, x);
    if order.len() == 0 {
        assert(o[0] == x);
    } else if starts[order.last()] <= starts[x] {
        assert(o[o.len() - 1] == x);
        assert forall|i: int| 0 <= i < o.len() implies (#[trigger] o[i] == x || order.contains(
            o[i],
        )) by {
            if i < order.len() {
                assert(o[i] == order[i]);
            }
        }
        assert forall|i: int, j: int| 0 <= i < j < o.len() implies starts[#[trigger] o[i]]
            <= starts[#[trigger] o[j]] by {
            if j == o.len() - 1 {
                if i < order.len() - 1 {
                    assert(starts[order[i]] <= starts[order[order.len() - 1]]);
                }
            }
        }
    } else {
        let d = order.drop_last();
        let last = order.last();
        assert forall|i: int| 0 <= i < d.len() implies 0 <= #[trigger] d[i] < n by {
            assert(d[i] == order[i]);
        }
        assert forall|i: int, j: int| 0 <= i < j < d.len() implies #[trigger] d[i]
            != #[trigger] d[j] by {
            assert(d[i] == order[i] && d[j] == order[j]);
        }
        assert forall|i: int, j: int| 0 <= i < j < d.len() implies starts[#[trigger] d[i]]
            <= starts[#[trigger] d[j]] by {
            assert(d[i] == order[i] && d[j] == order[j]);
        }
        lemma_insert_sorted(d, starts, x, n);
        let p = insert_sorted(d, starts, x);
        assert(o == p.push(last));
        assert forall|i: int| 0 <= i < o.len() implies (#[trigger] o[i] == x || order.contains(
            o[i],
        )) by {
            if i < p.len() {
                assert(o[i] == p[i]);
                if p[i] != x {
                    let k = choose|k: int| 0 <= k < d.len() && d[k] == p[i];
                    assert(order[k] == d[k]);
                }
            } else {
                assert(order[order.len() - 1] == last);
            }
        }
        assert(p.contains(x));
        let kx = choose|k: int| 0 <= k < p.len() && p[k] == x;
        assert(o[kx] == x);
        assert forall|i: int, j: int| 0 <= i < j < o.len() implies #[trigger] o[i]
            != #[trigger] o[j] by {
            if j == o.len() - 1 {
                assert(o[j] == last);
                if o[i] == x {
                } else {
                    assert(o[i] == p[i]);
                    let k = choose|k: int| 0 <= k < d.len() && d[k] == p[i];
                    assert(d[k] == order[k]);
                    assert(order[order.len() - 1] == last);
                }
            } else {
                assert(o[i] == p[i] && o[j] == p[j]);
            }
        }
        assert forall|i: int, j: int| 0 <= i < j < o.len() implies starts[#[trigger] o[i]]
            <= starts[#[trigger] o[j]] by {
            if j == o.len() - 1 {
                assert(o[j] == last);
                if o[i] == x {
                } else {
                    assert(o[i] == p[i]);
                    let k = choose|k: int| 0 <= k < d.len() && d[k] == p[i];
                    assert(d[k] == order[k]);
                    assert(order[order.len() - 1] == last);
                    assert(starts[order[k]] <= starts[order[order.len() - 1]]);
                }
            } else {
                assert(o[i] == p[i] && o[j] == p[j]);
            }
        }
    }
}

/// The stable order is a permutation of the indices, sorted by start.
pub proof fn lemma_sorted_order(starts: Seq<u64>, n: int)
    requires
        0 <= n <= starts.len(),
    ensures
        is_order(sorted_order(starts, n), starts, n),
    decreases n,
{
    if n > 0 {
        lemma_sorted_order(starts, n - 1);
        let prev = sorted_order(starts, n - 1);
        lemma_insert_sorted(prev, starts, n - 1, n - 1);
        let o = sorted_order(starts, n);
        assert forall|i: int| 0 <= i < o.len() implies 0 <= #[trigger] o[i] < n by {}
    }
}

/// Inserting where the later entries are exactly those with a later
/// start is the stable insertion.
proof fn lemma_insert_at(o: Seq<int>, starts: Seq<u64>, x: int, j: int)
    requires
        0 <= j <= o.len(),
        j == 0 || starts[o[j - 1]] <= starts[x],
        forall|m: int| j <= m < o.len() ==> starts[#[trigger] o[m]] > starts[x],
    ensures
        insert_sorted(o, starts, x) == o.insert(j, x),
    decreases o.len(),
{
    if o.len() == j {
        if o.len() > 0 {
            assert(o.insert(j, x) =~= o.push(x));
        } else {
            assert(o.insert(j, x) =~= seq![x]);
        }
    } else {
        assert(starts[o[o.len() - 1]] > starts[x]);
        let d = o.drop_last();
        assert forall|m: int| j <= m < d.len() implies starts[#[trigger] d[m]] > starts[x] by {
            assert(d[m] == o[m]);
        }
        if j > 0 {
            assert(d[j - 1] == o[j - 1]);
        }
        lemma_insert_at(d, starts, x, j);
        assert(d.insert(j, x).push(o.last()) =~= o.insert(j, x));
    }
}

/// Start positions of the regions.
pub open spec fn starts_of(rs: Seq<Region>) -> Seq<u64> {
    rs.map_values(|r: Region| r.start)
}

/// Indices as integers.
pub open spec fn as_ints(v: Seq<usize>) -> Seq<int> {
    v.map_values(|u: usize| u as int)
}

/// Indices of `keys` in key order, stable for equal keys (a stable
/// sort by key).
pub fn order_by_keys(keys: &Vec<u64>) -> (r: Vec<usize>)
    ensures
        as_ints(r@) == sorted_order(keys@, keys@.len() as int),
        is_order(as_ints(r@), keys@, keys@.len() as int),
{
    let ghost starts = keys@;
    let mut order: Vec<usize> = Vec::new();
    let mut x: usize = 0;
    while x < keys.len()
        invariant
            x <= keys@.len(),
            starts == keys@,
            as_ints(order@) == sorted_order(starts, x as int),
            is_order(as_ints(order@), starts, x as int),
        decreases keys@.len() - x,
    {
        let sx = keys[x];
        proof {
            assert forall|i: int| 0 <= i < order@.len() implies (#[trigger] order@[i]) < x by {
                assert(as_ints(order@)[i] == order@[i] as int);
            }
        }
        let mut j: usize = order.len();
        while j > 0 && keys[order[j - 1]] > sx
            invariant
                j <= order@.len(),
                starts == keys@,
                sx == starts[x as int],
                x < keys@.len(),
                is_order(as_ints(order@), starts, x as int),
                forall|i: int| 0 <= i < order@.len() ==> (#[trigger] order@[i]) < x,
                forall|m: int| j <= m < order@.len() ==> starts[#[trigger] as_ints(order@)[m]] > sx,
            decreases j,
        {
            proof {
                assert(as_ints(order@)[j - 1] == order@[j - 1] as int);
            }
            j -= 1;
        }
        proof {
            let o = as_ints(order@);
            if j > 0 {
                assert(o[j - 1] == order@[j - 1] as int);
                assert(starts[o[j - 1]] <= starts[x as int]);
            }
            lemma_insert_at(o, starts, x as int, j as int);
            lemma_sorted_order(starts, x + 1);
        }
        let ghost before = order@;
        order.insert(j, x);
        proof {
            assert(as_ints(order@) =~= as_ints(before).insert(j as int, x as int));
        }
        x += 1;
    }
    order
}

/// Indices of the regions in position order (stable for equal starts).
pub fn sorted_indices(rs: &Vec<Region>) -> (r: Vec<usize>)
    ensures
        as_ints(r@) == sorted_order(starts_of(rs@), rs@.len() as int),
        is_order(as_ints(r@), starts_of(rs@), rs@.len() as int),
{
    let mut keys: Vec<u64> = Vec::new();
    let mut i: usize = 0;
    while i < rs.len()
        invariant
            i <= rs@.len(),
            keys@ == starts_of(rs@).take(i as int),
        decreases rs@.len() - i,
    {
        keys.push(rs[i].start);
        i += 1;
        assert(keys@ =~= starts_of(rs@).take(i as int));
    }
    assert(keys@ =~= starts_of(rs@));
    order_by_keys(&keys)
}

/// The title a region shows as the `k`-th track (0-based): its own title,
/// or "Track NN" from its number.
pub open spec fn track_title(r: Region, k: int) -> Seq<char> {
    match r.title {
        Some(t) => t@,
        None => "Track "@ + dec_zero((k + 1) as nat, 2),
    }
}

/// Track `k` of the regions in position order.
pub open spec fn track_is(t: TrackInfo, rs: Seq<Region>, k: int) -> bool {
    let r = rs[sorted_order(starts_of(rs), rs.len() as int)[k]];
    &&& t.id == r.id
    &&& t.number == k + 1
    &&& t.title@ == track_title(r, k)
    &&& t.start_sample == r.start
    &&& t.end_sample == r.end
    &&& t.isrc == r.isrc
    &&& t.gap_before_ms is None
    &&& t.gap_before_effective_ms == 0
}

impl ProjectState {
    /// Tracks ordered by position, numbered from 1, with resolved titles.
    pub fn tracks(&self) -> (r: Vec<TrackInfo>)
        requires
            self.project.regions@.len() < u32::MAX,
        ensures
            r@.len() == self.project.regions@.len(),
            forall|k: int| 0 <= k < r@.len() ==> track_is(#[trigger] r@[k], self.project.regions@, k),
    {
        let rs = &self.project.regions;
        let order = sorted_indices(rs);
        let ghost o = sorted_order(starts_of(rs@), rs@.len() as int);
        let mut out: Vec<TrackInfo> = Vec::new();
        let mut k: usize = 0;
        while k < order.len()
            invariant
                k <= order@.len(),
                order@.len() == rs@.len(),
                rs@.len() < u32::MAX,
                rs@ == self.project.regions@,
                as_ints(order@) == o,
                o == sorted_order(starts_of(rs@), rs@.len() as int),
                is_order(o, starts_of(rs@), rs@.len() as int),
                out@.len() == k,
                forall|m: int| 0 <= m < k ==> track_is(#[trigger] out@[m], rs@, m),
            decreases order@.len() - k,
        {
            proof {
                assert(o[k as int] == order@[k as int] as int);
            }
            let r = &rs[order[k]];
            let title = match &r.title {
                Some(t) => t.clone(),
                None => {
                    let mut v: Vec<char> = chars_of("Track ");
                    push_dec_zero(&mut v, (k + 1) as u64, 2);
                    string_of(&v)
                },
            };
            out.push(
                TrackInfo {
                    id: r.id,
                    number: (k + 1) as u32,
                    title,
                    start_sample: r.start,
                    end_sample: r.end,
                    isrc: r.isrc.clone(),
                    gap_before_ms: None,
                    gap_before_effective_ms: 0,
                },
            );
            k += 1;
        }
        out
    }
}

/// Index of the last '-' in `s`, or -1.
pub open spec fn last_dash(s: Seq<char>) -> int
    decreases s.len(),
{
    if s.len() == 0 {
        -1
    } else if s.last() == '-' {
        s.len() - 1
    } else {
        last_dash(s.drop_last())
    }
}

pub open spec fn is_digit(c: char) -> bool {
    '0' <= c && c <= '9'
}

/// Value of a string of decimal digits.
pub open spec fn digits_value(s: Seq<char>) -> nat
    decreases s.len(),
{
    if s.len() == 0 {
        0
    } else {
        digits_value(s.drop_last()) * 10 + (s.last() as nat - '0' as nat) as nat
    }
}

/// `u32::from_str`: an optional '+' and at least one digit, within range.
pub open spec fn parse_u32(s: Seq<char>) -> Option<u32> {
    let d = unsigned_digits(s);
    if d.len() > 0 && all_digits(d) && digits_value(d) <= u32::MAX {
        Some(digits_value(d) as u32)
    } else {
        None
    }
}

/// The digits part of an unsigned number: without a leading '+'.
pub open spec fn unsigned_digits(s: Seq<char>) -> Seq<char> {
    if s.len() > 0 && s[0] == '+' {
        s.drop_first()
    } else {
        s
    }
}

pub open spec fn all_digits(d: Seq<char>) -> bool {
    forall|i: int| 0 <= i < d.len() ==> is_digit(#[trigger] d[i])
}

/// A title split into its base and a trailing `-<n>` index, if any
/// ("Jam-2" gives ("Jam", Some(2)), "Jam" gives ("Jam", None)).
pub open spec fn spec_split_indexed(t: Seq<char>) -> (Seq<char>, Option<u32>) {
    let k = last_dash(t);
    if k > 0 && parse_u32(t.skip(k + 1)) is Some {
        (t.take(k), parse_u32(t.skip(k + 1)))
    } else {
        (t, None)
    }
}

proof fn lemma_last_dash(s: Seq<char>)
    ensures
        -1 <= last_dash(s) < s.len(),
        last_dash(s) >= 0 ==> s[last_dash(s)] == '-',
        forall|i: int| last_dash(s) < i < s.len() ==> #[trigger] s[i] != '-',
    decreases s.len(),
{
    if s.len() > 0 && s.last() != '-' {
        lemma_last_dash(s.drop_last());
        assert forall|i: int| last_dash(s) < i < s.len() implies #[trigger] s[i] != '-' by {
            if i < s.len() - 1 {
                assert(s[i] == s.drop_last()[i]);
            }
        }
    }
}

proof fn lemma_digits_grow(s: Seq<char>, k: int)
    requires
        0 <= k <= s.len(),
    ensures
        digits_value(s.take(k)) <= digits_value(s),
    decreases s.len() - k,
{
    if k == s.len() {
        assert(s.take(k) =~= s);
    } else {
        lemma_digits_grow(s, k + 1);
        assert(s.take(k + 1).drop_last() =~= s.take(k));
        assert(digits_value(s.take(k)) <= digits_value(s.take(k + 1))) by (nonlinear_arith)
            requires
                digits_value(s.take(k + 1)) >= digits_value(s.take(k)) * 10,
        {
        }
    }
}

/// An unsigned decimal (`from_str` of an unsigned type whose largest value
/// is `max`): an optional '+' and at least one digit, at most `max`.
pub open spec fn parse_unsigned(s: Seq<char>, max: nat) -> Option<nat> {
    let d = unsigned_digits(s);
    if d.len() > 0 && all_digits(d) && digits_value(d) <= max {
        Some(digits_value(d))
    } else {
        None
    }
}

/// `from_str` of an unsigned integer type whose largest value is `max`,
/// on characters.
pub fn parse_unsigned_chars(s: &[char], max: u64) -> (r: Option<u64>)
    ensures
        match parse_unsigned(s@, max as nat) {
            Some(v) => r == Some(v as u64),
            None => r is None,
        },
{
    let mut i: usize = 0;
    if s.len() > 0 && s[0] == '+' {
        i = 1;
    }
    let ghost d = unsigned_digits(s@);
    let start = i;
    proof {
        assert(d =~= s@.skip(start as int));
    }
    if start >= s.len() {
        proof {
            assert(d.len() == 0);
        }
        return None;
    }
    let mut acc: u64 = 0;
    while i < s.len()
        invariant
            start <= i <= s@.len(),
            start == 0 || start == 1,
            d == s@.skip(start as int),
            d == unsigned_digits(s@),
            d.len() > 0,
            forall|m: int| 0 <= m < i - start ==> is_digit(#[trigger] d[m]),
            acc == digits_value(d.take(i - start)),
            acc <= max,
        decreases s@.len() - i,
    {
        let c = s[i];
        if !('0' <= c && c <= '9') {
            proof {
                assert(d[i - start] == c);
                assert(!is_digit(d[i - start]));
                assert(!all_digits(d));
            }
            return None;
        }
        let dv = (c as u32 - 48) as u64;
        proof {
            assert(d[i - start] == c);
            assert(d.take(i - start + 1).drop_last() =~= d.take(i - start));
            assert(d.take(i - start + 1).last() == c);
        }
        if dv > max || acc > (max - dv) / 10 {
            proof {
                assert(acc * 10 + dv > max) by (nonlinear_arith)
                    requires
                        dv > max || acc > (max - dv) / 10,
                        dv <= 9,
                ;
                lemma_digits_grow(d, i - start + 1);
            }
            return None;
        }
        proof {
            assert(acc * 10 + dv <= max) by (nonlinear_arith)
                requires
                    acc <= (max - dv) / 10,
                    dv <= max,
            ;
        }
        acc = acc * 10 + dv;
        i += 1;
    }
    proof {
        assert(d.take(d.len() as int) =~= d);
    }
    Some(acc)
}

/// `u32::from_str` on characters.
fn parse_u32_chars(s: &[char]) -> (r: Option<u32>)
    ensures
        r == parse_u32(s@),
{
    match parse_unsigned_chars(s, 0xffff_ffff) {
        Some(v) => Some(v as u32),
        None => None,
    }
}

/// Split a title into its base and a trailing `-<n>` index, if any.
pub fn split_indexed(title: &str) -> (r: (String, Option<u32>))
    ensures
        r.0@ == spec_split_indexed(title@).0,
        r.1 == spec_split_indexed(title@).1,
{
    let t = chars_of(title);
    proof {
        lemma_last_dash(t@);
    }
    let mut k: usize = t.len();
    while k > 0 && t[k - 1] != '-'
        invariant
            k <= t@.len(),
            forall|i: int| k <= i < t@.len() ==> #[trigger] t@[i] != '-',
            -1 <= last_dash(t@) < t@.len(),
            last_dash(t@) >= 0 ==> t@[last_dash(t@)] == '-',
            forall|i: int| last_dash(t@) < i < t@.len() ==> #[trigger] t@[i] != '-',
        decreases k,
    {
        k -= 1;
    }
    if k > 1 {
        let dash = k - 1;
        proof {
            assert(last_dash(t@) == dash);
        }
        let mut idx: Vec<char> = Vec::new();
        let mut j = k;
        while j < t.len()
            invariant
                k <= j <= t@.len(),
                idx@ == t@.subrange(k as int, j as int),
            decreases t@.len() - j,
        {
            idx.push(t[j]);
            j += 1;
        }
        proof {
            assert(idx@ =~= t@.skip(k as int));
        }
        match parse_u32_chars(idx.as_slice()) {
            Some(n) => {
                let mut base: Vec<char> = Vec::new();
                let mut m: usize = 0;
                while m < dash
                    invariant
                        m <= dash < t@.len(),
                        base@ == t@.take(m as int),
                    decreases dash - m,
                {
                    base.push(t[m]);
                    m += 1;
                    proof {
                        assert(base@ =~= t@.take(m as int));
                    }
                }
                return (string_of(&base), Some(n));
            },
            None => {},
        }
    } else {
        proof {
            if k == 1 {
                assert(last_dash(t@) == 0);
            } else {
                assert(last_dash(t@) < 0);
            }
        }
    }
    (String::from_str(title), None)
}

/// The titled region with the highest id among the first `n` (the last
/// one when ids repeat), or -1.
pub open spec fn latest_titled(rs: Seq<Region>, n: int) -> int
    decreases n,
{
    if n <= 0 {
        -1
    } else {
        let p = latest_titled(rs, n - 1);
        let r = rs[n - 1];
        if r.title is Some && (p < 0 || r.id >= rs[p].id) {
            n - 1
        } else {
            p
        }
    }
}

/// Highest index used with `base` among the first `n` titles; a bare
/// title counts as index 1.
pub open spec fn max_index(rs: Seq<Region>, base: Seq<char>, n: int) -> nat
    decreases n,
{
    if n <= 0 {
        0
    } else {
        let p = max_index(rs, base, n - 1);
        match rs[n - 1].title {
            Some(t) => {
                let (b, i) = spec_split_indexed(t@);
                let v: nat = match i {
                    Some(x) => x as nat,
                    None => 1,
                };
                if b == base && v > p {
                    v
                } else {
                    p
                }
            },
            None => p,
        }
    }
}

/// The base of the most recently titled track's title.
pub open spec fn latest_base(rs: Seq<Region>) -> Seq<char> {
    spec_split_indexed(rs[latest_titled(rs, rs.len() as int)].title->0@).0
}

/// The suggested next title: the base of the most recently titled track
/// with the next free index; empty when no track is titled.
pub open spec fn suggestion(rs: Seq<Region>) -> Seq<char> {
    if latest_titled(rs, rs.len() as int) < 0 {
        seq![]
    } else {
        latest_base(rs) + "-"@ + dec(max_index(rs, latest_base(rs), rs.len() as int) + 1)
    }
}

proof fn lemma_latest_titled(rs: Seq<Region>, n: int)
    requires
        0 <= n <= rs.len(),
    ensures
        -1 <= latest_titled(rs, n) < n,
        latest_titled(rs, n) >= 0 ==> rs[latest_titled(rs, n)].title is Some,
    decreases n,
{
    if n > 0 {
        lemma_latest_titled(rs, n - 1);
    }
}

impl ProjectState {
    /// Suggest a title for the next track: take the most recently titled
    /// region, strip any trailing `-<n>` index, and propose the base with
    /// the next free index ("Jam", then "Jam-2", "Jam-3"...). Empty when
    /// no track has been titled yet.
    pub fn suggest_title(&self) -> (r: String)
        requires
            latest_titled(self.project.regions@, self.project.regions@.len() as int) >= 0
                ==> max_index(
                self.project.regions@,
                latest_base(self.project.regions@),
                self.project.regions@.len() as int,
            ) < u32::MAX,
        ensures
            r@ == suggestion(self.project.regions@),
    {
        let rs = &self.project.regions;
        proof {
            lemma_latest_titled(rs@, rs@.len() as int);
        }
        let mut best: Option<usize> = None;
        let mut i: usize = 0;
        while i < rs.len()
            invariant
                i <= rs@.len(),
                rs@ == self.project.regions@,
                match best {
                    Some(b) => b as int == latest_titled(rs@, i as int) && b < i,
                    None => latest_titled(rs@, i as int) < 0,
                },
            decreases rs@.len() - i,
        {
            proof {
                lemma_latest_titled(rs@, i as int);
            }
            if rs[i].title.is_some() {
                let newer = match best {
                    None => true,
                    Some(b) => rs[i].id >= rs[b].id,
                };
                if newer {
                    best = Some(i);
                }
            }
            i += 1;
        }
        let b = match best {
            None => {
                return String::new();
            },
            Some(b) => b,
        };
        let title = match &rs[b].title {
            Some(t) => t,
            None => {
                return String::new();
            },
        };
        let (base, _) = split_indexed(title.as_str());
        let ghost bs = base@;
        let mut top: u32 = 0;
        let mut k: usize = 0;
        while k < rs.len()
            invariant
                k <= rs@.len(),
                rs@ == self.project.regions@,
                bs == base@,
                bs == latest_base(rs@),
                top as nat == max_index(rs@, bs, k as int),
                max_index(rs@, bs, rs@.len() as int) < u32::MAX,
            decreases rs@.len() - k,
        {
            proof {
                lemma_max_index_mono(rs@, bs, k + 1, rs@.len() as int);
            }
            match &rs[k].title {
                Some(t) => {
                    let (tb, ti) = split_indexed(t.as_str());
                    let v: u32 = match ti {
                        Some(x) => x,
                        None => 1,
                    };
                    if tb == base && v > top {
                        top = v;
                    }
                },
                None => {},
            }
            k += 1;
        }
        let mut out: Vec<char> = chars_of(base.as_str());
        out.push('-');
        push_dec(&mut out, (top + 1) as u64);
        proof {
            assert(out@ =~= latest_base(rs@) + "-"@ + dec(max_index(rs@, bs, rs@.len() as int) + 1)) by {
                reveal_strlit("-");
            }
        }
        string_of(&out)
    }
}

proof fn lemma_max_index_mono(rs: Seq<Region>, base: Seq<char>, j: int, k: int)
    requires
        0 <= j <= k,
    ensures
        max_index(rs, base, j) <= max_index(rs, base, k),
    decreases k - j,
{
    if j < k {
        lemma_max_index_mono(rs, base, j, k - 1);
    }
}

/// A layer's resolved mix state inside a context: whether it is heard,
/// and its gain as the bit pattern of the `f32` gain in dB.
#[derive(Debug, Clone, Copy, PartialEq, Eq)]
pub struct LayerLevel {
    pub audible: bool,
    pub gain_db_bits: u32,
}

/// A layer's (muted, soloed, gain bits), with the region's overrides
/// applied when there is a region.
pub open spec fn resolved(l: Layer, region: Option<RegionView>) -> (bool, bool, u32) {
    match region {
        Some(r) => (
            match lookup(r.mute_overrides, l.id) {
                Some(m) => m,
                None => l.muted,
            },
            match lookup(r.solo_overrides, l.id) {
                Some(s) => s,
                None => l.solo,
            },
            match lookup(r.gain_overrides, l.id) {
                Some(g) => g,
                None => l.gain_db_bits,
            },
        ),
        None => (l.muted, l.solo, l.gain_db_bits),
    }
}

/// Whether any layer is soloed in the context.
pub open spec fn any_solo(layers: Seq<Layer>, region: Option<RegionView>) -> bool {
    exists|i: int| 0 <= i < layers.len() && resolved(#[trigger] layers[i], region).1
}

/// The level of layer `l` in the context: when any layer is soloed only
/// soloed layers are heard (solo wins over mute), otherwise every
/// unmuted layer is.
pub open spec fn level_of(l: Layer, layers: Seq<Layer>, region: Option<RegionView>) -> LayerLevel {
    let (muted, solo, gain) = resolved(l, region);
    LayerLevel {
        audible: if any_solo(layers, region) {
            solo
        } else {
            !muted
        },
        gain_db_bits: gain,
    }
}

pub open spec fn region_opt_view(region: Option<&Region>) -> Option<RegionView> {
    match region {
        Some(r) => Some(r@),
        None => None,
    }
}

fn resolve_one(l: &Layer, region: Option<&Region>) -> (r: (bool, bool, u32))
    ensures
        r == resolved(*l, region_opt_view(region)),
{
    match region {
        Some(rg) => {
            let muted = match get_entry(&rg.mute_overrides, l.id) {
                Some(m) => m,
                None => l.muted,
            };
            let solo = match get_entry(&rg.solo_overrides, l.id) {
                Some(x) => x,
                None => l.solo,
            };
            let gain = match get_entry(&rg.gain_overrides, l.id) {
                Some(g) => g,
                None => l.gain_db_bits,
            };
            (muted, solo, gain)
        },
        None => (l.muted, l.solo, l.gain_db_bits),
    }
}

impl ProjectState {
    /// The resolved state of every layer, either for the session defaults
    /// (`region: None`) or inside a track region (its overrides applied).
    /// A soloed layer is always heard; when any layer is soloed, only
    /// soloed layers are.
    pub fn layer_levels(&self, region: Option<&Region>) -> (r: Vec<LayerLevel>)
        ensures
            r@.len() == self.project.layers@.len(),
            forall|i: int|
                0 <= i < r@.len() ==> #[trigger] r@[i] == level_of(
                    self.project.layers@[i],
                    self.project.layers@,
                    region_opt_view(region),
                ),
            forall|i: int|
                0 <= i < r@.len() && resolved(self.project.layers@[i], region_opt_view(region)).1
                    ==> (#[trigger] r@[i]).audible,
    {
        let ls = &self.project.layers;
        let ghost rv = region_opt_view(region);
        let mut states: Vec<(bool, bool, u32)> = Vec::new();
        let mut any = false;
        let mut i: usize = 0;
        while i < ls.len()
            invariant
                i <= ls@.len(),
                ls@ == self.project.layers@,
                rv == region_opt_view(region),
                states@.len() == i,
                forall|k: int| 0 <= k < i ==> #[trigger] states@[k] == resolved(ls@[k], rv),
                any == exists|k: int| 0 <= k < i && resolved(#[trigger] ls@[k], rv).1,
            decreases ls@.len() - i,
        {
            let st = resolve_one(&ls[i], region);
            if st.1 {
                any = true;
            }
            states.push(st);
            i += 1;
        }
        let mut out: Vec<LayerLevel> = Vec::new();
        let mut k: usize = 0;
        while k < states.len()
            invariant
                k <= states@.len(),
                states@.len() == ls@.len(),
                ls@ == self.project.layers@,
                forall|m: int| 0 <= m < states@.len() ==> #[trigger] states@[m] == resolved(ls@[m], rv),
                any == any_solo(ls@, rv),
                out@.len() == k,
                forall|m: int| 0 <= m < k ==> #[trigger] out@[m] == level_of(ls@[m], ls@, rv),
            decreases states@.len() - k,
        {
            let (muted, solo, gain) = states[k];
            let audible = if any {
                solo
            } else {
                !muted
            };
            out.push(LayerLevel { audible, gain_db_bits: gain });
            k += 1;
        }
        proof {
            assert forall|i: int|
                0 <= i < out@.len() && resolved(ls@[i], rv).1 implies (#[trigger] out@[i]).audible by {
                assert(any_solo(ls@, rv));
            }
        }
        out
    }
}

/// Whether a region overrides any layer setting.
pub open spec fn has_overrides(r: Region) -> bool {
    r.gain_overrides@.len() > 0 || r.mute_overrides@.len() > 0 || r.solo_overrides@.len() > 0
}

/// The regions among the first `n` that override layer settings.
pub open spec fn overriding(rs: Seq<Region>, n: int) -> Seq<int>
    decreases n,
{
    if n <= 0 {
        seq![]
    } else if has_overrides(rs[n - 1]) {
        overriding(rs, n - 1).push(n - 1)
    } else {
        overriding(rs, n - 1)
    }
}

proof fn lemma_overriding(rs: Seq<Region>, n: int)
    requires
        0 <= n <= rs.len(),
    ensures
        forall|k: int|
            0 <= k < overriding(rs, n).len() ==> 0 <= #[trigger] overriding(rs, n)[k] < n,
    decreases n,
{
    if n > 0 {
        lemma_overriding(rs, n - 1);
        let p = overriding(rs, n - 1);
        if has_overrides(rs[n - 1]) {
            assert forall|k: int| 0 <= k < p.len() implies p.push(n - 1)[k] == p[k] by {}
        }
    }
}

impl ProjectState {
    /// Regions whose overrides change the mix, with the resolved layer
    /// levels inside them: the volume automation of the timeline.
    pub fn volume_spans(&self) -> (r: Vec<(u64, u64, Vec<LayerLevel>)>)
        ensures
            r@.len() == overriding(self.project.regions@, self.project.regions@.len() as int).len(),
            forall|k: int|
                0 <= k < r@.len() ==> {
                    let reg = self.project.regions@[overriding(
                        self.project.regions@,
                        self.project.regions@.len() as int,
                    )[k]];
                    &&& (#[trigger] r@[k]).0 == reg.start
                    &&& r@[k].1 == reg.end
                    &&& r@[k].2@.len() == self.project.layers@.len()
                    &&& forall|i: int|
                        0 <= i < r@[k].2@.len() ==> r@[k].2@[i] == level_of(
                            self.project.layers@[i],
                            self.project.layers@,
                            Some(reg@),
                        )
                },
    {
        let rs = &self.project.regions;
        let mut out: Vec<(u64, u64, Vec<LayerLevel>)> = Vec::new();
        let mut i: usize = 0;
        while i < rs.len()
            invariant
                i <= rs@.len(),
                rs@ == self.project.regions@,
                out@.len() == overriding(rs@, i as int).len(),
                forall|k: int|
                    0 <= k < out@.len() ==> {
                        let reg = rs@[overriding(rs@, i as int)[k]];
                        &&& (#[trigger] out@[k]).0 == reg.start
                        &&& out@[k].1 == reg.end
                        &&& out@[k].2@.len() == self.project.layers@.len()
                        &&& forall|m: int|
                            0 <= m < out@[k].2@.len() ==> out@[k].2@[m] == level_of(
                                self.project.layers@[m],
                                self.project.layers@,
                                Some(reg@),
                            )
                    },
            decreases rs@.len() - i,
        {
            let r = &rs[i];
            if r.gain_overrides.len() > 0 || r.mute_overrides.len() > 0 || r.solo_overrides.len()
                > 0 {
                let levels = self.layer_levels(Some(r));
                out.push((r.start, r.end, levels));
                proof {
                    let now = overriding(rs@, i + 1);
                    let before = overriding(rs@, i as int);
                    assert(now == before.push(i as int));
                    assert forall|k: int| 0 <= k < before.len() implies now[k] == before[k] by {}
                }
            }
            i += 1;
        }
        out
    }

    /// The insert chain owned by `target`, or None when the layer or track
    /// no longer exists.
    pub fn chain(&self, target: ChainTarget) -> (r: Option<&Vec<MasteringPluginCfg>>)
        ensures
            match target {
                ChainTarget::Master => r == Some(&self.project.mastering_chain),
                ChainTarget::Layer { id } => {
                    let k = layer_index_of(self.project.layers@, id);
                    if k < 0 {
                        r is None
                    } else {
                        r == Some(&self.project.layers@[k].inserts)
                    }
                },
                ChainTarget::Track { id } => {
                    let k = index_of_id(self.project.regions@, id);
                    if k < 0 {
                        r is None
                    } else {
                        r == Some(&self.project.regions@[k].inserts)
                    }
                },
            },
    {
        match target {
            ChainTarget::Master => Some(&self.project.mastering_chain),
            ChainTarget::Layer { id } => match self.layer_index(id) {
                Ok(i) => Some(&self.project.layers[i].inserts),
                Err(_) => None,
            },
            ChainTarget::Track { id } => {
                let rs = &self.project.regions;
                let mut i: usize = 0;
                proof {
                    crate::project::lemma_index_from_pub(rs@, id, 0);
                }
                while i < rs.len()
                    invariant
                        i <= rs@.len(),
                        rs@ == self.project.regions@,
                        crate::project::index_from(rs@, id, i as int) == index_of_id(rs@, id),
                        target == (ChainTarget::Track { id }),
                    decreases rs@.len() - i,
                {
                    if rs[i].id == id {
                        assert(crate::project::index_from(rs@, id, i as int) == i as int);
                        return Some(&rs[i].inserts);
                    }
                    i += 1;
                }
                None
            },
        }
    }
}


// ---------------------------------------------------------------------------
// Layer labels.

/// What the layer list shows of one layer (durations in samples, gain as
/// the `f32` bits of its dB value; the display converts).
#[derive(Debug)]
pub struct LayerLabel {
    pub id: u32,
    /// The custom name, else the source name.
    pub name: String,
    /// The first source's file name, or "Layer N" when it has none.
    pub source_name: String,
    pub channels: u16,
    pub duration_samples: u64,
    pub gain_db_bits: u32,
    pub muted: bool,
    pub solo: bool,
    pub collapsed: bool,
    pub inserts: Vec<MasteringPluginView>,
}

/// "Layer N" for layer `i` (0-based).
pub open spec fn layer_fallback(i: int) -> Seq<char> {
    "Layer "@ + dec((i + 1) as nat)
}

impl ProjectState {
    /// The label of every layer, in order: the scanned channel count and
    /// length when the layer was scanned (0 otherwise), its mix settings,
    /// and its names.
    pub fn layer_labels(&self) -> (r: Vec<LayerLabel>)
        ensures
            r@.len() == self.project.layers@.len(),
            forall|i: int|
                0 <= i < r@.len() ==> {
                    let v = #[trigger] r@[i];
                    let l = self.project.layers@[i];
                    &&& v.id == l.id
                    &&& v.gain_db_bits == l.gain_db_bits
                    &&& v.muted == l.muted
                    &&& v.solo == l.solo
                    &&& v.collapsed == l.collapsed
                    &&& v.channels == if i < self.info.layers@.len() {
                        self.info.layers@[i].channels
                    } else {
                        0
                    }
                    &&& v.duration_samples == if i < self.info.layers@.len() {
                        self.info.layers@[i].duration_samples
                    } else {
                        0
                    }
                    &&& l.sources@.len() == 0 ==> v.source_name@ == layer_fallback(i)
                    &&& l.sources@.len() > 0 && plain_path(l.sources@[0].path@) ==> v.source_name@ == match spec_file_name(
                        l.sources@[0].path@,
                    ) {
                        Some(n) => n,
                        None => layer_fallback(i),
                    }
                    &&& l.sources@.len() > 0 ==> (v.source_name@ == layer_fallback(i) || (v.source_name@.len() > 0
                        && path_piece(v.source_name@, l.sources@[0].path@)))
                    &&& v.name@ == match l.custom_name {
                        Some(n) => n@,
                        None => v.source_name@,
                    }
                    &&& v.inserts@.len() == l.inserts@.len()
                    &&& forall|k: int|
                        0 <= k < l.inserts@.len() ==> (#[trigger] v.inserts@[k]).id == l.inserts@[k].id
                            && v.inserts@[k].name == l.inserts@[k].name
                },
    {
        let layers = &self.project.layers;
        let mut out: Vec<LayerLabel> = Vec::new();
        let mut i: usize = 0;
        while i < layers.len()
            invariant
                i <= layers@.len(),
                layers == &self.project.layers,
                out@.len() == i,
                forall|j: int|
                    0 <= j < i ==> {
                        let v = #[trigger] out@[j];
                        let l = self.project.layers@[j];
                        &&& v.id == l.id
                        &&& v.gain_db_bits == l.gain_db_bits
                        &&& v.muted == l.muted
                        &&& v.solo == l.solo
                        &&& v.collapsed == l.collapsed
                        &&& v.channels == if j < self.info.layers@.len() {
                            self.info.layers@[j].channels
                        } else {
                            0
                        }
                        &&& v.duration_samples == if j < self.info.layers@.len() {
                            self.info.layers@[j].duration_samples
                        } else {
                            0
                        }
                        &&& l.sources@.len() == 0 ==> v.source_name@ == layer_fallback(j)
                        &&& l.sources@.len() > 0 && plain_path(l.sources@[0].path@) ==> v.source_name@ == match spec_file_name(
                        l.sources@[0].path@,
                    ) {
                        Some(n) => n,
                        None => layer_fallback(j),
                    }
                    &&& l.sources@.len() > 0 ==> (v.source_name@ == layer_fallback(j) || (v.source_name@.len()
                            > 0 && path_piece(v.source_name@, l.sources@[0].path@)))
                        &&& v.name@ == match l.custom_name {
                            Some(n) => n@,
                            None => v.source_name@,
                        }
                        &&& v.inserts@.len() == l.inserts@.len()
                        &&& forall|k: int|
                            0 <= k < l.inserts@.len() ==> (#[trigger] v.inserts@[k]).id == l.inserts@[k].id
                                && v.inserts@[k].name == l.inserts@[k].name
                    },
            decreases layers@.len() - i,
        {
            let l = &layers[i];
            let from_file = if l.sources.len() > 0 {
                file_name(l.sources[0].path.as_str())
            } else {
                None
            };
            let source_name = match from_file {
                Some(n) => n,
                None => {
                    let mut v: Vec<char> = chars_of("Layer ");
                    push_dec(&mut v, (i as u64) + 1);
                    string_of(v.as_slice())
                },
            };
            let name = match &l.custom_name {
                Some(n) => n.clone(),
                None => source_name.clone(),
            };
            let (channels, duration_samples) = if i < self.info.layers.len() {
                (self.info.layers[i].channels, self.info.layers[i].duration_samples)
            } else {
                (0, 0)
            };
            let inserts = chain_views(l.inserts.as_slice());
            out.push(
                LayerLabel {
                    id: l.id,
                    name,
                    source_name,
                    channels,
                    duration_samples,
                    gain_db_bits: l.gain_db_bits,
                    muted: l.muted,
                    solo: l.solo,
                    collapsed: l.collapsed,
                    inserts,
                },
            );
            i += 1;
        }
        out
    }
}

} // verus!
