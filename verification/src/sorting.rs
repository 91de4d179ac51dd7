//! Listings sorted by name, ignoring case: the Unicode lower case of each
//! name (`str::to_lowercase`), compared in code-point order, with a stable
//! sort.

use vstd::prelude::*;
use crate::tracks::as_ints;

verus! {

/// The Unicode lower case of a string (`str::to_lowercase`), which
/// depends on the string alone.
pub uninterp spec fn lowercase(s: Seq<char>) -> Seq<char>;

/// `str::to_lowercase`. Its result is taken as `lowercase` of the
/// argument; nothing more is stated of it.
#[verifier::external_body]
pub(crate) fn to_lowercase(s: &str) -> (r: String)
    ensures
        r@ == lowercase(s@),
{
    s.to_lowercase()
}

/// The Unicode upper case of a string (`str::to_uppercase`), which
/// depends on the string alone.
pub uninterp spec fn uppercase(s: Seq<char>) -> Seq<char>;

/// `str::to_uppercase`. Its result is taken as `uppercase` of the
/// argument; nothing more is stated of it.
#[verifier::external_body]
pub(crate) fn to_uppercase(s: &str) -> (r: String)
    ensures
        r@ == uppercase(s@),
{
    s.to_uppercase()
}

/// Lexicographic order of character sequences by code point: the order
/// of `str::cmp`, since UTF-8 encoding preserves code-point order.
pub open spec fn text_le(a: Seq<char>, b: Seq<char>) -> bool
    decreases a.len(),
{
    if a.len() == 0 {
        true
    } else if b.len() == 0 {
        false
    } else if a[0] != b[0] {
        (a[0] as u32) < (b[0] as u32)
    } else {
        text_le(a.drop_first(), b.drop_first())
    }
}

/// `a <= b` in code-point order.
pub fn text_le_exec(a: &[char], b: &[char]) -> (r: bool)
    ensures
        r == text_le(a@, b@),
{
    let mut i: usize = 0;
    assert(a@.skip(0) =~= a@);
    assert(b@.skip(0) =~= b@);
    while i < a.len() && i < b.len() && a[i] == b[i]
        invariant
            i <= a@.len(),
            i <= b@.len(),
            text_le(a@, b@) == text_le(a@.skip(i as int), b@.skip(i as int)),
        decreases a@.len() - i,
    {
        assert(a@.skip(i as int).drop_first() =~= a@.skip(i + 1));
        assert(b@.skip(i as int).drop_first() =~= b@.skip(i + 1));
        i += 1;
    }
    if i == a.len() {
        true
    } else if i == b.len() {
        false
    } else {
        assert(a@.skip(i as int)[0] == a@[i as int]);
        assert(b@.skip(i as int)[0] == b@[i as int]);
        (a[i] as u32) < (b[i] as u32)
    }
}

/// Stable insertion of index `x` into `order`, sorted by `keys`: after
/// every index whose key is not greater.
pub open spec fn insert_by_text(order: Seq<int>, keys: Seq<Seq<char>>, x: int) -> Seq<int>
    decreases order.len(),
{
    if order.len() == 0 {
        seq![x]
    } else if text_le(keys[order.last()], keys[x]) {
        order.push(x)
    } else {
        insert_by_text(order.drop_last(), keys, x).push(order.last())
    }
}

/// The first `n` indices stably sorted by `keys` (what `sort_by` on the
/// keys gives).
pub open spec fn text_order(keys: Seq<Seq<char>>, n: int) -> Seq<int>
    decreases n,
{
    if n <= 0 {
        seq![]
    } else {
        insert_by_text(text_order(keys, n - 1), keys, n - 1)
    }
}

proof fn lemma_insert_at(o: Seq<int>, keys: Seq<Seq<char>>, x: int, j: int)
    requires
        0 <= j <= o.len(),
        j == 0 || text_le(keys[o[j - 1]], keys[x]),
        forall|m: int| j <= m < o.len() ==> !text_le(keys[#[trigger] o[m]], keys[x]),
    ensures
        insert_by_text(o, keys, x) == o.insert(j, x),
    decreases o.len(),
{
    if o.len() == j {
        if o.len() > 0 {
            assert(o.insert(j, x) =~= o.push(x));
        } else {
            assert(o.insert(j, x) =~= seq![x]);
        }
    } else {
        assert(!text_le(keys[o[o.len() - 1]], keys[x]));
        let d = o.drop_last();
        assert forall|m: int| j <= m < d.len() implies !text_le(keys[#[trigger] d[m]], keys[x]) by {
            assert(d[m] == o[m]);
        }
        if j > 0 {
            assert(d[j - 1] == o[j - 1]);
        }
        lemma_insert_at(d, keys, x, j);
        assert(d.insert(j, x).push(o.last()) =~= o.insert(j, x));
    }
}

proof fn lemma_insert_bounds(o: Seq<int>, keys: Seq<Seq<char>>, x: int, n: int)
    requires
        0 <= x < n,
        forall|i: int| 0 <= i < o.len() ==> 0 <= #[trigger] o[i] < n,
    ensures
        insert_by_text(o, keys, x).len() == o.len() + 1,
        forall|i: int|
            0 <= i < insert_by_text(o, keys, x).len() ==> 0 <= #[trigger] insert_by_text(o, keys, x)[i] < n,
    decreases o.len(),
{
    if o.len() > 0 && !text_le(keys[o.last()], keys[x]) {
        let d = o.drop_last();
        assert forall|i: int| 0 <= i < d.len() implies 0 <= #[trigger] d[i] < n by {
            assert(d[i] == o[i]);
        }
        lemma_insert_bounds(d, keys, x, n);
    }
}

/// The stable order has every index below `n` once in range.
pub proof fn lemma_text_order_bounds(keys: Seq<Seq<char>>, n: int)
    requires
        n >= 0,
    ensures
        text_order(keys, n).len() == n,
        forall|i: int| 0 <= i < n ==> 0 <= #[trigger] text_order(keys, n)[i] < n,
    decreases n,
{
    if n > 0 {
        lemma_text_order_bounds(keys, n - 1);
        let prev = text_order(keys, n - 1);
        assert forall|i: int| 0 <= i < prev.len() implies 0 <= #[trigger] prev[i] < n by {}
        lemma_insert_bounds(prev, keys, n - 1, n);
    }
}

/// The texts of a list of character vectors.
pub open spec fn char_views(v: Seq<Vec<char>>) -> Seq<Seq<char>> {
    v.map_values(|k: Vec<char>| k@)
}

/// Indices of `keys` stably sorted by key (`sort_by` on `cmp`).
pub fn order_by_text(keys: &Vec<Vec<char>>) -> (r: Vec<usize>)
    ensures
        as_ints(r@) == text_order(char_views(keys@), keys@.len() as int),
        r@.len() == keys@.len(),
        forall|i: int| 0 <= i < r@.len() ==> #[trigger] r@[i] < keys@.len(),
{
    let ghost ks = char_views(keys@);
    let mut order: Vec<usize> = Vec::new();
    let mut x: usize = 0;
    while x < keys.len()
        invariant
            x <= keys@.len(),
            ks == char_views(keys@),
            as_ints(order@) == text_order(ks, x as int),
            order@.len() == x,
            forall|i: int| 0 <= i < order@.len() ==> #[trigger] order@[i] < x,
        decreases keys@.len() - x,
    {
        let mut j: usize = order.len();
        while j > 0 && !text_le_exec(keys[order[j - 1]].as_slice(), keys[x].as_slice())
            invariant
                j <= order@.len(),
                ks == char_views(keys@),
                x < keys@.len(),
                order@.len() == x,
                forall|i: int| 0 <= i < order@.len() ==> #[trigger] order@[i] < x,
                forall|m: int| j <= m < order@.len() ==> !text_le(ks[#[trigger] as_ints(order@)[m]], ks[x as int]),
            decreases j,
        {
            proof {
                assert(as_ints(order@)[j - 1] == order@[j - 1] as int);
                assert(ks[order@[j - 1] as int] == keys@[order@[j - 1] as int]@);
                assert(ks[x as int] == keys@[x as int]@);
            }
            j -= 1;
        }
        proof {
            let o = as_ints(order@);
            if j > 0 {
                assert(o[j - 1] == order@[j - 1] as int);
                assert(ks[order@[j - 1] as int] == keys@[order@[j - 1] as int]@);
                assert(ks[x as int] == keys@[x as int]@);
                assert(text_le(ks[o[j - 1]], ks[x as int]));
            }
            lemma_insert_at(o, ks, x as int, j as int);
        }
        let ghost before = order@;
        order.insert(j, x);
        proof {
            assert(as_ints(order@) =~= as_ints(before).insert(j as int, x as int));
            assert forall|i: int| 0 <= i < order@.len() implies #[trigger] order@[i] < x + 1 by {
                if i < j {
                    assert(order@[i] == before[i]);
                } else if i > j {
                    assert(order@[i] == before[i - 1]);
                }
            }
        }
        x += 1;
    }
    order
}

} // verus!
