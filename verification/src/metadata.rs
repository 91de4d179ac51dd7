//! Album metadata: one format-agnostic model filled by the user and
//! resolved per exported track (macros expanded, disc numbering
//! computed). Every text field supports the macros `{title}` `{n}`
//! `{ntotal}` `{disc}` `{dtotal}` `{album}` `{artist}` `{album_artist}`
//! `{date}` `{year}` `{source}`.

use vstd::prelude::*;
use crate::peaks::copy_vec;
use crate::text::{chars_of, dec, dec_chars, dec_zero, push_dec_zero, replace, replace_all, string_of};

verus! {

/// User-facing album metadata. Empty fields are not written; all text
/// fields may contain macros.
#[derive(Debug)]
pub struct AlbumMeta {
    pub album: String,
    /// Album-level artist.
    pub album_artist: String,
    /// Track artist; defaults to the album artist when empty.
    pub artist: String,
    /// Free-form date ("2026", "2026-08-01"...).
    pub date: String,
    pub genre: String,
    pub comment: String,
    /// Track numbers (1-based, in playing order) that start a new disc.
    pub disc_breaks: Vec<u32>,
    /// UPC/EAN of the album (digits; separators are ignored).
    pub catalog_ean: String,
    /// Cover image file ("" = none).
    pub artwork_path: String,
}

/// Album metadata as plain values.
pub struct AlbumMetaView {
    pub album: Seq<char>,
    pub album_artist: Seq<char>,
    pub artist: Seq<char>,
    pub date: Seq<char>,
    pub genre: Seq<char>,
    pub comment: Seq<char>,
    pub disc_breaks: Seq<u32>,
    pub catalog_ean: Seq<char>,
    pub artwork_path: Seq<char>,
}

impl View for AlbumMeta {
    type V = AlbumMetaView;

    open spec fn view(&self) -> AlbumMetaView {
        AlbumMetaView {
            album: self.album@,
            album_artist: self.album_artist@,
            artist: self.artist@,
            date: self.date@,
            genre: self.genre@,
            comment: self.comment@,
            disc_breaks: self.disc_breaks@,
            catalog_ean: self.catalog_ean@,
            artwork_path: self.artwork_path@,
        }
    }
}

impl Clone for AlbumMeta {
    fn clone(&self) -> (r: Self)
        ensures
            r@ == self@,
    {
        AlbumMeta {
            album: self.album.clone(),
            album_artist: self.album_artist.clone(),
            artist: self.artist.clone(),
            date: self.date.clone(),
            genre: self.genre.clone(),
            comment: self.comment.clone(),
            disc_breaks: copy_vec(&self.disc_breaks),
            catalog_ean: self.catalog_ean.clone(),
            artwork_path: self.artwork_path.clone(),
        }
    }
}

/// Album metadata with every field empty.
pub open spec fn empty_meta() -> AlbumMetaView {
    AlbumMetaView {
        album: seq![],
        album_artist: seq![],
        artist: seq![],
        date: seq![],
        genre: seq![],
        comment: seq![],
        disc_breaks: seq![],
        catalog_ean: seq![],
        artwork_path: seq![],
    }
}

impl Default for AlbumMeta {
    fn default() -> (r: Self)
        ensures
            r@ == empty_meta(),
    {
        AlbumMeta {
            album: String::new(),
            album_artist: String::new(),
            artist: String::new(),
            date: String::new(),
            genre: String::new(),
            comment: String::new(),
            disc_breaks: Vec::new(),
            catalog_ean: String::new(),
            artwork_path: String::new(),
        }
    }
}

/// Fully resolved tag values for one exported track.
#[derive(Debug, Clone, Default, PartialEq, Eq)]
pub struct TrackTags {
    pub title: String,
    pub artist: String,
    pub album: String,
    pub album_artist: String,
    pub date: String,
    pub genre: String,
    pub comment: String,
    /// Track number within its disc (restarts at 1 on each disc).
    pub track: u32,
    /// Number of tracks on this track's disc.
    pub track_total: u32,
    pub disc: u32,
    pub disc_total: u32,
}

/// `x` inserted into the strictly increasing `s`, unless already there.
pub open spec fn insert_unique(s: Seq<u32>, x: u32) -> Seq<u32>
    decreases s.len(),
{
    if s.len() == 0 {
        seq![x]
    } else if s.last() < x {
        s.push(x)
    } else if s.last() == x {
        s
    } else {
        insert_unique(s.drop_last(), x).push(s.last())
    }
}

/// The usable disc breaks among the first `n`: within `2..=total`, sorted,
/// without repeats.
pub open spec fn clean_breaks(b: Seq<u32>, total: u32, n: int) -> Seq<u32>
    decreases n,
{
    if n <= 0 {
        seq![]
    } else {
        let p = clean_breaks(b, total, n - 1);
        if 2 <= b[n - 1] <= total {
            insert_unique(p, b[n - 1])
        } else {
            p
        }
    }
}

/// The first track of each disc: track 1, then each usable break.
pub open spec fn disc_starts(b: Seq<u32>, total: u32) -> Seq<u32> {
    seq![1u32] + clean_breaks(b, total, b.len() as int)
}

/// Index of the disc holding track `number`: the last disc starting at or
/// before it (the first disc when none does).
pub open spec fn disc_index(starts: Seq<u32>, number: u32, i: int) -> int
    decreases i,
{
    if i <= 0 {
        0
    } else if starts[i] <= number {
        i
    } else {
        disc_index(starts, number, i - 1)
    }
}

/// (track in disc, tracks in that disc, disc, disc total) for album
/// track `number` of `total`.
pub open spec fn spec_disc_numbering(b: Seq<u32>, number: u32, total: u32) -> (u32, u32, u32, u32) {
    let starts = disc_starts(b, total);
    let k = disc_index(starts, number, starts.len() - 1);
    let start = starts[k];
    let end: int = if k + 1 < starts.len() {
        starts[k + 1] - 1
    } else {
        total as int
    };
    (
        (number - start + 1) as u32,
        (end - start + 1) as u32,
        (k + 1) as u32,
        starts.len() as u32,
    )
}

/// Strictly increasing.
pub open spec fn increasing(s: Seq<u32>) -> bool {
    forall|i: int, j: int| 0 <= i < j < s.len() ==> #[trigger] s[i] < #[trigger] s[j]
}

proof fn lemma_insert_unique(s: Seq<u32>, x: u32, lo: u32, hi: u32)
    requires
        increasing(s),
        forall|i: int| 0 <= i < s.len() ==> lo <= #[trigger] s[i] <= hi,
        lo <= x <= hi,
    ensures
        increasing(insert_unique(s, x)),
        forall|i: int|
            0 <= i < insert_unique(s, x).len() ==> lo <= #[trigger] insert_unique(s, x)[i] <= hi,
        insert_unique(s, x).len() <= s.len() + 1,
    decreases s.len(),
{
    if s.len() > 0 && s.last() > x {
        let d = s.drop_last();
        assert forall|i: int, j: int| 0 <= i < j < d.len() implies #[trigger] d[i] < #[trigger] d[j] by {
            assert(d[i] == s[i] && d[j] == s[j]);
        }
        assert forall|i: int| 0 <= i < d.len() implies lo <= #[trigger] d[i] <= hi by {
            assert(d[i] == s[i]);
        }
        lemma_insert_unique(d, x, lo, hi);
        let p = insert_unique(d, x);
        lemma_insert_unique_elems(d, x);
        let out = p.push(s.last());
        assert(s[s.len() - 1] == s.last());
        assert forall|i: int, j: int| 0 <= i < j < out.len() implies #[trigger] out[i]
            < #[trigger] out[j] by {
            if j == out.len() - 1 {
                assert(out[i] == p[i]);
                if p[i] != x {
                    let m = choose|m: int| 0 <= m < d.len() && d[m] == p[i];
                    assert(s[m] == d[m]);
                }
            } else {
                assert(out[i] == p[i] && out[j] == p[j]);
            }
        }
        assert forall|i: int| 0 <= i < out.len() implies lo <= #[trigger] out[i] <= hi by {
            if i < p.len() {
                assert(out[i] == p[i]);
            }
        }
    } else if s.len() > 0 && s.last() < x {
        let out = s.push(x);
        assert forall|i: int, j: int| 0 <= i < j < out.len() implies #[trigger] out[i]
            < #[trigger] out[j] by {
            if j == out.len() - 1 {
                assert(out[i] == s[i]);
                if i < s.len() - 1 {
                    assert(s[i] < s[s.len() - 1]);
                }
            } else {
                assert(out[i] == s[i] && out[j] == s[j]);
            }
        }
        assert forall|i: int| 0 <= i < out.len() implies lo <= #[trigger] out[i] <= hi by {
            if i < s.len() {
                assert(out[i] == s[i]);
            }
        }
    }
}

proof fn lemma_insert_unique_elems(s: Seq<u32>, x: u32)
    ensures
        forall|i: int|
            0 <= i < insert_unique(s, x).len() ==> (#[trigger] insert_unique(s, x)[i] == x
                || exists|m: int| 0 <= m < s.len() && s[m] == insert_unique(s, x)[i]),
    decreases s.len(),
{
    let out = insert_unique(s, x);
    if s.len() > 0 && s.last() > x {
        let d = s.drop_last();
        lemma_insert_unique_elems(d, x);
        let p = insert_unique(d, x);
        assert forall|i: int| 0 <= i < out.len() implies (#[trigger] out[i] == x || exists|m: int|
            0 <= m < s.len() && s[m] == out[i]) by {
            if i < p.len() {
                assert(out[i] == p[i]);
                if p[i] != x {
                    let m = choose|m: int| 0 <= m < d.len() && d[m] == p[i];
                    assert(s[m] == d[m]);
                }
            } else {
                assert(s[s.len() - 1] == out[i]);
            }
        }
    } else if s.len() > 0 && s.last() < x {
        assert forall|i: int| 0 <= i < out.len() implies (#[trigger] out[i] == x || exists|m: int|
            0 <= m < s.len() && s[m] == out[i]) by {
            if i < s.len() {
                assert(out[i] == s[i]);
            }
        }
    } else if s.len() > 0 {
        assert forall|i: int| 0 <= i < out.len() implies (#[trigger] out[i] == x || exists|m: int|
            0 <= m < s.len() && s[m] == out[i]) by {
            assert(out[i] == s[i]);
        }
    }
}

/// The usable breaks are strictly increasing, each within `2..=total`.
proof fn lemma_clean_breaks(b: Seq<u32>, total: u32, n: int)
    requires
        0 <= n <= b.len(),
        total >= 2,
    ensures
        increasing(clean_breaks(b, total, n)),
        forall|i: int|
            0 <= i < clean_breaks(b, total, n).len() ==> 2 <= #[trigger] clean_breaks(b, total, n)[i]
                <= total,
        clean_breaks(b, total, n).len() <= n,
    decreases n,
{
    if n > 0 {
        lemma_clean_breaks(b, total, n - 1);
        if 2 <= b[n - 1] <= total {
            lemma_insert_unique(clean_breaks(b, total, n - 1), b[n - 1], 2, total);
        }
    }
}

/// The discs start at track 1 and then at each usable break, in strictly
/// increasing order.
pub proof fn law_disc_starts_increase(b: Seq<u32>, total: u32)
    requires
        total >= 1,
    ensures
        increasing(disc_starts(b, total)),
        disc_starts(b, total)[0] == 1,
        forall|i: int|
            0 <= i < disc_starts(b, total).len() ==> 1 <= #[trigger] disc_starts(b, total)[i]
                <= total,
        disc_starts(b, total).len() <= b.len() + 1,
{
    let st = disc_starts(b, total);
    if total >= 2 {
        lemma_clean_breaks(b, total, b.len() as int);
    } else {
        lemma_clean_empty(b, total, b.len() as int);
    }
    let c = clean_breaks(b, total, b.len() as int);
    assert forall|i: int, j: int| 0 <= i < j < st.len() implies #[trigger] st[i] < #[trigger] st[j] by {
        if i == 0 {
            assert(st[j] == c[j - 1]);
        } else {
            assert(st[i] == c[i - 1] && st[j] == c[j - 1]);
        }
    }
    assert forall|i: int| 0 <= i < st.len() implies 1 <= #[trigger] st[i] <= total by {
        if i > 0 {
            assert(st[i] == c[i - 1]);
        }
    }
}

proof fn lemma_clean_empty(b: Seq<u32>, total: u32, n: int)
    requires
        total < 2,
        n <= b.len(),
    ensures
        clean_breaks(b, total, n).len() == 0,
    decreases n,
{
    if n > 0 {
        lemma_clean_empty(b, total, n - 1);
    }
}

proof fn lemma_disc_index(starts: Seq<u32>, number: u32, i: int)
    requires
        0 <= i < starts.len(),
    ensures
        0 <= disc_index(starts, number, i) <= i,
        disc_index(starts, number, i) > 0 ==> starts[disc_index(starts, number, i)] <= number,
        forall|j: int|
            disc_index(starts, number, i) < j <= i ==> number < #[trigger] starts[j],
    decreases i,
{
    if i > 0 && starts[i] > number {
        lemma_disc_index(starts, number, i - 1);
    }
}

/// Insert `x` into the strictly increasing `v` unless already present.
fn insert_break(v: &mut Vec<u32>, x: u32)
    ensures
        final(v)@ == insert_unique(old(v)@, x),
{
    let mut j: usize = v.len();
    proof {
        assert(v@.take(j as int) =~= v@);
        assert(insert_unique(v@, x) + v@.skip(j as int) =~= insert_unique(v@, x));
    }
    while j > 0 && v[j - 1] > x
        invariant
            j <= v@.len(),
            v@ == old(v)@,
            insert_unique(v@, x) == insert_unique(v@.take(j as int), x) + v@.skip(j as int),
        decreases j,
    {
        proof {
            let t = v@.take(j as int);
            assert(t.last() == v@[j - 1]);
            assert(t.drop_last() =~= v@.take(j - 1));
            assert(insert_unique(t, x) == insert_unique(v@.take(j - 1), x).push(v@[j - 1]));
            assert(v@.skip(j - 1) =~= seq![v@[j - 1]] + v@.skip(j as int));
            crate::text::lemma_add_assoc(
                insert_unique(v@.take(j - 1), x),
                seq![v@[j - 1]],
                v@.skip(j as int),
            );
            assert(insert_unique(v@.take(j - 1), x).push(v@[j - 1]) =~= insert_unique(
                v@.take(j - 1),
                x,
            ) + seq![v@[j - 1]]);
        }
        j -= 1;
    }
    let ghost t = v@.take(j as int);
    if j > 0 && v[j - 1] == x {
        proof {
            assert(t.last() == x);
            assert(t + v@.skip(j as int) =~= v@);
        }
        return ;
    }
    proof {
        if j > 0 {
            assert(t.last() == v@[j - 1]);
            assert(insert_unique(t, x) == t.push(x));
        } else {
            assert(t.len() == 0);
            assert(insert_unique(t, x) == seq![x]);
        }
    }
    let ghost before = v@;
    v.insert(j, x);
    proof {
        assert(v@ =~= t.push(x) + before.skip(j as int));
    }
}

/// Per-track numbering derived from the disc breaks: (track in disc,
/// tracks in that disc, disc, disc total) for the album track `number`
/// (1-based, in playing order) out of `total` tracks.
pub fn disc_numbering(disc_breaks: &[u32], number: u32, total: u32) -> (r: (u32, u32, u32, u32))
    requires
        number >= 1,
        total >= 1,
        disc_breaks@.len() < u32::MAX,
    ensures
        r == spec_disc_numbering(disc_breaks@, number, total),
{
    let mut breaks: Vec<u32> = Vec::new();
    let mut i: usize = 0;
    while i < disc_breaks.len()
        invariant
            i <= disc_breaks@.len(),
            breaks@ == clean_breaks(disc_breaks@, total, i as int),
        decreases disc_breaks@.len() - i,
    {
        let b = disc_breaks[i];
        if 2 <= b && b <= total {
            insert_break(&mut breaks, b);
        }
        i += 1;
    }
    let mut starts: Vec<u32> = Vec::new();
    starts.push(1);
    let mut k: usize = 0;
    while k < breaks.len()
        invariant
            k <= breaks@.len(),
            starts@ == seq![1u32] + breaks@.take(k as int),
        decreases breaks@.len() - k,
    {
        starts.push(breaks[k]);
        k += 1;
        proof {
            assert(starts@ =~= seq![1u32] + breaks@.take(k as int));
        }
    }
    proof {
        assert(breaks@.take(breaks@.len() as int) =~= breaks@);
        assert(starts@ == disc_starts(disc_breaks@, total));
        law_disc_starts_increase(disc_breaks@, total);
        lemma_disc_index(starts@, number, starts@.len() - 1);
    }
    let mut idx: usize = starts.len() - 1;
    while idx > 0 && starts[idx] > number
        invariant
            idx < starts@.len(),
            disc_index(starts@, number, idx as int) == disc_index(
                starts@,
                number,
                starts@.len() - 1,
            ),
        decreases idx,
    {
        idx -= 1;
    }
    let disc_start = starts[idx];
    let disc_end = if idx + 1 < starts.len() {
        starts[idx + 1] - 1
    } else {
        total
    };
    proof {
        assert(disc_index(starts@, number, idx as int) == idx);
        if idx + 1 < starts@.len() {
            assert(starts@[idx as int] < starts@[idx + 1]);
        }
    }
    (number - disc_start + 1, disc_end - disc_start + 1, (idx + 1) as u32, starts.len() as u32)
}

/// For a track of the album, its number within its disc is between 1
/// and the disc's track count, and its disc between 1 and the disc count.
pub proof fn law_numbering_in_range(b: Seq<u32>, number: u32, total: u32)
    requires
        1 <= number <= total,
        b.len() < u32::MAX,
    ensures
        ({
            let (track, count, disc, discs) = spec_disc_numbering(b, number, total);
            &&& 1 <= track <= count
            &&& 1 <= disc <= discs
        }),
{
    law_disc_starts_increase(b, total);
    let starts = disc_starts(b, total);
    lemma_disc_index(starts, number, starts.len() - 1);
    let k = disc_index(starts, number, starts.len() - 1);
    if k + 1 < starts.len() {
        assert(number < starts[k + 1]);
        assert(starts[k] < starts[k + 1]);
    }
}

/// The ASCII digits of `s`, in order.
pub open spec fn ascii_digits(s: Seq<char>) -> Seq<char>
    decreases s.len(),
{
    if s.len() == 0 {
        seq![]
    } else if '0' <= s.last() <= '9' {
        ascii_digits(s.drop_last()).push(s.last())
    } else {
        ascii_digits(s.drop_last())
    }
}

/// The year of a free-form date: its first four digits, or nothing when
/// it has fewer.
pub open spec fn spec_year_of(date: Seq<char>) -> Seq<char> {
    if ascii_digits(date).len() >= 4 {
        ascii_digits(date).take(4)
    } else {
        seq![]
    }
}

/// The year of a free-form date ("2026-08-01" gives "2026").
pub fn year_of(date: &str) -> (r: String)
    ensures
        r@ == spec_year_of(date@),
{
    let s = chars_of(date);
    let mut digits: Vec<char> = Vec::new();
    let mut i: usize = 0;
    while i < s.len()
        invariant
            i <= s@.len(),
            digits@ == ascii_digits(s@.take(i as int)),
        decreases s@.len() - i,
    {
        proof {
            assert(s@.take(i + 1).drop_last() =~= s@.take(i as int));
            assert(s@.take(i + 1).last() == s@[i as int]);
        }
        if '0' <= s[i] && s[i] <= '9' {
            digits.push(s[i]);
        }
        i += 1;
    }
    proof {
        assert(s@.take(s@.len() as int) =~= s@);
    }
    if digits.len() >= 4 {
        let mut out: Vec<char> = Vec::new();
        let mut k: usize = 0;
        while k < 4
            invariant
                k <= 4 <= digits@.len(),
                out@ == digits@.take(k as int),
            decreases 4 - k,
        {
            out.push(digits[k]);
            k += 1;
            proof {
                assert(out@ =~= digits@.take(k as int));
            }
        }
        string_of(&out)
    } else {
        String::new()
    }
}

/// Context for macro expansion.
pub struct MacroContext<'a> {
    pub meta: &'a AlbumMeta,
    pub title: &'a str,
    pub source_stem: &'a str,
    /// (track in disc, tracks in disc, disc, disc total)
    pub numbering: (u32, u32, u32, u32),
}

/// Width numeric macros are padded to: that of the total, at least 2.
pub open spec fn macro_width(ntotal: u32) -> nat {
    if dec(ntotal as nat).len() >= 2 {
        dec(ntotal as nat).len()
    } else {
        2
    }
}

/// The artist a track gets: the track artist, else the album artist.
pub open spec fn artist_of(m: AlbumMetaView) -> Seq<char> {
    if m.artist.len() == 0 {
        m.album_artist
    } else {
        m.artist
    }
}

/// `template` with every macro expanded, in this order: `{title}`,
/// `{titre}`, `{n}`, `{ntotal}`, `{disc}`, `{dtotal}`, `{album}`,
/// `{album_artist}`, `{artist}`, `{date}`, `{year}`, `{source}`.
pub open spec fn expansion(
    template: Seq<char>,
    m: AlbumMetaView,
    title: Seq<char>,
    source: Seq<char>,
    numbering: (u32, u32, u32, u32),
) -> Seq<char> {
    let (n, ntotal, disc, dtotal) = numbering;
    let s1 = replace(template, "{title}"@, title);
    let s2 = replace(s1, "{titre}"@, title);
    let s3 = replace(s2, "{n}"@, dec_zero(n as nat, macro_width(ntotal)));
    let s4 = replace(s3, "{ntotal}"@, dec(ntotal as nat));
    let s5 = replace(s4, "{disc}"@, dec(disc as nat));
    let s6 = replace(s5, "{dtotal}"@, dec(dtotal as nat));
    let s7 = replace(s6, "{album}"@, m.album);
    let s8 = replace(s7, "{album_artist}"@, m.album_artist);
    let s9 = replace(s8, "{artist}"@, artist_of(m));
    let s10 = replace(s9, "{date}"@, m.date);
    let s11 = replace(s10, "{year}"@, spec_year_of(m.date));
    replace(s11, "{source}"@, source)
}

pub(crate) fn replace_str(s: &Vec<char>, pat: &str, rep: &[char]) -> (r: Vec<char>)
    requires
        pat@.len() > 0,
    ensures
        r@ == replace(s@, pat@, rep@),
{
    let p = chars_of(pat);
    replace_all(s.as_slice(), p.as_slice(), rep)
}

/// Expand the dynamic macros in `template`. Numeric macros are
/// zero-padded to the width of their total (at least 2).
pub fn expand_macros(template: &str, ctx: &MacroContext) -> (r: String)
    ensures
        r@ == expansion(template@, ctx.meta@, ctx.title@, ctx.source_stem@, ctx.numbering),
{
    let (n, ntotal, disc, dtotal) = ctx.numbering;
    let total_digits = dec_chars(ntotal as u64);
    let width: usize = if total_digits.len() >= 2 {
        total_digits.len()
    } else {
        2
    };
    let m = ctx.meta;
    let title = chars_of(ctx.title);
    let mut num: Vec<char> = Vec::new();
    push_dec_zero(&mut num, n as u64, width);
    let artist = if m.artist.as_str().is_empty() {
        chars_of(m.album_artist.as_str())
    } else {
        chars_of(m.artist.as_str())
    };
    proof {
        reveal_strlit("{title}");
        reveal_strlit("{titre}");
        reveal_strlit("{n}");
        reveal_strlit("{ntotal}");
        reveal_strlit("{disc}");
        reveal_strlit("{dtotal}");
        reveal_strlit("{album}");
        reveal_strlit("{album_artist}");
        reveal_strlit("{artist}");
        reveal_strlit("{date}");
        reveal_strlit("{year}");
        reveal_strlit("{source}");
        assert(num@ =~= dec_zero(n as nat, macro_width(ntotal)));
    }
    let s0 = chars_of(template);
    let s1 = replace_str(&s0, "{title}", title.as_slice());
    let s2 = replace_str(&s1, "{titre}", title.as_slice());
    let s3 = replace_str(&s2, "{n}", num.as_slice());
    let s4 = replace_str(&s3, "{ntotal}", total_digits.as_slice());
    let d = dec_chars(disc as u64);
    let s5 = replace_str(&s4, "{disc}", d.as_slice());
    let dt = dec_chars(dtotal as u64);
    let s6 = replace_str(&s5, "{dtotal}", dt.as_slice());
    let al = chars_of(m.album.as_str());
    let s7 = replace_str(&s6, "{album}", al.as_slice());
    let aa = chars_of(m.album_artist.as_str());
    let s8 = replace_str(&s7, "{album_artist}", aa.as_slice());
    let s9 = replace_str(&s8, "{artist}", artist.as_slice());
    let dd = chars_of(m.date.as_str());
    let s10 = replace_str(&s9, "{date}", dd.as_slice());
    let y = year_of(m.date.as_str());
    let yc = chars_of(y.as_str());
    let s11 = replace_str(&s10, "{year}", yc.as_slice());
    let src = chars_of(ctx.source_stem);
    let s12 = replace_str(&s11, "{source}", src.as_slice());
    string_of(&s12)
}

/// The tags of one track.
pub open spec fn tags_of(m: AlbumMetaView, title: Seq<char>, source: Seq<char>, number: u32, total: u32) -> (
    Seq<char>,
    Seq<char>,
    Seq<char>,
    Seq<char>,
    Seq<char>,
    Seq<char>,
    Seq<char>,
    (u32, u32, u32, u32),
) {
    let nb = spec_disc_numbering(m.disc_breaks, number, total);
    (
        expansion(title, m, title, source, nb),
        expansion(artist_of(m), m, title, source, nb),
        expansion(m.album, m, title, source, nb),
        expansion(m.album_artist, m, title, source, nb),
        m.date,
        m.genre,
        expansion(m.comment, m, title, source, nb),
        nb,
    )
}

/// Every exported track carries the album's date and genre exactly as
/// entered, whatever the track's title, source, number or disc: they
/// take no macros and are never dropped.
pub proof fn law_date_and_genre_as_given(
    m: AlbumMetaView,
    title: Seq<char>,
    source: Seq<char>,
    number: u32,
    total: u32,
)
    ensures
        tags_of(m, title, source, number, total).4 == m.date,
        tags_of(m, title, source, number, total).5 == m.genre,
{
}

/// Resolve the final tag values for one track: text fields with their
/// macros expanded, date and genre as given, the disc numbering computed.
pub fn resolve_tags(meta: &AlbumMeta, title: &str, source_stem: &str, number: u32, total: u32) -> (r: TrackTags)
    requires
        number >= 1,
        total >= 1,
        meta.disc_breaks@.len() < u32::MAX,
    ensures
        ({
            let (t, a, al, aa, d, g, c, nb) = tags_of(meta@, title@, source_stem@, number, total);
            &&& r.title@ == t
            &&& r.artist@ == a
            &&& r.album@ == al
            &&& r.album_artist@ == aa
            &&& r.date@ == d
            &&& r.genre@ == g
            &&& r.comment@ == c
            &&& (r.track, r.track_total, r.disc, r.disc_total) == nb
        }),
        r.genre@ == meta.genre@,
        r.date@ == meta.date@,
{
    proof {
        law_date_and_genre_as_given(meta@, title@, source_stem@, number, total);
    }
    let numbering = disc_numbering(meta.disc_breaks.as_slice(), number, total);
    let ctx = MacroContext { meta, title, source_stem, numbering };
    let artist_template = if meta.artist.as_str().is_empty() {
        meta.album_artist.clone()
    } else {
        meta.artist.clone()
    };
    TrackTags {
        title: expand_macros(title, &ctx),
        artist: expand_macros(artist_template.as_str(), &ctx),
        album: expand_macros(meta.album.as_str(), &ctx),
        album_artist: expand_macros(meta.album_artist.as_str(), &ctx),
        date: meta.date.clone(),
        genre: meta.genre.clone(),
        comment: expand_macros(meta.comment.as_str(), &ctx),
        track: numbering.0,
        track_total: numbering.1,
        disc: numbering.2,
        disc_total: numbering.3,
    }
}

/// True when nothing would be written (all text empty).
pub fn is_empty_meta(meta: &AlbumMeta) -> (r: bool)
    ensures
        r == (meta.album@.len() == 0 && meta.album_artist@.len() == 0 && meta.artist@.len() == 0
            && meta.date@.len() == 0 && meta.genre@.len() == 0 && meta.comment@.len() == 0),
{
    meta.album.as_str().is_empty() && meta.album_artist.as_str().is_empty() && meta.artist.as_str().is_empty()
        && meta.date.as_str().is_empty() && meta.genre.as_str().is_empty() && meta.comment.as_str().is_empty()
}

} // verus!
