//! Track file names rendered from a template.

use vstd::prelude::*;
use crate::text::{
    chars_of, dec, dec_chars, dec_zero, push_dec_zero, replace, replace_all, string_of, trim,
    trim_chars, trim_end, trim_end_dots, trim_end_dots_chars, trim_start,
};

verus! {

broadcast use vstd::string::group_string_axioms;

/// Unicode general category `Cc` (`char::is_control`).
pub open spec fn is_control(c: char) -> bool {
    c <= '\u{1f}' || ('\u{7f}' <= c && c <= '\u{9f}')
}

/// Characters that are invalid in a file name on at least one target OS.
pub open spec fn is_reserved(c: char) -> bool {
    c == '/' || c == '\\' || c == ':' || c == '*' || c == '?' || c == '"' || c == '<' || c == '>'
        || c == '|'
}

pub open spec fn sanitize_char(c: char) -> char {
    if is_reserved(c) || is_control(c) {
        '_'
    } else {
        c
    }
}

/// The sanitized file name of `name`.
pub open spec fn spec_sanitize(name: Seq<char>) -> Seq<char> {
    let t = trim(trim_end_dots(trim(name.map_values(|c: char| sanitize_char(c)))));
    if t.len() == 0 {
        seq!['U', 'n', 't', 'i', 't', 'l', 'e', 'd']
    } else {
        t
    }
}

/// Width of the zero-padded track number: the digits of the track count,
/// at least 2.
pub open spec fn number_width(total: nat) -> nat {
    if dec(total).len() < 2 {
        2
    } else {
        dec(total).len()
    }
}

/// The template with its tokens substituted, before sanitizing.
pub open spec fn spec_render_raw(
    template: Seq<char>,
    n: nat,
    total: nat,
    title: Seq<char>,
    source_stem: Seq<char>,
) -> Seq<char> {
    let num = dec_zero(n, number_width(total));
    replace(
        replace(replace(replace(template, "{n}"@, num), "{title}"@, title), "{titre}"@, title),
        "{source}"@,
        source_stem,
    )
}

pub open spec fn spec_render_track_filename(
    template: Seq<char>,
    n: nat,
    total: nat,
    title: Seq<char>,
    source_stem: Seq<char>,
) -> Seq<char> {
    spec_sanitize(spec_render_raw(template, n, total, title, source_stem))
}

/// A character every target OS accepts in a file name.
spec fn name_safe(c: char) -> bool {
    &&& c != '/' && c != '\\' && c != ':' && c != '*' && c != '?' && c != '"' && c != '<' && c != '>'
        && c != '|'
    &&& !(c <= '\u{1f}' || ('\u{7f}' <= c && c <= '\u{9f}'))
}

spec fn all_safe(s: Seq<char>) -> bool {
    forall|i: int| 0 <= i < s.len() ==> name_safe(#[trigger] s[i])
}

proof fn lemma_trim_start_safe(s: Seq<char>)
    requires
        all_safe(s),
    ensures
        all_safe(trim_start(s)),
    decreases s.len(),
{
    if s.len() > 0 && crate::text::is_ws(s[0]) {
        assert forall|i: int| 0 <= i < s.drop_first().len() implies name_safe(#[trigger] s.drop_first()[i]) by {
            assert(s.drop_first()[i] == s[i + 1]);
        }
        lemma_trim_start_safe(s.drop_first());
    }
}

proof fn lemma_trim_end_safe(s: Seq<char>)
    requires
        all_safe(s),
    ensures
        all_safe(trim_end(s)),
    decreases s.len(),
{
    if s.len() > 0 && crate::text::is_ws(s.last()) {
        assert forall|i: int| 0 <= i < s.drop_last().len() implies name_safe(#[trigger] s.drop_last()[i]) by {
            assert(s.drop_last()[i] == s[i]);
        }
        lemma_trim_end_safe(s.drop_last());
    }
}

proof fn lemma_trim_end_dots_safe(s: Seq<char>)
    requires
        all_safe(s),
    ensures
        all_safe(trim_end_dots(s)),
    decreases s.len(),
{
    if s.len() > 0 && (s.last() == '.' || s.last() == ' ') {
        assert forall|i: int| 0 <= i < s.drop_last().len() implies name_safe(#[trigger] s.drop_last()[i]) by {
            assert(s.drop_last()[i] == s[i]);
        }
        lemma_trim_end_dots_safe(s.drop_last());
    }
}

/// A sanitized file name is valid on every target OS: it holds none of
/// / \\ : * ? " < > | and no control character, whatever the name given;
/// and it is never empty.
pub proof fn law_sanitized_name_is_portable(name: Seq<char>)
    ensures
        spec_sanitize(name).len() > 0,
        forall|i: int|
            0 <= i < spec_sanitize(name).len() ==> {
                let c = #[trigger] spec_sanitize(name)[i];
                &&& c != '/' && c != '\\' && c != ':' && c != '*' && c != '?' && c != '"' && c != '<'
                    && c != '>' && c != '|'
                &&& !(c <= '\u{1f}' || ('\u{7f}' <= c && c <= '\u{9f}'))
            },
{
    let m = name.map_values(|c: char| sanitize_char(c));
    assert forall|i: int| 0 <= i < m.len() implies name_safe(#[trigger] m[i]) by {
        assert(m[i] == sanitize_char(name[i]));
    }
    lemma_trim_start_safe(m);
    lemma_trim_end_safe(trim_start(m));
    let t1 = trim(m);
    lemma_trim_end_dots_safe(t1);
    let t2 = trim_end_dots(t1);
    lemma_trim_start_safe(t2);
    lemma_trim_end_safe(trim_start(t2));
    let t = trim(t2);
    let r = spec_sanitize(name);
    assert forall|i: int| 0 <= i < r.len() implies name_safe(#[trigger] r[i]) by {
        if t.len() > 0 {
            assert(r == t);
        }
    }
}

proof fn lemma_trim_start_first(s: Seq<char>)
    ensures
        trim_start(s).len() > 0 ==> !crate::text::is_ws(trim_start(s)[0]),
        trim_start(s).len() <= s.len(),
        trim_start(s) == s.skip(s.len() - trim_start(s).len()),
    decreases s.len(),
{
    if s.len() > 0 && crate::text::is_ws(s[0]) {
        lemma_trim_start_first(s.drop_first());
        assert(s.drop_first().skip(s.drop_first().len() - trim_start(s.drop_first()).len()) =~= s.skip(
            s.len() - trim_start(s.drop_first()).len(),
        ));
    } else {
        assert(s.skip(0) =~= s);
    }
}

proof fn lemma_trim_end_last(s: Seq<char>)
    ensures
        trim_end(s).len() > 0 ==> !crate::text::is_ws(trim_end(s).last()),
        trim_end(s).len() <= s.len(),
        trim_end(s) == s.take(trim_end(s).len() as int),
    decreases s.len(),
{
    if s.len() > 0 && crate::text::is_ws(s.last()) {
        lemma_trim_end_last(s.drop_last());
        assert(s.drop_last().take(trim_end(s.drop_last()).len() as int) =~= s.take(
            trim_end(s.drop_last()).len() as int,
        ));
    } else {
        assert(s.take(s.len() as int) =~= s);
    }
}

/// A sanitized file name neither starts nor ends with whitespace.
pub proof fn law_sanitized_name_is_trimmed(name: Seq<char>)
    ensures
        !crate::text::is_ws(spec_sanitize(name)[0]),
        !crate::text::is_ws(spec_sanitize(name).last()),
{
    let m = name.map_values(|c: char| sanitize_char(c));
    let t2 = trim_end_dots(trim(m));
    let a = trim_start(t2);
    lemma_trim_start_first(t2);
    lemma_trim_end_last(a);
    let t = trim_end(a);
    if t.len() > 0 {
        assert(t[0] == a.take(t.len() as int)[0]);
    }
}

/// Track file names are portable too: a rendered name, whatever the
/// template, title and source, holds no character invalid on a target OS.
pub proof fn law_track_filename_is_portable(
    template: Seq<char>,
    n: nat,
    total: nat,
    title: Seq<char>,
    source_stem: Seq<char>,
)
    ensures
        forall|i: int|
            0 <= i < spec_render_track_filename(template, n, total, title, source_stem).len() ==> {
                let c = #[trigger] spec_render_track_filename(template, n, total, title, source_stem)[i];
                &&& c != '/' && c != '\\' && c != ':' && c != '*' && c != '?' && c != '"' && c != '<'
                    && c != '>' && c != '|'
                &&& !(c <= '\u{1f}' || ('\u{7f}' <= c && c <= '\u{9f}'))
            },
{
    law_sanitized_name_is_portable(spec_render_raw(template, n, total, title, source_stem));
}

fn sanitize_one(c: char) -> (r: char)
    ensures
        r == sanitize_char(c),
{
    if c == '/' || c == '\\' || c == ':' || c == '*' || c == '?' || c == '"' || c == '<' || c
        == '>' || c == '|' || c <= '\u{1f}' || ('\u{7f}' <= c && c <= '\u{9f}') {
        '_'
    } else {
        c
    }
}

/// Sanitized file name, on characters.
pub fn sanitize_chars(name: &[char]) -> (r: Vec<char>)
    ensures
        r@ == spec_sanitize(name@),
{
    let mut replaced: Vec<char> = Vec::new();
    let mut i: usize = 0;
    while i < name.len()
        invariant
            i <= name@.len(),
            replaced@ == name@.take(i as int).map_values(|c: char| sanitize_char(c)),
        decreases name@.len() - i,
    {
        replaced.push(sanitize_one(name[i]));
        i += 1;
        assert(name@.take(i as int).map_values(|c: char| sanitize_char(c)) == name@.take(
            i - 1,
        ).map_values(|c: char| sanitize_char(c)).push(sanitize_char(name@[i - 1])));
    }
    assert(name@.take(name@.len() as int) == name@);
    let t1 = trim_chars(replaced.as_slice());
    let t2 = trim_end_dots_chars(t1.as_slice());
    let t3 = trim_chars(t2.as_slice());
    if t3.len() == 0 {
        let r = chars_of("Untitled");
        proof {
            reveal_strlit("Untitled");
        }
        r
    } else {
        t3
    }
}

/// Replace characters that are invalid on at least one target OS, trim
/// surrounding whitespace and trailing dots; "Untitled" when nothing is
/// left.
pub fn sanitize_filename(name: &str) -> (r: String)
    ensures
        r@ == spec_sanitize(name@),
{
    let v = chars_of(name);
    let s = sanitize_chars(v.as_slice());
    string_of(s.as_slice())
}

/// Render a track file name (without extension) from a template.
///
/// Supported tokens: `{n}` (track number, zero-padded to the width of the
/// track count, min 2), `{title}` / `{titre}` (track title), `{source}`
/// (source file stem). The result is sanitized for cross-platform file
/// names.
pub fn render_track_filename(
    template: &str,
    n: usize,
    total: usize,
    title: &str,
    source_stem: &str,
) -> (r: String)
    ensures
        r@ == spec_render_track_filename(template@, n as nat, total as nat, title@, source_stem@),
{
    let total_digits = dec_chars(total as u64);
    let width = if total_digits.len() < 2 {
        2
    } else {
        total_digits.len()
    };
    let mut num: Vec<char> = Vec::new();
    push_dec_zero(&mut num, n as u64, width);
    assert(num@ == dec_zero(n as nat, number_width(total as nat)));
    let t = chars_of(template);
    let title_c = chars_of(title);
    let stem_c = chars_of(source_stem);
    let p_n = chars_of("{n}");
    let p_title = chars_of("{title}");
    let p_titre = chars_of("{titre}");
    let p_source = chars_of("{source}");
    proof {
        reveal_strlit("{n}");
        reveal_strlit("{title}");
        reveal_strlit("{titre}");
        reveal_strlit("{source}");
    }
    let a = replace_all(t.as_slice(), p_n.as_slice(), num.as_slice());
    let b = replace_all(a.as_slice(), p_title.as_slice(), title_c.as_slice());
    let c = replace_all(b.as_slice(), p_titre.as_slice(), title_c.as_slice());
    let d = replace_all(c.as_slice(), p_source.as_slice(), stem_c.as_slice());
    let s = sanitize_chars(d.as_slice());
    string_of(s.as_slice())
}

} // verus!
