//! Reading the summary ffmpeg's `ebur128` filter prints after measuring a
//! delivered file: the integrated loudness, the loudness range and the
//! true peak, as the number texts it shows. Turning them into numbers is
//! the caller's.

use vstd::prelude::*;
use crate::paths::opt_text;
use crate::export::{texts, CD_RATE};
use crate::text::{chars_of, dec, extend_str, is_whitespace, is_ws, push_dec, string_of, trim_start};

verus! {

/// The measuring filter: `ebur128` with true peaks, over the whole input
/// or over the sample range `[start, end)` of it.
pub open spec fn spec_loudness_filter(segment: Option<(u64, u64)>) -> Seq<char> {
    match segment {
        Some((s, e)) => "atrim=start_sample="@ + dec(s as nat) + ":end_sample="@ + dec(e as nat)
            + ",ebur128=peak=true"@,
        None => "ebur128=peak=true"@,
    }
}

/// The command line measuring `file` (or a range of its samples): its
/// output is discarded, the summary goes to the error output. A raw CD
/// image (headerless 16-bit stereo at 44.1 kHz) is described to the
/// decoder first.
pub open spec fn spec_loudness_args(file: Seq<char>, segment: Option<(u64, u64)>, raw_cd_pcm: bool) -> Seq<
    Seq<char>,
> {
    seq!["-hide_banner"@, "-nostdin"@] + (if raw_cd_pcm {
        seq!["-f"@, "s16le"@, "-ar"@, dec(CD_RATE as nat), "-ac"@, "2"@]
    } else {
        Seq::empty()
    }) + seq!["-i"@, file, "-af"@, spec_loudness_filter(segment), "-f"@, "null"@, "-"@]
}

fn owned(s: &str) -> (r: String)
    ensures
        r@ == s@,
{
    String::from_str(s)
}

fn dec_owned(n: u64) -> (r: String)
    ensures
        r@ == dec(n as nat),
{
    let mut v: Vec<char> = Vec::new();
    push_dec(&mut v, n);
    assert(v@ =~= dec(n as nat));
    string_of(v.as_slice())
}

pub fn loudness_args(file: &str, segment: Option<(u64, u64)>, raw_cd_pcm: bool) -> (r: Vec<String>)
    ensures
        texts(r@) == spec_loudness_args(file@, segment, raw_cd_pcm),
{
    let mut af: Vec<char> = Vec::new();
    match segment {
        Some((s, e)) => {
            extend_str(&mut af, "atrim=start_sample=");
            push_dec(&mut af, s);
            extend_str(&mut af, ":end_sample=");
            push_dec(&mut af, e);
            extend_str(&mut af, ",ebur128=peak=true");
        },
        None => {
            extend_str(&mut af, "ebur128=peak=true");
        },
    }
    let mut args: Vec<String> = vec![owned("-hide_banner"), owned("-nostdin")];
    if raw_cd_pcm {
        args.push(owned("-f"));
        args.push(owned("s16le"));
        args.push(owned("-ar"));
        args.push(dec_owned(CD_RATE as u64));
        args.push(owned("-ac"));
        args.push(owned("2"));
    }
    args.push(owned("-i"));
    args.push(owned(file));
    args.push(owned("-af"));
    args.push(string_of(af.as_slice()));
    args.push(owned("-f"));
    args.push(owned("null"));
    args.push(owned("-"));
    assert(texts(args@) =~= spec_loudness_args(file@, segment, raw_cd_pcm));
    args
}

/// First position from `i` on where `pat` occurs in `t`, or -1.
pub open spec fn find_from(t: Seq<char>, pat: Seq<char>, i: int) -> int
    decreases t.len() + 1 - i,
{
    if i < 0 || i + pat.len() > t.len() {
        -1
    } else if t.subrange(i, i + pat.len()) == pat {
        i
    } else {
        find_from(t, pat, i + 1)
    }
}

/// Last position at or before `i` where `pat` occurs in `t`, or -1.
pub open spec fn rfind_to(t: Seq<char>, pat: Seq<char>, i: int) -> int
    decreases i + 1,
{
    if i < 0 {
        -1
    } else if i + pat.len() <= t.len() && t.subrange(i, i + pat.len()) == pat {
        i
    } else {
        rfind_to(t, pat, i - 1)
    }
}

/// First position from `i` on holding `c`, or the length.
pub open spec fn char_from(s: Seq<char>, c: char, i: int) -> int
    decreases s.len() - i,
{
    if i < 0 || i >= s.len() {
        s.len() as int
    } else if s[i] == c {
        i
    } else {
        char_from(s, c, i + 1)
    }
}

/// First position from `i` on holding whitespace, or the length.
pub open spec fn ws_from(s: Seq<char>, i: int) -> int
    decreases s.len() - i,
{
    if i < 0 || i >= s.len() {
        s.len() as int
    } else if is_ws(s[i]) {
        i
    } else {
        ws_from(s, i + 1)
    }
}

pub open spec fn starts_with(s: Seq<char>, p: Seq<char>) -> bool {
    s.len() >= p.len() && s.take(p.len() as int) == p
}

/// The value a summary line shows: the first word between its first ':'
/// and the next one.
pub open spec fn line_value(l: Seq<char>) -> Option<Seq<char>> {
    let c = char_from(l, ':', 0);
    if c >= l.len() {
        None
    } else {
        let w = trim_start(l.subrange(c + 1, char_from(l, ':', c + 1)));
        let word = w.take(ws_from(w, 0));
        if word.len() == 0 {
            None
        } else {
            Some(word)
        }
    }
}

/// The value of the first line, from position `i` on, that starts (after
/// its indentation) with `label`.
pub open spec fn labelled_from(t: Seq<char>, label: Seq<char>, i: int) -> Option<Seq<char>>
    decreases t.len() + 1 - i,
{
    if i < 0 || i > t.len() {
        None
    } else {
        let e = char_from(t, '\n', i);
        let l = t.subrange(i, e);
        if starts_with(trim_start(l), label) {
            line_value(l)
        } else if e >= t.len() || e < i {
            None
        } else {
            labelled_from(t, label, e + 1)
        }
    }
}

/// The summary: the text from the last "Summary:" on, or all of it.
pub open spec fn summary(t: Seq<char>) -> Seq<char> {
    let k = rfind_to(t, "Summary:"@, t.len() - "Summary:"@.len());
    if k < 0 {
        t
    } else {
        t.skip(k)
    }
}

/// The value the summary shows for `label`.
pub open spec fn summary_value(t: Seq<char>, label: Seq<char>) -> Option<Seq<char>> {
    labelled_from(summary(t), label, 0)
}

/// The true peak: the "Peak:" value of the summary's "True peak:" section
/// (the sample peak section has a "Peak:" line too).
pub open spec fn summary_true_peak(t: Seq<char>) -> Option<Seq<char>> {
    let s = summary(t);
    let k = find_from(s, "True peak:"@, 0);
    if k < 0 {
        None
    } else {
        labelled_from(s.skip(k), "Peak:"@, 0)
    }
}

/// The texts of the three figures of an `ebur128` summary.
#[derive(Debug)]
pub struct LoudnessTexts {
    /// Integrated loudness ("I:"), in LUFS.
    pub integrated: Option<String>,
    /// Loudness range ("LRA:"), in LU.
    pub range: Option<String>,
    /// Maximum true peak, in dBTP.
    pub true_peak: Option<String>,
}

fn copy_range(t: &[char], a: usize, b: usize) -> (r: Vec<char>)
    requires
        a <= b <= t@.len(),
    ensures
        r@ == t@.subrange(a as int, b as int),
{
    let mut v: Vec<char> = Vec::new();
    let mut k = a;
    while k < b
        invariant
            a <= k <= b <= t@.len(),
            v@ == t@.subrange(a as int, k as int),
        decreases b - k,
    {
        v.push(t[k]);
        k += 1;
        assert(v@ =~= t@.subrange(a as int, k as int));
    }
    v
}

fn matches_at(t: &[char], pat: &[char], i: usize) -> (r: bool)
    requires
        i + pat@.len() <= t@.len(),
    ensures
        r == (t@.subrange(i as int, i + pat@.len()) == pat@),
{
    let tl = t.len();
    let mut k: usize = 0;
    while k < pat.len()
        invariant
            tl == t@.len(),
            k <= pat@.len(),
            i + pat@.len() <= t@.len(),
            forall|j: int| 0 <= j < k ==> t@[i + j] == pat@[j],
        decreases pat@.len() - k,
    {
        if t[i + k] != pat[k] {
            assert(t@.subrange(i as int, i + pat@.len())[k as int] != pat@[k as int]);
            return false;
        }
        k += 1;
    }
    assert(t@.subrange(i as int, i + pat@.len()) =~= pat@);
    true
}

fn find_at(t: &[char], pat: &[char]) -> (r: Option<usize>)
    ensures
        match r {
            Some(k) => k as int == find_from(t@, pat@, 0) && k + pat@.len() <= t@.len(),
            None => find_from(t@, pat@, 0) == -1,
        },
{
    if pat.len() > t.len() {
        return None;
    }
    if pat.len() == 0 {
        assert(t@.subrange(0, 0) =~= pat@);
        return Some(0);
    }
    let mut i: usize = 0;
    while i <= t.len() - pat.len()
        invariant
            1 <= pat@.len() <= t@.len(),
            i <= t@.len() - pat@.len() + 1,
            find_from(t@, pat@, i as int) == find_from(t@, pat@, 0),
        decreases t@.len() - pat@.len() + 1 - i,
    {
        if matches_at(t, pat, i) {
            return Some(i);
        }
        i += 1;
    }
    None
}

fn rfind_all(t: &[char], pat: &[char]) -> (r: Option<usize>)
    ensures
        match r {
            Some(k) => k as int == rfind_to(t@, pat@, t@.len() - pat@.len()) && k <= t@.len(),
            None => rfind_to(t@, pat@, t@.len() - pat@.len()) < 0,
        },
{
    if pat.len() > t.len() {
        return None;
    }
    if pat.len() == 0 {
        assert(t@.subrange(t@.len() as int, t@.len() as int) =~= pat@);
        return Some(t.len());
    }
    let mut k: usize = t.len() - pat.len() + 1;
    while k > 0
        invariant
            pat@.len() <= t@.len(),
            k <= t@.len() - pat@.len() + 1,
            rfind_to(t@, pat@, k - 1) == rfind_to(t@, pat@, t@.len() - pat@.len()),
        decreases k,
    {
        let i = k - 1;
        if matches_at(t, pat, i) {
            return Some(i);
        }
        k = i;
    }
    None
}

fn char_index(s: &[char], c: char, from: usize) -> (r: usize)
    requires
        from <= s@.len(),
    ensures
        r as int == char_from(s@, c, from as int),
        from <= r <= s@.len(),
{
    let mut i = from;
    while i < s.len()
        invariant
            from <= i <= s@.len(),
            char_from(s@, c, i as int) == char_from(s@, c, from as int),
        decreases s@.len() - i,
    {
        if s[i] == c {
            return i;
        }
        i += 1;
    }
    i
}

fn ws_index(s: &[char]) -> (r: usize)
    ensures
        r as int == ws_from(s@, 0),
        r <= s@.len(),
{
    let mut i: usize = 0;
    while i < s.len()
        invariant
            i <= s@.len(),
            ws_from(s@, i as int) == ws_from(s@, 0),
        decreases s@.len() - i,
    {
        if is_whitespace(s[i]) {
            return i;
        }
        i += 1;
    }
    i
}

fn trim_start_vec(s: &[char]) -> (r: Vec<char>)
    ensures
        r@ == trim_start(s@),
{
    let n = s.len();
    let mut i: usize = 0;
    assert(s@.subrange(0, n as int) =~= s@);
    while i < n && is_whitespace(s[i])
        invariant
            i <= n == s@.len(),
            trim_start(s@.subrange(i as int, n as int)) == trim_start(s@),
        decreases n - i,
    {
        assert(s@.subrange(i as int, n as int).drop_first() =~= s@.subrange(i + 1, n as int));
        i += 1;
    }
    copy_range(s, i, n)
}

fn line_value_exec(l: &[char]) -> (r: Option<Vec<char>>)
    ensures
        match line_value(l@) {
            Some(w) => r matches Some(v) && v@ == w,
            None => r is None,
        },
{
    let c = char_index(l, ':', 0);
    if c >= l.len() {
        return None;
    }
    let d = char_index(l, ':', c + 1);
    let piece = copy_range(l, c + 1, d);
    let w = trim_start_vec(piece.as_slice());
    let k = ws_index(w.as_slice());
    let word = copy_range(w.as_slice(), 0, k);
    assert(word@ =~= w@.take(k as int));
    if word.len() == 0 {
        None
    } else {
        Some(word)
    }
}

fn labelled(t: &[char], label: &[char]) -> (r: Option<Vec<char>>)
    ensures
        match labelled_from(t@, label@, 0) {
            Some(w) => r matches Some(v) && v@ == w,
            None => r is None,
        },
{
    let n = t.len();
    let mut i: usize = 0;
    loop
        invariant
            i <= n == t@.len(),
            labelled_from(t@, label@, i as int) == labelled_from(t@, label@, 0),
        decreases n + 1 - i,
    {
        let e = char_index(t, '\n', i);
        let line = copy_range(t, i, e);
        let lead = trim_start_vec(line.as_slice());
        let starts = lead.len() >= label.len() && matches_at(lead.as_slice(), label, 0);
        proof {
            if lead@.len() >= label@.len() {
                assert(lead@.subrange(0, label@.len() as int) =~= lead@.take(label@.len() as int));
            }
        }
        if starts {
            return line_value_exec(line.as_slice());
        }
        if e >= n {
            return None;
        }
        i = e + 1;
    }
}

fn string_opt(v: Option<Vec<char>>) -> (r: Option<String>)
    ensures
        opt_text(r) == match v {
            Some(w) => Some(w@),
            None => None::<Seq<char>>,
        },
{
    match v {
        Some(w) => Some(string_of(w.as_slice())),
        None => None,
    }
}

/// The three figures of an `ebur128` summary in ffmpeg's error output, as
/// the texts it prints: each the first word after the label's ':' on the
/// first line of the summary (the text from the last "Summary:" on) that
/// starts with the label; the true peak is the "Peak:" of its "True peak:"
/// section.
pub fn ebur128_summary(stderr: &str) -> (r: LoudnessTexts)
    ensures
        opt_text(r.integrated) == summary_value(stderr@, "I:"@),
        opt_text(r.range) == summary_value(stderr@, "LRA:"@),
        opt_text(r.true_peak) == summary_true_peak(stderr@),
{
    let t = chars_of(stderr);
    let marker = chars_of("Summary:");
    let tail = match rfind_all(t.as_slice(), marker.as_slice()) {
        Some(k) => copy_range(t.as_slice(), k, t.len()),
        None => t,
    };
    assert(tail@ == summary(stderr@));
    let integrated = labelled(tail.as_slice(), chars_of("I:").as_slice());
    let range = labelled(tail.as_slice(), chars_of("LRA:").as_slice());
    let true_peak = match find_at(tail.as_slice(), chars_of("True peak:").as_slice()) {
        Some(k) => {
            let sect = copy_range(tail.as_slice(), k, tail.len());
            labelled(sect.as_slice(), chars_of("Peak:").as_slice())
        },
        None => None,
    };
    LoudnessTexts {
        integrated: string_opt(integrated),
        range: string_opt(range),
        true_peak: string_opt(true_peak),
    }
}

} // verus!
