//! Where the ffmpeg binary is looked for: the `STILL_FFMPEG` override
//! first, then candidates the host application provides (a bundled
//! sidecar), then well-known install locations (GUI apps on macOS do not
//! inherit the shell's PATH), and finally whatever "ffmpeg" resolves to on
//! the PATH. The first candidate that runs is used.

use vstd::prelude::*;
use crate::error::StillError;

verus! {

broadcast use vstd::string::group_string_axioms;

/// Install locations tried after the given candidates.
pub open spec fn known_locations() -> Seq<Seq<char>> {
    seq![
        "/opt/homebrew/bin/ffmpeg"@,
        "/usr/local/bin/ffmpeg"@,
        "/opt/local/bin/ffmpeg"@,
        "/usr/bin/ffmpeg"@,
        "ffmpeg"@,
    ]
}

/// The candidates, in the order they are tried.
pub open spec fn spec_candidates(env: Option<Seq<char>>, extra: Seq<Seq<char>>) -> Seq<Seq<char>> {
    let first: Seq<Seq<char>> = match env {
        Some(e) => seq![e],
        None => seq![],
    };
    first + extra + known_locations()
}

pub open spec fn texts_of(v: Seq<String>) -> Seq<Seq<char>> {
    v.map_values(|s: String| s@)
}

fn push_text(out: &mut Vec<String>, s: &str)
    ensures
        texts_of(final(out)@) == texts_of(old(out)@).push(s@),
{
    let ghost before = out@;
    let t = String::from_str(s);
    out.push(t);
    assert(out@ =~= before.push(t));
    assert(texts_of(out@) =~= texts_of(before).push(s@));
}

/// The ffmpeg candidates: the `STILL_FFMPEG` value, the host's own, the
/// well-known locations, then "ffmpeg" on the PATH.
pub fn ffmpeg_candidates(env: Option<&str>, extra: &Vec<String>) -> (r: Vec<String>)
    ensures
        texts_of(r@) == spec_candidates(
            match env {
                Some(e) => Some(e@),
                None => None,
            },
            texts_of(extra@),
        ),
{
    let mut out: Vec<String> = Vec::new();
    match env {
        Some(e) => push_text(&mut out, e),
        None => {},
    }
    let ghost first = texts_of(out@);
    let mut i: usize = 0;
    while i < extra.len()
        invariant
            i <= extra@.len(),
            texts_of(out@) == first + texts_of(extra@).take(i as int),
        decreases extra@.len() - i,
    {
        push_text(&mut out, extra[i].as_str());
        i += 1;
        assert(texts_of(out@) =~= first + texts_of(extra@).take(i as int));
    }
    assert(texts_of(extra@).take(extra@.len() as int) =~= texts_of(extra@));
    let ghost mid = texts_of(out@);
    push_text(&mut out, "/opt/homebrew/bin/ffmpeg");
    push_text(&mut out, "/usr/local/bin/ffmpeg");
    push_text(&mut out, "/opt/local/bin/ffmpeg");
    push_text(&mut out, "/usr/bin/ffmpeg");
    push_text(&mut out, "ffmpeg");
    assert(texts_of(out@) =~= mid + known_locations());
    out
}

/// The index of the first candidate that runs (`runs[i]` tells whether
/// candidate `i` answered), if any.
pub open spec fn first_runnable(runs: Seq<bool>, i: int) -> int
    decreases runs.len() - i,
{
    if i < 0 || i >= runs.len() {
        -1
    } else if runs[i] {
        i
    } else {
        first_runnable(runs, i + 1)
    }
}

/// The binary to use: the first candidate that runs, or `FfmpegNotFound`.
pub fn pick_ffmpeg(candidates: &Vec<String>, runs: &Vec<bool>) -> (r: Result<String, StillError>)
    requires
        runs@.len() == candidates@.len(),
    ensures
        first_runnable(runs@, 0) < 0 ==> r matches Err(StillError::FfmpegNotFound),
        first_runnable(runs@, 0) >= 0 ==> (r matches Ok(p) && p == candidates@[first_runnable(runs@, 0)]),
{
    let mut i: usize = 0;
    while i < runs.len()
        invariant
            i <= runs@.len(),
            runs@.len() == candidates@.len(),
            first_runnable(runs@, i as int) == first_runnable(runs@, 0),
        decreases runs@.len() - i,
    {
        if runs[i] {
            return Ok(candidates[i].clone());
        }
        i += 1;
    }
    Err(StillError::FfmpegNotFound)
}

} // verus!
