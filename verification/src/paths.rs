//! The parts of a file path the library reads: its final component, that
//! component's stem and its extension (`std::path::Path`).

use vstd::prelude::*;

verus! {

broadcast use vstd::string::group_string_axioms;

/// `s` is a piece of `path`: a run of its characters, as a component (or
/// part of one) is. On a plain path, where '/' is the only separator, the
/// piece holds no '/'; elsewhere (a Windows verbatim path, split on '\\'
/// alone) it may.
pub open spec fn path_piece(s: Seq<char>, path: Seq<char>) -> bool {
    &&& plain_path(path) ==> !s.contains('/')
    &&& exists|i: int| 0 <= i && i + s.len() <= path.len() && #[trigger] path.subrange(i, i + s.len()) == s
}

/// A path every platform splits the same way: no '\\' (a separator on
/// some platforms), no ':' (drive prefixes) and no leading "//" (network
/// prefixes). On such a path only '/' separates components.
pub open spec fn plain_path(p: Seq<char>) -> bool {
    &&& !p.contains('\\')
    &&& !p.contains(':')
    &&& !(p.len() >= 2 && p[0] == '/' && p[1] == '/')
}

/// The '/'-separated segments of a path, empty ones included.
pub open spec fn segments(p: Seq<char>) -> Seq<Seq<char>>
    decreases p.len(),
{
    if p.len() == 0 {
        seq![Seq::<char>::empty()]
    } else {
        let init = segments(p.drop_last());
        if p.last() == '/' {
            init.push(Seq::<char>::empty())
        } else {
            init.update(init.len() - 1, init.last().push(p.last()))
        }
    }
}

/// The segments that are components: neither empty nor ".".
pub open spec fn components(s: Seq<Seq<char>>) -> Seq<Seq<char>>
    decreases s.len(),
{
    if s.len() == 0 {
        s
    } else {
        let k = components(s.drop_last());
        if s.last().len() == 0 || s.last() == "."@ {
            k
        } else {
            k.push(s.last())
        }
    }
}

/// The file name of a plain path: its last component, unless there is
/// none or it is "..".
pub open spec fn spec_file_name(p: Seq<char>) -> Option<Seq<char>> {
    let c = components(segments(p));
    if c.len() == 0 || c.last() == ".."@ {
        None
    } else {
        Some(c.last())
    }
}

/// The position of the last '.' in `s`, or -1.
pub open spec fn last_dot(s: Seq<char>) -> int
    decreases s.len(),
{
    if s.len() == 0 {
        -1
    } else if s.last() == '.' {
        s.len() - 1
    } else {
        last_dot(s.drop_last())
    }
}

/// The stem of a file name: the part before its last '.', or the whole
/// name when it has no '.' or only a leading one.
pub open spec fn name_stem(n: Seq<char>) -> Seq<char> {
    if last_dot(n) <= 0 {
        n
    } else {
        n.take(last_dot(n))
    }
}

/// The extension of a file name: the part after its last '.', when that
/// '.' is not its first character.
pub open spec fn name_extension(n: Seq<char>) -> Option<Seq<char>> {
    if last_dot(n) <= 0 {
        None
    } else {
        Some(n.skip(last_dot(n) + 1))
    }
}

pub open spec fn spec_file_stem(p: Seq<char>) -> Option<Seq<char>> {
    match spec_file_name(p) {
        Some(n) => Some(name_stem(n)),
        None => None,
    }
}

pub open spec fn spec_extension(p: Seq<char>) -> Option<Seq<char>> {
    match spec_file_name(p) {
        Some(n) => name_extension(n),
        None => None,
    }
}

/// An optional text as plain characters.
pub open spec fn opt_text(o: Option<String>) -> Option<Seq<char>> {
    match o {
        Some(s) => Some(s@),
        None => None,
    }
}

/// The final component of a path (`Path::file_name`), if any: a non-empty
/// piece of the path; on a plain path, its last component unless that is
/// "..". On other paths, which piece depends on the platform and is left
/// unsaid.
#[verifier::external_body]
pub(crate) fn file_name(path: &str) -> (r: Option<String>)
    ensures
        r matches Some(s) ==> s@.len() > 0 && path_piece(s@, path@),
        plain_path(path@) ==> opt_text(r) == spec_file_name(path@),
{
    match std::path::Path::new(path).file_name() {
        Some(s) => Some(s.to_string_lossy().to_string()),
        None => None,
    }
}

/// The stem of a path's final component (`Path::file_stem`), if any: a
/// non-empty piece of that component; on a plain path, the stem of its
/// file name (all of it, or what precedes its last '.' unless that is the
/// leading one). On other paths the piece is left unsaid.
#[verifier::external_body]
pub(crate) fn file_stem(path: &str) -> (r: Option<String>)
    ensures
        r matches Some(s) ==> s@.len() > 0 && path_piece(s@, path@),
        plain_path(path@) ==> opt_text(r) == spec_file_stem(path@),
{
    match std::path::Path::new(path).file_stem() {
        Some(s) => Some(s.to_string_lossy().to_string()),
        None => None,
    }
}

/// The extension of a path's final component (`Path::extension`), if
/// any: what follows its last '.', so a piece of the path holding no '.';
/// on a plain path, the extension of its file name. On other paths the
/// piece is left unsaid.
#[verifier::external_body]
pub(crate) fn path_extension(path: &str) -> (r: Option<String>)
    ensures
        r matches Some(e) ==> !e@.contains('.') && path_piece(e@, path@),
        plain_path(path@) ==> opt_text(r) == spec_extension(path@),
{
    match std::path::Path::new(path).extension() {
        Some(e) => Some(e.to_string_lossy().to_string()),
        None => None,
    }
}

/// The stem a source file lends to names and tags: its file stem, or
/// "audio" when its path has none.
pub fn source_stem(path: &str) -> (r: String)
    ensures
        r@ == "audio"@ || (r@.len() > 0 && path_piece(r@, path@)),
        plain_path(path@) ==> r@ == match spec_file_stem(path@) {
            Some(s) => s,
            None => "audio"@,
        },
{
    match file_stem(path) {
        Some(s) => s,
        None => String::from_str("audio"),
    }
}

} // verus!
