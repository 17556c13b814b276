//! The calls into `std::path` that the walkers make. A path's grammar is the
//! target platform's (Windows for the hook, where `C:\dir\file` splits into a
//! `C:` prefix, a root separator and names).
use vstd::prelude::*;
use crate::filter::join;
use crate::text::{spec_split, views};

verus! {

/// The components of a path, as `Path::components` yields them, each as text.
pub uninterp spec fn spec_path_components(path: Seq<char>) -> Seq<Seq<char>>;

/// The path that remains after removing the leading components `base`, as
/// `Path::strip_prefix` gives it; `None` where `base` is not a prefix.
pub uninterp spec fn spec_strip_path_prefix(path: Seq<char>, base: Seq<char>) -> Option<Seq<char>>;

/// The extension of a path's file name, as `Path::extension` gives it.
pub uninterp spec fn spec_path_extension(path: Seq<char>) -> Option<Seq<char>>;

/// Whether `c` separates path components on some platform: `/` everywhere,
/// `\\` on Windows.
pub open spec fn is_sep(c: char) -> bool {
    c == '/' || c == '\\'
}

/// A plain name in a path: not empty, not `.`, and without separators or
/// `:` (which on Windows may start a drive prefix).
pub open spec fn plain_name(n: Seq<char>) -> bool {
    &&& n.len() > 0
    &&& n != seq!['.']
    &&& forall|i: int| 0 <= i < n.len() ==> !is_sep(#[trigger] n[i]) && n[i] != ':'
}

/// Every name is plain.
pub open spec fn plain_names(ns: Seq<Seq<char>>) -> bool {
    forall|i: int| 0 <= i < ns.len() ==> plain_name(#[trigger] ns[i])
}

/// Names joined with `/`, after a leading `/` when `root`.
pub open spec fn slash_path(root: bool, ns: Seq<Seq<char>>) -> Seq<char> {
    (if root { seq!['/'] } else { Seq::empty() }) + join(ns, seq!['/'])
}

/// Whether the path starts with a `/`.
pub open spec fn starts_at_root(p: Seq<char>) -> bool {
    p.len() > 0 && p[0] == '/'
}

/// The `/`-separated pieces of a path after its leading `/`, if any.
pub open spec fn slash_pieces(p: Seq<char>) -> Seq<Seq<char>> {
    spec_split(if starts_at_root(p) { p.drop_first() } else { p }, '/')
}

/// Whether the path is plain names joined with single `/`, maybe after a
/// leading `/`: a path whose components are the same on every platform.
pub open spec fn slash_shaped(p: Seq<char>) -> bool {
    plain_names(slash_pieces(p))
}

/// The text of the root component: a single separator.
pub open spec fn root_text(p: Seq<char>) -> Seq<char> {
    if spec_path_components(p).len() > 0 && spec_path_components(p)[0] == seq!['\\'] {
        seq!['\\']
    } else {
        seq!['/']
    }
}

/// The components of a path: for plain names joined with `/`, the names,
/// after the root separator when the path starts with one (`/` on Unix, `\\`
/// on Windows); for other paths, what `Path::components` yields.
pub open spec fn components_of(p: Seq<char>) -> Seq<Seq<char>> {
    if slash_shaped(p) {
        if starts_at_root(p) {
            seq![root_text(p)] + slash_pieces(p)
        } else {
            slash_pieces(p)
        }
    } else {
        spec_path_components(p)
    }
}

/// A non-empty directory as a base: `"/"`, or a `/`-shaped path, with or
/// without one trailing `/`; gives whether it starts at the root and its names.
pub open spec fn base_names(b: Seq<char>) -> Option<(bool, Seq<Seq<char>>)> {
    if b.len() == 0 {
        None
    } else if b == seq!['/'] {
        Some((true, Seq::empty()))
    } else {
        let c = if b.last() == '/' { b.drop_last() } else { b };
        if slash_shaped(c) {
            Some((starts_at_root(c), slash_pieces(c)))
        } else {
            None
        }
    }
}

/// Whether `a` is a leading run of `b`.
pub open spec fn is_leading(a: Seq<Seq<char>>, b: Seq<Seq<char>>) -> bool {
    a.len() <= b.len() && b.take(a.len() as int) == a
}

/// What `Path::strip_prefix` gives: an empty base leaves the path as it is;
/// for a `/`-shaped path and base, the names past the base's names joined
/// with `/` when the base's components lead the path's, otherwise none; for
/// other paths, the named result.
pub open spec fn strip_of(p: Seq<char>, b: Seq<char>) -> Option<Seq<char>> {
    if slash_shaped(p) && b.len() == 0 {
        Some(p)
    } else if slash_shaped(p) && base_names(b) is Some {
        let (rb, nb) = base_names(b)->0;
        let np = slash_pieces(p);
        if rb == starts_at_root(p) && is_leading(nb, np) {
            Some(join(np.skip(nb.len() as int), seq!['/']))
        } else {
            None
        }
    } else {
        spec_strip_path_prefix(p, b)
    }
}

/// The text after the last `.` of `p`, and the text before it.
pub open spec fn split_last_dot(p: Seq<char>) -> Option<(Seq<char>, Seq<char>)>
    decreases p.len(),
{
    if p.len() == 0 {
        None
    } else if p.last() == '.' {
        Some((p.drop_last(), Seq::empty()))
    } else {
        match split_last_dot(p.drop_last()) {
            Some((q, e)) => Some((q, e.push(p.last()))),
            None => None,
        }
    }
}

/// Whether `p` is `q.e` with a plain extension `e` that Path::extension
/// reads the same on every platform: `e` is not empty and holds no
/// separator; `q` is not empty and ends in none of a separator or `:`; and
/// `p` does not start with two separators (a Windows network prefix).
pub open spec fn ext_shaped(p: Seq<char>) -> bool {
    match split_last_dot(p) {
        Some((q, e)) => {
            &&& e.len() > 0
            &&& forall|i: int| 0 <= i < e.len() ==> !is_sep(#[trigger] e[i])
            &&& q.len() > 0
            &&& !is_sep(q.last())
            &&& q.last() != ':'
            &&& !(p.len() >= 2 && is_sep(p[0]) && is_sep(p[1]))
        },
        None => false,
    }
}

/// Whether `p` is `dir.ext` where `dir` is empty or ends in `/` and `ext` is
/// a non-empty name without separators: a file name whose only dot leads.
pub open spec fn leading_dot(p: Seq<char>) -> bool {
    match split_last_dot(p) {
        Some((q, e)) => {
            &&& e.len() > 0
            &&& forall|i: int| 0 <= i < e.len() ==> !is_sep(#[trigger] e[i])
            &&& (q.len() == 0 || q.last() == '/')
            &&& !(p.len() >= 2 && is_sep(p[0]) && is_sep(p[1]))
        },
        None => false,
    }
}

/// Whether the text after the last `/` of `p` is a name without a `.` that
/// ends in no separator, in a path that does not start with two separators:
/// a file name without a dot on every platform.
pub open spec fn undotted_last_name(p: Seq<char>) -> bool {
    let n = spec_split(p, '/').last();
    &&& n.len() > 0
    &&& !n.contains('.')
    &&& !is_sep(n.last())
    &&& !(p.len() >= 2 && is_sep(p[0]) && is_sep(p[1]))
}

/// The extension of a path's file name: none when the path holds no `.`;
/// the text after the last `.` when the name is `stem.ext` with a non-empty
/// stem; none when the name's only `.` leads it or the name has no `.`;
/// otherwise what `Path::extension` gives.
pub open spec fn extension_of(p: Seq<char>) -> Option<Seq<char>> {
    match split_last_dot(p) {
        None => None,
        Some((_, e)) => if ext_shaped(p) {
            Some(e)
        } else if leading_dot(p) || undotted_last_name(p) {
            None
        } else {
            spec_path_extension(p)
        },
    }
}

/// Splits `path` with `std::path::Path::components` and returns each
/// component's text. Claims that the result is a function of `path`, that
/// no component is empty, and that plain names joined with `/` split into
/// those names, after the root separator when the path starts with `/`.
#[verifier::external_body]
pub(crate) fn path_components(path: &str) -> (res: Vec<String>)
    ensures
        views(res@) == spec_path_components(path@),
        views(res@) == components_of(path@),
        forall|i: int| 0 <= i < res@.len() ==> (#[trigger] res@[i])@.len() > 0,
{
    std::path::Path::new(path).components().map(|c| c.as_os_str().to_string_lossy().into_owned()).collect()
}

/// Calls `std::path::Path::strip_prefix(path, base)` and returns the rest of
/// the path as text. Claims that the result is a function of the two paths,
/// and, for paths of plain names joined with `/`, that it is the names past
/// the base's when those lead the path's (everything for an empty base), and
/// none otherwise.
#[verifier::external_body]
pub(crate) fn strip_path_prefix(path: &str, base: &str) -> (res: Option<String>)
    ensures
        match res {
            Some(r) => spec_strip_path_prefix(path@, base@) == Some(r@),
            None => spec_strip_path_prefix(path@, base@) is None,
        },
        match res {
            Some(r) => strip_of(path@, base@) == Some(r@),
            None => strip_of(path@, base@) is None,
        },
{
    std::path::Path::new(path).strip_prefix(base).ok().map(|r| r.to_string_lossy().into_owned())
}

/// Calls `std::path::Path::extension` and returns the extension as text.
/// Claims that the result is a function of the path, that it is the text
/// after the last `.` when the file name is `stem.ext` with a non-empty stem,
/// and that there is none when the path holds no `.`, the name's only `.`
/// leads it, or the name has no `.` (as `Path::extension`'s documentation
/// says).
#[verifier::external_body]
pub(crate) fn path_extension(path: &str) -> (res: Option<String>)
    ensures
        match res {
            Some(e) => spec_path_extension(path@) == Some(e@),
            None => spec_path_extension(path@) is None,
        },
        match res {
            Some(e) => extension_of(path@) == Some(e@),
            None => extension_of(path@) is None,
        },
{
    std::path::Path::new(path).extension().map(|e| e.to_string_lossy().into_owned())
}

} // verus!
