//! File-type filter patterns such as `*.txt;*.md`: matching a path against
//! one, and turning one into an Everything search term.
use vstd::prelude::*;
use crate::paths::{extension_of, path_extension};
use crate::text::{ascii_lower, lowercase_of, spec_split, spec_trim, split, to_lowercase, trim, views};
use crate::tree::{compare_names, NameOrder};

verus! {

/// The text of an optional string slice.
pub open spec fn opt_view(o: Option<&str>) -> Option<Seq<char>> {
    match o {
        Some(s) => Some(s@),
        None => None,
    }
}

/// Whether two strings hold the same text.
pub fn same_text(a: &str, b: &str) -> (res: bool)
    ensures
        res == (a@ == b@),
{
    match compare_names(a, b) {
        NameOrder::Equal => true,
        _ => false,
    }
}

/// The rest of `p` after a leading `*.`, if it has one.
pub open spec fn spec_strip_star_dot(p: Seq<char>) -> Option<Seq<char>> {
    if p.len() >= 2 && p[0] == '*' && p[1] == '.' {
        Some(p.skip(2))
    } else {
        None
    }
}

/// The rest of `p` after a leading `*.`, if it has one.
pub fn strip_star_dot(p: &str) -> (res: Option<String>)
    ensures
        match res {
            Some(r) => spec_strip_star_dot(p@) == Some(r@),
            None => spec_strip_star_dot(p@) is None,
        },
{
    let n = p.unicode_len();
    if n >= 2 && p.get_char(0) == '*' && p.get_char(1) == '.' {
        assert(p@.subrange(2, n as int) == p@.skip(2));
        Some(p.substring_char(2, n).to_owned())
    } else {
        None
    }
}

/// Whether one `;`-separated part of a pattern accepts a file whose
/// lower-cased extension is `ext_lower`: `*` and `*.*` accept every file,
/// `*.ext` the files whose extension is `ext`, compared without case.
pub open spec fn part_accepts(part: Seq<char>, ext_lower: Seq<char>) -> bool {
    let p = spec_trim(part);
    ||| p == "*.*"@
    ||| p == "*"@
    ||| (spec_strip_star_dot(p) matches Some(e) && ext_lower == lowercase_of(e))
}

/// Whether some part of `pattern` accepts the lower-cased extension.
pub open spec fn pattern_accepts_ext(pattern: Seq<char>, ext_lower: Seq<char>) -> bool {
    exists|i: int|
        0 <= i < spec_split(pattern, ';').len() && part_accepts(#[trigger] spec_split(pattern, ';')[i], ext_lower)
}

/// The extension, or nothing when there is none.
pub open spec fn ext_or_empty(e: Option<Seq<char>>) -> Seq<char> {
    match e {
        Some(x) => x,
        None => Seq::empty(),
    }
}

/// Whether the file at `path` passes the filter `pattern`.
pub open spec fn spec_matches_filter(path: Seq<char>, pattern: Seq<char>) -> bool {
    pattern_accepts_ext(pattern, lowercase_of(ext_or_empty(extension_of(path))))
}

/// Whether some part of `pattern` accepts a file whose lower-cased extension
/// is `ext_lower`.
pub fn pattern_accepts(pattern: &str, ext_lower: &str) -> (res: bool)
    ensures
        res == pattern_accepts_ext(pattern@, ext_lower@),
{
    let parts = split(pattern, ';');
    let n = parts.len();
    for i in 0..n
        invariant
            n == parts@.len(),
            views(parts@) == spec_split(pattern@, ';'),
            forall|j: int| 0 <= j < i ==> !part_accepts(#[trigger] spec_split(pattern@, ';')[j], ext_lower@),
    {
        assert(spec_split(pattern@, ';')[i as int] == parts@[i as int]@);
        let p = trim(parts[i].as_str());
        if same_text(p.as_str(), "*.*") || same_text(p.as_str(), "*") {
            assert(part_accepts(spec_split(pattern@, ';')[i as int], ext_lower@));
            return true;
        }
        if let Some(e) = strip_star_dot(p.as_str()) {
            let lower = to_lowercase(e.as_str());
            if same_text(ext_lower, lower.as_str()) {
                assert(part_accepts(spec_split(pattern@, ';')[i as int], ext_lower@));
                return true;
            }
        }
    }
    false
}

/// Whether the file at `path` passes the filter `pattern` (such as
/// `*.txt;*.md`): its extension, compared without case, is one the pattern
/// names, or the pattern has a `*` or `*.*` part.
pub fn matches_filter(path: &str, pattern: &str) -> (res: bool)
    ensures
        res == spec_matches_filter(path@, pattern@),
        vstd::utf8::is_ascii_chars(ext_or_empty(extension_of(path@))) ==> lowercase_of(
            ext_or_empty(extension_of(path@)),
        ) == ascii_lower(ext_or_empty(extension_of(path@))),
{
    let ext = match path_extension(path) {
        Some(e) => e,
        None => String::new(),
    };
    let lower = to_lowercase(ext.as_str());
    pattern_accepts(pattern, lower.as_str())
}

/// For ASCII extensions the filter ignores case: two files whose extensions
/// agree but for the case of their letters pass the same patterns.
pub proof fn law_filter_ignores_ascii_case(path1: Seq<char>, path2: Seq<char>, pattern: Seq<char>)
    requires
        vstd::utf8::is_ascii_chars(ext_or_empty(extension_of(path1))),
        vstd::utf8::is_ascii_chars(ext_or_empty(extension_of(path2))),
        ascii_lower(ext_or_empty(extension_of(path1))) == ascii_lower(ext_or_empty(extension_of(path2))),
    ensures
        spec_matches_filter(path1, pattern) == spec_matches_filter(path2, pattern),
{
    crate::text::law_lowercase_ascii(ext_or_empty(extension_of(path1)));
    crate::text::law_lowercase_ascii(ext_or_empty(extension_of(path2)));
}

/// A pattern with a `*` or `*.*` part lets every file through.
pub proof fn law_wildcard_part_accepts_all(path: Seq<char>, pattern: Seq<char>, i: int)
    requires
        0 <= i < spec_split(pattern, ';').len(),
        spec_trim(spec_split(pattern, ';')[i]) == "*"@ || spec_trim(spec_split(pattern, ';')[i]) == "*.*"@,
    ensures
        spec_matches_filter(path, pattern),
{
    assert(part_accepts(spec_split(pattern, ';')[i], lowercase_of(ext_or_empty(extension_of(path)))));
}

/// The extension a filter part names for a search: the rest after `*.`,
/// unless that is empty or `*`.
pub open spec fn ext_of_part(part: Seq<char>) -> Option<Seq<char>> {
    match spec_strip_star_dot(spec_trim(part)) {
        Some(e) => if e != "*"@ && e.len() > 0 {
            Some(e)
        } else {
            None
        },
        None => None,
    }
}

/// The extensions that the parts name, in order.
pub open spec fn exts_of(parts: Seq<Seq<char>>) -> Seq<Seq<char>>
    decreases parts.len(),
{
    if parts.len() == 0 {
        Seq::empty()
    } else {
        match ext_of_part(parts.last()) {
            Some(e) => exts_of(parts.drop_last()).push(e),
            None => exts_of(parts.drop_last()),
        }
    }
}

/// The items joined with `sep` between each two.
pub open spec fn join(list: Seq<Seq<char>>, sep: Seq<char>) -> Seq<char>
    decreases list.len(),
{
    if list.len() == 0 {
        Seq::empty()
    } else if list.len() == 1 {
        list[0]
    } else {
        join(list.drop_last(), sep) + sep + list.last()
    }
}

/// The Everything search term for a filter: `ext:` followed by the named
/// extensions joined with `;`, or nothing when the filter names none.
pub open spec fn spec_search_terms(filter: Option<Seq<char>>) -> Seq<char> {
    match filter {
        Some(p) => {
            let e = exts_of(spec_split(p, ';'));
            if e.len() > 0 {
                "ext:"@ + join(e, ";"@)
            } else {
                Seq::empty()
            }
        },
        None => Seq::empty(),
    }
}

/// Builds the Everything search term for a file-type filter, e.g.
/// `*.txt;*.md` gives `ext:txt;md`.
pub fn everything_search_terms(filter: Option<&str>) -> (res: String)
    ensures
        res@ == spec_search_terms(opt_view(filter)),
{
    let pattern = match filter {
        Some(p) => p,
        None => {
            return String::new();
        },
    };
    let parts = split(pattern, ';');
    let n = parts.len();
    let mut exts: Vec<String> = Vec::new();
    for i in 0..n
        invariant
            n == parts@.len(),
            views(parts@) == spec_split(pattern@, ';'),
            views(exts@) == exts_of(spec_split(pattern@, ';').take(i as int)),
    {
        let ghost ps = spec_split(pattern@, ';');
        assert(ps.take(i + 1).drop_last() == ps.take(i as int));
        assert(ps[i as int] == parts@[i as int]@);
        let p = trim(parts[i].as_str());
        if let Some(e) = strip_star_dot(p.as_str()) {
            if !same_text(e.as_str(), "*") && !e.as_str().is_empty() {
                let ghost before = exts@;
                exts.push(e);
                assert(views(exts@) =~= views(before).push(exts@.last()@));
            }
        }
        assert(views(exts@) == exts_of(ps.take(i + 1)));
    }
    assert(spec_split(pattern@, ';').take(n as int) == spec_split(pattern@, ';'));
    if exts.len() == 0 {
        return String::new();
    }
    let mut out = String::new();
    out.append("ext:");
    let m = exts.len();
    for i in 0..m
        invariant
            m == exts@.len(),
            m > 0,
            out@ == "ext:"@ + join(views(exts@).take(i as int), ";"@),
    {
        let ghost es = views(exts@);
        assert(es[i as int] == exts@[i as int]@);
        assert(es.take(i + 1).drop_last() == es.take(i as int));
        if i > 0 {
            out.append(";");
        } else {
            assert(es.take(1) == seq![es[0]]);
        }
        out.append(exts[i].as_str());
        assert(out@ =~= "ext:"@ + join(es.take(i + 1), ";"@));
    }
    assert(views(exts@).take(m as int) == views(exts@));
    out
}

} // verus!
