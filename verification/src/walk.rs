//! Building the picker's tree from file listings: the paths that the
//! Everything command-line tool prints, or the entries of a directory walk.
use vstd::prelude::*;
use crate::filter::{matches_filter, opt_view, same_text, spec_matches_filter};
use crate::paths::{components_of, path_components, strip_of, strip_path_prefix};
use crate::text::{
    ascii_lower, law_lowercase_keeps_ascii_word, spec_utf8_lossy, utf8_lossy,
    chars_of, contains_str, has_substring, nonempty_lines, spec_lines, lowercase_of,
    spec_nonempty_lines, spec_trim, to_lowercase, trim, views, lines,
};
use crate::tree::{names, spec_render, tree_insert_dir, tree_insert_file, Node, TreeView};

verus! {

/// The arguments given to `es.exe`: at most 10000 results, and only folders
/// or only files.
pub open spec fn spec_everything_args(folders_only: bool) -> Seq<Seq<char>> {
    seq!["-n"@, "10000"@, if folders_only { "/ad"@ } else { "/a-d"@ }]
}

/// The arguments for an Everything query.
pub fn everything_args(folders_only: bool) -> (res: Vec<String>)
    ensures
        views(res@) == spec_everything_args(folders_only),
{
    let mut args: Vec<String> = Vec::new();
    args.push("-n".to_owned());
    args.push("10000".to_owned());
    if folders_only {
        args.push("/ad".to_owned());
    } else {
        args.push("/a-d".to_owned());
    }
    assert(views(args@) =~= spec_everything_args(folders_only));
    args
}

/// `s` without trailing backslashes.
pub open spec fn trim_end_backslashes(s: Seq<char>) -> Seq<char>
    decreases s.len(),
{
    if s.len() > 0 && s.last() == '\\' {
        trim_end_backslashes(s.drop_last())
    } else {
        s
    }
}

/// The components that are not a bare separator (`\` or `/`), in order.
pub open spec fn drop_separators(cs: Seq<Seq<char>>) -> Seq<Seq<char>>
    decreases cs.len(),
{
    if cs.len() == 0 {
        Seq::empty()
    } else if cs.last() == "\\"@ || cs.last() == "/"@ {
        drop_separators(cs.drop_last())
    } else {
        drop_separators(cs.drop_last()).push(cs.last())
    }
}

/// A path's tree components: the drive prefix (trailing backslashes removed)
/// merged with the names below it, the root separator left out.
pub open spec fn spec_drive_parts(cs: Seq<Seq<char>>) -> Seq<Seq<char>> {
    seq![trim_end_backslashes(cs[0])] + drop_separators(cs.drop_first())
}

/// `s` without trailing backslashes.
fn trim_backslashes(s: &str) -> (res: String)
    ensures
        res@ == trim_end_backslashes(s@),
{
    let v = chars_of(s);
    let mut e: usize = v.len();
    assert(s@.take(e as int) == s@);
    while e > 0 && v[e - 1] == '\\'
        invariant
            v@ == s@,
            e <= v@.len(),
            trim_end_backslashes(s@) == trim_end_backslashes(s@.take(e as int)),
        decreases e,
    {
        assert(s@.take(e as int).drop_last() == s@.take(e - 1));
        e = e - 1;
    }
    s.substring_char(0, e).to_owned()
}

/// Turns a path's components into tree components: the drive prefix, with
/// trailing backslashes removed, followed by the names below it.
pub fn drive_parts(components: &Vec<String>) -> (res: Vec<String>)
    requires
        components@.len() > 0,
    ensures
        views(res@) == spec_drive_parts(views(components@)),
{
    let ghost cs = views(components@);
    assert(cs[0] == components@[0]@);
    let mut parts: Vec<String> = Vec::new();
    parts.push(trim_backslashes(components[0].as_str()));
    let n = components.len();
    for i in 1..n
        invariant
            n == components@.len(),
            cs == views(components@),
            n > 0,
            views(parts@) == seq![trim_end_backslashes(cs[0])] + drop_separators(cs.drop_first().take(i - 1)),
    {
        let ghost rest = cs.drop_first();
        assert(rest.take(i as int).drop_last() == rest.take(i - 1));
        assert(rest[i - 1] == components@[i as int]@);
        let c = components[i].as_str();
        if !same_text(c, "\\") && !same_text(c, "/") {
            let ghost before = parts@;
            parts.push(c.to_owned());
            assert(views(parts@) =~= views(before).push(c@));
        }
        assert(views(parts@) =~= seq![trim_end_backslashes(cs[0])] + drop_separators(rest.take(i as int)));
    }
    assert(cs.drop_first().take(n - 1) == cs.drop_first());
    parts
}

/// Borrows each string as a slice.
fn as_slices(v: &Vec<String>) -> (res: Vec<&str>)
    ensures
        names(res@) == views(v@),
{
    let mut out: Vec<&str> = Vec::new();
    let n = v.len();
    for i in 0..n
        invariant
            n == v@.len(),
            out@.len() == i,
            forall|j: int| 0 <= j < i ==> #[trigger] out@[j]@ == v@[j]@,
    {
        out.push(v[i].as_str());
    }
    assert(names(out@) =~= views(v@));
    out
}

/// One Everything result added to the tree, given the path's components:
/// nothing when there are none; otherwise its drive parts go in as a
/// directory path (`folders_only`) or as a file described by the path.
pub open spec fn everything_step(t: TreeView, path: Seq<char>, cs: Seq<Seq<char>>, folders_only: bool) -> TreeView {
    if cs.len() == 0 {
        t
    } else if folders_only {
        tree_insert_dir(t, spec_drive_parts(cs))
    } else {
        tree_insert_file(t, spec_drive_parts(cs), path)
    }
}

/// The tree and the count of listed paths after adding Everything results in order.
pub open spec fn everything_fold(t: TreeView, paths: Seq<Seq<char>>, folders_only: bool) -> (TreeView, nat)
    decreases paths.len(),
{
    if paths.len() == 0 {
        (t, 0)
    } else {
        let (prev, n) = everything_fold(t, paths.drop_last(), folders_only);
        let cs = components_of(paths.last());
        (everything_step(prev, paths.last(), cs, folders_only), if cs.len() > 0 { n + 1 } else { n })
    }
}

/// The YAML tree and the number of listed paths for Everything's output;
/// when folders are asked for, every directory is listed.
pub open spec fn spec_everything_tree(stdout: Seq<char>, folders_only: bool) -> (Seq<char>, nat) {
    let (t, n) = everything_fold(
        TreeView { dirs: Seq::empty(), files: Seq::empty() },
        spec_nonempty_lines(stdout),
        folders_only,
    );
    (spec_render(t, folders_only), n)
}

impl Node {
    /// Adds one Everything result, given its path components: the drive
    /// prefix and the names below it go in as a directory path
    /// (`folders_only`) or as a file described by `path`. Returns whether the
    /// path was listed (it has components).
    pub fn add_everything_path(&mut self, path: &str, components: &Vec<String>, folders_only: bool) -> (listed: bool)
        requires
            old(self).wf(),
        ensures
            final(self).wf(),
            final(self)@ == everything_step(old(self)@, path@, views(components@), folders_only),
            listed == (components@.len() > 0),
    {
        if components.len() == 0 {
            return false;
        }
        let parts = drive_parts(components);
        let slices = as_slices(&parts);
        if folders_only {
            self.insert_dir(slices.as_slice());
        } else {
            self.insert_file(slices.as_slice(), path);
        }
        true
    }
}

/// Builds the picker's tree from the output of `es.exe` (one path per line)
/// and renders it, listing every directory when folders are asked for; also
/// returns how many paths were listed.
pub fn tree_from_everything(stdout: &str, folders_only: bool) -> (res: (String, usize))
    ensures
        (res.0@, res.1 as nat) == spec_everything_tree(stdout@, folders_only),
{
    let paths = nonempty_lines(stdout);
    let mut root = Node::new();
    let mut count: usize = 0;
    let n = paths.len();
    let ghost empty = root@;
    for i in 0..n
        invariant
            n == paths@.len(),
            views(paths@) == spec_nonempty_lines(stdout@),
            root.wf(),
            empty == (TreeView { dirs: Seq::empty(), files: Seq::empty() }),
            (root@, count as nat) == everything_fold(empty, views(paths@).take(i as int), folders_only),
            count <= i,
    {
        let ghost ps = views(paths@);
        assert(ps.take(i + 1).drop_last() == ps.take(i as int));
        assert(ps[i as int] == paths@[i as int]@);
        let comps = path_components(paths[i].as_str());
        if root.add_everything_path(paths[i].as_str(), &comps, folders_only) {
            count = count + 1;
        }
    }
    assert(views(paths@).take(n as int) == views(paths@));
    (root.render_yaml(folders_only), count)
}

/// One entry of a directory walk below the starting directory.
pub struct WalkEntry {
    /// How far below the starting directory the entry is (0 for the start itself).
    pub depth: usize,
    /// Whether the entry is a directory.
    pub is_dir: bool,
    /// The entry's full path.
    pub path: String,
}

/// Whether a walk entry is listed at all, before its path is looked at: not
/// the starting directory itself; a file only when directories are not
/// asked for and it passes the filter, if there is one.
pub open spec fn spec_walk_admits(e: WalkEntry, filter: Option<Seq<char>>, folders_only: bool) -> bool {
    &&& e.depth != 0
    &&& !(folders_only && !e.is_dir)
    &&& (!e.is_dir && !folders_only && filter is Some) ==> spec_matches_filter(e.path@, filter->0)
}

/// Adding a walk entry, given the components of its path relative to the
/// starting directory: a directory goes in as a directory path, a file as a
/// file described by its full path. The flag says whether it is counted:
/// files always, directories when only directories are asked for.
pub open spec fn walk_insert(t: TreeView, is_dir: bool, path: Seq<char>, cs: Seq<Seq<char>>, folders_only: bool) -> (TreeView, bool) {
    if cs.len() == 0 {
        (t, false)
    } else if is_dir {
        (tree_insert_dir(t, cs), folders_only)
    } else {
        (tree_insert_file(t, cs, path), true)
    }
}

/// Adding one walk entry below `root`.
pub open spec fn walk_step(t: TreeView, e: WalkEntry, root: Seq<char>, filter: Option<Seq<char>>, folders_only: bool) -> (TreeView, bool) {
    if !spec_walk_admits(e, filter, folders_only) {
        (t, false)
    } else {
        match strip_of(e.path@, root) {
            Some(rel) => walk_insert(t, e.is_dir, e.path@, components_of(rel), folders_only),
            None => (t, false),
        }
    }
}

/// The tree and count after adding walk entries in order.
pub open spec fn walk_fold(
    t: TreeView,
    es: Seq<WalkEntry>,
    root: Seq<char>,
    filter: Option<Seq<char>>,
    folders_only: bool,
) -> (TreeView, nat)
    decreases es.len(),
{
    if es.len() == 0 {
        (t, 0)
    } else {
        let (prev, n) = walk_fold(t, es.drop_last(), root, filter, folders_only);
        let (next, counted) = walk_step(prev, es.last(), root, filter, folders_only);
        (next, if counted { n + 1 } else { n })
    }
}

/// The YAML tree and count for a directory walk below `root`; when folders
/// are asked for, every directory is listed.
pub open spec fn spec_walk_tree(
    es: Seq<WalkEntry>,
    root: Seq<char>,
    filter: Option<Seq<char>>,
    folders_only: bool,
) -> (Seq<char>, nat) {
    let (t, n) = walk_fold(TreeView { dirs: Seq::empty(), files: Seq::empty() }, es, root, filter, folders_only);
    (spec_render(t, folders_only), n)
}

/// The number of entries that are directories below the starting directory.
pub open spec fn count_dirs(es: Seq<WalkEntry>) -> nat
    decreases es.len(),
{
    if es.len() == 0 {
        0
    } else if es.last().is_dir && es.last().depth != 0 {
        count_dirs(es.drop_last()) + 1
    } else {
        count_dirs(es.drop_last())
    }
}

/// When folders are asked for, the filter plays no part in the walk's tree
/// or count.
pub proof fn law_walk_folders_ignore_filter(
    t: TreeView,
    es: Seq<WalkEntry>,
    root: Seq<char>,
    f1: Option<Seq<char>>,
    f2: Option<Seq<char>>,
)
    ensures
        walk_fold(t, es, root, f1, true) == walk_fold(t, es, root, f2, true),
    decreases es.len(),
{
    if es.len() > 0 {
        law_walk_folders_ignore_filter(t, es.drop_last(), root, f1, f2);
    }
}

/// When folders are asked for, and every directory below the start has a
/// non-empty path relative to the start, the walk counts exactly the
/// directories below the start.
pub proof fn law_walk_folders_count_dirs(t: TreeView, es: Seq<WalkEntry>, root: Seq<char>, f: Option<Seq<char>>)
    requires
        forall|i: int|
            0 <= i < es.len() && (#[trigger] es[i]).is_dir && es[i].depth != 0 ==> {
                &&& strip_of(es[i].path@, root) is Some
                &&& components_of(strip_of(es[i].path@, root)->0).len() > 0
            },
    ensures
        walk_fold(t, es, root, f, true).1 == count_dirs(es),
    decreases es.len(),
{
    if es.len() > 0 {
        assert forall|i: int|
            0 <= i < es.drop_last().len() && (#[trigger] es.drop_last()[i]).is_dir && es.drop_last()[i].depth != 0 implies {
                &&& strip_of(es.drop_last()[i].path@, root) is Some
                &&& components_of(strip_of(es.drop_last()[i].path@, root)->0).len() > 0
            } by {
            assert(es.drop_last()[i] == es[i]);
        }
        law_walk_folders_count_dirs(t, es.drop_last(), root, f);
        assert(es[es.len() - 1] == es.last());
    }
}

/// Whether a walk entry is listed at all, before its path is looked at.
pub fn walk_admits(e: &WalkEntry, filter: Option<&str>, folders_only: bool) -> (res: bool)
    ensures
        res == spec_walk_admits(*e, opt_view(filter), folders_only),
{
    if e.depth == 0 {
        return false;
    }
    if !e.is_dir && !folders_only {
        if let Some(pattern) = filter {
            if !matches_filter(e.path.as_str(), pattern) {
                return false;
            }
        }
    }
    if folders_only && !e.is_dir {
        return false;
    }
    true
}

impl Node {
    /// Adds a walk entry given the components of its path relative to the
    /// starting directory; returns whether it counts.
    pub fn add_walk_components(&mut self, is_dir: bool, path: &str, components: &Vec<String>, folders_only: bool) -> (counted: bool)
        requires
            old(self).wf(),
        ensures
            final(self).wf(),
            (final(self)@, counted) == walk_insert(old(self)@, is_dir, path@, views(components@), folders_only),
    {
        if components.len() == 0 {
            return false;
        }
        let slices = as_slices(components);
        if is_dir {
            self.insert_dir(slices.as_slice());
            folders_only
        } else {
            self.insert_file(slices.as_slice(), path);
            true
        }
    }
}

/// Builds the picker's tree from the entries of a directory walk below
/// `root` and renders it, listing every directory when folders are asked
/// for; also returns how many entries were counted.
pub fn tree_from_walk(entries: &Vec<WalkEntry>, root: &str, filter: Option<&str>, folders_only: bool) -> (res: (String, usize))
    ensures
        (res.0@, res.1 as nat) == spec_walk_tree(entries@, root@, opt_view(filter), folders_only),
{
    let mut tree = Node::new();
    let mut count: usize = 0;
    let n = entries.len();
    let ghost empty = tree@;
    for i in 0..n
        invariant
            n == entries@.len(),
            tree.wf(),
            empty == (TreeView { dirs: Seq::empty(), files: Seq::empty() }),
            (tree@, count as nat) == walk_fold(empty, entries@.take(i as int), root@, opt_view(filter), folders_only),
            count <= i,
    {
        let ghost es = entries@;
        assert(es.take(i + 1).drop_last() == es.take(i as int));
        let e = &entries[i];
        if walk_admits(e, filter, folders_only) {
            if let Some(rel) = strip_path_prefix(e.path.as_str(), root) {
                let comps = path_components(rel.as_str());
                if tree.add_walk_components(e.is_dir, e.path.as_str(), &comps, folders_only) {
                    count = count + 1;
                }
            }
        }
    }
    assert(entries@.take(n as int) == entries@);
    (tree.render_yaml(folders_only), count)
}

/// Builds the picker's tree from the raw bytes that `es.exe` printed,
/// read as UTF-8 with invalid sequences replaced.
pub fn tree_from_everything_bytes(stdout: &[u8], folders_only: bool) -> (res: (String, usize))
    ensures
        (res.0@, res.1 as nat) == spec_everything_tree(spec_utf8_lossy(stdout@), folders_only),
{
    let text = utf8_lossy(stdout);
    tree_from_everything(text.as_str(), folders_only)
}

/// The Everything CLI named by the first line that `where.exe es` prints:
/// that line, trimmed, if it is not empty and mentions "everything" in any
/// case.
pub open spec fn spec_es_from_where(stdout: Seq<char>) -> Option<Seq<char>> {
    if spec_lines(stdout).len() == 0 {
        None
    } else {
        let first = spec_trim(spec_lines(stdout)[0]);
        if first.len() > 0 && has_substring(lowercase_of(first), "everything"@) {
            Some(first)
        } else {
            None
        }
    }
}

/// The first line that `where.exe es` prints names the Everything CLI when
/// it mentions "Everything" in any case of ASCII letters, whatever other
/// characters (such as accented letters in a user name) the line holds.
pub proof fn law_es_from_where_finds_everything(stdout: Seq<char>, x: Seq<char>, t: Seq<char>, y: Seq<char>)
    requires
        spec_lines(stdout).len() > 0,
        spec_trim(spec_lines(stdout)[0]) == x + t + y,
        !x.contains('\u{3a3}'),
        !t.contains('\u{3a3}'),
        !y.contains('\u{3a3}'),
        vstd::utf8::is_ascii_chars(t),
        ascii_lower(t) == "everything"@,
    ensures
        spec_es_from_where(stdout) == Some(x + t + y),
{
    law_lowercase_keeps_ascii_word(x, t, y);
    reveal_strlit("everything");
    assert(t.len() == ascii_lower(t).len());
    assert((x + t + y).len() > 0);
}

/// Picks the Everything CLI from the output of `where.exe es`.
pub fn es_from_where_output(stdout: &str) -> (res: Option<String>)
    ensures
        match res {
            Some(p) => spec_es_from_where(stdout@) == Some(p@),
            None => spec_es_from_where(stdout@) is None,
        },
{
    let ls = lines(stdout);
    if ls.len() == 0 {
        return None;
    }
    assert(views(ls@)[0] == ls@[0]@);
    let first = trim(ls[0].as_str());
    if first.as_str().is_empty() {
        return None;
    }
    let lower = to_lowercase(first.as_str());
    if contains_str(lower.as_str(), "everything") {
        Some(first)
    } else {
        None
    }
}

/// Picks the Everything CLI from the raw bytes that `where.exe es` printed.
pub fn es_from_where_bytes(stdout: &[u8]) -> (res: Option<String>)
    ensures
        match res {
            Some(p) => spec_es_from_where(spec_utf8_lossy(stdout@)) == Some(p@),
            None => spec_es_from_where(spec_utf8_lossy(stdout@)) is None,
        },
{
    let text = utf8_lossy(stdout);
    es_from_where_output(text.as_str())
}

/// The install locations of the Everything CLI under Program Files that are
/// tried last, in order.
pub open spec fn spec_es_candidates() -> Seq<Seq<char>> {
    seq!["C:\\Program Files\\Everything\\es.exe"@, "C:\\Program Files\\Everything 1.5a\\es.exe"@]
}

/// The Program Files locations of the Everything CLI, in the order they are tried.
pub fn es_candidates() -> (res: Vec<String>)
    ensures
        views(res@) == spec_es_candidates(),
{
    let mut v: Vec<String> = Vec::new();
    v.push("C:\\Program Files\\Everything\\es.exe".to_owned());
    v.push("C:\\Program Files\\Everything 1.5a\\es.exe".to_owned());
    assert(views(v@) =~= spec_es_candidates());
    v
}

/// The text of each (path, exists) pair.
pub open spec fn pairs_view(v: Seq<(String, bool)>) -> Seq<(Seq<char>, bool)> {
    v.map_values(|p: (String, bool)| (p.0@, p.1))
}

/// The first path that exists.
pub open spec fn first_existing(cs: Seq<(Seq<char>, bool)>) -> Option<Seq<char>>
    decreases cs.len(),
{
    if cs.len() == 0 {
        None
    } else if cs[0].1 {
        Some(cs[0].0)
    } else {
        first_existing(cs.drop_first())
    }
}

/// Which Everything CLI to use: the one found on the `PATH` by `where.exe`;
/// else the winget install, if its location is known and it exists; else the
/// first Program Files location that exists; else none.
pub open spec fn spec_choose_es(
    on_path: Option<Seq<char>>,
    winget: Option<(Seq<char>, bool)>,
    candidates: Seq<(Seq<char>, bool)>,
) -> Option<Seq<char>> {
    match (on_path, winget) {
        (Some(p), _) => Some(p),
        (None, Some((w, true))) => Some(w),
        _ => first_existing(candidates),
    }
}

/// Picks the Everything CLI from what was found: the `where.exe` answer, the
/// winget location with whether it exists, and each Program Files location
/// with whether it exists.
pub fn choose_es(on_path: Option<String>, winget: Option<(String, bool)>, candidates: Vec<(String, bool)>) -> (res: Option<String>)
    ensures
        opt_string_view(res) == spec_choose_es(
            opt_string_view(on_path),
            pair_view(winget),
            pairs_view(candidates@),
        ),
{
    let ghost path_view = opt_string_view(on_path);
    let ghost winget_view = pair_view(winget);
    if let Some(p) = on_path {
        return Some(p);
    }
    if let Some((p, exists)) = winget {
        if exists {
            return Some(p);
        }
    }
    let n = candidates.len();
    let ghost cs = pairs_view(candidates@);
    let mut i: usize = 0;
    assert(cs.skip(0) == cs);
    while i < n
        invariant
            n == candidates@.len(),
            cs == pairs_view(candidates@),
            i <= n,
            first_existing(cs) == first_existing(cs.skip(i as int)),
            spec_choose_es(path_view, winget_view, cs) == first_existing(cs),
            path_view == opt_string_view(on_path),
            winget_view == pair_view(winget),
        decreases n - i,
    {
        assert(cs.skip(i as int)[0] == cs[i as int]);
        assert(cs[i as int] == (candidates@[i as int].0@, candidates@[i as int].1));
        assert(cs.skip(i as int).drop_first() == cs.skip(i + 1));
        if candidates[i].1 {
            return Some(candidates[i].0.clone());
        }
        i = i + 1;
    }
    None
}

/// The text of an optional (path, exists) pair.
pub open spec fn pair_view(o: Option<(String, bool)>) -> Option<(Seq<char>, bool)> {
    match o {
        Some(w) => Some((w.0@, w.1)),
        None => None,
    }
}

/// The text of an optional string.
pub open spec fn opt_string_view(o: Option<String>) -> Option<Seq<char>> {
    match o {
        Some(s) => Some(s@),
        None => None,
    }
}

/// Where winget installs the Everything CLI, below the local application
/// data folder.
pub open spec fn spec_winget_es_path(local_app_data: Seq<char>) -> Seq<char> {
    local_app_data
        + "\\Microsoft\\WinGet\\Packages\\voidtools.Everything.Cli_Microsoft.Winget.Source_8wekyb3d8bbwe\\es.exe"@
}

/// The path of a winget-installed Everything CLI.
pub fn winget_es_path(local_app_data: &str) -> (res: String)
    ensures
        res@ == spec_winget_es_path(local_app_data@),
{
    let mut p = local_app_data.to_owned();
    p.append("\\Microsoft\\WinGet\\Packages\\voidtools.Everything.Cli_Microsoft.Winget.Source_8wekyb3d8bbwe\\es.exe");
    p
}

} // verus!
