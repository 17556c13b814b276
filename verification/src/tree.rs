use vstd::prelude::*;
use crate::text::{chars_of, push_char, spec_yaml_escape, yaml_escape};

verus! {

/// Lexicographic order on character sequences, comparing characters by code
/// point; for UTF-8 strings this is the order of `str`'s `Ord`.
pub open spec fn str_lt(a: Seq<char>, b: Seq<char>) -> bool
    decreases a.len(),
{
    if a.len() == 0 {
        b.len() > 0
    } else if b.len() == 0 {
        false
    } else if a[0] != b[0] {
        (a[0] as int) < (b[0] as int)
    } else {
        str_lt(a.drop_first(), b.drop_first())
    }
}

/// The outcome of comparing two names.
pub enum NameOrder {
    Less,
    Equal,
    Greater,
}

pub(crate) proof fn lemma_str_lt_irreflexive(a: Seq<char>)
    ensures
        !str_lt(a, a),
    decreases a.len(),
{
    if a.len() > 0 {
        lemma_str_lt_irreflexive(a.drop_first());
    }
}

pub(crate) proof fn lemma_str_lt_asymmetric(a: Seq<char>, b: Seq<char>)
    ensures
        !(str_lt(a, b) && str_lt(b, a)),
    decreases a.len(),
{
    if a.len() > 0 && b.len() > 0 && a[0] == b[0] {
        lemma_str_lt_asymmetric(a.drop_first(), b.drop_first());
    }
}

pub(crate) proof fn lemma_str_lt_transitive(a: Seq<char>, b: Seq<char>, c: Seq<char>)
    requires
        str_lt(a, b),
        str_lt(b, c),
    ensures
        str_lt(a, c),
    decreases a.len(),
{
    if a.len() > 0 && b.len() > 0 && c.len() > 0 && a[0] == b[0] && b[0] == c[0] {
        lemma_str_lt_transitive(a.drop_first(), b.drop_first(), c.drop_first());
    }
}

pub(crate) proof fn lemma_str_lt_total(a: Seq<char>, b: Seq<char>)
    ensures
        a == b || str_lt(a, b) || str_lt(b, a),
    decreases a.len(),
{
    if a.len() > 0 && b.len() > 0 {
        if a[0] == b[0] {
            lemma_str_lt_total(a.drop_first(), b.drop_first());
            if a.drop_first() == b.drop_first() {
                assert(a =~= seq![a[0]] + a.drop_first());
                assert(b =~= seq![b[0]] + b.drop_first());
            }
        } else {
            assert((a[0] as int) != (b[0] as int));
        }
    } else if a.len() == 0 && b.len() == 0 {
        assert(a =~= b);
    }
}

/// Compares two names in the order of `str_lt`.
pub fn compare_names(a: &str, b: &str) -> (res: NameOrder)
    ensures
        res is Less <==> str_lt(a@, b@),
        res is Equal <==> a@ == b@,
        res is Greater <==> str_lt(b@, a@),
{
    let x = chars_of(a);
    let y = chars_of(b);
    let mut i: usize = 0;
    proof {
        lemma_str_lt_asymmetric(a@, b@);
        lemma_str_lt_irreflexive(a@);
        lemma_str_lt_total(a@, b@);
        assert(x@.skip(0) == x@);
        assert(y@.skip(0) == y@);
    }
    while i < x.len() && i < y.len()
        invariant
            x@ == a@,
            y@ == b@,
            i <= x@.len(),
            i <= y@.len(),
            x@.take(i as int) == y@.take(i as int),
            str_lt(x@, y@) == str_lt(x@.skip(i as int), y@.skip(i as int)),
            str_lt(y@, x@) == str_lt(y@.skip(i as int), x@.skip(i as int)),
        decreases x@.len() - i,
    {
        if x[i] != y[i] {
            assert(x@.skip(i as int)[0] == x@[i as int]);
            assert(y@.skip(i as int)[0] == y@[i as int]);
            if x[i] < y[i] {
                return NameOrder::Less;
            } else {
                return NameOrder::Greater;
            }
        }
        assert(x@.skip(i as int).drop_first() == x@.skip(i + 1));
        assert(y@.skip(i as int).drop_first() == y@.skip(i + 1));
        assert(x@.take(i + 1) == x@.take(i as int).push(x@[i as int]));
        assert(y@.take(i + 1) == y@.take(i as int).push(y@[i as int]));
        i = i + 1;
    }
    if x.len() == y.len() {
        assert(x@ == x@.take(i as int));
        assert(y@ == y@.take(i as int));
        NameOrder::Equal
    } else if x.len() < y.len() {
        NameOrder::Less
    } else {
        NameOrder::Greater
    }
}

/// The abstract contents of a directory node: its subdirectories in the
/// order they are listed, and its files as (display name, full path) pairs.
pub struct TreeView {
    pub dirs: Seq<(Seq<char>, TreeView)>,
    pub files: Seq<(Seq<char>, Seq<char>)>,
}

/// A tree node representing a directory: named subdirectories, kept sorted
/// by name, and the files directly inside it, in insertion order.
pub struct Node {
    children: Vec<(String, Node)>,
    files: Vec<(String, String)>,
}

pub open spec fn files_view(s: Seq<(String, String)>) -> Seq<(Seq<char>, Seq<char>)> {
    s.map_values(|p: (String, String)| (p.0@, p.1@))
}

pub closed spec fn node_view(n: Node) -> TreeView
    decreases n,
{
    TreeView { dirs: dirs_view(n.children@), files: files_view(n.files@) }
}

pub closed spec fn dirs_view(s: Seq<(String, Node)>) -> Seq<(Seq<char>, TreeView)>
    decreases s,
{
    if s.len() == 0 {
        Seq::empty()
    } else {
        dirs_view(s.drop_last()).push((s.last().0@, node_view(s.last().1)))
    }
}

impl View for Node {
    type V = TreeView;

    closed spec fn view(&self) -> TreeView {
        node_view(*self)
    }
}

/// Directory names strictly increase along the list.
pub open spec fn names_sorted(d: Seq<(Seq<char>, TreeView)>) -> bool {
    forall|i: int, j: int| 0 <= i < j < d.len() ==> str_lt(#[trigger] d[i].0, #[trigger] d[j].0)
}

/// Every directory's subdirectories are sorted by name, with no name twice.
pub open spec fn tree_wf(t: TreeView) -> bool
    decreases t,
{
    &&& names_sorted(t.dirs)
    &&& forall|i: int| 0 <= i < t.dirs.len() ==> tree_wf(#[trigger] t.dirs[i].1)
}

/// Whether any file lies in the tree.
pub open spec fn has_files(t: TreeView) -> bool
    decreases t,
{
    t.files.len() > 0 || exists|i: int| 0 <= i < t.dirs.len() && has_files(#[trigger] t.dirs[i].1)
}

/// A directory with nothing in it.
pub open spec fn empty_tree() -> TreeView {
    TreeView { dirs: Seq::empty(), files: Seq::empty() }
}

/// The number of leading entries whose name comes before `k`; in a sorted
/// list this is where an entry named `k` is, or belongs.
pub open spec fn lower_bound(d: Seq<(Seq<char>, TreeView)>, k: Seq<char>) -> nat
    decreases d.len(),
{
    if d.len() == 0 || !str_lt(d[0].0, k) {
        0
    } else {
        1 + lower_bound(d.drop_first(), k)
    }
}

/// Whether a subdirectory named `k` is listed.
pub open spec fn has_dir(d: Seq<(Seq<char>, TreeView)>, k: Seq<char>) -> bool {
    lower_bound(d, k) < d.len() && d[lower_bound(d, k) as int].0 == k
}

/// The subdirectory named `k`, or an empty one when there is none.
pub open spec fn dir_or_empty(d: Seq<(Seq<char>, TreeView)>, k: Seq<char>) -> TreeView {
    if has_dir(d, k) {
        d[lower_bound(d, k) as int].1
    } else {
        empty_tree()
    }
}

/// The list with the subdirectory named `k` set to `t`: replaced where it is
/// listed, otherwise added where its name belongs in the order.
pub open spec fn put_dir(d: Seq<(Seq<char>, TreeView)>, k: Seq<char>, t: TreeView) -> Seq<
    (Seq<char>, TreeView),
> {
    if has_dir(d, k) {
        d.update(lower_bound(d, k) as int, (k, t))
    } else {
        d.insert(lower_bound(d, k) as int, (k, t))
    }
}

/// The tree after adding a file: the last component names the file, the
/// ones before it the directories leading to it, created as needed.
pub open spec fn tree_insert_file(t: TreeView, comps: Seq<Seq<char>>, full: Seq<char>) -> TreeView
    decreases comps.len(),
{
    if comps.len() == 0 {
        t
    } else if comps.len() == 1 {
        TreeView { dirs: t.dirs, files: t.files.push((comps[0], full)) }
    } else {
        TreeView {
            dirs: put_dir(
                t.dirs,
                comps[0],
                tree_insert_file(dir_or_empty(t.dirs, comps[0]), comps.drop_first(), full),
            ),
            files: t.files,
        }
    }
}

/// The tree after adding a directory path, every component a directory.
pub open spec fn tree_insert_dir(t: TreeView, comps: Seq<Seq<char>>) -> TreeView
    decreases comps.len(),
{
    if comps.len() == 0 {
        t
    } else {
        TreeView {
            dirs: put_dir(
                t.dirs,
                comps[0],
                tree_insert_dir(dir_or_empty(t.dirs, comps[0]), comps.drop_first()),
            ),
            files: t.files,
        }
    }
}

pub(crate) proof fn lemma_lower_bound(d: Seq<(Seq<char>, TreeView)>, k: Seq<char>)
    ensures
        lower_bound(d, k) <= d.len(),
        forall|j: int| 0 <= j < lower_bound(d, k) ==> str_lt(#[trigger] d[j].0, k),
        lower_bound(d, k) < d.len() ==> !str_lt(d[lower_bound(d, k) as int].0, k),
    decreases d.len(),
{
    if d.len() > 0 && str_lt(d[0].0, k) {
        lemma_lower_bound(d.drop_first(), k);
        assert forall|j: int| 0 <= j < lower_bound(d, k) implies str_lt(#[trigger] d[j].0, k) by {
            if j > 0 {
                assert(d[j] == d.drop_first()[j - 1]);
            }
        }
    }
}

/// In a sorted list, the entries from the lower bound on do not come before `k`,
/// and those past a listed `k` come after it.
pub(crate) proof fn lemma_lower_bound_sorted(d: Seq<(Seq<char>, TreeView)>, k: Seq<char>)
    requires
        names_sorted(d),
    ensures
        forall|j: int| lower_bound(d, k) <= j < d.len() ==> !str_lt(#[trigger] d[j].0, k),
        !has_dir(d, k) ==> forall|j: int|
            lower_bound(d, k) <= j < d.len() ==> str_lt(k, #[trigger] d[j].0),
        has_dir(d, k) ==> forall|j: int|
            lower_bound(d, k) < j < d.len() ==> str_lt(k, #[trigger] d[j].0),
        forall|j: int| 0 <= j < d.len() && d[j].0 == k ==> has_dir(d, k) && j == lower_bound(d, k),
{
    lemma_lower_bound(d, k);
    let lb = lower_bound(d, k) as int;
    assert forall|j: int| lb <= j < d.len() implies !str_lt(#[trigger] d[j].0, k) by {
        if j > lb && str_lt(d[j].0, k) {
            lemma_str_lt_transitive(d[lb].0, d[j].0, k);
        }
    }
    assert forall|j: int| lb <= j < d.len() && (!has_dir(d, k) || j > lb) implies str_lt(k, #[trigger] d[j].0) by {
        lemma_str_lt_total(k, d[j].0);
        if j == lb {
        } else {
            if d[j].0 == k {
                lemma_str_lt_total(k, d[lb].0);
                if d[lb].0 == k {
                    lemma_str_lt_irreflexive(k);
                }
            }
        }
    }
    assert forall|j: int| 0 <= j < d.len() && d[j].0 == k implies has_dir(d, k) && j == lower_bound(d, k) by {
        lemma_str_lt_irreflexive(k);
        if j > lb {
            if d[lb].0 != k {
                lemma_str_lt_total(k, d[lb].0);
            } else {
                lemma_str_lt_irreflexive(k);
            }
        }
    }
}

/// Setting a subdirectory keeps the tree well-formed.
pub(crate) proof fn lemma_put_dir_wf(t: TreeView, k: Seq<char>, sub: TreeView)
    requires
        tree_wf(t),
        tree_wf(sub),
    ensures
        tree_wf(TreeView { dirs: put_dir(t.dirs, k, sub), files: t.files }),
        tree_wf(dir_or_empty(t.dirs, k)),
{
    let d = t.dirs;
    let nd = put_dir(d, k, sub);
    let lb = lower_bound(d, k) as int;
    lemma_lower_bound(d, k);
    lemma_lower_bound_sorted(d, k);
    assert forall|i: int, j: int| 0 <= i < j < nd.len() implies str_lt(#[trigger] nd[i].0, #[trigger] nd[j].0) by {
        if has_dir(d, k) {
        } else {
            if j == lb {
            } else if i == lb {
            } else if i < lb && j > lb {
                assert(nd[j] == d[j - 1]);
            } else if i > lb {
                assert(nd[i] == d[i - 1]);
                assert(nd[j] == d[j - 1]);
            }
        }
    }
    assert forall|i: int| 0 <= i < nd.len() implies tree_wf(#[trigger] nd[i].1) by {
        if !has_dir(d, k) && i > lb {
            assert(nd[i] == d[i - 1]);
        }
    }
    let e = empty_tree();
    assert(tree_wf(e));
}

proof fn lemma_dirs_view(s: Seq<(String, Node)>)
    ensures
        dirs_view(s).len() == s.len(),
        forall|i: int|
            0 <= i < s.len() ==> #[trigger] dirs_view(s)[i] == (s[i].0@, node_view(s[i].1)),
    decreases s.len(),
{
    if s.len() > 0 {
        lemma_dirs_view(s.drop_last());
    }
}

proof fn lemma_node_view(n: Node)
    ensures
        n@.dirs.len() == n.children@.len(),
        forall|i: int|
            0 <= i < n.children@.len() ==> #[trigger] n@.dirs[i] == (
            n.children@[i].0@,
            n.children@[i].1@,
        ),
        n@.files == files_view(n.files@),
{
    lemma_dirs_view(n.children@);
}

/// `n` spaces.
pub open spec fn pad(n: nat) -> Seq<char> {
    Seq::new(n, |i: int| ' ')
}

/// The YAML lines listing one file: its name, and its full path as description.
pub open spec fn file_yaml(name: Seq<char>, path: Seq<char>, indent: nat) -> Seq<char> {
    pad(indent) + "- name: "@ + spec_yaml_escape(name) + "\n"@ + pad(indent) + "  description: "@
        + spec_yaml_escape(path) + "\n"@
}

/// The YAML listing of files, in order.
pub open spec fn files_yaml(f: Seq<(Seq<char>, Seq<char>)>, indent: nat) -> Seq<char>
    decreases f.len(),
{
    if f.len() == 0 {
        Seq::empty()
    } else {
        files_yaml(f.drop_last(), indent) + file_yaml(f.last().0, f.last().1, indent)
    }
}

/// The YAML listing of subdirectories, in order. A listing of files
/// (`keep_dirs` false) leaves out a directory without any file below it; a
/// listing of folders (`keep_dirs` true) lists every directory.
pub open spec fn dirs_yaml(d: Seq<(Seq<char>, TreeView)>, indent: nat, keep_dirs: bool) -> Seq<char>
    decreases d,
{
    if d.len() == 0 {
        Seq::empty()
    } else if keep_dirs || has_files(d.last().1) {
        dirs_yaml(d.drop_last(), indent, keep_dirs) + pad(indent) + "- name: "@ + spec_yaml_escape(d.last().0)
            + "\n"@ + pad(indent) + "  children:\n"@ + tree_yaml(d.last().1, indent + 4, keep_dirs)
    } else {
        dirs_yaml(d.drop_last(), indent, keep_dirs)
    }
}

/// A directory as the picker's YAML list: subdirectories first, as entries
/// with nested children, then files, as entries with their full path as
/// description; each nesting level is indented by four more spaces.
/// `keep_dirs` says whether directories without files are listed too.
pub open spec fn tree_yaml(t: TreeView, indent: nat, keep_dirs: bool) -> Seq<char>
    decreases t,
{
    dirs_yaml(t.dirs, indent, keep_dirs) + files_yaml(t.files, indent)
}

/// The YAML entry of one directory: its name, then its own listing nested
/// below it.
pub open spec fn dir_entry_yaml(name: Seq<char>, sub: TreeView, indent: nat, keep_dirs: bool) -> Seq<char> {
    pad(indent) + "- name: "@ + spec_yaml_escape(name) + "\n"@ + pad(indent) + "  children:\n"@ + tree_yaml(
        sub,
        indent + 4,
        keep_dirs,
    )
}

/// Every nesting level's indentation fits in a `usize`.
pub open spec fn indents_fit(t: TreeView, indent: int) -> bool
    decreases t,
{
    &&& (t.dirs.len() > 0 ==> indent + 4 <= usize::MAX)
    &&& forall|i: int| 0 <= i < t.dirs.len() ==> indents_fit(#[trigger] t.dirs[i].1, indent + 4)
}

/// The YAML listing of a whole tree, from indentation 0; nothing when the
/// nesting is too deep for the indentation to fit in a `usize`.
pub open spec fn spec_render(t: TreeView, keep_dirs: bool) -> Seq<char> {
    if indents_fit(t, 0) {
        tree_yaml(t, 0, keep_dirs)
    } else {
        Seq::empty()
    }
}

/// A string of `n` spaces.
fn spaces(n: usize) -> (res: String)
    ensures
        res@ == pad(n as nat),
{
    let mut s = String::new();
    for i in 0..n
        invariant
            s@ == pad(i as nat),
    {
        push_char(&mut s, ' ');
        assert(s@ =~= pad((i + 1) as nat));
    }
    s
}

/// The names of path components given as string slices.
pub open spec fn names(cs: Seq<&str>) -> Seq<Seq<char>> {
    cs.map_values(|c: &str| c@)
}

pub(crate) proof fn lemma_lower_bound_at(d: Seq<(Seq<char>, TreeView)>, k: Seq<char>, i: int)
    requires
        0 <= i <= d.len(),
        forall|j: int| 0 <= j < i ==> str_lt(#[trigger] d[j].0, k),
        i < d.len() ==> !str_lt(d[i].0, k),
    ensures
        lower_bound(d, k) == i,
    decreases i,
{
    if i > 0 {
        assert forall|j: int| 0 <= j < i - 1 implies str_lt(#[trigger] d.drop_first()[j].0, k) by {
            assert(d.drop_first()[j] == d[j + 1]);
        }
        if i - 1 < d.drop_first().len() {
            assert(d.drop_first()[i - 1] == d[i]);
        }
        lemma_lower_bound_at(d.drop_first(), k, i - 1);
        assert(str_lt(d[0].0, k));
    }
}

/// Rebuilding a node's view after its children list changed at one position.
proof fn lemma_children_changed(old_n: Node, new_n: Node, i: int, k: Seq<char>, sub: TreeView, replaced: bool)
    requires
        0 <= i <= old_n.children@.len(),
        replaced ==> i < old_n.children@.len(),
        new_n.files@ == old_n.files@,
        replaced ==> new_n.children@.len() == old_n.children@.len(),
        !replaced ==> new_n.children@.len() == old_n.children@.len() + 1,
        new_n.children@[i].0@ == k,
        new_n.children@[i].1@ == sub,
        forall|j: int| 0 <= j < i ==> new_n.children@[j] == old_n.children@[j],
        replaced ==> forall|j: int| i < j < old_n.children@.len() ==> new_n.children@[j] == old_n.children@[j],
        !replaced ==> forall|j: int| i < j < new_n.children@.len() ==> new_n.children@[j] == old_n.children@[j - 1],
    ensures
        replaced ==> new_n@.dirs == old_n@.dirs.update(i, (k, sub)),
        !replaced ==> new_n@.dirs == old_n@.dirs.insert(i, (k, sub)),
        new_n@.files == old_n@.files,
{
    lemma_node_view(old_n);
    lemma_node_view(new_n);
    if replaced {
        assert(new_n@.dirs =~= old_n@.dirs.update(i, (k, sub)));
    } else {
        assert(new_n@.dirs =~= old_n@.dirs.insert(i, (k, sub)));
    }
}

impl Node {
    /// Well-formedness: subdirectories are sorted by name at every level.
    pub open spec fn wf(&self) -> bool {
        tree_wf(self@)
    }

    /// An empty directory node.
    pub fn new() -> (res: Self)
        ensures
            res@ == (TreeView { dirs: Seq::empty(), files: Seq::empty() }),
            res.wf(),
    {
        let res = Node { children: Vec::new(), files: Vec::new() };
        proof {
            lemma_node_view(res);
            assert(res@.dirs =~= Seq::<(Seq<char>, TreeView)>::empty());
            assert(res@.files =~= Seq::<(Seq<char>, Seq<char>)>::empty());
        }
        res
    }

    /// Where a subdirectory named `key` is, or belongs, and whether it is there.
    fn find_dir(&self, key: &str) -> (res: (usize, bool))
        requires
            self.wf(),
        ensures
            res.0 == lower_bound(self@.dirs, key@),
            res.1 == has_dir(self@.dirs, key@),
    {
        proof {
            lemma_node_view(*self);
        }
        let n = self.children.len();
        let mut i: usize = 0;
        while i < n
            invariant
                n == self.children@.len(),
                n == self@.dirs.len(),
                i <= n,
                forall|j: int| 0 <= j < n ==> #[trigger] self@.dirs[j] == (self.children@[j].0@, self.children@[j].1@),
                forall|j: int| 0 <= j < i ==> str_lt(#[trigger] self@.dirs[j].0, key@),
            decreases n - i,
        {
            match compare_names(self.children[i].0.as_str(), key) {
                NameOrder::Less => {
                    i = i + 1;
                },
                NameOrder::Equal => {
                    proof {
                        lemma_str_lt_irreflexive(key@);
                        lemma_lower_bound_at(self@.dirs, key@, i as int);
                    }
                    return (i, true);
                },
                NameOrder::Greater => {
                    proof {
                        lemma_str_lt_asymmetric(key@, self@.dirs[i as int].0);
                        lemma_str_lt_irreflexive(key@);
                        lemma_lower_bound_at(self@.dirs, key@, i as int);
                    }
                    return (i, false);
                },
            }
        }
        proof {
            lemma_lower_bound_at(self@.dirs, key@, i as int);
        }
        (i, false)
    }

    /// Adds `components[start..]` below this node as a file path whose last
    /// component is the file, listed with `full_path` as its description.
    fn insert_file_from(&mut self, components: &[&str], start: usize, full_path: &str)
        requires
            old(self).wf(),
            start <= components@.len(),
        ensures
            final(self).wf(),
            final(self)@ == tree_insert_file(old(self)@, names(components@).skip(start as int), full_path@),
        decreases components@.len() - start,
    {
        let ghost comps = names(components@).skip(start as int);
        let n = components.len();
        if start >= n {
            assert(comps.len() == 0);
            return;
        }
        proof {
            assert(comps[0] == components@[start as int]@);
        }
        if n - start == 1 {
            let ghost old_self = *self;
            self.files.push((components[start].to_owned(), full_path.to_owned()));
            proof {
                lemma_node_view(old_self);
                lemma_node_view(*self);
                assert(self@.files =~= old_self@.files.push((comps[0], full_path@)));
                assert(self@.dirs =~= old_self@.dirs);
            }
            return;
        }
        let key = components[start];
        let (i, found) = self.find_dir(key);
        let ghost old_self = *self;
        proof {
            lemma_node_view(old_self);
            lemma_lower_bound(old_self@.dirs, key@);
            lemma_put_dir_wf(old_self@, key@, empty_tree());
        }
        let mut child = if found {
            let (_, c) = self.children.remove(i);
            c
        } else {
            Node::new()
        };
        assert(child@ == dir_or_empty(old_self@.dirs, key@));
        child.insert_file_from(components, start + 1, full_path);
        proof {
            assert(names(components@).skip(start + 1) == comps.drop_first());
        }
        self.children.insert(i, (key.to_owned(), child));
        proof {
            lemma_children_changed(old_self, *self, i as int, key@, child@, found);
            lemma_put_dir_wf(old_self@, key@, child@);
        }
    }

    /// Inserts a path into the tree. Components are the path parts (drive,
    /// folders, file); the last one is a file leaf described by `full_path`.
    /// Missing directories on the way are created.
    pub fn insert_file(&mut self, components: &[&str], full_path: &str)
        requires
            old(self).wf(),
        ensures
            final(self).wf(),
            final(self)@ == tree_insert_file(old(self)@, names(components@), full_path@),
    {
        assert(names(components@).skip(0) == names(components@));
        self.insert_file_from(components, 0, full_path);
    }

    /// Adds `components[start..]` below this node as a directory path.
    fn insert_dir_from(&mut self, components: &[&str], start: usize)
        requires
            old(self).wf(),
            start <= components@.len(),
        ensures
            final(self).wf(),
            final(self)@ == tree_insert_dir(old(self)@, names(components@).skip(start as int)),
        decreases components@.len() - start,
    {
        let ghost comps = names(components@).skip(start as int);
        let n = components.len();
        if start >= n {
            assert(comps.len() == 0);
            return;
        }
        proof {
            assert(comps[0] == components@[start as int]@);
        }
        let key = components[start];
        let (i, found) = self.find_dir(key);
        let ghost old_self = *self;
        proof {
            lemma_node_view(old_self);
            lemma_lower_bound(old_self@.dirs, key@);
            lemma_put_dir_wf(old_self@, key@, empty_tree());
        }
        let mut child = if found {
            let (_, c) = self.children.remove(i);
            c
        } else {
            Node::new()
        };
        assert(child@ == dir_or_empty(old_self@.dirs, key@));
        if n - start > 1 {
            child.insert_dir_from(components, start + 1);
        } else {
            assert(comps.drop_first().len() == 0);
            assert(tree_insert_dir(dir_or_empty(old_self@.dirs, key@), comps.drop_first()) == child@);
        }
        proof {
            assert(names(components@).skip(start + 1) == comps.drop_first());
        }
        self.children.insert(i, (key.to_owned(), child));
        proof {
            lemma_children_changed(old_self, *self, i as int, key@, child@, found);
            lemma_put_dir_wf(old_self@, key@, child@);
        }
    }

    /// Inserts a directory path into the tree (no file leaf); missing
    /// directories are created.
    pub fn insert_dir(&mut self, components: &[&str])
        requires
            old(self).wf(),
        ensures
            final(self).wf(),
            final(self)@ == tree_insert_dir(old(self)@, names(components@)),
    {
        assert(names(components@).skip(0) == names(components@));
        self.insert_dir_from(components, 0);
    }

    /// Whether every nesting level's indentation, starting from `indent`, fits in a `usize`.
    pub fn fits_indents(&self, indent: usize) -> (res: bool)
        ensures
            res == indents_fit(self@, indent as int),
        decreases self@,
    {
        proof {
            lemma_node_view(*self);
        }
        let n = self.children.len();
        for i in 0..n
            invariant
                n == self.children@.len(),
                forall|j: int| 0 <= j < n ==> #[trigger] self@.dirs[j] == (self.children@[j].0@, self.children@[j].1@),
                self@.dirs.len() == n,
                i > 0 ==> indent + 4 <= usize::MAX,
                forall|j: int| 0 <= j < i ==> indents_fit(#[trigger] self@.dirs[j].1, indent + 4),
        {
            if indent > usize::MAX - 4 {
                return false;
            }
            proof {
                assert(decreases_to!(self@ => self@.dirs));
                assert(decreases_to!(self@.dirs => self@.dirs[i as int]));
                assert(decreases_to!(self@.dirs[i as int] => self@.dirs[i as int].1));
            }
            let ok = self.children[i].1.fits_indents(indent + 4);
            assert(ok == indents_fit(self@.dirs[i as int].1, indent + 4));
            if !ok {
                return false;
            }
        }
        true
    }

    /// Appends this directory's YAML listing of files, indented by `indent`
    /// spaces, to `buf`; directories without any file below them are left out.
    pub fn write_yaml(&self, buf: &mut String, indent: usize)
        requires
            indents_fit(self@, indent as int),
        ensures
            final(buf)@ == old(buf)@ + tree_yaml(self@, indent as nat, false),
    {
        self.write_listing(buf, indent, false);
    }

    /// Appends this directory's YAML listing, indented by `indent` spaces, to
    /// `buf`; with `keep_dirs`, directories without files are listed too.
    pub fn write_listing(&self, buf: &mut String, indent: usize, keep_dirs: bool)
        requires
            indents_fit(self@, indent as int),
        ensures
            final(buf)@ == old(buf)@ + tree_yaml(self@, indent as nat, keep_dirs),
        decreases self@,
    {
        proof {
            lemma_node_view(*self);
        }
        let pad_str = spaces(indent);
        let n = self.children.len();
        for i in 0..n
            invariant
                n == self.children@.len(),
                forall|j: int| 0 <= j < n ==> #[trigger] self@.dirs[j] == (self.children@[j].0@, self.children@[j].1@),
                self@.dirs.len() == n,
                indents_fit(self@, indent as int),
                pad_str@ == pad(indent as nat),
                buf@ == old(buf)@ + dirs_yaml(self@.dirs.take(i as int), indent as nat, keep_dirs),
        {
            let ghost d = self@.dirs;
            assert(d.take(i + 1).drop_last() == d.take(i as int));
            assert(d.take(i + 1).last() == d[i as int]);
            let child = &self.children[i];
            if keep_dirs || child.1.has_content() {
                proof {
                    assert(decreases_to!(self@ => self@.dirs));
                    assert(decreases_to!(self@.dirs => self@.dirs[i as int]));
                    assert(decreases_to!(self@.dirs[i as int] => self@.dirs[i as int].1));
                    assert(indents_fit(self@.dirs[i as int].1, indent + 4));
                }
                buf.append(pad_str.as_str());
                buf.append("- name: ");
                let esc = yaml_escape(child.0.as_str());
                buf.append(esc.as_str());
                buf.append("\n");
                buf.append(pad_str.as_str());
                buf.append("  children:\n");
                child.1.write_listing(buf, indent + 4, keep_dirs);
                assert(buf@ =~= old(buf)@ + dirs_yaml(d.take(i + 1), indent as nat, keep_dirs));
            }
        }
        assert(self@.dirs.take(n as int) == self@.dirs);
        let m = self.files.len();
        for i in 0..m
            invariant
                m == self.files@.len(),
                self@.files == files_view(self.files@),
                pad_str@ == pad(indent as nat),
                buf@ == old(buf)@ + dirs_yaml(self@.dirs, indent as nat, keep_dirs) + files_yaml(self@.files.take(i as int), indent as nat),
        {
            let ghost f = self@.files;
            assert(f.take(i + 1).drop_last() == f.take(i as int));
            assert(f.take(i + 1).last() == f[i as int]);
            let entry = &self.files[i];
            buf.append(pad_str.as_str());
            buf.append("- name: ");
            let esc = yaml_escape(entry.0.as_str());
            buf.append(esc.as_str());
            buf.append("\n");
            buf.append(pad_str.as_str());
            buf.append("  description: ");
            let esc2 = yaml_escape(entry.1.as_str());
            buf.append(esc2.as_str());
            buf.append("\n");
            assert(buf@ =~= old(buf)@ + dirs_yaml(self@.dirs, indent as nat, keep_dirs) + files_yaml(f.take(i + 1), indent as nat));
        }
        assert(self@.files.take(m as int) == self@.files);
    }

    /// The whole tree's YAML listing, or nothing when its nesting is too deep
    /// for the indentation to fit in a `usize`; with `keep_dirs`, directories
    /// without files are listed too.
    pub fn render_yaml(&self, keep_dirs: bool) -> (res: String)
        ensures
            res@ == spec_render(self@, keep_dirs),
    {
        let mut yaml = String::new();
        if self.fits_indents(0) {
            self.write_listing(&mut yaml, 0, keep_dirs);
            assert(yaml@ =~= tree_yaml(self@, 0, keep_dirs));
        }
        yaml
    }

    /// Whether some file lies in this directory or below it.
    pub fn has_content(&self) -> (res: bool)
        ensures
            res == has_files(self@),
        decreases self@,
    {
        proof {
            lemma_node_view(*self);
        }
        if !self.files.is_empty() {
            return true;
        }
        let n = self.children.len();
        for i in 0..n
            invariant
                n == self.children@.len(),
                self.files@.len() == 0,
                forall|j: int| 0 <= j < n ==> #[trigger] self@.dirs[j] == (self.children@[j].0@, self.children@[j].1@),
                self@.dirs.len() == n,
                self@.files.len() == 0,
                forall|j: int| 0 <= j < i ==> !has_files(#[trigger] self@.dirs[j].1),
        {
            proof {
                assert(decreases_to!(self@ => self@.dirs));
                assert(decreases_to!(self@.dirs => self@.dirs[i as int]));
                assert(decreases_to!(self@.dirs[i as int] => self@.dirs[i as int].1));
            }
            if self.children[i].1.has_content() {
                assert(has_files(self@.dirs[i as int].1));
                return true;
            }
        }
        false
    }
}

} // verus!
