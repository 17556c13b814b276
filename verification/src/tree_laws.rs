//! Properties of the directory tree that hold across operations.
use vstd::prelude::*;
use crate::tree::{
    TreeView, dir_entry_yaml, dir_or_empty, dirs_yaml, files_yaml, empty_tree, has_dir, has_files, lemma_lower_bound,
    lemma_lower_bound_at, lemma_lower_bound_sorted, lemma_put_dir_wf, lemma_str_lt_asymmetric,
    lemma_str_lt_irreflexive, lower_bound, names_sorted, put_dir, str_lt, tree_insert_dir,
    tree_insert_file, tree_wf, tree_yaml,
};

verus! {

proof fn lemma_put_dir_sorted(d: Seq<(Seq<char>, TreeView)>, k: Seq<char>, s: TreeView)
    requires
        names_sorted(d),
    ensures
        names_sorted(put_dir(d, k, s)),
{
    let t = TreeView { dirs: d, files: Seq::empty() };
    let nd = put_dir(d, k, s);
    let lb = lower_bound(d, k) as int;
    lemma_lower_bound(d, k);
    lemma_lower_bound_sorted(d, k);
    assert forall|i: int, j: int| 0 <= i < j < nd.len() implies str_lt(#[trigger] nd[i].0, #[trigger] nd[j].0) by {
        if !has_dir(d, k) {
            if i < lb && j > lb {
                assert(nd[j] == d[j - 1]);
            } else if i > lb {
                assert(nd[i] == d[i - 1]);
                assert(nd[j] == d[j - 1]);
            } else if i == lb {
                assert(nd[j] == d[j - 1]);
            }
        }
    }
}

/// After setting `k`, the entry named `k` sits where `k` belongs and holds `s`.
proof fn lemma_put_dir_at(d: Seq<(Seq<char>, TreeView)>, k: Seq<char>, s: TreeView)
    ensures
        lower_bound(put_dir(d, k, s), k) == lower_bound(d, k),
        has_dir(put_dir(d, k, s), k),
        dir_or_empty(put_dir(d, k, s), k) == s,
{
    let nd = put_dir(d, k, s);
    let lb = lower_bound(d, k) as int;
    lemma_lower_bound(d, k);
    lemma_str_lt_irreflexive(k);
    assert forall|j: int| 0 <= j < lb implies str_lt(#[trigger] nd[j].0, k) by {
        assert(nd[j] == d[j]);
    }
    lemma_lower_bound_at(nd, k, lb);
}

proof fn lemma_put_dir_twice(d: Seq<(Seq<char>, TreeView)>, k: Seq<char>, s1: TreeView, s2: TreeView)
    ensures
        put_dir(put_dir(d, k, s1), k, s2) == put_dir(d, k, s2),
{
    lemma_put_dir_at(d, k, s1);
    let lb = lower_bound(d, k) as int;
    lemma_lower_bound(d, k);
    if has_dir(d, k) {
        assert(put_dir(put_dir(d, k, s1), k, s2) =~= put_dir(d, k, s2));
    } else {
        assert(put_dir(put_dir(d, k, s1), k, s2) =~= put_dir(d, k, s2));
    }
}

/// Which entries a sorted list holds after setting `k`.
proof fn lemma_put_dir_contains(d: Seq<(Seq<char>, TreeView)>, k: Seq<char>, s: TreeView, p: (Seq<char>, TreeView))
    requires
        names_sorted(d),
    ensures
        put_dir(d, k, s).contains(p) <==> (p == (k, s) || (d.contains(p) && p.0 != k)),
{
    let nd = put_dir(d, k, s);
    let lb = lower_bound(d, k) as int;
    lemma_lower_bound(d, k);
    lemma_lower_bound_sorted(d, k);
    lemma_put_dir_at(d, k, s);
    if nd.contains(p) {
        let j = choose|j: int| 0 <= j < nd.len() && nd[j] == p;
        if j != lb {
            if has_dir(d, k) {
                assert(nd[j] == d[j]);
                assert(d.contains(p));
            } else if j < lb {
                assert(nd[j] == d[j]);
                assert(d.contains(p));
            } else {
                assert(nd[j] == d[j - 1]);
                assert(d.contains(p));
            }
        }
    }
    if p == (k, s) {
        assert(nd[lb] == p);
    } else if d.contains(p) && p.0 != k {
        let j = choose|j: int| 0 <= j < d.len() && d[j] == p;
        if has_dir(d, k) {
            assert(j != lb);
            assert(nd[j] == p);
        } else if j < lb {
            assert(nd[j] == p);
        } else {
            assert(nd[j + 1] == p);
        }
    }
}

/// A sorted list is determined by the entries it holds.
proof fn lemma_sorted_ext(x: Seq<(Seq<char>, TreeView)>, y: Seq<(Seq<char>, TreeView)>)
    requires
        names_sorted(x),
        names_sorted(y),
        forall|p: (Seq<char>, TreeView)| x.contains(p) <==> y.contains(p),
    ensures
        x == y,
    decreases x.len(),
{
    if x.len() == 0 {
        if y.len() > 0 {
            assert(y.contains(y[0]));
        }
        assert(x =~= y);
    } else {
        assert(x.contains(x[0]));
        let j = choose|j: int| 0 <= j < y.len() && y[j] == x[0];
        assert(y.contains(y[0]));
        let i = choose|i: int| 0 <= i < x.len() && x[i] == y[0];
        if j > 0 {
            if i == 0 {
                lemma_str_lt_irreflexive(y[0].0);
            } else {
                lemma_str_lt_asymmetric(x[0].0, y[0].0);
            }
        }
        assert(x[0] == y[0]);
        let xs = x.drop_first();
        let ys = y.drop_first();
        assert forall|p: (Seq<char>, TreeView)| xs.contains(p) <==> ys.contains(p) by {
            if xs.contains(p) {
                let a = choose|a: int| 0 <= a < xs.len() && xs[a] == p;
                assert(x[a + 1] == p);
                assert(x.contains(p));
                let b = choose|b: int| 0 <= b < y.len() && y[b] == p;
                if b == 0 {
                    lemma_str_lt_irreflexive(p.0);
                }
                assert(ys[b - 1] == p);
            }
            if ys.contains(p) {
                let a = choose|a: int| 0 <= a < ys.len() && ys[a] == p;
                assert(y[a + 1] == p);
                assert(y.contains(p));
                let b = choose|b: int| 0 <= b < x.len() && x[b] == p;
                if b == 0 {
                    lemma_str_lt_irreflexive(p.0);
                }
                assert(xs[b - 1] == p);
            }
        }
        lemma_sorted_ext(xs, ys);
        assert(x =~= seq![x[0]] + xs);
        assert(y =~= seq![y[0]] + ys);
    }
}

/// Setting one name leaves what another name holds unchanged.
proof fn lemma_put_dir_other(d: Seq<(Seq<char>, TreeView)>, k1: Seq<char>, s: TreeView, k2: Seq<char>)
    requires
        names_sorted(d),
        k1 != k2,
    ensures
        has_dir(put_dir(d, k1, s), k2) == has_dir(d, k2),
        dir_or_empty(put_dir(d, k1, s), k2) == dir_or_empty(d, k2),
{
    let nd = put_dir(d, k1, s);
    lemma_put_dir_sorted(d, k1, s);
    lemma_lower_bound(d, k2);
    lemma_lower_bound(nd, k2);
    lemma_lower_bound_sorted(d, k2);
    lemma_lower_bound_sorted(nd, k2);
    if has_dir(d, k2) {
        let p = d[lower_bound(d, k2) as int];
        assert(d.contains(p));
        lemma_put_dir_contains(d, k1, s, p);
        let j = choose|j: int| 0 <= j < nd.len() && nd[j] == p;
    }
    if has_dir(nd, k2) {
        let p = nd[lower_bound(nd, k2) as int];
        assert(nd.contains(p));
        lemma_put_dir_contains(d, k1, s, p);
        let j = choose|j: int| 0 <= j < d.len() && d[j] == p;
    }
}

proof fn lemma_put_dir_commutes(
    d: Seq<(Seq<char>, TreeView)>,
    k1: Seq<char>,
    s1: TreeView,
    k2: Seq<char>,
    s2: TreeView,
)
    requires
        names_sorted(d),
        k1 != k2,
    ensures
        put_dir(put_dir(d, k1, s1), k2, s2) == put_dir(put_dir(d, k2, s2), k1, s1),
{
    let a = put_dir(d, k1, s1);
    let b = put_dir(d, k2, s2);
    lemma_put_dir_sorted(d, k1, s1);
    lemma_put_dir_sorted(d, k2, s2);
    lemma_put_dir_sorted(a, k2, s2);
    lemma_put_dir_sorted(b, k1, s1);
    assert forall|p: (Seq<char>, TreeView)| put_dir(a, k2, s2).contains(p) <==> put_dir(b, k1, s1).contains(p) by {
        lemma_put_dir_contains(d, k1, s1, p);
        lemma_put_dir_contains(d, k2, s2, p);
        lemma_put_dir_contains(a, k2, s2, p);
        lemma_put_dir_contains(b, k1, s1, p);
    }
    lemma_sorted_ext(put_dir(a, k2, s2), put_dir(b, k1, s1));
}

/// Adding a directory path keeps the tree well-formed.
pub proof fn law_insert_dir_keeps_wf(t: TreeView, comps: Seq<Seq<char>>)
    requires
        tree_wf(t),
    ensures
        tree_wf(tree_insert_dir(t, comps)),
    decreases comps.len(),
{
    if comps.len() > 0 {
        lemma_put_dir_wf(t, comps[0], empty_tree());
        let sub = dir_or_empty(t.dirs, comps[0]);
        law_insert_dir_keeps_wf(sub, comps.drop_first());
        lemma_put_dir_wf(t, comps[0], tree_insert_dir(sub, comps.drop_first()));
    }
}

/// Adding the same directory path twice has the effect of adding it once.
pub proof fn law_insert_dir_idempotent(t: TreeView, comps: Seq<Seq<char>>)
    requires
        tree_wf(t),
    ensures
        tree_insert_dir(tree_insert_dir(t, comps), comps) == tree_insert_dir(t, comps),
    decreases comps.len(),
{
    if comps.len() > 0 {
        let k = comps[0];
        let sub = dir_or_empty(t.dirs, k);
        lemma_put_dir_wf(t, k, empty_tree());
        let ia = tree_insert_dir(sub, comps.drop_first());
        law_insert_dir_idempotent(sub, comps.drop_first());
        lemma_put_dir_at(t.dirs, k, ia);
        lemma_put_dir_twice(t.dirs, k, ia, ia);
    }
}

/// The tree built from directory paths does not depend on the order in which
/// they are added: adding `a` then `b` gives the same tree as `b` then `a`.
pub proof fn law_insert_dir_commutes(t: TreeView, a: Seq<Seq<char>>, b: Seq<Seq<char>>)
    requires
        tree_wf(t),
    ensures
        tree_insert_dir(tree_insert_dir(t, a), b) == tree_insert_dir(tree_insert_dir(t, b), a),
    decreases a.len(),
{
    if a.len() == 0 || b.len() == 0 {
        return;
    }
    let d = t.dirs;
    let ka = a[0];
    let kb = b[0];
    lemma_put_dir_wf(t, ka, empty_tree());
    lemma_put_dir_wf(t, kb, empty_tree());
    let sa = dir_or_empty(d, ka);
    let sb = dir_or_empty(d, kb);
    let ia = tree_insert_dir(sa, a.drop_first());
    let ib = tree_insert_dir(sb, b.drop_first());
    if ka == kb {
        law_insert_dir_commutes(sa, a.drop_first(), b.drop_first());
        lemma_put_dir_at(d, ka, ia);
        lemma_put_dir_at(d, kb, ib);
        lemma_put_dir_twice(d, ka, ia, tree_insert_dir(ia, b.drop_first()));
        lemma_put_dir_twice(d, kb, ib, tree_insert_dir(ib, a.drop_first()));
    } else {
        lemma_put_dir_other(d, ka, ia, kb);
        lemma_put_dir_other(d, kb, ib, ka);
        lemma_put_dir_commutes(d, ka, ia, kb, ib);
    }
}

/// Adding a file path leaves a file in the tree.
pub proof fn law_insert_file_has_files(t: TreeView, comps: Seq<Seq<char>>, full: Seq<char>)
    requires
        comps.len() > 0,
    ensures
        has_files(tree_insert_file(t, comps, full)),
    decreases comps.len(),
{
    if comps.len() > 1 {
        let k = comps[0];
        let sub = tree_insert_file(dir_or_empty(t.dirs, k), comps.drop_first(), full);
        law_insert_file_has_files(dir_or_empty(t.dirs, k), comps.drop_first(), full);
        lemma_put_dir_at(t.dirs, k, sub);
        lemma_lower_bound(put_dir(t.dirs, k, sub), k);
        let r = tree_insert_file(t, comps, full);
        assert(has_files(r.dirs[lower_bound(t.dirs, k) as int].1));
    }
}

/// Adding a directory path does not change whether the tree holds any file.
pub proof fn law_insert_dir_keeps_has_files(t: TreeView, comps: Seq<Seq<char>>)
    ensures
        has_files(tree_insert_dir(t, comps)) == has_files(t),
    decreases comps.len(),
{
    if comps.len() > 0 {
        let k = comps[0];
        let d = t.dirs;
        let lb = lower_bound(d, k) as int;
        let sub = dir_or_empty(d, k);
        let ns = tree_insert_dir(sub, comps.drop_first());
        law_insert_dir_keeps_has_files(sub, comps.drop_first());
        lemma_lower_bound(d, k);
        let r = tree_insert_dir(t, comps);
        let nd = r.dirs;
        assert(!has_files(empty_tree()));
        if has_files(r) && r.files.len() == 0 {
            let j = choose|j: int| 0 <= j < nd.len() && has_files(#[trigger] nd[j].1);
            if has_dir(d, k) {
                assert(has_files(d[j].1));
            } else if j < lb {
                assert(nd[j] == d[j]);
            } else if j > lb {
                assert(nd[j] == d[j - 1]);
                assert(has_files(d[j - 1].1));
            }
        }
        if has_files(t) && t.files.len() == 0 {
            let j = choose|j: int| 0 <= j < d.len() && has_files(#[trigger] d[j].1);
            if has_dir(d, k) {
                assert(has_files(nd[j].1));
            } else if j < lb {
                assert(nd[j] == d[j]);
            } else {
                assert(nd[j + 1] == d[j]);
                assert(has_files(nd[j + 1].1));
            }
        }
    }
}

proof fn lemma_dirs_yaml_empty(d: Seq<(Seq<char>, TreeView)>, indent: nat)
    requires
        forall|i: int| 0 <= i < d.len() ==> !has_files(#[trigger] d[i].1),
    ensures
        dirs_yaml(d, indent, false) == Seq::<char>::empty(),
    decreases d.len(),
{
    if d.len() > 0 {
        assert(!has_files(d[d.len() - 1].1));
        lemma_dirs_yaml_empty(d.drop_last(), indent);
    }
}

/// In a listing of files, a directory without any file below it renders as
/// nothing: such directories are not listed.
pub proof fn law_file_listing_skips_empty_tree(t: TreeView, indent: nat)
    requires
        !has_files(t),
    ensures
        tree_yaml(t, indent, false) == Seq::<char>::empty(),
{
    lemma_dirs_yaml_empty(t.dirs, indent);
    assert(t.files.len() == 0);
    assert(tree_yaml(t, indent, false) =~= Seq::<char>::empty());
}

/// Whether `part` occurs in `s` as a contiguous run.
pub open spec fn occurs_in(part: Seq<char>, s: Seq<char>) -> bool {
    exists|k: int| 0 <= k && k + part.len() <= s.len() && #[trigger] s.subrange(k, k + part.len()) == part
}

proof fn lemma_occurs_in_concat(part: Seq<char>, a: Seq<char>, b: Seq<char>)
    ensures
        occurs_in(part, a) ==> occurs_in(part, a + b),
        occurs_in(part, b) ==> occurs_in(part, a + b),
{
    if occurs_in(part, a) {
        let k = choose|k: int| 0 <= k && k + part.len() <= a.len() && #[trigger] a.subrange(k, k + part.len()) == part;
        assert((a + b).subrange(k, k + part.len()) =~= part);
    }
    if occurs_in(part, b) {
        let k = choose|k: int| 0 <= k && k + part.len() <= b.len() && #[trigger] b.subrange(k, k + part.len()) == part;
        assert((a + b).subrange(a.len() + k, a.len() + k + part.len()) =~= part);
    }
}

proof fn lemma_dirs_yaml_has_entry(d: Seq<(Seq<char>, TreeView)>, indent: nat, i: int)
    requires
        0 <= i < d.len(),
    ensures
        occurs_in(dir_entry_yaml(d[i].0, d[i].1, indent, true), dirs_yaml(d, indent, true)),
    decreases d.len(),
{
    let e = dir_entry_yaml(d[i].0, d[i].1, indent, true);
    let rest = dirs_yaml(d.drop_last(), indent, true);
    let last = dir_entry_yaml(d.last().0, d.last().1, indent, true);
    assert(dirs_yaml(d, indent, true) =~= rest + last);
    if i == d.len() - 1 {
        assert(d[i] == d.last());
        assert(last.subrange(0int, 0int + e.len()) =~= e);
        assert(occurs_in(e, last));
        lemma_occurs_in_concat(e, rest, last);
    } else {
        assert(d.drop_last()[i] == d[i]);
        lemma_dirs_yaml_has_entry(d.drop_last(), indent, i);
        lemma_occurs_in_concat(e, rest, last);
    }
}

/// In a listing of folders, every directory is listed: the entry of each
/// subdirectory, with its own listing nested below it, occurs in the
/// directory's listing, whether or not any file lies below it.
pub proof fn law_folder_listing_has_every_dir(t: TreeView, indent: nat, i: int)
    requires
        0 <= i < t.dirs.len(),
    ensures
        occurs_in(dir_entry_yaml(t.dirs[i].0, t.dirs[i].1, indent, true), tree_yaml(t, indent, true)),
{
    lemma_dirs_yaml_has_entry(t.dirs, indent, i);
    lemma_occurs_in_concat(
        dir_entry_yaml(t.dirs[i].0, t.dirs[i].1, indent, true),
        dirs_yaml(t.dirs, indent, true),
        files_yaml(t.files, indent),
    );
}

} // verus!
