//! Laws of the path handling: how paths of plain names split into
//! components, what stripping a base directory leaves, which extension a
//! file name has, and what the walkers and the filter make of such paths.
use vstd::prelude::*;
use crate::filter::{join, part_accepts, spec_matches_filter, spec_strip_star_dot};
use crate::paths::{
    components_of, ext_shaped, extension_of, is_leading, is_sep, leading_dot, plain_name,
    plain_names, root_text, slash_path, slash_pieces, slash_shaped, split_last_dot,
    starts_at_root, strip_of, base_names, undotted_last_name,
};
use crate::text::{lowercase_of, spec_split, spec_trim};
use crate::tree::{tree_insert_dir, tree_insert_file, TreeView};
use crate::walk::{
    drop_separators, everything_fold, spec_drive_parts, trim_end_backslashes, walk_step, WalkEntry,
};

verus! {

proof fn lemma_split_no_sep(s: Seq<char>, sep: char)
    requires
        forall|i: int| 0 <= i < s.len() ==> s[i] != sep,
    ensures
        spec_split(s, sep) == seq![s],
    decreases s.len(),
{
    if s.len() > 0 {
        assert forall|i: int| 0 <= i < s.drop_last().len() implies s.drop_last()[i] != sep by {
            assert(s.drop_last()[i] == s[i]);
        }
        lemma_split_no_sep(s.drop_last(), sep);
        assert(s.drop_last().push(s.last()) =~= s);
        assert(spec_split(s, sep) =~= seq![s]);
    } else {
        assert(s =~= Seq::<char>::empty());
    }
}

proof fn lemma_split_append(a: Seq<char>, b: Seq<char>, sep: char)
    requires
        forall|i: int| 0 <= i < b.len() ==> b[i] != sep,
    ensures
        spec_split(a + seq![sep] + b, sep) == spec_split(a, sep).push(b),
    decreases b.len(),
{
    let s = a + seq![sep] + b;
    if b.len() == 0 {
        assert(s.drop_last() =~= a);
        assert(b =~= Seq::<char>::empty());
    } else {
        assert forall|i: int| 0 <= i < b.drop_last().len() implies b.drop_last()[i] != sep by {
            assert(b.drop_last()[i] == b[i]);
        }
        lemma_split_append(a, b.drop_last(), sep);
        assert(s.drop_last() =~= a + seq![sep] + b.drop_last());
        assert(s.last() == b.last());
        assert(b.drop_last().push(b.last()) =~= b);
        assert(spec_split(s, sep) =~= spec_split(a, sep).push(b));
    }
}

proof fn lemma_plain_prefix(ns: Seq<Seq<char>>, k: int)
    requires
        plain_names(ns),
        0 <= k <= ns.len(),
    ensures
        plain_names(ns.take(k)),
        plain_names(ns.skip(k)),
{
    assert forall|i: int| 0 <= i < ns.take(k).len() implies plain_name(#[trigger] ns.take(k)[i]) by {
        assert(ns.take(k)[i] == ns[i]);
    }
    assert forall|i: int| 0 <= i < ns.skip(k).len() implies plain_name(#[trigger] ns.skip(k)[i]) by {
        assert(ns.skip(k)[i] == ns[i + k]);
    }
}

proof fn lemma_split_join(ns: Seq<Seq<char>>)
    requires
        plain_names(ns),
        ns.len() >= 1,
    ensures
        spec_split(join(ns, seq!['/']), '/') == ns,
    decreases ns.len(),
{
    let last = ns[ns.len() - 1];
    assert(plain_name(last));
    assert forall|i: int| 0 <= i < last.len() implies last[i] != '/' by {
        assert(!is_sep(last[i]));
    }
    if ns.len() == 1 {
        lemma_split_no_sep(last, '/');
        assert(seq![ns[0]] =~= ns);
    } else {
        let init = ns.drop_last();
        lemma_plain_prefix(ns, ns.len() - 1);
        assert(ns.take(ns.len() - 1) == init);
        lemma_split_join(init);
        lemma_split_append(join(init, seq!['/']), last, '/');
        assert(init.push(last) =~= ns);
    }
}

proof fn lemma_join_ends(ns: Seq<Seq<char>>, sep: Seq<char>)
    requires
        ns.len() >= 1,
        forall|i: int| 0 <= i < ns.len() ==> (#[trigger] ns[i]).len() > 0,
    ensures
        join(ns, sep).len() > 0,
        join(ns, sep)[0] == ns[0][0],
        join(ns, sep).last() == ns.last().last(),
    decreases ns.len(),
{
    if ns.len() > 1 {
        let init = ns.drop_last();
        assert forall|i: int| 0 <= i < init.len() implies (#[trigger] init[i]).len() > 0 by {
            assert(init[i] == ns[i]);
        }
        lemma_join_ends(init, sep);
        assert(ns.last().len() > 0);
    }
}

/// A path of plain names joined with `/`: its `/`-pieces are the names, it
/// starts at the root exactly when a leading `/` was put, and it is
/// `/`-shaped.
proof fn lemma_slash_path_shape(root: bool, ns: Seq<Seq<char>>)
    requires
        plain_names(ns),
        ns.len() >= 1,
    ensures
        slash_pieces(slash_path(root, ns)) == ns,
        starts_at_root(slash_path(root, ns)) == root,
        slash_shaped(slash_path(root, ns)),
        slash_path(root, ns).len() > 0,
        slash_path(root, ns).last() == ns.last().last(),
        slash_path(root, ns).last() != '/',
{
    let p = slash_path(root, ns);
    let j = join(ns, seq!['/']);
    lemma_split_join(ns);
    assert forall|i: int| 0 <= i < ns.len() implies (#[trigger] ns[i]).len() > 0 by {
        assert(plain_name(ns[i]));
    }
    lemma_join_ends(ns, seq!['/']);
    let last = ns[ns.len() - 1];
    assert(plain_name(last));
    assert(!is_sep(last[last.len() - 1]));
    if root {
        assert(p.drop_first() =~= j);
        assert(p[0] == '/');
        assert(p.last() == j.last());
    } else {
        assert(p =~= j);
        assert(plain_name(ns[0]));
        assert(!is_sep(ns[0][0]));
    }
}

/// Plain names joined with `/` split into those names: a relative path into
/// exactly its names, a path after a leading `/` into the root separator
/// (`/`, or `\` on Windows) and then its names; joining the names again
/// with `/` gives back the path.
pub proof fn law_components_of_slash_path(root: bool, ns: Seq<Seq<char>>)
    requires
        plain_names(ns),
        ns.len() >= 1,
    ensures
        components_of(slash_path(root, ns)) == (if root {
            seq![root_text(slash_path(root, ns))] + ns
        } else {
            ns
        }),
        root_text(slash_path(root, ns)) == seq!['/'] || root_text(slash_path(root, ns)) == seq!['\\'],
        !root ==> join(components_of(slash_path(root, ns)), seq!['/']) == slash_path(root, ns),
        root ==> seq!['/'] + join(components_of(slash_path(root, ns)).drop_first(), seq!['/'])
            == slash_path(root, ns),
{
    lemma_slash_path_shape(root, ns);
    if root {
        assert(components_of(slash_path(root, ns)).drop_first() =~= ns);
    } else {
        assert(slash_path(root, ns) =~= join(ns, seq!['/']));
    }
}

proof fn lemma_drop_separators_plain(ns: Seq<Seq<char>>)
    requires
        plain_names(ns),
    ensures
        drop_separators(ns) == ns,
    decreases ns.len(),
{
    if ns.len() > 0 {
        lemma_plain_prefix(ns, ns.len() - 1);
        assert(ns.take(ns.len() - 1) == ns.drop_last());
        lemma_drop_separators_plain(ns.drop_last());
        let last = ns[ns.len() - 1];
        assert(plain_name(last));
        assert(!is_sep(last[0]));
        reveal_strlit("\\");
        reveal_strlit("/");
        assert(last != "\\"@);
        assert(last != "/"@);
        assert(ns.drop_last().push(last) =~= ns);
    }
}

/// The tree path under which a `/`-joined path of plain names is listed:
/// its names, below a top node for the root separator when it has one.
pub open spec fn slash_tree_parts(root: bool, ns: Seq<Seq<char>>) -> Seq<Seq<char>> {
    if root {
        seq![trim_end_backslashes(root_text(slash_path(root, ns)))] + ns
    } else {
        ns
    }
}

/// One line of Everything's output that is plain names joined with `/` is
/// listed once, with its names nested in order: a relative path's first
/// name at the top, a path from the root below a top node named `/` (or
/// named empty, where the root separator is `\`).
pub proof fn law_everything_lists_slash_path(t: TreeView, root: bool, ns: Seq<Seq<char>>, folders_only: bool)
    requires
        plain_names(ns),
        ns.len() >= 1,
    ensures
        everything_fold(t, seq![slash_path(root, ns)], folders_only) == (
            if folders_only {
                tree_insert_dir(t, slash_tree_parts(root, ns))
            } else {
                tree_insert_file(t, slash_tree_parts(root, ns), slash_path(root, ns))
            },
            1nat,
        ),
        root ==> (slash_tree_parts(root, ns)[0] == seq!['/'] || slash_tree_parts(root, ns)[0] == Seq::<char>::empty()),
{
    let p = slash_path(root, ns);
    law_components_of_slash_path(root, ns);
    let cs = components_of(p);
    assert(seq![p].drop_last() =~= Seq::<Seq<char>>::empty());
    assert(seq![p].last() == p);
    assert(everything_fold(t, seq![p].drop_last(), folders_only) == (t, 0nat));
    assert(cs.len() > 0);
    lemma_drop_separators_plain(ns);
    if root {
        let r = root_text(p);
        assert(cs[0] == r);
        assert(cs.drop_first() =~= ns);
        assert(spec_drive_parts(cs) =~= slash_tree_parts(root, ns));
        if r == seq!['\\'] {
            assert(r.drop_last() =~= Seq::<char>::empty());
            assert(trim_end_backslashes(r.drop_last()) == r.drop_last());
        }
    } else {
        let first = ns[0];
        assert(plain_name(first));
        assert(!is_sep(first[first.len() - 1]));
        assert(trim_end_backslashes(first) == first);
        lemma_plain_prefix(ns, 1);
        lemma_drop_separators_plain(ns.skip(1));
        assert(ns.drop_first() == ns.skip(1));
        assert(seq![first] + ns.drop_first() =~= ns);
        assert(spec_drive_parts(cs) =~= ns);
    }
}

/// The base directory `/`-joined from plain names, maybe with one trailing
/// `/`.
pub open spec fn slash_base(root: bool, nb: Seq<Seq<char>>, trail: bool) -> Seq<char> {
    slash_path(root, nb) + (if trail { seq!['/'] } else { Seq::<char>::empty() })
}

/// Stripping a base directory from a path, both of plain names joined with
/// `/`: when both start at the root or neither does, and the base's names
/// lead the path's, what remains is the rest of the path's names joined
/// with `/` (a trailing `/` on the base makes no difference); otherwise the
/// base is no prefix of the path.
pub proof fn law_strip_slash_path(rp: bool, np: Seq<Seq<char>>, rb: bool, nb: Seq<Seq<char>>, trail: bool)
    requires
        plain_names(np),
        np.len() >= 1,
        plain_names(nb),
        rb || nb.len() >= 1,
        trail ==> nb.len() >= 1,
    ensures
        strip_of(slash_path(rp, np), slash_base(rb, nb, trail)) == (if rp == rb && is_leading(nb, np) {
            Some(join(np.skip(nb.len() as int), seq!['/']))
        } else {
            None
        }),
{
    let p = slash_path(rp, np);
    let b = slash_base(rb, nb, trail);
    lemma_slash_path_shape(rp, np);
    if nb.len() == 0 {
        assert(b =~= seq!['/']);
        assert(np.take(0) =~= nb);
        assert(np.skip(0) =~= np);
        assert(base_names(b) == Some((true, Seq::<Seq<char>>::empty())));
        assert(nb =~= Seq::<Seq<char>>::empty());
        assert(b.len() > 0);
    } else {
        let b0 = slash_path(rb, nb);
        lemma_slash_path_shape(rb, nb);
        if trail {
            assert(b.len() >= 2);
            assert(b.last() == '/');
            assert(b.drop_last() =~= b0);
        } else {
            assert(b =~= b0);
        }
        assert(b != seq!['/']);
        assert(base_names(b) == Some((rb, nb)));
        assert(b.len() > 0);
    }
}

/// A file found by a directory walk below `root`, both of plain names joined
/// with `/`, that passes the filter (if any) is listed under the names that
/// follow the start's, described by its full path, and counted.
pub proof fn law_walk_lists_file_below_root(
    t: TreeView,
    e: WalkEntry,
    rb: bool,
    nb: Seq<Seq<char>>,
    nr: Seq<Seq<char>>,
    trail: bool,
    filter: Option<Seq<char>>,
)
    requires
        plain_names(nb),
        plain_names(nr),
        nr.len() >= 1,
        rb || nb.len() >= 1,
        trail ==> nb.len() >= 1,
        e.depth != 0,
        !e.is_dir,
        e.path@ == slash_path(rb, nb + nr),
        filter is Some ==> spec_matches_filter(e.path@, filter->0),
    ensures
        walk_step(t, e, slash_base(rb, nb, trail), filter, false) == (tree_insert_file(t, nr, e.path@), true),
{
    let np = nb + nr;
    assert forall|i: int| 0 <= i < np.len() implies plain_name(#[trigger] np[i]) by {
        if i < nb.len() {
            assert(np[i] == nb[i]);
        } else {
            assert(np[i] == nr[i - nb.len()]);
        }
    }
    assert(np.take(nb.len() as int) =~= nb);
    assert(np.skip(nb.len() as int) =~= nr);
    law_strip_slash_path(rb, np, rb, nb, trail);
    law_components_of_slash_path(false, nr);
    assert(slash_path(false, nr) =~= join(nr, seq!['/']));
}

proof fn lemma_split_last_dot(q: Seq<char>, e: Seq<char>)
    requires
        forall|i: int| 0 <= i < e.len() ==> e[i] != '.',
    ensures
        split_last_dot(q + seq!['.'] + e) == Some((q, e)),
    decreases e.len(),
{
    let p = q + seq!['.'] + e;
    if e.len() == 0 {
        assert(p.drop_last() =~= q);
        assert(e =~= Seq::<char>::empty());
    } else {
        assert forall|i: int| 0 <= i < e.drop_last().len() implies e.drop_last()[i] != '.' by {
            assert(e.drop_last()[i] == e[i]);
        }
        lemma_split_last_dot(q, e.drop_last());
        assert(p.drop_last() =~= q + seq!['.'] + e.drop_last());
        assert(p.last() == e.last());
        assert(e.drop_last().push(e.last()) =~= e);
    }
}

proof fn lemma_split_last_dot_append(a: Seq<char>, b: Seq<char>)
    requires
        forall|i: int| 0 <= i < b.len() ==> b[i] != '.',
    ensures
        split_last_dot(a + b) == (match split_last_dot(a) {
            Some((q, e)) => Some((q, e + b)),
            None => None,
        }),
    decreases b.len(),
{
    if b.len() == 0 {
        assert(a + b =~= a);
        match split_last_dot(a) {
            Some((q, e)) => {
                assert(e + b =~= e);
            },
            None => {},
        }
    } else {
        assert forall|i: int| 0 <= i < b.drop_last().len() implies b.drop_last()[i] != '.' by {
            assert(b.drop_last()[i] == b[i]);
        }
        lemma_split_last_dot_append(a, b.drop_last());
        assert((a + b).drop_last() =~= a + b.drop_last());
        assert((a + b).last() == b.last());
        match split_last_dot(a) {
            Some((q, e)) => {
                assert((e + b.drop_last()).push(b.last()) =~= e + b);
            },
            None => {},
        }
    }
}

proof fn lemma_split_last_dot_none(p: Seq<char>)
    requires
        !p.contains('.'),
    ensures
        split_last_dot(p) is None,
    decreases p.len(),
{
    if p.len() > 0 {
        assert(p[p.len() - 1] != '.');
        assert(!p.drop_last().contains('.')) by {
            if p.drop_last().contains('.') {
                let i = choose|i: int| 0 <= i < p.drop_last().len() && p.drop_last()[i] == '.';
                assert(p[i] == '.');
            }
        }
        lemma_split_last_dot_none(p.drop_last());
    }
}

/// A file name's extension is the text after its last `.`, however many
/// dots the name holds before it (`report.v2.pdf` has the extension `pdf`),
/// as long as something stands before that dot in the name.
pub proof fn law_extension_after_last_dot(stem: Seq<char>, e: Seq<char>)
    requires
        stem.len() > 0,
        !is_sep(stem.last()),
        stem.last() != ':',
        !(stem.len() >= 2 && is_sep(stem[0]) && is_sep(stem[1])),
        e.len() > 0,
        forall|i: int| 0 <= i < e.len() ==> e[i] != '.' && !is_sep(e[i]),
    ensures
        extension_of(stem + seq!['.'] + e) == Some(e),
{
    let p = stem + seq!['.'] + e;
    lemma_split_last_dot(stem, e);
    assert(p[0] == stem[0]);
    if stem.len() >= 2 {
        assert(p[1] == stem[1]);
    } else {
        assert(p[1] == '.');
    }
    assert(ext_shaped(p));
}

/// A path without any `.` has no extension.
pub proof fn law_no_dot_no_extension(p: Seq<char>)
    requires
        !p.contains('.'),
    ensures
        extension_of(p) is None,
{
    lemma_split_last_dot_none(p);
}

/// A file name without a `.` has no extension, whatever dots the
/// directories above it hold (`dir.d/file` has none).
pub proof fn law_undotted_name_no_extension(dir: Seq<char>, name: Seq<char>)
    requires
        name.len() > 0,
        forall|i: int| 0 <= i < name.len() ==> name[i] != '.' && name[i] != '/',
        !is_sep(name.last()),
        !(is_sep((dir + seq!['/'] + name)[0]) && is_sep((dir + seq!['/'] + name)[1])),
    ensures
        extension_of(dir + seq!['/'] + name) is None,
{
    let p = dir + seq!['/'] + name;
    lemma_split_append(dir, name, '/');
    assert(spec_split(p, '/').last() == name);
    assert(!name.contains('.'));
    assert(undotted_last_name(p));
    lemma_split_last_dot_append(dir, seq!['/'] + name);
    assert(dir + (seq!['/'] + name) =~= p);
    match split_last_dot(dir) {
        Some((q, e)) => {
            let e2 = e + (seq!['/'] + name);
            assert(e2[e.len() as int] == '/');
            assert(!ext_shaped(p));
        },
        None => {},
    }
}

/// A file name whose only `.` leads it (such as `.bashrc`) has no extension.
pub proof fn law_leading_dot_no_extension(dir: Seq<char>, name: Seq<char>)
    requires
        dir.len() == 0 || dir.last() == '/',
        !(dir.len() >= 2 && is_sep(dir[0]) && is_sep(dir[1])),
        name.len() > 0,
        forall|i: int| 0 <= i < name.len() ==> name[i] != '.' && !is_sep(name[i]),
    ensures
        extension_of(dir + seq!['.'] + name) is None,
{
    let p = dir + seq!['.'] + name;
    lemma_split_last_dot(dir, name);
    if dir.len() > 0 {
        assert(p[0] == dir[0]);
    } else {
        assert(p[0] == '.');
    }
    if dir.len() >= 2 {
        assert(p[1] == dir[1]);
    } else if dir.len() == 1 {
        assert(p[1] == '.');
    } else {
        assert(p[1] == name[0]);
    }
    assert(!ext_shaped(p));
    assert(leading_dot(p));
}

/// The filter looks at a file's last extension: a file `stem.ext` passes a
/// pattern with a part `*.x` whenever `x` and `ext` agree after lower-casing,
/// whatever dots the stem holds.
pub proof fn law_filter_matches_last_extension(
    stem: Seq<char>,
    e: Seq<char>,
    pattern: Seq<char>,
    i: int,
    x: Seq<char>,
)
    requires
        stem.len() > 0,
        !is_sep(stem.last()),
        stem.last() != ':',
        !(stem.len() >= 2 && is_sep(stem[0]) && is_sep(stem[1])),
        e.len() > 0,
        forall|k: int| 0 <= k < e.len() ==> e[k] != '.' && !is_sep(e[k]),
        0 <= i < spec_split(pattern, ';').len(),
        spec_trim(spec_split(pattern, ';')[i]) == seq!['*', '.'] + x,
        lowercase_of(x) == lowercase_of(e),
    ensures
        spec_matches_filter(stem + seq!['.'] + e, pattern),
{
    law_extension_after_last_dot(stem, e);
    let part = spec_trim(spec_split(pattern, ';')[i]);
    assert(part.skip(2) =~= x);
    assert(spec_strip_star_dot(part) == Some(x));
    assert(part_accepts(spec_split(pattern, ';')[i], lowercase_of(e)));
}

} // verus!
