use vstd::prelude::*;

use crate::diff::{
    added, added_list, diff_of, found_new, found_old, removed, removed_list, stepped_new,
    stepped_old, DiffView,
};
use crate::paths::{is_sep, join, lemma_split_path_nonempty, split_path};
use crate::tree::{first_index, lemma_first_index_found, lemma_first_index_props, resolve, Entry};

verus! {

/// A name that a path can carry: not empty, and free of separators.
pub open spec fn name_ok(n: Seq<char>) -> bool {
    n.len() > 0 && forall|k: int| 0 <= k < n.len() ==> !is_sep(#[trigger] n[k])
}

/// A well-formed tree: at every level names are usable in paths and unique among siblings.
pub open spec fn tree_wf(cs: Seq<Entry>) -> bool
    decreases cs,
{
    &&& forall|i: int| 0 <= i < cs.len() ==> name_ok(#[trigger] cs[i].name())
    &&& forall|i: int, j: int|
        0 <= i < j < cs.len() ==> (#[trigger] cs[i]).name() != (#[trigger] cs[j]).name()
    &&& forall|i: int|
        0 <= i < cs.len() ==> match #[trigger] cs[i] {
            Entry::Dir { children, .. } => tree_wf(children),
            Entry::File { .. } => true,
        }
}

/// The children of the directory at `prefix` in the tree `t` (the root for an empty prefix).
pub open spec fn at(t: Seq<Entry>, prefix: Seq<char>) -> Option<Seq<Entry>> {
    if prefix.len() == 0 {
        Some(t)
    } else {
        match resolve(t, split_path(prefix)) {
            Some(Entry::Dir { children, .. }) => Some(children),
            _ => None,
        }
    }
}

proof fn lemma_split_plain(x: Seq<char>, n: Seq<char>)
    requires
        forall|k: int| 0 <= k < n.len() ==> !is_sep(#[trigger] n[k]),
    ensures
        split_path(x + n) == split_path(x).update(
            split_path(x).len() - 1,
            split_path(x).last() + n,
        ),
    decreases n.len(),
{
    lemma_split_path_nonempty(x);
    if n.len() == 0 {
        assert(x + n =~= x);
        assert(split_path(x).last() + n =~= split_path(x).last());
        assert(split_path(x).update(split_path(x).len() - 1, split_path(x).last()) =~= split_path(x));
    } else {
        let n0 = n.drop_last();
        lemma_split_plain(x, n0);
        assert((x + n).drop_last() =~= x + n0);
        assert((x + n).last() == n.last());
        assert(!is_sep(n[n.len() - 1]));
        lemma_split_path_nonempty(x + n0);
        assert((split_path(x).last() + n0).push(n.last()) =~= split_path(x).last() + n);
        assert(split_path(x + n) =~= split_path(x).update(
            split_path(x).len() - 1,
            split_path(x).last() + n,
        ));
    }
}

pub(crate) proof fn lemma_split_join(prefix: Seq<char>, n: Seq<char>)
    requires
        name_ok(n),
    ensures
        prefix.len() == 0 ==> split_path(join(prefix, n)) == seq![n],
        prefix.len() > 0 ==> split_path(join(prefix, n)) == split_path(prefix).push(n),
{
    if prefix.len() == 0 {
        lemma_split_plain(Seq::empty(), n);
        assert(Seq::<char>::empty() + n =~= n);
        assert(seq![Seq::<char>::empty()].update(0, Seq::<char>::empty() + n) =~= seq![n]);
    } else {
        let a = prefix + seq!['/'];
        assert(a.drop_last() =~= prefix);
        lemma_split_path_nonempty(prefix);
        assert(split_path(a) == split_path(prefix).push(Seq::empty()));
        lemma_split_plain(a, n);
        assert(Seq::<char>::empty() + n =~= n);
        assert(split_path(prefix).push(Seq::empty()).update(split_path(prefix).len() as int, n) =~= split_path(
            prefix,
        ).push(n));
    }
}

pub(crate) proof fn lemma_resolve_push(t: Seq<Entry>, segs: Seq<Seq<char>>, n: Seq<char>)
    requires
        segs.len() > 0,
    ensures
        resolve(t, segs.push(n)) == match resolve(t, segs) {
            Some(Entry::Dir { children, .. }) => match first_index(children, n) {
                Some(j) => Some(children[j]),
                None => None,
            },
            _ => None,
        },
    decreases segs.len(),
{
    assert(segs.push(n)[0] == segs[0]);
    assert(segs.push(n).drop_first() =~= segs.drop_first().push(n));
    lemma_first_index_props(t, segs[0]);
    if segs.len() > 1 {
        match first_index(t, segs[0]) {
            Some(i) => match t[i] {
                Entry::Dir { children: c, .. } => {
                    lemma_resolve_push(c, segs.drop_first(), n);
                },
                Entry::File { .. } => {},
            },
            None => {},
        }
    } else {
        assert(segs.drop_first().push(n) =~= seq![n]);
    }
}

/// Where the child called `n` of the directory at `prefix` resolves.
pub(crate) proof fn lemma_resolve_join(t: Seq<Entry>, prefix: Seq<char>, c: Seq<Entry>, n: Seq<char>)
    requires
        at(t, prefix) == Some(c),
        name_ok(n),
    ensures
        resolve(t, split_path(join(prefix, n))) == match first_index(c, n) {
            Some(j) => Some(c[j]),
            None => None,
        },
{
    lemma_split_join(prefix, n);
    if prefix.len() == 0 {
        assert(seq![n].drop_first() =~= Seq::<Seq<char>>::empty());
    } else {
        lemma_split_path_nonempty(prefix);
        lemma_resolve_push(t, split_path(prefix), n);
    }
}

/// In a well-formed directory the `i`-th child is the one its name leads to.
pub(crate) proof fn lemma_child_found(c: Seq<Entry>, i: int)
    requires
        tree_wf(c),
        0 <= i < c.len(),
    ensures
        first_index(c, c[i].name()) == Some(i),
{
    assert forall|j: int| 0 <= j < i implies c[j].name() != c[i].name() by {
        assert(c[j].name() != c[i].name());
    }
    lemma_first_index_found(c, c[i].name(), i);
}

/// Whether `p` leads to a file in `t`.
pub open spec fn file_at(t: Seq<Entry>, p: Seq<char>) -> bool {
    resolve(t, split_path(p)) is Some && resolve(t, split_path(p))->0 is File
}

/// Whether `p` leads to a directory in `t`.
pub open spec fn dir_at(t: Seq<Entry>, p: Seq<char>) -> bool {
    resolve(t, split_path(p)) is Some && resolve(t, split_path(p))->0 is Dir
}

/// Every added path is a file, or a directory, of the live tree `l`, as recorded;
/// every removed path likewise of the recorded tree `m`.
pub open spec fn kinds_ok(d: DiffView, m: Seq<Entry>, l: Seq<Entry>) -> bool {
    &&& forall|i: int|
        0 <= i < d.new_files.len() ==> file_at(l, #[trigger] d.new_files[i])
    &&& forall|i: int|
        0 <= i < d.new_folders.len() ==> dir_at(l, #[trigger] d.new_folders[i])
    &&& forall|i: int|
        0 <= i < d.old_files.len() ==> file_at(m, #[trigger] d.old_files[i])
    &&& forall|i: int|
        0 <= i < d.old_folders.len() ==> dir_at(m, #[trigger] d.old_folders[i])
}

proof fn lemma_added_kinds(
    d: DiffView,
    e: Entry,
    p: Seq<char>,
    rules: Seq<(Seq<char>, bool)>,
    m: Seq<Entry>,
    l: Seq<Entry>,
)
    requires
        kinds_ok(d, m, l),
        p.len() > 0,
        resolve(l, split_path(p)) == Some(e),
        e is Dir ==> tree_wf(e->children),
    ensures
        kinds_ok(added(d, e, p, rules), m, l),
    decreases e,
{
    match e {
        Entry::File { .. } => {
            let d1 = DiffView { new_files: d.new_files.push(p), ..d };
            assert forall|i: int| 0 <= i < d1.new_files.len() implies file_at(l, #[trigger] d1.new_files[i]) by {
                if i < d.new_files.len() {
                    assert(d1.new_files[i] == d.new_files[i]);
                }
            }
        },
        Entry::Dir { children, .. } => {
            let d1 = DiffView { new_folders: d.new_folders.push(p), ..d };
            assert forall|i: int| 0 <= i < d1.new_folders.len() implies dir_at(l, #[trigger] d1.new_folders[i]) by {
                if i < d.new_folders.len() {
                    assert(d1.new_folders[i] == d.new_folders[i]);
                }
            }
            let d2 = crate::diff::with_new_folder(d, p, rules);
            lemma_added_list_kinds(d2, children, p, rules, m, l, children);
        },
    }
}

proof fn lemma_added_list_kinds(
    d: DiffView,
    cs: Seq<Entry>,
    prefix: Seq<char>,
    rules: Seq<(Seq<char>, bool)>,
    m: Seq<Entry>,
    l: Seq<Entry>,
    full: Seq<Entry>,
)
    requires
        kinds_ok(d, m, l),
        at(l, prefix) == Some(full),
        tree_wf(full),
        cs.len() <= full.len(),
        forall|j: int| 0 <= j < cs.len() ==> cs[j] == full[j],
    ensures
        kinds_ok(added_list(d, cs, prefix, rules), m, l),
    decreases cs,
{
    if cs.len() > 0 {
        let k = cs.len() - 1;
        let last = cs[k];
        lemma_added_list_kinds(d, cs.drop_last(), prefix, rules, m, l, full);
        assert(full[k] == last);
        lemma_child_found(full, k);
        lemma_resolve_join(l, prefix, full, last.name());
        assert(join(prefix, last.name()).len() > 0);
        assert(decreases_to!(cs => cs[k]));
        lemma_added_kinds(
            added_list(d, cs.drop_last(), prefix, rules),
            last,
            join(prefix, last.name()),
            rules,
            m,
            l,
        );
    }
}

proof fn lemma_removed_kinds(
    d: DiffView,
    e: Entry,
    p: Seq<char>,
    rules: Seq<(Seq<char>, bool)>,
    m: Seq<Entry>,
    l: Seq<Entry>,
)
    requires
        kinds_ok(d, m, l),
        p.len() > 0,
        resolve(m, split_path(p)) == Some(e),
        e is Dir ==> tree_wf(e->children),
    ensures
        kinds_ok(removed(d, e, p, rules), m, l),
    decreases e,
{
    match e {
        Entry::File { .. } => {
            let d1 = DiffView { old_files: d.old_files.push(p), ..d };
            assert forall|i: int| 0 <= i < d1.old_files.len() implies file_at(m, #[trigger] d1.old_files[i]) by {
                if i < d.old_files.len() {
                    assert(d1.old_files[i] == d.old_files[i]);
                }
            }
        },
        Entry::Dir { children, .. } => {
            lemma_removed_list_kinds(d, children, p, rules, m, l, children);
            let d1 = removed_list(d, children, p, rules);
            let d2 = DiffView { old_folders: d1.old_folders.push(p), ..d1 };
            assert forall|i: int| 0 <= i < d2.old_folders.len() implies dir_at(m, #[trigger] d2.old_folders[i]) by {
                if i < d1.old_folders.len() {
                    assert(d2.old_folders[i] == d1.old_folders[i]);
                }
            }
        },
    }
}

proof fn lemma_removed_list_kinds(
    d: DiffView,
    cs: Seq<Entry>,
    prefix: Seq<char>,
    rules: Seq<(Seq<char>, bool)>,
    m: Seq<Entry>,
    l: Seq<Entry>,
    full: Seq<Entry>,
)
    requires
        kinds_ok(d, m, l),
        at(m, prefix) == Some(full),
        tree_wf(full),
        cs.len() <= full.len(),
        forall|j: int| 0 <= j < cs.len() ==> cs[j] == full[j],
    ensures
        kinds_ok(removed_list(d, cs, prefix, rules), m, l),
    decreases cs,
{
    if cs.len() > 0 {
        let k = cs.len() - 1;
        let last = cs[k];
        lemma_removed_list_kinds(d, cs.drop_last(), prefix, rules, m, l, full);
        assert(full[k] == last);
        lemma_child_found(full, k);
        lemma_resolve_join(m, prefix, full, last.name());
        assert(join(prefix, last.name()).len() > 0);
        assert(decreases_to!(cs => cs[k]));
        lemma_removed_kinds(
            removed_list(d, cs.drop_last(), prefix, rules),
            last,
            join(prefix, last.name()),
            rules,
            m,
            l,
        );
    }
}

pub(crate) proof fn lemma_wf_child(c: Seq<Entry>, i: int)
    requires
        tree_wf(c),
        0 <= i < c.len(),
    ensures
        name_ok(c[i].name()),
        c[i] is Dir ==> tree_wf(c[i]->children),
{
    assert(name_ok(c[i].name()));
    assert(match c[i] {
        Entry::Dir { children, .. } => tree_wf(children),
        Entry::File { .. } => true,
    });
}

proof fn lemma_found_new_kinds(
    d: DiffView,
    m: Seq<Entry>,
    l: Seq<Entry>,
    prefix: Seq<char>,
    fast: bool,
    rules: Seq<(Seq<char>, bool)>,
    mt: Seq<Entry>,
    lt: Seq<Entry>,
    lfull: Seq<Entry>,
)
    requires
        kinds_ok(d, mt, lt),
        at(lt, prefix) == Some(lfull),
        tree_wf(lfull),
        l.len() <= lfull.len(),
        forall|j: int| 0 <= j < l.len() ==> l[j] == lfull[j],
        at(mt, prefix) == Some(m),
        tree_wf(m),
    ensures
        kinds_ok(found_new(d, m, l, prefix, fast, rules), mt, lt),
    decreases l,
{
    if l.len() > 0 {
        let k = l.len() - 1;
        lemma_found_new_kinds(d, m, l.drop_last(), prefix, fast, rules, mt, lt, lfull);
        assert(decreases_to!(l => l[k]));
        lemma_stepped_new_kinds(
            found_new(d, m, l.drop_last(), prefix, fast, rules),
            m,
            l[k],
            prefix,
            fast,
            rules,
            mt,
            lt,
            lfull,
            k,
        );
    }
}

proof fn lemma_stepped_new_kinds(
    d: DiffView,
    m: Seq<Entry>,
    t: Entry,
    prefix: Seq<char>,
    fast: bool,
    rules: Seq<(Seq<char>, bool)>,
    mt: Seq<Entry>,
    lt: Seq<Entry>,
    lfull: Seq<Entry>,
    k: int,
)
    requires
        kinds_ok(d, mt, lt),
        at(lt, prefix) == Some(lfull),
        tree_wf(lfull),
        0 <= k < lfull.len(),
        t == lfull[k],
        at(mt, prefix) == Some(m),
        tree_wf(m),
    ensures
        kinds_ok(stepped_new(d, m, t, prefix, fast, rules), mt, lt),
    decreases t,
{
    let p = join(prefix, t.name());
    lemma_wf_child(lfull, k);
    lemma_child_found(lfull, k);
    lemma_resolve_join(lt, prefix, lfull, t.name());
    lemma_resolve_join(mt, prefix, m, t.name());
    assert(p.len() > 0);
    match first_index(m, t.name()) {
        None => {
            lemma_added_kinds(d, t, p, rules, mt, lt);
        },
        Some(j) => {
            lemma_first_index_props(m, t.name());
            lemma_wf_child(m, j);
            lemma_removed_kinds(d, m[j], p, rules, mt, lt);
            lemma_added_kinds(removed(d, m[j], p, rules), t, p, rules, mt, lt);
            match (t, m[j]) {
                (Entry::Dir { children: lc, .. }, Entry::Dir { children: mc, .. }) => {
                    assert(at(lt, p) == Some(lc));
                    assert(at(mt, p) == Some(mc));
                    lemma_found_new_kinds(d, mc, lc, p, fast, rules, mt, lt, lc);
                },
                _ => {},
            }
        },
    }
}

proof fn lemma_found_old_kinds(
    d: DiffView,
    m: Seq<Entry>,
    l: Seq<Entry>,
    prefix: Seq<char>,
    rules: Seq<(Seq<char>, bool)>,
    mt: Seq<Entry>,
    lt: Seq<Entry>,
    mfull: Seq<Entry>,
)
    requires
        kinds_ok(d, mt, lt),
        at(mt, prefix) == Some(mfull),
        tree_wf(mfull),
        m.len() <= mfull.len(),
        forall|j: int| 0 <= j < m.len() ==> m[j] == mfull[j],
        at(lt, prefix) == Some(l),
        tree_wf(l),
    ensures
        kinds_ok(found_old(d, m, l, prefix, rules), mt, lt),
    decreases m,
{
    if m.len() > 0 {
        let k = m.len() - 1;
        lemma_found_old_kinds(d, m.drop_last(), l, prefix, rules, mt, lt, mfull);
        assert(decreases_to!(m => m[k]));
        lemma_stepped_old_kinds(
            found_old(d, m.drop_last(), l, prefix, rules),
            m[k],
            l,
            prefix,
            rules,
            mt,
            lt,
            mfull,
            k,
        );
    }
}

proof fn lemma_stepped_old_kinds(
    d: DiffView,
    f: Entry,
    l: Seq<Entry>,
    prefix: Seq<char>,
    rules: Seq<(Seq<char>, bool)>,
    mt: Seq<Entry>,
    lt: Seq<Entry>,
    mfull: Seq<Entry>,
    k: int,
)
    requires
        kinds_ok(d, mt, lt),
        at(mt, prefix) == Some(mfull),
        tree_wf(mfull),
        0 <= k < mfull.len(),
        f == mfull[k],
        at(lt, prefix) == Some(l),
        tree_wf(l),
    ensures
        kinds_ok(stepped_old(d, f, l, prefix, rules), mt, lt),
    decreases f,
{
    let p = join(prefix, f.name());
    lemma_wf_child(mfull, k);
    lemma_child_found(mfull, k);
    lemma_resolve_join(mt, prefix, mfull, f.name());
    lemma_resolve_join(lt, prefix, l, f.name());
    assert(p.len() > 0);
    match first_index(l, f.name()) {
        None => {
            lemma_removed_kinds(d, f, p, rules, mt, lt);
        },
        Some(j) => {
            lemma_first_index_props(l, f.name());
            lemma_wf_child(l, j);
            match (f, l[j]) {
                (Entry::Dir { children: fc, .. }, Entry::Dir { children: lc, .. }) => {
                    assert(at(mt, p) == Some(fc));
                    assert(at(lt, p) == Some(lc));
                    lemma_found_old_kinds(d, fc, lc, p, rules, mt, lt, fc);
                },
                _ => {},
            }
        },
    }
}

/// Partition: between well-formed trees, no path is reported both as an added
/// file and as an added directory, nor both as a removed file and as a removed
/// directory.
pub proof fn lemma_partition(m: Seq<Entry>, l: Seq<Entry>, fast: bool, rules: Seq<(Seq<char>, bool)>)
    requires
        tree_wf(m),
        tree_wf(l),
    ensures
        forall|i: int, j: int|
            0 <= i < diff_of(m, l, fast, rules).new_files.len() && 0 <= j < diff_of(
                m,
                l,
                fast,
                rules,
            ).new_folders.len() ==> diff_of(m, l, fast, rules).new_files[i] != diff_of(
                m,
                l,
                fast,
                rules,
            ).new_folders[j],
        forall|i: int, j: int|
            0 <= i < diff_of(m, l, fast, rules).old_files.len() && 0 <= j < diff_of(
                m,
                l,
                fast,
                rules,
            ).old_folders.len() ==> diff_of(m, l, fast, rules).old_files[i] != diff_of(
                m,
                l,
                fast,
                rules,
            ).old_folders[j],
{
    let e = DiffView::empty();
    let empty: Seq<char> = Seq::empty();
    lemma_found_new_kinds(e, m, l, empty, fast, rules, m, l, l);
    let d1 = found_new(e, m, l, empty, fast, rules);
    lemma_found_old_kinds(d1, m, l, empty, rules, m, l, m);
    let d = diff_of(m, l, fast, rules);
    assert(kinds_ok(d, m, l));
    assert forall|i: int, j: int|
        0 <= i < d.new_files.len() && 0 <= j < d.new_folders.len() implies d.new_files[i]
        != d.new_folders[j] by {
        assert(file_at(l, d.new_files[i]));
        assert(dir_at(l, d.new_folders[j]));
    }
    assert forall|i: int, j: int|
        0 <= i < d.old_files.len() && 0 <= j < d.old_folders.len() implies d.old_files[i]
        != d.old_folders[j] by {
        assert(file_at(m, d.old_files[i]));
        assert(dir_at(m, d.old_folders[j]));
    }
}

} // verus!
