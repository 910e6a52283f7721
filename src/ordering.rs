use vstd::prelude::*;

use crate::diff::{
    added, added_list, diff_of, found_new, found_old, passes, removed, removed_list, stepped_new,
    stepped_old, DiffView,
};
use crate::partition::{
    at, dir_at, file_at, lemma_resolve_join, lemma_resolve_push, lemma_split_join,
    lemma_wf_child, name_ok, tree_wf,
};
use crate::paths::{join, split_path};
use crate::tree::{first_index, lemma_first_index_props, resolve, Entry};

verus! {

pub open spec fn seq_extends(a: Seq<Seq<char>>, b: Seq<Seq<char>>) -> bool {
    a.len() <= b.len() && forall|i: int| 0 <= i < a.len() ==> #[trigger] b[i] == a[i]
}

/// `b` keeps every path of `a`, in place, and may add more after them.
pub open spec fn extends(a: DiffView, b: DiffView) -> bool {
    &&& seq_extends(a.old_files, b.old_files)
    &&& seq_extends(a.old_folders, b.old_folders)
    &&& seq_extends(a.new_files, b.new_files)
    &&& seq_extends(a.new_folders, b.new_folders)
}

proof fn lemma_extends_trans(a: DiffView, b: DiffView, c: DiffView)
    requires
        extends(a, b),
        extends(b, c),
    ensures
        extends(a, c),
{
}

proof fn lemma_push_extends(s: Seq<Seq<char>>, p: Seq<char>)
    ensures
        seq_extends(s, s.push(p)),
        s.push(p).contains(p),
{
    assert(s.push(p)[s.len() as int] == p);
}

proof fn lemma_extends_contains(a: Seq<Seq<char>>, b: Seq<Seq<char>>, p: Seq<char>)
    requires
        seq_extends(a, b),
        a.contains(p),
    ensures
        b.contains(p),
{
    let i = choose|i: int| 0 <= i < a.len() && a[i] == p;
    assert(b[i] == p);
}

proof fn lemma_added_extends(d: DiffView, e: Entry, p: Seq<char>, rules: Seq<(Seq<char>, bool)>)
    ensures
        extends(d, added(d, e, p, rules)),
    decreases e,
{
    match e {
        Entry::File { .. } => {
            lemma_push_extends(d.new_files, p);
        },
        Entry::Dir { children, .. } => {
            lemma_push_extends(d.new_folders, p);
            lemma_added_list_extends(crate::diff::with_new_folder(d, p, rules), children, p, rules);
        },
    }
}

proof fn lemma_added_list_extends(d: DiffView, cs: Seq<Entry>, prefix: Seq<char>, rules: Seq<(Seq<char>, bool)>)
    ensures
        extends(d, added_list(d, cs, prefix, rules)),
    decreases cs,
{
    if cs.len() > 0 {
        let last = cs[cs.len() - 1];
        lemma_added_list_extends(d, cs.drop_last(), prefix, rules);
        lemma_added_extends(added_list(d, cs.drop_last(), prefix, rules), last, join(prefix, last.name()), rules);
    }
}

proof fn lemma_removed_extends(d: DiffView, e: Entry, p: Seq<char>, rules: Seq<(Seq<char>, bool)>)
    ensures
        extends(d, removed(d, e, p, rules)),
    decreases e,
{
    match e {
        Entry::File { .. } => {
            lemma_push_extends(d.old_files, p);
        },
        Entry::Dir { children, .. } => {
            lemma_removed_list_extends(d, children, p, rules);
            lemma_push_extends(removed_list(d, children, p, rules).old_folders, p);
        },
    }
}

proof fn lemma_removed_list_extends(d: DiffView, cs: Seq<Entry>, prefix: Seq<char>, rules: Seq<(Seq<char>, bool)>)
    ensures
        extends(d, removed_list(d, cs, prefix, rules)),
    decreases cs,
{
    if cs.len() > 0 {
        let last = cs[cs.len() - 1];
        lemma_removed_list_extends(d, cs.drop_last(), prefix, rules);
        lemma_removed_extends(removed_list(d, cs.drop_last(), prefix, rules), last, join(prefix, last.name()), rules);
    }
}

proof fn lemma_found_new_extends(
    d: DiffView,
    m: Seq<Entry>,
    l: Seq<Entry>,
    prefix: Seq<char>,
    fast: bool,
    rules: Seq<(Seq<char>, bool)>,
)
    ensures
        extends(d, found_new(d, m, l, prefix, fast, rules)),
    decreases l,
{
    if l.len() > 0 {
        lemma_found_new_extends(d, m, l.drop_last(), prefix, fast, rules);
        lemma_stepped_new_extends(found_new(d, m, l.drop_last(), prefix, fast, rules), m, l[l.len() - 1], prefix, fast, rules);
    }
}

proof fn lemma_stepped_new_extends(
    d: DiffView,
    m: Seq<Entry>,
    t: Entry,
    prefix: Seq<char>,
    fast: bool,
    rules: Seq<(Seq<char>, bool)>,
)
    ensures
        extends(d, stepped_new(d, m, t, prefix, fast, rules)),
    decreases t,
{
    let p = join(prefix, t.name());
    match first_index(m, t.name()) {
        None => lemma_added_extends(d, t, p, rules),
        Some(j) => {
            lemma_removed_extends(d, m[j], p, rules);
            lemma_added_extends(removed(d, m[j], p, rules), t, p, rules);
            match (t, m[j]) {
                (Entry::Dir { children: lc, .. }, Entry::Dir { children: mc, .. }) => {
                    lemma_found_new_extends(d, mc, lc, p, fast, rules);
                },
                _ => {},
            }
        },
    }
}

proof fn lemma_found_old_extends(
    d: DiffView,
    m: Seq<Entry>,
    l: Seq<Entry>,
    prefix: Seq<char>,
    rules: Seq<(Seq<char>, bool)>,
)
    ensures
        extends(d, found_old(d, m, l, prefix, rules)),
    decreases m,
{
    if m.len() > 0 {
        lemma_found_old_extends(d, m.drop_last(), l, prefix, rules);
        lemma_stepped_old_extends(found_old(d, m.drop_last(), l, prefix, rules), m[m.len() - 1], l, prefix, rules);
    }
}

proof fn lemma_stepped_old_extends(
    d: DiffView,
    f: Entry,
    l: Seq<Entry>,
    prefix: Seq<char>,
    rules: Seq<(Seq<char>, bool)>,
)
    ensures
        extends(d, stepped_old(d, f, l, prefix, rules)),
    decreases f,
{
    let p = join(prefix, f.name());
    match first_index(l, f.name()) {
        None => lemma_removed_extends(d, f, p, rules),
        Some(j) => match (f, l[j]) {
            (Entry::Dir { children: fc, .. }, Entry::Dir { children: lc, .. }) => {
                lemma_found_old_extends(d, fc, lc, p, rules);
            },
            _ => {},
        },
    }
}

/// The step for the `k`-th live child survives, in place, in the whole pass.
proof fn lemma_step_embedded(
    d: DiffView,
    m: Seq<Entry>,
    l: Seq<Entry>,
    k: int,
    prefix: Seq<char>,
    fast: bool,
    rules: Seq<(Seq<char>, bool)>,
)
    requires
        0 <= k < l.len(),
    ensures
        extends(
            stepped_new(found_new(d, m, l.take(k), prefix, fast, rules), m, l[k], prefix, fast, rules),
            found_new(d, m, l, prefix, fast, rules),
        ),
    decreases l.len(),
{
    if k == l.len() - 1 {
        assert(l.drop_last() =~= l.take(k));
    } else {
        let l0 = l.drop_last();
        assert(l0.take(k) =~= l.take(k));
        assert(l0[k] == l[k]);
        lemma_step_embedded(d, m, l0, k, prefix, fast, rules);
        lemma_stepped_new_extends(found_new(d, m, l0, prefix, fast, rules), m, l[l.len() - 1], prefix, fast, rules);
    }
}

/// A live child whose recorded namesake is of the other kind is reported
/// removed as the old kind and added as the new one.
proof fn lemma_type_step(
    d: DiffView,
    m: Seq<Entry>,
    t: Entry,
    prefix: Seq<char>,
    fast: bool,
    rules: Seq<(Seq<char>, bool)>,
    j: int,
)
    requires
        first_index(m, t.name()) == Some(j),
        (t is File) != (m[j] is File),
        passes(rules, join(prefix, t.name())),
        t.name().len() > 0,
    ensures
        ({
            let r = stepped_new(d, m, t, prefix, fast, rules);
            let p = join(prefix, t.name());
            &&& m[j] is File ==> r.old_files.contains(p)
            &&& m[j] is Dir ==> r.old_folders.contains(p)
            &&& t is File ==> r.new_files.contains(p)
            &&& t is Dir ==> r.new_folders.contains(p)
        }),
{
    let p = join(prefix, t.name());
    let r1 = removed(d, m[j], p, rules);
    match m[j] {
        Entry::File { .. } => {
            lemma_push_extends(d.old_files, p);
        },
        Entry::Dir { children, .. } => {
            lemma_push_extends(removed_list(d, children, p, rules).old_folders, p);
        },
    }
    lemma_added_extends(r1, t, p, rules);
    let r2 = added(r1, t, p, rules);
    if m[j] is File {
        lemma_extends_contains(r1.old_files, r2.old_files, p);
    } else {
        lemma_extends_contains(r1.old_folders, r2.old_folders, p);
    }
    match t {
        Entry::File { .. } => {
            lemma_push_extends(r1.new_files, p);
        },
        Entry::Dir { children, .. } => {
            let d1 = crate::diff::with_new_folder(r1, p, rules);
            lemma_push_extends(r1.new_folders, p);
            assert(p.len() > 0);
            assert(d1.new_folders.contains(p));
            lemma_added_list_extends(d1, children, p, rules);
            lemma_extends_contains(d1.new_folders, r2.new_folders, p);
        },
    }
}

/// The path made of the segments `segs`, each joined under the one before.
pub open spec fn join_all(segs: Seq<Seq<char>>) -> Seq<char>
    decreases segs.len(),
{
    if segs.len() == 0 {
        Seq::empty()
    } else {
        join(join_all(segs.drop_last()), segs.last())
    }
}

pub open spec fn names_ok(segs: Seq<Seq<char>>) -> bool {
    forall|i: int| 0 <= i < segs.len() ==> name_ok(#[trigger] segs[i])
}

proof fn lemma_split_join_all(segs: Seq<Seq<char>>)
    requires
        names_ok(segs),
    ensures
        segs.len() > 0 ==> join_all(segs).len() > 0 && split_path(join_all(segs)) == segs,
        segs.len() == 0 ==> join_all(segs).len() == 0,
    decreases segs.len(),
{
    if segs.len() > 0 {
        let s0 = segs.drop_last();
        assert(name_ok(segs[segs.len() - 1]));
        lemma_split_join_all(s0);
        lemma_split_join(join_all(s0), segs.last());
        if s0.len() == 0 {
            assert(segs =~= seq![segs.last()]);
        } else {
            assert(segs =~= s0.push(segs.last()));
        }
    }
}

/// The directory that `segs` leads to in both trees, reached through
/// directories of both, is compared by the additions pass from some state on.
proof fn lemma_reach(
    m: Seq<Entry>,
    l: Seq<Entry>,
    fast: bool,
    rules: Seq<(Seq<char>, bool)>,
    segs: Seq<Seq<char>>,
)
    requires
        tree_wf(m),
        tree_wf(l),
        names_ok(segs),
        at(m, join_all(segs)) is Some,
        at(l, join_all(segs)) is Some,
    ensures
        tree_wf(at(m, join_all(segs))->0),
        tree_wf(at(l, join_all(segs))->0),
        exists|x: DiffView|
            extends(
                #[trigger] found_new(
                    x,
                    at(m, join_all(segs))->0,
                    at(l, join_all(segs))->0,
                    join_all(segs),
                    fast,
                    rules,
                ),
                found_new(DiffView::empty(), m, l, Seq::empty(), fast, rules),
            ),
    decreases segs.len(),
{
    let root = found_new(DiffView::empty(), m, l, Seq::empty(), fast, rules);
    if segs.len() == 0 {
        assert(join_all(segs) =~= Seq::<char>::empty());
        assert(at(m, join_all(segs))->0 == m);
        assert(at(l, join_all(segs))->0 == l);
        assert(extends(
            found_new(DiffView::empty(), at(m, join_all(segs))->0, at(l, join_all(segs))->0, join_all(segs), fast, rules),
            root,
        ));
    } else {
        let s0 = segs.drop_last();
        let n = segs.last();
        let q0 = join_all(s0);
        let q = join_all(segs);
        assert(name_ok(segs[segs.len() - 1]));
        assert(names_ok(s0));
        lemma_split_join_all(segs);
        lemma_split_join_all(s0);
        // the parent directory is there in both trees
        if s0.len() > 0 {
            assert(segs =~= s0.push(n));
            lemma_resolve_push(m, s0, n);
            lemma_resolve_push(l, s0, n);
        }
        assert(at(m, q0) is Some);
        assert(at(l, q0) is Some);
        lemma_reach(m, l, fast, rules, s0);
        let mq0 = at(m, q0)->0;
        let lq0 = at(l, q0)->0;
        let x = choose|x: DiffView|
            extends(#[trigger] found_new(x, mq0, lq0, q0, fast, rules), root);
        lemma_resolve_join(m, q0, mq0, n);
        lemma_resolve_join(l, q0, lq0, n);
        lemma_first_index_props(mq0, n);
        lemma_first_index_props(lq0, n);
        let j = first_index(mq0, n)->0;
        let k = first_index(lq0, n)->0;
        lemma_wf_child(mq0, j);
        lemma_wf_child(lq0, k);
        let y = found_new(x, mq0, lq0.take(k), q0, fast, rules);
        lemma_step_embedded(x, mq0, lq0, k, q0, fast, rules);
        assert(lq0[k].name() == n);
        assert(stepped_new(y, mq0, lq0[k], q0, fast, rules) == found_new(
            y,
            at(m, q)->0,
            at(l, q)->0,
            q,
            fast,
            rules,
        ));
        lemma_extends_trans(
            found_new(y, at(m, q)->0, at(l, q)->0, q, fast, rules),
            found_new(x, mq0, lq0, q0, fast, rules),
            root,
        );
        assert(extends(found_new(y, at(m, join_all(segs))->0, at(l, join_all(segs))->0, join_all(segs), fast, rules), root));
    }
}

/// Type changes: when the node at `p` is a file in one run and a directory in
/// the other, while its parent directory is a directory in both, `p` is
/// reported removed as its old kind and added as its new kind, so a delete
/// precedes the create (given that the filter lets `p` through).
pub proof fn lemma_type_change_reported(
    m: Seq<Entry>,
    l: Seq<Entry>,
    fast: bool,
    rules: Seq<(Seq<char>, bool)>,
    parent: Seq<Seq<char>>,
    n: Seq<char>,
)
    requires
        tree_wf(m),
        tree_wf(l),
        names_ok(parent),
        name_ok(n),
        at(m, join_all(parent)) is Some,
        at(l, join_all(parent)) is Some,
        passes(rules, join(join_all(parent), n)),
    ensures
        file_at(m, join(join_all(parent), n)) && dir_at(l, join(join_all(parent), n)) ==> diff_of(
            m,
            l,
            fast,
            rules,
        ).old_files.contains(join(join_all(parent), n)) && diff_of(m, l, fast, rules).new_folders.contains(
            join(join_all(parent), n),
        ),
        dir_at(m, join(join_all(parent), n)) && file_at(l, join(join_all(parent), n)) ==> diff_of(
            m,
            l,
            fast,
            rules,
        ).old_folders.contains(join(join_all(parent), n)) && diff_of(m, l, fast, rules).new_files.contains(
            join(join_all(parent), n),
        ),
{
    let q = join_all(parent);
    let p = join(q, n);
    let e = DiffView::empty();
    let root = found_new(e, m, l, Seq::empty(), fast, rules);
    let d = diff_of(m, l, fast, rules);
    lemma_found_old_extends(root, m, l, Seq::empty(), rules);
    if (file_at(m, p) && dir_at(l, p)) || (dir_at(m, p) && file_at(l, p)) {
        lemma_reach(m, l, fast, rules, parent);
        let mq = at(m, q)->0;
        let lq = at(l, q)->0;
        let x = choose|x: DiffView| extends(#[trigger] found_new(x, mq, lq, q, fast, rules), root);
        lemma_resolve_join(m, q, mq, n);
        lemma_resolve_join(l, q, lq, n);
        lemma_first_index_props(mq, n);
        lemma_first_index_props(lq, n);
        let j = first_index(mq, n)->0;
        let k = first_index(lq, n)->0;
        let y = found_new(x, mq, lq.take(k), q, fast, rules);
        lemma_step_embedded(x, mq, lq, k, q, fast, rules);
        assert(lq[k].name() == n);
        lemma_type_step(y, mq, lq[k], q, fast, rules, j);
        let st = stepped_new(y, mq, lq[k], q, fast, rules);
        lemma_extends_trans(st, found_new(x, mq, lq, q, fast, rules), root);
        lemma_extends_trans(st, root, d);
        if file_at(m, p) {
            lemma_extends_contains(st.old_files, d.old_files, p);
            lemma_extends_contains(st.new_folders, d.new_folders, p);
        } else {
            lemma_extends_contains(st.old_folders, d.old_folders, p);
            lemma_extends_contains(st.new_files, d.new_files, p);
        }
    }
}

/// The removals step for the `k`-th recorded child survives, in place, in the whole pass.
proof fn lemma_old_step_embedded(
    d: DiffView,
    m: Seq<Entry>,
    l: Seq<Entry>,
    k: int,
    prefix: Seq<char>,
    rules: Seq<(Seq<char>, bool)>,
)
    requires
        0 <= k < m.len(),
    ensures
        extends(
            stepped_old(found_old(d, m.take(k), l, prefix, rules), m[k], l, prefix, rules),
            found_old(d, m, l, prefix, rules),
        ),
    decreases m.len(),
{
    if k == m.len() - 1 {
        assert(m.drop_last() =~= m.take(k));
    } else {
        let m0 = m.drop_last();
        assert(m0.take(k) =~= m.take(k));
        assert(m0[k] == m[k]);
        lemma_old_step_embedded(d, m0, l, k, prefix, rules);
        lemma_stepped_old_extends(found_old(d, m0, l, prefix, rules), m[m.len() - 1], l, prefix, rules);
    }
}

/// The directory that `segs` leads to in both trees, reached through
/// directories of both, is compared by the removals pass from some state on.
proof fn lemma_reach_old(
    m: Seq<Entry>,
    l: Seq<Entry>,
    rules: Seq<(Seq<char>, bool)>,
    segs: Seq<Seq<char>>,
    d0: DiffView,
)
    requires
        tree_wf(m),
        tree_wf(l),
        names_ok(segs),
        at(m, join_all(segs)) is Some,
        at(l, join_all(segs)) is Some,
    ensures
        exists|y: DiffView|
            extends(
                #[trigger] found_old(y, at(m, join_all(segs))->0, at(l, join_all(segs))->0, join_all(segs), rules),
                found_old(d0, m, l, Seq::empty(), rules),
            ),
    decreases segs.len(),
{
    let root = found_old(d0, m, l, Seq::empty(), rules);
    if segs.len() == 0 {
        assert(join_all(segs) =~= Seq::<char>::empty());
        assert(at(m, join_all(segs))->0 == m);
        assert(at(l, join_all(segs))->0 == l);
        assert(extends(
            found_old(d0, at(m, join_all(segs))->0, at(l, join_all(segs))->0, join_all(segs), rules),
            root,
        ));
    } else {
        let s0 = segs.drop_last();
        let n = segs.last();
        let q0 = join_all(s0);
        let q = join_all(segs);
        assert(name_ok(segs[segs.len() - 1]));
        assert(names_ok(s0));
        lemma_split_join_all(segs);
        lemma_split_join_all(s0);
        if s0.len() > 0 {
            assert(segs =~= s0.push(n));
            lemma_resolve_push(m, s0, n);
            lemma_resolve_push(l, s0, n);
        }
        assert(at(m, q0) is Some);
        assert(at(l, q0) is Some);
        lemma_reach_old(m, l, rules, s0, d0);
        let mq0 = at(m, q0)->0;
        let lq0 = at(l, q0)->0;
        let y = choose|y: DiffView| extends(#[trigger] found_old(y, mq0, lq0, q0, rules), root);
        lemma_resolve_join(m, q0, mq0, n);
        lemma_resolve_join(l, q0, lq0, n);
        lemma_first_index_props(mq0, n);
        lemma_first_index_props(lq0, n);
        let j = first_index(mq0, n)->0;
        let z = found_old(y, mq0.take(j), lq0, q0, rules);
        lemma_old_step_embedded(y, mq0, lq0, j, q0, rules);
        assert(mq0[j].name() == n);
        assert(stepped_old(z, mq0[j], lq0, q0, rules) == found_old(
            z,
            at(m, q)->0,
            at(l, q)->0,
            q,
            rules,
        ));
        lemma_extends_trans(
            found_old(z, at(m, q)->0, at(l, q)->0, q, rules),
            found_old(y, mq0, lq0, q0, rules),
            root,
        );
        assert(extends(found_old(z, at(m, join_all(segs))->0, at(l, join_all(segs))->0, join_all(segs), rules), root));
    }
}

/// `p` followed by the segments `rest`, each joined under the one before.
pub open spec fn join_under(p: Seq<char>, rest: Seq<Seq<char>>) -> Seq<char>
    decreases rest.len(),
{
    if rest.len() == 0 {
        p
    } else {
        join_under(join(p, rest[0]), rest.drop_first())
    }
}

proof fn lemma_removed_list_embedded(
    d: DiffView,
    cs: Seq<Entry>,
    prefix: Seq<char>,
    rules: Seq<(Seq<char>, bool)>,
    k: int,
)
    requires
        0 <= k < cs.len(),
    ensures
        extends(
            removed(removed_list(d, cs.take(k), prefix, rules), cs[k], join(prefix, cs[k].name()), rules),
            removed_list(d, cs, prefix, rules),
        ),
    decreases cs.len(),
{
    if k == cs.len() - 1 {
        assert(cs.drop_last() =~= cs.take(k));
    } else {
        let c0 = cs.drop_last();
        assert(c0.take(k) =~= cs.take(k));
        assert(c0[k] == cs[k]);
        lemma_removed_list_embedded(d, c0, prefix, rules, k);
        let last = cs[cs.len() - 1];
        lemma_removed_extends(removed_list(d, c0, prefix, rules), last, join(prefix, last.name()), rules);
    }
}

/// Removing a directory reports every file below it, under its full path.
proof fn lemma_removed_covers(
    d: DiffView,
    e: Entry,
    p: Seq<char>,
    rules: Seq<(Seq<char>, bool)>,
    rest: Seq<Seq<char>>,
)
    requires
        e is Dir,
        rest.len() > 0,
        resolve(e->children, rest) matches Some(f) && f is File,
        passes(rules, join_under(p, rest)),
    ensures
        removed(d, e, p, rules).old_files.contains(join_under(p, rest)),
    decreases e,
{
    let cs = e->children;
    let a = rest[0];
    lemma_first_index_props(cs, a);
    let k = first_index(cs, a)->0;
    let c = cs[k];
    let x = removed_list(d, cs.take(k), p, rules);
    let pa = join(p, a);
    assert(c.name() == a);
    if rest.len() == 1 {
        assert(rest.drop_first() =~= Seq::<Seq<char>>::empty());
        assert(join_under(pa, rest.drop_first()) == pa);
        assert(join_under(p, rest) == pa);
        lemma_push_extends(x.old_files, pa);
    } else {
        assert(resolve(c->children, rest.drop_first()) == resolve(cs, rest));
        assert(decreases_to!(e => cs));
        assert(decreases_to!(cs => cs[k]));
        lemma_removed_covers(x, c, pa, rules, rest.drop_first());
    }
    lemma_removed_list_embedded(d, cs, p, rules, k);
    let r1 = removed(x, c, pa, rules);
    let d1 = removed_list(d, cs, p, rules);
    lemma_extends_contains(r1.old_files, d1.old_files, join_under(p, rest));
    lemma_removed_extends(d, e, p, rules);
    let dp = DiffView { old_folders: d1.old_folders.push(p), ..d1 };
    assert(removed(d, e, p, rules) == d1 || removed(d, e, p, rules) == dp);
}

/// Removed directories: when the directory at `q/n` (its parent a directory
/// in both runs) has no live counterpart, every file below it, at the
/// relative segments `rest`, is reported removed under its full path (given
/// that the filter lets that path through).
pub proof fn lemma_removed_directory_reported(
    m: Seq<Entry>,
    l: Seq<Entry>,
    fast: bool,
    rules: Seq<(Seq<char>, bool)>,
    parent: Seq<Seq<char>>,
    n: Seq<char>,
    dname: Seq<char>,
    dc: Seq<Entry>,
    rest: Seq<Seq<char>>,
)
    requires
        tree_wf(m),
        tree_wf(l),
        names_ok(parent),
        name_ok(n),
        at(m, join_all(parent)) is Some,
        at(l, join_all(parent)) is Some,
        first_index(at(l, join_all(parent))->0, n) is None,
        resolve(m, split_path(join(join_all(parent), n))) == Some(Entry::Dir { name: dname, children: dc }),
        rest.len() > 0,
        resolve(dc, rest) matches Some(f) && f is File,
        passes(rules, join_under(join(join_all(parent), n), rest)),
    ensures
        diff_of(m, l, fast, rules).old_files.contains(join_under(join(join_all(parent), n), rest)),
{
    let q = join_all(parent);
    let p = join(q, n);
    let target = join_under(p, rest);
    let d1 = found_new(DiffView::empty(), m, l, Seq::empty(), fast, rules);
    let d = diff_of(m, l, fast, rules);
    lemma_reach_old(m, l, rules, parent, d1);
    let mq = at(m, q)->0;
    let lq = at(l, q)->0;
    let y = choose|y: DiffView| extends(#[trigger] found_old(y, mq, lq, q, rules), d);
    lemma_resolve_join(m, q, mq, n);
    lemma_first_index_props(mq, n);
    let j = first_index(mq, n)->0;
    let z = found_old(y, mq.take(j), lq, q, rules);
    lemma_old_step_embedded(y, mq, lq, j, q, rules);
    assert(mq[j].name() == n);
    assert(stepped_old(z, mq[j], lq, q, rules) == removed(z, mq[j], p, rules));
    lemma_removed_covers(z, mq[j], p, rules, rest);
    let st = removed(z, mq[j], p, rules);
    lemma_extends_trans(st, found_old(y, mq, lq, q, rules), d);
    lemma_extends_contains(st.old_files, d.old_files, target);
}

} // verus!
