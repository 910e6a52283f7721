use vstd::prelude::*;

use crate::diff::{
    added, added_list, diff_of, found_new, found_old, passes, removed, removed_list, stepped_new,
    stepped_old, DiffView,
};
use crate::partition::{lemma_child_found, lemma_wf_child, tree_wf};
use crate::tree::{first_index, Entry};

verus! {

/// Every path that `d` records passes the filter `rules`.
pub open spec fn all_pass(d: DiffView, rules: Seq<(Seq<char>, bool)>) -> bool {
    &&& forall|i: int| 0 <= i < d.old_files.len() ==> passes(rules, #[trigger] d.old_files[i])
    &&& forall|i: int| 0 <= i < d.old_folders.len() ==> passes(rules, #[trigger] d.old_folders[i])
    &&& forall|i: int| 0 <= i < d.new_files.len() ==> passes(rules, #[trigger] d.new_files[i])
    &&& forall|i: int| 0 <= i < d.new_folders.len() ==> passes(rules, #[trigger] d.new_folders[i])
}

proof fn lemma_added_pass(d: DiffView, e: Entry, p: Seq<char>, rules: Seq<(Seq<char>, bool)>)
    requires
        all_pass(d, rules),
    ensures
        all_pass(added(d, e, p, rules), rules),
    decreases e,
{
    match e {
        Entry::File { .. } => {
            if passes(rules, p) {
                let d1 = DiffView { new_files: d.new_files.push(p), ..d };
                assert forall|i: int| 0 <= i < d1.new_files.len() implies passes(
                    rules,
                    #[trigger] d1.new_files[i],
                ) by {
                    if i < d.new_files.len() {
                        assert(d1.new_files[i] == d.new_files[i]);
                    }
                }
            }
        },
        Entry::Dir { children, .. } => {
            let d1 = crate::diff::with_new_folder(d, p, rules);
            assert forall|i: int| 0 <= i < d1.new_folders.len() implies passes(
                rules,
                #[trigger] d1.new_folders[i],
            ) by {
                if i < d.new_folders.len() {
                    assert(d1.new_folders[i] == d.new_folders[i]);
                }
            }
            lemma_added_list_pass(d1, children, p, rules);
        },
    }
}

proof fn lemma_added_list_pass(
    d: DiffView,
    cs: Seq<Entry>,
    prefix: Seq<char>,
    rules: Seq<(Seq<char>, bool)>,
)
    requires
        all_pass(d, rules),
    ensures
        all_pass(added_list(d, cs, prefix, rules), rules),
    decreases cs,
{
    if cs.len() > 0 {
        let last = cs[cs.len() - 1];
        lemma_added_list_pass(d, cs.drop_last(), prefix, rules);
        lemma_added_pass(
            added_list(d, cs.drop_last(), prefix, rules),
            last,
            crate::paths::join(prefix, last.name()),
            rules,
        );
    }
}

proof fn lemma_removed_pass(d: DiffView, e: Entry, p: Seq<char>, rules: Seq<(Seq<char>, bool)>)
    requires
        all_pass(d, rules),
    ensures
        all_pass(removed(d, e, p, rules), rules),
    decreases e,
{
    match e {
        Entry::File { .. } => {
            if passes(rules, p) {
                let d1 = DiffView { old_files: d.old_files.push(p), ..d };
                assert forall|i: int| 0 <= i < d1.old_files.len() implies passes(
                    rules,
                    #[trigger] d1.old_files[i],
                ) by {
                    if i < d.old_files.len() {
                        assert(d1.old_files[i] == d.old_files[i]);
                    }
                }
            }
        },
        Entry::Dir { children, .. } => {
            lemma_removed_list_pass(d, children, p, rules);
            let d1 = removed_list(d, children, p, rules);
            if passes(rules, p) {
                let d2 = DiffView { old_folders: d1.old_folders.push(p), ..d1 };
                assert forall|i: int| 0 <= i < d2.old_folders.len() implies passes(
                    rules,
                    #[trigger] d2.old_folders[i],
                ) by {
                    if i < d1.old_folders.len() {
                        assert(d2.old_folders[i] == d1.old_folders[i]);
                    }
                }
            }
        },
    }
}

proof fn lemma_removed_list_pass(
    d: DiffView,
    cs: Seq<Entry>,
    prefix: Seq<char>,
    rules: Seq<(Seq<char>, bool)>,
)
    requires
        all_pass(d, rules),
    ensures
        all_pass(removed_list(d, cs, prefix, rules), rules),
    decreases cs,
{
    if cs.len() > 0 {
        let last = cs[cs.len() - 1];
        lemma_removed_list_pass(d, cs.drop_last(), prefix, rules);
        lemma_removed_pass(
            removed_list(d, cs.drop_last(), prefix, rules),
            last,
            crate::paths::join(prefix, last.name()),
            rules,
        );
    }
}

proof fn lemma_found_new_pass(
    d: DiffView,
    m: Seq<Entry>,
    l: Seq<Entry>,
    prefix: Seq<char>,
    fast: bool,
    rules: Seq<(Seq<char>, bool)>,
)
    requires
        all_pass(d, rules),
    ensures
        all_pass(found_new(d, m, l, prefix, fast, rules), rules),
    decreases l,
{
    if l.len() > 0 {
        lemma_found_new_pass(d, m, l.drop_last(), prefix, fast, rules);
        lemma_stepped_new_pass(
            found_new(d, m, l.drop_last(), prefix, fast, rules),
            m,
            l[l.len() - 1],
            prefix,
            fast,
            rules,
        );
    }
}

proof fn lemma_stepped_new_pass(
    d: DiffView,
    m: Seq<Entry>,
    t: Entry,
    prefix: Seq<char>,
    fast: bool,
    rules: Seq<(Seq<char>, bool)>,
)
    requires
        all_pass(d, rules),
    ensures
        all_pass(stepped_new(d, m, t, prefix, fast, rules), rules),
    decreases t,
{
    let p = crate::paths::join(prefix, t.name());
    match first_index(m, t.name()) {
        None => lemma_added_pass(d, t, p, rules),
        Some(j) => {
            lemma_removed_pass(d, m[j], p, rules);
            lemma_added_pass(removed(d, m[j], p, rules), t, p, rules);
            match (t, m[j]) {
                (Entry::Dir { children: lc, .. }, Entry::Dir { children: mc, .. }) => {
                    lemma_found_new_pass(d, mc, lc, p, fast, rules);
                },
                _ => {},
            }
        },
    }
}

proof fn lemma_found_old_pass(
    d: DiffView,
    m: Seq<Entry>,
    l: Seq<Entry>,
    prefix: Seq<char>,
    rules: Seq<(Seq<char>, bool)>,
)
    requires
        all_pass(d, rules),
    ensures
        all_pass(found_old(d, m, l, prefix, rules), rules),
    decreases m,
{
    if m.len() > 0 {
        lemma_found_old_pass(d, m.drop_last(), l, prefix, rules);
        lemma_stepped_old_pass(found_old(d, m.drop_last(), l, prefix, rules), m[m.len() - 1], l, prefix, rules);
    }
}

proof fn lemma_stepped_old_pass(
    d: DiffView,
    f: Entry,
    l: Seq<Entry>,
    prefix: Seq<char>,
    rules: Seq<(Seq<char>, bool)>,
)
    requires
        all_pass(d, rules),
    ensures
        all_pass(stepped_old(d, f, l, prefix, rules), rules),
    decreases f,
{
    let p = crate::paths::join(prefix, f.name());
    match first_index(l, f.name()) {
        None => lemma_removed_pass(d, f, p, rules),
        Some(j) => match (f, l[j]) {
            (Entry::Dir { children: fc, .. }, Entry::Dir { children: lc, .. }) => {
                lemma_found_old_pass(d, fc, lc, p, rules);
            },
            _ => {},
        },
    }
}

/// Filter correctness: every path that a comparison reports, added or
/// removed, file or directory, is one that the filter lets through.
pub proof fn lemma_filter_correctness(
    m: Seq<Entry>,
    l: Seq<Entry>,
    fast: bool,
    rules: Seq<(Seq<char>, bool)>,
)
    ensures
        all_pass(diff_of(m, l, fast, rules), rules),
{
    let e = DiffView::empty();
    lemma_found_new_pass(e, m, l, Seq::empty(), fast, rules);
    lemma_found_old_pass(found_new(e, m, l, Seq::empty(), fast, rules), m, l, Seq::empty(), rules);
}

proof fn lemma_found_new_same(
    d: DiffView,
    full: Seq<Entry>,
    l: Seq<Entry>,
    prefix: Seq<char>,
    fast: bool,
    rules: Seq<(Seq<char>, bool)>,
)
    requires
        tree_wf(full),
        l.len() <= full.len(),
        forall|j: int| 0 <= j < l.len() ==> l[j] == full[j],
    ensures
        found_new(d, full, l, prefix, fast, rules) == d,
    decreases l,
{
    if l.len() > 0 {
        let k = l.len() - 1;
        lemma_found_new_same(d, full, l.drop_last(), prefix, fast, rules);
        assert(decreases_to!(l => l[k]));
        lemma_stepped_new_same(d, full, l[k], k, prefix, fast, rules);
    }
}

proof fn lemma_stepped_new_same(
    d: DiffView,
    full: Seq<Entry>,
    t: Entry,
    k: int,
    prefix: Seq<char>,
    fast: bool,
    rules: Seq<(Seq<char>, bool)>,
)
    requires
        tree_wf(full),
        0 <= k < full.len(),
        t == full[k],
    ensures
        stepped_new(d, full, t, prefix, fast, rules) == d,
    decreases t,
{
    lemma_child_found(full, k);
    lemma_wf_child(full, k);
    match t {
        Entry::Dir { children, .. } => {
            lemma_found_new_same(
                d,
                children,
                children,
                crate::paths::join(prefix, t.name()),
                fast,
                rules,
            );
        },
        Entry::File { .. } => {},
    }
}

proof fn lemma_found_old_same(
    d: DiffView,
    m: Seq<Entry>,
    full: Seq<Entry>,
    prefix: Seq<char>,
    rules: Seq<(Seq<char>, bool)>,
)
    requires
        tree_wf(full),
        m.len() <= full.len(),
        forall|j: int| 0 <= j < m.len() ==> m[j] == full[j],
    ensures
        found_old(d, m, full, prefix, rules) == d,
    decreases m,
{
    if m.len() > 0 {
        let k = m.len() - 1;
        lemma_found_old_same(d, m.drop_last(), full, prefix, rules);
        assert(decreases_to!(m => m[k]));
        lemma_stepped_old_same(d, m[k], full, k, prefix, rules);
    }
}

proof fn lemma_stepped_old_same(
    d: DiffView,
    f: Entry,
    full: Seq<Entry>,
    k: int,
    prefix: Seq<char>,
    rules: Seq<(Seq<char>, bool)>,
)
    requires
        tree_wf(full),
        0 <= k < full.len(),
        f == full[k],
    ensures
        stepped_old(d, f, full, prefix, rules) == d,
    decreases f,
{
    lemma_child_found(full, k);
    lemma_wf_child(full, k);
    match f {
        Entry::Dir { children, .. } => {
            lemma_found_old_same(d, children, children, crate::paths::join(prefix, f.name()), rules);
        },
        Entry::File { .. } => {},
    }
}

/// A second run over an unchanged tree: when the recorded tree is exactly the
/// live tree (well formed), the comparison reports nothing.
pub proof fn lemma_unchanged_tree_has_no_differences(
    l: Seq<Entry>,
    fast: bool,
    rules: Seq<(Seq<char>, bool)>,
)
    requires
        tree_wf(l),
    ensures
        diff_of(l, l, fast, rules) == DiffView::empty(),
        diff_of(l, l, fast, rules).is_empty(),
{
    let e = DiffView::empty();
    lemma_found_new_same(e, l, l, Seq::empty(), fast, rules);
    lemma_found_old_same(e, l, l, Seq::empty(), rules);
}

} // verus!
