use vstd::prelude::*;

use crate::filter::{accepts_all, RuleFilter};
use crate::manifest::State;
use crate::paths::{contains_path, join, join_path};
use crate::paths::split_path;
use crate::tree::{resolve, first_index, lemma_views, string_views, views, DirData, Entry, NodeKind, SimpleFile};

verus! {

/// Model of a `Differences` value: four sequences of relative paths.
pub struct DiffView {
    pub old_files: Seq<Seq<char>>,
    pub old_folders: Seq<Seq<char>>,
    pub new_files: Seq<Seq<char>>,
    pub new_folders: Seq<Seq<char>>,
}

impl DiffView {
    pub open spec fn empty() -> DiffView {
        DiffView {
            old_files: Seq::empty(),
            old_folders: Seq::empty(),
            new_files: Seq::empty(),
            new_folders: Seq::empty(),
        }
    }

    pub open spec fn is_empty(self) -> bool {
        self.old_files.len() == 0 && self.old_folders.len() == 0 && self.new_files.len() == 0
            && self.new_folders.len() == 0
    }
}

/// The paths that a comparison found removed and added, files and directories apart.
pub struct Differences {
    pub old_files: Vec<String>,
    pub old_folders: Vec<String>,
    pub new_files: Vec<String>,
    pub new_folders: Vec<String>,
}

impl Differences {
    pub open spec fn view(&self) -> DiffView {
        DiffView {
            old_files: string_views(self.old_files@),
            old_folders: string_views(self.old_folders@),
            new_files: string_views(self.new_files@),
            new_folders: string_views(self.new_folders@),
        }
    }

    pub fn new() -> (r: Differences)
        ensures
            r@ == DiffView::empty(),
    {
        let r = Differences {
            old_files: Vec::new(),
            old_folders: Vec::new(),
            new_files: Vec::new(),
            new_folders: Vec::new(),
        };
        assert(string_views(Seq::<String>::empty()) =~= Seq::<Seq<char>>::empty());
        assert(r@ =~= DiffView::empty());
        r
    }

    /// Whether any path was recorded at all.
    pub fn has_differences(&self) -> (r: bool)
        ensures
            r == !self@.is_empty(),
    {
        self.old_files.len() > 0 || self.old_folders.len() > 0 || self.new_files.len() > 0
            || self.new_folders.len() > 0
    }
}

/// The filter's verdict on a path: every rule must accept it, and no rules accept all.
pub open spec fn passes(rules: Seq<(Seq<char>, bool)>, p: Seq<char>) -> bool {
    accepts_all(rules, p, true)
}

/// Whether a recorded file counts as unchanged against a live one.
pub open spec fn unchanged(m: Entry, t: Entry, fast: bool) -> bool {
    match (m, t) {
        (
            Entry::File { hash: h1, modified: m1, .. },
            Entry::File { hash: h2, modified: m2, .. },
        ) => (fast && m1 == m2) || h1 == h2,
        _ => false,
    }
}

/// `d` after recording the directory path `p` as added: only a non-empty path
/// (the root is never listed) that passes the filter and is not there yet.
pub open spec fn with_new_folder(d: DiffView, p: Seq<char>, rules: Seq<(Seq<char>, bool)>) -> DiffView {
    if passes(rules, p) && p.len() > 0 && !d.new_folders.contains(p) {
        DiffView { new_folders: d.new_folders.push(p), ..d }
    } else {
        d
    }
}

/// `d` after recording the live node `e` at `p`, and everything below it, as added.
pub open spec fn added(d: DiffView, e: Entry, p: Seq<char>, rules: Seq<(Seq<char>, bool)>) -> DiffView
    decreases e,
{
    match e {
        Entry::File { .. } => if passes(rules, p) {
            DiffView { new_files: d.new_files.push(p), ..d }
        } else {
            d
        },
        Entry::Dir { children, .. } => {
            added_list(with_new_folder(d, p, rules), children, p, rules)
        },
    }
}

/// `d` after recording each of `cs`, children of the directory at `prefix`, as added.
pub open spec fn added_list(
    d: DiffView,
    cs: Seq<Entry>,
    prefix: Seq<char>,
    rules: Seq<(Seq<char>, bool)>,
) -> DiffView
    decreases cs,
{
    if cs.len() == 0 {
        d
    } else {
        let last = cs[cs.len() - 1];
        added(added_list(d, cs.drop_last(), prefix, rules), last, join(prefix, last.name()), rules)
    }
}

/// `d` after recording the recorded node `e` at `p`, and everything below it,
/// as removed: a directory's contents before the directory itself.
pub open spec fn removed(d: DiffView, e: Entry, p: Seq<char>, rules: Seq<(Seq<char>, bool)>) -> DiffView
    decreases e,
{
    match e {
        Entry::File { .. } => if passes(rules, p) {
            DiffView { old_files: d.old_files.push(p), ..d }
        } else {
            d
        },
        Entry::Dir { children, .. } => {
            let d1 = removed_list(d, children, p, rules);
            if passes(rules, p) {
                DiffView { old_folders: d1.old_folders.push(p), ..d1 }
            } else {
                d1
            }
        },
    }
}

/// `d` after recording each of `cs`, children of the directory at `prefix`, as removed.
pub open spec fn removed_list(
    d: DiffView,
    cs: Seq<Entry>,
    prefix: Seq<char>,
    rules: Seq<(Seq<char>, bool)>,
) -> DiffView
    decreases cs,
{
    if cs.len() == 0 {
        d
    } else {
        let last = cs[cs.len() - 1];
        removed(removed_list(d, cs.drop_last(), prefix, rules), last, join(prefix, last.name()), rules)
    }
}

/// The additions pass over the live children `l` of a directory at `prefix`
/// whose recorded children are `m`.
pub open spec fn found_new(
    d: DiffView,
    m: Seq<Entry>,
    l: Seq<Entry>,
    prefix: Seq<char>,
    fast: bool,
    rules: Seq<(Seq<char>, bool)>,
) -> DiffView
    decreases l,
{
    if l.len() == 0 {
        d
    } else {
        stepped_new(found_new(d, m, l.drop_last(), prefix, fast, rules), m, l[l.len() - 1], prefix, fast, rules)
    }
}

/// The additions pass for one live node `t` of the directory at `prefix`.
pub open spec fn stepped_new(
    d: DiffView,
    m: Seq<Entry>,
    t: Entry,
    prefix: Seq<char>,
    fast: bool,
    rules: Seq<(Seq<char>, bool)>,
) -> DiffView
    decreases t,
{
    let p = join(prefix, t.name());
    match first_index(m, t.name()) {
        None => added(d, t, p, rules),
        Some(j) => match (t, m[j]) {
            (Entry::Dir { children: lc, .. }, Entry::Dir { children: mc, .. }) => found_new(
                d,
                mc,
                lc,
                p,
                fast,
                rules,
            ),
            (Entry::File { .. }, Entry::File { .. }) => if unchanged(m[j], t, fast) {
                d
            } else {
                added(removed(d, m[j], p, rules), t, p, rules)
            },
            _ => added(removed(d, m[j], p, rules), t, p, rules),
        },
    }
}

/// The removals pass over the recorded children `m` of a directory at `prefix`
/// whose live children are `l`.
pub open spec fn found_old(
    d: DiffView,
    m: Seq<Entry>,
    l: Seq<Entry>,
    prefix: Seq<char>,
    rules: Seq<(Seq<char>, bool)>,
) -> DiffView
    decreases m,
{
    if m.len() == 0 {
        d
    } else {
        stepped_old(found_old(d, m.drop_last(), l, prefix, rules), m[m.len() - 1], l, prefix, rules)
    }
}

/// The removals pass for one recorded node `f` of the directory at `prefix`.
pub open spec fn stepped_old(
    d: DiffView,
    f: Entry,
    l: Seq<Entry>,
    prefix: Seq<char>,
    rules: Seq<(Seq<char>, bool)>,
) -> DiffView
    decreases f,
{
    let p = join(prefix, f.name());
    match first_index(l, f.name()) {
        None => removed(d, f, p, rules),
        Some(j) => match (f, l[j]) {
            (Entry::Dir { children: fc, .. }, Entry::Dir { children: lc, .. }) => found_old(
                d,
                fc,
                lc,
                p,
                rules,
            ),
            _ => d,
        },
    }
}

/// The differences between the recorded tree `m` and the live tree `l`, both
/// given by the children of their roots, appended to `d`.
pub open spec fn diff_into(
    d: DiffView,
    m: Seq<Entry>,
    l: Seq<Entry>,
    fast: bool,
    rules: Seq<(Seq<char>, bool)>,
) -> DiffView {
    found_old(found_new(d, m, l, Seq::empty(), fast, rules), m, l, Seq::empty(), rules)
}

/// The differences between the recorded tree `m` and the live tree `l`.
pub open spec fn diff_of(m: Seq<Entry>, l: Seq<Entry>, fast: bool, rules: Seq<(Seq<char>, bool)>) -> DiffView {
    diff_into(DiffView::empty(), m, l, fast, rules)
}

proof fn lemma_push_view(v: Seq<String>, s: String)
    ensures
        string_views(v.push(s)) == string_views(v).push(s@),
{
    assert(string_views(v.push(s)) =~= string_views(v).push(s@));
}

fn record_new_file(diff: &mut Differences, filter: &RuleFilter, path: &String)
    ensures
        final(diff)@ == (if passes(filter@, path@) {
            DiffView { new_files: old(diff)@.new_files.push(path@), ..old(diff)@ }
        } else {
            old(diff)@
        }),
{
    if filter.test_all(path.as_str(), true) {
        proof {
            lemma_push_view(diff.new_files@, *path);
        }
        diff.new_files.push(path.clone());
    }
}

fn record_new_folder(diff: &mut Differences, filter: &RuleFilter, path: &String)
    ensures
        final(diff)@ == with_new_folder(old(diff)@, path@, filter@),
{
    if filter.test_all(path.as_str(), true) && path.unicode_len() > 0 && !contains_path(
        &diff.new_folders,
        path,
    ) {
        proof {
            lemma_push_view(diff.new_folders@, *path);
        }
        diff.new_folders.push(path.clone());
    }
}

fn record_old_file(diff: &mut Differences, filter: &RuleFilter, path: &String)
    ensures
        final(diff)@ == (if passes(filter@, path@) {
            DiffView { old_files: old(diff)@.old_files.push(path@), ..old(diff)@ }
        } else {
            old(diff)@
        }),
{
    if filter.test_all(path.as_str(), true) {
        proof {
            lemma_push_view(diff.old_files@, *path);
        }
        diff.old_files.push(path.clone());
    }
}

fn record_old_folder(diff: &mut Differences, filter: &RuleFilter, path: &String)
    ensures
        final(diff)@ == (if passes(filter@, path@) {
            DiffView { old_folders: old(diff)@.old_folders.push(path@), ..old(diff)@ }
        } else {
            old(diff)@
        }),
{
    if filter.test_all(path.as_str(), true) {
        proof {
            lemma_push_view(diff.old_folders@, *path);
        }
        diff.old_folders.push(path.clone());
    }
}

/// Records the live node `node` at `path`, and everything below it, as added.
fn add_new(diff: &mut Differences, filter: &RuleFilter, node: &SimpleFile, path: &String)
    ensures
        final(diff)@ == added(old(diff)@, node@, path@, filter@),
    decreases node@,
{
    match &node.kind {
        NodeKind::File(_) => record_new_file(diff, filter, path),
        NodeKind::Dir(d) => {
            record_new_folder(diff, filter, path);
            let ghost d1 = diff@;
            let ghost cs = d@;
            assert(node@ == (Entry::Dir { name: node.name@, children: cs }));
            proof {
                lemma_views(d.files@);
            }
            let mut i: usize = 0;
            assert(cs.take(0) =~= Seq::<Entry>::empty());
            while i < d.files.len()
                invariant
                    i <= d.files@.len(),
                    cs == views(d.files@),
                    node@ == (Entry::Dir { name: node.name@, children: cs }),
                    cs.len() == d.files@.len(),
                    forall|j: int| 0 <= j < d.files@.len() ==> #[trigger] cs[j] == d.files@[j]@,
                    diff@ == added_list(d1, cs.take(i as int), path@, filter@),
                decreases d.files@.len() - i,
            {
                let child = &d.files[i];
                let p = join_path(path, &child.name);
                assert(cs.take(i + 1).drop_last() =~= cs.take(i as int));
                assert(cs.take(i + 1)[i as int] == child@);
                proof {
                    assert(node@->children == cs);
                    assert(decreases_to!(node@ => cs[i as int]));
                }
                add_new(diff, filter, child, &p);
                i = i + 1;
            }
            assert(cs.take(i as int) =~= cs);
        },
    }
}

/// Records the recorded node `node` at `path`, and everything below it, as removed.
fn add_old(diff: &mut Differences, filter: &RuleFilter, node: &SimpleFile, path: &String)
    ensures
        final(diff)@ == removed(old(diff)@, node@, path@, filter@),
    decreases node@,
{
    match &node.kind {
        NodeKind::File(_) => record_old_file(diff, filter, path),
        NodeKind::Dir(d) => {
            let ghost d0 = diff@;
            let ghost cs = d@;
            assert(node@ == (Entry::Dir { name: node.name@, children: cs }));
            proof {
                lemma_views(d.files@);
            }
            let mut i: usize = 0;
            assert(cs.take(0) =~= Seq::<Entry>::empty());
            while i < d.files.len()
                invariant
                    i <= d.files@.len(),
                    cs == views(d.files@),
                    node@ == (Entry::Dir { name: node.name@, children: cs }),
                    cs.len() == d.files@.len(),
                    forall|j: int| 0 <= j < d.files@.len() ==> #[trigger] cs[j] == d.files@[j]@,
                    diff@ == removed_list(d0, cs.take(i as int), path@, filter@),
                decreases d.files@.len() - i,
            {
                let child = &d.files[i];
                let p = join_path(path, &child.name);
                assert(cs.take(i + 1).drop_last() =~= cs.take(i as int));
                assert(cs.take(i + 1)[i as int] == child@);
                proof {
                    assert(node@->children == cs);
                    assert(decreases_to!(node@ => cs[i as int]));
                }
                add_old(diff, filter, child, &p);
                i = i + 1;
            }
            assert(cs.take(i as int) =~= cs);
            record_old_folder(diff, filter, path);
        },
    }
}

/// The additions pass over the live directory `live`, recorded as `manifest`, at `prefix`.
fn find_new(
    diff: &mut Differences,
    filter: &RuleFilter,
    fast: bool,
    manifest: &DirData,
    live: &DirData,
    prefix: &String,
)
    ensures
        final(diff)@ == found_new(old(diff)@, manifest@, live@, prefix@, fast, filter@),
    decreases live@,
{
    let ghost d0 = diff@;
    let ghost l = live@;
    let ghost m = manifest@;
    proof {
        lemma_views(live.files@);
        lemma_views(manifest.files@);
    }
    let mut i: usize = 0;
    assert(l.take(0) =~= Seq::<Entry>::empty());
    while i < live.files.len()
        invariant
            i <= live.files@.len(),
            l == live@,
            m == manifest@,
            l.len() == live.files@.len(),
            m.len() == manifest.files@.len(),
            forall|j: int| 0 <= j < live.files@.len() ==> #[trigger] l[j] == live.files@[j]@,
            forall|j: int| 0 <= j < manifest.files@.len() ==> #[trigger] m[j] == manifest.files@[j]@,
            diff@ == found_new(d0, m, l.take(i as int), prefix@, fast, filter@),
        decreases live.files@.len() - i,
    {
        let t = &live.files[i];
        let p = join_path(prefix, &t.name);
        assert(l.take(i + 1).drop_last() =~= l.take(i as int));
        assert(l.take(i + 1)[i as int] == t@);
        let ghost before = diff@;
        assert(t@.name() == t.name@);
        assert(p@ == join(prefix@, t@.name()));
        match manifest.position(&t.name) {
            None => add_new(diff, filter, t, &p),
            Some(j) => {
                let c = &manifest.files[j];
                assert(m[j as int] == c@);
                match &t.kind {
                    NodeKind::Dir(td) => match &c.kind {
                        NodeKind::Dir(cd) => {
                            proof {
                                assert(decreases_to!(l => l[i as int]));
                                assert(t@->children == td@);
                                assert(decreases_to!(t@ => td@));
                            }
                            find_new(diff, filter, fast, &cd, td, &p);
                        },
                        NodeKind::File(_) => {
                            add_old(diff, filter, c, &p);
                            add_new(diff, filter, t, &p);
                        },
                    },
                    NodeKind::File(tf) => match &c.kind {
                        NodeKind::File(cf) => {
                            if !((fast && cf.modified == tf.modified) || cf.sha1 == tf.sha1) {
                                add_old(diff, filter, c, &p);
                                add_new(diff, filter, t, &p);
                            }
                        },
                        NodeKind::Dir(_) => {
                            add_old(diff, filter, c, &p);
                            add_new(diff, filter, t, &p);
                        },
                    },
                }
            },
        }
        assert(diff@ == stepped_new(before, m, t@, prefix@, fast, filter@));
        i = i + 1;
    }
    assert(l.take(i as int) =~= l);
}

/// The removals pass over the recorded directory `manifest`, live as `live`, at `prefix`.
fn find_old(
    diff: &mut Differences,
    filter: &RuleFilter,
    manifest: &DirData,
    live: &DirData,
    prefix: &String,
)
    ensures
        final(diff)@ == found_old(old(diff)@, manifest@, live@, prefix@, filter@),
    decreases manifest@,
{
    let ghost d0 = diff@;
    let ghost l = live@;
    let ghost m = manifest@;
    proof {
        lemma_views(live.files@);
        lemma_views(manifest.files@);
    }
    let mut i: usize = 0;
    assert(m.take(0) =~= Seq::<Entry>::empty());
    while i < manifest.files.len()
        invariant
            i <= manifest.files@.len(),
            l == live@,
            m == manifest@,
            l.len() == live.files@.len(),
            m.len() == manifest.files@.len(),
            forall|j: int| 0 <= j < live.files@.len() ==> #[trigger] l[j] == live.files@[j]@,
            forall|j: int| 0 <= j < manifest.files@.len() ==> #[trigger] m[j] == manifest.files@[j]@,
            diff@ == found_old(d0, m.take(i as int), l, prefix@, filter@),
        decreases manifest.files@.len() - i,
    {
        let f = &manifest.files[i];
        let p = join_path(prefix, &f.name);
        assert(m.take(i + 1).drop_last() =~= m.take(i as int));
        assert(m.take(i + 1)[i as int] == f@);
        let ghost before = diff@;
        assert(f@.name() == f.name@);
        assert(p@ == join(prefix@, f@.name()));
        match live.position(&f.name) {
            None => add_old(diff, filter, f, &p),
            Some(j) => {
                let c = &live.files[j];
                assert(l[j as int] == c@);
                match &f.kind {
                    NodeKind::Dir(fd) => match &c.kind {
                        NodeKind::Dir(cd) => {
                            proof {
                                assert(decreases_to!(m => m[i as int]));
                                assert(f@->children == fd@);
                                assert(decreases_to!(f@ => fd@));
                            }
                            find_old(diff, filter, fd, &cd, &p);
                        },
                        NodeKind::File(_) => {},
                    },
                    NodeKind::File(_) => {},
                }
            },
        }
        assert(diff@ == stepped_old(before, f@, l, prefix@, filter@));
        i = i + 1;
    }
    assert(m.take(i as int) =~= m);
}

/// Whether the recorded tree `t` has a file at `p` modified at `modified`.
pub open spec fn recorded_at(t: Seq<Entry>, p: Seq<char>, modified: u64) -> bool {
    match resolve(t, split_path(p)) {
        Some(Entry::File { modified: m, .. }) => m == modified,
        _ => false,
    }
}

/// Whether a live file at `path`, last modified at `modified`, needs its
/// content hash for a comparison against `recorded`: always, unless fast
/// comparison is on and the recorded file there has the same timestamp.
pub fn content_hash_needed(recorded: &State, path: &str, modified: u64, fast: bool) -> (r: bool)
    ensures
        r == !(fast && recorded_at(recorded@, path@, modified)),
{
    if !fast {
        return true;
    }
    match recorded.files.get_file(path) {
        Some(node) => match &node.kind {
            NodeKind::File(f) => f.modified != modified,
            NodeKind::Dir(_) => true,
        },
        None => true,
    }
}

/// Compares live directory snapshots against a recorded state, collecting the
/// differences that the filter lets through.
pub struct FileComparer {
    pub fast_comparison: bool,
    pub filter: RuleFilter,
    pub differences: Differences,
}

impl FileComparer {
    pub fn new(fast_comparison: bool, filter: RuleFilter) -> (r: FileComparer)
        ensures
            r.fast_comparison == fast_comparison,
            r.filter@ == filter@,
            r.differences@ == DiffView::empty(),
    {
        FileComparer { fast_comparison, filter, differences: Differences::new() }
    }

    /// Runs the additions pass and then the removals pass of the live tree
    /// `directory` against the recorded `contrast`.
    pub fn compare(&mut self, directory: &DirData, contrast: &State)
        ensures
            final(self).fast_comparison == old(self).fast_comparison,
            final(self).filter@ == old(self).filter@,
            final(self).differences@ == diff_into(
                old(self).differences@,
                contrast@,
                directory@,
                old(self).fast_comparison,
                old(self).filter@,
            ),
    {
        let root = String::new();
        find_new(&mut self.differences, &self.filter, self.fast_comparison, &contrast.files, directory, &root);
        find_old(&mut self.differences, &self.filter, &contrast.files, directory, &root);
    }
}

} // verus!
