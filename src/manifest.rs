use vstd::prelude::*;

use crate::diff::Differences;
use crate::paths::{get_basename, get_dirname, last_slash, split_path, split_segments};
use crate::tree::{
    append_at, remove_at, resolve, string_views, DirData, Entry, NodeKind, SimpleFile, TreeError,
};

verus! {

/// One entry of the persisted manifest as read, before it is checked: a
/// directory has `children`; a file needs `length`, `hash` and `modified`.
pub struct RawEntry {
    pub name: Option<String>,
    pub children: Option<Vec<RawEntry>>,
    pub length: Option<u64>,
    pub hash: Option<String>,
    pub modified: Option<u64>,
}

/// The node that a raw entry stands for; `None` when it is dropped (no name,
/// or a file entry that lacks one of its fields).
pub open spec fn load_entry(e: RawEntry) -> Option<Entry>
    decreases e,
{
    match e.name {
        None => None,
        Some(name) => match e.children {
            Some(c) => Some(Entry::Dir { name: name@, children: load_list(c@) }),
            None => match (e.length, e.hash, e.modified) {
                (Some(length), Some(hash), Some(modified)) => Some(
                    Entry::File { name: name@, length, hash: hash@, modified },
                ),
                _ => None,
            },
        },
    }
}

/// The nodes that a list of raw entries stands for, in order, without the dropped ones.
pub open spec fn load_list(s: Seq<RawEntry>) -> Seq<Entry>
    decreases s,
{
    if s.len() == 0 {
        Seq::empty()
    } else {
        let rest = load_list(s.drop_last());
        match load_entry(s[s.len() - 1]) {
            Some(e) => rest.push(e),
            None => rest,
        }
    }
}

/// The directory part of a path, as segments (none for a top-level name).
pub open spec fn parent_segments(p: Seq<char>) -> Seq<Seq<char>> {
    match last_slash(p) {
        Some(i) => split_path(p.subrange(0, i)),
        None => Seq::empty(),
    }
}

/// The last part of a path.
pub open spec fn base_name(p: Seq<char>) -> Seq<char> {
    match last_slash(p) {
        Some(i) => p.subrange(i + 1, p.len() as int),
        None => p,
    }
}

/// The tree after applying `step` to each of `paths` in turn; `None` as soon as one step fails.
pub open spec fn apply_each(
    t: Seq<Entry>,
    paths: Seq<Seq<char>>,
    step: spec_fn(Seq<Entry>, Seq<char>) -> Option<Seq<Entry>>,
) -> Option<Seq<Entry>>
    decreases paths.len(),
{
    if paths.len() == 0 {
        Some(t)
    } else {
        match apply_each(t, paths.drop_last(), step) {
            Some(t1) => step(t1, paths.last()),
            None => None,
        }
    }
}

/// Once a step has failed, the whole sequence fails.
proof fn lemma_apply_each_fails(
    t: Seq<Entry>,
    paths: Seq<Seq<char>>,
    step: spec_fn(Seq<Entry>, Seq<char>) -> Option<Seq<Entry>>,
    i: int,
)
    requires
        0 <= i <= paths.len(),
        apply_each(t, paths.take(i), step) is None,
    ensures
        apply_each(t, paths, step) is None,
    decreases paths.len(),
{
    if i < paths.len() {
        assert(paths.drop_last().take(i) =~= paths.take(i));
        lemma_apply_each_fails(t, paths.drop_last(), step, i);
    } else {
        assert(paths.take(i) =~= paths);
    }
}

/// Removing the node at a path.
pub open spec fn remove_step() -> spec_fn(Seq<Entry>, Seq<char>) -> Option<Seq<Entry>> {
    |t: Seq<Entry>, p: Seq<char>| remove_at(t, split_path(p))
}

/// Making an empty directory at a path.
pub open spec fn make_dir_step() -> spec_fn(Seq<Entry>, Seq<char>) -> Option<Seq<Entry>> {
    |t: Seq<Entry>, p: Seq<char>|
        append_at(t, parent_segments(p), Entry::Dir { name: base_name(p), children: Seq::empty() })
}

/// The file node recorded for `p`: its metadata in the live tree `live`, under its base name.
pub open spec fn live_file(live: Seq<Entry>, p: Seq<char>) -> Option<Entry> {
    match resolve(live, split_path(p)) {
        Some(Entry::File { length, hash, modified, .. }) => Some(
            Entry::File { name: base_name(p), length, hash, modified },
        ),
        _ => None,
    }
}

/// Adding the live file at a path, with its live metadata.
pub open spec fn add_file_step(live: Seq<Entry>) -> spec_fn(Seq<Entry>, Seq<char>) -> Option<Seq<Entry>> {
    |t: Seq<Entry>, p: Seq<char>|
        match live_file(live, p) {
            Some(e) => append_at(t, parent_segments(p), e),
            None => None,
        }
}

/// The state brought up to date with `d`, found against `live`: removed files,
/// removed directories, new directories, new files; `None` if a step fails.
pub open spec fn updated(t: Seq<Entry>, d: crate::diff::DiffView, live: Seq<Entry>) -> Option<Seq<Entry>> {
    match apply_each(t, d.old_files, remove_step()) {
        None => None,
        Some(t1) => match apply_each(t1, d.old_folders, remove_step()) {
            None => None,
            Some(t2) => match apply_each(t2, d.new_folders, make_dir_step()) {
                None => None,
                Some(t3) => apply_each(t3, d.new_files, add_file_step(live)),
            },
        },
    }
}

/// The recorded state of a directory tree: the children of its root.
pub struct State {
    pub files: DirData,
}

impl State {
    pub open spec fn view(&self) -> Seq<Entry> {
        self.files@
    }

    /// The state that a list of raw manifest entries describes.
    pub fn from_entries(entries: &Vec<RawEntry>) -> (r: State)
        ensures
            r@ == load_list(entries@),
    {
        State { files: DirData::new(load_entries(entries)) }
    }

    /// Raw manifest entries that describe this state.
    pub fn to_entries(&self) -> (r: Vec<RawEntry>)
        ensures
            load_list(r@) == self@,
    {
        dump_entries(&self.files.files)
    }

    /// Removes the file or directory at `path`.
    pub fn remove_file_or_dir(&mut self, path: &str) -> (r: Result<(), TreeError>)
        ensures
            match remove_at(old(self)@, split_path(path@)) {
                Some(t) => r is Ok && final(self)@ == t,
                None => r is Err && final(self)@ == old(self)@,
            },
    {
        self.files.remove_file(path)
    }

    /// Appends an empty directory at `path` to its parent directory.
    pub fn make_dir(&mut self, path: &str) -> (r: Result<(), TreeError>)
        ensures
            match append_at(
                old(self)@,
                parent_segments(path@),
                Entry::Dir { name: base_name(path@), children: Seq::empty() },
            ) {
                Some(t) => r is Ok && final(self)@ == t,
                None => r is Err && final(self)@ == old(self)@,
            },
    {
        let parent = parent_of(path);
        let node = SimpleFile::new_directory(get_basename(path), Vec::new());
        proof {
            crate::tree::lemma_views(Seq::<SimpleFile>::empty());
            assert(crate::tree::views(Seq::<SimpleFile>::empty()) =~= Seq::<Entry>::empty());
        }
        self.files.append_child(&parent, node)
    }

    /// Appends a file with the given metadata at `path` to its parent directory.
    pub fn add_file(&mut self, path: &str, length: u64, sha1: &str, modified: u64) -> (r: Result<(), TreeError>)
        ensures
            match append_at(
                old(self)@,
                parent_segments(path@),
                Entry::File { name: base_name(path@), length, hash: sha1@, modified },
            ) {
                Some(t) => r is Ok && final(self)@ == t,
                None => r is Err && final(self)@ == old(self)@,
            },
    {
        let parent = parent_of(path);
        let node = SimpleFile::new_file(get_basename(path), length, sha1, modified);
        self.files.append_child(&parent, node)
    }

    /// Brings the state up to date with `diff`, found against the live tree
    /// `live`: removed files, then removed directories, then new directories,
    /// then new files with their live metadata. Fails at the first step that
    /// cannot be carried out.
    pub fn update_from_differences(&mut self, diff: &Differences, live: &DirData) -> (r: Result<(), TreeError>)
        ensures
            match updated(old(self)@, diff@, live@) {
                Some(t) => r is Ok && final(self)@ == t,
                None => r is Err,
            },
    {
        let ghost t0 = self@;
        self.each_path(&diff.old_files, live, 0)?;
        let ghost t1 = self@;
        match self.each_path(&diff.old_folders, live, 0) {
            Ok(()) => {},
            Err(e) => {
                assert(apply_each(t1, diff@.old_folders, remove_step()) is None);
                return Err(e);
            },
        }
        let ghost t2 = self@;
        match self.each_path(&diff.new_folders, live, 1) {
            Ok(()) => {},
            Err(e) => {
                assert(apply_each(t2, diff@.new_folders, make_dir_step()) is None);
                return Err(e);
            },
        }
        let ghost t3 = self@;
        match self.each_path(&diff.new_files, live, 2) {
            Ok(()) => {},
            Err(e) => {
                assert(apply_each(t3, diff@.new_files, add_file_step(live@)) is None);
                return Err(e);
            },
        }
        Ok(())
    }

    /// Applies one kind of step to each of `paths`: 0 removes, 1 makes a
    /// directory, 2 adds the live file.
    fn each_path(&mut self, paths: &Vec<String>, live: &DirData, kind: u8) -> (r: Result<(), TreeError>)
        requires
            kind <= 2,
        ensures
            match apply_each(old(self)@, string_views(paths@), step_of(kind, live@)) {
                Some(t) => r is Ok && final(self)@ == t,
                None => r is Err,
            },
    {
        let ghost t0 = self@;
        let ghost ps = string_views(paths@);
        let ghost step = step_of(kind, live@);
        let mut i: usize = 0;
        assert(ps.take(0) =~= Seq::<Seq<char>>::empty());
        while i < paths.len()
            invariant
                i <= paths@.len(),
                kind <= 2,
                ps == string_views(paths@),
                step == step_of(kind, live@),
                t0 == old(self)@,
                apply_each(t0, ps.take(i as int), step) == Some(self@),
            decreases paths@.len() - i,
        {
            let p = &paths[i];
            assert(ps.take(i + 1).drop_last() =~= ps.take(i as int));
            assert(ps.take(i + 1).last() == p@);
            let ghost before = self@;
            let r = if kind == 0 {
                self.remove_file_or_dir(p.as_str())
            } else if kind == 1 {
                self.make_dir(p.as_str())
            } else {
                match live.get_file(p.as_str()) {
                    Some(node) => match &node.kind {
                        NodeKind::File(f) => self.add_file(p.as_str(), f.length, f.sha1.as_str(), f.modified),
                        NodeKind::Dir(_) => Err(TreeError::NotFound),
                    },
                    None => Err(TreeError::NotFound),
                }
            };
            proof {
                if kind == 0 {
                    assert(step(before, p@) == remove_at(before, split_path(p@)));
                } else if kind == 1 {
                    assert(step(before, p@) == append_at(
                        before,
                        parent_segments(p@),
                        Entry::Dir { name: base_name(p@), children: Seq::empty() },
                    ));
                } else {
                    assert(step(before, p@) == match live_file(live@, p@) {
                        Some(e) => append_at(before, parent_segments(p@), e),
                        None => None,
                    });
                }
            }
            assert(r is Err ==> step(before, p@) is None);
            assert(step(before, p@) == apply_each(t0, ps.take(i + 1), step));
            match r {
                Ok(()) => {},
                Err(e) => {
                    proof {
                        lemma_apply_each_fails(t0, ps, step, i + 1);
                    }
                    return Err(e);
                },
            }
            i = i + 1;
        }
        assert(ps.take(i as int) =~= ps);
        Ok(())
    }
}

/// The step that `each_path` applies for `kind`.
pub open spec fn step_of(kind: u8, live: Seq<Entry>) -> spec_fn(Seq<Entry>, Seq<char>) -> Option<Seq<Entry>> {
    if kind == 0 {
        remove_step()
    } else if kind == 1 {
        make_dir_step()
    } else {
        add_file_step(live)
    }
}

/// The segments of the directory part of `path`.
fn parent_of(path: &str) -> (r: Vec<String>)
    ensures
        string_views(r@) == parent_segments(path@),
{
    match get_dirname(path) {
        Some(d) => split_segments(d),
        None => {
            let r: Vec<String> = Vec::new();
            assert(string_views(r@) =~= Seq::<Seq<char>>::empty());
            r
        },
    }
}

fn dump_entries(files: &Vec<SimpleFile>) -> (r: Vec<RawEntry>)
    ensures
        load_list(r@) == crate::tree::views(files@),
    decreases crate::tree::views(files@),
{
    let ghost vs = crate::tree::views(files@);
    proof {
        crate::tree::lemma_views(files@);
    }
    let mut out: Vec<RawEntry> = Vec::new();
    let mut i: usize = 0;
    assert(vs.take(0) =~= Seq::<Entry>::empty());
    assert(out@.take(0) =~= out@);
    while i < files.len()
        invariant
            i <= files@.len(),
            vs == crate::tree::views(files@),
            vs.len() == files@.len(),
            forall|j: int| 0 <= j < files@.len() ==> #[trigger] vs[j] == files@[j]@,
            load_list(out@) == vs.take(i as int),
        decreases files@.len() - i,
    {
        let f = &files[i];
        assert(vs.take(i + 1) =~= vs.take(i as int).push(f@));
        let raw = match &f.kind {
            NodeKind::File(d) => RawEntry {
                name: Some(f.name.clone()),
                children: None,
                length: Some(d.length),
                hash: Some(d.sha1.clone()),
                modified: Some(d.modified),
            },
            NodeKind::Dir(d) => {
                proof {
                    assert(decreases_to!(vs => vs[i as int]));
                    assert(vs[i as int]->children == crate::tree::views(d.files@));
                }
                RawEntry {
                    name: Some(f.name.clone()),
                    children: Some(dump_entries(&d.files)),
                    length: None,
                    hash: None,
                    modified: None,
                }
            },
        };
        assert(load_entry(raw) == Some(f@));
        assert(out@.push(raw).drop_last() =~= out@);
        out.push(raw);
        i = i + 1;
    }
    assert(vs.take(i as int) =~= vs);
    out
}

fn load_entries(entries: &Vec<RawEntry>) -> (r: Vec<SimpleFile>)
    ensures
        crate::tree::views(r@) == load_list(entries@),
    decreases entries@,
{
    let mut out: Vec<SimpleFile> = Vec::new();
    let mut i: usize = 0;
    assert(entries@.take(0) =~= Seq::<RawEntry>::empty());
    proof {
        crate::tree::lemma_views(out@);
    }
    while i < entries.len()
        invariant
            i <= entries@.len(),
            crate::tree::views(out@) == load_list(entries@.take(i as int)),
        decreases entries@.len() - i,
    {
        let e = &entries[i];
        assert(entries@.take(i + 1).drop_last() =~= entries@.take(i as int));
        assert(entries@.take(i + 1)[i as int] == *e);
        let ghost prev = out@;
        match &e.name {
            None => {
                assert(load_entry(*e) is None);
            },
            Some(name) => match &e.children {
                Some(c) => {
                    proof {
                        assert(decreases_to!(entries@ => entries@[i as int]));
                        assert(decreases_to!(*e => e.children));
                        assert(decreases_to!(e.children => e.children->Some_0));
                        assert(decreases_to!(e.children->Some_0 => c@));
                    }
                    let kids = load_entries(c);
                    let node = SimpleFile::new_directory(name.as_str(), kids);
                    proof {
                        crate::tree::lemma_views(out@);
                        crate::tree::lemma_views(out@.push(node));
                        assert(crate::tree::views(out@.push(node)) =~= crate::tree::views(out@).push(node@));
                    }
                    out.push(node);
                },
                None => match (&e.length, &e.hash, &e.modified) {
                    (Some(length), Some(hash), Some(modified)) => {
                        let node = SimpleFile::new_file(name.as_str(), *length, hash.as_str(), *modified);
                        proof {
                            crate::tree::lemma_views(out@);
                            crate::tree::lemma_views(out@.push(node));
                            assert(crate::tree::views(out@.push(node)) =~= crate::tree::views(out@).push(node@));
                        }
                        out.push(node);
                    },
                    _ => {
                        assert(load_entry(*e) is None);
                    },
                },
            },
        }
        assert(load_entry(*e) is None ==> out@ == prev);
        assert(load_entry(*e) matches Some(x) ==> crate::tree::views(out@) == crate::tree::views(prev).push(x));
        i = i + 1;
    }
    assert(entries@.take(i as int) =~= entries@);
    out
}

} // verus!
