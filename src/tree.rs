use vstd::prelude::*;

use crate::paths::{split_path, split_segments, lemma_split_path_nonempty};

verus! {

/// Metadata recorded for a regular file.
pub struct FileData {
    pub length: u64,
    pub sha1: String,
    pub modified: u64,
}

/// The children of a directory, in discovery order.
pub struct DirData {
    pub files: Vec<SimpleFile>,
}

/// What a node is: exactly one of a file or a directory.
pub enum NodeKind {
    File(FileData),
    Dir(DirData),
}

/// One node of a directory tree.
pub struct SimpleFile {
    pub name: String,
    pub kind: NodeKind,
}

/// Mathematical model of a tree node.
pub enum Entry {
    File { name: Seq<char>, length: u64, hash: Seq<char>, modified: u64 },
    Dir { name: Seq<char>, children: Seq<Entry> },
}

impl Entry {
    pub open spec fn name(self) -> Seq<char> {
        match self {
            Entry::File { name, .. } => name,
            Entry::Dir { name, .. } => name,
        }
    }
}

impl SimpleFile {
    pub open spec fn view(&self) -> Entry
        decreases self,
    {
        match &self.kind {
            NodeKind::File(f) => Entry::File {
                name: self.name@,
                length: f.length,
                hash: f.sha1@,
                modified: f.modified,
            },
            NodeKind::Dir(d) => Entry::Dir { name: self.name@, children: views(d.files@) },
        }
    }
}

pub open spec fn views(s: Seq<SimpleFile>) -> Seq<Entry>
    decreases s,
{
    if s.len() == 0 {
        Seq::empty()
    } else {
        views(s.drop_last()).push(s.last().view())
    }
}


/// Elementwise characterisation of `views`.
pub proof fn lemma_views(s: Seq<SimpleFile>)
    ensures
        views(s).len() == s.len(),
        forall|i: int| 0 <= i < s.len() ==> #[trigger] views(s)[i] == s[i].view(),
    decreases s.len(),
{
    if s.len() > 0 {
        lemma_views(s.drop_last());
    }
}

/// Views of a sequence with one node replaced.
pub broadcast proof fn lemma_views_update(s: Seq<SimpleFile>, i: int, x: SimpleFile)
    requires
        0 <= i < s.len(),
    ensures
        #[trigger] views(s.update(i, x)) == views(s).update(i, x@),
{
    lemma_views(s);
    lemma_views(s.update(i, x));
    assert(views(s.update(i, x)) =~= views(s).update(i, x@));
}

/// Index of the first entry called `name`, if any.
pub open spec fn first_index(s: Seq<Entry>, name: Seq<char>) -> Option<int>
    decreases s.len(),
{
    if s.len() == 0 {
        None
    } else if s[0].name() == name {
        Some(0)
    } else {
        match first_index(s.drop_first(), name) {
            Some(i) => Some(i + 1),
            None => None,
        }
    }
}

pub proof fn lemma_first_index_found(s: Seq<Entry>, name: Seq<char>, i: int)
    requires
        0 <= i < s.len(),
        s[i].name() == name,
        forall|j: int| 0 <= j < i ==> s[j].name() != name,
    ensures
        first_index(s, name) == Some(i),
    decreases s.len(),
{
    if i > 0 {
        assert forall|j: int| 0 <= j < i - 1 implies s.drop_first()[j].name() != name by {
            assert(s.drop_first()[j] == s[j + 1]);
        }
        lemma_first_index_found(s.drop_first(), name, i - 1);
    }
}

pub proof fn lemma_first_index_absent(s: Seq<Entry>, name: Seq<char>)
    requires
        forall|j: int| 0 <= j < s.len() ==> s[j].name() != name,
    ensures
        first_index(s, name) is None,
    decreases s.len(),
{
    if s.len() > 0 {
        assert forall|j: int| 0 <= j < s.len() - 1 implies s.drop_first()[j].name() != name by {
            assert(s.drop_first()[j] == s[j + 1]);
        }
        lemma_first_index_absent(s.drop_first(), name);
    }
}

pub proof fn lemma_first_index_props(s: Seq<Entry>, name: Seq<char>)
    ensures
        first_index(s, name) matches Some(i) ==> 0 <= i < s.len() && s[i].name() == name
            && forall|j: int| 0 <= j < i ==> s[j].name() != name,
        first_index(s, name) is None ==> forall|j: int| 0 <= j < s.len() ==> s[j].name() != name,
    decreases s.len(),
{
    if s.len() > 0 {
        lemma_first_index_props(s.drop_first(), name);
        if s[0].name() != name {
            assert forall|j: int| 1 <= j < s.len() implies s[j] == s.drop_first()[j - 1] by {}
        }
    }
}

/// The node reached by following `segs` from a directory with `children`.
pub open spec fn resolve(children: Seq<Entry>, segs: Seq<Seq<char>>) -> Option<Entry>
    decreases segs.len(),
{
    if segs.len() == 0 {
        None
    } else {
        match first_index(children, segs[0]) {
            None => None,
            Some(i) => if segs.len() == 1 {
                Some(children[i])
            } else {
                match children[i] {
                    Entry::Dir { children: c, .. } => resolve(c, segs.drop_first()),
                    Entry::File { .. } => None,
                }
            },
        }
    }
}

/// The children after removing the node that `segs` leads to, if it exists.
pub open spec fn remove_at(children: Seq<Entry>, segs: Seq<Seq<char>>) -> Option<Seq<Entry>>
    decreases segs.len(),
{
    if segs.len() == 0 {
        None
    } else {
        match first_index(children, segs[0]) {
            None => None,
            Some(i) => if segs.len() == 1 {
                Some(children.remove(i))
            } else {
                match children[i] {
                    Entry::Dir { name, children: c } => match remove_at(c, segs.drop_first()) {
                        Some(c2) => Some(children.update(i, Entry::Dir { name, children: c2 })),
                        None => None,
                    },
                    Entry::File { .. } => None,
                }
            },
        }
    }
}

/// The children after putting `e` in place of the node that `segs` leads to, if it exists.
pub open spec fn replace_at(children: Seq<Entry>, segs: Seq<Seq<char>>, e: Entry) -> Seq<Entry>
    decreases segs.len(),
{
    if segs.len() == 0 {
        children
    } else {
        match first_index(children, segs[0]) {
            None => children,
            Some(i) => if segs.len() == 1 {
                children.update(i, e)
            } else {
                match children[i] {
                    Entry::Dir { name, children: c } => children.update(
                        i,
                        Entry::Dir { name, children: replace_at(c, segs.drop_first(), e) },
                    ),
                    Entry::File { .. } => children,
                }
            },
        }
    }
}

/// The children after appending `e` to the directory that `parent` leads to
/// (the directory itself when `parent` is empty), if that directory exists.
pub open spec fn append_at(children: Seq<Entry>, parent: Seq<Seq<char>>, e: Entry) -> Option<
    Seq<Entry>,
>
    decreases parent.len(),
{
    if parent.len() == 0 {
        Some(children.push(e))
    } else {
        match first_index(children, parent[0]) {
            None => None,
            Some(i) => match children[i] {
                Entry::Dir { name, children: c } => match append_at(c, parent.drop_first(), e) {
                    Some(c2) => Some(children.update(i, Entry::Dir { name, children: c2 })),
                    None => None,
                },
                Entry::File { .. } => None,
            },
        }
    }
}

pub open spec fn string_views(v: Seq<String>) -> Seq<Seq<char>> {
    v.map_values(|s: String| s@)
}

/// Why a tree operation could not be carried out.
#[derive(Debug, PartialEq, Eq, Structural, Clone, Copy)]
pub enum TreeError {
    NotFound,
}

impl DirData {
    pub open spec fn view(&self) -> Seq<Entry> {
        views(self.files@)
    }

    pub fn new(files: Vec<SimpleFile>) -> (r: DirData)
        ensures
            r.files@ == files@,
    {
        DirData { files }
    }

    /// Position of the first child called `name`.
    pub(crate) fn position(&self, name: &String) -> (r: Option<usize>)
        ensures
            r matches Some(i) ==> first_index(self@, name@) == Some(i as int) && i < self.files@.len(),
            r is None ==> first_index(self@, name@) is None,
    {
        proof {
            lemma_views(self.files@);
        }
        let mut i: usize = 0;
        while i < self.files.len()
            invariant
                0 <= i <= self.files.len(),
                views(self.files@).len() == self.files.len(),
                forall|j: int| 0 <= j < i ==> (#[trigger] views(self.files@)[j]).name() != name@,
                forall|j: int|
                    0 <= j < self.files.len() ==> #[trigger] views(self.files@)[j]
                        == self.files@[j].view(),
            decreases self.files.len() - i,
        {
            if self.files[i].name == *name {
                proof {
                    lemma_first_index_found(self@, name@, i as int);
                }
                return Some(i);
            }
            i = i + 1;
        }
        proof {
            lemma_first_index_absent(self@, name@);
        }
        None
    }

    /// The node that `relative_path` leads to.
    pub fn get_file(&self, relative_path: &str) -> (r: Option<&SimpleFile>)
        ensures
            match resolve(self@, split_path(relative_path@)) {
                Some(e) => r matches Some(f) && f@ == e,
                None => r is None,
            },
    {
        let segs = split_segments(relative_path);
        proof {
            lemma_split_path_nonempty(relative_path@);
            assert(string_views(segs@).subrange(0, segs@.len() as int) =~= string_views(segs@));
        }
        get_in(self, &segs, 0)
    }

    /// The node that `relative_path` leads to, for changing in place.
    pub fn get_file_mut(&mut self, relative_path: &str) -> (r: Option<&mut SimpleFile>)
        ensures
            match resolve(old(self)@, split_path(relative_path@)) {
                Some(e) => r matches Some(f) && f@ == e && final(self)@ == replace_at(
                    old(self)@,
                    split_path(relative_path@),
                    final(f)@,
                ),
                None => r is None && final(self)@ == old(self)@,
            },
    {
        let segs = split_segments(relative_path);
        proof {
            lemma_split_path_nonempty(relative_path@);
            assert(string_views(segs@).subrange(0, segs@.len() as int) =~= string_views(segs@));
        }
        get_mut_in(self, &segs, 0)
    }

    /// Whether `relative_path` leads to a node.
    pub fn contains_file(&self, relative_path: &str) -> (r: bool)
        ensures
            r == resolve(self@, split_path(relative_path@)) is Some,
    {
        self.get_file(relative_path).is_some()
    }

    /// Removes the node that `relative_path` leads to from its parent.
    pub fn remove_file(&mut self, relative_path: &str) -> (r: Result<(), TreeError>)
        ensures
            match remove_at(old(self)@, split_path(relative_path@)) {
                Some(c) => r is Ok && final(self)@ == c,
                None => r is Err && final(self)@ == old(self)@,
            },
    {
        let segs = split_segments(relative_path);
        proof {
            lemma_split_path_nonempty(relative_path@);
            assert(string_views(segs@).subrange(0, segs@.len() as int) =~= string_views(segs@));
        }
        remove_in(self, &segs, 0)
    }

    /// Appends `node` to the directory that `parent` leads to (this directory
    /// itself when `parent` is empty).
    pub fn append_child(&mut self, parent: &Vec<String>, node: SimpleFile) -> (r: Result<(), TreeError>)
        ensures
            match append_at(old(self)@, string_views(parent@), node@) {
                Some(c) => r is Ok && final(self)@ == c,
                None => r is Err && final(self)@ == old(self)@,
            },
    {
        proof {
            assert(string_views(parent@).subrange(0, parent@.len() as int) =~= string_views(parent@));
        }
        append_in(self, parent, 0, node)
    }
}

impl FileData {
    pub fn new(length: u64, sha1: String, modified: u64) -> (r: FileData)
        ensures
            r.length == length,
            r.sha1@ == sha1@,
            r.modified == modified,
    {
        FileData { length, sha1, modified }
    }
}

impl SimpleFile {
    pub fn new_file(name: &str, length: u64, sha1: &str, modified: u64) -> (r: SimpleFile)
        ensures
            r@ == (Entry::File { name: name@, length, hash: sha1@, modified }),
    {
        SimpleFile {
            name: name.to_owned(),
            kind: NodeKind::File(FileData { length, sha1: sha1.to_owned(), modified }),
        }
    }

    pub fn new_directory(name: &str, files: Vec<SimpleFile>) -> (r: SimpleFile)
        ensures
            r@ == (Entry::Dir { name: name@, children: views(files@) }),
    {
        SimpleFile { name: name.to_owned(), kind: NodeKind::Dir(DirData { files }) }
    }

    pub fn is_file(&self) -> (r: bool)
        ensures
            r == self@ is File,
    {
        match &self.kind {
            NodeKind::File(_) => true,
            NodeKind::Dir(_) => false,
        }
    }

    pub fn is_dir(&self) -> (r: bool)
        ensures
            r == self@ is Dir,
    {
        match &self.kind {
            NodeKind::File(_) => false,
            NodeKind::Dir(_) => true,
        }
    }

    pub fn as_file(&self) -> (r: Option<&FileData>)
        ensures
            match self.kind {
                NodeKind::File(f) => r == Some(&f),
                NodeKind::Dir(_) => r is None,
            },
    {
        match &self.kind {
            NodeKind::File(f) => Some(f),
            NodeKind::Dir(_) => None,
        }
    }

    pub fn as_dir(&self) -> (r: Option<&DirData>)
        ensures
            match self.kind {
                NodeKind::Dir(d) => r == Some(&d),
                NodeKind::File(_) => r is None,
            },
    {
        match &self.kind {
            NodeKind::Dir(d) => Some(d),
            NodeKind::File(_) => None,
        }
    }

    pub fn as_file_mut(&mut self) -> (r: Option<&mut FileData>)
        ensures
            old(self).kind is File <==> r is Some,
            r matches Some(f) ==> old(self).kind == NodeKind::File(*f) && final(self).name == old(
                self,
            ).name && final(self).kind == NodeKind::File(*final(f)),
            r is None ==> *final(self) == *old(self),
    {
        match &mut self.kind {
            NodeKind::File(f) => Some(f),
            NodeKind::Dir(_) => None,
        }
    }

    pub fn as_dir_mut(&mut self) -> (r: Option<&mut DirData>)
        ensures
            old(self).kind is Dir <==> r is Some,
            r matches Some(d) ==> old(self).kind == NodeKind::Dir(*d) && final(self).name == old(
                self,
            ).name && final(self).kind == NodeKind::Dir(*final(d)),
            r is None ==> *final(self) == *old(self),
    {
        match &mut self.kind {
            NodeKind::Dir(d) => Some(d),
            NodeKind::File(_) => None,
        }
    }
}

/// Whether two nodes describe the same tree.
fn same_node(a: &SimpleFile, b: &SimpleFile) -> (r: bool)
    ensures
        r == (a@ == b@),
    decreases a@,
{
    if a.name != b.name {
        return false;
    }
    match (&a.kind, &b.kind) {
        (NodeKind::File(x), NodeKind::File(y)) => x.length == y.length && x.sha1 == y.sha1
            && x.modified == y.modified,
        (NodeKind::Dir(x), NodeKind::Dir(y)) => {
            proof {
                lemma_views(x.files@);
                lemma_views(y.files@);
            }
            if x.files.len() != y.files.len() {
                return false;
            }
            let mut i: usize = 0;
            while i < x.files.len()
                invariant
                    i <= x.files@.len(),
                    x.files@.len() == y.files@.len(),
                    a@ == (Entry::Dir { name: a.name@, children: x@ }),
                    b@ == (Entry::Dir { name: b.name@, children: y@ }),
                    views(x.files@).len() == x.files@.len(),
                    views(y.files@).len() == y.files@.len(),
                    forall|j: int| 0 <= j < x.files@.len() ==> #[trigger] views(x.files@)[j] == x.files@[j]@,
                    forall|j: int| 0 <= j < y.files@.len() ==> #[trigger] views(y.files@)[j] == y.files@[j]@,
                    forall|j: int| 0 <= j < i ==> views(x.files@)[j] == views(y.files@)[j],
                decreases x.files@.len() - i,
            {
                proof {
                    assert(a@->children == x@);
                    assert(decreases_to!(a@ => x@[i as int]));
                }
                if !same_node(&x.files[i], &y.files[i]) {
                    assert(x@[i as int] != y@[i as int]);
                    assert(a@->children != b@->children);
                    return false;
                }
                i = i + 1;
            }
            assert(x@ =~= y@);
            true
        },
        _ => false,
    }
}

impl PartialEq for SimpleFile {
    fn eq(&self, other: &SimpleFile) -> (r: bool) {
        same_node(self, other)
    }
}

impl vstd::std_specs::cmp::PartialEqSpecImpl for SimpleFile {
    open spec fn obeys_eq_spec() -> bool {
        true
    }

    open spec fn eq_spec(&self, other: &SimpleFile) -> bool {
        self@ == other@
    }
}

fn get_in<'a>(dir: &'a DirData, segs: &Vec<String>, k: usize) -> (r: Option<&'a SimpleFile>)
    requires
        k < segs.len(),
    ensures
        match resolve(dir@, string_views(segs@).subrange(k as int, segs@.len() as int)) {
            Some(e) => r matches Some(f) && f@ == e,
            None => r is None,
        },
    decreases segs.len() - k,
{
    let ghost s = string_views(segs@).subrange(k as int, segs@.len() as int);
    assert(s[0] == segs@[k as int]@);
    assert(s.drop_first() =~= string_views(segs@).subrange(k + 1, segs@.len() as int));
    proof {
        lemma_views(dir.files@);
    }
    match dir.position(&segs[k]) {
        None => None,
        Some(i) => {
            let child = &dir.files[i];
            if k + 1 == segs.len() {
                Some(child)
            } else {
                match &child.kind {
                    NodeKind::Dir(d) => get_in(d, segs, k + 1),
                    NodeKind::File(_) => None,
                }
            }
        },
    }
}

fn get_mut_in<'a>(dir: &'a mut DirData, segs: &Vec<String>, k: usize) -> (r: Option<&'a mut SimpleFile>)
    requires
        k < segs.len(),
    ensures
        match resolve(old(dir)@, string_views(segs@).subrange(k as int, segs@.len() as int)) {
            Some(e) => r matches Some(f) && f@ == e && final(dir)@ == replace_at(
                old(dir)@,
                string_views(segs@).subrange(k as int, segs@.len() as int),
                final(f)@,
            ),
            None => r is None && final(dir)@ == old(dir)@,
        },
    decreases segs.len() - k,
{
    broadcast use lemma_views_update;

    let ghost s = string_views(segs@).subrange(k as int, segs@.len() as int);
    assert(s[0] == segs@[k as int]@);
    assert(s.drop_first() =~= string_views(segs@).subrange(k + 1, segs@.len() as int));
    proof {
        lemma_views(dir.files@);
    }
    match dir.position(&segs[k]) {
        None => None,
        Some(i) => {
            if k + 1 == segs.len() {
                let child = &mut dir.files[i];
                Some(child)
            } else {
                let child = &mut dir.files[i];
                match &mut child.kind {
                    NodeKind::Dir(d) => get_mut_in(d, segs, k + 1),
                    NodeKind::File(_) => None,
                }
            }
        },
    }
}

fn remove_in(dir: &mut DirData, segs: &Vec<String>, k: usize) -> (r: Result<(), TreeError>)
    requires
        k < segs.len(),
    ensures
        match remove_at(old(dir)@, string_views(segs@).subrange(k as int, segs@.len() as int)) {
            Some(c) => r is Ok && final(dir)@ == c,
            None => r is Err && final(dir)@ == old(dir)@,
        },
    decreases segs.len() - k,
{
    let ghost s = string_views(segs@).subrange(k as int, segs@.len() as int);
    let ghost old_files = dir.files@;
    assert(s[0] == segs@[k as int]@);
    assert(s.drop_first() =~= string_views(segs@).subrange(k + 1, segs@.len() as int));
    proof {
        lemma_views(dir.files@);
    }
    match dir.position(&segs[k]) {
        None => Err(TreeError::NotFound),
        Some(i) => {
            if k + 1 == segs.len() {
                dir.files.remove(i);
                proof {
                    lemma_views(dir.files@);
                    assert(dir@ =~= views(old_files).remove(i as int));
                }
                Ok(())
            } else {
                let mut child = dir.files.remove(i);
                let ghost old_child = child;
                let r = match &mut child.kind {
                    NodeKind::Dir(d) => remove_in(d, segs, k + 1),
                    NodeKind::File(_) => Err(TreeError::NotFound),
                };
                dir.files.insert(i, child);
                proof {
                    lemma_views(dir.files@);
                    if r is Ok {
                        assert(dir@ =~= views(old_files).update(i as int, child@));
                    } else {
                        assert(dir@ =~= views(old_files));
                    }
                }
                r
            }
        },
    }
}

fn append_in(dir: &mut DirData, parent: &Vec<String>, k: usize, node: SimpleFile) -> (r: Result<(), TreeError>)
    requires
        k <= parent.len(),
    ensures
        match append_at(old(dir)@, string_views(parent@).subrange(k as int, parent@.len() as int), node@) {
            Some(c) => r is Ok && final(dir)@ == c,
            None => r is Err && final(dir)@ == old(dir)@,
        },
    decreases parent.len() - k,
{
    let ghost s = string_views(parent@).subrange(k as int, parent@.len() as int);
    let ghost old_files = dir.files@;
    proof {
        lemma_views(dir.files@);
    }
    if k == parent.len() {
        dir.files.push(node);
        proof {
            lemma_views(dir.files@);
            assert(dir@ =~= views(old_files).push(node@));
        }
        return Ok(());
    }
    assert(s[0] == parent@[k as int]@);
    assert(s.drop_first() =~= string_views(parent@).subrange(k + 1, parent@.len() as int));
    match dir.position(&parent[k]) {
        None => Err(TreeError::NotFound),
        Some(i) => {
            let mut child = dir.files.remove(i);
            let r = match &mut child.kind {
                NodeKind::Dir(d) => append_in(d, parent, k + 1, node),
                NodeKind::File(_) => Err(TreeError::NotFound),
            };
            dir.files.insert(i, child);
            proof {
                lemma_views(dir.files@);
                if r is Ok {
                    assert(dir@ =~= views(old_files).update(i as int, child@));
                } else {
                    assert(dir@ =~= views(old_files));
                }
            }
            r
        },
    }
}

} // verus!
