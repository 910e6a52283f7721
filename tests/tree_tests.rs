use incremental_upload::manifest::{RawEntry, State};
use incremental_upload::tree::{DirData, FileData, SimpleFile, TreeError};

fn file(name: &str, hash: &str, modified: u64) -> SimpleFile {
    SimpleFile::new_file(name, 3, hash, modified)
}

fn sample() -> DirData {
    DirData::new(vec![
        file("a.txt", "h1", 100),
        SimpleFile::new_directory("docs", vec![file("readme.md", "h2", 5), SimpleFile::new_directory("img", vec![])]),
    ])
}

#[test]
fn get_file_resolves_nested_paths() {
    let d = sample();
    let f = d.get_file("docs/readme.md").unwrap();
    assert_eq!(f.name, "readme.md");
    assert!(f.is_file());
    assert_eq!(f.as_file().unwrap().sha1, "h2");
    assert!(d.get_file("docs/img").unwrap().is_dir());
    assert!(d.get_file("docs\\img").is_none());
    assert!(d.get_file("a.txt/x").is_none());
    assert!(d.get_file("missing").is_none());
    assert!(d.contains_file("docs"));
    assert!(!d.contains_file("docs/other"));
}

#[test]
fn remove_file_removes_only_the_target() {
    let mut d = sample();
    assert_eq!(d.remove_file("docs/readme.md"), Ok(()));
    assert!(!d.contains_file("docs/readme.md"));
    assert!(d.contains_file("docs/img"));
    assert_eq!(d.remove_file("docs/readme.md"), Err(TreeError::NotFound));
    assert_eq!(d.remove_file("a.txt/readme.md"), Err(TreeError::NotFound));
    assert_eq!(d.files.len(), 2);
}

#[test]
fn node_accessors() {
    let mut f = file("a", "h", 1);
    assert!(f.as_dir().is_none());
    f.as_file_mut().unwrap().modified = 9;
    assert_eq!(f.as_file().unwrap().modified, 9);
    let mut d = SimpleFile::new_directory("d", vec![]);
    assert!(d.as_file_mut().is_none());
    d.as_dir_mut().unwrap().files.push(file("x", "h", 2));
    assert_eq!(d.as_dir().unwrap().files.len(), 1);
    let data = FileData::new(4, "abc".to_string(), 7);
    assert_eq!((data.length, data.sha1.as_str(), data.modified), (4, "abc", 7));
}

#[test]
fn make_dir_and_add_file() {
    let mut s = State::from_entries(&vec![]);
    assert_eq!(s.make_dir("x"), Ok(()));
    assert_eq!(s.add_file("x/y.txt", 10, "hh", 42), Ok(()));
    assert_eq!(s.add_file("z/y.txt", 10, "hh", 42), Err(TreeError::NotFound));
    let y = s.files.get_file("x/y.txt").unwrap().as_file().unwrap();
    assert_eq!((y.length, y.sha1.as_str(), y.modified), (10, "hh", 42));
    assert_eq!(s.remove_file_or_dir("x"), Ok(()));
    assert!(s.files.files.is_empty());
    assert_eq!(s.make_dir("a\\b"), Ok(()));
    assert!(s.files.get_file("a\\b").unwrap().is_dir());
    assert_eq!(s.remove_file_or_dir("a\\b"), Ok(()));
    assert!(s.files.files.is_empty());
}

fn raw_file(name: Option<&str>, length: Option<u64>, hash: Option<&str>, modified: Option<u64>) -> RawEntry {
    RawEntry {
        name: name.map(|s| s.to_string()),
        children: None,
        length,
        hash: hash.map(|s| s.to_string()),
        modified,
    }
}

#[test]
fn load_drops_incomplete_file_entries() {
    let entries = vec![
        raw_file(Some("ok"), Some(1), Some("h"), Some(2)),
        raw_file(Some("no-hash"), Some(1), None, Some(2)),
        raw_file(None, Some(1), Some("h"), Some(2)),
        RawEntry {
            name: Some("dir".to_string()),
            children: Some(vec![raw_file(Some("inner"), Some(5), Some("g"), Some(6))]),
            length: None,
            hash: None,
            modified: None,
        },
    ];
    let s = State::from_entries(&entries);
    assert_eq!(s.files.files.len(), 2);
    assert!(s.files.contains_file("ok"));
    assert!(!s.files.contains_file("no-hash"));
    assert!(s.files.get_file("dir/inner").unwrap().is_file());
    let back = State::from_entries(&s.to_entries());
    assert_eq!(back.files.files.len(), 2);
    assert_eq!(back.files.get_file("dir/inner").unwrap().as_file().unwrap().sha1, "g");
}

#[test]
fn get_file_mut_changes_in_place() {
    let mut d = sample();
    d.get_file_mut("docs/readme.md").unwrap().as_file_mut().unwrap().sha1 = "new".to_string();
    assert_eq!(d.get_file("docs/readme.md").unwrap().as_file().unwrap().sha1, "new");
    assert!(d.get_file_mut("docs/missing").is_none());
    assert!(d.get_file_mut("a.txt/x").is_none());
    assert_eq!(d.files.len(), 2);
}

#[test]
fn nodes_compare_by_content() {
    let a = SimpleFile::new_directory("d", vec![file("x", "h", 1), file("y", "h", 2)]);
    let b = SimpleFile::new_directory("d", vec![file("x", "h", 1), file("y", "h", 2)]);
    let c = SimpleFile::new_directory("d", vec![file("x", "h", 1)]);
    let e = SimpleFile::new_directory("d", vec![file("x", "h", 1), file("y", "other", 2)]);
    assert!(a == b);
    assert!(a != c);
    assert!(a != e);
    assert!(file("x", "h", 1) != SimpleFile::new_directory("x", vec![]));
}
