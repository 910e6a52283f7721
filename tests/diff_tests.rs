use incremental_upload::diff::{content_hash_needed, Differences, FileComparer};
use incremental_upload::plan::plan_operations;
use incremental_upload::filter::RuleFilter;
use incremental_upload::manifest::State;
use incremental_upload::tree::{DirData, SimpleFile, TreeError};

fn no_filter() -> RuleFilter {
    RuleFilter::new(&vec![]).ok().unwrap()
}

fn state(files: Vec<SimpleFile>) -> State {
    State { files: DirData::new(files) }
}

fn compare(manifest: &State, live: &DirData, fast: bool, filter: RuleFilter) -> Differences {
    let mut c = FileComparer::new(fast, filter);
    c.compare(live, manifest);
    c.differences
}

#[test]
fn changed_content_is_removed_then_added() {
    let manifest = state(vec![SimpleFile::new_file("a.txt", 1, "H1", 100)]);
    let live = DirData::new(vec![SimpleFile::new_file("a.txt", 1, "H2", 200)]);
    let d = compare(&manifest, &live, false, no_filter());
    assert_eq!(d.old_files, vec!["a.txt"]);
    assert_eq!(d.new_files, vec!["a.txt"]);
    assert!(d.old_folders.is_empty() && d.new_folders.is_empty());
}

#[test]
fn new_nested_file_adds_its_directory() {
    let manifest = state(vec![]);
    let live = DirData::new(vec![SimpleFile::new_directory("x", vec![SimpleFile::new_file("y.txt", 1, "h", 1)])]);
    let d = compare(&manifest, &live, false, no_filter());
    assert_eq!(d.new_folders, vec!["x"]);
    assert_eq!(d.new_files, vec!["x/y.txt"]);
    assert!(d.old_files.is_empty() && d.old_folders.is_empty());
}

#[test]
fn missing_directory_is_removed_with_its_contents() {
    let manifest = state(vec![SimpleFile::new_directory(
        "old",
        vec![
            SimpleFile::new_file("a", 1, "h", 1),
            SimpleFile::new_directory("sub", vec![SimpleFile::new_file("b", 1, "h", 1)]),
        ],
    )]);
    let live = DirData::new(vec![]);
    let d = compare(&manifest, &live, false, no_filter());
    assert_eq!(d.old_folders, vec!["old/sub", "old"]);
    assert_eq!(d.old_files, vec!["old/a", "old/sub/b"]);
    assert!(d.new_files.is_empty() && d.new_folders.is_empty());
}

#[test]
fn fast_comparison_trusts_equal_timestamps() {
    let manifest = state(vec![SimpleFile::new_file("a.txt", 1, "H1", 100)]);
    let live = DirData::new(vec![SimpleFile::new_file("a.txt", 1, "", 100)]);
    assert!(!compare(&manifest, &live, true, no_filter()).has_differences());
    assert!(compare(&manifest, &live, false, no_filter()).has_differences());
    let same_hash = DirData::new(vec![SimpleFile::new_file("a.txt", 1, "H1", 300)]);
    assert!(!compare(&manifest, &same_hash, false, no_filter()).has_differences());
}

#[test]
fn type_change_is_removed_and_added() {
    let manifest = state(vec![SimpleFile::new_file("p", 1, "h", 1)]);
    let live = DirData::new(vec![SimpleFile::new_directory("p", vec![SimpleFile::new_file("q", 1, "h", 1)])]);
    let d = compare(&manifest, &live, false, no_filter());
    assert_eq!(d.old_files, vec!["p"]);
    assert_eq!(d.new_folders, vec!["p"]);
    assert_eq!(d.new_files, vec!["p/q"]);
    let back = compare(&state(vec![SimpleFile::new_directory("p", vec![])]), &DirData::new(vec![SimpleFile::new_file("p", 1, "h", 1)]), false, no_filter());
    assert_eq!(back.old_folders, vec!["p"]);
    assert_eq!(back.new_files, vec!["p"]);
}

#[test]
fn filter_hides_paths() {
    let manifest = state(vec![SimpleFile::new_file("gone.log", 1, "h", 1)]);
    let live = DirData::new(vec![
        SimpleFile::new_file("keep.txt", 1, "h", 1),
        SimpleFile::new_file("skip.log", 1, "h", 1),
    ]);
    let filter = RuleFilter::new(&vec!["!\\.log$".to_string()]).ok().unwrap();
    let d = compare(&manifest, &live, false, filter);
    assert_eq!(d.new_files, vec!["keep.txt"]);
    assert!(d.old_files.is_empty());
    for p in d.new_files.iter().chain(d.old_files.iter()) {
        assert!(!p.ends_with(".log"));
    }
}

#[test]
fn added_files_and_folders_never_share_a_path() {
    let manifest = state(vec![SimpleFile::new_file("a", 1, "h", 1), SimpleFile::new_directory("b", vec![])]);
    let live = DirData::new(vec![
        SimpleFile::new_directory("a", vec![SimpleFile::new_directory("c", vec![])]),
        SimpleFile::new_file("b", 1, "h", 1),
    ]);
    let d = compare(&manifest, &live, false, no_filter());
    for p in &d.new_files {
        assert!(!d.new_folders.contains(p));
    }
    for p in &d.old_files {
        assert!(!d.old_folders.contains(p));
    }
    assert_eq!(d.new_folders, vec!["a", "a/c"]);
    assert_eq!(d.new_files, vec!["b"]);
}

#[test]
fn second_run_after_update_finds_nothing() {
    let mut manifest = state(vec![
        SimpleFile::new_file("a.txt", 1, "H1", 100),
        SimpleFile::new_directory("old", vec![SimpleFile::new_file("z", 1, "h", 1)]),
        SimpleFile::new_file("t", 1, "h", 1),
    ]);
    let live = DirData::new(vec![
        SimpleFile::new_file("a.txt", 2, "H2", 200),
        SimpleFile::new_directory("x", vec![SimpleFile::new_file("y.txt", 1, "h", 1)]),
        SimpleFile::new_directory("t", vec![SimpleFile::new_file("u", 3, "k", 4)]),
    ]);
    let d = compare(&manifest, &live, false, no_filter());
    assert!(d.has_differences());
    assert_eq!(manifest.update_from_differences(&d, &live), Ok(()));
    let again = compare(&manifest, &live, false, no_filter());
    assert!(!again.has_differences());
    let a = manifest.files.get_file("a.txt").unwrap().as_file().unwrap();
    assert_eq!((a.length, a.sha1.as_str(), a.modified), (2, "H2", 200));
}

#[test]
fn empty_differences() {
    let d = Differences::new();
    assert!(!d.has_differences());
}

#[test]
fn plan_orders_phases_and_applies_overlay() {
    let manifest = state(vec![SimpleFile::new_file("a.txt", 1, "H1", 100), SimpleFile::new_file("b", 1, "h", 1)]);
    let live = DirData::new(vec![SimpleFile::new_file("a.txt", 1, "H2", 200)]);
    let d = compare(&manifest, &live, false, no_filter());
    let overlay = plan_operations(&d, true, false, true);
    assert_eq!(overlay.delete_files, vec!["b"]);
    assert_eq!(overlay.upload_files, vec!["a.txt"]);
    assert!(overlay.run_start_up && overlay.run_clean_up && overlay.update_state);
    let plain = plan_operations(&d, false, false, false);
    assert_eq!(plain.delete_files, vec!["a.txt", "b"]);
    assert!(!plain.update_state);
    let none = plan_operations(&Differences::new(), false, true, true);
    assert!(!none.run_start_up && !none.run_clean_up && !none.update_state);
}

#[test]
fn content_hash_needed_only_when_timestamps_differ() {
    let manifest = state(vec![SimpleFile::new_directory("d", vec![SimpleFile::new_file("f", 1, "h", 10)])]);
    assert!(!content_hash_needed(&manifest, "d/f", 10, true));
    assert!(content_hash_needed(&manifest, "d/f", 11, true));
    assert!(content_hash_needed(&manifest, "d/f", 10, false));
    assert!(content_hash_needed(&manifest, "d/g", 10, true));
    assert!(content_hash_needed(&manifest, "d", 10, true));
}

#[test]
fn backslash_is_part_of_a_name() {
    let mut manifest = state(vec![SimpleFile::new_file("a\\b", 1, "h", 1), SimpleFile::new_file("keep", 1, "h", 1)]);
    let live = DirData::new(vec![SimpleFile::new_file("keep", 1, "h", 1), SimpleFile::new_directory("x\\y", vec![])]);
    let d = compare(&manifest, &live, false, no_filter());
    assert_eq!(d.old_files, vec!["a\\b"]);
    assert_eq!(d.new_folders, vec!["x\\y"]);
    assert_eq!(manifest.update_from_differences(&d, &live), Ok(()));
    assert!(manifest.files.contains_file("x\\y"));
    assert!(!compare(&manifest, &live, false, no_filter()).has_differences());
}

#[test]
fn update_reports_a_step_that_cannot_be_done() {
    let mut manifest = state(vec![SimpleFile::new_file("a", 1, "h", 1)]);
    let live = DirData::new(vec![]);
    let mut d = Differences::new();
    d.old_files.push("missing".to_string());
    assert_eq!(manifest.update_from_differences(&d, &live), Err(TreeError::NotFound));
    let mut add = Differences::new();
    add.new_files.push("not/live".to_string());
    assert_eq!(manifest.update_from_differences(&add, &live), Err(TreeError::NotFound));
}
