use vstd::prelude::*;

use crate::diff::Differences;
use crate::paths::contains_path;
use crate::tree::string_views;

verus! {

/// The removed files that are to be deleted: in overlay mode a file that is
/// also re-added is left for the upload to overwrite.
pub open spec fn kept_deletions(old: Seq<Seq<char>>, new: Seq<Seq<char>>, overlay: bool) -> Seq<Seq<char>>
    decreases old.len(),
{
    if old.len() == 0 {
        Seq::empty()
    } else {
        let r = kept_deletions(old.drop_last(), new, overlay);
        if overlay && new.contains(old.last()) {
            r
        } else {
            r.push(old.last())
        }
    }
}

/// What one synchronization run does, phase by phase, for a set of differences.
pub struct OperationPlan {
    /// Run the start-up commands first.
    pub run_start_up: bool,
    /// Paths for the delete-file commands.
    pub delete_files: Vec<String>,
    /// Paths for the delete-dir commands.
    pub delete_dirs: Vec<String>,
    /// Paths for the make-dir commands.
    pub make_dirs: Vec<String>,
    /// Paths for the upload-file commands.
    pub upload_files: Vec<String>,
    /// Run the clean-up commands last.
    pub run_clean_up: bool,
    /// Write the updated state afterwards.
    pub update_state: bool,
}

fn copy_paths(v: &Vec<String>) -> (r: Vec<String>)
    ensures
        string_views(r@) == string_views(v@),
{
    let mut out: Vec<String> = Vec::new();
    let mut i: usize = 0;
    while i < v.len()
        invariant
            i <= v@.len(),
            string_views(out@) == string_views(v@).take(i as int),
        decreases v@.len() - i,
    {
        let ghost before = string_views(out@);
        out.push(v[i].clone());
        assert(string_views(out@) =~= before.push(v@[i as int]@));
        assert(string_views(v@).take(i + 1) =~= string_views(v@).take(i as int).push(v@[i as int]@));
        i = i + 1;
    }
    assert(string_views(v@).take(i as int) =~= string_views(v@));
    out
}

/// Plans a run from its differences: deletions before creations, start-up
/// and clean-up only when something differs, and the state written only
/// when something differs and a state file is kept locally or remotely.
pub fn plan_operations(diff: &Differences, overlay_mode: bool, use_local_state: bool, use_remote_state: bool) -> (r: OperationPlan)
    ensures
        r.run_start_up == !diff@.is_empty(),
        r.run_clean_up == !diff@.is_empty(),
        r.update_state == (!diff@.is_empty() && (use_local_state || use_remote_state)),
        string_views(r.delete_files@) == kept_deletions(diff@.old_files, diff@.new_files, overlay_mode),
        string_views(r.delete_dirs@) == diff@.old_folders,
        string_views(r.make_dirs@) == diff@.new_folders,
        string_views(r.upload_files@) == diff@.new_files,
{
    let changed = diff.has_differences();
    let mut delete_files: Vec<String> = Vec::new();
    let mut i: usize = 0;
    let ghost old_v = diff@.old_files;
    let ghost new_v = diff@.new_files;
    assert(old_v.take(0) =~= Seq::<Seq<char>>::empty());
    assert(string_views(delete_files@) =~= Seq::<Seq<char>>::empty());
    while i < diff.old_files.len()
        invariant
            i <= diff.old_files@.len(),
            old_v == diff@.old_files,
            new_v == diff@.new_files,
            string_views(delete_files@) == kept_deletions(old_v.take(i as int), new_v, overlay_mode),
        decreases diff.old_files@.len() - i,
    {
        let p = &diff.old_files[i];
        assert(old_v.take(i + 1).drop_last() =~= old_v.take(i as int));
        assert(old_v.take(i + 1).last() == p@);
        if !(overlay_mode && contains_path(&diff.new_files, p)) {
            let ghost before = string_views(delete_files@);
            delete_files.push(p.clone());
            assert(string_views(delete_files@) =~= before.push(p@));
        }
        i = i + 1;
    }
    assert(old_v.take(i as int) =~= old_v);
    OperationPlan {
        run_start_up: changed,
        delete_files,
        delete_dirs: copy_paths(&diff.old_folders),
        make_dirs: copy_paths(&diff.new_folders),
        upload_files: copy_paths(&diff.new_files),
        run_clean_up: changed,
        update_state: changed && (use_local_state || use_remote_state),
    }
}

} // verus!
