//! The ordered reconciliation plan.
//!
//! A comparison is reconciled in four strictly ordered phases: delete files,
//! delete directories, create directories, upload files. `build_plan` lays
//! the four phases out as one action sequence in that order; a driver
//! dispatches the actions of each phase (concurrently within a phase, with a
//! barrier between phases) and mutates the state only for targets whose
//! commands succeeded. When a phase has no configured command, the whole
//! phase is local bookkeeping: `apply_plan` performs exactly the state
//! mutations the plan calls for.
//!
//! In overlay mode a path present in both `old_files` and `new_files` is
//! skipped by the delete commands (the upload overwrites it), but its state
//! record is still removed and rewritten.

use vstd::prelude::*;

use crate::diff::FileDifferences;
use crate::diff::SourceEntry;
use crate::diff::seq_has;
use crate::diff::tree_find;
use crate::diff::tree_unique;
use crate::diff::tree_lookup;
use crate::bytestr::bytes_eq;
use crate::bytestr::copy_bytes;
use crate::state::RecordModel;
use crate::state::State;

verus! {

/// One unit of reconciliation work against a single target path.
pub enum Action {
    /// Delete a remote file; `run_command` is false when overlay mode
    /// suppresses the delete commands for a path that is also uploaded.
    /// The state record is removed either way.
    DeleteFile { path: Vec<u8>, run_command: bool },
    /// Delete a remote directory.
    DeleteDir { path: Vec<u8> },
    /// Create a remote directory.
    MakeDir { path: Vec<u8> },
    /// Upload a local file; carries the modified time and content hash its
    /// new state record is to hold.
    UploadFile { path: Vec<u8>, modified: u64, hash: Vec<u8> },
}

/// The target path of an action.
pub open spec fn action_path(a: Action) -> Seq<u8> {
    match a {
        Action::DeleteFile { path, .. } => path@,
        Action::DeleteDir { path } => path@,
        Action::MakeDir { path } => path@,
        Action::UploadFile { path, .. } => path@,
    }
}

/// What one successful action does to the state map.
pub open spec fn action_effect(
    sm: Map<Seq<u8>, RecordModel>,
    a: Action,
) -> Map<Seq<u8>, RecordModel> {
    match a {
        Action::DeleteFile { path, .. } => sm.remove(path@),
        Action::DeleteDir { path } => sm.remove(path@),
        Action::MakeDir { path } => sm.insert(path@, RecordModel::Dir),
        Action::UploadFile { path, modified, hash } => sm.insert(
            path@,
            RecordModel::File { modified, hash: hash@ },
        ),
    }
}

/// The state map after every action of the plan has succeeded, in order.
pub open spec fn plan_effect(
    sm: Map<Seq<u8>, RecordModel>,
    plan: Seq<Action>,
) -> Map<Seq<u8>, RecordModel>
    decreases plan.len(),
{
    if plan.len() == 0 {
        sm
    } else {
        action_effect(plan_effect(sm, plan.drop_last()), plan.last())
    }
}

/// A path names a file of the tree snapshot.
pub open spec fn file_in_tree(tv: Seq<SourceEntry>, p: Seq<u8>) -> bool {
    match tree_find(tv, p) {
        Some(e) => !e.is_dir,
        None => false,
    }
}

/// The plan lays the four phases of the comparison out in order: the
/// deletes for `old_files` (with the overlay policy applied to their
/// commands), the deletes for `old_folders`, the directory creations for
/// `new_folders`, and the uploads for `new_files` with the modified time
/// and hash of the local entry.
pub open spec fn plan_matches(
    tv: Seq<SourceEntry>,
    d: FileDifferences,
    overlay: bool,
    plan: Seq<Action>,
) -> bool {
    let n1 = d.old_files@.len() as int;
    let n2 = n1 + d.old_folders@.len();
    let n3 = n2 + d.new_folders@.len();
    &&& plan.len() == n3 + d.new_files@.len()
    &&& forall|i: int|
        #![trigger plan[i]]
        0 <= i < n1 ==> (plan[i] matches Action::DeleteFile { path, run_command }
            && path@ == d.old_files@[i]@ && run_command == !(overlay && seq_has(
            d.new_files@,
            d.old_files@[i]@,
        )))
    &&& forall|i: int|
        #![trigger plan[n1 + i]]
        0 <= i < d.old_folders@.len() ==> (plan[n1 + i] matches Action::DeleteDir { path }
            && path@ == d.old_folders@[i]@)
    &&& forall|i: int|
        #![trigger plan[n2 + i]]
        0 <= i < d.new_folders@.len() ==> (plan[n2 + i] matches Action::MakeDir { path }
            && path@ == d.new_folders@[i]@)
    &&& forall|i: int|
        #![trigger plan[n3 + i]]
        0 <= i < d.new_files@.len() ==> (plan[n3 + i] matches Action::UploadFile {
            path,
            modified,
            hash,
        } && path@ == d.new_files@[i]@ && (match tree_find(tv, d.new_files@[i]@) {
            Some(e) => !e.is_dir && modified == e.modified && hash@ == e.hash@,
            None => false,
        }))
}

/// Tests membership of a path in a list of paths.
pub fn list_has(list: &Vec<Vec<u8>>, p: &[u8]) -> (r: bool)
    ensures
        r == seq_has(list@, p@),
{
    let mut i: usize = 0;
    while i < list.len()
        invariant
            i <= list.len(),
            forall|j: int| 0 <= j < i ==> list@[j]@ != p@,
        decreases list.len() - i,
    {
        if bytes_eq(list[i].as_slice(), p) {
            assert(list@[i as int]@ == p@);
            return true;
        }
        i += 1;
    }
    proof {
        if seq_has(list@, p@) {
            let j = choose|j: int| 0 <= j < list@.len() && list@[j]@ == p@;
        }
    }
    false
}

/// Builds the ordered reconciliation plan for a comparison.
pub fn build_plan(
    d: &FileDifferences,
    tree: &Vec<SourceEntry>,
    overlay_mode: bool,
) -> (plan: Vec<Action>)
    requires
        tree_unique(tree@),
        forall|i: int|
            0 <= i < d.new_files@.len() ==> file_in_tree(tree@, #[trigger] d.new_files@[i]@),
    ensures
        plan_matches(tree@, *d, overlay_mode, plan@),
{
    let ghost tv = tree@;
    let ghost n1 = d.old_files@.len() as int;
    let ghost n2 = n1 + d.old_folders@.len();
    let ghost n3 = n2 + d.new_folders@.len();
    let mut plan: Vec<Action> = Vec::new();
    let mut i: usize = 0;
    while i < d.old_files.len()
        invariant
            tv == tree@,
            n1 == d.old_files@.len(),
            i <= d.old_files@.len(),
            plan@.len() == i,
            forall|j: int|
                #![trigger plan@[j]]
                0 <= j < i ==> (plan@[j] matches Action::DeleteFile { path, run_command }
                    && path@ == d.old_files@[j]@ && run_command == !(overlay_mode && seq_has(
                    d.new_files@,
                    d.old_files@[j]@,
                ))),
        decreases d.old_files.len() - i,
    {
        let p = copy_bytes(d.old_files[i].as_slice());
        let run_command = if overlay_mode {
            !list_has(&d.new_files, p.as_slice())
        } else {
            true
        };
        plan.push(Action::DeleteFile { path: p, run_command });
        i += 1;
    }
    let mut i: usize = 0;
    while i < d.old_folders.len()
        invariant
            tv == tree@,
            n1 == d.old_files@.len(),
            i <= d.old_folders@.len(),
            plan@.len() == n1 + i,
            forall|j: int|
                #![trigger plan@[j]]
                0 <= j < n1 ==> (plan@[j] matches Action::DeleteFile { path, run_command }
                    && path@ == d.old_files@[j]@ && run_command == !(overlay_mode && seq_has(
                    d.new_files@,
                    d.old_files@[j]@,
                ))),
            forall|j: int|
                #![trigger plan@[n1 + j]]
                0 <= j < i ==> (plan@[n1 + j] matches Action::DeleteDir { path } && path@
                    == d.old_folders@[j]@),
        decreases d.old_folders.len() - i,
    {
        let p = copy_bytes(d.old_folders[i].as_slice());
        plan.push(Action::DeleteDir { path: p });
        i += 1;
    }
    let mut i: usize = 0;
    while i < d.new_folders.len()
        invariant
            tv == tree@,
            n1 == d.old_files@.len(),
            n2 == n1 + d.old_folders@.len(),
            i <= d.new_folders@.len(),
            plan@.len() == n2 + i,
            forall|j: int|
                #![trigger plan@[j]]
                0 <= j < n1 ==> (plan@[j] matches Action::DeleteFile { path, run_command }
                    && path@ == d.old_files@[j]@ && run_command == !(overlay_mode && seq_has(
                    d.new_files@,
                    d.old_files@[j]@,
                ))),
            forall|j: int|
                #![trigger plan@[n1 + j]]
                0 <= j < d.old_folders@.len() ==> (plan@[n1 + j] matches Action::DeleteDir { path }
                    && path@ == d.old_folders@[j]@),
            forall|j: int|
                #![trigger plan@[n2 + j]]
                0 <= j < i ==> (plan@[n2 + j] matches Action::MakeDir { path } && path@
                    == d.new_folders@[j]@),
        decreases d.new_folders.len() - i,
    {
        let p = copy_bytes(d.new_folders[i].as_slice());
        plan.push(Action::MakeDir { path: p });
        i += 1;
    }
    let mut i: usize = 0;
    while i < d.new_files.len()
        invariant
            tv == tree@,
            tree_unique(tree@),
            forall|k: int|
                0 <= k < d.new_files@.len() ==> file_in_tree(tree@, #[trigger] d.new_files@[k]@),
            n1 == d.old_files@.len(),
            n2 == n1 + d.old_folders@.len(),
            n3 == n2 + d.new_folders@.len(),
            i <= d.new_files@.len(),
            plan@.len() == n3 + i,
            forall|j: int|
                #![trigger plan@[j]]
                0 <= j < n1 ==> (plan@[j] matches Action::DeleteFile { path, run_command }
                    && path@ == d.old_files@[j]@ && run_command == !(overlay_mode && seq_has(
                    d.new_files@,
                    d.old_files@[j]@,
                ))),
            forall|j: int|
                #![trigger plan@[n1 + j]]
                0 <= j < d.old_folders@.len() ==> (plan@[n1 + j] matches Action::DeleteDir { path }
                    && path@ == d.old_folders@[j]@),
            forall|j: int|
                #![trigger plan@[n2 + j]]
                0 <= j < d.new_folders@.len() ==> (plan@[n2 + j] matches Action::MakeDir { path }
                    && path@ == d.new_folders@[j]@),
            forall|j: int|
                #![trigger plan@[n3 + j]]
                0 <= j < i ==> (plan@[n3 + j] matches Action::UploadFile { path, modified, hash }
                    && path@ == d.new_files@[j]@ && (match tree_find(tv, d.new_files@[j]@) {
                    Some(e) => !e.is_dir && modified == e.modified && hash@ == e.hash@,
                    None => false,
                })),
        decreases d.new_files.len() - i,
    {
        let p = copy_bytes(d.new_files[i].as_slice());
        match tree_lookup(tree, p.as_slice()) {
            Some(e) => {
                if e.is_dir {
                    proof {
                        assert(file_in_tree(tree@, d.new_files@[i as int]@));
                        assert(false);
                    }
                } else {
                    let hash = copy_bytes(e.hash.as_slice());
                    plan.push(Action::UploadFile { path: p, modified: e.modified, hash });
                }
            },
            None => {
                proof {
                    assert(file_in_tree(tree@, d.new_files@[i as int]@));
                    assert(false);
                }
            },
        }
        i += 1;
    }
    plan
}


/// Applies one action's bookkeeping to the state: what a job's success
/// callback does once the target's commands succeeded. A failed target's
/// action is never applied, so its record stays untouched.
pub fn apply_action(state: &mut State, action: &Action) -> (nothing: ())
    requires
        old(state).wf(),
    ensures
        final(state).wf(),
        final(state)@ == action_effect(old(state)@, *action),
{
    match action {
        Action::DeleteFile { path, .. } => {
            state.remove_file_or_dir(path.as_slice());
        },
        Action::DeleteDir { path } => {
            state.remove_file_or_dir(path.as_slice());
        },
        Action::MakeDir { path } => {
            state.make_dir(path.as_slice());
        },
        Action::UploadFile { path, modified, hash } => {
            state.add_file(path.as_slice(), *modified, hash.as_slice());
        },
    }
}

/// Applies every action of a plan to the state, in order: the bookkeeping
/// that reconciliation performs when each target's commands succeed, and
/// that a phase without a configured command performs directly.
pub fn apply_plan(state: &mut State, plan: &Vec<Action>)
    requires
        old(state).wf(),
    ensures
        final(state).wf(),
        final(state)@ == plan_effect(old(state)@, plan@),
{
    let ghost sm0 = old(state)@;
    let mut i: usize = 0;
    while i < plan.len()
        invariant
            state.wf(),
            i <= plan.len(),
            state@ == plan_effect(sm0, plan@.take(i as int)),
        decreases plan.len() - i,
    {
        match &plan[i] {
            Action::DeleteFile { path, .. } => {
                state.remove_file_or_dir(path.as_slice());
            },
            Action::DeleteDir { path } => {
                state.remove_file_or_dir(path.as_slice());
            },
            Action::MakeDir { path } => {
                state.make_dir(path.as_slice());
            },
            Action::UploadFile { path, modified, hash } => {
                state.add_file(path.as_slice(), *modified, hash.as_slice());
            },
        }
        proof {
            assert(plan@.take(i + 1).drop_last() =~= plan@.take(i as int));
            assert(plan@.take(i + 1).last() == plan@[i as int]);
        }
        i += 1;
    }
    proof {
        assert(plan@.take(plan@.len() as int) =~= plan@);
    }
}

} // verus!
