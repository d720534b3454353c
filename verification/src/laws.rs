//! Laws of the diff-and-reconcile engine.
//!
//! Each public proof function here states a guarantee of the engine as a
//! whole, over the contracts of `compare`, `build_plan` and `apply_plan`.

use vstd::prelude::*;

use crate::diff::FileDifferences;
use crate::diff::SourceEntry;
use crate::diff::diffs_match;
use crate::diff::in_new_files;
use crate::diff::new_folders_in_order;
use crate::diff::in_new_folders;
use crate::diff::in_old_files;
use crate::diff::in_old_folders;
use crate::diff::lemma_tree_find_index;
use crate::diff::seq_has;
use crate::diff::tree_find;
use crate::diff::tree_unique;
use crate::diff::unchanged_file;
use crate::filter::PatTok;
use crate::filter::path_excluded;
use crate::plan::Action;
use crate::plan::action_path;
use crate::plan::plan_effect;
use crate::plan::plan_matches;
use crate::state::RecordModel;

verus! {

/// Index one past the delete-files phase of a plan.
pub open spec fn del_files_end(d: FileDifferences) -> int {
    d.old_files@.len() as int
}

/// Index one past the delete-directories phase of a plan.
pub open spec fn del_dirs_end(d: FileDifferences) -> int {
    del_files_end(d) + d.old_folders@.len()
}

/// Index one past the create-directories phase of a plan.
pub open spec fn mkdirs_end(d: FileDifferences) -> int {
    del_dirs_end(d) + d.new_folders@.len()
}

/// The last action of the plan aimed at a path, if any.
pub open spec fn last_touch(plan: Seq<Action>, p: Seq<u8>) -> Option<Action>
    decreases plan.len(),
{
    if plan.len() == 0 {
        None
    } else if action_path(plan.last()) == p {
        Some(plan.last())
    } else {
        last_touch(plan.drop_last(), p)
    }
}

/// What a plan leaves at a path is decided by the last action aimed at it;
/// a path no action aims at keeps its old record.
pub proof fn lemma_effect_last_touch(
    sm: Map<Seq<u8>, RecordModel>,
    plan: Seq<Action>,
    p: Seq<u8>,
)
    ensures
        match last_touch(plan, p) {
            None => plan_effect(sm, plan).contains_key(p) == sm.contains_key(p) && (
            sm.contains_key(p) ==> plan_effect(sm, plan)[p] == sm[p]),
            Some(a) => match a {
                Action::DeleteFile { .. } => !plan_effect(sm, plan).contains_key(p),
                Action::DeleteDir { .. } => !plan_effect(sm, plan).contains_key(p),
                Action::MakeDir { .. } => plan_effect(sm, plan).contains_key(p) && plan_effect(
                    sm,
                    plan,
                )[p] == RecordModel::Dir,
                Action::UploadFile { path, modified, hash } => plan_effect(
                    sm,
                    plan,
                ).contains_key(p) && plan_effect(sm, plan)[p] == (RecordModel::File {
                    modified,
                    hash: hash@,
                }),
            },
        },
    decreases plan.len(),
{
    if plan.len() > 0 {
        lemma_effect_last_touch(sm, plan.drop_last(), p);
    }
}

/// When index `i` holds the last action aimed at `p`, it is the last touch.
pub proof fn lemma_last_touch_at(plan: Seq<Action>, i: int, p: Seq<u8>)
    requires
        0 <= i < plan.len(),
        action_path(plan[i]) == p,
        forall|j: int| i < j < plan.len() ==> action_path(#[trigger] plan[j]) != p,
    ensures
        last_touch(plan, p) == Some(plan[i]),
    decreases plan.len(),
{
    if i == plan.len() - 1 {
    } else {
        assert(action_path(plan.last()) != p);
        assert(plan.drop_last()[i] == plan[i]);
        assert forall|j: int| i < j < plan.drop_last().len() implies action_path(
            #[trigger] plan.drop_last()[j],
        ) != p by {
            assert(plan.drop_last()[j] == plan[j]);
        }
        lemma_last_touch_at(plan.drop_last(), i, p);
    }
}

/// A path no action aims at has no last touch.
pub proof fn lemma_last_touch_none(plan: Seq<Action>, p: Seq<u8>)
    requires
        forall|j: int| 0 <= j < plan.len() ==> action_path(#[trigger] plan[j]) != p,
    ensures
        last_touch(plan, p) is None,
    decreases plan.len(),
{
    if plan.len() > 0 {
        assert forall|j: int| 0 <= j < plan.drop_last().len() implies action_path(
            #[trigger] plan.drop_last()[j],
        ) != p by {
            assert(plan.drop_last()[j] == plan[j]);
        }
        lemma_last_touch_none(plan.drop_last(), p);
    }
}

/// Which phase an index of a plan belongs to, and the action it holds.
pub proof fn lemma_plan_action_at(
    tv: Seq<SourceEntry>,
    d: FileDifferences,
    overlay: bool,
    plan: Seq<Action>,
    j: int,
)
    requires
        plan_matches(tv, d, overlay, plan),
        0 <= j < plan.len(),
    ensures
        0 <= j < del_files_end(d) ==> (plan[j] matches Action::DeleteFile { path, .. } && path@
            == d.old_files@[j]@),
        del_files_end(d) <= j < del_dirs_end(d) ==> (plan[j] matches Action::DeleteDir { path }
            && path@ == d.old_folders@[j - del_files_end(d)]@),
        del_dirs_end(d) <= j < mkdirs_end(d) ==> (plan[j] matches Action::MakeDir { path } && path@
            == d.new_folders@[j - del_dirs_end(d)]@),
        mkdirs_end(d) <= j ==> (plan[j] matches Action::UploadFile { path, .. } && path@
            == d.new_files@[j - mkdirs_end(d)]@),
{
    let n1 = del_files_end(d);
    let n2 = del_dirs_end(d);
    let n3 = mkdirs_end(d);
    if n1 <= j < n2 {
        assert(plan[n1 + (j - n1)] == plan[j]);
    } else if n2 <= j < n3 {
        assert(plan[n2 + (j - n2)] == plan[j]);
    } else if n3 <= j {
        assert(plan[n3 + (j - n3)] == plan[j]);
    }
}

/// The state every action of a full reconciliation run leaves behind: a
/// record for each visible tree entry, a stale or fresh file keeping the
/// local modified time and hash, an unchanged file keeping its old record.
pub open spec fn reconciled(
    tv: Seq<SourceEntry>,
    sm0: Map<Seq<u8>, RecordModel>,
    rules: Seq<Seq<PatTok>>,
    fast: bool,
) -> Map<Seq<u8>, RecordModel> {
    Map::new(
        |p: Seq<u8>|
            match tree_find(tv, p) {
                Some(e) => !path_excluded(rules, p),
                None => false,
            },
        |p: Seq<u8>|
            match tree_find(tv, p) {
                Some(e) => if e.is_dir {
                    RecordModel::Dir
                } else {
                    if sm0.contains_key(p) && (match sm0[p] {
                        RecordModel::File { modified, hash } => unchanged_file(
                            e,
                            modified,
                            hash,
                            fast,
                        ),
                        RecordModel::Dir => false,
                    }) {
                        sm0[p]
                    } else {
                        RecordModel::File { modified: e.modified, hash: e.hash@ }
                    }
                },
                None => RecordModel::Dir,
            },
    )
}

/// Applying the whole plan of a comparison to the compared state yields the
/// reconciled state: every difference is resolved and nothing else moves.
pub proof fn lemma_plan_reaches_reconciled(
    tv: Seq<SourceEntry>,
    sm: Map<Seq<u8>, RecordModel>,
    rules: Seq<Seq<PatTok>>,
    fast: bool,
    overlay: bool,
    d: FileDifferences,
    plan: Seq<Action>,
)
    requires
        tree_unique(tv),
        diffs_match(tv, sm, rules, fast, d),
        plan_matches(tv, d, overlay, plan),
    ensures
        plan_effect(sm, plan) == reconciled(tv, sm, rules, fast),
{
    let n1 = del_files_end(d);
    let n2 = del_dirs_end(d);
    let n3 = mkdirs_end(d);
    let eff = plan_effect(sm, plan);
    let rec = reconciled(tv, sm, rules, fast);
    assert forall|p: Seq<u8>|
        #![trigger rec.contains_key(p)]
        #![trigger eff.contains_key(p)]
        eff.contains_key(p) == rec.contains_key(p) && (eff.contains_key(p)
            ==> eff[p] == rec[p]) by {
        lemma_effect_last_touch(sm, plan, p);
        if seq_has(d.new_files@, p) {
            let idx = choose|idx: int|
                0 <= idx < d.new_files@.len() && d.new_files@[idx]@ == p;
            let pi = n3 + idx;
            lemma_plan_action_at(tv, d, overlay, plan, pi);
            assert(action_path(plan[pi]) == p);
            assert forall|j: int| pi < j < plan.len() implies action_path(#[trigger] plan[j])
                != p by {
                lemma_plan_action_at(tv, d, overlay, plan, j);
                assert(d.new_files@[j - n3]@ != d.new_files@[idx]@);
            }
            lemma_last_touch_at(plan, pi, p);
            assert(in_new_files(tv, sm, rules, fast, p));
        } else if seq_has(d.new_folders@, p) {
            let idx = choose|idx: int|
                0 <= idx < d.new_folders@.len() && d.new_folders@[idx]@ == p;
            let pi = n2 + idx;
            lemma_plan_action_at(tv, d, overlay, plan, pi);
            assert(action_path(plan[pi]) == p);
            assert forall|j: int| pi < j < plan.len() implies action_path(#[trigger] plan[j])
                != p by {
                lemma_plan_action_at(tv, d, overlay, plan, j);
                if j < n3 {
                    assert(d.new_folders@[j - n2]@ != d.new_folders@[idx]@);
                } else {
                    assert(seq_has(d.new_files@, d.new_files@[j - n3]@));
                }
            }
            lemma_last_touch_at(plan, pi, p);
            assert(in_new_folders(tv, sm, rules, p));
        } else if seq_has(d.old_files@, p) {
            let idx = choose|idx: int|
                0 <= idx < d.old_files@.len() && d.old_files@[idx]@ == p;
            let pi = idx;
            lemma_plan_action_at(tv, d, overlay, plan, pi);
            assert(action_path(plan[pi]) == p);
            assert(in_old_files(tv, sm, rules, fast, p));
            assert forall|j: int| pi < j < plan.len() implies action_path(#[trigger] plan[j])
                != p by {
                lemma_plan_action_at(tv, d, overlay, plan, j);
                if j < n1 {
                    assert(d.old_files@[j]@ != d.old_files@[idx]@);
                } else if j < n2 {
                    assert(seq_has(d.old_folders@, d.old_folders@[j - n1]@));
                    assert(in_old_folders(tv, sm, rules, p) ==> false);
                } else if j < n3 {
                    assert(seq_has(d.new_folders@, d.new_folders@[j - n2]@));
                } else {
                    assert(seq_has(d.new_files@, d.new_files@[j - n3]@));
                }
            }
            lemma_last_touch_at(plan, pi, p);
            // Not visible: a visible entry would have put the path in a new
            // set or kept its record.
            if rec.contains_key(p) {
                match tree_find(tv, p) {
                    Some(e) => {
                        if e.is_dir {
                            assert(in_new_folders(tv, sm, rules, p));
                            assert(seq_has(d.new_folders@, p));
                        } else {
                            assert(in_new_files(tv, sm, rules, fast, p));
                            assert(seq_has(d.new_files@, p));
                        }
                    },
                    None => {},
                }
            }
        } else if seq_has(d.old_folders@, p) {
            let idx = choose|idx: int|
                0 <= idx < d.old_folders@.len() && d.old_folders@[idx]@ == p;
            let pi = n1 + idx;
            lemma_plan_action_at(tv, d, overlay, plan, pi);
            assert(action_path(plan[pi]) == p);
            assert(in_old_folders(tv, sm, rules, p));
            assert forall|j: int| pi < j < plan.len() implies action_path(#[trigger] plan[j])
                != p by {
                lemma_plan_action_at(tv, d, overlay, plan, j);
                if j < n2 {
                    assert(d.old_folders@[j - n1]@ != d.old_folders@[idx]@);
                } else if j < n3 {
                    assert(seq_has(d.new_folders@, d.new_folders@[j - n2]@));
                } else {
                    assert(seq_has(d.new_files@, d.new_files@[j - n3]@));
                }
            }
            lemma_last_touch_at(plan, pi, p);
            if rec.contains_key(p) {
                match tree_find(tv, p) {
                    Some(e) => {
                        if e.is_dir {
                            assert(!in_old_folders(tv, sm, rules, p));
                        } else {
                            assert(in_new_files(tv, sm, rules, fast, p));
                            assert(seq_has(d.new_files@, p));
                        }
                    },
                    None => {},
                }
            }
        } else {
            assert forall|j: int| 0 <= j < plan.len() implies action_path(#[trigger] plan[j])
                != p by {
                lemma_plan_action_at(tv, d, overlay, plan, j);
                if j < n1 {
                    assert(seq_has(d.old_files@, d.old_files@[j]@));
                } else if j < n2 {
                    assert(seq_has(d.old_folders@, d.old_folders@[j - n1]@));
                } else if j < n3 {
                    assert(seq_has(d.new_folders@, d.new_folders@[j - n2]@));
                } else {
                    assert(seq_has(d.new_files@, d.new_files@[j - n3]@));
                }
            }
            lemma_last_touch_none(plan, p);
            if sm.contains_key(p) {
                match sm[p] {
                    RecordModel::File { modified, hash } => {
                        assert(!in_old_files(tv, sm, rules, fast, p));
                    },
                    RecordModel::Dir => {
                        assert(!in_old_folders(tv, sm, rules, p));
                    },
                }
            } else {
                if rec.contains_key(p) {
                    match tree_find(tv, p) {
                        Some(e) => {
                            if e.is_dir {
                                assert(in_new_folders(tv, sm, rules, p));
                                assert(seq_has(d.new_folders@, p));
                            } else {
                                assert(in_new_files(tv, sm, rules, fast, p));
                                assert(seq_has(d.new_files@, p));
                            }
                        },
                        None => {},
                    }
                }
            }
        }
    }
    assert(eff =~= rec);
}

/// Idempotence: a second comparison of the same tree against the reconciled
/// state finds no differences.
pub proof fn lemma_rerun_has_no_differences(
    tv: Seq<SourceEntry>,
    sm0: Map<Seq<u8>, RecordModel>,
    rules: Seq<Seq<PatTok>>,
    fast: bool,
    sm1: Map<Seq<u8>, RecordModel>,
    d2: FileDifferences,
)
    requires
        sm1 == reconciled(tv, sm0, rules, fast),
        diffs_match(tv, sm1, rules, fast, d2),
    ensures
        d2.old_files@.len() == 0,
        d2.old_folders@.len() == 0,
        d2.new_files@.len() == 0,
        d2.new_folders@.len() == 0,
{
    assert forall|p: Seq<u8>| !(#[trigger] in_new_files(tv, sm1, rules, fast, p)) by {
        if in_new_files(tv, sm1, rules, fast, p) {
            assert(sm1.contains_key(p));
        }
    }
    assert forall|p: Seq<u8>| !(#[trigger] in_new_folders(tv, sm1, rules, p)) by {
        if in_new_folders(tv, sm1, rules, p) {
            assert(sm1.contains_key(p));
        }
    }
    assert forall|p: Seq<u8>| !(#[trigger] in_old_files(tv, sm1, rules, fast, p)) by {
        if in_old_files(tv, sm1, rules, fast, p) {
            assert(sm1.contains_key(p));
            match tree_find(tv, p) {
                Some(e) => {
                    assert(!path_excluded(rules, p));
                    assert(!e.is_dir);
                },
                None => {},
            }
        }
    }
    assert forall|p: Seq<u8>| !(#[trigger] in_old_folders(tv, sm1, rules, p)) by {
        if in_old_folders(tv, sm1, rules, p) {
            assert(sm1.contains_key(p));
        }
    }
    if d2.new_files@.len() > 0 {
        assert(seq_has(d2.new_files@, d2.new_files@[0]@));
    }
    if d2.new_folders@.len() > 0 {
        assert(seq_has(d2.new_folders@, d2.new_folders@[0]@));
    }
    if d2.old_files@.len() > 0 {
        assert(seq_has(d2.old_files@, d2.old_files@[0]@));
    }
    if d2.old_folders@.len() > 0 {
        assert(seq_has(d2.old_folders@, d2.old_folders@[0]@));
    }
}


/// Every element of the ordered new-folders list is some tree path.
proof fn lemma_folders_list_sources(
    tv: Seq<SourceEntry>,
    sm: Map<Seq<u8>, RecordModel>,
    rules: Seq<Seq<PatTok>>,
    full: Seq<SourceEntry>,
    k: int,
)
    requires
        0 <= k < new_folders_in_order(tv, sm, rules, full).len(),
    ensures
        exists|i: int|
            #![trigger tv[i]]
            0 <= i < tv.len() && tv[i].path@ == new_folders_in_order(tv, sm, rules, full)[k],
    decreases tv.len(),
{
    let f = new_folders_in_order(tv, sm, rules, full);
    let fp = new_folders_in_order(tv.drop_last(), sm, rules, full);
    if in_new_folders(full, sm, rules, tv.last().path@) {
        if k < fp.len() {
            lemma_folders_list_sources(tv.drop_last(), sm, rules, full, k);
            let i = choose|i: int|
                0 <= i < tv.drop_last().len() && tv.drop_last()[i].path@ == fp[k];
            assert(tv[i].path@ == f[k]);
        } else {
            assert(tv[tv.len() - 1].path@ == f[k]);
        }
    } else {
        assert(f =~= fp);
        lemma_folders_list_sources(tv.drop_last(), sm, rules, full, k);
        let i = choose|i: int| 0 <= i < tv.drop_last().len() && tv.drop_last()[i].path@ == fp[k];
        assert(tv[i].path@ == f[k]);
    }
}

/// Two elements of the ordered new-folders list come from tree positions in
/// the same order.
proof fn lemma_folders_list_monotone(
    tv: Seq<SourceEntry>,
    sm: Map<Seq<u8>, RecordModel>,
    rules: Seq<Seq<PatTok>>,
    full: Seq<SourceEntry>,
    k1: int,
    k2: int,
)
    requires
        0 <= k1 < k2 < new_folders_in_order(tv, sm, rules, full).len(),
    ensures
        exists|i1: int, i2: int|
            #![trigger tv[i1], tv[i2]]
            0 <= i1 < i2 < tv.len() && tv[i1].path@ == new_folders_in_order(
                tv,
                sm,
                rules,
                full,
            )[k1] && tv[i2].path@ == new_folders_in_order(tv, sm, rules, full)[k2],
    decreases tv.len(),
{
    let f = new_folders_in_order(tv, sm, rules, full);
    let fp = new_folders_in_order(tv.drop_last(), sm, rules, full);
    if in_new_folders(full, sm, rules, tv.last().path@) {
        if k2 < fp.len() {
            lemma_folders_list_monotone(tv.drop_last(), sm, rules, full, k1, k2);
            let (i1, i2) = choose|i1: int, i2: int|
                0 <= i1 < i2 < tv.drop_last().len() && tv.drop_last()[i1].path@ == fp[k1]
                    && tv.drop_last()[i2].path@ == fp[k2];
            assert(tv[i1].path@ == f[k1] && tv[i2].path@ == f[k2]);
        } else {
            lemma_folders_list_sources(tv.drop_last(), sm, rules, full, k1);
            let i1 = choose|i1: int|
                0 <= i1 < tv.drop_last().len() && tv.drop_last()[i1].path@ == fp[k1];
            assert(tv[i1].path@ == f[k1] && tv[tv.len() - 1].path@ == f[k2]);
        }
    } else {
        assert(f =~= fp);
        lemma_folders_list_monotone(tv.drop_last(), sm, rules, full, k1, k2);
        let (i1, i2) = choose|i1: int, i2: int|
            0 <= i1 < i2 < tv.drop_last().len() && tv.drop_last()[i1].path@ == fp[k1]
                && tv.drop_last()[i2].path@ == fp[k2];
        assert(tv[i1].path@ == f[k1] && tv[i2].path@ == f[k2]);
    }
}

/// Directory creations keep the tree's traversal order: since a traversal
/// visits directories before their children, every new directory's
/// creation stands after its parent's in the plan.
pub proof fn lemma_dir_creations_keep_traversal_order(
    tv: Seq<SourceEntry>,
    sm: Map<Seq<u8>, RecordModel>,
    rules: Seq<Seq<PatTok>>,
    fast: bool,
    d: FileDifferences,
    overlay: bool,
    plan: Seq<Action>,
    k1: int,
    k2: int,
)
    requires
        diffs_match(tv, sm, rules, fast, d),
        plan_matches(tv, d, overlay, plan),
        0 <= k1 < k2 < d.new_folders@.len(),
    ensures
        plan[del_dirs_end(d) + k1] matches Action::MakeDir { path: p1 } && plan[del_dirs_end(d)
            + k2] matches Action::MakeDir { path: p2 } && exists|i1: int, i2: int|
            #![trigger tv[i1], tv[i2]]
            0 <= i1 < i2 < tv.len() && tv[i1].path@ == p1@ && tv[i2].path@ == p2@,
{
    let f = new_folders_in_order(tv, sm, rules, tv);
    assert(d.new_folders@.map_values(|v: Vec<u8>| v@)[k1] == d.new_folders@[k1]@);
    assert(d.new_folders@.map_values(|v: Vec<u8>| v@)[k2] == d.new_folders@[k2]@);
    lemma_folders_list_monotone(tv, sm, rules, tv, k1, k2);
}

/// A visible path absent from state is reported as new under exactly one
/// kind; `diffs_match` further holds each set free of duplicates, so the
/// path appears exactly once.
pub proof fn lemma_new_paths_exactly_once(
    tv: Seq<SourceEntry>,
    sm: Map<Seq<u8>, RecordModel>,
    rules: Seq<Seq<PatTok>>,
    fast: bool,
    d: FileDifferences,
    i: int,
)
    requires
        tree_unique(tv),
        diffs_match(tv, sm, rules, fast, d),
        0 <= i < tv.len(),
        !path_excluded(rules, tv[i].path@),
        !sm.contains_key(tv[i].path@),
    ensures
        !tv[i].is_dir ==> seq_has(d.new_files@, tv[i].path@) && !seq_has(
            d.new_folders@,
            tv[i].path@,
        ),
        tv[i].is_dir ==> seq_has(d.new_folders@, tv[i].path@) && !seq_has(
            d.new_files@,
            tv[i].path@,
        ),
{
    lemma_tree_find_index(tv, i);
}

/// A state record whose path is gone from the tree, or filtered out of it,
/// is reported as old under exactly one kind; freedom from duplicates again
/// comes with `diffs_match`.
pub proof fn lemma_old_paths_exactly_once(
    tv: Seq<SourceEntry>,
    sm: Map<Seq<u8>, RecordModel>,
    rules: Seq<Seq<PatTok>>,
    fast: bool,
    d: FileDifferences,
    p: Seq<u8>,
)
    requires
        diffs_match(tv, sm, rules, fast, d),
        sm.contains_key(p),
        tree_find(tv, p) is None || path_excluded(rules, p),
    ensures
        sm[p] is File ==> seq_has(d.old_files@, p) && !seq_has(d.old_folders@, p),
        sm[p] is Dir ==> seq_has(d.old_folders@, p) && !seq_has(d.old_files@, p),
{
}

/// Fast-path correctness: with fast comparison enabled and equal modified
/// times, a recorded file is classified without consulting any hash — the
/// comparison outcome is fixed whatever the hashes hold.
pub proof fn lemma_fast_path_ignores_hashes(
    tv: Seq<SourceEntry>,
    sm: Map<Seq<u8>, RecordModel>,
    rules: Seq<Seq<PatTok>>,
    d: FileDifferences,
    i: int,
)
    requires
        tree_unique(tv),
        diffs_match(tv, sm, rules, true, d),
        0 <= i < tv.len(),
        !tv[i].is_dir,
        !path_excluded(rules, tv[i].path@),
        sm.contains_key(tv[i].path@),
        sm[tv[i].path@] matches RecordModel::File { modified, .. } && modified == tv[i].modified,
    ensures
        !seq_has(d.new_files@, tv[i].path@),
        !seq_has(d.old_files@, tv[i].path@),
{
    lemma_tree_find_index(tv, i);
}

/// Overlay mode: a path present in both old and new file sets keeps its
/// delete action, but the action's commands are suppressed exactly when
/// overlay mode is enabled.
pub proof fn lemma_overlay_governs_delete(
    tv: Seq<SourceEntry>,
    d: FileDifferences,
    overlay: bool,
    plan: Seq<Action>,
    i: int,
)
    requires
        plan_matches(tv, d, overlay, plan),
        0 <= i < d.old_files@.len(),
        seq_has(d.new_files@, d.old_files@[i]@),
    ensures
        plan[i] matches Action::DeleteFile { path, run_command } && path@ == d.old_files@[i]@
            && run_command == !overlay,
{
}

/// Phase ordering: every directory creation of a plan stands before every
/// file upload, so a new directory is in place before any file is uploaded
/// into it.
pub proof fn lemma_dirs_created_before_uploads(
    tv: Seq<SourceEntry>,
    d: FileDifferences,
    overlay: bool,
    plan: Seq<Action>,
    i: int,
    j: int,
)
    requires
        plan_matches(tv, d, overlay, plan),
        0 <= i < plan.len(),
        0 <= j < plan.len(),
        plan[i] is MakeDir,
        plan[j] is UploadFile,
    ensures
        i < j,
{
    lemma_plan_action_at(tv, d, overlay, plan, i);
    lemma_plan_action_at(tv, d, overlay, plan, j);
}

} // verus!
