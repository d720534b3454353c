//! End-to-end checks of the diff engine and the reconciliation plan.

use syncdir::diff::{compare, FileDifferences, SourceEntry};
use syncdir::filter::RuleFilter;
use syncdir::plan::{apply_plan, build_plan, Action};
use syncdir::state::{RecordKind, State, StateRecord};

fn file(path: &str, modified: u64, hash: &str) -> SourceEntry {
    SourceEntry {
        path: path.as_bytes().to_vec(),
        is_dir: false,
        modified,
        hash: hash.as_bytes().to_vec(),
    }
}

fn dir(path: &str) -> SourceEntry {
    SourceEntry { path: path.as_bytes().to_vec(), is_dir: true, modified: 0, hash: Vec::new() }
}

fn no_rules() -> RuleFilter {
    RuleFilter::new(&Vec::new()).unwrap()
}

fn paths(list: &Vec<Vec<u8>>) -> Vec<String> {
    list.iter().map(|p| String::from_utf8(p.clone()).unwrap()).collect()
}

#[test]
fn fresh_tree_against_empty_state() {
    // Source tree {a.txt (hash H1), b/ (empty dir)}, state empty.
    let tree = vec![file("a.txt", 10, "H1"), dir("b")];
    let state = State::new();
    let d = compare(&tree, &state, &no_rules(), false);
    assert_eq!(paths(&d.new_files), vec!["a.txt"]);
    assert_eq!(paths(&d.new_folders), vec!["b"]);
    assert!(d.old_files.is_empty());
    assert!(d.old_folders.is_empty());
    assert!(d.has_differences());
}

#[test]
fn changed_file_lands_in_both_sets() {
    // State has a.txt with hash H1; the tree now hashes to H2.
    let tree = vec![file("a.txt", 11, "H2")];
    let state = State::from_records(vec![StateRecord {
        path: b"a.txt".to_vec(),
        kind: RecordKind::File { modified: 10, hash: b"H1".to_vec() },
    }]);
    let d = compare(&tree, &state, &no_rules(), false);
    assert_eq!(paths(&d.old_files), vec!["a.txt"]);
    assert_eq!(paths(&d.new_files), vec!["a.txt"]);
    assert!(d.new_folders.is_empty());
    assert!(d.old_folders.is_empty());
}

#[test]
fn vanished_entries_land_in_old_sets() {
    let tree: Vec<SourceEntry> = Vec::new();
    let state = State::from_records(vec![
        StateRecord {
            path: b"gone.txt".to_vec(),
            kind: RecordKind::File { modified: 1, hash: b"H1".to_vec() },
        },
        StateRecord { path: b"emptydir".to_vec(), kind: RecordKind::Dir },
    ]);
    let d = compare(&tree, &state, &no_rules(), false);
    assert_eq!(paths(&d.old_files), vec!["gone.txt"]);
    assert_eq!(paths(&d.old_folders), vec!["emptydir"]);
    assert!(d.new_files.is_empty());
    assert!(d.new_folders.is_empty());
}

#[test]
fn fast_comparison_trusts_equal_mtimes() {
    // Same modified time, different hash: the fast path reports no change,
    // the hash fallback reports one.
    let tree = vec![file("a.txt", 10, "H2")];
    let state = State::from_records(vec![StateRecord {
        path: b"a.txt".to_vec(),
        kind: RecordKind::File { modified: 10, hash: b"H1".to_vec() },
    }]);
    let fast = compare(&tree, &state, &no_rules(), true);
    assert!(!fast.has_differences());
    let thorough = compare(&tree, &state, &no_rules(), false);
    assert!(thorough.has_differences());
    assert_eq!(paths(&thorough.old_files), vec!["a.txt"]);
}

#[test]
fn filtered_directory_hides_its_subtree() {
    let rules = RuleFilter::new(&vec![b"logs".to_vec()]).unwrap();
    let tree = vec![dir("logs"), file("logs/app.log", 5, "H1"), file("keep.txt", 5, "H2")];
    let state = State::new();
    let d = compare(&tree, &state, &rules, false);
    assert_eq!(paths(&d.new_files), vec!["keep.txt"]);
    assert!(d.new_folders.is_empty());
    // A filtered state record is reported old even if the file still exists.
    let state2 = State::from_records(vec![StateRecord {
        path: b"logs/app.log".to_vec(),
        kind: RecordKind::File { modified: 5, hash: b"H1".to_vec() },
    }]);
    let d2 = compare(&tree, &state2, &rules, false);
    assert_eq!(paths(&d2.old_files), vec!["logs/app.log"]);
}

#[test]
fn glob_rules_match_names() {
    let rules = RuleFilter::new(&vec![b"*.tmp".to_vec(), b"cache-?".to_vec()]).unwrap();
    assert!(rules.test_all(b"x.tmp", false));
    assert!(rules.test_all(b"cache-7", false));
    assert!(!rules.test_all(b"cache-77", false));
    assert!(!rules.test_all(b"x.tmp.keep", false));
    // A rule matching a directory hides everything beneath it.
    assert!(rules.excludes(b"x.tmp/inner.txt"));
    assert!(!rules.excludes(b"y/inner.txt"));
}

#[test]
fn escaped_star_is_literal_and_lone_escape_fails() {
    let rules = RuleFilter::new(&vec![b"a\\*b".to_vec()]).unwrap();
    assert!(rules.test_all(b"a*b", false));
    assert!(!rules.test_all(b"axb", false));
    let bad = RuleFilter::new(&vec![b"ok".to_vec(), b"bad\\".to_vec()]);
    assert_eq!(bad.err(), Some(1));
}

#[test]
fn plan_orders_phases_and_carries_metadata() {
    let tree = vec![dir("newdir"), file("newdir/new.txt", 42, "H9")];
    let state = State::from_records(vec![
        StateRecord {
            path: b"olddir".to_vec(),
            kind: RecordKind::Dir,
        },
        StateRecord {
            path: b"old.txt".to_vec(),
            kind: RecordKind::File { modified: 1, hash: b"H0".to_vec() },
        },
    ]);
    let d = compare(&tree, &state, &no_rules(), false);
    let plan = build_plan(&d, &tree, false);
    // Deletes first, then directory deletes, then creations, then uploads;
    // every directory creation stands before every upload.
    let kinds: Vec<u32> = plan
        .iter()
        .map(|a| match a {
            Action::DeleteFile { .. } => 0,
            Action::DeleteDir { .. } => 1,
            Action::MakeDir { .. } => 2,
            Action::UploadFile { .. } => 3,
        })
        .collect();
    let mut sorted = kinds.clone();
    sorted.sort();
    assert_eq!(kinds, sorted);
    assert_eq!(kinds, vec![0, 1, 2, 3]);
    match &plan[3] {
        Action::UploadFile { path, modified, hash } => {
            assert_eq!(path, &b"newdir/new.txt".to_vec());
            assert_eq!(*modified, 42);
            assert_eq!(hash, &b"H9".to_vec());
        }
        other => panic!("expected an upload, found {:?}", discriminant_name(other)),
    }
}

fn discriminant_name(a: &Action) -> &'static str {
    match a {
        Action::DeleteFile { .. } => "DeleteFile",
        Action::DeleteDir { .. } => "DeleteDir",
        Action::MakeDir { .. } => "MakeDir",
        Action::UploadFile { .. } => "UploadFile",
    }
}

#[test]
fn overlay_mode_suppresses_delete_commands() {
    let tree = vec![file("a.txt", 11, "H2")];
    let state = State::from_records(vec![StateRecord {
        path: b"a.txt".to_vec(),
        kind: RecordKind::File { modified: 10, hash: b"H1".to_vec() },
    }]);
    let d = compare(&tree, &state, &no_rules(), false);
    let with_overlay = build_plan(&d, &tree, true);
    match &with_overlay[0] {
        Action::DeleteFile { run_command, .. } => assert!(!run_command),
        _ => panic!("expected a file delete first"),
    }
    let without_overlay = build_plan(&d, &tree, false);
    match &without_overlay[0] {
        Action::DeleteFile { run_command, .. } => assert!(run_command),
        _ => panic!("expected a file delete first"),
    }
}

#[test]
fn second_run_finds_no_differences() {
    // Reconcile once, then compare again with nothing changed on disk.
    let tree = vec![
        dir("d"),
        file("d/one.txt", 5, "H1"),
        file("two.txt", 6, "H2"),
        file("changed.txt", 7, "H3b"),
    ];
    let state = State::from_records(vec![
        StateRecord {
            path: b"changed.txt".to_vec(),
            kind: RecordKind::File { modified: 3, hash: b"H3a".to_vec() },
        },
        StateRecord {
            path: b"gone.txt".to_vec(),
            kind: RecordKind::File { modified: 2, hash: b"H0".to_vec() },
        },
    ]);
    let mut state = state;
    let d = compare(&tree, &state, &no_rules(), false);
    assert!(d.has_differences());
    let plan = build_plan(&d, &tree, false);
    apply_plan(&mut state, &plan);
    let again = compare(&tree, &state, &no_rules(), false);
    assert!(!again.has_differences());
}

#[test]
fn bookkeeping_mirrors_every_target() {
    // With no command configured the phases still mutate state for every
    // target, single-threaded.
    let tree = vec![dir("kept"), file("kept/a.bin", 9, "HA")];
    let mut state = State::new();
    let d = compare(&tree, &state, &no_rules(), false);
    let plan = build_plan(&d, &tree, false);
    apply_plan(&mut state, &plan);
    assert!(state.lookup(b"kept").is_some());
    let rec = state.lookup(b"kept/a.bin").expect("the upload was recorded");
    match &rec.kind {
        RecordKind::File { modified, hash } => {
            assert_eq!(*modified, 9);
            assert_eq!(hash, &b"HA".to_vec());
        }
        RecordKind::Dir => panic!("a file record was expected"),
    }
}

#[test]
fn duplicate_state_paths_collapse_on_load() {
    let state = State::from_records(vec![
        StateRecord {
            path: b"a.txt".to_vec(),
            kind: RecordKind::File { modified: 1, hash: b"H1".to_vec() },
        },
        StateRecord {
            path: b"a.txt".to_vec(),
            kind: RecordKind::File { modified: 2, hash: b"H2".to_vec() },
        },
    ]);
    assert_eq!(state.records().len(), 1);
    match &state.lookup(b"a.txt").unwrap().kind {
        RecordKind::File { modified, hash } => {
            assert_eq!(*modified, 2);
            assert_eq!(hash, &b"H2".to_vec());
        }
        RecordKind::Dir => panic!("a file record was expected"),
    }
}

#[test]
fn state_records_survive_a_round_trip() {
    // What the records say is exactly what a reload builds: persistence
    // loses nothing at the record level.
    let state = State::from_records(vec![
        StateRecord {
            path: b"a.txt".to_vec(),
            kind: RecordKind::File { modified: 7, hash: b"H7".to_vec() },
        },
        StateRecord { path: b"d".to_vec(), kind: RecordKind::Dir },
    ]);
    let copy: Vec<StateRecord> = state
        .records()
        .iter()
        .map(|r| StateRecord {
            path: r.path.clone(),
            kind: match &r.kind {
                RecordKind::File { modified, hash } => {
                    RecordKind::File { modified: *modified, hash: hash.clone() }
                }
                RecordKind::Dir => RecordKind::Dir,
            },
        })
        .collect();
    let reloaded = State::from_records(copy);
    match &reloaded.lookup(b"a.txt").unwrap().kind {
        RecordKind::File { modified, hash } => {
            assert_eq!(*modified, 7);
            assert_eq!(hash, &b"H7".to_vec());
        }
        RecordKind::Dir => panic!("a file record was expected"),
    }
    assert!(matches!(reloaded.lookup(b"d").unwrap().kind, RecordKind::Dir));
    assert_eq!(reloaded.records().len(), 2);
}

#[test]
fn mixed_kind_change_is_reconciled() {
    // A path that was a file and is now a directory.
    let tree = vec![dir("thing")];
    let mut state = State::from_records(vec![StateRecord {
        path: b"thing".to_vec(),
        kind: RecordKind::File { modified: 1, hash: b"H1".to_vec() },
    }]);
    let d = compare(&tree, &state, &no_rules(), false);
    assert_eq!(paths(&d.old_files), vec!["thing"]);
    assert_eq!(paths(&d.new_folders), vec!["thing"]);
    let plan = build_plan(&d, &tree, false);
    apply_plan(&mut state, &plan);
    match state.lookup(b"thing").unwrap().kind {
        RecordKind::Dir => {}
        RecordKind::File { .. } => panic!("a directory record was expected"),
    }
    assert!(!compare(&tree, &state, &no_rules(), false).has_differences());
}
