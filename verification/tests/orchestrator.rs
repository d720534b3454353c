//! Checks of the orchestrator core, the hash cache, and failure handling.

use syncdir::app::{App, AppConfig, AppOptions};
use syncdir::diff::{compare, SourceEntry};
use syncdir::filter::RuleFilter;
use syncdir::hash_cache::HashCache;
use syncdir::pipeline::{PipelineRun, StepFailure};
use syncdir::plan::{apply_action, build_plan, Action};
use syncdir::state::{RecordKind, State, StateRecord};
use syncdir::vars::VariableReplace;

fn options() -> AppOptions {
    AppOptions { debug: false, dry_run: false, test_filter: false }
}

fn config() -> AppConfig {
    AppConfig {
        source_dir: b"/data/src/".to_vec(),
        command_workdir: b"C:\\work".to_vec(),
        state_file: b"$workdir/state.json".to_vec(),
        state_indent: 4,
        use_local_state: true,
        use_remote_state: false,
        fast_comparison: true,
        overlay_mode: false,
        threads: 4,
        file_filters: vec![b"*.tmp".to_vec()],
        variables: vec![(b"host".to_vec(), b"example".to_vec())],
    }
}

#[test]
fn app_builds_its_variable_base() {
    let app = App::new(options(), &config()).unwrap();
    assert_eq!(app.sourcedir, b"/data/src".to_vec());
    assert_eq!(app.variables.get(b"host").unwrap(), &b"example".to_vec());
    assert_eq!(app.variables.get(b"source").unwrap(), &b"/data/src".to_vec());
    assert_eq!(app.variables.get(b"workdir").unwrap(), &b"C:\\work".to_vec());
    assert_eq!(app.variables.get(b"workdir_").unwrap(), &b"C:/work".to_vec());
    assert_eq!(app.variables.get(b"source_").unwrap(), &b"/data/src".to_vec());
}

#[test]
fn app_expands_the_state_file_path() {
    let app = App::new(options(), &config()).unwrap();
    assert_eq!(app.get_state_file(), b"C:\\work/state.json".to_vec());
}

#[test]
fn app_rejects_an_invalid_filter_pattern() {
    let mut bad = config();
    bad.file_filters = vec![b"fine".to_vec(), b"broken\\".to_vec()];
    assert_eq!(App::new(options(), &bad).err(), Some(1));
}

#[test]
fn per_target_variables_carry_both_slash_forms() {
    let app = App::new(options(), &config()).unwrap();
    let vars = app.target_vars(b"a/b.txt");
    assert_eq!(vars.get(b"path").unwrap(), &b"a/b.txt".to_vec());
    assert_eq!(vars.get(b"path_").unwrap(), &b"a\\b.txt".to_vec());
    // The shared base set stays untouched.
    assert!(app.variables.get(b"path").is_none());
}

#[test]
fn run_is_idempotent_through_the_app() {
    let app = App::new(options(), &config()).unwrap();
    let tree = vec![
        SourceEntry { path: b"a.txt".to_vec(), is_dir: false, modified: 10, hash: b"H1".to_vec() },
        SourceEntry { path: b"b".to_vec(), is_dir: true, modified: 0, hash: Vec::new() },
        SourceEntry { path: b"junk.tmp".to_vec(), is_dir: false, modified: 3, hash: b"HX".to_vec() },
    ];
    let mut state = State::new();
    let d = app.compare_files(&tree, &state);
    // The filtered file is invisible: only a.txt and b are new.
    assert_eq!(d.new_files, vec![b"a.txt".to_vec()]);
    assert_eq!(d.new_folders, vec![b"b".to_vec()]);
    let plan = app.execute_operations(&mut state, &d, &tree);
    assert_eq!(plan.len(), 2);
    let again = app.compare_files(&tree, &state);
    assert!(!again.has_differences());
    assert!(app.should_persist_state(d.has_differences()));
    assert!(!app.should_persist_state(again.has_differences()));
}

#[test]
fn filter_walk_reports_matches_without_reconciling() {
    let app = App::new(options(), &config()).unwrap();
    let tree = vec![
        SourceEntry { path: b"keep.txt".to_vec(), is_dir: false, modified: 1, hash: b"H".to_vec() },
        SourceEntry { path: b"junk.tmp".to_vec(), is_dir: false, modified: 1, hash: b"H".to_vec() },
    ];
    let matched = app.test_filter(&tree);
    assert_eq!(matched, vec![b"junk.tmp".to_vec()]);
}

#[test]
fn failed_delete_leaves_the_record_untouched() {
    // A delete_file pipeline step exits with code 2: the error carries the
    // code, and because the job failed its state mutation never happens.
    let tree: Vec<SourceEntry> = Vec::new();
    let mut state = State::from_records(vec![StateRecord {
        path: b"a.txt".to_vec(),
        kind: RecordKind::File { modified: 1, hash: b"H1".to_vec() },
    }]);
    let rules = RuleFilter::new(&Vec::new()).unwrap();
    let d = compare(&tree, &state, &rules, false);
    assert_eq!(d.old_files, vec![b"a.txt".to_vec()]);
    let plan = build_plan(&d, &tree, false);
    assert_eq!(plan.len(), 1);

    let delete_file_steps = vec![vec![b"remote-rm $path".to_vec()]];
    let mut run = PipelineRun::new(delete_file_steps, false);
    let mut vars = VariableReplace::new();
    vars.add(b"path", b"a.txt");
    let cmd = run.current_command(&vars);
    assert_eq!(cmd, vec![b"remote-rm".to_vec(), b"a.txt".to_vec()]);
    run.record_step_result(Some(2), Vec::new(), b"permission denied".to_vec(), cmd);

    let error = run.failed.as_ref().expect("the run reports an error");
    match error.failure {
        StepFailure::NonZeroExit(code) => assert_eq!(code, 2),
        StepFailure::SignalTerminated => panic!("an exit code was expected"),
    }
    // The success callback never ran, so the record is still there.
    let untouched = matches!(
        state.lookup(b"a.txt"),
        Some(StateRecord { kind: RecordKind::File { .. }, .. })
    );
    assert!(untouched);
    // Had the job succeeded, the callback would have removed it.
    match &plan[0] {
        Action::DeleteFile { .. } => apply_action(&mut state, &plan[0]),
        _ => panic!("a file delete was expected"),
    }
    assert!(state.lookup(b"a.txt").is_none());
}

#[test]
fn hash_cache_computes_once() {
    let mut cache = HashCache::new();
    let mut reads = 0;
    let mut get_hash = |cache: &mut HashCache, path: &[u8], reads: &mut u32| -> Vec<u8> {
        if let Some(h) = cache.get_cached(path) {
            return h.clone();
        }
        *reads += 1; // stands for reading and hashing the file
        let fresh = b"H1".to_vec();
        cache.store(path, fresh.clone());
        fresh
    };
    let first = get_hash(&mut cache, b"a.txt", &mut reads);
    let second = get_hash(&mut cache, b"a.txt", &mut reads);
    assert_eq!(first, second);
    assert_eq!(reads, 1);
    assert!(!cache.needs_compute(b"a.txt"));
    // A racing recomputation cannot corrupt the stored value.
    cache.store(b"a.txt", b"H-other".to_vec());
    assert_eq!(cache.get_cached(b"a.txt").unwrap(), &b"H1".to_vec());
}
