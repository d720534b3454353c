//! The orchestrator's core.
//!
//! `App` holds what one run needs: the compiled rule filter, the base
//! variable set (configured variables plus `source`, `workdir` and their
//! slash-normalized duplicates), the hash cache, and the configuration
//! values the engine reads. The driver around it validates directories,
//! reads the tree snapshot, spawns the configured commands and persists
//! state; the decisions — comparison, plan, bookkeeping — live here.

use vstd::prelude::*;

use crate::bytemap::pairs_map;
use crate::bytestr::SLASH;
use crate::bytestr::copy_bytes;
use crate::bytestr::forward_slashes;
use crate::bytestr::to_forward;
use crate::diff::FileDifferences;
use crate::diff::SourceEntry;
use crate::diff::compare;
use crate::diff::diffs_match;
use crate::diff::distinct;
use crate::diff::in_new_files;
use crate::diff::lemma_tree_find_some;
use crate::diff::seq_has;
use crate::diff::tree_find;
use crate::diff::tree_unique;
use crate::filter::RuleFilter;
use crate::filter::compile_spec;
use crate::filter::filter_matches;
use crate::hash_cache::HashCache;
use crate::laws::lemma_plan_reaches_reconciled;
use crate::laws::reconciled;
use crate::plan::Action;
use crate::plan::apply_plan;
use crate::plan::build_plan;
use crate::plan::plan_matches;
use crate::state::State;
use crate::vars::VariableReplace;
use crate::vars::subst;

verus! {

/// The command-line switches the engine reads.
#[derive(Clone, Copy)]
pub struct AppOptions {
    /// Echo every command line before it runs.
    pub debug: bool,
    /// Build every pipeline but spawn nothing, and report success.
    pub dry_run: bool,
    /// Only walk the tree and report the paths the filter matches.
    pub test_filter: bool,
}

/// The configuration one run is driven by, already parsed by the loader.
pub struct AppConfig {
    pub source_dir: Vec<u8>,
    pub command_workdir: Vec<u8>,
    pub state_file: Vec<u8>,
    pub state_indent: u32,
    pub use_local_state: bool,
    pub use_remote_state: bool,
    pub fast_comparison: bool,
    pub overlay_mode: bool,
    pub threads: u32,
    pub file_filters: Vec<Vec<u8>>,
    pub variables: Vec<(Vec<u8>, Vec<u8>)>,
}

/// The variable name `source`.
pub open spec fn source_var() -> Seq<u8> {
    seq![115u8, 111u8, 117u8, 114u8, 99u8, 101u8]
}

/// The variable name `workdir`.
pub open spec fn workdir_var() -> Seq<u8> {
    seq![119u8, 111u8, 114u8, 107u8, 100u8, 105u8, 114u8]
}

/// The variable name `source_`, the slash-normalized duplicate.
pub open spec fn source_fwd_var() -> Seq<u8> {
    source_var().push(95u8)
}

/// The variable name `workdir_`, the slash-normalized duplicate.
pub open spec fn workdir_fwd_var() -> Seq<u8> {
    workdir_var().push(95u8)
}

/// The variable name `path`.
pub open spec fn path_var() -> Seq<u8> {
    seq![112u8, 97u8, 116u8, 104u8]
}

/// The variable name `path_`, the backslash duplicate.
pub open spec fn path_back_var() -> Seq<u8> {
    path_var().push(95u8)
}

/// The source directory with one trailing slash stripped.
pub open spec fn stripped_source(dir: Seq<u8>) -> Seq<u8> {
    if dir.len() > 0 && dir.last() == SLASH {
        dir.drop_last()
    } else {
        dir
    }
}

/// The base variable set of a run: the configured variables, then
/// `source`, `workdir`, and their forward-slashed duplicates.
pub open spec fn base_vars(
    variables: Seq<(Vec<u8>, Vec<u8>)>,
    sourcedir: Seq<u8>,
    workdir: Seq<u8>,
) -> Map<Seq<u8>, Seq<u8>> {
    pairs_map(variables).insert(source_var(), sourcedir).insert(workdir_var(), workdir).insert(
        source_fwd_var(),
        sourcedir.map_values(|b: u8| to_forward(b)),
    ).insert(workdir_fwd_var(), workdir.map_values(|b: u8| to_forward(b)))
}

/// One run's engine.
pub struct App {
    pub options: AppOptions,
    pub variables: VariableReplace,
    pub hash_cache: HashCache,
    pub file_filter: RuleFilter,
    pub sourcedir: Vec<u8>,
    pub workdir: Vec<u8>,
    pub state_file: Vec<u8>,
    pub state_indent: u32,
    pub use_local_state: bool,
    pub use_remote_state: bool,
    pub fast_comparison: bool,
    pub overlay_mode: bool,
    pub threads: u32,
}

impl App {
    /// The engine's validity.
    pub open spec fn wf(&self) -> bool {
        self.variables.wf() && self.hash_cache.wf()
    }

    /// Builds the engine from parsed options and configuration: strips a
    /// trailing slash from the source directory, compiles the rule filter
    /// (the index of an invalid pattern is a fatal configuration error),
    /// and lays out the base variable set. The caller has already checked
    /// that the source and working directories exist.
    pub fn new(options: AppOptions, config: &AppConfig) -> (r: Result<App, usize>)
        ensures
            match r {
                Ok(app) => {
                    &&& app.wf()
                    &&& app.options == options
                    &&& app.sourcedir@ == stripped_source(config.source_dir@)
                    &&& app.workdir@ == config.command_workdir@
                    &&& app.state_file@ == config.state_file@
                    &&& app.state_indent == config.state_indent
                    &&& app.use_local_state == config.use_local_state
                    &&& app.use_remote_state == config.use_remote_state
                    &&& app.fast_comparison == config.fast_comparison
                    &&& app.overlay_mode == config.overlay_mode
                    &&& app.threads == config.threads
                    &&& app.variables@ == base_vars(
                        config.variables@,
                        stripped_source(config.source_dir@),
                        config.command_workdir@,
                    )
                    &&& app.hash_cache@ == Map::<Seq<u8>, Seq<u8>>::empty()
                    &&& app.file_filter@.len() == config.file_filters@.len()
                    &&& forall|i: int|
                        0 <= i < config.file_filters@.len() ==> compile_spec(
                            #[trigger] config.file_filters@[i]@,
                        ) == Some(app.file_filter@[i])
                },
                Err(i) => {
                    &&& 0 <= i < config.file_filters@.len()
                    &&& compile_spec(config.file_filters@[i as int]@) is None
                },
            },
    {
        let file_filter = match RuleFilter::new(&config.file_filters) {
            Ok(f) => f,
            Err(i) => {
                return Err(i);
            },
        };
        let sourcedir: Vec<u8> = if config.source_dir.len() > 0 && config.source_dir[
            config.source_dir.len() - 1
        ] == SLASH {
            let s = vstd::slice::slice_subrange(
                config.source_dir.as_slice(),
                0,
                config.source_dir.len() - 1,
            );
            proof {
                assert(s@ =~= config.source_dir@.drop_last());
            }
            copy_bytes(s)
        } else {
            copy_bytes(config.source_dir.as_slice())
        };
        let workdir = copy_bytes(config.command_workdir.as_slice());
        let mut variables = VariableReplace::new();
        let mut i: usize = 0;
        while i < config.variables.len()
            invariant
                variables.wf(),
                i <= config.variables@.len(),
                variables@ == pairs_map(config.variables@.take(i as int)),
            decreases config.variables.len() - i,
        {
            variables.add(config.variables[i].0.as_slice(), config.variables[i].1.as_slice());
            proof {
                assert(config.variables@.take(i + 1).drop_last() =~= config.variables@.take(
                    i as int,
                ));
                assert(config.variables@.take(i + 1).last() == config.variables@[i as int]);
            }
            i += 1;
        }
        proof {
            assert(config.variables@.take(config.variables@.len() as int) =~= config.variables@);
        }
        let name_source: Vec<u8> = vec![115u8, 111u8, 117u8, 114u8, 99u8, 101u8];
        assert(name_source@ =~= source_var());
        variables.add(name_source.as_slice(), sourcedir.as_slice());
        let name_workdir: Vec<u8> = vec![119u8, 111u8, 114u8, 107u8, 100u8, 105u8, 114u8];
        assert(name_workdir@ =~= workdir_var());
        variables.add(name_workdir.as_slice(), workdir.as_slice());
        let name_source_fwd: Vec<u8> = vec![115u8, 111u8, 117u8, 114u8, 99u8, 101u8, 95u8];
        assert(name_source_fwd@ =~= source_fwd_var());
        let source_fwd = forward_slashes(sourcedir.as_slice());
        variables.add(name_source_fwd.as_slice(), source_fwd.as_slice());
        let name_workdir_fwd: Vec<u8> = vec![119u8, 111u8, 114u8, 107u8, 100u8, 105u8, 114u8, 95u8];
        assert(name_workdir_fwd@ =~= workdir_fwd_var());
        let workdir_fwd = forward_slashes(workdir.as_slice());
        variables.add(name_workdir_fwd.as_slice(), workdir_fwd.as_slice());
        Ok(
            App {
                options,
                variables,
                hash_cache: HashCache::new(),
                file_filter,
                sourcedir,
                workdir,
                state_file: copy_bytes(config.state_file.as_slice()),
                state_indent: config.state_indent,
                use_local_state: config.use_local_state,
                use_remote_state: config.use_remote_state,
                fast_comparison: config.fast_comparison,
                overlay_mode: config.overlay_mode,
                threads: config.threads,
            },
        )
    }

    /// The state file's path, with the run's variables expanded.
    pub fn get_state_file(&self) -> (r: Vec<u8>)
        requires
            self.wf(),
        ensures
            r@ == subst(self.variables@, self.state_file@),
    {
        self.variables.apply(self.state_file.as_slice())
    }

    /// The variable set of one target: the base set plus `path` and its
    /// backslash duplicate — an independent copy per target, so concurrent
    /// workers never share a mutable scope.
    pub fn target_vars(&self, path: &[u8]) -> (r: VariableReplace)
        requires
            self.wf(),
        ensures
            r.wf(),
            r@ == self.variables@.insert(path_var(), path@).insert(
                path_back_var(),
                path@.map_values(|b: u8| crate::bytestr::to_backward(b)),
            ),
    {
        let mut vars = self.variables.duplicate();
        let name_path: Vec<u8> = vec![112u8, 97u8, 116u8, 104u8];
        assert(name_path@ =~= path_var());
        vars.add(name_path.as_slice(), path);
        let name_path_back: Vec<u8> = vec![112u8, 97u8, 116u8, 104u8, 95u8];
        assert(name_path_back@ =~= path_back_var());
        let back = crate::bytestr::backward_slashes(path);
        vars.add(name_path_back.as_slice(), back.as_slice());
        vars
    }

    /// Compares the tree snapshot against the recorded state.
    pub fn compare_files(&self, tree: &Vec<SourceEntry>, state: &State) -> (d: FileDifferences)
        requires
            state.wf(),
            tree_unique(tree@),
        ensures
            diffs_match(tree@, state@, self.file_filter@, self.fast_comparison, d),
    {
        compare(tree, state, &self.file_filter, self.fast_comparison)
    }

    /// The diagnostic filter walk: every path of the tree that some rule
    /// matches, in no promised order; nothing is reconciled or mutated.
    pub fn test_filter(&self, tree: &Vec<SourceEntry>) -> (r: Vec<Vec<u8>>)
        requires
            tree_unique(tree@),
        ensures
            forall|p: Seq<u8>|
                #[trigger] seq_has(r@, p) <==> (match tree_find(tree@, p) {
                    Some(e) => filter_matches(self.file_filter@, p),
                    None => false,
                }),
            distinct(r@),
    {
        let ghost tv = tree@;
        let mut out: Vec<Vec<u8>> = Vec::new();
        let mut i: usize = 0;
        while i < tree.len()
            invariant
                tv == tree@,
                tree_unique(tv),
                i <= tree.len(),
                forall|j: int|
                    0 <= j < i ==> (seq_has(out@, tv[j].path@) <==> filter_matches(
                        self.file_filter@,
                        tv[j].path@,
                    )),
                forall|idx: int| #![trigger out@[idx]]
                    0 <= idx < out@.len() ==> exists|j: int| #![trigger tv[j]]
                        0 <= j < i && out@[idx]@ == tv[j].path@,
                distinct(out@),
            decreases tree.len() - i,
        {
            let e = &tree[i];
            let ghost p = e.path@;
            let matched = self.file_filter.test_all(e.path.as_slice(), true);
            let ghost old_out = out@;
            if matched {
                out.push(copy_bytes(e.path.as_slice()));
            }
            proof {
                assert forall|idx: int| 0 <= idx < old_out.len() implies old_out[idx]@ != p by {
                    let j = choose|j: int| 0 <= j < i && old_out[idx]@ == tv[j].path@;
                    assert(tv[j].path@ != tv[i as int].path@);
                }
                assert(!seq_has(old_out, p));
                if matched {
                    crate::diff::lemma_seq_has_push(old_out, out@.last(), p);
                }
                assert forall|j: int| 0 <= j < i + 1 implies (seq_has(out@, tv[j].path@)
                    <==> filter_matches(self.file_filter@, tv[j].path@)) by {
                    if matched {
                        crate::diff::lemma_seq_has_push(old_out, out@.last(), tv[j].path@);
                    }
                    if j < i {
                        assert(tv[j].path@ != p);
                    }
                }
            }
            i += 1;
        }
        proof {
            assert forall|p: Seq<u8>| #[trigger] seq_has(out@, p) implies (match tree_find(
                tv,
                p,
            ) {
                Some(e) => filter_matches(self.file_filter@, p),
                None => false,
            }) by {
                let idx = choose|idx: int| 0 <= idx < out@.len() && out@[idx]@ == p;
                let j = choose|j: int| 0 <= j < tv.len() && out@[idx]@ == tv[j].path@;
                assert(seq_has(out@, tv[j].path@));
                crate::diff::lemma_tree_find_index(tv, j);
            }
            assert forall|p: Seq<u8>| (match tree_find(tv, p) {
                Some(e) => filter_matches(self.file_filter@, p),
                None => false,
            }) implies #[trigger] seq_has(out@, p) by {
                lemma_tree_find_some(tv, p);
                let j = choose|j: int| 0 <= j < tv.len() && tv[j].path@ == p;
            }
        }
        out
    }

    /// Executes the four reconciliation phases on the state, in their
    /// strict order, as the bookkeeping run does when no commands are
    /// configured: the returned plan is what a command-driven run would
    /// dispatch, and the state ends reconciled with the tree. A driver
    /// that spawns commands applies each action separately, only on its
    /// target's success.
    pub fn execute_operations(
        &self,
        state: &mut State,
        d: &FileDifferences,
        tree: &Vec<SourceEntry>,
    ) -> (plan: Vec<Action>)
        requires
            old(state).wf(),
            tree_unique(tree@),
            diffs_match(tree@, old(state)@, self.file_filter@, self.fast_comparison, *d),
        ensures
            final(state).wf(),
            plan_matches(tree@, *d, self.overlay_mode, plan@),
            final(state)@ == reconciled(
                tree@,
                old(state)@,
                self.file_filter@,
                self.fast_comparison,
            ),
    {
        proof {
            assert forall|i: int| 0 <= i < d.new_files@.len() implies crate::plan::file_in_tree(
                tree@,
                #[trigger] d.new_files@[i]@,
            ) by {
                assert(seq_has(d.new_files@, d.new_files@[i]@));
                assert(in_new_files(
                    tree@,
                    old(state)@,
                    self.file_filter@,
                    self.fast_comparison,
                    d.new_files@[i]@,
                ));
            }
        }
        let plan = build_plan(d, tree, self.overlay_mode);
        apply_plan(state, &plan);
        proof {
            lemma_plan_reaches_reconciled(
                tree@,
                old(state)@,
                self.file_filter@,
                self.fast_comparison,
                self.overlay_mode,
                *d,
                plan@,
            );
        }
        plan
    }

    /// Whether the run persists state at its end: only when differences
    /// existed and some form of persistence is configured.
    pub fn should_persist_state(&self, had_differences: bool) -> (r: bool)
        ensures
            r == (had_differences && (self.use_local_state || self.use_remote_state)),
    {
        had_differences && (self.use_local_state || self.use_remote_state)
    }
}

} // verus!
