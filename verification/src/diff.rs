//! The diff engine.
//!
//! `compare` walks a snapshot of the source tree, consults the rule filter
//! and the recorded state, and produces the four difference sets that drive
//! reconciliation: files and folders present locally but not validly
//! recorded (`new_*`), and records whose path is gone, hidden, or stale
//! (`old_*`). A changed file appears in both `old_files` and `new_files`.

use vstd::prelude::*;

use crate::bytestr::bytes_eq;
use crate::bytestr::copy_bytes;
use crate::filter::RuleFilter;
use crate::filter::PatTok;
use crate::filter::path_excluded;
use crate::state::RecordKind;
use crate::state::RecordModel;
use crate::state::State;

verus! {

/// One entry of the source-tree snapshot: a relative path with forward
/// slashes, whether it is a directory, and for files the modified time and
/// content hash.
pub struct SourceEntry {
    pub path: Vec<u8>,
    pub is_dir: bool,
    pub modified: u64,
    pub hash: Vec<u8>,
}

/// The structured outcome of a comparison.
pub struct FileDifferences {
    /// Files recorded in state but no longer valid locally.
    pub old_files: Vec<Vec<u8>>,
    /// Folders recorded in state but no longer valid locally.
    pub old_folders: Vec<Vec<u8>>,
    /// Local files not validly reflected in state.
    pub new_files: Vec<Vec<u8>>,
    /// Local folders not reflected in state.
    pub new_folders: Vec<Vec<u8>>,
}

/// The entry of the tree at a path, if any.
pub open spec fn tree_find(tv: Seq<SourceEntry>, p: Seq<u8>) -> Option<SourceEntry>
    decreases tv.len(),
{
    if tv.len() == 0 {
        None
    } else if tv.last().path@ == p {
        Some(tv.last())
    } else {
        tree_find(tv.drop_last(), p)
    }
}

/// No tree path occurs twice.
pub open spec fn tree_unique(tv: Seq<SourceEntry>) -> bool {
    forall|i: int, j: int| 0 <= i < j < tv.len() ==> tv[i].path@ != tv[j].path@
}

/// Under unique paths, the entry at index `i` is found at its path.
pub proof fn lemma_tree_find_index(tv: Seq<SourceEntry>, i: int)
    requires
        tree_unique(tv),
        0 <= i < tv.len(),
    ensures
        tree_find(tv, tv[i].path@) == Some(tv[i]),
    decreases tv.len(),
{
    if i < tv.len() - 1 {
        assert(tv.drop_last()[i] == tv[i]);
        assert forall|a: int, b: int| 0 <= a < b < tv.drop_last().len() implies tv.drop_last()[a]
            .path@ != tv.drop_last()[b].path@ by {
            assert(tv.drop_last()[a] == tv[a]);
            assert(tv.drop_last()[b] == tv[b]);
        }
        lemma_tree_find_index(tv.drop_last(), i);
        assert(tv[i].path@ != tv.last().path@);
    }
}

/// A found entry stands somewhere in the tree.
pub proof fn lemma_tree_find_some(tv: Seq<SourceEntry>, p: Seq<u8>)
    requires
        tree_find(tv, p) is Some,
    ensures
        exists|i: int| 0 <= i < tv.len() && tv[i].path@ == p,
    decreases tv.len(),
{
    if tv.len() > 0 {
        if tv.last().path@ == p {
            assert(tv[tv.len() - 1].path@ == p);
        } else {
            lemma_tree_find_some(tv.drop_last(), p);
            let i = choose|i: int| 0 <= i < tv.drop_last().len() && tv.drop_last()[i].path@ == p;
            assert(tv[i].path@ == p);
        }
    }
}

/// Whether a recorded file is to be treated as unchanged on disk: the fast
/// path accepts an equal modified time without hashing; otherwise the
/// recorded hash must equal the local content hash.
pub open spec fn unchanged_file(e: SourceEntry, modified: u64, hash: Seq<u8>, fast: bool) -> bool {
    (fast && modified == e.modified) || hash == e.hash@
}

/// The path belongs in `new_files`: a visible local file with no file
/// record, or whose record is stale.
pub open spec fn in_new_files(
    tv: Seq<SourceEntry>,
    sm: Map<Seq<u8>, RecordModel>,
    rules: Seq<Seq<PatTok>>,
    fast: bool,
    p: Seq<u8>,
) -> bool {
    match tree_find(tv, p) {
        Some(e) => !e.is_dir && !path_excluded(rules, p) && (if sm.contains_key(p) {
            match sm[p] {
                RecordModel::File { modified, hash } => !unchanged_file(e, modified, hash, fast),
                RecordModel::Dir => true,
            }
        } else {
            true
        }),
        None => false,
    }
}

/// The path belongs in `new_folders`: a visible local directory with no
/// directory record.
pub open spec fn in_new_folders(
    tv: Seq<SourceEntry>,
    sm: Map<Seq<u8>, RecordModel>,
    rules: Seq<Seq<PatTok>>,
    p: Seq<u8>,
) -> bool {
    match tree_find(tv, p) {
        Some(e) => e.is_dir && !path_excluded(rules, p) && !(sm.contains_key(p) && sm[p]
            is Dir),
        None => false,
    }
}

/// The path belongs in `old_files`: a file record whose path is gone,
/// hidden, now a directory, or stale.
pub open spec fn in_old_files(
    tv: Seq<SourceEntry>,
    sm: Map<Seq<u8>, RecordModel>,
    rules: Seq<Seq<PatTok>>,
    fast: bool,
    p: Seq<u8>,
) -> bool {
    sm.contains_key(p) && sm[p] is File && !(match tree_find(tv, p) {
        Some(e) => !e.is_dir && !path_excluded(rules, p) && (match sm[p] {
            RecordModel::File { modified, hash } => unchanged_file(e, modified, hash, fast),
            RecordModel::Dir => false,
        }),
        None => false,
    })
}

/// The path belongs in `old_folders`: a directory record whose path is
/// gone, hidden, or now a file.
pub open spec fn in_old_folders(
    tv: Seq<SourceEntry>,
    sm: Map<Seq<u8>, RecordModel>,
    rules: Seq<Seq<PatTok>>,
    p: Seq<u8>,
) -> bool {
    sm.contains_key(p) && sm[p] is Dir && !(match tree_find(tv, p) {
        Some(e) => e.is_dir && !path_excluded(rules, p),
        None => false,
    })
}

/// The new folders of a comparison in traversal order: parent-before-child
/// ordering of the tree snapshot is kept, so creating them in list order
/// creates every directory after its parent.
pub open spec fn new_folders_in_order(
    tv: Seq<SourceEntry>,
    sm: Map<Seq<u8>, RecordModel>,
    rules: Seq<Seq<PatTok>>,
    full: Seq<SourceEntry>,
) -> Seq<Seq<u8>>
    decreases tv.len(),
{
    if tv.len() == 0 {
        Seq::empty()
    } else {
        new_folders_in_order(tv.drop_last(), sm, rules, full) + (if in_new_folders(
            full,
            sm,
            rules,
            tv.last().path@,
        ) {
            seq![tv.last().path@]
        } else {
            Seq::empty()
        })
    }
}

/// Membership of a path in a list of byte strings.
pub open spec fn seq_has(s: Seq<Vec<u8>>, p: Seq<u8>) -> bool {
    exists|i: int| 0 <= i < s.len() && s[i]@ == p
}

/// No path occurs twice in the list.
pub open spec fn distinct(s: Seq<Vec<u8>>) -> bool {
    forall|i: int, j: int| 0 <= i < j < s.len() ==> s[i]@ != s[j]@
}

/// Pushing extends membership by exactly the pushed path.
pub proof fn lemma_seq_has_push(s: Seq<Vec<u8>>, x: Vec<u8>, p: Seq<u8>)
    ensures
        seq_has(s.push(x), p) <==> (seq_has(s, p) || x@ == p),
{
    if seq_has(s.push(x), p) {
        let i = choose|i: int| 0 <= i < s.push(x).len() && s.push(x)[i]@ == p;
        if i < s.len() {
            assert(s[i]@ == p);
        }
    }
    if seq_has(s, p) {
        let i = choose|i: int| 0 <= i < s.len() && s[i]@ == p;
        assert(s.push(x)[i]@ == p);
    }
    if x@ == p {
        assert(s.push(x)[s.len() as int]@ == p);
    }
}

/// The four difference sets agree exactly with the comparison relation and
/// hold each path at most once.
pub open spec fn diffs_match(
    tv: Seq<SourceEntry>,
    sm: Map<Seq<u8>, RecordModel>,
    rules: Seq<Seq<PatTok>>,
    fast: bool,
    d: FileDifferences,
) -> bool {
    &&& forall|p: Seq<u8>|
        #![trigger seq_has(d.new_files@, p)]
        #![trigger in_new_files(tv, sm, rules, fast, p)]
        seq_has(d.new_files@, p) <==> in_new_files(tv, sm, rules, fast, p)
    &&& forall|p: Seq<u8>|
        #![trigger seq_has(d.new_folders@, p)]
        #![trigger in_new_folders(tv, sm, rules, p)]
        seq_has(d.new_folders@, p) <==> in_new_folders(tv, sm, rules, p)
    &&& forall|p: Seq<u8>|
        #![trigger seq_has(d.old_files@, p)]
        #![trigger in_old_files(tv, sm, rules, fast, p)]
        seq_has(d.old_files@, p) <==> in_old_files(tv, sm, rules, fast, p)
    &&& forall|p: Seq<u8>|
        #![trigger seq_has(d.old_folders@, p)]
        #![trigger in_old_folders(tv, sm, rules, p)]
        seq_has(d.old_folders@, p) <==> in_old_folders(tv, sm, rules, p)
    &&& distinct(d.new_files@)
    &&& distinct(d.new_folders@)
    &&& distinct(d.old_files@)
    &&& distinct(d.old_folders@)
    &&& d.new_folders@.map_values(|v: Vec<u8>| v@) == new_folders_in_order(tv, sm, rules, tv)
}

impl FileDifferences {
    /// Whether any set is non-empty.
    pub fn has_differences(&self) -> (r: bool)
        ensures
            r == (self.old_files@.len() > 0 || self.old_folders@.len() > 0
                || self.new_files@.len() > 0 || self.new_folders@.len() > 0),
    {
        self.old_files.len() > 0 || self.old_folders.len() > 0 || self.new_files.len() > 0
            || self.new_folders.len() > 0
    }
}

/// Whether a file must be hashed before it can be compared to its record:
/// the fast path ends comparison early when it is enabled and the modified
/// times agree, and only then is the hash cache left unqueried.
pub fn hash_needed(fast: bool, recorded_modified: u64, local_modified: u64) -> (r: bool)
    ensures
        r == !(fast && recorded_modified == local_modified),
{
    !(fast && recorded_modified == local_modified)
}

/// Finds the tree entry at a path.
pub fn tree_lookup<'a>(tree: &'a Vec<SourceEntry>, p: &[u8]) -> (r: Option<&'a SourceEntry>)
    requires
        tree_unique(tree@),
    ensures
        match r {
            Some(e) => tree_find(tree@, p@) == Some(*e),
            None => tree_find(tree@, p@) is None,
        },
{
    let mut i: usize = 0;
    while i < tree.len()
        invariant
            tree_unique(tree@),
            i <= tree.len(),
            forall|j: int| 0 <= j < i ==> tree@[j].path@ != p@,
        decreases tree.len() - i,
    {
        if bytes_eq(tree[i].path.as_slice(), p) {
            proof {
                lemma_tree_find_index(tree@, i as int);
            }
            return Some(&tree[i]);
        }
        i += 1;
    }
    proof {
        if tree_find(tree@, p@) is Some {
            lemma_tree_find_some(tree@, p@);
        }
    }
    None
}

/// Walks the tree snapshot against the recorded state and produces the
/// difference sets.
pub fn compare(
    tree: &Vec<SourceEntry>,
    state: &State,
    rules: &RuleFilter,
    fast_comparison: bool,
) -> (d: FileDifferences)
    requires
        state.wf(),
        tree_unique(tree@),
    ensures
        diffs_match(tree@, state@, rules@, fast_comparison, d),
{
    let ghost tv = tree@;
    let ghost sm = state@;
    let ghost rl = rules@;
    let mut new_files: Vec<Vec<u8>> = Vec::new();
    let mut new_folders: Vec<Vec<u8>> = Vec::new();
    let mut i: usize = 0;
    while i < tree.len()
        invariant
            state.wf(),
            tree_unique(tv),
            tv == tree@,
            sm == state@,
            rl == rules@,
            i <= tree.len(),
            forall|j: int|
                0 <= j < i ==> (seq_has(new_files@, tv[j].path@) <==> in_new_files(
                    tv,
                    sm,
                    rl,
                    fast_comparison,
                    tv[j].path@,
                )),
            forall|j: int|
                0 <= j < i ==> (seq_has(new_folders@, tv[j].path@) <==> in_new_folders(
                    tv,
                    sm,
                    rl,
                    tv[j].path@,
                )),
            forall|idx: int| #![trigger new_files@[idx]]
                0 <= idx < new_files@.len() ==> exists|j: int| #![trigger tv[j]]
                    0 <= j < i && new_files@[idx]@ == tv[j].path@,
            forall|idx: int| #![trigger new_folders@[idx]]
                0 <= idx < new_folders@.len() ==> exists|j: int| #![trigger tv[j]]
                    0 <= j < i && new_folders@[idx]@ == tv[j].path@,
            distinct(new_files@),
            distinct(new_folders@),
            new_folders@.map_values(|v: Vec<u8>| v@) == new_folders_in_order(
                tv.take(i as int),
                sm,
                rl,
                tv,
            ),
        decreases tree.len() - i,
    {
        let e = &tree[i];
        let ghost p = e.path@;
        proof {
            lemma_tree_find_index(tv, i as int);
            assert(tv.take(i + 1).drop_last() =~= tv.take(i as int));
            assert(tv.take(i + 1).last() == tv[i as int]);
        }
        let mut is_new = false;
        if !rules.excludes(e.path.as_slice()) {
            if e.is_dir {
                is_new = match state.lookup(e.path.as_slice()) {
                    Some(rec) => match &rec.kind {
                        RecordKind::Dir => false,
                        RecordKind::File { .. } => true,
                    },
                    None => true,
                };
                proof {
                    assert(is_new == in_new_folders(tv, sm, rl, p));
                }
            } else {
                is_new = match state.lookup(e.path.as_slice()) {
                    Some(rec) => match &rec.kind {
                        RecordKind::Dir => true,
                        RecordKind::File { modified, hash } => {
                            if fast_comparison && *modified == e.modified {
                                false
                            } else {
                                !bytes_eq(hash.as_slice(), e.hash.as_slice())
                            }
                        },
                    },
                    None => true,
                };
                proof {
                    assert(is_new == in_new_files(tv, sm, rl, fast_comparison, p));
                }
            }
        }
        let ghost old_nf = new_files@;
        let ghost old_nd = new_folders@;
        if is_new {
            if e.is_dir {
                new_folders.push(copy_bytes(e.path.as_slice()));
            } else {
                new_files.push(copy_bytes(e.path.as_slice()));
            }
        }
        proof {
            // A path seen in this round differs from every path seen before.
            assert forall|idx: int| 0 <= idx < old_nf.len() implies old_nf[idx]@ != p by {
                let j = choose|j: int| 0 <= j < i && old_nf[idx]@ == tv[j].path@;
                assert(tv[j].path@ != tv[i as int].path@);
            }
            assert forall|idx: int| 0 <= idx < old_nd.len() implies old_nd[idx]@ != p by {
                let j = choose|j: int| 0 <= j < i && old_nd[idx]@ == tv[j].path@;
                assert(tv[j].path@ != tv[i as int].path@);
            }
            assert(!seq_has(old_nf, p));
            assert(!seq_has(old_nd, p));
            if is_new {
                if tv[i as int].is_dir {
                    lemma_seq_has_push(old_nd, new_folders@.last(), p);
                } else {
                    lemma_seq_has_push(old_nf, new_files@.last(), p);
                }
            }
            assert forall|j: int| 0 <= j < i + 1 implies (seq_has(new_files@, tv[j].path@)
                <==> in_new_files(tv, sm, rl, fast_comparison, tv[j].path@)) by {
                if is_new && !tv[i as int].is_dir {
                    lemma_seq_has_push(old_nf, new_files@.last(), tv[j].path@);
                }
                if j < i {
                    assert(tv[j].path@ != p);
                }
            }
            assert forall|j: int| 0 <= j < i + 1 implies (seq_has(new_folders@, tv[j].path@)
                <==> in_new_folders(tv, sm, rl, tv[j].path@)) by {
                if is_new && tv[i as int].is_dir {
                    lemma_seq_has_push(old_nd, new_folders@.last(), tv[j].path@);
                }
                if j < i {
                    assert(tv[j].path@ != p);
                }
            }
            assert(new_folders@.map_values(|v: Vec<u8>| v@) =~= new_folders_in_order(
                tv.take(i + 1),
                sm,
                rl,
                tv,
            ));
        }
        i += 1;
    }
    proof {
        assert(tv.take(tv.len() as int) =~= tv);
    }
    // Every state record whose path was not visited, was filtered out, or is
    // stale goes to the corresponding old set.
    let recs = state.records();
    let ghost rs = recs@;
    let mut old_files: Vec<Vec<u8>> = Vec::new();
    let mut old_folders: Vec<Vec<u8>> = Vec::new();
    let mut k: usize = 0;
    while k < recs.len()
        invariant
            state.wf(),
            tree_unique(tv),
            tv == tree@,
            sm == state@,
            rl == rules@,
            rs == recs@,
            crate::state::records_map(rs) == sm,
            crate::state::unique_paths(rs),
            k <= recs.len(),
            forall|j: int|
                0 <= j < k ==> (seq_has(old_files@, rs[j].path@) <==> in_old_files(
                    tv,
                    sm,
                    rl,
                    fast_comparison,
                    rs[j].path@,
                )),
            forall|j: int|
                0 <= j < k ==> (seq_has(old_folders@, rs[j].path@) <==> in_old_folders(
                    tv,
                    sm,
                    rl,
                    rs[j].path@,
                )),
            forall|idx: int| #![trigger old_files@[idx]]
                0 <= idx < old_files@.len() ==> exists|j: int| #![trigger rs[j]]
                    0 <= j < k && old_files@[idx]@ == rs[j].path@,
            forall|idx: int| #![trigger old_folders@[idx]]
                0 <= idx < old_folders@.len() ==> exists|j: int| #![trigger rs[j]]
                    0 <= j < k && old_folders@[idx]@ == rs[j].path@,
            distinct(old_files@),
            distinct(old_folders@),
        decreases recs.len() - k,
    {
        let rec = &recs[k];
        let ghost p = rec.path@;
        proof {
            crate::state::lemma_records_map_index(rs, k as int);
        }
        let is_old: bool;
        let rec_is_file: bool;
        match &rec.kind {
            RecordKind::File { modified, hash } => {
                rec_is_file = true;
                is_old = match tree_lookup(tree, rec.path.as_slice()) {
                    None => true,
                    Some(e) => {
                        if e.is_dir {
                            true
                        } else if rules.excludes(rec.path.as_slice()) {
                            true
                        } else if fast_comparison && *modified == e.modified {
                            false
                        } else {
                            !bytes_eq(hash.as_slice(), e.hash.as_slice())
                        }
                    },
                };
                proof {
                    assert(is_old == in_old_files(tv, sm, rl, fast_comparison, p));
                }
            },
            RecordKind::Dir => {
                rec_is_file = false;
                is_old = match tree_lookup(tree, rec.path.as_slice()) {
                    None => true,
                    Some(e) => !e.is_dir || rules.excludes(rec.path.as_slice()),
                };
                proof {
                    assert(is_old == in_old_folders(tv, sm, rl, p));
                }
            },
        }
        let ghost old_of = old_files@;
        let ghost old_od = old_folders@;
        if is_old {
            if rec_is_file {
                old_files.push(copy_bytes(rec.path.as_slice()));
            } else {
                old_folders.push(copy_bytes(rec.path.as_slice()));
            }
        }
        proof {
            assert forall|idx: int| 0 <= idx < old_of.len() implies old_of[idx]@ != p by {
                let j = choose|j: int| 0 <= j < k && old_of[idx]@ == rs[j].path@;
                assert(rs[j].path@ != rs[k as int].path@);
            }
            assert forall|idx: int| 0 <= idx < old_od.len() implies old_od[idx]@ != p by {
                let j = choose|j: int| 0 <= j < k && old_od[idx]@ == rs[j].path@;
                assert(rs[j].path@ != rs[k as int].path@);
            }
            assert(!seq_has(old_of, p));
            assert(!seq_has(old_od, p));
            if is_old {
                if rec_is_file {
                    lemma_seq_has_push(old_of, old_files@.last(), p);
                } else {
                    lemma_seq_has_push(old_od, old_folders@.last(), p);
                }
            }
            assert forall|j: int| 0 <= j < k + 1 implies (seq_has(old_files@, rs[j].path@)
                <==> in_old_files(tv, sm, rl, fast_comparison, rs[j].path@)) by {
                if is_old && rec_is_file {
                    lemma_seq_has_push(old_of, old_files@.last(), rs[j].path@);
                }
                if j < k {
                    assert(rs[j].path@ != p);
                }
            }
            assert forall|j: int| 0 <= j < k + 1 implies (seq_has(old_folders@, rs[j].path@)
                <==> in_old_folders(tv, sm, rl, rs[j].path@)) by {
                if is_old && !rec_is_file {
                    lemma_seq_has_push(old_od, old_folders@.last(), rs[j].path@);
                }
                if j < k {
                    assert(rs[j].path@ != p);
                }
            }
        }
        k += 1;
    }
    let d = FileDifferences { old_files, old_folders, new_files, new_folders };
    proof {
        assert forall|p: Seq<u8>| seq_has(d.new_files@, p) implies in_new_files(
            tv,
            sm,
            rl,
            fast_comparison,
            p,
        ) by {
            let idx = choose|idx: int| 0 <= idx < d.new_files@.len() && d.new_files@[idx]@ == p;
            let j = choose|j: int| 0 <= j < tv.len() && d.new_files@[idx]@ == tv[j].path@;
            assert(seq_has(d.new_files@, tv[j].path@));
        }
        assert forall|p: Seq<u8>| in_new_files(tv, sm, rl, fast_comparison, p) implies seq_has(
            d.new_files@,
            p,
        ) by {
            lemma_tree_find_some(tv, p);
            let j = choose|j: int| 0 <= j < tv.len() && tv[j].path@ == p;
        }
        assert forall|p: Seq<u8>| seq_has(d.new_folders@, p) implies in_new_folders(
            tv,
            sm,
            rl,
            p,
        ) by {
            let idx = choose|idx: int|
                0 <= idx < d.new_folders@.len() && d.new_folders@[idx]@ == p;
            let j = choose|j: int| 0 <= j < tv.len() && d.new_folders@[idx]@ == tv[j].path@;
            assert(seq_has(d.new_folders@, tv[j].path@));
        }
        assert forall|p: Seq<u8>| in_new_folders(tv, sm, rl, p) implies seq_has(
            d.new_folders@,
            p,
        ) by {
            lemma_tree_find_some(tv, p);
            let j = choose|j: int| 0 <= j < tv.len() && tv[j].path@ == p;
        }
        assert forall|p: Seq<u8>| seq_has(d.old_files@, p) implies in_old_files(
            tv,
            sm,
            rl,
            fast_comparison,
            p,
        ) by {
            let idx = choose|idx: int| 0 <= idx < d.old_files@.len() && d.old_files@[idx]@ == p;
            let j = choose|j: int| 0 <= j < rs.len() && d.old_files@[idx]@ == rs[j].path@;
            assert(seq_has(d.old_files@, rs[j].path@));
        }
        assert forall|p: Seq<u8>| in_old_files(tv, sm, rl, fast_comparison, p) implies seq_has(
            d.old_files@,
            p,
        ) by {
            crate::state::lemma_records_map_dom(rs, p);
            let j = choose|j: int| 0 <= j < rs.len() && rs[j].path@ == p;
        }
        assert forall|p: Seq<u8>| seq_has(d.old_folders@, p) implies in_old_folders(
            tv,
            sm,
            rl,
            p,
        ) by {
            let idx = choose|idx: int|
                0 <= idx < d.old_folders@.len() && d.old_folders@[idx]@ == p;
            let j = choose|j: int| 0 <= j < rs.len() && d.old_folders@[idx]@ == rs[j].path@;
            assert(seq_has(d.old_folders@, rs[j].path@));
        }
        assert forall|p: Seq<u8>| in_old_folders(tv, sm, rl, p) implies seq_has(
            d.old_folders@,
            p,
        ) by {
            crate::state::lemma_records_map_dom(rs, p);
            let j = choose|j: int| 0 <= j < rs.len() && rs[j].path@ == p;
        }
    }
    d
}

} // verus!
