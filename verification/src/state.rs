//! The persisted record of previously known files and directories.
//!
//! A `State` is a collection of records, one per path: a file record carries
//! the modified time and content hash last seen, a directory record only the
//! path. Its view is a map from paths to record models.

use vstd::prelude::*;

use crate::bytestr::bytes_eq;
use crate::bytestr::copy_bytes;

verus! {

/// What one record says of its path.
pub enum RecordKind {
    /// A tracked file with its modified time and content hash.
    File { modified: u64, hash: Vec<u8> },
    /// A tracked directory.
    Dir,
}

/// The mathematical shape of a record.
pub enum RecordModel {
    File { modified: u64, hash: Seq<u8> },
    Dir,
}

impl RecordKind {
    /// The model of this record kind.
    pub open spec fn model(&self) -> RecordModel {
        match self {
            RecordKind::File { modified, hash } => RecordModel::File {
                modified: *modified,
                hash: hash@,
            },
            RecordKind::Dir => RecordModel::Dir,
        }
    }
}

/// One entry of the persisted state.
pub struct StateRecord {
    pub path: Vec<u8>,
    pub kind: RecordKind,
}

/// The map described by a record list, later records overriding earlier ones.
pub open spec fn records_map(s: Seq<StateRecord>) -> Map<Seq<u8>, RecordModel>
    decreases s.len(),
{
    if s.len() == 0 {
        Map::empty()
    } else {
        records_map(s.drop_last()).insert(s.last().path@, s.last().kind.model())
    }
}

/// No path occurs twice.
pub open spec fn unique_paths(s: Seq<StateRecord>) -> bool {
    forall|i: int, j: int| 0 <= i < j < s.len() ==> s[i].path@ != s[j].path@
}

/// The collection of records the last run left behind.
pub struct State {
    records: Vec<StateRecord>,
}

impl View for State {
    type V = Map<Seq<u8>, RecordModel>;

    closed spec fn view(&self) -> Map<Seq<u8>, RecordModel> {
        records_map(self.records@)
    }
}

/// Under unique paths, the record at index `i` is in the map.
pub proof fn lemma_records_map_index(s: Seq<StateRecord>, i: int)
    requires
        unique_paths(s),
        0 <= i < s.len(),
    ensures
        records_map(s).contains_key(s[i].path@),
        records_map(s)[s[i].path@] == s[i].kind.model(),
    decreases s.len(),
{
    if i < s.len() - 1 {
        assert(s.drop_last()[i] == s[i]);
        lemma_records_map_index(s.drop_last(), i);
        assert(s[i].path@ != s.last().path@);
    }
}

/// Every path of the map belongs to some record.
pub proof fn lemma_records_map_dom(s: Seq<StateRecord>, k: Seq<u8>)
    requires
        records_map(s).contains_key(k),
    ensures
        exists|i: int| 0 <= i < s.len() && s[i].path@ == k,
    decreases s.len(),
{
    if s.len() > 0 {
        if s.last().path@ == k {
            assert(s[s.len() - 1].path@ == k);
        } else {
            lemma_records_map_dom(s.drop_last(), k);
            let i = choose|i: int| 0 <= i < s.drop_last().len() && s.drop_last()[i].path@ == k;
            assert(s[i].path@ == k);
        }
    }
}

/// Removing the record at index `i` removes its path from the map.
proof fn lemma_records_map_remove(s: Seq<StateRecord>, i: int)
    requires
        unique_paths(s),
        0 <= i < s.len(),
    ensures
        records_map(s.remove(i)) == records_map(s).remove(s[i].path@),
        unique_paths(s.remove(i)),
    decreases s.len(),
{
    assert forall|a: int, b: int| 0 <= a < b < s.remove(i).len() implies s.remove(i)[a].path@
        != s.remove(i)[b].path@ by {
        assert(s.remove(i)[a] == if a < i {
            s[a]
        } else {
            s[a + 1]
        });
        assert(s.remove(i)[b] == if b < i {
            s[b]
        } else {
            s[b + 1]
        });
    }
    if i == s.len() - 1 {
        assert(s.remove(i) =~= s.drop_last());
        assert(!records_map(s.drop_last()).contains_key(s[i].path@)) by {
            if records_map(s.drop_last()).contains_key(s[i].path@) {
                lemma_records_map_dom(s.drop_last(), s[i].path@);
            }
        }
        assert(records_map(s.drop_last()) =~= records_map(s).remove(s[i].path@));
    } else {
        lemma_records_map_remove(s.drop_last(), i);
        assert(s.remove(i).drop_last() =~= s.drop_last().remove(i));
        assert(s.remove(i).last() == s.last());
        assert(s.drop_last()[i] == s[i]);
        assert(records_map(s.remove(i)) == records_map(s.drop_last().remove(i)).insert(
            s.last().path@,
            s.last().kind.model(),
        ));
        assert(records_map(s.remove(i)) =~= records_map(s).remove(s[i].path@));
    }
}

impl State {
    /// The key invariant of the representation.
    pub closed spec fn wf(&self) -> bool {
        unique_paths(self.records@)
    }

    /// An empty state, the baseline when no earlier state exists.
    pub fn new() -> (r: State)
        ensures
            r.wf(),
            r@ == Map::<Seq<u8>, RecordModel>::empty(),
    {
        State { records: Vec::new() }
    }

    /// Builds a state from a list of records read back from a state file,
    /// later records overriding earlier ones with the same path.
    pub fn from_records(list: Vec<StateRecord>) -> (r: State)
        ensures
            r.wf(),
            r@ == records_map(list@),
    {
        let mut st = State::new();
        let mut i: usize = 0;
        while i < list.len()
            invariant
                st.wf(),
                i <= list.len(),
                st@ == records_map(list@.take(i as int)),
            decreases list.len() - i,
        {
            let rec = &list[i];
            match &rec.kind {
                RecordKind::File { modified, hash } => {
                    st.add_file(rec.path.as_slice(), *modified, hash.as_slice());
                },
                RecordKind::Dir => {
                    st.make_dir(rec.path.as_slice());
                },
            }
            proof {
                assert(list@.take(i + 1).drop_last() =~= list@.take(i as int));
                assert(list@.take(i + 1).last() == list@[i as int]);
            }
            i += 1;
        }
        proof {
            assert(list@.take(list@.len() as int) =~= list@);
        }
        st
    }

    /// The records, for serialization and inspection.
    pub fn records(&self) -> (r: &Vec<StateRecord>)
        requires
            self.wf(),
        ensures
            records_map(r@) == self@,
            unique_paths(r@),
    {
        &self.records
    }

    /// Looks the record for a path up.
    pub fn lookup(&self, path: &[u8]) -> (r: Option<&StateRecord>)
        requires
            self.wf(),
        ensures
            match r {
                Some(rec) => self@.contains_key(path@) && self@[path@] == rec.kind.model()
                    && rec.path@ == path@,
                None => !self@.contains_key(path@),
            },
    {
        let mut i: usize = 0;
        while i < self.records.len()
            invariant
                self.wf(),
                i <= self.records.len(),
                forall|j: int| 0 <= j < i ==> self.records@[j].path@ != path@,
            decreases self.records.len() - i,
        {
            if bytes_eq(self.records[i].path.as_slice(), path) {
                proof {
                    lemma_records_map_index(self.records@, i as int);
                }
                return Some(&self.records[i]);
            }
            i += 1;
        }
        proof {
            if self@.contains_key(path@) {
                lemma_records_map_dom(self.records@, path@);
            }
        }
        None
    }

    /// Removes the record for a path, whether file or directory; a path
    /// without a record is left alone.
    pub fn remove_file_or_dir(&mut self, path: &[u8]) -> (nothing: ())
        requires
            old(self).wf(),
        ensures
            final(self).wf(),
            final(self)@ == old(self)@.remove(path@),
    {
        let mut i: usize = 0;
        while i < self.records.len()
            invariant
                self.wf(),
                i <= self.records.len(),
                forall|j: int| 0 <= j < i ==> self.records@[j].path@ != path@,
                self.records@ == old(self).records@,
            decreases self.records.len() - i,
        {
            if bytes_eq(self.records[i].path.as_slice(), path) {
                proof {
                    lemma_records_map_remove(self.records@, i as int);
                }
                self.records.remove(i);
                return ;
            }
            i += 1;
        }
        proof {
            if self@.contains_key(path@) {
                lemma_records_map_dom(self.records@, path@);
            }
            assert(self@ =~= old(self)@.remove(path@));
        }
    }

    /// Inserts a record, overriding any record the path had.
    fn put(&mut self, path: &[u8], kind: RecordKind) -> (nothing: ())
        requires
            old(self).wf(),
        ensures
            final(self).wf(),
            final(self)@ == old(self)@.insert(path@, kind.model()),
    {
        let ghost target = old(self)@.insert(path@, kind.model());
        self.remove_file_or_dir(path);
        let ghost mid = self.records@;
        self.records.push(StateRecord { path: copy_bytes(path), kind });
        proof {
            assert(self.records@.drop_last() =~= mid);
            assert forall|a: int, b: int| 0 <= a < b < self.records@.len() implies self
                .records@[a].path@ != self.records@[b].path@ by {
                if b < self.records@.len() - 1 {
                    assert(self.records@[a] == mid[a]);
                    assert(self.records@[b] == mid[b]);
                } else {
                    assert(self.records@[a] == mid[a]);
                    lemma_records_map_index(mid, a);
                }
            }
            assert(self@ =~= target);
        }
    }

    /// Records a directory at a path.
    pub fn make_dir(&mut self, path: &[u8]) -> (nothing: ())
        requires
            old(self).wf(),
        ensures
            final(self).wf(),
            final(self)@ == old(self)@.insert(path@, RecordModel::Dir),
    {
        self.put(path, RecordKind::Dir);
    }

    /// Records a file at a path with the modified time and content hash it
    /// was uploaded with.
    pub fn add_file(&mut self, path: &[u8], modified: u64, hash: &[u8]) -> (nothing: ())
        requires
            old(self).wf(),
        ensures
            final(self).wf(),
            final(self)@ == old(self)@.insert(
                path@,
                RecordModel::File { modified, hash: hash@ },
            ),
    {
        self.put(path, RecordKind::File { modified, hash: copy_bytes(hash) });
    }
}

} // verus!
