//! An association list from byte-string keys to byte-string values, viewed as
//! a mathematical `Map<Seq<u8>, Seq<u8>>`.
//!
//! It backs the variable table and the hash cache.

use vstd::prelude::*;

use crate::bytestr::bytes_eq;
use crate::bytestr::copy_bytes;

verus! {

/// The map described by an association list, later pairs overriding earlier
/// ones.
pub open spec fn pairs_map(s: Seq<(Vec<u8>, Vec<u8>)>) -> Map<Seq<u8>, Seq<u8>>
    decreases s.len(),
{
    if s.len() == 0 {
        Map::empty()
    } else {
        pairs_map(s.drop_last()).insert(s.last().0@, s.last().1@)
    }
}

/// No key occurs twice.
pub open spec fn unique_keys(s: Seq<(Vec<u8>, Vec<u8>)>) -> bool {
    forall|i: int, j: int| 0 <= i < j < s.len() ==> s[i].0@ != s[j].0@
}

/// A finite map from byte strings to byte strings.
pub struct ByteMap {
    pairs: Vec<(Vec<u8>, Vec<u8>)>,
}

impl View for ByteMap {
    type V = Map<Seq<u8>, Seq<u8>>;

    closed spec fn view(&self) -> Map<Seq<u8>, Seq<u8>> {
        pairs_map(self.pairs@)
    }
}

/// Under unique keys, the pair at index `i` is in the map.
proof fn lemma_pairs_map_index(s: Seq<(Vec<u8>, Vec<u8>)>, i: int)
    requires
        unique_keys(s),
        0 <= i < s.len(),
    ensures
        pairs_map(s).contains_key(s[i].0@),
        pairs_map(s)[s[i].0@] == s[i].1@,
    decreases s.len(),
{
    if i < s.len() - 1 {
        assert(s.drop_last()[i] == s[i]);
        lemma_pairs_map_index(s.drop_last(), i);
        assert(s[i].0@ != s.last().0@);
    }
}

/// Every key of the map belongs to some pair.
proof fn lemma_pairs_map_dom(s: Seq<(Vec<u8>, Vec<u8>)>, k: Seq<u8>)
    requires
        pairs_map(s).contains_key(k),
    ensures
        exists|i: int| 0 <= i < s.len() && s[i].0@ == k,
    decreases s.len(),
{
    if s.len() > 0 {
        if s.last().0@ == k {
            assert(s[s.len() - 1].0@ == k);
        } else {
            lemma_pairs_map_dom(s.drop_last(), k);
            let i = choose|i: int| 0 <= i < s.drop_last().len() && s.drop_last()[i].0@ == k;
            assert(s[i].0@ == k);
        }
    }
}

/// Removing the pair at index `i` removes its key from the map.
proof fn lemma_pairs_map_remove(s: Seq<(Vec<u8>, Vec<u8>)>, i: int)
    requires
        unique_keys(s),
        0 <= i < s.len(),
    ensures
        pairs_map(s.remove(i)) == pairs_map(s).remove(s[i].0@),
        unique_keys(s.remove(i)),
    decreases s.len(),
{
    assert forall|a: int, b: int| 0 <= a < b < s.remove(i).len() implies s.remove(i)[a].0@
        != s.remove(i)[b].0@ by {
        assert(s.remove(i)[a] == if a < i {
            s[a]
        } else {
            s[a + 1]
        });
        assert(s.remove(i)[b] == if b < i {
            s[b]
        } else {
            s[b + 1]
        });
    }
    if i == s.len() - 1 {
        assert(s.remove(i) =~= s.drop_last());
        assert(!pairs_map(s.drop_last()).contains_key(s[i].0@)) by {
            if pairs_map(s.drop_last()).contains_key(s[i].0@) {
                lemma_pairs_map_dom(s.drop_last(), s[i].0@);
            }
        }
        assert(pairs_map(s.drop_last()) =~= pairs_map(s).remove(s[i].0@));
    } else {
        lemma_pairs_map_remove(s.drop_last(), i);
        assert(s.remove(i).drop_last() =~= s.drop_last().remove(i));
        assert(s.remove(i).last() == s.last());
        assert(s.drop_last()[i] == s[i]);
        assert(pairs_map(s.remove(i)) == pairs_map(s.drop_last().remove(i)).insert(
            s.last().0@,
            s.last().1@,
        ));
        assert(pairs_map(s.remove(i)) =~= pairs_map(s).remove(s[i].0@));
    }
}

impl ByteMap {
    /// The key invariant of the representation.
    pub closed spec fn wf(&self) -> bool {
        unique_keys(self.pairs@)
    }

    /// An empty map.
    pub fn new() -> (r: ByteMap)
        ensures
            r.wf(),
            r@ == Map::<Seq<u8>, Seq<u8>>::empty(),
    {
        ByteMap { pairs: Vec::new() }
    }

    /// Looks a key up.
    pub fn get(&self, key: &[u8]) -> (r: Option<&Vec<u8>>)
        requires
            self.wf(),
        ensures
            match r {
                Some(v) => self@.contains_key(key@) && self@[key@] == v@,
                None => !self@.contains_key(key@),
            },
    {
        let mut i: usize = 0;
        while i < self.pairs.len()
            invariant
                self.wf(),
                i <= self.pairs.len(),
                forall|j: int| 0 <= j < i ==> self.pairs@[j].0@ != key@,
            decreases self.pairs.len() - i,
        {
            if bytes_eq(self.pairs[i].0.as_slice(), key) {
                proof {
                    lemma_pairs_map_index(self.pairs@, i as int);
                }
                return Some(&self.pairs[i].1);
            }
            i += 1;
        }
        proof {
            if self@.contains_key(key@) {
                lemma_pairs_map_dom(self.pairs@, key@);
            }
        }
        None
    }

    /// Tests whether a key is present.
    pub fn contains_key(&self, key: &[u8]) -> (r: bool)
        requires
            self.wf(),
        ensures
            r == self@.contains_key(key@),
    {
        match self.get(key) {
            Some(_) => true,
            None => false,
        }
    }

    /// Binds a key to a value, overriding any earlier binding.
    pub fn set(&mut self, key: &[u8], value: Vec<u8>) -> (nothing: ())
        requires
            old(self).wf(),
        ensures
            final(self).wf(),
            final(self)@ == old(self)@.insert(key@, value@),
    {
        let mut i: usize = 0;
        while i < self.pairs.len()
            invariant
                self.wf(),
                i <= self.pairs.len(),
                forall|j: int| 0 <= j < i ==> self.pairs@[j].0@ != key@,
                self.pairs@ == old(self).pairs@,
            decreases self.pairs.len() - i,
        {
            if bytes_eq(self.pairs[i].0.as_slice(), key) {
                proof {
                    lemma_pairs_map_index(self.pairs@, i as int);
                    lemma_pairs_map_remove(self.pairs@, i as int);
                }
                self.pairs.remove(i);
                self.pairs.push((copy_bytes(key), value));
                proof {
                    assert(self.pairs@.drop_last() =~= old(self).pairs@.remove(i as int));
                    assert(self@ =~= old(self)@.insert(key@, value@));
                    assert forall|a: int, b: int| 0 <= a < b < self.pairs@.len() implies self
                        .pairs@[a].0@ != self.pairs@[b].0@ by {
                        if b < self.pairs@.len() - 1 {
                            assert(self.pairs@[a] == old(self).pairs@.remove(i as int)[a]);
                            assert(self.pairs@[b] == old(self).pairs@.remove(i as int)[b]);
                        } else {
                            assert(self.pairs@[a] == old(self).pairs@.remove(i as int)[a]);
                        }
                    }
                }
                return ;
            }
            i += 1;
        }
        self.pairs.push((copy_bytes(key), value));
        proof {
            assert(self.pairs@.drop_last() =~= old(self).pairs@);
            assert forall|a: int, b: int| 0 <= a < b < self.pairs@.len() implies self.pairs@[a].0@
                != self.pairs@[b].0@ by {
                if b < self.pairs@.len() - 1 {
                    assert(self.pairs@[a] == old(self).pairs@[a]);
                    assert(self.pairs@[b] == old(self).pairs@[b]);
                } else {
                    assert(self.pairs@[a] == old(self).pairs@[a]);
                }
            }
        }
    }

    /// Copies the whole map.
    pub fn duplicate(&self) -> (r: ByteMap)
        requires
            self.wf(),
        ensures
            r.wf(),
            r@ == self@,
    {
        let mut pairs: Vec<(Vec<u8>, Vec<u8>)> = Vec::new();
        let mut i: usize = 0;
        while i < self.pairs.len()
            invariant
                i <= self.pairs.len(),
                pairs@.len() == i,
                forall|j: int| #![auto] 0 <= j < i ==> pairs@[j].0@ == self.pairs@[j].0@
                    && pairs@[j].1@ == self.pairs@[j].1@,
            decreases self.pairs.len() - i,
        {
            let k = copy_bytes(self.pairs[i].0.as_slice());
            let v = copy_bytes(self.pairs[i].1.as_slice());
            pairs.push((k, v));
            i += 1;
        }
        let r = ByteMap { pairs };
        proof {
            assert(unique_keys(r.pairs@)) by {
                assert forall|a: int, b: int| 0 <= a < b < r.pairs@.len() implies r.pairs@[a].0@
                    != r.pairs@[b].0@ by {
                    assert(self.pairs@[a].0@ != self.pairs@[b].0@);
                }
            }
            lemma_pairs_map_congruent(r.pairs@, self.pairs@);
        }
        r
    }
}

/// Two association lists with pointwise equal views of their pairs describe
/// the same map.
proof fn lemma_pairs_map_congruent(a: Seq<(Vec<u8>, Vec<u8>)>, b: Seq<(Vec<u8>, Vec<u8>)>)
    requires
        a.len() == b.len(),
        forall|j: int| #![auto] 0 <= j < a.len() ==> a[j].0@ == b[j].0@ && a[j].1@ == b[j].1@,
    ensures
        pairs_map(a) == pairs_map(b),
    decreases a.len(),
{
    if a.len() > 0 {
        lemma_pairs_map_congruent(a.drop_last(), b.drop_last());
        assert(pairs_map(a) =~= pairs_map(b));
    }
}

} // verus!
