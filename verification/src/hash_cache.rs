//! The memoized content-hash cache.
//!
//! A content hash is computed at most once per path and per run: a worker
//! first asks the cache, computes the hash only on a miss, and stores what
//! it computed. Concurrent workers may race to compute the same path's
//! hash; the store keeps the first value, so the map is never corrupted
//! and every later lookup returns one settled hash.

use vstd::prelude::*;

use crate::bytemap::ByteMap;

verus! {

/// What storing a computed hash does: a path that already has one keeps
/// it, so a racing recomputation changes nothing.
pub open spec fn store_model(
    m: Map<Seq<u8>, Seq<u8>>,
    path: Seq<u8>,
    hash: Seq<u8>,
) -> Map<Seq<u8>, Seq<u8>> {
    if m.contains_key(path) {
        m
    } else {
        m.insert(path, hash)
    }
}

/// The per-run map from relative path to content hash.
pub struct HashCache {
    map: ByteMap,
}

impl View for HashCache {
    type V = Map<Seq<u8>, Seq<u8>>;

    closed spec fn view(&self) -> Map<Seq<u8>, Seq<u8>> {
        self.map@
    }
}

impl HashCache {
    /// The representation invariant.
    pub closed spec fn wf(&self) -> bool {
        self.map.wf()
    }

    /// An empty cache, the starting point of every run.
    pub fn new() -> (r: HashCache)
        ensures
            r.wf(),
            r@ == Map::<Seq<u8>, Seq<u8>>::empty(),
    {
        HashCache { map: ByteMap::new() }
    }

    /// The stored hash of a path, if one was computed already.
    pub fn get_cached(&self, path: &[u8]) -> (r: Option<&Vec<u8>>)
        requires
            self.wf(),
        ensures
            match r {
                Some(h) => self@.contains_key(path@) && self@[path@] == h@,
                None => !self@.contains_key(path@),
            },
    {
        self.map.get(path)
    }

    /// Whether the hash of a path still has to be computed.
    pub fn needs_compute(&self, path: &[u8]) -> (r: bool)
        requires
            self.wf(),
        ensures
            r == !self@.contains_key(path@),
    {
        !self.map.contains_key(path)
    }

    /// Stores a computed hash. The first stored value wins: a concurrent
    /// recomputation of the same path changes nothing.
    pub fn store(&mut self, path: &[u8], hash: Vec<u8>) -> (nothing: ())
        requires
            old(self).wf(),
        ensures
            final(self).wf(),
            final(self)@ == store_model(old(self)@, path@, hash@),
    {
        if !self.map.contains_key(path) {
            self.map.set(path, hash);
        }
    }
}

/// Hash Cache memoization: once a hash is stored for a path, it is what
/// every later lookup returns, and storing a second computation (the
/// tolerated race) leaves the cache exactly as it was — so a path's file
/// need never be read more than once.
pub proof fn lemma_hash_memoized(m0: Map<Seq<u8>, Seq<u8>>, p: Seq<u8>, h1: Seq<u8>, h2: Seq<u8>)
    requires
        !m0.contains_key(p),
    ensures
        store_model(m0, p, h1).contains_key(p),
        store_model(m0, p, h1)[p] == h1,
        store_model(store_model(m0, p, h1), p, h2) == store_model(m0, p, h1),
{
}

} // verus!
