//! The content-addressed store interface the caching runner consumes, and
//! an in-memory implementation of it.
//!
//! The store holds opaque byte blobs keyed by fingerprint.  Writes are
//! idempotent by key; a write may fail, and a failed write leaves the
//! contents unchanged.

use vstd::prelude::*;

use crate::digest::Digest;
use crate::wire::bytes_eq;

verus! {

/// A store write that could not be performed.
#[derive(Clone, Copy, PartialEq, Eq, Structural, Debug)]
pub struct StoreError;

/// A content-addressed key-value store: get-by-key and put-by-key over
/// opaque byte blobs, keyed by a digest's fingerprint.  Shared state is
/// the implementor's concern; the runner holds it only by this interface.
pub trait Store {
    /// The blobs currently held, keyed by fingerprint.
    spec fn contents(&self) -> Map<Seq<u8>, Seq<u8>>;

    /// Look a key up: the held blob, or `None` when the key is absent.
    fn get(&self, key: &Digest) -> (r: Option<Vec<u8>>)
        ensures
            (match r {
                Some(v) => self.contents().contains_key(key@.fingerprint) && v@
                    == self.contents()[key@.fingerprint],
                None => !self.contents().contains_key(key@.fingerprint),
            }),
    ;

    /// Write a blob under a key; overwrites any previous blob there.  On
    /// failure the contents are unchanged.
    fn put(&mut self, key: &Digest, value: Vec<u8>) -> (r: Result<(), StoreError>)
        ensures
            (match r {
                Ok(_) => final(self).contents() == old(self).contents().insert(
                    key@.fingerprint,
                    value@,
                ),
                Err(_) => final(self).contents() == old(self).contents(),
            }),
    ;
}

/// The blobs held by an entry list, newest entry first.
pub open spec fn assoc_map(s: Seq<(Vec<u8>, Vec<u8>)>) -> Map<Seq<u8>, Seq<u8>>
    decreases s.len(),
{
    if s.len() == 0 {
        Map::empty()
    } else {
        assoc_map(s.drop_first()).insert(s.first().0@, s.first().1@)
    }
}

/// An in-memory store: an entry list scanned newest-first.  A store in
/// read-only mode rejects every write, which exercises the runner's
/// write-failure path.
pub struct MemStore {
    entries: Vec<(Vec<u8>, Vec<u8>)>,
    accept_writes: bool,
}

impl MemStore {
    /// Does this store accept writes?
    pub closed spec fn writable(&self) -> bool {
        self.accept_writes
    }

    /// An empty store that accepts writes.
    pub fn new() -> (r: MemStore)
        ensures
            r.contents() == Map::<Seq<u8>, Seq<u8>>::empty(),
            r.writable(),
    {
        MemStore { entries: Vec::new(), accept_writes: true }
    }

    /// An empty store whose writes all fail.
    pub fn new_read_only() -> (r: MemStore)
        ensures
            r.contents() == Map::<Seq<u8>, Seq<u8>>::empty(),
            !r.writable(),
    {
        MemStore { entries: Vec::new(), accept_writes: false }
    }
}

/// A copy of a byte vector with an equal view.
fn copy_bytes(v: &Vec<u8>) -> (r: Vec<u8>)
    ensures
        r@ == v@,
{
    let mut r: Vec<u8> = Vec::new();
    let mut i: usize = 0;
    while i < v.len()
        invariant
            i <= v@.len(),
            r@ == v@.take(i as int),
        decreases v@.len() - i,
    {
        r.push(v[i]);
        i = i + 1;
    }
    proof {
        assert(r@ =~= v@);
    }
    r
}

impl Store for MemStore {
    closed spec fn contents(&self) -> Map<Seq<u8>, Seq<u8>> {
        assoc_map(self.entries@)
    }

    fn get(&self, key: &Digest) -> (r: Option<Vec<u8>>) {
        let n = self.entries.len();
        let mut j: usize = 0;
        proof {
            assert(self.entries@.skip(0) =~= self.entries@);
        }
        while j < n
            invariant
                j <= n,
                n == self.entries@.len(),
                assoc_map(self.entries@).contains_key(key@.fingerprint) == assoc_map(
                    self.entries@.skip(j as int),
                ).contains_key(key@.fingerprint),
                assoc_map(self.entries@).contains_key(key@.fingerprint) ==> assoc_map(
                    self.entries@,
                )[key@.fingerprint] == assoc_map(self.entries@.skip(j as int))[key@.fingerprint],
            decreases n - j,
        {
            proof {
                assert(self.entries@.skip(j as int).first() == self.entries@[j as int]);
                assert(self.entries@.skip(j as int).drop_first() =~= self.entries@.skip(
                    j as int + 1,
                ));
            }
            if bytes_eq(&self.entries[j].0, &key.fingerprint) {
                return Some(copy_bytes(&self.entries[j].1));
            }
            j = j + 1;
        }
        proof {
            assert(self.entries@.skip(n as int).len() == 0);
        }
        None
    }

    fn put(&mut self, key: &Digest, value: Vec<u8>) -> (r: Result<(), StoreError>) {
        if !self.accept_writes {
            return Err(StoreError);
        }
        let ghost before = self.entries@;
        let kc = copy_bytes(&key.fingerprint);
        self.entries.insert(0, (kc, value));
        proof {
            assert(self.entries@.drop_first() =~= before);
            assert(self.entries@.first() == self.entries@[0]);
        }
        Ok(())
    }
}

} // verus!
