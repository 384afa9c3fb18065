//! The content-addressed store (CAS): blobs keyed by the digest of
//! their bytes, with deduplicating, idempotent writes and verified
//! reads that surface corruption instead of wrong bytes.

use vstd::prelude::*;
use crate::errors::EngineError;
use crate::hashing::{digest_eq, hash_of, hex_of, hex_lower, Digest};

verus! {

/// What a blob sequence holds, as a map from digest bytes to blob
/// bytes.
pub open spec fn store_map(s: Seq<(Digest, Vec<u8>)>) -> Map<Seq<u8>, Seq<u8>>
    decreases s.len(),
{
    if s.len() == 0 {
        Map::empty()
    } else {
        store_map(s.drop_last()).insert(s.last().0@, s.last().1@)
    }
}

/// No two blobs share a key.
pub open spec fn distinct_keys(s: Seq<(Digest, Vec<u8>)>) -> bool {
    forall|i: int, j: int| 0 <= i < j < s.len() ==> s[i].0@ != s[j].0@
}

/// A key is in the map exactly when some blob carries it, and that
/// blob's bytes are the map's value.
pub proof fn lemma_store_map_props(s: Seq<(Digest, Vec<u8>)>)
    requires
        distinct_keys(s),
    ensures
        forall|k: Seq<u8>|
            store_map(s).contains_key(k) <==> exists|i: int|
                0 <= i < s.len() && #[trigger] s[i].0@ == k,
        forall|i: int|
            0 <= i < s.len() ==> store_map(s).contains_key(#[trigger] s[i].0@) && store_map(s)[
                s[i].0@
            ] == s[i].1@,
    decreases s.len(),
{
    if s.len() > 0 {
        lemma_store_map_props(s.drop_last());
        assert forall|k: Seq<u8>|
            store_map(s).contains_key(k) implies exists|i: int|
            0 <= i < s.len() && #[trigger] s[i].0@ == k by {
            if k == s.last().0@ {
                assert(s[s.len() - 1].0@ == k);
            } else {
                assert(store_map(s.drop_last()).contains_key(k));
                let i = choose|i: int|
                    0 <= i < s.drop_last().len() && #[trigger] s.drop_last()[i].0@ == k;
                assert(s[i].0@ == k);
            }
        }
        assert forall|i: int|
            0 <= i < s.len() implies store_map(s).contains_key(#[trigger] s[i].0@) && store_map(
            s,
        )[s[i].0@] == s[i].1@ by {
            if i < s.len() - 1 {
                assert(s.drop_last()[i] == s[i]);
                assert(s[i].0@ != s.last().0@);
            }
        }
    }
}

/// With distinct keys, the map holds exactly as many blobs as the
/// sequence.
pub proof fn lemma_store_map_len(s: Seq<(Digest, Vec<u8>)>)
    requires
        distinct_keys(s),
    ensures
        store_map(s).dom().finite(),
        store_map(s).dom().len() == s.len(),
    decreases s.len(),
{
    if s.len() > 0 {
        lemma_store_map_len(s.drop_last());
        lemma_store_map_props(s.drop_last());
        assert(!store_map(s.drop_last()).contains_key(s.last().0@));
        assert(store_map(s).dom() =~= store_map(s.drop_last()).dom().insert(s.last().0@));
    }
}

/// The capability the engine needs of a blob store: deduplicating,
/// idempotent writes and exact reads, stated over the store's
/// contents map.
pub trait Storage: Sized {
    spec fn contents(&self) -> Map<Seq<u8>, Seq<u8>>;

    spec fn inv(&self) -> bool;

    /// Write a blob under its digest. Writing a key already present is
    /// a success and a no-op: the store never rewrites a blob.
    fn write(&mut self, hash: &Digest, data: &[u8]) -> (r: Result<(), EngineError>)
        requires
            old(self).inv(),
        ensures
            final(self).inv(),
            r is Ok,
            old(self).contents().contains_key(hash@) ==> final(self).contents() == old(
                self,
            ).contents(),
            !old(self).contents().contains_key(hash@) ==> final(self).contents() == old(
                self,
            ).contents().insert(hash@, data@),
    ;

    /// Read the blob stored under a digest; `NotFound` exactly when the
    /// key is absent.
    fn read(&self, hash: &Digest) -> (r: Result<Vec<u8>, EngineError>)
        requires
            self.inv(),
        ensures
            match r {
                Ok(d) => self.contents().contains_key(hash@) && d@ == self.contents()[hash@],
                Err(e) => e == EngineError::NotFound && !self.contents().contains_key(hash@),
            },
    ;
}

/// An in-memory content-addressed store: the authoritative model of
/// the CAS that the engine's proofs are stated against.
pub struct MemStore {
    blobs: Vec<(Digest, Vec<u8>)>,
}

impl MemStore {
    pub fn new() -> (r: MemStore)
        ensures
            r.inv(),
            r.contents() == Map::<Seq<u8>, Seq<u8>>::empty(),
    {
        MemStore { blobs: Vec::new() }
    }

    /// The index of the blob carrying a digest, if any.
    fn find(&self, hash: &Digest) -> (r: Option<usize>)
        ensures
            match r {
                Some(i) => i < self.blobs@.len() && self.blobs@[i as int].0@ == hash@,
                None => forall|i: int| 0 <= i < self.blobs@.len() ==> self.blobs@[i].0@ != hash@,
            },
    {
        let mut i: usize = 0;
        while i < self.blobs.len()
            invariant
                i <= self.blobs@.len(),
                forall|j: int| 0 <= j < i ==> self.blobs@[j].0@ != hash@,
            decreases self.blobs@.len() - i,
        {
            if digest_eq(&self.blobs[i].0, hash) {
                return Some(i);
            }
            i += 1;
        }
        None
    }

    /// Whether a blob is stored under this digest.
    pub fn contains(&self, hash: &Digest) -> (r: bool)
        requires
            self.inv(),
        ensures
            r == self.contents().contains_key(hash@),
    {
        proof {
            lemma_store_map_props(self.blobs@);
        }
        match self.find(hash) {
            Some(i) => true,
            None => false,
        }
    }

    /// How many blobs the store holds: one per distinct key ever
    /// written.
    pub fn blob_count(&self) -> (r: usize)
        requires
            self.inv(),
        ensures
            r == self.contents().dom().len(),
    {
        proof {
            lemma_store_map_len(self.blobs@);
        }
        self.blobs.len()
    }

    /// Read with integrity checking: the blob's bytes are re-hashed
    /// and a mismatch with the key surfaces as `Corrupt`, never as
    /// wrong bytes.
    pub fn read_verified(&self, hash: &Digest) -> (r: Result<Vec<u8>, EngineError>)
        requires
            self.inv(),
        ensures
            match r {
                Ok(d) => self.contents().contains_key(hash@) && d@ == self.contents()[hash@]
                    && hash_of(d@) == hash@,
                Err(e) => (e == EngineError::NotFound && !self.contents().contains_key(hash@)) || (
                e == EngineError::Corrupt && self.contents().contains_key(hash@) && hash_of(
                    self.contents()[hash@],
                ) != hash@),
            },
    {
        proof {
            lemma_store_map_props(self.blobs@);
        }
        match self.find(hash) {
            None => Err(EngineError::NotFound),
            Some(i) => {
                let data = vstd::slice::slice_to_vec(self.blobs[i].1.as_slice());
                let d = crate::hashing::Blake3Pool::new().hash_bytes(data.as_slice());
                if digest_eq(&d, hash) {
                    Ok(data)
                } else {
                    Err(EngineError::Corrupt)
                }
            },
        }
    }
}

impl Storage for MemStore {
    closed spec fn contents(&self) -> Map<Seq<u8>, Seq<u8>> {
        store_map(self.blobs@)
    }

    closed spec fn inv(&self) -> bool {
        distinct_keys(self.blobs@)
    }

    fn write(&mut self, hash: &Digest, data: &[u8]) -> (r: Result<(), EngineError>) {
        proof {
            lemma_store_map_props(old(self).blobs@);
        }
        match self.find(hash) {
            Some(_) => Ok(()),
            None => {
                let blob = (*hash, vstd::slice::slice_to_vec(data));
                let ghost before = self.blobs@;
                self.blobs.push(blob);
                proof {
                    assert(self.blobs@.drop_last() =~= before);
                    assert(store_map(self.blobs@) == store_map(before).insert(hash@, data@));
                }
                Ok(())
            },
        }
    }

    fn read(&self, hash: &Digest) -> (r: Result<Vec<u8>, EngineError>) {
        proof {
            lemma_store_map_props(self.blobs@);
        }
        match self.find(hash) {
            None => Err(EngineError::NotFound),
            Some(i) => Ok(vstd::slice::slice_to_vec(self.blobs[i].1.as_slice())),
        }
    }
}

/// Idempotent writes, at the level of the store model: a second write
/// of the same digest/bytes pair leaves the contents exactly as the
/// first write left them.
pub proof fn lemma_write_idempotent(m: Map<Seq<u8>, Seq<u8>>, k: Seq<u8>, v: Seq<u8>)
    ensures
        m.insert(k, v).insert(k, v) == m.insert(k, v),
{
    assert(m.insert(k, v).insert(k, v) =~= m.insert(k, v));
}

/// The path a blob lives at under a store root: the first hex pair of
/// its digest names a subdirectory, the remaining sixty-two hex digits
/// name the file.
pub open spec fn shard_path(root: Seq<char>, h: Seq<u8>) -> Seq<char> {
    root + seq!['/'] + hex_of(h.subrange(0, 1)) + seq!['/'] + hex_of(h.subrange(1, 32))
}

/// Relies on String::push_str: appends the characters of `t` to `s`.
#[verifier::external_body]
pub(crate) fn string_append(s: &mut String, t: &str)
    ensures
        final(s)@ == old(s)@ + t@,
{
    s.push_str(t);
}

/// The filesystem layout of the CAS: it maps digests to sharded
/// relative paths. The blob reads and writes against these paths are
/// filesystem work and live with the surrounding process; the mapping
/// itself is pure and verified.
pub struct FileStorage {
    root_path: String,
}

impl FileStorage {
    /// The store root this layout was built with.
    pub closed spec fn root(&self) -> Seq<char> {
        self.root_path@
    }

    pub fn new(root_path: String) -> (r: FileStorage)
        ensures
            r.root() == root_path@,
    {
        FileStorage { root_path }
    }

    /// Where the blob with this digest lives, relative to the process
    /// working directory.
    pub fn get_path(&self, hash: &Digest) -> (r: String)
        ensures
            r@ == shard_path(self.root(), hash@),
    {
        let mut first: Vec<u8> = Vec::new();
        first.push(hash[0]);
        let mut rest: Vec<u8> = Vec::new();
        let mut i: usize = 1;
        while i < 32
            invariant
                1 <= i <= 32,
                rest@ == hash@.subrange(1, i as int),
            decreases 32 - i,
        {
            proof {
                assert(hash@.subrange(1, i + 1 as int) =~= hash@.subrange(1, i as int).push(
                    hash@[i as int],
                ));
            }
            rest.push(hash[i]);
            i += 1;
        }
        let d = hex_lower(first.as_slice());
        let f = hex_lower(rest.as_slice());
        let mut path = self.root_path.clone();
        string_append(&mut path, "/");
        string_append(&mut path, d.as_str());
        string_append(&mut path, "/");
        string_append(&mut path, f.as_str());
        proof {
            reveal_strlit("/");
            assert("/"@ =~= seq!['/']);
            assert(first@ =~= hash@.subrange(0, 1));
            assert(path@ =~= shard_path(self.root_path@, hash@));
        }
        path
    }
}

} // verus!
