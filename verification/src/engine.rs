//! The engine: chunking, hashing, the content store, the write-ahead
//! log, the snapshot ledger, the read cache and the mount state, bound
//! together behind one context value that is threaded through every
//! operation — no ambient state.

use vstd::prelude::*;
use crate::cache::ChunkCache;
use crate::chunker::{fixed_chunks, Chunker, FixedSizeChunker};
use crate::config::Config;
use crate::errors::EngineError;
use crate::hashing::{hash_of, Blake3Pool, Digest};
use crate::merkle::{digests_v, enc_node, node_hash, parse_refs, MerkleTree, NodeV};
use crate::snapshot::{next_id, SnapIndex, Snapshot};
use crate::storage::{MemStore, Storage};
use crate::wal::{apply_all, WalKind, WriteAheadLog};

verus! {

/// The mount state machine: mutating operations are only permitted while
/// `Mounted`; the transient states let concurrent mount attempts be
/// rejected safely.
#[derive(Clone, Copy, Debug, PartialEq, Eq, Structural)]
pub enum MountState {
    Unmounted,
    Mounting,
    Mounted,
    Unmounting,
}

/// The engine's whole state: configuration, the node-building
/// utilities, the durability journal, the snapshot ledger, the cache,
/// the authoritative store, the replay clock and the mount state.
pub struct StateStore {
    pub config: Config,
    pub merkle: MerkleTree,
    pub hasher_pool: Blake3Pool,
    pub wal: WriteAheadLog,
    pub snap_idx: SnapIndex,
    pub cache: ChunkCache,
    pub store: MemStore,
    pub log_clock: u64,
    pub mount_state: MountState,
}

/// The storage engine.
pub struct Engine {
    pub chunker: FixedSizeChunker,
    pub state: StateStore,
}

/// The digests of a byte string's fixed-size chunks, in order.
pub open spec fn chunk_digests(data: Seq<u8>, size: nat) -> Seq<Seq<u8>> {
    fixed_chunks(data, size).map_values(|c: Seq<u8>| hash_of(c))
}

/// The root digest ingesting a byte string yields: the content
/// address of the file node over its chunk digests. A function of the
/// bytes and the chunk size alone.
pub open spec fn ingest_root(data: Seq<u8>, size: nat) -> Seq<u8> {
    node_hash(NodeV::File { chunks: chunk_digests(data, size), size: data.len() as u64 })
}

/// The encoded file node that ingesting a byte string stores under
/// its root digest.
pub open spec fn ingest_node_enc(data: Seq<u8>, size: nat) -> Seq<u8> {
    enc_node(NodeV::File { chunks: chunk_digests(data, size), size: data.len() as u64 })
}

impl Engine {
    /// Every cached chunk is also durable in the store, byte for
    /// byte: the cache is never a source of truth.
    pub open spec fn cache_coherent(&self) -> bool {
        forall|k: Seq<u8>|
            #[trigger] self.state.cache.cache_map().contains_key(k)
                ==> self.state.store.contents().contains_key(k)
                && self.state.cache.cache_map()[k] == self.state.store.contents()[k]
    }

    pub open spec fn wf(&self) -> bool {
        &&& self.state.store.inv()
        &&& self.state.wal.wf()
        &&& self.state.snap_idx.wf()
        &&& self.state.cache.wf()
        &&& self.cache_coherent()
        &&& self.chunker.chunk_size == self.state.config.chunk_size
        &&& self.chunker.chunk_size >= 1
    }

    /// A fresh engine over empty state, initially `Unmounted`.
    pub fn new(config: Config) -> (r: Engine)
        requires
            config.chunk_size >= 1,
            config.cache_size >= 1,
        ensures
            r.wf(),
            r.state.mount_state == MountState::Unmounted,
            r.chunker.chunk_size == config.chunk_size,
            r.state.config == config,
            r.state.store.contents() == Map::<Seq<u8>, Seq<u8>>::empty(),
            r.state.wal.log() == Seq::<crate::wal::WalRecord>::empty(),
            r.state.wal.next() == 1u64,
            r.state.snap_idx.ledger() == Seq::<Snapshot>::empty(),
    {
        let chunker = FixedSizeChunker::new(config.chunk_size);
        let cache = ChunkCache::new(config.cache_size);
        Engine {
            chunker,
            state: StateStore {
                config,
                merkle: MerkleTree::new(),
                hasher_pool: Blake3Pool::new(),
                wal: WriteAheadLog::new(),
                snap_idx: SnapIndex::new(),
                cache,
                store: MemStore::new(),
                log_clock: 0,
                mount_state: MountState::Unmounted,
            },
        }
    }

    /// An engine over state recovered from durable storage: the store,
    /// journal and ledger the surrounding process decoded. The cache
    /// starts cold — a cold start answers exactly as a warm one.
    pub fn with_state(
        config: Config,
        store: MemStore,
        wal: WriteAheadLog,
        snap_idx: SnapIndex,
    ) -> (r: Engine)
        requires
            config.chunk_size >= 1,
            config.cache_size >= 1,
            store.inv(),
            wal.wf(),
            snap_idx.wf(),
        ensures
            r.wf(),
            r.state.mount_state == MountState::Unmounted,
            r.chunker.chunk_size == config.chunk_size,
            r.state.config == config,
            r.state.store == store,
            r.state.wal == wal,
            r.state.snap_idx == snap_idx,
    {
        let chunker = FixedSizeChunker::new(config.chunk_size);
        let cache = ChunkCache::new(config.cache_size);
        Engine {
            chunker,
            state: StateStore {
                config,
                merkle: MerkleTree::new(),
                hasher_pool: Blake3Pool::new(),
                wal,
                snap_idx,
                cache,
                store,
                log_clock: 0,
                mount_state: MountState::Unmounted,
            },
        }
    }

    /// Mount the engine: replay the journal into the store and the
    /// ledger, then mark the engine available. Mounting anywhere but
    /// `Unmounted` fails with `AlreadyMounted` and changes nothing; a
    /// journal that cannot be replayed leaves the engine `Unmounted`.
    pub fn mount(&mut self) -> (r: Result<(), EngineError>)
        requires
            old(self).wf(),
        ensures
            final(self).wf(),
            final(self).state.wal == old(self).state.wal,
            final(self).state.config == old(self).state.config,
            final(self).chunker == old(self).chunker,
            match r {
                Ok(u) => old(self).state.mount_state == MountState::Unmounted && final(self).state.mount_state == MountState::Mounted && apply_all(
                    old(self).state.store.contents(),
                    old(self).state.snap_idx.ledger(),
                    old(self).state.wal.log(),
                ) == Some(
                    (final(self).state.store.contents(), final(self).state.snap_idx.ledger()),
                ),
                Err(e) => (e == EngineError::AlreadyMounted && old(self).state.mount_state
                    != MountState::Unmounted && *final(self) == *old(self)) || (e
                    == EngineError::WALReplayError && old(self).state.mount_state
                    == MountState::Unmounted && final(self).state.mount_state
                    == MountState::Unmounted && apply_all(
                    old(self).state.store.contents(),
                    old(self).state.snap_idx.ledger(),
                    old(self).state.wal.log(),
                ) is None),
            },
    {
        match self.state.mount_state {
            MountState::Unmounted => (),
            _ => {
                return Err(EngineError::AlreadyMounted);
            },
        }
        self.state.mount_state = MountState::Mounting;
        let res = self.state.wal.replay(&mut self.state.store, &mut self.state.snap_idx);
        match res {
            Err(e) => {
                self.state.mount_state = MountState::Unmounted;
                Err(EngineError::WALReplayError)
            },
            Ok(u) => {
                self.state.log_clock = self.state.wal.last_seq();
                self.state.mount_state = MountState::Mounted;
                Ok(())
            },
        }
    }

    /// Make the engine unavailable again. Unmounting anywhere but
    /// `Mounted` fails with `NotMounted` and changes nothing.
    pub fn unmount(&mut self) -> (r: Result<(), EngineError>)
        requires
            old(self).wf(),
        ensures
            final(self).wf(),
            match r {
                Ok(u) => old(self).state.mount_state == MountState::Mounted && final(self).state.mount_state == MountState::Unmounted && final(self).state.store == old(self).state.store && final(self).state.wal == old(self).state.wal && final(self).state.snap_idx == old(self).state.snap_idx && final(self).state.cache == old(self).state.cache && final(self).state.config == old(self).state.config && final(self).chunker == old(self).chunker,
                Err(e) => e == EngineError::NotMounted && old(self).state.mount_state
                    != MountState::Mounted && *final(self) == *old(self),
            },
    {
        match self.state.mount_state {
            MountState::Mounted => {
                self.state.mount_state = MountState::Unmounting;
                self.state.mount_state = MountState::Unmounted;
                Ok(())
            },
            _ => Err(EngineError::NotMounted),
        }
    }


    /// What a completed ingest guarantees of the engine afterwards,
    /// relative to the engine before and the ingested bytes: the
    /// returned digest is the root over the data and chunk size; the
    /// root's encoded node is stored (verbatim, unless its digest was
    /// already taken); every chunk digest is stored, and a digest not
    /// previously taken holds exactly its chunk's bytes; existing
    /// blobs are untouched; nothing else appeared; and the journal
    /// grew by exactly one record per chunk plus one for the node,
    /// each carrying its digest and payload under the next sequence
    /// numbers in order — so a crash after the append is recoverable
    /// from the journal alone.
    pub open spec fn ingest_effect(pre: Engine, post: Engine, data: Seq<u8>, h: Digest) -> bool {
        let size = pre.chunker.chunk_size as nat;
        &&& h@ == ingest_root(data, size)
        &&& post.state.store.contents().contains_key(h@)
        &&& (!pre.state.store.contents().contains_key(h@) && !(exists|i: int|
            0 <= i < fixed_chunks(data, size).len() && #[trigger] chunk_digests(data, size)[i]
                == h@)) ==> post.state.store.contents()[h@] == ingest_node_enc(data, size)
        &&& forall|i: int|
            0 <= i < fixed_chunks(data, size).len() ==> post.state.store.contents().contains_key(
                #[trigger] chunk_digests(data, size)[i],
            )
        &&& forall|k: Seq<u8>|
            #[trigger] post.state.store.contents().contains_key(k)
                ==> pre.state.store.contents().contains_key(k) || k == h@ || exists|i: int|
                0 <= i < fixed_chunks(data, size).len() && #[trigger] chunk_digests(data, size)[i]
                    == k
        &&& forall|k: Seq<u8>|
            #[trigger] pre.state.store.contents().contains_key(k)
                ==> post.state.store.contents().contains_key(k) && post.state.store.contents()[k]
                == pre.state.store.contents()[k]
        &&& forall|i: int|
            #![trigger chunk_digests(data, size)[i]]
            (0 <= i < fixed_chunks(data, size).len() && !pre.state.store.contents().contains_key(
                chunk_digests(data, size)[i],
            ) && (forall|j: int|
                0 <= j < i ==> #[trigger] chunk_digests(data, size)[j] != chunk_digests(
                    data,
                    size,
                )[i])) ==> post.state.store.contents()[chunk_digests(data, size)[i]]
                == fixed_chunks(data, size)[i]
        &&& post.state.wal.log().len() == pre.state.wal.log().len() + fixed_chunks(
            data,
            size,
        ).len() + 1
        &&& post.state.wal.log().subrange(0, pre.state.wal.log().len() as int)
            == pre.state.wal.log()
        &&& post.state.wal.next() == pre.state.wal.next() + fixed_chunks(data, size).len() + 1
        &&& forall|i: int|
            #![trigger post.state.wal.log()[pre.state.wal.log().len() + i]]
            0 <= i < fixed_chunks(data, size).len()
                ==> post.state.wal.log()[pre.state.wal.log().len() + i].seq == pre.state.wal.next()
                + i && post.state.wal.log()[pre.state.wal.log().len() + i].kind
                == WalKind::ChunkPut && post.state.wal.log()[pre.state.wal.log().len() + i].hash@
                == chunk_digests(data, size)[i] && post.state.wal.log()[pre.state.wal.log().len()
                + i].payload@ == fixed_chunks(data, size)[i]
        &&& post.state.wal.log().last().seq == pre.state.wal.next() + fixed_chunks(
            data,
            size,
        ).len()
        &&& post.state.wal.log().last().kind == WalKind::NodePut
        &&& post.state.wal.log().last().hash@ == ingest_root(data, size)
        &&& post.state.wal.log().last().payload@ == ingest_node_enc(data, size)
    }

    /// Ingest a byte stream: chunk it, journal and write every chunk
    /// through the cache into the store, assemble the file node over
    /// the ordered chunk digests, journal and store its encoding, and
    /// return the root digest — all without requiring a snapshot
    /// commit. The root digest is a function of the bytes and the
    /// chunk size alone. Rejected with `NotMounted`, touching
    /// nothing, unless the engine is mounted.
    pub fn ingest(&mut self, data: &[u8]) -> (r: Result<Digest, EngineError>)
        requires
            old(self).wf(),
            old(self).state.wal.next() + data@.len() + 2 <= u64::MAX,
        ensures
            final(self).wf(),
            final(self).chunker == old(self).chunker,
            final(self).state.config == old(self).state.config,
            final(self).state.mount_state == old(self).state.mount_state,
            final(self).state.snap_idx == old(self).state.snap_idx,
            match r {
                Ok(h) => old(self).state.mount_state == MountState::Mounted
                    && Engine::ingest_effect(*old(self), *final(self), data@, h),
                Err(e) => e == EngineError::NotMounted && old(self).state.mount_state
                    != MountState::Mounted && *final(self) == *old(self),
            },
    {
        match self.state.mount_state {
            MountState::Mounted => (),
            _ => {
                return Err(EngineError::NotMounted);
            },
        }
        let h = self.ingest_core(data);
        Ok(h)
    }

    /// Offline (bootstrap) ingestion: the one explicit exception to
    /// the mount requirement, for filling a repository before its
    /// first mount. It is permitted only while `Unmounted` — so it
    /// cannot race a mount in progress — and fails with
    /// `AlreadyMounted`, touching nothing, in any other state.
    pub fn ingest_offline(&mut self, data: &[u8]) -> (r: Result<Digest, EngineError>)
        requires
            old(self).wf(),
            old(self).state.wal.next() + data@.len() + 2 <= u64::MAX,
        ensures
            final(self).wf(),
            final(self).chunker == old(self).chunker,
            final(self).state.config == old(self).state.config,
            final(self).state.mount_state == old(self).state.mount_state,
            final(self).state.snap_idx == old(self).state.snap_idx,
            match r {
                Ok(h) => old(self).state.mount_state == MountState::Unmounted
                    && Engine::ingest_effect(*old(self), *final(self), data@, h),
                Err(e) => e == EngineError::AlreadyMounted && old(self).state.mount_state
                    != MountState::Unmounted && *final(self) == *old(self),
            },
    {
        match self.state.mount_state {
            MountState::Unmounted => (),
            _ => {
                return Err(EngineError::AlreadyMounted);
            },
        }
        let h = self.ingest_core(data);
        Ok(h)
    }

    /// The ingestion pipeline itself, indifferent to the mount state:
    /// the callers above decide when it may run.
    fn ingest_core(&mut self, data: &[u8]) -> (h: Digest)
        requires
            old(self).wf(),
            old(self).state.wal.next() + data@.len() + 2 <= u64::MAX,
        ensures
            final(self).wf(),
            final(self).chunker == old(self).chunker,
            final(self).state.config == old(self).state.config,
            final(self).state.mount_state == old(self).state.mount_state,
            final(self).state.snap_idx == old(self).state.snap_idx,
            Engine::ingest_effect(*old(self), *final(self), data@, h),
    {
        let ghost size = self.chunker.chunk_size as nat;
        let ghost m0 = self.state.store.contents();
        let ghost log0 = self.state.wal.log();
        proof {
            crate::chunker::lemma_fixed_chunks_len(data@, size);
        }
        let chunks = self.chunker.chunk(data);
        let n = chunks.len();
        let mut hashes: Vec<Digest> = Vec::new();
        let mut i: usize = 0;
        while i < n
            invariant
                i <= n,
                n == chunks@.len(),
                chunks.deep_view() == fixed_chunks(data@, size),
                n <= data@.len(),
                size == old(self).chunker.chunk_size as nat,
                m0 == old(self).state.store.contents(),
                log0 == old(self).state.wal.log(),
                self.chunker == old(self).chunker,
                self.state.config == old(self).state.config,
                self.state.mount_state == old(self).state.mount_state,
                self.state.snap_idx == old(self).state.snap_idx,
                self.state.store.inv(),
                self.state.wal.wf(),
                self.state.cache.wf(),
                self.state.cache.cap() == old(self).state.cache.cap(),
                self.cache_coherent(),
                old(self).state.wal.next() + data@.len() + 2 <= u64::MAX,
                self.state.wal.next() == old(self).state.wal.next() + i,
                self.state.wal.log().len() == log0.len() + i,
                self.state.wal.log().subrange(0, log0.len() as int) == log0,
                hashes@.len() == i,
                forall|j: int|
                    0 <= j < i ==> #[trigger] hashes@[j]@ == chunk_digests(data@, size)[j],
                forall|j: int|
                    0 <= j < i ==> self.state.store.contents().contains_key(
                        #[trigger] chunk_digests(data@, size)[j],
                    ),
                forall|j: int|
                    #![trigger chunk_digests(data@, size)[j]]
                    (0 <= j < i && !m0.contains_key(chunk_digests(data@, size)[j]) && (
                    forall|j2: int|
                        0 <= j2 < j ==> #[trigger] chunk_digests(data@, size)[j2]
                            != chunk_digests(data@, size)[j]))
                        ==> self.state.store.contents()[chunk_digests(data@, size)[j]]
                        == fixed_chunks(data@, size)[j],
                forall|j: int|
                    #![trigger self.state.wal.log()[log0.len() + j]]
                    0 <= j < i ==> self.state.wal.log()[log0.len() + j].seq == old(
                        self,
                    ).state.wal.next() + j && self.state.wal.log()[log0.len() + j].kind
                        == WalKind::ChunkPut && self.state.wal.log()[log0.len() + j].hash@
                        == chunk_digests(data@, size)[j] && self.state.wal.log()[log0.len()
                        + j].payload@ == fixed_chunks(data@, size)[j],
                forall|k: Seq<u8>|
                    #[trigger] m0.contains_key(k) ==> self.state.store.contents().contains_key(k)
                        && self.state.store.contents()[k] == m0[k],
                forall|k: Seq<u8>|
                    #[trigger] self.state.store.contents().contains_key(k) ==> m0.contains_key(k)
                        || exists|j: int|
                        0 <= j < i && #[trigger] chunk_digests(data@, size)[j] == k,
            decreases n - i,
        {
            proof {
                assert(chunks@[i as int]@ == chunks.deep_view()[i as int]);
            }
            let h = self.state.hasher_pool.hash_bytes(chunks[i].as_slice());
            let payload = vstd::slice::slice_to_vec(chunks[i].as_slice());
            let ghost pre_log = self.state.wal.log();
            self.state.wal.append(WalKind::ChunkPut, h, payload);
            proof {
                assert(self.state.wal.log().subrange(0, log0.len() as int) =~= pre_log.subrange(
                    0,
                    log0.len() as int,
                ));
            }
            let had = self.state.store.contains(&h);
            let _ = self.state.store.write(&h, chunks[i].as_slice());
            if !had {
                let copy = vstd::slice::slice_to_vec(chunks[i].as_slice());
                self.state.cache.put(h, copy);
            }
            hashes.push(h);
            proof {
                assert(chunk_digests(data@, size)[i as int] == hash_of(
                    fixed_chunks(data@, size)[i as int],
                ));
            }
            i += 1;
        }
        let node = MerkleTree::create_file_node(hashes, data.len() as u64);
        let enc = crate::merkle::encode_file_node(&node);
        proof {
            assert(digests_v(node.chunks@) =~= chunk_digests(data@, size));
            assert(enc@ == ingest_node_enc(data@, size));
        }
        let root = self.state.hasher_pool.hash_bytes(enc.as_slice());
        let payload = vstd::slice::slice_to_vec(enc.as_slice());
        let ghost pre_log = self.state.wal.log();
        self.state.wal.append(WalKind::NodePut, root, payload);
        proof {
            assert(self.state.wal.log().subrange(0, log0.len() as int) =~= pre_log.subrange(
                0,
                log0.len() as int,
            ));
        }
        let _ = self.state.store.write(&root, enc.as_slice());
        root
    }

    /// Commit a root digest into the snapshot ledger. The commit is
    /// refused — and the ledger left untouched — unless the engine is
    /// mounted, the root's node blob is durable in the store, every
    /// digest that node references is durable too, and the named
    /// parent snapshot exists. On success the commit is journaled,
    /// then appended to the ledger under the next id of the monotonic
    /// sequence.
    pub fn commit(&mut self, root_hash: Digest, parent: Option<u64>, timestamp: u64) -> (r: Result<
        u64,
        EngineError,
    >)
        requires
            old(self).wf(),
            old(self).state.wal.next() < u64::MAX,
            old(self).state.snap_idx.ledger().len() == 0 || old(self).state.snap_idx.ledger().last().id < u64::MAX,
        ensures
            final(self).wf(),
            final(self).chunker == old(self).chunker,
            final(self).state.config == old(self).state.config,
            final(self).state.mount_state == old(self).state.mount_state,
            final(self).state.store == old(self).state.store,
            final(self).state.cache == old(self).state.cache,
            match r {
                Ok(id) => {
                    let m = old(self).state.store.contents();
                    &&& old(self).state.mount_state == MountState::Mounted
                    &&& m.contains_key(root_hash@)
                    &&& parse_refs(m[root_hash@]) is Some
                    &&& forall|i: int|
                        0 <= i < parse_refs(m[root_hash@]).unwrap().len() ==> m.contains_key(
                            #[trigger] parse_refs(m[root_hash@]).unwrap()[i],
                        )
                    &&& id == next_id(old(self).state.snap_idx.ledger())
                    &&& final(self).state.snap_idx.ledger() == old(self).state.snap_idx.ledger().push(
                        Snapshot { id, timestamp, root_hash, parent },
                    )
                    &&& final(self).state.wal.log().len() == old(self).state.wal.log().len() + 1
                    &&& final(self).state.wal.log().subrange(
                        0,
                        old(self).state.wal.log().len() as int,
                    ) == old(self).state.wal.log()
                    &&& final(self).state.wal.next() == old(self).state.wal.next() + 1
                    &&& final(self).state.wal.log().last().seq == old(self).state.wal.next()
                    &&& final(self).state.wal.log().last().kind == WalKind::SnapshotCommit
                    &&& final(self).state.wal.log().last().hash == root_hash
                    &&& final(self).state.wal.log().last().payload@ == crate::wal::enc_snap_payload(
                        id,
                        timestamp,
                        parent,
                    )
                },
                Err(e) => {
                    let m = old(self).state.store.contents();
                    &&& final(self).state.snap_idx == old(self).state.snap_idx
                    &&& final(self).state.wal == old(self).state.wal
                    &&& (e == EngineError::NotMounted ==> old(self).state.mount_state
                        != MountState::Mounted)
                    &&& (e == EngineError::NotFound && old(self).state.mount_state
                        == MountState::Mounted ==> !m.contains_key(root_hash@) || (parse_refs(
                        m[root_hash@],
                    ) is Some && (exists|i: int|
                        0 <= i < parse_refs(m[root_hash@]).unwrap().len() && !m.contains_key(
                            #[trigger] parse_refs(m[root_hash@]).unwrap()[i],
                        )) || (parent is Some && (forall|i: int|
                        0 <= i < old(self).state.snap_idx.ledger().len() ==> #[trigger] old(self).state.snap_idx.ledger()[i].id != parent.unwrap()))))
                    &&& (e == EngineError::SerializationError ==> m.contains_key(root_hash@)
                        && parse_refs(m[root_hash@]) is None)
                    &&& (e == EngineError::NotMounted || e == EngineError::NotFound || e
                        == EngineError::SerializationError)
                },
            },
    {
        match self.state.mount_state {
            MountState::Mounted => (),
            _ => {
                return Err(EngineError::NotMounted);
            },
        }
        let blob = match self.state.store.read(&root_hash) {
            Err(e) => {
                return Err(EngineError::NotFound);
            },
            Ok(b) => b,
        };
        let refs = match crate::merkle::decode_refs(&blob) {
            Err(e) => {
                return Err(EngineError::SerializationError);
            },
            Ok(v) => v,
        };
        let nrefs = refs.len();
        let ghost m = self.state.store.contents();
        let ghost rs = parse_refs(m[root_hash@]).unwrap();
        let mut i: usize = 0;
        while i < nrefs
            invariant
                i <= nrefs,
                nrefs == refs@.len(),
                old(self).wf(),
                *self == *old(self),
                old(self).state.mount_state == MountState::Mounted,
                m == self.state.store.contents(),
                m.contains_key(root_hash@),
                parse_refs(m[root_hash@]) == Some(digests_v(refs@)),
                rs == digests_v(refs@),
                forall|j: int| 0 <= j < i ==> m.contains_key(#[trigger] rs[j]),
            decreases nrefs - i,
        {
            match self.state.store.read(&refs[i]) {
                Err(e) => {
                    proof {
                        assert(rs[i as int] == refs@[i as int]@);
                        assert(parse_refs(m[root_hash@]).unwrap()[i as int] == rs[i as int]);
                        assert(!m.contains_key(parse_refs(m[root_hash@]).unwrap()[i as int]));
                    }
                    return Err(EngineError::NotFound);
                },
                Ok(b) => (),
            }
            proof {
                assert(rs[i as int] == refs@[i as int]@);
            }
            i += 1;
        }
        match parent {
            Some(p) => {
                match self.state.snap_idx.lookup(p) {
                    None => {
                        return Err(EngineError::NotFound);
                    },
                    Some(s) => (),
                }
            },
            None => (),
        }
        let id = match self.state.snap_idx.latest() {
            None => 1u64,
            Some(s) => s.id + 1,
        };
        let payload = crate::wal::encode_snap_payload(id, timestamp, parent);
        self.state.wal.append(WalKind::SnapshotCommit, root_hash, payload);
        let id2 = self.state.snap_idx.append(root_hash, parent, timestamp);
        Ok(id2)
    }

    /// Read a chunk through the cache: a hit answers from memory, a
    /// miss reads the store with integrity checking and warms the
    /// cache. The store itself never changes.
    pub fn read_chunk(&mut self, hash: &Digest) -> (r: Result<Vec<u8>, EngineError>)
        requires
            old(self).wf(),
        ensures
            final(self).wf(),
            final(self).state.store == old(self).state.store,
            final(self).state.wal == old(self).state.wal,
            final(self).state.snap_idx == old(self).state.snap_idx,
            final(self).state.mount_state == old(self).state.mount_state,
            match r {
                Ok(d) => old(self).state.store.contents().contains_key(hash@) && d@ == old(self).state.store.contents()[hash@],
                Err(e) => (e == EngineError::NotFound && !old(self).state.store.contents().contains_key(hash@)) || (e == EngineError::Corrupt && old(self).state.store.contents().contains_key(hash@) && hash_of(
                    old(self).state.store.contents()[hash@],
                ) != hash@),
            },
    {
        match self.state.cache.get(hash) {
            Some(d) => Ok(d),
            None => {
                match self.state.store.read_verified(hash) {
                    Ok(d) => {
                        let copy = vstd::slice::slice_to_vec(d.as_slice());
                        self.state.cache.put(*hash, copy);
                        Ok(d)
                    },
                    Err(e) => Err(e),
                }
            },
        }
    }
}

/// Determinism: the root digest an ingest yields is a function of the
/// content bytes and the configured chunk size alone — two engines
/// with the same chunk size, or one engine across restarts, assign
/// identical content the identical root.
pub proof fn lemma_ingest_deterministic(e1: &Engine, e2: &Engine, data: Seq<u8>)
    requires
        e1.chunker.chunk_size == e2.chunker.chunk_size,
    ensures
        ingest_root(data, e1.chunker.chunk_size as nat) == ingest_root(
            data,
            e2.chunker.chunk_size as nat,
        ),
{
}

} // verus!
