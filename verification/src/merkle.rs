//! Merkle nodes and their canonical encoding.
//!
//! A file is a `FileNode`: the ordered digests of its chunks plus its
//! total size. A directory is a `DirNode`: entries mapping child names
//! to child-node digests, held sorted by name. A `Node` is either; its
//! own content address is the digest of its canonical encoding, and the
//! encoded node is stored in the content store like any other blob.
//!
//! The encoding is canonical: fixed field order, 64-bit little-endian
//! counts and lengths, and the directory mapping always serialized as
//! its name-sorted entry sequence, so that equal trees built in any
//! insertion order encode — and therefore hash — identically.

use vstd::prelude::*;
use vstd::multiset::Multiset;
use vstd::utf8::encode_utf8;
use crate::codec::{le_bytes, u64_from_le};
use crate::errors::EngineError;
use crate::hashing::{hash_of, Digest};
use crate::order::{pair_le, entry_leq, lex_le};

verus! {

/// A file: the ordered digests of its chunks, and its byte size.
#[derive(Debug, Clone)]
pub struct FileNode {
    pub chunks: Vec<Digest>,
    pub size: u64,
}

/// One directory entry: a child name and the digest of the child node.
#[derive(Debug, Clone)]
pub struct DirEntry {
    pub name: String,
    pub hash: Digest,
}

/// A directory: its entries, sorted by name for canonical encoding.
#[derive(Debug, Clone)]
pub struct DirNode {
    pub entries: Vec<DirEntry>,
}

/// A tree node: a file or a directory.
pub enum Node {
    File(FileNode),
    Dir(DirNode),
}

/// The specification-level image of a digest sequence.
pub open spec fn digests_v(s: Seq<Digest>) -> Seq<Seq<u8>> {
    s.map_values(|h: Digest| h@)
}

/// The specification-level image of a directory entry: its name's
/// UTF-8 bytes and its digest bytes.
pub open spec fn entry_v(e: DirEntry) -> (Seq<u8>, Seq<u8>) {
    (encode_utf8(e.name@), e.hash@)
}

/// The specification-level image of an entry sequence.
pub open spec fn evs(s: Seq<DirEntry>) -> Seq<(Seq<u8>, Seq<u8>)> {
    s.map_values(|e: DirEntry| entry_v(e))
}

/// A node at the specification level.
pub enum NodeV {
    File { chunks: Seq<Seq<u8>>, size: u64 },
    Dir { entries: Seq<(Seq<u8>, Seq<u8>)> },
}

/// The specification-level image of a node.
pub open spec fn node_v(n: Node) -> NodeV {
    match n {
        Node::File(f) => NodeV::File { chunks: digests_v(f.chunks@), size: f.size },
        Node::Dir(d) => NodeV::Dir { entries: evs(d.entries@) },
    }
}

/// The digests a node references: chunk digests of a file, child
/// digests of a directory.
pub open spec fn node_v_refs(n: NodeV) -> Seq<Seq<u8>> {
    match n {
        NodeV::File { chunks, size } => chunks,
        NodeV::Dir { entries } => entries.map_values(|e: (Seq<u8>, Seq<u8>)| e.1),
    }
}

/// Chunk digests laid end to end, 32 bytes each.
pub open spec fn enc_hashes(hs: Seq<Seq<u8>>) -> Seq<u8>
    decreases hs.len(),
{
    if hs.len() == 0 {
        Seq::empty()
    } else {
        enc_hashes(hs.drop_last()) + hs.last()
    }
}

/// One encoded directory entry: name length, name bytes, child digest.
pub open spec fn enc_entry(e: (Seq<u8>, Seq<u8>)) -> Seq<u8> {
    le_bytes(e.0.len() as u64) + e.0 + e.1
}

/// Encoded directory entries laid end to end.
pub open spec fn enc_entries(es: Seq<(Seq<u8>, Seq<u8>)>) -> Seq<u8>
    decreases es.len(),
{
    if es.len() == 0 {
        Seq::empty()
    } else {
        enc_entries(es.drop_last()) + enc_entry(es.last())
    }
}

/// The canonical encoding of a node: a one-byte tag, the fixed header
/// fields, then the node's references in order.
pub open spec fn enc_node(n: NodeV) -> Seq<u8> {
    match n {
        NodeV::File { chunks, size } => seq![0u8] + le_bytes(size) + le_bytes(
            chunks.len() as u64,
        ) + enc_hashes(chunks),
        NodeV::Dir { entries } => seq![1u8] + le_bytes(entries.len() as u64) + enc_entries(
            entries,
        ),
    }
}

/// A node's content address: the digest of its canonical encoding.
pub open spec fn node_hash(n: NodeV) -> Seq<u8> {
    hash_of(enc_node(n))
}

/// Append the 32 bytes of one digest.
pub fn push_digest(out: &mut Vec<u8>, h: &Digest)
    ensures
        final(out)@ == old(out)@ + h@,
{
    crate::codec::push_bytes(out, h.as_slice());
}

/// Canonically encode a node.
pub fn encode_node(n: &Node) -> (r: Vec<u8>)
    ensures
        r@ == enc_node(node_v(*n)),
{
    let mut out: Vec<u8> = Vec::new();
    match n {
        Node::File(f) => {
            out.push(0u8);
            crate::codec::push_u64(&mut out, f.size);
            crate::codec::push_u64(&mut out, f.chunks.len() as u64);
            let ghost prefix = out@;
            let mut i: usize = 0;
            while i < f.chunks.len()
                invariant
                    i <= f.chunks@.len(),
                    out@ == prefix + enc_hashes(digests_v(f.chunks@.subrange(0, i as int))),
                decreases f.chunks@.len() - i,
            {
                proof {
                    let s = f.chunks@.subrange(0, i + 1 as int);
                    assert(digests_v(s).drop_last() =~= digests_v(
                        f.chunks@.subrange(0, i as int),
                    ));
                    assert(digests_v(s).last() == f.chunks@[i as int]@);
                }
                push_digest(&mut out, &f.chunks[i]);
                i += 1;
            }
            proof {
                assert(f.chunks@.subrange(0, f.chunks@.len() as int) =~= f.chunks@);
                assert(out@ =~= enc_node(node_v(*n)));
            }
        },
        Node::Dir(d) => {
            out.push(1u8);
            crate::codec::push_u64(&mut out, d.entries.len() as u64);
            let ghost prefix = out@;
            let mut i: usize = 0;
            while i < d.entries.len()
                invariant
                    i <= d.entries@.len(),
                    out@ == prefix + enc_entries(evs(d.entries@.subrange(0, i as int))),
                decreases d.entries@.len() - i,
            {
                let e = &d.entries[i];
                let nb = e.name.as_str().as_bytes();
                crate::codec::push_u64(&mut out, nb.len() as u64);
                crate::codec::push_bytes(&mut out, nb);
                push_digest(&mut out, &e.hash);
                proof {
                    let s = d.entries@.subrange(0, i + 1 as int);
                    assert(evs(s).drop_last() =~= evs(d.entries@.subrange(0, i as int)));
                    assert(evs(s).last() == entry_v(d.entries@[i as int]));
                    assert(nb@ == encode_utf8(e.name@));
                    assert(out@ =~= prefix + enc_entries(evs(s)));
                }
                i += 1;
            }
            proof {
                assert(d.entries@.subrange(0, d.entries@.len() as int) =~= d.entries@);
                assert(out@ =~= enc_node(node_v(*n)));
            }
        },
    }
    out
}

/// Byte-string equality.
pub fn bytes_eq(a: &[u8], b: &[u8]) -> (r: bool)
    ensures
        r == (a@ == b@),
{
    let alen = a.len();
    let blen = b.len();
    if alen != blen {
        return false;
    }
    let mut i: usize = 0;
    while i < alen
        invariant
            i <= alen,
            alen == a@.len(),
            alen == b@.len(),
            forall|j: int| 0 <= j < i ==> a@[j] == b@[j],
        decreases alen - i,
    {
        if a[i] != b[i] {
            return false;
        }
        i += 1;
    }
    proof {
        assert(a@ =~= b@);
    }
    true
}

/// Lexicographic byte-string comparison.
pub fn bytes_le(a: &[u8], b: &[u8]) -> (r: bool)
    ensures
        r == lex_le(a@, b@),
{
    let alen = a.len();
    let blen = b.len();
    let mut i: usize = 0;
    while i < alen && i < blen
        invariant
            i <= alen,
            i <= blen,
            alen == a@.len(),
            blen == b@.len(),
            forall|j: int| 0 <= j < i ==> a@[j] == b@[j],
        decreases alen - i,
    {
        if a[i] < b[i] {
            proof {
                crate::order::lemma_lex_le_skip(a@, b@, i as int);
            }
            return true;
        }
        if a[i] > b[i] {
            proof {
                crate::order::lemma_lex_le_skip(a@, b@, i as int);
            }
            return false;
        }
        i += 1;
    }
    proof {
        crate::order::lemma_lex_le_skip(a@, b@, i as int);
    }
    alen <= blen
}

/// Entry comparison: by name, digest breaking ties.
fn entry_le(x: &DirEntry, y: &DirEntry) -> (r: bool)
    ensures
        r == pair_le(entry_v(*x), entry_v(*y)),
{
    let xb = x.name.as_str().as_bytes();
    let yb = y.name.as_str().as_bytes();
    if bytes_eq(xb, yb) {
        bytes_le(x.hash.as_slice(), y.hash.as_slice())
    } else {
        bytes_le(xb, yb)
    }
}

/// A directory's entries in canonical order.
pub open spec fn entries_sorted(s: Seq<DirEntry>) -> bool {
    vstd::relations::sorted_by(evs(s), entry_leq())
}

/// Insert an entry into a sorted entry vector, keeping it sorted.
fn insert_sorted(v: &mut Vec<DirEntry>, e: DirEntry)
    requires
        entries_sorted(old(v)@),
    ensures
        entries_sorted(final(v)@),
        evs(final(v)@).to_multiset() == evs(old(v)@).to_multiset().insert(entry_v(e)),
{
    broadcast use vstd::seq_lib::to_multiset_insert;

    proof {
        crate::order::lemma_entry_leq_total_ordering();
    }
    let ghost ev = entry_v(e);
    let ghost leq = entry_leq();
    let mut pos: usize = 0;
    let mut found = false;
    while pos < v.len() && !found
        invariant
            pos <= v@.len(),
            forall|j: int| 0 <= j < pos ==> #[trigger] leq(evs(v@)[j], ev),
            found ==> pos < v@.len() && leq(ev, evs(v@)[pos as int]),
            ev == entry_v(e),
            leq == entry_leq(),
            vstd::relations::total_ordering(leq),
            entries_sorted(v@),
        decreases v@.len() - pos + (if found { 0int } else { 1int }),
    {
        let le = entry_le(&e, &v[pos]);
        if le {
            found = true;
        } else {
            proof {
                assert(!pair_le(entry_v(e), entry_v(v@[pos as int])));
                assert(evs(v@)[pos as int] == entry_v(v@[pos as int]));
                assert(!pair_le(ev, evs(v@)[pos as int]));
                assert(leq(ev, evs(v@)[pos as int]) || leq(evs(v@)[pos as int], ev));
            }
            pos += 1;
        }
    }
    let ghost oldv = v@;
    v.insert(pos, e);
    proof {
        assert(v@ =~= oldv.insert(pos as int, e));
        assert(evs(v@) =~= evs(oldv).insert(pos as int, ev));
        let s = evs(v@);
        let t = evs(oldv);
        assert forall|i: int, j: int| 0 <= i < j < s.len() implies #[trigger] leq(s[i], s[j]) by {
            if i < pos && j < pos {
                assert(leq(t[i], t[j]));
            } else if i < pos && j == pos {
                assert(leq(t[i], ev));
            } else if i < pos && j > pos {
                assert(leq(t[i], t[j - 1]));
            } else if i == pos && j > pos {
                assert(found);
                assert(leq(ev, t[pos as int]));
                if j - 1 > pos {
                    assert(leq(t[pos as int], t[j - 1]));
                }
            } else {
                assert(leq(t[i - 1], t[j - 1]));
            }
        }
        assert(s.to_multiset() == t.to_multiset().insert(ev));
    }
}

/// Sort a directory's entries into canonical (name, digest) order.
/// The entry set is unchanged; only the order moves.
pub fn sort_dir(dir: &mut DirNode)
    ensures
        entries_sorted(final(dir).entries@),
        evs(final(dir).entries@).to_multiset() == evs(old(dir).entries@).to_multiset(),
{
    broadcast use vstd::seq_lib::to_multiset_remove;
    broadcast use vstd::seq_lib::group_to_multiset_ensures;
    broadcast use vstd::multiset::group_multiset_axioms;

    let mut sorted: Vec<DirEntry> = Vec::new();
    while dir.entries.len() > 0
        invariant
            entries_sorted(sorted@),
            evs(sorted@).to_multiset().add(evs(dir.entries@).to_multiset()) == evs(
                old(dir).entries@,
            ).to_multiset(),
        decreases dir.entries@.len(),
    {
        let ghost before = dir.entries@;
        let e = dir.entries.remove(0);
        proof {
            assert(dir.entries@ =~= before.remove(0));
            assert(evs(dir.entries@) =~= evs(before).remove(0));
            assert(evs(before).contains(evs(before)[0]));
            vstd::seq_lib::to_multiset_remove(evs(before), 0);
            vstd::seq_lib::to_multiset_contains(evs(before), evs(before)[0]);
            assert(evs(before).remove(0).to_multiset().insert(evs(before)[0])
                =~= evs(before).to_multiset());
            assert(entry_v(e) == evs(before)[0]);
        }
        insert_sorted(&mut sorted, e);
        proof {
            assert(evs(sorted@).to_multiset().add(evs(dir.entries@).to_multiset()) =~= evs(
                old(dir).entries@,
            ).to_multiset());
        }
    }
    proof {
        assert(evs(dir.entries@) =~= Seq::<(Seq<u8>, Seq<u8>)>::empty());
        assert(evs(dir.entries@).to_multiset() =~= Multiset::<(Seq<u8>, Seq<u8>)>::empty());
        assert(evs(sorted@).to_multiset().add(Multiset::empty()) =~= evs(sorted@).to_multiset());
    }
    dir.entries = sorted;
}

/// A utility for assembling tree nodes.
pub struct MerkleTree {}

impl MerkleTree {
    pub fn new() -> (r: MerkleTree) {
        MerkleTree {}
    }

    /// Assemble a file node from its ordered chunk digests and size.
    pub fn create_file_node(chunks: Vec<Digest>, size: u64) -> (r: FileNode)
        ensures
            r.chunks@ == chunks@,
            r.size == size,
    {
        FileNode { chunks, size }
    }

    /// Assemble a directory node: the children are brought into
    /// canonical order, so that any insertion order yields the same
    /// node.
    pub fn create_dir_node(children: Vec<DirEntry>) -> (r: DirNode)
        ensures
            entries_sorted(r.entries@),
            evs(r.entries@).to_multiset() == evs(children@).to_multiset(),
    {
        let mut dir = DirNode { entries: children };
        sort_dir(&mut dir);
        dir
    }
}

/// Canonically encode a file node.
pub fn encode_file_node(f: &FileNode) -> (r: Vec<u8>)
    ensures
        r@ == enc_node(NodeV::File { chunks: digests_v(f.chunks@), size: f.size }),
{
    let mut out: Vec<u8> = Vec::new();
    out.push(0u8);
    crate::codec::push_u64(&mut out, f.size);
    crate::codec::push_u64(&mut out, f.chunks.len() as u64);
    let ghost prefix = out@;
    let mut i: usize = 0;
    while i < f.chunks.len()
        invariant
            i <= f.chunks@.len(),
            out@ == prefix + enc_hashes(digests_v(f.chunks@.subrange(0, i as int))),
        decreases f.chunks@.len() - i,
    {
        proof {
            let s = f.chunks@.subrange(0, i + 1 as int);
            assert(digests_v(s).drop_last() =~= digests_v(f.chunks@.subrange(0, i as int)));
            assert(digests_v(s).last() == f.chunks@[i as int]@);
        }
        push_digest(&mut out, &f.chunks[i]);
        i += 1;
    }
    proof {
        assert(f.chunks@.subrange(0, f.chunks@.len() as int) =~= f.chunks@);
        assert(out@ =~= enc_node(NodeV::File { chunks: digests_v(f.chunks@), size: f.size }));
    }
    out
}

/// Canonically encode a directory node.
pub fn encode_dir_node(d: &DirNode) -> (r: Vec<u8>)
    ensures
        r@ == enc_node(NodeV::Dir { entries: evs(d.entries@) }),
{
    let mut out: Vec<u8> = Vec::new();
    out.push(1u8);
    crate::codec::push_u64(&mut out, d.entries.len() as u64);
    let ghost prefix = out@;
    let mut i: usize = 0;
    while i < d.entries.len()
        invariant
            i <= d.entries@.len(),
            out@ == prefix + enc_entries(evs(d.entries@.subrange(0, i as int))),
        decreases d.entries@.len() - i,
    {
        let e = &d.entries[i];
        let nb = e.name.as_str().as_bytes();
        crate::codec::push_u64(&mut out, nb.len() as u64);
        crate::codec::push_bytes(&mut out, nb);
        push_digest(&mut out, &e.hash);
        proof {
            let s = d.entries@.subrange(0, i + 1 as int);
            assert(evs(s).drop_last() =~= evs(d.entries@.subrange(0, i as int)));
            assert(evs(s).last() == entry_v(d.entries@[i as int]));
            assert(nb@ == encode_utf8(e.name@));
            assert(out@ =~= prefix + enc_entries(evs(s)));
        }
        i += 1;
    }
    proof {
        assert(d.entries@.subrange(0, d.entries@.len() as int) =~= d.entries@);
        assert(out@ =~= enc_node(NodeV::Dir { entries: evs(d.entries@) }));
    }
    out
}

/// The content address of a file node.
pub fn file_leaf(file: &FileNode) -> (r: Digest)
    ensures
        r@ == node_hash(NodeV::File { chunks: digests_v(file.chunks@), size: file.size }),
{
    let enc = encode_file_node(file);
    crate::hashing::Blake3Pool::new().hash_bytes(enc.as_slice())
}

/// The content address of a directory node. The entries must already
/// stand in canonical order: canonical serialization is what makes a
/// directory's address independent of insertion order.
pub fn dir_leaf(dir: &DirNode) -> (r: Digest)
    requires
        entries_sorted(dir.entries@),
    ensures
        r@ == node_hash(NodeV::Dir { entries: evs(dir.entries@) }),
{
    let enc = encode_dir_node(dir);
    crate::hashing::Blake3Pool::new().hash_bytes(enc.as_slice())
}

/// Prepend a fixed prefix to a parse result.
pub open spec fn opt_prepend(pre: Seq<Seq<u8>>, o: Option<Seq<Seq<u8>>>) -> Option<Seq<Seq<u8>>> {
    match o {
        Option::None => None,
        Option::Some(r) => Some(pre + r),
    }
}

/// The chunk digests in an encoded file node's tail: exactly `count`
/// of them, 32 bytes each, and nothing after.
pub open spec fn parse_chunk_refs(b: Seq<u8>, count: nat) -> Option<Seq<Seq<u8>>>
    decreases count,
{
    if count == 0 {
        if b.len() == 0 {
            Some(Seq::empty())
        } else {
            None
        }
    } else if b.len() < 32 {
        None
    } else {
        opt_prepend(seq![b.subrange(0, 32)], parse_chunk_refs(b.skip(32), (count - 1) as nat))
    }
}

/// The child digests in an encoded directory node's tail: `count`
/// entries of name length, name bytes and digest, and nothing after.
pub open spec fn parse_entry_refs(b: Seq<u8>, count: nat) -> Option<Seq<Seq<u8>>>
    decreases count,
{
    if count == 0 {
        if b.len() == 0 {
            Some(Seq::empty())
        } else {
            None
        }
    } else if b.len() < 8 {
        None
    } else {
        let nl = u64_from_le(b.subrange(0, 8)) as int;
        if b.len() < 8 + nl + 32 {
            None
        } else {
            opt_prepend(
                seq![b.subrange(8 + nl, 8 + nl + 32)],
                parse_entry_refs(b.skip(8 + nl + 32), (count - 1) as nat),
            )
        }
    }
}

/// The digests an encoded node references, if the encoding is well
/// formed.
pub open spec fn parse_refs(b: Seq<u8>) -> Option<Seq<Seq<u8>>> {
    if b.len() < 1 {
        None
    } else if b[0] == 0 {
        if b.len() < 17 {
            None
        } else {
            parse_chunk_refs(b.skip(17), u64_from_le(b.subrange(9, 17)) as nat)
        }
    } else if b[0] == 1 {
        if b.len() < 9 {
            None
        } else {
            parse_entry_refs(b.skip(9), u64_from_le(b.subrange(1, 9)) as nat)
        }
    } else {
        None
    }
}

/// Copy the 32-byte digest starting at `pos`.
fn read_digest(b: &Vec<u8>, pos: usize) -> (r: Digest)
    requires
        pos + 32 <= b@.len(),
    ensures
        r@ == b@.subrange(pos as int, pos as int + 32),
{
    let len = b.len();
    let mut h: Digest = [0u8; 32];
    let mut i: usize = 0;
    while i < 32
        invariant
            i <= 32,
            pos + 32 <= len,
            len == b@.len(),
            forall|j: int| 0 <= j < i ==> h@[j] == b@[pos + j],
        decreases 32 - i,
    {
        h[i] = b[pos + i];
        i += 1;
    }
    proof {
        assert(h@ =~= b@.subrange(pos as int, pos as int + 32));
    }
    h
}

/// Extract the digests an encoded node references; a mangled encoding
/// is a serialization error.
pub fn decode_refs(b: &Vec<u8>) -> (r: Result<Vec<Digest>, EngineError>)
    ensures
        match r {
            Ok(v) => parse_refs(b@) == Some(digests_v(v@)),
            Err(e) => parse_refs(b@) is None && e == EngineError::SerializationError,
        },
{
    let len = b.len();
    if len < 1 {
        return Err(EngineError::SerializationError);
    }
    let tag = b[0];
    if tag == 0 {
        if len < 17 {
            return Err(EngineError::SerializationError);
        }
        let count = crate::codec::read_u64(b, 9);
        let ghost count0 = count as nat;
        let mut out: Vec<Digest> = Vec::new();
        let mut pos: usize = 17;
        let mut k: u64 = count;
        proof {
            assert(digests_v(out@) =~= Seq::<Seq<u8>>::empty());
            assert(opt_prepend(digests_v(out@), parse_chunk_refs(b@.skip(17), count0))
                == parse_chunk_refs(b@.skip(17), count0)) by {
                if parse_chunk_refs(b@.skip(17), count0) is Some {
                    assert(digests_v(out@) + parse_chunk_refs(b@.skip(17), count0).unwrap()
                        =~= parse_chunk_refs(b@.skip(17), count0).unwrap());
                }
            }
        }
        while k > 0
            invariant
                17 <= pos <= len,
                len == b@.len(),
                b@.len() >= 17,
                b@[0] == 0,
                count0 == u64_from_le(b@.subrange(9, 17)) as nat,
                parse_chunk_refs(b@.skip(17), count0) == opt_prepend(
                    digests_v(out@),
                    parse_chunk_refs(b@.skip(pos as int), k as nat),
                ),
            decreases k,
        {
            let ghost rest = b@.skip(pos as int);
            if len - pos < 32 {
                proof {
                    assert(parse_chunk_refs(rest, k as nat) is None);
                }
                return Err(EngineError::SerializationError);
            }
            let h = read_digest(b, pos);
            let ghost old_out = out@;
            out.push(h);
            proof {
                assert(rest.subrange(0, 32) =~= b@.subrange(pos as int, pos as int + 32));
                assert(rest.skip(32) =~= b@.skip(pos as int + 32));
                assert(digests_v(out@) =~= digests_v(old_out).push(h@));
                if parse_chunk_refs(rest.skip(32), (k - 1) as nat) is Some {
                    assert(digests_v(old_out) + (seq![rest.subrange(0, 32)] + parse_chunk_refs(
                        rest.skip(32),
                        (k - 1) as nat,
                    ).unwrap()) =~= digests_v(out@) + parse_chunk_refs(
                        rest.skip(32),
                        (k - 1) as nat,
                    ).unwrap());
                }
            }
            pos = pos + 32;
            k = k - 1;
        }
        if pos != len {
            proof {
                assert(parse_chunk_refs(b@.skip(pos as int), 0) is None);
            }
            return Err(EngineError::SerializationError);
        }
        proof {
            assert(b@.skip(pos as int).len() == 0);
            assert(parse_chunk_refs(b@.skip(pos as int), 0) == Some(Seq::<Seq<u8>>::empty()));
            assert(digests_v(out@) + Seq::<Seq<u8>>::empty() =~= digests_v(out@));
        }
        Ok(out)
    } else if tag == 1 {
        if len < 9 {
            return Err(EngineError::SerializationError);
        }
        let count = crate::codec::read_u64(b, 1);
        let ghost count0 = count as nat;
        let mut out: Vec<Digest> = Vec::new();
        let mut pos: usize = 9;
        let mut k: u64 = count;
        proof {
            assert(digests_v(out@) =~= Seq::<Seq<u8>>::empty());
            assert(opt_prepend(digests_v(out@), parse_entry_refs(b@.skip(9), count0))
                == parse_entry_refs(b@.skip(9), count0)) by {
                if parse_entry_refs(b@.skip(9), count0) is Some {
                    assert(digests_v(out@) + parse_entry_refs(b@.skip(9), count0).unwrap()
                        =~= parse_entry_refs(b@.skip(9), count0).unwrap());
                }
            }
        }
        while k > 0
            invariant
                9 <= pos <= len,
                len == b@.len(),
                b@.len() >= 9,
                b@[0] == 1,
                count0 == u64_from_le(b@.subrange(1, 9)) as nat,
                parse_entry_refs(b@.skip(9), count0) == opt_prepend(
                    digests_v(out@),
                    parse_entry_refs(b@.skip(pos as int), k as nat),
                ),
            decreases k,
        {
            let ghost rest = b@.skip(pos as int);
            if len - pos < 8 {
                proof {
                    assert(parse_entry_refs(rest, k as nat) is None);
                }
                return Err(EngineError::SerializationError);
            }
            let nl = crate::codec::read_u64(b, pos);
            proof {
                assert(rest.subrange(0, 8) =~= b@.subrange(pos as int, pos as int + 8));
            }
            if nl > (len - pos) as u64 || len - pos - (nl as usize) < 40 {
                proof {
                    assert(rest.len() < 8 + nl + 32);
                    assert(parse_entry_refs(rest, k as nat) is None);
                }
                return Err(EngineError::SerializationError);
            }
            let nl = nl as usize;
            let h = read_digest(b, pos + 8 + nl);
            let ghost old_out = out@;
            out.push(h);
            proof {
                assert(rest.subrange(8 + nl as int, 8 + nl as int + 32) =~= b@.subrange(
                    pos as int + 8 + nl as int,
                    pos as int + 8 + nl as int + 32,
                ));
                assert(rest.skip(8 + nl as int + 32) =~= b@.skip(pos as int + 8 + nl as int + 32));
                assert(digests_v(out@) =~= digests_v(old_out).push(h@));
                if parse_entry_refs(rest.skip(8 + nl as int + 32), (k - 1) as nat) is Some {
                    assert(digests_v(old_out) + (seq![
                        rest.subrange(8 + nl as int, 8 + nl as int + 32),
                    ] + parse_entry_refs(rest.skip(8 + nl as int + 32), (k - 1) as nat).unwrap())
                        =~= digests_v(out@) + parse_entry_refs(
                        rest.skip(8 + nl as int + 32),
                        (k - 1) as nat,
                    ).unwrap());
                }
            }
            pos = pos + 8 + nl + 32;
            k = k - 1;
        }
        if pos != len {
            proof {
                assert(parse_entry_refs(b@.skip(pos as int), 0) is None);
            }
            return Err(EngineError::SerializationError);
        }
        proof {
            assert(b@.skip(pos as int).len() == 0);
            assert(parse_entry_refs(b@.skip(pos as int), 0) == Some(Seq::<Seq<u8>>::empty()));
            assert(digests_v(out@) + Seq::<Seq<u8>>::empty() =~= digests_v(out@));
        }
        Ok(out)
    } else {
        Err(EngineError::SerializationError)
    }
}

/// Digest runs laid end to end can also be read first-to-last.
proof fn lemma_enc_hashes_first(hs: Seq<Seq<u8>>)
    requires
        hs.len() > 0,
    ensures
        enc_hashes(hs) == hs.first() + enc_hashes(hs.drop_first()),
    decreases hs.len(),
{
    if hs.len() == 1 {
        assert(enc_hashes(hs.drop_last()) =~= Seq::<u8>::empty());
        assert(hs.first() =~= hs.last());
        assert(hs.drop_first().len() == 0);
        assert(enc_hashes(hs) =~= hs.first() + enc_hashes(hs.drop_first()));
    } else {
        lemma_enc_hashes_first(hs.drop_last());
        assert(hs.drop_last().first() == hs.first());
        assert(hs.drop_last().drop_first() =~= hs.drop_first().drop_last());
        assert(hs.drop_first().last() == hs.last());
        assert(enc_hashes(hs) =~= hs.first() + (enc_hashes(hs.drop_first().drop_last())
            + hs.drop_first().last()));
    }
}

/// Encoded entries laid end to end can also be read first-to-last.
proof fn lemma_enc_entries_first(es: Seq<(Seq<u8>, Seq<u8>)>)
    requires
        es.len() > 0,
    ensures
        enc_entries(es) == enc_entry(es.first()) + enc_entries(es.drop_first()),
    decreases es.len(),
{
    if es.len() == 1 {
        assert(enc_entries(es.drop_last()) =~= Seq::<u8>::empty());
        assert(es.first() =~= es.last());
        assert(es.drop_first().len() == 0);
        assert(enc_entries(es) =~= enc_entry(es.first()) + enc_entries(es.drop_first()));
    } else {
        lemma_enc_entries_first(es.drop_last());
        assert(es.drop_last().first() == es.first());
        assert(es.drop_last().drop_first() =~= es.drop_first().drop_last());
        assert(es.drop_first().last() == es.last());
        assert(enc_entries(es) =~= enc_entry(es.first()) + (enc_entries(
            es.drop_first().drop_last(),
        ) + enc_entry(es.drop_first().last())));
    }
}

proof fn lemma_parse_chunk_refs_of_enc(hs: Seq<Seq<u8>>)
    requires
        forall|i: int| 0 <= i < hs.len() ==> #[trigger] hs[i].len() == 32,
    ensures
        parse_chunk_refs(enc_hashes(hs), hs.len() as nat) == Some(hs),
    decreases hs.len(),
{
    if hs.len() == 0 {
        assert(enc_hashes(hs).len() == 0);
        assert(parse_chunk_refs(enc_hashes(hs), 0) == Some(Seq::<Seq<u8>>::empty()));
        assert(Seq::<Seq<u8>>::empty() =~= hs);
    } else {
        lemma_enc_hashes_first(hs);
        let b = enc_hashes(hs);
        assert(hs.first().len() == 32);
        assert forall|i: int|
            0 <= i < hs.drop_first().len() implies #[trigger] hs.drop_first()[i].len() == 32 by {
            assert(hs[i + 1].len() == 32);
        }
        lemma_parse_chunk_refs_of_enc(hs.drop_first());
        assert(b.subrange(0, 32) =~= hs.first());
        assert(b.skip(32) =~= enc_hashes(hs.drop_first()));
        assert(seq![hs.first()] + hs.drop_first() =~= hs);
    }
}

proof fn lemma_parse_entry_refs_of_enc(es: Seq<(Seq<u8>, Seq<u8>)>)
    requires
        forall|i: int|
            0 <= i < es.len() ==> #[trigger] es[i].0.len() <= u64::MAX && es[i].1.len() == 32,
    ensures
        parse_entry_refs(enc_entries(es), es.len() as nat) == Some(
            es.map_values(|e: (Seq<u8>, Seq<u8>)| e.1),
        ),
    decreases es.len(),
{
    crate::codec::lemma_le_roundtrip(es.len() as u64);
    if es.len() == 0 {
        assert(enc_entries(es).len() == 0);
        assert(es.map_values(|e: (Seq<u8>, Seq<u8>)| e.1) =~= Seq::<Seq<u8>>::empty());
    } else {
        lemma_enc_entries_first(es);
        let b = enc_entries(es);
        let e0 = es.first();
        assert(e0.0.len() <= u64::MAX && e0.1.len() == 32);
        crate::codec::lemma_le_roundtrip(e0.0.len() as u64);
        let nl = e0.0.len() as int;
        assert(b.len() >= 8);
        assert(b.subrange(0, 8) =~= le_bytes(e0.0.len() as u64));
        assert(u64_from_le(b.subrange(0, 8)) == e0.0.len() as u64);
        assert(b.len() >= 8 + nl + 32);
        assert(b.subrange(8 + nl, 8 + nl + 32) =~= e0.1);
        assert(b.skip(8 + nl + 32) =~= enc_entries(es.drop_first()));
        assert forall|i: int|
            0 <= i < es.drop_first().len() implies #[trigger] es.drop_first()[i].0.len()
            <= u64::MAX && es.drop_first()[i].1.len() == 32 by {
            assert(es[i + 1].0.len() <= u64::MAX && es[i + 1].1.len() == 32);
        }
        lemma_parse_entry_refs_of_enc(es.drop_first());
        assert(seq![e0.1] + es.drop_first().map_values(|e: (Seq<u8>, Seq<u8>)| e.1) =~= es
            .map_values(|e: (Seq<u8>, Seq<u8>)| e.1));
    }
}

/// A node is well formed when its counts fit the encoding's 64-bit
/// fields, its digests are 32 bytes, and its name lengths fit. Every
/// node the executable constructors build is.
pub open spec fn node_v_wf(n: NodeV) -> bool {
    match n {
        NodeV::File { chunks, size } => chunks.len() <= u64::MAX && forall|i: int|
            0 <= i < chunks.len() ==> #[trigger] chunks[i].len() == 32,
        NodeV::Dir { entries } => entries.len() <= u64::MAX && forall|i: int|
            0 <= i < entries.len() ==> #[trigger] entries[i].0.len() <= u64::MAX
                && entries[i].1.len() == 32,
    }
}

/// The references of a well-formed node's canonical encoding parse
/// back to exactly the digests the node holds: what `ingest` stores
/// is what a later commit's reachability check reads.
pub proof fn lemma_refs_roundtrip(n: NodeV)
    requires
        node_v_wf(n),
    ensures
        parse_refs(enc_node(n)) == Some(node_v_refs(n)),
{
    crate::codec::lemma_le_roundtrip(node_v_refs(n).len() as u64);
    match n {
        NodeV::File { chunks, size } => {
            let e = enc_node(n);
            crate::codec::lemma_le_roundtrip(chunks.len() as u64);
            assert(e.len() >= 17);
            assert(e[0] == 0);
            assert(e.subrange(9, 17) =~= le_bytes(chunks.len() as u64));
            assert(e.skip(17) =~= enc_hashes(chunks));
            lemma_parse_chunk_refs_of_enc(chunks);
        },
        NodeV::Dir { entries } => {
            let e = enc_node(n);
            crate::codec::lemma_le_roundtrip(entries.len() as u64);
            assert(e.len() >= 9);
            assert(e[0] == 1);
            assert(e.subrange(1, 9) =~= le_bytes(entries.len() as u64));
            assert(e.skip(9) =~= enc_entries(entries));
            lemma_parse_entry_refs_of_enc(entries);
        },
    }
}

/// Order invariance: two directories holding the same set of
/// (name, digest) entries, each in canonical order, encode identically
/// and therefore share one content address — however their entries
/// were originally inserted.
pub proof fn lemma_dir_hash_order_invariant(d1: DirNode, d2: DirNode)
    requires
        entries_sorted(d1.entries@),
        entries_sorted(d2.entries@),
        evs(d1.entries@).to_multiset() == evs(d2.entries@).to_multiset(),
    ensures
        node_hash(NodeV::Dir { entries: evs(d1.entries@) }) == node_hash(
            NodeV::Dir { entries: evs(d2.entries@) },
        ),
{
    crate::order::lemma_entry_leq_total_ordering();
    vstd::seq_lib::lemma_sorted_unique(evs(d1.entries@), evs(d2.entries@), entry_leq());
    assert(evs(d1.entries@) == evs(d2.entries@));
}

} // verus!
