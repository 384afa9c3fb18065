//! Splitting a byte stream into content-addressable pieces.
//!
//! The strategy is pluggable: downstream code depends only on the
//! ordered partition a strategy produces, never on how the boundaries
//! were chosen, so a content-defined strategy can be added without
//! touching the rest of the engine.

use vstd::prelude::*;

verus! {

/// The fixed-size partition of a byte string: full pieces of `size`
/// bytes, a shorter final piece, and nothing at all for empty input.
pub open spec fn fixed_chunks(data: Seq<u8>, size: nat) -> Seq<Seq<u8>>
    recommends
        size > 0,
    decreases data.len(),
{
    if data.len() == 0 {
        Seq::empty()
    } else if data.len() <= size || size == 0 {
        seq![data]
    } else {
        seq![data.take(size as int)] + fixed_chunks(data.skip(size as int), size)
    }
}

/// There are never more chunks than input bytes: every chunk holds at
/// least one byte.
pub proof fn lemma_fixed_chunks_len(data: Seq<u8>, size: nat)
    ensures
        fixed_chunks(data, size).len() <= data.len(),
    decreases data.len(),
{
    if data.len() > size && size > 0 {
        lemma_fixed_chunks_len(data.skip(size as int), size);
    }
}

/// A chunking strategy: it produces an ordered partition of a byte
/// stream, consumed to completion.
pub trait Chunker: Sized {
    /// The partition this strategy produces for a given input.
    spec fn chunk_spec(&self, data: Seq<u8>) -> Seq<Seq<u8>>;

    /// The strategy's configuration is usable.
    spec fn valid(&self) -> bool;

    /// Split a byte string into its ordered partition.
    fn chunk(&self, data: &[u8]) -> (r: Vec<Vec<u8>>)
        requires
            self.valid(),
        ensures
            r.deep_view() == self.chunk_spec(data@),
    ;
}

/// The fixed-size strategy: every chunk is `chunk_size` bytes except a
/// shorter final one.
pub struct FixedSizeChunker {
    pub chunk_size: usize,
}

impl FixedSizeChunker {
    pub fn new(chunk_size: usize) -> (r: Self)
        ensures
            r.chunk_size == chunk_size,
    {
        FixedSizeChunker { chunk_size }
    }
}

impl Chunker for FixedSizeChunker {
    open spec fn chunk_spec(&self, data: Seq<u8>) -> Seq<Seq<u8>> {
        fixed_chunks(data, self.chunk_size as nat)
    }

    open spec fn valid(&self) -> bool {
        self.chunk_size > 0
    }

    fn chunk(&self, data: &[u8]) -> (r: Vec<Vec<u8>>) {
        let mut out: Vec<Vec<u8>> = Vec::new();
        let len = data.len();
        let mut pos: usize = 0;
        proof {
            assert(data@.skip(0) =~= data@);
            assert(out.deep_view() =~= Seq::<Seq<u8>>::empty());
            assert(out.deep_view() + fixed_chunks(data@, self.chunk_size as nat) =~= fixed_chunks(
                data@,
                self.chunk_size as nat,
            ));
        }
        while pos < len
            invariant
                pos <= len,
                len == data@.len(),
                self.chunk_size > 0,
                fixed_chunks(data@, self.chunk_size as nat) == out.deep_view() + fixed_chunks(
                    data@.skip(pos as int),
                    self.chunk_size as nat,
                ),
            decreases len - pos,
        {
            let take = if len - pos < self.chunk_size {
                len - pos
            } else {
                self.chunk_size
            };
            let mut c: Vec<u8> = Vec::new();
            let mut j: usize = 0;
            while j < take
                invariant
                    j <= take,
                    pos + take <= len,
                    len == data@.len(),
                    c@ == data@.subrange(pos as int, pos as int + j as int),
                decreases take - j,
            {
                proof {
                    assert(data@.subrange(pos as int, pos as int + (j + 1) as int) =~= data@
                        .subrange(pos as int, pos as int + j as int).push(data@[pos + j]));
                }
                c.push(data[pos + j]);
                j += 1;
            }
            proof {
                let rest = data@.skip(pos as int);
                let size = self.chunk_size as nat;
                if rest.len() <= size {
                    assert(take == len - pos);
                    assert(c@ =~= rest);
                    assert(fixed_chunks(rest, size) =~= seq![c@]);
                    assert(data@.skip((pos + take) as int).len() == 0);
                    assert(fixed_chunks(data@.skip((pos + take) as int), size) =~= Seq::<
                        Seq<u8>,
                    >::empty());
                } else {
                    assert(take == self.chunk_size);
                    assert(c@ =~= rest.take(size as int));
                    assert(rest.skip(size as int) =~= data@.skip((pos + take) as int));
                }
                assert(out.deep_view().push(c@) + fixed_chunks(
                    data@.skip((pos + take) as int),
                    size,
                ) =~~= out.deep_view() + fixed_chunks(data@.skip(pos as int), size));
            }
            let ghost old_out = out.deep_view();
            out.push(c);
            proof {
                assert(out.deep_view() =~~= old_out.push(c@));
            }
            pos += take;
        }
        proof {
            assert(data@.skip(pos as int).len() == 0);
            assert(fixed_chunks(data@.skip(pos as int), self.chunk_size as nat) =~= Seq::<
                Seq<u8>,
            >::empty());
            assert(out.deep_view() + Seq::<Seq<u8>>::empty() =~= out.deep_view());
        }
        out
    }
}

} // verus!
