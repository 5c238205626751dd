//! What the eD2k digest of a byte stream is.

use crate::accumulator::md4_digest;
use vstd::prelude::*;

verus! {

/// The number of bytes in a full block.
pub const CHUNK_SIZE: usize = 9_728_000;

/// The number of blocks that a stream of `len` bytes is cut into.
///
/// Every block but the last holds `CHUNK_SIZE` bytes. A stream always has a
/// last block. In the current scheme the last block of a stream that is not
/// empty holds between 1 and `CHUNK_SIZE` bytes; in the legacy scheme it holds
/// fewer than `CHUNK_SIZE` bytes, so a stream that ends on a block boundary
/// ends with an empty block.
pub open spec fn block_count(len: nat, legacy: bool) -> nat {
    if legacy {
        len / (CHUNK_SIZE as nat) + 1
    } else if len == 0 {
        1
    } else {
        ((len - 1) / (CHUNK_SIZE as int) + 1) as nat
    }
}

/// The `i`-th block of `data`, counted from 0: the bytes from `i * CHUNK_SIZE`
/// up to the next block boundary or the end of `data`, whichever comes first.
pub open spec fn block(data: Seq<u8>, i: nat) -> Seq<u8>
    recommends
        i * CHUNK_SIZE <= data.len(),
{
    let start = i * CHUNK_SIZE;
    let end = if start + CHUNK_SIZE <= data.len() {
        start + CHUNK_SIZE
    } else {
        data.len() as int
    };
    data.subrange(start, end)
}

/// The MD4 digests of the first `n` blocks of `data`, one after the other.
pub open spec fn block_digests(data: Seq<u8>, n: nat) -> Seq<u8>
    decreases n,
{
    if n == 0 {
        Seq::empty()
    } else {
        block_digests(data, (n - 1) as nat) + md4_digest(block(data, (n - 1) as nat))
    }
}

/// The eD2k digest of `data`.
///
/// A stream of one block has the MD4 digest of its bytes. A longer stream has
/// the MD4 digest of the digests of its blocks.
pub open spec fn ed2k_digest(data: Seq<u8>, legacy: bool) -> Seq<u8> {
    let n = block_count(data.len(), legacy);
    if n == 1 {
        md4_digest(data)
    } else {
        md4_digest(block_digests(data, n))
    }
}

/// Bytes appended to a stream leave the digests of the blocks that were
/// already full as they were.
pub proof fn lemma_block_digests_append(data: Seq<u8>, more: Seq<u8>, n: nat)
    requires
        n * CHUNK_SIZE <= data.len(),
    ensures
        block_digests(data + more, n) == block_digests(data, n),
    decreases n,
{
    if n > 0 {
        let i = (n - 1) as nat;
        lemma_block_digests_append(data, more, i);
        assert(block(data + more, i) =~= block(data, i));
    }
}

/// A stream shorter than a block has the MD4 digest of its bytes, in either
/// scheme.
pub proof fn lemma_short_stream_is_md4(data: Seq<u8>, legacy: bool)
    requires
        data.len() < CHUNK_SIZE,
    ensures
        ed2k_digest(data, legacy) == md4_digest(data),
{
}

/// A stream that does not end on a block boundary has the same digest in both
/// schemes.
pub proof fn lemma_schemes_agree_off_boundary(data: Seq<u8>)
    requires
        data.len() % (CHUNK_SIZE as nat) != 0,
    ensures
        ed2k_digest(data, true) == ed2k_digest(data, false),
{
}

/// The schemes part where a stream ends on a block boundary. For a stream of
/// `n` full blocks, the current scheme takes those `n` blocks (and, for
/// one block, the MD4 digest of the stream itself); the legacy scheme adds the
/// digest of an empty block to them.
pub proof fn lemma_schemes_on_boundary(data: Seq<u8>, n: nat)
    requires
        n >= 1,
        data.len() == n * CHUNK_SIZE,
    ensures
        ed2k_digest(data, false) == if n == 1 {
            md4_digest(data)
        } else {
            md4_digest(block_digests(data, n))
        },
        ed2k_digest(data, true) == md4_digest(
            block_digests(data, n) + md4_digest(Seq::<u8>::empty()),
        ),
{
    assert(block(data, n) =~= Seq::<u8>::empty());
}

} // verus!
