//! The streaming hasher.

use crate::accumulator::{md4_absorbed, md4_digest, Md4Accumulator};
use crate::blocks::{
    block, block_count, block_digests, ed2k_digest, lemma_block_digests_append, CHUNK_SIZE,
};
use vstd::prelude::*;
use vstd::slice::slice_subrange;

verus! {

/// What changes while a stream is fed: one MD4 computation over the open
/// block, a second one over the digests of the blocks closed so far, and the
/// counters that go with them.
struct Progress {
    md4_hasher: Md4Accumulator,
    current_chunk_len: usize,
    /// The number of closed blocks, as far as a `usize` can count them.
    num_full_chunks: usize,
    chunk_hasher: Md4Accumulator,
    fed: Ghost<Seq<u8>>,
}

/// Computes the eD2k digest of a stream of bytes that is fed to it piece by
/// piece.
pub struct Ed2kHasher {
    use_legacy_hashing: bool,
    progress: Progress,
}

impl Progress {
    /// The number of blocks closed so far.
    spec fn closed_blocks(&self) -> nat {
        ((self.fed@.len() - self.current_chunk_len) / (CHUNK_SIZE as int)) as nat
    }

    /// The two MD4 computations and the counters fit the bytes fed: the open
    /// block holds the last `current_chunk_len` of them, and the blocks before
    /// it have been closed.
    spec fn consistent(&self) -> bool {
        let data = self.fed@;
        let cur = self.current_chunk_len as int;
        let k = self.closed_blocks();
        &&& cur <= CHUNK_SIZE
        &&& cur <= data.len()
        &&& data.len() - cur == k * CHUNK_SIZE
        &&& md4_absorbed(self.md4_hasher) == data.skip(data.len() - cur)
        &&& md4_absorbed(self.chunk_hasher) == block_digests(data, k)
        &&& self.num_full_chunks == if k <= usize::MAX {
            k as int
        } else {
            usize::MAX as int
        }
    }

    /// What holds between the calls of a hasher: the state fits the bytes
    /// fed, and the open block is the last block of the stream as the scheme
    /// cuts it.
    spec fn settled(&self, legacy: bool) -> bool {
        &&& self.consistent()
        &&& self.closed_blocks() + 1 == block_count(self.fed@.len(), legacy)
    }

    fn new() -> (progress: Self)
        ensures
            progress.fed@ == Seq::<u8>::empty(),
            progress.current_chunk_len == 0,
            progress.closed_blocks() == 0,
            md4_absorbed(progress.md4_hasher) == Seq::<u8>::empty(),
            md4_absorbed(progress.chunk_hasher) == Seq::<u8>::empty(),
            forall|legacy: bool| progress.settled(legacy),
    {
        let progress = Progress {
            md4_hasher: Md4Accumulator::new(),
            current_chunk_len: 0,
            num_full_chunks: 0,
            chunk_hasher: Md4Accumulator::new(),
            fed: Ghost(Seq::empty()),
        };
        assert(progress.fed@.skip(0) =~= Seq::<u8>::empty());
        progress
    }

    fn duplicate(&self) -> (copy: Self)
        ensures
            copy.fed@ == self.fed@,
            forall|legacy: bool| self.settled(legacy) ==> copy.settled(legacy),
    {
        Progress {
            md4_hasher: self.md4_hasher.duplicate(),
            current_chunk_len: self.current_chunk_len,
            num_full_chunks: self.num_full_chunks,
            chunk_hasher: self.chunk_hasher.duplicate(),
            fed: self.fed,
        }
    }

    /// Closes the open block: its digest is appended to the input of the digest
    /// of digests, and the next block starts empty.
    fn finalize_chunk(&mut self)
        ensures
            final(self).fed == old(self).fed,
            final(self).current_chunk_len == 0,
            final(self).num_full_chunks == if old(self).num_full_chunks < usize::MAX {
                old(self).num_full_chunks + 1
            } else {
                usize::MAX as int
            },
            md4_absorbed(final(self).md4_hasher) == Seq::<u8>::empty(),
            md4_absorbed(final(self).chunk_hasher) == md4_absorbed(old(self).chunk_hasher)
                + md4_digest(md4_absorbed(old(self).md4_hasher)),
    {
        self.num_full_chunks = self.num_full_chunks.saturating_add(1);
        let digest = self.md4_hasher.finalize_reset();
        self.chunk_hasher.absorb(digest.as_slice());
        self.current_chunk_len = 0;
    }

    fn chunk_remaining(&self) -> (remaining: usize)
        requires
            self.current_chunk_len <= CHUNK_SIZE,
        ensures
            remaining == CHUNK_SIZE - self.current_chunk_len,
    {
        CHUNK_SIZE - self.current_chunk_len
    }

    fn update(&mut self, legacy: bool, input: &[u8])
        requires
            old(self).settled(legacy),
        ensures
            final(self).settled(legacy),
            final(self).fed@ == old(self).fed@ + input@,
    {
        let mut pos: usize = 0;
        while pos < input.len()
            invariant
                pos <= input.len(),
                self.settled(legacy),
                self.fed@ == old(self).fed@ + input@.take(pos as int),
            decreases input.len() - pos,
        {
            if self.chunk_remaining() == 0 {
                proof {
                    self.lemma_full_block_closes();
                }
                self.finalize_chunk();
            }
            let left = input.len() - pos;
            let room = self.chunk_remaining();
            let read_len = if room < left {
                room
            } else {
                left
            };
            let piece = slice_subrange(input, pos, pos + read_len);
            proof {
                lemma_block_digests_append(self.fed@, piece@, self.closed_blocks());
                assert(self.fed@.skip(self.fed@.len() - self.current_chunk_len) + piece@ =~= (
                self.fed@ + piece@).skip(self.fed@.len() - self.current_chunk_len));
                assert(self.fed@ + piece@ =~= old(self).fed@ + input@.take(pos + read_len));
            }
            self.md4_hasher.absorb(piece);
            self.current_chunk_len += read_len;
            self.fed = Ghost(self.fed@ + piece@);

            // In the legacy scheme a full block is closed at once, so that a
            // stream that ends here ends with an empty block.
            if self.chunk_remaining() == 0 && legacy {
                proof {
                    self.lemma_full_block_closes();
                }
                self.finalize_chunk();
            }
            pos += read_len;
        }
        assert(input@.take(pos as int) =~= input@);
    }

    fn finalize_into_reset(&mut self, legacy: bool, out: &mut [u8; 16])
        requires
            old(self).settled(legacy),
        ensures
            final(out)@ == ed2k_digest(old(self).fed@, legacy),
            final(self).fed@ == Seq::<u8>::empty(),
            forall|any: bool| final(self).settled(any),
    {
        if self.num_full_chunks == 0 {
            proof {
                assert(self.fed@.skip(0) =~= self.fed@);
            }
            *out = self.md4_hasher.finalize_reset();
        } else {
            proof {
                self.lemma_last_block_closes(legacy);
            }
            self.finalize_chunk();
            *out = self.chunk_hasher.finalize_reset();
        }
        self.num_full_chunks = 0;
        self.current_chunk_len = 0;
        self.fed = Ghost(Seq::empty());
        proof {
            assert(self.fed@.skip(0) =~= Seq::<u8>::empty());
        }
    }

    /// Where the open block is full, its bytes are the next block of the
    /// stream, and nothing is left over once it is closed.
    proof fn lemma_full_block_closes(&self)
        requires
            self.consistent(),
            self.current_chunk_len == CHUNK_SIZE,
        ensures
            block_digests(self.fed@, self.closed_blocks() + 1) == block_digests(
                self.fed@,
                self.closed_blocks(),
            ) + md4_digest(md4_absorbed(self.md4_hasher)),
            self.fed@.skip(self.fed@.len() as int) == Seq::<u8>::empty(),
            self.fed@.len() == (self.closed_blocks() + 1) * CHUNK_SIZE,
    {
    }

    /// Between calls the open block is the last block of the stream, so the
    /// digests of the closed blocks and its own are those of all blocks.
    proof fn lemma_last_block_closes(&self, legacy: bool)
        requires
            self.settled(legacy),
        ensures
            block_digests(self.fed@, block_count(self.fed@.len(), legacy)) == block_digests(
                self.fed@,
                self.closed_blocks(),
            ) + md4_digest(md4_absorbed(self.md4_hasher)),
    {
    }
}

impl View for Ed2kHasher {
    type V = Seq<u8>;

    /// The bytes fed to the hasher since it was made or last started over.
    closed spec fn view(&self) -> Seq<u8> {
        self.progress.fed@
    }
}

impl Ed2kHasher {
    /// The number of bytes in a full block.
    pub const CHUNK_SIZE: usize = CHUNK_SIZE;

    /// True where the hasher works by the legacy scheme.
    pub closed spec fn legacy(&self) -> bool {
        self.use_legacy_hashing
    }

    /// The number of bytes in the open block.
    pub closed spec fn bytes_in_block(&self) -> nat {
        self.progress.current_chunk_len as nat
    }

    /// The number of blocks closed so far.
    pub closed spec fn blocks_finalized(&self) -> nat {
        self.progress.closed_blocks()
    }

    /// The bytes that the MD4 computation over the open block has taken in.
    pub closed spec fn open_block(&self) -> Seq<u8> {
        md4_absorbed(self.progress.md4_hasher)
    }

    /// The bytes that the MD4 computation over the digests of the closed
    /// blocks has taken in.
    pub closed spec fn closed_digests(&self) -> Seq<u8> {
        md4_absorbed(self.progress.chunk_hasher)
    }

    /// The invariant of the type: it holds of every hasher between calls.
    #[verifier::type_invariant]
    pub closed spec fn wf(&self) -> bool {
        self.progress.settled(self.use_legacy_hashing)
    }

    /// What the invariant says of the state: all blocks but the last are
    /// closed, the last is open, and the two MD4 computations have taken in
    /// the bytes of the open block and the digests of the closed ones.
    pub proof fn lemma_state(&self)
        requires
            self.wf(),
        ensures
            self.blocks_finalized() + 1 == block_count(self@.len(), self.legacy()),
            self.bytes_in_block() <= CHUNK_SIZE,
            self@.len() == self.blocks_finalized() * CHUNK_SIZE + self.bytes_in_block(),
            self.open_block() == block(self@, self.blocks_finalized()),
            self.closed_digests() == block_digests(self@, self.blocks_finalized()),
    {
    }

    /// A hasher of the current scheme that has been fed nothing: both MD4
    /// computations have taken in nothing, and both counters are zero.
    pub fn new() -> (hasher: Self)
        ensures
            hasher@ == Seq::<u8>::empty(),
            !hasher.legacy(),
            hasher.bytes_in_block() == 0,
            hasher.blocks_finalized() == 0,
            hasher.open_block() == Seq::<u8>::empty(),
            hasher.closed_digests() == Seq::<u8>::empty(),
    {
        Self::with_legacy_hashing(false)
    }

    /// A hasher that has been fed nothing: of the legacy scheme if
    /// `use_legacy_hashing` is true, else of the current one. Both MD4
    /// computations have taken in nothing, and both counters are zero.
    pub fn with_legacy_hashing(use_legacy_hashing: bool) -> (hasher: Self)
        ensures
            hasher@ == Seq::<u8>::empty(),
            hasher.legacy() == use_legacy_hashing,
            hasher.bytes_in_block() == 0,
            hasher.blocks_finalized() == 0,
            hasher.open_block() == Seq::<u8>::empty(),
            hasher.closed_digests() == Seq::<u8>::empty(),
    {
        Ed2kHasher { use_legacy_hashing, progress: Progress::new() }
    }

    /// Feeds `input` to the hasher, after what it was fed before.
    pub fn update(&mut self, input: &[u8])
        ensures
            final(self)@ == old(self)@ + input@,
            final(self).legacy() == old(self).legacy(),
    {
        proof {
            use_type_invariant(&*self);
        }
        // The state is taken out while it is worked on: the hasher itself is
        // never left halfway.
        let mut progress = Progress::new();
        core::mem::swap(&mut progress, &mut self.progress);
        progress.update(self.use_legacy_hashing, input);
        self.progress = progress;
    }

    /// Puts the hasher back to where it was when it was made, in the same
    /// scheme.
    pub fn reset(&mut self)
        ensures
            final(self)@ == Seq::<u8>::empty(),
            final(self).legacy() == old(self).legacy(),
    {
        self.progress = Progress::new();
    }

    /// Writes the digest of the bytes fed so far to `out`.
    pub fn finalize_into(self, out: &mut [u8; 16])
        ensures
            final(out)@ == ed2k_digest(self@, self.legacy()),
    {
        proof {
            use_type_invariant(&self);
        }
        let mut progress = self.progress;
        progress.finalize_into_reset(self.use_legacy_hashing, out);
    }

    /// Writes the digest of the bytes fed so far to `out`, and starts over as
    /// `reset` does.
    pub fn finalize_into_reset(&mut self, out: &mut [u8; 16])
        ensures
            final(out)@ == ed2k_digest(old(self)@, old(self).legacy()),
            final(self)@ == Seq::<u8>::empty(),
            final(self).legacy() == old(self).legacy(),
    {
        proof {
            use_type_invariant(&*self);
        }
        let mut progress = Progress::new();
        core::mem::swap(&mut progress, &mut self.progress);
        progress.finalize_into_reset(self.use_legacy_hashing, out);
        self.progress = progress;
    }

    /// The digest of the bytes fed so far.
    pub fn finalize(self) -> (digest: [u8; 16])
        ensures
            digest@ == ed2k_digest(self@, self.legacy()),
    {
        let mut digest = [0u8; 16];
        self.finalize_into(&mut digest);
        digest
    }
}

impl Default for Ed2kHasher {
    fn default() -> (hasher: Self)
        ensures
            hasher@ == Seq::<u8>::empty(),
            !hasher.legacy(),
    {
        Ed2kHasher::new()
    }
}

impl Clone for Ed2kHasher {
    fn clone(&self) -> (copy: Self)
        ensures
            copy@ == self@,
            copy.legacy() == self.legacy(),
    {
        proof {
            use_type_invariant(self);
        }
        Ed2kHasher {
            use_legacy_hashing: self.use_legacy_hashing,
            progress: self.progress.duplicate(),
        }
    }
}

/// The bytes that a hasher holds once `pieces` have been fed to it one call
/// after the other, where it held `start` before.
pub open spec fn fed_in_pieces(start: Seq<u8>, pieces: Seq<Seq<u8>>) -> Seq<u8>
    decreases pieces.len(),
{
    if pieces.len() == 0 {
        start
    } else {
        fed_in_pieces(start + pieces.first(), pieces.drop_first())
    }
}

/// However a stream is cut into pieces for `update`, empty pieces included,
/// the hasher holds the same bytes as after one call with the whole stream, and
/// so gives the same digest.
pub proof fn lemma_pieces_make_no_difference(start: Seq<u8>, pieces: Seq<Seq<u8>>, legacy: bool)
    ensures
        fed_in_pieces(start, pieces) == start + pieces.flatten(),
        ed2k_digest(fed_in_pieces(start, pieces), legacy) == ed2k_digest(
            start + pieces.flatten(),
            legacy,
        ),
    decreases pieces.len(),
{
    if pieces.len() > 0 {
        lemma_pieces_make_no_difference(start + pieces.first(), pieces.drop_first(), legacy);
        assert((start + pieces.first()) + pieces.drop_first().flatten() =~= start
            + pieces.flatten());
    }
}

/// A hasher that was reset gives, for any input fed to it afterwards, the
/// digest that a new hasher of the same scheme gives for that input.
pub proof fn lemma_reset_is_as_new(reset: Ed2kHasher, fresh: Ed2kHasher, input: Seq<u8>)
    requires
        reset@ == Seq::<u8>::empty(),
        fresh@ == Seq::<u8>::empty(),
        reset.legacy() == fresh.legacy(),
    ensures
        ed2k_digest(reset@ + input, reset.legacy()) == ed2k_digest(
            fresh@ + input,
            fresh.legacy(),
        ),
        ed2k_digest(reset@ + input, reset.legacy()) == ed2k_digest(input, fresh.legacy()),
{
}

} // verus!
