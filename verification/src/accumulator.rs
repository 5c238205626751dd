//! The MD4 computation that the hasher builds on, as far as the proofs need it.

use md4::{Digest, Md4};
use vstd::prelude::*;

verus! {

/// A running MD4 computation over the bytes written into it.
///
/// The state is that of `md4::Md4`; it is not looked into here. Everything
/// said about it is said through [`md4_absorbed`] and [`md4_digest`], and
/// rests on the MD4 implementation behind the methods below.
#[verifier::external_body]
pub struct Md4Accumulator {
    inner: Md4,
}

/// The bytes written into `acc`, in order, since it was made or last gave a
/// digest.
pub uninterp spec fn md4_absorbed(acc: Md4Accumulator) -> Seq<u8>;

/// The MD4 digest of `data`: the 16 bytes that `md4::Md4` gives for a
/// computation that has taken in exactly `data`.
pub uninterp spec fn md4_digest(data: Seq<u8>) -> Seq<u8>;

impl Md4Accumulator {
    /// Calls `Digest::new` of `Md4`: a computation that has taken in nothing
    /// yet.
    #[verifier::external_body]
    pub(crate) fn new() -> (acc: Self)
        ensures
            md4_absorbed(acc) == Seq::<u8>::empty(),
    {
        Md4Accumulator { inner: Md4::new() }
    }

    /// Calls `Clone::clone` of `Md4`: the copy has taken in the same bytes.
    #[verifier::external_body]
    pub(crate) fn duplicate(&self) -> (copy: Self)
        ensures
            md4_absorbed(copy) == md4_absorbed(*self),
    {
        Md4Accumulator { inner: self.inner.clone() }
    }

    /// Calls `Digest::update` of `Md4`: `data` is appended to what the
    /// computation has taken in.
    #[verifier::external_body]
    pub(crate) fn absorb(&mut self, data: &[u8])
        ensures
            md4_absorbed(*final(self)) == md4_absorbed(*old(self)) + data@,
    {
        Digest::update(&mut self.inner, data);
    }

    /// Calls `Digest::finalize_reset` of `Md4`: the result is the MD4 digest
    /// of what was taken in, and the computation starts over with nothing.
    #[verifier::external_body]
    pub(crate) fn finalize_reset(&mut self) -> (out: [u8; 16])
        ensures
            out@ == md4_digest(md4_absorbed(*old(self))),
            md4_absorbed(*final(self)) == Seq::<u8>::empty(),
    {
        self.inner.finalize_reset().into()
    }
}

} // verus!
