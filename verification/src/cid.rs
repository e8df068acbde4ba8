//! Content identifiers: opaque, comparable addresses handed out by the
//! block store.
//!
//! A [`Cid`] wraps the binary form of the identifier. This layer never
//! computes hashes itself; [`compute_cid`] asks the outside multihash
//! machinery for the digest of a block of bytes, and everything else treats
//! the result as an opaque byte string.

use vstd::prelude::*;

verus! {

/// The binary content identifier of a stored block.
#[derive(Debug)]
pub struct Cid {
    /// The identifier's binary form.
    pub bytes: Vec<u8>,
}

impl Clone for Cid {
    /// The clone holds the same identifier.
    fn clone(&self) -> (r: Self)
        ensures
            r@ == self@,
    {
        let bytes = self.bytes.clone();
        proof {
            assert(bytes@ =~= self.bytes@);
        }
        Cid { bytes }
    }
}

impl View for Cid {
    type V = Seq<u8>;

    open spec fn view(&self) -> Seq<u8> {
        self.bytes@
    }
}

/// The content identifier that the store derives for a block of bytes.
/// It depends on the block's bytes alone.
pub uninterp spec fn cid_digest(block: Seq<u8>) -> Seq<u8>;

/// Relies on `multihash::Code::Sha2_256::digest` and `libipld::Cid::new_v1`:
/// the identifier of a block is a pure digest of its bytes, so equal blocks
/// receive equal identifiers.
#[verifier::external_body]
pub fn compute_cid(block: &Vec<u8>) -> (r: Cid)
    ensures
        r@ == cid_digest(block@),
{
    let hash = libipld::multihash::MultihashDigest::digest(
        &libipld::multihash::Code::Sha2_256,
        block.as_slice(),
    );
    let cid = libipld::Cid::new_v1(0x55, hash);
    Cid { bytes: cid.to_bytes() }
}

impl PartialEq for Cid {
    /// Two identifiers are equal when their bytes are.
    fn eq(&self, other: &Cid) -> (r: bool) {
        self.equals(other)
    }
}

impl vstd::std_specs::cmp::PartialEqSpecImpl for Cid {
    open spec fn obeys_eq_spec() -> bool {
        true
    }

    open spec fn eq_spec(&self, other: &Cid) -> bool {
        self@ == other@
    }
}

impl Default for Cid {
    /// The empty identifier, usable as a placeholder address.
    fn default() -> (r: Self)
        ensures
            r@ == Seq::<u8>::empty(),
    {
        Cid { bytes: Vec::new() }
    }
}

impl Cid {
    /// Whether two identifiers are byte-for-byte equal.
    pub fn equals(&self, other: &Cid) -> (r: bool)
        ensures
            r == (self@ == other@),
    {
        crate::order::bytes_eq(self.bytes.as_slice(), other.bytes.as_slice())
    }
}

} // verus!
