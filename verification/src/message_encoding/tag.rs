//! The 80-bit integrity tag: unkeyed BLAKE2s with ten bytes of output,
//! computed by the `blake2` crate.

use blake2::VarBlake2s;
use blake2::digest::{Update, VariableOutput};
use vstd::prelude::*;

verus! {

/// The ten-byte unkeyed BLAKE2s digest of `data`.
pub uninterp spec fn blake2s_80(data: Seq<u8>) -> Seq<u8>;

/// The tag of `data`: its digest. The digest is ten bytes long; this reads
/// one of any other length, which the hash does not give, as ten zero bytes,
/// so that a tag is ten bytes long whatever is known of the hash.
pub open spec fn tag_of(data: Seq<u8>) -> Seq<u8> {
    if blake2s_80(data).len() == 10 {
        blake2s_80(data)
    } else {
        Seq::new(10, |i: int| 0u8)
    }
}

/// `VarBlake2s` with an output size of ten bytes, fed `data` once and
/// finalised: the digest of `data`, which is ten bytes long.
#[verifier::external_body]
pub(crate) fn blake2s_tag(data: &[u8]) -> (r: Vec<u8>)
    ensures
        r@ == blake2s_80(data@),
        r@.len() == 10,
        r@ == tag_of(data@),
{
    let mut hasher = VarBlake2s::new(10).unwrap();
    hasher.update(data);
    hasher.finalize_boxed().into_vec()
}

} // verus!
