//! Trusted view of `bit_vec::BitVec`, the bitmap that records which
//! fragments of an in-progress sample have been received.
//!
//! The bitmap's contents are named by [`bit_vec_bits`]; each wrapper
//! states over that name what the crate's own documentation and source
//! promise of the call it makes.

use vstd::prelude::*;

verus! {

#[verifier::external_type_specification]
#[verifier::external_body]
#[verifier::reject_recursive_types(B)]
pub struct ExBitVec<B>(bit_vec::BitVec<B>);

/// The bits a `BitVec` holds, in index order.
pub uninterp spec fn bit_vec_bits(v: bit_vec::BitVec) -> Seq<bool>;

/// Relies on `bit_vec::BitVec::from_elem`: a vector of `len` bits, each
/// set to `bit`.
#[verifier::external_body]
pub(crate) fn bitmap_from_elem(len: usize, bit: bool) -> (r: bit_vec::BitVec)
    ensures
        bit_vec_bits(r) == Seq::new(len as nat, |i: int| bit),
{
    bit_vec::BitVec::from_elem(len, bit)
}

/// Relies on `bit_vec::BitVec::set`: writes bit `i`; panics when `i` is
/// out of bounds, so that case is required away.
#[verifier::external_body]
pub(crate) fn bitmap_set(v: &mut bit_vec::BitVec, i: usize, x: bool)
    requires
        i < bit_vec_bits(*old(v)).len(),
    ensures
        bit_vec_bits(*final(v)) == bit_vec_bits(*old(v)).update(i as int, x),
{
    v.set(i, x)
}

/// Relies on `bit_vec::BitVec::all`: true exactly when every bit is 1
/// (vacuously true of an empty vector).
#[verifier::external_body]
pub(crate) fn bitmap_all(v: &bit_vec::BitVec) -> (r: bool)
    ensures
        r == (forall|i: int| 0 <= i < bit_vec_bits(*v).len() ==> bit_vec_bits(*v)[i]),
{
    v.all()
}

} // verus!
