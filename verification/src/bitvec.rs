//! The bit vectors of the `bit_vec` crate, as the breadth-first search
//! uses them for its frontiers.

use bit_vec::BitVec;
use vstd::prelude::*;

verus! {

#[verifier::external_type_specification]
#[verifier::external_body]
#[verifier::reject_recursive_types(B)]
pub struct ExBitVec<B>(BitVec<B>);

/// The bits a `BitVec` holds, in order.
pub uninterp spec fn bitvec_bits(b: BitVec) -> Seq<bool>;

/// `BitVec::from_elem`: `nbits` bits, each equal to `bit`.
#[verifier::external_body]
pub(crate) fn bv_from_elem(nbits: usize, bit: bool) -> (b: BitVec)
    ensures
        bitvec_bits(b) == Seq::new(nbits as nat, |i: int| bit),
{
    BitVec::from_elem(nbits, bit)
}

/// `BitVec::len`: the number of bits.
#[verifier::external_body]
pub(crate) fn bv_len(b: &BitVec) -> (n: usize)
    ensures
        n == bitvec_bits(*b).len(),
{
    b.len()
}

/// `BitVec::get`: the `i`-th bit, or `None` past the end.
#[verifier::external_body]
pub(crate) fn bv_get(b: &BitVec, i: usize) -> (r: Option<bool>)
    ensures
        i < bitvec_bits(*b).len() ==> r == Some(bitvec_bits(*b)[i as int]),
        i >= bitvec_bits(*b).len() ==> r is None,
{
    b.get(i)
}

/// Indexing a `BitVec`: the `i`-th bit (the crate panics past the end).
#[verifier::external_body]
pub(crate) fn bv_index(b: &BitVec, i: usize) -> (r: bool)
    requires
        i < bitvec_bits(*b).len(),
    ensures
        r == bitvec_bits(*b)[i as int],
{
    b[i]
}

/// `BitVec::set`: sets the `i`-th bit to `x` (the crate panics past the
/// end).
#[verifier::external_body]
pub(crate) fn bv_set(b: &mut BitVec, i: usize, x: bool)
    requires
        i < bitvec_bits(*old(b)).len(),
    ensures
        bitvec_bits(*final(b)) == bitvec_bits(*old(b)).update(i as int, x),
{
    b.set(i, x)
}

} // verus!
