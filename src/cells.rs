//! Packed cell storage: the `bit_vec` crate's `BitVec`, seen by its bits.
use bit_vec::BitVec;
use vstd::prelude::*;

verus! {

#[verifier::external_type_specification]
#[verifier::external_body]
#[verifier::reject_recursive_types(B)]
pub struct ExBitVec<B>(BitVec<B>);

/// The bits that a `BitVec` holds, in index order.
pub uninterp spec fn bits_of(b: BitVec<u32>) -> Seq<bool>;

/// Relies on `BitVec::from_elem`: `n` bits, each equal to `bit`.
#[verifier::external_body]
pub(crate) fn filled(n: usize, bit: bool) -> (r: BitVec<u32>)
    ensures
        bits_of(r) == Seq::new(n as nat, |_i: int| bit),
{
    BitVec::from_elem(n, bit)
}

/// Relies on `BitVec::get`: the bit at `i`, or `None` past the end.
#[verifier::external_body]
pub(crate) fn bit_at(b: &BitVec<u32>, i: usize) -> (r: Option<bool>)
    ensures
        i < bits_of(*b).len() ==> r == Some(bits_of(*b)[i as int]),
        i >= bits_of(*b).len() ==> r is None,
{
    b.get(i)
}

/// Relies on `BitVec::set`: replaces the bit at `i`, which must be in range
/// (it panics otherwise).
#[verifier::external_body]
pub(crate) fn put_bit(b: &mut BitVec<u32>, i: usize, x: bool)
    requires
        i < bits_of(*old(b)).len(),
    ensures
        bits_of(*final(b)) == bits_of(*old(b)).update(i as int, x),
{
    b.set(i, x)
}

/// Relies on `BitVec::len`: the number of bits.
#[verifier::external_body]
pub(crate) fn bit_count(b: &BitVec<u32>) -> (r: usize)
    ensures
        r as nat == bits_of(*b).len(),
{
    b.len()
}

} // verus!
