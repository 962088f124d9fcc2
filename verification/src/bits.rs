//! Fixed-width bit sets, used for next-state sets and accept sets.
//!
//! The representation is `bit_vec::BitVec`; its contents are modelled as a
//! `Seq<bool>` through the uninterpreted function [`bits_of`], and every
//! operation the automata need is a thin trusted wrapper whose contract
//! restates what the `bit_vec` source does.

use vstd::prelude::*;

use bit_vec::BitVec;

verus! {

#[verifier::external_type_specification]
#[verifier::external_body]
#[verifier::reject_recursive_types(B)]
pub struct ExBitVec<B>(BitVec<B>);

/// The bits a `bit_vec::BitVec` holds, in index order.
pub uninterp spec fn bits_of(v: BitVec) -> Seq<bool>;

/// `n` cleared bits.
pub open spec fn all_false(n: nat) -> Seq<bool> {
    Seq::new(n, |t: int| false)
}

/// Relies on bit_vec::BitVec::from_elem: a vector of `len` bits, all `bit`.
#[verifier::external_body]
pub(crate) fn bv_from_elem(len: usize, bit: bool) -> (r: BitVec)
    ensures
        bits_of(r) == Seq::new(len as nat, |i: int| bit),
{
    BitVec::from_elem(len, bit)
}

/// Relies on bit_vec::BitVec::get: `Some` exactly below the length; the
/// `unwrap` cannot panic there.
#[verifier::external_body]
pub(crate) fn bv_get(v: &BitVec, i: usize) -> (r: bool)
    requires
        i < bits_of(*v).len(),
    ensures
        r == bits_of(*v)[i as int],
{
    v.get(i).unwrap()
}

/// Relies on bit_vec::BitVec::set: stores one bit; panics only at or above
/// the length, which the precondition rules out.
#[verifier::external_body]
pub(crate) fn bv_set(v: &mut BitVec, i: usize, x: bool)
    requires
        i < bits_of(*old(v)).len(),
    ensures
        bits_of(*final(v)) == bits_of(*old(v)).update(i as int, x),
{
    v.set(i, x)
}

/// Relies on bit_vec::BitVec::or: pointwise union into `v`; panics only on
/// unequal lengths, which the precondition rules out.
#[verifier::external_body]
pub(crate) fn bv_or(v: &mut BitVec, other: &BitVec)
    requires
        bits_of(*old(v)).len() == bits_of(*other).len(),
    ensures
        bits_of(*final(v)) == Seq::new(
            bits_of(*old(v)).len(),
            |i: int| bits_of(*old(v))[i] || bits_of(*other)[i],
        ),
{
    v.or(other);
}

/// Relies on bit_vec::BitVec::and: pointwise intersection into `v`; panics
/// only on unequal lengths, which the precondition rules out.
#[verifier::external_body]
pub(crate) fn bv_and(v: &mut BitVec, other: &BitVec)
    requires
        bits_of(*old(v)).len() == bits_of(*other).len(),
    ensures
        bits_of(*final(v)) == Seq::new(
            bits_of(*old(v)).len(),
            |i: int| bits_of(*old(v))[i] && bits_of(*other)[i],
        ),
{
    v.and(other);
}

/// Relies on bit_vec::BitVec::any: whether any bit is set.
#[verifier::external_body]
pub(crate) fn bv_any(v: &BitVec) -> (r: bool)
    ensures
        r == (exists|i: int| 0 <= i < bits_of(*v).len() && bits_of(*v)[i]),
{
    v.any()
}

} // verus!
