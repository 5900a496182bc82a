//! Contracts for the bit collections of the `bit-set` and `bit-vec` crates.
//!
//! Nothing in this file is proved: every function here is a thin call into one
//! of the two crates, and its contract restates what that crate's source does.
//! The rest of the library is verified against these contracts.

use bit_set::BitSet;
use bit_vec::BitVec;
use vstd::prelude::*;

verus! {

#[verifier::external_type_specification]
#[verifier::external_body]
#[verifier::reject_recursive_types(B)]
pub struct ExBitSet<B>(BitSet<B>);

#[verifier::external_type_specification]
#[verifier::external_body]
#[verifier::reject_recursive_types(B)]
pub struct ExBitVec<B>(BitVec<B>);

/// The integers that a `BitSet` holds.
pub uninterp spec fn members(s: BitSet<u32>) -> Set<usize>;

/// The bits of a `BitVec`, first to last.
pub uninterp spec fn bits(v: BitVec<u32>) -> Seq<bool>;

/// `BitSet::new`: a set that holds nothing.
#[verifier::external_body]
pub(crate) fn set_new() -> (s: BitSet<u32>)
    ensures
        members(s) == Set::<usize>::empty(),
{
    BitSet::new()
}

/// `BitSet::contains`: whether `value` is in the set.
#[verifier::external_body]
pub(crate) fn set_contains(s: &BitSet<u32>, value: usize) -> (r: bool)
    ensures
        r == members(*s).contains(value),
{
    s.contains(value)
}

/// `BitSet::insert`: adds `value`, and tells whether it was absent before.
/// The crate computes `value + 1` bits of storage, so `usize::MAX` is left out.
#[verifier::external_body]
pub(crate) fn set_insert(s: &mut BitSet<u32>, value: usize) -> (r: bool)
    requires
        value < usize::MAX,
    ensures
        members(*final(s)) == members(*old(s)).insert(value),
        r == !members(*old(s)).contains(value),
{
    s.insert(value)
}

/// `BitSet::remove`: takes `value` out, and tells whether it was present.
#[verifier::external_body]
pub(crate) fn set_remove(s: &mut BitSet<u32>, value: usize) -> (r: bool)
    ensures
        members(*final(s)) == members(*old(s)).remove(value),
        r == members(*old(s)).contains(value),
{
    s.remove(value)
}

/// `BitSet::is_empty`: whether the set holds nothing.
#[verifier::external_body]
pub(crate) fn set_is_empty(s: &BitSet<u32>) -> (r: bool)
    ensures
        r == (members(*s) == Set::<usize>::empty()),
{
    s.is_empty()
}

/// `BitSet::clone`: a set with the same members.
#[verifier::external_body]
pub(crate) fn set_clone(s: &BitSet<u32>) -> (r: BitSet<u32>)
    ensures
        members(r) == members(*s),
{
    s.clone()
}

/// `BitSet::iter`, collected: the members, each once, smallest first.
#[verifier::external_body]
pub(crate) fn set_to_vec(s: &BitSet<u32>) -> (r: Vec<usize>)
    ensures
        forall|i: int, j: int| 0 <= i < j < r@.len() ==> r@[i] < r@[j],
        forall|v: usize| r@.contains(v) <==> members(*s).contains(v),
{
    s.iter().collect()
}

/// `BitSet::iter`, its first item: the smallest member, or `None` where the
/// set holds nothing.
#[verifier::external_body]
pub(crate) fn set_first(s: &BitSet<u32>) -> (r: Option<usize>)
    ensures
        match r {
            Some(x) => members(*s).contains(x) && forall|y: usize| members(*s).contains(y) ==> x <= y,
            None => members(*s) == Set::<usize>::empty(),
        },
{
    s.iter().next()
}

/// `BitSet::intersect_with`: keeps the members that `other` holds too.
#[verifier::external_body]
pub(crate) fn set_intersect_with(s: &mut BitSet<u32>, other: &BitSet<u32>)
    ensures
        members(*final(s)) == members(*old(s)).intersect(members(*other)),
{
    s.intersect_with(other)
}

/// `BitSet::from_bit_vec`: the set of the positions at which `v` holds a one.
#[verifier::external_body]
pub(crate) fn set_from_bit_vec(v: BitVec<u32>) -> (s: BitSet<u32>)
    ensures
        forall|i: usize| members(s).contains(i) <==> (i < bits(v).len() && bits(v)[i as int]),
{
    BitSet::from_bit_vec(v)
}

/// `BitVec::from_elem`: `nbits` bits, each equal to `bit`.
#[verifier::external_body]
pub(crate) fn vec_from_elem(nbits: usize, bit: bool) -> (v: BitVec<u32>)
    ensures
        bits(v).len() == nbits,
        forall|i: int| 0 <= i < nbits ==> bits(v)[i] == bit,
{
    BitVec::from_elem(nbits, bit)
}

/// `BitVec::get`: the bit at `i`, or `None` past the end.
#[verifier::external_body]
pub(crate) fn vec_get(v: &BitVec<u32>, i: usize) -> (r: Option<bool>)
    ensures
        r == (if i < bits(*v).len() { Some(bits(*v)[i as int]) } else { None }),
{
    v.get(i)
}

/// `BitVec::set`: overwrites the bit at `i`; the crate panics past the end.
#[verifier::external_body]
pub(crate) fn vec_set(v: &mut BitVec<u32>, i: usize, x: bool)
    requires
        i < bits(*old(v)).len(),
    ensures
        bits(*final(v)) == bits(*old(v)).update(i as int, x),
{
    v.set(i, x)
}

/// `BitVec::or`: bitwise union in place, and whether any bit changed; the
/// crate panics when the two lengths differ.
#[verifier::external_body]
pub(crate) fn vec_or(v: &mut BitVec<u32>, other: &BitVec<u32>) -> (changed: bool)
    requires
        bits(*old(v)).len() == bits(*other).len(),
    ensures
        bits(*final(v)).len() == bits(*old(v)).len(),
        forall|i: int| 0 <= i < bits(*old(v)).len() ==>
            bits(*final(v))[i] == (bits(*old(v))[i] || bits(*other)[i]),
        changed == (bits(*final(v)) != bits(*old(v))),
{
    v.or(other)
}

/// `BitVec::clone`: the same bits.
#[verifier::external_body]
pub(crate) fn vec_clone(v: &BitVec<u32>) -> (r: BitVec<u32>)
    ensures
        bits(r) == bits(*v),
{
    v.clone()
}

} // verus!
