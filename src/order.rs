//! The ordering that a heap's element type must obey, stated over the
//! specification of its `Ord` implementation.
use std::cmp::Ordering;
use vstd::prelude::*;
use vstd::std_specs::cmp::OrdSpec;

verus! {

/// `a` is ordered at or below `b`.
pub open spec fn le<T: Ord>(a: T, b: T) -> bool {
    a.cmp_spec(&b) != Ordering::Greater
}

/// `a` is ordered strictly above `b`.
pub open spec fn gt<T: Ord>(a: T, b: T) -> bool {
    a.cmp_spec(&b) == Ordering::Greater
}

/// `T::cmp` is a total order: it agrees with its specification, every
/// value compares equal to itself, comparing the other way round flips the
/// result, and "at or below" is transitive.
pub open spec fn is_total_order<T: Ord>() -> bool {
    &&& T::obeys_cmp_spec()
    &&& forall|a: T| #[trigger] a.cmp_spec(&a) == Ordering::Equal
    &&& forall|a: T, b: T|
        (#[trigger] a.cmp_spec(&b) == Ordering::Less) <==> (#[trigger] b.cmp_spec(&a)
            == Ordering::Greater)
    &&& forall|a: T, b: T, c: T| #[trigger] le(a, b) && #[trigger] le(b, c) ==> le(a, c)
}

pub proof fn lemma_le_refl<T: Ord>(a: T)
    requires
        is_total_order::<T>(),
    ensures
        le(a, a),
{
}

pub proof fn lemma_le_trans<T: Ord>(a: T, b: T, c: T)
    requires
        is_total_order::<T>(),
        le(a, b),
        le(b, c),
    ensures
        le(a, c),
{
}

/// Of two values, one is at or below the other; one strictly above the
/// other is not at or below it.
pub proof fn lemma_le_total<T: Ord>(a: T, b: T)
    requires
        is_total_order::<T>(),
    ensures
        le(a, b) || le(b, a),
        gt(a, b) ==> le(b, a),
        !gt(a, b) <==> le(a, b),
        (a.cmp_spec(&b) == Ordering::Less) ==> le(a, b),
        (a.cmp_spec(&b) != Ordering::Less) ==> le(b, a),
{
    assert(a.cmp_spec(&b) == Ordering::Less <==> b.cmp_spec(&a) == Ordering::Greater);
    assert(b.cmp_spec(&a) == Ordering::Less <==> a.cmp_spec(&b) == Ordering::Greater);
}

/// The unsigned 32-bit integers are totally ordered.
pub proof fn lemma_u32_total_order()
    ensures
        is_total_order::<u32>(),
{
}

} // verus!
