//! The order on heap items, taken from the items' `Ord` implementation.
use vstd::prelude::*;
use vstd::laws_cmp::obeys_cmp;
use vstd::std_specs::cmp::PartialOrdIs;
use vstd::std_specs::cmp::OrdSpec;
use vstd::std_specs::cmp::PartialOrdSpec;
use vstd::std_specs::cmp::PartialEqSpec;
use core::cmp::Ordering;

verus! {

/// The items' `Ord` implementation behaves as a total order, as Rust's
/// `Ord` documentation requires of every implementation.
pub open spec fn lawful_order<T: Ord>() -> bool {
    obeys_cmp::<T>()
}

/// `a < b` in the items' order.
pub open spec fn item_lt<T: PartialOrd>(a: T, b: T) -> bool {
    a.is_lt(&b)
}

/// `a <= b` in the items' order.
pub open spec fn item_le<T: PartialOrd>(a: T, b: T) -> bool {
    a.is_le(&b)
}

pub proof fn lemma_le_refl<T: Ord>(a: T)
    requires
        lawful_order::<T>(),
    ensures
        item_le(a, a),
{
    reveal(vstd::laws_cmp::obeys_partial_cmp_spec_properties);
    reveal(vstd::laws_cmp::obeys_cmp_ord);
    assert(a.partial_cmp_spec(&a) == Some(a.cmp_spec(&a)));
}

pub proof fn lemma_lt_le<T: Ord>(a: T, b: T)
    requires
        item_lt(a, b),
    ensures
        item_le(a, b),
{
}

pub proof fn lemma_not_lt_le<T: Ord>(a: T, b: T)
    requires
        lawful_order::<T>(),
        !item_lt(a, b),
    ensures
        item_le(b, a),
{
    reveal(vstd::laws_cmp::obeys_partial_cmp_spec_properties);
    reveal(vstd::laws_cmp::obeys_cmp_ord);
    assert(a.partial_cmp_spec(&b) == Some(a.cmp_spec(&b)));
    assert(b.partial_cmp_spec(&a) == Some(b.cmp_spec(&a)));
}

pub proof fn lemma_le_trans<T: Ord>(a: T, b: T, c: T)
    requires
        lawful_order::<T>(),
        item_le(a, b),
        item_le(b, c),
    ensures
        item_le(a, c),
{
    reveal(vstd::laws_cmp::obeys_partial_cmp_spec_properties);
    reveal(vstd::laws_cmp::obeys_cmp_ord);
    reveal(vstd::laws_cmp::obeys_cmp_partial_ord);
    reveal(vstd::laws_eq::obeys_eq_spec_properties);
    assert(a.partial_cmp_spec(&c) == Some(a.cmp_spec(&c)));
    assert(c.partial_cmp_spec(&a) == Some(c.cmp_spec(&a)));
    assert(b.partial_cmp_spec(&a) == Some(b.cmp_spec(&a)));
    assert(c.partial_cmp_spec(&b) == Some(c.cmp_spec(&b)));
    if a.is_lt(&c) || a.partial_cmp_spec(&c) == Some(Ordering::Equal) {
    } else {
        // c < a would contradict a <= b <= c
        assert(c.is_lt(&a));
        if a.is_lt(&b) {
            assert(c.is_lt(&b));
        } else {
            assert(a.eq_spec(&b));
            assert(b.is_lt(&c) || b.eq_spec(&c));
            if b.is_lt(&c) {
                assert(b.is_lt(&a));
            } else {
                assert(a.eq_spec(&c));
            }
        }
    }
}

/// `a < b`, computed by the items' `Ord` implementation.
pub fn less_than<T: Ord>(a: &T, b: &T) -> (r: bool)
    requires
        lawful_order::<T>(),
    ensures
        r == item_lt(*a, *b),
{
    proof {
        reveal(vstd::laws_cmp::obeys_cmp_partial_ord);
    }
    *a < *b
}

/// `a <= b`, computed by the items' `Ord` implementation.
pub fn less_eq<T: Ord>(a: &T, b: &T) -> (r: bool)
    requires
        lawful_order::<T>(),
    ensures
        r == item_le(*a, *b),
{
    proof {
        reveal(vstd::laws_cmp::obeys_cmp_partial_ord);
    }
    *a <= *b
}

} // verus!
