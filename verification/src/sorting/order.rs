use vstd::prelude::*;
use vstd::std_specs::cmp::{OrdSpec, PartialEqSpec, PartialOrdSpec};
use vstd::laws_cmp::obeys_cmp;
use vstd::laws_cmp::obeys_cmp_ord;
use vstd::laws_cmp::obeys_cmp_partial_ord;
use vstd::laws_cmp::obeys_partial_cmp_spec_properties;
use vstd::laws_eq::obeys_eq_spec_properties;
use core::cmp::Ordering;

verus! {

/// The comparison operators of `T` follow its specification, and that
/// specification is a total preorder: any two values are comparable, `<` is
/// transitive and the reverse of `>`, and comparing equal is an equivalence.
pub open spec fn total_order<T: Ord>() -> bool {
    obeys_cmp::<T>()
}

/// `a <= b` in the order of `T`.
#[verifier::inline]
pub open spec fn le<T: Ord>(a: T, b: T) -> bool {
    a.partial_cmp_spec(&b) == Some(Ordering::Less) || a.partial_cmp_spec(&b) == Some(
        Ordering::Equal,
    )
}

/// `a < b` in the order of `T`.
#[verifier::inline]
pub open spec fn lt<T: Ord>(a: T, b: T) -> bool {
    a.partial_cmp_spec(&b) == Some(Ordering::Less)
}

/// `a > b` in the order of `T`.
#[verifier::inline]
pub open spec fn gt<T: Ord>(a: T, b: T) -> bool {
    a.partial_cmp_spec(&b) == Some(Ordering::Greater)
}

/// `a >= b` in the order of `T`.
#[verifier::inline]
pub open spec fn ge<T: Ord>(a: T, b: T) -> bool {
    a.partial_cmp_spec(&b) == Some(Ordering::Greater) || a.partial_cmp_spec(&b) == Some(
        Ordering::Equal,
    )
}

/// `a` and `b` compare equal; they need not be the same value.
#[verifier::inline]
pub open spec fn equiv<T: Ord>(a: T, b: T) -> bool {
    a.partial_cmp_spec(&b) == Some(Ordering::Equal)
}

/// Values of `T` that compare equal are the same value.
pub open spec fn antisymmetric<T: Ord>() -> bool {
    forall|a: T, b: T| #![trigger a.partial_cmp_spec(&b)] equiv(a, b) ==> a == b
}

/// The laws of a total preorder, in the form the sorting proofs use them.
pub proof fn lemma_total_order<T: Ord>()
    requires
        total_order::<T>(),
    ensures
        T::obeys_partial_cmp_spec(),
        forall|a: T| equiv(a, a),
        forall|a: T, b: T| #![trigger a.partial_cmp_spec(&b)] lt(a, b) || equiv(a, b) || lt(b, a),
        forall|a: T, b: T| #![trigger a.partial_cmp_spec(&b)] le(a, b) <==> !lt(b, a),
        forall|a: T, b: T| #![trigger a.partial_cmp_spec(&b)] equiv(a, b) <==> equiv(b, a),
        forall|a: T, b: T| #![trigger a.partial_cmp_spec(&b)] gt(a, b) <==> lt(b, a),
        forall|a: T, b: T| #![trigger a.partial_cmp_spec(&b)] ge(a, b) <==> le(b, a),
        forall|a: T, b: T, c: T|
            #![trigger a.partial_cmp_spec(&b), b.partial_cmp_spec(&c)]
            le(a, b) && le(b, c) ==> le(a, c),
        forall|a: T, b: T, c: T|
            #![trigger a.partial_cmp_spec(&b), b.partial_cmp_spec(&c)]
            le(a, b) && lt(b, c) ==> lt(a, c),
        forall|a: T, b: T, c: T|
            #![trigger a.partial_cmp_spec(&b), b.partial_cmp_spec(&c)]
            lt(a, b) && le(b, c) ==> lt(a, c),
{
    reveal(obeys_cmp_ord);
    reveal(obeys_cmp_partial_ord);
    reveal(obeys_partial_cmp_spec_properties);
    reveal(obeys_eq_spec_properties);
    assert forall|a: T, b: T| #![trigger a.partial_cmp_spec(&b)] lt(a, b) || equiv(a, b) || lt(b, a) by {
        let o = a.cmp_spec(&b);
        assert(a.partial_cmp_spec(&b) == Some(o));
        assert(b.partial_cmp_spec(&a) == Some(b.cmp_spec(&a)));
    }
    assert forall|a: T| equiv(a, a) by {
        assert(lt(a, a) || equiv(a, a) || lt(a, a));
    }
    assert forall|a: T, b: T| #![trigger a.partial_cmp_spec(&b)] equiv(a, b) <==> equiv(b, a) by {
        assert(a.eq_spec(&b) <==> b.eq_spec(&a));
    }
    assert forall|a: T, b: T| #![trigger a.partial_cmp_spec(&b)] le(a, b) <==> !lt(b, a) by {
        assert(lt(a, b) || equiv(a, b) || lt(b, a));
        assert(equiv(a, b) <==> equiv(b, a));
    }
    assert forall|a: T, b: T, c: T|
        #![trigger a.partial_cmp_spec(&b), b.partial_cmp_spec(&c)]
        le(a, b) && lt(b, c) implies lt(a, c) by {
        lemma_mixed(a, b, c);
    }
    assert forall|a: T, b: T, c: T|
        #![trigger a.partial_cmp_spec(&b), b.partial_cmp_spec(&c)]
        lt(a, b) && le(b, c) implies lt(a, c) by {
        lemma_mixed(a, b, c);
    }
    assert forall|a: T, b: T, c: T|
        #![trigger a.partial_cmp_spec(&b), b.partial_cmp_spec(&c)]
        le(a, b) && le(b, c) implies le(a, c) by {
        lemma_mixed(a, b, c);
        if equiv(a, b) && equiv(b, c) {
            assert(a.eq_spec(&b) && b.eq_spec(&c));
            assert(a.eq_spec(&c));
        }
    }
}

proof fn lemma_mixed<T: Ord>(a: T, b: T, c: T)
    requires
        total_order::<T>(),
    ensures
        lt(a, b) && lt(b, c) ==> lt(a, c),
        equiv(a, b) && lt(b, c) ==> lt(a, c),
        lt(a, b) && equiv(b, c) ==> lt(a, c),
{
    reveal(obeys_cmp_ord);
    reveal(obeys_cmp_partial_ord);
    reveal(obeys_partial_cmp_spec_properties);
    reveal(obeys_eq_spec_properties);
    assert(a.partial_cmp_spec(&c) == Some(a.cmp_spec(&c)));
    assert(c.partial_cmp_spec(&a) == Some(c.cmp_spec(&a)));
    assert(a.partial_cmp_spec(&b) == Some(a.cmp_spec(&b)));
    assert(b.partial_cmp_spec(&a) == Some(b.cmp_spec(&a)));
    assert(b.partial_cmp_spec(&c) == Some(b.cmp_spec(&c)));
    assert(c.partial_cmp_spec(&b) == Some(c.cmp_spec(&b)));
    if equiv(a, b) && lt(b, c) {
        if equiv(a, c) {
            // then b ~ a ~ c, against b < c
            assert(b.eq_spec(&a) && a.eq_spec(&c));
            assert(b.eq_spec(&c));
        }
        if lt(c, a) {
            // then b < c < a, against a ~ b
            assert(lt(b, a));
        }
    }
    if lt(a, b) && equiv(b, c) {
        if equiv(a, c) {
            assert(a.eq_spec(&c) && c.eq_spec(&b));
            assert(a.eq_spec(&b));
        }
        if lt(c, a) {
            assert(lt(c, b));
        }
    }
}

} // verus!
