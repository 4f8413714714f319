use vstd::prelude::*;
use core::cmp::Ordering;
use vstd::std_specs::cmp::{OrdSpec, PartialEqSpec, PartialOrdSpec};

verus! {

/// `a` is strictly below `b` in the order of `T`.
pub open spec fn lt<T: PartialOrd>(a: T, b: T) -> bool {
    a.partial_cmp_spec(&b) == Some(Ordering::Less)
}

/// Every clone of a value of `T` is that value.
pub open spec fn faithful_clone<T: Clone>() -> bool {
    forall|a: T, b: T| #[trigger] cloned(a, b) ==> a == b
}

/// What the operators `==`, `<` and `>` of `T` compute, once `T` is lawful.
pub open spec fn operators_agree<T: Clone + Ord>() -> bool {
    &&& T::obeys_eq_spec()
    &&& T::obeys_partial_cmp_spec()
    &&& forall|a: T, b: T| #[trigger] a.eq_spec(&b) <==> a == b
    &&& forall|a: T, b: T| #[trigger] a.partial_cmp_spec(&b) == Some(Ordering::Greater) <==> lt(b, a)
}

/// `T` compares by a strict total order that agrees with equality, and clones faithfully.
pub open spec fn lawful<T: Clone + Ord>() -> bool {
    &&& vstd::laws_cmp::obeys_cmp::<T>()
    &&& vstd::laws_eq::obeys_concrete_eq::<T>()
    &&& faithful_clone::<T>()
}

/// Under a lawful order the operators compute what `lt` and equality say.
pub proof fn lemma_operators<T: Clone + Ord>()
    requires
        lawful::<T>(),
    ensures
        operators_agree::<T>(),
{
    reveal(vstd::laws_eq::obeys_concrete_eq);
    reveal(vstd::laws_cmp::obeys_cmp_partial_ord);
    reveal(vstd::laws_cmp::obeys_partial_cmp_spec_properties);
}

/// No value lies below itself.
pub proof fn lemma_lt_irreflexive<T: Clone + Ord>(a: T)
    requires
        lawful::<T>(),
    ensures
        !lt(a, a),
{
    reveal(vstd::laws_eq::obeys_concrete_eq);
    reveal(vstd::laws_cmp::obeys_cmp_partial_ord);
    reveal(vstd::laws_cmp::obeys_partial_cmp_spec_properties);
}

/// Of two values, not each lies below the other.
pub proof fn lemma_lt_asymmetric<T: Clone + Ord>(a: T, b: T)
    requires
        lawful::<T>(),
    ensures
        !(lt(a, b) && lt(b, a)),
{
    reveal(vstd::laws_eq::obeys_concrete_eq);
    reveal(vstd::laws_cmp::obeys_cmp_partial_ord);
    reveal(vstd::laws_cmp::obeys_partial_cmp_spec_properties);
    if lt(a, b) && lt(b, a) {
        assert(lt(a, a));
    }
}

/// What lies below a value lies below all that this value lies below.
pub proof fn lemma_lt_transitive<T: Clone + Ord>(a: T, b: T, c: T)
    requires
        lawful::<T>(),
        lt(a, b),
        lt(b, c),
    ensures
        lt(a, c),
{
    reveal(vstd::laws_cmp::obeys_partial_cmp_spec_properties);
}

/// Of two values that differ, one lies below the other.
pub proof fn lemma_lt_total<T: Clone + Ord>(a: T, b: T)
    requires
        lawful::<T>(),
    ensures
        lt(a, b) || a == b || lt(b, a),
{
    reveal(vstd::laws_eq::obeys_concrete_eq);
    reveal(vstd::laws_cmp::obeys_cmp_partial_ord);
    reveal(vstd::laws_cmp::obeys_cmp_ord);
    reveal(vstd::laws_cmp::obeys_partial_cmp_spec_properties);
    assert(a.partial_cmp_spec(&b) == Some(a.cmp_spec(&b)));
}

} // verus!
