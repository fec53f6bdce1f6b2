//! The order that the sorting algorithms sort by
//!
//! The algorithms compare elements with `<` and `>`. What they achieve is
//! stated over the relations of this module, which read the comparison that
//! the element type specifies.

use core::cmp::Ordering;
use vstd::prelude::*;
use vstd::std_specs::cmp::PartialOrdSpec;

verus! {

/// The comparison operators of `E` compute what the type specifies for them.
pub open spec fn obeys_order<E: PartialOrd>() -> bool {
    E::obeys_partial_cmp_spec()
}

/// `a` comes strictly before `b`: what `a < b` computes.
pub open spec fn lt<E: PartialOrd>(a: E, b: E) -> bool {
    a.partial_cmp_spec(&b) == Some(Ordering::Less)
}

/// `a` comes strictly after `b`: what `a > b` computes.
pub open spec fn gt<E: PartialOrd>(a: E, b: E) -> bool {
    a.partial_cmp_spec(&b) == Some(Ordering::Greater)
}

/// `a` does not come after `b`: what `a <= b` computes.
pub open spec fn le<E: PartialOrd>(a: E, b: E) -> bool {
    a.partial_cmp_spec(&b) matches Some(Ordering::Less | Ordering::Equal)
}

/// No element comes strictly before itself.
pub open spec fn irreflexive<E: PartialOrd>() -> bool {
    &&& obeys_order::<E>()
    &&& forall|a: E| !#[trigger] lt(a, a)
}

/// The comparison of `E` is a total preorder: any two elements are
/// comparable, `le` is transitive, and `<` and `>` are the strict parts of
/// `le`. The integer types have such an order; the floating-point types do
/// not, since a NaN is comparable with nothing.
pub open spec fn total_order<E: PartialOrd>() -> bool {
    &&& obeys_order::<E>()
    &&& forall|a: E, b: E| #[trigger] le(a, b) || le(b, a)
    &&& forall|a: E, b: E, c: E| #[trigger] le(a, b) && #[trigger] le(b, c) ==> le(a, c)
    &&& forall|a: E, b: E| #[trigger] lt(a, b) <==> !le(b, a)
    &&& forall|a: E, b: E| #[trigger] gt(a, b) <==> !le(a, b)
}

/// A total order is irreflexive.
pub proof fn lemma_total_order_irreflexive<E: PartialOrd>()
    requires
        total_order::<E>(),
    ensures
        irreflexive::<E>(),
{
    assert forall|a: E| !#[trigger] lt(a, a) by {
        assert(le(a, a) || le(a, a));
    }
}

/// Every element of `s` is followed only by elements that do not come before it.
pub open spec fn ascending<E: PartialOrd>(s: Seq<E>) -> bool {
    forall|i: int, j: int| 0 <= i < j < s.len() ==> le(s[i], s[j])
}

/// No element of `s` comes after its successor.
pub open spec fn ascending_steps<E: PartialOrd>(s: Seq<E>) -> bool {
    forall|i: int| 0 <= i && i + 1 < s.len() ==> le(#[trigger] s[i], s[i + 1])
}

/// Under a total order a sequence that ascends from each element to the next
/// ascends between any two positions, and the other way round.
pub proof fn lemma_ascending_steps<E: PartialOrd>(s: Seq<E>)
    requires
        total_order::<E>(),
    ensures
        ascending_steps(s) <==> ascending(s),
{
    if ascending_steps(s) {
        assert forall|i: int, j: int| 0 <= i < j < s.len() implies le(s[i], s[j]) by {
            lemma_ascending_from(s, i, j);
        }
    }
    if ascending(s) {
        assert forall|i: int| 0 <= i && i + 1 < s.len() implies le(#[trigger] s[i], s[i + 1]) by {
            assert(0 <= i < i + 1 < s.len());
        }
    }
}

proof fn lemma_ascending_from<E: PartialOrd>(s: Seq<E>, i: int, j: int)
    requires
        total_order::<E>(),
        ascending_steps(s),
        0 <= i < j < s.len(),
    ensures
        le(s[i], s[j]),
    decreases j - i,
{
    if j == i + 1 {
        assert(le(s[i], s[i + 1]));
    } else {
        lemma_ascending_from(s, i, j - 1);
        assert(le(s[j - 1], s[j - 1 + 1]));
        assert(le(s[i], s[j - 1]) && le(s[j - 1], s[j]));
    }
}

} // verus!
