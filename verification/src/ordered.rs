use vstd::prelude::*;

use crate::order::Compared;

verus! {

/// A type whose values are totally ordered through their views, as a `BTreeSet` orders its keys.
pub trait Ordered: Sized + View {
    /// The order on views.
    spec fn order(a: Self::V, b: Self::V) -> Compared;

    proof fn lemma_order_equal(a: Self::V, b: Self::V)
        ensures
            (Self::order(a, b) == Compared::Equal) == (a == b),
    ;

    proof fn lemma_order_flip(a: Self::V, b: Self::V)
        ensures
            Self::order(a, b) == Self::order(b, a).flip(),
    ;

    proof fn lemma_order_trans(a: Self::V, b: Self::V, c: Self::V)
        requires
            Self::order(a, b) == Compared::Less,
            Self::order(b, c) == Compared::Less,
        ensures
            Self::order(a, c) == Compared::Less,
    ;

    /// Compares two values.
    fn compare(&self, other: &Self) -> (r: Compared)
        ensures
            r == Self::order(self@, other@),
    ;

    /// A copy with the same view.
    fn duplicate(&self) -> (r: Self)
        ensures
            r@ == self@,
    ;
}

} // verus!
