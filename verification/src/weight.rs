use vstd::prelude::*;

verus! {

/// The selection weight of a candidate, as an exact rational number
/// `num / den`. A candidate picked `c` times before weighs `1 / (c + 1)`,
/// so unpicked candidates weigh exactly 1, the maximum, and the weight
/// shrinks as the pick count grows but never reaches zero.
pub struct Weight {
    pub num: usize,
    pub den: usize,
}

/// `w` is the weight that a pick count of `c` earns: `1 / (c + 1)`.
pub open spec fn is_weight_of(w: Weight, c: int) -> bool {
    w.num == 1 && w.den == c + 1
}

impl Weight {
    /// Rational order: `self < other` by cross multiplication.
    pub open spec fn spec_lt(self, other: Weight) -> bool {
        self.num * other.den < other.num * self.den
    }

    /// A weight is positive when both parts are.
    pub open spec fn is_positive(self) -> bool {
        self.num >= 1 && self.den >= 1
    }
}

/// The weight of a pick count is `1 / (c + 1)`: always positive, and
/// strictly decreasing as the count grows.
pub proof fn lemma_weight_positive_and_decreasing(w1: Weight, w2: Weight, c1: int, c2: int)
    requires
        0 <= c1 < c2,
        is_weight_of(w1, c1),
        is_weight_of(w2, c2),
    ensures
        w1.is_positive(),
        w2.is_positive(),
        w2.spec_lt(w1),
{
}

} // verus!
