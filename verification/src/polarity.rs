//! Variance tags threaded through every recursive descent.
//!
//! `Pos` marks a producer position (a lower bound), `Neg` an acceptor
//! position (an upper bound). Negation flips a polarity; composition with
//! `mul` models how variance composes through nested structural positions.

use vstd::prelude::*;

verus! {

#[derive(Copy, Clone, Debug, Eq, PartialEq, Hash, Structural)]
pub enum Polarity {
    Neg,
    Pos,
}

impl Polarity {
    /// Negation: `Pos` and `Neg` exchange places.
    pub fn neg(self) -> (r: Self)
        ensures
            r == self.negate(),
    {
        match self {
            Polarity::Neg => Polarity::Pos,
            Polarity::Pos => Polarity::Neg,
        }
    }

    /// Composition: identity when `self` is `Pos`, negation when `Neg`.
    pub fn mul(self, other: Self) -> (r: Self)
        ensures
            r == self.compose(other),
    {
        match self {
            Polarity::Neg => other.neg(),
            Polarity::Pos => other,
        }
    }

    /// Orders two operands in producer/acceptor order: `(a, b)` under `Pos`,
    /// `(b, a)` under `Neg`.
    pub fn flip<T>(self, a: T, b: T) -> (r: (T, T))
        ensures
            self == Polarity::Pos ==> r == (a, b),
            self == Polarity::Neg ==> r == (b, a),
    {
        match self {
            Polarity::Pos => (a, b),
            Polarity::Neg => (b, a),
        }
    }

    pub open spec fn negate(self) -> Self {
        match self {
            Polarity::Neg => Polarity::Pos,
            Polarity::Pos => Polarity::Neg,
        }
    }

    pub open spec fn compose(self, other: Self) -> Self {
        match self {
            Polarity::Neg => other.negate(),
            Polarity::Pos => other,
        }
    }
}

/// Negation is an involution: flipping a polarity twice gives it back.
pub proof fn lemma_negate_involutive(p: Polarity)
    ensures
        p.negate().negate() == p,
{
}

/// Composition is associative.
pub proof fn lemma_compose_associative(a: Polarity, b: Polarity, c: Polarity)
    ensures
        a.compose(b).compose(c) == a.compose(b.compose(c)),
{
}

/// `Pos` is a two-sided identity for composition.
pub proof fn lemma_compose_identity(p: Polarity)
    ensures
        Polarity::Pos.compose(p) == p,
        p.compose(Polarity::Pos) == p,
{
}

} // verus!
