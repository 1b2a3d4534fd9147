//! Biunification: decides whether a producer state's value is admissible
//! wherever an acceptor state's value is expected, merging states and
//! propagating variable constraints as it goes.
//!
//! Termination on cyclic automata is guaranteed by the memo set of already
//! checked pairs: every recursive step consumes one unseen pair out of the
//! finitely many pairs of automaton states.

use vstd::prelude::*;
use vstd::set_lib::{lemma_int_range, lemma_len_subset, set_int_range};
use crate::auto::{Automaton, StateId, TermView};
use crate::memo::{pair_set_insert, pair_set_new, PairSet};
use crate::polarity::Polarity;

verus! {

/// All pairs of state indices below `n`.
pub open spec fn state_pairs(n: int) -> Set<(StateId, StateId)> {
    Set::new(|p: (StateId, StateId)| (p.0 as int) < n && (p.1 as int) < n)
}

/// There are finitely many pairs of automaton states: at most `n * n`.
pub proof fn lemma_state_pairs_finite(n: int)
    requires
        0 <= n <= usize::MAX,
    ensures
        state_pairs(n).finite(),
        state_pairs(n).len() <= n * n,
{
    let rev = |i: int| (((i / n) as StateId), ((i % n) as StateId));
    let r = set_int_range(0, n * n);
    lemma_int_range(0, n * n);
    let mapped = r.map(rev);
    assert forall|p: (StateId, StateId)| state_pairs(n).contains(p) implies mapped.contains(
        p,
    ) by {
        let i = (p.0 as int) * n + (p.1 as int);
        assert(0 <= i < n * n && i / n == p.0 as int && i % n == p.1 as int) by (nonlinear_arith)
            requires
                0 <= (p.0 as int) < n,
                0 <= (p.1 as int) < n,
                i == (p.0 as int) * n + (p.1 as int),
        ;
        assert(r.contains(i));
        assert(rev(i) == p);
    }
    r.lemma_map_finite(rev);
    vstd::set_lib::lemma_map_size_bound(r, mapped, rev);
    lemma_len_subset(state_pairs(n), mapped);
}

/// The cross product of two collections of states.
fn product(xs: &Vec<StateId>, ys: &Vec<StateId>) -> (r: Vec<(StateId, StateId)>)
    ensures
        r@.len() == xs@.len() * ys@.len(),
        forall|m: int|
            0 <= m < r@.len() ==> xs@.contains(#[trigger] r@[m].0) && ys@.contains(r@[m].1),
        forall|x: StateId, y: StateId|
            xs@.contains(x) && ys@.contains(y) ==> r@.contains((x, y)),
{
    let mut r: Vec<(StateId, StateId)> = Vec::new();
    let mut u: usize = 0;
    while u < xs.len()
        invariant
            u <= xs@.len(),
            r@.len() == u * ys@.len(),
            forall|m: int|
                0 <= m < r@.len() ==> xs@.contains(#[trigger] r@[m].0) && ys@.contains(r@[m].1),
            forall|i: int, j: int|
                0 <= i < u && 0 <= j < ys@.len() ==> r@.contains((xs@[i], ys@[j])),
        decreases xs@.len() - u,
    {
        let mut v: usize = 0;
        while v < ys.len()
            invariant
                u < xs@.len(),
                v <= ys@.len(),
                r@.len() == u * ys@.len() + v,
                forall|m: int|
                    0 <= m < r@.len() ==> xs@.contains(#[trigger] r@[m].0) && ys@.contains(
                        r@[m].1,
                    ),
                forall|i: int, j: int|
                    0 <= i < u && 0 <= j < ys@.len() ==> r@.contains((xs@[i], ys@[j])),
                forall|j: int| 0 <= j < v ==> r@.contains((xs@[u as int], ys@[j])),
            decreases ys@.len() - v,
        {
            let ghost prev = r@;
            r.push((xs[u], ys[v]));
            proof {
                assert(r@ == prev.push((xs@[u as int], ys@[v as int])));
                assert(xs@.contains(xs@[u as int]));
                assert(ys@.contains(ys@[v as int]));
                assert forall|i: int, j: int|
                    0 <= i < u && 0 <= j < ys@.len() implies r@.contains((xs@[i], ys@[j])) by {
                    assert(prev.contains((xs@[i], ys@[j])));
                    let w = choose|w: int| 0 <= w < prev.len() && prev[w] == (xs@[i], ys@[j]);
                    assert(r@[w] == (xs@[i], ys@[j]));
                }
                assert forall|j: int| 0 <= j <= v implies r@.contains((xs@[u as int], ys@[j])) by {
                    if j < v {
                        assert(prev.contains((xs@[u as int], ys@[j])));
                        let w = choose|w: int|
                            0 <= w < prev.len() && prev[w] == (xs@[u as int], ys@[j]);
                        assert(r@[w] == (xs@[u as int], ys@[j]));
                    } else {
                        assert(r@[prev.len() as int] == (xs@[u as int], ys@[j]));
                    }
                }
            }
            v += 1;
        }
        proof {
            assert(r@.len() == (u + 1) * ys@.len()) by (nonlinear_arith)
                requires
                    r@.len() == u * ys@.len() + ys@.len(),
            ;
        }
        u += 1;
    }
    assert forall|x: StateId, y: StateId| xs@.contains(x) && ys@.contains(y) implies r@.contains(
        (x, y),
    ) by {
        let i = choose|i: int| 0 <= i < xs@.len() && xs@[i] == x;
        let j = choose|j: int| 0 <= j < ys@.len() && ys@[j] == y;
        assert(r@.contains((xs@[i], ys@[j])));
    }
    r
}

impl Automaton {
    /// Whether every producer constructor term is structurally admissible
    /// against every acceptor constructor term, at the tag level.
    pub open spec fn admissible(self, qp: int, qn: int) -> bool {
        forall|i: int, j: int|
            0 <= i < self.cons(qp).len() && 0 <= j < self.cons(qn).len() ==> self.order_set()
                .contains((#[trigger] self.cons(qp)[i].tag, #[trigger] self.cons(qn)[j].tag))
    }

    /// Every term attached to `s` is a bare tag without fields.
    pub open spec fn all_fieldless(self, s: int) -> bool {
        forall|i: int| 0 <= i < self.cons(s).len() ==> #[trigger] self.cons(s)[i].fields.len() == 0
    }

    /// Whether the index tuple picks a shared-tag pair of terms of `qp`/`qn`,
    /// a shared-label pair of their fields, and one state out of each side of
    /// that field pair.
    pub open spec fn field_pair_at(
        self,
        qp: int,
        qn: int,
        i: int,
        j: int,
        a: int,
        b: int,
        u: int,
        v: int,
    ) -> bool {
        &&& 0 <= i < self.cons(qp).len()
        &&& 0 <= j < self.cons(qn).len()
        &&& self.cons(qp)[i].tag == self.cons(qn)[j].tag
        &&& 0 <= a < self.cons(qp)[i].fields.len()
        &&& 0 <= b < self.cons(qn)[j].fields.len()
        &&& self.cons(qp)[i].fields[a].label == self.cons(qn)[j].fields[b].label
        &&& 0 <= u < self.cons(qp)[i].fields[a].states.len()
        &&& 0 <= v < self.cons(qn)[j].fields[b].states.len()
    }

    /// The producer/acceptor ordering of one matched field-state pair: the
    /// producer side's state comes first under a covariant label and last
    /// under a contravariant one.
    pub open spec fn oriented_at(
        self,
        qp: int,
        qn: int,
        i: int,
        j: int,
        a: int,
        b: int,
        u: int,
        v: int,
    ) -> (StateId, StateId) {
        let x = self.cons(qp)[i].fields[a].states[u];
        let y = self.cons(qn)[j].fields[b].states[v];
        if self.cons(qp)[i].fields[a].label.pol == Polarity::Pos {
            (x, y)
        } else {
            (y, x)
        }
    }

    /// Reports whether `admissible(qp, qn)` holds: the full cross product of
    /// the two states' constructor terms passes the structural tag order.
    fn check_admissible(&self, qp: StateId, qn: StateId) -> (r: bool)
        requires
            self.valid(qp as int),
            self.valid(qn as int),
        ensures
            r == self.admissible(qp as int, qn as int),
    {
        let ni = self.states[qp].cons.len();
        let mut i: usize = 0;
        while i < ni
            invariant
                self.valid(qp as int),
                self.valid(qn as int),
                ni == self.cons(qp as int).len(),
                i <= ni,
                forall|i2: int, j2: int|
                    0 <= i2 < i && 0 <= j2 < self.cons(qn as int).len() ==> self.order_set()
                        .contains(
                        (
                            #[trigger] self.cons(qp as int)[i2].tag,
                            #[trigger] self.cons(qn as int)[j2].tag,
                        ),
                    ),
            decreases ni - i,
        {
            let nj = self.states[qn].cons.len();
            let mut j: usize = 0;
            while j < nj
                invariant
                    self.valid(qp as int),
                    self.valid(qn as int),
                    ni == self.cons(qp as int).len(),
                    i < ni,
                    nj == self.cons(qn as int).len(),
                    j <= nj,
                    forall|i2: int, j2: int|
                        0 <= i2 < i && 0 <= j2 < self.cons(qn as int).len() ==> self.order_set()
                            .contains(
                            (
                                #[trigger] self.cons(qp as int)[i2].tag,
                                #[trigger] self.cons(qn as int)[j2].tag,
                            ),
                        ),
                    forall|j2: int|
                        0 <= j2 < j ==> self.order_set().contains(
                            (
                                self.cons(qp as int)[i as int].tag,
                                #[trigger] self.cons(qn as int)[j2].tag,
                            ),
                        ),
                decreases nj - j,
            {
                if !self.tag_le(self.states[qp].cons[i].tag, self.states[qn].cons[j].tag) {
                    proof {
                        assert(!self.order_set().contains(
                            (self.cons(qp as int)[i as int].tag, self.cons(qn as int)[j as int].tag),
                        ));
                    }
                    return false;
                }
                j += 1;
            }
            i += 1;
        }
        true
    }

    /// Pairs up the constructor terms of `qp` and `qn` that share a tag,
    /// pairs their same-labelled fields, and orients every field-state pair
    /// by the label's variance, producer side first under a covariant label.
    fn oriented_field_pairs(&self, qp: StateId, qn: StateId) -> (r: Vec<(StateId, StateId)>)
        requires
            self.wf(),
            self.valid(qp as int),
            self.valid(qn as int),
            self.pol(qp as int) == Polarity::Pos,
            self.pol(qn as int) == Polarity::Neg,
        ensures
            forall|m: int|
                0 <= m < r@.len() ==> self.valid(#[trigger] r@[m].0 as int) && self.valid(
                    r@[m].1 as int,
                ) && self.pol(r@[m].0 as int) == Polarity::Pos && self.pol(r@[m].1 as int)
                    == Polarity::Neg,
            forall|i: int, j: int, a: int, b: int, u: int, v: int|
                #[trigger] self.field_pair_at(qp as int, qn as int, i, j, a, b, u, v)
                    ==> r@.contains(self.oriented_at(qp as int, qn as int, i, j, a, b, u, v)),
            self.cons(qp as int).len() == 0 || self.cons(qn as int).len() == 0 ==> r@.len() == 0,
            self.all_fieldless(qp as int) && self.all_fieldless(qn as int) ==> r@.len() == 0,
    {
        let ghost gqp = qp as int;
        let ghost gqn = qn as int;
        let mut r: Vec<(StateId, StateId)> = Vec::new();
        let ni = self.states[qp].cons.len();
        let mut i: usize = 0;
        while i < ni
            invariant
                self.wf(),
                self.valid(gqp),
                self.valid(gqn),
                self.pol(gqp) == Polarity::Pos,
                self.pol(gqn) == Polarity::Neg,
                gqp == qp as int,
                gqn == qn as int,
                ni == self.cons(gqp).len(),
                i <= ni,
                forall|m: int|
                    0 <= m < r@.len() ==> self.valid(#[trigger] r@[m].0 as int) && self.valid(
                        r@[m].1 as int,
                    ) && self.pol(r@[m].0 as int) == Polarity::Pos && self.pol(r@[m].1 as int)
                        == Polarity::Neg,
                forall|i2: int, j2: int, a2: int, b2: int, u2: int, v2: int|
                    #[trigger] self.field_pair_at(gqp, gqn, i2, j2, a2, b2, u2, v2) && i2 < i
                        ==> r@.contains(self.oriented_at(gqp, gqn, i2, j2, a2, b2, u2, v2)),
                self.all_fieldless(gqp) && self.all_fieldless(gqn) ==> r@.len() == 0,
                self.cons(gqn).len() == 0 ==> r@.len() == 0,
                self.cons(gqp).len() == 0 ==> r@.len() == 0,
            decreases ni - i,
        {
            let nj = self.states[qn].cons.len();
            let mut j: usize = 0;
            while j < nj
                invariant
                    self.wf(),
                    self.valid(gqp),
                    self.valid(gqn),
                    self.pol(gqp) == Polarity::Pos,
                    self.pol(gqn) == Polarity::Neg,
                    gqp == qp as int,
                    gqn == qn as int,
                    ni == self.cons(gqp).len(),
                    i < ni,
                    nj == self.cons(gqn).len(),
                    j <= nj,
                    forall|m: int|
                        0 <= m < r@.len() ==> self.valid(#[trigger] r@[m].0 as int) && self.valid(
                            r@[m].1 as int,
                        ) && self.pol(r@[m].0 as int) == Polarity::Pos && self.pol(r@[m].1 as int)
                            == Polarity::Neg,
                    forall|i2: int, j2: int, a2: int, b2: int, u2: int, v2: int|
                        #[trigger] self.field_pair_at(gqp, gqn, i2, j2, a2, b2, u2, v2) && (i2 < i
                            || (i2 == i && j2 < j)) ==> r@.contains(
                            self.oriented_at(gqp, gqn, i2, j2, a2, b2, u2, v2),
                        ),
                    self.all_fieldless(gqp) && self.all_fieldless(gqn) ==> r@.len() == 0,
                    self.cons(gqn).len() == 0 ==> r@.len() == 0,
                    self.cons(gqp).len() == 0 ==> r@.len() == 0,
                decreases nj - j,
            {
                if self.states[qp].cons[i].tag == self.states[qn].cons[j].tag {
                    let na = self.states[qp].cons[i].fields.len();
                    let mut a: usize = 0;
                    while a < na
                        invariant
                            self.wf(),
                            self.valid(gqp),
                            self.valid(gqn),
                            self.pol(gqp) == Polarity::Pos,
                            self.pol(gqn) == Polarity::Neg,
                            gqp == qp as int,
                            gqn == qn as int,
                            ni == self.cons(gqp).len(),
                            i < ni,
                            nj == self.cons(gqn).len(),
                            j < nj,
                            na == self.cons(gqp)[i as int].fields.len(),
                            a <= na,
                            self.cons(gqp)[i as int].tag == self.cons(gqn)[j as int].tag,
                            forall|m: int|
                                0 <= m < r@.len() ==> self.valid(#[trigger] r@[m].0 as int)
                                    && self.valid(r@[m].1 as int) && self.pol(r@[m].0 as int)
                                    == Polarity::Pos && self.pol(r@[m].1 as int) == Polarity::Neg,
                            forall|i2: int, j2: int, a2: int, b2: int, u2: int, v2: int|
                                #[trigger] self.field_pair_at(gqp, gqn, i2, j2, a2, b2, u2, v2) && (
                                i2 < i || (i2 == i && j2 < j) || (i2 == i && j2 == j && a2 < a))
                                    ==> r@.contains(
                                    self.oriented_at(gqp, gqn, i2, j2, a2, b2, u2, v2),
                                ),
                            self.all_fieldless(gqp) && self.all_fieldless(gqn) ==> r@.len() == 0,
                            self.cons(gqn).len() == 0 ==> r@.len() == 0,
                            self.cons(gqp).len() == 0 ==> r@.len() == 0,
                        decreases na - a,
                    {
                        let nb = self.states[qn].cons[j].fields.len();
                        let mut b: usize = 0;
                        while b < nb
                            invariant
                                self.wf(),
                                self.valid(gqp),
                                self.valid(gqn),
                                self.pol(gqp) == Polarity::Pos,
                                self.pol(gqn) == Polarity::Neg,
                                gqp == qp as int,
                                gqn == qn as int,
                                ni == self.cons(gqp).len(),
                                i < ni,
                                nj == self.cons(gqn).len(),
                                j < nj,
                                na == self.cons(gqp)[i as int].fields.len(),
                                a < na,
                                nb == self.cons(gqn)[j as int].fields.len(),
                                b <= nb,
                                self.cons(gqp)[i as int].tag == self.cons(gqn)[j as int].tag,
                                forall|m: int|
                                    0 <= m < r@.len() ==> self.valid(#[trigger] r@[m].0 as int)
                                        && self.valid(r@[m].1 as int) && self.pol(r@[m].0 as int)
                                        == Polarity::Pos && self.pol(r@[m].1 as int)
                                        == Polarity::Neg,
                                forall|i2: int, j2: int, a2: int, b2: int, u2: int, v2: int|
                                    #[trigger] self.field_pair_at(gqp, gqn, i2, j2, a2, b2, u2, v2)
                                        && (i2 < i || (i2 == i && j2 < j) || (i2 == i && j2 == j
                                        && a2 < a) || (i2 == i && j2 == j && a2 == a && b2 < b))
                                        ==> r@.contains(
                                        self.oriented_at(gqp, gqn, i2, j2, a2, b2, u2, v2),
                                    ),
                                self.all_fieldless(gqp) && self.all_fieldless(gqn) ==> r@.len()
                                    == 0,
                                self.cons(gqn).len() == 0 ==> r@.len() == 0,
                                self.cons(gqp).len() == 0 ==> r@.len() == 0,
                            decreases nb - b,
                        {
                            let pf = &self.states[qp].cons[i].fields[a];
                            let nf = &self.states[qn].cons[j].fields[b];
                            if pf.label.id == nf.label.id && pf.label.pol == nf.label.pol {
                                proof {
                                    assert(self.wf_state(gqp));
                                    assert(self.wf_state(gqn));
                                    assert(self.wf_term(self.pol(gqp), self.cons(gqp)[i as int]));
                                    assert(self.wf_term(self.pol(gqn), self.cons(gqn)[j as int]));
                                }
                                let ghost lp = self.cons(gqp)[i as int].fields[a as int].label.pol;
                                let (ss, tt) = pf.label.pol.flip(&pf.states, &nf.states);
                                proof {
                                    if lp == Polarity::Pos {
                                        assert(ss@ == self.cons(gqp)[i as int].fields[a as int].states);
                                        assert(tt@ == self.cons(gqn)[j as int].fields[b as int].states);
                                    } else {
                                        assert(ss@ == self.cons(gqn)[j as int].fields[b as int].states);
                                        assert(tt@ == self.cons(gqp)[i as int].fields[a as int].states);
                                    }
                                }
                                let mut prs = product(ss, tt);
                                let ghost gprs = prs@;
                                let ghost prev = r@;
                                r.append(&mut prs);
                                proof {
                                    assert(r@ == prev + gprs);
                                    assert forall|m: int| 0 <= m < r@.len() implies self.valid(
                                        #[trigger] r@[m].0 as int,
                                    ) && self.valid(r@[m].1 as int) && self.pol(r@[m].0 as int)
                                        == Polarity::Pos && self.pol(r@[m].1 as int)
                                        == Polarity::Neg by {
                                        if m >= prev.len() {
                                            let mm = m - prev.len();
                                            assert(r@[m] == gprs[mm]);
                                            assert(self.cons(gqp)[i as int].fields[a as int].states.contains(
                                                if lp == Polarity::Pos {
                                                    r@[m].0
                                                } else {
                                                    r@[m].1
                                                },
                                            ));
                                            assert(self.cons(gqn)[j as int].fields[b as int].states.contains(
                                                if lp == Polarity::Pos {
                                                    r@[m].1
                                                } else {
                                                    r@[m].0
                                                },
                                            ));
                                        } else {
                                            assert(r@[m] == prev[m]);
                                        }
                                    }
                                    assert forall|i2: int, j2: int, a2: int, b2: int, u2: int, v2:
                                        int|
                                        #[trigger] self.field_pair_at(
                                            gqp,
                                            gqn,
                                            i2,
                                            j2,
                                            a2,
                                            b2,
                                            u2,
                                            v2,
                                        ) && (i2 < i || (i2 == i && j2 < j) || (i2 == i && j2 == j
                                            && a2 < a) || (i2 == i && j2 == j && a2 == a && b2 <= b
                                        )) implies r@.contains(
                                        self.oriented_at(gqp, gqn, i2, j2, a2, b2, u2, v2),
                                    ) by {
                                        let p = self.oriented_at(gqp, gqn, i2, j2, a2, b2, u2, v2);
                                        if i2 == i && j2 == j && a2 == a && b2 == b {
                                            let x = self.cons(gqp)[i2].fields[a2].states[u2];
                                            let y = self.cons(gqn)[j2].fields[b2].states[v2];
                                            assert(self.cons(
                                                gqp,
                                            )[i2].fields[a2].states.contains(x));
                                            assert(self.cons(
                                                gqn,
                                            )[j2].fields[b2].states.contains(y));
                                            assert(gprs.contains(p));
                                            let w = choose|w: int|
                                                0 <= w < gprs.len() && gprs[w] == p;
                                            assert(r@[prev.len() + w] == p);
                                        } else {
                                            assert(prev.contains(p));
                                            let w = choose|w: int|
                                                0 <= w < prev.len() && prev[w] == p;
                                            assert(r@[w] == p);
                                        }
                                    }
                                }
                            } else {
                                proof {
                                    assert forall|i2: int, j2: int, a2: int, b2: int, u2: int, v2:
                                        int|
                                        #[trigger] self.field_pair_at(
                                            gqp,
                                            gqn,
                                            i2,
                                            j2,
                                            a2,
                                            b2,
                                            u2,
                                            v2,
                                        ) && (i2 < i || (i2 == i && j2 < j) || (i2 == i && j2 == j
                                            && a2 < a) || (i2 == i && j2 == j && a2 == a && b2 <= b
                                        )) implies r@.contains(
                                        self.oriented_at(gqp, gqn, i2, j2, a2, b2, u2, v2),
                                    ) by {}
                                }
                            }
                            b += 1;
                        }
                        a += 1;
                    }
                }
                j += 1;
            }
            i += 1;
        }
        r
    }

    /// One memoized biunification step for the pair `(qp, qn)`: skips a pair
    /// already seen, otherwise checks structural admissibility of the full
    /// term cross product, propagates flow by merging, and recurses on every
    /// variance-oriented field pair. Merges already performed are kept even
    /// when a later sub-check fails.
    fn biunify_impl(&mut self, seen: &mut PairSet, qp: StateId, qn: StateId) -> (r: Result<
        (),
        (),
    >)
        requires
            old(self).wf(),
            old(self).valid(qp as int),
            old(self).valid(qn as int),
            old(self).pol(qp as int) == Polarity::Pos,
            old(self).pol(qn as int) == Polarity::Neg,
            old(seen)@.finite(),
            old(seen)@.subset_of(state_pairs(old(self).n())),
        ensures
            final(self).wf(),
            final(self).n() == old(self).n(),
            final(self).order@ == old(self).order@,
            forall|s: int| old(self).valid(s) ==> final(self).pol(s) == old(self).pol(s),
            final(seen)@.finite(),
            old(seen)@.subset_of(final(seen)@),
            final(seen)@.subset_of(state_pairs(old(self).n())),
            final(self).extends(*old(self)),
            old(seen)@.contains((qp, qn)) ==> r is Ok && *final(self) == *old(self) && final(seen)@ == old(seen)@,
            r is Ok ==> final(seen)@.contains((qp, qn)),
            !old(seen)@.contains((qp, qn)) && !old(self).admissible(qp as int, qn as int)
                ==> r is Err && *final(self) == *old(self),
            !old(seen)@.contains((qp, qn)) && old(self).admissible(qp as int, qn as int)
                ==> forall|k: int, t: TermView|
                #![trigger old(self).flow(qn as int)[k], old(self).cons(qp as int).contains(t)]
                0 <= k < old(self).flow(qn as int).len() && old(self).cons(qp as int).contains(t)
                    ==> final(self).cons(old(self).flow(qn as int)[k] as int).contains(t),
            !old(seen)@.contains((qp, qn)) && old(self).admissible(qp as int, qn as int)
                ==> forall|k: int, x: StateId|
                #![trigger old(self).flow(qn as int)[k], old(self).flow(qp as int).contains(x)]
                0 <= k < old(self).flow(qn as int).len() && old(self).flow(qp as int).contains(x)
                    ==> final(self).flow(old(self).flow(qn as int)[k] as int).contains(x),
            !old(seen)@.contains((qp, qn)) && old(self).admissible(qp as int, qn as int)
                ==> forall|k: int, t: TermView|
                #![trigger old(self).flow(qp as int)[k], old(self).cons(qn as int).contains(t)]
                0 <= k < old(self).flow(qp as int).len() && old(self).cons(qn as int).contains(t)
                    ==> final(self).cons(old(self).flow(qp as int)[k] as int).contains(t),
            !old(seen)@.contains((qp, qn)) && old(self).admissible(qp as int, qn as int)
                ==> forall|k: int, x: StateId|
                #![trigger old(self).flow(qp as int)[k], old(self).flow(qn as int).contains(x)]
                0 <= k < old(self).flow(qp as int).len() && old(self).flow(qn as int).contains(x)
                    ==> final(self).flow(old(self).flow(qp as int)[k] as int).contains(x),
            old(self).cons(qp as int).len() == 0 || old(self).cons(qn as int).len() == 0
                ==> r is Ok,
            !old(seen)@.contains((qp, qn)) && old(self).admissible(qp as int, qn as int) && old(
                self,
            ).all_fieldless(qp as int) && old(self).all_fieldless(qn as int) ==> r is Ok,
            r is Ok && !old(seen)@.contains((qp, qn)) ==> forall|
                i: int,
                j: int,
                a: int,
                b: int,
                u: int,
                v: int,
            |
                #[trigger] old(self).field_pair_at(qp as int, qn as int, i, j, a, b, u, v)
                    ==> final(seen)@.contains(
                    old(self).oriented_at(qp as int, qn as int, i, j, a, b, u, v),
                ),
        decreases old(self).n() * old(self).n() - old(seen)@.len(),
    {
        let ghost gqp = qp as int;
        let ghost gqn = qn as int;
        let ghost n0 = old(self).n();
        let inserted = pair_set_insert(seen, (qp, qn));
        if !inserted {
            proof {
                assert(old(seen)@.insert((qp, qn)) =~= old(seen)@);
                old(self).lemma_extends_refl();
            }
            return Ok(());
        }
        proof {
            self.lemma_n_bound();
            lemma_state_pairs_finite(n0);
            assert(state_pairs(n0).contains((qp, qn)));
            assert(seen@.subset_of(state_pairs(n0)));
        }
        if !self.check_admissible(qp, qn) {
            proof {
                old(self).lemma_extends_refl();
            }
            return Err(());
        }
        let fl = self.states[qn].flow.len();
        let mut i: usize = 0;
        while i < fl
            invariant
                old(self).wf(),
                self.wf(),
                old(self).valid(gqp),
                old(self).valid(gqn),
                gqp == qp as int,
                gqn == qn as int,
                self.n() == old(self).n(),
                self.order@ == old(self).order@,
                forall|s: int| old(self).valid(s) ==> self.pol(s) == old(self).pol(s),
                old(self).pol(gqp) == Polarity::Pos,
                old(self).pol(gqn) == Polarity::Neg,
                fl == old(self).flow(gqn).len(),
                i <= fl,
                old(self).flow(gqn).is_prefix_of(self.flow(gqn)),
                self.cons(gqp) == old(self).cons(gqp),
                self.cons(gqn) == old(self).cons(gqn),
                self.flow(gqp) == old(self).flow(gqp),
                self.extends(*old(self)),
                forall|i2: int, t: TermView|
                    #![trigger old(self).flow(gqn)[i2], old(self).cons(gqp).contains(t)]
                    0 <= i2 < i && old(self).cons(gqp).contains(t) ==> self.cons(
                        old(self).flow(gqn)[i2] as int,
                    ).contains(t),
                forall|i2: int, x: StateId|
                    #![trigger old(self).flow(gqn)[i2], old(self).flow(gqp).contains(x)]
                    0 <= i2 < i && old(self).flow(gqp).contains(x) ==> self.flow(
                        old(self).flow(gqn)[i2] as int,
                    ).contains(x),
            decreases fl - i,
        {
            proof {
                assert(self.flow(gqn)[i as int] == old(self).flow(gqn).subrange(
                    0,
                    fl as int,
                )[i as int]);
                assert(old(self).wf_state(gqn));
                assert(old(self).flow_edge_ok(gqn, i as int));
            }
            let to = self.states[qn].flow[i];
            let ghost mid = *self;
            self.merge(Polarity::Pos, to, qp);
            proof {
                if to != qp {
                    assert(self.cons(gqp) == mid.cons(gqp));
                }
                assert(self.cons(gqn) == mid.cons(gqn));
                assert(self.flow(gqp) == mid.flow(gqp)) by {
                    assert(!mid.flow(gqp).contains(qp)) by {
                        if mid.flow(gqp).contains(qp) {
                            assert(mid.wf_state(gqp));
                            let w = choose|w: int|
                                0 <= w < mid.flow(gqp).len() && mid.flow(gqp)[w] == qp;
                            assert(mid.flow_edge_ok(gqp, w));
                        }
                    }
                }
                assert(mid.valid(gqn));
                assert(old(self).flow(gqn).is_prefix_of(mid.flow(gqn)));
                assert(mid.flow(gqn).is_prefix_of(self.flow(gqn)));
                crate::auto::lemma_prefix_trans(
                    old(self).flow(gqn),
                    mid.flow(gqn),
                    self.flow(gqn),
                );
                assert(self.extends(mid)) by {
                    assert forall|s: int| mid.valid(s) implies mid.cons(s).is_prefix_of(
                        #[trigger] self.cons(s),
                    ) && mid.flow(s).is_prefix_of(#[trigger] self.flow(s)) by {}
                }
                crate::auto::Automaton::lemma_extends_trans(*old(self), mid, *self);
                let gto = old(self).flow(gqn)[i as int];
                assert(to == gto);
                assert forall|i2: int, t: TermView|
                    #![trigger old(self).flow(gqn)[i2], old(self).cons(gqp).contains(t)]
                    0 <= i2 < i + 1 && old(self).cons(gqp).contains(t) implies self.cons(
                    old(self).flow(gqn)[i2] as int,
                ).contains(t) by {
                    assert(old(self).wf_state(gqn));
                    assert(old(self).flow_edge_ok(gqn, i2));
                    let tgt = old(self).flow(gqn)[i2];
                    if i2 < i {
                        crate::auto::lemma_prefix_contains(
                            mid.cons(tgt as int),
                            self.cons(tgt as int),
                            t,
                        );
                    } else {
                        if to != qp {
                            assert(self.cons(gto as int) == mid.cons(gto as int) + mid.cons(gqp));
                            crate::auto::lemma_append_contains(
                                mid.cons(gto as int),
                                mid.cons(gqp),
                                t,
                            );
                        } else {
                            assert(self.cons(gto as int) == mid.cons(gqp));
                        }
                    }
                }
                assert forall|i2: int, x: StateId|
                    #![trigger old(self).flow(gqn)[i2], old(self).flow(gqp).contains(x)]
                    0 <= i2 < i + 1 && old(self).flow(gqp).contains(x) implies self.flow(
                    old(self).flow(gqn)[i2] as int,
                ).contains(x) by {
                    assert(old(self).wf_state(gqn));
                    assert(old(self).flow_edge_ok(gqn, i2));
                    let tgt = old(self).flow(gqn)[i2];
                    if i2 < i {
                        crate::auto::lemma_prefix_contains(
                            mid.flow(tgt as int),
                            self.flow(tgt as int),
                            x,
                        );
                    } else {
                        assert(mid.flow(gqp).contains(x));
                        if to != qp {
                            assert(self.flow(gto as int).contains(x));
                        } else {
                            assert(self.flow(gto as int) == mid.flow(gqp));
                        }
                    }
                }
            }
            i += 1;
        }
        let fl2 = self.states[qp].flow.len();
        let mut i: usize = 0;
        while i < fl2
            invariant
                old(self).wf(),
                self.wf(),
                old(self).valid(gqp),
                old(self).valid(gqn),
                gqp == qp as int,
                gqn == qn as int,
                self.n() == old(self).n(),
                self.order@ == old(self).order@,
                forall|s: int| old(self).valid(s) ==> self.pol(s) == old(self).pol(s),
                old(self).pol(gqp) == Polarity::Pos,
                old(self).pol(gqn) == Polarity::Neg,
                fl2 == old(self).flow(gqp).len(),
                i <= fl2,
                old(self).flow(gqp).is_prefix_of(self.flow(gqp)),
                self.cons(gqp) == old(self).cons(gqp),
                self.cons(gqn) == old(self).cons(gqn),
                self.extends(*old(self)),
                forall|i2: int, t: TermView|
                    #![trigger old(self).flow(gqn)[i2], old(self).cons(gqp).contains(t)]
                    0 <= i2 < old(self).flow(gqn).len() && old(self).cons(gqp).contains(t)
                        ==> self.cons(old(self).flow(gqn)[i2] as int).contains(t),
                forall|i2: int, x: StateId|
                    #![trigger old(self).flow(gqn)[i2], old(self).flow(gqp).contains(x)]
                    0 <= i2 < old(self).flow(gqn).len() && old(self).flow(gqp).contains(x)
                        ==> self.flow(old(self).flow(gqn)[i2] as int).contains(x),
                forall|i2: int, t: TermView|
                    #![trigger old(self).flow(gqp)[i2], old(self).cons(gqn).contains(t)]
                    0 <= i2 < i && old(self).cons(gqn).contains(t) ==> self.cons(
                        old(self).flow(gqp)[i2] as int,
                    ).contains(t),
                forall|i2: int, x: StateId|
                    #![trigger old(self).flow(gqp)[i2], old(self).flow(gqn).contains(x)]
                    0 <= i2 < i && old(self).flow(gqn).contains(x) ==> self.flow(
                        old(self).flow(gqp)[i2] as int,
                    ).contains(x),
            decreases fl2 - i,
        {
            proof {
                assert(self.flow(gqp)[i as int] == old(self).flow(gqp).subrange(
                    0,
                    fl2 as int,
                )[i as int]);
                assert(old(self).wf_state(gqp));
                assert(old(self).flow_edge_ok(gqp, i as int));
            }
            let fr = self.states[qp].flow[i];
            let ghost mid = *self;
            self.merge(Polarity::Neg, fr, qn);
            proof {
                assert(fr != qp);
                assert(self.cons(gqp) == mid.cons(gqp));
                if fr != qn {
                    assert(self.cons(gqn) == mid.cons(gqn));
                }
                assert(mid.valid(gqp));
                assert(mid.flow(gqp).is_prefix_of(self.flow(gqp)));
                crate::auto::lemma_prefix_trans(
                    old(self).flow(gqp),
                    mid.flow(gqp),
                    self.flow(gqp),
                );
                assert(self.extends(mid)) by {
                    assert forall|s: int| mid.valid(s) implies mid.cons(s).is_prefix_of(
                        #[trigger] self.cons(s),
                    ) && mid.flow(s).is_prefix_of(#[trigger] self.flow(s)) by {}
                }
                crate::auto::Automaton::lemma_extends_trans(*old(self), mid, *self);
                let gfr = old(self).flow(gqp)[i as int];
                assert(fr == gfr);
                assert forall|i2: int, t: TermView|
                    #![trigger old(self).flow(gqn)[i2], old(self).cons(gqp).contains(t)]
                    0 <= i2 < old(self).flow(gqn).len() && old(self).cons(gqp).contains(
                        t,
                    ) implies self.cons(old(self).flow(gqn)[i2] as int).contains(t) by {
                    assert(old(self).wf_state(gqn));
                    assert(old(self).flow_edge_ok(gqn, i2));
                    let tgt = old(self).flow(gqn)[i2];
                    assert(mid.cons(tgt as int).contains(t));
                    crate::auto::lemma_prefix_contains(
                        mid.cons(tgt as int),
                        self.cons(tgt as int),
                        t,
                    );
                }
                assert forall|i2: int, x: StateId|
                    #![trigger old(self).flow(gqn)[i2], old(self).flow(gqp).contains(x)]
                    0 <= i2 < old(self).flow(gqn).len() && old(self).flow(gqp).contains(
                        x,
                    ) implies self.flow(old(self).flow(gqn)[i2] as int).contains(x) by {
                    assert(old(self).wf_state(gqn));
                    assert(old(self).flow_edge_ok(gqn, i2));
                    let tgt = old(self).flow(gqn)[i2];
                    assert(mid.flow(tgt as int).contains(x));
                    crate::auto::lemma_prefix_contains(
                        mid.flow(tgt as int),
                        self.flow(tgt as int),
                        x,
                    );
                }
                assert forall|i2: int, t: TermView|
                    #![trigger old(self).flow(gqp)[i2], old(self).cons(gqn).contains(t)]
                    0 <= i2 < i + 1 && old(self).cons(gqn).contains(t) implies self.cons(
                    old(self).flow(gqp)[i2] as int,
                ).contains(t) by {
                    assert(old(self).wf_state(gqp));
                    assert(old(self).flow_edge_ok(gqp, i2));
                    let tgt = old(self).flow(gqp)[i2];
                    if i2 < i {
                        crate::auto::lemma_prefix_contains(
                            mid.cons(tgt as int),
                            self.cons(tgt as int),
                            t,
                        );
                    } else {
                        assert(mid.cons(gqn).contains(t));
                        if fr != qn {
                            assert(self.cons(gfr as int) == mid.cons(gfr as int) + mid.cons(gqn));
                            crate::auto::lemma_append_contains(
                                mid.cons(gfr as int),
                                mid.cons(gqn),
                                t,
                            );
                        } else {
                            assert(self.cons(gfr as int) == mid.cons(gqn));
                        }
                    }
                }
                assert forall|i2: int, x: StateId|
                    #![trigger old(self).flow(gqp)[i2], old(self).flow(gqn).contains(x)]
                    0 <= i2 < i + 1 && old(self).flow(gqn).contains(x) implies self.flow(
                    old(self).flow(gqp)[i2] as int,
                ).contains(x) by {
                    assert(old(self).wf_state(gqp));
                    assert(old(self).flow_edge_ok(gqp, i2));
                    let tgt = old(self).flow(gqp)[i2];
                    if i2 < i {
                        crate::auto::lemma_prefix_contains(
                            mid.flow(tgt as int),
                            self.flow(tgt as int),
                            x,
                        );
                    } else {
                        crate::auto::lemma_prefix_contains(
                            old(self).flow(gqn),
                            mid.flow(gqn),
                            x,
                        );
                        assert(mid.flow(gqn).contains(x));
                        if fr != qn {
                            assert(self.flow(gfr as int).contains(x));
                        } else {
                            assert(self.flow(gfr as int) == mid.flow(gqn));
                        }
                    }
                }
            }
            i += 1;
        }
        let ghost pre = *self;
        let pairs = self.oriented_field_pairs(qp, qn);
        proof {
            assert forall|i2: int, j2: int, a2: int, b2: int, u2: int, v2: int|
                #[trigger] old(self).field_pair_at(gqp, gqn, i2, j2, a2, b2, u2, v2) implies pre.field_pair_at(
                gqp,
                gqn,
                i2,
                j2,
                a2,
                b2,
                u2,
                v2,
            ) && pre.oriented_at(gqp, gqn, i2, j2, a2, b2, u2, v2) == old(self).oriented_at(
                gqp,
                gqn,
                i2,
                j2,
                a2,
                b2,
                u2,
                v2,
            ) by {}
        }
        let np = pairs.len();
        proof {
            assert(pre.cons(gqp) == old(self).cons(gqp));
            assert(pre.cons(gqn) == old(self).cons(gqn));
            if old(self).all_fieldless(gqp) && old(self).all_fieldless(gqn) {
                assert forall|i2: int| 0 <= i2 < pre.cons(gqp).len() implies #[trigger] pre.cons(
                    gqp,
                )[i2].fields.len() == 0 by {
                    assert(old(self).cons(gqp)[i2].fields.len() == 0);
                }
                assert forall|i2: int| 0 <= i2 < pre.cons(gqn).len() implies #[trigger] pre.cons(
                    gqn,
                )[i2].fields.len() == 0 by {
                    assert(old(self).cons(gqn)[i2].fields.len() == 0);
                }
                assert(pairs@.len() == 0);
            }
            if old(self).cons(gqp).len() == 0 || old(self).cons(gqn).len() == 0 {
                assert(pairs@.len() == 0);
            }
        }
        let mut k: usize = 0;
        while k < np
            invariant
                old(self).cons(gqp).len() == 0 || old(self).cons(gqn).len() == 0 ==> np == 0,
                old(self).all_fieldless(gqp) && old(self).all_fieldless(gqn) ==> np == 0,
                old(self).admissible(gqp, gqn),
                self.extends(*old(self)),
                forall|i2: int, t: TermView|
                    #![trigger old(self).flow(gqn)[i2], old(self).cons(gqp).contains(t)]
                    0 <= i2 < old(self).flow(gqn).len() && old(self).cons(gqp).contains(t)
                        ==> self.cons(old(self).flow(gqn)[i2] as int).contains(t),
                forall|i2: int, x: StateId|
                    #![trigger old(self).flow(gqn)[i2], old(self).flow(gqp).contains(x)]
                    0 <= i2 < old(self).flow(gqn).len() && old(self).flow(gqp).contains(x)
                        ==> self.flow(old(self).flow(gqn)[i2] as int).contains(x),
                forall|i2: int, t: TermView|
                    #![trigger old(self).flow(gqp)[i2], old(self).cons(gqn).contains(t)]
                    0 <= i2 < old(self).flow(gqp).len() && old(self).cons(gqn).contains(t)
                        ==> self.cons(old(self).flow(gqp)[i2] as int).contains(t),
                forall|i2: int, x: StateId|
                    #![trigger old(self).flow(gqp)[i2], old(self).flow(gqn).contains(x)]
                    0 <= i2 < old(self).flow(gqp).len() && old(self).flow(gqn).contains(x)
                        ==> self.flow(old(self).flow(gqp)[i2] as int).contains(x),
                old(self).wf(),
                self.wf(),
                old(self).valid(gqp),
                old(self).valid(gqn),
                gqp == qp as int,
                gqn == qn as int,
                self.n() == old(self).n(),
                n0 == old(self).n(),
                self.order@ == old(self).order@,
                forall|s: int| old(self).valid(s) ==> self.pol(s) == old(self).pol(s),
                np == pairs@.len(),
                k <= np,
                seen@.finite(),
                old(seen)@.subset_of(seen@),
                seen@.subset_of(state_pairs(n0)),
                seen@.contains((qp, qn)),
                !old(seen)@.contains((qp, qn)),
                forall|m: int|
                    0 <= m < pairs@.len() ==> pre.valid(#[trigger] pairs@[m].0 as int)
                        && pre.valid(pairs@[m].1 as int) && pre.pol(pairs@[m].0 as int)
                        == Polarity::Pos && pre.pol(pairs@[m].1 as int) == Polarity::Neg,
                pre.n() == old(self).n(),
                forall|s: int| pre.valid(s) ==> pre.pol(s) == old(self).pol(s),
                forall|m: int| 0 <= m < k ==> seen@.contains(#[trigger] pairs@[m]),
            decreases np - k,
        {
            let (jp, jn) = pairs[k];
            proof {
                self.lemma_n_bound();
                lemma_state_pairs_finite(n0);
                lemma_len_subset(seen@, state_pairs(n0));
                assert(old(seen)@.insert((qp, qn)).subset_of(seen@));
                lemma_len_subset(old(seen)@.insert((qp, qn)), seen@);
                assert(old(seen)@.insert((qp, qn)).len() == old(seen)@.len() + 1);
            }
            let ghost seen_before = seen@;
            let ghost sub_pre = *self;
            match self.biunify_impl(seen, jp, jn) {
                Err(()) => {
                    proof {
                        crate::auto::Automaton::lemma_extends_trans(*old(self), sub_pre, *self);
                        assert forall|i2: int, t: TermView|
                            #![trigger old(self).flow(gqn)[i2], old(self).cons(gqp).contains(t)]
                            0 <= i2 < old(self).flow(gqn).len() && old(self).cons(gqp).contains(
                                t,
                            ) implies self.cons(old(self).flow(gqn)[i2] as int).contains(t) by {
                            assert(old(self).wf_state(gqn));
                    assert(old(self).flow_edge_ok(gqn, i2));
                            let tgt = old(self).flow(gqn)[i2];
                            crate::auto::lemma_prefix_contains(
                                sub_pre.cons(tgt as int),
                                self.cons(tgt as int),
                                t,
                            );
                        }
                        assert forall|i2: int, x: StateId|
                            #![trigger old(self).flow(gqn)[i2], old(self).flow(gqp).contains(x)]
                            0 <= i2 < old(self).flow(gqn).len() && old(self).flow(gqp).contains(
                                x,
                            ) implies self.flow(old(self).flow(gqn)[i2] as int).contains(x) by {
                            assert(old(self).wf_state(gqn));
                    assert(old(self).flow_edge_ok(gqn, i2));
                            let tgt = old(self).flow(gqn)[i2];
                            crate::auto::lemma_prefix_contains(
                                sub_pre.flow(tgt as int),
                                self.flow(tgt as int),
                                x,
                            );
                        }
                        assert forall|i2: int, t: TermView|
                            #![trigger old(self).flow(gqp)[i2], old(self).cons(gqn).contains(t)]
                            0 <= i2 < old(self).flow(gqp).len() && old(self).cons(gqn).contains(
                                t,
                            ) implies self.cons(old(self).flow(gqp)[i2] as int).contains(t) by {
                            assert(old(self).wf_state(gqp));
                    assert(old(self).flow_edge_ok(gqp, i2));
                            let tgt = old(self).flow(gqp)[i2];
                            crate::auto::lemma_prefix_contains(
                                sub_pre.cons(tgt as int),
                                self.cons(tgt as int),
                                t,
                            );
                        }
                        assert forall|i2: int, x: StateId|
                            #![trigger old(self).flow(gqp)[i2], old(self).flow(gqn).contains(x)]
                            0 <= i2 < old(self).flow(gqp).len() && old(self).flow(gqn).contains(
                                x,
                            ) implies self.flow(old(self).flow(gqp)[i2] as int).contains(x) by {
                            assert(old(self).wf_state(gqp));
                    assert(old(self).flow_edge_ok(gqp, i2));
                            let tgt = old(self).flow(gqp)[i2];
                            crate::auto::lemma_prefix_contains(
                                sub_pre.flow(tgt as int),
                                self.flow(tgt as int),
                                x,
                            );
                        }
                    }
                    return Err(());
                },
                Ok(()) => {},
            }
            proof {
                assert(seen@.contains(pairs@[k as int]));
                assert forall|m: int| 0 <= m < k + 1 implies seen@.contains(
                    #[trigger] pairs@[m],
                ) by {
                    if m < k {
                        assert(seen_before.contains(pairs@[m]));
                    }
                }
                crate::auto::Automaton::lemma_extends_trans(*old(self), sub_pre, *self);
                assert forall|i2: int, t: TermView|
                    #![trigger old(self).flow(gqn)[i2], old(self).cons(gqp).contains(t)]
                    0 <= i2 < old(self).flow(gqn).len() && old(self).cons(gqp).contains(
                        t,
                    ) implies self.cons(old(self).flow(gqn)[i2] as int).contains(t) by {
                    assert(old(self).wf_state(gqn));
                    assert(old(self).flow_edge_ok(gqn, i2));
                    let tgt = old(self).flow(gqn)[i2];
                    crate::auto::lemma_prefix_contains(
                        sub_pre.cons(tgt as int),
                        self.cons(tgt as int),
                        t,
                    );
                }
                assert forall|i2: int, x: StateId|
                    #![trigger old(self).flow(gqn)[i2], old(self).flow(gqp).contains(x)]
                    0 <= i2 < old(self).flow(gqn).len() && old(self).flow(gqp).contains(
                        x,
                    ) implies self.flow(old(self).flow(gqn)[i2] as int).contains(x) by {
                    assert(old(self).wf_state(gqn));
                    assert(old(self).flow_edge_ok(gqn, i2));
                    let tgt = old(self).flow(gqn)[i2];
                    crate::auto::lemma_prefix_contains(
                        sub_pre.flow(tgt as int),
                        self.flow(tgt as int),
                        x,
                    );
                }
                assert forall|i2: int, t: TermView|
                    #![trigger old(self).flow(gqp)[i2], old(self).cons(gqn).contains(t)]
                    0 <= i2 < old(self).flow(gqp).len() && old(self).cons(gqn).contains(
                        t,
                    ) implies self.cons(old(self).flow(gqp)[i2] as int).contains(t) by {
                    assert(old(self).wf_state(gqp));
                    assert(old(self).flow_edge_ok(gqp, i2));
                    let tgt = old(self).flow(gqp)[i2];
                    crate::auto::lemma_prefix_contains(
                        sub_pre.cons(tgt as int),
                        self.cons(tgt as int),
                        t,
                    );
                }
                assert forall|i2: int, x: StateId|
                    #![trigger old(self).flow(gqp)[i2], old(self).flow(gqn).contains(x)]
                    0 <= i2 < old(self).flow(gqp).len() && old(self).flow(gqn).contains(
                        x,
                    ) implies self.flow(old(self).flow(gqp)[i2] as int).contains(x) by {
                    assert(old(self).wf_state(gqp));
                    assert(old(self).flow_edge_ok(gqp, i2));
                    let tgt = old(self).flow(gqp)[i2];
                    crate::auto::lemma_prefix_contains(
                        sub_pre.flow(tgt as int),
                        self.flow(tgt as int),
                        x,
                    );
                }
            }
            k += 1;
        }
        proof {
            assert forall|i2: int, j2: int, a2: int, b2: int, u2: int, v2: int|
                #[trigger] old(self).field_pair_at(gqp, gqn, i2, j2, a2, b2, u2, v2) implies seen@.contains(
                old(self).oriented_at(gqp, gqn, i2, j2, a2, b2, u2, v2),
            ) by {
                assert(pre.field_pair_at(gqp, gqn, i2, j2, a2, b2, u2, v2));
                let p = pre.oriented_at(gqp, gqn, i2, j2, a2, b2, u2, v2);
                assert(pairs@.contains(p));
                let w = choose|w: int| 0 <= w < pairs@.len() && pairs@[w] == p;
                assert(seen@.contains(pairs@[w]));
            }
        }
        Ok(())
    }

    /// Solves one constraint: the value of producer state `qp` must be
    /// admissible wherever acceptor state `qn`'s value is expected. On
    /// failure the automaton keeps the merges already performed.
    pub fn biunify(&mut self, qp: StateId, qn: StateId) -> (r: Result<(), ()>)
        requires
            old(self).wf(),
            old(self).valid(qp as int),
            old(self).valid(qn as int),
            old(self).pol(qp as int) == Polarity::Pos,
            old(self).pol(qn as int) == Polarity::Neg,
        ensures
            final(self).wf(),
            final(self).n() == old(self).n(),
            final(self).order@ == old(self).order@,
            forall|s: int| old(self).valid(s) ==> final(self).pol(s) == old(self).pol(s),
            final(self).extends(*old(self)),
            !old(self).admissible(qp as int, qn as int) ==> r is Err && *final(self) == *old(
                self,
            ),
            old(self).cons(qp as int).len() == 0 || old(self).cons(qn as int).len() == 0
                ==> r is Ok,
            old(self).admissible(qp as int, qn as int) && old(self).all_fieldless(qp as int)
                && old(self).all_fieldless(qn as int) ==> r is Ok,
            old(self).admissible(qp as int, qn as int) ==> forall|k: int, t: TermView|
                #![trigger old(self).flow(qn as int)[k], old(self).cons(qp as int).contains(t)]
                0 <= k < old(self).flow(qn as int).len() && old(self).cons(qp as int).contains(t)
                    ==> final(self).cons(old(self).flow(qn as int)[k] as int).contains(t),
            old(self).admissible(qp as int, qn as int) ==> forall|k: int, x: StateId|
                #![trigger old(self).flow(qn as int)[k], old(self).flow(qp as int).contains(x)]
                0 <= k < old(self).flow(qn as int).len() && old(self).flow(qp as int).contains(x)
                    ==> final(self).flow(old(self).flow(qn as int)[k] as int).contains(x),
            old(self).admissible(qp as int, qn as int) ==> forall|k: int, t: TermView|
                #![trigger old(self).flow(qp as int)[k], old(self).cons(qn as int).contains(t)]
                0 <= k < old(self).flow(qp as int).len() && old(self).cons(qn as int).contains(t)
                    ==> final(self).cons(old(self).flow(qp as int)[k] as int).contains(t),
            old(self).admissible(qp as int, qn as int) ==> forall|k: int, x: StateId|
                #![trigger old(self).flow(qp as int)[k], old(self).flow(qn as int).contains(x)]
                0 <= k < old(self).flow(qp as int).len() && old(self).flow(qn as int).contains(x)
                    ==> final(self).flow(old(self).flow(qp as int)[k] as int).contains(x),
    {
        let mut seen = pair_set_new();
        self.biunify_impl(&mut seen, qp, qn)
    }

    /// Solves a batch of constraints left to right with one shared memo set,
    /// stopping at the first failure.
    pub fn biunify_all(&mut self, constraints: &Vec<(StateId, StateId)>) -> (r: Result<(), ()>)
        requires
            old(self).wf(),
            forall|k: int|
                0 <= k < constraints@.len() ==> old(self).valid(
                    #[trigger] constraints@[k].0 as int,
                ) && old(self).valid(constraints@[k].1 as int) && old(self).pol(
                    constraints@[k].0 as int,
                ) == Polarity::Pos && old(self).pol(constraints@[k].1 as int) == Polarity::Neg,
        ensures
            final(self).wf(),
            final(self).n() == old(self).n(),
            final(self).order@ == old(self).order@,
            forall|s: int| old(self).valid(s) ==> final(self).pol(s) == old(self).pol(s),
            final(self).extends(*old(self)),
            constraints@.len() == 0 ==> r is Ok && *final(self) == *old(self),
            constraints@.len() > 0 && !old(self).admissible(
                constraints@[0].0 as int,
                constraints@[0].1 as int,
            ) ==> r is Err,
            constraints@.len() == 1 && (old(self).cons(constraints@[0].0 as int).len() == 0 || old(
                self,
            ).cons(constraints@[0].1 as int).len() == 0) ==> r is Ok,
            constraints@.len() == 1 && old(self).admissible(
                constraints@[0].0 as int,
                constraints@[0].1 as int,
            ) && old(self).all_fieldless(constraints@[0].0 as int) && old(self).all_fieldless(
                constraints@[0].1 as int,
            ) ==> r is Ok,
    {
        let mut seen = pair_set_new();
        let nc = constraints.len();
        let ghost c0p = if constraints@.len() > 0 { constraints@[0].0 as int } else { 0int };
        let ghost c0n = if constraints@.len() > 0 { constraints@[0].1 as int } else { 0int };
        proof {
            old(self).lemma_extends_refl();
        }
        let mut k: usize = 0;
        while k < nc
            invariant
                old(self).wf(),
                self.wf(),
                self.n() == old(self).n(),
                self.order@ == old(self).order@,
                forall|s: int| old(self).valid(s) ==> self.pol(s) == old(self).pol(s),
                self.extends(*old(self)),
                nc == constraints@.len(),
                k <= nc,
                k == 0 ==> *self == *old(self) && seen@ == Set::<(StateId, StateId)>::empty(),
                nc > 0 ==> c0p == constraints@[0].0 as int && c0n == constraints@[0].1 as int,
                k > 0 && nc > 0 ==> old(self).admissible(c0p, c0n),
                seen@.finite(),
                seen@.subset_of(state_pairs(old(self).n())),
                forall|k2: int|
                    0 <= k2 < constraints@.len() ==> old(self).valid(
                        #[trigger] constraints@[k2].0 as int,
                    ) && old(self).valid(constraints@[k2].1 as int) && old(self).pol(
                        constraints@[k2].0 as int,
                    ) == Polarity::Pos && old(self).pol(constraints@[k2].1 as int)
                        == Polarity::Neg,
            decreases nc - k,
        {
            let (qp, qn) = constraints[k];
            let ghost sub_pre = *self;
            let ghost seen_pre = seen@;
            match self.biunify_impl(&mut seen, qp, qn) {
                Err(()) => {
                    proof {
                        crate::auto::Automaton::lemma_extends_trans(*old(self), sub_pre, *self);
                        if k == 0 {
                            assert(!seen_pre.contains((qp, qn)));
                            if nc == 1 && (old(self).cons(c0p).len() == 0 || old(self).cons(
                                c0n,
                            ).len() == 0) {
                                assert(false);
                            }
                            if nc == 1 && old(self).admissible(c0p, c0n) && old(
                                self,
                            ).all_fieldless(c0p) && old(self).all_fieldless(c0n) {
                                assert(false);
                            }
                        }
                    }
                    return Err(());
                },
                Ok(()) => {},
            }
            proof {
                crate::auto::Automaton::lemma_extends_trans(*old(self), sub_pre, *self);
                if k == 0 && nc > 0 {
                    assert(!seen_pre.contains((qp, qn)));
                    assert(old(self).admissible(c0p, c0n));
                }
            }
            k += 1;
        }
        Ok(())
    }
}

} // verus!
