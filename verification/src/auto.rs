//! The shared automaton: a graph of states carrying constructor terms and
//! variable flow edges.
//!
//! Each state has a fixed polarity. Flow edges join states of opposite
//! polarity and are kept symmetric: whenever `q` stands in the flow set of
//! `s`, `s` stands in the flow set of `q`. A constructor term attached to a
//! state points, for each field, at states whose polarity is the state's own
//! polarity composed with the field label's variance.

use vstd::prelude::*;
use crate::polarity::Polarity;

verus! {

broadcast use vstd::seq_lib::group_seq_properties;

/// Membership in a sequence extended by one element.
pub(crate) proof fn lemma_push_contains<A>(s: Seq<A>, x: A, y: A)
    ensures
        s.push(x).contains(y) <==> s.contains(y) || y == x,
{
    if s.contains(y) {
        let i = choose|i: int| 0 <= i < s.len() && s[i] == y;
        assert(s.push(x)[i] == y);
    }
    if y == x {
        assert(s.push(x)[s.len() as int] == y);
    }
    if s.push(x).contains(y) {
        let i = choose|i: int| 0 <= i < s.push(x).len() && s.push(x)[i] == y;
        if i < s.len() {
            assert(s[i] == y);
        }
    }
}

/// Membership in a concatenation.
pub(crate) proof fn lemma_append_contains<A>(a: Seq<A>, b: Seq<A>, y: A)
    ensures
        (a + b).contains(y) <==> a.contains(y) || b.contains(y),
{
    if a.contains(y) {
        let i = choose|i: int| 0 <= i < a.len() && a[i] == y;
        assert((a + b)[i] == y);
    }
    if b.contains(y) {
        let i = choose|i: int| 0 <= i < b.len() && b[i] == y;
        assert((a + b)[a.len() + i] == y);
    }
    if (a + b).contains(y) {
        let i = choose|i: int| 0 <= i < (a + b).len() && (a + b)[i] == y;
        if i < a.len() {
            assert(a[i] == y);
        } else {
            assert(b[i - a.len()] == y);
        }
    }
}

/// A prefix is kept when the longer sequence is extended.
pub(crate) proof fn lemma_prefix_push<A>(a: Seq<A>, b: Seq<A>, x: A)
    requires
        a.is_prefix_of(b),
    ensures
        a.is_prefix_of(b.push(x)),
{
    assert(a =~= b.push(x).subrange(0, a.len() as int));
}

/// Prefix order is transitive.
pub(crate) proof fn lemma_prefix_trans<A>(a: Seq<A>, b: Seq<A>, c: Seq<A>)
    requires
        a.is_prefix_of(b),
        b.is_prefix_of(c),
    ensures
        a.is_prefix_of(c),
{
    assert(a =~= c.subrange(0, a.len() as int)) by {
        assert forall|i: int| 0 <= i < a.len() implies a[i] == c.subrange(
            0,
            a.len() as int,
        )[i] by {
            assert(a[i] == b.subrange(0, a.len() as int)[i]);
            assert(b[i] == c.subrange(0, b.len() as int)[i]);
        }
    }
}

/// Every sequence is a prefix of itself.
pub(crate) proof fn lemma_prefix_refl<A>(a: Seq<A>)
    ensures
        a.is_prefix_of(a),
{
    assert(a =~= a.subrange(0, a.len() as int));
}

/// Membership carries over from a prefix to the longer sequence.
pub(crate) proof fn lemma_prefix_contains<A>(a: Seq<A>, b: Seq<A>, x: A)
    requires
        a.is_prefix_of(b),
        a.contains(x),
    ensures
        b.contains(x),
{
    let i = choose|i: int| 0 <= i < a.len() && a[i] == x;
    assert(b[i] == b.subrange(0, a.len() as int)[i]);
}

/// Extending the taken prefix of `b` by one element.
pub(crate) proof fn lemma_append_subrange_push<A>(a: Seq<A>, b: Seq<A>, k: int)
    requires
        0 <= k < b.len(),
    ensures
        (a + b.subrange(0, k)).push(b[k]) == a + b.subrange(0, k + 1),
{
    assert((a + b.subrange(0, k)).push(b[k]) =~= a + b.subrange(0, k + 1));
}

/// Stable handle into the shared automaton; states are never destroyed, only
/// merged into one another.
pub type StateId = usize;

/// A field label together with its intrinsic variance.
#[derive(Copy, Clone, Debug, PartialEq, Eq, Structural)]
pub struct Label {
    pub id: u64,
    pub pol: Polarity,
}

/// One field of a constructor term: a label and the states the field points
/// at.
pub struct Field {
    pub label: Label,
    pub states: Vec<StateId>,
}

/// A constructor term attached to a state: a tag deciding structural
/// admissibility, and the built fields.
pub struct ConsTerm {
    pub tag: u64,
    pub fields: Vec<Field>,
}

/// Mathematical model of one field.
pub ghost struct FieldView {
    pub label: Label,
    pub states: Seq<StateId>,
}

/// Mathematical model of one constructor term.
pub ghost struct TermView {
    pub tag: u64,
    pub fields: Seq<FieldView>,
}

impl View for Field {
    type V = FieldView;

    open spec fn view(&self) -> FieldView {
        FieldView { label: self.label, states: self.states@ }
    }
}

impl View for ConsTerm {
    type V = TermView;

    open spec fn view(&self) -> TermView {
        TermView { tag: self.tag, fields: Seq::new(self.fields@.len(), |i: int| self.fields@[i]@) }
    }
}

/// The two poles of one type variable: a linked `Pos` state and `Neg` state.
#[derive(Copy, Clone, Debug, PartialEq, Eq, Structural)]
pub struct FlowPair {
    pub pos: StateId,
    pub neg: StateId,
}

impl FlowPair {
    /// The pole of the given polarity.
    pub fn get(self, pol: Polarity) -> (r: StateId)
        ensures
            pol == Polarity::Pos ==> r == self.pos,
            pol == Polarity::Neg ==> r == self.neg,
    {
        match pol {
            Polarity::Pos => self.pos,
            Polarity::Neg => self.neg,
        }
    }
}

pub struct State {
    pub pol: Polarity,
    pub cons: Vec<ConsTerm>,
    pub flow: Vec<StateId>,
}

/// The shared automaton, together with the domain-supplied structural partial
/// order on constructor tags: `(a, b)` present means a term tagged `a` is
/// admissible where a term tagged `b` is expected.
///
/// Flow edges and constructor terms model sets, observed through `contains`;
/// merging keeps the stored sequences append-only, so repeated or transitive
/// merging may repeat an element in storage without changing the set it
/// stands for.
pub struct Automaton {
    pub states: Vec<State>,
    pub order: Vec<(u64, u64)>,
}

impl Automaton {
    pub open spec fn n(self) -> int {
        self.states@.len() as int
    }

    pub open spec fn valid(self, s: int) -> bool {
        0 <= s < self.n()
    }

    pub open spec fn pol(self, s: int) -> Polarity {
        self.states@[s].pol
    }

    pub open spec fn flow(self, s: int) -> Seq<StateId> {
        self.states@[s].flow@
    }

    pub open spec fn flow_set(self, s: int) -> Set<StateId> {
        Set::new(|x: StateId| self.flow(s).contains(x))
    }

    pub open spec fn cons(self, s: int) -> Seq<TermView> {
        Seq::new(self.states@[s].cons@.len(), |i: int| self.states@[s].cons@[i]@)
    }

    pub open spec fn cons_set(self, s: int) -> Set<TermView> {
        Set::new(|t: TermView| self.cons(s).contains(t))
    }

    pub open spec fn order_set(self) -> Set<(u64, u64)> {
        Set::new(|p: (u64, u64)| self.order@.contains(p))
    }

    /// The automaton `self` extends `a`: states are never destroyed (every
    /// id valid in `a` stays valid), polarities never change, and flow and
    /// constructor contents only grow.
    pub open spec fn extends(self, a: Automaton) -> bool {
        &&& a.n() <= self.n()
        &&& forall|s: int| a.valid(s) ==> #[trigger] self.pol(s) == a.pol(s)
        &&& forall|s: int| a.valid(s) ==> a.cons(s).is_prefix_of(#[trigger] self.cons(s))
        &&& forall|s: int| a.valid(s) ==> a.flow(s).is_prefix_of(#[trigger] self.flow(s))
    }

    /// A term is well formed at polarity `p` when every field points at valid
    /// states whose polarity is `p` composed with the field's variance.
    pub open spec fn wf_term(self, p: Polarity, t: TermView) -> bool {
        forall|k: int, m: int|
            0 <= k < t.fields.len() && 0 <= m < t.fields[k].states.len()
                ==> self.valid(#[trigger] t.fields[k].states[m] as int) && self.pol(
                t.fields[k].states[m] as int,
            ) == p.compose(t.fields[k].label.pol)
    }

    /// The `k`-th flow edge of state `s` points at a valid state of opposite
    /// polarity that points back.
    pub open spec fn flow_edge_ok(self, s: int, k: int) -> bool {
        let q = self.flow(s)[k];
        &&& self.valid(q as int)
        &&& self.pol(q as int) == self.pol(s).negate()
        &&& self.flow_set(q as int).contains(s as StateId)
    }

    pub open spec fn wf_state(self, s: int) -> bool {
        &&& (forall|k: int| 0 <= k < self.flow(s).len() ==> #[trigger] self.flow_edge_ok(s, k))
        &&& (forall|k: int|
            0 <= k < self.cons(s).len() ==> self.wf_term(self.pol(s), #[trigger] self.cons(s)[k]))
    }

    /// The automaton invariant: every state's flow edges are valid, join
    /// opposite polarities and are symmetric, and every attached term is well
    /// formed at the state's polarity.
    pub open spec fn wf(self) -> bool {
        forall|s: int| self.valid(s) ==> #[trigger] self.wf_state(s)
    }

    /// A fresh automaton with no states, over the given tag order.
    pub fn new(order: Vec<(u64, u64)>) -> (r: Automaton)
        ensures
            r.n() == 0,
            r.wf(),
            r.order@ == order@,
    {
        Automaton { states: Vec::new(), order }
    }

    /// Whether the structural partial order admits tag `a` where tag `b` is
    /// expected.
    pub fn tag_le(&self, a: u64, b: u64) -> (r: bool)
        ensures
            r == self.order_set().contains((a, b)),
    {
        let mut k: usize = 0;
        while k < self.order.len()
            invariant
                0 <= k <= self.order@.len(),
                forall|j: int| 0 <= j < k ==> self.order@[j] != (a, b),
            decreases self.order@.len() - k,
        {
            if self.order[k].0 == a && self.order[k].1 == b {
                assert(self.order_set().contains((a, b))) by {
                    assert(self.order@.contains((a, b)));
                }
                return true;
            }
            k += 1;
        }
        assert(!self.order@.contains((a, b)));
        false
    }

    /// Allocates a fresh state of the given polarity with empty flow and
    /// constructor sets.
    pub fn build_empty(&mut self, pol: Polarity) -> (r: StateId)
        requires
            old(self).wf(),
            old(self).n() + 1 <= usize::MAX,
        ensures
            final(self).wf(),
            final(self).n() == old(self).n() + 1,
            r as int == old(self).n(),
            final(self).pol(r as int) == pol,
            final(self).flow(r as int) == Seq::<StateId>::empty(),
            final(self).cons(r as int) == Seq::<TermView>::empty(),
            forall|s: int| old(self).valid(s) ==> final(self).pol(s) == old(self).pol(s),
            forall|s: int| old(self).valid(s) ==> final(self).flow(s) == old(self).flow(s),
            forall|s: int| old(self).valid(s) ==> final(self).cons(s) == old(self).cons(s),
            final(self).order@ == old(self).order@,
    {
        let r = self.states.len();
        self.states.push(State { pol, cons: Vec::new(), flow: Vec::new() });
        proof {
            assert(final(self).cons(r as int) =~= Seq::<TermView>::empty());
            assert forall|s: int| final(self).valid(s) implies final(self).wf_state(s) by {
                if s < r as int {
                    assert(old(self).wf_state(s));
                    assert(final(self).flow(s) == old(self).flow(s));
                    assert(final(self).cons(s) == old(self).cons(s));
                    assert forall|k: int| 0 <= k < final(self).flow(s).len() implies final(self).flow_edge_ok(s, k) by {
                        assert(old(self).flow_edge_ok(s, k));
                        let q = old(self).flow(s)[k];
                        assert(final(self).flow(q as int) == old(self).flow(q as int));
                    }
                }
            }
        }
        r
    }

    /// Allocates a fresh linked (`Pos`, `Neg`) pair of states for one type
    /// variable, each carrying a flow edge to the other.
    pub fn build_var(&mut self) -> (pair: FlowPair)
        requires
            old(self).wf(),
            old(self).n() + 2 <= usize::MAX,
        ensures
            final(self).wf(),
            final(self).n() == old(self).n() + 2,
            pair.pos as int == old(self).n(),
            pair.neg as int == old(self).n() + 1,
            final(self).pol(pair.pos as int) == Polarity::Pos,
            final(self).pol(pair.neg as int) == Polarity::Neg,
            final(self).flow(pair.pos as int) == seq![pair.neg],
            final(self).flow(pair.neg as int) == seq![pair.pos],
            final(self).cons(pair.pos as int) == Seq::<TermView>::empty(),
            final(self).cons(pair.neg as int) == Seq::<TermView>::empty(),
            forall|s: int| old(self).valid(s) ==> final(self).pol(s) == old(self).pol(s),
            forall|s: int| old(self).valid(s) ==> final(self).flow(s) == old(self).flow(s),
            forall|s: int| old(self).valid(s) ==> final(self).cons(s) == old(self).cons(s),
            final(self).order@ == old(self).order@,
    {
        let p = self.states.len();
        let q = p + 1;
        self.states.push(State { pol: Polarity::Pos, cons: Vec::new(), flow: vec![q] });
        self.states.push(State { pol: Polarity::Neg, cons: Vec::new(), flow: vec![p] });
        proof {
            assert(final(self).cons(p as int) =~= Seq::<TermView>::empty());
            assert(final(self).cons(q as int) =~= Seq::<TermView>::empty());
            assert(final(self).flow(p as int) =~= seq![q]);
            assert(final(self).flow(q as int) =~= seq![p]);
            assert(final(self).flow_set(p as int).contains(q)) by {
                assert(final(self).flow(p as int)[0] == q);
                assert(final(self).flow(p as int).contains(q));
            }
            assert(final(self).flow_set(q as int).contains(p)) by {
                assert(final(self).flow(q as int)[0] == p);
                assert(final(self).flow(q as int).contains(p));
            }
            assert forall|s: int| final(self).valid(s) implies final(self).wf_state(s) by {
                if s < p as int {
                    assert(old(self).wf_state(s));
                    assert(final(self).flow(s) == old(self).flow(s));
                    assert(final(self).cons(s) == old(self).cons(s));
                    assert forall|k: int| 0 <= k < final(self).flow(s).len() implies final(self).flow_edge_ok(s, k) by {
                        assert(old(self).flow_edge_ok(s, k));
                        let t = old(self).flow(s)[k];
                        assert(final(self).flow(t as int) == old(self).flow(t as int));
                    }
                } else if s == p as int {
                    assert forall|k: int| 0 <= k < final(self).flow(s).len() implies final(self).flow_edge_ok(s, k) by {
                        assert(final(self).flow(s)[k] == q);
                    }
                } else {
                    assert forall|k: int| 0 <= k < final(self).flow(s).len() implies final(self).flow_edge_ok(s, k) by {
                        assert(final(self).flow(s)[k] == p);
                    }
                }
            }
        }
        FlowPair { pos: p, neg: q }
    }

    /// `extends` is reflexive.
    pub proof fn lemma_extends_refl(self)
        ensures
            self.extends(self),
    {
        assert forall|s: int| self.valid(s) implies self.cons(s).is_prefix_of(
            #[trigger] self.cons(s),
        ) && self.flow(s).is_prefix_of(#[trigger] self.flow(s)) by {
            lemma_prefix_refl(self.cons(s));
            lemma_prefix_refl(self.flow(s));
        }
    }

    /// `extends` is transitive.
    pub proof fn lemma_extends_trans(a: Automaton, b: Automaton, c: Automaton)
        requires
            b.extends(a),
            c.extends(b),
        ensures
            c.extends(a),
    {
        assert forall|s: int| a.valid(s) implies a.cons(s).is_prefix_of(#[trigger] c.cons(s))
            && a.flow(s).is_prefix_of(#[trigger] c.flow(s)) by {
            assert(b.valid(s));
            lemma_prefix_trans(a.cons(s), b.cons(s), c.cons(s));
            lemma_prefix_trans(a.flow(s), b.flow(s), c.flow(s));
        }
    }

    /// The number of states always fits the index type.
    pub proof fn lemma_n_bound(self)
        ensures
            self.n() <= usize::MAX,
    {
        assert(vstd::std_specs::vec::spec_vec_len(&self.states) == self.states@.len());
    }

    /// A fresh copy of the `k`-th constructor term attached to state `s`.
    fn copy_term_at(&self, s: StateId, k: usize) -> (t: ConsTerm)
        requires
            self.valid(s as int),
            k < self.states@[s as int].cons@.len(),
        ensures
            t@ == self.cons(s as int)[k as int],
    {
        let term = &self.states[s].cons[k];
        let nf = term.fields.len();
        let mut fields: Vec<Field> = Vec::new();
        let mut f: usize = 0;
        while f < nf
            invariant
                nf == term.fields@.len(),
                f <= nf,
                fields@.len() == f,
                forall|i: int| 0 <= i < f ==> #[trigger] fields@[i]@ == term.fields@[i]@,
            decreases nf - f,
        {
            let ns = term.fields[f].states.len();
            let mut ids: Vec<StateId> = Vec::new();
            let mut m: usize = 0;
            while m < ns
                invariant
                    f < term.fields@.len(),
                    ns == term.fields@[f as int].states@.len(),
                    m <= ns,
                    ids@ =~= term.fields@[f as int].states@.subrange(0, m as int),
                decreases ns - m,
            {
                ids.push(term.fields[f].states[m]);
                m += 1;
            }
            assert(ids@ =~= term.fields@[f as int].states@);
            fields.push(Field { label: term.fields[f].label, states: ids });
            assert(fields@[f as int]@ == term.fields@[f as int]@);
            f += 1;
        }
        let t = ConsTerm { tag: term.tag, fields };
        proof {
            assert(t@.fields =~= term@.fields);
            assert(self.cons(s as int)[k as int] == self.states@[s as int].cons@[k as int]@);
        }
        t
    }

    /// Unions `from`'s constructor terms and flow edges into `into`, adding
    /// the reverse flow edges that keep the flow relation symmetric. A no-op
    /// when `into == from`; consistent under repeated and transitive merging.
    pub(crate) fn merge(&mut self, pol: Polarity, into: StateId, from: StateId)
        requires
            old(self).wf(),
            old(self).valid(into as int),
            old(self).valid(from as int),
            old(self).pol(into as int) == pol,
            old(self).pol(from as int) == pol,
        ensures
            final(self).wf(),
            final(self).n() == old(self).n(),
            final(self).order@ == old(self).order@,
            forall|s: int| old(self).valid(s) ==> final(self).pol(s) == old(self).pol(s),
            into == from ==> *final(self) == *old(self),
            forall|s: int|
                old(self).valid(s) && s != into as int ==> final(self).cons(s) == old(self).cons(
                    s,
                ),
            into != from ==> final(self).cons(into as int) == old(self).cons(into as int) + old(
                self,
            ).cons(from as int),
            forall|s: int|
                old(self).valid(s) ==> old(self).cons(s).is_prefix_of(final(self).cons(s)),
            forall|s: int|
                old(self).valid(s) ==> old(self).flow(s).is_prefix_of(final(self).flow(s)),
            forall|s: int|
                old(self).valid(s) && s != into as int && !old(self).flow(from as int).contains(
                    s as StateId,
                ) ==> final(self).flow(s) == old(self).flow(s),
            forall|s: int, x: StateId|
                old(self).valid(s) ==> (final(self).flow(s).contains(x) <==> old(self).flow(
                    s,
                ).contains(x) || (s == into as int && old(self).flow(from as int).contains(x)) || (
                x == into && old(self).flow(from as int).contains(s as StateId))),
    {
        if into == from {
            proof {
                old(self).lemma_n_bound();
                assert forall|s: int, x: StateId|
                    old(self).valid(s) implies (#[trigger] old(self).flow(s).contains(x) <==> old(
                    self,
                ).flow(s).contains(x) || (s == into as int && old(self).flow(from as int).contains(
                    x,
                )) || (x == into && old(self).flow(from as int).contains(s as StateId))) by {
                    if x == into && old(self).flow(from as int).contains(s as StateId) {
                        assert(old(self).wf_state(from as int));
                        let j = choose|j: int|
                            0 <= j < old(self).flow(from as int).len() && old(self).flow(
                                from as int,
                            )[j] == s as StateId;
                        assert(old(self).flow_edge_ok(from as int, j));
                        assert(old(self).flow(s).contains(from));
                    }
                    if s == into as int && old(self).flow(from as int).contains(x) {
                        assert(old(self).flow(s).contains(x));
                    }
                }
            }
            return ;
        }
        let m = self.states[from].cons.len();
        let mut k: usize = 0;
        while k < m
            invariant
                old(self).wf(),
                into != from,
                old(self).valid(into as int),
                old(self).valid(from as int),
                m == old(self).states@[from as int].cons@.len(),
                k <= m,
                self.states@.len() == old(self).states@.len(),
                forall|s: int|
                    0 <= s < self.n() && s != into as int ==> self.states@[s] == old(
                        self,
                    ).states@[s],
                self.states@[into as int].pol == old(self).states@[into as int].pol,
                self.states@[into as int].flow == old(self).states@[into as int].flow,
                self.cons(into as int) =~= old(self).cons(into as int) + old(self).cons(
                    from as int,
                ).subrange(0, k as int),
                self.order@ == old(self).order@,
            decreases m - k,
        {
            proof {
                assert(self.cons(from as int) =~= old(self).cons(from as int));
            }
            let t = self.copy_term_at(from, k);
            let ghost prev = self.states@[into as int].cons@;
            let ghost pcons = self.cons(into as int);
            self.states[into].cons.push(t);
            proof {
                assert(self.states@[into as int].cons@ == prev.push(t));
                assert(self.cons(into as int) =~= pcons.push(t@));
                lemma_append_subrange_push(
                    old(self).cons(into as int),
                    old(self).cons(from as int),
                    k as int,
                );
            }
            k += 1;
        }
        proof {
            assert(old(self).cons(from as int).subrange(0, m as int) =~= old(self).cons(
                from as int,
            ));
        }
        let mf = self.states[from].flow.len();
        let mut k: usize = 0;
        while k < mf
            invariant
                old(self).wf(),
                into != from,
                old(self).valid(into as int),
                old(self).valid(from as int),
                mf == old(self).states@[from as int].flow@.len(),
                k <= mf,
                self.states@.len() == old(self).states@.len(),
                forall|s: int|
                    0 <= s < self.n() && s != into as int ==> self.states@[s] == old(
                        self,
                    ).states@[s],
                self.states@[into as int].pol == old(self).states@[into as int].pol,
                self.cons(into as int) =~= old(self).cons(into as int) + old(self).cons(
                    from as int,
                ),
                self.states@[into as int].flow@ =~= old(self).flow(into as int) + old(self).flow(
                    from as int,
                ).subrange(0, k as int),
                self.order@ == old(self).order@,
            decreases mf - k,
        {
            let q = self.states[from].flow[k];
            let ghost prevf = self.states@[into as int].flow@;
            let ghost pcons2 = self.cons(into as int);
            self.states[into].flow.push(q);
            proof {
                assert(self.states@[into as int].flow@ == prevf.push(q));
                assert(self.cons(into as int) =~= pcons2);
                lemma_append_subrange_push(
                    old(self).flow(into as int),
                    old(self).flow(from as int),
                    k as int,
                );
            }
            k += 1;
        }
        proof {
            assert(old(self).flow(from as int).subrange(0, mf as int) =~= old(self).flow(
                from as int,
            ));
        }
        let mut k: usize = 0;
        while k < mf
            invariant
                old(self).wf(),
                into != from,
                old(self).valid(into as int),
                old(self).valid(from as int),
                old(self).pol(into as int) == old(self).pol(from as int),
                mf == old(self).states@[from as int].flow@.len(),
                k <= mf,
                self.states@.len() == old(self).states@.len(),
                forall|s: int|
                    0 <= s < self.n() ==> self.states@[s].pol == old(self).states@[s].pol,
                forall|s: int|
                    0 <= s < self.n() && s != into as int ==> self.states@[s].cons == old(
                        self,
                    ).states@[s].cons,
                self.cons(into as int) =~= old(self).cons(into as int) + old(self).cons(
                    from as int,
                ),
                self.states@[into as int].flow@ =~= old(self).flow(into as int) + old(self).flow(
                    from as int,
                ),
                self.states@[from as int].flow@ == old(self).flow(from as int),
                forall|s: int|
                    0 <= s < self.n() ==> old(self).flow(s).is_prefix_of(#[trigger] self.flow(s)),
                forall|s: int|
                    0 <= s < self.n() && s != into as int && !old(self).flow(
                        from as int,
                    ).subrange(0, k as int).contains(s as StateId) ==> #[trigger] self.flow(s)
                        == old(self).flow(s),
                forall|s: int, x: StateId|
                    0 <= s < self.n() ==> (#[trigger] self.flow(s).contains(x) <==> old(self).flow(
                        s,
                    ).contains(x) || (s == into as int && old(self).flow(from as int).contains(x))
                        || (x == into && old(self).flow(from as int).subrange(
                        0,
                        k as int,
                    ).contains(s as StateId))),
                self.order@ == old(self).order@,
            decreases mf - k,
        {
            let ghost snap = *self;
            let q = self.states[from].flow[k];
            proof {
                assert(old(self).wf_state(from as int));
                assert(old(self).flow_edge_ok(from as int, k as int));
                assert(old(self).pol(q as int) == old(self).pol(from as int).negate());
                assert(q != into && q != from);
            }
            let ghost prevq = self.states@[q as int].flow@;
            self.states[q].flow.push(into);
            proof {
                old(self).lemma_n_bound();
                assert(self.states@[q as int].flow@ == prevq.push(into));
                assert(old(self).flow(from as int).subrange(0, k as int + 1) =~= old(self).flow(
                    from as int,
                ).subrange(0, k as int).push(q));
                assert forall|s: int, x: StateId| 0 <= s < self.n() implies (#[trigger] self.flow(
                    s,
                ).contains(x) <==> old(self).flow(s).contains(x) || (s == into as int && old(
                    self,
                ).flow(from as int).contains(x)) || (x == into && old(self).flow(
                    from as int,
                ).subrange(0, k as int + 1).contains(s as StateId))) by {
                    lemma_push_contains(
                        old(self).flow(from as int).subrange(0, k as int),
                        q,
                        s as StateId,
                    );
                    assert(s == q as int <==> s as StateId == q);
                    assert(old(self).flow(from as int).subrange(0, k as int + 1).contains(
                        s as StateId,
                    ) <==> old(self).flow(from as int).subrange(0, k as int).contains(s as StateId)
                        || s == q as int);
                    assert(snap.flow(s).contains(x) <==> old(self).flow(s).contains(x) || (s
                        == into as int && old(self).flow(from as int).contains(x)) || (x == into
                        && old(self).flow(from as int).subrange(0, k as int).contains(
                        s as StateId,
                    )));
                    if s == q as int {
                        assert(self.flow(s) == prevq.push(into));
                        assert(prevq == snap.flow(s));
                        lemma_push_contains(prevq, into, x);
                    } else {
                        assert(self.flow(s) == snap.flow(s));
                    }
                }
                assert forall|s: int|
                    0 <= s < self.n() implies old(self).flow(s).is_prefix_of(
                    #[trigger] self.flow(s),
                ) by {
                    assert(old(self).flow(s).is_prefix_of(snap.flow(s)));
                    if s == q as int {
                        assert(prevq == snap.flow(s));
                        assert(self.flow(s) == prevq.push(into));
                        lemma_prefix_push(old(self).flow(s), prevq, into);
                    } else {
                        assert(self.flow(s) == snap.flow(s));
                    }
                }
                assert forall|s: int|
                    0 <= s < self.n() && s != into as int && !old(self).flow(
                        from as int,
                    ).subrange(0, k as int + 1).contains(s as StateId) implies #[trigger] self.flow(
                    s,
                ) == old(self).flow(s) by {
                    assert(s != q as int);
                    assert(self.flow(s) == snap.flow(s));
                    assert(!old(self).flow(from as int).subrange(0, k as int).contains(
                        s as StateId,
                    )) by {
                        if old(self).flow(from as int).subrange(0, k as int).contains(
                            s as StateId,
                        ) {
                            let j = choose|j: int|
                                0 <= j < k && old(self).flow(from as int).subrange(0, k as int)[j]
                                    == s as StateId;
                            assert(old(self).flow(from as int).subrange(0, k as int + 1)[j]
                                == s as StateId);
                        }
                    }
                }
            }
            k += 1;
        }
        proof {
            assert(old(self).flow(from as int).subrange(0, mf as int) =~= old(self).flow(
                from as int,
            ));
            let fin = *self;
            old(self).lemma_n_bound();
            assert(fin.n() == old(self).n());
            assert forall|s: int| fin.valid(s) implies fin.wf_state(s) by {
                assert(old(self).wf_state(s));
                assert forall|k2: int| 0 <= k2 < fin.flow(s).len() implies fin.flow_edge_ok(
                    s,
                    k2,
                ) by {
                    let x = fin.flow(s)[k2];
                    assert(fin.flow(s).contains(x));
                    if old(self).flow(s).contains(x) {
                        let j = choose|j: int|
                            0 <= j < old(self).flow(s).len() && old(self).flow(s)[j] == x;
                        assert(old(self).flow_edge_ok(s, j));
                        assert(old(self).flow(x as int).contains(s as StateId));
                    } else if s == into as int && old(self).flow(from as int).contains(x) {
                        assert(old(self).wf_state(from as int));
                        let j = choose|j: int|
                            0 <= j < old(self).flow(from as int).len() && old(self).flow(
                                from as int,
                            )[j] == x;
                        assert(old(self).flow_edge_ok(from as int, j));
                        assert(fin.flow(x as int).contains(into));
                    } else {
                        assert(x == into && old(self).flow(from as int).contains(s as StateId));
                        assert(old(self).wf_state(from as int));
                        let j = choose|j: int|
                            0 <= j < old(self).flow(from as int).len() && old(self).flow(
                                from as int,
                            )[j] == s as StateId;
                        assert(old(self).flow_edge_ok(from as int, j));
                        assert(s as StateId as int == s);
                        assert(old(self).flow(from as int)[j] as int == s);
                        assert(old(self).pol(s) == old(self).pol(from as int).negate());
                        lemma_append_contains(
                            old(self).flow(into as int),
                            old(self).flow(from as int),
                            s as StateId,
                        );
                        assert(fin.flow(into as int).contains(s as StateId));
                    }
                }
                assert forall|k2: int| 0 <= k2 < fin.cons(s).len() implies fin.wf_term(
                    fin.pol(s),
                    #[trigger] fin.cons(s)[k2],
                ) by {
                    let t = fin.cons(s)[k2];
                    if s != into as int {
                        assert(fin.cons(s) == old(self).cons(s));
                        assert(old(self).wf_term(old(self).pol(s), t));
                    } else {
                        if k2 < old(self).cons(s).len() {
                            assert(t == old(self).cons(s)[k2]);
                            assert(old(self).wf_term(old(self).pol(s), t));
                        } else {
                            assert(old(self).wf_state(from as int));
                            assert(t == old(self).cons(from as int)[k2 - old(self).cons(
                                s,
                            ).len()]);
                            assert(old(self).wf_term(old(self).pol(from as int), t));
                        }
                    }
                    assert forall|a: int, b: int|
                        0 <= a < t.fields.len() && 0 <= b
                            < t.fields[a].states.len() implies fin.valid(
                        #[trigger] t.fields[a].states[b] as int,
                    ) && fin.pol(t.fields[a].states[b] as int) == fin.pol(s).compose(
                        t.fields[a].label.pol,
                    ) by {
                        assert(old(self).valid(t.fields[a].states[b] as int));
                    }
                }
            }
        }
    }
    /// Records flow edges at `at`: every state that `src`'s flow set points
    /// at becomes flow-linked with `at` as well, in both directions, so the
    /// flow relation stays symmetric. Constructor sets are untouched: this is
    /// the flow-only half of merging, used to give a variable occurrence the
    /// edges of its pole.
    pub(crate) fn merge_flow(&mut self, pol: Polarity, at: StateId, src: StateId)
        requires
            old(self).wf(),
            old(self).valid(at as int),
            old(self).valid(src as int),
            old(self).pol(at as int) == pol,
            old(self).pol(src as int) == pol,
        ensures
            final(self).wf(),
            final(self).n() == old(self).n(),
            final(self).order@ == old(self).order@,
            forall|s: int| old(self).valid(s) ==> final(self).pol(s) == old(self).pol(s),
            forall|s: int| old(self).valid(s) ==> final(self).cons(s) == old(self).cons(s),
            forall|s: int|
                old(self).valid(s) ==> old(self).flow(s).is_prefix_of(final(self).flow(s)),
            forall|s: int, x: StateId|
                old(self).valid(s) ==> (final(self).flow(s).contains(x) <==> old(self).flow(
                    s,
                ).contains(x) || (s == at as int && old(self).flow(src as int).contains(x)) || (x
                    == at && old(self).flow(src as int).contains(s as StateId))),
    {
        let mf = self.states[src].flow.len();
        let mut k: usize = 0;
        while k < mf
            invariant
                old(self).wf(),
                old(self).valid(at as int),
                old(self).valid(src as int),
                old(self).pol(at as int) == old(self).pol(src as int),
                mf == old(self).states@[src as int].flow@.len(),
                k <= mf,
                self.states@.len() == old(self).states@.len(),
                forall|s: int|
                    0 <= s < self.n() ==> self.states@[s].pol == old(self).states@[s].pol,
                forall|s: int|
                    0 <= s < self.n() ==> self.states@[s].cons == old(self).states@[s].cons,
                self.states@[at as int].flow@ =~= old(self).flow(at as int) + old(self).flow(
                    src as int,
                ).subrange(0, k as int),
                at != src ==> self.states@[src as int].flow@ == old(self).flow(src as int),
                forall|s: int|
                    0 <= s < self.n() ==> old(self).flow(s).is_prefix_of(#[trigger] self.flow(s)),
                forall|s: int, x: StateId|
                    0 <= s < self.n() ==> (#[trigger] self.flow(s).contains(x) <==> old(self).flow(
                        s,
                    ).contains(x) || (s == at as int && old(self).flow(src as int).subrange(
                        0,
                        k as int,
                    ).contains(x)) || (x == at && old(self).flow(src as int).subrange(
                        0,
                        k as int,
                    ).contains(s as StateId))),
                self.order@ == old(self).order@,
            decreases mf - k,
        {
            let ghost snap = *self;
            proof {
                old(self).lemma_n_bound();
                assert(old(self).wf_state(src as int));
                assert(old(self).flow_edge_ok(src as int, k as int));
                assert(self.flow(src as int)[k as int] == old(self).flow(src as int)[k as int])
                    by {
                    if at == src {
                        assert(self.flow(src as int)[k as int] == (old(self).flow(at as int) + old(
                            self,
                        ).flow(src as int).subrange(0, k as int))[k as int]);
                    }
                }
            }
            let q = self.states[src].flow[k];
            proof {
                assert(old(self).pol(q as int) == old(self).pol(src as int).negate());
                assert(q != at && q != src);
            }
            let ghost prevat = self.states@[at as int].flow@;
            self.states[at].flow.push(q);
            let ghost midq = self.states@[q as int].flow@;
            self.states[q].flow.push(at);
            proof {
                assert(self.states@[at as int].flow@ == prevat.push(q));
                assert(self.states@[q as int].flow@ == midq.push(at));
                assert(midq == snap.flow(q as int));
                lemma_append_subrange_push(
                    old(self).flow(at as int),
                    old(self).flow(src as int),
                    k as int,
                );
                assert(old(self).flow(src as int).subrange(0, k as int + 1) =~= old(self).flow(
                    src as int,
                ).subrange(0, k as int).push(q));
                assert forall|s: int, x: StateId| 0 <= s < self.n() implies (#[trigger] self.flow(
                    s,
                ).contains(x) <==> old(self).flow(s).contains(x) || (s == at as int && old(
                    self,
                ).flow(src as int).subrange(0, k as int + 1).contains(x)) || (x == at && old(
                    self,
                ).flow(src as int).subrange(0, k as int + 1).contains(s as StateId))) by {
                    lemma_push_contains(
                        old(self).flow(src as int).subrange(0, k as int),
                        q,
                        s as StateId,
                    );
                    lemma_push_contains(old(self).flow(src as int).subrange(0, k as int), q, x);
                    assert(snap.flow(s).contains(x) <==> old(self).flow(s).contains(x) || (s
                        == at as int && old(self).flow(src as int).subrange(0, k as int).contains(
                        x,
                    )) || (x == at && old(self).flow(src as int).subrange(0, k as int).contains(
                        s as StateId,
                    )));
                    if s == q as int {
                        assert(self.flow(s) == midq.push(at));
                        lemma_push_contains(midq, at, x);
                        if s == at as int {
                            assert(false);
                        }
                    } else if s == at as int {
                        assert(self.flow(s) == prevat.push(q));
                        assert(prevat == snap.flow(s));
                        lemma_push_contains(prevat, q, x);
                    } else {
                        assert(self.flow(s) == snap.flow(s));
                    }
                }
                assert forall|s: int|
                    0 <= s < self.n() implies old(self).flow(s).is_prefix_of(
                    #[trigger] self.flow(s),
                ) by {
                    assert(old(self).flow(s).is_prefix_of(snap.flow(s)));
                    if s == q as int {
                        lemma_prefix_push(old(self).flow(s), midq, at);
                    } else if s == at as int {
                        lemma_prefix_push(old(self).flow(s), prevat, q);
                    } else {
                        assert(self.flow(s) == snap.flow(s));
                    }
                }
                if at != src {
                    assert(self.states@[src as int].flow@ == old(self).flow(src as int));
                }
            }
            k += 1;
        }
        proof {
            assert(old(self).flow(src as int).subrange(0, mf as int) =~= old(self).flow(
                src as int,
            ));
            old(self).lemma_n_bound();
            let fin = *self;
            assert(fin.n() == old(self).n());
            assert forall|s: int| fin.valid(s) implies fin.wf_state(s) by {
                assert(old(self).wf_state(s));
                assert forall|k2: int| 0 <= k2 < fin.flow(s).len() implies fin.flow_edge_ok(
                    s,
                    k2,
                ) by {
                    let x = fin.flow(s)[k2];
                    assert(fin.flow(s).contains(x));
                    if old(self).flow(s).contains(x) {
                        let j = choose|j: int|
                            0 <= j < old(self).flow(s).len() && old(self).flow(s)[j] == x;
                        assert(old(self).flow_edge_ok(s, j));
                        assert(old(self).flow(x as int).contains(s as StateId));
                    } else if s == at as int && old(self).flow(src as int).contains(x) {
                        assert(old(self).wf_state(src as int));
                        let j = choose|j: int|
                            0 <= j < old(self).flow(src as int).len() && old(self).flow(
                                src as int,
                            )[j] == x;
                        assert(old(self).flow_edge_ok(src as int, j));
                        assert(fin.flow(x as int).contains(at));
                    } else {
                        assert(x == at && old(self).flow(src as int).contains(s as StateId));
                        assert(old(self).wf_state(src as int));
                        let j = choose|j: int|
                            0 <= j < old(self).flow(src as int).len() && old(self).flow(
                                src as int,
                            )[j] == s as StateId;
                        assert(old(self).flow_edge_ok(src as int, j));
                        assert(s as StateId as int == s);
                        assert(old(self).flow(src as int)[j] as int == s);
                        assert(old(self).pol(s) == old(self).pol(src as int).negate());
                        assert(fin.flow(at as int).contains(s as StateId)) by {
                            lemma_append_contains(
                                old(self).flow(at as int),
                                old(self).flow(src as int),
                                s as StateId,
                            );
                        }
                    }
                }
                assert forall|k2: int| 0 <= k2 < fin.cons(s).len() implies fin.wf_term(
                    fin.pol(s),
                    #[trigger] fin.cons(s)[k2],
                ) by {
                    assert(fin.cons(s) == old(self).cons(s));
                    let t = fin.cons(s)[k2];
                    assert(old(self).wf_term(old(self).pol(s), t));
                    assert forall|a: int, b: int|
                        0 <= a < t.fields.len() && 0 <= b
                            < t.fields[a].states.len() implies fin.valid(
                        #[trigger] t.fields[a].states[b] as int,
                    ) && fin.pol(t.fields[a].states[b] as int) == fin.pol(s).compose(
                        t.fields[a].label.pol,
                    ) by {
                        assert(old(self).valid(t.fields[a].states[b] as int));
                    }
                }
            }
            assert forall|s: int| old(self).valid(s) implies fin.cons(s) == old(self).cons(s) by {}
        }
    }

    /// Attaches two already-built children as alternative contents of `at`:
    /// the union node takes over both children's constructor terms and flow
    /// edges.
    pub(crate) fn build_add_at(&mut self, pol: Polarity, at: StateId, l: StateId, r: StateId)
        requires
            old(self).wf(),
            old(self).valid(at as int),
            old(self).valid(l as int),
            old(self).valid(r as int),
            old(self).pol(at as int) == pol,
            old(self).pol(l as int) == pol,
            old(self).pol(r as int) == pol,
        ensures
            final(self).wf(),
            final(self).n() == old(self).n(),
            final(self).order@ == old(self).order@,
            forall|s: int| old(self).valid(s) ==> final(self).pol(s) == old(self).pol(s),
            forall|s: int|
                old(self).valid(s) && s != at as int ==> final(self).cons(s) == old(self).cons(s),
            at != l && at != r ==> final(self).cons(at as int) == old(self).cons(at as int) + old(
                self,
            ).cons(l as int) + old(self).cons(r as int),
            at == l && at != r ==> final(self).cons(at as int) == old(self).cons(at as int) + old(
                self,
            ).cons(r as int),
            at != l && at == r ==> final(self).cons(at as int) == old(self).cons(at as int) + old(
                self,
            ).cons(l as int),
            at == l && at == r ==> final(self).cons(at as int) == old(self).cons(at as int),
            forall|s: int|
                old(self).valid(s) ==> old(self).flow(s).is_prefix_of(final(self).flow(s)),
            forall|s: int, x: StateId|
                old(self).valid(s) ==> (final(self).flow(s).contains(x) <==> old(self).flow(
                    s,
                ).contains(x) || (s == at as int && (old(self).flow(l as int).contains(x) || old(
                    self,
                ).flow(r as int).contains(x))) || (x == at && (old(self).flow(l as int).contains(
                    s as StateId,
                ) || old(self).flow(r as int).contains(s as StateId)))),
    {
        let ghost pre = *old(self);
        self.merge(pol, at, l);
        let ghost mid = *self;
        proof {
            pre.lemma_n_bound();
            if at != r {
                assert(mid.flow(r as int) == pre.flow(r as int)) by {
                    assert(!pre.flow(l as int).contains(r as StateId)) by {
                        if pre.flow(l as int).contains(r as StateId) {
                            assert(pre.wf_state(l as int));
                            let j = choose|j: int|
                                0 <= j < pre.flow(l as int).len() && pre.flow(l as int)[j]
                                    == r as StateId;
                            assert(pre.flow_edge_ok(l as int, j));
                            assert(false);
                        }
                    }
                }
            }
        }
        self.merge(pol, at, r);
        proof {
            if at != l && at != r {
                assert(final(self).cons(at as int) =~= pre.cons(at as int) + pre.cons(l as int)
                    + pre.cons(r as int));
            }
            if at == l && at != r {
                assert(mid == pre);
                assert(final(self).cons(at as int) =~= pre.cons(at as int) + pre.cons(r as int));
            }
            if at != l && at == r {
                assert(final(self).cons(at as int) =~= pre.cons(at as int) + pre.cons(l as int));
            }
            if at == l && at == r {
                assert(final(self).cons(at as int) =~= pre.cons(at as int));
            }
            assert forall|s: int|
                pre.valid(s) implies pre.flow(s).is_prefix_of(final(self).flow(s)) by {
                assert(pre.flow(s).is_prefix_of(mid.flow(s)));
                assert(mid.valid(s));
                assert(mid.flow(s).is_prefix_of(final(self).flow(s)));
                lemma_prefix_trans(pre.flow(s), mid.flow(s), final(self).flow(s));
            }
            assert forall|s: int, x: StateId|
                pre.valid(s) implies (final(self).flow(s).contains(x) <==> pre.flow(s).contains(x)
                || (s == at as int && (pre.flow(l as int).contains(x) || pre.flow(
                r as int,
            ).contains(x))) || (x == at && (pre.flow(l as int).contains(s as StateId) || pre.flow(
                r as int,
            ).contains(s as StateId)))) by {
                assert(final(self).flow(s).contains(x) <==> mid.flow(s).contains(x) || (s
                    == at as int && mid.flow(r as int).contains(x)) || (x == at && mid.flow(
                    r as int,
                ).contains(s as StateId)));
                assert(mid.flow(s).contains(x) <==> pre.flow(s).contains(x) || (s == at as int
                    && pre.flow(l as int).contains(x)) || (x == at && pre.flow(l as int).contains(
                    s as StateId,
                )));
                if at != r {
                    assert(mid.flow(r as int) == pre.flow(r as int));
                } else {
                    assert(mid.flow(r as int).contains(x) <==> pre.flow(at as int).contains(x)
                        || pre.flow(l as int).contains(x) || (x == at && pre.flow(
                        l as int,
                    ).contains(at)));
                }
            }
        }
    }

    /// Attaches one constructor term, whose fields are already built, to `at`.
    pub(crate) fn build_constructed_at(&mut self, pol: Polarity, at: StateId, term: ConsTerm)
        requires
            old(self).wf(),
            old(self).valid(at as int),
            old(self).pol(at as int) == pol,
            old(self).wf_term(pol, term@),
        ensures
            final(self).wf(),
            final(self).n() == old(self).n(),
            final(self).order@ == old(self).order@,
            forall|s: int| old(self).valid(s) ==> final(self).pol(s) == old(self).pol(s),
            forall|s: int| old(self).valid(s) ==> final(self).flow(s) == old(self).flow(s),
            forall|s: int|
                old(self).valid(s) && s != at as int ==> final(self).cons(s) == old(self).cons(s),
            final(self).cons(at as int) == old(self).cons(at as int).push(term@),
        {
        let ghost tv = term@;
        let ghost prev = self.states@[at as int].cons@;
        self.states[at].cons.push(term);
        proof {
            assert(self.states@[at as int].cons@ == prev.push(term));
            assert(final(self).cons(at as int) =~= old(self).cons(at as int).push(tv));
            assert forall|s: int| final(self).valid(s) implies final(self).wf_state(s) by {
                assert(old(self).wf_state(s));
                assert forall|k: int| 0 <= k < final(self).flow(s).len() implies final(self).flow_edge_ok(s, k) by {
                    assert(old(self).flow_edge_ok(s, k));
                    let q = old(self).flow(s)[k];
                    assert(final(self).flow(q as int) == old(self).flow(q as int));
                }
                assert forall|k: int| 0 <= k < final(self).cons(s).len() implies final(self).wf_term(final(self).pol(s), #[trigger] final(self).cons(s)[k]) by {
                    let t = final(self).cons(s)[k];
                    if s == at as int && k == old(self).cons(s).len() {
                        assert(t == tv);
                        assert(old(self).wf_term(pol, t));
                    } else {
                        assert(t == old(self).cons(s)[k]);
                        assert(old(self).wf_term(old(self).pol(s), t));
                    }
                    assert forall|a: int, b: int|
                        0 <= a < t.fields.len() && 0 <= b
                            < t.fields[a].states.len() implies final(self).valid(
                        #[trigger] t.fields[a].states[b] as int,
                    ) && final(self).pol(t.fields[a].states[b] as int) == final(self).pol(
                        s,
                    ).compose(t.fields[a].label.pol) by {
                        assert(old(self).valid(t.fields[a].states[b] as int));
                    }
                }
            }
        }
    }

    /// The number of states allocated so far.
    pub fn num_states(&self) -> (r: usize)
        ensures
            r as int == self.n(),
    {
        self.states.len()
    }

    /// The fixed polarity of a state.
    pub fn polarity_of(&self, s: StateId) -> (r: Polarity)
        requires
            self.valid(s as int),
        ensures
            r == self.pol(s as int),
    {
        self.states[s].pol
    }

    /// How many constructor terms are attached to a state.
    pub fn cons_len(&self, s: StateId) -> (r: usize)
        requires
            self.valid(s as int),
        ensures
            r as int == self.cons(s as int).len(),
    {
        self.states[s].cons.len()
    }

    /// The tag of the `k`-th constructor term of a state.
    pub fn cons_tag(&self, s: StateId, k: usize) -> (r: u64)
        requires
            self.valid(s as int),
            k < self.cons(s as int).len(),
        ensures
            r == self.cons(s as int)[k as int].tag,
    {
        self.states[s].cons[k].tag
    }

    /// How many fields the `k`-th constructor term of a state has.
    pub fn cons_field_count(&self, s: StateId, k: usize) -> (r: usize)
        requires
            self.valid(s as int),
            k < self.cons(s as int).len(),
        ensures
            r as int == self.cons(s as int)[k as int].fields.len(),
    {
        self.states[s].cons[k].fields.len()
    }

    /// The label of one field of one constructor term.
    pub fn cons_field_label(&self, s: StateId, k: usize, f: usize) -> (r: Label)
        requires
            self.valid(s as int),
            k < self.cons(s as int).len(),
            f < self.cons(s as int)[k as int].fields.len(),
        ensures
            r == self.cons(s as int)[k as int].fields[f as int].label,
    {
        self.states[s].cons[k].fields[f].label
    }

    /// How many states one field of one constructor term points at.
    pub fn cons_field_state_count(&self, s: StateId, k: usize, f: usize) -> (r: usize)
        requires
            self.valid(s as int),
            k < self.cons(s as int).len(),
            f < self.cons(s as int)[k as int].fields.len(),
        ensures
            r as int == self.cons(s as int)[k as int].fields[f as int].states.len(),
    {
        self.states[s].cons[k].fields[f].states.len()
    }

    /// One state out of one field of one constructor term.
    pub fn cons_field_state(&self, s: StateId, k: usize, f: usize, m: usize) -> (r: StateId)
        requires
            self.valid(s as int),
            k < self.cons(s as int).len(),
            f < self.cons(s as int)[k as int].fields.len(),
            m < self.cons(s as int)[k as int].fields[f as int].states.len(),
        ensures
            r == self.cons(s as int)[k as int].fields[f as int].states[m as int],
    {
        self.states[s].cons[k].fields[f].states[m]
    }

    /// Whether a flow edge joins `s` and `q`.
    pub fn flow_contains(&self, s: StateId, q: StateId) -> (r: bool)
        requires
            self.valid(s as int),
        ensures
            r == self.flow(s as int).contains(q),
    {
        let n = self.states[s].flow.len();
        let mut k: usize = 0;
        while k < n
            invariant
                self.valid(s as int),
                n == self.flow(s as int).len(),
                k <= n,
                forall|j: int| 0 <= j < k ==> self.flow(s as int)[j] != q,
            decreases n - k,
        {
            if self.states[s].flow[k] == q {
                assert(self.flow(s as int)[k as int] == q);
                return true;
            }
            k += 1;
        }
        assert(!self.flow(s as int).contains(q));
        false
    }

}

} // verus!
