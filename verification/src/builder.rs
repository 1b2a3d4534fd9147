//! The Builder: turns a binder-indexed type-expression tree into automaton
//! states, resolving recursion binders to self-referencing states so that a
//! possibly infinite tree becomes a finite, possibly cyclic graph.
//!
//! Constructor fields are not descended into by native recursion: each
//! field's work is pushed onto an explicit pending collection, drained by an
//! outer loop, which keeps native call depth bounded independent of type
//! nesting depth. Union operands and recursion-binder bodies are built inline
//! since their parent needs them resolved before it returns.

use vstd::prelude::*;
use std::collections::HashMap;
use crate::auto::{Automaton, ConsTerm, Field, FieldView, FlowPair, StateId, TermView};
use crate::binder::{binder_elems, binders_clone, binders_get, binders_new, binders_pop_front, binders_push_front};
use crate::polar::{fields_size, fields_vars_ok, fields_wf, lemma_fields_size_elem, lemma_fields_vars_ok_elem, lemma_fields_wf_elem, lemma_ty_vars_ok_grow, pair_ok, ty_size, ty_vars_ok, ty_wf, Ty, Var};
use crate::polarity::Polarity;

verus! {

broadcast use vstd::std_specs::hash::group_hash_axioms;

/// One deferred piece of building work: a target state, the sub-tree that
/// belongs in it, and a snapshot of the binder stack it was deferred under.
pub struct Frame {
    pub pol: Polarity,
    pub at: StateId,
    pub ty: Ty,
    pub recs: im::Vector<StateId>,
}

/// The variable-resolution policy: either memoize flow pairs by key, so that
/// every occurrence of one identifier shares a pair, or pass through pairs
/// the caller has already decided on.
pub enum VarPolicy {
    Memo(HashMap<u64, FlowPair>),
    PassThrough,
}

/// Builds type-expression trees into a shared automaton under one
/// variable-resolution policy.
///
/// The constructor domain is fixed to tagged terms over labelled fields with
/// an explicit tag order held by the automaton, rather than an open trait for
/// the embedding domain: an open trait's mapping obligations could not be
/// checked here, while the tag/label model covers the operations the builder
/// and biunification need.
pub struct Builder {
    pub vars: VarPolicy,
}

impl Builder {
    pub open spec fn pass_through(self) -> bool {
        self.vars is PassThrough
    }

    /// The memo table of the keyed policy; empty under pass-through.
    pub open spec fn memo_map(self) -> Map<u64, FlowPair> {
        match self.vars {
            VarPolicy::Memo(m) => m@,
            VarPolicy::PassThrough => Map::empty(),
        }
    }

    /// Every memoized flow pair points at valid, mutually flow-linked poles
    /// of the right polarities.
    pub open spec fn policy_ok(self, auto: Automaton) -> bool {
        match self.vars {
            VarPolicy::Memo(m) => forall|k: u64|
                m@.contains_key(k) ==> pair_ok(#[trigger] m@[k], auto),
            VarPolicy::PassThrough => true,
        }
    }
}

pub open spec fn recs_ok(elems: Seq<StateId>, auto: Automaton) -> bool {
    forall|i: int| 0 <= i < elems.len() ==> auto.valid(#[trigger] elems[i] as int)
}

/// The binder polarities that a binder stack stands for.
pub open spec fn recs_pols(auto: Automaton, elems: Seq<StateId>) -> Seq<Polarity> {
    Seq::new(elems.len(), |i: int| auto.pol(elems[i] as int))
}

pub open spec fn frame_ok(f: Frame, auto: Automaton, pass: bool) -> bool {
    &&& auto.valid(f.at as int)
    &&& auto.pol(f.at as int) == f.pol
    &&& recs_ok(binder_elems(f.recs), auto)
    &&& ty_wf(f.ty, f.pol, recs_pols(auto, binder_elems(f.recs)))
    &&& ty_vars_ok(f.ty, auto, pass)
    &&& !(f.ty is BoundVar)
}

pub open spec fn frames_ok(fs: Seq<Frame>, auto: Automaton, pass: bool) -> bool {
    forall|i: int| 0 <= i < fs.len() ==> frame_ok(#[trigger] fs[i], auto, pass)
}

/// Total size of the pending sub-trees; the drain loop's termination measure.
pub open spec fn frames_total(fs: Seq<Frame>) -> nat
    decreases fs.len(),
{
    if fs.len() == 0 {
        0
    } else {
        frames_total(fs.drop_last()) + ty_size(fs.last().ty)
    }
}


/// Sum of (size - 1) over pending sub-trees: the allocation potential that
/// the pending work may still spend.
pub open spec fn frames_pot(fs: Seq<Frame>) -> nat
    decreases fs.len(),
{
    if fs.len() == 0 {
        0
    } else {
        (frames_pot(fs.drop_last()) + (ty_size(fs.last().ty) - 1)) as nat
    }
}

/// Every field sub-tree is a bound-variable reference.
pub open spec fn all_bound(fs: Seq<(crate::auto::Label, Ty)>) -> bool {
    forall|i: int| 0 <= i < fs.len() ==> (#[trigger] fs[i].1) is BoundVar
}

pub open spec fn bvar_idx(t: Ty) -> int {
    match t {
        Ty::BoundVar(i) => i as int,
        _ => 0,
    }
}

/// Every field refers to the innermost binder.
pub open spec fn all_bound0(fs: Seq<(crate::auto::Label, Ty)>) -> bool {
    all_bound(fs) && forall|i: int| 0 <= i < fs.len() ==> bvar_idx(#[trigger] fs[i].1) == 0
}

/// The term a constructor of bound-variable fields builds: each field's
/// state set is the single binder state its reference resolves to.
pub open spec fn bound_term_view(
    tag: u64,
    fs: Seq<(crate::auto::Label, Ty)>,
    elems: Seq<StateId>,
) -> TermView {
    TermView {
        tag,
        fields: Seq::new(
            fs.len(),
            |i: int| FieldView { label: fs[i].0, states: seq![elems[bvar_idx(fs[i].1)]] },
        ),
    }
}


/// Extending a prefix subrange by one element adds that element's size.
pub proof fn lemma_fields_size_prefix(fs: Seq<(crate::auto::Label, Ty)>, k: int)
    requires
        0 <= k < fs.len(),
    ensures
        fields_size(fs.subrange(0, k + 1)) == fields_size(fs.subrange(0, k)) + ty_size(fs[k].1),
    decreases k,
{
    if k == 0 {
        assert(fs.subrange(0, 1) =~= seq![fs[0]]);
        assert(fs.subrange(0, 1).drop_first() =~= Seq::<(crate::auto::Label, Ty)>::empty());
        assert(fs.subrange(0, 0) =~= Seq::<(crate::auto::Label, Ty)>::empty());
    } else {
        lemma_fields_size_prefix(fs.drop_first(), k - 1);
        assert(fs.subrange(0, k + 1).drop_first() =~= fs.drop_first().subrange(0, k));
        assert(fs.subrange(0, k).drop_first() =~= fs.drop_first().subrange(0, k - 1));
        assert(fs.subrange(0, k + 1)[0] == fs[0]);
        assert(fs.subrange(0, k)[0] == fs[0]);
        assert(fs.drop_first()[k - 1] == fs[k]);
    }
}

/// A front part of a field list is no larger than the whole.
pub proof fn lemma_fields_size_split_bound(fs: Seq<(crate::auto::Label, Ty)>, k: int)
    requires
        0 <= k <= fs.len(),
    ensures
        fields_size(fs.subrange(0, k)) <= fields_size(fs),
    decreases fs.len() - k,
{
    if k < fs.len() {
        lemma_fields_size_prefix(fs, k);
        lemma_fields_size_split_bound(fs, k + 1);
    } else {
        assert(fs.subrange(0, k) =~= fs);
    }
}

/// A prefix holds no more potential than the whole.
pub proof fn lemma_frames_pot_prefix(a: Seq<Frame>, b: Seq<Frame>)
    requires
        a.is_prefix_of(b),
    ensures
        frames_pot(a) <= frames_pot(b),
    decreases b.len() - a.len(),
{
    if a.len() < b.len() {
        assert(a.is_prefix_of(b.drop_last())) by {
            assert(a =~= b.drop_last().subrange(0, a.len() as int));
        }
        lemma_frames_pot_prefix(a, b.drop_last());
    } else {
        assert(a =~= b);
    }
}

/// An element of a prefix reads the same in the longer sequence.
pub proof fn lemma_prefix_index<A>(a: Seq<A>, b: Seq<A>, i: int)
    requires
        a.is_prefix_of(b),
        0 <= i < a.len(),
    ensures
        b[i] == a[i],
{
    assert(a[i] == b.subrange(0, a.len() as int)[i]);
}

/// The term a constructor node attaches: same tag, one field per sub-tree in
/// order, each field holding exactly one state, built at the node's polarity
/// composed with the field label's variance.
pub open spec fn built_cons_term(
    a: Automaton,
    pol: Polarity,
    tag: u64,
    fs: Seq<(crate::auto::Label, Ty)>,
    tv: TermView,
) -> bool {
    &&& tv.tag == tag
    &&& tv.fields.len() == fs.len()
    &&& forall|m: int|
        0 <= m < fs.len() ==> (#[trigger] tv.fields[m]).label == fs[m].0
            && tv.fields[m].states.len() == 1 && a.valid(tv.fields[m].states[0] as int) && a.pol(
            tv.fields[m].states[0] as int,
        ) == pol.compose(fs[m].0.pol)
}

/// Flow prefixes compose across two automaton evolutions.
pub proof fn lemma_flow_prefix_trans_all(a: Automaton, b: Automaton, c: Automaton)
    requires
        a.n() <= b.n(),
        forall|s: int| a.valid(s) ==> a.flow(s).is_prefix_of(#[trigger] b.flow(s)),
        forall|s: int| b.valid(s) ==> b.flow(s).is_prefix_of(#[trigger] c.flow(s)),
    ensures
        forall|s: int| a.valid(s) ==> a.flow(s).is_prefix_of(#[trigger] c.flow(s)),
{
    assert forall|s: int| a.valid(s) implies a.flow(s).is_prefix_of(#[trigger] c.flow(s)) by {
        assert(b.valid(s));
        crate::auto::lemma_prefix_trans(a.flow(s), b.flow(s), c.flow(s));
    }
}

/// Every state's flow is a prefix of itself.
pub proof fn lemma_flow_prefix_refl_all(a: Automaton, b: Automaton)
    requires
        a.n() <= b.n(),
        forall|s: int| a.valid(s) ==> #[trigger] b.flow(s) == a.flow(s),
    ensures
        forall|s: int| a.valid(s) ==> a.flow(s).is_prefix_of(#[trigger] b.flow(s)),
{
    assert forall|s: int| a.valid(s) implies a.flow(s).is_prefix_of(#[trigger] b.flow(s)) by {
        crate::auto::lemma_prefix_refl(a.flow(s));
    }
}

pub proof fn lemma_frames_ok_grow(fs: Seq<Frame>, a1: Automaton, a2: Automaton, pass: bool)
    requires
        frames_ok(fs, a1, pass),
        a1.n() <= a2.n(),
        forall|s: int| a1.valid(s) ==> a2.pol(s) == a1.pol(s),
        forall|s: int| a1.valid(s) ==> a1.flow(s).is_prefix_of(#[trigger] a2.flow(s)),
    ensures
        frames_ok(fs, a2, pass),
{
    assert forall|i: int| 0 <= i < fs.len() implies frame_ok(#[trigger] fs[i], a2, pass) by {
        lemma_frame_ok_grow(fs[i], a1, a2, pass);
    }
}

pub proof fn lemma_frame_ok_grow(f: Frame, a1: Automaton, a2: Automaton, pass: bool)
    requires
        frame_ok(f, a1, pass),
        a1.n() <= a2.n(),
        forall|s: int| a1.valid(s) ==> a2.pol(s) == a1.pol(s),
        forall|s: int| a1.valid(s) ==> a1.flow(s).is_prefix_of(#[trigger] a2.flow(s)),
    ensures
        frame_ok(f, a2, pass),
{
    assert(recs_pols(a2, binder_elems(f.recs)) =~= recs_pols(a1, binder_elems(f.recs)));
    lemma_ty_vars_ok_grow(f.ty, a1, a2, pass);
}

impl Builder {
    /// Resolves one free-variable reference to its flow pair: a pre-made pair
    /// passes through unchanged; a keyed variable is looked up in the memo
    /// table, so every occurrence of one key shares one pair, with a fresh
    /// pair allocated and remembered on the first occurrence.
    fn resolve_var(&mut self, auto: &mut Automaton, v: Var) -> (pair: FlowPair)
        requires
            old(auto).wf(),
            old(self).policy_ok(*old(auto)),
            old(auto).n() + 2 <= usize::MAX,
            v matches Var::Key(k) ==> !old(self).pass_through(),
            v matches Var::Pair(fp) ==> pair_ok(fp, *old(auto)),
        ensures
            final(auto).wf(),
            final(self).policy_ok(*final(auto)),
            final(self).pass_through() == old(self).pass_through(),
            old(auto).n() <= final(auto).n() <= old(auto).n() + 2,
            final(auto).order@ == old(auto).order@,
            forall|s: int| old(auto).valid(s) ==> final(auto).pol(s) == old(auto).pol(s),
            forall|s: int| old(auto).valid(s) ==> final(auto).flow(s) == old(auto).flow(s),
            forall|s: int| old(auto).valid(s) ==> final(auto).cons(s) == old(auto).cons(s),
            pair_ok(pair, *final(auto)),
            v matches Var::Pair(fp) ==> pair == fp && *final(auto) == *old(auto) && *final(self)
                == *old(self),
            forall|k2: u64|
                old(self).memo_map().contains_key(k2) ==> final(self).memo_map().contains_key(k2)
                    && final(self).memo_map()[k2] == old(self).memo_map()[k2],
            v matches Var::Key(k) ==> final(self).memo_map().contains_key(k)
                && final(self).memo_map()[k] == pair,
            v matches Var::Key(k) ==> (old(self).memo_map().contains_key(k) ==> pair == old(
                self,
            ).memo_map()[k] && *final(auto) == *old(auto) && *final(self) == *old(self)),
            v matches Var::Key(k) ==> (!old(self).memo_map().contains_key(k)
                ==> final(self).memo_map() == old(self).memo_map().insert(k, pair)),
    {
        match v {
            Var::Pair(p) => p,
            Var::Key(k) => {
                match &mut self.vars {
                    VarPolicy::Memo(m) => {
                        let cached = match m.get(&k) {
                            Some(p) => Some(*p),
                            None => None,
                        };
                        match cached {
                            Some(p) => {
                                proof {
                                    assert(old(self).memo_map().contains_key(k));
                                    assert(pair_ok(old(self).memo_map()[k], *old(auto)));
                                }
                                p
                            },
                            None => {
                                let p = auto.build_var();
                                m.insert(k, p);
                                proof {
                                    assert(pair_ok(p, *final(auto))) by {
                                        assert(final(auto).flow(p.pos as int)[0] == p.neg);
                                        assert(final(auto).flow(p.neg as int)[0] == p.pos);
                                    }
                                    assert forall|k2: u64|
                                        final(self).vars->Memo_0@.contains_key(k2) implies pair_ok(
                                        #[trigger] final(self).vars->Memo_0@[k2],
                                        *final(auto),
                                    ) by {
                                        if k2 != k {
                                            assert(old(self).vars->Memo_0@.contains_key(k2));
                                            let fp = old(self).vars->Memo_0@[k2];
                                            assert(pair_ok(fp, *old(auto)));
                                            assert(final(auto).flow(fp.pos as int) == old(
                                                auto,
                                            ).flow(fp.pos as int));
                                            assert(final(auto).flow(fp.neg as int) == old(
                                                auto,
                                            ).flow(fp.neg as int));
                                        }
                                    }
                                }
                                p
                            },
                        }
                    },
                    VarPolicy::PassThrough => {
                        proof {
                            assert(false);
                        }
                        FlowPair { pos: 0, neg: 0 }
                    },
                }
            },
        }
    }
}

impl Builder {
    /// Builds `ty` directly into the already-allocated state `at`: unions and
    /// recursion-binder bodies inline, constructor fields deferred onto the
    /// pending collection.
    #[verifier::rlimit(100)]
    fn build_polar_closure_at(
        &mut self,
        auto: &mut Automaton,
        pol: Polarity,
        at: StateId,
        ty: Ty,
        stack: &mut Vec<Frame>,
        recs: &mut im::Vector<StateId>,
    )
        requires
            old(auto).wf(),
            old(self).policy_ok(*old(auto)),
            old(auto).valid(at as int),
            old(auto).pol(at as int) == pol,
            recs_ok(binder_elems(*old(recs)), *old(auto)),
            ty_wf(ty, pol, recs_pols(*old(auto), binder_elems(*old(recs)))),
            ty_vars_ok(ty, *old(auto), old(self).pass_through()),
            !(ty is BoundVar),
            frames_ok(old(stack)@, *old(auto), old(self).pass_through()),
            old(auto).n() + 2 * ty_size(ty) <= usize::MAX,
        ensures
            final(auto).wf(),
            final(self).policy_ok(*final(auto)),
            final(self).pass_through() == old(self).pass_through(),
            final(auto).order@ == old(auto).order@,
            old(auto).n() <= final(auto).n(),
            final(auto).n() + 2 * frames_pot(final(stack)@) <= old(auto).n() + 2 * frames_pot(
                old(stack)@,
            ) + 2 * ty_size(ty) - 2,
            frames_total(final(stack)@) <= frames_total(old(stack)@) + ty_size(ty) - 1,
            forall|s: int| old(auto).valid(s) ==> final(auto).pol(s) == old(auto).pol(s),
            forall|s: int|
                old(auto).valid(s) && s != at as int ==> final(auto).cons(s) == old(auto).cons(s),
            forall|s: int|
                old(auto).valid(s) ==> old(auto).flow(s).is_prefix_of(
                    #[trigger] final(auto).flow(s),
                ),
            old(stack)@.is_prefix_of(final(stack)@),
            forall|i: int|
                old(stack)@.len() <= i < final(stack)@.len() ==> old(auto).n()
                    <= #[trigger] final(stack)@[i].at as int,
            frames_ok(final(stack)@, *final(auto), old(self).pass_through()),
            binder_elems(*final(recs)) == binder_elems(*old(recs)),
            recs_ok(binder_elems(*final(recs)), *final(auto)),
            ty is Zero ==> *final(auto) == *old(auto) && final(stack)@ == old(stack)@,
            ty is Zero || ty is UnboundVar ==> final(auto).cons(at as int) == old(auto).cons(
                at as int,
            ),
            ty is Zero || ty is UnboundVar ==> final(stack)@ == old(stack)@,
            forall|k2: u64|
                #[trigger] old(self).memo_map().contains_key(k2)
                    ==> final(self).memo_map().contains_key(k2)
                    && final(self).memo_map()[k2] == old(self).memo_map()[k2],
            ty matches Ty::UnboundVar(v) ==> (v matches Var::Pair(fp) ==> final(auto).flow(
                at as int,
            ).contains(
                if pol == Polarity::Pos {
                    fp.neg
                } else {
                    fp.pos
                },
            )),
            ty matches Ty::UnboundVar(v) ==> (v matches Var::Key(key)
                ==> final(self).memo_map().contains_key(key) && final(auto).flow(
                at as int,
            ).contains(
                if pol == Polarity::Pos {
                    final(self).memo_map()[key].neg
                } else {
                    final(self).memo_map()[key].pos
                },
            )),
            ty matches Ty::Constructed(tag, fs) ==> (all_bound(fs@) ==> final(auto).cons(
                at as int,
            ) == old(auto).cons(at as int).push(
                bound_term_view(tag, fs@, binder_elems(*old(recs))),
            ) && final(stack)@ == old(stack)@),
            ty matches Ty::Constructed(tag, fs) ==> exists|tv: TermView|
                #[trigger] built_cons_term(*final(auto), pol, tag, fs@, tv) && final(auto).cons(
                    at as int,
                ) == old(auto).cons(at as int).push(tv),
            ty matches Ty::Add(l, r2) ==> exists|cl: Seq<TermView>, cr: Seq<TermView>|
                #![auto]
                final(auto).cons(at as int) == old(auto).cons(at as int) + cl + cr && ((*l)
                    is Zero ==> cl == Seq::<TermView>::empty()) && ((*r2) is Zero ==> cr
                    == Seq::<TermView>::empty()),
            ty matches Ty::Recursive(b) ==> (*b matches Ty::Constructed(tag, fs) ==> (all_bound0(
                fs@,
            ) ==> final(auto).cons(at as int) == old(auto).cons(at as int).push(
                bound_term_view(tag, fs@, seq![at] + binder_elems(*old(recs))),
            ) && final(stack)@ == old(stack)@)),
        decreases ty_size(ty), 0nat,
    {
        let ghost pass = old(self).pass_through();
        match ty {
            Ty::Zero => {
                proof {
                    lemma_flow_prefix_refl_all(*old(auto), *auto);
                }
            },
            Ty::Recursive(inner) => {
                let ghost inner_ty = *inner;
                binders_push_front(recs, at);
                proof {
                    assert(binder_elems(*recs) =~= seq![at] + binder_elems(*old(recs)));
                    assert(recs_pols(*auto, binder_elems(*recs)) =~= seq![pol] + recs_pols(
                        *auto,
                        binder_elems(*old(recs)),
                    ));
                }
                let e = self.build_polar_closure(auto, pol, true, *inner, stack, recs);
                proof {
                    lemma_frames_pot_prefix(old(stack)@, stack@);
                    assert forall|i2: int|
                        old(stack)@.len() <= i2 < stack@.len() implies old(auto).n()
                            <= #[trigger] stack@[i2].at as int by {}
                }
                let _ = binders_pop_front(recs);
                proof {
                    assert(binder_elems(*recs) =~= binder_elems(*old(recs)));
                }
                let ghost mid = *auto;
                auto.merge(pol, at, e);
                proof {
                    assert(e as int != at as int ==> final(auto).cons(at as int) == mid.cons(
                        at as int,
                    ) + mid.cons(e as int));
                    match inner_ty {
                        Ty::Constructed(tag2, fs2) => if all_bound0(fs2@) {
                            assert(mid.cons(e as int) == seq![
                                bound_term_view(tag2, fs2@, seq![at] + binder_elems(*old(recs))),
                            ]);
                            assert(mid.cons(at as int) == old(auto).cons(at as int));
                            assert(final(auto).cons(at as int) =~= old(auto).cons(
                                at as int,
                            ).push(
                                bound_term_view(tag2, fs2@, seq![at] + binder_elems(*old(recs))),
                            ));
                        },
                        _ => {},
                    }
                    lemma_frames_ok_grow(final(stack)@, mid, *final(auto), pass);
                    lemma_flow_prefix_trans_all(*old(auto), mid, *final(auto));
                }
            },
            Ty::BoundVar(_) => {
                proof {
                    assert(false);
                }
            },
            Ty::Add(l, r) => {
                let ghost rty = *r;
                let lid = self.build_polar_closure(auto, pol, true, *l, stack, recs);
                let ghost b1 = *self;
                let ghost a1 = *auto;
                let ghost s1 = stack@;
                let ghost n1 = auto.n();
                proof {
                    assert(recs_pols(*auto, binder_elems(*recs)) =~= recs_pols(
                        *old(auto),
                        binder_elems(*old(recs)),
                    ));
                    lemma_ty_vars_ok_grow(rty, *old(auto), *auto, pass);
                    lemma_frames_pot_prefix(old(stack)@, stack@);
                }
                let rid = self.build_polar_closure(auto, pol, true, *r, stack, recs);
                proof {
                    lemma_frames_pot_prefix(old(stack)@, stack@);
                    assert forall|i2: int|
                        old(stack)@.len() <= i2 < stack@.len() implies old(auto).n()
                            <= #[trigger] stack@[i2].at as int by {
                        if i2 < s1.len() {
                            lemma_prefix_index(s1, stack@, i2);
                        }
                    }
                }
                let ghost mid = *auto;
                auto.build_add_at(pol, at, lid, rid);
                proof {
                    lemma_frames_ok_grow(final(stack)@, mid, *final(auto), pass);
                    lemma_flow_prefix_trans_all(*old(auto), a1, mid);
                    lemma_flow_prefix_trans_all(*old(auto), mid, *final(auto));
                    let cl = if lid != at {
                        mid.cons(lid as int)
                    } else {
                        Seq::<TermView>::empty()
                    };
                    let cr = if rid != at {
                        mid.cons(rid as int)
                    } else {
                        Seq::<TermView>::empty()
                    };
                    assert(final(auto).cons(at as int) =~= old(auto).cons(at as int) + cl + cr);
                    if (*l) is Zero {
                        assert(lid != at);
                        assert(cl == Seq::<TermView>::empty());
                    }
                    if rty is Zero {
                        assert(rid != at);
                        assert(cr == Seq::<TermView>::empty());
                    }
                    assert forall|k2: u64|
                        #[trigger] old(self).memo_map().contains_key(
                            k2,
                        ) implies self.memo_map().contains_key(k2) && self.memo_map()[k2] == old(
                        self,
                    ).memo_map()[k2] by {
                        assert(b1.memo_map().contains_key(k2));
                        assert(b1.memo_map()[k2] == old(self).memo_map()[k2]);
                    }
                }
            },
            Ty::UnboundVar(v) => {
                let pair = self.resolve_var(auto, v);
                let pole = pair.get(pol);
                let ghost mid = *auto;
                auto.merge_flow(pol, at, pole);
                proof {
                    assert(final(auto).cons(at as int) == mid.cons(at as int));
                    assert(mid.cons(at as int) == old(auto).cons(at as int));
                    lemma_flow_prefix_refl_all(*old(auto), mid);
                    lemma_flow_prefix_trans_all(*old(auto), mid, *final(auto));
                    lemma_frames_ok_grow(old(stack)@, *old(auto), *final(auto), pass);
                    let opp = if pol == Polarity::Pos {
                        pair.neg
                    } else {
                        pair.pos
                    };
                    assert(mid.flow(pole as int).contains(opp));
                    assert(final(auto).flow(at as int).contains(opp));
                }
            },
            Ty::Constructed(tag, fields) => {
                let ghost gfields = fields@;
                let mut fields = fields;
                let mut fs: Vec<Field> = Vec::new();
                let ghost n0 = auto.n();
                let ghost pot0 = frames_pot(stack@);
                let ghost tot0 = frames_total(stack@);
                let mut k: usize = 0;
                let nf = fields.len();
                proof {
                    assert(gfields.subrange(0, nf as int) =~= gfields);
                    assert(gfields.subrange(0, 0) =~= Seq::<(crate::auto::Label, Ty)>::empty());
                    assert(fields@ =~= gfields.subrange(0, nf as int));
                    assert(ty_size(ty) == 1 + fields_size(gfields));
                    lemma_flow_prefix_refl_all(*old(auto), *auto);
                }
                while k < nf
                    invariant
                        auto.wf(),
                        self.policy_ok(*auto),
                        self.pass_through() == pass,
                        auto.valid(at as int),
                        auto.pol(at as int) == pol,
                        old(auto).n() <= auto.n(),
                        auto.order@ == old(auto).order@,
                        forall|s: int| old(auto).valid(s) ==> auto.pol(s) == old(auto).pol(s),
                        forall|s: int|
                            old(auto).valid(s) ==> auto.cons(s) == old(auto).cons(s),
                        forall|s: int|
                            old(auto).valid(s) ==> old(auto).flow(s).is_prefix_of(
                                #[trigger] auto.flow(s),
                            ),
                        forall|k2: u64|
                            #[trigger] old(self).memo_map().contains_key(k2)
                                ==> self.memo_map().contains_key(k2) && self.memo_map()[k2] == old(
                                self,
                            ).memo_map()[k2],
                        n0 == old(auto).n(),
                        pot0 == frames_pot(old(stack)@),
                        tot0 == frames_total(old(stack)@),
                        nf == gfields.len(),
                        k <= nf,
                        fields@ =~= gfields.subrange(k as int, nf as int),
                        fs@.len() == k,
                        recs_ok(binder_elems(*recs), *auto),
                        binder_elems(*recs) == binder_elems(*old(recs)),
                        fields_wf(
                            gfields.subrange(k as int, nf as int),
                            pol,
                            recs_pols(*auto, binder_elems(*recs)),
                        ),
                        fields_vars_ok(gfields.subrange(k as int, nf as int), *auto, pass),
                        recs_pols(*auto, binder_elems(*recs)) == recs_pols(
                            *old(auto),
                            binder_elems(*old(recs)),
                        ),
                        frames_ok(stack@, *auto, pass),
                        old(stack)@.is_prefix_of(stack@),
                        forall|i: int|
                            old(stack)@.len() <= i < stack@.len() ==> old(auto).n()
                                <= #[trigger] stack@[i].at as int,
                        auto.n() + 2 * frames_pot(stack@) <= n0 + 2 * pot0 + 2 * fields_size(
                            gfields.subrange(0, k as int),
                        ),
                        frames_total(stack@) <= tot0 + fields_size(gfields.subrange(0, k as int)),
                        fields_size(gfields.subrange(0, k as int)) + fields_size(
                            gfields.subrange(k as int, nf as int),
                        ) == fields_size(gfields),
                        ty_size(ty) == 1 + fields_size(gfields),
                        old(auto).n() + 2 * ty_size(ty) <= usize::MAX,
                        all_bound(gfields) ==> stack@ == old(stack)@,
                        forall|m: int|
                            0 <= m < k ==> (#[trigger] fs@[m]).label == gfields[m].0
                                && fs@[m].states@.len() == 1 && auto.valid(
                                fs@[m].states@[0] as int,
                            ) && auto.pol(fs@[m].states@[0] as int) == pol.compose(
                                gfields[m].0.pol,
                            ),
                        forall|m: int|
                            0 <= m < k && (#[trigger] gfields[m].1) is BoundVar
                                ==> fs@[m].states@[0] == binder_elems(*recs)[bvar_idx(
                                gfields[m].1,
                            )],
                        forall|m: int|
                            0 <= m < k && !((#[trigger] gfields[m].1) is BoundVar)
                                ==> old(auto).n() <= fs@[m].states@[0] as int,
                    decreases nf - k,
                {
                    proof {
                        assert(fields@[0] == gfields[k as int]);
                        assert(gfields.subrange(k as int, nf as int).drop_first()
                            =~= gfields.subrange(k as int + 1, nf as int));
                        lemma_fields_size_elem(gfields.subrange(k as int, nf as int), 0);
                        assert(fields_size(gfields.subrange(0, k as int + 1)) == fields_size(
                            gfields.subrange(0, k as int),
                        ) + ty_size(gfields[k as int].1)) by {
                            lemma_fields_size_prefix(gfields, k as int);
                        }
                    }
                    let (lab, fty) = fields.remove(0);
                    proof {
                        assert(fty == gfields[k as int].1);
                        lemma_fields_size_elem(gfields, k as int);
                        assert(ty_size(fty) <= fields_size(gfields));
                        assert(ty_size(ty) == 1 + fields_size(gfields));
                        assert(ty_size(fty) < ty_size(ty));
                        lemma_frames_pot_prefix(old(stack)@, stack@);
                        lemma_fields_wf_elem(
                            gfields.subrange(k as int, nf as int),
                            pol,
                            recs_pols(*auto, binder_elems(*recs)),
                            0,
                        );
                        lemma_fields_vars_ok_elem(
                            gfields.subrange(k as int, nf as int),
                            *auto,
                            pass,
                            0,
                        );
                        assert(gfields.subrange(k as int, nf as int)[0] == gfields[k as int]);
                        assert(auto.n() + 2 * ty_size(fty) + 1 <= usize::MAX) by {
                            assert(fields_size(gfields.subrange(0, k as int)) + ty_size(fty)
                                <= fields_size(gfields)) by {
                                lemma_fields_size_prefix(gfields, k as int);
                                lemma_fields_size_split_bound(gfields, k as int + 1);
                            }
                        }
                    }
                    let ghost apre = *auto;
                    let ghost bpre = *self;
                    let ghost spre = stack@;
                    let sid = self.build_polar_closure(
                        auto,
                        pol.mul(lab.pol),
                        false,
                        fty,
                        stack,
                        recs,
                    );
                    proof {
                        assert forall|k2: u64|
                            #[trigger] old(self).memo_map().contains_key(
                                k2,
                            ) implies self.memo_map().contains_key(k2) && self.memo_map()[k2]
                            == old(self).memo_map()[k2] by {
                            assert(bpre.memo_map().contains_key(k2));
                            assert(bpre.memo_map()[k2] == old(self).memo_map()[k2]);
                        }
                        lemma_flow_prefix_trans_all(*old(auto), apre, *auto);
                        crate::polar::lemma_fields_vars_ok_grow(
                            gfields.subrange(k as int + 1, nf as int),
                            apre,
                            *auto,
                            pass,
                        );
                        assert forall|i2: int|
                            old(stack)@.len() <= i2 < stack@.len() implies old(auto).n()
                                <= #[trigger] stack@[i2].at as int by {
                            if i2 < spre.len() {
                                assert(stack@[i2] == spre[i2]);
                            }
                        }
                    }
                    proof {
                        assert(recs_pols(*auto, binder_elems(*recs)) =~= recs_pols(
                            *old(auto),
                            binder_elems(*old(recs)),
                        ));
                        lemma_frames_pot_prefix(old(stack)@, stack@);
                        assert(gfields.subrange(k as int, nf as int).drop_first()
                            =~= gfields.subrange(k as int + 1, nf as int));
                        lemma_fields_size_prefix(gfields, k as int);
                    }
                    fs.push(Field { label: lab, states: vec![sid] });
                    k += 1;
                }
                proof {
                    assert(gfields.subrange(0, nf as int) =~= gfields);
                    assert(fields_size(gfields.subrange(nf as int, nf as int)) == 0);
                }
                let term = ConsTerm { tag, fields: fs };
                proof {
                    assert forall|a2: int, b2: int|
                        0 <= a2 < term@.fields.len() && 0 <= b2
                            < term@.fields[a2].states.len() implies auto.valid(
                        #[trigger] term@.fields[a2].states[b2] as int,
                    ) && auto.pol(term@.fields[a2].states[b2] as int) == pol.compose(
                        term@.fields[a2].label.pol,
                    ) by {
                        assert(term@.fields[a2].label == gfields[a2].0);
                        assert(term@.fields[a2].states == fs@[a2].states@);
                    }
                }
                let ghost gterm = term@;
                let ghost mid = *auto;
                auto.build_constructed_at(pol, at, term);
                proof {
                    lemma_frames_ok_grow(final(stack)@, mid, *final(auto), pass);
                    lemma_flow_prefix_refl_all(mid, *final(auto));
                    lemma_flow_prefix_trans_all(*old(auto), mid, *final(auto));
                    assert(built_cons_term(*final(auto), pol, tag, gfields, gterm)) by {
                        assert forall|m: int| 0 <= m < gfields.len() implies (
                        #[trigger] gterm.fields[m]).label == gfields[m].0
                            && gterm.fields[m].states.len() == 1 && final(auto).valid(
                            gterm.fields[m].states[0] as int,
                        ) && final(auto).pol(gterm.fields[m].states[0] as int) == pol.compose(
                            gfields[m].0.pol,
                        ) by {
                            assert(gterm.fields[m] == fs@[m]@);
                            assert(gterm.fields[m].states == fs@[m].states@);
                        }
                    }
                    assert(final(auto).cons(at as int) == old(auto).cons(at as int).push(gterm));
                    if all_bound(gfields) {
                        assert(final(auto).cons(at as int) == old(auto).cons(at as int).push(
                            bound_term_view(tag, gfields, binder_elems(*old(recs))),
                        )) by {
                            assert(mid.cons(at as int) == old(auto).cons(at as int));
                            let tv = bound_term_view(tag, gfields, binder_elems(*old(recs)));
                            assert forall|m: int| 0 <= m < nf implies term@.fields[m]
                                == tv.fields[m] by {
                                assert(gfields[m].1 is BoundVar);
                                lemma_fields_wf_elem(
                                    gfields,
                                    pol,
                                    recs_pols(*old(auto), binder_elems(*old(recs))),
                                    m,
                                );
                                assert(fs@[m].states@ =~= seq![
                                    binder_elems(*old(recs))[bvar_idx(gfields[m].1)],
                                ]);
                            }
                            assert(term@.fields =~= tv.fields);
                            assert(term@ == tv);
                        }
                        assert(final(stack)@ == old(stack)@);
                    }
                }
            },
        }
    }
}

impl Builder {
    /// Resolves one sub-tree to a state: a bound reference resolves to its
    /// binder's state on the stack; anything else gets a fresh state, filled
    /// inline when the parent needs it resolved (`epsilon`), otherwise
    /// deferred onto the pending collection.
    fn build_polar_closure(
        &mut self,
        auto: &mut Automaton,
        pol: Polarity,
        epsilon: bool,
        ty: Ty,
        stack: &mut Vec<Frame>,
        recs: &mut im::Vector<StateId>,
    ) -> (r: StateId)
        requires
            old(auto).wf(),
            old(self).policy_ok(*old(auto)),
            recs_ok(binder_elems(*old(recs)), *old(auto)),
            ty_wf(ty, pol, recs_pols(*old(auto), binder_elems(*old(recs)))),
            ty_vars_ok(ty, *old(auto), old(self).pass_through()),
            frames_ok(old(stack)@, *old(auto), old(self).pass_through()),
            old(auto).n() + 2 * ty_size(ty) + 1 <= usize::MAX,
        ensures
            final(auto).wf(),
            final(self).policy_ok(*final(auto)),
            final(self).pass_through() == old(self).pass_through(),
            final(auto).order@ == old(auto).order@,
            old(auto).n() <= final(auto).n(),
            final(auto).n() + 2 * frames_pot(final(stack)@) <= old(auto).n() + 2 * frames_pot(
                old(stack)@,
            ) + 2 * ty_size(ty) - 1,
            frames_total(final(stack)@) <= frames_total(old(stack)@) + ty_size(ty),
            forall|s: int| old(auto).valid(s) ==> final(auto).pol(s) == old(auto).pol(s),
            forall|s: int|
                old(auto).valid(s) && s != r as int ==> final(auto).cons(s) == old(auto).cons(s),
            forall|s: int|
                old(auto).valid(s) ==> old(auto).flow(s).is_prefix_of(
                    #[trigger] final(auto).flow(s),
                ),
            old(stack)@.is_prefix_of(final(stack)@),
            forall|i: int|
                old(stack)@.len() <= i < final(stack)@.len() ==> old(auto).n()
                    <= #[trigger] final(stack)@[i].at as int,
            frames_ok(final(stack)@, *final(auto), old(self).pass_through()),
            binder_elems(*final(recs)) == binder_elems(*old(recs)),
            recs_ok(binder_elems(*final(recs)), *final(auto)),
            final(auto).valid(r as int),
            final(auto).pol(r as int) == pol,
            forall|k2: u64|
                #[trigger] old(self).memo_map().contains_key(k2)
                    ==> final(self).memo_map().contains_key(k2)
                    && final(self).memo_map()[k2] == old(self).memo_map()[k2],
            ty is BoundVar ==> r == binder_elems(*old(recs))[bvar_idx(ty)] && *final(auto) == *old(
                auto,
            ) && final(stack)@ == old(stack)@,
            !(ty is BoundVar) ==> r as int == old(auto).n(),
            !(ty is BoundVar) && !epsilon ==> final(stack)@.len() == old(stack)@.len() + 1
                && final(stack)@.last().pol == pol && final(stack)@.last().at == r
                && final(stack)@.last().ty == ty && binder_elems(final(stack)@.last().recs)
                == binder_elems(*old(recs)) && final(auto).n() == old(auto).n() + 1 && final(auto).cons(r as int)
                == Seq::<TermView>::empty() && final(auto).flow(r as int) == Seq::<
                StateId,
            >::empty() && (forall|s: int|
                old(auto).valid(s) ==> final(auto).cons(s) == old(auto).cons(s) && final(auto).flow(
                    s,
                ) == old(auto).flow(s)),
            epsilon && ty is Zero ==> final(auto).cons(r as int) == Seq::<TermView>::empty()
                && final(stack)@ == old(stack)@,
            epsilon ==> (ty matches Ty::Constructed(tag, fs) ==> (all_bound(fs@) ==> final(auto).cons(r as int) == seq![
                bound_term_view(tag, fs@, binder_elems(*old(recs))),
            ] && final(stack)@ == old(stack)@)),
            epsilon ==> (ty matches Ty::Recursive(b) ==> (*b matches Ty::Constructed(tag, fs)
                ==> (all_bound0(fs@) ==> final(auto).cons(r as int) == seq![
                bound_term_view(tag, fs@, seq![r] + binder_elems(*old(recs))),
            ] && final(stack)@ == old(stack)@))),
        decreases ty_size(ty), 1nat,
    {
        let ghost pass = old(self).pass_through();
        let bv: Option<usize> = match &ty {
            Ty::BoundVar(i) => Some(*i),
            _ => None,
        };
        match bv {
            Some(i) => {
                let got = binders_get(recs, i);
                match got {
                    Some(x) => x,
                    None => {
                        proof {
                            assert(false);
                        }
                        0
                    },
                }
            },
            None => {
                let id = auto.build_empty(pol);
                proof {
                    assert(recs_pols(*auto, binder_elems(*recs)) =~= recs_pols(
                        *old(auto),
                        binder_elems(*old(recs)),
                    ));
                    lemma_ty_vars_ok_grow(ty, *old(auto), *auto, pass);
                    lemma_frames_ok_grow(stack@, *old(auto), *auto, pass);
                }
                if epsilon {
                    self.build_polar_closure_at(auto, pol, id, ty, stack, recs);
                } else {
                    let snap = binders_clone(recs);
                    let ghost prevstack = stack@;
                    let f = Frame { pol, at: id, ty, recs: snap };
                    let ghost fsz = ty_size(f.ty);
                    stack.push(f);
                    proof {
                        assert(stack@.drop_last() =~= prevstack);
                        assert(stack@.last().at == id);
                        assert(frames_total(stack@) == frames_total(prevstack) + fsz);
                        assert(frames_pot(stack@) == frames_pot(prevstack) + (fsz - 1));
                        assert forall|i2: int| 0 <= i2 < stack@.len() implies frame_ok(
                            #[trigger] stack@[i2],
                            *auto,
                            pass,
                        ) by {
                            if i2 < prevstack.len() {
                                assert(prevstack[i2] == stack@[i2]);
                            } else {
                                assert(stack@[i2] == stack@.last());
                            }
                        }
                    }
                }
                id
            },
        }
    }
}


impl Builder {
    /// Builds a type-expression tree into the automaton at the given root
    /// polarity and returns the root state. The reachable closure of the
    /// returned state encodes the tree: a recursion binder becomes a state
    /// that its body's bound references point back to, so a recursive type
    /// ends as a finite cyclic graph, never an unrolled one.
    pub fn build_polar(&mut self, auto: &mut Automaton, pol: Polarity, ty: Ty) -> (r: StateId)
        requires
            old(auto).wf(),
            old(self).policy_ok(*old(auto)),
            ty_wf(ty, pol, Seq::<Polarity>::empty()),
            ty_vars_ok(ty, *old(auto), old(self).pass_through()),
            !(ty is BoundVar),
            old(auto).n() + 2 * ty_size(ty) + 2 <= usize::MAX,
        ensures
            final(auto).wf(),
            final(self).policy_ok(*final(auto)),
            final(self).pass_through() == old(self).pass_through(),
            final(auto).order@ == old(auto).order@,
            r as int == old(auto).n(),
            old(auto).n() < final(auto).n(),
            final(auto).n() <= old(auto).n() + 2 * ty_size(ty),
            final(auto).valid(r as int),
            final(auto).pol(r as int) == pol,
            forall|s: int| old(auto).valid(s) ==> final(auto).pol(s) == old(auto).pol(s),
            forall|s: int| old(auto).valid(s) ==> final(auto).cons(s) == old(auto).cons(s),
            forall|s: int|
                old(auto).valid(s) ==> old(auto).flow(s).is_prefix_of(
                    #[trigger] final(auto).flow(s),
                ),
            ty is Zero ==> final(auto).cons(r as int) == Seq::<TermView>::empty()
                && final(auto).flow(r as int) == Seq::<StateId>::empty(),
            ty is Zero || ty is UnboundVar ==> final(auto).cons(r as int)
                == Seq::<TermView>::empty(),
            ty matches Ty::Constructed(tag, fs) ==> (fs@.len() == 0 ==> final(auto).cons(
                r as int,
            ) == seq![TermView { tag, fields: Seq::<FieldView>::empty() }]),
            ty matches Ty::Constructed(tag, fs) ==> exists|tv: TermView|
                #[trigger] built_cons_term(*final(auto), pol, tag, fs@, tv) && final(auto).cons(
                    r as int,
                ) == seq![tv],
            ty matches Ty::Recursive(b) ==> (*b matches Ty::Constructed(tag, fs) ==> (all_bound0(
                fs@,
            ) ==> final(auto).cons(r as int) == seq![bound_term_view(tag, fs@, seq![r])])),
            forall|k2: u64|
                #[trigger] old(self).memo_map().contains_key(k2)
                    ==> final(self).memo_map().contains_key(k2)
                    && final(self).memo_map()[k2] == old(self).memo_map()[k2],
            ty matches Ty::UnboundVar(v) ==> (v matches Var::Pair(fp) ==> final(auto).flow(
                r as int,
            ).contains(
                if pol == Polarity::Pos {
                    fp.neg
                } else {
                    fp.pos
                },
            )),
            ty matches Ty::UnboundVar(v) ==> (v matches Var::Key(key)
                ==> final(self).memo_map().contains_key(key) && final(auto).flow(
                r as int,
            ).contains(
                if pol == Polarity::Pos {
                    final(self).memo_map()[key].neg
                } else {
                    final(self).memo_map()[key].pos
                },
            )),
    {
        let ghost pass = old(self).pass_through();
        let ghost n0 = old(auto).n();
        let ghost ty0 = ty;
        let at = auto.build_empty(pol);
        let ghost a0 = *auto;
        let mut stack: Vec<Frame> = Vec::new();
        let mut recs = binders_new();
        proof {
            assert(recs_pols(*auto, binder_elems(recs)) =~= Seq::<Polarity>::empty());
            lemma_ty_vars_ok_grow(ty0, *old(auto), *auto, pass);
            assert(frames_ok(stack@, *auto, pass));
            assert(frames_pot(stack@) == 0);
            assert(frames_total(stack@) == 0);
            assert(recs_ok(binder_elems(recs), *auto));
        }
        self.build_polar_closure_at(auto, pol, at, ty, &mut stack, &mut recs);
        let ghost root_cons = auto.cons(at as int);
        let ghost after_inline = *auto;
        let ghost after_inline_b = *self;
        proof {
            match ty0 {
                Ty::Recursive(b2) => {
                    match *b2 {
                        Ty::Constructed(tag2, fs2) => if all_bound0(fs2@) {
                            assert(seq![at] + Seq::<StateId>::empty() =~= seq![at]);
                            assert(bound_term_view(tag2, fs2@, seq![at] + Seq::<StateId>::empty())
                                == bound_term_view(tag2, fs2@, seq![at]));
                        },
                        _ => {},
                    }
                },
                Ty::Constructed(tag2, fs2) => {
                    if fs2@.len() == 0 {
                        assert(all_bound(fs2@));
                        assert(bound_term_view(tag2, fs2@, Seq::<StateId>::empty()).fields
                            =~= Seq::<FieldView>::empty());
                    }
                },
                _ => {},
            }
        }
        while stack.len() > 0
            invariant
                auto.wf(),
                self.policy_ok(*auto),
                self.pass_through() == pass,
                auto.order@ == old(auto).order@,
                at as int == n0,
                n0 == old(auto).n(),
                n0 + 1 <= auto.n(),
                old(auto).n() + 2 * ty_size(ty0) + 2 <= usize::MAX,
                auto.pol(at as int) == pol,
                forall|s: int| old(auto).valid(s) ==> auto.pol(s) == old(auto).pol(s),
                forall|s: int| old(auto).valid(s) ==> auto.cons(s) == old(auto).cons(s),
                forall|s: int|
                    old(auto).valid(s) ==> old(auto).flow(s).is_prefix_of(
                        #[trigger] auto.flow(s),
                    ),
                auto.cons(at as int) == root_cons,
                frames_ok(stack@, *auto, pass),
                forall|i: int| 0 <= i < stack@.len() ==> n0 < #[trigger] stack@[i].at as int,
                auto.n() + 2 * frames_pot(stack@) <= n0 + 2 * ty_size(ty0) - 1,
                after_inline.n() <= auto.n(),
                forall|s: int|
                    after_inline.valid(s) ==> #[trigger] auto.pol(s) == after_inline.pol(s),
                ty0 is Zero || ty0 is UnboundVar ==> *auto == after_inline && *self
                    == after_inline_b && stack@.len() == 0,
                forall|k2: u64|
                    #[trigger] after_inline_b.memo_map().contains_key(k2)
                        ==> self.memo_map().contains_key(k2) && self.memo_map()[k2]
                        == after_inline_b.memo_map()[k2],
            decreases frames_total(stack@),
        {
            let ghost prev = stack@;
            let fopt = stack.pop();
            match fopt {
                Some(f) => {
                    let Frame { pol: fpol, at: fat, ty: fty, recs: frecs } = f;
                    let mut frecs = frecs;
                    proof {
                        assert(stack@ =~= prev.drop_last());
                        assert(prev.last() == Frame { pol: fpol, at: fat, ty: fty, recs: frecs });
                        assert(frame_ok(prev.last(), *auto, pass)) by {
                            assert(prev[prev.len() - 1] == prev.last());
                        }
                        assert(frames_pot(prev) == frames_pot(stack@) + (ty_size(fty) - 1));
                        assert(frames_total(prev) == frames_total(stack@) + ty_size(fty));
                        crate::polar::lemma_ty_size_pos(fty);
                        assert forall|i: int| 0 <= i < stack@.len() implies frame_ok(
                            #[trigger] stack@[i],
                            *auto,
                            pass,
                        ) by {
                            assert(stack@[i] == prev[i]);
                        }
                        assert(auto.n() + 2 * ty_size(fty) <= usize::MAX);
                    }
                    let ghost spre = stack@;
                    let ghost apre = *auto;
                    let ghost potpre = frames_pot(stack@);
                    let ghost bpre2 = *self;
                    self.build_polar_closure_at(auto, fpol, fat, fty, &mut stack, &mut frecs);
                    proof {
                        assert forall|k2: u64|
                            #[trigger] after_inline_b.memo_map().contains_key(
                                k2,
                            ) implies self.memo_map().contains_key(k2) && self.memo_map()[k2]
                            == after_inline_b.memo_map()[k2] by {
                            assert(bpre2.memo_map().contains_key(k2));
                            assert(bpre2.memo_map()[k2] == after_inline_b.memo_map()[k2]);
                        }
                        assert forall|s: int|
                            after_inline.valid(s) implies #[trigger] auto.pol(s)
                            == after_inline.pol(s) by {
                            assert(apre.valid(s));
                            assert(apre.pol(s) == after_inline.pol(s));
                        }
                        assert(n0 < fat as int);
                        assert(auto.cons(at as int) == apre.cons(at as int));
                        assert forall|s: int|
                            old(auto).valid(s) implies auto.cons(s) == old(auto).cons(s) by {
                            assert(s < n0 + 1 <= fat as int);
                            assert(apre.cons(s) == auto.cons(s));
                        }
                        assert forall|i: int| 0 <= i < stack@.len() implies n0
                            < #[trigger] stack@[i].at as int by {
                            if i < spre.len() {
                                lemma_prefix_index(spre, stack@, i);
                            } else {
                                assert(apre.n() <= stack@[i].at as int);
                            }
                        }
                        lemma_frames_pot_prefix(spre, stack@);
                    }
                },
                None => {
                    proof {
                        assert(false);
                    }
                },
            }
        }
        proof {
            assert forall|k2: u64|
                #[trigger] old(self).memo_map().contains_key(k2) implies self.memo_map().contains_key(
                k2,
            ) && self.memo_map()[k2] == old(self).memo_map()[k2] by {
                assert(after_inline_b.memo_map().contains_key(k2));
                assert(after_inline_b.memo_map()[k2] == old(self).memo_map()[k2]);
            }
            match ty0 {
                Ty::Constructed(tag2, fs2) => {
                    let tv = choose|tv: TermView|
                        built_cons_term(after_inline, pol, tag2, fs2@, tv) && after_inline.cons(
                            at as int,
                        ) == a0.cons(at as int).push(tv);
                    assert(a0.cons(at as int) =~= Seq::<TermView>::empty());
                    assert(self.vars is PassThrough || self.vars is Memo);
                    assert(auto.cons(at as int) =~= seq![tv]);
                    assert(built_cons_term(*auto, pol, tag2, fs2@, tv)) by {
                        assert forall|m: int| 0 <= m < fs2@.len() implies (
                        #[trigger] tv.fields[m]).label == fs2@[m].0 && tv.fields[m].states.len()
                            == 1 && auto.valid(tv.fields[m].states[0] as int) && auto.pol(
                            tv.fields[m].states[0] as int,
                        ) == pol.compose(fs2@[m].0.pol) by {
                            assert(after_inline.valid(tv.fields[m].states[0] as int));
                        }
                    }
                },
                _ => {},
            }
        }
        at
    }
}

impl Automaton {
    /// A builder that memoizes flow pairs by variable key: every occurrence
    /// of one identifier within the same build shares one pair.
    pub fn builder() -> (b: Builder)
        ensures
            !b.pass_through(),
            forall|a: Automaton| #[trigger] b.policy_ok(a),
    {
        Builder { vars: VarPolicy::Memo(HashMap::new()) }
    }

    /// A builder that passes through flow pairs the caller has already made,
    /// for trees whose variable identities are pre-decided.
    pub fn simple_builder() -> (b: Builder)
        ensures
            b.pass_through(),
            forall|a: Automaton| #[trigger] b.policy_ok(a),
    {
        Builder { vars: VarPolicy::PassThrough }
    }
}

} // verus!
