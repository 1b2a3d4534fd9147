//! The binder-indexed type-expression tree that the builder consumes.
//!
//! Recursion binders introduce one bound variable each; a bound reference
//! names the enclosing binder by its de Bruijn index (0 is the innermost).
//! This keeps a recursive type a finite tree with back-references instead of
//! an infinite unrolling.

use vstd::prelude::*;
use crate::auto::{Automaton, FlowPair, Label};
use crate::polarity::Polarity;

verus! {

broadcast use vstd::seq::group_seq_axioms, vstd::std_specs::vec::group_vec_axioms;

/// A free-variable reference: either a key that the memoizing builder
/// resolves to a shared flow pair, or a flow pair the caller made in advance.
pub enum Var {
    Key(u64),
    Pair(FlowPair),
}

/// A type-expression tree.
pub enum Ty {
    /// The uninhabited type: no constructors, no flow.
    Zero,
    /// A union satisfied by either operand.
    Add(Box<Ty>, Box<Ty>),
    /// A free type variable.
    UnboundVar(Var),
    /// A reference to the enclosing recursion binder at the given depth.
    BoundVar(usize),
    /// A recursion binder whose body may refer back to it.
    Recursive(Box<Ty>),
    /// One domain constructor: a tag and its labelled sub-trees.
    Constructed(u64, Vec<(Label, Ty)>),
}

/// Size of a tree; a free variable counts twice since resolving it may
/// allocate a two-pole flow pair.
pub open spec fn ty_size(ty: Ty) -> nat
    decreases ty, 1nat,
{
    match ty {
        Ty::Zero => 1,
        Ty::BoundVar(_) => 1,
        Ty::UnboundVar(_) => 2,
        Ty::Add(l, r) => 1 + ty_size(*l) + ty_size(*r),
        Ty::Recursive(b) => 1 + ty_size(*b),
        Ty::Constructed(_, fs) => 1 + fields_size(fs@),
    }
}

pub open spec fn fields_size(fs: Seq<(Label, Ty)>) -> nat
    decreases fs, 0nat, fs.len(),
{
    if fs.len() == 0 {
        0
    } else {
        ty_size(fs[0].1) + fields_size(fs.drop_first())
    }
}

/// Every tree node has positive size.
pub proof fn lemma_ty_size_pos(ty: Ty)
    ensures
        ty_size(ty) >= 1,
{
}

/// A field's sub-tree is smaller than the whole field list.
pub proof fn lemma_fields_size_elem(fs: Seq<(Label, Ty)>, i: int)
    requires
        0 <= i < fs.len(),
    ensures
        ty_size(fs[i].1) <= fields_size(fs),
    decreases fs.len(),
{
    if i == 0 {
    } else {
        lemma_fields_size_elem(fs.drop_first(), i - 1);
        assert(fs.drop_first()[i - 1] == fs[i]);
    }
}

/// Well-formedness of a tree at a polarity, under a stack of binder
/// polarities (innermost first): a bound reference must name an existing
/// binder opened at the polarity of its own position.
pub open spec fn ty_wf(ty: Ty, pol: Polarity, binders: Seq<Polarity>) -> bool
    decreases ty, 1nat,
{
    match ty {
        Ty::Zero => true,
        Ty::UnboundVar(_) => true,
        Ty::BoundVar(i) => i < binders.len() && binders[i as int] == pol,
        Ty::Add(l, r) => ty_wf(*l, pol, binders) && ty_wf(*r, pol, binders),
        Ty::Recursive(b) => ty_wf(*b, pol, seq![pol] + binders),
        Ty::Constructed(_, fs) => fields_wf(fs@, pol, binders),
    }
}

pub open spec fn fields_wf(fs: Seq<(Label, Ty)>, pol: Polarity, binders: Seq<Polarity>) -> bool
    decreases fs, 0nat, fs.len(),
{
    if fs.len() == 0 {
        true
    } else {
        ty_wf(fs[0].1, pol.compose(fs[0].0.pol), binders) && fields_wf(
            fs.drop_first(),
            pol,
            binders,
        )
    }
}

/// Each field of a well-formed list is well formed at the composed polarity.
pub proof fn lemma_fields_wf_elem(fs: Seq<(Label, Ty)>, pol: Polarity, binders: Seq<Polarity>, i: int)
    requires
        fields_wf(fs, pol, binders),
        0 <= i < fs.len(),
    ensures
        ty_wf(fs[i].1, pol.compose(fs[i].0.pol), binders),
    decreases fs.len(),
{
    if i > 0 {
        lemma_fields_wf_elem(fs.drop_first(), pol, binders, i - 1);
        assert(fs.drop_first()[i - 1] == fs[i]);
    }
}

/// The flow-pair references of a tree are valid states of the right
/// polarities whose poles are flow-linked to one another; under a
/// pass-through policy no keyed variable occurs.
pub open spec fn pair_ok(fp: FlowPair, auto: Automaton) -> bool {
    &&& auto.valid(fp.pos as int)
    &&& auto.valid(fp.neg as int)
    &&& auto.pol(fp.pos as int) == Polarity::Pos
    &&& auto.pol(fp.neg as int) == Polarity::Neg
    &&& auto.flow(fp.pos as int).contains(fp.neg)
    &&& auto.flow(fp.neg as int).contains(fp.pos)
}

pub open spec fn ty_vars_ok(ty: Ty, auto: Automaton, pass_through: bool) -> bool
    decreases ty, 1nat,
{
    match ty {
        Ty::Zero => true,
        Ty::BoundVar(_) => true,
        Ty::UnboundVar(v) => match v {
            Var::Key(_) => !pass_through,
            Var::Pair(fp) => pair_ok(fp, auto),
        },
        Ty::Add(l, r) => ty_vars_ok(*l, auto, pass_through) && ty_vars_ok(*r, auto, pass_through),
        Ty::Recursive(b) => ty_vars_ok(*b, auto, pass_through),
        Ty::Constructed(_, fs) => fields_vars_ok(fs@, auto, pass_through),
    }
}

pub open spec fn fields_vars_ok(fs: Seq<(Label, Ty)>, auto: Automaton, pass_through: bool) -> bool
    decreases fs, 0nat, fs.len(),
{
    if fs.len() == 0 {
        true
    } else {
        ty_vars_ok(fs[0].1, auto, pass_through) && fields_vars_ok(
            fs.drop_first(),
            auto,
            pass_through,
        )
    }
}

pub proof fn lemma_fields_vars_ok_elem(
    fs: Seq<(Label, Ty)>,
    auto: Automaton,
    pass_through: bool,
    i: int,
)
    requires
        fields_vars_ok(fs, auto, pass_through),
        0 <= i < fs.len(),
    ensures
        ty_vars_ok(fs[i].1, auto, pass_through),
    decreases fs.len(),
{
    if i > 0 {
        lemma_fields_vars_ok_elem(fs.drop_first(), auto, pass_through, i - 1);
        assert(fs.drop_first()[i - 1] == fs[i]);
    }
}

/// `ty_vars_ok` only looks at state validity and polarity, so it survives
/// any automaton change that grows the state count and keeps polarities.
pub proof fn lemma_ty_vars_ok_grow(ty: Ty, a1: Automaton, a2: Automaton, pass_through: bool)
    requires
        ty_vars_ok(ty, a1, pass_through),
        a1.n() <= a2.n(),
        forall|s: int| a1.valid(s) ==> a2.pol(s) == a1.pol(s),
        forall|s: int| a1.valid(s) ==> a1.flow(s).is_prefix_of(#[trigger] a2.flow(s)),
    ensures
        ty_vars_ok(ty, a2, pass_through),
    decreases ty, 1nat,
{
    match ty {
        Ty::Add(l, r) => {
            lemma_ty_vars_ok_grow(*l, a1, a2, pass_through);
            lemma_ty_vars_ok_grow(*r, a1, a2, pass_through);
        },
        Ty::Recursive(b) => {
            lemma_ty_vars_ok_grow(*b, a1, a2, pass_through);
        },
        Ty::Constructed(_, fs) => {
            lemma_fields_vars_ok_grow(fs@, a1, a2, pass_through);
        },
        Ty::UnboundVar(v) => {
            match v {
                Var::Pair(fp) => {
                    crate::auto::lemma_prefix_contains(
                        a1.flow(fp.pos as int),
                        a2.flow(fp.pos as int),
                        fp.neg,
                    );
                    crate::auto::lemma_prefix_contains(
                        a1.flow(fp.neg as int),
                        a2.flow(fp.neg as int),
                        fp.pos,
                    );
                },
                Var::Key(_) => {},
            }
        },
        _ => {},
    }
}

pub proof fn lemma_fields_vars_ok_grow(
    fs: Seq<(Label, Ty)>,
    a1: Automaton,
    a2: Automaton,
    pass_through: bool,
)
    requires
        fields_vars_ok(fs, a1, pass_through),
        a1.n() <= a2.n(),
        forall|s: int| a1.valid(s) ==> a2.pol(s) == a1.pol(s),
        forall|s: int| a1.valid(s) ==> a1.flow(s).is_prefix_of(#[trigger] a2.flow(s)),
    ensures
        fields_vars_ok(fs, a2, pass_through),
    decreases fs, 0nat, fs.len(),
{
    if fs.len() > 0 {
        lemma_ty_vars_ok_grow(fs[0].1, a1, a2, pass_through);
        lemma_fields_vars_ok_grow(fs.drop_first(), a1, a2, pass_through);
    }
}

} // verus!
