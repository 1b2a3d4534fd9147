use biunify::auto::{Automaton, Label};
use biunify::polar::{Ty, Var};
use biunify::polarity::Polarity;

const INT: u64 = 1;
const STR: u64 = 2;
const FUN: u64 = 3;

fn reflexive_order() -> Vec<(u64, u64)> {
    vec![(INT, INT), (STR, STR), (FUN, FUN)]
}

fn cov(id: u64) -> Label {
    Label { id, pol: Polarity::Pos }
}

fn contra(id: u64) -> Label {
    Label { id, pol: Polarity::Neg }
}

fn leaf(tag: u64) -> Ty {
    Ty::Constructed(tag, vec![])
}

#[test]
fn polarity_negation_and_composition() {
    assert_eq!(Polarity::Pos.neg(), Polarity::Neg);
    assert_eq!(Polarity::Neg.neg(), Polarity::Pos);
    assert_eq!(Polarity::Pos.mul(Polarity::Neg), Polarity::Neg);
    assert_eq!(Polarity::Neg.mul(Polarity::Neg), Polarity::Pos);
    assert_eq!(Polarity::Neg.mul(Polarity::Pos), Polarity::Neg);
    assert_eq!(Polarity::Pos.mul(Polarity::Pos), Polarity::Pos);
    assert_eq!(Polarity::Pos.flip(1, 2), (1, 2));
    assert_eq!(Polarity::Neg.flip(1, 2), (2, 1));
}

#[test]
fn same_tag_is_admissible() {
    let mut auto = Automaton::new(reflexive_order());
    let mut b = Automaton::builder();
    let p = b.build_polar(&mut auto, Polarity::Pos, leaf(INT));
    let n = b.build_polar(&mut auto, Polarity::Neg, leaf(INT));
    assert_eq!(auto.biunify(p, n), Ok(()));
}

#[test]
fn unrelated_tags_are_rejected() {
    let mut auto = Automaton::new(reflexive_order());
    let mut b = Automaton::builder();
    let p = b.build_polar(&mut auto, Polarity::Pos, leaf(INT));
    let n = b.build_polar(&mut auto, Polarity::Neg, leaf(STR));
    assert_eq!(auto.biunify(p, n), Err(()));
}

#[test]
fn shared_variable_with_empty_sides_succeeds() {
    let mut auto = Automaton::new(reflexive_order());
    let mut b = Automaton::builder();
    let p = b.build_polar(&mut auto, Polarity::Pos, Ty::UnboundVar(Var::Key(0)));
    let n = b.build_polar(&mut auto, Polarity::Neg, Ty::UnboundVar(Var::Key(0)));
    assert_eq!(auto.cons_len(p), 0);
    assert_eq!(auto.cons_len(n), 0);
    assert_eq!(auto.biunify(p, n), Ok(()));
}

#[test]
fn pass_through_pairs_succeed() {
    let mut auto = Automaton::new(reflexive_order());
    let pair = auto.build_var();
    let mut b = Automaton::simple_builder();
    let p = b.build_polar(&mut auto, Polarity::Pos, Ty::UnboundVar(Var::Pair(pair)));
    let n = b.build_polar(&mut auto, Polarity::Neg, Ty::UnboundVar(Var::Pair(pair)));
    assert_eq!(auto.biunify(p, n), Ok(()));
}

#[test]
fn memoized_pair_is_already_seen_in_batch() {
    // Re-running a memoized pair in one batch succeeds and performs no
    // further merges: the automaton observation is unchanged by the repeat.
    let mut auto = Automaton::new(reflexive_order());
    let mut b = Automaton::builder();
    let p = b.build_polar(&mut auto, Polarity::Pos, leaf(INT));
    let n = b.build_polar(&mut auto, Polarity::Neg, leaf(INT));
    assert_eq!(auto.biunify_all(&vec![(p, n), (p, n), (p, n)]), Ok(()));
    let states = auto.num_states();
    let cons_p = auto.cons_len(p);
    let cons_n = auto.cons_len(n);
    assert_eq!(auto.biunify_all(&vec![(p, n), (p, n)]), Ok(()));
    assert_eq!(auto.num_states(), states);
    assert_eq!(auto.cons_len(p), cons_p);
    assert_eq!(auto.cons_len(n), cons_n);
}

#[test]
fn union_with_empty_is_equivalent_to_operand() {
    // The empty type contributes no constructors to a union node: both
    // builds are accepted and rejected by the same acceptors.
    let mut auto = Automaton::new(reflexive_order());
    let mut b = Automaton::builder();
    let with_empty = b.build_polar(
        &mut auto,
        Polarity::Pos,
        Ty::Add(Box::new(Ty::Zero), Box::new(leaf(INT))),
    );
    let plain = b.build_polar(&mut auto, Polarity::Pos, leaf(INT));
    assert_eq!(auto.cons_len(with_empty), auto.cons_len(plain));
    assert_eq!(auto.cons_tag(with_empty, 0), auto.cons_tag(plain, 0));
    let n_int = b.build_polar(&mut auto, Polarity::Neg, leaf(INT));
    let n_str = b.build_polar(&mut auto, Polarity::Neg, leaf(STR));
    assert_eq!(auto.biunify(with_empty, n_int), Ok(()));
    assert_eq!(auto.biunify(plain, n_int), Ok(()));
    assert_eq!(auto.biunify(with_empty, n_str), Err(()));
    assert_eq!(auto.biunify(plain, n_str), Err(()));
}

#[test]
fn recursive_constructor_builds_a_self_loop() {
    // build(Pos, mu a. F(a)) ends as one state with exactly one constructor
    // term whose field points back at that state: a genuine cycle, not an
    // unrolled tree.
    let mut auto = Automaton::new(reflexive_order());
    let mut b = Automaton::builder();
    let body = Ty::Constructed(FUN, vec![(cov(0), Ty::BoundVar(0))]);
    let r = b.build_polar(&mut auto, Polarity::Pos, Ty::Recursive(Box::new(body)));
    assert_eq!(auto.cons_len(r), 1);
    assert_eq!(auto.cons_tag(r, 0), FUN);
    assert_eq!(auto.cons_field_count(r, 0), 1);
    assert_eq!(auto.cons_field_state_count(r, 0, 0), 1);
    assert_eq!(auto.cons_field_state(r, 0, 0, 0), r);
}

#[test]
fn mutually_recursive_trees_terminate() {
    // Biunifying two cyclic constructor graphs terminates (bounded by the
    // memo set) and succeeds when every reachable pair shares its tag.
    let mut auto = Automaton::new(reflexive_order());
    let mut b = Automaton::builder();
    let p_body = Ty::Constructed(FUN, vec![(cov(0), Ty::BoundVar(0))]);
    let n_body = Ty::Constructed(FUN, vec![(cov(0), Ty::BoundVar(0))]);
    let p = b.build_polar(&mut auto, Polarity::Pos, Ty::Recursive(Box::new(p_body)));
    let n = b.build_polar(&mut auto, Polarity::Neg, Ty::Recursive(Box::new(n_body)));
    assert_eq!(auto.biunify(p, n), Ok(()));
}

#[test]
fn covariant_and_contravariant_fields_flip_per_field() {
    // Order INT <= STR besides the reflexive pairs. A function-like
    // constructor with one covariant and one contravariant field: the
    // covariant field is checked producer-to-acceptor, the contravariant one
    // acceptor-to-producer. Only the per-field flip makes this check pass.
    let mut order = reflexive_order();
    order.push((INT, STR));
    let mut auto = Automaton::new(order);
    let mut b = Automaton::builder();
    let producer = Ty::Constructed(FUN, vec![(cov(0), leaf(INT)), (contra(1), leaf(STR))]);
    let acceptor = Ty::Constructed(FUN, vec![(cov(0), leaf(STR)), (contra(1), leaf(INT))]);
    let p = b.build_polar(&mut auto, Polarity::Pos, producer);
    let n = b.build_polar(&mut auto, Polarity::Neg, acceptor);
    assert_eq!(auto.biunify(p, n), Ok(()));

    // The same shapes with both fields swapped must fail: the covariant
    // field would need STR <= INT.
    let mut auto2 = Automaton::new({
        let mut o = reflexive_order();
        o.push((INT, STR));
        o
    });
    let mut b2 = Automaton::builder();
    let producer2 = Ty::Constructed(FUN, vec![(cov(0), leaf(STR)), (contra(1), leaf(INT))]);
    let acceptor2 = Ty::Constructed(FUN, vec![(cov(0), leaf(INT)), (contra(1), leaf(STR))]);
    let p2 = b2.build_polar(&mut auto2, Polarity::Pos, producer2);
    let n2 = b2.build_polar(&mut auto2, Polarity::Neg, acceptor2);
    assert_eq!(auto2.biunify(p2, n2), Err(()));
}

#[test]
fn verdict_agrees_under_reordering() {
    // For a fixed constraint set, every permutation of biunify_all agrees on
    // the overall verdict, though the intermediate merges may differ.
    let build = || {
        let mut auto = Automaton::new(reflexive_order());
        let mut b = Automaton::builder();
        let p1 = b.build_polar(&mut auto, Polarity::Pos, leaf(INT));
        let n1 = b.build_polar(&mut auto, Polarity::Neg, leaf(INT));
        let p2 = b.build_polar(&mut auto, Polarity::Pos, leaf(STR));
        let n2 = b.build_polar(&mut auto, Polarity::Neg, leaf(STR));
        (auto, p1, n1, p2, n2)
    };
    let (mut a1, p1, n1, p2, n2) = build();
    let (mut a2, q1, m1, q2, m2) = build();
    assert_eq!(a1.biunify_all(&vec![(p1, n1), (p2, n2)]), Ok(()));
    assert_eq!(a2.biunify_all(&vec![(q2, m2), (q1, m1)]), Ok(()));

    let (mut a3, p1, n1, p2, _n2) = build();
    let (mut a4, q1, m1, q2, _m2) = build();
    // (p2, n1) relates STR to INT and must fail in any order.
    assert_eq!(a3.biunify_all(&vec![(p1, n1), (p2, n1)]), Err(()));
    assert_eq!(a4.biunify_all(&vec![(q2, m1), (q1, m1)]), Err(()));
}

#[test]
fn flow_propagation_merges_bounds_into_poles() {
    // Checking var+ <= Int- must record the Int bound at the variable's
    // negative pole, so later uses of the variable see it.
    let mut auto = Automaton::new(reflexive_order());
    let pair = auto.build_var();
    let mut b = Automaton::simple_builder();
    let p = b.build_polar(&mut auto, Polarity::Pos, Ty::UnboundVar(Var::Pair(pair)));
    let n = b.build_polar(&mut auto, Polarity::Neg, leaf(INT));
    assert!(auto.flow_contains(p, pair.neg));
    assert_eq!(auto.cons_len(pair.neg), 0);
    assert_eq!(auto.biunify(p, n), Ok(()));
    assert_eq!(auto.cons_len(pair.neg), 1);
    assert_eq!(auto.cons_tag(pair.neg, 0), INT);
}

#[test]
fn empty_type_builds_an_empty_state() {
    let mut auto = Automaton::new(reflexive_order());
    let mut b = Automaton::builder();
    let z = b.build_polar(&mut auto, Polarity::Pos, Ty::Zero);
    assert_eq!(auto.cons_len(z), 0);
    assert_eq!(auto.polarity_of(z), Polarity::Pos);
    let n = b.build_polar(&mut auto, Polarity::Neg, leaf(INT));
    assert_eq!(auto.biunify(z, n), Ok(()));
}

#[test]
fn memoized_variables_share_one_pair() {
    // Two occurrences of one key allocate states only once.
    let mut auto = Automaton::new(reflexive_order());
    let mut b = Automaton::builder();
    let p = b.build_polar(&mut auto, Polarity::Pos, Ty::UnboundVar(Var::Key(7)));
    let states_after_first = auto.num_states();
    let n = b.build_polar(&mut auto, Polarity::Neg, Ty::UnboundVar(Var::Key(7)));
    // Only the occurrence node itself is new; no second flow pair appears.
    assert_eq!(auto.num_states(), states_after_first + 1);
    assert_eq!(auto.biunify(p, n), Ok(()));
}
