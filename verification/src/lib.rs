//! Decision core of an algebraic-subtyping type inference engine.
//!
//! Type expressions are compiled into a shared automaton of states joined by
//! constructor edges and variable flow edges; subtyping constraints between
//! automaton states are then decided by biunification, a memoized fixpoint
//! that terminates even on cyclic (recursive) types.

pub mod auto;
mod binder;
pub mod builder;
pub mod biunify;
mod memo;
pub mod polar;
pub mod polarity;

pub use auto::{Automaton, FlowPair, Label, StateId};
pub use builder::Builder;
pub use polar::{Ty, Var};
pub use polarity::Polarity;
