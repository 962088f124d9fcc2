//! Simulators for two classes of finite automata, each driven by a textual
//! description: a nondeterministic finite automaton (NFA) with epsilon moves,
//! and a deterministic pushdown automaton (DPDA) with an explicit symbol
//! stack.  Loading validates the description against a fixed line-oriented
//! grammar; running decides membership of an input string in the language the
//! automaton encodes.

pub mod accept_set;
pub mod bits;
pub mod dpda;
pub mod errors;
pub mod nfa;
pub mod text;

pub use dpda::DPDA;
pub use errors::LoadError;
pub use errors::LoadErrorKind;
pub use nfa::NFA;
