//! The symbolic and structural core of a one-dimensional quantum mechanics
//! sandbox.
//!
//! A formula such as `2x^3 - sin(x)` goes through a lexer ([`lexer`]), a
//! bracket-scope builder ([`scope`]), an implicit-multiplication pass
//! ([`implicit`]) and a precedence parser ([`parser`]) to become a tree
//! ([`Formula`]). Each stage is stated as a specification over sequences and
//! proved against it. [`simulation`] holds the band structure of the
//! discretized Hamiltonian and the mode cut of time evolution, and [`store`]
//! the slot for the experiment currently loaded. Arithmetic over complex
//! numbers, which works in floating point, is left to the host program.
use vstd::prelude::*;

pub mod formula;
pub mod implicit;
pub mod lexer;
pub mod parser;
pub mod scope;
pub mod simulation;
pub mod store;
pub mod token;

pub use formula::{chars_of, formula_error, formula_or_zero, greet, Formula};
pub use parser::Node;
pub use scope::ScopeElement;
pub use simulation::{hamiltonian_coupling, mode_kept, Coupling};
pub use store::ExperimentStore;
pub use token::{Function, FormulaError, Operator, Token};

verus! {

} // verus!
