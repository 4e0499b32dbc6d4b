//! Compiles a small pattern language into a nondeterministic finite automaton
//! by Thompson's construction.
//!
//! A pattern is first rewritten from infix to postfix form ([`regex`]), then
//! the postfix sequence is evaluated on a stack of automaton fragments
//! ([`fsa`]).

pub mod compile;
pub mod error;
pub mod fsa;
pub mod regex;
pub mod text;

pub use compile::compile;
pub use error::Error;
pub use fsa::nfa::{Lable, Nfa};
