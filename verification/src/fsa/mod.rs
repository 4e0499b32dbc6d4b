//! Finite state automata: the id allocator and the fragments it numbers.

pub mod assemble;
pub mod edges;
pub mod hid;
pub mod ids;
pub mod nfa;
pub mod reach;
pub mod rooted;
pub mod sound;
pub mod table;
