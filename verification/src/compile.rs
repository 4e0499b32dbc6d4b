//! From the text of a pattern to its automaton.

use crate::error::Error;
use crate::fsa::assemble::{assembled, build};
use crate::fsa::nfa::{Nfa, NfaView};
use crate::fsa::sound::lemma_assembled_sound;
use crate::regex::order::lemma_postfix_digits;
use crate::regex::{postfix_of, to_postfix};
use vstd::prelude::*;

verus! {

/// The automaton of a pattern, or the reason why it has none: the pattern is
/// rewritten in postfix form, and the postfix form is built from state 0 on.
pub open spec fn compiled(pattern: Seq<char>) -> Result<NfaView, Error> {
    match postfix_of(pattern) {
        Ok(tokens) => assembled(tokens, 0),
        Err(error) => Err(error),
    }
}

/// Every pattern that has an automaton has one in which every state, and so
/// the accept state, can be reached from the start state over its
/// transitions, those on nothing included, and whose states are numbered from
/// 0 on without a gap.
pub proof fn lemma_compiled_sound(pattern: Seq<char>)
    requires
        compiled(pattern) is Ok,
    ensures
        compiled(pattern)->Ok_0.rooted(),
        compiled(pattern)->Ok_0.connected(),
        compiled(pattern)->Ok_0.seeded(0),
{
    lemma_postfix_digits(pattern);
    lemma_assembled_sound(postfix_of(pattern)->Ok_0, 0);
}

/// Compiles a pattern into a nondeterministic finite automaton.
///
/// Every state of the automaton, and so its accept state, can be reached from
/// its start state, and its states are numbered from 0 on without a gap. A
/// pattern that is malformed gives the first error met, and no automaton.
pub fn compile(pattern: &str) -> (result: Result<Nfa, Error>)
    ensures
        match result {
            Ok(nfa) => compiled(pattern@) == Ok::<NfaView, Error>(nfa@) && nfa@.rooted()
                && nfa@.connected() && nfa@.seeded(0),
            Err(error) => compiled(pattern@) == Err::<NfaView, Error>(error),
        },
{
    match to_postfix(pattern) {
        Ok(postfix) => build(&postfix, 0),
        Err(error) => Err(error),
    }
}

} // verus!
