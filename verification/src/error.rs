//! What can go wrong while a pattern is compiled.

use vstd::prelude::*;

verus! {

/// The reason a pattern was refused. Every error is final: nothing is built
/// from a pattern that has one.
#[derive(Clone, Copy, Debug, PartialEq, Eq, Structural)]
pub enum Error {
    /// Lexical: the `"` at character `index` is never closed.
    UnterminatedQuote { index: usize },
    /// Lexical: the character at `index` belongs to no token.
    UnsupportedCharacter { index: usize },
    /// Structural: the parenthesis at character `index` has no partner.
    UnbalancedParenthesis { index: usize },
    /// Arity: the operator at `position` of the postfix sequence finds too few
    /// operands before it.
    MissingOperand { position: usize },
    /// Arity: the postfix sequence leaves `count` fragments, not one.
    NotOneFragment { count: usize },
    /// The range operator at `position` of the postfix sequence does not stand
    /// behind two single characters, or two single digits, in rising order.
    InvalidRange { position: usize },
    /// The element at `position` of the postfix sequence needs state ids
    /// beyond the largest one.
    TooManyStates { position: usize },
}

} // verus!
