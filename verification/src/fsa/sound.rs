//! What holds of every fragment that the stack machine builds.

use crate::fsa::assemble::{
    assembled, empty_bench, leaf_of, leaf_size, placed, range_of, run, symbol_of, Bench,
};
use crate::fsa::hid::left;
use crate::fsa::ids::{
    lemma_fills_apart, lemma_fills_seeded, lemma_of_cdash_fills, lemma_of_concat_fills,
    lemma_of_lable_fills, lemma_of_or_fills, lemma_of_plus_fills, lemma_of_question_fills,
    lemma_of_star_fills, lemma_of_text_fills,
};
use crate::fsa::nfa::{digit_char, Lable, NfaView};
use crate::fsa::rooted::{
    lemma_of_cdash_rooted, lemma_of_concat_rooted, lemma_of_lable_rooted, lemma_of_or_rooted,
    lemma_of_plus_rooted, lemma_of_question_rooted, lemma_of_star_rooted, lemma_of_text_rooted,
    lemma_rooted_connected,
};
use crate::regex::repr::{digits_only, Token};
use vstd::prelude::*;

verus! {

/// The fragments on the bench lie side by side: each fills the ids from its
/// own level up to the next level, each is rooted, and one made from a single
/// character or digit has two states.
pub open spec fn orderly(bench: Bench, offset: usize) -> bool {
    &&& bench.levels.len() == bench.pieces.len() + 1
    &&& bench.levels[0] == offset
    &&& forall|i: int|
        0 <= i < bench.pieces.len() ==> {
            &&& (#[trigger] bench.pieces[i]).nfa.fills(
                bench.levels[i] as int,
                bench.levels[i + 1] as int,
            )
            &&& bench.pieces[i].nfa.rooted()
            &&& bench.pieces[i].symbol is Some ==> bench.levels[i + 1] == bench.levels[i] + 2
        }
}

/// The fragment of an operand fills the ids that it is given and is rooted.
pub proof fn lemma_leaf(token: Token, offset: usize)
    requires
        token.is_operand(),
        token.wf(),
        offset + leaf_size(token) <= usize::MAX,
    ensures
        leaf_of(token, offset).fills(offset as int, offset + leaf_size(token)),
        leaf_of(token, offset).rooted(),
        symbol_of(token) is Some ==> leaf_size(token) == 2,
{
    match token {
        Token::Text(text) => {
            lemma_of_text_fills(text, offset);
            lemma_of_text_rooted(text, offset);
        },
        Token::NameOrText(text) => {
            lemma_of_text_fills(text, offset);
            lemma_of_text_rooted(text, offset);
        },
        Token::Number(digit) => {
            lemma_of_lable_fills(Lable::Char(digit_char(digit)), offset);
            lemma_of_lable_rooted(Lable::Char(digit_char(digit)), offset);
        },
        Token::Char(c) => {
            lemma_of_lable_fills(Lable::Char(c), offset);
            lemma_of_lable_rooted(Lable::Char(c), offset);
        },
        _ => {
            lemma_of_lable_fills(Lable::Eps, offset);
            lemma_of_lable_rooted(Lable::Eps, offset);
        },
    }
}

/// The two ends of a range stand in rising order.
pub proof fn lemma_range_rises(low: Option<Token>, high: Option<Token>)
    ensures
        match range_of(low, high) {
            Some((c1, c2)) => c1 <= c2,
            None => true,
        },
{
}

/// An orderly bench stays orderly under every element that it takes.
pub proof fn lemma_placed_orderly(bench: Bench, token: Token, position: int, offset: usize)
    requires
        orderly(bench, offset),
        token.wf(),
        placed(bench, token, position) is Ok,
    ensures
        orderly(placed(bench, token, position)->Ok_0, offset),
{
    let after = placed(bench, token, position)->Ok_0;
    let count = bench.pieces.len() as int;
    let top = bench.levels.last();
    assert(top == bench.levels[count]);
    if token.is_operand() {
        lemma_leaf(token, top);
        assert forall|i: int| 0 <= i < after.pieces.len() implies {
            &&& (#[trigger] after.pieces[i]).nfa.fills(
                after.levels[i] as int,
                after.levels[i + 1] as int,
            )
            &&& after.pieces[i].nfa.rooted()
            &&& after.pieces[i].symbol is Some ==> after.levels[i + 1] == after.levels[i] + 2
        } by {
            if i < count {
                assert(after.pieces[i] == bench.pieces[i]);
            }
        }
    } else {
        let taken: int = if token.arity() == 2 {
            2
        } else {
            1
        };
        let kept = count - taken;
        let below = if taken == 2 {
            left(left(bench.levels))
        } else {
            left(bench.levels)
        };
        assert(below =~= bench.levels.take(kept + 1));
        let base = bench.levels[kept];
        let last = bench.pieces[count - 1];
        assert(last.nfa.fills(bench.levels[count - 1] as int, bench.levels[count] as int));
        if taken == 2 {
            let first = bench.pieces[count - 2];
            assert(first.nfa.fills(bench.levels[count - 2] as int, bench.levels[count - 1] as int));
            let lo = bench.levels[count - 2] as int;
            let mid = bench.levels[count - 1] as int;
            lemma_fills_apart(first.nfa, last.nfa, lo, mid, top as int);
            if token is Dash {
                lemma_range_rises(first.symbol, last.symbol);
                let ends = range_of(first.symbol, last.symbol)->0;
                lemma_of_cdash_fills(ends.0, ends.1, base);
                lemma_of_cdash_rooted(ends.0, ends.1, base);
            } else if token is Concat {
                lemma_of_concat_fills(first.nfa, last.nfa, lo, mid, top as int);
                lemma_of_concat_rooted(first.nfa, last.nfa, lo, mid, top as int);
            } else {
                lemma_of_or_fills(first.nfa, last.nfa, top, lo, mid);
                lemma_of_or_rooted(first.nfa, last.nfa, top, lo, mid);
            }
        } else {
            let lo = bench.levels[count - 1] as int;
            if token is Star {
                lemma_of_star_fills(last.nfa, top, lo);
                lemma_of_star_rooted(last.nfa, top, lo);
            } else if token is Plus {
                lemma_of_plus_fills(last.nfa, top, lo);
                lemma_of_plus_rooted(last.nfa, top, lo);
            } else {
                lemma_of_question_fills(last.nfa, top, lo);
                lemma_of_question_rooted(last.nfa, top, lo);
            }
        }
        assert forall|i: int| 0 <= i < after.pieces.len() implies {
            &&& (#[trigger] after.pieces[i]).nfa.fills(
                after.levels[i] as int,
                after.levels[i + 1] as int,
            )
            &&& after.pieces[i].nfa.rooted()
            &&& after.pieces[i].symbol is Some ==> after.levels[i + 1] == after.levels[i] + 2
        } by {
            if i < kept {
                assert(after.pieces[i] == bench.pieces[i]);
                assert(after.levels[i] == bench.levels[i]);
                assert(after.levels[i + 1] == bench.levels[i + 1]);
            } else {
                assert(after.levels[i] == base);
            }
        }
    }
}

/// An orderly bench stays orderly to the end of the sequence.
pub proof fn lemma_run_orderly(tokens: Seq<Token>, from: int, bench: Bench, offset: usize)
    requires
        0 <= from,
        orderly(bench, offset),
        digits_only(tokens),
        run(tokens, from, bench) is Ok,
    ensures
        orderly(run(tokens, from, bench)->Ok_0, offset),
    decreases tokens.len() - from,
{
    if from < tokens.len() {
        lemma_placed_orderly(bench, tokens[from], from, offset);
        lemma_run_orderly(tokens, from + 1, placed(bench, tokens[from], from)->Ok_0, offset);
    }
}

/// The fragment of a pattern in postfix form is rooted: every state of it,
/// and so its accept state, can be reached from its start state. Its states
/// are numbered from the offset on without a gap.
pub proof fn lemma_assembled_sound(tokens: Seq<Token>, offset: usize)
    requires
        digits_only(tokens),
        assembled(tokens, offset) is Ok,
    ensures
        assembled(tokens, offset)->Ok_0.rooted(),
        assembled(tokens, offset)->Ok_0.connected(),
        assembled(tokens, offset)->Ok_0.seeded(offset),
{
    let start = empty_bench(offset);
    assert(orderly(start, offset));
    lemma_run_orderly(tokens, 0, start, offset);
    let bench = run(tokens, 0, start)->Ok_0;
    let piece = bench.pieces[0];
    assert(piece.nfa.fills(bench.levels[0] as int, bench.levels[1] as int));
    lemma_fills_seeded(piece.nfa, offset as int, bench.levels[1] as int);
    lemma_rooted_connected(piece.nfa);
}

} // verus!
