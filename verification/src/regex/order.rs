//! What the postfix form keeps of the pattern: its operands in their order,
//! and each of its operators once.

use crate::regex::repr::{digits_only, Token};
use crate::regex::{
    is_blank, lemma_scan_advances, postfix_of, rank, released, scan, shunt, step, Lexeme, Scan,
    Yard,
};
use vstd::multiset::Multiset;
use vstd::prelude::*;

verus! {

/// The lexemes of the text from `from` on, up to its end or to the first
/// character that belongs to none.
pub open spec fn scanned(text: Seq<char>, from: int) -> Seq<Lexeme>
    decreases text.len() - from,
    via scanned_decreases
{
    match scan(text, from) {
        Scan::Found { lexeme, at, next } => seq![lexeme] + scanned(text, next),
        _ => Seq::empty(),
    }
}

#[via_fn]
proof fn scanned_decreases(text: Seq<char>, from: int) {
    if from >= 0 {
        lemma_scan_advances(text, from);
    }
}

/// The operands among the lexemes, in order.
pub open spec fn operands_among(lexemes: Seq<Lexeme>) -> Seq<Token>
    decreases lexemes.len(),
{
    if lexemes.len() == 0 {
        Seq::empty()
    } else {
        match lexemes.first() {
            Lexeme::Operand(token) => seq![token] + operands_among(lexemes.drop_first()),
            _ => operands_among(lexemes.drop_first()),
        }
    }
}

/// The operators among the lexemes, each as often as it occurs.
pub open spec fn operators_among(lexemes: Seq<Lexeme>) -> Multiset<Token>
    decreases lexemes.len(),
{
    if lexemes.len() == 0 {
        Multiset::empty()
    } else {
        match lexemes.first() {
            Lexeme::Operator(c) => operators_among(lexemes.drop_first()).insert(
                Token::operator_of(c)->0,
            ),
            _ => operators_among(lexemes.drop_first()),
        }
    }
}

/// The operands among the tokens, in order.
pub open spec fn operands_of(tokens: Seq<Token>) -> Seq<Token>
    decreases tokens.len(),
{
    if tokens.len() == 0 {
        Seq::empty()
    } else if tokens.last().is_operand() {
        operands_of(tokens.drop_last()).push(tokens.last())
    } else {
        operands_of(tokens.drop_last())
    }
}

/// The operators among the tokens, each as often as it occurs.
pub open spec fn operators_of(tokens: Seq<Token>) -> Multiset<Token>
    decreases tokens.len(),
{
    if tokens.len() == 0 {
        Multiset::empty()
    } else if tokens.last().is_operator() {
        operators_of(tokens.drop_last()).insert(tokens.last())
    } else {
        operators_of(tokens.drop_last())
    }
}

/// The operators that wait, each as often as it waits.
pub open spec fn waiting(held: Seq<(char, usize)>) -> Multiset<Token>
    decreases held.len(),
{
    if held.len() == 0 {
        Multiset::empty()
    } else if rank(held.last().0) >= 0 {
        waiting(held.drop_last()).insert(Token::operator_of(held.last().0)->0)
    } else {
        waiting(held.drop_last())
    }
}

proof fn lemma_out_push(tokens: Seq<Token>, token: Token)
    ensures
        operands_of(tokens.push(token)) == if token.is_operand() {
            operands_of(tokens).push(token)
        } else {
            operands_of(tokens)
        },
        operators_of(tokens.push(token)) == if token.is_operator() {
            operators_of(tokens).insert(token)
        } else {
            operators_of(tokens)
        },
{
    assert(tokens.push(token).drop_last() =~= tokens);
}

proof fn lemma_held_push(held: Seq<(char, usize)>, c: char, at: usize)
    ensures
        waiting(held.push((c, at))) == if rank(c) >= 0 {
            waiting(held).insert(Token::operator_of(c)->0)
        } else {
            waiting(held)
        },
{
    assert(held.push((c, at)).drop_last() =~= held);
}

// Releasing moves operators from the waiting ones to the output and touches
// no operand.
proof fn lemma_released(yard: Yard, floor: int)
    requires
        floor >= 0,
    ensures
        operands_of(released(yard, floor).out) == operands_of(yard.out),
        operators_of(released(yard, floor).out).add(waiting(released(yard, floor).held))
            =~= operators_of(yard.out).add(waiting(yard.held)),
        released(yard, floor).held.len() > 0 ==> rank(released(yard, floor).held.last().0)
            < floor,
    decreases yard.held.len(),
{
    if yard.held.len() > 0 && rank(yard.held.last().0) >= floor {
        let token = Token::operator_of(yard.held.last().0)->0;
        let next = Yard { held: yard.held.drop_last(), out: yard.out.push(token) };
        lemma_released(next, floor);
        lemma_out_push(yard.out, token);
    }
}

// The scanner calls an operator what writes one, and an operand what is one.
proof fn lemma_scan_kinds(text: Seq<char>, from: int)
    requires
        from >= 0,
    ensures
        match scan(text, from) {
            Scan::Found { lexeme: Lexeme::Operator(c), .. } => rank(c) >= 0,
            Scan::Found { lexeme: Lexeme::Operand(token), .. } => token.is_operand(),
            _ => true,
        },
    decreases text.len() - from,
{
    if from < text.len() && is_blank(text[from]) {
        lemma_scan_kinds(text, from + 1);
    }
}

// What the rest of the rewriting adds to what the state holds.
proof fn lemma_shunt_keeps(text: Seq<char>, from: int, yard: Yard)
    requires
        from >= 0,
        shunt(text, from, yard) is Ok,
    ensures
        operands_of(shunt(text, from, yard)->Ok_0) == operands_of(yard.out) + operands_among(
            scanned(text, from),
        ),
        operators_of(shunt(text, from, yard)->Ok_0) =~= operators_of(yard.out).add(
            waiting(yard.held),
        ).add(operators_among(scanned(text, from))),
    decreases text.len() - from,
{
    let out = shunt(text, from, yard)->Ok_0;
    match scan(text, from) {
        Scan::End => {
            lemma_released(yard, 0);
            let rest = released(yard, 0);
            assert(rest.held.len() == 0);
            assert(operands_of(yard.out) + Seq::<Token>::empty() =~= operands_of(yard.out));
        },
        Scan::Fail(_) => {},
        Scan::Found { lexeme, at, next } => {
            lemma_scan_advances(text, from);
            lemma_scan_kinds(text, from);
            let after = step(yard, lexeme, at)->Ok_0;
            lemma_shunt_keeps(text, next, after);
            let rest_lexemes = scanned(text, next);
            let lexemes = scanned(text, from);
            assert(lexemes.drop_first() =~= rest_lexemes);
            assert(lexemes.first() == lexeme);
            match lexeme {
                Lexeme::Operator(c) => {
                    lemma_released(yard, rank(c));
                    lemma_held_push(released(yard, rank(c)).held, c, after.held.last().1);
                },
                Lexeme::Open => {
                    lemma_held_push(yard.held, '(', after.held.last().1);
                },
                Lexeme::Close => {
                    lemma_released(yard, 0);
                    let rest = released(yard, 0);
                    assert(rest.held =~= rest.held.drop_last().push(rest.held.last()));
                    lemma_held_push(rest.held.drop_last(), rest.held.last().0, rest.held.last().1);
                },
                Lexeme::Operand(token) => {
                    lemma_out_push(yard.out, token);
                    assert(operands_of(yard.out).push(token) + operands_among(rest_lexemes)
                        =~= operands_of(yard.out) + (seq![token] + operands_among(rest_lexemes)));
                },
            }
        },
    }
}

/// The postfix form of a pattern holds the operands of the pattern in the
/// order in which the pattern has them, and each operator of the pattern as
/// often as the pattern has it. Parentheses and blanks leave no element.
pub proof fn lemma_postfix_keeps(text: Seq<char>)
    requires
        postfix_of(text) is Ok,
    ensures
        operands_of(postfix_of(text)->Ok_0) == operands_among(scanned(text, 0)),
        operators_of(postfix_of(text)->Ok_0) == operators_among(scanned(text, 0)),
{
    let yard = Yard { held: Seq::empty(), out: Seq::empty() };
    lemma_shunt_keeps(text, 0, yard);
    assert(Seq::<Token>::empty() + operands_among(scanned(text, 0)) =~= operands_among(
        scanned(text, 0),
    ));
    assert(Multiset::<Token>::empty().add(Multiset::empty()).add(
        operators_among(scanned(text, 0)),
    ) =~= operators_among(scanned(text, 0)));
}

// A number that the scanner finds is a decimal digit.
proof fn lemma_scan_digits(text: Seq<char>, from: int)
    requires
        from >= 0,
    ensures
        match scan(text, from) {
            Scan::Found { lexeme: Lexeme::Operand(token), .. } => token.wf(),
            _ => true,
        },
    decreases text.len() - from,
{
    if from < text.len() && is_blank(text[from]) {
        lemma_scan_digits(text, from + 1);
    }
}

proof fn lemma_released_digits(yard: Yard, floor: int)
    requires
        floor >= 0,
        digits_only(yard.out),
    ensures
        digits_only(released(yard, floor).out),
    decreases yard.held.len(),
{
    if yard.held.len() > 0 && rank(yard.held.last().0) >= floor {
        let token = Token::operator_of(yard.held.last().0)->0;
        let next = Yard { held: yard.held.drop_last(), out: yard.out.push(token) };
        assert(digits_only(next.out));
        lemma_released_digits(next, floor);
    }
}

proof fn lemma_shunt_digits(text: Seq<char>, from: int, yard: Yard)
    requires
        from >= 0,
        digits_only(yard.out),
        shunt(text, from, yard) is Ok,
    ensures
        digits_only(shunt(text, from, yard)->Ok_0),
    decreases text.len() - from,
{
    match scan(text, from) {
        Scan::End => {
            lemma_released_digits(yard, 0);
        },
        Scan::Fail(_) => {},
        Scan::Found { lexeme, at, next } => {
            lemma_scan_advances(text, from);
            lemma_scan_kinds(text, from);
            lemma_scan_digits(text, from);
            let after = step(yard, lexeme, at)->Ok_0;
            match lexeme {
                Lexeme::Operator(c) => {
                    lemma_released_digits(yard, rank(c));
                },
                Lexeme::Close => {
                    lemma_released_digits(yard, 0);
                },
                _ => {},
            }
            assert(digits_only(after.out));
            lemma_shunt_digits(text, next, after);
        },
    }
}

/// Every number in the postfix form of a pattern is a decimal digit.
pub proof fn lemma_postfix_digits(text: Seq<char>)
    requires
        postfix_of(text) is Ok,
    ensures
        digits_only(postfix_of(text)->Ok_0),
{
    lemma_shunt_digits(text, 0, Yard { held: Seq::empty(), out: Seq::empty() });
}

} // verus!
