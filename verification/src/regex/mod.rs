//! Infix patterns and their postfix form.

pub mod order;
pub mod repr;

pub use repr::{digits_only, tokens_of, Element, Token};

use crate::error::Error;
use crate::regex::order::lemma_postfix_digits;
use crate::text::{char_at, chars_of};
use vstd::prelude::*;

verus! {

/// Space, tab and newline separate tokens and mean nothing else.
pub open spec fn is_blank(c: char) -> bool {
    c == ' ' || c == '\t' || c == '\n'
}

/// The ten decimal digits.
pub open spec fn is_digit(c: char) -> bool {
    '0' <= c <= '9'
}

/// The letters from `a` to `z`, small and capital.
pub open spec fn is_letter(c: char) -> bool {
    ('a' <= c <= 'z') || ('A' <= c <= 'Z')
}

/// The characters that a bare operand is made of.
pub open spec fn is_word_char(c: char) -> bool {
    is_letter(c) || is_digit(c) || c == '_'
}

/// The value of a decimal digit.
pub open spec fn digit_value(c: char) -> usize {
    (c as int - '0' as int) as usize
}

/// Where the run of word characters that starts at `from` ends: the index of
/// the first character behind it, or the length of the text.
pub open spec fn word_end(text: Seq<char>, from: int) -> int
    decreases text.len() - from,
{
    if 0 <= from < text.len() && is_word_char(text[from]) {
        word_end(text, from + 1)
    } else {
        from
    }
}

/// The index of the first `"` at or behind `from`, if there is one.
pub open spec fn quote_at(text: Seq<char>, from: int) -> Option<int>
    decreases text.len() - from,
{
    if from < 0 || from >= text.len() {
        None
    } else if text[from] == '"' {
        Some(from)
    } else {
        quote_at(text, from + 1)
    }
}

/// The operand that a bare word writes.
pub open spec fn operand_of(word: Seq<char>) -> Token {
    if word.len() == 1 {
        if is_digit(word[0]) {
            Token::Number(digit_value(word[0]))
        } else {
            Token::Char(word[0])
        }
    } else if word == seq!['e', 'p', 's'] {
        Token::Eps
    } else {
        Token::NameOrText(word)
    }
}

/// What the scanner tells apart.
pub enum Lexeme {
    /// An operator, by the character that writes it.
    Operator(char),
    Open,
    Close,
    Operand(Token),
}

/// What the scanner finds from a position on.
pub enum Scan {
    /// Nothing but blanks up to the end of the text.
    End,
    Fail(Error),
    /// A lexeme that starts at `at`; the scan goes on at `next`.
    Found { lexeme: Lexeme, at: int, next: int },
}

/// The first lexeme at or behind `from`.
pub open spec fn scan(text: Seq<char>, from: int) -> Scan
    decreases text.len() - from,
{
    if from < 0 || from >= text.len() {
        Scan::End
    } else {
        let c = text[from];
        if is_blank(c) {
            scan(text, from + 1)
        } else if Token::operator_of(c) is Some {
            Scan::Found { lexeme: Lexeme::Operator(c), at: from, next: from + 1 }
        } else if c == '(' {
            Scan::Found { lexeme: Lexeme::Open, at: from, next: from + 1 }
        } else if c == ')' {
            Scan::Found { lexeme: Lexeme::Close, at: from, next: from + 1 }
        } else if c == '"' {
            match quote_at(text, from + 1) {
                Some(close) => Scan::Found {
                    lexeme: Lexeme::Operand(Token::Text(text.subrange(from + 1, close))),
                    at: from,
                    next: close + 1,
                },
                None => Scan::Fail(Error::UnterminatedQuote { index: from as usize }),
            }
        } else if is_word_char(c) {
            let end = word_end(text, from);
            Scan::Found {
                lexeme: Lexeme::Operand(operand_of(text.subrange(from, end))),
                at: from,
                next: end,
            }
        } else {
            Scan::Fail(Error::UnsupportedCharacter { index: from as usize })
        }
    }
}

/// The state of the rewriting: the operators and opening parentheses that
/// wait for their operands, each with the index of its character, and the
/// output so far.
pub struct Yard {
    pub held: Seq<(char, usize)>,
    pub out: Seq<Token>,
}

/// How tightly the operator that `c` writes binds. A character that writes no
/// operator, such as `(`, ranks below every operator.
pub open spec fn rank(c: char) -> int {
    match Token::operator_of(c) {
        Some(operator) => match operator.priority() {
            Some(priority) => priority as int,
            None => -1,
        },
        None => -1,
    }
}

/// The waiting operators that bind at least as tightly as `floor` leave for
/// the output, the last that came first, down to the first that binds less.
pub open spec fn released(yard: Yard, floor: int) -> Yard
    decreases yard.held.len(),
{
    if yard.held.len() > 0 && rank(yard.held.last().0) >= floor {
        released(
            Yard {
                held: yard.held.drop_last(),
                out: yard.out.push(Token::operator_of(yard.held.last().0)->0),
            },
            floor,
        )
    } else {
        yard
    }
}

/// What one lexeme, found at index `at`, does to the state.
pub open spec fn step(yard: Yard, lexeme: Lexeme, at: int) -> Result<Yard, Error> {
    match lexeme {
        Lexeme::Operator(c) => {
            let rest = released(yard, rank(c));
            Ok(Yard { held: rest.held.push((c, at as usize)), out: rest.out })
        },
        Lexeme::Open => Ok(Yard { held: yard.held.push(('(', at as usize)), out: yard.out }),
        Lexeme::Close => {
            let rest = released(yard, 0);
            if rest.held.len() > 0 {
                Ok(Yard { held: rest.held.drop_last(), out: rest.out })
            } else {
                Err(Error::UnbalancedParenthesis { index: at as usize })
            }
        },
        Lexeme::Operand(token) => Ok(Yard { held: yard.held, out: yard.out.push(token) }),
    }
}

/// What the end of the text does to the state: the waiting operators leave,
/// and no parenthesis may be left open.
pub open spec fn finish(yard: Yard) -> Result<Seq<Token>, Error> {
    let rest = released(yard, 0);
    if rest.held.len() == 0 {
        Ok(rest.out)
    } else {
        Err(Error::UnbalancedParenthesis { index: rest.held.last().1 })
    }
}

/// The postfix form of the text from `from` on, for a rewriting that is in
/// state `yard` there. The first error met from left to right ends it.
pub open spec fn shunt(text: Seq<char>, from: int, yard: Yard) -> Result<Seq<Token>, Error>
    decreases text.len() - from,
    via shunt_decreases
{
    match scan(text, from) {
        Scan::End => finish(yard),
        Scan::Fail(error) => Err(error),
        Scan::Found { lexeme, at, next } => match step(yard, lexeme, at) {
            Ok(after) => shunt(text, next, after),
            Err(error) => Err(error),
        },
    }
}

#[via_fn]
proof fn shunt_decreases(text: Seq<char>, from: int, yard: Yard) {
    if from >= 0 {
        lemma_scan_advances(text, from);
    }
}

/// The postfix form of a pattern, or the reason why it has none.
pub open spec fn postfix_of(text: Seq<char>) -> Result<Seq<Token>, Error> {
    shunt(text, 0, Yard { held: Seq::empty(), out: Seq::empty() })
}

/// A word ends within the text, holds word characters only, and stops before
/// the first character that is none.
pub proof fn lemma_word_end_bounds(text: Seq<char>, from: int)
    requires
        0 <= from <= text.len(),
    ensures
        from <= word_end(text, from) <= text.len(),
        forall|i: int| from <= i < word_end(text, from) ==> is_word_char(#[trigger] text[i]),
        word_end(text, from) < text.len() ==> !is_word_char(text[word_end(text, from)]),
    decreases text.len() - from,
{
    if from < text.len() && is_word_char(text[from]) {
        lemma_word_end_bounds(text, from + 1);
    }
}

/// The closing `"` is the first `"` from the given index on; where there is
/// none, the rest of the text holds no `"`.
pub proof fn lemma_quote_at_bounds(text: Seq<char>, from: int)
    requires
        0 <= from,
    ensures
        match quote_at(text, from) {
            Some(close) => from <= close < text.len() && text[close] == '"' && forall|i: int|
                from <= i < close ==> #[trigger] text[i] != '"',
            None => forall|i: int| from <= i < text.len() ==> #[trigger] text[i] != '"',
        },
    decreases text.len() - from,
{
    if from < text.len() && text[from] != '"' {
        lemma_quote_at_bounds(text, from + 1);
    }
}

/// A lexeme lies within the text, and the scan moves on behind it.
pub proof fn lemma_scan_advances(text: Seq<char>, from: int)
    requires
        0 <= from,
    ensures
        match scan(text, from) {
            Scan::Found { lexeme, at, next } => from <= at < next <= text.len(),
            Scan::Fail(_) => true,
            Scan::End => true,
        },
    decreases text.len() - from,
{
    if from < text.len() {
        let c = text[from];
        if is_blank(c) {
            lemma_scan_advances(text, from + 1);
        } else if c == '"' {
            lemma_quote_at_bounds(text, from + 1);
        } else if is_word_char(c) {
            lemma_word_end_bounds(text, from + 1);
        }
    }
}

proof fn lemma_tokens_push(elements: Seq<Element<'_>>, element: Element<'_>)
    ensures
        tokens_of(elements.push(element)) == tokens_of(elements).push(element@),
{
    assert(tokens_of(elements.push(element)) =~= tokens_of(elements).push(element@));
}

fn top_operator_of<'a>(stack: &Vec<(char, usize)>) -> (operator: Option<Element<'a>>)
    ensures
        match operator {
            Some(element) => stack@.len() > 0 && Token::operator_of(stack@.last().0) == Some(
                element@,
            ),
            None => stack@.len() == 0 || Token::operator_of(stack@.last().0) is None,
        },
{
    if stack.len() == 0 {
        None
    } else {
        Element::operator_of(stack[stack.len() - 1].0)
    }
}

// The index of the first character at or behind `start` that is no word
// character, or the length of the text.
fn end_of_word(text: &Vec<char>, start: usize) -> (end: usize)
    requires
        start <= text@.len(),
    ensures
        end == word_end(text@, start as int),
        start <= end <= text@.len(),
{
    let mut index: usize = start;
    while index < text.len() && is_word(char_at(text, index))
        invariant
            start <= index <= text@.len(),
            word_end(text@, start as int) == word_end(text@, index as int),
        decreases text@.len() - index,
    {
        index += 1;
    }
    index
}

// The index of the first `"` at or behind `start`.
fn closing_quote(text: &Vec<char>, start: usize) -> (close: Option<usize>)
    requires
        start <= text@.len(),
    ensures
        match close {
            Some(index) => quote_at(text@, start as int) == Some(index as int) && start <= index
                < text@.len(),
            None => quote_at(text@, start as int) is None,
        },
{
    let mut index: usize = start;
    while index < text.len()
        invariant
            start <= index <= text@.len(),
            quote_at(text@, start as int) == quote_at(text@, index as int),
        decreases text@.len() - index,
    {
        if char_at(text, index) == '"' {
            return Some(index);
        }
        index += 1;
    }
    None
}

fn is_word(c: char) -> (b: bool)
    ensures
        b == is_word_char(c),
{
    (c >= 'a' && c <= 'z') || (c >= 'A' && c <= 'Z') || (c >= '0' && c <= '9') || c == '_'
}

fn ctou(c: char) -> (digit: Option<usize>)
    ensures
        match digit {
            Some(n) => is_digit(c) && n == digit_value(c),
            None => !is_digit(c),
        },
{
    if c >= '0' && c <= '9' {
        let code: u32 = c as u32;
        Some((code - 48) as usize)
    } else {
        None
    }
}

// The state of the rewriting that the two stacks hold.
spec fn state_of(stack: Seq<(char, usize)>, postfix: Seq<Element<'_>>) -> Yard {
    Yard { held: stack, out: tokens_of(postfix) }
}

// Moves the waiting operators that bind at least as tightly as `floor` to the
// output.
fn release<'a>(stack: &mut Vec<(char, usize)>, postfix: &mut Vec<Element<'a>>, floor: usize)
    ensures
        state_of(final(stack)@, final(postfix)@) == released(
            state_of(old(stack)@, old(postfix)@),
            floor as int,
        ),
{
    let ghost before = state_of(stack@, postfix@);
    loop
        invariant
            released(state_of(stack@, postfix@), floor as int) == released(before, floor as int),
        ensures
            state_of(stack@, postfix@) == released(before, floor as int),
        decreases stack@.len(),
    {
        match top_operator_of(stack) {
            Some(top_operator) => {
                if floor <= top_operator.priority().unwrap() {
                    proof {
                        lemma_tokens_push(postfix@, top_operator);
                    }
                    stack.pop();
                    postfix.push(top_operator);
                } else {
                    break ;
                }
            },
            None => {
                break ;
            },
        }
    }
}

/// Rewrites the pattern `infix` in postfix form.
///
/// A binary operator stands between its operands and a unary one behind its
/// operand; `-` binds tightest, then `+`, `*` and `?`, then `.`, then `|`, and
/// operators that bind alike group from the left. Parentheses group. The
/// pattern is refused where a `"` is not closed, where a character belongs to
/// no token, and where a parenthesis has no partner.
pub fn to_postfix<'a>(infix: &'a str) -> (result: Result<Vec<Element<'a>>, Error>)
    ensures
        match result {
            Ok(postfix) => postfix_of(infix@) == Ok::<Seq<Token>, Error>(tokens_of(postfix@))
                && digits_only(tokens_of(postfix@)),
            Err(error) => postfix_of(infix@) == Err::<Seq<Token>, Error>(error),
        },
{
    let mut stack: Vec<(char, usize)> = Vec::new();
    let mut postfix: Vec<Element<'a>> = Vec::new();

    let mut char_index: usize = 0;
    let chars = chars_of(infix);

    assert(tokens_of(postfix@) =~= Seq::empty());

    while char_index < chars.len()
        invariant
            chars@ == infix@,
            char_index <= chars.len(),
            shunt(infix@, char_index as int, state_of(stack@, postfix@)) == postfix_of(infix@),
        decreases chars.len() - char_index,
    {
        let c = char_at(&chars, char_index);

        if let Some(operator) = Element::operator_of(c) {
            release(&mut stack, &mut postfix, operator.priority().unwrap());

            stack.push((c, char_index));

            char_index += 1;
        } else if c == '(' {
            stack.push(('(', char_index));
            char_index += 1;
        } else if c == ')' {
            release(&mut stack, &mut postfix, 0);
            if stack.len() == 0 {
                return Err(Error::UnbalancedParenthesis { index: char_index });
            }
            stack.pop();

            char_index += 1;
        } else if c == '"' {
            if let Some(index) = closing_quote(&chars, char_index + 1) {
                let text = Element::Text(infix.substring_char(char_index + 1, index));
                proof {
                    lemma_tokens_push(postfix@, text);
                }
                postfix.push(text);

                char_index = index + 1;
            } else {
                return Err(Error::UnterminatedQuote { index: char_index });
            }
        } else if is_word(c) {
            let index = end_of_word(&chars, char_index + 1);
            let ghost word = infix@.subrange(char_index as int, index as int);

            let operand = if index - char_index == 1 {
                match ctou(c) {
                    Some(digit) => Element::Number(digit),
                    None => Element::Char(c),
                }
            } else if index - char_index == 3 && c == 'e' && char_at(&chars, char_index + 1) == 'p'
                && char_at(&chars, char_index + 2) == 's' {
                assert(word =~= seq!['e', 'p', 's']);
                Element::Eps
            } else {
                assert(word != seq!['e', 'p', 's']) by {
                    if word == seq!['e', 'p', 's'] {
                        assert(word.len() == 3);
                        assert(word[0] == 'e' && word[1] == 'p' && word[2] == 's');
                    }
                }
                Element::NameOrText(infix.substring_char(char_index, index))
            };
            assert(operand@ == operand_of(word));
            proof {
                lemma_tokens_push(postfix@, operand);
            }
            postfix.push(operand);

            char_index = index;
        } else if c == ' ' || c == '\t' || c == '\n' {
            char_index += 1;
        } else {
            return Err(Error::UnsupportedCharacter { index: char_index });
        }
    }

    release(&mut stack, &mut postfix, 0);
    if stack.len() == 0 {
        proof {
            lemma_postfix_digits(infix@);
        }
        Ok(postfix)
    } else {
        Err(Error::UnbalancedParenthesis { index: stack[stack.len() - 1].1 })
    }
}

} // verus!
