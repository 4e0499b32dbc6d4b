//! The stack machine that turns a pattern in postfix form into one fragment.

use crate::error::Error;
use crate::fsa::hid::{left, Hid};
use crate::fsa::nfa::{digit_char, Lable, Nfa, NfaView};
use crate::fsa::sound::lemma_assembled_sound;
use crate::regex::repr::{digits_only, tokens_of, Element, Token};
use vstd::prelude::*;

verus! {

/// A fragment on the stack, as a mathematical value. `symbol` is the operand
/// that the fragment was made from where that is a single character or a
/// single digit: only such a fragment can be the end of a range.
pub struct PieceView {
    pub nfa: NfaView,
    pub symbol: Option<Token>,
}

/// The state of the machine: the fragments built so far, and the levels of the
/// id allocator. The active level is the next free id.
pub struct Bench {
    pub pieces: Seq<PieceView>,
    pub levels: Seq<usize>,
}

/// The number of states that the fragment of an operand has.
pub open spec fn leaf_size(token: Token) -> nat {
    match token {
        Token::Text(text) => text.len() + 1,
        Token::NameOrText(text) => text.len() + 1,
        _ => 2,
    }
}

/// The fragment of an operand, numbered from `offset` on.
pub open spec fn leaf_of(token: Token, offset: usize) -> NfaView {
    match token {
        Token::Text(text) => NfaView::of_text(text, offset),
        Token::NameOrText(text) => NfaView::of_text(text, offset),
        Token::Number(digit) => NfaView::of_lable(Lable::Char(digit_char(digit)), offset),
        Token::Char(c) => NfaView::of_lable(Lable::Char(c), offset),
        _ => NfaView::of_lable(Lable::Eps, offset),
    }
}

/// The operand itself where it is a single character or digit.
pub open spec fn symbol_of(token: Token) -> Option<Token> {
    match token {
        Token::Char(_) => Some(token),
        Token::Number(_) => Some(token),
        _ => None,
    }
}

/// The two ends of a range, as characters, where the two operands are single
/// characters, or single digits, in rising order.
pub open spec fn range_of(low: Option<Token>, high: Option<Token>) -> Option<(char, char)> {
    match (low, high) {
        (Some(Token::Char(c1)), Some(Token::Char(c2))) => if c1 <= c2 {
            Some((c1, c2))
        } else {
            None
        },
        (Some(Token::Number(n1)), Some(Token::Number(n2))) => if n1 <= n2 && n2 <= 9 {
            Some((digit_char(n1), digit_char(n2)))
        } else {
            None
        },
        _ => None,
    }
}

/// The bench with its last `taken` fragments, and their levels, replaced by
/// one fragment that leaves `next` as the next free id.
pub open spec fn folded(bench: Bench, taken: int, nfa: NfaView, next: usize) -> Bench {
    let below = if taken == 2 {
        left(left(bench.levels))
    } else {
        left(bench.levels)
    };
    Bench {
        pieces: bench.pieces.take(bench.pieces.len() - taken).push(
            PieceView { nfa, symbol: None },
        ),
        levels: below.push(next),
    }
}

/// What the element `token`, at `position` of the sequence, does to the bench.
///
/// An operand becomes a fragment numbered from the next free id on. An operator
/// takes as many fragments as its arity says from the top of the stack and
/// leaves one: the fresh states of `|`, `*`, `+` and `?` take the next two free
/// ids, `.` takes none, and `-` gives up the ids of its two operands and
/// numbers the range from the first of them on.
pub open spec fn placed(bench: Bench, token: Token, position: int) -> Result<Bench, Error> {
    let offset = bench.levels.last();
    let count = bench.pieces.len() as int;
    if token.is_operand() {
        if offset + leaf_size(token) > usize::MAX {
            Err(Error::TooManyStates { position: position as usize })
        } else {
            Ok(
                Bench {
                    pieces: bench.pieces.push(
                        PieceView { nfa: leaf_of(token, offset), symbol: symbol_of(token) },
                    ),
                    levels: bench.levels.push((offset + leaf_size(token)) as usize),
                },
            )
        }
    } else if count < token.arity() {
        Err(Error::MissingOperand { position: position as usize })
    } else if token is Dash {
        let base = left(left(bench.levels)).last();
        if base + 2 > usize::MAX {
            Err(Error::TooManyStates { position: position as usize })
        } else {
            match range_of(bench.pieces[count - 2].symbol, bench.pieces[count - 1].symbol) {
                Some((c1, c2)) => Ok(
                    folded(bench, 2, NfaView::of_cdash(c1, c2, base), (base + 2) as usize),
                ),
                None => Err(Error::InvalidRange { position: position as usize }),
            }
        }
    } else if token is Concat {
        Ok(
            folded(
                bench,
                2,
                NfaView::of_concat(bench.pieces[count - 2].nfa, bench.pieces[count - 1].nfa),
                offset,
            ),
        )
    } else if offset + 2 > usize::MAX {
        Err(Error::TooManyStates { position: position as usize })
    } else {
        let next = (offset + 2) as usize;
        match token {
            Token::Or => Ok(
                folded(
                    bench,
                    2,
                    NfaView::of_or(
                        bench.pieces[count - 2].nfa,
                        bench.pieces[count - 1].nfa,
                        offset,
                    ),
                    next,
                ),
            ),
            Token::Star => Ok(
                folded(bench, 1, NfaView::of_star(bench.pieces[count - 1].nfa, offset), next),
            ),
            Token::Plus => Ok(
                folded(bench, 1, NfaView::of_plus(bench.pieces[count - 1].nfa, offset), next),
            ),
            _ => Ok(
                folded(bench, 1, NfaView::of_question(bench.pieces[count - 1].nfa, offset), next),
            ),
        }
    }
}

/// The bench after the elements from `from` on, or the first error among them.
pub open spec fn run(tokens: Seq<Token>, from: int, bench: Bench) -> Result<Bench, Error>
    decreases tokens.len() - from,
{
    if from < 0 || from >= tokens.len() {
        Ok(bench)
    } else {
        match placed(bench, tokens[from], from) {
            Ok(next) => run(tokens, from + 1, next),
            Err(error) => Err(error),
        }
    }
}

/// What the end of the sequence makes of the bench: its one fragment.
pub open spec fn finished(bench: Bench) -> Result<NfaView, Error> {
    if bench.pieces.len() == 1 {
        Ok(bench.pieces[0].nfa)
    } else {
        Err(Error::NotOneFragment { count: bench.pieces.len() as usize })
    }
}

/// The bench before the first element, with `offset` for the first free id.
pub open spec fn empty_bench(offset: usize) -> Bench {
    Bench { pieces: Seq::empty(), levels: seq![offset] }
}

/// The fragment of a pattern in postfix form, numbered from `offset` on, or
/// the reason why there is none.
pub open spec fn assembled(tokens: Seq<Token>, offset: usize) -> Result<NfaView, Error> {
    match run(tokens, 0, empty_bench(offset)) {
        Ok(bench) => finished(bench),
        Err(error) => Err(error),
    }
}

// A fragment on the stack, with the operand it was made from where that is a
// single character or digit.
struct Piece<'a> {
    nfa: Nfa,
    symbol: Option<Element<'a>>,
}

spec fn piece_view(piece: Piece<'_>) -> PieceView {
    PieceView {
        nfa: piece.nfa@,
        symbol: symbol_view(piece.symbol),
    }
}

spec fn bench_of(stack: Seq<Piece<'_>>, levels: Seq<usize>) -> Bench {
    Bench { pieces: stack.map_values(|piece: Piece<'_>| piece_view(piece)), levels }
}

fn element_at<'a>(postfix: &Vec<Element<'a>>, position: usize) -> (element: Element<'a>)
    requires
        position < postfix@.len(),
    ensures
        element == postfix@[position as int],
{
    postfix[position]
}

// Takes the fragment on top of the stack.
fn take_piece<'a>(stack: &mut Vec<Piece<'a>>) -> (piece: Piece<'a>)
    requires
        old(stack)@.len() > 0,
    ensures
        piece == old(stack)@.last(),
        final(stack)@ == old(stack)@.drop_last(),
{
    stack.pop().unwrap()
}

// Builds the fragment of an operand at the next free id.
fn place_operand<'a>(
    stack: &mut Vec<Piece<'a>>,
    hid: &mut Hid,
    element: Element<'a>,
    position: usize,
) -> (result: Result<(), Error>)
    requires
        old(hid).wf(),
        element@.is_operand(),
        element@.wf(),
    ensures
        final(hid).wf(),
        match result {
            Ok(_) => placed(bench_of(old(stack)@, old(hid)@), element@, position as int) == Ok::<
                Bench,
                Error,
            >(bench_of(final(stack)@, final(hid)@)),
            Err(error) => placed(bench_of(old(stack)@, old(hid)@), element@, position as int)
                == Err::<Bench, Error>(error),
        },
{
    let offset = hid.cid();
    let ghost before = bench_of(stack@, hid@);
    let (nfa, next) = match element {
        Element::Text(text) | Element::NameOrText(text) => {
            let length = text.unicode_len();
            if length >= usize::MAX - offset {
                return Err(Error::TooManyStates { position });
            }
            (Nfa::of_text(text, offset), offset + length + 1)
        },
        Element::Number(digit) => {
            if offset >= usize::MAX - 1 {
                return Err(Error::TooManyStates { position });
            }
            (Nfa::of_digit(digit, offset), offset + 2)
        },
        Element::Char(c) => {
            if offset >= usize::MAX - 1 {
                return Err(Error::TooManyStates { position });
            }
            (Nfa::of_char(c, offset), offset + 2)
        },
        _ => {
            if offset >= usize::MAX - 1 {
                return Err(Error::TooManyStates { position });
            }
            (Nfa::of_eps(offset), offset + 2)
        },
    };
    let symbol = match element {
        Element::Char(_) | Element::Number(_) => Some(element),
        _ => None,
    };
    let piece = Piece { nfa, symbol };
    stack.push(piece);
    hid.append(next);
    proof {
        assert(bench_of(stack@, hid@).pieces =~= before.pieces.push(piece_view(piece)));
    }
    Ok(())
}

spec fn symbol_view(symbol: Option<Element<'_>>) -> Option<Token> {
    match symbol {
        Some(element) => Some(element@),
        None => None,
    }
}

// The fragment of the range between two operands, where they make one.
fn of_range(low: Option<Element<'_>>, high: Option<Element<'_>>, offset: usize) -> (nfa: Option<
    Nfa,
>)
    requires
        offset < usize::MAX,
    ensures
        match range_of(symbol_view(low), symbol_view(high)) {
            Some((c1, c2)) => nfa is Some && nfa->0@ == NfaView::of_cdash(c1, c2, offset),
            None => nfa is None,
        },
{
    match (low, high) {
        (Some(Element::Char(c1)), Some(Element::Char(c2))) => {
            if c1 <= c2 {
                Some(Nfa::of_cdash(c1, c2, offset))
            } else {
                None
            }
        },
        (Some(Element::Number(n1)), Some(Element::Number(n2))) => {
            if n1 <= n2 && n2 <= 9 {
                Some(Nfa::of_ndash(n1, n2, offset))
            } else {
                None
            }
        },
        _ => None,
    }
}

// Applies an operator to the fragments on top of the stack.
fn place_operator<'a>(
    stack: &mut Vec<Piece<'a>>,
    hid: &mut Hid,
    element: Element<'a>,
    position: usize,
) -> (result: Result<(), Error>)
    requires
        old(hid).wf(),
        element@.is_operator(),
    ensures
        final(hid).wf(),
        match result {
            Ok(_) => placed(bench_of(old(stack)@, old(hid)@), element@, position as int) == Ok::<
                Bench,
                Error,
            >(bench_of(final(stack)@, final(hid)@)),
            Err(error) => placed(bench_of(old(stack)@, old(hid)@), element@, position as int)
                == Err::<Bench, Error>(error),
        },
{
    let offset = hid.cid();
    let ghost before = bench_of(stack@, hid@);
    let ghost count = stack@.len() as int;
    let arity = element.arity();
    if stack.len() < arity {
        return Err(Error::MissingOperand { position });
    }
    let second = take_piece(stack);
    hid.consume();
    if arity == 1 {
        if offset >= usize::MAX - 1 {
            return Err(Error::TooManyStates { position });
        }
        let nfa = match element {
            Element::Star => Nfa::of_star(second.nfa, offset),
            Element::Plus => Nfa::of_plus(second.nfa, offset),
            _ => Nfa::of_question(second.nfa, offset),
        };
        let piece = Piece { nfa, symbol: None };
        stack.push(piece);
        hid.append(offset + 2);
        proof {
            assert(bench_of(stack@, hid@).pieces =~= before.pieces.take(count - 1).push(
                piece_view(piece),
            ));
        }
        return Ok(());
    }
    let first = take_piece(stack);
    hid.consume();
    let (nfa, next) = match element {
        Element::Dash => {
            let base = hid.cid();
            if base >= usize::MAX - 1 {
                return Err(Error::TooManyStates { position });
            }
            match of_range(first.symbol, second.symbol, base) {
                Some(nfa) => (nfa, base + 2),
                None => {
                    return Err(Error::InvalidRange { position });
                },
            }
        },
        Element::Concat => (Nfa::of_concat(first.nfa, second.nfa, offset), offset),
        _ => {
            if offset >= usize::MAX - 1 {
                return Err(Error::TooManyStates { position });
            }
            (Nfa::of_or(first.nfa, second.nfa, offset), offset + 2)
        },
    };
    let piece = Piece { nfa, symbol: None };
    stack.push(piece);
    hid.append(next);
    proof {
        assert(bench_of(stack@, hid@).pieces =~= before.pieces.take(count - 2).push(
            piece_view(piece),
        ));
    }
    Ok(())
}

/// Builds the fragment of a pattern in postfix form, with `offset` for its
/// first state id.
///
/// The elements are taken in order. An operand becomes a fragment; an operator
/// combines the fragments before it. At the end one fragment must be left.
/// Every state of the fragment, and so its accept state, can be reached from
/// its start state, and its states are numbered from `offset` on without a gap.
pub fn build(postfix: &Vec<Element<'_>>, offset: usize) -> (result: Result<Nfa, Error>)
    requires
        digits_only(tokens_of(postfix@)),
    ensures
        match result {
            Ok(nfa) => assembled(tokens_of(postfix@), offset) == Ok::<NfaView, Error>(nfa@)
                && nfa@.rooted() && nfa@.connected() && nfa@.seeded(offset),
            Err(error) => assembled(tokens_of(postfix@), offset) == Err::<NfaView, Error>(error),
        },
{
    let mut stack: Vec<Piece<'_>> = Vec::new();
    let mut hid = Hid::init(offset);
    let ghost tokens = tokens_of(postfix@);
    assert(bench_of(stack@, hid@).pieces =~= empty_bench(offset).pieces);

    let mut position: usize = 0;
    while position < postfix.len()
        invariant
            position <= postfix@.len(),
            hid.wf(),
            tokens == tokens_of(postfix@),
            digits_only(tokens),
            run(tokens, position as int, bench_of(stack@, hid@)) == run(
                tokens,
                0,
                empty_bench(offset),
            ),
        decreases postfix@.len() - position,
    {
        let element = element_at(postfix, position);
        assert(tokens[position as int] == element@);
        let placing = if element.is_operand() {
            place_operand(&mut stack, &mut hid, element, position)
        } else {
            place_operator(&mut stack, &mut hid, element, position)
        };
        match placing {
            Ok(_) => {},
            Err(error) => {
                return Err(error);
            },
        }
        position += 1;
    }

    if stack.len() == 1 {
        let piece = take_piece(&mut stack);
        proof {
            lemma_assembled_sound(tokens, offset);
        }
        Ok(piece.nfa)
    } else {
        Err(Error::NotOneFragment { count: stack.len() })
    }
}

} // verus!
