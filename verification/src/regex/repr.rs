//! The elements of a pattern: operators and operands.

use vstd::prelude::*;

verus! {

/// One element of a pattern in postfix form.
#[derive(Clone, Copy, Debug, PartialEq)]
pub enum Element<'a> {
    // Operators
    Dash,
    Plus,
    Star,
    Or,
    Concat,
    Question,
    // Operands
    Text(&'a str),
    Number(usize),
    Char(char),
    NameOrText(&'a str),
    Eps,
}

/// An element as a mathematical value: a text is the sequence of its
/// characters.
pub enum Token {
    Dash,
    Plus,
    Star,
    Or,
    Concat,
    Question,
    Text(Seq<char>),
    Number(usize),
    Char(char),
    NameOrText(Seq<char>),
    Eps,
}

impl<'a> View for Element<'a> {
    type V = Token;

    open spec fn view(&self) -> Token {
        match *self {
            Element::Dash => Token::Dash,
            Element::Plus => Token::Plus,
            Element::Star => Token::Star,
            Element::Or => Token::Or,
            Element::Concat => Token::Concat,
            Element::Question => Token::Question,
            Element::Text(text) => Token::Text(text@),
            Element::Number(n) => Token::Number(n),
            Element::Char(c) => Token::Char(c),
            Element::NameOrText(text) => Token::NameOrText(text@),
            Element::Eps => Token::Eps,
        }
    }
}

impl Token {
    /// The operator that the character `c` writes, if it writes one.
    pub open spec fn operator_of(c: char) -> Option<Token> {
        if c == '-' {
            Some(Token::Dash)
        } else if c == '+' {
            Some(Token::Plus)
        } else if c == '*' {
            Some(Token::Star)
        } else if c == '|' {
            Some(Token::Or)
        } else if c == '.' {
            Some(Token::Concat)
        } else if c == '?' {
            Some(Token::Question)
        } else {
            None
        }
    }

    /// One of the six operators.
    pub open spec fn is_operator(self) -> bool {
        self is Dash || self is Plus || self is Star || self is Or || self is Concat
            || self is Question
    }

    /// A text, a number, a character, a name or the empty word.
    pub open spec fn is_operand(self) -> bool {
        !self.is_operator()
    }

    /// How tightly an operator binds; an operand has no priority.
    pub open spec fn priority(self) -> Option<usize> {
        match self {
            Token::Dash => Some(3usize),
            Token::Plus | Token::Star | Token::Question => Some(2usize),
            Token::Concat => Some(1usize),
            Token::Or => Some(0usize),
            _ => None,
        }
    }

    /// The number of operands that an operator takes; none for an operand.
    pub open spec fn arity(self) -> nat {
        match self {
            Token::Dash | Token::Or | Token::Concat => 2,
            Token::Plus | Token::Star | Token::Question => 1,
            _ => 0,
        }
    }

    /// A number stands for one decimal digit.
    pub open spec fn wf(self) -> bool {
        self matches Token::Number(n) ==> n <= 9
    }
}

/// Every number among the tokens is a decimal digit.
pub open spec fn digits_only(tokens: Seq<Token>) -> bool {
    forall|i: int| 0 <= i < tokens.len() ==> (#[trigger] tokens[i]).wf()
}

/// The elements of a sequence as mathematical values.
pub open spec fn tokens_of(elements: Seq<Element<'_>>) -> Seq<Token> {
    elements.map_values(|element: Element<'_>| element@)
}

impl<'a> Element<'a> {
    /// The operator that the character `c` writes, if it writes one.
    pub fn operator_of(c: char) -> (operator: Option<Element<'a>>)
        ensures
            match operator {
                Some(element) => Token::operator_of(c) == Some(element@),
                None => Token::operator_of(c) is None,
            },
    {
        match c {
            '-' => Some(Element::Dash),
            '+' => Some(Element::Plus),
            '*' => Some(Element::Star),
            '|' => Some(Element::Or),
            '.' => Some(Element::Concat),
            '?' => Some(Element::Question),
            _ => None,
        }
    }

    /// Whether the element is one of the six operators.
    pub fn is_operator(&self) -> (b: bool)
        ensures
            b == self@.is_operator(),
    {
        match self {
            Element::Dash
            | Element::Plus
            | Element::Star
            | Element::Or
            | Element::Concat
            | Element::Question => true,
            Element::Text(_)
            | Element::Number(_)
            | Element::Char(_)
            | Element::NameOrText(_)
            | Element::Eps => false,
        }
    }

    /// Whether the element is an operand.
    pub fn is_operand(&self) -> (b: bool)
        ensures
            b == self@.is_operand(),
    {
        !self.is_operator()
    }

    /// The number of operands that an operator takes; none for an operand.
    pub fn arity(&self) -> (arity: usize)
        ensures
            arity == self@.arity(),
    {
        match self {
            Element::Dash | Element::Or | Element::Concat => 2,
            Element::Plus | Element::Star | Element::Question => 1,
            Element::Text(_)
            | Element::Number(_)
            | Element::Char(_)
            | Element::NameOrText(_)
            | Element::Eps => 0,
        }
    }

    /// How tightly an operator binds; an operand has no priority.
    pub fn priority(&self) -> (priority: Option<usize>)
        ensures
            priority == self@.priority(),
    {
        match self {
            Element::Dash => Some(3),
            Element::Plus | Element::Star | Element::Question => Some(2),
            Element::Concat => Some(1),
            Element::Or => Some(0),
            Element::Text(_)
            | Element::Number(_)
            | Element::Char(_)
            | Element::NameOrText(_)
            | Element::Eps => None,
        }
    }
}

} // verus!
