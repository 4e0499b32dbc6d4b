use rlex::error::Error;
use rlex::regex::to_postfix;
use rlex::regex::Element::{
    Char, Concat, Dash, Eps, NameOrText, Number, Or, Plus, Question, Star, Text,
};

#[test]
fn empty_string() {
    let postfix = to_postfix(r#""#).unwrap();

    assert!(postfix.is_empty());
}

#[test]
fn one_text() {
    let postfix = to_postfix(r#" "if" "#).unwrap();

    assert_eq!(postfix, vec![Text("if")]);
}

#[test]
fn one_char() {
    let postfix = to_postfix(r#" a "#).unwrap();

    assert_eq!(postfix, vec![Char('a')]);
}

#[test]
fn one_number() {
    let postfix = to_postfix(r#" 1 "#).unwrap();

    assert_eq!(postfix, vec![Number(1)]);
}

#[test]
fn one_name_or_text() {
    let postfix = to_postfix(r#" if "#).unwrap();

    assert_eq!(postfix, vec![NameOrText("if")]);
}

#[test]
fn or() {
    let postfix = to_postfix(r#" if | else | while | for "#).unwrap();

    assert_eq!(
        postfix,
        vec![
            NameOrText("if"),
            NameOrText("else"),
            Or,
            NameOrText("while"),
            Or,
            NameOrText("for"),
            Or,
        ]
    )
}

#[test]
fn concat() {
    let postfix = to_postfix(r#" "r"."l"."e"."x" "#).unwrap();

    assert_eq!(
        postfix,
        vec![
            Text("r"),
            Text("l"),
            Concat,
            Text("e"),
            Concat,
            Text("x"),
            Concat,
        ]
    )
}

#[test]
fn star() {
    let postfix = to_postfix(r#" a* "#).unwrap();

    assert_eq!(postfix, vec![Char('a'), Star]);
}

#[test]
fn question() {
    let postfix = to_postfix(r#" a? "#).unwrap();

    assert_eq!(postfix, vec![Char('a'), Question])
}

#[test]
fn plus() {
    let postfix = to_postfix(r#" a+ "#).unwrap();

    assert_eq!(postfix, vec![Char('a'), Plus]);
}

#[test]
fn dash() {
    let postfix = to_postfix(r#" a-z "#).unwrap();

    assert_eq!(postfix, vec![Char('a'), Char('z'), Dash])
}

#[test]
fn parenthesis() {
    let postfix = to_postfix(r#" a . (b | c) . d "#).unwrap();

    assert_eq!(
        postfix,
        vec![
            Char('a'),
            Char('b'),
            Char('c'),
            Or,
            Concat,
            Char('d'),
            Concat
        ]
    )
}

#[test]
fn identifier_regex() {
    let postfix = to_postfix(r#" (a-z)+.(a-z | 0-9 | _ )* "#).unwrap();

    assert_eq!(
        postfix,
        vec![
            Char('a'),
            Char('z'),
            Dash,
            Plus,
            Char('a'),
            Char('z'),
            Dash,
            Number(0),
            Number(9),
            Dash,
            Or,
            Char('_'),
            Or,
            Star,
            Concat
        ]
    )
}

#[test]
fn floating_point_number_regex() {
    let postfix = to_postfix(r#" 0-9+.".".0-9+ "#).unwrap();

    assert_eq!(
        postfix,
        vec![
            Number(0),
            Number(9),
            Dash,
            Plus,
            Text("."),
            Concat,
            Number(0),
            Number(9),
            Dash,
            Plus,
            Concat,
        ]
    )
}

#[test]
fn eps() {
    let postfix = to_postfix(r#" a . (b | eps) . c "#).unwrap();

    assert_eq!(
        postfix,
        vec![Char('a'), Char('b'), Eps, Or, Concat, Char('c'), Concat]
    )
}

#[test]
fn or_binds_looser_than_concat() {
    let postfix = to_postfix("a.b|c").unwrap();

    assert_eq!(postfix, vec![Char('a'), Char('b'), Concat, Char('c'), Or]);
}

#[test]
fn concat_waits_for_a_tighter_operator() {
    let postfix = to_postfix("a|b.c").unwrap();

    assert_eq!(postfix, vec![Char('a'), Char('b'), Char('c'), Concat, Or]);
}

#[test]
fn equal_priority_groups_from_the_left() {
    let postfix = to_postfix("a*+?").unwrap();

    assert_eq!(postfix, vec![Char('a'), Star, Plus, Question]);
}

#[test]
fn dash_binds_tighter_than_a_unary_operator() {
    let postfix = to_postfix("a*-b").unwrap();

    assert_eq!(postfix, vec![Char('a'), Char('b'), Dash, Star]);
}

#[test]
fn empty_text() {
    let postfix = to_postfix(r#" "" "#).unwrap();

    assert_eq!(postfix, vec![Text("")]);
}

#[test]
fn text_keeps_blanks_and_operators() {
    let postfix = to_postfix(r#""a |b(" . c"#).unwrap();

    assert_eq!(postfix, vec![Text("a |b("), Char('c'), Concat]);
}

#[test]
fn text_may_hold_any_character() {
    let postfix = to_postfix("\"é→\".x").unwrap();

    assert_eq!(postfix, vec![Text("é→"), Char('x'), Concat]);
}

#[test]
fn words_of_letters_digits_and_underscores() {
    let postfix = to_postfix("a1 _ __ 12 e eps epsi EPS x_9").unwrap();

    assert_eq!(
        postfix,
        vec![
            NameOrText("a1"),
            Char('_'),
            NameOrText("__"),
            NameOrText("12"),
            Char('e'),
            Eps,
            NameOrText("epsi"),
            NameOrText("EPS"),
            NameOrText("x_9"),
        ]
    );
}

#[test]
fn tabs_and_newlines_are_skipped() {
    let postfix = to_postfix("\ta\n|\tb\n").unwrap();

    assert_eq!(postfix, vec![Char('a'), Char('b'), Or]);
}

#[test]
fn nested_parentheses() {
    let postfix = to_postfix("((a|b).(c))*").unwrap();

    assert_eq!(
        postfix,
        vec![Char('a'), Char('b'), Or, Char('c'), Concat, Star]
    );
}

#[test]
fn unterminated_quote() {
    assert_eq!(
        to_postfix(r#"a."bc"#),
        Err(Error::UnterminatedQuote { index: 2 })
    );
}

#[test]
fn unsupported_character() {
    assert_eq!(
        to_postfix("a . $"),
        Err(Error::UnsupportedCharacter { index: 4 })
    );
    assert_eq!(
        to_postfix("é"),
        Err(Error::UnsupportedCharacter { index: 0 })
    );
}

#[test]
fn error_index_counts_characters() {
    assert_eq!(
        to_postfix("\"éé\" #"),
        Err(Error::UnsupportedCharacter { index: 5 })
    );
}

#[test]
fn stray_closing_parenthesis() {
    assert_eq!(
        to_postfix("a)"),
        Err(Error::UnbalancedParenthesis { index: 1 })
    );
    assert_eq!(
        to_postfix("(a|b))"),
        Err(Error::UnbalancedParenthesis { index: 5 })
    );
}

#[test]
fn parenthesis_left_open() {
    assert_eq!(
        to_postfix("(a|b"),
        Err(Error::UnbalancedParenthesis { index: 0 })
    );
    assert_eq!(
        to_postfix("a.(b.(c)"),
        Err(Error::UnbalancedParenthesis { index: 2 })
    );
    assert_eq!(
        to_postfix("((a"),
        Err(Error::UnbalancedParenthesis { index: 1 })
    );
}

#[test]
fn first_error_from_the_left_wins() {
    assert_eq!(
        to_postfix(") $"),
        Err(Error::UnbalancedParenthesis { index: 0 })
    );
    assert_eq!(
        to_postfix("( $"),
        Err(Error::UnsupportedCharacter { index: 2 })
    );
}

#[test]
fn operands_keep_their_order_and_operators_their_number() {
    let postfix = to_postfix(r#" (a|"b c").d* | (eps . x1)+ - 7 "#).unwrap();

    let operands: Vec<_> = postfix.iter().filter(|e| e.is_operand()).cloned().collect();
    assert_eq!(
        operands,
        vec![
            Char('a'),
            Text("b c"),
            Char('d'),
            Eps,
            NameOrText("x1"),
            Number(7)
        ]
    );
    let count = |operator| postfix.iter().filter(|e| **e == operator).count();
    assert_eq!(count(Or), 2);
    assert_eq!(count(Concat), 2);
    assert_eq!(count(Star), 1);
    assert_eq!(count(Plus), 1);
    assert_eq!(count(Dash), 1);
    assert_eq!(count(Question), 0);
    assert_eq!(postfix.len(), 13);
}

#[test]
fn numbers_are_single_digits() {
    let postfix = to_postfix("0 5 9 10 007").unwrap();

    assert_eq!(
        postfix,
        vec![
            Number(0),
            Number(5),
            Number(9),
            NameOrText("10"),
            NameOrText("007")
        ]
    );
}
