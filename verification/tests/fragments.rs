use rlex::fsa::nfa::{utoc, Lable, Nfa};
use rlex::regex::Element;
use rlex::text::{char_at, chars_of};

fn ids_of(nfa: Nfa) -> Vec<usize> {
    let mut ids = vec![nfa.sid(), nfa.fid()];
    for ((state, _), targets) in nfa.get_delta() {
        ids.push(state);
        ids.extend(targets);
    }
    ids.sort();
    ids.dedup();
    ids
}

#[test]
fn utoc_of_every_digit() {
    let digits = ['0', '1', '2', '3', '4', '5', '6', '7', '8', '9'];
    for (digit, c) in digits.iter().enumerate() {
        assert_eq!(utoc(digit), *c);
    }
}

#[test]
fn lable_from_char() {
    assert_eq!(Lable::from('x'), Lable::Char('x'));
    let lable: Lable = 'y'.into();
    assert_eq!(lable, Lable::Char('y'));
    assert_ne!(Lable::Char('e'), Lable::Eps);
}

#[test]
fn of_char_at_any_offset() {
    for k in [0usize, 1, 7, 1000, usize::MAX - 1] {
        let nfa = Nfa::of_char('q', k);
        assert_eq!(nfa.sid(), k);
        assert_eq!(nfa.fid(), k + 1);
        assert_eq!(nfa.start(), k);
        assert_eq!(nfa.accept(), k + 1);
        assert_eq!(nfa.delta((k, Lable::Char('q'))).unwrap(), &vec![k + 1]);
        assert!(nfa.delta((k, Lable::Eps)).is_none());
        assert!(nfa.delta((k + 1, Lable::Char('q'))).is_none());
        assert!(nfa.delta((k, Lable::Char('r'))).is_none());
        assert_eq!(nfa.get_delta().len(), 1);
    }
}

#[test]
fn of_cdash_has_no_transition_outside_the_range() {
    let nfa = Nfa::of_cdash('a', 'c', 0);

    assert_eq!(nfa.delta((0, Lable::Char('a'))).unwrap(), &vec![1]);
    assert_eq!(nfa.delta((0, Lable::Char('b'))).unwrap(), &vec![1]);
    assert_eq!(nfa.delta((0, Lable::Char('c'))).unwrap(), &vec![1]);
    assert!(nfa.delta((0, Lable::Char('d'))).is_none());
    assert!(nfa.delta((0, Lable::Char('`'))).is_none());
    assert!(nfa.delta((0, Lable::Eps)).is_none());
    assert_eq!(nfa.get_delta().len(), 3);
}

#[test]
fn of_cdash_backwards_is_empty() {
    let nfa = Nfa::of_cdash('c', 'a', 4);

    assert_eq!(nfa.sid(), 4);
    assert_eq!(nfa.fid(), 5);
    assert!(nfa.get_delta().is_empty());
}

#[test]
fn of_cdash_steps_over_the_surrogates() {
    let nfa = Nfa::of_cdash('\u{D7FE}', '\u{E001}', 0);

    assert_eq!(nfa.delta((0, Lable::Char('\u{D7FE}'))).unwrap(), &vec![1]);
    assert_eq!(nfa.delta((0, Lable::Char('\u{D7FF}'))).unwrap(), &vec![1]);
    assert_eq!(nfa.delta((0, Lable::Char('\u{E000}'))).unwrap(), &vec![1]);
    assert_eq!(nfa.delta((0, Lable::Char('\u{E001}'))).unwrap(), &vec![1]);
    assert_eq!(nfa.get_delta().len(), 4);
}

#[test]
fn of_cdash_up_to_the_last_character() {
    let nfa = Nfa::of_cdash('\u{10FFFE}', char::MAX, 0);

    assert_eq!(nfa.delta((0, Lable::Char(char::MAX))).unwrap(), &vec![1]);
    assert_eq!(nfa.get_delta().len(), 2);
}

#[test]
fn of_text_counts_characters() {
    let nfa = Nfa::of_text("é→x", 2);

    assert_eq!(nfa.sid(), 2);
    assert_eq!(nfa.fid(), 5);
    assert_eq!(nfa.delta((2, Lable::Char('é'))).unwrap(), &vec![3]);
    assert_eq!(nfa.delta((3, Lable::Char('→'))).unwrap(), &vec![4]);
    assert_eq!(nfa.delta((4, Lable::Char('x'))).unwrap(), &vec![5]);
    assert!(nfa.delta((5, Lable::Char('x'))).is_none());
}

#[test]
fn of_text_empty() {
    let nfa = Nfa::of_text("", 9);

    assert_eq!(nfa.sid(), 9);
    assert_eq!(nfa.fid(), 9);
    assert!(nfa.get_delta().is_empty());
}

#[test]
fn of_text_with_a_repeated_character() {
    let nfa = Nfa::of_text("aa", 0);

    assert_eq!(nfa.delta((0, Lable::Char('a'))).unwrap(), &vec![1]);
    assert_eq!(nfa.delta((1, Lable::Char('a'))).unwrap(), &vec![2]);
}

#[test]
fn insert_transition_fans_out_in_order() {
    let mut nfa = Nfa::of_eps(0);

    nfa.insert_transition(0, Lable::Eps, 7);
    nfa.insert_transition(0, Lable::Eps, 3);
    nfa.insert_transition(0, Lable::Char('a'), 3);

    assert_eq!(nfa.delta((0, Lable::Eps)).unwrap(), &vec![1, 7, 3]);
    assert_eq!(nfa.delta((0, Lable::Char('a'))).unwrap(), &vec![3]);
    assert_eq!(nfa.sid(), 0);
    assert_eq!(nfa.fid(), 1);
}

#[test]
fn insert_transition_twice_adds_once() {
    let mut nfa = Nfa::of_eps(0);

    nfa.insert_transition(0, Lable::Eps, 1);
    nfa.insert_transition(0, Lable::Eps, 2);
    nfa.insert_transition(0, Lable::Eps, 1);
    nfa.insert_transition(0, Lable::Eps, 2);

    assert_eq!(nfa.delta((0, Lable::Eps)).unwrap(), &vec![1, 2]);
}

#[test]
fn fragments_apart_share_no_id() {
    let first = Nfa::of_text("abc", 3);
    // The first fragment has four states, 3 to 6.
    let second = Nfa::of_cdash('a', 'z', 3 + 4);
    let third = Nfa::of_char('x', 3 + 4 + 2 + 10);

    let ids1 = ids_of(first);
    let ids2 = ids_of(second);
    let ids3 = ids_of(third);
    assert_eq!(ids1, vec![3, 4, 5, 6]);
    assert_eq!(ids2, vec![7, 8]);
    assert_eq!(ids3, vec![19, 20]);
    assert!(ids1.iter().all(|id| !ids2.contains(id) && !ids3.contains(id)));
    assert!(ids2.iter().all(|id| !ids3.contains(id)));
}

#[test]
fn of_or_keeps_both_tables() {
    let a = Nfa::of_char('a', 0);
    let b = Nfa::of_char('b', 2);
    let or = Nfa::of_or(a, b, 4);

    assert_eq!(or.sid(), 4);
    assert_eq!(or.fid(), 5);
    assert_eq!(or.delta((4, Lable::Eps)).unwrap(), &vec![0, 2]);
    assert_eq!(or.delta((0, Lable::Char('a'))).unwrap(), &vec![1]);
    assert_eq!(or.delta((2, Lable::Char('b'))).unwrap(), &vec![3]);
    assert_eq!(or.delta((1, Lable::Eps)).unwrap(), &vec![5]);
    assert_eq!(or.delta((3, Lable::Eps)).unwrap(), &vec![5]);
    assert_eq!(ids_of(or), vec![0, 1, 2, 3, 4, 5]);
}

#[test]
fn of_or_on_a_shared_key_the_second_stands() {
    let mut a = Nfa::of_char('a', 0);
    a.insert_transition(0, Lable::Char('a'), 9);
    let b = Nfa::of_char('a', 0);
    let or = Nfa::of_or(a, b, 4);

    assert_eq!(or.delta((0, Lable::Char('a'))).unwrap(), &vec![1]);
}

#[test]
fn of_concat_ignores_its_offset() {
    let a = Nfa::of_char('a', 0);
    let b = Nfa::of_char('b', 2);
    let concat = Nfa::of_concat(a, b, 1234);

    assert_eq!(concat.sid(), 0);
    assert_eq!(concat.fid(), 3);
    assert_eq!(concat.delta((1, Lable::Eps)).unwrap(), &vec![2]);
    assert_eq!(ids_of(concat), vec![0, 1, 2, 3]);
}

#[test]
fn star_plus_and_question_differ_in_two_transitions() {
    let star = Nfa::of_star(Nfa::of_char('a', 0), 2);
    let plus = Nfa::of_plus(Nfa::of_char('a', 0), 2);
    let question = Nfa::of_question(Nfa::of_char('a', 0), 2);

    // The order is that in which the transitions were added.
    assert_eq!(star.delta((2, Lable::Eps)).unwrap(), &vec![0, 3]);
    assert_eq!(star.delta((1, Lable::Eps)).unwrap(), &vec![0, 3]);
    assert_eq!(plus.delta((2, Lable::Eps)).unwrap(), &vec![0]);
    assert_eq!(plus.delta((1, Lable::Eps)).unwrap(), &vec![0, 3]);
    assert_eq!(question.delta((2, Lable::Eps)).unwrap(), &vec![0, 3]);
    assert_eq!(question.delta((1, Lable::Eps)).unwrap(), &vec![3]);

    for nfa in [&star, &plus, &question] {
        assert_eq!(nfa.sid(), 2);
        assert_eq!(nfa.fid(), 3);
        assert_eq!(nfa.delta((0, Lable::Char('a'))).unwrap(), &vec![1]);
        assert!(nfa.delta((3, Lable::Eps)).is_none());
    }
}

#[test]
fn get_delta_lists_every_transition() {
    let nfa = Nfa::of_text("ab", 0);
    let mut rows = nfa.get_delta();
    rows.sort_by_key(|row| row.0 .0);

    assert_eq!(
        rows,
        vec![
            ((0, Lable::Char('a')), vec![1]),
            ((1, Lable::Char('b')), vec![2]),
        ]
    );
}

#[test]
fn element_kinds() {
    let operators = [
        ('-', Element::Dash, 3),
        ('+', Element::Plus, 2),
        ('*', Element::Star, 2),
        ('?', Element::Question, 2),
        ('.', Element::Concat, 1),
        ('|', Element::Or, 0),
    ];
    for (c, element, priority) in operators {
        assert_eq!(Element::operator_of(c), Some(element));
        assert!(element.is_operator());
        assert!(!element.is_operand());
        assert_eq!(element.priority(), Some(priority));
    }
    for element in [Element::Dash, Element::Or, Element::Concat] {
        assert_eq!(element.arity(), 2);
    }
    for element in [Element::Plus, Element::Star, Element::Question] {
        assert_eq!(element.arity(), 1);
    }
    for c in ['(', ')', 'a', '0', ' ', '"', '_'] {
        assert_eq!(Element::operator_of(c), None);
    }
    let operands = [
        Element::Text("if"),
        Element::Number(3),
        Element::Char('c'),
        Element::NameOrText("if"),
        Element::Eps,
    ];
    for element in operands {
        assert!(element.is_operand());
        assert!(!element.is_operator());
        assert_eq!(element.priority(), None);
        assert_eq!(element.arity(), 0);
    }
}

#[test]
fn characters_of_a_text() {
    let chars = chars_of("aé→");
    assert_eq!(chars, vec!['a', 'é', '→']);
    assert_eq!(char_at(&chars, 1), 'é');
    assert!(chars_of("").is_empty());
}
