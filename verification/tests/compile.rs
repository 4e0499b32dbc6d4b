use rlex::compile;
use rlex::error::Error;
use rlex::fsa::assemble::build;
use rlex::fsa::nfa::{Lable, Nfa};
use rlex::regex::Element;

// The states reached from `states` without reading a character.
fn closure(nfa: &Nfa, states: Vec<usize>) -> Vec<usize> {
    let mut seen = states;
    let mut next = 0;
    while next < seen.len() {
        let state = seen[next];
        next += 1;
        if let Some(targets) = nfa.delta((state, Lable::Eps)) {
            for target in targets {
                if !seen.contains(target) {
                    seen.push(*target);
                }
            }
        }
    }
    seen
}

fn accepts(nfa: &Nfa, input: &str) -> bool {
    let mut current = closure(nfa, vec![nfa.sid()]);
    for c in input.chars() {
        let mut moved = Vec::new();
        for state in &current {
            if let Some(targets) = nfa.delta((*state, Lable::Char(c))) {
                for target in targets {
                    if !moved.contains(target) {
                        moved.push(*target);
                    }
                }
            }
        }
        current = closure(nfa, moved);
    }
    current.contains(&nfa.fid())
}

// The accept state can be reached from the start state over any transitions.
fn connected(nfa: &Nfa, alphabet: &str) -> bool {
    let mut seen = vec![nfa.sid()];
    let mut next = 0;
    while next < seen.len() {
        let state = seen[next];
        next += 1;
        let mut lables = vec![Lable::Eps];
        for c in alphabet.chars() {
            lables.push(Lable::Char(c));
        }
        for lable in lables {
            if let Some(targets) = nfa.delta((state, lable)) {
                for target in targets {
                    if !seen.contains(target) {
                        seen.push(*target);
                    }
                }
            }
        }
    }
    seen.contains(&nfa.fid())
}

#[test]
fn compile_range_of_letters() {
    let nfa = compile("a-z").unwrap();

    for c in 'a'..='z' {
        assert!(accepts(&nfa, &c.to_string()));
    }
    for c in '0'..='9' {
        assert!(!accepts(&nfa, &c.to_string()));
    }
    assert!(!accepts(&nfa, "A"));
    assert!(!accepts(&nfa, "{"));
    assert!(!accepts(&nfa, "`"));
    assert!(!accepts(&nfa, "-"));
    assert!(!accepts(&nfa, ""));
    assert!(!accepts(&nfa, "ab"));
}

#[test]
fn compile_range_reuses_the_ids_of_its_ends() {
    let nfa = compile("a-z").unwrap();

    assert_eq!(nfa.sid(), 0);
    assert_eq!(nfa.fid(), 1);
    assert_eq!(nfa.delta((0, Lable::Char('m'))).unwrap(), &vec![1]);
    assert!(nfa.delta((1, Lable::Eps)).is_none());
    assert!(nfa.delta((2, Lable::Char('z'))).is_none());
}

#[test]
fn compile_single_char() {
    let nfa = compile("a").unwrap();

    assert_eq!(nfa.sid(), 0);
    assert_eq!(nfa.fid(), 1);
    assert_eq!(nfa.delta((0, Lable::Char('a'))).unwrap(), &vec![1]);
    assert!(accepts(&nfa, "a"));
    assert!(!accepts(&nfa, "b"));
}

#[test]
fn compile_or_numbers_states_in_order() {
    let nfa = compile("a|b").unwrap();

    assert_eq!(nfa.sid(), 4);
    assert_eq!(nfa.fid(), 5);
    assert_eq!(nfa.delta((4, Lable::Eps)).unwrap(), &vec![0, 2]);
    assert_eq!(nfa.delta((0, Lable::Char('a'))).unwrap(), &vec![1]);
    assert_eq!(nfa.delta((2, Lable::Char('b'))).unwrap(), &vec![3]);
    assert_eq!(nfa.delta((1, Lable::Eps)).unwrap(), &vec![5]);
    assert_eq!(nfa.delta((3, Lable::Eps)).unwrap(), &vec![5]);
}

#[test]
fn compile_concat_adds_no_state() {
    let nfa = compile("a.b").unwrap();

    assert_eq!(nfa.sid(), 0);
    assert_eq!(nfa.fid(), 3);
    assert_eq!(nfa.delta((1, Lable::Eps)).unwrap(), &vec![2]);
    assert!(accepts(&nfa, "ab"));
    assert!(!accepts(&nfa, "a"));
    assert!(!accepts(&nfa, "ba"));
}

#[test]
fn compile_star_plus_question() {
    let star = compile("a*").unwrap();
    assert!(accepts(&star, ""));
    assert!(accepts(&star, "a"));
    assert!(accepts(&star, "aaaa"));
    assert!(!accepts(&star, "ab"));

    let plus = compile("a+").unwrap();
    assert!(!accepts(&plus, ""));
    assert!(accepts(&plus, "a"));
    assert!(accepts(&plus, "aaa"));

    let question = compile("a?").unwrap();
    assert!(accepts(&question, ""));
    assert!(accepts(&question, "a"));
    assert!(!accepts(&question, "aa"));
}

#[test]
fn compile_text_and_names() {
    let nfa = compile(r#" "if" | else | eps "#).unwrap();

    assert!(accepts(&nfa, "if"));
    assert!(accepts(&nfa, "else"));
    assert!(accepts(&nfa, ""));
    assert!(!accepts(&nfa, "i"));
    assert!(!accepts(&nfa, "eps"));
}

#[test]
fn compile_empty_text() {
    let nfa = compile(r#""""#).unwrap();

    assert_eq!(nfa.sid(), 0);
    assert_eq!(nfa.fid(), 0);
    assert!(accepts(&nfa, ""));
    assert!(!accepts(&nfa, "a"));
}

#[test]
fn compile_identifier() {
    let nfa = compile(r#" (a-z)+.(a-z | 0-9 | _ )* "#).unwrap();

    assert!(accepts(&nfa, "a"));
    assert!(accepts(&nfa, "abc"));
    assert!(accepts(&nfa, "a_1"));
    assert!(accepts(&nfa, "zz9_"));
    assert!(!accepts(&nfa, ""));
    assert!(!accepts(&nfa, "1a"));
    assert!(!accepts(&nfa, "_a"));
    assert!(!accepts(&nfa, "aB"));
}

#[test]
fn compile_floating_point_number() {
    let nfa = compile(r#" 0-9+.".".0-9+ "#).unwrap();

    assert!(accepts(&nfa, "3.14"));
    assert!(accepts(&nfa, "0.0"));
    assert!(!accepts(&nfa, "3."));
    assert!(!accepts(&nfa, ".5"));
    assert!(!accepts(&nfa, "3"));
}

#[test]
fn compiled_accept_is_reachable_from_start() {
    let patterns = [
        "a",
        "a-z",
        "0-9",
        "a.b|c",
        " a . (b | c) . d ",
        "(a|b)*.c+.d?",
        r#" "if" | "else" "#,
        r#""""#,
        "eps",
        "while.(a-z)*",
    ];
    for pattern in patterns {
        let nfa = compile(pattern).unwrap();
        assert!(
            connected(&nfa, "abcdefghijklmnopqrstuvwxyz0123456789"),
            "{}",
            pattern
        );
    }
}

#[test]
fn compiled_states_are_numbered_from_zero_without_gap() {
    // a:0,1  b:2,3  c:4,5  or:6,7  concat: none  d:8,9  concat: none
    let nfa = compile(" a . (b | c) . d ").unwrap();

    assert_eq!(nfa.sid(), 0);
    assert_eq!(nfa.fid(), 9);
    let mut ids = vec![nfa.sid(), nfa.fid()];
    for ((state, _), targets) in nfa.get_delta() {
        ids.push(state);
        ids.extend(targets);
    }
    ids.sort();
    ids.dedup();
    assert_eq!(ids, (0..10).collect::<Vec<usize>>());
}

#[test]
fn compile_lexical_errors() {
    assert_eq!(
        compile(r#"a."b"#).err(),
        Some(Error::UnterminatedQuote { index: 2 })
    );
    assert_eq!(
        compile("a.#").err(),
        Some(Error::UnsupportedCharacter { index: 2 })
    );
}

#[test]
fn compile_structural_errors() {
    assert_eq!(
        compile("(a|b").err(),
        Some(Error::UnbalancedParenthesis { index: 0 })
    );
    assert_eq!(
        compile("a|b)").err(),
        Some(Error::UnbalancedParenthesis { index: 3 })
    );
}

#[test]
fn compile_arity_errors() {
    assert_eq!(compile("").err(), Some(Error::NotOneFragment { count: 0 }));
    assert_eq!(
        compile("a b").err(),
        Some(Error::NotOneFragment { count: 2 })
    );
    assert_eq!(
        compile("*").err(),
        Some(Error::MissingOperand { position: 0 })
    );
    assert_eq!(
        compile("a|").err(),
        Some(Error::MissingOperand { position: 1 })
    );
    assert_eq!(
        compile("a.").err(),
        Some(Error::MissingOperand { position: 1 })
    );
    assert_eq!(
        compile("-a").err(),
        Some(Error::MissingOperand { position: 1 })
    );
}

#[test]
fn compile_range_errors() {
    assert_eq!(
        compile("z-a").err(),
        Some(Error::InvalidRange { position: 2 })
    );
    assert_eq!(
        compile("9-0").err(),
        Some(Error::InvalidRange { position: 2 })
    );
    assert_eq!(
        compile("a-9").err(),
        Some(Error::InvalidRange { position: 2 })
    );
    assert_eq!(
        compile(r#""a"-"z""#).err(),
        Some(Error::InvalidRange { position: 2 })
    );
    assert_eq!(
        compile("(a|b)-c").err(),
        Some(Error::InvalidRange { position: 4 })
    );
    assert_eq!(
        compile("ab-c").err(),
        Some(Error::InvalidRange { position: 2 })
    );
}

#[test]
fn compile_range_of_one() {
    let nfa = compile("a-a").unwrap();

    assert!(accepts(&nfa, "a"));
    assert!(!accepts(&nfa, "b"));
}

#[test]
fn build_from_offset() {
    let postfix = vec![Element::Char('a'), Element::Char('b'), Element::Or];
    let nfa = build(&postfix, 10).unwrap();

    assert_eq!(nfa.sid(), 14);
    assert_eq!(nfa.fid(), 15);
    assert_eq!(nfa.delta((14, Lable::Eps)).unwrap(), &vec![10, 12]);
    assert_eq!(nfa.delta((10, Lable::Char('a'))).unwrap(), &vec![11]);
}

#[test]
fn build_digits_range() {
    let postfix = vec![Element::Number(2), Element::Number(4), Element::Dash];
    let nfa = build(&postfix, 5).unwrap();

    assert_eq!(nfa.sid(), 5);
    assert_eq!(nfa.fid(), 6);
    assert_eq!(nfa.delta((5, Lable::Char('2'))).unwrap(), &vec![6]);
    assert_eq!(nfa.delta((5, Lable::Char('3'))).unwrap(), &vec![6]);
    assert_eq!(nfa.delta((5, Lable::Char('4'))).unwrap(), &vec![6]);
    assert!(nfa.delta((5, Lable::Char('5'))).is_none());
    assert!(nfa.delta((5, Lable::Char('1'))).is_none());
}

#[test]
fn build_runs_out_of_ids() {
    let one = vec![Element::Char('a')];
    assert_eq!(
        build(&one, usize::MAX - 1).err(),
        Some(Error::TooManyStates { position: 0 })
    );
    assert!(build(&one, usize::MAX - 2).is_ok());

    let star = vec![Element::Char('a'), Element::Star];
    assert_eq!(
        build(&star, usize::MAX - 3).err(),
        Some(Error::TooManyStates { position: 1 })
    );
    assert!(build(&star, usize::MAX - 4).is_ok());

    let text = vec![Element::Text("abc")];
    assert_eq!(
        build(&text, usize::MAX - 3).err(),
        Some(Error::TooManyStates { position: 0 })
    );
    assert_eq!(build(&text, usize::MAX - 4).unwrap().fid(), usize::MAX - 1);

    let concat = vec![Element::Char('a'), Element::Char('b'), Element::Concat];
    assert_eq!(build(&concat, usize::MAX - 4).unwrap().fid(), usize::MAX - 1);
}

#[test]
fn build_leftover_fragments() {
    let postfix = vec![Element::Char('a'), Element::Char('b'), Element::Eps];
    assert_eq!(
        build(&postfix, 0).err(),
        Some(Error::NotOneFragment { count: 3 })
    );
    assert_eq!(
        build(&Vec::new(), 0).err(),
        Some(Error::NotOneFragment { count: 0 })
    );
}

#[test]
fn two_builds_apart_share_no_state() {
    let first = build(&vec![Element::Char('a'), Element::Star], 0).unwrap();
    // The first fragment has four states, 0 to 3.
    let second = build(&vec![Element::Text("xy")], 4).unwrap();

    let mut ids1 = vec![first.sid(), first.fid()];
    for ((state, _), targets) in first.get_delta() {
        ids1.push(state);
        ids1.extend(targets);
    }
    let mut ids2 = vec![second.sid(), second.fid()];
    for ((state, _), targets) in second.get_delta() {
        ids2.push(state);
        ids2.extend(targets);
    }
    assert!(ids1.iter().all(|id| *id < 4));
    assert!(ids2.iter().all(|id| *id >= 4));
}

#[test]
fn compiled_start_reaches_every_state() {
    let alphabet = "abcdefghijklmnopqrstuvwxyz0123456789";
    for pattern in ["(a|b)*.c+.d?", r#" "if" | else | 0-9 "#, "a.b.c"] {
        let nfa = compile(pattern).unwrap();
        let mut seen = vec![nfa.sid()];
        let mut next = 0;
        while next < seen.len() {
            let state = seen[next];
            next += 1;
            let mut lables = vec![Lable::Eps];
            for c in alphabet.chars() {
                lables.push(Lable::Char(c));
            }
            for lable in lables {
                if let Some(targets) = nfa.delta((state, lable)) {
                    for target in targets {
                        if !seen.contains(target) {
                            seen.push(*target);
                        }
                    }
                }
            }
        }
        seen.sort();
        let mut ids = vec![nfa.sid(), nfa.fid()];
        for ((state, _), targets) in nfa.get_delta() {
            ids.push(state);
            ids.extend(targets);
        }
        ids.sort();
        ids.dedup();
        assert_eq!(seen, ids, "{}", pattern);
    }
}
