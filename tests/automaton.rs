use nfa_lexer::nfa::NFA;
use nfa_lexer::regex::{expand_trans, Delta, NameErrorKind, NamesList, Regex, EPSILON_CHR};
use std::collections::BTreeSet;

fn set_of(v: &[i32]) -> BTreeSet<i32> {
    v.iter().cloned().collect()
}

fn edges_of(d: &Delta) -> BTreeSet<(i32, char, i32)> {
    d.edges.iter().cloned().collect()
}

fn compile(r: Regex, counter: &mut i32) -> NFA {
    r.to_regular(None).unwrap().to_nfa(counter)
}

/// Full-string acceptance by simulation.
fn accepts(nfa: &NFA, word: &str) -> bool {
    let mut cur = nfa.epsilon_closure(vec![nfa.initial_state]);
    for c in word.chars() {
        cur = nfa.epsilon_closure(nfa.make_transition(cur, c));
    }
    cur.iter().any(|s| nfa.final_states.contains(s))
}

#[test]
fn closure_is_a_fixpoint() {
    let mut counter = 0;
    let nfa = compile(
        Regex::Star(Box::new(Regex::Or(Box::new(Regex::Char('a')), Box::new(Regex::Epsilon)))),
        &mut counter,
    );
    let once = nfa.epsilon_closure(vec![nfa.initial_state]);
    let twice = nfa.epsilon_closure(once.clone());
    assert_eq!(set_of(&once), set_of(&twice));
    assert!(once.contains(&nfa.initial_state));
    assert!(set_of(&once).len() > 1);
}

#[test]
fn closure_of_nothing_is_empty() {
    let mut counter = 0;
    let nfa = compile(Regex::Char('a'), &mut counter);
    assert!(nfa.epsilon_closure(vec![]).is_empty());
}

#[test]
fn closure_follows_chains() {
    let mut d = Delta::new();
    expand_trans(&mut d, (0, EPSILON_CHR), vec![1]);
    expand_trans(&mut d, (1, EPSILON_CHR), vec![2, 3]);
    expand_trans(&mut d, (3, 'x'), vec![4]);
    let nfa = NFA { delta: d, initial_state: 0, final_states: vec![4] };
    assert_eq!(set_of(&nfa.epsilon_closure(vec![0])), set_of(&[0, 1, 2, 3]));
    assert_eq!(set_of(&nfa.make_transition(vec![0, 1, 2, 3], 'x')), set_of(&[4]));
    assert!(nfa.make_transition(vec![0, 1, 2, 3], 'y').is_empty());
}

#[test]
fn expand_trans_accumulates() {
    let mut d = Delta::new();
    expand_trans(&mut d, (5, 'a'), vec![6]);
    expand_trans(&mut d, (5, 'a'), vec![7, 8]);
    assert_eq!(edges_of(&d), [(5, 'a', 6), (5, 'a', 7), (5, 'a', 8)].into_iter().collect());
}

#[test]
fn union_accepts_each_pattern_language() {
    let mut counter = 0;
    let a = compile(Regex::Str("ab"), &mut counter);
    let b = compile(Regex::Plus(Box::new(Regex::Char('c'))), &mut counter);
    let words_a = ["ab"];
    let words_b = ["c", "cc", "ccc"];
    let others = ["", "a", "abc", "ac", "b", "cab"];
    for w in words_a {
        assert!(accepts(&a, w));
        assert!(!accepts(&b, w));
    }
    for w in words_b {
        assert!(accepts(&b, w));
    }
    let a_finals = a.final_states.clone();
    let b_finals = b.final_states.clone();
    let glued = NFA::glue_nfas(vec![a, b], counter);
    assert_eq!(glued.initial_state, counter);
    for w in words_a.iter().chain(words_b.iter()) {
        assert!(accepts(&glued, w), "{}", w);
    }
    for w in others {
        assert!(!accepts(&glued, w), "{}", w);
    }
    let mut all = a_finals.clone();
    all.extend(b_finals.iter());
    assert_eq!(set_of(&glued.final_states), set_of(&all));
}

#[test]
fn to_nfa_numbers_states_from_counter() {
    let mut counter = 10;
    let nfa = compile(Regex::Char('a'), &mut counter);
    assert_eq!(counter, 12);
    assert_eq!(nfa.initial_state, 10);
    assert_eq!(nfa.final_states, vec![11]);
    assert_eq!(edges_of(&nfa.delta), [(10, 'a', 11)].into_iter().collect());
}

#[test]
fn to_nfa_builds_thompson_star() {
    let mut counter = 0;
    let nfa = compile(Regex::Star(Box::new(Regex::Char('a'))), &mut counter);
    // start 0; inner entry 1; 'a' exit 2; after 3.
    assert_eq!(counter, 4);
    assert_eq!(nfa.final_states, vec![3]);
    assert_eq!(
        edges_of(&nfa.delta),
        [(1, 'a', 2), (2, EPSILON_CHR, 1), (2, EPSILON_CHR, 3), (0, EPSILON_CHR, 1), (0, EPSILON_CHR, 3)]
            .into_iter()
            .collect()
    );
}

#[test]
fn to_nfa_builds_thompson_alternation() {
    let mut counter = 0;
    let nfa = compile(Regex::Or(Box::new(Regex::Char('a')), Box::new(Regex::Char('b'))), &mut counter);
    // start 0; branch entries 1 and 2; 'a' exit 3; 'b' exit 4; end 5.
    assert_eq!(counter, 6);
    assert_eq!(nfa.final_states, vec![5]);
    assert_eq!(
        edges_of(&nfa.delta),
        [
            (0, EPSILON_CHR, 1),
            (0, EPSILON_CHR, 2),
            (1, 'a', 3),
            (2, 'b', 4),
            (3, EPSILON_CHR, 5),
            (4, EPSILON_CHR, 5)
        ]
        .into_iter()
        .collect()
    );
}

#[test]
fn to_nfa_builds_thompson_sequence() {
    let mut counter = 0;
    let nfa = compile(Regex::Seqn(Box::new(Regex::Char('a')), Box::new(Regex::Epsilon)), &mut counter);
    assert_eq!(counter, 4);
    assert_eq!(nfa.final_states, vec![3]);
    assert_eq!(
        edges_of(&nfa.delta),
        [(0, 'a', 1), (1, EPSILON_CHR, 2), (2, EPSILON_CHR, 3)].into_iter().collect()
    );
}

#[test]
fn from_str_nests_to_the_right() {
    match Regex::from_str("ab") {
        Regex::Seqn(a, rest) => {
            assert!(matches!(*a, Regex::Char('a')));
            match *rest {
                Regex::Seqn(b, end) => {
                    assert!(matches!(*b, Regex::Char('b')));
                    assert!(matches!(*end, Regex::Epsilon));
                }
                _ => panic!("expected a sequence"),
            }
        }
        _ => panic!("expected a sequence"),
    }
    assert!(matches!(Regex::from_str(""), Regex::Epsilon));
}

#[test]
fn from_range_holds_every_character() {
    match Regex::from_range('a', 'e') {
        Regex::Chars(cs) => assert_eq!(cs, vec!['a', 'b', 'c', 'd', 'e']),
        _ => panic!("expected a set"),
    }
    match Regex::from_range('z', 'a') {
        Regex::Chars(cs) => assert!(cs.is_empty()),
        _ => panic!("expected a set"),
    }
}

#[test]
fn all_except_leaves_out_the_given_characters() {
    match Regex::all_except(vec!['"', 'a']) {
        Regex::Chars(cs) => {
            assert_eq!(cs.len(), 125);
            assert!(!cs.contains(&'"'));
            assert!(!cs.contains(&'a'));
            assert!(cs.contains(&'b'));
            assert!(cs.contains(&'\u{0}'));
            assert!(!cs.contains(&EPSILON_CHR));
        }
        _ => panic!("expected a set"),
    }
}

#[test]
fn to_regular_expands_shorthands() {
    let names: NamesList = vec![("d", Regex::Range('0', '1'))];
    let r = Regex::Optional(Box::new(Regex::Plus(Box::new(Regex::Name("d")))))
        .to_regular(Some(&names))
        .unwrap();
    match r {
        Regex::Or(left, right) => {
            assert!(matches!(*right, Regex::Epsilon));
            match *left {
                Regex::Seqn(one, more) => {
                    assert!(matches!(*one, Regex::Chars(ref cs) if *cs == vec!['0', '1']));
                    assert!(matches!(*more, Regex::Star(_)));
                }
                _ => panic!("expected a sequence"),
            }
        }
        _ => panic!("expected an alternation"),
    }
}

#[test]
fn to_regular_without_table_fails_on_names() {
    let e = Regex::Star(Box::new(Regex::Name("x"))).to_regular(None).unwrap_err();
    assert_eq!(e.kind, NameErrorKind::NoNameList);
    assert_eq!(e.name, "x");
}

#[test]
fn to_regular_uses_first_entry_of_a_name() {
    let names: NamesList = vec![("x", Regex::Char('1')), ("x", Regex::Char('2'))];
    let r = Regex::Name("x").to_regular(Some(&names)).unwrap();
    assert!(matches!(r, Regex::Char('1')));
}

#[test]
fn repeated_non_cyclic_name_is_fine() {
    let names: NamesList = vec![
        ("x", Regex::Char('1')),
        ("y", Regex::Seqn(Box::new(Regex::Name("x")), Box::new(Regex::Name("x")))),
    ];
    let mut counter = 0;
    let nfa = Regex::Name("y").to_regular(Some(&names)).unwrap().to_nfa(&mut counter);
    assert!(accepts(&nfa, "11"));
    assert!(!accepts(&nfa, "1"));
}

#[test]
fn self_reference_is_a_cycle() {
    let names: NamesList = vec![("x", Regex::Star(Box::new(Regex::Name("x"))))];
    let e = Regex::Name("x").to_regular(Some(&names)).unwrap_err();
    assert_eq!(e.kind, NameErrorKind::CyclicReference);
}
