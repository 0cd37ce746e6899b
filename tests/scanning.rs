use nfa_lexer::lexer::{BuildError, LexemeStream, Lexer, LexerBuilder};
use nfa_lexer::regex::{NameErrorKind, NamesList, Regex};

#[derive(Debug, PartialEq, Clone)]
enum Tok {
    Keyword(String),
    Ident(String),
    A(String),
    Space,
}

type Act = fn(String) -> Tok;

fn keyword(s: String) -> Tok {
    Tok::Keyword(s)
}

fn ident(s: String) -> Tok {
    Tok::Ident(s)
}

fn letter_a(s: String) -> Tok {
    Tok::A(s)
}

fn space(_s: String) -> Tok {
    Tok::Space
}

fn letter_names() -> NamesList {
    vec![
        ("lower", Regex::Range('a', 'z')),
        ("upper", Regex::Range('A', 'Z')),
        ("letter", Regex::Or(Box::new(Regex::Name("lower")), Box::new(Regex::Name("upper")))),
        ("letters", Regex::Plus(Box::new(Regex::Name("letter")))),
    ]
}

fn keyword_then_ident() -> Lexer<Tok, Act> {
    LexerBuilder::from_names(letter_names())
        .add_pattern(Regex::Str("if"), keyword as Act)
        .add_pattern(Regex::Name("letters"), ident as Act)
        .build()
        .unwrap()
}

fn drain(stream: &mut LexemeStream<Tok, Act>) -> Vec<Result<Tok, usize>> {
    let mut out = Vec::new();
    while let Some(r) = stream.get_next_token() {
        out.push(r.map_err(|e| e.position));
    }
    out
}

#[test]
fn longest_match_prefers_longer_identifier() {
    let lx = keyword_then_ident();
    let mut s = lx.lexemes("ifx");
    assert_eq!(drain(&mut s), vec![Ok(Tok::Ident("ifx".to_string()))]);
}

#[test]
fn tie_goes_to_earlier_pattern() {
    let lx = keyword_then_ident();
    let mut s = lx.lexemes("if");
    assert_eq!(drain(&mut s), vec![Ok(Tok::Keyword("if".to_string()))]);
}

#[test]
fn tie_goes_to_earlier_pattern_in_either_order() {
    let lx: Lexer<Tok, Act> = LexerBuilder::from_names(letter_names())
        .add_pattern(Regex::Name("letters"), ident as Act)
        .add_pattern(Regex::Str("if"), keyword as Act)
        .build()
        .unwrap();
    let mut s = lx.lexemes("if");
    assert_eq!(drain(&mut s), vec![Ok(Tok::Ident("if".to_string()))]);
}

#[test]
fn single_character_recovery() {
    let lx: Lexer<Tok, Act> = LexerBuilder::from_names(vec![])
        .add_pattern(Regex::Char('a'), letter_a as Act)
        .build()
        .unwrap();
    let mut s = lx.lexemes("ba");
    assert_eq!(s.get_next_token().map(|r| r.map_err(|e| e.position)), Some(Err(0)));
    assert_eq!(s.next_tok_start_idx, 1);
    assert_eq!(s.get_next_token().map(|r| r.map_err(|e| e.position)), Some(Ok(Tok::A("a".to_string()))));
    assert_eq!(s.next_tok_start_idx, 2);
    assert!(s.get_next_token().is_none());
    assert!(s.get_next_token().is_none());
}

#[test]
fn two_scans_yield_the_same_results() {
    let lx = keyword_then_ident();
    let mut a = lx.lexemes("if x1 ifthen if");
    let mut b = lx.lexemes("if x1 ifthen if");
    let ra = drain(&mut a);
    let rb = drain(&mut b);
    assert_eq!(ra, rb);
    assert_eq!(
        ra,
        vec![
            Ok(Tok::Keyword("if".to_string())),
            Err(2),
            Ok(Tok::Ident("x".to_string())),
            Err(4),
            Err(5),
            Ok(Tok::Ident("ifthen".to_string())),
            Err(12),
            Ok(Tok::Keyword("if".to_string())),
        ]
    );
}

#[test]
fn no_patterns_fail_everywhere() {
    let lx: Lexer<Tok, Act> = LexerBuilder::from_names(vec![]).build().unwrap();
    let mut s = lx.lexemes("abc");
    assert_eq!(drain(&mut s), vec![Err(0), Err(1), Err(2)]);
    assert_eq!(s.next_tok_start_idx, 3);
}

#[test]
fn empty_text_ends_at_once() {
    let lx = keyword_then_ident();
    let mut s = lx.lexemes("");
    assert!(s.get_next_token().is_none());
    assert_eq!(s.next_tok_start_idx, 0);
}

#[test]
fn token_text_is_the_matched_slice() {
    let names = letter_names();
    let lx: Lexer<Tok, Act> = LexerBuilder::from_names(names)
        .add_pattern(Regex::Chars(vec![' ', '\t']), space as Act)
        .add_pattern(Regex::Name("letters"), ident as Act)
        .build()
        .unwrap();
    let text = "ab\tcde f";
    let chars: Vec<char> = text.chars().collect();
    let mut s = lx.lexemes(text);
    let mut start = s.next_tok_start_idx;
    let mut seen = Vec::new();
    while let Some(r) = s.get_next_token() {
        let end = s.next_tok_start_idx;
        if let Ok(Tok::Ident(t)) = &r {
            let slice: String = chars[start..end].iter().collect();
            assert_eq!(*t, slice);
        }
        seen.push((start, end));
        start = end;
    }
    assert_eq!(seen, vec![(0, 2), (2, 3), (3, 6), (6, 7), (7, 8)]);
}

#[test]
fn last_character_is_scanned() {
    let lx: Lexer<Tok, Act> = LexerBuilder::from_names(vec![])
        .add_pattern(Regex::Char('a'), letter_a as Act)
        .build()
        .unwrap();
    let mut s = lx.lexemes("a");
    assert_eq!(drain(&mut s), vec![Ok(Tok::A("a".to_string()))]);
    let mut s = lx.lexemes("aa");
    assert_eq!(drain(&mut s), vec![Ok(Tok::A("a".to_string())), Ok(Tok::A("a".to_string()))]);
}

#[test]
fn non_ascii_text_is_scanned_by_character() {
    let lx: Lexer<Tok, Act> = LexerBuilder::from_names(vec![])
        .add_pattern(Regex::Str("é"), letter_a as Act)
        .build()
        .unwrap();
    let mut s = lx.lexemes("éxé");
    assert_eq!(
        drain(&mut s),
        vec![Ok(Tok::A("é".to_string())), Err(1), Ok(Tok::A("é".to_string()))]
    );
}

#[test]
fn unknown_name_fails_the_build() {
    let r: Result<Lexer<Tok, Act>, BuildError> = LexerBuilder::from_names(letter_names())
        .add_pattern(Regex::Name("digit"), ident as Act)
        .build();
    match r {
        Err(BuildError::Name(e)) => {
            assert_eq!(e.kind, NameErrorKind::NotFound);
            assert_eq!(e.name, "digit");
        }
        _ => panic!("expected a name error"),
    }
}

#[test]
fn first_unresolved_pattern_is_reported() {
    let r: Result<Lexer<Tok, Act>, BuildError> = LexerBuilder::from_names(letter_names())
        .add_pattern(Regex::Name("letters"), ident as Act)
        .add_pattern(Regex::Name("first"), ident as Act)
        .add_pattern(Regex::Name("second"), ident as Act)
        .build();
    match r {
        Err(BuildError::Name(e)) => assert_eq!(e.name, "first"),
        _ => panic!("expected a name error"),
    }
}

#[test]
fn cyclic_names_fail_the_build() {
    let names: NamesList = vec![
        ("a", Regex::Seqn(Box::new(Regex::Char('x')), Box::new(Regex::Name("b")))),
        ("b", Regex::Optional(Box::new(Regex::Name("a")))),
    ];
    let r: Result<Lexer<Tok, Act>, BuildError> =
        LexerBuilder::new(names, vec![(Regex::Name("a"), ident as Act)]).build();
    match r {
        Err(BuildError::Name(e)) => {
            assert_eq!(e.kind, NameErrorKind::CyclicReference);
            assert_eq!(e.name, "a");
        }
        _ => panic!("expected a cycle"),
    }
}

#[test]
fn builder_new_keeps_pattern_order() {
    let lx: Lexer<Tok, Act> = LexerBuilder::new(
        letter_names(),
        vec![(Regex::Str("if"), keyword as Act), (Regex::Name("letters"), ident as Act)],
    )
    .build()
    .unwrap();
    let mut s = lx.lexemes("if");
    assert_eq!(drain(&mut s), vec![Ok(Tok::Keyword("if".to_string()))]);
    assert_eq!(lx.actions.len(), 2);
    assert_eq!(lx.bindings.len(), 2);
}

#[test]
fn lexer_new_numbers_patterns_in_order() {
    let lx: Lexer<Tok, Act> = Lexer::new(
        vec![],
        vec![(Regex::Char('a'), letter_a as Act), (Regex::Char('b'), letter_a as Act)],
    )
    .unwrap();
    // Each single character takes a start state and one more.
    assert_eq!(lx.bindings, vec![(1, 0), (3, 1)]);
    assert_eq!(lx.nfa.initial_state, 4);
    let mut f = lx.nfa.final_states.clone();
    f.sort();
    assert_eq!(f, vec![1, 3]);
}
