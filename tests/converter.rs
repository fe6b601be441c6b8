use ebnf_set_calc::bnf::Item as B;
use ebnf_set_calc::lex::Token;
use ebnf_set_calc::sebnf::{Item as E, ParseError, Sebnf};

fn names(rules: &[(String, Vec<Vec<B>>)]) -> Vec<String> {
    rules.iter().map(|(n, _)| n.clone()).collect()
}

fn show(i: &B) -> String {
    match i {
        B::NonTerminal(s) | B::Terminal(s) | B::Regex(s) => s.clone(),
    }
}

fn show_alts(a: &[Vec<B>]) -> Vec<Vec<String>> {
    a.iter().map(|p| p.iter().map(show).collect()).collect()
}

#[test]
fn repetition_becomes_helper_after_rule() {
    let g = Sebnf {
        rules: vec![(
            "List".to_string(),
            vec![vec![
                E::Terminal("\"(\"".to_string()),
                E::AnyAmount(vec![E::NonTerminal("Item".to_string())]),
                E::Terminal("\")\"".to_string()),
            ]],
        )],
    };
    assert!(g.names_ok());
    let b = g.to_bnf();
    assert_eq!(names(&b.rules), vec!["List", "___rep_0"]);
    assert_eq!(show_alts(&b.rules[0].1), vec![vec!["\"(\"", "___rep_0", "\")\""]]);
    assert_eq!(show_alts(&b.rules[1].1), vec![vec!["Item", "___rep_0"], vec![]]);
}

#[test]
fn identical_repetitions_share_one_helper() {
    let rep = || E::AnyAmount(vec![E::Terminal("\"x\"".to_string())]);
    let g = Sebnf {
        rules: vec![
            ("A".to_string(), vec![vec![rep()]]),
            ("B".to_string(), vec![vec![E::Terminal("\"b\"".to_string()), rep()]]),
        ],
    };
    let b = g.to_bnf();
    assert_eq!(names(&b.rules), vec!["A", "B", "___rep_0"]);
    assert_eq!(show_alts(&b.rules[0].1), vec![vec!["___rep_0"]]);
    assert_eq!(show_alts(&b.rules[1].1), vec![vec!["\"b\"", "___rep_0"]]);
}

#[test]
fn identical_optionals_and_choices_share_helpers() {
    let opt = || E::Optional(vec![E::Terminal("\"x\"".to_string())]);
    let choice = || {
        E::Choice(vec![
            vec![E::Terminal("\"a\"".to_string())],
            vec![E::Terminal("\"b\"".to_string()), opt()],
        ])
    };
    let g = Sebnf {
        rules: vec![
            ("S".to_string(), vec![vec![opt(), choice()], vec![choice()]]),
            ("T".to_string(), vec![vec![opt()]]),
        ],
    };
    let b = g.to_bnf();
    assert_eq!(names(&b.rules), vec!["S", "T", "___opt_0", "___choice_1"]);
    assert_eq!(show_alts(&b.rules[0].1), vec![vec!["___opt_0", "___choice_1"], vec!["___choice_1"]]);
    assert_eq!(show_alts(&b.rules[1].1), vec![vec!["___opt_0"]]);
    assert_eq!(show_alts(&b.rules[2].1), vec![vec!["\"x\""], vec![]]);
    assert_eq!(show_alts(&b.rules[3].1), vec![vec!["\"a\""], vec!["\"b\"", "___opt_0"]]);
}

#[test]
fn nested_constructs_are_lowered_bottom_up() {
    let g = Sebnf {
        rules: vec![(
            "S".to_string(),
            vec![vec![E::AnyAmount(vec![E::Optional(vec![E::Regex("/[a-z]+/".to_string())])])]],
        )],
    };
    let b = g.to_bnf();
    assert_eq!(names(&b.rules), vec!["S", "___opt_0", "___rep_1"]);
    assert_eq!(show_alts(&b.rules[2].1), vec![vec!["___opt_0", "___rep_1"], vec![]]);
}

#[test]
fn reserved_or_repeated_names_are_reported() {
    let g = Sebnf { rules: vec![("___x".to_string(), vec![vec![]])] };
    assert!(!g.names_ok());
    let g = Sebnf {
        rules: vec![("A".to_string(), vec![vec![]]), ("A".to_string(), vec![vec![]])],
    };
    assert!(!g.names_ok());
    let g = Sebnf { rules: vec![("_A".to_string(), vec![vec![]])] };
    assert!(g.names_ok());
}

fn tok(t: Token, i: usize) -> (Token, (usize, usize)) {
    (t, (i, i + 1))
}

#[test]
fn parses_rules_and_constructs() {
    // S := "a" [ B ] | ( C | D ) .
    let tokens = vec![
        tok(Token::NonTerminal("S".to_string()), 0),
        tok(Token::Assign, 1),
        tok(Token::Terminal("\"a\"".to_string()), 2),
        tok(Token::BracketSquareOpen, 3),
        tok(Token::NonTerminal("B".to_string()), 4),
        tok(Token::BracketSquareClose, 5),
        tok(Token::Separator, 6),
        tok(Token::NewLine, 7),
        tok(Token::BracketRoundOpen, 8),
        tok(Token::NonTerminal("C".to_string()), 9),
        tok(Token::Separator, 10),
        tok(Token::NonTerminal("D".to_string()), 11),
        tok(Token::BracketRoundClose, 12),
        tok(Token::Dot, 13),
    ];
    let g = Sebnf::parse(tokens, 14).unwrap();
    assert_eq!(g.rules.len(), 1);
    assert_eq!(g.rules[0].0, "S");
    let alts = &g.rules[0].1;
    assert_eq!(alts.len(), 2);
    assert!(matches!(alts[0][1], E::Optional(_)));
    match &alts[1][0] {
        E::Choice(c) => assert_eq!(c.len(), 2),
        _ => panic!("expected a choice"),
    }
    let b = g.to_bnf();
    assert_eq!(names(&b.rules), vec!["S", "___opt_0", "___choice_1"]);
}

#[test]
fn parenthesised_single_item_is_the_item() {
    let tokens = vec![
        tok(Token::NonTerminal("S".to_string()), 0),
        tok(Token::Assign, 1),
        tok(Token::BracketRoundOpen, 2),
        tok(Token::Terminal("\"a\"".to_string()), 3),
        tok(Token::BracketRoundClose, 4),
        tok(Token::Dot, 5),
    ];
    let g = Sebnf::parse(tokens, 6).unwrap();
    assert!(matches!(g.rules[0].1[0][0], E::Terminal(_)));
}

#[test]
fn repeated_rule_replaces_earlier_in_place() {
    let tokens = vec![
        tok(Token::NonTerminal("A".to_string()), 0),
        tok(Token::Assign, 1),
        tok(Token::Dot, 2),
        tok(Token::NonTerminal("B".to_string()), 3),
        tok(Token::Assign, 4),
        tok(Token::Dot, 5),
        tok(Token::NonTerminal("A".to_string()), 6),
        tok(Token::Assign, 7),
        tok(Token::Terminal("\"x\"".to_string()), 8),
        tok(Token::Dot, 9),
    ];
    let g = Sebnf::parse(tokens, 10).unwrap();
    assert_eq!(g.rules.len(), 2);
    assert_eq!(g.rules[0].0, "A");
    assert_eq!(g.rules[0].1[0].len(), 1);
}

#[test]
fn parse_errors() {
    let tokens = vec![tok(Token::Dot, 0)];
    match Sebnf::parse(tokens, 1) {
        Err(ParseError::ExpectedNonTerminal { found, span }) => {
            assert_eq!(found, "'.'");
            assert_eq!(span, (0, 1));
        }
        other => panic!("unexpected {:?}", other),
    }
    let tokens = vec![tok(Token::NonTerminal("A".to_string()), 0), tok(Token::Dot, 1)];
    match Sebnf::parse(tokens, 2) {
        Err(ParseError::UnexpectedToken { expected, found, .. }) => {
            assert_eq!(expected, "':='");
            assert_eq!(found, "'.'");
        }
        other => panic!("unexpected {:?}", other),
    }
    let tokens = vec![tok(Token::NonTerminal("A".to_string()), 0), tok(Token::Assign, 1)];
    match Sebnf::parse(tokens, 5) {
        Err(ParseError::UnexpectedEof { expected, span }) => {
            assert_eq!(expected, "'.'");
            assert_eq!(span, (5, 5));
        }
        other => panic!("unexpected {:?}", other),
    }
    assert_eq!(Sebnf::parse(vec![], 0).unwrap().rules.len(), 0);
}

#[test]
fn token_descriptions() {
    assert_eq!(Token::NonTerminal("A".to_string()).describe(), "non-terminal 'A'");
    assert_eq!(Token::Terminal("\"a\"".to_string()).describe(), "terminal \"\"a\"\"");
    assert_eq!(Token::BracketCurlyOpen.describe(), "'{'");
}

#[test]
fn newline_only_input_is_an_empty_grammar() {
    let tokens = vec![tok(Token::NewLine, 0), tok(Token::NewLine, 1)];
    let g = Sebnf::parse(tokens, 2).unwrap();
    assert!(g.rules.is_empty());
    assert!(g.to_bnf().rules.is_empty());
}

#[test]
fn desugaring_twice_gives_the_same_grammar() {
    let make = || Sebnf {
        rules: vec![(
            "S".to_string(),
            vec![vec![
                E::Optional(vec![E::Terminal("\"x\"".to_string())]),
                E::AnyAmount(vec![E::Choice(vec![
                    vec![E::NonTerminal("S".to_string())],
                    vec![E::Terminal("\"y\"".to_string()), E::Terminal("\"z\"".to_string())],
                ])]),
            ]],
        )],
    };
    let a = make().to_bnf();
    let b = make().to_bnf();
    assert_eq!(names(&a.rules), vec!["S", "___opt_0", "___choice_1", "___rep_2"]);
    assert_eq!(names(&a.rules), names(&b.rules));
    for (x, y) in a.rules.iter().zip(b.rules.iter()) {
        assert_eq!(show_alts(&x.1), show_alts(&y.1));
    }
    assert_eq!(show_alts(&a.rules[2].1), vec![vec!["S"], vec!["\"y\"", "\"z\""]]);
}

#[test]
fn plain_rules_parse() {
    let tokens = vec![
        tok(Token::NonTerminal("S".to_string()), 0),
        tok(Token::Assign, 1),
        tok(Token::Regex("/[a-z]+/".to_string()), 2),
        tok(Token::Separator, 3),
        tok(Token::Terminal("\"a\"".to_string()), 4),
        tok(Token::NonTerminal("S".to_string()), 5),
        tok(Token::Dot, 6),
        tok(Token::NonTerminal("T".to_string()), 7),
        tok(Token::Assign, 8),
        tok(Token::Dot, 9),
    ];
    let g = Sebnf::parse(tokens, 10).unwrap();
    assert_eq!(g.rules.len(), 2);
    assert_eq!(g.rules[0].1.len(), 2);
    assert_eq!(g.rules[1].1.len(), 1);
    assert!(g.rules[1].1[0].is_empty());
}
