use ebnf_set_calc::bnf::{Bnf, Item};
use ebnf_set_calc::sets::{
    find_set_conflicts, first_of_sequence, format_production, Ll1ConflictKind, Ll1Error, SetItem,
};

fn nt(s: &str) -> Item {
    Item::NonTerminal(s.to_string())
}

fn t(s: &str) -> Item {
    Item::Terminal(format!("\"{}\"", s))
}

fn re(s: &str) -> Item {
    Item::Regex(format!("/{}/", s))
}

fn rule(name: &str, alts: Vec<Vec<Item>>) -> (String, Vec<Vec<Item>>) {
    (name.to_string(), alts)
}

fn render(x: &SetItem) -> String {
    match x {
        SetItem::Terminal(s) => s.clone(),
        SetItem::Regex(s) => s.clone(),
        SetItem::Epsilon => "ε".to_string(),
        SetItem::EndOfInput => "$".to_string(),
    }
}

fn set_of(table: &[(String, Vec<SetItem>)], name: &str) -> Vec<String> {
    let mut v: Vec<String> = table
        .iter()
        .find(|(n, _)| n == name)
        .map(|(_, s)| s.iter().map(render).collect())
        .unwrap_or_default();
    v.sort();
    v
}

fn expression_grammar() -> Bnf {
    Bnf {
        rules: vec![
            rule("E", vec![vec![nt("T"), nt("E'")]]),
            rule("E'", vec![vec![t("+"), nt("T"), nt("E'")], vec![]]),
            rule("T", vec![vec![nt("F"), nt("T'")]]),
            rule("T'", vec![vec![t("*"), nt("F"), nt("T'")], vec![]]),
            rule("F", vec![vec![t("("), nt("E"), t(")")], vec![re("[0-9]+")]]),
        ],
    }
}

#[test]
fn classic_expression_grammar_is_ll1() {
    let g = expression_grammar();
    let result = g.is_ll1().unwrap();
    assert!(result.is_ll1());
    assert!(result.conflicts.is_empty());
    let sets = g.first_and_follow_sets();
    let first_e = set_of(&sets.first, "E");
    assert!(first_e.contains(&"\"(\"".to_string()));
    assert!(first_e.contains(&"/[0-9]+/".to_string()));
    let first_e2 = set_of(&sets.first, "E'");
    assert!(first_e2.contains(&"\"+\"".to_string()));
    assert!(first_e2.contains(&"ε".to_string()));
    let follow_e = set_of(&sets.follow, "E");
    assert!(follow_e.contains(&"$".to_string()));
    assert!(follow_e.contains(&"\")\"".to_string()));
}

#[test]
fn classic_expression_grammar_exact_sets() {
    let sets = expression_grammar().first_and_follow_sets();
    assert_eq!(set_of(&sets.first, "E"), vec!["\"(\"", "/[0-9]+/"]);
    assert_eq!(set_of(&sets.first, "T'"), vec!["\"*\"", "ε"]);
    assert_eq!(set_of(&sets.follow, "E"), vec!["\")\"", "$"]);
    assert_eq!(set_of(&sets.follow, "T"), vec!["\")\"", "\"+\"", "$"]);
    assert_eq!(set_of(&sets.follow, "F"), vec!["\")\"", "\"*\"", "\"+\"", "$"]);
}

#[test]
fn first_first_conflict_on_shared_prefix() {
    let g = Bnf {
        rules: vec![rule("S", vec![vec![t("a"), nt("B")], vec![t("a"), nt("C")]])],
    };
    let result = g.is_ll1().unwrap();
    assert!(!result.is_ll1());
    assert_eq!(result.conflicts.len(), 1);
    let c = &result.conflicts[0];
    assert_eq!(c.non_terminal, "S");
    assert!(matches!(c.kind, Ll1ConflictKind::FirstFirst { .. }));
    assert_eq!(c.conflicts.len(), 1);
    assert_eq!(c.conflicts[0].witness, Some("a".to_string()));
}

#[test]
fn first_follow_conflict_through_regex() {
    let g = Bnf {
        rules: vec![
            rule("S", vec![vec![nt("A"), t("x")]]),
            rule("A", vec![vec![re("[a-z]+")], vec![]]),
        ],
    };
    let result = g.is_ll1().unwrap();
    assert_eq!(result.conflicts.len(), 1);
    let c = &result.conflicts[0];
    assert_eq!(c.non_terminal, "A");
    match &c.kind {
        Ll1ConflictKind::FirstFollow { nullable_production, other_production } => {
            assert!(nullable_production.is_empty());
            assert_eq!(other_production.len(), 1);
        }
        _ => panic!("expected a FIRST/FOLLOW conflict"),
    }
    assert_eq!(c.conflicts[0].witness, Some("x".to_string()));
}

#[test]
fn regex_against_literal_conflict() {
    let g = Bnf {
        rules: vec![rule("S", vec![vec![re("[a-z]+")], vec![t("hello")]])],
    };
    let result = g.is_ll1().unwrap();
    assert_eq!(result.conflicts.len(), 1);
    let c = &result.conflicts[0];
    assert!(matches!(c.kind, Ll1ConflictKind::FirstFirst { .. }));
    assert_eq!(c.conflicts[0].witness, Some("hello".to_string()));
}

#[test]
fn single_production_grammar_is_ll1() {
    let g = Bnf {
        rules: vec![
            rule("S", vec![vec![nt("A"), re("[a-z]+"), t("x")]]),
            rule("A", vec![vec![t("x"), re("x*")]]),
        ],
    };
    let result = g.is_ll1().unwrap();
    assert!(result.is_ll1());
}

#[test]
fn start_follow_holds_end_of_input() {
    let g = Bnf {
        rules: vec![rule("S", vec![vec![t("a"), nt("S")], vec![]])],
    };
    let sets = g.first_and_follow_sets();
    assert_eq!(set_of(&sets.follow, "S"), vec!["$"]);
    assert_eq!(set_of(&sets.first, "S"), vec!["\"a\"", "ε"]);
}

#[test]
fn invalid_regex_in_grammar_is_an_error() {
    let g = Bnf {
        rules: vec![rule("S", vec![vec![re("[a-")], vec![re("b")]])],
    };
    match g.is_ll1() {
        Err(Ll1Error::InvalidRegex { pattern, .. }) => assert_eq!(pattern, "/[a-/ or /b/"),
        _ => panic!("expected an invalid regex error"),
    }
}

#[test]
fn literal_is_escaped_before_matching_regex() {
    // "a+" as a literal is the two characters 'a' and '+', which /a+/ does not match.
    let g = Bnf {
        rules: vec![rule("S", vec![vec![re("a+")], vec![t("a+")]])],
    };
    assert!(g.is_ll1().unwrap().is_ll1());
    let g = Bnf {
        rules: vec![rule("S", vec![vec![re("a\\+")], vec![t("a+")]])],
    };
    let result = g.is_ll1().unwrap();
    assert_eq!(result.conflicts[0].conflicts[0].witness, Some("a+".to_string()));
}

#[test]
fn first_of_sequence_skips_nullable_prefix() {
    let table = vec![
        ("A".to_string(), vec![SetItem::Terminal("\"a\"".to_string()), SetItem::Epsilon]),
        ("B".to_string(), vec![SetItem::Regex("/b/".to_string())]),
    ];
    let (f, nullable) = first_of_sequence(&[nt("A"), nt("B"), t("c")], &table);
    let mut v: Vec<String> = f.iter().map(render).collect();
    v.sort();
    assert_eq!(v, vec!["\"a\"", "/b/"]);
    assert!(!nullable);
    let (f, nullable) = first_of_sequence(&[nt("A"), nt("A")], &table);
    assert_eq!(f.len(), 1);
    assert!(nullable);
    let (f, nullable) = first_of_sequence(&[], &table);
    assert!(f.is_empty());
    assert!(nullable);
}

#[test]
fn set_conflicts_cover_all_kinds() {
    let s1 = vec![
        SetItem::Terminal("\"if\"".to_string()),
        SetItem::Epsilon,
        SetItem::EndOfInput,
        SetItem::Regex("/[0-9]+/".to_string()),
    ];
    let s2 = vec![
        SetItem::EndOfInput,
        SetItem::Terminal("\"if\"".to_string()),
        SetItem::Regex("/[5-9]/".to_string()),
        SetItem::Epsilon,
    ];
    let cs = find_set_conflicts(&s1, &s2).unwrap();
    assert_eq!(cs.len(), 4);
    assert_eq!(cs[0].witness, Some("if".to_string()));
    assert_eq!(cs[1].witness, None);
    assert_eq!(cs[2].witness, None);
    assert_eq!(cs[3].witness, Some("5".to_string()));
    let none = find_set_conflicts(&s1, &vec![SetItem::Terminal("\"else\"".to_string())]).unwrap();
    assert!(none.is_empty());
}

#[test]
fn production_and_item_texts() {
    assert_eq!(format_production(&vec![]), "ε");
    assert_eq!(format_production(&vec![t("+"), nt("T"), re("[0-9]+")]), "\"+\" T /[0-9]+/");
    assert_eq!(SetItem::Terminal("\"if\"".to_string()).text(), "if");
    assert_eq!(SetItem::Terminal("\"if".to_string()).text(), "\"if");
    assert_eq!(SetItem::Regex("/a/".to_string()).text(), "/a/");
    assert_eq!(SetItem::EndOfInput.text(), "$");
}
