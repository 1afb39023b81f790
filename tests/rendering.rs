use formalgrammar::{Grammar, GrammarError, GrammarParser, EPSILON, END_MARKER};

fn parse(lines: &[&str]) -> Grammar {
    let mut parser = GrammarParser::new();
    for line in lines {
        parser.parse_line(line.to_string()).unwrap();
    }
    parser.finish()
}

#[test]
fn renders_initial_first_then_by_name() {
    let g = parse(&["<S> ::= <B> | x<A>", "<B> ::= x", "<A> ::= y | <>"]);
    assert_eq!(g.to_string(), "<S> ::= <B> | x<A>\n<A> ::= y | <>\n<B> ::= x\n");
}

#[test]
fn renders_empty_grammar() {
    assert_eq!(Grammar::new().to_string(), "<S> ::= \n");
}

#[test]
fn renders_nullable_state_without_rules() {
    let g = parse(&["<S> ::= <>"]);
    assert_eq!(g.to_string(), "<S> ::=  | <>\n");
}

#[test]
fn round_trip_keeps_states_rules_and_flags() {
    let g = parse(&["<S> ::= a<A> | <B>c", "<A> ::= b | <>", "<B> ::= d<S>"]);
    let text = g.to_string();
    let again = Grammar::from_source(&text).unwrap();
    assert_eq!(again.to_string(), text);
    assert_eq!(again.state_count(), g.state_count());
}

#[test]
fn from_source_splits_lines() {
    let g = Grammar::from_source("<S> ::= a<A>\r\n<A> ::= b | <>\n").unwrap();
    let first = g.first_set();
    let mut a = first.get("A").unwrap();
    a.sort();
    let mut expected = vec!['b', EPSILON];
    expected.sort();
    assert_eq!(a, expected);
    assert_eq!(first.get("S").unwrap(), vec!['a']);
    assert_eq!(g.follow_set().get("A").unwrap(), vec![END_MARKER]);
}

#[test]
fn from_source_reports_undeclared_target() {
    match Grammar::from_source("<S") {
        Err(GrammarError::NoSuchState(name)) => assert_eq!(name, ""),
        Ok(_) => panic!("expected an error"),
    }
}

#[test]
fn from_source_of_empty_text() {
    let g = Grammar::from_source("").unwrap();
    assert_eq!(g.state_count(), 1);
    assert_eq!(g.to_string(), "<S> ::= \n");
}

#[test]
fn round_trip_of_states_without_rules() {
    let g = parse(&["<S> ::= <>", "<A> ::= "]);
    let text = g.to_string();
    assert_eq!(text, "<S> ::=  | <>\n<A> ::= \n");
    let again = Grammar::from_source(&text).unwrap();
    assert_eq!(again.to_string(), text);
    assert!(again.accepts_empty(0));
    assert_eq!(again.rule_count(0), 0);
}

#[test]
fn adjacent_terminals_merge_when_read_back() {
    let mut g = Grammar::new();
    g.add_rule_to(
        &"S".to_string(),
        vec![formalgrammar::Symbol::Terminal("a".to_string()), formalgrammar::Symbol::Terminal("b".to_string())],
    )
    .unwrap();
    let again = Grammar::from_source(&g.to_string()).unwrap();
    assert_eq!(again.rule(0, 0), &vec![formalgrammar::Symbol::Terminal("ab".to_string())]);
}

#[test]
fn round_trip_keeps_inner_spaces() {
    let g = parse(&["<S> ::= a b<My State> | x:y", "<My State> ::= c d | <>"]);
    let text = g.to_string();
    assert_eq!(text, "<S> ::= a b<My State> | x:y\n<My State> ::= c d | <>\n");
    let again = Grammar::from_source(&text).unwrap();
    assert_eq!(again.to_string(), text);
}
