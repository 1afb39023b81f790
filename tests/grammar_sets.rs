use formalgrammar::{CharSets, Grammar, GrammarError, GrammarParser, Symbol, END_MARKER, EPSILON};

fn parse(lines: &[&str]) -> Grammar {
    let mut parser = GrammarParser::new();
    for line in lines {
        parser.parse_line(line.to_string()).unwrap();
    }
    parser.finish()
}

fn set_of(sets: &CharSets, name: &str) -> Vec<char> {
    let mut v = sets.get(name).expect("state present");
    v.sort();
    v
}

fn sorted(mut v: Vec<char>) -> Vec<char> {
    v.sort();
    v
}

fn index(g: &Grammar, name: &str) -> usize {
    g.find_state(&name.to_string()).expect("state present")
}

#[test]
fn example_nullable_tail() {
    let g = parse(&["<S> ::= a<A>", "<A> ::= b | <>"]);
    let first = g.first_set();
    let follow = g.follow_set();
    assert_eq!(set_of(&first, "A"), sorted(vec!['b', EPSILON]));
    assert_eq!(set_of(&first, "S"), vec!['a']);
    assert_eq!(set_of(&follow, "S"), vec![END_MARKER]);
    assert_eq!(set_of(&follow, "A"), vec![END_MARKER]);
}

#[test]
fn example_nullable_prefix() {
    let g = parse(&["<S> ::= <A>b<B>", "<A> ::= a | <>", "<B> ::= c"]);
    let first = g.first_set();
    let follow = g.follow_set();
    assert_eq!(set_of(&first, "S"), vec!['a', 'b']);
    assert_eq!(set_of(&follow, "A"), vec!['b']);
    assert_eq!(set_of(&follow, "B"), vec![END_MARKER]);
}

#[test]
fn empty_input() {
    let g = GrammarParser::new().finish();
    assert_eq!(g.state_count(), 1);
    assert_eq!(g.state_name(0), "S");
    assert_eq!(g.rule_count(0), 0);
    assert!(!g.accepts_empty(0));
    assert_eq!(set_of(&g.first_set(), "S"), Vec::<char>::new());
    assert_eq!(set_of(&g.follow_set(), "S"), vec![END_MARKER]);
}

#[test]
fn epsilon_alternative() {
    let g = parse(&["<A> ::= a<B> | <>"]);
    let a = index(&g, "A");
    assert!(g.accepts_empty(a));
    assert!(g.first_set().contains("A", EPSILON));
}

#[test]
fn redeclaring_discards_rules() {
    let g = parse(&["<A> ::= a | <>", "<A> ::= b"]);
    let a = index(&g, "A");
    assert!(!g.accepts_empty(a));
    assert_eq!(g.rule_count(a), 1);
    assert_eq!(g.rule(a, 0), &vec![Symbol::Terminal("b".to_string())]);
}

#[test]
fn create_state_trims_and_overwrites() {
    let mut g = Grammar::new();
    g.create_state("  T ".to_string());
    let t = index(&g, "T");
    g.add_rule_to(&"T".to_string(), vec![Symbol::Terminal("x".to_string())]).unwrap();
    assert_eq!(g.rule_count(t), 1);
    g.create_state("T".to_string());
    assert_eq!(g.rule_count(t), 0);
    assert_eq!(g.state_count(), 2);
}

#[test]
fn add_rule_to_unknown_state() {
    let mut g = Grammar::new();
    let r = g.add_rule_to(&"X".to_string(), vec![Symbol::Terminal("x".to_string())]);
    match r {
        Err(GrammarError::NoSuchState(name)) => assert_eq!(name, "X"),
        Ok(()) => panic!("expected an error"),
    }
    assert_eq!(g.state_count(), 1);
}

#[test]
fn duplicate_rules_collapse() {
    let mut g = Grammar::new();
    let rule = vec![Symbol::Terminal("a".to_string()), Symbol::NonTerminal("S".to_string())];
    g.add_rule_to(&"S".to_string(), rule.clone()).unwrap();
    g.add_rule_to(&"S".to_string(), rule.clone()).unwrap();
    assert_eq!(g.rule_count(0), 1);
    assert_eq!(g.rule(0, 0), &rule);
}

#[test]
fn parser_reads_symbols() {
    let g = parse(&["<S> ::= ab <A> c|<B>", "<A> ::= x", "<B> ::= y"]);
    let s = index(&g, "S");
    assert_eq!(g.rule_count(s), 2);
    assert_eq!(
        g.rule(s, 0),
        &vec![
            Symbol::Terminal("ab".to_string()),
            Symbol::NonTerminal("A".to_string()),
            Symbol::Terminal("c".to_string()),
        ]
    );
    assert_eq!(g.rule(s, 1), &vec![Symbol::NonTerminal("B".to_string())]);
}

#[test]
fn line_without_declaration_fails() {
    let mut parser = GrammarParser::new();
    assert!(parser.parse_line("no declaration here".to_string()).is_ok());
    assert!(parser.parse_line("<S".to_string()).is_err());
    let g = parser.finish();
    assert_eq!(g.rule_count(0), 0);
}

#[test]
fn first_and_follow_twice_agree() {
    let g = parse(&["<S> ::= <A>b<B>", "<A> ::= a | <>", "<B> ::= c<S> | d"]);
    for name in ["S", "A", "B"] {
        assert_eq!(set_of(&g.first_set(), name), set_of(&g.first_set(), name));
        assert_eq!(set_of(&g.follow_set(), name), set_of(&g.follow_set(), name));
    }
    assert!(g.follow_set().contains("S", END_MARKER));
}

#[test]
fn follow_of_initial_has_end_marker() {
    let g = parse(&["<S> ::= x<S>y | z"]);
    assert_eq!(set_of(&g.follow_set(), "S"), vec![END_MARKER, 'y']);
    assert_eq!(set_of(&g.first_set(), "S"), vec!['x', 'z']);
}

#[test]
fn symbol_kinds() {
    assert!(Symbol::Terminal("a".to_string()).is_terminal());
    assert!(!Symbol::Terminal("a".to_string()).is_nonterminal());
    assert!(Symbol::NonTerminal("A".to_string()).is_nonterminal());
    assert!(!Symbol::NonTerminal("A".to_string()).is_terminal());
}

#[test]
fn trimmed_strips_whitespace() {
    assert_eq!(formalgrammar::text::trimmed("  a b \t"), "a b");
    assert_eq!(formalgrammar::text::trimmed("   "), "");
}

#[test]
fn charsets_list_every_state_in_order() {
    let g = parse(&["<S> ::= <B>", "<B> ::= x"]);
    let first = g.first_set();
    assert_eq!(first.len(), 2);
    assert_eq!(first.name(0), "S");
    assert_eq!(first.name(1), "B");
    assert_eq!(first.chars(1), &vec!['x']);
    assert!(first.get("Z").is_none());
    assert!(!first.contains("Z", 'x'));
}

#[test]
fn parser_shows_grammar_while_reading() {
    let mut parser = GrammarParser::new();
    parser.parse_line("<S> ::= a".to_string()).unwrap();
    assert_eq!(parser.get_grammar().rule_count(0), 1);
    parser.parse_line("<T> ::= b".to_string()).unwrap();
    assert_eq!(parser.get_grammar().state_count(), 2);
    assert_eq!(parser.finish().state_count(), 2);
}

#[test]
fn colons_and_equals_after_the_separator_are_text() {
    let g = parse(&["<S>::=a:b=c"]);
    assert_eq!(g.rule(0, 0), &vec![Symbol::Terminal("a:b=c".to_string())]);
    let g = parse(&["<A> ::= a:b=c"]);
    let a = index(&g, "A");
    assert_eq!(g.rule(a, 0), &vec![Symbol::Terminal("a:b=c".to_string())]);
    let g = parse(&["<S> : = x"]);
    assert_eq!(g.rule(0, 0), &vec![Symbol::Terminal("x".to_string())]);
}

#[test]
fn rule_without_symbols_adds_no_epsilon() {
    let mut g = Grammar::new();
    g.add_rule_to(&"S".to_string(), vec![]).unwrap();
    assert!(!g.first_set().contains("S", EPSILON));
    assert_eq!(set_of(&g.first_set(), "S"), Vec::<char>::new());
}

#[test]
fn error_names_the_current_state() {
    let mut parser = GrammarParser::new();
    match parser.parse_line("<S".to_string()) {
        Err(GrammarError::NoSuchState(name)) => assert_eq!(name, ""),
        Ok(()) => panic!("expected an error"),
    }
}

#[test]
fn undeclared_reference_adds_nothing() {
    let g = parse(&["<S> ::= <Q>a"]);
    assert_eq!(set_of(&g.first_set(), "S"), Vec::<char>::new());
    assert!(g.first_set().get("Q").is_none());
    assert_eq!(set_of(&g.follow_set(), "S"), vec![END_MARKER]);
}

#[test]
fn trimmed_agrees_with_str_trim() {
    for s in ["\u{a0}x\u{3000}", "\u{2003} a b \u{85}", "\r\n\tq\u{202f}", "\u{200b}z\u{200b}", ""] {
        assert_eq!(formalgrammar::text::trimmed(s), s.trim());
    }
}
