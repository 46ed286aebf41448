use padd::fmt::InjectionAffinity;
use padd::parse::grammar::{
    BuildError, EncodedGrammarBuilder, Grammar, GrammarBuilder, SimpleGrammarBuilder,
};
use padd::parse::{Production, ProductionSymbol};

fn s(x: &str) -> String {
    x.to_string()
}

#[test]
fn nullable_symbols() {
    let mut builder: SimpleGrammarBuilder<String> = SimpleGrammarBuilder::new();
    builder.try_mark_start(&s("S"));
    builder.from(s("S")).to(vec![s("A"), s("B")]).to(vec![s("x")]);
    builder.from(s("A")).epsilon().to(vec![s("a")]);
    builder.from(s("B")).to(vec![s("A"), s("A")]);
    builder.from(s("C")).to(vec![s("C"), s("c")]);

    let grammar = builder.build().unwrap();

    assert!(grammar.is_nullable_nt(&s("A")));
    assert!(grammar.is_nullable_nt(&s("B")));
    assert!(grammar.is_nullable_nt(&s("S")));
    assert!(!grammar.is_nullable_nt(&s("C")));
    assert!(!grammar.is_nullable_nt(&s("a")));
}

#[test]
fn terminals_and_non_terminals() {
    let mut builder: SimpleGrammarBuilder<String> = SimpleGrammarBuilder::new();
    builder.try_mark_start(&s("S"));
    builder.from(s("S")).to(vec![s("A"), s("b")]);
    builder.from(s("A")).to(vec![s("a")]).epsilon();

    let grammar = builder.build().unwrap();

    assert!(grammar.is_non_terminal(&s("S")));
    assert!(grammar.is_non_terminal(&s("A")));
    assert!(!grammar.is_non_terminal(&s("a")));
    let mut terminals = grammar.terminals().clone();
    terminals.sort();
    assert_eq!(terminals, vec![s("a"), s("b")]);
    assert_eq!(grammar.start(), &s("S"));
    assert_eq!(grammar.productions_for_lhs(&s("A")).unwrap().len(), 2);
    assert!(grammar.productions_for_lhs(&s("a")).is_none());
    assert!(!grammar.weighted_parse());
}

#[test]
fn optional_state_and_marks() {
    let mut builder: SimpleGrammarBuilder<String> = SimpleGrammarBuilder::new();
    builder.try_mark_start(&s("S"));
    builder.try_mark_start(&s("T"));
    builder.from(s("S")).to(vec![s("opt"), s("x")]);
    builder.add_optional_state(&s("opt"), &s("y"));
    builder.mark_ignorable(&s("ws"));
    builder.mark_injectable(&s("comment"), InjectionAffinity::Left);
    builder.mark_injectable(&s("comment"), InjectionAffinity::Right);

    let grammar = builder.build().unwrap();

    assert_eq!(grammar.start(), &s("S"));
    assert!(grammar.is_nullable_nt(&s("opt")));
    assert!(grammar.is_ignorable(&s("ws")));
    assert!(grammar.is_injectable(&s("comment")));
    assert_eq!(grammar.injection_affinity(&s("comment")), Some(&InjectionAffinity::Right));
    assert!(grammar.weighted_parse());
}

#[test]
fn build_errors() {
    let mut builder: SimpleGrammarBuilder<String> = SimpleGrammarBuilder::new();
    builder.try_mark_start(&s("S"));
    builder.from(s("S")).to(vec![s("x")]);
    builder.mark_ignorable(&s("S"));
    match builder.build() {
        Err(BuildError::NonTerminalIgnoredErr(name)) => assert_eq!(name, "S"),
        _ => panic!("expected an ignored non-terminal"),
    }

    let mut builder: SimpleGrammarBuilder<String> = SimpleGrammarBuilder::new();
    builder.try_mark_start(&s("S"));
    builder.from(s("S")).to(vec![s("x")]);
    builder.mark_injectable(&s("S"), InjectionAffinity::Left);
    match builder.build() {
        Err(BuildError::NonTerminalInjectedErr(name)) => assert_eq!(name, "S"),
        _ => panic!("expected an injected non-terminal"),
    }

    let mut builder: SimpleGrammarBuilder<String> = SimpleGrammarBuilder::new();
    builder.try_mark_start(&s("S"));
    builder.from(s("S")).to(vec![s("x")]);
    builder.mark_ignorable(&s("y"));
    builder.mark_injectable(&s("y"), InjectionAffinity::Left);
    let err = builder.build().err().unwrap();
    assert_eq!(err.message(), "Symbol 'y' is both ignored and injected");
}

#[test]
fn encoded_grammar() {
    let mut builder: EncodedGrammarBuilder<String> = EncodedGrammarBuilder::new();
    builder.try_mark_start(&s("S"));
    let prod = builder.add_production(Production::from(
        s("S"),
        vec![ProductionSymbol::symbol(s("A")), ProductionSymbol::symbol_list(s("b"))],
    ));
    builder.add_production(Production::epsilon(s("A")));
    assert_eq!(prod.lhs, 0);
    assert_eq!(prod.rhs[0].symbol, 1);
    assert_eq!(prod.rhs[1].symbol, 2);
    assert!(prod.rhs[1].is_list);
    assert_eq!(builder.kind_for(&s("b")), 2);

    let grammar = builder.build().unwrap();
    assert_eq!(*grammar.start(), 0);
    assert!(grammar.is_nullable_nt(&1));
    assert!(!grammar.is_nullable_nt(&0));
    assert_eq!(grammar.symbol_string(&2), "b");
    assert_eq!(prod.decode(&grammar).rhs[1].symbol, "b");
}
