use padd::data::Data;
use padd::fmt::pattern::PatternSymbol;
use padd::fmt::{FormatterBuilder, InjectableString, InjectionAffinity, PatternPair};
use padd::lex::Token;
use padd::parse::grammar::{GrammarBuilder, SimpleGrammarBuilder};
use padd::parse::{def_parser, Parser, Production, ProductionSymbol, Tree};

fn s(x: &str) -> String {
    x.to_string()
}

fn production(lhs: &str, rhs: &[&str]) -> Production<String> {
    Production::from(
        s(lhs),
        rhs.iter().map(|sym| ProductionSymbol::symbol(s(sym))).collect(),
    )
}

fn pair(lhs: &str, rhs: &[&str], pattern: &str) -> PatternPair<String> {
    PatternPair {
        production: production(lhs, rhs),
        string_production: production(lhs, rhs),
        pattern: s(pattern),
    }
}

fn parse_two(injectable: Option<InjectionAffinity>, tokens: &[(&str, &str)]) -> Tree<String> {
    let mut builder: SimpleGrammarBuilder<String> = SimpleGrammarBuilder::new();
    builder.try_mark_start(&s("s"));
    builder.add_production(production("s", &["a", "b"]));
    builder.add_production(production("a", &["A"]));
    builder.add_production(production("b", &["B"]));
    if let Some(affinity) = injectable {
        builder.mark_injectable(&s("C"), affinity);
    }
    let grammar = builder.build().unwrap();
    let lex = tokens.iter().map(|(k, l)| Token::leaf(s(k), s(l))).collect();
    def_parser().parse(lex, &grammar).unwrap()
}

#[test]
fn format_without_patterns_concatenates_lexemes() {
    let tree = parse_two(None, &[("A", "x"), ("B", "y")]);
    let formatter = FormatterBuilder::<String>::new().build();
    assert_eq!(formatter.format(&tree), "xy");
}

#[test]
fn format_pattern_reorders_children() {
    let tree = parse_two(None, &[("A", "x"), ("B", "y")]);
    let mut builder = FormatterBuilder::new();
    builder.add_pattern(pair("s", &["a", "b"], "{1}-{0}")).unwrap();
    let formatter = builder.build();
    assert_eq!(formatter.format(&tree), "y-x");
}

#[test]
fn format_auto_indexed_captures() {
    let tree = parse_two(None, &[("A", "x"), ("B", "y")]);
    let mut builder = FormatterBuilder::new();
    builder.add_pattern(pair("s", &["a", "b"], "<{}|{}>")).unwrap();
    let formatter = builder.build();
    assert_eq!(formatter.format(&tree), "<x|y>");
}

#[test]
fn format_declarations_and_substitutions() {
    let tree = parse_two(None, &[("A", "x"), ("B", "y")]);
    let mut builder = FormatterBuilder::new();
    builder.add_pattern(pair("s", &["a", "b"], "{0;sep=-}{1;sep=+}")).unwrap();
    builder.add_pattern(pair("a", &["A"], "[sep]{0}")).unwrap();
    builder.add_pattern(pair("b", &["B"], "[sep]{0}")).unwrap();
    let formatter = builder.build();
    assert_eq!(formatter.format(&tree), "-x+y");
}

#[test]
fn format_repeated_pattern_string() {
    let tree = parse_two(None, &[("A", "x"), ("B", "y")]);
    let mut builder = FormatterBuilder::new();
    builder.add_pattern(pair("a", &["A"], "({0})")).unwrap();
    builder.add_pattern(pair("b", &["B"], "({0})")).unwrap();
    let formatter = builder.build();
    assert_eq!(formatter.format(&tree), "(x)(y)");
}

#[test]
fn format_injection_left_affinity() {
    let tree = parse_two(
        Some(InjectionAffinity::Left),
        &[("A", "x"), ("C", "c"), ("B", "y")],
    );
    let mut builder = FormatterBuilder::new();
    builder.add_pattern(pair("s", &["a", "b"], "{0} {1}")).unwrap();
    builder
        .add_injection(InjectableString {
            terminal: s("C"),
            terminal_string: s("C"),
            pattern_string: None,
            affinity: InjectionAffinity::Left,
        })
        .unwrap();
    let formatter = builder.build();
    assert_eq!(formatter.format(&tree), "xc y");
}

#[test]
fn format_injection_with_pattern() {
    let tree = parse_two(
        Some(InjectionAffinity::Left),
        &[("A", "x"), ("C", "c"), ("B", "y")],
    );
    let mut builder = FormatterBuilder::new();
    builder.add_pattern(pair("s", &["a", "b"], "{0} {1}")).unwrap();
    builder
        .add_injection(InjectableString {
            terminal: s("C"),
            terminal_string: s("C"),
            pattern_string: Some(s("/*{0}*/")),
            affinity: InjectionAffinity::Left,
        })
        .unwrap();
    let formatter = builder.build();
    assert_eq!(formatter.format(&tree), "x/*c*/ y");
}

#[test]
fn duplicate_injection_error() {
    let mut builder: FormatterBuilder<String> = FormatterBuilder::new();
    let injection = || InjectableString {
        terminal: s("C"),
        terminal_string: s("C"),
        pattern_string: None,
        affinity: InjectionAffinity::Right,
    };
    builder.add_injection(injection()).unwrap();
    let res = builder.add_injection(injection());
    assert_eq!(
        res.err().unwrap().message(),
        "Injection specified multiple times for symbol 'C'"
    );
}

#[test]
fn pattern_build_error_in_formatter() {
    let mut builder: FormatterBuilder<String> = FormatterBuilder::new();
    let res = builder.add_pattern(pair("s", &["a", "b"], "{"));
    assert_eq!(
        res.err().unwrap().message(),
        "Pattern build error: Pattern parse error: Recognition failed after consuming all tokens"
    );
}

#[test]
fn pattern_symbol_names() {
    assert_eq!(PatternSymbol::CaptureDescriptor.to_string(), "CaptureDescriptor");
    assert_eq!(PatternSymbol::default(), PatternSymbol::Pattern);
}
