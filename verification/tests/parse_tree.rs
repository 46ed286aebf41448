use padd::data::Data;
use padd::lex::Token;
use padd::parse::grammar::{GrammarBuilder, SimpleGrammarBuilder};
use padd::parse::{def_parser, Parser, Production, ProductionSymbol, SymbolParseMethod, Tree};

#[test]
fn null_tree_renders_null_token() {
    let tree: Tree<String> = Tree::null();
    assert_eq!(tree.to_string(), "\u{2514}\u{2500}\u{2500}  <- 'NULL'");
}

#[test]
fn leaf_token_renders_kind_and_escaped_lexeme() {
    let token = Token::leaf("kind".to_string(), "a\nb".to_string());
    assert_eq!(Data::to_string(&token), "kind <- 'a\\nb'");
    assert_eq!(Data::to_string(&Token::<String>::null()), " <- 'NULL'");
}

#[test]
fn numbers_render_in_decimal() {
    assert_eq!(Data::to_string(&0usize), "0");
    assert_eq!(Data::to_string(&7usize), "7");
    assert_eq!(Data::to_string(&1024usize), "1024");
}

#[test]
fn string_production_renders_each_symbol() {
    let prod = Production::from(
        7usize,
        vec![ProductionSymbol::symbol(12usize), ProductionSymbol::symbol_list(3usize)],
    );
    let strings = prod.string_production();
    assert_eq!(strings.lhs, "7");
    assert_eq!(strings.rhs[0].symbol, "12");
    assert!(strings.rhs[1].is_list);
    assert_eq!(Data::to_string(&prod), "7 12 3");
}

#[test]
fn decode_keeps_shape_and_lexemes() {
    let mut grammar_builder = SimpleGrammarBuilder::new();
    grammar_builder.add_production(Production::from(
        "S".to_string(),
        vec![ProductionSymbol::symbol("x".to_string())],
    ));
    grammar_builder.try_mark_start(&"S".to_string());
    let grammar = grammar_builder.build().unwrap();
    let tree = def_parser()
        .parse(vec![Token::leaf("x".to_string(), "abc".to_string())], &grammar)
        .unwrap();
    let decoded = tree.decode(&grammar);
    assert_eq!(decoded.children.len(), tree.children.len());
    assert_eq!(decoded.spm, SymbolParseMethod::Standard);
    assert_eq!(decoded.lhs.kind(), "S");
    assert_eq!(decoded.children[0].lhs.lexeme(), "abc");
    assert!(decoded.production.is_some());
}
