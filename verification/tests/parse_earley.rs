use padd::fmt::InjectionAffinity;
use padd::lex::Token;
use padd::parse::grammar::{GrammarBuilder, SimpleGrammarBuilder};
use padd::parse::{def_parser, Parser, Production, ProductionSymbol};

#[test]
fn parse_example() {
    //setup
    let mut grammar_builder = SimpleGrammarBuilder::new();
    add_productions(
        &["Sentence Noun Verb", "Noun mary", "Verb runs"],
        &mut grammar_builder,
    );
    grammar_builder.try_mark_start(&"Sentence".to_string());
    let grammar = grammar_builder.build().unwrap();

    let lex = vec![
        Token::leaf("mary".to_string(), "Hello".to_string()),
        Token::leaf("runs".to_string(), "World!".to_string()),
    ];

    let parser = def_parser();

    //exercise
    let tree = parser.parse(lex, &grammar);

    //verify
    assert_eq!(
        tree.unwrap().to_string(),
        "└── Sentence
    ├── Noun
    │   └── mary <- 'Hello'
    └── Verb
        └── runs <- 'World!'"
    );
}

#[test]
fn parse_simple() {
    //setup
    let mut grammar_builder = SimpleGrammarBuilder::new();
    add_productions(&["S BOF A EOF", "A x", "A A x"], &mut grammar_builder);
    grammar_builder.try_mark_start(&"S".to_string());
    let grammar = grammar_builder.build().unwrap();

    let lex = vec![
        Token::leaf("BOF".to_string(), "a".to_string()),
        Token::leaf("x".to_string(), "b".to_string()),
        Token::leaf("EOF".to_string(), "c".to_string()),
    ];

    let parser = def_parser();

    //exercise
    let tree = parser.parse(lex, &grammar);

    //verify
    assert_eq!(
        tree.unwrap().to_string(),
        "└── S
    ├── BOF <- 'a'
    ├── A
    │   └── x <- 'b'
    └── EOF <- 'c'"
    );
}

#[test]
fn parse_expressions() {
    //setup
    let mut grammar_builder = SimpleGrammarBuilder::new();
    add_productions(
        &["S expr", "S S OP expr", "expr ( S )", "expr ID"],
        &mut grammar_builder,
    );
    grammar_builder.try_mark_start(&"S".to_string());
    let grammar = grammar_builder.build().unwrap();

    let lex = "( ID OP ID ) OP ID OP ( ID )"
        .split_whitespace()
        .map(|kind| Token::leaf(kind.to_string(), "xy".to_string()))
        .collect();

    let parser = def_parser();

    //exercise
    let tree = parser.parse(lex, &grammar);

    //verify
    assert_eq!(
        tree.unwrap().to_string(),
        "└── S
    ├── S
    │   ├── S
    │   │   └── expr
    │   │       ├── ( <- 'xy'
    │   │       ├── S
    │   │       │   ├── S
    │   │       │   │   └── expr
    │   │       │   │       └── ID <- 'xy'
    │   │       │   ├── OP <- 'xy'
    │   │       │   └── expr
    │   │       │       └── ID <- 'xy'
    │   │       └── ) <- 'xy'
    │   ├── OP <- 'xy'
    │   └── expr
    │       └── ID <- 'xy'
    ├── OP <- 'xy'
    └── expr
        ├── ( <- 'xy'
        ├── S
        │   └── expr
        │       └── ID <- 'xy'
        └── ) <- 'xy'"
    );
}

#[test]
fn parse_lacs_math() {
    //setup
    let mut grammar_builder = SimpleGrammarBuilder::new();
    add_productions(
        &[
            "Sum Sum AS Product",
            "Sum Product",
            "Product Product MD Factor",
            "Product Factor",
            "Factor LPAREN Sum RPAREN",
            "Factor Number",
            "Number NUM",
        ],
        &mut grammar_builder,
    );
    grammar_builder.try_mark_start(&"Sum".to_string());
    let grammar = grammar_builder.build().unwrap();

    let lex = "NUM AS LPAREN NUM MD NUM AS NUM RPAREN"
        .split_whitespace()
        .map(|kind| Token::leaf(kind.to_string(), "xy".to_string()))
        .collect();

    let parser = def_parser();

    //exercise
    let tree = parser.parse(lex, &grammar);

    //verify
    assert_eq!(
        tree.unwrap().to_string(),
        "└── Sum
    ├── Sum
    │   └── Product
    │       └── Factor
    │           └── Number
    │               └── NUM <- 'xy'
    ├── AS <- 'xy'
    └── Product
        └── Factor
            ├── LPAREN <- 'xy'
            ├── Sum
            │   ├── Sum
            │   │   └── Product
            │   │       ├── Product
            │   │       │   └── Factor
            │   │       │       └── Number
            │   │       │           └── NUM <- 'xy'
            │   │       ├── MD <- 'xy'
            │   │       └── Factor
            │   │           └── Number
            │   │               └── NUM <- 'xy'
            │   ├── AS <- 'xy'
            │   └── Product
            │       └── Factor
            │           └── Number
            │               └── NUM <- 'xy'
            └── RPAREN <- 'xy'"
    );
}

#[test]
fn parse_brackets() {
    //setup
    let mut grammar_builder = SimpleGrammarBuilder::new();
    add_productions(
        &[
            "s s b",
            "s ",
            "b LBRACKET s RBRACKET",
            "b w",
            "w WHITESPACE",
        ],
        &mut grammar_builder,
    );
    grammar_builder.try_mark_start(&"s".to_string());
    let grammar = grammar_builder.build().unwrap();

    let lex = "WHITESPACE LBRACKET WHITESPACE LBRACKET WHITESPACE RBRACKET WHITESPACE RBRACKET LBRACKET RBRACKET WHITESPACE".split_whitespace()
        .map(|kind| Token::leaf(kind.to_string(), "xy".to_string()))
        .collect();

    let parser = def_parser();

    //exercise
    let tree = parser.parse(lex, &grammar);

    //verify
    assert_eq!(
        tree.unwrap().to_string(),
        "└── s
    ├── s
    │   ├── s
    │   │   ├── s
    │   │   │   ├── s
    │   │   │   │   └──  <- 'NULL'
    │   │   │   └── b
    │   │   │       └── w
    │   │   │           └── WHITESPACE <- 'xy'
    │   │   └── b
    │   │       ├── LBRACKET <- 'xy'
    │   │       ├── s
    │   │       │   ├── s
    │   │       │   │   ├── s
    │   │       │   │   │   ├── s
    │   │       │   │   │   │   └──  <- 'NULL'
    │   │       │   │   │   └── b
    │   │       │   │   │       └── w
    │   │       │   │   │           └── WHITESPACE <- 'xy'
    │   │       │   │   └── b
    │   │       │   │       ├── LBRACKET <- 'xy'
    │   │       │   │       ├── s
    │   │       │   │       │   ├── s
    │   │       │   │       │   │   └──  <- 'NULL'
    │   │       │   │       │   └── b
    │   │       │   │       │       └── w
    │   │       │   │       │           └── WHITESPACE <- 'xy'
    │   │       │   │       └── RBRACKET <- 'xy'
    │   │       │   └── b
    │   │       │       └── w
    │   │       │           └── WHITESPACE <- 'xy'
    │   │       └── RBRACKET <- 'xy'
    │   └── b
    │       ├── LBRACKET <- 'xy'
    │       ├── s
    │       │   └──  <- 'NULL'
    │       └── RBRACKET <- 'xy'
    └── b
        └── w
            └── WHITESPACE <- 'xy'"
    );
}

#[test]
fn parse_deep_epsilon() {
    //setup
    let mut grammar_builder = SimpleGrammarBuilder::new();
    add_productions(&["s w w w w", "w WHITESPACE", "w "], &mut grammar_builder);
    grammar_builder.try_mark_start(&"s".to_string());
    let grammar = grammar_builder.build().unwrap();

    let lex = "WHITESPACE"
        .split_whitespace()
        .map(|kind| Token::leaf(kind.to_string(), "xy".to_string()))
        .collect();

    let parser = def_parser();

    //exercise
    let tree = parser.parse(lex, &grammar);

    //verify
    assert_eq!(
        tree.unwrap().to_string(),
        "└── s
    ├── w
    │   └──  <- 'NULL'
    ├── w
    │   └──  <- 'NULL'
    ├── w
    │   └──  <- 'NULL'
    └── w
        └── WHITESPACE <- 'xy'"
    );
}

#[test]
fn advanced_parse_build() {
    //setup
    let mut grammar_builder = SimpleGrammarBuilder::new();
    add_productions(
        &[
            "sum sum PM prod",
            "sum prod",
            "prod prod MD fac",
            "prod fac",
            "fac LPAREN sum RPAREN",
            "fac num",
            "num DIGIT num",
            "num DIGIT",
        ],
        &mut grammar_builder,
    );
    grammar_builder.try_mark_start(&"sum".to_string());
    let grammar = grammar_builder.build().unwrap();

    let lex = vec![
        Token::leaf("DIGIT".to_string(), "1".to_string()),
        Token::leaf("PM".to_string(), "+".to_string()),
        Token::leaf("LPAREN".to_string(), "(".to_string()),
        Token::leaf("DIGIT".to_string(), "2".to_string()),
        Token::leaf("MD".to_string(), "*".to_string()),
        Token::leaf("DIGIT".to_string(), "3".to_string()),
        Token::leaf("PM".to_string(), "-".to_string()),
        Token::leaf("DIGIT".to_string(), "4".to_string()),
        Token::leaf("RPAREN".to_string(), ")".to_string()),
    ];

    let parser = def_parser();

    //exercise
    let tree = parser.parse(lex, &grammar);

    //verify
    assert_eq!(
        tree.unwrap().to_string(),
        "└── sum
    ├── sum
    │   └── prod
    │       └── fac
    │           └── num
    │               └── DIGIT <- '1'
    ├── PM <- '+'
    └── prod
        └── fac
            ├── LPAREN <- '('
            ├── sum
            │   ├── sum
            │   │   └── prod
            │   │       ├── prod
            │   │       │   └── fac
            │   │       │       └── num
            │   │       │           └── DIGIT <- '2'
            │   │       ├── MD <- '*'
            │   │       └── fac
            │   │           └── num
            │   │               └── DIGIT <- '3'
            │   ├── PM <- '-'
            │   └── prod
            │       └── fac
            │           └── num
            │               └── DIGIT <- '4'
            └── RPAREN <- ')'"
    );
}

#[test]
fn parse_must_consume() {
    //setup
    let mut grammar_builder = SimpleGrammarBuilder::new();
    add_productions(&["s "], &mut grammar_builder);
    grammar_builder.try_mark_start(&"s".to_string());
    let grammar = grammar_builder.build().unwrap();

    let lex = vec![Token::leaf("kind".to_string(), "lexeme".to_string())];

    let parser = def_parser();

    //exercise
    let res = parser.parse(lex, &grammar);

    //verify
    assert!(res.is_err());
    assert_eq!(
        res.err().unwrap().message,
        "Largest parse did not consume all tokens: 0 of 1"
    )
}

#[test]
fn ignorable_terminal() {
    //setup
    let mut grammar_builder = SimpleGrammarBuilder::new();
    add_productions(&["s A s B", "s C"], &mut grammar_builder);
    grammar_builder.try_mark_start(&"s".to_string());
    grammar_builder.mark_ignorable(&"C".to_string());
    let grammar = grammar_builder.build().unwrap();

    let lex = vec![
        Token::leaf("A".to_string(), "a".to_string()),
        Token::leaf("C".to_string(), "c".to_string()),
        Token::leaf("C".to_string(), "c".to_string()),
        Token::leaf("B".to_string(), "b".to_string()),
    ];

    let parser = def_parser();

    //exercise
    let tree = parser.parse(lex, &grammar);

    //verify
    assert_eq!(
        tree.unwrap().to_string(),
        "└── s
    ├── A <- 'a'
    ├── s
    │   └── C <- 'c'
    └── B <- 'b'"
    );
}

#[test]
fn ignorable_terminal_only() {
    //setup
    let mut grammar_builder = SimpleGrammarBuilder::new();
    add_productions(&["s "], &mut grammar_builder);
    grammar_builder.try_mark_start(&"s".to_string());
    grammar_builder.mark_ignorable(&"C".to_string());
    let grammar = grammar_builder.build().unwrap();

    let lex = vec![
        Token::leaf("C".to_string(), "c".to_string()),
        Token::leaf("C".to_string(), "c".to_string()),
    ];

    let parser = def_parser();

    //exercise
    let tree = parser.parse(lex, &grammar);

    //verify
    assert_eq!(
        tree.unwrap().to_string(),
        "└── s\n    └──  <- 'NULL'"
    );
}

#[test]
fn favour_non_ignored_terminals() {
    //setup
    let mut grammar_builder = SimpleGrammarBuilder::new();
    add_productions(&["s A s A", "s C", "s "], &mut grammar_builder);
    grammar_builder.try_mark_start(&"s".to_string());
    grammar_builder.mark_ignorable(&"C".to_string());
    let grammar = grammar_builder.build().unwrap();

    let lex = vec![
        Token::leaf("A".to_string(), "a".to_string()),
        Token::leaf("C".to_string(), "c".to_string()),
        Token::leaf("A".to_string(), "a".to_string()),
    ];

    let parser = def_parser();

    //exercise
    let tree = parser.parse(lex, &grammar);

    //verify
    assert_eq!(
        tree.unwrap().to_string(),
        "└── s
    ├── A <- 'a'
    ├── s
    │   └── C <- 'c'
    └── A <- 'a'"
    );
}

#[test]
fn injectable_terminal_left_affinity() {
    //setup
    let mut grammar_builder = SimpleGrammarBuilder::new();
    add_productions(&["s A s B", "s "], &mut grammar_builder);
    grammar_builder.try_mark_start(&"s".to_string());
    grammar_builder.mark_injectable(&"C".to_string(), InjectionAffinity::Left);
    let grammar = grammar_builder.build().unwrap();

    let lex = vec![
        Token::leaf("A".to_string(), "a".to_string()),
        Token::leaf("C".to_string(), "c".to_string()),
        Token::leaf("B".to_string(), "b".to_string()),
    ];

    let parser = def_parser();

    //exercise
    let tree = parser.parse(lex, &grammar);

    //verify
    assert_eq!(
        tree.unwrap().to_string(),
        "└── s
    ├── A <- 'a'
    ├── << C <- 'c'
    ├── s
    │   └──  <- 'NULL'
    └── B <- 'b'"
    );
}

#[test]
fn injectable_terminal_right_affinity() {
    //setup
    let mut grammar_builder = SimpleGrammarBuilder::new();
    add_productions(&["s A s B", "s "], &mut grammar_builder);
    grammar_builder.try_mark_start(&"s".to_string());
    grammar_builder.mark_injectable(&"C".to_string(), InjectionAffinity::Right);
    let grammar = grammar_builder.build().unwrap();

    let lex = vec![
        Token::leaf("A".to_string(), "a".to_string()),
        Token::leaf("C".to_string(), "c".to_string()),
        Token::leaf("B".to_string(), "b".to_string()),
    ];

    let parser = def_parser();

    //exercise
    let tree = parser.parse(lex, &grammar);

    //verify
    assert_eq!(
        tree.unwrap().to_string(),
        "└── s
    ├── A <- 'a'
    ├── s
    │   └──  <- 'NULL'
    ├── << C <- 'c'
    └── B <- 'b'"
    );
}

#[test]
fn injectable_terminal_last() {
    //setup
    let mut grammar_builder = SimpleGrammarBuilder::new();
    add_productions(&["s A s B", "s "], &mut grammar_builder);
    grammar_builder.try_mark_start(&"s".to_string());
    grammar_builder.mark_injectable(&"C".to_string(), InjectionAffinity::Left);
    let grammar = grammar_builder.build().unwrap();

    let lex = vec![
        Token::leaf("A".to_string(), "a".to_string()),
        Token::leaf("B".to_string(), "b".to_string()),
        Token::leaf("C".to_string(), "c".to_string()),
    ];

    let parser = def_parser();

    //exercise
    let tree = parser.parse(lex, &grammar);

    //verify
    assert_eq!(
        tree.unwrap().to_string(),
        "└── s
    ├── A <- 'a'
    ├── s
    │   └──  <- 'NULL'
    ├── B <- 'b'
    └── << C <- 'c'"
    );
}

#[test]
fn favour_non_injected_terminals() {
    //setup
    let mut grammar_builder = SimpleGrammarBuilder::new();
    add_productions(&["s A s A", "s C", "s "], &mut grammar_builder);
    grammar_builder.try_mark_start(&"s".to_string());
    grammar_builder.mark_injectable(&"C".to_string(), InjectionAffinity::Left);
    let grammar = grammar_builder.build().unwrap();

    let lex = vec![
        Token::leaf("A".to_string(), "a".to_string()),
        Token::leaf("C".to_string(), "c".to_string()),
        Token::leaf("A".to_string(), "a".to_string()),
    ];

    let parser = def_parser();

    //exercise
    let tree = parser.parse(lex, &grammar);

    //verify
    assert_eq!(
        tree.unwrap().to_string(),
        "└── s
    ├── A <- 'a'
    ├── s
    │   └── C <- 'c'
    └── A <- 'a'"
    );
}

#[test]
fn injection_into_single_terminal() {
    //setup
    let mut grammar_builder = SimpleGrammarBuilder::new();
    add_productions(&["s A"], &mut grammar_builder);
    grammar_builder.try_mark_start(&"s".to_string());
    grammar_builder.mark_injectable(&"B".to_string(), InjectionAffinity::Right);
    let grammar = grammar_builder.build().unwrap();

    let lex = vec![
        Token::leaf("B".to_string(), "b".to_string()),
        Token::leaf("A".to_string(), "a".to_string()),
    ];

    let parser = def_parser();

    //exercise
    let tree = parser.parse(lex, &grammar);

    //verify
    assert_eq!(
        tree.unwrap().to_string(),
        "└── s
    ├── << B <- 'b'
    └── A <- 'a'"
    );
}

#[test]
fn mod_inline_list() {
    //setup
    let mut grammar_builder = SimpleGrammarBuilder::new();

    grammar_builder.add_production(Production::from(
        "s".to_string(),
        vec![ProductionSymbol::symbol_list("T".to_string())],
    ));

    grammar_builder.try_mark_start(&"s".to_string());

    let grammar = grammar_builder.build().unwrap();

    let lex = vec![
        Token::leaf("T".to_string(), "a".to_string()),
        Token::leaf("T".to_string(), "b".to_string()),
        Token::leaf("T".to_string(), "c".to_string()),
        Token::leaf("T".to_string(), "d".to_string()),
    ];

    let parser = def_parser();

    //exercise
    let tree = parser.parse(lex, &grammar).unwrap();

    //verify
    assert_eq!(
        tree.to_string(),
        "└── s
    └── ?
        ├── T <- 'a'
        ├── T <- 'b'
        ├── T <- 'c'
        └── T <- 'd'"
    );
}

#[test]
fn pinned_inline_list() {
    //setup
    let mut grammar_builder = SimpleGrammarBuilder::new();

    grammar_builder.add_production(Production::from(
        "s".to_string(),
        vec![
            ProductionSymbol::symbol("A".to_string()),
            ProductionSymbol::symbol_list("T".to_string()),
            ProductionSymbol::symbol("A".to_string()),
        ],
    ));

    grammar_builder.try_mark_start(&"s".to_string());

    let grammar = grammar_builder.build().unwrap();

    let lex = vec![
        Token::leaf("A".to_string(), "1".to_string()),
        Token::leaf("T".to_string(), "a".to_string()),
        Token::leaf("T".to_string(), "b".to_string()),
        Token::leaf("T".to_string(), "c".to_string()),
        Token::leaf("T".to_string(), "d".to_string()),
        Token::leaf("A".to_string(), "2".to_string()),
    ];

    let parser = def_parser();

    //exercise
    let tree = parser.parse(lex, &grammar).unwrap();

    //verify
    assert_eq!(
        tree.to_string(),
        "└── s
    ├── A <- '1'
    ├── ?
    │   ├── T <- 'a'
    │   ├── T <- 'b'
    │   ├── T <- 'c'
    │   └── T <- 'd'
    └── A <- '2'"
    );
}

#[test]
fn non_terminal_inline_list() {
    //setup
    let mut grammar_builder = SimpleGrammarBuilder::new();

    grammar_builder.add_production(Production::from(
        "s".to_string(),
        vec![ProductionSymbol::symbol_list("t".to_string())],
    ));

    grammar_builder.add_production(Production::from(
        "t".to_string(),
        vec![ProductionSymbol::symbol("T".to_string())],
    ));

    grammar_builder.try_mark_start(&"s".to_string());

    let grammar = grammar_builder.build().unwrap();

    let lex = vec![
        Token::leaf("T".to_string(), "a".to_string()),
        Token::leaf("T".to_string(), "b".to_string()),
        Token::leaf("T".to_string(), "c".to_string()),
        Token::leaf("T".to_string(), "d".to_string()),
    ];

    let parser = def_parser();

    //exercise
    let tree = parser.parse(lex, &grammar).unwrap();

    //verify
    assert_eq!(
        tree.to_string(),
        "└── s
    └── ?
        ├── t
        │   └── T <- 'a'
        ├── t
        │   └── T <- 'b'
        ├── t
        │   └── T <- 'c'
        └── t
            └── T <- 'd'"
    );
}

#[test]
fn pinned_non_terminal_inline_list() {
    //setup
    let mut grammar_builder = SimpleGrammarBuilder::new();

    grammar_builder.add_production(Production::from(
        "s".to_string(),
        vec![
            ProductionSymbol::symbol("A".to_string()),
            ProductionSymbol::symbol_list("t".to_string()),
            ProductionSymbol::symbol("A".to_string()),
        ],
    ));

    grammar_builder.add_production(Production::from(
        "t".to_string(),
        vec![ProductionSymbol::symbol("T".to_string())],
    ));

    grammar_builder.try_mark_start(&"s".to_string());

    let grammar = grammar_builder.build().unwrap();

    let lex = vec![
        Token::leaf("A".to_string(), "1".to_string()),
        Token::leaf("T".to_string(), "a".to_string()),
        Token::leaf("T".to_string(), "b".to_string()),
        Token::leaf("T".to_string(), "c".to_string()),
        Token::leaf("T".to_string(), "d".to_string()),
        Token::leaf("A".to_string(), "2".to_string()),
    ];

    let parser = def_parser();

    //exercise
    let tree = parser.parse(lex, &grammar).unwrap();

    //verify
    assert_eq!(
        tree.to_string(),
        "└── s
    ├── A <- '1'
    ├── ?
    │   ├── t
    │   │   └── T <- 'a'
    │   ├── t
    │   │   └── T <- 'b'
    │   ├── t
    │   │   └── T <- 'c'
    │   └── t
    │       └── T <- 'd'
    └── A <- '2'"
    );
}

#[test]
fn push_down_nested_inline_lists() {
    //setup
    let mut grammar_builder = SimpleGrammarBuilder::new();

    grammar_builder.add_production(Production::from(
        "s".to_string(),
        vec![ProductionSymbol::symbol_list("t".to_string())],
    ));

    grammar_builder.add_production(Production::from(
        "t".to_string(),
        vec![ProductionSymbol::symbol_list("T".to_string())],
    ));

    grammar_builder.try_mark_start(&"s".to_string());

    let grammar = grammar_builder.build().unwrap();

    let lex = vec![
        Token::leaf("T".to_string(), "a".to_string()),
        Token::leaf("T".to_string(), "b".to_string()),
        Token::leaf("T".to_string(), "c".to_string()),
        Token::leaf("T".to_string(), "d".to_string()),
    ];

    let parser = def_parser();

    //exercise
    let tree = parser.parse(lex, &grammar).unwrap();

    //verify
    assert_eq!(
        tree.to_string(),
        "└── s
    └── t
        └── ?
            ├── T <- 'a'
            ├── T <- 'b'
            ├── T <- 'c'
            └── T <- 'd'"
    );
}

#[test]
fn inline_lists_non_empty() {
    //setup
    let mut grammar_builder = SimpleGrammarBuilder::new();

    grammar_builder.add_production(Production::from(
        "s".to_string(),
        vec![
            ProductionSymbol::symbol_list("X".to_string()),
            ProductionSymbol::symbol_list("Y".to_string()),
            ProductionSymbol::symbol_list("Z".to_string()),
        ],
    ));

    grammar_builder.try_mark_start(&"s".to_string());

    let grammar = grammar_builder.build().unwrap();

    let parser = def_parser();

    //exercise/verify
    let res = parser.parse(
        vec![
            Token::leaf("Y".to_string(), "2".to_string()),
            Token::leaf("Z".to_string(), "3".to_string()),
        ],
        &grammar,
    );

    assert!(res.is_err());
    assert_eq!(
        res.err().unwrap().message,
        "Recognition failed at token 1: Y <- '2'"
    );

    let res = parser.parse(
        vec![
            Token::leaf("X".to_string(), "1".to_string()),
            Token::leaf("Z".to_string(), "3".to_string()),
        ],
        &grammar,
    );

    assert!(res.is_err());
    assert_eq!(
        res.err().unwrap().message,
        "Recognition failed at token 2: Z <- '3'"
    );

    let res = parser.parse(
        vec![
            Token::leaf("X".to_string(), "1".to_string()),
            Token::leaf("Y".to_string(), "2".to_string()),
        ],
        &grammar,
    );

    assert!(res.is_err());
    assert_eq!(
        res.err().unwrap().message,
        "Recognition failed after consuming all tokens"
    );
}

#[test]
fn repeated_inline_lists() {
    //setup
    let mut grammar_builder = SimpleGrammarBuilder::new();

    grammar_builder.add_production(Production::from(
        "s".to_string(),
        vec![
            ProductionSymbol::symbol_list("X".to_string()),
            ProductionSymbol::symbol_list("Y".to_string()),
            ProductionSymbol::symbol_list("Z".to_string()),
        ],
    ));

    grammar_builder.try_mark_start(&"s".to_string());

    let grammar = grammar_builder.build().unwrap();

    let lex = vec![
        Token::leaf("X".to_string(), "z".to_string()),
        Token::leaf("Y".to_string(), "a".to_string()),
        Token::leaf("Y".to_string(), "b".to_string()),
        Token::leaf("Z".to_string(), "1".to_string()),
        Token::leaf("Z".to_string(), "2".to_string()),
        Token::leaf("Z".to_string(), "3".to_string()),
    ];

    let parser = def_parser();

    //exercise
    let tree = parser.parse(lex, &grammar).unwrap();

    //verify
    assert_eq!(
        tree.to_string(),
        "└── s
    ├── X <- 'z'
    ├── ?
    │   ├── Y <- 'a'
    │   └── Y <- 'b'
    └── ?
        ├── Z <- '1'
        ├── Z <- '2'
        └── Z <- '3'"
    );
}

#[test]
fn inline_list_before_optional_list() {
    //setup
    let mut grammar_builder = SimpleGrammarBuilder::new();

    grammar_builder.add_production(Production::from(
        "s".to_string(),
        vec![
            ProductionSymbol::symbol_list("X".to_string()),
            ProductionSymbol::symbol("t_opt".to_string()),
        ],
    ));

    grammar_builder.add_production(Production::from(
        "t_opt".to_string(),
        vec![ProductionSymbol::symbol_list("T".to_string())],
    ));
    grammar_builder.add_production(Production::from("t_opt".to_string(), Vec::new()));

    grammar_builder.try_mark_start(&"s".to_string());

    let grammar = grammar_builder.build().unwrap();

    let parser = def_parser();

    //exercise/verify
    let lex = vec![
        Token::leaf("X".to_string(), "a".to_string()),
        Token::leaf("X".to_string(), "b".to_string()),
        Token::leaf("T".to_string(), "1".to_string()),
        Token::leaf("T".to_string(), "2".to_string()),
    ];

    let tree = parser.parse(lex, &grammar).unwrap();

    assert_eq!(
        tree.to_string(),
        "└── s
    ├── ?
    │   ├── X <- 'a'
    │   └── X <- 'b'
    └── t_opt
        └── ?
            ├── T <- '1'
            └── T <- '2'"
    );

    let lex = vec![
        Token::leaf("X".to_string(), "a".to_string()),
        Token::leaf("X".to_string(), "b".to_string()),
    ];

    let tree = parser.parse(lex, &grammar).unwrap();

    assert_eq!(
        tree.to_string(),
        "└── s
    ├── ?
    │   ├── X <- 'a'
    │   └── X <- 'b'
    └── t_opt
        └──  <- 'NULL'"
    );
}

#[test]
fn inline_list_after_optional_list() {
    //setup
    let mut grammar_builder = SimpleGrammarBuilder::new();

    grammar_builder.add_production(Production::from(
        "s".to_string(),
        vec![
            ProductionSymbol::symbol("t_opt".to_string()),
            ProductionSymbol::symbol_list("X".to_string()),
        ],
    ));

    grammar_builder.add_production(Production::from(
        "t_opt".to_string(),
        vec![ProductionSymbol::symbol_list("T".to_string())],
    ));
    grammar_builder.add_production(Production::from("t_opt".to_string(), Vec::new()));

    grammar_builder.try_mark_start(&"s".to_string());

    let grammar = grammar_builder.build().unwrap();

    let parser = def_parser();

    //exercise/verify
    let lex = vec![
        Token::leaf("T".to_string(), "1".to_string()),
        Token::leaf("T".to_string(), "2".to_string()),
        Token::leaf("X".to_string(), "a".to_string()),
        Token::leaf("X".to_string(), "b".to_string()),
    ];

    let tree = parser.parse(lex, &grammar).unwrap();

    assert_eq!(
        tree.to_string(),
        "└── s
    ├── t_opt
    │   └── ?
    │       ├── T <- '1'
    │       └── T <- '2'
    └── ?
        ├── X <- 'a'
        └── X <- 'b'"
    );

    let lex = vec![
        Token::leaf("X".to_string(), "a".to_string()),
        Token::leaf("X".to_string(), "b".to_string()),
    ];

    let tree = parser.parse(lex, &grammar).unwrap();

    assert_eq!(
        tree.to_string(),
        "└── s
    ├── t_opt
    │   └──  <- 'NULL'
    └── ?
        ├── X <- 'a'
        └── X <- 'b'"
    );
}

#[test]
fn inline_list_of_injectable_terminals() {
    //setup
    let mut grammar_builder = SimpleGrammarBuilder::new();

    grammar_builder.add_production(Production::from(
        "s".to_string(),
        vec![
            ProductionSymbol::symbol("A".to_string()),
            ProductionSymbol::symbol_list("T".to_string()),
            ProductionSymbol::symbol("A".to_string()),
        ],
    ));

    grammar_builder.mark_injectable(&"T".to_string(), InjectionAffinity::Right);

    grammar_builder.try_mark_start(&"s".to_string());

    let grammar = grammar_builder.build().unwrap();

    let lex = vec![
        Token::leaf("T".to_string(), "a".to_string()),
        Token::leaf("A".to_string(), "1".to_string()),
        Token::leaf("T".to_string(), "b".to_string()),
        Token::leaf("T".to_string(), "c".to_string()),
        Token::leaf("A".to_string(), "2".to_string()),
        Token::leaf("T".to_string(), "d".to_string()),
    ];

    let parser = def_parser();

    //exercise
    let tree = parser.parse(lex, &grammar).unwrap();

    //verify
    assert_eq!(
        tree.to_string(),
        "└── s
    ├── << T <- 'a'
    ├── A <- '1'
    ├── ?
    │   ├── T <- 'b'
    │   └── T <- 'c'
    ├── A <- '2'
    └── << T <- 'd'"
    );
}

#[test]
fn inline_list_between_injectable_terminals() {
    //setup
    let mut grammar_builder = SimpleGrammarBuilder::new();

    grammar_builder.add_production(Production::from(
        "s".to_string(),
        vec![ProductionSymbol::symbol_list("T".to_string())],
    ));

    grammar_builder.mark_injectable(&"A".to_string(), InjectionAffinity::Right);

    grammar_builder.try_mark_start(&"s".to_string());

    let grammar = grammar_builder.build().unwrap();

    let lex = vec![
        Token::leaf("A".to_string(), "1".to_string()),
        Token::leaf("T".to_string(), "a".to_string()),
        Token::leaf("T".to_string(), "b".to_string()),
        Token::leaf("A".to_string(), "2".to_string()),
    ];

    let parser = def_parser();

    //exercise
    let tree = parser.parse(lex, &grammar).unwrap();

    //verify
    assert_eq!(
        tree.to_string(),
        "└── s
    ├── << A <- '1'
    ├── ?
    │   ├── T <- 'a'
    │   └── T <- 'b'
    └── << A <- '2'"
    );
}

#[test]
fn injections_intersecting_inline_list() {
    //setup
    let mut grammar_builder = SimpleGrammarBuilder::new();

    grammar_builder.add_production(Production::from(
        "s".to_string(),
        vec![ProductionSymbol::symbol_list("T".to_string())],
    ));

    grammar_builder.mark_injectable(&"A".to_string(), InjectionAffinity::Right);

    grammar_builder.try_mark_start(&"s".to_string());

    let grammar = grammar_builder.build().unwrap();

    let lex = vec![
        Token::leaf("A".to_string(), "1".to_string()),
        Token::leaf("T".to_string(), "a".to_string()),
        Token::leaf("A".to_string(), "2".to_string()),
        Token::leaf("A".to_string(), "3".to_string()),
        Token::leaf("T".to_string(), "b".to_string()),
        Token::leaf("T".to_string(), "c".to_string()),
        Token::leaf("T".to_string(), "d".to_string()),
        Token::leaf("A".to_string(), "4".to_string()),
        Token::leaf("A".to_string(), "5".to_string()),
        Token::leaf("T".to_string(), "e".to_string()),
    ];

    let parser = def_parser();

    //exercise
    let tree = parser.parse(lex, &grammar).unwrap();

    //verify
    assert_eq!(
        tree.to_string(),
        "└── s
    ├── << A <- '1'
    └── ?
        ├── T <- 'a'
        ├── A <- '2'
        ├── A <- '3'
        ├── T <- 'b'
        ├── T <- 'c'
        ├── T <- 'd'
        ├── A <- '4'
        ├── A <- '5'
        └── T <- 'e'"
    );
}

fn add_productions<'scope>(
strings: &'scope [&'scope str],
grammar_builder: &mut SimpleGrammarBuilder<String>,
) {
for string in strings {
    grammar_builder.add_production(production_from_string(string));
}
}

fn production_from_string(string: &str) -> Production<String> {
let mut i = 0;
let mut lhs = String::new();
let mut rhs: Vec<ProductionSymbol<String>> = vec![];

for s in string.split_whitespace() {
    if i == 0 {
        lhs = s.to_string();
    } else {
        rhs.push(ProductionSymbol {
            symbol: s.to_string(),
            is_list: false,
        });
    }
    i += 1;
}

Production { lhs, rhs }
}

fn two_token_grammar() -> padd::parse::grammar::SimpleGrammar<String> {
    let mut grammar_builder = SimpleGrammarBuilder::new();
    add_productions(&["s a a"], &mut grammar_builder);
    grammar_builder.try_mark_start(&"s".to_string());
    grammar_builder.build().unwrap()
}

#[test]
fn parse_error_no_tokens() {
    let res = def_parser().parse(vec![], &two_token_grammar());
    assert_eq!(res.err().unwrap().message, "No symbols tokenized");
}

#[test]
fn parse_error_at_token() {
    let lex = vec![
        Token::leaf("a".to_string(), "x".to_string()),
        Token::leaf("b".to_string(), "y\n".to_string()),
    ];
    let res = def_parser().parse(lex, &two_token_grammar());
    assert_eq!(res.err().unwrap().message, "Recognition failed at token 2: b <- 'y\\n'");
}

#[test]
fn parse_error_after_all_tokens() {
    let lex = vec![Token::leaf("a".to_string(), "x".to_string())];
    let res = def_parser().parse(lex, &two_token_grammar());
    assert_eq!(
        res.err().unwrap().message,
        "Recognition failed after consuming all tokens"
    );
}

#[test]
fn parse_root_is_start_symbol() {
    let lex = vec![
        Token::leaf("a".to_string(), "x".to_string()),
        Token::leaf("a".to_string(), "y".to_string()),
    ];
    let tree = def_parser().parse(lex, &two_token_grammar()).unwrap();
    assert_eq!(tree.lhs.kind(), &"s".to_string());
    assert_eq!(tree.children.len(), 2);
    assert!(!tree.is_leaf());
    assert_eq!(tree.get_child(1).lhs.lexeme(), "y");
}
