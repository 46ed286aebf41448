use padd::data::Data;
use padd::lex::{self, Lexer, Token};
use padd::parse::grammar::{EncodedGrammarBuilder, SimpleGrammarBuilder};
use padd::parse::{self, Parser, SymbolParseMethod, Tree};
use padd::spec::lang::SpecSymbol;
use padd::spec::region::{self, RegionType};
use padd::spec::{generate_spec, parse_spec, GenError};


    #[test]
    fn mod_generate_spec_simple() {
        //setup
        let spec = "
alphabet ' \\t\\n\\r{}'

cdfa {
    start
        ' ' | '\\t' | '\\n' | '\\r' -> ws
        '{' -> lbr
        '}' -> rbr;

    ws  ^WHITESPACE
        ' ' | '\\t' | '\\n' | '\\r' -> ws;

    lbr ^LBRACKET;

    rbr ^RBRACKET;
}

grammar {
    s
        | s b
        | ;

    b
        | LBRACKET s RBRACKET `[prefix]{0}\\n\\n{1;prefix=[prefix]\\t}[prefix]{2}\\n\\n`
        | w ;

    w   | WHITESPACE ``;
}
        ";

        let input = "  {  {  {{{\t}}}\n\r {} } \r }   { {}\n } ".to_string();
        let chars: Vec<char> = input.chars().collect();

        let lexer = lex::def_lexer();
        let parser = parse::def_parser();

        //specification
        let tree = parse_spec(spec);
        let parse = tree.unwrap();
        let (cdfa, grammar, formatter) =
            generate_spec(&parse, SimpleGrammarBuilder::new()).unwrap();

        //input
        let tokens = lexer.lex(&chars[..], &cdfa);
        let tree = parser.parse(tokens.unwrap(), &grammar);
        let parse = tree.unwrap();

        //exercise
        let res = formatter.format(&parse);

        //verify
        assert_eq!(
            res,
            "{

	{

		{

			{

				{

				}

			}

		}

		{

		}

	}

}

{

	{

	}

}\n\n"
        );
    }

    #[test]
    fn mod_generate_spec_advanced_operators() {
        //setup
        let spec = "
alphabet 'inj '

cdfa {
    start
        'in' -> ^IN
        ' ' -> ^_
        _ -> ^ID;

    ID | IN
        ' ' -> fail
        _ -> ID;
}

grammar {
    s |;
}
        ";

        let input = "i ij ijjjijijiji inj in iii".to_string();
        let chars: Vec<char> = input.chars().collect();

        let lexer = lex::def_lexer();

        let tree = parse_spec(spec);
        let parse = tree.unwrap();
        let (cdfa, _, _) = generate_spec(&parse, SimpleGrammarBuilder::new()).unwrap();

        //exercise
        let tokens = lexer.lex(&chars[..], &cdfa).unwrap();

        let mut result = String::new();
        for token in tokens {
            result.push_str(&token.to_string());
            result.push('\n');
        }

        //verify
        assert_eq!(
            result,
            "\
ID <- 'i'
ID <- 'ij'
ID <- 'ijjjijijiji'
ID <- 'inj'
IN <- 'in'
ID <- 'iii'
"
        );
    }

    #[test]
    fn mod_default_matcher_conflict() {
        //setup
        let spec = "
alphabet ' c'

cdfa {
    start
        ' ' -> ^WS
        'c' -> id;

    id      ^ID
        'c' | '_' -> id;
}

grammar {
    s |;
}
        ";

        let input = "c c".to_string();
        let chars: Vec<char> = input.chars().collect();

        let lexer = lex::def_lexer();

        let tree = parse_spec(spec);
        let parse = tree.unwrap();
        let (cdfa, _, _) = generate_spec(&parse, SimpleGrammarBuilder::new()).unwrap();

        //exercise
        let tokens = lexer.lex(&chars[..], &cdfa).unwrap();

        //verify
        assert_eq!(
            tokens_string(tokens),
            "\nkind=ID lexeme=c\nkind=WS lexeme= \nkind=ID lexeme=c"
        )
    }

    #[test]
    fn mod_complex_id() {
        //setup
        let spec = "
alphabet ' ab_'

cdfa {
    start
        ' ' -> ws
        _ -> id;

    ws      ^_;

    id      ^ID
        'a' | 'b' | '_' -> id;
}

grammar {
    s
        | ids
        |;
    ids
        | ids ID
        | ID;
}
        ";

        let input = "a ababab _abab ab_abba_".to_string();
        let chars: Vec<char> = input.chars().collect();

        let lexer = lex::def_lexer();

        let tree = parse_spec(spec);
        let parse = tree.unwrap();
        let (cdfa, _, _) = generate_spec(&parse, SimpleGrammarBuilder::new()).unwrap();

        //exercise
        let tokens = lexer.lex(&chars[..], &cdfa).unwrap();

        //verify
        assert_eq!(tokens_string(tokens), "\nkind=ID lexeme=a\nkind=ID lexeme=ababab\nkind=ID lexeme=_abab\nkind=ID lexeme=ab_abba_")
    }

    #[test]
    fn mod_multi_character_lexing() {
        //setup
        let spec = "
alphabet 'abcdefghijklmnopqrstuvwxyz '

cdfa {
    start
        'if' -> ^IF
        'else' -> ^ELSE
        'for' -> ^FOR
        'fob' -> ^FOB
        'final' -> ^FINAL
        ' ' -> ^_
        _ -> id;

    id  ^ID
        ' ' -> fail
        _ -> id;
}

grammar {
    s |;
}
        ";
        let tree = parse_spec(spec);
        let parse = tree.unwrap();
        let (cdfa, _, _) = generate_spec(&parse, SimpleGrammarBuilder::new()).unwrap();

        let input = "fdkgdfjgdjglkdjglkdjgljbnhbduhoifjeoigjeoghknhkjdfjgoirjt for if endif elseif somethign eldsfnj hi bob joe here final for fob else if id idhere fobre f ".to_string();
        let chars: Vec<char> = input.chars().collect();

        let lexer = lex::def_lexer();

        //exercise
        let tokens = lexer.lex(&chars[..], &cdfa).unwrap();

        //verify
        assert_eq!(
            tokens_string(tokens),
            "
kind=ID lexeme=fdkgdfjgdjglkdjglkdjgljbnhbduhoifjeoigjeoghknhkjdfjgoirjt
kind=FOR lexeme=for
kind=IF lexeme=if
kind=ID lexeme=endif
kind=ELSE lexeme=else
kind=IF lexeme=if
kind=ID lexeme=somethign
kind=ID lexeme=eldsfnj
kind=ID lexeme=hi
kind=ID lexeme=bob
kind=ID lexeme=joe
kind=ID lexeme=here
kind=FINAL lexeme=final
kind=FOR lexeme=for
kind=FOB lexeme=fob
kind=ELSE lexeme=else
kind=IF lexeme=if
kind=ID lexeme=id
kind=ID lexeme=idhere
kind=FOB lexeme=fob
kind=ID lexeme=re
kind=ID lexeme=f"
        )
    }

    #[test]
    fn mod_single_reference_optional_shorthand() {
        //setup
        let spec = "
alphabet 'ab'

cdfa {
    start
        'a' -> ^A
        'b' -> ^B;
}

grammar {
    s
        | A [B] s
        |;
}
        ";

        let tree = parse_spec(spec);
        let parse = tree.unwrap();
        let (cdfa, grammar, _) = generate_spec(&parse, SimpleGrammarBuilder::new()).unwrap();

        let input = "ababaaaba".to_string();
        let chars: Vec<char> = input.chars().collect();

        let lexer = lex::def_lexer();
        let parser = parse::def_parser();

        //exercise
        let tokens = lexer.lex(&chars[..], &cdfa).unwrap();
        let tree = parser.parse(tokens, &grammar).unwrap();

        //verify
        assert_eq!(
            tree.to_string(),
            "└── s
    ├── A <- 'a'
    ├── opt#B
    │   └── B <- 'b'
    └── s
        ├── A <- 'a'
        ├── opt#B
        │   └── B <- 'b'
        └── s
            ├── A <- 'a'
            ├── opt#B
            │   └──  <- 'NULL'
            └── s
                ├── A <- 'a'
                ├── opt#B
                │   └──  <- 'NULL'
                └── s
                    ├── A <- 'a'
                    ├── opt#B
                    │   └── B <- 'b'
                    └── s
                        ├── A <- 'a'
                        ├── opt#B
                        │   └──  <- 'NULL'
                        └── s
                            └──  <- 'NULL'"
        );
    }

    #[test]
    fn mod_def_pattern() {
        //setup
        let spec = "
alphabet 'ab'

cdfa {
    start
        'a' -> ^A
        'b' -> ^B;
}

grammar {
    s `{} {}`
        | s A
        | s B
        | `SEPARATED:`;
}
        ";

        let tree = parse_spec(spec);
        let parse = tree.unwrap();
        let (cdfa, grammar, formatter) =
            generate_spec(&parse, SimpleGrammarBuilder::new()).unwrap();

        let input = "abaa".to_string();
        let chars: Vec<char> = input.chars().collect();

        let lexer = lex::def_lexer();
        let parser = parse::def_parser();

        //exercise
        let tokens = lexer.lex(&chars[..], &cdfa).unwrap();
        let tree = parser.parse(tokens, &grammar).unwrap();
        let res = formatter.format(&tree);

        //verify
        assert_eq!(res, "SEPARATED: a b a a");
    }

    #[test]
    fn mod_range_based_matchers() {
        //setup
        let spec = "
alphabet 'abcdefghijklmnopqrstuvwxyz'

cdfa {
    start
        'a'..'d' -> ^A
        'e'..'k' | 'l' -> ^B
        'm'..'m' -> ^C
        'n'..'o' -> ^D
        _ -> ^E;

    E
        'p'..'z' -> E;
}

grammar {
    s |;
}
        ";

        let input = "abcdefghijklmnopqrstuvwxyz".to_string();
        let chars: Vec<char> = input.chars().collect();

        let lexer = lex::def_lexer();
        let tree = parse_spec(spec);
        let parse = tree.unwrap();
        let (cdfa, _, _) = generate_spec(&parse, SimpleGrammarBuilder::new()).unwrap();

        //exercise
        let tokens = lexer.lex(&chars[..], &cdfa).unwrap();

        //verify
        assert_eq!(
            tokens_string(tokens),
            "
kind=A lexeme=a
kind=A lexeme=b
kind=A lexeme=c
kind=A lexeme=d
kind=B lexeme=e
kind=B lexeme=f
kind=B lexeme=g
kind=B lexeme=h
kind=B lexeme=i
kind=B lexeme=j
kind=B lexeme=k
kind=B lexeme=l
kind=C lexeme=m
kind=D lexeme=n
kind=D lexeme=o
kind=E lexeme=pqrstuvwxyz"
        )
    }

    #[test]
    fn context_sensitive_lexer() {
        //setup
        let spec = "
alphabet 'a!123456789'

cdfa {
    start
        'a' -> a
        '!' -> bang_in;

    bang_in ^BANG -> hidden;

    a       ^A
        'a' -> a;

    hidden
        '1' .. '9' -> num
        '!' -> ^BANG -> start;

    num     ^NUM;
}

grammar {
    s |;
}
        ";

        let input = "!!aaa!!a!49913!a".to_string();
        let chars: Vec<char> = input.chars().collect();

        let lexer = lex::def_lexer();
        let tree = parse_spec(spec);
        let parse = tree.unwrap();
        let (cdfa, _, _) = generate_spec(&parse, SimpleGrammarBuilder::new()).unwrap();

        //exercise
        let tokens = lexer.lex(&chars[..], &cdfa).unwrap();

        //verify
        assert_eq!(
            tokens_string(tokens),
            "
kind=BANG lexeme=!
kind=BANG lexeme=!
kind=A lexeme=aaa
kind=BANG lexeme=!
kind=BANG lexeme=!
kind=A lexeme=a
kind=BANG lexeme=!
kind=NUM lexeme=4
kind=NUM lexeme=9
kind=NUM lexeme=9
kind=NUM lexeme=1
kind=NUM lexeme=3
kind=BANG lexeme=!
kind=A lexeme=a"
        )
    }

    #[test]
    fn injectable_terminals_region() {
        //setup
        let spec = "
alphabet ''

cdfa {
    start ;
}

inject left id1
inject right id2 `{}\n`

inject
left
id3
`some pattern`

grammar {
    s |;
}
        ";

        //exercise
        let tree = parse_spec(spec).unwrap();

        //verify
        assert_eq!(
            tree.to_string(),
            "└── Spec
    └── Regions
        ├── Regions
        │   ├── Regions
        │   │   ├── Regions
        │   │   │   ├── Regions
        │   │   │   │   ├── Regions
        │   │   │   │   │   └── Region
        │   │   │   │   │       └── Alphabet
        │   │   │   │   │           ├── TAlphabet <- 'alphabet'
        │   │   │   │   │           └── TCil <- ''''
        │   │   │   │   └── Region
        │   │   │   │       └── CDFA
        │   │   │   │           ├── TCDFA <- 'cdfa'
        │   │   │   │           ├── TLeftBrace <- '{'
        │   │   │   │           ├── States
        │   │   │   │           │   └── State
        │   │   │   │           │       ├── StateDeclarator
        │   │   │   │           │       │   └── Targets
        │   │   │   │           │       │       └── TId <- 'start'
        │   │   │   │           │       ├── TransitionsOpt
        │   │   │   │           │       │   └──  <- 'NULL'
        │   │   │   │           │       └── TSemi <- ';'
        │   │   │   │           └── TRightBrace <- '}'
        │   │   │   └── Region
        │   │   │       └── Injectable
        │   │   │           ├── TInjectable <- 'inject'
        │   │   │           ├── TInjectionAffinity <- 'left'
        │   │   │           ├── TId <- 'id1'
        │   │   │           └── PatternOpt
        │   │   │               └──  <- 'NULL'
        │   │   └── Region
        │   │       └── Injectable
        │   │           ├── TInjectable <- 'inject'
        │   │           ├── TInjectionAffinity <- 'right'
        │   │           ├── TId <- 'id2'
        │   │           └── PatternOpt
        │   │               └── TPattern <- '`{}\\n`'
        │   └── Region
        │       └── Injectable
        │           ├── TInjectable <- 'inject'
        │           ├── TInjectionAffinity <- 'left'
        │           ├── TId <- 'id3'
        │           └── PatternOpt
        │               └── TPattern <- '`some pattern`'
        └── Region
            └── Grammar
                ├── TGrammar <- 'grammar'
                ├── TLeftBrace <- '{'
                ├── Productions
                │   └── Production
                │       ├── TId <- 's'
                │       ├── PatternOpt
                │       │   └──  <- 'NULL'
                │       ├── RightHandSides
                │       │   └── RightHandSide
                │       │       ├── TOr <- '|'
                │       │       ├── Ids
                │       │       │   └──  <- 'NULL'
                │       │       └── PatternOpt
                │       │           └──  <- 'NULL'
                │       └── TSemi <- ';'
                └── TRightBrace <- '}'"
        )
    }

    #[test]
    fn mod_non_consuming_transitions() {
        //setup
        let spec = "
alphabet 'abc'

cdfa {
    start1
        'a' -> ^A1
        'b' ->> start2
        _ ->> start3;

    start2
        'b' -> ^B2
        'c' -> ^C2;

    start3
        'c' -> ^C3;
}

grammar {
    s |;
}
        ";

        let input = "abca".to_string();
        let chars: Vec<char> = input.chars().collect();

        let lexer = lex::def_lexer();
        let tree = parse_spec(spec);
        let parse = tree.unwrap();
        let (cdfa, _, _) = generate_spec(&parse, SimpleGrammarBuilder::new()).unwrap();

        //exercise
        let tokens = lexer.lex(&chars[..], &cdfa).unwrap();

        //verify
        assert_eq!(
            tokens_string(tokens),
            "
kind=A1 lexeme=a
kind=B2 lexeme=b
kind=C3 lexeme=c
kind=A1 lexeme=a"
        )
    }

    #[test]
    fn inject_left_before_nested_empty_optional() {
        //setup
        let spec = "
alphabet 'abc'

cdfa {
    start
        'a' -> ^A
        'b' -> ^B
        'c' -> ^C;
}

inject left C

grammar {
    s
        | v B
        | ;

    v
        | A [s];
}
        ";

        let input = "acb".to_string();
        let chars: Vec<char> = input.chars().collect();

        let lexer = lex::def_lexer();
        let tree = parse_spec(spec);
        let parse = tree.unwrap();
        let (cdfa, grammar, _) = generate_spec(&parse, SimpleGrammarBuilder::new()).unwrap();

        //exercise
        let tokens = lexer.lex(&chars[..], &cdfa).unwrap();
        let parse = parse::def_parser().parse(tokens, &grammar).unwrap();

        //verify
        assert_eq!(
            parse.to_string(),
            "└── s
    ├── v
    │   ├── A <- 'a'
    │   ├── << C <- 'c'
    │   └── opt#s
    │       └──  <- 'NULL'
    └── B <- 'b'"
        )
    }

    fn tokens_string(tokens: Vec<Token<String>>) -> String {
        let mut res_string = String::new();
        for token in tokens {
            res_string = format!(
                "{}\nkind={} lexeme={}",
                res_string,
                Data::to_string(token.kind()),
                token.lexeme()
            );
        }
        res_string
    }

#[test]
fn spec_missing_grammar_region() {
    let parse = parse_spec("cdfa { start 'a' -> ^A; }").unwrap();
    let res = generate_spec(&parse, SimpleGrammarBuilder::<String>::new());
    match res {
        Err(err) => {
            assert!(matches!(
                err,
                GenError::RegionErr(region::Error::MissingRequired(RegionType::Grammar))
            ));
            assert_eq!(err.message(), "Region error: Missing required region: 'Grammar'");
        }
        Ok(_) => panic!("expected a region error"),
    }
}

#[test]
fn spec_missing_cdfa_region() {
    let parse = parse_spec("grammar { s | A; }").unwrap();
    let res = generate_spec(&parse, SimpleGrammarBuilder::<String>::new());
    assert!(matches!(
        res,
        Err(GenError::RegionErr(region::Error::MissingRequired(RegionType::CDFA)))
    ));
}

#[test]
fn spec_orphaned_terminal() {
    let parse = parse_spec("cdfa { start 'a' -> ^A; } grammar { s | A B; }").unwrap();
    let res = generate_spec(&parse, SimpleGrammarBuilder::<String>::new());
    match res {
        Err(GenError::MappingErr(m)) => {
            assert_eq!(m, "Orphaned terminal 'B' is not tokenized by the ECDFA")
        }
        _ => panic!("expected a mapping error"),
    }
}

#[test]
fn spec_range_bound_error() {
    let parse =
        parse_spec("alphabet 'ab' cdfa { start 'ab' .. 'b' -> ^X; } grammar { s | X; }").unwrap();
    let res = generate_spec(&parse, SimpleGrammarBuilder::<String>::new());
    match res {
        Err(err) => assert_eq!(
            err.message(),
            "Matcher definition error: Range start must be one character, but was 'ab'"
        ),
        Ok(_) => panic!("expected a matcher error"),
    }
}

#[test]
fn spec_duplicate_injection() {
    let parse = parse_spec(
        "inject left A inject right A cdfa { start 'a' -> ^A; } grammar { s | A; }",
    )
    .unwrap();
    let res = generate_spec(&parse, SimpleGrammarBuilder::<String>::new());
    match res {
        Err(err) => assert_eq!(
            err.message(),
            "Formatter build error: Injection specified multiple times for symbol 'A'"
        ),
        Ok(_) => panic!("expected a formatter error"),
    }
}

#[test]
fn spec_malformed_tree() {
    let parse = Tree {
        lhs: Token::interior(SpecSymbol::Spec),
        children: vec![],
        production: None,
        spm: SymbolParseMethod::Standard,
    };
    let res = generate_spec(&parse, SimpleGrammarBuilder::<String>::new());
    assert!(matches!(res, Err(GenError::MalformedErr(_))));
}

#[test]
fn spec_encoded_grammar_formats_alike() {
    let spec = "
alphabet 'ab '

cdfa {
    start
        'a' -> ^A
        'b' -> ^B
        ' ' -> ^_;
}

grammar {
    s
        | s x `{} {}`
        | x;
    x
        | A
        | B `<{}>`;
}
    ";
    let chars: Vec<char> = "a b  ab".chars().collect();
    let parse = parse_spec(spec).unwrap();

    let (cdfa, grammar, formatter) =
        generate_spec(&parse, SimpleGrammarBuilder::<String>::new()).unwrap();
    let tokens = lex::def_lexer().lex(&chars[..], &cdfa).unwrap();
    let tree = parse::def_parser().parse(tokens, &grammar).unwrap();
    let simple = formatter.format(&tree);

    let (cdfa, grammar, formatter) = generate_spec(&parse, EncodedGrammarBuilder::new()).unwrap();
    let tokens = lex::def_lexer().lex(&chars[..], &cdfa).unwrap();
    let tree = parse::def_parser().parse(tokens, &grammar).unwrap();
    let encoded = formatter.format(&tree);

    assert_eq!(simple, "a <b> a <b>");
    assert_eq!(encoded, simple);
}

#[test]
fn library_usage_separates_tokens() {
    let spec = "
alphabet 'ab'

cdfa {
    start
        'a' -> ^A
        'b' -> ^B;
}

grammar {
    s `{} {}`
        | s A
        | s B
        | `SEPARATED:`;
}
    ";
    let input = "abbaba".to_string();
    let chars: Vec<char> = input.chars().collect();

    let parse = parse_spec(spec).unwrap();
    let (cdfa, grammar, formatter) = generate_spec(&parse, SimpleGrammarBuilder::new()).unwrap();
    let tokens = lex::def_lexer().lex(&chars[..], &cdfa).unwrap();
    let tree = parse::def_parser().parse(tokens, &grammar).unwrap();

    assert_eq!(formatter.format(&tree), "SEPARATED: a b b a b a");
}
