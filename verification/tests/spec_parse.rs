use padd::lex;
use padd::spec::lang::SpecSymbol;
use padd::spec::{parse_spec, ParseError};

    #[test]
    fn mod_parse_spec_spaces() {
        //setup
        let input = "alphabet' 'cdfa{start;}grammar{s|s b;}";

        //exercise
        let tree = parse_spec(input).unwrap();

        //verify
        assert_eq!(
            tree.to_string(),
            "└── Spec
    └── Regions
        ├── Regions
        │   ├── Regions
        │   │   └── Region
        │   │       └── Alphabet
        │   │           ├── TAlphabet <- 'alphabet'
        │   │           └── TCil <- '' ''
        │   └── Region
        │       └── CDFA
        │           ├── TCDFA <- 'cdfa'
        │           ├── TLeftBrace <- '{'
        │           ├── States
        │           │   └── State
        │           │       ├── StateDeclarator
        │           │       │   └── Targets
        │           │       │       └── TId <- 'start'
        │           │       ├── TransitionsOpt
        │           │       │   └──  <- 'NULL'
        │           │       └── TSemi <- ';'
        │           └── TRightBrace <- '}'
        └── Region
            └── Grammar
                ├── TGrammar <- 'grammar'
                ├── TLeftBrace <- '{'
                ├── Productions
                │   └── Production
                │       ├── TId <- 's'
                │       ├── PatternOpt
                │       │   └──  <- 'NULL'
                │       ├── RightHandSides
                │       │   └── RightHandSide
                │       │       ├── TOr <- '|'
                │       │       ├── Ids
                │       │       │   ├── Ids
                │       │       │   │   ├── Ids
                │       │       │   │   │   └──  <- 'NULL'
                │       │       │   │   └── TId <- 's'
                │       │       │   └── TId <- 'b'
                │       │       └── PatternOpt
                │       │           └──  <- 'NULL'
                │       └── TSemi <- ';'
                └── TRightBrace <- '}'"
        );
    }

    #[test]
    fn mod_parse_spec_simple() {
        //setup
        let input = "
alphabet ' \t\n{}'

cdfa {
    start
        ' ' -> ws
        '\t' -> ws
        '\n' -> ws
        '{' -> lbr
        '}' -> rbr;

    ws  ^WHITESPACE
        ' ' -> ws
        '\t' -> ws
        '\n' -> ws;

    lbr ^LBRACKET;

    rbr ^RBRACKET;
}

grammar {
    s
        | s b
        |;
    b
        | LBRACKET s RBRACKET ``
        | w;

    w | WHITESPACE `[prefix]{0}\n\n{1;prefix=[prefix]\t}[prefix]{2}\n\n`;
}
        ";

        //exercise
        let tree = parse_spec(input).unwrap();

        //verify
        assert_eq!(tree.to_string(),
                   "└── Spec
    └── Regions
        ├── Regions
        │   ├── Regions
        │   │   └── Region
        │   │       └── Alphabet
        │   │           ├── TAlphabet <- 'alphabet'
        │   │           └── TCil <- '' \\t\\n{}''
        │   └── Region
        │       └── CDFA
        │           ├── TCDFA <- 'cdfa'
        │           ├── TLeftBrace <- '{'
        │           ├── States
        │           │   ├── States
        │           │   │   ├── States
        │           │   │   │   ├── States
        │           │   │   │   │   └── State
        │           │   │   │   │       ├── StateDeclarator
        │           │   │   │   │       │   └── Targets
        │           │   │   │   │       │       └── TId <- 'start'
        │           │   │   │   │       ├── TransitionsOpt
        │           │   │   │   │       │   └── Transitions
        │           │   │   │   │       │       ├── Transitions
        │           │   │   │   │       │       │   ├── Transitions
        │           │   │   │   │       │       │   │   ├── Transitions
        │           │   │   │   │       │       │   │   │   ├── Transitions
        │           │   │   │   │       │       │   │   │   │   └── Transition
        │           │   │   │   │       │       │   │   │   │       ├── TransitionPattern
        │           │   │   │   │       │       │   │   │   │       │   └── Matchers
        │           │   │   │   │       │       │   │   │   │       │       └── Matcher
        │           │   │   │   │       │       │   │   │   │       │           └── TCil <- '' ''
        │           │   │   │   │       │       │   │   │   │       ├── TransitionMethod
        │           │   │   │   │       │       │   │   │   │       │   └── TArrow <- '->'
        │           │   │   │   │       │       │   │   │   │       └── TransitionDestination
        │           │   │   │   │       │       │   │   │   │           └── TId <- 'ws'
        │           │   │   │   │       │       │   │   │   └── Transition
        │           │   │   │   │       │       │   │   │       ├── TransitionPattern
        │           │   │   │   │       │       │   │   │       │   └── Matchers
        │           │   │   │   │       │       │   │   │       │       └── Matcher
        │           │   │   │   │       │       │   │   │       │           └── TCil <- ''\\t''
        │           │   │   │   │       │       │   │   │       ├── TransitionMethod
        │           │   │   │   │       │       │   │   │       │   └── TArrow <- '->'
        │           │   │   │   │       │       │   │   │       └── TransitionDestination
        │           │   │   │   │       │       │   │   │           └── TId <- 'ws'
        │           │   │   │   │       │       │   │   └── Transition
        │           │   │   │   │       │       │   │       ├── TransitionPattern
        │           │   │   │   │       │       │   │       │   └── Matchers
        │           │   │   │   │       │       │   │       │       └── Matcher
        │           │   │   │   │       │       │   │       │           └── TCil <- ''\\n''
        │           │   │   │   │       │       │   │       ├── TransitionMethod
        │           │   │   │   │       │       │   │       │   └── TArrow <- '->'
        │           │   │   │   │       │       │   │       └── TransitionDestination
        │           │   │   │   │       │       │   │           └── TId <- 'ws'
        │           │   │   │   │       │       │   └── Transition
        │           │   │   │   │       │       │       ├── TransitionPattern
        │           │   │   │   │       │       │       │   └── Matchers
        │           │   │   │   │       │       │       │       └── Matcher
        │           │   │   │   │       │       │       │           └── TCil <- ''{''
        │           │   │   │   │       │       │       ├── TransitionMethod
        │           │   │   │   │       │       │       │   └── TArrow <- '->'
        │           │   │   │   │       │       │       └── TransitionDestination
        │           │   │   │   │       │       │           └── TId <- 'lbr'
        │           │   │   │   │       │       └── Transition
        │           │   │   │   │       │           ├── TransitionPattern
        │           │   │   │   │       │           │   └── Matchers
        │           │   │   │   │       │           │       └── Matcher
        │           │   │   │   │       │           │           └── TCil <- ''}''
        │           │   │   │   │       │           ├── TransitionMethod
        │           │   │   │   │       │           │   └── TArrow <- '->'
        │           │   │   │   │       │           └── TransitionDestination
        │           │   │   │   │       │               └── TId <- 'rbr'
        │           │   │   │   │       └── TSemi <- ';'
        │           │   │   │   └── State
        │           │   │   │       ├── StateDeclarator
        │           │   │   │       │   ├── Targets
        │           │   │   │       │   │   └── TId <- 'ws'
        │           │   │   │       │   └── Acceptor
        │           │   │   │       │       ├── THat <- '^'
        │           │   │   │       │       ├── IdOrDef
        │           │   │   │       │       │   └── TId <- 'WHITESPACE'
        │           │   │   │       │       └── AcceptorDestinationOpt
        │           │   │   │       │           └──  <- 'NULL'
        │           │   │   │       ├── TransitionsOpt
        │           │   │   │       │   └── Transitions
        │           │   │   │       │       ├── Transitions
        │           │   │   │       │       │   ├── Transitions
        │           │   │   │       │       │   │   └── Transition
        │           │   │   │       │       │   │       ├── TransitionPattern
        │           │   │   │       │       │   │       │   └── Matchers
        │           │   │   │       │       │   │       │       └── Matcher
        │           │   │   │       │       │   │       │           └── TCil <- '' ''
        │           │   │   │       │       │   │       ├── TransitionMethod
        │           │   │   │       │       │   │       │   └── TArrow <- '->'
        │           │   │   │       │       │   │       └── TransitionDestination
        │           │   │   │       │       │   │           └── TId <- 'ws'
        │           │   │   │       │       │   └── Transition
        │           │   │   │       │       │       ├── TransitionPattern
        │           │   │   │       │       │       │   └── Matchers
        │           │   │   │       │       │       │       └── Matcher
        │           │   │   │       │       │       │           └── TCil <- ''\\t''
        │           │   │   │       │       │       ├── TransitionMethod
        │           │   │   │       │       │       │   └── TArrow <- '->'
        │           │   │   │       │       │       └── TransitionDestination
        │           │   │   │       │       │           └── TId <- 'ws'
        │           │   │   │       │       └── Transition
        │           │   │   │       │           ├── TransitionPattern
        │           │   │   │       │           │   └── Matchers
        │           │   │   │       │           │       └── Matcher
        │           │   │   │       │           │           └── TCil <- ''\\n''
        │           │   │   │       │           ├── TransitionMethod
        │           │   │   │       │           │   └── TArrow <- '->'
        │           │   │   │       │           └── TransitionDestination
        │           │   │   │       │               └── TId <- 'ws'
        │           │   │   │       └── TSemi <- ';'
        │           │   │   └── State
        │           │   │       ├── StateDeclarator
        │           │   │       │   ├── Targets
        │           │   │       │   │   └── TId <- 'lbr'
        │           │   │       │   └── Acceptor
        │           │   │       │       ├── THat <- '^'
        │           │   │       │       ├── IdOrDef
        │           │   │       │       │   └── TId <- 'LBRACKET'
        │           │   │       │       └── AcceptorDestinationOpt
        │           │   │       │           └──  <- 'NULL'
        │           │   │       ├── TransitionsOpt
        │           │   │       │   └──  <- 'NULL'
        │           │   │       └── TSemi <- ';'
        │           │   └── State
        │           │       ├── StateDeclarator
        │           │       │   ├── Targets
        │           │       │   │   └── TId <- 'rbr'
        │           │       │   └── Acceptor
        │           │       │       ├── THat <- '^'
        │           │       │       ├── IdOrDef
        │           │       │       │   └── TId <- 'RBRACKET'
        │           │       │       └── AcceptorDestinationOpt
        │           │       │           └──  <- 'NULL'
        │           │       ├── TransitionsOpt
        │           │       │   └──  <- 'NULL'
        │           │       └── TSemi <- ';'
        │           └── TRightBrace <- '}'
        └── Region
            └── Grammar
                ├── TGrammar <- 'grammar'
                ├── TLeftBrace <- '{'
                ├── Productions
                │   ├── Productions
                │   │   ├── Productions
                │   │   │   └── Production
                │   │   │       ├── TId <- 's'
                │   │   │       ├── PatternOpt
                │   │   │       │   └──  <- 'NULL'
                │   │   │       ├── RightHandSides
                │   │   │       │   ├── RightHandSides
                │   │   │       │   │   └── RightHandSide
                │   │   │       │   │       ├── TOr <- '|'
                │   │   │       │   │       ├── Ids
                │   │   │       │   │       │   ├── Ids
                │   │   │       │   │       │   │   ├── Ids
                │   │   │       │   │       │   │   │   └──  <- 'NULL'
                │   │   │       │   │       │   │   └── TId <- 's'
                │   │   │       │   │       │   └── TId <- 'b'
                │   │   │       │   │       └── PatternOpt
                │   │   │       │   │           └──  <- 'NULL'
                │   │   │       │   └── RightHandSide
                │   │   │       │       ├── TOr <- '|'
                │   │   │       │       ├── Ids
                │   │   │       │       │   └──  <- 'NULL'
                │   │   │       │       └── PatternOpt
                │   │   │       │           └──  <- 'NULL'
                │   │   │       └── TSemi <- ';'
                │   │   └── Production
                │   │       ├── TId <- 'b'
                │   │       ├── PatternOpt
                │   │       │   └──  <- 'NULL'
                │   │       ├── RightHandSides
                │   │       │   ├── RightHandSides
                │   │       │   │   └── RightHandSide
                │   │       │   │       ├── TOr <- '|'
                │   │       │   │       ├── Ids
                │   │       │   │       │   ├── Ids
                │   │       │   │       │   │   ├── Ids
                │   │       │   │       │   │   │   ├── Ids
                │   │       │   │       │   │   │   │   └──  <- 'NULL'
                │   │       │   │       │   │   │   └── TId <- 'LBRACKET'
                │   │       │   │       │   │   └── TId <- 's'
                │   │       │   │       │   └── TId <- 'RBRACKET'
                │   │       │   │       └── PatternOpt
                │   │       │   │           └── TPattern <- '``'
                │   │       │   └── RightHandSide
                │   │       │       ├── TOr <- '|'
                │   │       │       ├── Ids
                │   │       │       │   ├── Ids
                │   │       │       │   │   └──  <- 'NULL'
                │   │       │       │   └── TId <- 'w'
                │   │       │       └── PatternOpt
                │   │       │           └──  <- 'NULL'
                │   │       └── TSemi <- ';'
                │   └── Production
                │       ├── TId <- 'w'
                │       ├── PatternOpt
                │       │   └──  <- 'NULL'
                │       ├── RightHandSides
                │       │   └── RightHandSide
                │       │       ├── TOr <- '|'
                │       │       ├── Ids
                │       │       │   ├── Ids
                │       │       │   │   └──  <- 'NULL'
                │       │       │   └── TId <- 'WHITESPACE'
                │       │       └── PatternOpt
                │       │           └── TPattern <- '`[prefix]{0}\\n\\n{1;prefix=[prefix]\\t}[prefix]{2}\\n\\n`'
                │       └── TSemi <- ';'
                └── TRightBrace <- '}'"
        );
    }

    #[test]
    fn parse_spec_complex() {
        //setup
        let input = "
alphabet 'vinj '

cdfa {
    start
        'i' -> ki
        _ -> ^ID;

    ki
        'n' -> ^IN -> ki;

    ID | ki
        ' ' -> fail
        _ ->> ID;

    state   ^ACC -> other_start
        'v' -> ^_
        'i' .. 'j' -> def_acc;

    def_acc ^_;
}

grammar {
    s `{} {}`
        | ID s
        | ID `{}`;
}
        ";

        //exercise
        let tree = parse_spec(input).unwrap();

        //verify
        assert_eq!(
            tree.to_string(),
            "└── Spec
    └── Regions
        ├── Regions
        │   ├── Regions
        │   │   └── Region
        │   │       └── Alphabet
        │   │           ├── TAlphabet <- 'alphabet'
        │   │           └── TCil <- ''vinj ''
        │   └── Region
        │       └── CDFA
        │           ├── TCDFA <- 'cdfa'
        │           ├── TLeftBrace <- '{'
        │           ├── States
        │           │   ├── States
        │           │   │   ├── States
        │           │   │   │   ├── States
        │           │   │   │   │   ├── States
        │           │   │   │   │   │   └── State
        │           │   │   │   │   │       ├── StateDeclarator
        │           │   │   │   │   │       │   └── Targets
        │           │   │   │   │   │       │       └── TId <- 'start'
        │           │   │   │   │   │       ├── TransitionsOpt
        │           │   │   │   │   │       │   └── Transitions
        │           │   │   │   │   │       │       ├── Transitions
        │           │   │   │   │   │       │       │   └── Transition
        │           │   │   │   │   │       │       │       ├── TransitionPattern
        │           │   │   │   │   │       │       │       │   └── Matchers
        │           │   │   │   │   │       │       │       │       └── Matcher
        │           │   │   │   │   │       │       │       │           └── TCil <- ''i''
        │           │   │   │   │   │       │       │       ├── TransitionMethod
        │           │   │   │   │   │       │       │       │   └── TArrow <- '->'
        │           │   │   │   │   │       │       │       └── TransitionDestination
        │           │   │   │   │   │       │       │           └── TId <- 'ki'
        │           │   │   │   │   │       │       └── Transition
        │           │   │   │   │   │       │           ├── TransitionPattern
        │           │   │   │   │   │       │           │   └── TDef <- '_'
        │           │   │   │   │   │       │           ├── TransitionMethod
        │           │   │   │   │   │       │           │   └── TArrow <- '->'
        │           │   │   │   │   │       │           └── TransitionDestination
        │           │   │   │   │   │       │               └── Acceptor
        │           │   │   │   │   │       │                   ├── THat <- '^'
        │           │   │   │   │   │       │                   ├── IdOrDef
        │           │   │   │   │   │       │                   │   └── TId <- 'ID'
        │           │   │   │   │   │       │                   └── AcceptorDestinationOpt
        │           │   │   │   │   │       │                       └──  <- 'NULL'
        │           │   │   │   │   │       └── TSemi <- ';'
        │           │   │   │   │   └── State
        │           │   │   │   │       ├── StateDeclarator
        │           │   │   │   │       │   └── Targets
        │           │   │   │   │       │       └── TId <- 'ki'
        │           │   │   │   │       ├── TransitionsOpt
        │           │   │   │   │       │   └── Transitions
        │           │   │   │   │       │       └── Transition
        │           │   │   │   │       │           ├── TransitionPattern
        │           │   │   │   │       │           │   └── Matchers
        │           │   │   │   │       │           │       └── Matcher
        │           │   │   │   │       │           │           └── TCil <- ''n''
        │           │   │   │   │       │           ├── TransitionMethod
        │           │   │   │   │       │           │   └── TArrow <- '->'
        │           │   │   │   │       │           └── TransitionDestination
        │           │   │   │   │       │               └── Acceptor
        │           │   │   │   │       │                   ├── THat <- '^'
        │           │   │   │   │       │                   ├── IdOrDef
        │           │   │   │   │       │                   │   └── TId <- 'IN'
        │           │   │   │   │       │                   └── AcceptorDestinationOpt
        │           │   │   │   │       │                       ├── TArrow <- '->'
        │           │   │   │   │       │                       └── TId <- 'ki'
        │           │   │   │   │       └── TSemi <- ';'
        │           │   │   │   └── State
        │           │   │   │       ├── StateDeclarator
        │           │   │   │       │   └── Targets
        │           │   │   │       │       ├── Targets
        │           │   │   │       │       │   └── TId <- 'ID'
        │           │   │   │       │       ├── TOr <- '|'
        │           │   │   │       │       └── TId <- 'ki'
        │           │   │   │       ├── TransitionsOpt
        │           │   │   │       │   └── Transitions
        │           │   │   │       │       ├── Transitions
        │           │   │   │       │       │   └── Transition
        │           │   │   │       │       │       ├── TransitionPattern
        │           │   │   │       │       │       │   └── Matchers
        │           │   │   │       │       │       │       └── Matcher
        │           │   │   │       │       │       │           └── TCil <- '' ''
        │           │   │   │       │       │       ├── TransitionMethod
        │           │   │   │       │       │       │   └── TArrow <- '->'
        │           │   │   │       │       │       └── TransitionDestination
        │           │   │   │       │       │           └── TId <- 'fail'
        │           │   │   │       │       └── Transition
        │           │   │   │       │           ├── TransitionPattern
        │           │   │   │       │           │   └── TDef <- '_'
        │           │   │   │       │           ├── TransitionMethod
        │           │   │   │       │           │   └── TDoubleArrow <- '->>'
        │           │   │   │       │           └── TransitionDestination
        │           │   │   │       │               └── TId <- 'ID'
        │           │   │   │       └── TSemi <- ';'
        │           │   │   └── State
        │           │   │       ├── StateDeclarator
        │           │   │       │   ├── Targets
        │           │   │       │   │   └── TId <- 'state'
        │           │   │       │   └── Acceptor
        │           │   │       │       ├── THat <- '^'
        │           │   │       │       ├── IdOrDef
        │           │   │       │       │   └── TId <- 'ACC'
        │           │   │       │       └── AcceptorDestinationOpt
        │           │   │       │           ├── TArrow <- '->'
        │           │   │       │           └── TId <- 'other_start'
        │           │   │       ├── TransitionsOpt
        │           │   │       │   └── Transitions
        │           │   │       │       ├── Transitions
        │           │   │       │       │   └── Transition
        │           │   │       │       │       ├── TransitionPattern
        │           │   │       │       │       │   └── Matchers
        │           │   │       │       │       │       └── Matcher
        │           │   │       │       │       │           └── TCil <- ''v''
        │           │   │       │       │       ├── TransitionMethod
        │           │   │       │       │       │   └── TArrow <- '->'
        │           │   │       │       │       └── TransitionDestination
        │           │   │       │       │           └── Acceptor
        │           │   │       │       │               ├── THat <- '^'
        │           │   │       │       │               ├── IdOrDef
        │           │   │       │       │               │   └── TDef <- '_'
        │           │   │       │       │               └── AcceptorDestinationOpt
        │           │   │       │       │                   └──  <- 'NULL'
        │           │   │       │       └── Transition
        │           │   │       │           ├── TransitionPattern
        │           │   │       │           │   └── Matchers
        │           │   │       │           │       └── Matcher
        │           │   │       │           │           ├── TCil <- ''i''
        │           │   │       │           │           ├── TRange <- '..'
        │           │   │       │           │           └── TCil <- ''j''
        │           │   │       │           ├── TransitionMethod
        │           │   │       │           │   └── TArrow <- '->'
        │           │   │       │           └── TransitionDestination
        │           │   │       │               └── TId <- 'def_acc'
        │           │   │       └── TSemi <- ';'
        │           │   └── State
        │           │       ├── StateDeclarator
        │           │       │   ├── Targets
        │           │       │   │   └── TId <- 'def_acc'
        │           │       │   └── Acceptor
        │           │       │       ├── THat <- '^'
        │           │       │       ├── IdOrDef
        │           │       │       │   └── TDef <- '_'
        │           │       │       └── AcceptorDestinationOpt
        │           │       │           └──  <- 'NULL'
        │           │       ├── TransitionsOpt
        │           │       │   └──  <- 'NULL'
        │           │       └── TSemi <- ';'
        │           └── TRightBrace <- '}'
        └── Region
            └── Grammar
                ├── TGrammar <- 'grammar'
                ├── TLeftBrace <- '{'
                ├── Productions
                │   └── Production
                │       ├── TId <- 's'
                │       ├── PatternOpt
                │       │   └── TPattern <- '`{} {}`'
                │       ├── RightHandSides
                │       │   ├── RightHandSides
                │       │   │   └── RightHandSide
                │       │   │       ├── TOr <- '|'
                │       │   │       ├── Ids
                │       │   │       │   ├── Ids
                │       │   │       │   │   ├── Ids
                │       │   │       │   │   │   └──  <- 'NULL'
                │       │   │       │   │   └── TId <- 'ID'
                │       │   │       │   └── TId <- 's'
                │       │   │       └── PatternOpt
                │       │   │           └──  <- 'NULL'
                │       │   └── RightHandSide
                │       │       ├── TOr <- '|'
                │       │       ├── Ids
                │       │       │   ├── Ids
                │       │       │   │   └──  <- 'NULL'
                │       │       │   └── TId <- 'ID'
                │       │       └── PatternOpt
                │       │           └── TPattern <- '`{}`'
                │       └── TSemi <- ';'
                └── TRightBrace <- '}'"
        );
    }

#[test]
fn spec_lex_error_outside_alphabet() {
    let res = parse_spec("alphabet 'a\u{e9}'");
    match res {
        Err(ParseError::LexErr(lex::Error::AlphabetErr(c))) => assert_eq!(c, '\u{e9}'),
        _ => panic!("expected an alphabet error"),
    }
    let message = parse_spec("cdfa { s '\u{e9}' }").err().unwrap().message();
    assert_eq!(message, "Lex error: Consuming character outside lexer alphabet: '\u{e9}'");
}

#[test]
fn spec_lex_error_unaccepted() {
    let res = parse_spec("cdfa { start 'a");
    assert!(matches!(res, Err(ParseError::LexErr(lex::Error::UnacceptedErr(_)))));
}

#[test]
fn spec_parse_error_unclosed_region() {
    let res = parse_spec("cdfa { start ;");
    match res {
        Err(ParseError::ParseErr(err)) => {
            assert_eq!(err.message, "Recognition failed after consuming all tokens")
        }
        _ => panic!("expected a parse error"),
    }
}

#[test]
fn spec_parse_error_empty() {
    let res = parse_spec("  # only a comment\n");
    match res {
        Err(err) => assert_eq!(err.message(), "Parse error: No symbols tokenized"),
        Ok(_) => panic!("expected a parse error"),
    }
}

#[test]
fn spec_root_is_spec() {
    let tree = parse_spec("ignore ws inject left comment `{}`").unwrap();
    assert_eq!(tree.lhs.kind(), &SpecSymbol::Spec);
    assert_eq!(
        tree.to_string(),
        "\u{2514}\u{2500}\u{2500} Spec
    \u{2514}\u{2500}\u{2500} Regions
        \u{251c}\u{2500}\u{2500} Regions
        \u{2502}   \u{2514}\u{2500}\u{2500} Region
        \u{2502}       \u{2514}\u{2500}\u{2500} Ignorable
        \u{2502}           \u{251c}\u{2500}\u{2500} TIgnorable <- 'ignore'
        \u{2502}           \u{2514}\u{2500}\u{2500} TId <- 'ws'
        \u{2514}\u{2500}\u{2500} Region
            \u{2514}\u{2500}\u{2500} Injectable
                \u{251c}\u{2500}\u{2500} TInjectable <- 'inject'
                \u{251c}\u{2500}\u{2500} TInjectionAffinity <- 'left'
                \u{251c}\u{2500}\u{2500} TId <- 'comment'
                \u{2514}\u{2500}\u{2500} PatternOpt
                    \u{2514}\u{2500}\u{2500} TPattern <- '`{}`'"
    );
}
