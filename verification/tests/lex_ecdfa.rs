use padd::data::Data;
use padd::lex::ecdfa::{EncodedCDFA, EncodedCDFABuilder};
use padd::lex::{self, CDFABuilder, ConsumerStrategy, Lexer, Token, Transit, TransitBuilder};

fn tokens_string<Kind: Data>(tokens: &Vec<Token<Kind>>) -> String {
    let mut result = String::new();
    for token in tokens {
        result.push_str(&token.to_string());
        result.push('\n');
    }
    result
}

#[derive(PartialEq, Eq, Hash, Clone, Debug)]
enum LexContextSensitiveState {
    Start,
    A,
    BangIn,
    BangOut,
    Hidden,
    Num,
}

impl Data for LexContextSensitiveState {
    fn to_string(&self) -> String {
        format!("{:?}", self)
    }
}

#[derive(PartialEq, Eq, Hash, Clone, Debug)]
enum EcdfaMultipleAcceptorDestinationsState {
    Start,
    A,
    LastA,
}

impl Data for EcdfaMultipleAcceptorDestinationsState {
    fn to_string(&self) -> String {
        format!("{:?}", self)
    }
}

#[derive(PartialEq, Eq, Hash, Clone, Debug)]
enum EcdfaAcceptFromAllTwiceState {
    Start,
    A,
    LastA,
}

impl Data for EcdfaAcceptFromAllTwiceState {
    fn to_string(&self) -> String {
        format!("{:?}", self)
    }
}

#[derive(PartialEq, Eq, Hash, Clone, Debug)]
enum MultipleTransitionAcceptorDestinationsState {
    Start,
    A,
    A1,
    A2,
    B1,
    B2,
}

impl Data for MultipleTransitionAcceptorDestinationsState {
    fn to_string(&self) -> String {
        format!("{:?}", self)
    }
}

#[derive(PartialEq, Eq, Hash, Clone, Debug)]
enum AcceptorDestinationPrecedenceState {
    Start,
    A,
    A1,
    A2,
    B1,
    B2,
}

impl Data for AcceptorDestinationPrecedenceState {
    fn to_string(&self) -> String {
        format!("{:?}", self)
    }
}

#[derive(PartialEq, Eq, Hash, Clone, Debug)]
enum EcdfaNonConsumingTransitionsState {
    Start1,
    Start2,
    A,
    B,
}

impl Data for EcdfaNonConsumingTransitionsState {
    fn to_string(&self) -> String {
        format!("{:?}", self)
    }
}

#[derive(PartialEq, Eq, Hash, Clone, Debug)]
enum LargeRangeTransitionState {
    Start,
}

impl Data for LargeRangeTransitionState {
    fn to_string(&self) -> String {
        format!("{:?}", self)
    }
}

#[derive(PartialEq, Eq, Hash, Clone, Debug)]
enum NonPrefixFreeTransitionsState {
    Start,
    A,
    AB,
    ABC,
}

impl Data for NonPrefixFreeTransitionsState {
    fn to_string(&self) -> String {
        format!("{:?}", self)
    }
}

#[test]
fn lex_binary() {
        let mut builder: EncodedCDFABuilder<String, String> = EncodedCDFABuilder::new();
    builder
        .set_alphabet("01")
        .mark_start(&"start".to_string());
    builder
        .state(&"start".to_string())
        .mark_trans(Transit::to("zero".to_string()), '0')
        .unwrap()
        .mark_trans(Transit::to("notzero".to_string()), '1')
        .unwrap();
    builder
        .state(&"notzero".to_string())
        .default_to(Transit::to("notzero".to_string()))
        .unwrap()
        .accept()
        .tokenize(&"NZ".to_string());
    builder
        .accept(&"zero".to_string())
        .tokenize(&"zero".to_string(), &"ZERO".to_string());

    let cdfa: EncodedCDFA<String> = builder.build().unwrap();

    let input = "000011010101".to_string();
    let chars: Vec<char> = input.chars().collect();

    let lexer = lex::def_lexer();

        let tokens = lexer.lex(&chars[..], &cdfa).unwrap();

        assert_eq!(
        tokens_string(&tokens),
        "\
ZERO <- '0'
ZERO <- '0'
ZERO <- '0'
ZERO <- '0'
NZ <- '11010101'
"
    );
}


#[test]
fn lex_brackets() {
        let mut builder: EncodedCDFABuilder<String, String> = EncodedCDFABuilder::new();
    builder
        .set_alphabet("{} \t\n")
        .mark_start(&"start".to_string());
    builder
        .state(&"start".to_string())
        .mark_trans(Transit::to("ws".to_string()), ' ')
        .unwrap()
        .mark_trans(Transit::to("ws".to_string()), '\t')
        .unwrap()
        .mark_trans(Transit::to("ws".to_string()), '\n')
        .unwrap()
        .mark_trans(Transit::to("lbr".to_string()), '{')
        .unwrap()
        .mark_trans(Transit::to("rbr".to_string()), '}')
        .unwrap();
    builder
        .state(&"ws".to_string())
        .mark_trans(Transit::to("ws".to_string()), ' ')
        .unwrap()
        .mark_trans(Transit::to("ws".to_string()), '\t')
        .unwrap()
        .mark_trans(Transit::to("ws".to_string()), '\n')
        .unwrap()
        .accept()
        .tokenize(&"WS".to_string());
    builder
        .accept(&"lbr".to_string())
        .tokenize(&"lbr".to_string(), &"LBR".to_string())
        .accept(&"rbr".to_string())
        .tokenize(&"rbr".to_string(), &"RBR".to_string());

    let cdfa: EncodedCDFA<String> = builder.build().unwrap();

    let input = "  {{\n}{}{} \t{} \t{}}".to_string();
    let chars: Vec<char> = input.chars().collect();

    let lexer = lex::def_lexer();

        let tokens = lexer.lex(&chars[..], &cdfa).unwrap();

        assert_eq!(
        tokens_string(&tokens),
        "\
WS <- '  '
LBR <- '{'
LBR <- '{'
WS <- '\\n'
RBR <- '}'
LBR <- '{'
RBR <- '}'
LBR <- '{'
RBR <- '}'
WS <- ' \\t'
LBR <- '{'
RBR <- '}'
WS <- ' \\t'
LBR <- '{'
RBR <- '}'
RBR <- '}'
"
    );
}


#[test]
fn lex_ignore() {
        let mut builder: EncodedCDFABuilder<String, String> = EncodedCDFABuilder::new();
    builder
        .set_alphabet("{} \t\n")
        .mark_start(&"start".to_string());
    builder
        .state(&"start".to_string())
        .mark_trans(Transit::to("ws".to_string()), ' ')
        .unwrap()
        .mark_trans(Transit::to("ws".to_string()), '\t')
        .unwrap()
        .mark_trans(Transit::to("ws".to_string()), '\n')
        .unwrap()
        .mark_trans(Transit::to("lbr".to_string()), '{')
        .unwrap()
        .mark_trans(Transit::to("rbr".to_string()), '}')
        .unwrap();
    builder
        .state(&"ws".to_string())
        .mark_trans(Transit::to("ws".to_string()), ' ')
        .unwrap()
        .mark_trans(Transit::to("ws".to_string()), '\t')
        .unwrap()
        .mark_trans(Transit::to("ws".to_string()), '\n')
        .unwrap()
        .accept();
    builder
        .accept(&"lbr".to_string())
        .tokenize(&"lbr".to_string(), &"LBR".to_string())
        .accept(&"rbr".to_string())
        .tokenize(&"rbr".to_string(), &"RBR".to_string());

    let cdfa: EncodedCDFA<String> = builder.build().unwrap();

    let input = "  {{\n}{}{} \t{} \t{}}".to_string();
    let chars: Vec<char> = input.chars().collect();

    let lexer = lex::def_lexer();

        let tokens = lexer.lex(&chars[..], &cdfa).unwrap();

        assert_eq!(
        tokens_string(&tokens),
        "\
LBR <- '{'
LBR <- '{'
RBR <- '}'
LBR <- '{'
RBR <- '}'
LBR <- '{'
RBR <- '}'
LBR <- '{'
RBR <- '}'
LBR <- '{'
RBR <- '}'
RBR <- '}'
"
    );
}


#[test]
fn lex_fail_simple() {
        let mut builder: EncodedCDFABuilder<String, String> = EncodedCDFABuilder::new();
    builder
        .set_alphabet("{} \t\n")
        .mark_start(&"start".to_string());
    builder
        .state(&"start".to_string())
        .mark_trans(Transit::to("ws".to_string()), ' ')
        .unwrap()
        .mark_trans(Transit::to("ws".to_string()), '\t')
        .unwrap()
        .mark_trans(Transit::to("ws".to_string()), '\n')
        .unwrap()
        .mark_trans(Transit::to("lbr".to_string()), '{')
        .unwrap()
        .mark_trans(Transit::to("rbr".to_string()), '}')
        .unwrap();
    builder
        .state(&"ws".to_string())
        .mark_trans(Transit::to("ws".to_string()), ' ')
        .unwrap()
        .mark_trans(Transit::to("ws".to_string()), '\t')
        .unwrap()
        .mark_trans(Transit::to("ws".to_string()), '\n')
        .unwrap()
        .accept();
    builder
        .accept(&"lbr".to_string())
        .tokenize(&"lbr".to_string(), &"LBR".to_string())
        .accept(&"rbr".to_string())
        .tokenize(&"rbr".to_string(), &"RBR".to_string());

    let cdfa: EncodedCDFA<String> = builder.build().unwrap();

    let input = "  {{\n}{}{} \tx{} \t{}}".to_string();
    let chars: Vec<char> = input.chars().collect();

    let lexer = lex::def_lexer();

        let result = lexer.lex(&chars[..], &cdfa);

        assert!(result.is_err());
    match result.err().unwrap() {
        lex::Error::UnacceptedErr(err) => {
            assert_eq!(err.sequence, "x{} \t{}}");
            assert_eq!(err.line, 2);
            assert_eq!(err.character, 8);
        }
        _ => panic!("Unexpected error type"),
    }
}


#[test]
fn lex_fail_complex() {
        let mut builder: EncodedCDFABuilder<String, String> = EncodedCDFABuilder::new();
    builder
        .set_alphabet("{} \t\n")
        .mark_start(&"start".to_string());
    builder
        .state(&"start".to_string())
        .mark_trans(Transit::to("ws".to_string()), ' ')
        .unwrap()
        .mark_trans(Transit::to("ws".to_string()), '\t')
        .unwrap()
        .mark_trans(Transit::to("ws".to_string()), '\n')
        .unwrap()
        .mark_trans(Transit::to("lbr".to_string()), '{')
        .unwrap()
        .mark_trans(Transit::to("rbr".to_string()), '}')
        .unwrap();
    builder
        .state(&"ws".to_string())
        .mark_trans(Transit::to("ws".to_string()), ' ')
        .unwrap()
        .mark_trans(Transit::to("ws".to_string()), '\t')
        .unwrap()
        .mark_trans(Transit::to("ws".to_string()), '\n')
        .unwrap()
        .accept();
    builder
        .accept(&"lbr".to_string())
        .tokenize(&"lbr".to_string(), &"LBR".to_string())
        .accept(&"rbr".to_string())
        .tokenize(&"rbr".to_string(), &"RBR".to_string());

    let cdfa: EncodedCDFA<String> = builder.build().unwrap();

    let input = "   {  {  {{{\t}}}\n {} }  }   { {}\n }   {  {  {{{\t}}}\n {} }  } xyz  { {}\n }   {  {  {{{\t}}}\n {} }  }   { {}\n } ".to_string();
    let chars: Vec<char> = input.chars().collect();

    let lexer = lex::def_lexer();

        let result = lexer.lex(&chars[..], &cdfa);

        assert!(result.is_err());
    match result.err().unwrap() {
        lex::Error::UnacceptedErr(err) => {
            assert_eq!(err.sequence, "xyz  { {}\n");
            assert_eq!(err.line, 4);
            assert_eq!(err.character, 10);
        }
        _ => panic!("Unexpected error type"),
    }
}


#[test]
fn lex_chain_simple() {
        let mut builder: EncodedCDFABuilder<String, String> = EncodedCDFABuilder::new();
    builder
        .set_alphabet("fourive")
        .mark_start(&"start".to_string());
    builder
        .state(&"start".to_string())
        .mark_chain(Transit::to("four".to_string()), "four")
        .unwrap()
        .mark_chain(Transit::to("five".to_string()), "five")
        .unwrap();
    builder
        .accept(&"four".to_string())
        .tokenize(&"four".to_string(), &"FOUR".to_string())
        .accept(&"five".to_string())
        .tokenize(&"five".to_string(), &"FIVE".to_string());

    let cdfa: EncodedCDFA<String> = builder.build().unwrap();

    let input = "fivefourfourfourfivefivefourfive".to_string();
    let chars: Vec<char> = input.chars().collect();

    let lexer = lex::def_lexer();

        let tokens = lexer.lex(&chars[..], &cdfa).unwrap();

        assert_eq!(
        tokens_string(&tokens),
        "\
FIVE <- 'five'
FOUR <- 'four'
FOUR <- 'four'
FOUR <- 'four'
FIVE <- 'five'
FIVE <- 'five'
FOUR <- 'four'
FIVE <- 'five'
"
    );
}


#[test]
fn lex_chain_def() {
        let mut builder: EncodedCDFABuilder<String, String> = EncodedCDFABuilder::new();
    builder
        .set_alphabet("fordk")
        .mark_start(&"start".to_string());
    builder
        .state(&"start".to_string())
        .mark_chain(Transit::to("FOR".to_string()), "for")
        .unwrap()
        .default_to(Transit::to("id".to_string()))
        .unwrap();
    builder
        .accept(&"FOR".to_string())
        .tokenize(&"FOR".to_string(), &"FOR".to_string())
        .accept(&"id".to_string())
        .tokenize(&"id".to_string(), &"ID".to_string());
    builder
        .default_to(&"id".to_string(), Transit::to("id".to_string()))
        .unwrap();

    let cdfa: EncodedCDFA<String> = builder.build().unwrap();

    let input = "fdk".to_string();
    let chars: Vec<char> = input.chars().collect();

    let lexer = lex::def_lexer();

        let tokens = lexer.lex(&chars[..], &cdfa).unwrap();

        assert_eq!(
        tokens_string(&tokens),
        "\
ID <- 'fdk'
"
    );
}


#[test]
fn lex_context_sensitive() {
        let mut builder: EncodedCDFABuilder<LexContextSensitiveState, String> = EncodedCDFABuilder::new();
    builder
        .set_alphabet("a!123456789")
        .mark_start(&LexContextSensitiveState::Start);
    builder
        .state(&LexContextSensitiveState::Start)
        .mark_trans(Transit::to(LexContextSensitiveState::A), 'a')
        .unwrap()
        .mark_trans(Transit::to(LexContextSensitiveState::BangIn), '!')
        .unwrap();
    builder
        .state(&LexContextSensitiveState::A)
        .mark_trans(Transit::to(LexContextSensitiveState::A), 'a')
        .unwrap()
        .tokenize(&"A".to_string())
        .accept();
    builder
        .state(&LexContextSensitiveState::BangIn)
        .tokenize(&"BANG".to_string())
        .accept_to(&LexContextSensitiveState::Hidden);
    builder
        .state(&LexContextSensitiveState::BangOut)
        .tokenize(&"BANG".to_string())
        .accept_to(&LexContextSensitiveState::Start);
    builder
        .state(&LexContextSensitiveState::Hidden)
        .mark_range(Transit::to(LexContextSensitiveState::Num), '1', '9')
        .unwrap()
        .mark_trans(Transit::to(LexContextSensitiveState::BangOut), '!')
        .unwrap();
    builder.state(&LexContextSensitiveState::Num).tokenize(&"NUM".to_string()).accept();

    let cdfa: EncodedCDFA<String> = builder.build().unwrap();

    let input = "!!aaa!!a!49913!a".to_string();
    let chars: Vec<char> = input.chars().collect();

    let lexer = lex::def_lexer();

        let tokens = lexer.lex(&chars[..], &cdfa).unwrap();

        assert_eq!(
        tokens_string(&tokens),
        "\
BANG <- '!'
BANG <- '!'
A <- 'aaa'
BANG <- '!'
BANG <- '!'
A <- 'a'
BANG <- '!'
NUM <- '4'
NUM <- '9'
NUM <- '9'
NUM <- '1'
NUM <- '3'
BANG <- '!'
A <- 'a'
"
    );
}


#[test]
fn ecdfa_multiple_acceptor_destinations() {
        let mut builder: EncodedCDFABuilder<EcdfaMultipleAcceptorDestinationsState, String> = EncodedCDFABuilder::new();
    builder.set_alphabet("a").mark_start(&EcdfaMultipleAcceptorDestinationsState::Start);
    builder
        .mark_trans(
            &EcdfaMultipleAcceptorDestinationsState::Start,
            TransitBuilder::to(EcdfaMultipleAcceptorDestinationsState::A).accept_to(EcdfaMultipleAcceptorDestinationsState::LastA).build(),
            'a',
        )
        .unwrap();
    builder
        .mark_trans(
            &EcdfaMultipleAcceptorDestinationsState::LastA,
            TransitBuilder::to(EcdfaMultipleAcceptorDestinationsState::A).accept_to(EcdfaMultipleAcceptorDestinationsState::Start).build(),
            'a',
        )
        .unwrap();
    builder.state(&EcdfaMultipleAcceptorDestinationsState::A).accept().tokenize(&"A".to_string());

    let cdfa: EncodedCDFA<String> = builder.build().unwrap();

    let input = "aaaa".to_string();
    let chars: Vec<char> = input.chars().collect();

    let lexer = lex::def_lexer();

        let tokens = lexer.lex(&chars[..], &cdfa).unwrap();

        assert_eq!(
        tokens_string(&tokens),
        "\
A <- 'a'
A <- 'a'
A <- 'a'
A <- 'a'
"
    );
}


#[test]
fn ecdfa_accept_from_all_twice() {
        let mut builder: EncodedCDFABuilder<EcdfaAcceptFromAllTwiceState, String> = EncodedCDFABuilder::new();
    builder.set_alphabet("a").mark_start(&EcdfaAcceptFromAllTwiceState::Start);
    builder
        .mark_trans(&EcdfaAcceptFromAllTwiceState::Start, Transit::to(EcdfaAcceptFromAllTwiceState::A), 'a')
        .unwrap();
    builder.accept_to(&EcdfaAcceptFromAllTwiceState::A, &EcdfaAcceptFromAllTwiceState::LastA);
    builder.accept_to(&EcdfaAcceptFromAllTwiceState::A, &EcdfaAcceptFromAllTwiceState::Start);
    builder.state(&EcdfaAcceptFromAllTwiceState::A).tokenize(&"A".to_string());

    let cdfa: EncodedCDFA<String> = builder.build().unwrap();

    let input = "aa".to_string();
    let chars: Vec<char> = input.chars().collect();

    let lexer = lex::def_lexer();

        let tokens = lexer.lex(&chars[..], &cdfa).unwrap();

        assert_eq!(
        tokens_string(&tokens),
        "\
A <- 'a'
A <- 'a'
"
    );
}


#[test]
fn multiple_transition_acceptor_destinations() {
        let mut builder: EncodedCDFABuilder<MultipleTransitionAcceptorDestinationsState, String> = EncodedCDFABuilder::new();
    builder.set_alphabet("12a").mark_start(&MultipleTransitionAcceptorDestinationsState::Start);
    builder
        .state(&MultipleTransitionAcceptorDestinationsState::Start)
        .mark_trans(TransitBuilder::to(MultipleTransitionAcceptorDestinationsState::A).accept_to(MultipleTransitionAcceptorDestinationsState::B1).build(), '1')
        .unwrap()
        .mark_trans(TransitBuilder::to(MultipleTransitionAcceptorDestinationsState::A).accept_to(MultipleTransitionAcceptorDestinationsState::B2).build(), '2')
        .unwrap();
    builder
        .state(&MultipleTransitionAcceptorDestinationsState::B1)
        .mark_trans(Transit::to(MultipleTransitionAcceptorDestinationsState::A1), 'a')
        .unwrap();
    builder
        .state(&MultipleTransitionAcceptorDestinationsState::B2)
        .mark_trans(Transit::to(MultipleTransitionAcceptorDestinationsState::A2), 'a')
        .unwrap();
    builder.state(&MultipleTransitionAcceptorDestinationsState::A).accept().tokenize(&"A".to_string());
    builder
        .state(&MultipleTransitionAcceptorDestinationsState::A1)
        .accept_to(&MultipleTransitionAcceptorDestinationsState::Start)
        .tokenize(&"A1".to_string());
    builder
        .state(&MultipleTransitionAcceptorDestinationsState::A2)
        .accept_to(&MultipleTransitionAcceptorDestinationsState::Start)
        .tokenize(&"A2".to_string());

    let cdfa: EncodedCDFA<String> = builder.build().unwrap();

    let input = "1a2a1a".to_string();
    let chars: Vec<char> = input.chars().collect();

    let lexer = lex::def_lexer();

        let tokens = lexer.lex(&chars[..], &cdfa).unwrap();

        assert_eq!(
        tokens_string(&tokens),
        "\
A <- '1'
A1 <- 'a'
A <- '2'
A2 <- 'a'
A <- '1'
A1 <- 'a'
"
    );
}


#[test]
fn acceptor_destination_precedence() {
        let mut builder: EncodedCDFABuilder<AcceptorDestinationPrecedenceState, String> = EncodedCDFABuilder::new();
    builder.set_alphabet("12a").mark_start(&AcceptorDestinationPrecedenceState::Start);
    builder
        .state(&AcceptorDestinationPrecedenceState::Start)
        .mark_trans(TransitBuilder::to(AcceptorDestinationPrecedenceState::A).accept_to(AcceptorDestinationPrecedenceState::B1).build(), '1')
        .unwrap()
        .mark_trans(Transit::to(AcceptorDestinationPrecedenceState::A), '2')
        .unwrap();
    builder
        .state(&AcceptorDestinationPrecedenceState::B1)
        .mark_trans(Transit::to(AcceptorDestinationPrecedenceState::A1), 'a')
        .unwrap();
    builder
        .state(&AcceptorDestinationPrecedenceState::B2)
        .mark_trans(Transit::to(AcceptorDestinationPrecedenceState::A2), 'a')
        .unwrap();
    builder
        .state(&AcceptorDestinationPrecedenceState::A)
        .accept_to(&AcceptorDestinationPrecedenceState::B2)
        .tokenize(&"A".to_string());
    builder
        .state(&AcceptorDestinationPrecedenceState::A1)
        .accept_to(&AcceptorDestinationPrecedenceState::Start)
        .tokenize(&"A1".to_string());
    builder
        .state(&AcceptorDestinationPrecedenceState::A2)
        .accept_to(&AcceptorDestinationPrecedenceState::Start)
        .tokenize(&"A2".to_string());

    let cdfa: EncodedCDFA<String> = builder.build().unwrap();

    let input = "1a2a1a".to_string();
    let chars: Vec<char> = input.chars().collect();

    let lexer = lex::def_lexer();

        let tokens = lexer.lex(&chars[..], &cdfa).unwrap();

        assert_eq!(
        tokens_string(&tokens),
        "\
A <- '1'
A1 <- 'a'
A <- '2'
A2 <- 'a'
A <- '1'
A1 <- 'a'
"
    );
}


#[test]
fn ecdfa_non_consuming_transitions() {
        let mut builder: EncodedCDFABuilder<EcdfaNonConsumingTransitionsState, String> = EncodedCDFABuilder::new();
    builder.set_alphabet("ab").mark_start(&EcdfaNonConsumingTransitionsState::Start1);
    builder
        .mark_trans(
            &EcdfaNonConsumingTransitionsState::Start1,
            TransitBuilder::to(EcdfaNonConsumingTransitionsState::A)
                .consumer(ConsumerStrategy::All)
                .build(),
            'a',
        )
        .unwrap()
        .default_to(
            &EcdfaNonConsumingTransitionsState::Start1,
            TransitBuilder::to(EcdfaNonConsumingTransitionsState::Start2)
                .consumer(ConsumerStrategy::Nothing)
                .build(),
        )
        .unwrap();
    builder
        .mark_trans(
            &EcdfaNonConsumingTransitionsState::Start2,
            TransitBuilder::to(EcdfaNonConsumingTransitionsState::B)
                .consumer(ConsumerStrategy::All)
                .build(),
            'b',
        )
        .unwrap();
    builder.accept(&EcdfaNonConsumingTransitionsState::A);
    builder.accept(&EcdfaNonConsumingTransitionsState::B);
    builder.state(&EcdfaNonConsumingTransitionsState::A).tokenize(&"A".to_string());
    builder.state(&EcdfaNonConsumingTransitionsState::B).tokenize(&"B".to_string());

    let cdfa: EncodedCDFA<String> = builder.build().unwrap();

    let input = "ab".to_string();
    let chars: Vec<char> = input.chars().collect();

    let lexer = lex::def_lexer();

        let tokens = lexer.lex(&chars[..], &cdfa).unwrap();

        assert_eq!(
        tokens_string(&tokens),
        "\
A <- 'a'
B <- 'b'
"
    );
}


#[test]
fn large_range_transition() {
        let mut builder: EncodedCDFABuilder<LargeRangeTransitionState, String> = EncodedCDFABuilder::new();
    builder.mark_start(&LargeRangeTransitionState::Start);
    builder
        .state(&LargeRangeTransitionState::Start)
        .mark_range(Transit::to(LargeRangeTransitionState::Start), '\0', '嶲')
        .unwrap()
        .accept()
        .tokenize(&"START".to_string());

    let cdfa: EncodedCDFA<String> = builder.build().unwrap();

    let input = "1234567890".to_string();
    let chars: Vec<char> = input.chars().collect();

    let lexer = lex::def_lexer();

        let tokens = lexer.lex(&chars[..], &cdfa).unwrap();

        assert_eq!(tokens_string(&tokens), "START <- '1234567890'\n");
}


#[test]
fn non_prefix_free_transitions() {
        let mut builder: EncodedCDFABuilder<NonPrefixFreeTransitionsState, String> = EncodedCDFABuilder::new();
    builder.mark_start(&NonPrefixFreeTransitionsState::Start);
    builder
        .state(&NonPrefixFreeTransitionsState::Start)
        .mark_trans(Transit::to(NonPrefixFreeTransitionsState::A), 'a')
        .unwrap()
        .mark_chain(Transit::to(NonPrefixFreeTransitionsState::AB), "ab")
        .unwrap()
        .mark_chain(Transit::to(NonPrefixFreeTransitionsState::ABC), "abc")
        .unwrap();

    builder
        .state(&NonPrefixFreeTransitionsState::A)
        .accept()
        .tokenize(&"A".to_string());

    builder
        .state(&NonPrefixFreeTransitionsState::AB)
        .accept()
        .tokenize(&"AB".to_string());

    builder
        .state(&NonPrefixFreeTransitionsState::ABC)
        .accept()
        .tokenize(&"ABC".to_string());

    let cdfa: EncodedCDFA<String> = builder.build().unwrap();

    let input = "aababca".to_string();
    let chars: Vec<char> = input.chars().collect();

    let lexer = lex::def_lexer();

        let tokens = lexer.lex(&chars[..], &cdfa).unwrap();

        assert_eq!(tokens_string(&tokens), "\
A <- 'a'
AB <- 'ab'
ABC <- 'abc'
A <- 'a'
"
    );
}

