use vstd::prelude::*;
use vstd::std_specs::cmp::PartialEqSpecImpl;
use crate::data::{value_exact, Data};
use crate::lex::ecdfa::{
    exact, plain_accept, plain_accept_to, plain_alphabet, plain_builder, plain_chain,
    plain_default, plain_range, plain_start, plain_token, plain_trans, plain_tries, room_within,
    settled, chains_of, encode_transit_spec, ranges_of, trie_of, tries_except, EncodedCDFA, EncodedCDFABuilder,
};
use crate::util::encoder::{encode_spec, first_code, law_encode_decode, lemma_first_code_found, lemma_first_code_prefix};
use crate::fmt::InjectionAffinity;
use crate::lex::ecdfa::{lemma_cdfa_plain, lemma_cdfa_settles};
use crate::lex::longest_match::law_settled_lex_finishes;
use crate::lex::{def_lexer, CDFABuilder, CDFAError, ConsumerStrategy, Lexer, Transit, CDFA};
use crate::parse::{def_parser, Parser, Production, SymbolParseMethod, Tree};
use crate::spec::ParseError;
use crate::text::chars_of;
use crate::parse::grammar::{
    self, add_rules, productions_under, rhs_views, rule_views, rules_under, weighs_parses, Grammar, GrammarBuilder, GrammarSymbol, SimpleGrammar, SimpleGrammarBuilder,
};

verus! {

/// The characters that may occur in a specification.
const SPEC_ALPHABET: &'static str = "`-=~!@#$%^&*()+{}|[]\\;':\"<>?,./_0123456789abcdefghijklmnopqrstuvwxyzABCDEFGHIJKLMNOPQRSTUVWXYZ \n\t\r";

/// The states of the CDFA that lexes specifications.
#[derive(Eq, Hash, Clone, Copy, Debug)]
enum S {
    Start,
    InjectableTag,
    InjectablePreAffinity,
    InjectionAffinity,
    InjectablePreId,
    InjectableId,
    InjectablePreComplete,
    Ignorable,
    IgnorableTag,
    IgnorableId,
    Alphabet,
    AlphabetTag,
    AlphabetString,
    AlphabetStringPartial,
    AlphabetStringEscaped,
    CDFA,
    CDFATag,
    CDFAEntryBrace,
    CDFABody,
    Grammar,
    GrammarTag,
    GrammarEntryBrace,
    GrammarBody,
    RegionExitBrace,
    Or,
    Hat,
    Arrow,
    DoubleArrow,
    Range,
    Pattern,
    PatternPartial,
    Cil,
    CilPartial,
    CilEscaped,
    Comment,
    Semi,
    Def,
    Whitespace,
    Id,
    OptIdPartial,
    OptId,
    Fail,
}

impl S {
    /// The name of the variant.
    pub closed spec fn label(self) -> Seq<char> {
        match self {
            S::Start => "Start"@,
            S::InjectableTag => "InjectableTag"@,
            S::InjectablePreAffinity => "InjectablePreAffinity"@,
            S::InjectionAffinity => "InjectionAffinity"@,
            S::InjectablePreId => "InjectablePreId"@,
            S::InjectableId => "InjectableId"@,
            S::InjectablePreComplete => "InjectablePreComplete"@,
            S::Ignorable => "Ignorable"@,
            S::IgnorableTag => "IgnorableTag"@,
            S::IgnorableId => "IgnorableId"@,
            S::Alphabet => "Alphabet"@,
            S::AlphabetTag => "AlphabetTag"@,
            S::AlphabetString => "AlphabetString"@,
            S::AlphabetStringPartial => "AlphabetStringPartial"@,
            S::AlphabetStringEscaped => "AlphabetStringEscaped"@,
            S::CDFA => "CDFA"@,
            S::CDFATag => "CDFATag"@,
            S::CDFAEntryBrace => "CDFAEntryBrace"@,
            S::CDFABody => "CDFABody"@,
            S::Grammar => "Grammar"@,
            S::GrammarTag => "GrammarTag"@,
            S::GrammarEntryBrace => "GrammarEntryBrace"@,
            S::GrammarBody => "GrammarBody"@,
            S::RegionExitBrace => "RegionExitBrace"@,
            S::Or => "Or"@,
            S::Hat => "Hat"@,
            S::Arrow => "Arrow"@,
            S::DoubleArrow => "DoubleArrow"@,
            S::Range => "Range"@,
            S::Pattern => "Pattern"@,
            S::PatternPartial => "PatternPartial"@,
            S::Cil => "Cil"@,
            S::CilPartial => "CilPartial"@,
            S::CilEscaped => "CilEscaped"@,
            S::Comment => "Comment"@,
            S::Semi => "Semi"@,
            S::Def => "Def"@,
            S::Whitespace => "Whitespace"@,
            S::Id => "Id"@,
            S::OptIdPartial => "OptIdPartial"@,
            S::OptId => "OptId"@,
            S::Fail => "Fail"@,
        }
    }

    /// The position of the variant in the declaration of `S`.
    pub closed spec fn index(self) -> int {
        match self {
            S::Start => 0,
            S::InjectableTag => 1,
            S::InjectablePreAffinity => 2,
            S::InjectionAffinity => 3,
            S::InjectablePreId => 4,
            S::InjectableId => 5,
            S::InjectablePreComplete => 6,
            S::Ignorable => 7,
            S::IgnorableTag => 8,
            S::IgnorableId => 9,
            S::Alphabet => 10,
            S::AlphabetTag => 11,
            S::AlphabetString => 12,
            S::AlphabetStringPartial => 13,
            S::AlphabetStringEscaped => 14,
            S::CDFA => 15,
            S::CDFATag => 16,
            S::CDFAEntryBrace => 17,
            S::CDFABody => 18,
            S::Grammar => 19,
            S::GrammarTag => 20,
            S::GrammarEntryBrace => 21,
            S::GrammarBody => 22,
            S::RegionExitBrace => 23,
            S::Or => 24,
            S::Hat => 25,
            S::Arrow => 26,
            S::DoubleArrow => 27,
            S::Range => 28,
            S::Pattern => 29,
            S::PatternPartial => 30,
            S::Cil => 31,
            S::CilPartial => 32,
            S::CilEscaped => 33,
            S::Comment => 34,
            S::Semi => 35,
            S::Def => 36,
            S::Whitespace => 37,
            S::Id => 38,
            S::OptIdPartial => 39,
            S::OptId => 40,
            S::Fail => 41,
        }
    }

    fn position(&self) -> (i: u8)
        ensures
            i == self.index(),
    {
        match self {
            S::Start => 0,
            S::InjectableTag => 1,
            S::InjectablePreAffinity => 2,
            S::InjectionAffinity => 3,
            S::InjectablePreId => 4,
            S::InjectableId => 5,
            S::InjectablePreComplete => 6,
            S::Ignorable => 7,
            S::IgnorableTag => 8,
            S::IgnorableId => 9,
            S::Alphabet => 10,
            S::AlphabetTag => 11,
            S::AlphabetString => 12,
            S::AlphabetStringPartial => 13,
            S::AlphabetStringEscaped => 14,
            S::CDFA => 15,
            S::CDFATag => 16,
            S::CDFAEntryBrace => 17,
            S::CDFABody => 18,
            S::Grammar => 19,
            S::GrammarTag => 20,
            S::GrammarEntryBrace => 21,
            S::GrammarBody => 22,
            S::RegionExitBrace => 23,
            S::Or => 24,
            S::Hat => 25,
            S::Arrow => 26,
            S::DoubleArrow => 27,
            S::Range => 28,
            S::Pattern => 29,
            S::PatternPartial => 30,
            S::Cil => 31,
            S::CilPartial => 32,
            S::CilEscaped => 33,
            S::Comment => 34,
            S::Semi => 35,
            S::Def => 36,
            S::Whitespace => 37,
            S::Id => 38,
            S::OptIdPartial => 39,
            S::OptId => 40,
            S::Fail => 41,
        }
    }
}

impl PartialEq for S {
    fn eq(&self, other: &Self) -> (r: bool) {
        self.position() == other.position()
    }
}

impl PartialEqSpecImpl for S {
    open spec fn obeys_eq_spec() -> bool {
        true
    }

    open spec fn eq_spec(&self, other: &Self) -> bool {
        self.index() == other.index()
    }
}

impl Data for S {
    open spec fn rendered(&self) -> Seq<char> {
        self.label()
    }

    open spec fn renders_exactly() -> bool {
        true
    }

    fn to_string(&self) -> (r: String)
        ensures
            r@ == self.label(),
    {
        match self {
            S::Start => String::from_str("Start"),
            S::InjectableTag => String::from_str("InjectableTag"),
            S::InjectablePreAffinity => String::from_str("InjectablePreAffinity"),
            S::InjectionAffinity => String::from_str("InjectionAffinity"),
            S::InjectablePreId => String::from_str("InjectablePreId"),
            S::InjectableId => String::from_str("InjectableId"),
            S::InjectablePreComplete => String::from_str("InjectablePreComplete"),
            S::Ignorable => String::from_str("Ignorable"),
            S::IgnorableTag => String::from_str("IgnorableTag"),
            S::IgnorableId => String::from_str("IgnorableId"),
            S::Alphabet => String::from_str("Alphabet"),
            S::AlphabetTag => String::from_str("AlphabetTag"),
            S::AlphabetString => String::from_str("AlphabetString"),
            S::AlphabetStringPartial => String::from_str("AlphabetStringPartial"),
            S::AlphabetStringEscaped => String::from_str("AlphabetStringEscaped"),
            S::CDFA => String::from_str("CDFA"),
            S::CDFATag => String::from_str("CDFATag"),
            S::CDFAEntryBrace => String::from_str("CDFAEntryBrace"),
            S::CDFABody => String::from_str("CDFABody"),
            S::Grammar => String::from_str("Grammar"),
            S::GrammarTag => String::from_str("GrammarTag"),
            S::GrammarEntryBrace => String::from_str("GrammarEntryBrace"),
            S::GrammarBody => String::from_str("GrammarBody"),
            S::RegionExitBrace => String::from_str("RegionExitBrace"),
            S::Or => String::from_str("Or"),
            S::Hat => String::from_str("Hat"),
            S::Arrow => String::from_str("Arrow"),
            S::DoubleArrow => String::from_str("DoubleArrow"),
            S::Range => String::from_str("Range"),
            S::Pattern => String::from_str("Pattern"),
            S::PatternPartial => String::from_str("PatternPartial"),
            S::Cil => String::from_str("Cil"),
            S::CilPartial => String::from_str("CilPartial"),
            S::CilEscaped => String::from_str("CilEscaped"),
            S::Comment => String::from_str("Comment"),
            S::Semi => String::from_str("Semi"),
            S::Def => String::from_str("Def"),
            S::Whitespace => String::from_str("Whitespace"),
            S::Id => String::from_str("Id"),
            S::OptIdPartial => String::from_str("OptIdPartial"),
            S::OptId => String::from_str("OptId"),
            S::Fail => String::from_str("Fail"),
        }
    }
}

/// Spec Symbol: the symbols of the grammar of specifications.
#[derive(Eq, Hash, Clone, Copy, Debug)]
pub enum SpecSymbol {
    Spec,
    Regions,
    Region,
    Injectable,
    Ignorable,
    Alphabet,
    CDFA,
    States,
    State,
    StateDeclarator,
    TransitionsOpt,
    Transitions,
    Transition,
    TransitionPattern,
    TransitionMethod,
    TransitionDestination,
    Matchers,
    Matcher,
    Targets,
    Acceptor,
    IdOrDef,
    AcceptorDestinationOpt,
    Grammar,
    Productions,
    Production,
    PatternOpt,
    RightHandSides,
    RightHandSide,
    Ids,
    TAlphabet,
    TCil,
    TCDFA,
    TLeftBrace,
    TRightBrace,
    TSemi,
    THat,
    TArrow,
    TDoubleArrow,
    TId,
    TOr,
    TRange,
    TGrammar,
    TPattern,
    TOptId,
    TDef,
    TIgnorable,
    TInjectable,
    TInjectionAffinity,
}

impl SpecSymbol {
    /// The name of the variant.
    pub open spec fn label(self) -> Seq<char> {
        match self {
            SpecSymbol::Spec => "Spec"@,
            SpecSymbol::Regions => "Regions"@,
            SpecSymbol::Region => "Region"@,
            SpecSymbol::Injectable => "Injectable"@,
            SpecSymbol::Ignorable => "Ignorable"@,
            SpecSymbol::Alphabet => "Alphabet"@,
            SpecSymbol::CDFA => "CDFA"@,
            SpecSymbol::States => "States"@,
            SpecSymbol::State => "State"@,
            SpecSymbol::StateDeclarator => "StateDeclarator"@,
            SpecSymbol::TransitionsOpt => "TransitionsOpt"@,
            SpecSymbol::Transitions => "Transitions"@,
            SpecSymbol::Transition => "Transition"@,
            SpecSymbol::TransitionPattern => "TransitionPattern"@,
            SpecSymbol::TransitionMethod => "TransitionMethod"@,
            SpecSymbol::TransitionDestination => "TransitionDestination"@,
            SpecSymbol::Matchers => "Matchers"@,
            SpecSymbol::Matcher => "Matcher"@,
            SpecSymbol::Targets => "Targets"@,
            SpecSymbol::Acceptor => "Acceptor"@,
            SpecSymbol::IdOrDef => "IdOrDef"@,
            SpecSymbol::AcceptorDestinationOpt => "AcceptorDestinationOpt"@,
            SpecSymbol::Grammar => "Grammar"@,
            SpecSymbol::Productions => "Productions"@,
            SpecSymbol::Production => "Production"@,
            SpecSymbol::PatternOpt => "PatternOpt"@,
            SpecSymbol::RightHandSides => "RightHandSides"@,
            SpecSymbol::RightHandSide => "RightHandSide"@,
            SpecSymbol::Ids => "Ids"@,
            SpecSymbol::TAlphabet => "TAlphabet"@,
            SpecSymbol::TCil => "TCil"@,
            SpecSymbol::TCDFA => "TCDFA"@,
            SpecSymbol::TLeftBrace => "TLeftBrace"@,
            SpecSymbol::TRightBrace => "TRightBrace"@,
            SpecSymbol::TSemi => "TSemi"@,
            SpecSymbol::THat => "THat"@,
            SpecSymbol::TArrow => "TArrow"@,
            SpecSymbol::TDoubleArrow => "TDoubleArrow"@,
            SpecSymbol::TId => "TId"@,
            SpecSymbol::TOr => "TOr"@,
            SpecSymbol::TRange => "TRange"@,
            SpecSymbol::TGrammar => "TGrammar"@,
            SpecSymbol::TPattern => "TPattern"@,
            SpecSymbol::TOptId => "TOptId"@,
            SpecSymbol::TDef => "TDef"@,
            SpecSymbol::TIgnorable => "TIgnorable"@,
            SpecSymbol::TInjectable => "TInjectable"@,
            SpecSymbol::TInjectionAffinity => "TInjectionAffinity"@,
        }
    }

    /// The position of the variant in the declaration of `SpecSymbol`.
    pub closed spec fn index(self) -> int {
        match self {
            SpecSymbol::Spec => 0,
            SpecSymbol::Regions => 1,
            SpecSymbol::Region => 2,
            SpecSymbol::Injectable => 3,
            SpecSymbol::Ignorable => 4,
            SpecSymbol::Alphabet => 5,
            SpecSymbol::CDFA => 6,
            SpecSymbol::States => 7,
            SpecSymbol::State => 8,
            SpecSymbol::StateDeclarator => 9,
            SpecSymbol::TransitionsOpt => 10,
            SpecSymbol::Transitions => 11,
            SpecSymbol::Transition => 12,
            SpecSymbol::TransitionPattern => 13,
            SpecSymbol::TransitionMethod => 14,
            SpecSymbol::TransitionDestination => 15,
            SpecSymbol::Matchers => 16,
            SpecSymbol::Matcher => 17,
            SpecSymbol::Targets => 18,
            SpecSymbol::Acceptor => 19,
            SpecSymbol::IdOrDef => 20,
            SpecSymbol::AcceptorDestinationOpt => 21,
            SpecSymbol::Grammar => 22,
            SpecSymbol::Productions => 23,
            SpecSymbol::Production => 24,
            SpecSymbol::PatternOpt => 25,
            SpecSymbol::RightHandSides => 26,
            SpecSymbol::RightHandSide => 27,
            SpecSymbol::Ids => 28,
            SpecSymbol::TAlphabet => 29,
            SpecSymbol::TCil => 30,
            SpecSymbol::TCDFA => 31,
            SpecSymbol::TLeftBrace => 32,
            SpecSymbol::TRightBrace => 33,
            SpecSymbol::TSemi => 34,
            SpecSymbol::THat => 35,
            SpecSymbol::TArrow => 36,
            SpecSymbol::TDoubleArrow => 37,
            SpecSymbol::TId => 38,
            SpecSymbol::TOr => 39,
            SpecSymbol::TRange => 40,
            SpecSymbol::TGrammar => 41,
            SpecSymbol::TPattern => 42,
            SpecSymbol::TOptId => 43,
            SpecSymbol::TDef => 44,
            SpecSymbol::TIgnorable => 45,
            SpecSymbol::TInjectable => 46,
            SpecSymbol::TInjectionAffinity => 47,
        }
    }

    fn position(&self) -> (i: u8)
        ensures
            i == self.index(),
    {
        match self {
            SpecSymbol::Spec => 0,
            SpecSymbol::Regions => 1,
            SpecSymbol::Region => 2,
            SpecSymbol::Injectable => 3,
            SpecSymbol::Ignorable => 4,
            SpecSymbol::Alphabet => 5,
            SpecSymbol::CDFA => 6,
            SpecSymbol::States => 7,
            SpecSymbol::State => 8,
            SpecSymbol::StateDeclarator => 9,
            SpecSymbol::TransitionsOpt => 10,
            SpecSymbol::Transitions => 11,
            SpecSymbol::Transition => 12,
            SpecSymbol::TransitionPattern => 13,
            SpecSymbol::TransitionMethod => 14,
            SpecSymbol::TransitionDestination => 15,
            SpecSymbol::Matchers => 16,
            SpecSymbol::Matcher => 17,
            SpecSymbol::Targets => 18,
            SpecSymbol::Acceptor => 19,
            SpecSymbol::IdOrDef => 20,
            SpecSymbol::AcceptorDestinationOpt => 21,
            SpecSymbol::Grammar => 22,
            SpecSymbol::Productions => 23,
            SpecSymbol::Production => 24,
            SpecSymbol::PatternOpt => 25,
            SpecSymbol::RightHandSides => 26,
            SpecSymbol::RightHandSide => 27,
            SpecSymbol::Ids => 28,
            SpecSymbol::TAlphabet => 29,
            SpecSymbol::TCil => 30,
            SpecSymbol::TCDFA => 31,
            SpecSymbol::TLeftBrace => 32,
            SpecSymbol::TRightBrace => 33,
            SpecSymbol::TSemi => 34,
            SpecSymbol::THat => 35,
            SpecSymbol::TArrow => 36,
            SpecSymbol::TDoubleArrow => 37,
            SpecSymbol::TId => 38,
            SpecSymbol::TOr => 39,
            SpecSymbol::TRange => 40,
            SpecSymbol::TGrammar => 41,
            SpecSymbol::TPattern => 42,
            SpecSymbol::TOptId => 43,
            SpecSymbol::TDef => 44,
            SpecSymbol::TIgnorable => 45,
            SpecSymbol::TInjectable => 46,
            SpecSymbol::TInjectionAffinity => 47,
        }
    }
}

impl PartialEq for SpecSymbol {
    fn eq(&self, other: &Self) -> (r: bool) {
        self.position() == other.position()
    }
}

impl PartialEqSpecImpl for SpecSymbol {
    open spec fn obeys_eq_spec() -> bool {
        true
    }

    open spec fn eq_spec(&self, other: &Self) -> bool {
        self.index() == other.index()
    }
}

impl Data for SpecSymbol {
    open spec fn rendered(&self) -> Seq<char> {
        self.label()
    }

    open spec fn renders_exactly() -> bool {
        true
    }

    fn to_string(&self) -> (r: String)
        ensures
            r@ == self.label(),
    {
        match self {
            SpecSymbol::Spec => String::from_str("Spec"),
            SpecSymbol::Regions => String::from_str("Regions"),
            SpecSymbol::Region => String::from_str("Region"),
            SpecSymbol::Injectable => String::from_str("Injectable"),
            SpecSymbol::Ignorable => String::from_str("Ignorable"),
            SpecSymbol::Alphabet => String::from_str("Alphabet"),
            SpecSymbol::CDFA => String::from_str("CDFA"),
            SpecSymbol::States => String::from_str("States"),
            SpecSymbol::State => String::from_str("State"),
            SpecSymbol::StateDeclarator => String::from_str("StateDeclarator"),
            SpecSymbol::TransitionsOpt => String::from_str("TransitionsOpt"),
            SpecSymbol::Transitions => String::from_str("Transitions"),
            SpecSymbol::Transition => String::from_str("Transition"),
            SpecSymbol::TransitionPattern => String::from_str("TransitionPattern"),
            SpecSymbol::TransitionMethod => String::from_str("TransitionMethod"),
            SpecSymbol::TransitionDestination => String::from_str("TransitionDestination"),
            SpecSymbol::Matchers => String::from_str("Matchers"),
            SpecSymbol::Matcher => String::from_str("Matcher"),
            SpecSymbol::Targets => String::from_str("Targets"),
            SpecSymbol::Acceptor => String::from_str("Acceptor"),
            SpecSymbol::IdOrDef => String::from_str("IdOrDef"),
            SpecSymbol::AcceptorDestinationOpt => String::from_str("AcceptorDestinationOpt"),
            SpecSymbol::Grammar => String::from_str("Grammar"),
            SpecSymbol::Productions => String::from_str("Productions"),
            SpecSymbol::Production => String::from_str("Production"),
            SpecSymbol::PatternOpt => String::from_str("PatternOpt"),
            SpecSymbol::RightHandSides => String::from_str("RightHandSides"),
            SpecSymbol::RightHandSide => String::from_str("RightHandSide"),
            SpecSymbol::Ids => String::from_str("Ids"),
            SpecSymbol::TAlphabet => String::from_str("TAlphabet"),
            SpecSymbol::TCil => String::from_str("TCil"),
            SpecSymbol::TCDFA => String::from_str("TCDFA"),
            SpecSymbol::TLeftBrace => String::from_str("TLeftBrace"),
            SpecSymbol::TRightBrace => String::from_str("TRightBrace"),
            SpecSymbol::TSemi => String::from_str("TSemi"),
            SpecSymbol::THat => String::from_str("THat"),
            SpecSymbol::TArrow => String::from_str("TArrow"),
            SpecSymbol::TDoubleArrow => String::from_str("TDoubleArrow"),
            SpecSymbol::TId => String::from_str("TId"),
            SpecSymbol::TOr => String::from_str("TOr"),
            SpecSymbol::TRange => String::from_str("TRange"),
            SpecSymbol::TGrammar => String::from_str("TGrammar"),
            SpecSymbol::TPattern => String::from_str("TPattern"),
            SpecSymbol::TOptId => String::from_str("TOptId"),
            SpecSymbol::TDef => String::from_str("TDef"),
            SpecSymbol::TIgnorable => String::from_str("TIgnorable"),
            SpecSymbol::TInjectable => String::from_str("TInjectable"),
            SpecSymbol::TInjectionAffinity => String::from_str("TInjectionAffinity"),
        }
    }
}

impl Default for SpecSymbol {
    fn default() -> (s: Self)
        ensures
            s == SpecSymbol::Spec,
    {
        SpecSymbol::Spec
    }
}

impl GrammarSymbol for SpecSymbol {}

/// Equality and cloning of specification lexer states are exact.
proof fn lemma_state_exact()
    ensures
        exact::<S>(),
{
    assert forall|a: S, b: S| #[trigger] cloned(a, b) implies a == b by {
        if vstd::pervasive::strictly_cloned(a, b) {
            assert(call_ensures(S::clone, (&a,), b));
        }
    }
}

/// Equality and cloning of specification symbols are exact.
pub proof fn lemma_spec_symbol_exact()
    ensures
        value_exact::<SpecSymbol>(),
{
    assert forall|a: SpecSymbol, b: SpecSymbol| #[trigger]
        vstd::std_specs::cmp::PartialEqSpec::eq_spec(&a, &b) <==> a == b by {
        if a.index() == b.index() {
            match a {
                SpecSymbol::Spec => {},
                _ => {},
            }
        }
    }
    assert forall|a: SpecSymbol, b: SpecSymbol| #[trigger] cloned(a, b) implies a == b by {
        if vstd::pervasive::strictly_cloned(a, b) {
            assert(call_ensures(SpecSymbol::clone, (&a,), b));
        }
    }
}

/// The plain transit to `to`.
spec fn plain_to(to: S) -> Transit<S> {
    Transit { dest: to, consumer: ConsumerStrategy::All, acceptor_destination: None }
}

/// The `k`th range of the characters that may begin an identifier.
spec fn id_range(k: int) -> (char, char) {
    if k == 0 {
        ('a', 'z')
    } else if k == 1 {
        ('A', 'Z')
    } else {
        ('0', '9')
    }
}

/// Whether `steps` are the builders from `before` to `after` when the first `k` identifier
/// ranges are marked from `from` to `to` in turn, each marking succeeding.
spec fn id_run(
    before: EncodedCDFABuilder<S, SpecSymbol>,
    after: EncodedCDFABuilder<S, SpecSymbol>,
    steps: Seq<EncodedCDFABuilder<S, SpecSymbol>>,
    from: S,
    to: S,
    k: int,
) -> bool {
    &&& steps.len() == k + 1
    &&& steps[0] == before
    &&& steps.last() == after
    &&& forall|j: int|
        0 <= j < k ==> EncodedCDFABuilder::mark_range_effect(
            #[trigger] steps[j],
            steps[j + 1],
            from,
            plain_to(to),
            id_range(j).0,
            id_range(j).1,
            true,
        )
}

/// The effect on builder `before`, giving builder `after`, of marking the identifier ranges
/// from `from` to `to` in turn: all of them, or those before one that fails, and that one.
spec fn ids_effect(
    before: EncodedCDFABuilder<S, SpecSymbol>,
    after: EncodedCDFABuilder<S, SpecSymbol>,
    from: S,
    to: S,
    ok: bool,
) -> bool {
    if ok {
        exists|steps: Seq<EncodedCDFABuilder<S, SpecSymbol>>|
            #[trigger] id_run(before, after, steps, from, to, 3)
    } else {
        exists|k: int, steps: Seq<EncodedCDFABuilder<S, SpecSymbol>>|
            0 <= k < 3 && #[trigger] id_run(before, steps.last(), steps, from, to, k)
                && EncodedCDFABuilder::mark_range_effect(
                steps.last(),
                after,
                from,
                plain_to(to),
                id_range(k).0,
                id_range(k).1,
                false,
            )
    }
}

/// Adds the transitions from `from` to `to` on the characters that may begin an identifier,
/// using three units of range room.
fn id_ranges(
    b: &mut EncodedCDFABuilder<S, SpecSymbol>,
    from: S,
    to: S,
    Ghost(n): Ghost<nat>,
) -> (r: Result<(), CDFAError>)
    requires
        exact::<S>(),
        plain_builder(*old(b)),
        room_within(old(b).tries(), n + 3),
    ensures
        plain_builder(*final(b)),
        room_within(final(b).tries(), n),
        ids_effect(*old(b), *final(b), from, to, r is Ok),
{
    let ranges: Vec<(char, char)> = vec![('a', 'z'), ('A', 'Z'), ('0', '9')];
    let ghost mut steps = seq![*b];
    let mut k: usize = 0;
    while k < 3
        invariant
            k <= 3,
            ranges@.len() == 3,
            forall|j: int| 0 <= j < 3 ==> #[trigger] ranges@[j] == id_range(j),
            exact::<S>(),
            plain_builder(*b),
            room_within(b.tries(), (n + 3 - k) as nat),
            id_run(*old(b), *b, steps, from, to, k as int),
        decreases 3 - k,
    {
        let (lo, hi) = ranges[k];
        assert(ranges@[k as int] == id_range(k as int));
        match plain_range(b, &from, to, lo, hi, Ghost((n + 2 - k) as nat)) {
            Ok(_) => {
                proof {
                    let next = steps.push(*b);
                    assert forall|j: int| 0 <= j < k + 1 implies EncodedCDFABuilder::mark_range_effect(
                        #[trigger] next[j],
                        next[j + 1],
                        from,
                        plain_to(to),
                        id_range(j).0,
                        id_range(j).1,
                        true,
                    ) by {
                        if j < k {
                            assert(next[j] == steps[j] && next[j + 1] == steps[j + 1]);
                        }
                    }
                    steps = next;
                }
            },
            Err(e) => {
                assert(id_run(*old(b), steps.last(), steps, from, to, k as int));
                return Err(e);
            },
        }
        k += 1;
    }
    assert(id_run(*old(b), *b, steps, from, to, 3));
    Ok(())
}

/// The `k`th blank transition out of a state: to the comment state on `#`, and to the
/// whitespace state on each whitespace character.
spec fn blank_target(k: int) -> (S, char) {
    if k == 0 {
        (S::Comment, '#')
    } else if k == 1 {
        (S::Whitespace, ' ')
    } else if k == 2 {
        (S::Whitespace, '\t')
    } else if k == 3 {
        (S::Whitespace, '\r')
    } else {
        (S::Whitespace, '\n')
    }
}

/// Whether `steps` are the builders from `before` to `after` when the first `k` blank
/// transitions are marked from `from` in turn, each marking succeeding.
spec fn blank_run(
    before: EncodedCDFABuilder<S, SpecSymbol>,
    after: EncodedCDFABuilder<S, SpecSymbol>,
    steps: Seq<EncodedCDFABuilder<S, SpecSymbol>>,
    from: S,
    k: int,
) -> bool {
    &&& steps.len() == k + 1
    &&& steps[0] == before
    &&& steps.last() == after
    &&& forall|j: int|
        0 <= j < k ==> EncodedCDFABuilder::mark_trans_effect(
            #[trigger] steps[j],
            steps[j + 1],
            from,
            plain_to(blank_target(j).0),
            blank_target(j).1,
            true,
        )
}

/// The effect on builder `before`, giving builder `after`, of marking the blank transitions
/// from `from` in turn: all of them, or those before one that fails, and that one.
spec fn blanks_effect(
    before: EncodedCDFABuilder<S, SpecSymbol>,
    after: EncodedCDFABuilder<S, SpecSymbol>,
    from: S,
    ok: bool,
) -> bool {
    if ok {
        exists|steps: Seq<EncodedCDFABuilder<S, SpecSymbol>>|
            #[trigger] blank_run(before, after, steps, from, 5)
    } else {
        exists|k: int, steps: Seq<EncodedCDFABuilder<S, SpecSymbol>>|
            0 <= k < 5 && #[trigger] blank_run(before, steps.last(), steps, from, k)
                && EncodedCDFABuilder::mark_trans_effect(
                steps.last(),
                after,
                from,
                plain_to(blank_target(k).0),
                blank_target(k).1,
                false,
            )
    }
}

/// Adds the transitions from `from` on whitespace, and on the start of a comment.
fn skip_blanks(b: &mut EncodedCDFABuilder<S, SpecSymbol>, from: S) -> (r: Result<(), CDFAError>)
    requires
        exact::<S>(),
        plain_builder(*old(b)),
    ensures
        plain_builder(*final(b)),
        forall|n: nat| #[trigger] room_within(old(b).tries(), n) ==> room_within(final(b).tries(), n),
        blanks_effect(*old(b), *final(b), from, r is Ok),
{
    let targets: Vec<(S, char)> = vec![
        (S::Comment, '#'),
        (S::Whitespace, ' '),
        (S::Whitespace, '\t'),
        (S::Whitespace, '\r'),
        (S::Whitespace, '\n'),
    ];
    let ghost mut steps = seq![*b];
    let mut k: usize = 0;
    while k < 5
        invariant
            k <= 5,
            targets@.len() == 5,
            forall|j: int| 0 <= j < 5 ==> #[trigger] targets@[j] == blank_target(j),
            exact::<S>(),
            plain_builder(*b),
            forall|n: nat| #[trigger] room_within(old(b).tries(), n) ==> room_within(b.tries(), n),
            blank_run(*old(b), *b, steps, from, k as int),
        decreases 5 - k,
    {
        let (to, on) = targets[k];
        assert(targets@[k as int] == blank_target(k as int));
        match plain_trans(b, &from, to, on) {
            Ok(_) => {
                proof {
                    let next = steps.push(*b);
                    assert forall|j: int| 0 <= j < k + 1 implies EncodedCDFABuilder::mark_trans_effect(
                        #[trigger] next[j],
                        next[j + 1],
                        from,
                        plain_to(blank_target(j).0),
                        blank_target(j).1,
                        true,
                    ) by {
                        if j < k {
                            assert(next[j] == steps[j] && next[j + 1] == steps[j + 1]);
                        }
                    }
                    steps = next;
                }
            },
            Err(e) => {
                assert(blank_run(*old(b), steps.last(), steps, from, k as int));
                return Err(e);
            },
        }
        k += 1;
    }
    assert(blank_run(*old(b), *b, steps, from, 5));
    Ok(())
}

/// A step of building the lexer of specifications: a plain transition on a character, on the
/// characters of a string, by default, or on the characters that may begin an identifier; the
/// blank transitions; marking a state accepting, or accepting and moving on to another state;
/// or giving a state its token kind.
#[derive(Clone, Copy)]
enum Step {
    Trans(S, S, char),
    Chain(S, S, &'static str),
    Default(S, S),
    Ids(S, S),
    Blanks(S),
    Accept(S),
    AcceptTo(S, S),
    Token(S, SpecSymbol),
}

/// The effect of `step` on builder `before`, giving builder `after`; `ok` tells whether it
/// succeeded.
spec fn step_effect(
    before: EncodedCDFABuilder<S, SpecSymbol>,
    after: EncodedCDFABuilder<S, SpecSymbol>,
    step: Step,
    ok: bool,
) -> bool {
    match step {
        Step::Trans(from, to, on) => EncodedCDFABuilder::mark_trans_effect(
            before,
            after,
            from,
            plain_to(to),
            on,
            ok,
        ),
        Step::Chain(from, to, on) => EncodedCDFABuilder::mark_chain_effect(
            before,
            after,
            from,
            plain_to(to),
            on@,
            ok,
        ),
        Step::Default(from, to) => EncodedCDFABuilder::default_to_effect(
            before,
            after,
            from,
            plain_to(to),
            ok,
        ),
        Step::Ids(from, to) => ids_effect(before, after, from, to, ok),
        Step::Blanks(from) => blanks_effect(before, after, from, ok),
        Step::Accept(state) => ok && EncodedCDFABuilder::accept_effect(before, after, state),
        Step::AcceptTo(state, to) => ok && EncodedCDFABuilder::accept_to_effect(
            before,
            after,
            state,
            to,
        ),
        Step::Token(state, kind) => ok && EncodedCDFABuilder::tokenize_effect(
            before,
            after,
            state,
            kind,
        ),
    }
}

/// The range room that the steps of `steps` from position `k` on use.
spec fn cost_from(steps: Seq<Step>, k: int) -> nat
    decreases steps.len() - k,
{
    if k < 0 || k >= steps.len() {
        0
    } else {
        (if steps[k] is Ids {
            3nat
        } else {
            0nat
        }) + cost_from(steps, k + 1)
    }
}

/// The steps from position `k` on use no more range room than those from position `j` on,
/// for `j` before `k`.
proof fn lemma_cost_from_drops(steps: Seq<Step>, j: int, k: int)
    requires
        0 <= j <= k,
    ensures
        cost_from(steps, j) >= cost_from(steps, k),
    decreases k - j,
{
    if j < k {
        lemma_cost_from_drops(steps, j + 1, k);
    }
}

/// Whether `builders` are the builders from `before` to `after` when the first `k` of `steps`
/// are taken in turn, each succeeding.
spec fn step_run(
    before: EncodedCDFABuilder<S, SpecSymbol>,
    after: EncodedCDFABuilder<S, SpecSymbol>,
    builders: Seq<EncodedCDFABuilder<S, SpecSymbol>>,
    steps: Seq<Step>,
    k: int,
) -> bool {
    &&& builders.len() == k + 1
    &&& builders[0] == before
    &&& builders.last() == after
    &&& forall|j: int|
        0 <= j < k ==> step_effect(#[trigger] builders[j], builders[j + 1], steps[j], true)
}

/// The effect of taking `steps` in turn on builder `before`, giving builder `after`: all of
/// them succeed, or those before one that fails, and that one.
spec fn steps_effect(
    before: EncodedCDFABuilder<S, SpecSymbol>,
    after: EncodedCDFABuilder<S, SpecSymbol>,
    steps: Seq<Step>,
    ok: bool,
) -> bool {
    if ok {
        exists|builders: Seq<EncodedCDFABuilder<S, SpecSymbol>>|
            #[trigger] step_run(before, after, builders, steps, steps.len() as int)
    } else {
        exists|k: int, builders: Seq<EncodedCDFABuilder<S, SpecSymbol>>|
            0 <= k < steps.len() && #[trigger] step_run(before, builders.last(), builders, steps, k)
                && step_effect(builders.last(), after, steps[k], false)
    }
}

/// Takes `step`; a step that marks identifier ranges uses three units of range room.
fn run_step(b: &mut EncodedCDFABuilder<S, SpecSymbol>, step: Step, Ghost(n): Ghost<nat>) -> (r: Result<
    (),
    CDFAError,
>)
    requires
        exact::<S>(),
        plain_builder(*old(b)),
        step is Ids ==> room_within(old(b).tries(), n + 3),
    ensures
        plain_builder(*final(b)),
        step_effect(*old(b), *final(b), step, r is Ok),
        step is Ids ==> room_within(final(b).tries(), n),
        !(step is Ids) ==> forall|p: nat| #[trigger] room_within(old(b).tries(), p) ==> room_within(final(b).tries(), p),
{
    match step {
        Step::Trans(from, to, on) => plain_trans(b, &from, to, on),
        Step::Chain(from, to, on) => plain_chain(b, &from, to, on),
        Step::Default(from, to) => plain_default(b, &from, to),
        Step::Ids(from, to) => id_ranges(b, from, to, Ghost(n)),
        Step::Blanks(from) => skip_blanks(b, from),
        Step::Accept(state) => {
            plain_accept(b, &state);
            Ok(())
        },
        Step::AcceptTo(state, to) => {
            plain_accept_to(b, &state, &to);
            Ok(())
        },
        Step::Token(state, kind) => {
            plain_token(b, &state, &kind);
            Ok(())
        },
    }
}

/// Takes `steps` in turn, stopping at the first that fails.
fn run_steps(b: &mut EncodedCDFABuilder<S, SpecSymbol>, steps: &Vec<Step>, Ghost(n): Ghost<nat>) -> (r: Result<
    (),
    CDFAError,
>)
    requires
        exact::<S>(),
        plain_builder(*old(b)),
        cost_from(steps@, 0) == 0 || room_within(old(b).tries(), n + cost_from(steps@, 0)),
    ensures
        plain_builder(*final(b)),
        cost_from(steps@, 0) > 0 ==> room_within(final(b).tries(), n),
        cost_from(steps@, 0) == 0 ==> forall|p: nat| #[trigger] room_within(old(b).tries(), p) ==> room_within(final(b).tries(), p),
        steps_effect(*old(b), *final(b), steps@, r is Ok),
{
    let ghost mut builders = seq![*b];
    let mut k: usize = 0;
    while k < steps.len()
        invariant
            k <= steps@.len(),
            exact::<S>(),
            plain_builder(*b),
            cost_from(steps@, 0) > 0 ==> room_within(b.tries(), n + cost_from(steps@, k as int)),
            cost_from(steps@, 0) == 0 ==> forall|p: nat| #[trigger] room_within(old(b).tries(), p) ==> room_within(b.tries(), p),
            step_run(*old(b), *b, builders, steps@, k as int),
        decreases steps@.len() - k,
    {
        let step = steps[k];
        let ghost rest = n + cost_from(steps@, k + 1);
        proof {
            lemma_cost_from_drops(steps@, 0, k as int);
            if step is Ids {
                assert(cost_from(steps@, 0) > 0);
            }
        }
        match run_step(b, step, Ghost(rest)) {
            Ok(_) => {
                proof {
                    let next = builders.push(*b);
                    assert forall|j: int| 0 <= j < k + 1 implies step_effect(#[trigger] next[j], next[j + 1], steps@[j], true) by {
                        if j < k {
                            assert(next[j] == builders[j] && next[j + 1] == builders[j + 1]);
                        }
                    }
                    builders = next;
                }
            },
            Err(e) => {
                assert(step_run(*old(b), builders.last(), builders, steps@, k as int));
                return Err(e);
            },
        }
        k += 1;
    }
    assert(step_run(*old(b), *b, builders, steps@, steps@.len() as int));
    Ok(())
}

/// Equality and cloning of specification lexer states coincide with spec equality.
proof fn lemma_state_value_exact()
    ensures
        value_exact::<S>(),
{
    lemma_state_exact();
    assert forall|a: S, b: S| #[trigger] vstd::std_specs::cmp::PartialEqSpec::eq_spec(&a, &b) <==> a == b by {
        if a.index() == b.index() {
            match a {
                S::Start => {},
                _ => {},
            }
        }
    }
}

/// Whether builder `b` moves from state `from` on the character `on` to state `to`.
spec fn moves_on(b: EncodedCDFABuilder<S, SpecSymbol>, from: S, on: char, to: S) -> bool {
    let f = encode_spec(b.codes(), from).1;
    &&& chains_of(b.tries(), f).contains_key(seq![on])
    &&& chains_of(b.tries(), f)[seq![on]].dest == encode_spec(b.codes(), to).1 as usize
}

/// Whether builder `b` moves from state `from` to state `to` on each character from `lo` to
/// `hi`.
spec fn moves_in_range(b: EncodedCDFABuilder<S, SpecSymbol>, from: S, lo: char, hi: char, to: S) -> bool {
    let f = encode_spec(b.codes(), from).1;
    exists|t: Transit<usize>|
        #[trigger] ranges_of(b.tries(), f).contains((lo as u32 as int, hi as u32 as int, t)) && t.dest
            == encode_spec(b.codes(), to).1 as usize
}

/// Whether state `x` of builder `b` scans the rest of an identifier: it moves to itself on each
/// letter, each digit and `_`.
spec fn scans_id(b: EncodedCDFABuilder<S, SpecSymbol>, x: S) -> bool {
    &&& moves_on(b, x, '_', x)
    &&& moves_in_range(b, x, 'a', 'z', x)
    &&& moves_in_range(b, x, 'A', 'Z', x)
    &&& moves_in_range(b, x, '0', '9', x)
}

/// The state whose transitions `step` changes, if any.
spec fn step_source(step: Step) -> Option<S> {
    match step {
        Step::Trans(from, _, _) => Some(from),
        Step::Chain(from, _, _) => Some(from),
        Step::Default(from, _) => Some(from),
        Step::Ids(from, _) => Some(from),
        Step::Blanks(from) => Some(from),
        _ => None,
    }
}

/// Whether `after` keeps the code that state `x` has in `before`, and its transitions.
spec fn keeps_state(before: EncodedCDFABuilder<S, SpecSymbol>, after: EncodedCDFABuilder<S, SpecSymbol>, x: S) -> bool {
    &&& first_code(before.codes(), x) is Some
    &&& first_code(after.codes(), x) == first_code(before.codes(), x)
    &&& trie_of(after.tries(), first_code(before.codes(), x)->0) == trie_of(
        before.tries(),
        first_code(before.codes(), x)->0,
    )
}

/// Encoding a state keeps the codes given before.
proof fn lemma_encode_extends(codes: Seq<S>, y: S, x: S)
    requires
        value_exact::<S>(),
        first_code(codes, x) is Some,
    ensures
        first_code(encode_spec(codes, y).0, x) == first_code(codes, x),
{
    law_encode_decode(codes, y);
    lemma_first_code_prefix(encode_spec(codes, y).0, x, codes.len() as int);
}

/// Encoding states `from` then `to`, and changing the transitions of `from` alone, keeps the
/// code and the transitions of any other state that already has a code.
proof fn lemma_edit_keeps(
    before: EncodedCDFABuilder<S, SpecSymbol>,
    after: EncodedCDFABuilder<S, SpecSymbol>,
    from: S,
    to: S,
    x: S,
)
    requires
        value_exact::<S>(),
        from != x,
        first_code(before.codes(), x) is Some,
        after.codes() == encode_spec(encode_spec(before.codes(), from).0, to).0,
        tries_except(before.tries(), after.tries(), encode_spec(before.codes(), from).1),
    ensures
        keeps_state(before, after, x),
{
    let c1 = encode_spec(before.codes(), from).0;
    lemma_encode_extends(before.codes(), from, x);
    lemma_encode_extends(c1, to, x);
    lemma_first_code_found(before.codes(), x);
    lemma_first_code_found(before.codes(), from);
}

/// Encoding states while leaving the transitions alone keeps the code and the transitions of a
/// state that already has a code.
proof fn lemma_codes_keep(
    before: EncodedCDFABuilder<S, SpecSymbol>,
    after: EncodedCDFABuilder<S, SpecSymbol>,
    y: S,
    z: S,
    x: S,
)
    requires
        value_exact::<S>(),
        first_code(before.codes(), x) is Some,
        after.codes() == encode_spec(encode_spec(before.codes(), y).0, z).0 || after.codes() == encode_spec(
            before.codes(),
            y,
        ).0,
        after.tries() == before.tries(),
    ensures
        keeps_state(before, after, x),
{
    let c1 = encode_spec(before.codes(), y).0;
    lemma_encode_extends(before.codes(), y, x);
    lemma_encode_extends(c1, z, x);
}

/// Keeping a state is transitive.
proof fn lemma_keeps_trans(
    a: EncodedCDFABuilder<S, SpecSymbol>,
    b: EncodedCDFABuilder<S, SpecSymbol>,
    c: EncodedCDFABuilder<S, SpecSymbol>,
    x: S,
)
    requires
        keeps_state(a, b, x),
        keeps_state(b, c, x),
    ensures
        keeps_state(a, c, x),
{
}

/// The first `k` blank transitions out of `from` keep the code and the transitions of any
/// other state `x` that already has a code.
proof fn lemma_blank_run_keeps(
    before: EncodedCDFABuilder<S, SpecSymbol>,
    after: EncodedCDFABuilder<S, SpecSymbol>,
    bs: Seq<EncodedCDFABuilder<S, SpecSymbol>>,
    from: S,
    x: S,
    k: int,
)
    requires
        value_exact::<S>(),
        from != x,
        first_code(before.codes(), x) is Some,
        blank_run(before, after, bs, from, 5),
        0 <= k <= 5,
    ensures
        k > 0 ==> keeps_state(bs[0], bs[k], x),
    decreases k,
{
    if k > 0 {
        lemma_blank_run_keeps(before, after, bs, from, x, k - 1);
        assert(EncodedCDFABuilder::mark_trans_effect(
            bs[k - 1],
            bs[k],
            from,
            plain_to(blank_target(k - 1).0),
            blank_target(k - 1).1,
            true,
        ));
        lemma_edit_keeps(bs[k - 1], bs[k], from, blank_target(k - 1).0, x);
        if k > 1 {
            lemma_keeps_trans(bs[0], bs[k - 1], bs[k], x);
        }
    }
}

/// A step that succeeds and changes no transitions of state `x` keeps the code and the
/// transitions of `x`, where `x` already has a code.
proof fn lemma_step_keeps(
    before: EncodedCDFABuilder<S, SpecSymbol>,
    after: EncodedCDFABuilder<S, SpecSymbol>,
    step: Step,
    x: S,
)
    requires
        value_exact::<S>(),
        step_effect(before, after, step, true),
        step_source(step) != Some(x),
        first_code(before.codes(), x) is Some,
    ensures
        keeps_state(before, after, x),
{
    lemma_state_exact();
    match step {
        Step::Trans(from, to, on) => {
            lemma_edit_keeps(before, after, from, to, x);
        },
        Step::Chain(from, to, on) => {
            lemma_edit_keeps(before, after, from, to, x);
        },
        Step::Default(from, to) => {
            lemma_edit_keeps(before, after, from, to, x);
        },
        Step::Ids(from, to) => {
            let bs = choose|bs: Seq<EncodedCDFABuilder<S, SpecSymbol>>| #[trigger] id_run(before, after, bs, from, to, 3);
            assert(EncodedCDFABuilder::mark_range_effect(bs[0], bs[1], from, plain_to(to), id_range(0).0, id_range(0).1, true));
            lemma_edit_keeps(bs[0], bs[1], from, to, x);
            assert(EncodedCDFABuilder::mark_range_effect(bs[1], bs[2], from, plain_to(to), id_range(1).0, id_range(1).1, true));
            lemma_edit_keeps(bs[1], bs[2], from, to, x);
            assert(EncodedCDFABuilder::mark_range_effect(bs[2], bs[3], from, plain_to(to), id_range(2).0, id_range(2).1, true));
            lemma_edit_keeps(bs[2], bs[3], from, to, x);
            lemma_keeps_trans(bs[0], bs[1], bs[2], x);
            lemma_keeps_trans(bs[0], bs[2], bs[3], x);
        },
        Step::Blanks(from) => {
            let bs = choose|bs: Seq<EncodedCDFABuilder<S, SpecSymbol>>| #[trigger] blank_run(before, after, bs, from, 5);
            lemma_blank_run_keeps(before, after, bs, from, x, 5);
        },
        Step::Accept(state) => {
            lemma_codes_keep(before, after, state, state, x);
        },
        Step::AcceptTo(state, to) => {
            lemma_codes_keep(before, after, state, to, x);
        },
        Step::Token(state, kind) => {
            lemma_codes_keep(before, after, state, state, x);
        },
    }
}

/// The steps of `build_injectable_region`, in order.
spec fn injectable_steps() -> Seq<Step> {
    seq![
        Step::AcceptTo(S::InjectableTag, S::InjectablePreAffinity),
        Step::Token(S::InjectableTag, SpecSymbol::TInjectable),
        Step::Chain(S::InjectablePreAffinity, S::InjectionAffinity, "left"),
        Step::Chain(S::InjectablePreAffinity, S::InjectionAffinity, "right"),
        Step::Blanks(S::InjectablePreAffinity),
        Step::AcceptTo(S::InjectionAffinity, S::InjectablePreId),
        Step::Token(S::InjectionAffinity, SpecSymbol::TInjectionAffinity),
        Step::Ids(S::InjectablePreId, S::InjectableId),
        Step::Blanks(S::InjectablePreId),
        Step::Ids(S::InjectableId, S::InjectableId),
        Step::Trans(S::InjectableId, S::InjectableId, '_'),
        Step::AcceptTo(S::InjectableId, S::InjectablePreComplete),
        Step::Token(S::InjectableId, SpecSymbol::TId),
        Step::Trans(S::InjectablePreComplete, S::PatternPartial, '`'),
        Step::Blanks(S::InjectablePreComplete),
        Step::AcceptTo(S::InjectablePreComplete, S::Start),
    ]
}

/// Marking the identifier ranges from state `x` to itself makes `x` move to itself on each
/// letter and digit.
proof fn lemma_ids_moves(before: EncodedCDFABuilder<S, SpecSymbol>, after: EncodedCDFABuilder<S, SpecSymbol>, x: S)
    requires
        value_exact::<S>(),
        ids_effect(before, after, x, x, true),
    ensures
        moves_in_range(after, x, 'a', 'z', x),
        moves_in_range(after, x, 'A', 'Z', x),
        moves_in_range(after, x, '0', '9', x),
        first_code(after.codes(), x) is Some,
{
    lemma_state_exact();
    let bs = choose|bs: Seq<EncodedCDFABuilder<S, SpecSymbol>>| #[trigger] id_run(before, after, bs, x, x, 3);
    let c0 = before.codes();
    law_encode_decode(c0, x);
    let c1 = encode_spec(c0, x).0;
    let f = encode_spec(c0, x).1;
    law_encode_decode(c1, x);
    assert(encode_spec(c1, x) == (c1, f));
    let t = encode_transit_spec(c1, plain_to(x)).1;
    assert(encode_transit_spec(c1, plain_to(x)).0 == c1);
    assert(t.dest == f as usize);
    assert(EncodedCDFABuilder::mark_range_effect(bs[0], bs[1], x, plain_to(x), id_range(0).0, id_range(0).1, true));
    assert(bs[1].codes() == c1);
    assert(EncodedCDFABuilder::mark_range_effect(bs[1], bs[2], x, plain_to(x), id_range(1).0, id_range(1).1, true));
    assert(bs[2].codes() == c1);
    assert(EncodedCDFABuilder::mark_range_effect(bs[2], bs[3], x, plain_to(x), id_range(2).0, id_range(2).1, true));
    assert(bs[3].codes() == c1);
    let r0 = ('a' as u32 as int, 'z' as u32 as int, t);
    let r1 = ('A' as u32 as int, 'Z' as u32 as int, t);
    let r2 = ('0' as u32 as int, '9' as u32 as int, t);
    assert(ranges_of(bs[1].tries(), f).contains(r0));
    assert(ranges_of(bs[2].tries(), f).contains(r0) && ranges_of(bs[2].tries(), f).contains(r1));
    assert(ranges_of(after.tries(), f).contains(r0) && ranges_of(after.tries(), f).contains(r1)
        && ranges_of(after.tries(), f).contains(r2));
    assert(first_code(c1, x) == Some(f));
}

/// A transition from state `x` to itself on `on` that succeeds makes `x` move to itself on
/// `on`, and keeps the ranges that `x` moves on.
proof fn lemma_trans_moves(before: EncodedCDFABuilder<S, SpecSymbol>, after: EncodedCDFABuilder<S, SpecSymbol>, x: S, on: char)
    requires
        value_exact::<S>(),
        EncodedCDFABuilder::mark_trans_effect(before, after, x, plain_to(x), on, true),
    ensures
        moves_on(after, x, on, x),
        first_code(after.codes(), x) is Some,
        first_code(before.codes(), x) is Some ==> encode_spec(after.codes(), x) == encode_spec(before.codes(), x)
            && ranges_of(after.tries(), encode_spec(after.codes(), x).1) == ranges_of(
            before.tries(),
            encode_spec(before.codes(), x).1,
        ),
{
    lemma_state_exact();
    let c0 = before.codes();
    law_encode_decode(c0, x);
    let c1 = encode_spec(c0, x).0;
    let f = encode_spec(c0, x).1;
    law_encode_decode(c1, x);
    assert(encode_spec(c1, x) == (c1, f));
    assert(first_code(c1, x) == Some(f));
    let t = encode_transit_spec(c1, plain_to(x)).1;
    assert(encode_transit_spec(c1, plain_to(x)).0 == c1);
    assert(t.dest == f as usize);
    assert(after.codes() == c1);
    assert(chains_of(after.tries(), f) == chains_of(before.tries(), f).insert(seq![on], t));
}

/// A state that scans identifiers still does after a change that keeps it.
proof fn lemma_scan_kept(a: EncodedCDFABuilder<S, SpecSymbol>, b: EncodedCDFABuilder<S, SpecSymbol>, x: S)
    requires
        keeps_state(a, b, x),
        scans_id(a, x),
    ensures
        scans_id(b, x),
{
    let k = first_code(a.codes(), x)->0;
    assert(encode_spec(b.codes(), x).1 == k);
    assert(ranges_of(b.tries(), k) == ranges_of(a.tries(), k));
}

/// The steps from position `j` to position `k` of a run keep state `x`, where none of them
/// changes the transitions of `x`.
#[verifier::spinoff_prover]
#[verifier::rlimit(60)]
proof fn lemma_run_keeps(
    before: EncodedCDFABuilder<S, SpecSymbol>,
    after: EncodedCDFABuilder<S, SpecSymbol>,
    bs: Seq<EncodedCDFABuilder<S, SpecSymbol>>,
    steps: Seq<Step>,
    x: S,
    j: int,
    k: int,
)
    requires
        value_exact::<S>(),
        step_run(before, after, bs, steps, steps.len() as int),
        0 <= j < k <= steps.len(),
        forall|i: int| j <= i < k ==> step_source(#[trigger] steps[i]) != Some(x),
        first_code(bs[j].codes(), x) is Some,
    ensures
        keeps_state(bs[j], bs[k], x),
    decreases k - j,
{
    assert(step_effect(bs[j], bs[j + 1], steps[j], true) && step_source(steps[j]) != Some(x));
    lemma_step_keeps(bs[j], bs[j + 1], steps[j], x);
    if j + 1 < k {
        lemma_run_keeps(before, after, bs, steps, x, j + 1, k);
        lemma_keeps_trans(bs[j], bs[j + 1], bs[k], x);
    }
}

/// Where `steps` mark the identifier ranges from state `x` to itself at position `i`, then the
/// transition from `x` to itself on `_`, and no later step changes the transitions of `x`,
/// taking all of them makes `x` scan identifiers.
#[verifier::spinoff_prover]
#[verifier::rlimit(60)]
proof fn lemma_id_scan(
    before: EncodedCDFABuilder<S, SpecSymbol>,
    after: EncodedCDFABuilder<S, SpecSymbol>,
    steps: Seq<Step>,
    i: int,
    x: S,
)
    requires
        value_exact::<S>(),
        steps_effect(before, after, steps, true),
        0 <= i && i + 2 <= steps.len(),
        steps[i] == Step::Ids(x, x),
        steps[i + 1] == Step::Trans(x, x, '_'),
        forall|j: int| i + 2 <= j < steps.len() ==> step_source(#[trigger] steps[j]) != Some(x),
    ensures
        scans_id(after, x),
{
    let n = steps.len() as int;
    let bs = choose|bs: Seq<EncodedCDFABuilder<S, SpecSymbol>>| #[trigger] step_run(before, after, bs, steps, n);
    assert(step_effect(bs[i], bs[i + 1], steps[i], true));
    lemma_ids_moves(bs[i], bs[i + 1], x);
    assert(step_effect(bs[i + 1], bs[i + 2], steps[i + 1], true));
    lemma_trans_moves(bs[i + 1], bs[i + 2], x, '_');
    assert(scans_id(bs[i + 2], x));
    if i + 2 < n {
        lemma_run_keeps(before, after, bs, steps, x, i + 2, n);
        lemma_scan_kept(bs[i + 2], bs[n], x);
    }
}

/// After the steps of `injectable_steps`, state `InjectableId` scans identifiers.
#[verifier::spinoff_prover]
#[verifier::rlimit(100)]
proof fn lemma_injectable_id_scan(before: EncodedCDFABuilder<S, SpecSymbol>, after: EncodedCDFABuilder<S, SpecSymbol>)
    requires
        value_exact::<S>(),
        steps_effect(before, after, injectable_steps(), true),
    ensures
        scans_id(after, S::InjectableId),
{
    let steps = injectable_steps();
    assert forall|j: int| 11 <= j < steps.len() implies step_source(#[trigger] steps[j]) != Some(S::InjectableId) by {
        assert(steps[11] == Step::AcceptTo(S::InjectableId, S::InjectablePreComplete));
        assert(steps[12] == Step::Token(S::InjectableId, SpecSymbol::TId));
        assert(steps[13] == Step::Trans(S::InjectablePreComplete, S::PatternPartial, '`'));
        assert(steps[14] == Step::Blanks(S::InjectablePreComplete));
        assert(steps[15] == Step::AcceptTo(S::InjectablePreComplete, S::Start));
    }
    lemma_id_scan(before, after, steps, 9, S::InjectableId);
}

/// Adds the states of the injectable region: the tag, the affinity, the identifier and the
/// optional pattern.
fn build_injectable_region(b: &mut EncodedCDFABuilder<S, SpecSymbol>, Ghost(n): Ghost<nat>) -> (r: Result<
    (),
    CDFAError,
>)
    requires
        exact::<S>(),
        plain_builder(*old(b)),
        room_within(old(b).tries(), n + 6),
    ensures
        plain_builder(*final(b)),
        room_within(final(b).tries(), n),
        steps_effect(*old(b), *final(b), injectable_steps(), r is Ok),
        r is Ok ==> scans_id(*final(b), S::InjectableId),
{
    let steps: Vec<Step> = vec![
        Step::AcceptTo(S::InjectableTag, S::InjectablePreAffinity),
        Step::Token(S::InjectableTag, SpecSymbol::TInjectable),
        Step::Chain(S::InjectablePreAffinity, S::InjectionAffinity, "left"),
        Step::Chain(S::InjectablePreAffinity, S::InjectionAffinity, "right"),
        Step::Blanks(S::InjectablePreAffinity),
        Step::AcceptTo(S::InjectionAffinity, S::InjectablePreId),
        Step::Token(S::InjectionAffinity, SpecSymbol::TInjectionAffinity),
        Step::Ids(S::InjectablePreId, S::InjectableId),
        Step::Blanks(S::InjectablePreId),
        Step::Ids(S::InjectableId, S::InjectableId),
        Step::Trans(S::InjectableId, S::InjectableId, '_'),
        Step::AcceptTo(S::InjectableId, S::InjectablePreComplete),
        Step::Token(S::InjectableId, SpecSymbol::TId),
        Step::Trans(S::InjectablePreComplete, S::PatternPartial, '`'),
        Step::Blanks(S::InjectablePreComplete),
        Step::AcceptTo(S::InjectablePreComplete, S::Start),
    ];
    proof {
        assert(steps@ =~= injectable_steps());
        assert(cost_from(injectable_steps(), 0) == 6) by {
            reveal_with_fuel(cost_from, 17);
        }
    }
    let r = run_steps(b, &steps, Ghost(n));
    proof {
        if r is Ok {
            lemma_state_value_exact();
            lemma_injectable_id_scan(*old(b), *b);
        }
    }
    r
}

/// The steps of `build_ignorable_region`, in order.
spec fn ignorable_steps() -> Seq<Step> {
    seq![
        Step::AcceptTo(S::IgnorableTag, S::Ignorable),
        Step::Token(S::IgnorableTag, SpecSymbol::TIgnorable),
        Step::Ids(S::Ignorable, S::IgnorableId),
        Step::Blanks(S::Ignorable),
        Step::Ids(S::IgnorableId, S::IgnorableId),
        Step::Trans(S::IgnorableId, S::IgnorableId, '_'),
        Step::AcceptTo(S::IgnorableId, S::Start),
        Step::Token(S::IgnorableId, SpecSymbol::TId),
    ]
}

/// After the steps of `ignorable_steps`, state `IgnorableId` scans identifiers.
#[verifier::spinoff_prover]
#[verifier::rlimit(100)]
proof fn lemma_ignorable_id_scan(before: EncodedCDFABuilder<S, SpecSymbol>, after: EncodedCDFABuilder<S, SpecSymbol>)
    requires
        value_exact::<S>(),
        steps_effect(before, after, ignorable_steps(), true),
    ensures
        scans_id(after, S::IgnorableId),
{
    let steps = ignorable_steps();
    assert forall|j: int| 6 <= j < steps.len() implies step_source(#[trigger] steps[j]) != Some(S::IgnorableId) by {
        assert(steps[6] == Step::AcceptTo(S::IgnorableId, S::Start));
        assert(steps[7] == Step::Token(S::IgnorableId, SpecSymbol::TId));
    }
    lemma_id_scan(before, after, steps, 4, S::IgnorableId);
}

/// Adds the states of the ignorable region: the tag and the identifier.
fn build_ignorable_region(b: &mut EncodedCDFABuilder<S, SpecSymbol>, Ghost(n): Ghost<nat>) -> (r: Result<
    (),
    CDFAError,
>)
    requires
        exact::<S>(),
        plain_builder(*old(b)),
        room_within(old(b).tries(), n + 6),
    ensures
        plain_builder(*final(b)),
        room_within(final(b).tries(), n),
        steps_effect(*old(b), *final(b), ignorable_steps(), r is Ok),
        r is Ok ==> scans_id(*final(b), S::IgnorableId),
{
    let steps: Vec<Step> = vec![
        Step::AcceptTo(S::IgnorableTag, S::Ignorable),
        Step::Token(S::IgnorableTag, SpecSymbol::TIgnorable),
        Step::Ids(S::Ignorable, S::IgnorableId),
        Step::Blanks(S::Ignorable),
        Step::Ids(S::IgnorableId, S::IgnorableId),
        Step::Trans(S::IgnorableId, S::IgnorableId, '_'),
        Step::AcceptTo(S::IgnorableId, S::Start),
        Step::Token(S::IgnorableId, SpecSymbol::TId),
    ];
    proof {
        assert(steps@ =~= ignorable_steps());
        assert(cost_from(ignorable_steps(), 0) == 6) by {
            reveal_with_fuel(cost_from, 9);
        }
    }
    let r = run_steps(b, &steps, Ghost(n));
    proof {
        if r is Ok {
            lemma_state_value_exact();
            lemma_ignorable_id_scan(*old(b), *b);
        }
    }
    r
}

/// The steps of `build_alphabet_region`, in order.
spec fn alphabet_steps() -> Seq<Step> {
    seq![
        Step::AcceptTo(S::AlphabetTag, S::Alphabet),
        Step::Token(S::AlphabetTag, SpecSymbol::TAlphabet),
        Step::Trans(S::Alphabet, S::AlphabetStringPartial, '\''),
        Step::Blanks(S::Alphabet),
        Step::Trans(S::AlphabetStringPartial, S::AlphabetString, '\''),
        Step::Trans(S::AlphabetStringPartial, S::AlphabetStringEscaped, '\\'),
        Step::Default(S::AlphabetStringPartial, S::AlphabetStringPartial),
        Step::AcceptTo(S::AlphabetString, S::Start),
        Step::Token(S::AlphabetString, SpecSymbol::TCil),
        Step::Default(S::AlphabetStringEscaped, S::AlphabetStringPartial),
    ]
}

/// Adds the states of the alphabet region: the tag and the quoted alphabet string.
fn build_alphabet_region(b: &mut EncodedCDFABuilder<S, SpecSymbol>) -> (r: Result<(), CDFAError>)
    requires
        exact::<S>(),
        plain_builder(*old(b)),
    ensures
        plain_builder(*final(b)),
        forall|n: nat| #[trigger] room_within(old(b).tries(), n) ==> room_within(final(b).tries(), n),
        steps_effect(*old(b), *final(b), alphabet_steps(), r is Ok),
{
    let steps: Vec<Step> = vec![
        Step::AcceptTo(S::AlphabetTag, S::Alphabet),
        Step::Token(S::AlphabetTag, SpecSymbol::TAlphabet),
        Step::Trans(S::Alphabet, S::AlphabetStringPartial, '\''),
        Step::Blanks(S::Alphabet),
        Step::Trans(S::AlphabetStringPartial, S::AlphabetString, '\''),
        Step::Trans(S::AlphabetStringPartial, S::AlphabetStringEscaped, '\\'),
        Step::Default(S::AlphabetStringPartial, S::AlphabetStringPartial),
        Step::AcceptTo(S::AlphabetString, S::Start),
        Step::Token(S::AlphabetString, SpecSymbol::TCil),
        Step::Default(S::AlphabetStringEscaped, S::AlphabetStringPartial),
    ];
    proof {
        assert(steps@ =~= alphabet_steps());
        assert(cost_from(alphabet_steps(), 0) == 0) by {
            reveal_with_fuel(cost_from, 11);
        }
    }
    run_steps(b, &steps, Ghost(0))
}

/// The steps of `build_cdfa_region`, in order.
spec fn cdfa_steps() -> Seq<Step> {
    seq![
        Step::AcceptTo(S::CDFATag, S::CDFA),
        Step::Token(S::CDFATag, SpecSymbol::TCDFA),
        Step::Trans(S::CDFA, S::CDFAEntryBrace, '{'),
        Step::Blanks(S::CDFA),
        Step::AcceptTo(S::CDFAEntryBrace, S::CDFABody),
        Step::Token(S::CDFAEntryBrace, SpecSymbol::TLeftBrace),
        Step::Trans(S::CDFABody, S::Or, '|'),
        Step::Trans(S::CDFABody, S::Semi, ';'),
        Step::Trans(S::CDFABody, S::CilPartial, '\''),
        Step::Ids(S::CDFABody, S::Id),
        Step::Trans(S::CDFABody, S::Hat, '^'),
        Step::Chain(S::CDFABody, S::Arrow, "->"),
        Step::Chain(S::CDFABody, S::Range, ".."),
        Step::Trans(S::CDFABody, S::Def, '_'),
        Step::Trans(S::CDFABody, S::RegionExitBrace, '}'),
        Step::Blanks(S::CDFABody),
        Step::Accept(S::Hat),
        Step::Token(S::Hat, SpecSymbol::THat),
        Step::Trans(S::Arrow, S::DoubleArrow, '>'),
        Step::Accept(S::Arrow),
        Step::Token(S::Arrow, SpecSymbol::TArrow),
        Step::Accept(S::DoubleArrow),
        Step::Token(S::DoubleArrow, SpecSymbol::TDoubleArrow),
        Step::Accept(S::Range),
        Step::Token(S::Range, SpecSymbol::TRange),
        Step::Accept(S::Def),
        Step::Token(S::Def, SpecSymbol::TDef),
    ]
}

/// Adds the states of the CDFA region: the tag, the braces and the tokens of state
/// definitions.
fn build_cdfa_region(b: &mut EncodedCDFABuilder<S, SpecSymbol>, Ghost(n): Ghost<nat>) -> (r: Result<
    (),
    CDFAError,
>)
    requires
        exact::<S>(),
        plain_builder(*old(b)),
        room_within(old(b).tries(), n + 3),
    ensures
        plain_builder(*final(b)),
        room_within(final(b).tries(), n),
        steps_effect(*old(b), *final(b), cdfa_steps(), r is Ok),
{
    let steps: Vec<Step> = vec![
        Step::AcceptTo(S::CDFATag, S::CDFA),
        Step::Token(S::CDFATag, SpecSymbol::TCDFA),
        Step::Trans(S::CDFA, S::CDFAEntryBrace, '{'),
        Step::Blanks(S::CDFA),
        Step::AcceptTo(S::CDFAEntryBrace, S::CDFABody),
        Step::Token(S::CDFAEntryBrace, SpecSymbol::TLeftBrace),
        Step::Trans(S::CDFABody, S::Or, '|'),
        Step::Trans(S::CDFABody, S::Semi, ';'),
        Step::Trans(S::CDFABody, S::CilPartial, '\''),
        Step::Ids(S::CDFABody, S::Id),
        Step::Trans(S::CDFABody, S::Hat, '^'),
        Step::Chain(S::CDFABody, S::Arrow, "->"),
        Step::Chain(S::CDFABody, S::Range, ".."),
        Step::Trans(S::CDFABody, S::Def, '_'),
        Step::Trans(S::CDFABody, S::RegionExitBrace, '}'),
        Step::Blanks(S::CDFABody),
        Step::Accept(S::Hat),
        Step::Token(S::Hat, SpecSymbol::THat),
        Step::Trans(S::Arrow, S::DoubleArrow, '>'),
        Step::Accept(S::Arrow),
        Step::Token(S::Arrow, SpecSymbol::TArrow),
        Step::Accept(S::DoubleArrow),
        Step::Token(S::DoubleArrow, SpecSymbol::TDoubleArrow),
        Step::Accept(S::Range),
        Step::Token(S::Range, SpecSymbol::TRange),
        Step::Accept(S::Def),
        Step::Token(S::Def, SpecSymbol::TDef),
    ];
    proof {
        assert(steps@ =~= cdfa_steps());
        assert(cost_from(cdfa_steps(), 0) == 3) by {
            reveal_with_fuel(cost_from, 28);
        }
    }
    run_steps(b, &steps, Ghost(n))
}

/// The steps of `build_grammar_region`, in order.
spec fn grammar_steps() -> Seq<Step> {
    seq![
        Step::AcceptTo(S::GrammarTag, S::Grammar),
        Step::Token(S::GrammarTag, SpecSymbol::TGrammar),
        Step::Trans(S::Grammar, S::GrammarEntryBrace, '{'),
        Step::Blanks(S::Grammar),
        Step::AcceptTo(S::GrammarEntryBrace, S::GrammarBody),
        Step::Token(S::GrammarEntryBrace, SpecSymbol::TLeftBrace),
        Step::Trans(S::GrammarBody, S::Or, '|'),
        Step::Trans(S::GrammarBody, S::Semi, ';'),
        Step::Ids(S::GrammarBody, S::Id),
        Step::Trans(S::GrammarBody, S::OptIdPartial, '['),
        Step::Trans(S::GrammarBody, S::PatternPartial, '`'),
        Step::Trans(S::GrammarBody, S::RegionExitBrace, '}'),
        Step::Blanks(S::GrammarBody),
        Step::Trans(S::OptIdPartial, S::OptId, ']'),
        Step::Ids(S::OptIdPartial, S::OptIdPartial),
        Step::Trans(S::OptIdPartial, S::OptIdPartial, '_'),
        Step::Accept(S::OptId),
        Step::Token(S::OptId, SpecSymbol::TOptId),
    ]
}

/// After the steps of `grammar_steps`, state `OptIdPartial` scans identifiers.
#[verifier::spinoff_prover]
#[verifier::rlimit(100)]
proof fn lemma_grammar_id_scan(before: EncodedCDFABuilder<S, SpecSymbol>, after: EncodedCDFABuilder<S, SpecSymbol>)
    requires
        value_exact::<S>(),
        steps_effect(before, after, grammar_steps(), true),
    ensures
        scans_id(after, S::OptIdPartial),
{
    let steps = grammar_steps();
    assert forall|j: int| 16 <= j < steps.len() implies step_source(#[trigger] steps[j]) != Some(S::OptIdPartial) by {
        assert(steps[16] == Step::Accept(S::OptId));
        assert(steps[17] == Step::Token(S::OptId, SpecSymbol::TOptId));
    }
    lemma_id_scan(before, after, steps, 14, S::OptIdPartial);
}

/// Adds the states of the grammar region: the tag, the braces and the tokens of productions.
fn build_grammar_region(b: &mut EncodedCDFABuilder<S, SpecSymbol>, Ghost(n): Ghost<nat>) -> (r: Result<
    (),
    CDFAError,
>)
    requires
        exact::<S>(),
        plain_builder(*old(b)),
        room_within(old(b).tries(), n + 6),
    ensures
        plain_builder(*final(b)),
        room_within(final(b).tries(), n),
        steps_effect(*old(b), *final(b), grammar_steps(), r is Ok),
        r is Ok ==> scans_id(*final(b), S::OptIdPartial),
{
    let steps: Vec<Step> = vec![
        Step::AcceptTo(S::GrammarTag, S::Grammar),
        Step::Token(S::GrammarTag, SpecSymbol::TGrammar),
        Step::Trans(S::Grammar, S::GrammarEntryBrace, '{'),
        Step::Blanks(S::Grammar),
        Step::AcceptTo(S::GrammarEntryBrace, S::GrammarBody),
        Step::Token(S::GrammarEntryBrace, SpecSymbol::TLeftBrace),
        Step::Trans(S::GrammarBody, S::Or, '|'),
        Step::Trans(S::GrammarBody, S::Semi, ';'),
        Step::Ids(S::GrammarBody, S::Id),
        Step::Trans(S::GrammarBody, S::OptIdPartial, '['),
        Step::Trans(S::GrammarBody, S::PatternPartial, '`'),
        Step::Trans(S::GrammarBody, S::RegionExitBrace, '}'),
        Step::Blanks(S::GrammarBody),
        Step::Trans(S::OptIdPartial, S::OptId, ']'),
        Step::Ids(S::OptIdPartial, S::OptIdPartial),
        Step::Trans(S::OptIdPartial, S::OptIdPartial, '_'),
        Step::Accept(S::OptId),
        Step::Token(S::OptId, SpecSymbol::TOptId),
    ];
    proof {
        assert(steps@ =~= grammar_steps());
        assert(cost_from(grammar_steps(), 0) == 6) by {
            reveal_with_fuel(cost_from, 19);
        }
    }
    let r = run_steps(b, &steps, Ghost(n));
    proof {
        if r is Ok {
            lemma_state_value_exact();
            lemma_grammar_id_scan(*old(b), *b);
        }
    }
    r
}

/// The steps of `build_shared_states`, in order.
spec fn shared_steps() -> Seq<Step> {
    seq![
        Step::Accept(S::Whitespace),
        Step::AcceptTo(S::RegionExitBrace, S::Start),
        Step::Token(S::RegionExitBrace, SpecSymbol::TRightBrace),
        Step::Accept(S::Or),
        Step::Token(S::Or, SpecSymbol::TOr),
        Step::Accept(S::Semi),
        Step::Token(S::Semi, SpecSymbol::TSemi),
        Step::Trans(S::CilPartial, S::Cil, '\''),
        Step::Trans(S::CilPartial, S::CilEscaped, '\\'),
        Step::Default(S::CilPartial, S::CilPartial),
        Step::Accept(S::Cil),
        Step::Token(S::Cil, SpecSymbol::TCil),
        Step::Default(S::CilEscaped, S::CilPartial),
        Step::Ids(S::Id, S::Id),
        Step::Trans(S::Id, S::Id, '_'),
        Step::Accept(S::Id),
        Step::Token(S::Id, SpecSymbol::TId),
        Step::Trans(S::PatternPartial, S::Pattern, '`'),
        Step::Default(S::PatternPartial, S::PatternPartial),
        Step::Accept(S::Pattern),
        Step::Token(S::Pattern, SpecSymbol::TPattern),
        Step::Trans(S::Comment, S::Fail, '\n'),
        Step::Default(S::Comment, S::Comment),
        Step::Accept(S::Comment),
    ]
}

/// After the shared steps, the identifier state scans identifiers.
#[verifier::spinoff_prover]
#[verifier::rlimit(100)]
proof fn lemma_shared_id_scan(before: EncodedCDFABuilder<S, SpecSymbol>, after: EncodedCDFABuilder<S, SpecSymbol>)
    requires
        value_exact::<S>(),
        steps_effect(before, after, shared_steps(), true),
    ensures
        scans_id(after, S::Id),
{
    let steps = shared_steps();
    assert(steps[13] == Step::Ids(S::Id, S::Id));
    assert(steps[14] == Step::Trans(S::Id, S::Id, '_'));
    assert forall|j: int| 15 <= j < steps.len() implies step_source(#[trigger] steps[j]) != Some(S::Id) by {
        assert(steps[15] == Step::Accept(S::Id));
        assert(steps[16] == Step::Token(S::Id, SpecSymbol::TId));
        assert(steps[17] == Step::Trans(S::PatternPartial, S::Pattern, '`'));
        assert(steps[18] == Step::Default(S::PatternPartial, S::PatternPartial));
        assert(steps[19] == Step::Accept(S::Pattern));
        assert(steps[20] == Step::Token(S::Pattern, SpecSymbol::TPattern));
        assert(steps[21] == Step::Trans(S::Comment, S::Fail, '\n'));
        assert(steps[22] == Step::Default(S::Comment, S::Comment));
        assert(steps[23] == Step::Accept(S::Comment));
    }
    lemma_id_scan(before, after, steps, 13, S::Id);
}

/// Adds the states shared by the regions: whitespace, the closing brace, the separators, quoted
/// characters, identifiers, patterns and comments.
fn build_shared_states(b: &mut EncodedCDFABuilder<S, SpecSymbol>, Ghost(n): Ghost<nat>) -> (r: Result<
    (),
    CDFAError,
>)
    requires
        exact::<S>(),
        plain_builder(*old(b)),
        room_within(old(b).tries(), n + 3),
    ensures
        plain_builder(*final(b)),
        room_within(final(b).tries(), n),
        steps_effect(*old(b), *final(b), shared_steps(), r is Ok),
        r is Ok ==> scans_id(*final(b), S::Id),
{
    let steps: Vec<Step> = vec![
        Step::Accept(S::Whitespace),
        Step::AcceptTo(S::RegionExitBrace, S::Start),
        Step::Token(S::RegionExitBrace, SpecSymbol::TRightBrace),
        Step::Accept(S::Or),
        Step::Token(S::Or, SpecSymbol::TOr),
        Step::Accept(S::Semi),
        Step::Token(S::Semi, SpecSymbol::TSemi),
        Step::Trans(S::CilPartial, S::Cil, '\''),
        Step::Trans(S::CilPartial, S::CilEscaped, '\\'),
        Step::Default(S::CilPartial, S::CilPartial),
        Step::Accept(S::Cil),
        Step::Token(S::Cil, SpecSymbol::TCil),
        Step::Default(S::CilEscaped, S::CilPartial),
        Step::Ids(S::Id, S::Id),
        Step::Trans(S::Id, S::Id, '_'),
        Step::Accept(S::Id),
        Step::Token(S::Id, SpecSymbol::TId),
        Step::Trans(S::PatternPartial, S::Pattern, '`'),
        Step::Default(S::PatternPartial, S::PatternPartial),
        Step::Accept(S::Pattern),
        Step::Token(S::Pattern, SpecSymbol::TPattern),
        Step::Trans(S::Comment, S::Fail, '\n'),
        Step::Default(S::Comment, S::Comment),
        Step::Accept(S::Comment),
    ];
    proof {
        assert(steps@ =~= shared_steps());
        assert(cost_from(shared_steps(), 0) == 3) by {
            reveal_with_fuel(cost_from, 25);
        }
    }
    let r = run_steps(b, &steps, Ghost(n));
    proof {
        if r is Ok {
            lemma_state_value_exact();
            lemma_shared_id_scan(*old(b), *b);
        }
    }
    r
}

/// Returns the ECDFA that lexes specifications, or an error if its definition cannot be built,
/// or if a scan that accepts without consuming input could continue from a state that does so
/// too. Every transition of the ECDFA consumes input and carries no acceptor destination, so
/// lexing with it always terminates.
fn build_spec_ecdfa() -> (res: Result<EncodedCDFA<SpecSymbol>, CDFAError>)
    ensures
        res matches Ok(cdfa) ==> plain_tries(cdfa.tries()) && settled(
            cdfa.accepting_states(),
            cdfa.spec_start(),
        ),
{
    proof {
        lemma_state_exact();
    }
    let mut builder: EncodedCDFABuilder<S, SpecSymbol> = EncodedCDFABuilder::new();
    proof {
        assert(room_within(builder.tries(), 24));
    }
    plain_alphabet(&mut builder, SPEC_ALPHABET);
    plain_start(&mut builder, &S::Start);

    plain_chain(&mut builder, &S::Start, S::InjectableTag, "inject")?;
    plain_chain(&mut builder, &S::Start, S::IgnorableTag, "ignore")?;
    plain_chain(&mut builder, &S::Start, S::AlphabetTag, "alphabet")?;
    plain_chain(&mut builder, &S::Start, S::CDFATag, "cdfa")?;
    plain_chain(&mut builder, &S::Start, S::GrammarTag, "grammar")?;
    plain_trans(&mut builder, &S::Start, S::Comment, '#')?;
    plain_trans(&mut builder, &S::Start, S::Whitespace, ' ')?;
    plain_trans(&mut builder, &S::Start, S::Whitespace, '\t')?;
    plain_trans(&mut builder, &S::Start, S::Whitespace, '\n')?;
    plain_trans(&mut builder, &S::Start, S::Whitespace, '\r')?;

    build_injectable_region(&mut builder, Ghost(18))?;
    build_ignorable_region(&mut builder, Ghost(12))?;
    build_alphabet_region(&mut builder)?;
    build_cdfa_region(&mut builder, Ghost(9))?;
    build_grammar_region(&mut builder, Ghost(3))?;
    build_shared_states(&mut builder, Ghost(0))?;

    let settles = builder.zero_acceptances_settle();
    let cdfa = builder.build()?;
    if settles {
        Ok(cdfa)
    } else {
        Err(CDFAError::BuildErr(String::from_str("Acceptances without input do not settle")))
    }
}

/// The rules of the grammar built by `build_spec_grammar`, in order.
pub open spec fn spec_grammar_rules() -> Seq<(SpecSymbol, Seq<SpecSymbol>)> {
    seq![
        (SpecSymbol::Spec, seq![SpecSymbol::Regions]),
        (SpecSymbol::Regions, seq![SpecSymbol::Regions, SpecSymbol::Region]),
        (SpecSymbol::Regions, seq![SpecSymbol::Region]),
        (SpecSymbol::Region, seq![SpecSymbol::Injectable]),
        (SpecSymbol::Region, seq![SpecSymbol::Ignorable]),
        (SpecSymbol::Region, seq![SpecSymbol::Alphabet]),
        (SpecSymbol::Region, seq![SpecSymbol::CDFA]),
        (SpecSymbol::Region, seq![SpecSymbol::Grammar]),
        (SpecSymbol::Injectable, seq![SpecSymbol::TInjectable, SpecSymbol::TInjectionAffinity, SpecSymbol::TId, SpecSymbol::PatternOpt]),
        (SpecSymbol::Ignorable, seq![SpecSymbol::TIgnorable, SpecSymbol::TId]),
        (SpecSymbol::Alphabet, seq![SpecSymbol::TAlphabet, SpecSymbol::TCil]),
        (SpecSymbol::CDFA, seq![SpecSymbol::TCDFA, SpecSymbol::TLeftBrace, SpecSymbol::States, SpecSymbol::TRightBrace]),
        (SpecSymbol::States, seq![SpecSymbol::States, SpecSymbol::State]),
        (SpecSymbol::States, seq![SpecSymbol::State]),
        (SpecSymbol::State, seq![SpecSymbol::StateDeclarator, SpecSymbol::TransitionsOpt, SpecSymbol::TSemi]),
        (SpecSymbol::StateDeclarator, seq![SpecSymbol::Targets]),
        (SpecSymbol::StateDeclarator, seq![SpecSymbol::Targets, SpecSymbol::Acceptor]),
        (SpecSymbol::Acceptor, seq![SpecSymbol::THat, SpecSymbol::IdOrDef, SpecSymbol::AcceptorDestinationOpt]),
        (SpecSymbol::AcceptorDestinationOpt, seq![SpecSymbol::TArrow, SpecSymbol::TId]),
        (SpecSymbol::AcceptorDestinationOpt, seq![]),
        (SpecSymbol::Targets, seq![SpecSymbol::TId]),
        (SpecSymbol::Targets, seq![SpecSymbol::Targets, SpecSymbol::TOr, SpecSymbol::TId]),
        (SpecSymbol::TransitionsOpt, seq![SpecSymbol::Transitions]),
        (SpecSymbol::TransitionsOpt, seq![]),
        (SpecSymbol::Transitions, seq![SpecSymbol::Transitions, SpecSymbol::Transition]),
        (SpecSymbol::Transitions, seq![SpecSymbol::Transition]),
        (SpecSymbol::Transition, seq![SpecSymbol::TransitionPattern, SpecSymbol::TransitionMethod, SpecSymbol::TransitionDestination]),
        (SpecSymbol::TransitionPattern, seq![SpecSymbol::Matchers]),
        (SpecSymbol::TransitionPattern, seq![SpecSymbol::TDef]),
        (SpecSymbol::TransitionMethod, seq![SpecSymbol::TArrow]),
        (SpecSymbol::TransitionMethod, seq![SpecSymbol::TDoubleArrow]),
        (SpecSymbol::TransitionDestination, seq![SpecSymbol::TId]),
        (SpecSymbol::TransitionDestination, seq![SpecSymbol::Acceptor]),
        (SpecSymbol::Matchers, seq![SpecSymbol::Matchers, SpecSymbol::TOr, SpecSymbol::Matcher]),
        (SpecSymbol::Matchers, seq![SpecSymbol::Matcher]),
        (SpecSymbol::Matcher, seq![SpecSymbol::TCil]),
        (SpecSymbol::Matcher, seq![SpecSymbol::TCil, SpecSymbol::TRange, SpecSymbol::TCil]),
        (SpecSymbol::Grammar, seq![SpecSymbol::TGrammar, SpecSymbol::TLeftBrace, SpecSymbol::Productions, SpecSymbol::TRightBrace]),
        (SpecSymbol::Productions, seq![SpecSymbol::Productions, SpecSymbol::Production]),
        (SpecSymbol::Productions, seq![SpecSymbol::Production]),
        (SpecSymbol::Production, seq![SpecSymbol::TId, SpecSymbol::PatternOpt, SpecSymbol::RightHandSides, SpecSymbol::TSemi]),
        (SpecSymbol::RightHandSides, seq![SpecSymbol::RightHandSides, SpecSymbol::RightHandSide]),
        (SpecSymbol::RightHandSides, seq![SpecSymbol::RightHandSide]),
        (SpecSymbol::RightHandSide, seq![SpecSymbol::TOr, SpecSymbol::Ids, SpecSymbol::PatternOpt]),
        (SpecSymbol::PatternOpt, seq![SpecSymbol::TPattern]),
        (SpecSymbol::PatternOpt, seq![]),
        (SpecSymbol::Ids, seq![SpecSymbol::Ids, SpecSymbol::TId]),
        (SpecSymbol::Ids, seq![SpecSymbol::Ids, SpecSymbol::TOptId]),
        (SpecSymbol::Ids, seq![]),
        (SpecSymbol::IdOrDef, seq![SpecSymbol::TId]),
        (SpecSymbol::IdOrDef, seq![SpecSymbol::TDef]),
    ]
}

/// Returns the grammar of specifications, whose start symbol is `Spec` and which has no
/// ignorable or injectable symbols.
fn build_spec_grammar() -> (res: Result<SimpleGrammar<SpecSymbol>, grammar::BuildError>)
    ensures
        res matches Ok(g) && g.start_symbol() == SpecSymbol::Spec && !weighs_parses(&g),
        res matches Ok(g) ==> forall|k: SpecSymbol| #[trigger] rhs_views(productions_under(g.entries(), k))
            == rules_under(spec_grammar_rules(), k),
{
    proof {
        lemma_spec_symbol_exact();
    }
    let mut builder: SimpleGrammarBuilder<SpecSymbol> = SimpleGrammarBuilder::new();
    builder.try_mark_start(&SpecSymbol::Spec);

    let rules: Vec<(SpecSymbol, Vec<SpecSymbol>)> = vec![
        (SpecSymbol::Spec, vec![SpecSymbol::Regions]),
        (SpecSymbol::Regions, vec![SpecSymbol::Regions, SpecSymbol::Region]),
        (SpecSymbol::Regions, vec![SpecSymbol::Region]),
        (SpecSymbol::Region, vec![SpecSymbol::Injectable]),
        (SpecSymbol::Region, vec![SpecSymbol::Ignorable]),
        (SpecSymbol::Region, vec![SpecSymbol::Alphabet]),
        (SpecSymbol::Region, vec![SpecSymbol::CDFA]),
        (SpecSymbol::Region, vec![SpecSymbol::Grammar]),
        (SpecSymbol::Injectable, vec![SpecSymbol::TInjectable, SpecSymbol::TInjectionAffinity, SpecSymbol::TId, SpecSymbol::PatternOpt]),
        (SpecSymbol::Ignorable, vec![SpecSymbol::TIgnorable, SpecSymbol::TId]),
        (SpecSymbol::Alphabet, vec![SpecSymbol::TAlphabet, SpecSymbol::TCil]),
        (SpecSymbol::CDFA, vec![SpecSymbol::TCDFA, SpecSymbol::TLeftBrace, SpecSymbol::States, SpecSymbol::TRightBrace]),
        (SpecSymbol::States, vec![SpecSymbol::States, SpecSymbol::State]),
        (SpecSymbol::States, vec![SpecSymbol::State]),
        (SpecSymbol::State, vec![SpecSymbol::StateDeclarator, SpecSymbol::TransitionsOpt, SpecSymbol::TSemi]),
        (SpecSymbol::StateDeclarator, vec![SpecSymbol::Targets]),
        (SpecSymbol::StateDeclarator, vec![SpecSymbol::Targets, SpecSymbol::Acceptor]),
        (SpecSymbol::Acceptor, vec![SpecSymbol::THat, SpecSymbol::IdOrDef, SpecSymbol::AcceptorDestinationOpt]),
        (SpecSymbol::AcceptorDestinationOpt, vec![SpecSymbol::TArrow, SpecSymbol::TId]),
        (SpecSymbol::AcceptorDestinationOpt, vec![]),
        (SpecSymbol::Targets, vec![SpecSymbol::TId]),
        (SpecSymbol::Targets, vec![SpecSymbol::Targets, SpecSymbol::TOr, SpecSymbol::TId]),
        (SpecSymbol::TransitionsOpt, vec![SpecSymbol::Transitions]),
        (SpecSymbol::TransitionsOpt, vec![]),
        (SpecSymbol::Transitions, vec![SpecSymbol::Transitions, SpecSymbol::Transition]),
        (SpecSymbol::Transitions, vec![SpecSymbol::Transition]),
        (SpecSymbol::Transition, vec![SpecSymbol::TransitionPattern, SpecSymbol::TransitionMethod, SpecSymbol::TransitionDestination]),
        (SpecSymbol::TransitionPattern, vec![SpecSymbol::Matchers]),
        (SpecSymbol::TransitionPattern, vec![SpecSymbol::TDef]),
        (SpecSymbol::TransitionMethod, vec![SpecSymbol::TArrow]),
        (SpecSymbol::TransitionMethod, vec![SpecSymbol::TDoubleArrow]),
        (SpecSymbol::TransitionDestination, vec![SpecSymbol::TId]),
        (SpecSymbol::TransitionDestination, vec![SpecSymbol::Acceptor]),
        (SpecSymbol::Matchers, vec![SpecSymbol::Matchers, SpecSymbol::TOr, SpecSymbol::Matcher]),
        (SpecSymbol::Matchers, vec![SpecSymbol::Matcher]),
        (SpecSymbol::Matcher, vec![SpecSymbol::TCil]),
        (SpecSymbol::Matcher, vec![SpecSymbol::TCil, SpecSymbol::TRange, SpecSymbol::TCil]),
        (SpecSymbol::Grammar, vec![SpecSymbol::TGrammar, SpecSymbol::TLeftBrace, SpecSymbol::Productions, SpecSymbol::TRightBrace]),
        (SpecSymbol::Productions, vec![SpecSymbol::Productions, SpecSymbol::Production]),
        (SpecSymbol::Productions, vec![SpecSymbol::Production]),
        (SpecSymbol::Production, vec![SpecSymbol::TId, SpecSymbol::PatternOpt, SpecSymbol::RightHandSides, SpecSymbol::TSemi]),
        (SpecSymbol::RightHandSides, vec![SpecSymbol::RightHandSides, SpecSymbol::RightHandSide]),
        (SpecSymbol::RightHandSides, vec![SpecSymbol::RightHandSide]),
        (SpecSymbol::RightHandSide, vec![SpecSymbol::TOr, SpecSymbol::Ids, SpecSymbol::PatternOpt]),
        (SpecSymbol::PatternOpt, vec![SpecSymbol::TPattern]),
        (SpecSymbol::PatternOpt, vec![]),
        (SpecSymbol::Ids, vec![SpecSymbol::Ids, SpecSymbol::TId]),
        (SpecSymbol::Ids, vec![SpecSymbol::Ids, SpecSymbol::TOptId]),
        (SpecSymbol::Ids, vec![]),
        (SpecSymbol::IdOrDef, vec![SpecSymbol::TId]),
        (SpecSymbol::IdOrDef, vec![SpecSymbol::TDef]),
    ];
    proof {
        assert(rules@[0].1@ =~= seq![SpecSymbol::Regions]);
        assert(rules@[1].1@ =~= seq![SpecSymbol::Regions, SpecSymbol::Region]);
        assert(rules@[2].1@ =~= seq![SpecSymbol::Region]);
        assert(rules@[3].1@ =~= seq![SpecSymbol::Injectable]);
        assert(rules@[4].1@ =~= seq![SpecSymbol::Ignorable]);
        assert(rules@[5].1@ =~= seq![SpecSymbol::Alphabet]);
        assert(rules@[6].1@ =~= seq![SpecSymbol::CDFA]);
        assert(rules@[7].1@ =~= seq![SpecSymbol::Grammar]);
        assert(rules@[8].1@ =~= seq![SpecSymbol::TInjectable, SpecSymbol::TInjectionAffinity, SpecSymbol::TId, SpecSymbol::PatternOpt]);
        assert(rules@[9].1@ =~= seq![SpecSymbol::TIgnorable, SpecSymbol::TId]);
        assert(rules@[10].1@ =~= seq![SpecSymbol::TAlphabet, SpecSymbol::TCil]);
        assert(rules@[11].1@ =~= seq![SpecSymbol::TCDFA, SpecSymbol::TLeftBrace, SpecSymbol::States, SpecSymbol::TRightBrace]);
        assert(rules@[12].1@ =~= seq![SpecSymbol::States, SpecSymbol::State]);
        assert(rules@[13].1@ =~= seq![SpecSymbol::State]);
        assert(rules@[14].1@ =~= seq![SpecSymbol::StateDeclarator, SpecSymbol::TransitionsOpt, SpecSymbol::TSemi]);
        assert(rules@[15].1@ =~= seq![SpecSymbol::Targets]);
        assert(rules@[16].1@ =~= seq![SpecSymbol::Targets, SpecSymbol::Acceptor]);
        assert(rules@[17].1@ =~= seq![SpecSymbol::THat, SpecSymbol::IdOrDef, SpecSymbol::AcceptorDestinationOpt]);
        assert(rules@[18].1@ =~= seq![SpecSymbol::TArrow, SpecSymbol::TId]);
        assert(rules@[19].1@ =~= seq![]);
        assert(rules@[20].1@ =~= seq![SpecSymbol::TId]);
        assert(rules@[21].1@ =~= seq![SpecSymbol::Targets, SpecSymbol::TOr, SpecSymbol::TId]);
        assert(rules@[22].1@ =~= seq![SpecSymbol::Transitions]);
        assert(rules@[23].1@ =~= seq![]);
        assert(rules@[24].1@ =~= seq![SpecSymbol::Transitions, SpecSymbol::Transition]);
        assert(rules@[25].1@ =~= seq![SpecSymbol::Transition]);
        assert(rules@[26].1@ =~= seq![SpecSymbol::TransitionPattern, SpecSymbol::TransitionMethod, SpecSymbol::TransitionDestination]);
        assert(rules@[27].1@ =~= seq![SpecSymbol::Matchers]);
        assert(rules@[28].1@ =~= seq![SpecSymbol::TDef]);
        assert(rules@[29].1@ =~= seq![SpecSymbol::TArrow]);
        assert(rules@[30].1@ =~= seq![SpecSymbol::TDoubleArrow]);
        assert(rules@[31].1@ =~= seq![SpecSymbol::TId]);
        assert(rules@[32].1@ =~= seq![SpecSymbol::Acceptor]);
        assert(rules@[33].1@ =~= seq![SpecSymbol::Matchers, SpecSymbol::TOr, SpecSymbol::Matcher]);
        assert(rules@[34].1@ =~= seq![SpecSymbol::Matcher]);
        assert(rules@[35].1@ =~= seq![SpecSymbol::TCil]);
        assert(rules@[36].1@ =~= seq![SpecSymbol::TCil, SpecSymbol::TRange, SpecSymbol::TCil]);
        assert(rules@[37].1@ =~= seq![SpecSymbol::TGrammar, SpecSymbol::TLeftBrace, SpecSymbol::Productions, SpecSymbol::TRightBrace]);
        assert(rules@[38].1@ =~= seq![SpecSymbol::Productions, SpecSymbol::Production]);
        assert(rules@[39].1@ =~= seq![SpecSymbol::Production]);
        assert(rules@[40].1@ =~= seq![SpecSymbol::TId, SpecSymbol::PatternOpt, SpecSymbol::RightHandSides, SpecSymbol::TSemi]);
        assert(rules@[41].1@ =~= seq![SpecSymbol::RightHandSides, SpecSymbol::RightHandSide]);
        assert(rules@[42].1@ =~= seq![SpecSymbol::RightHandSide]);
        assert(rules@[43].1@ =~= seq![SpecSymbol::TOr, SpecSymbol::Ids, SpecSymbol::PatternOpt]);
        assert(rules@[44].1@ =~= seq![SpecSymbol::TPattern]);
        assert(rules@[45].1@ =~= seq![]);
        assert(rules@[46].1@ =~= seq![SpecSymbol::Ids, SpecSymbol::TId]);
        assert(rules@[47].1@ =~= seq![SpecSymbol::Ids, SpecSymbol::TOptId]);
        assert(rules@[48].1@ =~= seq![]);
        assert(rules@[49].1@ =~= seq![SpecSymbol::TId]);
        assert(rules@[50].1@ =~= seq![SpecSymbol::TDef]);
        assert(rule_views(rules@) =~= spec_grammar_rules());
    }
    let ghost empty = builder.entries();
    add_rules(&mut builder, rules);

    let ghost unmarked = builder.injectable_entries();
    let res = builder.build();
    proof {
        assert forall|k: SpecSymbol| #[trigger] rhs_views(productions_under(builder.entries(), k)) == rules_under(
            spec_grammar_rules(),
            k,
        ) by {
            assert(productions_under(empty, k) =~= Seq::<Production<SpecSymbol>>::empty());
            assert(rhs_views(Seq::<Production<SpecSymbol>>::empty()) + rules_under(spec_grammar_rules(), k) =~= rules_under(spec_grammar_rules(), k));
        }
        if let Ok(ref g) = res {
            assert(g.injectables().dom() =~= Set::<SpecSymbol>::empty()) by {
                assert(unmarked.len() == 0);
            }
            assert(g.injectables() =~= Map::<SpecSymbol, InjectionAffinity>::empty());
        }
    }
    res
}

/// Parses a specification from `input`, returning its parse tree, rooted at a `Spec` node, or
/// an error if `input` is not a valid specification.
pub fn parse_spec(input: &str) -> (res: Result<Tree<SpecSymbol>, ParseError>)
    requires
        input@.len() + 2 < usize::MAX,
    ensures
        res matches Ok(tree) ==> tree.spm == SymbolParseMethod::Standard && tree.lhs.spec_kind()
            == Some(SpecSymbol::Spec),
{
    let cdfa = match build_spec_ecdfa() {
        Ok(cdfa) => cdfa,
        Err(CDFAError::BuildErr(message)) => return Err(ParseError::DefinitionErr(message)),
    };
    let grammar = match build_spec_grammar() {
        Ok(grammar) => grammar,
        Err(err) => return Err(ParseError::DefinitionErr(err.message())),
    };
    let chars = chars_of(input);
    proof {
        lemma_spec_symbol_exact();
        lemma_cdfa_plain(&cdfa);
        lemma_cdfa_settles(&cdfa);
        law_settled_lex_finishes(&cdfa, chars@);
    }
    let tokens = match def_lexer().lex(chars.as_slice(), &cdfa) {
        Ok(tokens) => tokens,
        Err(err) => return Err(ParseError::LexErr(err)),
    };
    match def_parser().parse(tokens, &grammar) {
        Ok(tree) => Ok(tree),
        Err(err) => Err(ParseError::ParseErr(err)),
    }
}

} // verus!
