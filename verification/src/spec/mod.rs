use vstd::prelude::*;
use crate::fmt::{self, Formatter};
use crate::lex::{self, ecdfa::EncodedCDFA};
use crate::parse::grammar::{self, Grammar, GrammarBuilder, GrammarSymbol};
use crate::parse::{self, SymbolParseMethod, Tree};
use crate::data::value_exact;
use crate::spec::lang::SpecSymbol;
use crate::spec::region::{has_region_type, region_nodes, regions_shaped, RegionType};

mod gen;
pub mod lang;
pub mod region;

verus! {

/// The default transition matcher of CDFA specifications.
pub const DEF_MATCHER: &'static str = "_";

/// Whether every token of `tree` has a lexeme of fewer than `usize::MAX - 2` characters.
pub open spec fn short_lexemes(tree: Tree<SpecSymbol>) -> bool
    decreases tree,
{
    tree.lhs.spec_lexeme().len() + 2 < usize::MAX && short_forest(tree.children@)
}

/// Whether every token of the trees of `ts` has a lexeme of fewer than `usize::MAX - 2`
/// characters.
pub open spec fn short_forest(ts: Seq<Tree<SpecSymbol>>) -> bool
    decreases ts,
{
    if ts.len() == 0 {
        true
    } else {
        proof {
            assert(decreases_to!(ts => ts[ts.len() - 1]));
        }
        short_forest(ts.drop_last()) && short_lexemes(ts[ts.len() - 1])
    }
}

/// The children of a tree whose lexemes are short have short lexemes.
pub proof fn lemma_short_child(tree: Tree<SpecSymbol>, i: int)
    requires
        short_lexemes(tree),
        0 <= i < tree.children@.len(),
    ensures
        short_lexemes(tree.children@[i]),
{
    lemma_short_member(tree.children@, i);
}

/// A sequence of trees each with short lexemes has short lexemes.
proof fn lemma_short_forest(ts: Seq<Tree<SpecSymbol>>)
    requires
        forall|i: int| 0 <= i < ts.len() ==> short_lexemes(#[trigger] ts[i]),
    ensures
        short_forest(ts),
    decreases ts.len(),
{
    if ts.len() > 0 {
        assert forall|i: int| 0 <= i < ts.drop_last().len() implies short_lexemes(#[trigger] ts.drop_last()[i]) by {
            assert(ts.drop_last()[i] == ts[i]);
        }
        lemma_short_forest(ts.drop_last());
    }
}

/// Returns true if every token of `tree` has a lexeme of fewer than `usize::MAX - 2`
/// characters.
pub fn lexemes_short(tree: &Tree<SpecSymbol>) -> (b: bool)
    ensures
        b == short_lexemes(*tree),
    decreases parse::tree_size(*tree),
{
    let n = tree.lhs.lexeme().as_str().unicode_len();
    if n >= usize::MAX - 2 {
        return false;
    }
    let mut i: usize = 0;
    while i < tree.children.len()
        invariant
            i <= tree.children@.len(),
            forall|j: int| 0 <= j < i ==> short_lexemes(#[trigger] tree.children@[j]),
        decreases tree.children@.len() - i,
    {
        proof {
            parse::lemma_child_smaller(*tree, i as int);
        }
        if !lexemes_short(tree.get_child(i)) {
            proof {
                if short_lexemes(*tree) {
                    lemma_short_child(*tree, i as int);
                }
            }
            return false;
        }
        i += 1;
    }
    proof {
        lemma_short_forest(tree.children@);
    }
    true
}

/// A tree of a sequence of trees whose lexemes are short has short lexemes.
proof fn lemma_short_member(ts: Seq<Tree<SpecSymbol>>, i: int)
    requires
        short_forest(ts),
        0 <= i < ts.len(),
    ensures
        short_lexemes(ts[i]),
    decreases ts.len(),
{
    if i < ts.len() - 1 {
        lemma_short_member(ts.drop_last(), i);
    }
}

/// Parse Error: an error encountered while parsing a specification: while lexing it, while
/// parsing its tokens, or in the definition of the specification language itself.
#[derive(Debug)]
pub enum ParseError {
    LexErr(lex::Error),
    ParseErr(parse::Error),
    DefinitionErr(String),
}

/// Whether `m` describes the specification parse error `e`.
pub open spec fn parse_message(e: ParseError, m: Seq<char>) -> bool {
    match e {
        ParseError::LexErr(err) => exists|inner: Seq<char>|
            lex::lex_message(err, inner) && m == "Lex error: "@ + inner,
        ParseError::ParseErr(err) => m == "Parse error: "@ + err.message@,
        ParseError::DefinitionErr(err) => m == "Specification language error: "@ + err@,
    }
}

impl ParseError {
    /// Returns a description of the error.
    pub fn message(&self) -> (m: String)
        ensures
            parse_message(*self, m@),
    {
        match self {
            ParseError::LexErr(err) => {
                let mut m = String::from_str("Lex error: ");
                let inner = err.message();
                m.append(inner.as_str());
                assert(lex::lex_message(*err, inner@) && m@ == "Lex error: "@ + inner@);
                m
            },
            ParseError::ParseErr(err) => {
                let mut m = String::from_str("Parse error: ");
                m.append(err.message.as_str());
                m
            },
            ParseError::DefinitionErr(err) => {
                let mut m = String::from_str("Specification language error: ");
                m.append(err.as_str());
                m
            },
        }
    }
}

/// Parses a specification from the `input` string, returning its parse tree, rooted at a
/// `Spec` node, or an error if `input` is not a valid specification.
pub fn parse_spec(input: &str) -> (res: Result<Tree<SpecSymbol>, ParseError>)
    requires
        input@.len() + 2 < usize::MAX,
    ensures
        res matches Ok(tree) ==> tree.spm == SymbolParseMethod::Standard && tree.lhs.spec_kind()
            == Some(SpecSymbol::Spec),
{
    lang::parse_spec(input)
}

/// Whether some state of the token kinds `kinds` produces tokens of kind `symbol`.
pub open spec fn produced<Symbol>(kinds: Seq<Option<Symbol>>, symbol: Symbol) -> bool {
    exists|k: int| 0 <= k < kinds.len() && kinds[k] == Some(symbol)
}

/// Generates a specification from its parse tree `parse`: the ECDFA that lexes its language,
/// the grammar (built with `grammar_builder`) that parses it, and the formatter that formats
/// its parse trees; or returns an error if `parse` does not represent a valid specification.
///
/// A generated specification has a CDFA region and a grammar region, and every terminal of its
/// grammar is a token kind of its ECDFA.
pub fn generate_spec<Symbol: GrammarSymbol, GrammarType: Grammar<Symbol>, GrammarBuilderType: GrammarBuilder<
    String,
    Symbol,
    GrammarType,
>>(parse: &Tree<SpecSymbol>, grammar_builder: GrammarBuilderType) -> (res: Result<
    (EncodedCDFA<Symbol>, GrammarType, Formatter<Symbol>),
    GenError,
>)
    requires
        short_lexemes(*parse),
    ensures
        res is Ok ==> parse.children@.len() > 0 && regions_shaped(parse.children@[0])
            && has_region_type(region_nodes(parse.children@[0]), RegionType::CDFA) && has_region_type(
            region_nodes(parse.children@[0]),
            RegionType::Grammar,
        ),
        res matches Err(GenError::RegionErr(region::Error::MissingRequired(t))) ==> parse.children@.len()
            > 0 && regions_shaped(parse.children@[0]) && !has_region_type(
            region_nodes(parse.children@[0]),
            t,
        ),
        res matches Ok((cdfa, grammar, _)) ==> (value_exact::<Symbol>() ==> forall|s: Symbol| #[trigger]
            grammar.terminal_set().contains(s) ==> produced(cdfa.token_kinds(), s)),
{
    gen::generate_spec(parse, grammar_builder)
}

/// Gen Error: an error encountered while generating a specification: in a CDFA transition
/// matcher, in the mapping of CDFA tokens to grammar symbols, while building the CDFA, the
/// formatter or the grammar, in the regions of the specification, or in the shape of its parse
/// tree.
#[derive(Debug)]
pub enum GenError {
    MatcherErr(String),
    MappingErr(String),
    CDFAErr(lex::CDFAError),
    FormatterErr(fmt::BuildError),
    GrammarBuildErr(grammar::BuildError),
    RegionErr(region::Error),
    MalformedErr(String),
}

/// Whether `m` describes the specification generation error `e`.
pub open spec fn gen_message(e: GenError, m: Seq<char>) -> bool {
    match e {
        GenError::MatcherErr(err) => m == "Matcher definition error: "@ + err@,
        GenError::MappingErr(err) => m == "ECDFA to grammar mapping error: "@ + err@,
        GenError::CDFAErr(lex::CDFAError::BuildErr(err)) => m == "ECDFA generation error: "@
            + "Failed to build CDFA: "@ + err@,
        GenError::FormatterErr(err) => exists|inner: Seq<char>|
            fmt::formatter_message(err, inner) && m == "Formatter build error: "@ + inner,
        GenError::GrammarBuildErr(err) => exists|inner: Seq<char>|
            grammar::grammar_message(err, inner) && m == "Grammar build error: "@ + inner,
        GenError::RegionErr(err) => exists|inner: Seq<char>|
            region::region_message(err, inner) && m == "Region error: "@ + inner,
        GenError::MalformedErr(err) => m == "Malformed specification: "@ + err@,
    }
}

impl GenError {
    /// Returns a description of the error.
    pub fn message(&self) -> (m: String)
        ensures
            gen_message(*self, m@),
    {
        match self {
            GenError::MatcherErr(err) => {
                let mut m = String::from_str("Matcher definition error: ");
                m.append(err.as_str());
                m
            },
            GenError::MappingErr(err) => {
                let mut m = String::from_str("ECDFA to grammar mapping error: ");
                m.append(err.as_str());
                m
            },
            GenError::CDFAErr(lex::CDFAError::BuildErr(err)) => {
                let mut m = String::from_str("ECDFA generation error: ");
                m.append("Failed to build CDFA: ");
                m.append(err.as_str());
                m
            },
            GenError::FormatterErr(err) => {
                let mut m = String::from_str("Formatter build error: ");
                let inner = err.message();
                m.append(inner.as_str());
                assert(fmt::formatter_message(*err, inner@) && m@ == "Formatter build error: "@ + inner@);
                m
            },
            GenError::GrammarBuildErr(err) => {
                let mut m = String::from_str("Grammar build error: ");
                let inner = err.message();
                m.append(inner.as_str());
                assert(grammar::grammar_message(*err, inner@) && m@ == "Grammar build error: "@ + inner@);
                m
            },
            GenError::RegionErr(err) => {
                let mut m = String::from_str("Region error: ");
                let inner = err.message();
                m.append(inner.as_str());
                assert(region::region_message(*err, inner@) && m@ == "Region error: "@ + inner@);
                m
            },
            GenError::MalformedErr(err) => {
                let mut m = String::from_str("Malformed specification: ");
                m.append(err.as_str());
                m
            },
        }
    }
}

/// The error for a tree that is not shaped as the parse of a specification.
pub(crate) fn malformed() -> (e: GenError)
    ensures
        e is MalformedErr,
{
    GenError::MalformedErr(String::from_str("unexpected parse tree shape"))
}

} // verus!
