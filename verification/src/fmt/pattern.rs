use vstd::prelude::*;
use vstd::std_specs::cmp::PartialEqSpecImpl;
use crate::data::{clones_exactly, decimal_text, value_exact, Data};
use crate::lex::ecdfa::{
    chains_of, default_of, exact, lemma_cdfa_consumes, lemma_from_step, lemma_unused_fresh,
    no_destinations, plain_accept, plain_builder, plain_default, plain_range, plain_start,
    plain_token, plain_trans, plain_tries, ranges_of, room_within, tries_from, trie_of,
    EncodedCDFA, EncodedCDFABuilder,
};
use crate::lex::Transit;
use crate::lex::ecdfa::encode_transit_spec;
use crate::util::encoder::{encode_spec, first_code, law_encode_decode, lemma_first_code_prefix};
use crate::lex::longest_match::law_consuming_lex_finishes;
use crate::lex::{self, def_lexer, CDFABuilder, CDFAError, Lexer, CDFA};
use crate::fmt::InjectionAffinity;
use crate::parse::grammar::{
    self, add_rules, productions_under, rhs_views, rule_views, rules_under, weighs_parses, Grammar, GrammarBuilder, GrammarSymbol, SimpleGrammar,
    SimpleGrammarBuilder,
};
use crate::parse::{
    self, def_parser, spelled_text, lemma_child_smaller, lemma_string_production_rendered, spells, tree_size, Parser,
    Production, ProductionSymbol,
    SymbolParseMethod, Tree,
};
use crate::util::vecset::has_key;
use crate::text::{chars_of, replace_escapes, unescape};
use crate::tracker::{parse_u64, spec_parse_u64};

verus! {

/// The states of the CDFA that lexes patterns.
#[derive(Eq, Hash, Clone, Copy, Debug)]
enum S {
    Start,
    LeftBrace,
    RightBrace,
    LeftBracket,
    RightBracket,
    Semi,
    Equals,
    Zero,
    Number,
    Alpha,
    Filler,
    Escape,
    Fail,
}

impl S {
    /// The name of the variant.
    pub closed spec fn label(self) -> Seq<char> {
        match self {
            S::Start => "Start"@,
            S::LeftBrace => "LeftBrace"@,
            S::RightBrace => "RightBrace"@,
            S::LeftBracket => "LeftBracket"@,
            S::RightBracket => "RightBracket"@,
            S::Semi => "Semi"@,
            S::Equals => "Equals"@,
            S::Zero => "Zero"@,
            S::Number => "Number"@,
            S::Alpha => "Alpha"@,
            S::Filler => "Filler"@,
            S::Escape => "Escape"@,
            S::Fail => "Fail"@,
        }
    }

    /// The position of the state in the declaration of `S`.
    pub closed spec fn index(self) -> int {
        match self {
            S::Start => 0,
            S::LeftBrace => 1,
            S::RightBrace => 2,
            S::LeftBracket => 3,
            S::RightBracket => 4,
            S::Semi => 5,
            S::Equals => 6,
            S::Zero => 7,
            S::Number => 8,
            S::Alpha => 9,
            S::Filler => 10,
            S::Escape => 11,
            S::Fail => 12,
        }
    }

    fn position(&self) -> (i: u8)
        ensures
            i == self.index(),
    {
        match self {
            S::Start => 0,
            S::LeftBrace => 1,
            S::RightBrace => 2,
            S::LeftBracket => 3,
            S::RightBracket => 4,
            S::Semi => 5,
            S::Equals => 6,
            S::Zero => 7,
            S::Number => 8,
            S::Alpha => 9,
            S::Filler => 10,
            S::Escape => 11,
            S::Fail => 12,
        }
    }
}

impl PartialEq for S {
    fn eq(&self, other: &Self) -> (r: bool) {
        self.position() == other.position()
    }
}

impl PartialEqSpecImpl for S {
    open spec fn obeys_eq_spec() -> bool {
        true
    }

    open spec fn eq_spec(&self, other: &Self) -> bool {
        self.index() == other.index()
    }
}

impl Data for S {
    open spec fn rendered(&self) -> Seq<char> {
        self.label()
    }

    open spec fn renders_exactly() -> bool {
        true
    }

    fn to_string(&self) -> (r: String)
        ensures
            r@ == self.label(),
    {
        match self {
            S::Start => String::from_str("Start"),
            S::LeftBrace => String::from_str("LeftBrace"),
            S::RightBrace => String::from_str("RightBrace"),
            S::LeftBracket => String::from_str("LeftBracket"),
            S::RightBracket => String::from_str("RightBracket"),
            S::Semi => String::from_str("Semi"),
            S::Equals => String::from_str("Equals"),
            S::Zero => String::from_str("Zero"),
            S::Number => String::from_str("Number"),
            S::Alpha => String::from_str("Alpha"),
            S::Filler => String::from_str("Filler"),
            S::Escape => String::from_str("Escape"),
            S::Fail => String::from_str("Fail"),
        }
    }
}

/// Equality and cloning of pattern lexer states are exact.
proof fn lemma_state_exact()
    ensures
        exact::<S>(),
        value_exact::<S>(),
{
    assert forall|a: S, b: S| #[trigger] cloned(a, b) implies a == b by {
        if vstd::pervasive::strictly_cloned(a, b) {
            assert(call_ensures(S::clone, (&a,), b));
        }
    }
    assert forall|a: S, b: S| #[trigger]
        vstd::std_specs::cmp::PartialEqSpec::eq_spec(&a, &b) <==> a == b by {
        if a.index() == b.index() {
            match a {
                S::Start => {},
                _ => {},
            }
        }
    }
}

/// Whether the transitions out of `state` in builder `b` so far are chains of one character
/// among `chars`, ranges among `ivs`, and (unless `defaulted`) no default; only `state` and the
/// states of `used` have transitions; and the start state has code 0.
spec fn block<Sym: GrammarSymbol>(
    b: EncodedCDFABuilder<S, Sym>,
    state: S,
    used: Set<S>,
    chars: Set<char>,
    ivs: Set<(int, int)>,
    defaulted: bool,
) -> bool {
    let c = encode_spec(b.codes(), state).1;
    &&& plain_builder(b)
    &&& b.start_code() == 0
    &&& encode_spec(b.codes(), S::Start).1 == 0
    &&& b.codes().len() > 0
    &&& tries_from(b.tries(), b.codes(), used.insert(state))
    &&& forall|p: Seq<char>| #[trigger] chains_of(b.tries(), c).contains_key(p) <==> p.len() == 1 && chars.contains(p[0])
    &&& forall|e: (int, int, Transit<usize>)| #[trigger] ranges_of(b.tries(), c).contains(e) ==> ivs.contains((e.0, e.1))
    &&& forall|iv: (int, int)| #[trigger] ivs.contains(iv) ==> exists|e: (int, int, Transit<usize>)|
        #[trigger] ranges_of(b.tries(), c).contains(e) && e.0 == iv.0 && e.1 == iv.1
    &&& (default_of(b.tries(), c) is Some <==> defaulted)
}

/// A step out of a state other than the start state keeps the transitions out of the start
/// state, whose code is 0.
proof fn lemma_start_kept<Sym: GrammarSymbol>(
    b0: EncodedCDFABuilder<S, Sym>,
    b1: EncodedCDFABuilder<S, Sym>,
    from: S,
    to: S,
)
    requires
        value_exact::<S>(),
        encode_spec(b0.codes(), S::Start).1 == 0,
        b0.codes().len() > 0,
        from != S::Start,
        b1.codes() == encode_spec(encode_spec(b0.codes(), from).0, to).0,
        crate::lex::ecdfa::tries_except(b0.tries(), b1.tries(), encode_spec(b0.codes(), from).1),
    ensures
        trie_of(b1.tries(), 0) == trie_of(b0.tries(), 0),
        encode_spec(b1.codes(), S::Start).1 == 0,
        b1.codes().len() > 0,
{
    let c0 = b0.codes();
    law_encode_decode(c0, S::Start);
    law_encode_decode(c0, from);
    let (c1, f) = encode_spec(c0, from);
    law_encode_decode(c1, to);
    assert(c0[0] == S::Start);
    if f == 0 {
        assert(c1[0] == from);
        assert(c1.take(c0.len() as int)[0] == c1[0]);
    }
    let c2 = b1.codes();
    assert(c2.take(c1.len() as int) == c1);
    assert(c1.take(c0.len() as int) == c0);
    assert(first_code(c0, S::Start) is Some);
    assert(c2.take(c0.len() as int) =~= c0) by {
        assert forall|i: int| 0 <= i < c0.len() implies c2.take(c0.len() as int)[i] == c0[i] by {
            assert(c2.take(c1.len() as int)[i] == c2[i]);
            assert(c1.take(c0.len() as int)[i] == c1[i]);
        }
    }
    lemma_first_code_prefix(c2, S::Start, c0.len() as int);
}

/// The next state's transitions start empty.
proof fn lemma_next_block<Sym: GrammarSymbol>(
    b: EncodedCDFABuilder<S, Sym>,
    x: S,
    used: Set<S>,
    chars: Set<char>,
    ivs: Set<(int, int)>,
    defaulted: bool,
    y: S,
)
    requires
        value_exact::<S>(),
        block(b, x, used, chars, ivs, defaulted),
        !used.insert(x).contains(y),
    ensures
        block(b, y, used.insert(x), Set::empty(), Set::empty(), false),
{
    lemma_unused_fresh(b.tries(), b.codes(), used.insert(x), y);
    assert(used.insert(x).insert(y) =~= used.insert(x).insert(y));
    assert forall|k: int| #[trigger] trie_of(b.tries(), k) is Some implies 0 <= k < b.codes().len()
        && used.insert(x).insert(y).contains(b.codes()[k]) by {
    }
}

/// Marking states accepting or tokenizing them keeps the transitions, and the code of a state
/// that has transitions.
proof fn lemma_block_kept<Sym: GrammarSymbol>(
    b0: EncodedCDFABuilder<S, Sym>,
    b1: EncodedCDFABuilder<S, Sym>,
    st: S,
    x: S,
    used: Set<S>,
    chars: Set<char>,
    ivs: Set<(int, int)>,
    defaulted: bool,
)
    requires
        value_exact::<S>(),
        block(b0, x, used, chars, ivs, defaulted),
        trie_of(b0.tries(), encode_spec(b0.codes(), x).1) is Some,
        b1.tries() == b0.tries(),
        b1.codes() == encode_spec(b0.codes(), st).0,
        b1.start_code() == b0.start_code(),
        plain_builder(b1),
    ensures
        block(b1, x, used, chars, ivs, defaulted),
        trie_of(b1.tries(), encode_spec(b1.codes(), x).1) is Some,
{
    let c0 = b0.codes();
    let c1 = b1.codes();
    law_encode_decode(c0, st);
    law_encode_decode(c0, S::Start);
    assert(c1.take(c0.len() as int) == c0);
    assert(first_code(c0, x) is Some);
    assert(first_code(c0, S::Start) is Some);
    lemma_first_code_prefix(c1, x, c0.len() as int);
    lemma_first_code_prefix(c1, S::Start, c0.len() as int);
    assert forall|k: int| #[trigger] trie_of(b1.tries(), k) is Some implies 0 <= k < c1.len()
        && used.insert(x).contains(c1[k]) by {
        assert(c1.take(c0.len() as int)[k] == c1[k]);
    }
}

/// Keeps the code of the start state through a step, and its transitions where the step is
/// out of another state.
proof fn lemma_step_start<Sym: GrammarSymbol>(
    b0: EncodedCDFABuilder<S, Sym>,
    b1: EncodedCDFABuilder<S, Sym>,
    from: S,
    to: S,
)
    requires
        value_exact::<S>(),
        encode_spec(b0.codes(), S::Start).1 == 0,
        b0.codes().len() > 0,
        b1.codes() == encode_spec(encode_spec(b0.codes(), from).0, to).0,
        crate::lex::ecdfa::tries_except(b0.tries(), b1.tries(), encode_spec(b0.codes(), from).1),
    ensures
        from != S::Start ==> trie_of(b1.tries(), 0) == trie_of(b0.tries(), 0),
        encode_spec(b1.codes(), S::Start).1 == 0,
        b1.codes().len() > 0,
{
    if from != S::Start {
        lemma_start_kept(b0, b1, from, to);
    } else {
        law_encode_decode(b0.codes(), S::Start);
        let c1 = encode_spec(b0.codes(), from).0;
        law_encode_decode(c1, to);
        assert(b1.codes().take(c1.len() as int) == c1);
        assert(c1 == b0.codes());
        assert(first_code(b0.codes(), S::Start) is Some);
        lemma_first_code_prefix(b1.codes(), S::Start, b0.codes().len() as int);
    }
}

/// Adds the plain transition out of `from` on `on`, a character not used out of `from` yet.
fn block_trans<Sym: GrammarSymbol>(
    b: &mut EncodedCDFABuilder<S, Sym>,
    from: &S,
    to: S,
    on: char,
    Ghost(used): Ghost<Set<S>>,
    Ghost(chars): Ghost<Set<char>>,
    Ghost(ivs): Ghost<Set<(int, int)>>,
    Ghost(defaulted): Ghost<bool>,
) -> (r: Result<(), CDFAError>)
    requires
        exact::<S>(),
        value_exact::<S>(),
        block(*old(b), *from, used, chars, ivs, defaulted),
        !chars.contains(on),
    ensures
        r is Ok,
        final(b).accepting_states() == old(b).accepting_states(),
        block(*final(b), *from, used, chars.insert(on), ivs, defaulted),
        *from != S::Start ==> trie_of(final(b).tries(), 0) == trie_of(old(b).tries(), 0),
        trie_of(final(b).tries(), encode_spec(final(b).codes(), *from).1) is Some,
        forall|n: nat| #[trigger] room_within(old(b).tries(), n) ==> room_within(final(b).tries(), n),
{
    let ghost b0 = *b;
    let r = plain_trans(b, from, to, on);
    proof {
        lemma_from_step(b0.tries(), b0.codes(), b.tries(), b.codes(), *from, to, used.insert(*from));
        assert(used.insert(*from).insert(*from) =~= used.insert(*from));
        lemma_step_start(b0, *b, *from, to);
        let c = encode_spec(b.codes(), *from).1;
        assert forall|p: Seq<char>| #[trigger] chains_of(b.tries(), c).contains_key(p) <==> p.len() == 1
            && chars.insert(on).contains(p[0]) by {
            if p.len() == 1 && p[0] == on {
                assert(p =~= seq![on]);
            }
        }
    }
    r
}

/// Adds the plain range out of `from` from `start` to `end`, disjoint from the ranges out of
/// `from` so far.
fn block_range<Sym: GrammarSymbol>(
    b: &mut EncodedCDFABuilder<S, Sym>,
    from: &S,
    to: S,
    start: char,
    end: char,
    Ghost(n): Ghost<nat>,
    Ghost(used): Ghost<Set<S>>,
    Ghost(chars): Ghost<Set<char>>,
    Ghost(ivs): Ghost<Set<(int, int)>>,
    Ghost(defaulted): Ghost<bool>,
) -> (r: Result<(), CDFAError>)
    requires
        exact::<S>(),
        value_exact::<S>(),
        block(*old(b), *from, used, chars, ivs, defaulted),
        room_within(old(b).tries(), n + 1),
        forall|iv: (int, int)| #[trigger] ivs.contains(iv) ==> !crate::data::interval::overlapping(
            iv.0,
            iv.1,
            start as u32 as int,
            end as u32 as int,
        ),
    ensures
        r is Ok,
        final(b).accepting_states() == old(b).accepting_states(),
        block(*final(b), *from, used, chars, ivs.insert((start as u32 as int, end as u32 as int)), defaulted),
        *from != S::Start ==> trie_of(final(b).tries(), 0) == trie_of(old(b).tries(), 0),
        trie_of(final(b).tries(), encode_spec(final(b).codes(), *from).1) is Some,
        room_within(final(b).tries(), n),
{
    let ghost b0 = *b;
    let r = plain_range(b, from, to, start, end, Ghost(n));
    proof {
        lemma_from_step(b0.tries(), b0.codes(), b.tries(), b.codes(), *from, to, used.insert(*from));
        assert(used.insert(*from).insert(*from) =~= used.insert(*from));
        lemma_step_start(b0, *b, *from, to);
        let c = encode_spec(b.codes(), *from).1;
        let c0 = encode_spec(b0.codes(), *from).1;
        let lo = start as u32 as int;
        let hi = end as u32 as int;
        let (c1, _) = encode_spec(b0.codes(), *from);
        let t = encode_transit_spec(c1, Transit { dest: to, consumer: crate::lex::ConsumerStrategy::All, acceptor_destination: None }).1;
        assert(ranges_of(b.tries(), c).contains((lo, hi, t)));
        assert forall|iv: (int, int)| #[trigger] ivs.insert((lo, hi)).contains(iv) implies exists|e: (int, int, Transit<usize>)|
            #[trigger] ranges_of(b.tries(), c).contains(e) && e.0 == iv.0 && e.1 == iv.1 by {
            if iv != (lo, hi) {
                let e = choose|e: (int, int, Transit<usize>)| #[trigger] ranges_of(b0.tries(), c0).contains(e) && e.0 == iv.0 && e.1 == iv.1;
                assert(ranges_of(b.tries(), c).contains(e));
            } else {
                assert(ranges_of(b.tries(), c).contains((lo, hi, t)));
            }
        }
    }
    r
}

/// Adds the plain default transition out of `from`, which has none yet.
fn block_default<Sym: GrammarSymbol>(
    b: &mut EncodedCDFABuilder<S, Sym>,
    from: &S,
    to: S,
    Ghost(used): Ghost<Set<S>>,
    Ghost(chars): Ghost<Set<char>>,
    Ghost(ivs): Ghost<Set<(int, int)>>,
) -> (r: Result<(), CDFAError>)
    requires
        exact::<S>(),
        value_exact::<S>(),
        block(*old(b), *from, used, chars, ivs, false),
    ensures
        r is Ok,
        final(b).accepting_states() == old(b).accepting_states(),
        block(*final(b), *from, used, chars, ivs, true),
        *from != S::Start ==> trie_of(final(b).tries(), 0) == trie_of(old(b).tries(), 0),
        trie_of(final(b).tries(), encode_spec(final(b).codes(), *from).1) is Some,
        forall|n: nat| #[trigger] room_within(old(b).tries(), n) ==> room_within(final(b).tries(), n),
{
    let ghost b0 = *b;
    let r = plain_default(b, from, to);
    proof {
        lemma_from_step(b0.tries(), b0.codes(), b.tries(), b.codes(), *from, to, used.insert(*from));
        assert(used.insert(*from).insert(*from) =~= used.insert(*from));
        lemma_step_start(b0, *b, *from, to);
    }
    r
}

/// Pattern Symbol: the symbols of the grammar of patterns.
#[derive(Eq, Hash, Clone, Copy, Debug)]
pub enum PatternSymbol {
    Pattern,
    Segments,
    Segment,
    Filler,
    Substitution,
    Capture,
    CaptureDescriptor,
    CaptureIndex,
    Declarations,
    Declaration,
    Value,
    TFiller,
    TAlpha,
    TNumber,
    TLeftBracket,
    TRightBracket,
    TLeftBrace,
    TRightBrace,
    TSemi,
    TEquals,
}

impl PatternSymbol {
    /// The name of the variant.
    pub open spec fn label(self) -> Seq<char> {
        match self {
            PatternSymbol::Pattern => "Pattern"@,
            PatternSymbol::Segments => "Segments"@,
            PatternSymbol::Segment => "Segment"@,
            PatternSymbol::Filler => "Filler"@,
            PatternSymbol::Substitution => "Substitution"@,
            PatternSymbol::Capture => "Capture"@,
            PatternSymbol::CaptureDescriptor => "CaptureDescriptor"@,
            PatternSymbol::CaptureIndex => "CaptureIndex"@,
            PatternSymbol::Declarations => "Declarations"@,
            PatternSymbol::Declaration => "Declaration"@,
            PatternSymbol::Value => "Value"@,
            PatternSymbol::TFiller => "TFiller"@,
            PatternSymbol::TAlpha => "TAlpha"@,
            PatternSymbol::TNumber => "TNumber"@,
            PatternSymbol::TLeftBracket => "TLeftBracket"@,
            PatternSymbol::TRightBracket => "TRightBracket"@,
            PatternSymbol::TLeftBrace => "TLeftBrace"@,
            PatternSymbol::TRightBrace => "TRightBrace"@,
            PatternSymbol::TSemi => "TSemi"@,
            PatternSymbol::TEquals => "TEquals"@,
        }
    }

    /// The position of the symbol in the declaration of `PatternSymbol`.
    pub closed spec fn index(self) -> int {
        match self {
            PatternSymbol::Pattern => 0,
            PatternSymbol::Segments => 1,
            PatternSymbol::Segment => 2,
            PatternSymbol::Filler => 3,
            PatternSymbol::Substitution => 4,
            PatternSymbol::Capture => 5,
            PatternSymbol::CaptureDescriptor => 6,
            PatternSymbol::CaptureIndex => 7,
            PatternSymbol::Declarations => 8,
            PatternSymbol::Declaration => 9,
            PatternSymbol::Value => 10,
            PatternSymbol::TFiller => 11,
            PatternSymbol::TAlpha => 12,
            PatternSymbol::TNumber => 13,
            PatternSymbol::TLeftBracket => 14,
            PatternSymbol::TRightBracket => 15,
            PatternSymbol::TLeftBrace => 16,
            PatternSymbol::TRightBrace => 17,
            PatternSymbol::TSemi => 18,
            PatternSymbol::TEquals => 19,
        }
    }

    fn position(&self) -> (i: u8)
        ensures
            i == self.index(),
    {
        match self {
            PatternSymbol::Pattern => 0,
            PatternSymbol::Segments => 1,
            PatternSymbol::Segment => 2,
            PatternSymbol::Filler => 3,
            PatternSymbol::Substitution => 4,
            PatternSymbol::Capture => 5,
            PatternSymbol::CaptureDescriptor => 6,
            PatternSymbol::CaptureIndex => 7,
            PatternSymbol::Declarations => 8,
            PatternSymbol::Declaration => 9,
            PatternSymbol::Value => 10,
            PatternSymbol::TFiller => 11,
            PatternSymbol::TAlpha => 12,
            PatternSymbol::TNumber => 13,
            PatternSymbol::TLeftBracket => 14,
            PatternSymbol::TRightBracket => 15,
            PatternSymbol::TLeftBrace => 16,
            PatternSymbol::TRightBrace => 17,
            PatternSymbol::TSemi => 18,
            PatternSymbol::TEquals => 19,
        }
    }
}

impl PartialEq for PatternSymbol {
    fn eq(&self, other: &Self) -> (r: bool) {
        self.position() == other.position()
    }
}

impl PartialEqSpecImpl for PatternSymbol {
    open spec fn obeys_eq_spec() -> bool {
        true
    }

    open spec fn eq_spec(&self, other: &Self) -> bool {
        self.index() == other.index()
    }
}

impl Default for PatternSymbol {
    fn default() -> (s: Self)
        ensures
            s == PatternSymbol::Pattern,
    {
        PatternSymbol::Pattern
    }
}

impl Data for PatternSymbol {
    open spec fn rendered(&self) -> Seq<char> {
        self.label()
    }

    open spec fn renders_exactly() -> bool {
        true
    }

    fn to_string(&self) -> (r: String)
        ensures
            r@ == self.label(),
    {
        match self {
            PatternSymbol::Pattern => String::from_str("Pattern"),
            PatternSymbol::Segments => String::from_str("Segments"),
            PatternSymbol::Segment => String::from_str("Segment"),
            PatternSymbol::Filler => String::from_str("Filler"),
            PatternSymbol::Substitution => String::from_str("Substitution"),
            PatternSymbol::Capture => String::from_str("Capture"),
            PatternSymbol::CaptureDescriptor => String::from_str("CaptureDescriptor"),
            PatternSymbol::CaptureIndex => String::from_str("CaptureIndex"),
            PatternSymbol::Declarations => String::from_str("Declarations"),
            PatternSymbol::Declaration => String::from_str("Declaration"),
            PatternSymbol::Value => String::from_str("Value"),
            PatternSymbol::TFiller => String::from_str("TFiller"),
            PatternSymbol::TAlpha => String::from_str("TAlpha"),
            PatternSymbol::TNumber => String::from_str("TNumber"),
            PatternSymbol::TLeftBracket => String::from_str("TLeftBracket"),
            PatternSymbol::TRightBracket => String::from_str("TRightBracket"),
            PatternSymbol::TLeftBrace => String::from_str("TLeftBrace"),
            PatternSymbol::TRightBrace => String::from_str("TRightBrace"),
            PatternSymbol::TSemi => String::from_str("TSemi"),
            PatternSymbol::TEquals => String::from_str("TEquals"),
        }
    }
}

impl GrammarSymbol for PatternSymbol {}

/// Equality and cloning of pattern symbols are exact.
proof fn lemma_symbol_exact()
    ensures
        value_exact::<PatternSymbol>(),
{
    assert forall|a: PatternSymbol, b: PatternSymbol| #[trigger]
        vstd::std_specs::cmp::PartialEqSpec::eq_spec(&a, &b) <==> a == b by {
        if a.index() == b.index() {
            match a {
                PatternSymbol::Pattern => {},
                _ => {},
            }
        }
    }
    assert forall|a: PatternSymbol, b: PatternSymbol| #[trigger] cloned(a, b) implies a == b by {
        if vstd::pervasive::strictly_cloned(a, b) {
            assert(call_ensures(PatternSymbol::clone, (&a,), b));
        }
    }
}

/// The characters on which the start state of the pattern lexer has transitions of its own.
spec fn start_chars() -> Set<char> {
    Set::empty().insert('{').insert('}').insert('[').insert(']').insert(';').insert('=').insert('\\').insert('0')
}

/// The character ranges on which the start state of the pattern lexer has transitions.
spec fn start_ranges() -> Set<(int, int)> {
    Set::empty().insert(('1' as u32 as int, '9' as u32 as int)).insert(('a' as u32 as int, 'z' as u32 as int)).insert(
        ('A' as u32 as int, 'Z' as u32 as int),
    )
}

/// The transitions out of the start state `s` of the pattern lexer: one for each character of
/// `start_chars`, one for each range of `start_ranges`, and a default transition.
spec fn start_transitions(tries: Seq<Option<crate::lex::ecdfa::TransitionTrie>>, s: int) -> bool {
    &&& forall|p: Seq<char>| #[trigger] chains_of(tries, s).contains_key(p) <==> p.len() == 1 && start_chars().contains(p[0])
    &&& forall|e: (int, int, Transit<usize>)| #[trigger] ranges_of(tries, s).contains(e) ==> start_ranges().contains((e.0, e.1))
    &&& forall|iv: (int, int)| #[trigger] start_ranges().contains(iv) ==> exists|e: (int, int, Transit<usize>)|
        #[trigger] ranges_of(tries, s).contains(e) && e.0 == iv.0 && e.1 == iv.1
    &&& default_of(tries, s) is Some
}

/// Returns the ECDFA that lexes formatting patterns: its definition always builds, since no
/// state is given the same character, overlapping ranges or two defaults. Every transition of the ECDFA consumes input, and none of its accepting states has an
/// acceptor destination, so lexing with it always terminates.
fn build_pattern_ecdfa() -> (res: Result<EncodedCDFA<PatternSymbol>, CDFAError>)
    ensures
        res is Ok,
        res matches Ok(cdfa) ==> start_transitions(cdfa.tries(), cdfa.spec_start() as int),
        res matches Ok(cdfa) ==> plain_tries(cdfa.tries()) && no_destinations(
            cdfa.accepting_states(),
        ),
{
    proof {
        lemma_state_exact();
    }
    let mut builder: EncodedCDFABuilder<S, PatternSymbol> = EncodedCDFABuilder::new();
    proof {
        assert(room_within(builder.tries(), 6));
    }
    plain_start(&mut builder, &S::Start);
    let ghost none: Set<S> = Set::empty();
    let ghost no_chars: Set<char> = Set::empty();
    let ghost no_ranges: Set<(int, int)> = Set::empty();
    proof {
        law_encode_decode(Seq::<S>::empty(), S::Start);
        assert(builder.codes() =~= seq![S::Start]);
        assert forall|k: int| #[trigger] trie_of(builder.tries(), k) is Some implies 0 <= k < builder.codes().len()
            && none.insert(S::Start).contains(builder.codes()[k]) by {
        }
    }

    let ghost c0 = no_chars;
    block_trans(&mut builder, &S::Start, S::LeftBrace, '{', Ghost(none), Ghost(c0), Ghost(no_ranges), Ghost(false))?;
    let ghost c1 = c0.insert('{');
    block_trans(&mut builder, &S::Start, S::RightBrace, '}', Ghost(none), Ghost(c1), Ghost(no_ranges), Ghost(false))?;
    let ghost c2 = c1.insert('}');
    block_trans(&mut builder, &S::Start, S::LeftBracket, '[', Ghost(none), Ghost(c2), Ghost(no_ranges), Ghost(false))?;
    let ghost c3 = c2.insert('[');
    block_trans(&mut builder, &S::Start, S::RightBracket, ']', Ghost(none), Ghost(c3), Ghost(no_ranges), Ghost(false))?;
    let ghost c4 = c3.insert(']');
    block_trans(&mut builder, &S::Start, S::Semi, ';', Ghost(none), Ghost(c4), Ghost(no_ranges), Ghost(false))?;
    let ghost c5 = c4.insert(';');
    block_trans(&mut builder, &S::Start, S::Equals, '=', Ghost(none), Ghost(c5), Ghost(no_ranges), Ghost(false))?;
    let ghost c6 = c5.insert('=');
    block_trans(&mut builder, &S::Start, S::Escape, '\\', Ghost(none), Ghost(c6), Ghost(no_ranges), Ghost(false))?;
    let ghost c7 = c6.insert('\\');
    block_trans(&mut builder, &S::Start, S::Zero, '0', Ghost(none), Ghost(c7), Ghost(no_ranges), Ghost(false))?;
    let ghost c8 = c7.insert('0');
    block_range(&mut builder, &S::Start, S::Number, '1', '9', Ghost(5), Ghost(none), Ghost(c8), Ghost(no_ranges), Ghost(false))?;
    let ghost r1 = no_ranges.insert(('1' as u32 as int, '9' as u32 as int));
    block_range(&mut builder, &S::Start, S::Alpha, 'a', 'z', Ghost(4), Ghost(none), Ghost(c8), Ghost(r1), Ghost(false))?;
    let ghost r2 = r1.insert(('a' as u32 as int, 'z' as u32 as int));
    block_range(&mut builder, &S::Start, S::Alpha, 'A', 'Z', Ghost(3), Ghost(none), Ghost(c8), Ghost(r2), Ghost(false))?;
    let ghost r3 = r2.insert(('A' as u32 as int, 'Z' as u32 as int));
    block_default(&mut builder, &S::Start, S::Filler, Ghost(none), Ghost(c8), Ghost(r3))?;
    let ghost t0 = trie_of(builder.tries(), 0);
    let ghost tries0 = builder.tries();
    proof {
        assert(c8 == start_chars());
        assert(r3 == start_ranges());
        assert(start_transitions(builder.tries(), 0));
    }

    proof {
        lemma_next_block(builder, S::Start, none, c8, r3, true, S::Filler);
    }
    let ghost u1 = none.insert(S::Start);
    let ghost f0 = no_chars;
    block_trans(&mut builder, &S::Filler, S::Escape, '\\', Ghost(u1), Ghost(f0), Ghost(no_ranges), Ghost(false))?;
    let ghost f1 = f0.insert('\\');
    block_trans(&mut builder, &S::Filler, S::Fail, '{', Ghost(u1), Ghost(f1), Ghost(no_ranges), Ghost(false))?;
    let ghost f2 = f1.insert('{');
    block_trans(&mut builder, &S::Filler, S::Fail, '}', Ghost(u1), Ghost(f2), Ghost(no_ranges), Ghost(false))?;
    let ghost f3 = f2.insert('}');
    block_trans(&mut builder, &S::Filler, S::Fail, '[', Ghost(u1), Ghost(f3), Ghost(no_ranges), Ghost(false))?;
    let ghost f4 = f3.insert('[');
    block_trans(&mut builder, &S::Filler, S::Fail, ';', Ghost(u1), Ghost(f4), Ghost(no_ranges), Ghost(false))?;
    let ghost f5 = f4.insert(';');
    block_trans(&mut builder, &S::Filler, S::Fail, '=', Ghost(u1), Ghost(f5), Ghost(no_ranges), Ghost(false))?;
    let ghost f6 = f5.insert('=');
    block_default(&mut builder, &S::Filler, S::Filler, Ghost(u1), Ghost(f6), Ghost(no_ranges))?;
    let ghost b0 = builder;
    plain_accept(&mut builder, &S::Filler);
    proof {
        lemma_block_kept(b0, builder, S::Filler, S::Filler, u1, f6, no_ranges, true);
    }
    let ghost b1 = builder;
    plain_token(&mut builder, &S::Filler, &PatternSymbol::TFiller);
    proof {
        lemma_block_kept(b1, builder, S::Filler, S::Filler, u1, f6, no_ranges, true);
        lemma_next_block(builder, S::Filler, u1, f6, no_ranges, true, S::Escape);
    }
    let ghost u2 = u1.insert(S::Filler);

    block_default(&mut builder, &S::Escape, S::Filler, Ghost(u2), Ghost(no_chars), Ghost(no_ranges))?;
    proof {
        lemma_next_block(builder, S::Escape, u2, no_chars, no_ranges, true, S::Number);
    }
    let ghost u3 = u2.insert(S::Escape);

    block_range(&mut builder, &S::Number, S::Number, '0', '9', Ghost(2), Ghost(u3), Ghost(no_chars), Ghost(no_ranges), Ghost(false))?;
    let ghost n1 = no_ranges.insert(('0' as u32 as int, '9' as u32 as int));
    let ghost b2 = builder;
    plain_accept(&mut builder, &S::Number);
    proof {
        lemma_block_kept(b2, builder, S::Number, S::Number, u3, no_chars, n1, false);
    }
    let ghost b3 = builder;
    plain_token(&mut builder, &S::Number, &PatternSymbol::TNumber);
    proof {
        lemma_block_kept(b3, builder, S::Number, S::Number, u3, no_chars, n1, false);
        lemma_next_block(builder, S::Number, u3, no_chars, n1, false, S::Alpha);
    }
    let ghost u4 = u3.insert(S::Number);

    block_range(&mut builder, &S::Alpha, S::Alpha, 'a', 'z', Ghost(1), Ghost(u4), Ghost(no_chars), Ghost(no_ranges), Ghost(false))?;
    let ghost a1 = no_ranges.insert(('a' as u32 as int, 'z' as u32 as int));
    block_range(&mut builder, &S::Alpha, S::Alpha, 'A', 'Z', Ghost(0), Ghost(u4), Ghost(no_chars), Ghost(a1), Ghost(false))?;
    plain_accept(&mut builder, &S::Alpha);
    plain_token(&mut builder, &S::Alpha, &PatternSymbol::TAlpha);

    plain_accept(&mut builder, &S::Semi);
    plain_accept(&mut builder, &S::Equals);
    plain_accept(&mut builder, &S::LeftBrace);
    plain_accept(&mut builder, &S::RightBrace);
    plain_accept(&mut builder, &S::LeftBracket);
    plain_accept(&mut builder, &S::RightBracket);
    plain_accept(&mut builder, &S::Zero);

    plain_token(&mut builder, &S::Semi, &PatternSymbol::TSemi);
    plain_token(&mut builder, &S::Equals, &PatternSymbol::TEquals);
    plain_token(&mut builder, &S::LeftBrace, &PatternSymbol::TLeftBrace);
    plain_token(&mut builder, &S::RightBrace, &PatternSymbol::TRightBrace);
    plain_token(&mut builder, &S::LeftBracket, &PatternSymbol::TLeftBracket);
    plain_token(&mut builder, &S::RightBracket, &PatternSymbol::TRightBracket);
    plain_token(&mut builder, &S::Zero, &PatternSymbol::TNumber);

    proof {
        assert(trie_of(builder.tries(), 0) == t0);
        assert(chains_of(builder.tries(), 0) == chains_of(tries0, 0));
        assert(ranges_of(builder.tries(), 0) == ranges_of(tries0, 0));
        assert(default_of(builder.tries(), 0) == default_of(tries0, 0));
        assert(start_transitions(builder.tries(), 0));
    }
    builder.build()
}

/// The rules of the grammar built by `build_pattern_grammar`, in order.
pub open spec fn pattern_grammar_rules() -> Seq<(PatternSymbol, Seq<PatternSymbol>)> {
    seq![
        (PatternSymbol::Pattern, seq![PatternSymbol::Segments]),
        (PatternSymbol::Segments, seq![PatternSymbol::Segment, PatternSymbol::Segments]),
        (PatternSymbol::Segments, seq![]),
        (PatternSymbol::Segment, seq![PatternSymbol::Filler]),
        (PatternSymbol::Segment, seq![PatternSymbol::Substitution]),
        (PatternSymbol::Segment, seq![PatternSymbol::Capture]),
        (PatternSymbol::Filler, seq![PatternSymbol::TFiller]),
        (PatternSymbol::Filler, seq![PatternSymbol::TAlpha]),
        (PatternSymbol::Filler, seq![PatternSymbol::TNumber]),
        (PatternSymbol::Substitution, seq![PatternSymbol::TLeftBracket, PatternSymbol::TAlpha, PatternSymbol::TRightBracket]),
        (PatternSymbol::Capture, seq![PatternSymbol::TLeftBrace, PatternSymbol::CaptureDescriptor, PatternSymbol::TRightBrace]),
        (PatternSymbol::CaptureDescriptor, seq![PatternSymbol::CaptureIndex]),
        (PatternSymbol::CaptureDescriptor, seq![PatternSymbol::CaptureIndex, PatternSymbol::TSemi, PatternSymbol::Declarations]),
        (PatternSymbol::CaptureIndex, seq![PatternSymbol::TNumber]),
        (PatternSymbol::CaptureIndex, seq![]),
        (PatternSymbol::Declarations, seq![PatternSymbol::Declarations, PatternSymbol::TSemi, PatternSymbol::Declaration]),
        (PatternSymbol::Declarations, seq![PatternSymbol::Declaration]),
        (PatternSymbol::Declaration, seq![PatternSymbol::TAlpha, PatternSymbol::TEquals, PatternSymbol::Value]),
        (PatternSymbol::Value, seq![PatternSymbol::Pattern]),
        (PatternSymbol::Value, seq![]),
    ]
}

/// Returns the grammar to parse formatting patterns, whose start symbol is `Pattern` and which
/// has no ignorable or injectable symbols.
fn build_pattern_grammar() -> (res: Result<SimpleGrammar<PatternSymbol>, grammar::BuildError>)
    ensures
        res matches Ok(g) && g.start_symbol() == PatternSymbol::Pattern && !weighs_parses(&g),
        res matches Ok(g) ==> forall|k: PatternSymbol| #[trigger] rhs_views(productions_under(g.entries(), k))
            == rules_under(pattern_grammar_rules(), k),
{
    proof {
        lemma_symbol_exact();
    }
    let mut builder: SimpleGrammarBuilder<PatternSymbol> = SimpleGrammarBuilder::new();
    builder.try_mark_start(&PatternSymbol::Pattern);

    let rules: Vec<(PatternSymbol, Vec<PatternSymbol>)> = vec![
        (PatternSymbol::Pattern, vec![PatternSymbol::Segments]),
        (PatternSymbol::Segments, vec![PatternSymbol::Segment, PatternSymbol::Segments]),
        (PatternSymbol::Segments, vec![]),
        (PatternSymbol::Segment, vec![PatternSymbol::Filler]),
        (PatternSymbol::Segment, vec![PatternSymbol::Substitution]),
        (PatternSymbol::Segment, vec![PatternSymbol::Capture]),
        (PatternSymbol::Filler, vec![PatternSymbol::TFiller]),
        (PatternSymbol::Filler, vec![PatternSymbol::TAlpha]),
        (PatternSymbol::Filler, vec![PatternSymbol::TNumber]),
        (PatternSymbol::Substitution, vec![PatternSymbol::TLeftBracket, PatternSymbol::TAlpha, PatternSymbol::TRightBracket]),
        (PatternSymbol::Capture, vec![PatternSymbol::TLeftBrace, PatternSymbol::CaptureDescriptor, PatternSymbol::TRightBrace]),
        (PatternSymbol::CaptureDescriptor, vec![PatternSymbol::CaptureIndex]),
        (PatternSymbol::CaptureDescriptor, vec![PatternSymbol::CaptureIndex, PatternSymbol::TSemi, PatternSymbol::Declarations]),
        (PatternSymbol::CaptureIndex, vec![PatternSymbol::TNumber]),
        (PatternSymbol::CaptureIndex, vec![]),
        (PatternSymbol::Declarations, vec![PatternSymbol::Declarations, PatternSymbol::TSemi, PatternSymbol::Declaration]),
        (PatternSymbol::Declarations, vec![PatternSymbol::Declaration]),
        (PatternSymbol::Declaration, vec![PatternSymbol::TAlpha, PatternSymbol::TEquals, PatternSymbol::Value]),
        (PatternSymbol::Value, vec![PatternSymbol::Pattern]),
        (PatternSymbol::Value, vec![]),
    ];
    proof {
        assert(rules@[0].1@ =~= seq![PatternSymbol::Segments]);
        assert(rules@[1].1@ =~= seq![PatternSymbol::Segment, PatternSymbol::Segments]);
        assert(rules@[2].1@ =~= seq![]);
        assert(rules@[3].1@ =~= seq![PatternSymbol::Filler]);
        assert(rules@[4].1@ =~= seq![PatternSymbol::Substitution]);
        assert(rules@[5].1@ =~= seq![PatternSymbol::Capture]);
        assert(rules@[6].1@ =~= seq![PatternSymbol::TFiller]);
        assert(rules@[7].1@ =~= seq![PatternSymbol::TAlpha]);
        assert(rules@[8].1@ =~= seq![PatternSymbol::TNumber]);
        assert(rules@[9].1@ =~= seq![PatternSymbol::TLeftBracket, PatternSymbol::TAlpha, PatternSymbol::TRightBracket]);
        assert(rules@[10].1@ =~= seq![PatternSymbol::TLeftBrace, PatternSymbol::CaptureDescriptor, PatternSymbol::TRightBrace]);
        assert(rules@[11].1@ =~= seq![PatternSymbol::CaptureIndex]);
        assert(rules@[12].1@ =~= seq![PatternSymbol::CaptureIndex, PatternSymbol::TSemi, PatternSymbol::Declarations]);
        assert(rules@[13].1@ =~= seq![PatternSymbol::TNumber]);
        assert(rules@[14].1@ =~= seq![]);
        assert(rules@[15].1@ =~= seq![PatternSymbol::Declarations, PatternSymbol::TSemi, PatternSymbol::Declaration]);
        assert(rules@[16].1@ =~= seq![PatternSymbol::Declaration]);
        assert(rules@[17].1@ =~= seq![PatternSymbol::TAlpha, PatternSymbol::TEquals, PatternSymbol::Value]);
        assert(rules@[18].1@ =~= seq![PatternSymbol::Pattern]);
        assert(rules@[19].1@ =~= seq![]);
        assert(rule_views(rules@) =~= pattern_grammar_rules());
    }
    let ghost empty = builder.entries();
    add_rules(&mut builder, rules);

    let ghost unmarked = builder.injectable_entries();
    let res = builder.build();
    proof {
        assert forall|k: PatternSymbol| #[trigger] rhs_views(productions_under(builder.entries(), k)) == rules_under(
            pattern_grammar_rules(),
            k,
        ) by {
            assert(productions_under(empty, k) =~= Seq::<Production<PatternSymbol>>::empty());
            assert(rhs_views(Seq::<Production<PatternSymbol>>::empty()) + rules_under(pattern_grammar_rules(), k) =~= rules_under(pattern_grammar_rules(), k));
        }
        if let Ok(ref g) = res {
            assert(g.injectables().dom() =~= Set::<PatternSymbol>::empty()) by {
                assert(unmarked.len() == 0);
            }
            assert(g.injectables() =~= Map::<PatternSymbol, InjectionAffinity>::empty());
        }
    }
    res
}

/// Pattern: a formatter specification, as the sequence of its segments.
pub struct Pattern {
    pub segments: Vec<Segment>,
}

/// Segment: a single section of a pattern: literal `Filler` text, inserted as-is; the
/// `Substitution` of the run-time value of a variable; or the `Capture` of the formatting of a
/// child in the parse tree.
pub enum Segment {
    Filler(String),
    Substitution(String),
    Capture(Capture),
}

/// Capture: inserts the formatting of the child at `child_index` of the production's right-hand
/// side, with the variable `declarations` that apply while that child is formatted.
pub struct Capture {
    pub child_index: usize,
    pub declarations: Vec<Declaration>,
}

/// Declaration: a variable declaration in a capture: the variable `key`, and the pattern that
/// gives its value (`None` clears the variable).
pub struct Declaration {
    pub key: String,
    pub value: Option<Pattern>,
}

/// The number of nodes of a pattern: the pattern itself and each of its segments, declarations
/// and their patterns.
pub open spec fn pattern_size(p: Pattern) -> nat
    decreases p,
{
    1 + segments_size(p.segments@)
}

/// The number of nodes of a sequence of segments.
pub open spec fn segments_size(s: Seq<Segment>) -> nat
    decreases s,
{
    if s.len() == 0 {
        0
    } else {
        proof {
            assert(decreases_to!(s => s[s.len() - 1]));
        }
        segments_size(s.drop_last()) + segment_size(s[s.len() - 1])
    }
}

/// The number of nodes of a segment.
pub open spec fn segment_size(seg: Segment) -> nat
    decreases seg,
{
    match seg {
        Segment::Capture(c) => 1 + capture_size(c),
        _ => 1,
    }
}

/// The number of nodes of a capture.
pub open spec fn capture_size(c: Capture) -> nat
    decreases c,
{
    1 + declarations_size(c.declarations@)
}

/// The number of nodes of a sequence of declarations.
pub open spec fn declarations_size(ds: Seq<Declaration>) -> nat
    decreases ds,
{
    if ds.len() == 0 {
        0
    } else {
        proof {
            assert(decreases_to!(ds => ds[ds.len() - 1]));
        }
        declarations_size(ds.drop_last()) + declaration_size(ds[ds.len() - 1])
    }
}

/// The number of nodes of a declaration.
pub open spec fn declaration_size(d: Declaration) -> nat
    decreases d,
{
    match d.value {
        Some(p) => 1 + pattern_size(p),
        None => 1,
    }
}

/// The view of a segment: its text, or the captured child's index and the views of its
/// declarations.
pub enum SegmentView {
    Filler(Seq<char>),
    Substitution(Seq<char>),
    Capture(usize, Seq<DeclarationView>),
}

/// The view of a declaration: its variable, and the view of the pattern of its value.
pub struct DeclarationView {
    pub key: Seq<char>,
    pub value: Option<Seq<SegmentView>>,
}

/// The view of a pattern: the views of its segments.
pub open spec fn pattern_view(p: Pattern) -> Seq<SegmentView>
    decreases p,
{
    segments_view(p.segments@)
}

/// The views of a sequence of segments.
pub open spec fn segments_view(s: Seq<Segment>) -> Seq<SegmentView>
    decreases s,
{
    if s.len() == 0 {
        Seq::empty()
    } else {
        proof {
            assert(decreases_to!(s => s[s.len() - 1]));
        }
        segments_view(s.drop_last()).push(segment_view(s[s.len() - 1]))
    }
}

/// The view of a segment.
pub open spec fn segment_view(seg: Segment) -> SegmentView
    decreases seg,
{
    match seg {
        Segment::Filler(t) => SegmentView::Filler(t@),
        Segment::Substitution(t) => SegmentView::Substitution(t@),
        Segment::Capture(c) => SegmentView::Capture(c.child_index, declarations_view(c.declarations@)),
    }
}

/// The views of a sequence of declarations.
pub open spec fn declarations_view(ds: Seq<Declaration>) -> Seq<DeclarationView>
    decreases ds,
{
    if ds.len() == 0 {
        Seq::empty()
    } else {
        proof {
            assert(decreases_to!(ds => ds[ds.len() - 1]));
        }
        declarations_view(ds.drop_last()).push(declaration_view(ds[ds.len() - 1]))
    }
}

/// The view of a declaration.
pub open spec fn declaration_view(d: Declaration) -> DeclarationView
    decreases d,
{
    DeclarationView {
        key: d.key@,
        value: match d.value {
            Some(p) => Some(pattern_view(p)),
            None => None,
        },
    }
}

/// The views of segments with one more segment are the views before it and its view.
pub proof fn lemma_segments_view_push(s: Seq<Segment>, seg: Segment)
    ensures
        segments_view(s.push(seg)) == segments_view(s).push(segment_view(seg)),
{
    assert(s.push(seg).drop_last() =~= s);
}

/// The views of declarations with one more declaration are the views before it and its view.
pub proof fn lemma_declarations_view_push(ds: Seq<Declaration>, d: Declaration)
    ensures
        declarations_view(ds.push(d)) == declarations_view(ds).push(declaration_view(d)),
{
    assert(ds.push(d).drop_last() =~= ds);
}

/// Sequences of segments with the same length and the same view at each position have the
/// same views.
pub proof fn lemma_segments_view_eq(a: Seq<Segment>, b: Seq<Segment>)
    requires
        a.len() == b.len(),
        forall|i: int| 0 <= i < a.len() ==> segment_view(#[trigger] a[i]) == segment_view(b[i]),
    ensures
        segments_view(a) == segments_view(b),
    decreases a.len(),
{
    if a.len() > 0 {
        lemma_segments_view_eq(a.drop_last(), b.drop_last());
    }
}

/// Sequences of declarations with the same length and the same view at each position have the
/// same views.
pub proof fn lemma_declarations_view_eq(a: Seq<Declaration>, b: Seq<Declaration>)
    requires
        a.len() == b.len(),
        forall|i: int| 0 <= i < a.len() ==> declaration_view(#[trigger] a[i]) == declaration_view(b[i]),
    ensures
        declarations_view(a) == declarations_view(b),
    decreases a.len(),
{
    if a.len() > 0 {
        lemma_declarations_view_eq(a.drop_last(), b.drop_last());
    }
}

/// A segment of a pattern is smaller than the pattern.
pub proof fn lemma_segment_smaller(p: Pattern, i: int)
    requires
        0 <= i < p.segments@.len(),
    ensures
        segment_size(p.segments@[i]) < pattern_size(p),
{
    lemma_segments_member(p.segments@, i);
}

proof fn lemma_segments_member(s: Seq<Segment>, i: int)
    requires
        0 <= i < s.len(),
    ensures
        segment_size(s[i]) <= segments_size(s),
    decreases s.len(),
{
    if i < s.len() - 1 {
        lemma_segments_member(s.drop_last(), i);
    }
}

/// The pattern of a declaration of a capture is smaller than the capture.
pub proof fn lemma_declaration_smaller(c: Capture, i: int)
    requires
        0 <= i < c.declarations@.len(),
        c.declarations@[i].value is Some,
    ensures
        pattern_size(c.declarations@[i].value->0) < capture_size(c),
{
    lemma_declarations_member(c.declarations@, i);
}

proof fn lemma_declarations_member(ds: Seq<Declaration>, i: int)
    requires
        0 <= i < ds.len(),
    ensures
        declaration_size(ds[i]) <= declarations_size(ds),
    decreases ds.len(),
{
    if i < ds.len() - 1 {
        lemma_declarations_member(ds.drop_last(), i);
    }
}

/// Returns a copy of the pattern `p`.
pub fn copy_pattern(p: &Pattern) -> (c: Pattern)
    ensures
        pattern_view(c) == pattern_view(*p),
    decreases pattern_size(*p), 1nat,
{
    let mut segments: Vec<Segment> = Vec::new();
    let mut i: usize = 0;
    while i < p.segments.len()
        invariant
            i <= p.segments@.len(),
            segments@.len() == i,
            forall|j: int| 0 <= j < i ==> segment_view(#[trigger] segments@[j]) == segment_view(p.segments@[j]),
        decreases p.segments@.len() - i,
    {
        proof {
            lemma_segment_smaller(*p, i as int);
        }
        segments.push(copy_segment(&p.segments[i]));
        i += 1;
    }
    proof {
        lemma_segments_view_eq(segments@, p.segments@);
    }
    Pattern { segments }
}

/// Returns a copy of the segment `seg`.
fn copy_segment(seg: &Segment) -> (c: Segment)
    ensures
        segment_view(c) == segment_view(*seg),
    decreases segment_size(*seg), 0nat,
{
    match seg {
        Segment::Filler(s) => Segment::Filler(s.clone()),
        Segment::Substitution(s) => Segment::Substitution(s.clone()),
        Segment::Capture(capture) => {
            let mut declarations: Vec<Declaration> = Vec::new();
            let mut i: usize = 0;
            while i < capture.declarations.len()
                invariant
                    i <= capture.declarations@.len(),
                    *seg == Segment::Capture(*capture),
                    declarations@.len() == i,
                    forall|j: int|
                        0 <= j < i ==> declaration_view(#[trigger] declarations@[j]) == declaration_view(
                            capture.declarations@[j],
                        ),
                decreases capture.declarations@.len() - i,
            {
                let decl = &capture.declarations[i];
                let value = match &decl.value {
                    Some(v) => {
                        proof {
                            lemma_declaration_smaller(*capture, i as int);
                        }
                        Some(copy_pattern(v))
                    },
                    None => None,
                };
                declarations.push(Declaration { key: decl.key.clone(), value });
                i += 1;
            }
            proof {
                lemma_declarations_view_eq(declarations@, capture.declarations@);
            }
            Segment::Capture(Capture { child_index: capture.child_index, declarations })
        },
    }
}

/// Build Error: an error encountered while building a pattern: while lexing it, while parsing
/// it, in one of its captures, or in the definition of the pattern language itself.
#[derive(Debug)]
pub enum BuildError {
    LexErr(lex::Error),
    ParseErr(parse::Error),
    CaptureErr(String),
    DefinitionErr(String),
}

/// Whether `m` describes the pattern build error `e`.
pub open spec fn pattern_message(e: BuildError, m: Seq<char>) -> bool {
    match e {
        BuildError::LexErr(err) => exists|inner: Seq<char>|
            lex::lex_message(err, inner) && m == "Pattern lex error: "@ + inner,
        BuildError::ParseErr(err) => m == "Pattern parse error: "@ + err.message@,
        BuildError::CaptureErr(err) => m == "Pattern capture error: "@ + err@,
        BuildError::DefinitionErr(err) => m == "Pattern definition error: "@ + err@,
    }
}

impl BuildError {
    /// Returns a description of the error.
    pub fn message(&self) -> (m: String)
        ensures
            pattern_message(*self, m@),
    {
        match self {
            BuildError::LexErr(err) => {
                let mut m = String::from_str("Pattern lex error: ");
                let inner = err.message();
                m.append(inner.as_str());
                assert(lex::lex_message(*err, inner@) && m@ == "Pattern lex error: "@ + inner@);
                m
            },
            BuildError::ParseErr(err) => {
                let mut m = String::from_str("Pattern parse error: ");
                m.append(err.message.as_str());
                m
            },
            BuildError::CaptureErr(err) => {
                let mut m = String::from_str("Pattern capture error: ");
                m.append(err.as_str());
                m
            },
            BuildError::DefinitionErr(err) => {
                let mut m = String::from_str("Pattern definition error: ");
                m.append(err.as_str());
                m
            },
        }
    }
}

/// The error for a tree that is not the parse of a pattern.
/// Whether `e` is the error for a malformed pattern parse tree.
pub open spec fn is_malformed(e: BuildError) -> bool {
    e matches BuildError::ParseErr(pe) && pe.message@ == "Malformed pattern parse tree"@
}

fn malformed() -> (e: BuildError)
    ensures
        is_malformed(e),
{
    BuildError::ParseErr(parse::Error { message: String::from_str("Malformed pattern parse tree") })
}

/// The outcome of building part of a pattern from its parse tree: what was built, a malformed
/// tree, or a capture index that is out of bounds or cannot be read (its text, and whether it
/// stands in the value of a declaration).
pub enum Built<T> {
    Done(T),
    Malformed,
    CaptureOut(Seq<char>, bool),
}

/// The description of a capture error: capture index `index` (as text) past the end of the
/// production rendered as `prod`, which has `n` children.
pub open spec fn capture_message(index: Seq<char>, prod: Seq<char>, n: nat) -> Seq<char> {
    "Capture index "@ + index + " out of bounds for production '"@ + prod + "' with "@ + decimal_text(n)
        + " children"@
}

/// `c + 1`, or the largest `usize` where that is larger.
pub open spec fn saturating_inc(c: nat) -> nat {
    if c + 1 > usize::MAX {
        usize::MAX as nat
    } else {
        c + 1
    }
}

/// The child index of the capture whose index node is `cap`, after `captures` captures: the
/// next automatic index if `cap` is empty, else the decimal index it holds, if it fits a `usize`.
pub open spec fn capture_index(cap: Tree<PatternSymbol>, captures: nat) -> Built<nat> {
    if cap.children@.len() == 1 && cap.children@[0].lhs.spec_kind() is None {
        Built::Done(captures)
    } else if cap.children@.len() == 0 {
        Built::Malformed
    } else {
        match spec_parse_u64(cap.children@[0].lhs.spec_lexeme()) {
            Some(v) => if v <= usize::MAX {
                Built::Done(v as nat)
            } else {
                Built::CaptureOut(cap.children@[0].lhs.spec_lexeme(), false)
            },
            None => Built::CaptureOut(cap.children@[0].lhs.spec_lexeme(), false),
        }
    }
}

/// `built` with the segment views `first` put before the segments it built.
pub open spec fn prepend_segments(first: Seq<SegmentView>, built: Built<(Seq<SegmentView>, nat)>) -> Built<
    (Seq<SegmentView>, nat),
> {
    match built {
        Built::Done((segments, captures)) => Built::Done((first + segments, captures)),
        Built::Malformed => Built::Malformed,
        Built::CaptureOut(t, b) => Built::CaptureOut(t, b),
    }
}

/// The segments that the pattern parse tree `node` stands for, for a production of `n`
/// symbols, after `captures` captures, and the number of captures after them: the unescaped
/// text of a filler, alphabetic or numeric token; the variable of a substitution; a capture of
/// its index (the next automatic one if none is written), with its declarations; and, for any
/// other node, the segments of its children in order.
pub open spec fn gen_node(node: Tree<PatternSymbol>, n: nat, captures: nat) -> Built<(Seq<SegmentView>, nat)>
    decreases tree_size(node), node.children@.len() + 1,
{
    if node.lhs.spec_kind() is None {
        Built::Done((Seq::empty(), captures))
    } else {
        let kind = node.lhs.spec_kind()->0;
        if kind == PatternSymbol::TFiller || kind == PatternSymbol::TAlpha || kind == PatternSymbol::TNumber {
            Built::Done((seq![SegmentView::Filler(unescape(node.lhs.spec_lexeme()))], captures))
        } else if kind == PatternSymbol::Substitution {
            if node.children@.len() < 2 {
                Built::Malformed
            } else {
                Built::Done((seq![SegmentView::Substitution(node.children@[1].lhs.spec_lexeme())], captures))
            }
        } else if kind == PatternSymbol::CaptureDescriptor {
            let decls = if node.children@.len() == 3 {
                proof {
                    lemma_child_smaller(node, 2);
                }
                gen_decls(node.children@[2], n)
            } else {
                Built::Done(Seq::empty())
            };
            match decls {
                Built::Done(ds) => if node.children@.len() == 0 {
                    Built::Malformed
                } else {
                    match capture_index(node.children@[0], captures) {
                        Built::Done(index) => if index >= n {
                            Built::CaptureOut(decimal_text(index), false)
                        } else {
                            Built::Done(
                                (seq![SegmentView::Capture(index as usize, ds)], saturating_inc(captures)),
                            )
                        },
                        Built::Malformed => Built::Malformed,
                        Built::CaptureOut(t, b) => Built::CaptureOut(t, b),
                    }
                },
                Built::Malformed => Built::Malformed,
                Built::CaptureOut(t, b) => Built::CaptureOut(t, b),
            }
        } else {
            gen_children(node, 0, n, captures)
        }
    }
}

/// The segments of the children of `node` from child `i` on, in order, after `captures`
/// captures, and the number of captures after them.
pub open spec fn gen_children(node: Tree<PatternSymbol>, i: int, n: nat, captures: nat) -> Built<
    (Seq<SegmentView>, nat),
>
    decreases tree_size(node), node.children@.len() - i,
{
    if i < 0 || i >= node.children@.len() {
        Built::Done((Seq::empty(), captures))
    } else {
        proof {
            lemma_child_smaller(node, i);
        }
        match gen_node(node.children@[i], n, captures) {
            Built::Done((segments, after)) => prepend_segments(segments, gen_children(node, i + 1, n, after)),
            Built::Malformed => Built::Malformed,
            Built::CaptureOut(t, b) => Built::CaptureOut(t, b),
        }
    }
}

/// The declarations of the declarations node `node`, last first.
pub open spec fn gen_decls(node: Tree<PatternSymbol>, n: nat) -> Built<Seq<DeclarationView>>
    decreases tree_size(node), 0nat,
{
    if node.children@.len() == 0 {
        Built::Malformed
    } else {
        proof {
            lemma_child_smaller(node, node.children@.len() - 1);
        }
        match gen_decl(node.children@[node.children@.len() - 1], n) {
            Built::Done(d) => if node.children@.len() == 3 {
                proof {
                    lemma_child_smaller(node, 0);
                }
                match gen_decls(node.children@[0], n) {
                    Built::Done(rest) => Built::Done(seq![d] + rest),
                    Built::Malformed => Built::Malformed,
                    Built::CaptureOut(t, b) => Built::CaptureOut(t, b),
                }
            } else {
                Built::Done(seq![d])
            },
            Built::Malformed => Built::Malformed,
            Built::CaptureOut(t, b) => Built::CaptureOut(t, b),
        }
    }
}

/// The declaration of the declaration node `decl`: its variable, and the pattern of its value,
/// if it has one.
pub open spec fn gen_decl(decl: Tree<PatternSymbol>, n: nat) -> Built<DeclarationView>
    decreases tree_size(decl), 0nat,
{
    if decl.children@.len() < 3 {
        Built::Malformed
    } else if decl.children@[2].children@.len() == 0 {
        Built::Malformed
    } else {
        let val_node = decl.children@[2].children@[0];
        let key = decl.children@[0].lhs.spec_lexeme();
        if val_node.lhs.spec_kind() is None {
            Built::Done(DeclarationView { key, value: None })
        } else if val_node.children@.len() == 0 {
            Built::Malformed
        } else {
            proof {
                lemma_child_smaller(decl, 2);
                lemma_child_smaller(decl.children@[2], 0);
                lemma_child_smaller(val_node, 0);
            }
            match gen_pattern(val_node.children@[0], n) {
                Built::Done(segments) => Built::Done(DeclarationView { key, value: Some(segments) }),
                Built::Malformed => Built::Malformed,
                Built::CaptureOut(t, _) => Built::CaptureOut(t, true),
            }
        }
    }
}

/// The pattern that the pattern parse tree `root` stands for, for a production of `n` symbols.
pub open spec fn gen_pattern(root: Tree<PatternSymbol>, n: nat) -> Built<Seq<SegmentView>>
    decreases tree_size(root), root.children@.len() + 2,
{
    match gen_node(root, n, 0) {
        Built::Done((segments, _)) => Built::Done(segments),
        Built::Malformed => Built::Malformed,
        Built::CaptureOut(t, b) => Built::CaptureOut(t, b),
    }
}

/// Whether `p` is the pattern of some pattern parse tree, for a production of `n` symbols.
pub open spec fn built_from(p: Pattern, n: nat) -> bool {
    exists|t: Tree<PatternSymbol>|
        t.lhs.spec_kind() == Some(PatternSymbol::Pattern) && #[trigger] gen_pattern(t, n) == Built::Done(
            pattern_view(p),
        )
}

/// Whether `p` is the pattern of a pattern parse tree whose leaves spell `text`, for a
/// production of `n` symbols.
pub open spec fn built_from_text(p: Pattern, text: Seq<char>, n: nat) -> bool {
    exists|t: Tree<PatternSymbol>|
        t.lhs.spec_kind() == Some(PatternSymbol::Pattern) && spelled_text(t) == text && #[trigger] gen_pattern(
            t,
            n,
        ) == Built::Done(pattern_view(p))
}

/// Whether every capture among `segments` refers to one of `children` children.
pub open spec fn captures_within(segments: Seq<Segment>, children: nat) -> bool {
    forall|i: int|
        0 <= i < segments.len() ==> (#[trigger] segments[i] matches Segment::Capture(c)
            ==> c.child_index < children)
}

/// Returns the pattern given by the string `input` (from a specification), for production
/// `prod`, whose string representation `string_prod` is used in errors; or an error if `input`
/// is not a valid pattern. Every capture of the pattern refers to a child of `prod`.
pub fn generate_pattern<Symbol: GrammarSymbol>(
    input: &str,
    prod: &Production<Symbol>,
    string_prod: &Production<String>,
) -> (res: Result<Pattern, BuildError>)
    requires
        input@.len() + 2 < usize::MAX,
    ensures
        res matches Ok(p) ==> captures_within(p.segments@, prod.rhs@.len()),
        res matches Ok(p) ==> built_from(p, prod.rhs@.len()),
        res matches Ok(p) ==> built_from_text(p, input@, prod.rhs@.len()),
{
    let parse = parse_pattern(input)?;
    let r = generate_pattern_internal(&parse, prod, string_prod);
    proof {
        if r is Ok {
            assert(gen_pattern(parse, prod.rhs@.len()) == Built::Done(pattern_view(r->Ok_0)));
            assert(spelled_text(parse) == input@);
        }
    }
    r
}

/// Returns the pattern given by the pattern parse tree `root`, for production `prod`, whose
/// string representation `string_prod` is used in errors; or an error if a capture refers past
/// the end of the production. Every capture of the pattern refers to a child of `prod`.
pub fn generate_pattern_internal<Symbol: GrammarSymbol>(
    root: &Tree<PatternSymbol>,
    prod: &Production<Symbol>,
    string_prod: &Production<String>,
) -> (res: Result<Pattern, BuildError>)
    ensures
        res matches Ok(p) ==> captures_within(p.segments@, prod.rhs@.len()),
        match gen_pattern(*root, prod.rhs@.len()) {
            Built::Done(segments) => res matches Ok(p) && pattern_view(p) == segments,
            Built::Malformed => res matches Err(e) && is_malformed(e),
            Built::CaptureOut(t, nested) => res matches Err(BuildError::CaptureErr(m)) && (!nested
                || Symbol::renders_exactly() ==> m@ == capture_message(
                t,
                if nested {
                    prod.rendered()
                } else {
                    string_prod.rendered()
                },
                prod.rhs@.len(),
            )),
        },
    decreases tree_size(*root), 1nat,
{
    let mut segments: Vec<Segment> = Vec::new();
    assert(segments_view(segments@) =~= Seq::<SegmentView>::empty());
    generate_pattern_recursive(root, &mut segments, prod, string_prod, 0)?;
    proof {
        let built = gen_node(*root, prod.rhs@.len(), 0)->Done_0.0;
        assert(Seq::<SegmentView>::empty() + built =~= built);
    }
    Ok(Pattern { segments })
}

/// Traverses the pattern parse tree `node`, adding its segments to `accumulator`. Returns the
/// number of captures visited so far, starting from `captures`: a capture with no index refers
/// to the child after the previous capture.
fn generate_pattern_recursive<Symbol: GrammarSymbol>(
    node: &Tree<PatternSymbol>,
    accumulator: &mut Vec<Segment>,
    prod: &Production<Symbol>,
    string_prod: &Production<String>,
    captures: usize,
) -> (res: Result<usize, BuildError>)
    ensures
        captures_within(old(accumulator)@, prod.rhs@.len()) ==> captures_within(
            final(accumulator)@,
            prod.rhs@.len(),
        ),
        match gen_node(*node, prod.rhs@.len(), captures as nat) {
            Built::Done((segments, after)) => res matches Ok(c) && c == after && segments_view(
                final(accumulator)@,
            ) == segments_view(old(accumulator)@) + segments,
            Built::Malformed => res matches Err(e) && is_malformed(e),
            Built::CaptureOut(t, nested) => res matches Err(BuildError::CaptureErr(m)) && (!nested
                || Symbol::renders_exactly() ==> m@ == capture_message(
                t,
                if nested {
                    prod.rendered()
                } else {
                    string_prod.rendered()
                },
                prod.rhs@.len(),
            )),
        },
    decreases tree_size(*node), 0nat,
{
    let ghost start = accumulator@;
    let ghost n = prod.rhs@.len();
    if node.lhs.is_null() {
        assert(segments_view(start) + Seq::<SegmentView>::empty() =~= segments_view(start));
        return Ok(captures);
    }
    match node.lhs.kind() {
        PatternSymbol::TFiller | PatternSymbol::TAlpha | PatternSymbol::TNumber => {
            let name = replace_escapes(node.lhs.lexeme().as_str());
            let seg = Segment::Filler(name);
            proof {
                lemma_segments_view_push(start, seg);
            }
            accumulator.push(seg);
            assert(segments_view(accumulator@) =~= segments_view(start) + seq![segment_view(seg)]);
        },
        PatternSymbol::Substitution => {
            if node.children.len() < 2 {
                return Err(malformed());
            }
            let seg = Segment::Substitution(node.get_child(1).lhs.lexeme().clone());
            proof {
                lemma_segments_view_push(start, seg);
            }
            accumulator.push(seg);
            assert(segments_view(accumulator@) =~= segments_view(start) + seq![segment_view(seg)]);
        },
        PatternSymbol::CaptureDescriptor => {
            let mut declarations: Vec<Declaration> = Vec::new();
            if node.children.len() == 3 {
                proof {
                    lemma_child_smaller(*node, 2);
                }
                parse_decls(node.get_child(2), &mut declarations, prod)?;
            }
            let ghost ds = declarations_view(declarations@);
            proof {
                if node.children@.len() == 3 {
                    assert(declarations_view(Seq::<Declaration>::empty()) + ds =~= ds);
                } else {
                    assert(ds =~= Seq::<DeclarationView>::empty());
                }
            }
            if node.children.len() == 0 {
                return Err(malformed());
            }
            let cap_index = node.get_child(0);
            let child_index = if cap_index.is_empty() {
                captures
            } else {
                if cap_index.children.len() == 0 {
                    return Err(malformed());
                }
                let digits = cap_index.get_child(0).lhs.lexeme();
                match parse_index(digits) {
                    Some(index) => index,
                    None => return Err(capture_error(digits, string_prod, prod.rhs.len())),
                }
            };
            if child_index >= prod.rhs.len() {
                let index_string = Data::to_string(&child_index);
                assert(index_string@ == decimal_text(child_index as nat));
                let e = capture_error(&index_string, string_prod, prod.rhs.len());
                proof {
                    assert(capture_index(node.children@[0], captures as nat) == Built::Done(child_index as nat));
                }
                return Err(e);
            }
            let seg = Segment::Capture(Capture { child_index, declarations });
            proof {
                lemma_segments_view_push(start, seg);
            }
            accumulator.push(seg);
            assert(segments_view(accumulator@) =~= segments_view(start) + seq![segment_view(seg)]);
            return Ok(captures.saturating_add(1));
        },
        _ => {
            let mut new_captures = captures;
            let mut i: usize = 0;
            let ghost mut built: Seq<SegmentView> = Seq::empty();
            assert(segments_view(start) + built =~= segments_view(start));
            assert(prepend_segments(built, gen_children(*node, 0, n, captures as nat)) == gen_children(
                *node,
                0,
                n,
                captures as nat,
            )) by {
                match gen_children(*node, 0, n, captures as nat) {
                    Built::Done((sg, c)) => {
                        assert(built + sg =~= sg);
                    },
                    _ => {},
                }
            }
            while i < node.children.len()
                invariant
                    i <= node.children@.len(),
                    n == prod.rhs@.len(),
                    captures_within(old(accumulator)@, prod.rhs@.len()) ==> captures_within(
                        accumulator@,
                        prod.rhs@.len(),
                    ),
                    segments_view(accumulator@) == segments_view(start) + built,
                    gen_node(*node, n, captures as nat) == gen_children(*node, 0, n, captures as nat),
                    gen_children(*node, 0, n, captures as nat) == prepend_segments(
                        built,
                        gen_children(*node, i as int, n, new_captures as nat),
                    ),
                decreases node.children@.len() - i,
            {
                proof {
                    lemma_child_smaller(*node, i as int);
                }
                let ghost before = accumulator@;
                let ghost prior = new_captures;
                let r = generate_pattern_recursive(
                    &node.children[i],
                    accumulator,
                    prod,
                    string_prod,
                    new_captures,
                );
                new_captures = match r {
                    Ok(c) => c,
                    Err(e) => {
                        proof {
                            assert(gen_children(*node, i as int, n, prior as nat) == match gen_node(
                                node.children@[i as int],
                                n,
                                prior as nat,
                            ) {
                                Built::Done((segments, after)) => prepend_segments(
                                    segments,
                                    gen_children(*node, i + 1, n, after),
                                ),
                                Built::Malformed => Built::<(Seq<SegmentView>, nat)>::Malformed,
                                Built::CaptureOut(t, b) => Built::<(Seq<SegmentView>, nat)>::CaptureOut(t, b),
                            });
                        }
                        return Err(e);
                    },
                };
                proof {
                    let child_built = gen_node(node.children@[i as int], n, prior as nat);
                    let sg = child_built->Done_0.0;
                    assert(segments_view(accumulator@) =~= segments_view(start) + (built + sg));
                    let rest = gen_children(*node, i + 1, n, new_captures as nat);
                    match rest {
                        Built::Done((s2, c2)) => {
                            assert(built + (sg + s2) =~= (built + sg) + s2);
                        },
                        _ => {},
                    }
                    built = built + sg;
                }
                i += 1;
            }
            proof {
                assert(segments_view(start) + built + Seq::<SegmentView>::empty() =~= segments_view(start) + built);
            }
            return Ok(new_captures);
        },
    }
    Ok(captures)
}

/// The error for capture index `index` (as written) past the end of production `string_prod`,
/// which has `children` right-hand-side symbols.
fn capture_error(index: &String, string_prod: &Production<String>, children: usize) -> (e: BuildError)
    ensures
        e matches BuildError::CaptureErr(m) && m@ == capture_message(index@, string_prod.rendered(), children as nat),
{
    let mut m = String::from_str("Capture index ");
    m.append(index.as_str());
    m.append(" out of bounds for production '");
    let prod_string = string_prod.to_string();
    m.append(prod_string.as_str());
    m.append("' with ");
    let children_string = Data::to_string(&children);
    m.append(children_string.as_str());
    m.append(" children");
    BuildError::CaptureErr(m)
}

/// The capture index written by the decimal `digits`, if it fits in a `usize`.
fn parse_index(digits: &String) -> (r: Option<usize>)
    ensures
        r == match spec_parse_u64(digits@) {
            Some(v) => if v <= usize::MAX {
                Some(v as usize)
            } else {
                None
            },
            None => None,
        },
{
    let chars = chars_of(digits.as_str());
    match parse_u64(chars.as_slice()) {
        Some(v) => {
            if v <= usize::MAX as u64 {
                Some(v as usize)
            } else {
                None
            }
        },
        None => None,
    }
}

/// Adds the declarations of the declarations node `decls_node` to `accumulator`, last first.
fn parse_decls<Symbol: GrammarSymbol>(
    decls_node: &Tree<PatternSymbol>,
    accumulator: &mut Vec<Declaration>,
    prod: &Production<Symbol>,
) -> (res: Result<(), BuildError>)
    ensures
        decls_node.children@.len() == 0 ==> (res matches Err(e) && is_malformed(e)),
        res is Ok ==> final(accumulator)@.len() > old(accumulator)@.len(),
        res is Ok ==> forall|i: int|
            0 <= i < old(accumulator)@.len() ==> final(accumulator)@[i] == old(accumulator)@[i],
        res is Ok ==> final(accumulator)@[old(accumulator)@.len() as int].key@
            == decls_node.children@.last().children@[0].lhs.spec_lexeme(),
        match gen_decls(*decls_node, prod.rhs@.len()) {
            Built::Done(ds) => res is Ok && declarations_view(final(accumulator)@) == declarations_view(
                old(accumulator)@,
            ) + ds,
            Built::Malformed => res matches Err(e) && is_malformed(e),
            Built::CaptureOut(t, nested) => nested && (res matches Err(BuildError::CaptureErr(m)) && (
            Symbol::renders_exactly() ==> m@ == capture_message(t, prod.rendered(), prod.rhs@.len()))),
        },
    decreases tree_size(*decls_node), 0nat,
{
    let ghost start = accumulator@;
    let n = decls_node.children.len();
    if n == 0 {
        return Err(malformed());
    }
    proof {
        lemma_child_smaller(*decls_node, n - 1);
    }
    let decl = parse_decl(decls_node.get_child(n - 1), prod)?;
    proof {
        lemma_declarations_view_push(start, decl);
    }
    accumulator.push(decl);
    assert(declarations_view(accumulator@) =~= declarations_view(start) + seq![declaration_view(decl)]);
    if n == 3 {
        proof {
            lemma_child_smaller(*decls_node, 0);
        }
        let ghost mid = accumulator@;
        parse_decls(decls_node.get_child(0), accumulator, prod)?;
        proof {
            let rest = gen_decls(decls_node.children@[0], prod.rhs@.len())->Done_0;
            assert(declarations_view(accumulator@) =~= declarations_view(start) + (seq![declaration_view(decl)] + rest));
        }
    }
    Ok(())
}

/// The string form of `prod`, which renders as `prod` does.
fn string_form<Symbol: GrammarSymbol>(prod: &Production<Symbol>) -> (q: Production<String>)
    ensures
        Symbol::renders_exactly() ==> q.rendered() == prod.rendered(),
{
    let q = prod.string_production();
    proof {
        if Symbol::renders_exactly() {
            lemma_string_production_rendered(*prod, q);
        }
    }
    q
}

/// Builds the declaration of the declaration node `decl`: its variable, and the pattern of its
/// value, if it has one.
fn parse_decl<Symbol: GrammarSymbol>(decl: &Tree<PatternSymbol>, prod: &Production<Symbol>) -> (res:
    Result<Declaration, BuildError>)
    ensures
        decl.children@.len() < 3 ==> (res matches Err(e) && is_malformed(e)),
        res matches Ok(d) ==> decl.children@.len() >= 3 && decl.children@[2].children@.len() > 0
            && d.key@ == decl.children@[0].lhs.spec_lexeme() && (d.value is None
            <==> decl.children@[2].children@[0].lhs.spec_kind() is None),
        match gen_decl(*decl, prod.rhs@.len()) {
            Built::Done(dv) => res matches Ok(d) && declaration_view(d) == dv,
            Built::Malformed => res matches Err(e) && is_malformed(e),
            Built::CaptureOut(t, nested) => nested && (res matches Err(BuildError::CaptureErr(m)) && (
            Symbol::renders_exactly() ==> m@ == capture_message(t, prod.rendered(), prod.rhs@.len()))),
        },
    decreases tree_size(*decl), 0nat,
{
    if decl.children.len() < 3 {
        return Err(malformed());
    }
    let value_node = decl.get_child(2);
    if value_node.children.len() == 0 {
        return Err(malformed());
    }
    let val_node = value_node.get_child(0);
    let key = decl.get_child(0).lhs.lexeme().clone();
    let value = if val_node.is_null() {
        None
    } else {
        if val_node.children.len() == 0 {
            return Err(malformed());
        }
        proof {
            lemma_child_smaller(*decl, 2);
            lemma_child_smaller(*value_node, 0);
            lemma_child_smaller(*val_node, 0);
        }
        let string_prod = string_form(prod);
        Some(generate_pattern_internal(val_node.get_child(0), prod, &string_prod)?)
    };
    Ok(Declaration { key, value })
}

/// Parses the pattern `input` into its parse tree, rooted at a `Pattern` node, or returns an
/// error if `input` is not a pattern.
pub fn parse_pattern(input: &str) -> (res: Result<Tree<PatternSymbol>, BuildError>)
    requires
        input@.len() + 2 < usize::MAX,
    ensures
        res matches Ok(tree) ==> tree.spm == SymbolParseMethod::Standard && tree.lhs.spec_kind()
            == Some(PatternSymbol::Pattern),
        res matches Ok(tree) ==> spelled_text(tree) == input@,
{
    let cdfa = match build_pattern_ecdfa() {
        Ok(cdfa) => cdfa,
        Err(CDFAError::BuildErr(message)) => return Err(BuildError::DefinitionErr(message)),
    };
    let grammar = match build_pattern_grammar() {
        Ok(grammar) => grammar,
        Err(err) => return Err(BuildError::DefinitionErr(err.message())),
    };
    let chars = chars_of(input);
    proof {
        lemma_symbol_exact();
        lemma_cdfa_consumes(&cdfa);
        law_consuming_lex_finishes(&cdfa, chars@);
    }
    let tokens = match def_lexer().lex(chars.as_slice(), &cdfa) {
        Ok(tokens) => tokens,
        Err(err) => return Err(BuildError::LexErr(err)),
    };
    match def_parser().parse(tokens, &grammar) {
        Ok(tree) => if spells(&tree, input) {
            Ok(tree)
        } else {
            Err(BuildError::ParseErr(parse::Error { message: String::from_str("Failed to decompose parse edge of recognized lex") }))
        },
        Err(err) => Err(BuildError::ParseErr(err)),
    }
}

} // verus!
