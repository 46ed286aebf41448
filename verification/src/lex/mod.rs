use vstd::prelude::*;
use crate::data::{interval, Data};
use crate::parse::grammar::GrammarSymbol;
use crate::text::{escape, escape_string, push_char};
use vstd::std_specs::cmp::PartialEqSpec;

pub mod alphabet;
pub mod ecdfa;
pub mod longest_match;

verus! {

/// The character sequence length to generate when lexing fails.
pub const FAIL_SEQUENCE_LENGTH: usize = 10;

/// Lexer: trait which represents a generic lexer.
pub trait Lexer<State: Data, Symbol: GrammarSymbol> {
    /// Lexes `input` using `cdfa` to specify the language.
    ///
    /// Returns a vector of scanned tokens if the lex is successful, otherwise an error is
    /// returned.
    fn lex<C: CDFA<State, Symbol>>(&self, input: &[char], cdfa: &C) -> (res: Result<
        Vec<Token<Symbol>>,
        Error,
    >)
        requires
            input@.len() + 2 < usize::MAX,
            State::obeys_eq_spec(),
            crate::data::clones_exactly::<Symbol>(),
            longest_match::lex_finishes(cdfa, input@),
        ensures
            longest_match::lex_outcome_matches(res, longest_match::lex_spec(cdfa, input@)),
            res matches Ok(tokens) ==> forall|i: int|
                0 <= i < tokens@.len() ==> (#[trigger] tokens@[i]).spec_kind() is Some,
    ;
}

/// Returns the current default lexer.
/// This lexer should be used for all non-testing purposes.
pub fn def_lexer() -> (lexer: longest_match::LongestMatchLexer) {
    longest_match::LongestMatchLexer
}

/// Compressed Deterministic Finite Automata (CDFA): the operations a CDFA implementation must
/// provide to support use by a `Lexer`.
pub trait CDFA<State: Data, Symbol: GrammarSymbol> {
    /// The result of a transition from `state` on `input`.
    spec fn spec_transition(&self, state: State, input: Seq<char>) -> TransitionResult<State>;

    /// Whether the alphabet of the CDFA contains `c`.
    spec fn spec_alphabet_contains(&self, c: char) -> bool;

    /// Whether `state` is accepting.
    spec fn spec_accepts(&self, state: State) -> bool;

    /// The default acceptor destination of `state`.
    spec fn spec_default_acceptor_destination(&self, state: State) -> Option<State>;

    /// The token kind associated with `state`.
    spec fn spec_tokenize(&self, state: State) -> Option<Symbol>;

    /// The starting state of the CDFA.
    spec fn spec_start(&self) -> State;

    /// Attempts to perform a transition from `state` on `input`, and returns the result.
    fn transition(&self, state: &State, input: &[char]) -> (r: TransitionResult<State>)
        ensures
            r == self.spec_transition(*state, input@),
            r matches TransitionResult::Pass(d) ==> d.consumed <= input@.len(),
    ;

    /// Returns true if the alphabet of the CDFA contains `c`, otherwise false.
    fn alphabet_contains(&self, c: char) -> (r: bool)
        ensures
            r == self.spec_alphabet_contains(c),
    ;

    /// Returns true if `state` is accepting, otherwise false.
    fn accepts(&self, state: &State) -> (r: bool)
        ensures
            r == self.spec_accepts(*state),
    ;

    /// Returns the default acceptor destination of `state`, or `None` if `state` has no
    /// acceptor destination.
    fn default_acceptor_destination(&self, state: &State) -> (r: Option<State>)
        ensures
            r == self.spec_default_acceptor_destination(*state),
    ;

    /// Returns the token kind associated with `state`, if one exists, otherwise `None`.
    ///
    /// The kind returned is a clone of the stored one: equal to it wherever cloning a `Symbol`
    /// is exact.
    fn tokenize(&self, state: &State) -> (r: Option<Symbol>)
        ensures
            r is Some <==> self.spec_tokenize(*state) is Some,
            crate::data::clones_exactly::<Symbol>() ==> r == self.spec_tokenize(*state),
    ;

    /// Returns the starting state of the CDFA, where lexing should begin.
    fn start(&self) -> (r: State)
        ensures
            r == self.spec_start(),
    ;
}

/// CDFA Builder: trait representing a builder of CDFAs of type `CDFAType`.
///
/// Builder operations can be chained; those that can fail return the builder wrapped in a
/// `Result`.
pub trait CDFABuilder<State: Data, Symbol: GrammarSymbol, CDFAType>: Sized {
    /// Whether the builder is in a consistent state; every builder operation keeps it so.
    spec fn well_formed(&self) -> bool;

    /// Whether every state of the builder can take `n` more range transitions.
    spec fn range_room(&self, n: nat) -> bool;

    /// Returns a new builder.
    fn new() -> (b: Self)
        ensures
            b.well_formed(),
            b.range_room((u32::MAX - 2) as nat),
    ;

    /// Consumes the builder and returns either a CDFA or an error, if a build failure occurred.
    fn build(self) -> (res: Result<CDFAType, CDFAError>)
        requires
            self.well_formed(),
    ;

    /// Sets `chars` as the alphabet of the CDFA.
    fn set_alphabet(&mut self, chars: &str) -> (b: &mut Self)
        requires
            old(self).well_formed(),
        ensures
            b.well_formed(),
            *final(self) == *final(b),
    ;

    /// Marks `state` as an accepting state.
    fn accept(&mut self, state: &State) -> (b: &mut Self)
        requires
            old(self).well_formed(),
        ensures
            b.well_formed(),
            *final(self) == *final(b),
    ;

    /// Marks `state` as an accepting state, with acceptor destination `to`.
    fn accept_to(&mut self, state: &State, to: &State) -> (b: &mut Self)
        requires
            old(self).well_formed(),
        ensures
            b.well_formed(),
            *final(self) == *final(b),
    ;

    /// Marks `state` as the default start state of the CDFA.
    fn mark_start(&mut self, state: &State) -> (b: &mut Self)
        requires
            old(self).well_formed(),
        ensures
            b.well_formed(),
            *final(self) == *final(b),
    ;

    /// Adds simple transition `transit` on `on` from `from`.
    ///
    /// Returns an error if the transition could not be added.
    fn mark_trans(&mut self, from: &State, transit: Transit<State>, on: char) -> (res: Result<
        &mut Self,
        CDFAError,
    >)
        requires
            old(self).well_formed(),
        ensures
            match res {
                Ok(b) => b.well_formed() && *final(self) == *final(b),
                Err(_) => final(self).well_formed(),
            },
    ;

    /// Adds chain transition `transit` on `on` from `from`.
    ///
    /// Returns an error if the transition could not be added.
    fn mark_chain(&mut self, from: &State, transit: Transit<State>, on: &str) -> (res:
        Result<&mut Self, CDFAError>)
        requires
            old(self).well_formed(),
        ensures
            match res {
                Ok(b) => b.well_formed() && *final(self) == *final(b),
                Err(_) => final(self).well_formed(),
            },
    ;

    /// Adds range transition `transit` on range [`start`, `end`] from `from`.
    ///
    /// Returns an error if the transition could not be added.
    fn mark_range(
        &mut self,
        from: &State,
        transit: Transit<State>,
        start: char,
        end: char,
    ) -> (res: Result<&mut Self, CDFAError>)
        requires
            old(self).well_formed(),
            old(self).range_room(1),
        ensures
            match res {
                Ok(b) => b.well_formed() && *final(self) == *final(b),
                Err(_) => final(self).well_formed(),
            },
    ;

    /// Adds range transition `transit` on range [`start`, `end`] from all states in
    /// `sources`.
    ///
    /// Returns an error if any of the transitions could not be added.
    fn mark_range_for_all(
        &mut self,
        sources: &[&State],
        transit: Transit<State>,
        start: char,
        end: char,
    ) -> (res: Result<&mut Self, CDFAError>)
        requires
            old(self).well_formed(),
            old(self).range_room(sources@.len()),
        ensures
            match res {
                Ok(b) => b.well_formed() && *final(self) == *final(b),
                Err(_) => final(self).well_formed(),
            },
    ;

    /// Adds default transition `transit` from `from`.
    ///
    /// Returns an error if the transition could not be added.
    fn default_to(&mut self, from: &State, transit: Transit<State>) -> (res: Result<
        &mut Self,
        CDFAError,
    >)
        requires
            old(self).well_formed(),
        ensures
            match res {
                Ok(b) => b.well_formed() && *final(self) == *final(b),
                Err(_) => final(self).well_formed(),
            },
    ;

    /// Marks `state` as tokenizable, and associates it with token kind `token`.
    fn tokenize(&mut self, state: &State, token: &Symbol) -> (b: &mut Self)
        requires
            old(self).well_formed(),
        ensures
            b.well_formed(),
            *final(self) == *final(b),
    ;
}

/// Transit: the action-phase of a transition.
///
/// `dest` is the destination state of the transition, `consumer` the input consumption strategy
/// to follow when taking it, and `acceptor_destination` the acceptor destination associated with
/// this transition (not to be confused with the possibly different acceptor destination of the
/// destination state).
#[derive(Clone)]
pub struct Transit<State: Data> {
    pub dest: State,
    pub consumer: ConsumerStrategy,
    pub acceptor_destination: Option<State>,
}

impl<State: Data> Transit<State> {
    /// Creates a new transit to `dest` which consumes all input and has no acceptor destination.
    pub fn to(dest: State) -> (t: Self)
        ensures
            t.dest == dest,
            t.consumer == ConsumerStrategy::All,
            t.acceptor_destination is None,
    {
        Self { dest, consumer: ConsumerStrategy::All, acceptor_destination: None }
    }
}

/// Transit Builder: simple builder for `Transit` structs.
/// Fields and type parameters correspond exactly with those of the target type.
#[derive(Clone)]
pub struct TransitBuilder<State: Data> {
    pub dest: State,
    pub consumer: ConsumerStrategy,
    pub acceptor_destination: Option<State>,
}

impl<State: Data> TransitBuilder<State> {
    /// Creates a new transit builder with destination `dest`, which consumes all input and has
    /// no acceptor destination.
    pub fn to(dest: State) -> (b: Self)
        ensures
            b.dest == dest,
            b.consumer == ConsumerStrategy::All,
            b.acceptor_destination is None,
    {
        Self { dest, consumer: ConsumerStrategy::All, acceptor_destination: None }
    }

    /// Sets the consumer strategy of the transit to `consumer`.
    pub fn consumer(&mut self, consumer: ConsumerStrategy) -> (b: &mut Self)
        ensures
            b.dest == old(self).dest,
            b.consumer == consumer,
            b.acceptor_destination == old(self).acceptor_destination,
            *final(self) == *final(b),
    {
        self.consumer = consumer;
        self
    }

    /// Sets the acceptor destination of the transit to `acceptor_destination`.
    pub fn accept_to(&mut self, acceptor_destination: State) -> (b: &mut Self)
        ensures
            b.dest == old(self).dest,
            b.consumer == old(self).consumer,
            b.acceptor_destination == Some(acceptor_destination),
            *final(self) == *final(b),
    {
        self.acceptor_destination = Some(acceptor_destination);
        self
    }

    /// Copies the builder configuration into a new `Transit`, without consuming the builder.
    pub fn build(&self) -> (t: Transit<State>)
        ensures
            cloned(self.dest, t.dest),
            t.consumer == self.consumer,
            match self.acceptor_destination {
                Some(a) => t.acceptor_destination matches Some(b) && cloned(a, b),
                None => t.acceptor_destination is None,
            },
    {
        let acceptor_destination = match &self.acceptor_destination {
            Some(a) => Some(a.clone()),
            None => None,
        };
        Transit { dest: self.dest.clone(), consumer: self.consumer, acceptor_destination }
    }
}

/// Consumer Strategy: a strategy of input consumption to be taken by a CDFA transition.
///
/// `All` consumes all input matched by the transition when it is taken; `Nothing` consumes no
/// input.
#[derive(Clone, Copy, PartialEq, Eq, Structural, Debug)]
pub enum ConsumerStrategy {
    All,
    Nothing,
}

/// Transition Result: the result of a transition attempt, either a failure or the destination
/// of a successful transition.
pub enum TransitionResult<State: Data> {
    Fail,
    Pass(TransitionDestination<State>),
}

impl<State: Data> TransitionResult<State> {
    /// Returns a new successful transition result through `transit` traversing `traversed`
    /// input characters.
    pub fn ok(transit: &Transit<State>, traversed: usize) -> (r: Self)
        ensures
            r matches TransitionResult::Pass(d) && cloned(transit.dest, d.state) && d.consumed == (
            match transit.consumer {
                ConsumerStrategy::All => traversed,
                ConsumerStrategy::Nothing => 0,
            }) && match transit.acceptor_destination {
                Some(a) => d.acceptor_destination matches Some(b) && cloned(a, b),
                None => d.acceptor_destination is None,
            },
    {
        let consumed = match transit.consumer {
            ConsumerStrategy::All => traversed,
            ConsumerStrategy::Nothing => 0,
        };
        let acceptor_destination = match &transit.acceptor_destination {
            Some(a) => Some(a.clone()),
            None => None,
        };
        Self::Pass(TransitionDestination { state: transit.dest.clone(), consumed, acceptor_destination })
    }

    /// Returns a new successful transition result through `transit` traversing a single input
    /// character.
    pub fn direct(transit: &Transit<State>) -> (r: Self)
        ensures
            r matches TransitionResult::Pass(d) && cloned(transit.dest, d.state) && d.consumed == (
            match transit.consumer {
                ConsumerStrategy::All => 1usize,
                ConsumerStrategy::Nothing => 0,
            }) && match transit.acceptor_destination {
                Some(a) => d.acceptor_destination matches Some(b) && cloned(a, b),
                None => d.acceptor_destination is None,
            },
    {
        Self::ok(transit, 1)
    }
}

/// Transition Destination: the destination `state` of a successful state transition, the
/// number of input characters `consumed` by it, and its optional `acceptor_destination` (not to
/// be confused with the possibly different acceptor destination of the destination state).
pub struct TransitionDestination<State: Data> {
    pub state: State,
    pub consumed: usize,
    pub acceptor_destination: Option<State>,
}

/// CDFA Error: an error encountered while using or constructing a CDFA.
#[derive(Debug)]
pub enum CDFAError {
    /// An error occurred while building a CDFA.
    BuildErr(String),
}

impl CDFAError {
    /// Converts a range-matcher error of an interval map into a build error.
    pub fn from_interval_error(err: interval::Error) -> (e: CDFAError)
        ensures
            e matches CDFAError::BuildErr(m) && m@ == "Range matcher error: Intervals overlap"@,
    {
        match err {
            interval::Error::OverlapErr => CDFAError::BuildErr(
                String::from_str("Range matcher error: Intervals overlap"),
            ),
        }
    }
}

/// Token: a successfully lexed token of input.
///
/// `kind` is the kind of token, or `None` if the token represents an epsilon value (null), and
/// `lexeme` is the scanned characters which produced this token.
#[derive(PartialEq, Eq, Hash, Clone, Debug)]
pub struct Token<Symbol: core::fmt::Debug> {
    kind: Option<Symbol>,
    lexeme: String,
}

impl<Symbol: Data> Token<Symbol> {
    /// The kind of the token (`None` for null).
    pub closed spec fn spec_kind(&self) -> Option<Symbol> {
        self.kind
    }

    /// The characters of the token's lexeme.
    pub closed spec fn spec_lexeme(&self) -> Seq<char> {
        self.lexeme@
    }

    /// The lexeme of the token, as a string.
    pub closed spec fn lexeme_string(&self) -> String {
        self.lexeme
    }

    /// A copy of the token, of the same kind where cloning a `Symbol` is exact.
    pub(crate) fn copy(&self) -> (t: Self)
        ensures
            t.spec_lexeme() == self.spec_lexeme(),
            crate::data::clones_exactly::<Symbol>() ==> t.spec_kind() == self.spec_kind(),
    {
        let kind = match &self.kind {
            Some(k) => {
                let c = k.clone();
                proof {
                    if crate::data::clones_exactly::<Symbol>() {
                        assert(cloned(*k, c));
                    }
                }
                Some(c)
            },
            None => None,
        };
        Token { kind, lexeme: self.lexeme.clone() }
    }

    /// A token of kind `kind` scanned from `lexeme`.
    pub fn leaf(kind: Symbol, lexeme: String) -> (t: Self)
        ensures
            t.spec_kind() == Some(kind),
            t.spec_lexeme() == lexeme@,
    {
        Self { kind: Some(kind), lexeme }
    }

    /// A token of kind `kind` with an empty lexeme.
    pub fn interior(kind: Symbol) -> (t: Self)
        ensures
            t.spec_kind() == Some(kind),
            t.spec_lexeme() == Seq::<char>::empty(),
    {
        Self { kind: Some(kind), lexeme: String::new() }
    }

    /// The null token, with no kind and lexeme `NULL`.
    pub fn null() -> (t: Self)
        ensures
            t.spec_kind() is None,
            t.spec_lexeme() == seq!['N', 'U', 'L', 'L'],
    {
        let lexeme = String::from_str("NULL");
        proof {
            reveal_strlit("NULL");
        }
        Self { kind: None, lexeme }
    }

    /// Returns true if the token is null (has no kind).
    pub fn is_null(&self) -> (b: bool)
        ensures
            b == self.spec_kind() is None,
    {
        self.kind.is_none()
    }

    /// Returns the kind of a non-null token.
    pub fn kind(&self) -> (k: &Symbol)
        requires
            self.spec_kind() is Some,
        ensures
            Some(*k) == self.spec_kind(),
    {
        self.kind.as_ref().unwrap()
    }

    /// Returns the kind of the token, or `None` if it is null.
    pub fn kind_opt(&self) -> (k: &Option<Symbol>)
        ensures
            *k == self.spec_kind(),
    {
        &self.kind
    }

    /// Returns the lexeme of the token.
    pub fn lexeme(&self) -> (l: &String)
        ensures
            l@ == self.spec_lexeme(),
            *l == self.lexeme_string(),
    {
        &self.lexeme
    }

    /// Returns the lexeme with newlines, tabs and carriage returns escaped.
    pub fn lexeme_escaped(&self) -> (l: String)
        ensures
            l@ == escape(self.spec_lexeme()),
    {
        escape_string(&self.lexeme)
    }
}

impl<Symbol: Data> Data for Token<Symbol> {
    /// The token as `KIND <- 'LEXEME'`, with the lexeme escaped (just ` <- 'LEXEME'` for a null
    /// token).
    open spec fn rendered(&self) -> Seq<char> {
        let kind = match self.spec_kind() {
            Some(k) => k.rendered(),
            None => Seq::empty(),
        };
        kind + " <- '"@ + escape(self.spec_lexeme()) + "'"@
    }

    open spec fn renders_exactly() -> bool {
        Symbol::renders_exactly()
    }

    /// Renders the token as `KIND <- 'LEXEME'`, with the lexeme escaped (just ` <- 'LEXEME'`
    /// for a null token).
    fn to_string(&self) -> (r: String)
    {
        let mut s = match &self.kind {
            None => String::new(),
            Some(kind) => kind.to_string(),
        };
        let ghost kind = s@;
        s.append(" <- '");
        let escaped = self.lexeme_escaped();
        s.append(escaped.as_str());
        s.append("'");
        assert(s@ == kind + " <- '"@ + escape(self.spec_lexeme()) + "'"@);
        proof {
            if self.spec_kind() is None {
                assert(kind + " <- '"@ =~= " <- '"@);
            }
        }
        s
    }
}

/// Error: an error encountered while lexing.
#[derive(Debug)]
pub enum Error {
    /// No accepting tokens could be scanned at some point of the input.
    UnacceptedErr(UnacceptedError),
    /// A character outside the lexer alphabet was consumed.
    AlphabetErr(char),
}

/// Unaccepted Error: details of the input at which lexing failed: the next few characters of
/// input (`sequence`), and the `line` and `character` at which they start.
#[derive(Debug)]
pub struct UnacceptedError {
    pub sequence: String,
    pub character: usize,
    pub line: usize,
}

/// Whether `m` describes the lexing error `e`: where lexing found no accepting token (the line
/// and character rendered in decimal) and the input there, or the character outside the
/// alphabet.
pub open spec fn lex_message(e: Error, m: Seq<char>) -> bool {
    match e {
        Error::UnacceptedErr(err) => exists|line: String, character: String|
            vstd::string::to_string_from_display_ensures::<usize>(&err.line, line)
                && vstd::string::to_string_from_display_ensures::<usize>(&err.character, character)
                && m == "No accepting tokens after ("@ + line@ + ","@ + character@ + "): "@
                + err.sequence@ + "..."@,
        Error::AlphabetErr(c) => m == "Consuming character outside lexer alphabet: '"@ + seq![c]
            + "'"@,
    }
}

impl Error {
    /// Returns a description of the error: where lexing found no accepting token and the input
    /// there, or the character outside the alphabet.
    pub fn message(&self) -> (m: String)
        ensures
            lex_message(*self, m@),
    {
        match self {
            Error::UnacceptedErr(err) => {
                let mut m = String::from_str("No accepting tokens after (");
                let line = std::string::ToString::to_string(&err.line);
                m.append(line.as_str());
                m.append(",");
                let character = std::string::ToString::to_string(&err.character);
                m.append(character.as_str());
                m.append("): ");
                m.append(err.sequence.as_str());
                m.append("...");
                assert(vstd::string::to_string_from_display_ensures::<usize>(&err.line, line)
                    && vstd::string::to_string_from_display_ensures::<usize>(&err.character, character)
                    && m@ == "No accepting tokens after ("@ + line@ + ","@ + character@ + "): "@
                    + err.sequence@ + "..."@);
                m
            },
            Error::AlphabetErr(c) => {
                let mut m = String::from_str("Consuming character outside lexer alphabet: '");
                let ghost start = m@;
                push_char(&mut m, *c);
                m.append("'");
                assert(m@ =~= start + seq![*c] + "'"@);
                m
            },
        }
    }
}

} // verus!
