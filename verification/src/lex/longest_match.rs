use vstd::prelude::*;
use crate::data::Data;
use crate::lex::{self, CDFA, Error, Lexer, Token, TransitionResult, FAIL_SEQUENCE_LENGTH};
use crate::parse::grammar::GrammarSymbol;
use crate::text::{push_char, string_from_range};
use vstd::std_specs::cmp::PartialEqSpec;

verus! {

/// The suffix of slice `s` from position `start`.
pub(crate) fn slice_from<T>(s: &[T], start: usize) -> (r: &[T])
    requires
        start <= s@.len(),
    ensures
        r@ == s@.skip(start as int),
{
    let r = vstd::slice::slice_subrange(s, start, s.len());
    assert(r@ =~= s@.skip(start as int));
    r
}

/// Longest Match Lexer: lexer which greedily consumes input, producing the longest possible
/// tokens.
pub struct LongestMatchLexer;

/// The failure modes of a lex.
pub enum LexFailure {
    /// A character outside the CDFA alphabet was consumed.
    Alphabet(char),
    /// No accepting scan exists at some point of the input: the next characters of input, and
    /// the line and character at which they start.
    Unaccepted(Seq<char>, int, int),
}

/// The state of a single-token scan after its last accepting point: the input consumed up to
/// that point, the accepted state, the state to start the next scan from, and the line and
/// character reached.
pub struct ScanState<State> {
    pub consumed: int,
    pub end_state: Option<State>,
    pub next_start: Option<State>,
    pub line: int,
    pub character: int,
}

/// The line and character reached from (`line`, `character`) after reading `chars`: each
/// character advances the character count, and a newline moves to character 1 of the next line.
pub open spec fn advance_position(line: int, character: int, chars: Seq<char>) -> (int, int)
    decreases chars.len(),
{
    if chars.len() == 0 {
        (line, character)
    } else {
        let (l, c) = advance_position(line, character, chars.drop_last());
        if chars.last() == '\n' {
            (l + 1, 1)
        } else {
            (l, c + 1)
        }
    }
}

/// The first character of `chars` outside the alphabet of `cdfa`, if any.
pub open spec fn first_foreign<State: Data, Symbol: GrammarSymbol, C: CDFA<State, Symbol>>(
    cdfa: &C,
    chars: Seq<char>,
) -> Option<char>
    decreases chars.len(),
{
    if chars.len() == 0 {
        None
    } else {
        match first_foreign(cdfa, chars.drop_last()) {
            Some(c) => Some(c),
            None => if cdfa.spec_alphabet_contains(chars.last()) {
                None
            } else {
                Some(chars.last())
            },
        }
    }
}

/// Scanning a single token: from `state`, having consumed `off` characters of `input` since the
/// scan began, transitions are taken on the remaining input until none applies; the scan ends
/// with the most recent accepting point `last`. `None` when more than `fuel` transitions are
/// needed.
pub open spec fn scan_steps<State: Data, Symbol: GrammarSymbol, C: CDFA<State, Symbol>>(
    cdfa: &C,
    input: Seq<char>,
    state: State,
    off: int,
    line: int,
    character: int,
    last: ScanState<State>,
    fuel: nat,
) -> Option<Result<ScanState<State>, LexFailure>>
    decreases fuel,
{
    if fuel == 0 {
        None
    } else {
        match cdfa.spec_transition(state, input.skip(off)) {
            TransitionResult::Fail => Some(Ok(last)),
            TransitionResult::Pass(d) => {
                if off + d.consumed > input.len() {
                    Some(Ok(last))
                } else {
                    let chars = input.subrange(off, off + d.consumed);
                    match first_foreign(cdfa, chars) {
                        Some(c) => Some(Err(LexFailure::Alphabet(c))),
                        None => {
                            let (l, ch) = advance_position(line, character, chars);
                            let next_last = if cdfa.spec_accepts(d.state) {
                                ScanState {
                                    consumed: off + d.consumed,
                                    end_state: Some(d.state),
                                    next_start: match d.acceptor_destination {
                                        Some(a) => Some(a),
                                        None => cdfa.spec_default_acceptor_destination(d.state),
                                    },
                                    line: l,
                                    character: ch,
                                }
                            } else {
                                last
                            };
                            scan_steps(
                                cdfa,
                                input,
                                d.state,
                                off + d.consumed,
                                l,
                                ch,
                                next_last,
                                (fuel - 1) as nat,
                            )
                        },
                    }
                }
            },
        }
    }
}

/// The accepting point at the very start of a scan from `start`: `start` itself, when it is
/// accepting and has an acceptor destination other than itself.
pub open spec fn initial_scan_state<State: Data, Symbol: GrammarSymbol, C: CDFA<State, Symbol>>(
    cdfa: &C,
    start: State,
    line: int,
    character: int,
) -> ScanState<State> {
    let next_start = cdfa.spec_default_acceptor_destination(start);
    ScanState {
        consumed: 0,
        end_state: match next_start {
            Some(accd) => if cdfa.spec_accepts(start) && !start.eq_spec(&accd) {
                Some(start)
            } else {
                None
            },
            None => None,
        },
        next_start,
        line,
        character,
    }
}

/// The tokens lexed from position `pos` of `input`, starting the next scan in `start` at
/// (`line`, `character`), as `(kind, lexeme)` pairs. `None` when some scan needs more than
/// `fuel` transitions, or more than `fuel` scans are needed.
pub open spec fn lex_steps<State: Data, Symbol: GrammarSymbol, C: CDFA<State, Symbol>>(
    cdfa: &C,
    input: Seq<char>,
    pos: int,
    start: State,
    line: int,
    character: int,
    fuel: nat,
) -> Option<Result<Seq<(Option<Symbol>, Seq<char>)>, LexFailure>>
    decreases fuel,
{
    if fuel == 0 {
        None
    } else {
        let rest = input.skip(pos);
        match scan_steps(
            cdfa,
            rest,
            start,
            0,
            line,
            character,
            initial_scan_state(cdfa, start, line, character),
            fuel,
        ) {
            None => None,
            Some(Err(e)) => Some(Err(e)),
            Some(Ok(r)) => {
                let next = match r.next_start {
                    Some(s) => s,
                    None => start,
                };
                match r.end_state {
                    None => if rest.len() > 0 {
                        Some(
                            Err(
                                LexFailure::Unaccepted(
                                    rest.take(
                                        if rest.len() < FAIL_SEQUENCE_LENGTH {
                                            rest.len() as int
                                        } else {
                                            FAIL_SEQUENCE_LENGTH as int
                                        },
                                    ),
                                    r.line,
                                    r.character,
                                ),
                            ),
                        )
                    } else {
                        Some(Ok(Seq::empty()))
                    },
                    Some(s) => {
                        let tail = lex_steps(
                            cdfa,
                            input,
                            pos + r.consumed,
                            next,
                            r.line,
                            r.character,
                            (fuel - 1) as nat,
                        );
                        match cdfa.spec_tokenize(s) {
                            Some(kind) => prepend_tokens(
                                seq![(Some(kind), rest.take(r.consumed))],
                                tail,
                            ),
                            None => tail,
                        }
                    },
                }
            },
        }
    }
}

/// Prefixes the tokens of a successful outcome with `tokens`.
pub open spec fn prepend_tokens<Symbol>(
    tokens: Seq<(Option<Symbol>, Seq<char>)>,
    outcome: Option<Result<Seq<(Option<Symbol>, Seq<char>)>, LexFailure>>,
) -> Option<Result<Seq<(Option<Symbol>, Seq<char>)>, LexFailure>> {
    match outcome {
        Some(Ok(v)) => Some(Ok(tokens + v)),
        other => other,
    }
}

/// Prefixing tokens in two steps is prefixing their concatenation.
proof fn lemma_prepend_twice<Symbol>(
    a: Seq<(Option<Symbol>, Seq<char>)>,
    b: Seq<(Option<Symbol>, Seq<char>)>,
    outcome: Option<Result<Seq<(Option<Symbol>, Seq<char>)>, LexFailure>>,
)
    ensures
        prepend_tokens(a, prepend_tokens(b, outcome)) == prepend_tokens(a + b, outcome),
{
    if let Some(Ok(v)) = outcome {
        assert(a + (b + v) =~= (a + b) + v);
    }
}

/// Lexing `input` with `cdfa` finishes: some finite number of steps suffices.
pub open spec fn lex_finishes<State: Data, Symbol: GrammarSymbol, C: CDFA<State, Symbol>>(
    cdfa: &C,
    input: Seq<char>,
) -> bool {
    exists|fuel: nat| #[trigger] lex_steps(cdfa, input, 0, cdfa.spec_start(), 1, 1, fuel) is Some
}

/// A number of steps sufficient to lex `input` with `cdfa`.
pub open spec fn lex_fuel<State: Data, Symbol: GrammarSymbol, C: CDFA<State, Symbol>>(
    cdfa: &C,
    input: Seq<char>,
) -> nat {
    choose|fuel: nat| #[trigger] lex_steps(cdfa, input, 0, cdfa.spec_start(), 1, 1, fuel) is Some
}

/// The outcome of lexing `input` with `cdfa`: the tokens, as `(kind, lexeme)` pairs, scanned
/// by repeatedly taking the longest accepted prefix of the remaining input from the current
/// start state, or the reason lexing fails.
pub open spec fn lex_spec<State: Data, Symbol: GrammarSymbol, C: CDFA<State, Symbol>>(
    cdfa: &C,
    input: Seq<char>,
) -> Result<Seq<(Option<Symbol>, Seq<char>)>, LexFailure> {
    lex_steps(cdfa, input, 0, cdfa.spec_start(), 1, 1, lex_fuel(cdfa, input)).unwrap()
}

/// Whether every transition of `cdfa` on an input of at most `usize::MAX` characters consumes
/// some input.
pub open spec fn transitions_consume<State: Data, Symbol: GrammarSymbol, C: CDFA<State, Symbol>>(
    cdfa: &C,
) -> bool {
    forall|s: State, w: Seq<char>|
        w.len() <= usize::MAX ==> (#[trigger] cdfa.spec_transition(s, w) matches TransitionResult::Pass(
            d,
        ) ==> d.consumed >= 1)
}

/// Whether no state of `cdfa` has a default acceptor destination.
pub open spec fn no_default_destinations<State: Data, Symbol: GrammarSymbol, C: CDFA<State, Symbol>>(
    cdfa: &C,
) -> bool {
    forall|s: State| #[trigger] cdfa.spec_default_acceptor_destination(s) is None
}

/// A scan on a CDFA whose transitions all consume input needs no more transitions than there
/// are characters left; it ends at its initial accepting point `last`, or at a later one
/// within the input.
proof fn lemma_scan_finishes<State: Data, Symbol: GrammarSymbol, C: CDFA<State, Symbol>>(
    cdfa: &C,
    input: Seq<char>,
    state: State,
    off: int,
    line: int,
    character: int,
    last: ScanState<State>,
    fuel: nat,
)
    requires
        transitions_consume(cdfa),
        input.len() <= usize::MAX,
        0 <= off <= input.len(),
        fuel > input.len() - off,
    ensures
        scan_steps(cdfa, input, state, off, line, character, last, fuel) is Some,
        scan_steps(cdfa, input, state, off, line, character, last, fuel) matches Some(Ok(r)) ==> (
        r == last || (r.end_state is Some && off < r.consumed <= input.len())),
    decreases fuel,
{
    let t = cdfa.spec_transition(state, input.skip(off));
    assert(input.skip(off).len() <= usize::MAX);
    match t {
        TransitionResult::Fail => {},
        TransitionResult::Pass(d) => {
            assert(d.consumed >= 1);
            if off + d.consumed <= input.len() {
                let chars = input.subrange(off, off + d.consumed);
                if first_foreign(cdfa, chars) is None {
                    let (l, ch) = advance_position(line, character, chars);
                    let next_last = if cdfa.spec_accepts(d.state) {
                        ScanState {
                            consumed: off + d.consumed,
                            end_state: Some(d.state),
                            next_start: match d.acceptor_destination {
                                Some(a) => Some(a),
                                None => cdfa.spec_default_acceptor_destination(d.state),
                            },
                            line: l,
                            character: ch,
                        }
                    } else {
                        last
                    };
                    lemma_scan_finishes(
                        cdfa,
                        input,
                        d.state,
                        off + d.consumed,
                        l,
                        ch,
                        next_last,
                        (fuel - 1) as nat,
                    );
                }
            }
        },
    }
}

/// Lexing from position `pos` on a CDFA whose transitions all consume input, and whose states
/// have no default acceptor destinations, needs no more steps than there are characters left.
proof fn lemma_lex_steps_finish<State: Data, Symbol: GrammarSymbol, C: CDFA<State, Symbol>>(
    cdfa: &C,
    input: Seq<char>,
    pos: int,
    start: State,
    line: int,
    character: int,
    fuel: nat,
)
    requires
        transitions_consume(cdfa),
        no_default_destinations(cdfa),
        input.len() <= usize::MAX,
        0 <= pos <= input.len(),
        fuel > input.len() - pos,
    ensures
        lex_steps(cdfa, input, pos, start, line, character, fuel) is Some,
    decreases fuel,
{
    let rest = input.skip(pos);
    let init = initial_scan_state(cdfa, start, line, character);
    assert(cdfa.spec_default_acceptor_destination(start) is None);
    lemma_scan_finishes(cdfa, rest, start, 0, line, character, init, fuel);
    match scan_steps(cdfa, rest, start, 0, line, character, init, fuel) {
        Some(Ok(r)) => {
            match r.end_state {
                Some(s) => {
                    let next = match r.next_start {
                        Some(x) => x,
                        None => start,
                    };
                    lemma_lex_steps_finish(
                        cdfa,
                        input,
                        pos + r.consumed,
                        next,
                        r.line,
                        r.character,
                        (fuel - 1) as nat,
                    );
                },
                None => {},
            }
        },
        _ => {},
    }
}

/// Lexing terminates on every input (of at most `usize::MAX` characters) with a CDFA whose
/// transitions all consume input and whose states have no default acceptor destinations.
pub proof fn law_consuming_lex_finishes<State: Data, Symbol: GrammarSymbol, C: CDFA<State, Symbol>>(
    cdfa: &C,
    input: Seq<char>,
)
    requires
        transitions_consume(cdfa),
        no_default_destinations(cdfa),
        input.len() <= usize::MAX,
    ensures
        lex_finishes(cdfa, input),
{
    let fuel = (input.len() + 1) as nat;
    lemma_lex_steps_finish(cdfa, input, 0, cdfa.spec_start(), 1, 1, fuel);
    assert(lex_steps(cdfa, input, 0, cdfa.spec_start(), 1, 1, fuel) is Some);
}

/// Whether no transition of `cdfa` carries an acceptor destination of its own.
pub open spec fn transitions_without_destinations<
    State: Data,
    Symbol: GrammarSymbol,
    C: CDFA<State, Symbol>,
>(cdfa: &C) -> bool {
    forall|s: State, w: Seq<char>| #[trigger]
        cdfa.spec_transition(s, w) matches TransitionResult::Pass(d) ==> d.acceptor_destination
            is None
}

/// Whether `state` accepts, with a default acceptor destination other than itself: a scan
/// starting there accepts without consuming input.
pub open spec fn zero_acceptor<State: Data, Symbol: GrammarSymbol, C: CDFA<State, Symbol>>(
    cdfa: &C,
    state: State,
) -> bool {
    &&& cdfa.spec_accepts(state)
    &&& cdfa.spec_default_acceptor_destination(state) matches Some(d) && !state.eq_spec(&d)
}

/// Whether a scan may start in `state`: it is the start state, or the default acceptor
/// destination of some state.
pub open spec fn can_start<State: Data, Symbol: GrammarSymbol, C: CDFA<State, Symbol>>(
    cdfa: &C,
    state: State,
) -> bool {
    state == cdfa.spec_start() || exists|t: State| #[trigger]
        cdfa.spec_default_acceptor_destination(t) == Some(state)
}

/// Whether every scan that starts in a state accepting without consuming input continues from
/// a state that does not.
pub open spec fn zero_acceptances_settle<State: Data, Symbol: GrammarSymbol, C: CDFA<State, Symbol>>(
    cdfa: &C,
) -> bool {
    forall|s: State|
        can_start(cdfa, s) && #[trigger] zero_acceptor(cdfa, s) ==> !zero_acceptor(
            cdfa,
            cdfa.spec_default_acceptor_destination(s)->0,
        )
}

/// A scan on a CDFA whose transitions all consume input and carry no acceptor destinations
/// needs no more transitions than there are characters left; it ends at its initial accepting
/// point `last`, or at a later one within the input, from which the next scan starts in a
/// default acceptor destination, if anywhere.
proof fn lemma_scan_ends<State: Data, Symbol: GrammarSymbol, C: CDFA<State, Symbol>>(
    cdfa: &C,
    input: Seq<char>,
    state: State,
    off: int,
    line: int,
    character: int,
    last: ScanState<State>,
    fuel: nat,
)
    requires
        transitions_consume(cdfa),
        transitions_without_destinations(cdfa),
        input.len() <= usize::MAX,
        0 <= off <= input.len(),
        fuel > input.len() - off,
    ensures
        scan_steps(cdfa, input, state, off, line, character, last, fuel) is Some,
        scan_steps(cdfa, input, state, off, line, character, last, fuel) matches Some(Ok(r)) ==> (
        r == last || (r.end_state is Some && off < r.consumed <= input.len() && (
        r.next_start matches Some(x) ==> exists|t: State| #[trigger]
            cdfa.spec_default_acceptor_destination(t) == Some(x)))),
    decreases fuel,
{
    let t = cdfa.spec_transition(state, input.skip(off));
    assert(input.skip(off).len() <= usize::MAX);
    match t {
        TransitionResult::Fail => {},
        TransitionResult::Pass(d) => {
            assert(d.consumed >= 1);
            assert(d.acceptor_destination is None);
            if off + d.consumed <= input.len() {
                let chars = input.subrange(off, off + d.consumed);
                if first_foreign(cdfa, chars) is None {
                    let (l, ch) = advance_position(line, character, chars);
                    let next_last = if cdfa.spec_accepts(d.state) {
                        ScanState {
                            consumed: off + d.consumed,
                            end_state: Some(d.state),
                            next_start: match d.acceptor_destination {
                                Some(a) => Some(a),
                                None => cdfa.spec_default_acceptor_destination(d.state),
                            },
                            line: l,
                            character: ch,
                        }
                    } else {
                        last
                    };
                    lemma_scan_ends(
                        cdfa,
                        input,
                        d.state,
                        off + d.consumed,
                        l,
                        ch,
                        next_last,
                        (fuel - 1) as nat,
                    );
                }
            }
        },
    }
}

/// Lexing from position `pos`, starting a scan in `start`, finishes within twice as many steps
/// as there are characters left (plus a step to leave a state accepting without consuming).
proof fn lemma_lex_steps_settle<State: Data, Symbol: GrammarSymbol, C: CDFA<State, Symbol>>(
    cdfa: &C,
    input: Seq<char>,
    pos: int,
    start: State,
    line: int,
    character: int,
    fuel: nat,
)
    requires
        transitions_consume(cdfa),
        transitions_without_destinations(cdfa),
        zero_acceptances_settle(cdfa),
        can_start(cdfa, start),
        input.len() <= usize::MAX,
        0 <= pos <= input.len(),
        fuel >= 2 * (input.len() - pos) + if zero_acceptor(cdfa, start) {
            2int
        } else {
            1int
        },
    ensures
        lex_steps(cdfa, input, pos, start, line, character, fuel) is Some,
    decreases fuel,
{
    let rest = input.skip(pos);
    let init = initial_scan_state(cdfa, start, line, character);
    lemma_scan_ends(cdfa, rest, start, 0, line, character, init, fuel);
    match scan_steps(cdfa, rest, start, 0, line, character, init, fuel) {
        Some(Ok(r)) => {
            match r.end_state {
                Some(s) => {
                    let next = match r.next_start {
                        Some(x) => x,
                        None => start,
                    };
                    if r == init {
                        assert(zero_acceptor(cdfa, start));
                        assert(!zero_acceptor(cdfa, next));
                        assert(cdfa.spec_default_acceptor_destination(start) == Some(next));
                        assert(can_start(cdfa, next));
                    } else {
                        assert(can_start(cdfa, next));
                    }
                    lemma_lex_steps_settle(
                        cdfa,
                        input,
                        pos + r.consumed,
                        next,
                        r.line,
                        r.character,
                        (fuel - 1) as nat,
                    );
                },
                None => {},
            }
        },
        _ => {},
    }
}

/// Lexing terminates on every input (of at most `usize::MAX` characters) with a CDFA whose
/// transitions all consume input and carry no acceptor destinations, and where each scan that
/// accepts without consuming input continues from a state that does not.
pub proof fn law_settled_lex_finishes<State: Data, Symbol: GrammarSymbol, C: CDFA<State, Symbol>>(
    cdfa: &C,
    input: Seq<char>,
)
    requires
        transitions_consume(cdfa),
        transitions_without_destinations(cdfa),
        zero_acceptances_settle(cdfa),
        input.len() <= usize::MAX,
    ensures
        lex_finishes(cdfa, input),
{
    let fuel = (2 * input.len() + 2) as nat;
    lemma_lex_steps_settle(cdfa, input, 0, cdfa.spec_start(), 1, 1, fuel);
    assert(lex_steps(cdfa, input, 0, cdfa.spec_start(), 1, 1, fuel) is Some);
}

/// The `(kind, lexeme)` pairs of a sequence of tokens.
pub open spec fn token_pairs<Symbol: Data>(tokens: Seq<Token<Symbol>>) -> Seq<
    (Option<Symbol>, Seq<char>),
> {
    tokens.map_values(|t: Token<Symbol>| (t.spec_kind(), t.spec_lexeme()))
}

/// The outcome of a lex call agrees with the specified outcome.
pub open spec fn lex_outcome_matches<Symbol: Data>(
    res: Result<Vec<Token<Symbol>>, Error>,
    expected: Result<Seq<(Option<Symbol>, Seq<char>)>, LexFailure>,
) -> bool {
    match (res, expected) {
        (Ok(tokens), Ok(pairs)) => token_pairs(tokens@) == pairs,
        (Err(Error::AlphabetErr(c)), Err(LexFailure::Alphabet(d))) => c == d,
        (Err(Error::UnacceptedErr(e)), Err(LexFailure::Unaccepted(seq, line, character))) => {
            &&& e.sequence@ == seq
            &&& e.line == line
            &&& e.character == character
        },
        _ => false,
    }
}

/// The scan state recorded by `scan_one` for an accepting point.
pub open spec fn scan_state_of<State>(t: (usize, Option<State>, Option<State>, usize, usize)) -> ScanState<State> {
    ScanState {
        consumed: t.0 as int,
        end_state: t.1,
        next_start: t.2,
        line: t.3 as int,
        character: t.4 as int,
    }
}

/// The outcome of a single-token scan agrees with the specified outcome, and stays within the
/// scanned input.
pub open spec fn scan_outcome_matches<State>(
    res: Result<(usize, Option<State>, Option<State>, usize, usize), Error>,
    expected: Result<ScanState<State>, LexFailure>,
    len: int,
    line: int,
    character: int,
) -> bool {
    match res {
        Ok(t) => {
            &&& expected matches Ok(r) && scan_state_of(t) == r
            &&& t.0 <= len
            &&& t.3 <= line + t.0
            &&& t.4 <= character + t.0
        },
        Err(Error::AlphabetErr(x)) => expected matches Err(LexFailure::Alphabet(y)) && x == y,
        Err(Error::UnacceptedErr(_)) => false,
    }
}

/// Scan a single token from the head of `input`, starting in `start` at (`line`,
/// `character`). Lexing is performed by iteratively reading input and traversing the CDFA.
/// Once the input is exhausted or no transition exists, the input up to the most recently
/// accepting state in the CDFA is consumed.
///
/// Returns the consumed length, the accepted state, the next start state, and the line and
/// character after the accepted input.
fn scan_one<State: Data + Copy, Symbol: GrammarSymbol, C: CDFA<State, Symbol>>(
    input: &[char],
    start: State,
    line: usize,
    character: usize,
    cdfa: &C,
    Ghost(fuel): Ghost<nat>,
) -> (res: Result<(usize, Option<State>, Option<State>, usize, usize), lex::Error>)
    requires
        State::obeys_eq_spec(),
        line + input@.len() < usize::MAX,
        character + input@.len() < usize::MAX,
        scan_steps(
            cdfa,
            input@,
            start,
            0,
            line as int,
            character as int,
            initial_scan_state(cdfa, start, line as int, character as int),
            fuel,
        ) is Some,
    ensures
        scan_outcome_matches(
            res,
            scan_steps(
                cdfa,
                input@,
                start,
                0,
                line as int,
                character as int,
                initial_scan_state(cdfa, start, line as int, character as int),
                fuel,
            ).unwrap(),
            input@.len() as int,
            line as int,
            character as int,
        ),
{
    let ghost line0 = line as int;
    let ghost char0 = character as int;
    let ghost total = scan_steps(
        cdfa,
        input@,
        start,
        0,
        line as int,
        character as int,
        initial_scan_state(cdfa, start, line as int, character as int),
        fuel,
    );
    let input_len = input.len();
    let mut off: usize = 0;
    let mut state: State = start;
    let mut cur_line: usize = line;
    let mut cur_char: usize = character;

    let next_start = cdfa.default_acceptor_destination(&state);

    // If the start state has an acceptor destination, remember it.
    let end_state = match next_start {
        Some(accd) => {
            if cdfa.accepts(&state) && state != accd {
                Some(state)
            } else {
                None
            }
        },
        None => None,
    };
    let mut last: (usize, Option<State>, Option<State>, usize, usize) = (
        0,
        end_state,
        next_start,
        cur_line,
        cur_char,
    );
    let ghost mut f = fuel;
    assert(scan_state_of(last) == initial_scan_state(cdfa, start, (line as int), (character as int)));

    loop
        invariant
            total == scan_steps(
                cdfa,
                input@,
                start,
                0,
                line as int,
                character as int,
                initial_scan_state(cdfa, start, line as int, character as int),
                fuel,
            ),
            input_len == input@.len(),
            off <= input@.len(),
            cur_line <= (line as int) + off,
            cur_char <= (character as int) + off,
            last.0 <= off,
            last.3 <= (line as int) + last.0,
            last.4 <= (character as int) + last.0,
            (line as int) + input@.len() < usize::MAX,
            (character as int) + input@.len() < usize::MAX,
            total is Some,
            total == scan_steps(
                cdfa,
                input@,
                state,
                off as int,
                cur_line as int,
                cur_char as int,
                scan_state_of(last),
                f,
            ),
        decreases f,
    {
        assert(f > 0);
        let remaining = slice_from(input, off);
        let res = cdfa.transition(&state, remaining);
        match res {
            TransitionResult::Fail => {
                assert(total == Some(Ok::<ScanState<State>, LexFailure>(scan_state_of(last))));
                assert(scan_outcome_matches(Ok(last), total.unwrap(), input@.len() as int, (line as int), (character as int)));
                return Ok(last);
            },
            TransitionResult::Pass(dest) => {
                assert(off + dest.consumed <= input@.len());
                let ghost chars = input@.subrange(off as int, off + dest.consumed);
                let ghost line_before = cur_line as int;
                let ghost char_before = cur_char as int;
                let ghost step = cdfa.spec_transition(state, input@.skip(off as int));
                assert(remaining@ == input@.skip(off as int));
                let mut j: usize = 0;
                while j < dest.consumed
                    invariant
                        total == scan_steps(
                            cdfa,
                            input@,
                            start,
                            0,
                            line as int,
                            character as int,
                            initial_scan_state(cdfa, start, line as int, character as int),
                            fuel,
                        ),
                        total == scan_steps(
                            cdfa,
                            input@,
                            state,
                            off as int,
                            line_before,
                            char_before,
                            scan_state_of(last),
                            f,
                        ),
                        f > 0,
                        step == cdfa.spec_transition(state, input@.skip(off as int)),
                        step matches TransitionResult::Pass(d) && d.consumed == dest.consumed,
                        input_len == input@.len(),
                        off + dest.consumed <= input@.len(),
                        chars == input@.subrange(off as int, off + dest.consumed),
                        j <= dest.consumed,
                        (line as int) + input@.len() < usize::MAX,
                        (character as int) + input@.len() < usize::MAX,
                        line_before <= (line as int) + off,
                        char_before <= (character as int) + off,
                        (cur_line as int, cur_char as int) == advance_position(
                            line_before,
                            char_before,
                            chars.take(j as int),
                        ),
                        cur_line <= line_before + j,
                        cur_char <= char_before + j,
                        first_foreign(cdfa, chars.take(j as int)) is None,
                    decreases dest.consumed - j,
                {
                    let c = input[off + j];
                    assert(chars.take(j + 1).drop_last() =~= chars.take(j as int));
                    assert(chars.take(j + 1).last() == c);
                    // Update calculation of current character and line.
                    cur_char += 1;
                    if c == '\n' {
                        cur_line += 1;
                        cur_char = 1;
                    }
                    // Error out if we see an unexpected character.
                    if !cdfa.alphabet_contains(c) {
                        proof {
                            assert(first_foreign(cdfa, chars.take(j + 1)) == Some(c));
                            lemma_first_foreign_prefix(cdfa, chars, j as int + 1);
                        }
                        return Err(Error::AlphabetErr(c));
                    }
                    j += 1;
                }
                assert(chars.take(j as int) =~= chars);
                off = off + dest.consumed;
                // If the current state is accepting, remember it.
                if cdfa.accepts(&dest.state) {
                    let next = match dest.acceptor_destination {
                        Some(destination) => Some(destination),
                        None => cdfa.default_acceptor_destination(&dest.state),
                    };
                    last = (off, Some(dest.state), next, cur_line, cur_char);
                }
                state = dest.state;
                proof {
                    f = (f - 1) as nat;
                }
            },
        }
    }
}

/// A foreign character in a prefix of `chars` is the first foreign character of `chars`.
proof fn lemma_first_foreign_prefix<State: Data, Symbol: GrammarSymbol, C: CDFA<State, Symbol>>(
    cdfa: &C,
    chars: Seq<char>,
    k: int,
)
    requires
        0 <= k <= chars.len(),
        first_foreign(cdfa, chars.take(k)) is Some,
    ensures
        first_foreign(cdfa, chars) == first_foreign(cdfa, chars.take(k)),
    decreases chars.len(),
{
    if k < chars.len() {
        assert(chars.drop_last().take(k) =~= chars.take(k));
        lemma_first_foreign_prefix(cdfa, chars.drop_last(), k);
    } else {
        assert(chars.take(k) =~= chars);
    }
}

impl<State: Data + Copy, Symbol: GrammarSymbol> Lexer<State, Symbol> for LongestMatchLexer {
    fn lex<C: CDFA<State, Symbol>>(&self, input: &[char], cdfa: &C) -> (res: Result<
        Vec<Token<Symbol>>,
        Error,
    >) {
        let ghost fuel = lex_fuel(cdfa, input@);
        let ghost total = lex_steps(cdfa, input@, 0, cdfa.spec_start(), 1, 1, fuel);
        let input_len = input.len();
        let mut pos: usize = 0;
        let mut tokens: Vec<Token<Symbol>> = Vec::new();
        let mut next_start = cdfa.start();
        let mut line: usize = 1;
        let mut character: usize = 1;
        let ghost mut f = fuel;
        assert(token_pairs(tokens@) =~= Seq::<(Option<Symbol>, Seq<char>)>::empty());
        assert(total == prepend_tokens(Seq::empty(), total));

        loop
            invariant
                fuel == lex_fuel(cdfa, input@),
                total == lex_steps(cdfa, input@, 0, cdfa.spec_start(), 1, 1, fuel),
                State::obeys_eq_spec(),
                crate::data::clones_exactly::<Symbol>(),
                input_len == input@.len(),
                input@.len() + 2 < usize::MAX,
                pos <= input@.len(),
                line <= 1 + pos,
                character <= 1 + pos,
                total is Some,
                forall|i: int| 0 <= i < tokens@.len() ==> (#[trigger] tokens@[i]).spec_kind() is Some,
                total == prepend_tokens(
                    token_pairs(tokens@),
                    lex_steps(cdfa, input@, pos as int, next_start, line as int, character as int, f),
                ),
            decreases f,
        {
            let ghost step = lex_steps(cdfa, input@, pos as int, next_start, line as int, character as int, f);
            assert(step is Some);
            assert(f > 0);
            let remaining = slice_from(input, pos);
            assert(remaining@ == input@.skip(pos as int));
            // Scan a single token.
            let scanned = scan_one(remaining, next_start, line, character, cdfa, Ghost(f));
            let ghost scan_spec = scan_steps(
                cdfa,
                remaining@,
                next_start,
                0,
                line as int,
                character as int,
                initial_scan_state(cdfa, next_start, line as int, character as int),
                f,
            );
            let (consumed, end_state, scanned_next, scanned_line, scanned_char) = match scanned {
                Ok(t) => t,
                Err(e) => {
                    assert(scan_spec matches Some(Err(LexFailure::Alphabet(_))));
                    assert(step matches Some(Err(LexFailure::Alphabet(_))));
                    return Err(e);
                },
            };
            let previous_start = next_start;
            next_start = match scanned_next {
                None => next_start,
                Some(state) => state,
            };
            line = scanned_line;
            character = scanned_char;
            match end_state {
                None => {
                    // If more input remains after a failed token scan, return a lexing error.
                    if pos < input.len() {
                        let mut sequence = String::new();
                        let mut i: usize = 0;
                        while i < FAIL_SEQUENCE_LENGTH && pos + i < input.len()
                            invariant
                                input_len == input@.len(),
                                pos < input@.len(),
                                i <= FAIL_SEQUENCE_LENGTH,
                                pos + i <= input@.len(),
                                sequence@ == remaining@.take(i as int),
                                remaining@ == input@.skip(pos as int),
                            decreases FAIL_SEQUENCE_LENGTH - i,
                        {
                            push_char(&mut sequence, input[pos + i]);
                            i += 1;
                            assert(sequence@ =~= remaining@.take(i as int));
                        }
                        return Err(Error::UnacceptedErr(lex::UnacceptedError { sequence, line, character }));
                    }
                    assert(token_pairs(tokens@) + Seq::<(Option<Symbol>, Seq<char>)>::empty() =~= token_pairs(tokens@));
                    return Ok(tokens);
                },
                Some(state) => {
                    // Scanning succeeded, tokenize the consumed input and continue.
                    let ghost before = token_pairs(tokens@);
                    let ghost tail = lex_steps(
                        cdfa,
                        input@,
                        pos + consumed,
                        next_start,
                        line as int,
                        character as int,
                        (f - 1) as nat,
                    );
                    if let Some(kind) = cdfa.tokenize(&state) {
                        let lexeme = string_from_range(input, pos, pos + consumed);
                        tokens.push(Token::leaf(kind, lexeme));
                        proof {
                            assert(input@.subrange(pos as int, pos + consumed) =~= remaining@.take(consumed as int));
                            assert(token_pairs(tokens@) =~= before + seq![(Some(kind), remaining@.take(consumed as int))]);
                            assert(step == prepend_tokens(seq![(Some(kind), remaining@.take(consumed as int))], tail));
                            lemma_prepend_twice(before, seq![(Some(kind), remaining@.take(consumed as int))], tail);
                        }
                    } else {
                        assert(step == tail);
                    }
                },
            }
            pos = pos + consumed;
            proof {
                f = (f - 1) as nat;
            }
        }
    }
}

} // verus!
