use vstd::prelude::*;
use crate::data::lemma_usize_exact;
use crate::fmt::Formatter;
use crate::lex::ecdfa::EncodedCDFA;
use crate::lex::longest_match::{lex_finishes, lex_outcome_matches, lex_spec, token_pairs, LexFailure};
use crate::lex::{self, Lexer};
use crate::parse::grammar::{EncodedGrammar, EncodedGrammarBuilder, Grammar};
use crate::parse::{self, keeps_tokens, tree_leaves, Parser, Tree};
use crate::spec::{self, gen_message, generate_spec, lexemes_short, parse_message, parse_spec, produced};
use crate::text::chars_of;

verus! {

/// Spec Runner: the lexer automaton, grammar and formatter generated from one specification,
/// which together format text of the specified language.
pub struct SpecRunner {
    cdfa: EncodedCDFA<usize>,
    grammar: EncodedGrammar<String>,
    formatter: Formatter<usize>,
}

impl SpecRunner {
    /// The outcome of lexing `input` with the runner's automaton.
    pub closed spec fn lexed(&self, input: Seq<char>) -> Result<Seq<(Option<usize>, Seq<char>)>, LexFailure> {
        lex_spec(&self.cdfa, input)
    }

    /// Whether lexing `input` with the runner's automaton comes to an end.
    pub closed spec fn lexing_ends(&self, input: Seq<char>) -> bool {
        lex_finishes(&self.cdfa, input)
    }

    /// The formatted text of parse tree `tree` under the runner's formatter.
    pub closed spec fn formatted(&self, tree: Tree<usize>) -> Seq<char> {
        self.formatter.formatted(tree)
    }

    /// The token kinds that the runner's grammar ignores.
    pub closed spec fn ignored(&self) -> Set<usize> {
        self.grammar.ignorable_set()
    }

    /// Whether parses under the runner's grammar are weighed: where it ignores or injects some
    /// token kind.
    pub closed spec fn weighs_parses(&self) -> bool {
        parse::grammar::weighs_parses(&self.grammar)
    }

    /// Whether the runner's grammar starts at `symbol`.
    pub closed spec fn starts_at(&self, symbol: usize) -> bool {
        self.grammar.start_symbol() == symbol
    }

    /// Whether every terminal of the runner's grammar is a token kind of its automaton.
    pub closed spec fn terminals_lexed(&self) -> bool {
        forall|s: usize| #[trigger] self.grammar.terminal_set().contains(s) ==> produced(self.cdfa.token_kinds(), s)
    }

    /// Builds the runner of specification text `spec`: parses it, then generates its automaton,
    /// grammar and formatter. Fails with the description of the parse or generation error.
    pub fn build(spec: &str) -> (res: Result<SpecRunner, String>)
        requires
            spec@.len() + 2 < usize::MAX,
        ensures
            res matches Ok(r) ==> r.terminals_lexed(),
            res matches Err(m) ==> (exists|e: spec::ParseError| #[trigger] parse_message(e, m@))
                || (exists|e: spec::GenError| #[trigger] gen_message(e, m@)) || m@
                == "Specification lexeme too long"@,
    {
        let parse = match parse_spec(spec) {
            Ok(tree) => tree,
            Err(e) => {
                let m = e.message();
                return Err(m);
            },
        };
        if !lexemes_short(&parse) {
            return Err(String::from_str("Specification lexeme too long"));
        }
        proof {
            lemma_usize_exact();
        }
        match generate_spec(&parse, EncodedGrammarBuilder::new()) {
            Ok((cdfa, grammar, formatter)) => Ok(SpecRunner { cdfa, grammar, formatter }),
            Err(e) => {
                let m = e.message();
                Err(m)
            },
        }
    }

    /// Lexes `text` with the runner's automaton, parses the tokens with its grammar, and formats
    /// the parse tree. Fails with `Failed to lex input: ` and the lexing error where lexing
    /// fails, and with `Failed to parse input: ` and the parse error where parsing fails.
    pub fn format_text(&self, text: &str) -> (res: Result<String, String>)
        requires
            text@.len() + 2 < usize::MAX,
            self.lexing_ends(text@),
        ensures
            self.lexed(text@) matches Err(f) ==> res matches Err(m) && exists|e: lex::Error, lm: Seq<char>|
                lex_outcome_matches::<usize>(Err(e), Err(f)) && #[trigger] lex::lex_message(e, lm) && m@
                == "Failed to lex input: "@ + lm,
            res matches Ok(s) ==> self.lexed(text@) is Ok && exists|t: Tree<usize>|
                #[trigger] self.formatted(t) == s@ && keeps_tokens(
                    token_pairs(tree_leaves(t)),
                    self.lexed(text@)->Ok_0,
                    self.ignored(),
                ) && (!self.weighs_parses() ==> (t.lhs.spec_kind() matches Some(k) && self.starts_at(k))),
            self.lexed(text@) matches Ok(tokens) ==> match res {
                Err(m) => exists|pm: Seq<char>|
                    #[trigger] parse::parse_failure(pm, tokens.len()) && m@ == "Failed to parse input: "@ + pm,
                Ok(_) => true,
            },
    {
        proof {
            lemma_usize_exact();
        }
        let chars = chars_of(text);
        let tokens = match lex::def_lexer().lex(chars.as_slice(), &self.cdfa) {
            Ok(tokens) => {
                proof {
                    assert(self.lexed(text@) is Ok);
                }
                tokens
            },
            Err(e) => {
                let mut m = String::from_str("Failed to lex input: ");
                let em = e.message();
                m.append(em.as_str());
                return Err(m);
            },
        };
        match parse::def_parser().parse(tokens, &self.grammar) {
            Ok(tree) => {
                let s = self.formatter.format(&tree);
                proof {
                    assert(self.formatted(tree) == s@);
                    assert(keeps_tokens(token_pairs(tree_leaves(tree)), self.lexed(text@)->Ok_0, self.ignored()));
                }
                Ok(s)
            },
            Err(e) => {
                let mut m = String::from_str("Failed to parse input: ");
                m.append(e.message.as_str());
                proof {
                    assert(parse::parse_failure(e.message@, self.lexed(text@)->Ok_0.len()));
                }
                Err(m)
            },
        }
    }
}

} // verus!
