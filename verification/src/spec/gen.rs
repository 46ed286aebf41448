use vstd::prelude::*;
use crate::fmt::{Formatter, FormatterBuilder, InjectableString, InjectionAffinity, PatternPair};
use crate::lex::ecdfa::{EncodedCDFA, EncodedCDFABuilder};
use crate::lex::{CDFABuilder, ConsumerStrategy, Transit, TransitBuilder};
use crate::data::{clones_exactly, eq_exact, value_exact};
use crate::parse::grammar::{Grammar, GrammarBuilder, GrammarSymbol};
use crate::parse::{lemma_child_smaller, tree_size, Production, ProductionSymbol, Tree};
use crate::spec::lang::SpecSymbol;
use crate::spec::region::{
    self, has_region_type, lemma_listed_types, region_nodes, region_type_of, regions_shaped, RegionType,
};
use crate::spec::{lemma_short_child, malformed, produced, short_lexemes, GenError, DEF_MATCHER};
use crate::text::{chars_of, lemma_unescape_len, replace_escapes, strip_ends, text_is, trim, trim_char, unescape};

verus! {

/// Whether the CDFA builder `cdfa` is well formed and every state can take `room` more range
/// transitions.
spec fn ready<Symbol: GrammarSymbol>(cdfa: EncodedCDFABuilder<String, Symbol>, room: u64) -> bool {
    cdfa.well_formed() && cdfa.range_room(room as nat)
}

/// Returns the child at `i` of `node`, or an error if it has no such child.
fn child(node: &Tree<SpecSymbol>, i: usize) -> (r: Result<&Tree<SpecSymbol>, GenError>)
    ensures
        r is Ok <==> i < node.children@.len(),
        r matches Ok(c) ==> *c == node.children@[i as int],
        r matches Err(e) ==> e is MalformedErr,
{
    if i < node.children.len() {
        Ok(node.get_child(i))
    } else {
        Err(malformed())
    }
}

/// Returns the last child of `node`, or an error if it has none.
fn last_child(node: &Tree<SpecSymbol>) -> (r: Result<&Tree<SpecSymbol>, GenError>)
    ensures
        r is Ok <==> node.children@.len() > 0,
        r matches Ok(c) ==> *c == node.children@[node.children@.len() - 1],
        r matches Err(e) ==> e is MalformedErr,
{
    if node.children.len() > 0 {
        Ok(node.get_child(node.children.len() - 1))
    } else {
        Err(malformed())
    }
}

/// The characters of each string of `strings`.
spec fn lexemes_of(strings: Seq<&String>) -> Seq<Seq<char>> {
    strings.map_values(|s: &String| s@)
}

/// Whether each node of the chain of targets nodes from `node` has a last child.
spec fn targets_well_formed<Symbol: GrammarSymbol>(node: Tree<Symbol>) -> bool
    decreases tree_size(node),
{
    if node.children@.len() == 0 {
        false
    } else if node.children@.len() == 3 {
        proof {
            lemma_child_smaller(node, 0);
        }
        targets_well_formed(node.children@[0])
    } else {
        true
    }
}

/// The lexemes of the targets of the chain of targets nodes from `node`: the last child of
/// each node, from `node` down.
spec fn target_lexemes<Symbol: GrammarSymbol>(node: Tree<Symbol>) -> Seq<Seq<char>>
    decreases tree_size(node),
{
    if node.children@.len() == 0 {
        Seq::empty()
    } else if node.children@.len() == 3 {
        proof {
            lemma_child_smaller(node, 0);
        }
        seq![node.children@.last().lhs.spec_lexeme()] + target_lexemes(node.children@[0])
    } else {
        seq![node.children@.last().lhs.spec_lexeme()]
    }
}

/// The characters of the symbol of each production symbol of `symbols`.
spec fn symbols_of(symbols: Seq<ProductionSymbol<String>>) -> Seq<Seq<char>> {
    symbols.map_values(|p: ProductionSymbol<String>| p.symbol@)
}

/// The symbols named by the chain of identifier nodes from `node`, first first, if it is well
/// formed: an identifier of kind `id_kind` names itself, and one of kind `opt_kind` names the
/// optional state of the identifier between its brackets; an empty node names none.
spec fn ids_symbols<Symbol: GrammarSymbol>(node: Tree<Symbol>, id_kind: Symbol, opt_kind: Symbol) -> Option<
    Seq<Seq<char>>,
>
    decreases tree_size(node),
{
    if node.children@.len() == 1 && node.children@[0].lhs.spec_kind() is None {
        Some(Seq::empty())
    } else if node.children@.len() == 0 {
        None
    } else {
        proof {
            lemma_child_smaller(node, 0);
        }
        match ids_symbols(node.children@[0], id_kind, opt_kind) {
            None => None,
            Some(prefix) => if node.children@.len() < 2 {
                None
            } else {
                let id = node.children@[1].lhs;
                if id.spec_kind() == Some(id_kind) {
                    Some(prefix.push(id.spec_lexeme()))
                } else if id.spec_kind() == Some(opt_kind) && id.spec_lexeme().len() >= 2 {
                    Some(
                        prefix.push(
                            "opt#"@ + id.spec_lexeme().subrange(1, id.spec_lexeme().len() - 1),
                        ),
                    )
                } else {
                    None
                }
            },
        }
    }
}

/// Whether `node` is empty: a single child of no kind.
spec fn empty_node<Symbol: GrammarSymbol>(node: Tree<Symbol>) -> bool {
    node.children@.len() == 1 && node.children@[0].lhs.spec_kind() is None
}

/// Returns the child at `i` of `node` unless it is empty (a single null child), or an error if
/// `node` has no such child.
fn opt_child(node: &Tree<SpecSymbol>, i: usize) -> (r: Result<Option<&Tree<SpecSymbol>>, GenError>)
    ensures
        r is Ok <==> i < node.children@.len(),
        r matches Ok(Some(c)) ==> *c == node.children@[i as int] && !empty_node(*c),
        r matches Ok(None) ==> empty_node(node.children@[i as int]),
        r matches Err(e) ==> e is MalformedErr,
{
    let c = child(node, i)?;
    if c.is_empty() {
        Ok(None)
    } else {
        Ok(Some(c))
    }
}

/// Adds the transition `transit` on `on` out of `source`.
fn add_trans<Symbol: GrammarSymbol>(
    cdfa: &mut EncodedCDFABuilder<String, Symbol>,
    source: &String,
    transit: Transit<String>,
    on: char,
) -> (r: Result<(), GenError>)
    requires
        old(cdfa).well_formed(),
    ensures
        r matches Err(e) ==> e is CDFAErr,
        final(cdfa).well_formed(),
        forall|n: nat| #[trigger] old(cdfa).range_room(n) ==> final(cdfa).range_room(n),
        EncodedCDFABuilder::mark_trans_effect(*old(cdfa), *final(cdfa), *source, transit, on, r is Ok),
{
    match cdfa.mark_trans(source, transit, on) {
        Ok(_) => Ok(()),
        Err(e) => Err(GenError::CDFAErr(e)),
    }
}

/// Adds the chain transition `transit` on the characters of `on` out of `source`.
fn add_chain<Symbol: GrammarSymbol>(
    cdfa: &mut EncodedCDFABuilder<String, Symbol>,
    source: &String,
    transit: Transit<String>,
    on: &str,
) -> (r: Result<(), GenError>)
    requires
        old(cdfa).well_formed(),
    ensures
        r matches Err(e) ==> e is CDFAErr,
        final(cdfa).well_formed(),
        forall|n: nat| #[trigger] old(cdfa).range_room(n) ==> final(cdfa).range_room(n),
        EncodedCDFABuilder::mark_chain_effect(*old(cdfa), *final(cdfa), *source, transit, on@, r is Ok),
{
    match cdfa.mark_chain(source, transit, on) {
        Ok(_) => Ok(()),
        Err(e) => Err(GenError::CDFAErr(e)),
    }
}

/// Adds the default transition `transit` out of `source`.
fn add_default<Symbol: GrammarSymbol>(
    cdfa: &mut EncodedCDFABuilder<String, Symbol>,
    source: &String,
    transit: Transit<String>,
) -> (r: Result<(), GenError>)
    requires
        old(cdfa).well_formed(),
    ensures
        r matches Err(e) ==> e is CDFAErr,
        final(cdfa).well_formed(),
        forall|n: nat| #[trigger] old(cdfa).range_room(n) ==> final(cdfa).range_room(n),
        EncodedCDFABuilder::default_to_effect(*old(cdfa), *final(cdfa), *source, transit, r is Ok),
{
    match cdfa.default_to(source, transit) {
        Ok(_) => Ok(()),
        Err(e) => Err(GenError::CDFAErr(e)),
    }
}

/// Builds a specification from its parse tree `parse`, with `grammar_builder` building its
/// grammar: traverses the regions of the specification, builds the ECDFA, the grammar and the
/// formatter, and checks that every terminal of the grammar is tokenized by the ECDFA.
pub(crate) fn generate_spec<Symbol: GrammarSymbol, G: Grammar<Symbol>, B: GrammarBuilder<String, Symbol, G>>(
    parse: &Tree<SpecSymbol>,
    grammar_builder: B,
) -> (res: Result<(EncodedCDFA<Symbol>, G, Formatter<Symbol>), GenError>)
    requires
        short_lexemes(*parse),
    ensures
        res is Ok ==> parse.children@.len() > 0 && regions_shaped(parse.children@[0])
            && has_region_type(region_nodes(parse.children@[0]), RegionType::CDFA) && has_region_type(
            region_nodes(parse.children@[0]),
            RegionType::Grammar,
        ),
        res matches Err(GenError::RegionErr(region::Error::MissingRequired(t))) ==> parse.children@.len()
            > 0 && regions_shaped(parse.children@[0]) && !has_region_type(
            region_nodes(parse.children@[0]),
            t,
        ),
        res matches Ok((cdfa, grammar, _)) ==> (value_exact::<Symbol>() ==> forall|s: Symbol| #[trigger]
            grammar.terminal_set().contains(s) ==> produced(cdfa.token_kinds(), s)),
{
    let mut grammar_builder = grammar_builder;
    let mut ecdfa_builder: EncodedCDFABuilder<String, Symbol> = EncodedCDFABuilder::new();
    let mut formatter_builder: FormatterBuilder<Symbol> = FormatterBuilder::new();
    let mut room: u64 = 4294967293;
    let regions_node = child(parse, 0)?;
    proof {
        lemma_short_child(*parse, 0);
    }
    traverse_spec_regions(
        regions_node,
        &mut ecdfa_builder,
        &mut grammar_builder,
        &mut formatter_builder,
        &mut room,
    )?;
    let ecdfa = match ecdfa_builder.build() {
        Ok(cdfa) => cdfa,
        Err(e) => return Err(GenError::CDFAErr(e)),
    };
    let grammar = match grammar_builder.build() {
        Ok(g) => g,
        Err(e) => return Err(GenError::GrammarBuildErr(e)),
    };
    orphan_check(&ecdfa, &grammar)?;
    Ok((ecdfa, grammar, formatter_builder.build()))
}

/// Traverses the regions under `regions_node`, leftmost first, adding what each defines to the
/// builders; then checks that the required regions are present.
fn traverse_spec_regions<Symbol: GrammarSymbol, G, B: GrammarBuilder<String, Symbol, G>>(
    regions_node: &Tree<SpecSymbol>,
    cdfa: &mut EncodedCDFABuilder<String, Symbol>,
    grammar: &mut B,
    formatter: &mut FormatterBuilder<Symbol>,
    room: &mut u64,
) -> (r: Result<(), GenError>)
    requires
        old(formatter).memory_ok(),
        short_lexemes(*regions_node),
        ready(*old(cdfa), *old(room)),
    ensures
        final(formatter).memory_ok(),
        ready(*final(cdfa), *final(room)),
        r is Ok ==> regions_shaped(*regions_node) && has_region_type(
            region_nodes(*regions_node),
            RegionType::CDFA,
        ) && has_region_type(region_nodes(*regions_node), RegionType::Grammar),
        r matches Err(GenError::RegionErr(region::Error::MissingRequired(t))) ==> regions_shaped(
            *regions_node,
        ) && !has_region_type(region_nodes(*regions_node), t),
        r is Ok ==> (value_exact::<String>() ==> forall|j: int|
            0 <= j < region_nodes(*regions_node).len() && region_type_of(
                (#[trigger] region_nodes(*regions_node)[j]).children@[0].lhs.spec_kind(),
            ) == Some(RegionType::Ignorable) ==> final(grammar).marked_ignorable().contains(
                ignored_terminal(region_nodes(*regions_node)[j]),
            )),
{
    let regions = region::traverse(regions_node)?;
    let mut i: usize = 0;
    while i < regions.len()
        invariant
            i <= regions@.len(),
            ready(*cdfa, *room),
            formatter.memory_ok(),
            forall|j: int| 0 <= j < regions@.len() ==> short_lexemes(*(#[trigger] regions@[j]).0),
            value_exact::<String>() ==> forall|j: int|
                0 <= j < i && (#[trigger] regions@[j]).1 == RegionType::Ignorable ==> grammar.marked_ignorable().contains(
                    ignored_terminal(*regions@[j].0),
                ),
        decreases regions@.len() - i,
    {
        let ghost marked = grammar.marked_ignorable();
        let (region, region_type) = regions[i];
        proof {
            assert(short_lexemes(*regions@[i as int].0));
        }
        let inner = child(region, 0)?;
        proof {
            lemma_short_child(*region, 0);
        }
        match region_type {
            RegionType::Injectable => traverse_injectable_region(inner, grammar, formatter)?,
            RegionType::Ignorable => traverse_ignorable_region(inner, grammar)?,
            RegionType::Alphabet => traverse_alphabet_region(inner, cdfa)?,
            RegionType::CDFA => traverse_cdfa_region(inner, cdfa, grammar, room)?,
            RegionType::Grammar => traverse_grammar_region(inner, grammar, formatter)?,
        }
        proof {
            if value_exact::<String>() {
                assert(marked.subset_of(grammar.marked_ignorable()));
                assert forall|j: int|
                    0 <= j < i + 1 && (#[trigger] regions@[j]).1 == RegionType::Ignorable implies grammar.marked_ignorable().contains(
                        ignored_terminal(*regions@[j].0),
                    ) by {
                    if j < i {
                        assert(marked.contains(ignored_terminal(*regions@[j].0)));
                    }
                }
            }
        }
        i += 1;
    }
    let missing = region::missing_required(&regions);
    proof {
        lemma_listed_types(regions@, region_nodes(*regions_node), RegionType::CDFA);
        lemma_listed_types(regions@, region_nodes(*regions_node), RegionType::Grammar);
    }
    proof {
        if value_exact::<String>() {
            let nodes = region_nodes(*regions_node);
            assert forall|j: int|
                0 <= j < nodes.len() && region_type_of((#[trigger] nodes[j]).children@[0].lhs.spec_kind())
                    == Some(RegionType::Ignorable) implies grammar.marked_ignorable().contains(ignored_terminal(nodes[j])) by {
                assert(*regions@[j].0 == nodes[j]);
                assert(regions@[j].1 == RegionType::Ignorable);
            }
        }
    }
    match missing {
        Some(t) => Err(GenError::RegionErr(region::Error::MissingRequired(t))),
        None => Ok(()),
    }
}

/// Traverses an injectable region: marks its terminal injectable with its affinity in the
/// grammar, and adds the injection, with its pattern, to the formatter.
fn traverse_injectable_region<Symbol: GrammarSymbol, G, B: GrammarBuilder<String, Symbol, G>>(
    injectable_node: &Tree<SpecSymbol>,
    grammar: &mut B,
    formatter: &mut FormatterBuilder<Symbol>,
) -> (r: Result<(), GenError>)
    requires
        old(formatter).memory_ok(),
        short_lexemes(*injectable_node),
    ensures
        old(grammar).marked_ignorable().subset_of(final(grammar).marked_ignorable()),
        final(formatter).memory_ok(),
        r matches Err(e) ==> !(e is RegionErr),
        injectable_node.children@.len() <= 2 ==> (r matches Err(e) && e is MalformedErr),
        injectable_node.children@.len() > 2 && injectable_node.children@[1].lhs.spec_lexeme()
            != "left"@ && injectable_node.children@[1].lhs.spec_lexeme() != "right"@ ==> (r matches Err(
            e,
        ) && e is MalformedErr),
        injectable_node.children@.len() == 3 ==> (r matches Err(e) && e is MalformedErr),
{
    let terminal_string = child(injectable_node, 2)?.lhs.lexeme();
    let affinity_string = child(injectable_node, 1)?.lhs.lexeme();
    let affinity = if text_is(affinity_string.as_str(), "left") {
        InjectionAffinity::Left
    } else if text_is(affinity_string.as_str(), "right") {
        InjectionAffinity::Right
    } else {
        return Err(malformed());
    };
    grammar.mark_injectable(terminal_string, affinity);
    let pattern_string = match opt_child(injectable_node, 3)? {
        Some(patt_node) => {
            let pattc = child(patt_node, 0)?.lhs.lexeme();
            let trimmed = trim_char(pattc.as_str(), '`');
            let pattern = replace_escapes(trimmed.as_str());
            proof {
                lemma_short_child(*injectable_node, 3);
                lemma_short_child(*patt_node, 0);
                lemma_unescape_len(trimmed@);
            }
            Some(pattern)
        },
        None => None,
    };
    let terminal = grammar.kind_for(terminal_string);
    match formatter.add_injection(
        InjectableString {
            terminal,
            terminal_string: terminal_string.clone(),
            pattern_string,
            affinity,
        },
    ) {
        Ok(()) => Ok(()),
        Err(e) => Err(GenError::FormatterErr(e)),
    }
}

/// The terminal that the ignorable `Region` node `region` names.
pub open spec fn ignored_terminal<Sym: GrammarSymbol>(region: Tree<Sym>) -> String {
    region.children@[0].children@[1].lhs.lexeme_string()
}

/// Traverses an ignorable region: marks its terminal ignorable in the grammar.
fn traverse_ignorable_region<Symbol: GrammarSymbol, G, B: GrammarBuilder<String, Symbol, G>>(
    ignorable_node: &Tree<SpecSymbol>,
    grammar: &mut B,
) -> (r: Result<(), GenError>)
    ensures
        value_exact::<String>() ==> old(grammar).marked_ignorable().subset_of(final(grammar).marked_ignorable()),
        r is Ok <==> ignorable_node.children@.len() > 1,
        r matches Err(e) ==> e is MalformedErr,
        r is Err ==> *final(grammar) == *old(grammar),
        r is Ok ==> (value_exact::<String>() ==> final(grammar).marked_ignorable() == old(
            grammar,
        ).marked_ignorable().insert(ignorable_node.children@[1].lhs.lexeme_string())),
        old(grammar).buildable() ==> final(grammar).buildable(),
{
    let terminal = child(ignorable_node, 1)?.lhs.lexeme();
    grammar.mark_ignorable(terminal);
    Ok(())
}

/// Traverses an alphabet region: sets the alphabet of the CDFA to its unescaped characters.
fn traverse_alphabet_region<Symbol: GrammarSymbol>(
    alphabet_node: &Tree<SpecSymbol>,
    cdfa: &mut EncodedCDFABuilder<String, Symbol>,
) -> (r: Result<(), GenError>)
    requires
        old(cdfa).well_formed(),
    ensures
        r is Ok <==> alphabet_node.children@.len() > 1,
        r matches Err(e) ==> e is MalformedErr,
        final(cdfa).well_formed(),
        forall|n: nat| #[trigger] old(cdfa).range_room(n) ==> final(cdfa).range_room(n),
        r is Err ==> *final(cdfa) == *old(cdfa),
        r is Ok ==> final(cdfa).alphabet_chars() == Some(
            unescape(trim(alphabet_node.children@[1].lhs.spec_lexeme(), '\'')).to_set(),
        ),
        r is Ok ==> final(cdfa).codes() == old(cdfa).codes() && final(cdfa).tries() == old(
            cdfa,
        ).tries() && final(cdfa).accepting_states() == old(cdfa).accepting_states()
            && final(cdfa).token_kinds() == old(cdfa).token_kinds(),
{
    let escaped = trim_char(child(alphabet_node, 1)?.lhs.lexeme().as_str(), '\'');
    let alphabet = replace_escapes(escaped.as_str());
    cdfa.set_alphabet(alphabet.as_str());
    Ok(())
}

/// Traverses a CDFA region: adds the definitions of its states to the CDFA.
fn traverse_cdfa_region<Symbol: GrammarSymbol, G, B: GrammarBuilder<String, Symbol, G>>(
    cdfa_node: &Tree<SpecSymbol>,
    cdfa: &mut EncodedCDFABuilder<String, Symbol>,
    grammar: &mut B,
    room: &mut u64,
) -> (r: Result<(), GenError>)
    requires
        ready(*old(cdfa), *old(room)),
    ensures
        old(grammar).marked_ignorable().subset_of(final(grammar).marked_ignorable()),
        r matches Err(e) ==> !(e is RegionErr),
        ready(*final(cdfa), *final(room)),
        cdfa_node.children@.len() <= 2 ==> (r matches Err(e) && e is MalformedErr),
{
    generate_cdfa_states(child(cdfa_node, 2)?, cdfa, grammar, room)
}

/// Traverses a grammar region: adds its productions to the grammar and their patterns to the
/// formatter.
fn traverse_grammar_region<Symbol: GrammarSymbol, G, B: GrammarBuilder<String, Symbol, G>>(
    grammar_node: &Tree<SpecSymbol>,
    grammar: &mut B,
    formatter: &mut FormatterBuilder<Symbol>,
) -> (r: Result<(), GenError>)
    requires
        old(formatter).memory_ok(),
        short_lexemes(*grammar_node),
    ensures
        old(grammar).marked_ignorable().subset_of(final(grammar).marked_ignorable()),
        final(formatter).memory_ok(),
        r matches Err(e) ==> !(e is RegionErr),
        grammar_node.children@.len() <= 2 ==> (r matches Err(e) && e is MalformedErr),
{
    let prods_node = child(grammar_node, 2)?;
    proof {
        lemma_short_child(*grammar_node, 2);
    }
    generate_grammar_prods(prods_node, grammar, formatter)
}

/// Adds the state definitions under `states_node` to the CDFA, last definition first; the
/// head state of the first definition becomes the start state.
fn generate_cdfa_states<Symbol: GrammarSymbol, G, B: GrammarBuilder<String, Symbol, G>>(
    states_node: &Tree<SpecSymbol>,
    cdfa: &mut EncodedCDFABuilder<String, Symbol>,
    grammar: &mut B,
    room: &mut u64,
) -> (r: Result<(), GenError>)
    requires
        ready(*old(cdfa), *old(room)),
    ensures
        old(grammar).marked_ignorable().subset_of(final(grammar).marked_ignorable()),
        r matches Err(e) ==> !(e is RegionErr),
        ready(*final(cdfa), *final(room)),
    decreases tree_size(*states_node),
{
    let state_node = last_child(states_node)?;
    let sdec_node = child(state_node, 0)?;
    let targets_node = child(sdec_node, 0)?;
    let head_state = last_child(targets_node)?.lhs.lexeme();

    let mut states: Vec<&String> = Vec::new();
    states.push(head_state);
    if targets_node.children.len() == 3 {
        proof {
            lemma_child_smaller(*targets_node, 0);
        }
        generate_cdfa_targets(targets_node.get_child(0), &mut states)?;
    }

    if sdec_node.children.len() == 2 {
        let acceptor_node = sdec_node.get_child(1);
        let id_or_def_node = child(acceptor_node, 1)?;
        let token = child(id_or_def_node, 0)?.lhs.lexeme();
        let kind = grammar.kind_for(token);
        let mut i: usize = 0;
        while i < states.len()
            invariant
                i <= states@.len(),
                ready(*cdfa, *room),
                old(grammar).marked_ignorable().subset_of(grammar.marked_ignorable()),
            decreases states@.len() - i,
        {
            add_cdfa_state_tokenizer(acceptor_node, states[i], &kind, cdfa, grammar)?;
            i += 1;
        }
    }

    if let Some(trans_node) = opt_child(state_node, 1)? {
        generate_cdfa_trans(child(trans_node, 0)?, &states, cdfa, grammar, room)?;
    }

    if states_node.children.len() == 2 {
        proof {
            lemma_child_smaller(*states_node, 0);
        }
        generate_cdfa_states(states_node.get_child(0), cdfa, grammar, room)
    } else {
        cdfa.mark_start(head_state);
        Ok(())
    }
}

/// Adds the source states named under `targets_node` to `accumulator`, last name first.
fn generate_cdfa_targets<'t>(targets_node: &'t Tree<SpecSymbol>, accumulator: &mut Vec<&'t String>) -> (r:
    Result<(), GenError>)
    ensures
        r matches Err(e) ==> e is MalformedErr,
        r is Ok <==> targets_well_formed(*targets_node),
        r is Ok ==> lexemes_of(final(accumulator)@) == lexemes_of(old(accumulator)@) + target_lexemes(
            *targets_node,
        ),
    decreases tree_size(*targets_node),
{
    let ghost before = accumulator@;
    accumulator.push(last_child(targets_node)?.lhs.lexeme());
    proof {
        assert(lexemes_of(accumulator@) =~= lexemes_of(before).push(
            targets_node.children@.last().lhs.spec_lexeme(),
        ));
    }
    if targets_node.children.len() == 3 {
        proof {
            lemma_child_smaller(*targets_node, 0);
        }
        let r = generate_cdfa_targets(targets_node.get_child(0), accumulator);
        proof {
            if r is Ok {
                assert(lexemes_of(accumulator@) =~= lexemes_of(before) + target_lexemes(
                    *targets_node,
                ));
            }
        }
        r
    } else {
        proof {
            assert(lexemes_of(accumulator@) =~= lexemes_of(before) + target_lexemes(*targets_node));
        }
        Ok(())
    }
}

/// Adds the transitions under `trans_node` out of each state of `sources` to the CDFA, last
/// transition first.
fn generate_cdfa_trans<Symbol: GrammarSymbol, G, B: GrammarBuilder<String, Symbol, G>>(
    trans_node: &Tree<SpecSymbol>,
    sources: &Vec<&String>,
    cdfa: &mut EncodedCDFABuilder<String, Symbol>,
    grammar: &mut B,
    room: &mut u64,
) -> (r: Result<(), GenError>)
    requires
        ready(*old(cdfa), *old(room)),
    ensures
        old(grammar).marked_ignorable().subset_of(final(grammar).marked_ignorable()),
        r matches Err(e) ==> !(e is RegionErr),
        ready(*final(cdfa), *final(room)),
    decreases tree_size(*trans_node),
{
    let tran_node = last_child(trans_node)?;

    let destination = child(child(tran_node, 2)?, 0)?;
    let mut transit_builder = match destination.lhs.kind_opt() {
        Some(SpecSymbol::TId) => TransitBuilder::to(destination.lhs.lexeme().clone()),
        Some(SpecSymbol::Acceptor) => {
            let id_or_def_node = child(destination, 1)?;
            let dest = child(id_or_def_node, 0)?.lhs.lexeme();
            let mut transit_builder = TransitBuilder::to(dest.clone());

            cdfa.accept(dest);

            if let Some(accd_node) = opt_child(destination, 2)? {
                let acceptor_destination = child(accd_node, 1)?.lhs.lexeme();
                transit_builder.accept_to(acceptor_destination.clone());
            }

            if !text_is(dest.as_str(), DEF_MATCHER) {
                let kind = grammar.kind_for(dest);
                cdfa.tokenize(dest, &kind);
            }

            transit_builder
        },
        _ => return Err(malformed()),
    };

    let consumer = match child(child(tran_node, 1)?, 0)?.lhs.kind_opt() {
        Some(SpecSymbol::TArrow) => ConsumerStrategy::All,
        Some(SpecSymbol::TDoubleArrow) => ConsumerStrategy::Nothing,
        _ => return Err(malformed()),
    };
    transit_builder.consumer(consumer);

    let matcher = child(child(tran_node, 0)?, 0)?;
    match matcher.lhs.kind_opt() {
        Some(SpecSymbol::Matchers) => {
            generate_cdfa_mtcs(matcher, sources, &transit_builder, cdfa, room)?;
        },
        Some(SpecSymbol::TDef) => {
            let mut i: usize = 0;
            while i < sources.len()
                invariant
                    i <= sources@.len(),
                    ready(*cdfa, *room),
                    old(grammar).marked_ignorable().subset_of(grammar.marked_ignorable()),
                decreases sources@.len() - i,
            {
                add_default(cdfa, sources[i], transit_builder.build())?;
                i += 1;
            }
        },
        _ => return Err(malformed()),
    }

    if trans_node.children.len() == 2 {
        proof {
            lemma_child_smaller(*trans_node, 0);
        }
        generate_cdfa_trans(trans_node.get_child(0), sources, cdfa, grammar, room)
    } else {
        Ok(())
    }
}

/// Returns the unescaped text between the delimiters of the quoted matcher token `node`.
fn matcher_text(node: &Tree<SpecSymbol>) -> (r: Result<String, GenError>)
    ensures
        r is Ok <==> node.lhs.spec_lexeme().len() >= 2,
        r matches Ok(t) ==> t@ == unescape(
            node.lhs.spec_lexeme().subrange(1, node.lhs.spec_lexeme().len() - 1),
        ),
        r matches Err(e) ==> e is MalformedErr,
{
    match strip_ends(node.lhs.lexeme().as_str()) {
        Some(inner) => Ok(replace_escapes(inner.as_str())),
        None => Err(malformed()),
    }
}

/// Returns the single character of the bound `text` of a range matcher, or a matcher error
/// naming the bound (`which`) if it is not one character.
fn range_bound(text: &String, which: &str) -> (r: Result<char, GenError>)
    ensures
        text@.len() == 0 ==> r is Err,
        r matches Ok(c) ==> text@.len() > 0 && c == text@[0],
        r matches Err(e) ==> e matches GenError::MatcherErr(m) && m@ == "Range "@ + which@
            + " must be one character, but was '"@ + text@ + "'"@,
{
    let chars = chars_of(text.as_str());
    if text.as_str().len() > 1 || chars.len() == 0 {
        let mut m = String::from_str("Range ");
        m.append(which);
        m.append(" must be one character, but was '");
        m.append(text.as_str());
        m.append("'");
        return Err(GenError::MatcherErr(m));
    }
    Ok(chars[0])
}

/// Adds the transitions of the matchers under `mtcs_node` out of each state of `sources`, as
/// built by `transit_builder`, last matcher first.
fn generate_cdfa_mtcs<Symbol: GrammarSymbol>(
    mtcs_node: &Tree<SpecSymbol>,
    sources: &Vec<&String>,
    transit_builder: &TransitBuilder<String>,
    cdfa: &mut EncodedCDFABuilder<String, Symbol>,
    room: &mut u64,
) -> (r: Result<(), GenError>)
    requires
        ready(*old(cdfa), *old(room)),
    ensures
        r matches Err(e) ==> !(e is RegionErr),
        ready(*final(cdfa), *final(room)),
    decreases tree_size(*mtcs_node),
{
    let mtc_node = last_child(mtcs_node)?;

    if mtc_node.children.len() == 1 {
        let matcher = matcher_text(mtc_node.get_child(0))?;
        let chars = chars_of(matcher.as_str());
        let is_simple = matcher.as_str().len() == 1 && chars.len() > 0;
        let mut i: usize = 0;
        while i < sources.len()
            invariant
                i <= sources@.len(),
                ready(*cdfa, *room),
                is_simple ==> chars@.len() > 0,
            decreases sources@.len() - i,
        {
            if is_simple {
                add_trans(cdfa, sources[i], transit_builder.build(), chars[0])?;
            } else {
                add_chain(cdfa, sources[i], transit_builder.build(), matcher.as_str())?;
            }
            i += 1;
        }
    } else {
        let range_start_string = matcher_text(child(mtc_node, 0)?)?;
        let range_start = range_bound(&range_start_string, "start")?;
        let range_end_string = matcher_text(child(mtc_node, 2)?)?;
        let range_end = range_bound(&range_end_string, "end")?;

        let count = sources.len() as u64;
        if count > *room {
            return Err(
                GenError::MatcherErr(String::from_str("Too many range transitions out of a state")),
            );
        }
        let ghost before = *cdfa;
        let res = cdfa.mark_range_for_all(sources.as_slice(), transit_builder.build(), range_start, range_end);
        *room = *room - count;
        proof {
            assert(before.range_room((*room as nat) + sources@.len()));
        }
        match res {
            Ok(_) => {},
            Err(e) => return Err(GenError::CDFAErr(e)),
        }
    }

    if mtcs_node.children.len() == 3 {
        proof {
            lemma_child_smaller(*mtcs_node, 0);
        }
        generate_cdfa_mtcs(mtcs_node.get_child(0), sources, transit_builder, cdfa, room)
    } else {
        Ok(())
    }
}

/// Marks `state` accepting in the CDFA, with the acceptor destination of `acceptor_node` if it
/// has one, and tokenized to `kind` unless `kind` is the symbol of the default matcher.
fn add_cdfa_state_tokenizer<Symbol: GrammarSymbol, G, B: GrammarBuilder<String, Symbol, G>>(
    acceptor_node: &Tree<SpecSymbol>,
    state: &String,
    kind: &Symbol,
    cdfa: &mut EncodedCDFABuilder<String, Symbol>,
    grammar: &mut B,
) -> (r: Result<(), GenError>)
    requires
        old(cdfa).well_formed(),
    ensures
        old(grammar).marked_ignorable().subset_of(final(grammar).marked_ignorable()),
        r is Ok <==> acceptor_node.children@.len() > 2 && (empty_node(acceptor_node.children@[2])
            || acceptor_node.children@[2].children@.len() > 1),
        r matches Err(e) ==> e is MalformedErr,
        r is Err ==> *final(cdfa) == *old(cdfa),
        final(cdfa).well_formed(),
        forall|n: nat| #[trigger] old(cdfa).range_room(n) ==> final(cdfa).range_room(n),
{
    match opt_child(acceptor_node, 2)? {
        Some(accd_node) => {
            let acceptor_destination = child(accd_node, 1)?.lhs.lexeme();
            cdfa.accept_to(state, acceptor_destination);
        },
        None => {
            cdfa.accept(state);
        },
    }

    let def_kind = grammar.kind_for(&String::from_str(DEF_MATCHER));
    if *kind != def_kind {
        cdfa.tokenize(state, kind);
    }
    Ok(())
}

/// Adds the productions under `prods_node` to the grammar, and their patterns to the
/// formatter, first production first.
fn generate_grammar_prods<Symbol: GrammarSymbol, G, B: GrammarBuilder<String, Symbol, G>>(
    prods_node: &Tree<SpecSymbol>,
    grammar: &mut B,
    formatter: &mut FormatterBuilder<Symbol>,
) -> (r: Result<(), GenError>)
    requires
        old(formatter).memory_ok(),
        short_lexemes(*prods_node),
    ensures
        old(grammar).marked_ignorable().subset_of(final(grammar).marked_ignorable()),
        final(formatter).memory_ok(),
        r matches Err(e) ==> !(e is RegionErr),
    decreases tree_size(*prods_node),
{
    if prods_node.children.len() == 2 {
        proof {
            lemma_child_smaller(*prods_node, 0);
            lemma_short_child(*prods_node, 0);
        }
        generate_grammar_prods(prods_node.get_child(0), grammar, formatter)?;
    }

    let prod_node = last_child(prods_node)?;
    proof {
        lemma_short_child(*prods_node, prods_node.children@.len() - 1);
    }
    let id = child(prod_node, 0)?.lhs.lexeme();
    let def_pattern_node = child(prod_node, 1)?;
    let rhss_node = child(prod_node, 2)?;
    proof {
        lemma_short_child(*prod_node, 1);
        lemma_short_child(*prod_node, 2);
    }
    generate_grammar_rhss(rhss_node, id, def_pattern_node, grammar, formatter)
}

/// Adds the productions of `lhs` with the right-hand sides under `rhss_node` to the grammar,
/// last right-hand side first, and their patterns (or the default pattern of
/// `def_pattern_node`) to the formatter. The first production added marks the start symbol.
fn generate_grammar_rhss<Symbol: GrammarSymbol, G, B: GrammarBuilder<String, Symbol, G>>(
    rhss_node: &Tree<SpecSymbol>,
    lhs: &String,
    def_pattern_node: &Tree<SpecSymbol>,
    grammar: &mut B,
    formatter: &mut FormatterBuilder<Symbol>,
) -> (r: Result<(), GenError>)
    requires
        old(formatter).memory_ok(),
        short_lexemes(*rhss_node),
        short_lexemes(*def_pattern_node),
    ensures
        old(grammar).marked_ignorable().subset_of(final(grammar).marked_ignorable()),
        final(formatter).memory_ok(),
        r matches Err(e) ==> !(e is RegionErr),
    decreases tree_size(*rhss_node),
{
    let rhs_node = last_child(rhss_node)?;
    proof {
        lemma_short_child(*rhss_node, rhss_node.children@.len() - 1);
    }

    let mut ids: Vec<ProductionSymbol<String>> = Vec::new();
    generate_grammar_ids(child(rhs_node, 1)?, &mut ids, grammar)?;

    grammar.try_mark_start(lhs);

    let production = grammar.add_production(Production::from(lhs.clone(), copy_rhs(&ids)));
    let string_production = Production::from(lhs.clone(), ids);

    let mut pattopt_node = child(rhs_node, 2)?;
    proof {
        lemma_short_child(*rhs_node, 2);
    }
    if pattopt_node.is_empty() {
        pattopt_node = def_pattern_node;
    }

    if !pattopt_node.is_empty() {
        let pattc = child(pattopt_node, 0)?.lhs.lexeme();
        proof {
            lemma_short_child(*pattopt_node, 0);
        }
        let pattern = trim_char(pattc.as_str(), '`');
        match formatter.add_pattern(PatternPair { production, string_production, pattern }) {
            Ok(()) => {},
            Err(e) => return Err(GenError::FormatterErr(e)),
        }
    }

    if rhss_node.children.len() == 2 {
        proof {
            lemma_child_smaller(*rhss_node, 0);
            lemma_short_child(*rhss_node, 0);
        }
        generate_grammar_rhss(rhss_node.get_child(0), lhs, def_pattern_node, grammar, formatter)?;
    }

    Ok(())
}

/// Returns a copy of the production symbols `rhs`.
fn copy_rhs(rhs: &Vec<ProductionSymbol<String>>) -> (r: Vec<ProductionSymbol<String>>)
    ensures
        r@ == rhs@,
{
    let mut r: Vec<ProductionSymbol<String>> = Vec::new();
    let mut i: usize = 0;
    while i < rhs.len()
        invariant
            i <= rhs@.len(),
            r@ == rhs@.take(i as int),
        decreases rhs@.len() - i,
    {
        let s = &rhs[i];
        r.push(ProductionSymbol { symbol: s.symbol.clone(), is_list: s.is_list });
        i += 1;
        assert(r@ =~= rhs@.take(i as int));
    }
    assert(rhs@.take(rhs@.len() as int) =~= rhs@);
    r
}

/// Adds the production symbols of the identifiers under `ids_node` to `ids_accumulator`, first
/// identifier first; an optional identifier `[x]` becomes a hidden optional symbol `opt#x`,
/// added to the grammar as deriving `x` or nothing.
fn generate_grammar_ids<Symbol: GrammarSymbol, G, B: GrammarBuilder<String, Symbol, G>>(
    ids_node: &Tree<SpecSymbol>,
    ids_accumulator: &mut Vec<ProductionSymbol<String>>,
    grammar: &mut B,
) -> (r: Result<(), GenError>)
    ensures
        old(grammar).marked_ignorable().subset_of(final(grammar).marked_ignorable()),
        r matches Err(e) ==> e is MalformedErr,
        r is Ok <==> ids_symbols(*ids_node, SpecSymbol::TId, SpecSymbol::TOptId) is Some,
        r is Ok ==> symbols_of(final(ids_accumulator)@) == symbols_of(old(ids_accumulator)@)
            + ids_symbols(*ids_node, SpecSymbol::TId, SpecSymbol::TOptId)->0,
        r is Ok ==> forall|j: int|
            old(ids_accumulator)@.len() <= j < final(ids_accumulator)@.len() ==> !(
            #[trigger] final(ids_accumulator)@[j]).is_list,
        r is Ok ==> forall|j: int|
            0 <= j < old(ids_accumulator)@.len() ==> final(ids_accumulator)@[j] == old(
                ids_accumulator,
            )@[j],
    decreases tree_size(*ids_node),
{
    let ghost before = ids_accumulator@;
    if ids_node.is_empty() {
        proof {
            assert(symbols_of(ids_accumulator@) =~= symbols_of(before) + Seq::<Seq<char>>::empty());
        }
        return Ok(());
    }

    proof {
        if ids_node.children@.len() > 0 {
            lemma_child_smaller(*ids_node, 0);
        }
    }
    generate_grammar_ids(child(ids_node, 0)?, ids_accumulator, grammar)?;

    let id_node = child(ids_node, 1)?;
    let symbol = match id_node.lhs.kind_opt() {
        Some(SpecSymbol::TId) => ProductionSymbol::symbol(id_node.lhs.lexeme().clone()),
        Some(SpecSymbol::TOptId) => {
            let dest = match strip_ends(id_node.lhs.lexeme().as_str()) {
                Some(d) => d,
                None => return Err(malformed()),
            };
            let mut opt_state = String::from_str("opt#");
            opt_state.append(dest.as_str());
            grammar.add_optional_state(&opt_state, &dest);
            ProductionSymbol::symbol(opt_state)
        },
        _ => return Err(malformed()),
    };

    let ghost mid = ids_accumulator@;
    ids_accumulator.push(symbol);
    proof {
        assert(symbols_of(ids_accumulator@) =~= symbols_of(mid).push(symbol.symbol@));
        assert(symbols_of(ids_accumulator@) =~= symbols_of(before) + ids_symbols(
            *ids_node,
            SpecSymbol::TId,
            SpecSymbol::TOptId,
        )->0);
    }
    Ok(())
}

/// Returns true if `symbol` is one of `symbols`.
fn holds_symbol<Symbol: GrammarSymbol>(symbols: &Vec<Symbol>, symbol: &Symbol) -> (b: bool)
    ensures
        eq_exact::<Symbol>() ==> b == symbols@.contains(*symbol),
{
    let mut i: usize = 0;
    while i < symbols.len()
        invariant
            i <= symbols@.len(),
            eq_exact::<Symbol>() ==> forall|j: int| 0 <= j < i ==> symbols@[j] != *symbol,
        decreases symbols@.len() - i,
    {
        if symbols[i] == *symbol {
            return true;
        }
        i += 1;
    }
    false
}

/// Returns an error if a terminal of `grammar` is not tokenized by `ecdfa`: such a terminal can
/// never be produced, which points to an error in the grammar or CDFA specification.
fn orphan_check<Symbol: GrammarSymbol, G: Grammar<Symbol>>(ecdfa: &EncodedCDFA<Symbol>, grammar: &G) -> (r:
    Result<(), GenError>)
    ensures
        value_exact::<Symbol>() ==> (r is Ok <==> forall|s: Symbol| #[trigger]
            grammar.terminal_set().contains(s) ==> produced(ecdfa.token_kinds(), s)),
        r matches Err(e) ==> e is MappingErr,
{
    let ghost kinds = ecdfa.token_kinds();
    let mut products: Vec<Symbol> = Vec::new();
    let mut it = ecdfa.produces();
    loop
        invariant_except_break
            0 <= it.position() <= it.slots().len(),
        invariant
            it.slots() == kinds,
            clones_exactly::<Symbol>() ==> forall|j: int| 0 <= j < products@.len() ==> produced(kinds, #[trigger] products@[j]),
            clones_exactly::<Symbol>() ==> forall|k: int| 0 <= k < it.position() && k < kinds.len() ==> (#[trigger] kinds[k] matches Some(v) ==> products@.contains(v)),
        ensures
            clones_exactly::<Symbol>() ==> forall|k: int| 0 <= k < kinds.len() ==> (#[trigger] kinds[k] matches Some(v) ==> products@.contains(v)),
        decreases it.slots().len() - it.position(),
    {
        let ghost pos = it.position();
        match it.next() {
            Some(product) => {
                let copy = product.clone();
                let ghost before = products@;
                proof {
                    if clones_exactly::<Symbol>() {
                        assert(cloned(*product, copy));
                        assert(kinds[it.position() - 1] == Some(copy));
                    }
                }
                products.push(copy);
                proof {
                    if clones_exactly::<Symbol>() {
                        assert(produced(kinds, products@[products@.len() - 1]));
                        assert forall|j: int| 0 <= j < products@.len() implies produced(kinds, #[trigger] products@[j]) by {
                            if j < before.len() {
                                assert(products@[j] == before[j]);
                            }
                        }
                        assert forall|k: int| 0 <= k < it.position() && k < kinds.len() implies (#[trigger] kinds[k] matches Some(v) ==> products@.contains(v)) by {
                            if k < pos {
                                if let Some(v) = kinds[k] {
                                    assert(before.contains(v));
                                    let j = choose|j: int| 0 <= j < before.len() && before[j] == v;
                                    assert(products@[j] == v);
                                }
                            } else if k == it.position() - 1 {
                                assert(products@[products@.len() - 1] == copy);
                            } else {
                                assert(kinds[k] is None);
                            }
                        }
                    }
                }
            },
            None => break,
        }
    }

    let terminals = grammar.terminals();
    let mut i: usize = 0;
    while i < terminals.len()
        invariant
            i <= terminals@.len(),
            kinds == ecdfa.token_kinds(),
            terminals@.to_set() == grammar.terminal_set(),
            value_exact::<Symbol>() ==> forall|j: int| 0 <= j < i ==> produced(kinds, #[trigger] terminals@[j]),
            clones_exactly::<Symbol>() ==> forall|j: int| 0 <= j < products@.len() ==> produced(kinds, #[trigger] products@[j]),
            clones_exactly::<Symbol>() ==> forall|k: int| 0 <= k < kinds.len() ==> (#[trigger] kinds[k] matches Some(v) ==> products@.contains(v)),
        decreases terminals@.len() - i,
    {
        let symbol = &terminals[i];
        if !holds_symbol(&products, symbol) {
            proof {
                if value_exact::<Symbol>() {
                    assert(terminals@[i as int] == *symbol);
                    assert(terminals@.contains(*symbol));
                    assert(grammar.terminal_set().contains(*symbol));
                    if produced(kinds, *symbol) {
                        let k = choose|k: int| 0 <= k < kinds.len() && kinds[k] == Some(*symbol);
                        assert(kinds[k] matches Some(v) ==> products@.contains(v));
                        assert(false);
                    }
                }
            }
            let mut m = String::from_str("Orphaned terminal '");
            let name = grammar.symbol_string(symbol);
            m.append(name.as_str());
            m.append("' is not tokenized by the ECDFA");
            return Err(GenError::MappingErr(m));
        }
        proof {
            if value_exact::<Symbol>() {
                let j = choose|j: int| 0 <= j < products@.len() && products@[j] == *symbol;
                assert(produced(kinds, products@[j]));
            }
        }
        i += 1;
    }
    proof {
        if value_exact::<Symbol>() {
            assert forall|s: Symbol| #[trigger] grammar.terminal_set().contains(s) implies produced(kinds, s) by {
                assert(terminals@.to_set().contains(s));
                let j = choose|j: int| 0 <= j < terminals@.len() && terminals@[j] == s;
                assert(produced(kinds, terminals@[j]));
            }
        }
    }
    Ok(())
}

} // verus!
