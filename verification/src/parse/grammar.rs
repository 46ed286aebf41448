use vstd::prelude::*;
use crate::data::{clones_exactly, eq_exact, value_exact, Data};
use crate::fmt::InjectionAffinity;
use crate::parse::{Production, ProductionSymbol};
use crate::util::encoder::{encode_spec, first_code, lemma_first_code_found, Encoder};
use crate::util::vecset::{
    contains_value, first_key_index, has_key, insert_value, key_lookup, key_position, lookup,
};

verus! {

/// A symbol of a grammar: a terminal or non-terminal, with a default (empty) value.
pub trait GrammarSymbol: Data + Default {}

impl GrammarSymbol for usize {}

impl GrammarSymbol for String {}

/// The symbols on the right-hand sides of `prods`.
pub open spec fn rhs_symbols<Symbol: GrammarSymbol>(prods: Seq<Production<Symbol>>) -> Set<Symbol> {
    Set::new(
        |s: Symbol|
            exists|i: int, j: int|
                0 <= i < prods.len() && 0 <= j < prods[i].rhs@.len() && #[trigger] prods[i].rhs@[j].symbol
                    == s,
    )
}

/// The productions of `entries`, where each entry holds the productions of one left-hand side.
pub open spec fn all_productions<Symbol: GrammarSymbol>(
    entries: Seq<(Symbol, Vec<Production<Symbol>>)>,
) -> Seq<Production<Symbol>>
    decreases entries.len(),
{
    if entries.len() == 0 {
        Seq::empty()
    } else {
        all_productions(entries.drop_last()) + entries.last().1@
    }
}

/// The symbols that `prods` can rewrite to nothing within `n` rounds: a symbol is nullable
/// in round `n + 1` if it is the left-hand side of a production all of whose right-hand-side
/// symbols are nullable in round `n`.
pub open spec fn nullable_within<Symbol: GrammarSymbol>(prods: Seq<Production<Symbol>>, n: nat) -> Set<
    Symbol,
>
    decreases n,
{
    if n == 0 {
        Set::empty()
    } else {
        let prev = nullable_within(prods, (n - 1) as nat);
        prev.union(
            Set::new(
                |s: Symbol|
                    exists|i: int|
                        0 <= i < prods.len() && #[trigger] prods[i].lhs == s && forall|j: int|
                            0 <= j < prods[i].rhs@.len() ==> prev.contains(
                                #[trigger] prods[i].rhs@[j].symbol,
                            ),
            ),
        )
    }
}

/// The symbols that `prods` can rewrite to nothing.
pub open spec fn nullable<Symbol: GrammarSymbol>(prods: Seq<Production<Symbol>>) -> Set<Symbol> {
    Set::new(|s: Symbol| exists|n: nat| #[trigger] nullable_within(prods, n).contains(s))
}

/// Grammar: a context-free grammar over symbols of type `Symbol`.
pub trait Grammar<Symbol: GrammarSymbol> {
    /// The non-terminals of the grammar that can derive the empty string.
    spec fn nullable_set(&self) -> Set<Symbol>;

    /// The non-terminals of the grammar: the left-hand sides of its productions.
    spec fn non_terminal_set(&self) -> Set<Symbol>;

    /// The injectable symbols of the grammar, with their affinities.
    spec fn injectables(&self) -> Map<Symbol, InjectionAffinity>;

    /// The ignorable symbols of the grammar.
    spec fn ignorable_set(&self) -> Set<Symbol>;

    /// The terminals of the grammar: the right-hand-side symbols that are not non-terminals.
    spec fn terminal_set(&self) -> Set<Symbol>;

    /// The start symbol of the grammar.
    spec fn start_symbol(&self) -> Symbol;

    /// The productions of each non-terminal.
    spec fn productions_of(&self, lhs: Symbol) -> Option<Seq<Production<Symbol>>>;

    /// Returns true if `lhs` is a nullable non-terminal.
    fn is_nullable_nt(&self, lhs: &Symbol) -> (b: bool)
        ensures
            eq_exact::<Symbol>() ==> b == self.nullable_set().contains(*lhs),
    ;

    /// Returns true if `symbol` is a non-terminal.
    fn is_non_terminal(&self, symbol: &Symbol) -> (b: bool)
        ensures
            eq_exact::<Symbol>() ==> b == self.non_terminal_set().contains(*symbol),
    ;

    /// Returns true if `symbol` is injectable.
    fn is_injectable(&self, symbol: &Symbol) -> (b: bool)
        ensures
            eq_exact::<Symbol>() ==> b == self.injectables().contains_key(*symbol),
    ;

    /// Returns the injection affinity of `symbol`, if it is injectable.
    fn injection_affinity(&self, symbol: &Symbol) -> (a: Option<&InjectionAffinity>)
        ensures
            eq_exact::<Symbol>() ==> a == if self.injectables().contains_key(*symbol) {
                Some(&self.injectables()[*symbol])
            } else {
                None::<&InjectionAffinity>
            },
    ;

    /// Returns true if `symbol` is ignorable.
    fn is_ignorable(&self, symbol: &Symbol) -> (b: bool)
        ensures
            eq_exact::<Symbol>() ==> b == self.ignorable_set().contains(*symbol),
    ;

    /// Returns the terminals of the grammar.
    fn terminals(&self) -> (t: &Vec<Symbol>)
        ensures
            t@.to_set() == self.terminal_set(),
    ;

    /// Returns the start symbol of the grammar.
    fn start(&self) -> (s: &Symbol)
        ensures
            *s == self.start_symbol(),
    ;

    /// Returns the productions of `lhs`, if it is a non-terminal.
    fn productions_for_lhs(&self, lhs: &Symbol) -> (p: Option<&Vec<Production<Symbol>>>)
        ensures
            eq_exact::<Symbol>() ==> match p {
                Some(v) => self.productions_of(*lhs) == Some(v@),
                None => self.productions_of(*lhs) is None,
            },
    ;

    /// Returns true if parses under the grammar must be weighted: when some symbol is
    /// ignorable or injectable.
    fn weighted_parse(&self) -> (b: bool)
        ensures
            b == (self.ignorable_set() != Set::<Symbol>::empty() || self.injectables()
                != Map::<Symbol, InjectionAffinity>::empty()),
    ;

    /// Returns a string representation of `symbol` (empty for a symbol the grammar cannot
    /// name).
    fn symbol_string(&self, symbol: &Symbol) -> String;
}

/// Whether parses under `grammar` are weighed: when some symbol is ignorable or injectable.
pub open spec fn weighs_parses<Symbol: GrammarSymbol, G: Grammar<Symbol>>(grammar: &G) -> bool {
    grammar.ignorable_set() != Set::<Symbol>::empty() || grammar.injectables() != Map::<
        Symbol,
        InjectionAffinity,
    >::empty()
}

/// Simple Grammar: a grammar over symbols of type `Symbol`, holding its productions grouped by
/// left-hand side.
pub struct SimpleGrammar<Symbol: GrammarSymbol> {
    prods_by_lhs: Vec<(Symbol, Vec<Production<Symbol>>)>,
    nss: Vec<Symbol>,
    non_terminals: Vec<Symbol>,
    terminals: Vec<Symbol>,
    injectable: Vec<(Symbol, InjectionAffinity)>,
    ignorable: Vec<Symbol>,
    start: Symbol,
}

impl<Symbol: GrammarSymbol> SimpleGrammar<Symbol> {
    /// The productions of the grammar, grouped by left-hand side.
    pub closed spec fn entries(&self) -> Seq<(Symbol, Vec<Production<Symbol>>)> {
        self.prods_by_lhs@
    }
}

impl<Symbol: GrammarSymbol> Grammar<Symbol> for SimpleGrammar<Symbol> {
    closed spec fn nullable_set(&self) -> Set<Symbol> {
        self.nss@.to_set()
    }

    closed spec fn non_terminal_set(&self) -> Set<Symbol> {
        self.non_terminals@.to_set()
    }

    closed spec fn injectables(&self) -> Map<Symbol, InjectionAffinity> {
        Map::new(|s: Symbol| has_key(self.injectable@, s), |s: Symbol| lookup(self.injectable@, s)->0)
    }

    closed spec fn ignorable_set(&self) -> Set<Symbol> {
        self.ignorable@.to_set()
    }

    closed spec fn terminal_set(&self) -> Set<Symbol> {
        self.terminals@.to_set()
    }

    closed spec fn start_symbol(&self) -> Symbol {
        self.start
    }

    closed spec fn productions_of(&self, lhs: Symbol) -> Option<Seq<Production<Symbol>>> {
        match lookup(self.prods_by_lhs@, lhs) {
            Some(v) => Some(v@),
            None => None,
        }
    }

    fn is_nullable_nt(&self, lhs: &Symbol) -> (b: bool) {
        contains_value(&self.nss, lhs)
    }

    fn is_non_terminal(&self, symbol: &Symbol) -> (b: bool) {
        contains_value(&self.non_terminals, symbol)
    }

    fn is_injectable(&self, symbol: &Symbol) -> (b: bool) {
        key_position(&self.injectable, symbol).is_some()
    }

    fn injection_affinity(&self, symbol: &Symbol) -> (a: Option<&InjectionAffinity>) {
        key_lookup(&self.injectable, symbol)
    }

    fn is_ignorable(&self, symbol: &Symbol) -> (b: bool) {
        contains_value(&self.ignorable, symbol)
    }

    fn terminals(&self) -> (t: &Vec<Symbol>) {
        &self.terminals
    }

    fn start(&self) -> (s: &Symbol) {
        &self.start
    }

    fn productions_for_lhs(&self, lhs: &Symbol) -> (p: Option<&Vec<Production<Symbol>>>) {
        key_lookup(&self.prods_by_lhs, lhs)
    }

    fn weighted_parse(&self) -> (b: bool) {
        proof {
            if self.ignorable@.len() > 0 {
                assert(self.ignorable_set().contains(self.ignorable@[0]));
            }
            if self.injectable@.len() > 0 {
                assert(self.injectables().contains_key(self.injectable@[0].0));
            }
            if self.ignorable@.len() == 0 {
                assert(self.ignorable_set() =~= Set::<Symbol>::empty());
            }
            if self.injectable@.len() == 0 {
                assert(self.injectables() =~= Map::<Symbol, InjectionAffinity>::empty());
            }
        }
        self.ignorable.len() != 0 || self.injectable.len() != 0
    }

    fn symbol_string(&self, symbol: &Symbol) -> String {
        symbol.to_string()
    }
}

/// Returns a copy of `symbol`, equal to it where cloning a `Symbol` is exact.
pub(crate) fn copy_symbol<Symbol: GrammarSymbol>(symbol: &Symbol) -> (s: Symbol)
    ensures
        clones_exactly::<Symbol>() ==> s == *symbol,
{
    let s = symbol.clone();
    proof {
        if clones_exactly::<Symbol>() {
            assert(cloned(*symbol, s));
        }
    }
    s
}

/// Returns a copy of `production`, equal to it where cloning a `Symbol` is exact.
pub fn copy_production<Symbol: GrammarSymbol>(production: &Production<Symbol>) -> (p: Production<
    Symbol,
>)
    ensures
        clones_exactly::<Symbol>() ==> p.lhs == production.lhs && p.rhs@ == production.rhs@,
        p.rhs@.len() == production.rhs@.len(),
{
    let mut rhs: Vec<ProductionSymbol<Symbol>> = Vec::new();
    let mut i: usize = 0;
    while i < production.rhs.len()
        invariant
            i <= production.rhs@.len(),
            rhs@.len() == i,
            clones_exactly::<Symbol>() ==> rhs@ == production.rhs@.take(i as int),
        decreases production.rhs@.len() - i,
    {
        let sym = &production.rhs[i];
        rhs.push(ProductionSymbol { symbol: copy_symbol(&sym.symbol), is_list: sym.is_list });
        i += 1;
        proof {
            if clones_exactly::<Symbol>() {
                assert(rhs@ =~= production.rhs@.take(i as int));
            }
        }
    }
    proof {
        assert(production.rhs@.take(i as int) =~= production.rhs@);
    }
    Production { lhs: copy_symbol(&production.lhs), rhs }
}

/// The productions of `entries` under `lhs`, or none if `lhs` has no entry.
pub open spec fn productions_under<Symbol: GrammarSymbol>(
    entries: Seq<(Symbol, Vec<Production<Symbol>>)>,
    lhs: Symbol,
) -> Seq<Production<Symbol>> {
    match lookup(entries, lhs) {
        Some(v) => v@,
        None => Seq::empty(),
    }
}

/// Grammar Builder: trait representing a builder of grammars of type `GrammarType`, whose
/// input symbols are of type `SymbolIn` and output symbols of type `SymbolOut`.
pub trait GrammarBuilder<SymbolIn: GrammarSymbol, SymbolOut: GrammarSymbol, GrammarType> {
    /// Whether a start symbol with productions has been given, so that a grammar can be built.
    spec fn buildable(&self) -> bool;

    /// The input symbols marked ignorable so far.
    spec fn marked_ignorable(&self) -> Set<SymbolIn>;

    /// Adds an optional state `opt_state`, which derives either `dest_state` or nothing, unless
    /// `opt_state` already has productions.
    fn add_optional_state(&mut self, opt_state: &SymbolIn, dest_state: &SymbolIn)
        ensures
            old(self).buildable() ==> final(self).buildable(),
            old(self).marked_ignorable().subset_of(final(self).marked_ignorable()),
    ;

    /// Adds `production` to the grammar, returning it as a production over output symbols.
    fn add_production(&mut self, production: Production<SymbolIn>) -> (p: Production<SymbolOut>)
        ensures
            old(self).buildable() ==> final(self).buildable(),
            old(self).marked_ignorable().subset_of(final(self).marked_ignorable()),
    ;

    /// Marks `start` as the start symbol, unless a start symbol was already marked.
    fn try_mark_start(&mut self, start: &SymbolIn)
        ensures
            old(self).buildable() ==> final(self).buildable(),
            old(self).marked_ignorable().subset_of(final(self).marked_ignorable()),
    ;

    /// Marks `symbol` as injectable with `affinity`.
    fn mark_injectable(&mut self, symbol: &SymbolIn, affinity: InjectionAffinity)
        ensures
            old(self).buildable() ==> final(self).buildable(),
            old(self).marked_ignorable().subset_of(final(self).marked_ignorable()),
    ;

    /// Marks `symbol` as ignorable: the marked symbols gain `symbol` and no other.
    fn mark_ignorable(&mut self, symbol: &SymbolIn)
        ensures
            old(self).buildable() ==> final(self).buildable(),
            value_exact::<SymbolIn>() ==> final(self).marked_ignorable() == old(self).marked_ignorable().insert(*symbol),
    ;

    /// Returns the output symbol for input symbol `token`.
    fn kind_for(&mut self, token: &SymbolIn) -> (k: SymbolOut)
        ensures
            old(self).buildable() ==> final(self).buildable(),
            old(self).marked_ignorable().subset_of(final(self).marked_ignorable()),
    ;

    /// Consumes the builder and returns the grammar, or an error if no start symbol with
    /// productions was marked, or if the grammar marks a non-terminal as ignorable or
    /// injectable, or a symbol as both.
    fn build(self) -> Result<GrammarType, BuildError>;
}

/// Simple Grammar Builder: builds a `SimpleGrammar`.
///
/// The builder is viewed as its productions grouped by left-hand side (`entries`), its
/// injectable symbols with their affinities, its ignorable symbols, and its start symbol.
pub struct SimpleGrammarBuilder<Symbol: GrammarSymbol> {
    prods_by_lhs: Vec<(Symbol, Vec<Production<Symbol>>)>,
    injectable: Vec<(Symbol, InjectionAffinity)>,
    ignorable: Vec<Symbol>,
    start: Option<Symbol>,
}

impl<Symbol: GrammarSymbol> SimpleGrammarBuilder<Symbol> {
    /// The productions given so far, grouped by left-hand side.
    pub closed spec fn entries(&self) -> Seq<(Symbol, Vec<Production<Symbol>>)> {
        self.prods_by_lhs@
    }

    /// The injectable symbols, with their affinities (first marking first).
    pub closed spec fn injectable_entries(&self) -> Seq<(Symbol, InjectionAffinity)> {
        self.injectable@
    }

    /// The ignorable symbols.
    pub closed spec fn ignorable_symbols(&self) -> Set<Symbol> {
        self.ignorable@.to_set()
    }

    /// The start symbol, if marked.
    pub closed spec fn start_marked(&self) -> Option<Symbol> {
        self.start
    }

    /// Returns a new builder with no productions.
    pub fn new() -> (b: Self)
        ensures
            b.entries() == Seq::<(Symbol, Vec<Production<Symbol>>)>::empty(),
            b.injectable_entries() == Seq::<(Symbol, InjectionAffinity)>::empty(),
            b.ignorable_symbols() == Set::<Symbol>::empty(),
            b.start_marked() is None,
    {
        let b = Self { prods_by_lhs: Vec::new(), injectable: Vec::new(), ignorable: Vec::new(), start: None };
        assert(b.ignorable@.to_set() =~= Set::<Symbol>::empty());
        b
    }

    /// Returns a builder of the productions of `lhs`.
    pub fn from<'b>(&'b mut self, lhs: Symbol) -> (nb: NonTerminalBuilder<'b, Symbol, Self>)
        ensures
            *nb.grammar_builder == *old(self),
            nb.lhs == lhs,
            *final(nb.grammar_builder) == *final(self),
    {
        NonTerminalBuilder { grammar_builder: self, lhs }
    }

    /// Adds `production` under its left-hand side.
    fn push_production(&mut self, production: Production<Symbol>)
        ensures
            value_exact::<Symbol>() ==> productions_under(final(self).entries(), production.lhs)
                == productions_under(old(self).entries(), production.lhs).push(production),
            value_exact::<Symbol>() ==> forall|k: Symbol| k != production.lhs ==> #[trigger] lookup(final(self).entries(), k) == lookup(old(self).entries(), k),
            value_exact::<Symbol>() ==> has_key(final(self).entries(), production.lhs),
            final(self).injectable == old(self).injectable,
            final(self).ignorable == old(self).ignorable,
            final(self).start == old(self).start,
            forall|k: Symbol| has_key(old(self).entries(), k) ==> #[trigger] has_key(final(self).entries(), k),
    {
        let ghost old_entries = self.prods_by_lhs@;
        match key_position(&self.prods_by_lhs, &production.lhs) {
            Some(i) => {
                let ghost lhs = production.lhs;
                let entry = &mut self.prods_by_lhs[i];
                entry.1.push(production);
                proof {
                    lemma_update_entry_lookup(old_entries, self.prods_by_lhs@, i as int);
                    if value_exact::<Symbol>() {
                        assert(first_key_index(self.prods_by_lhs@, lhs, i as int));
                        let j = choose|j: int| first_key_index(old_entries, lhs, j);
                        let ja = choose|j: int| first_key_index(self.prods_by_lhs@, lhs, j);
                        assert(j == i && ja == i);
                    }
                }
            },
            None => {
                let lhs = copy_symbol(&production.lhs);
                let mut prods: Vec<Production<Symbol>> = Vec::new();
                let ghost p = production;
                prods.push(production);
                self.prods_by_lhs.push((lhs, prods));
                proof {
                    assert forall|k: Symbol| has_key(old_entries, k) implies #[trigger] has_key(self.prods_by_lhs@, k) by {
                        let j = choose|j: int| 0 <= j < old_entries.len() && #[trigger] old_entries[j].0 == k;
                        assert(self.prods_by_lhs@[j].0 == k);
                    }
                    if value_exact::<Symbol>() {
                        lemma_push_entry_lookup(old_entries, self.prods_by_lhs@);
                        assert(prods@ =~= Seq::<Production<Symbol>>::empty().push(p));
                    }
                }
            },
        }
    }

    /// Returns a description of why no grammar can be built: no start symbol was marked, or
    /// the start symbol has no productions; or none if a grammar can be built.
    fn start_check(&self) -> (r: Option<String>)
        ensures
            r is None ==> self.start_marked() is Some,
            eq_exact::<Symbol>() ==> (r is None <==> (self.start_marked() matches Some(s) && has_key(
                self.entries(),
                s,
            ))),
    {
        match &self.start {
            None => Some(String::from_str("No start state specified for grammar")),
            Some(start) => match key_position(&self.prods_by_lhs, start) {
                Some(_) => None,
                None => Some(String::from_str("Start state has no productions")),
            },
        }
    }

    /// Returns the grammar, computing its nullable symbols, non-terminals and terminals.
    fn build_no_check(self) -> (g: SimpleGrammar<Symbol>)
        requires
            self.start_marked() is Some,
        ensures
            g.entries() == self.entries(),
            g.start_symbol() == self.start_marked()->0,
            g.injectable == self.injectable,
            g.ignorable == self.ignorable,
            value_exact::<Symbol>() ==> g.nullable_set() == nullable(all_productions(self.entries())),
            value_exact::<Symbol>() ==> g.non_terminal_set() == Set::new(|s: Symbol| has_key(self.entries(), s)),
            value_exact::<Symbol>() ==> g.terminal_set() == rhs_symbols(all_productions(self.entries())).difference(g.non_terminal_set()),
    {
        let start = match self.start {
            Some(s) => s,
            None => {
                assert(false);
                Symbol::default()
            },
        };
        let nss = build_nss(&self.prods_by_lhs);
        let non_terminals = build_non_terminals(&self.prods_by_lhs);
        let terminals = build_terminals(&self.prods_by_lhs, &non_terminals);
        SimpleGrammar {
            prods_by_lhs: self.prods_by_lhs,
            nss,
            non_terminals,
            terminals,
            injectable: self.injectable,
            ignorable: self.ignorable,
            start,
        }
    }
}

/// Pushing onto the productions of entry `i` updates only the productions under its key.
proof fn lemma_update_entry_lookup<Symbol: GrammarSymbol>(
    before: Seq<(Symbol, Vec<Production<Symbol>>)>,
    after: Seq<(Symbol, Vec<Production<Symbol>>)>,
    i: int,
)
    requires
        0 <= i < before.len(),
        after.len() == before.len(),
        after[i].0 == before[i].0,
        forall|j: int| 0 <= j < before.len() && j != i ==> #[trigger] after[j] == before[j],
    ensures
        forall|k: Symbol| k != before[i].0 ==> #[trigger] lookup(after, k) == lookup(before, k),
        forall|k: Symbol| #[trigger] has_key(after, k) == has_key(before, k),
{
    assert forall|k: Symbol| #[trigger] has_key(after, k) == has_key(before, k) by {
        if has_key(after, k) {
            let j = choose|j: int| 0 <= j < after.len() && #[trigger] after[j].0 == k;
            assert(before[j].0 == k);
        }
        if has_key(before, k) {
            let j = choose|j: int| 0 <= j < before.len() && #[trigger] before[j].0 == k;
            assert(after[j].0 == k);
        }
    }
    assert forall|k: Symbol| k != before[i].0 implies #[trigger] lookup(after, k) == lookup(before, k) by {
        if has_key(before, k) {
            crate::util::vecset::lemma_first_key_exists(before, k);
            let j = choose|j: int| first_key_index(before, k, j);
            assert(first_key_index(after, k, j));
            let ja = choose|j: int| first_key_index(after, k, j);
            let jb = choose|j: int| first_key_index(before, k, j);
            assert(ja == j);
            assert(jb == j);
        }
    }
}

/// Appending an entry with a new key leaves the lookups of the other keys unchanged.
proof fn lemma_push_entry_lookup<Symbol: GrammarSymbol>(
    before: Seq<(Symbol, Vec<Production<Symbol>>)>,
    after: Seq<(Symbol, Vec<Production<Symbol>>)>,
)
    requires
        after.len() == before.len() + 1,
        !has_key(before, after.last().0),
        forall|j: int| 0 <= j < before.len() ==> #[trigger] after[j] == before[j],
    ensures
        lookup(after, after.last().0) == Some(after.last().1),
        forall|k: Symbol| k != after.last().0 ==> #[trigger] lookup(after, k) == lookup(before, k),
        forall|k: Symbol| #[trigger] has_key(after, k) == (has_key(before, k) || k == after.last().0),
{
    let n = before.len() as int;
    assert(first_key_index(after, after.last().0, n));
    assert forall|k: Symbol| #[trigger] has_key(after, k) == (has_key(before, k) || k == after.last().0) by {
        if has_key(after, k) && k != after.last().0 {
            let j = choose|j: int| 0 <= j < after.len() && #[trigger] after[j].0 == k;
            assert(before[j].0 == k);
        }
        if has_key(before, k) {
            let j = choose|j: int| 0 <= j < before.len() && #[trigger] before[j].0 == k;
            assert(after[j].0 == k);
        }
        if k == after.last().0 {
            assert(after[n].0 == k);
        }
    }
    assert forall|k: Symbol| k != after.last().0 implies #[trigger] lookup(after, k) == lookup(before, k) by {
        if has_key(before, k) {
            crate::util::vecset::lemma_first_key_exists(before, k);
            let j = choose|j: int| first_key_index(before, k, j);
            assert(first_key_index(after, k, j));
        }
    }
}

/// The number of productions of `ps` whose left-hand side is not in `settled`.
pub open spec fn unsettled<Symbol: GrammarSymbol>(ps: Seq<Production<Symbol>>, settled: Set<Symbol>) -> nat
    decreases ps.len(),
{
    if ps.len() == 0 {
        0
    } else {
        unsettled(ps.drop_last(), settled) + if settled.contains(ps.last().lhs) {
            0nat
        } else {
            1nat
        }
    }
}

/// Whether every production of `ps` whose right-hand side lies in `s` has its left-hand side in
/// `s`.
pub open spec fn closed_under<Symbol: GrammarSymbol>(ps: Seq<Production<Symbol>>, s: Set<Symbol>) -> bool {
    forall|i: int|
        0 <= i < ps.len() && (forall|j: int| 0 <= j < ps[i].rhs@.len() ==> s.contains(#[trigger] ps[i].rhs@[j].symbol))
            ==> s.contains(#[trigger] ps[i].lhs)
}

proof fn lemma_unsettled_bound<Symbol: GrammarSymbol>(ps: Seq<Production<Symbol>>, s: Set<Symbol>)
    ensures
        unsettled(ps, s) <= ps.len(),
    decreases ps.len(),
{
    if ps.len() > 0 {
        lemma_unsettled_bound(ps.drop_last(), s);
    }
}

proof fn lemma_unsettled_shrinks<Symbol: GrammarSymbol>(
    ps: Seq<Production<Symbol>>,
    s1: Set<Symbol>,
    s2: Set<Symbol>,
)
    requires
        s1.subset_of(s2),
    ensures
        unsettled(ps, s2) <= unsettled(ps, s1),
        (exists|i: int| 0 <= i < ps.len() && s2.contains(#[trigger] ps[i].lhs) && !s1.contains(ps[i].lhs))
            ==> unsettled(ps, s2) < unsettled(ps, s1),
    decreases ps.len(),
{
    if ps.len() > 0 {
        lemma_unsettled_shrinks(ps.drop_last(), s1, s2);
        if exists|i: int| 0 <= i < ps.len() && s2.contains(#[trigger] ps[i].lhs) && !s1.contains(ps[i].lhs) {
            let i = choose|i: int| 0 <= i < ps.len() && s2.contains(#[trigger] ps[i].lhs) && !s1.contains(ps[i].lhs);
            if i < ps.len() - 1 {
                assert(ps.drop_last()[i] == ps[i]);
            }
        }
    }
}

/// When no production is unsettled, every left-hand side is settled.
proof fn lemma_unsettled_zero<Symbol: GrammarSymbol>(ps: Seq<Production<Symbol>>, s: Set<Symbol>)
    requires
        unsettled(ps, s) == 0,
    ensures
        forall|i: int| 0 <= i < ps.len() ==> s.contains(#[trigger] ps[i].lhs),
    decreases ps.len(),
{
    if ps.len() > 0 {
        lemma_unsettled_zero(ps.drop_last(), s);
        assert forall|i: int| 0 <= i < ps.len() implies s.contains(#[trigger] ps[i].lhs) by {
            if i < ps.len() - 1 {
                assert(ps.drop_last()[i] == ps[i]);
            }
        }
    }
}

/// A set closed under the productions holds every nullable symbol.
proof fn lemma_closed_holds_nullable<Symbol: GrammarSymbol>(
    ps: Seq<Production<Symbol>>,
    s: Set<Symbol>,
    n: nat,
)
    requires
        closed_under(ps, s),
    ensures
        nullable_within(ps, n).subset_of(s),
    decreases n,
{
    if n > 0 {
        lemma_closed_holds_nullable(ps, s, (n - 1) as nat);
        let prev = nullable_within(ps, (n - 1) as nat);
        assert forall|x: Symbol| nullable_within(ps, n).contains(x) implies s.contains(x) by {
            if !prev.contains(x) {
                let i = choose|i: int|
                    0 <= i < ps.len() && #[trigger] ps[i].lhs == x && forall|j: int|
                        0 <= j < ps[i].rhs@.len() ==> prev.contains(#[trigger] ps[i].rhs@[j].symbol);
                assert forall|j: int| 0 <= j < ps[i].rhs@.len() implies s.contains(#[trigger] ps[i].rhs@[j].symbol) by {
                    assert(prev.contains(ps[i].rhs@[j].symbol));
                }
            }
        }
    }
}

/// Returns references to all productions of `prods_by_lhs`, entry by entry.
fn flatten_productions<Symbol: GrammarSymbol>(prods_by_lhs: &Vec<(Symbol, Vec<Production<Symbol>>)>) -> (ps: Vec<&Production<Symbol>>)
    ensures
        ps@.map_values(|r: &Production<Symbol>| *r) == all_productions(prods_by_lhs@),
{
    let mut ps: Vec<&Production<Symbol>> = Vec::new();
    let mut i: usize = 0;
    while i < prods_by_lhs.len()
        invariant
            i <= prods_by_lhs@.len(),
            ps@.map_values(|r: &Production<Symbol>| *r) == all_productions(prods_by_lhs@.take(i as int)),
        decreases prods_by_lhs@.len() - i,
    {
        let prods = &prods_by_lhs[i].1;
        let ghost base = ps@.map_values(|r: &Production<Symbol>| *r);
        let mut j: usize = 0;
        while j < prods.len()
            invariant
                j <= prods@.len(),
                ps@.map_values(|r: &Production<Symbol>| *r) == base + prods@.take(j as int),
            decreases prods@.len() - j,
        {
            let ghost old_ps = ps@;
            ps.push(&prods[j]);
            proof {
                assert(ps@.map_values(|r: &Production<Symbol>| *r) =~= old_ps.map_values(
                    |r: &Production<Symbol>| *r,
                ).push(prods@[j as int]));
                assert(base + prods@.take(j + 1) =~= (base + prods@.take(j as int)).push(
                    prods@[j as int],
                ));
            }
            j += 1;
        }
        proof {
            assert(prods_by_lhs@.take(i + 1).drop_last() =~= prods_by_lhs@.take(i as int));
            assert(prods@.take(j as int) =~= prods@);
        }
        i += 1;
    }
    proof {
        assert(prods_by_lhs@.take(i as int) =~= prods_by_lhs@);
    }
    ps
}

/// Returns true if every right-hand-side symbol of `production` occurs in `nss`.
fn rhs_within<Symbol: GrammarSymbol>(production: &Production<Symbol>, nss: &Vec<Symbol>) -> (b: bool)
    ensures
        eq_exact::<Symbol>() ==> b == forall|j: int| 0 <= j < production.rhs@.len() ==> nss@.to_set().contains(#[trigger] production.rhs@[j].symbol),
{
    let mut j: usize = 0;
    while j < production.rhs.len()
        invariant
            j <= production.rhs@.len(),
            eq_exact::<Symbol>() ==> forall|l: int| 0 <= l < j ==> nss@.to_set().contains(#[trigger] production.rhs@[l].symbol),
        decreases production.rhs@.len() - j,
    {
        if !contains_value(nss, &production.rhs[j].symbol) {
            return false;
        }
        j += 1;
    }
    true
}

/// Returns the nullable symbols of the productions in `prods_by_lhs`: those that derive the
/// empty string.
fn build_nss<Symbol: GrammarSymbol>(prods_by_lhs: &Vec<(Symbol, Vec<Production<Symbol>>)>) -> (nss: Vec<Symbol>)
    ensures
        value_exact::<Symbol>() ==> nss@.to_set() == nullable(all_productions(prods_by_lhs@)),
{
    let ghost all = all_productions(prods_by_lhs@);
    let ps = flatten_productions(prods_by_lhs);
    assert(ps@.len() == all.len()) by {
        assert(ps@.map_values(|r: &Production<Symbol>| *r).len() == ps@.len());
    }
    let mut nss: Vec<Symbol> = Vec::new();
    let ghost mut k: nat = 0;
    let mut changed = true;
    let mut pass: usize = 0;
    proof {
        assert(nss@.to_set() =~= Set::<Symbol>::empty());
        lemma_unsettled_bound(all, nss@.to_set());
    }
    while changed && pass < ps.len()
        invariant
            ps@.map_values(|r: &Production<Symbol>| *r) == all,
            ps@.len() == all.len(),
            pass <= ps@.len(),
            value_exact::<Symbol>() ==> nss@.to_set().subset_of(nullable_within(all, k)),
            value_exact::<Symbol>() && changed ==> unsettled(all, nss@.to_set()) + pass <= all.len(),
            value_exact::<Symbol>() && !changed ==> closed_under(all, nss@.to_set()),
        decreases ps@.len() - pass,
    {
        changed = false;
        let ghost start = nss@.to_set();
        let ghost start_k = k;
        let mut i: usize = 0;
        while i < ps.len()
            invariant
                ps@.map_values(|r: &Production<Symbol>| *r) == all,
                ps@.len() == all.len(),
                i <= ps@.len(),
                value_exact::<Symbol>() ==> start.subset_of(nss@.to_set()),
                value_exact::<Symbol>() ==> nss@.to_set().subset_of(nullable_within(all, k)),
                value_exact::<Symbol>() && !changed ==> nss@.to_set() == start,
                value_exact::<Symbol>() && !changed ==> forall|l: int|
                    0 <= l < i && (forall|j: int| 0 <= j < all[l].rhs@.len() ==> start.contains(#[trigger] all[l].rhs@[j].symbol))
                        ==> start.contains(#[trigger] all[l].lhs),
                value_exact::<Symbol>() && changed ==> unsettled(all, nss@.to_set()) < unsettled(all, start),
            decreases ps@.len() - i,
        {
            let p = ps[i];
            assert(*p == all[i as int]) by {
                assert(ps@.map_values(|r: &Production<Symbol>| *r)[i as int] == *ps@[i as int]);
            }
            if !contains_value(&nss, &p.lhs) && rhs_within(p, &nss) {
                let ghost before = nss@.to_set();
                insert_value(&mut nss, &p.lhs);
                proof {
                    if value_exact::<Symbol>() {
                        let next = nullable_within(all, k + 1);
                        assert(nullable_within(all, k).subset_of(next));
                        assert(next.contains(p.lhs)) by {
                            assert(all[i as int].lhs == p.lhs);
                            assert forall|j: int| 0 <= j < all[i as int].rhs@.len() implies nullable_within(all, k).contains(#[trigger] all[i as int].rhs@[j].symbol) by {
                                assert(before.contains(all[i as int].rhs@[j].symbol));
                            }
                        }
                        k = k + 1;
                        lemma_unsettled_shrinks(all, start, nss@.to_set());
                        lemma_unsettled_shrinks(all, before, nss@.to_set());
                        assert(nss@.to_set().contains(all[i as int].lhs));
                    }
                }
                changed = true;
            }
            i += 1;
        }
        pass += 1;
    }
    proof {
        if value_exact::<Symbol>() {
            if changed {
                lemma_unsettled_zero(all, nss@.to_set());
            }
            assert(closed_under(all, nss@.to_set()));
            assert forall|x: Symbol| nullable(all).contains(x) implies nss@.to_set().contains(x) by {
                let n = choose|n: nat| #[trigger] nullable_within(all, n).contains(x);
                lemma_closed_holds_nullable(all, nss@.to_set(), n);
            }
            assert forall|x: Symbol| nss@.to_set().contains(x) implies nullable(all).contains(x) by {
                assert(nullable_within(all, k).contains(x));
            }
            assert(nss@.to_set() =~= nullable(all));
        }
    }
    nss
}

/// Returns the non-terminals of `prods_by_lhs`: the left-hand sides of its entries.
fn build_non_terminals<Symbol: GrammarSymbol>(prods_by_lhs: &Vec<(Symbol, Vec<Production<Symbol>>)>) -> (nts: Vec<Symbol>)
    ensures
        value_exact::<Symbol>() ==> nts@.to_set() == Set::new(|s: Symbol| has_key(prods_by_lhs@, s)),
{
    let mut nts: Vec<Symbol> = Vec::new();
    let mut i: usize = 0;
    proof {
        assert(nts@.to_set() =~= Set::<Symbol>::empty());
    }
    while i < prods_by_lhs.len()
        invariant
            i <= prods_by_lhs@.len(),
            value_exact::<Symbol>() ==> nts@.to_set() == Set::new(|s: Symbol| has_key(prods_by_lhs@.take(i as int), s)),
        decreases prods_by_lhs@.len() - i,
    {
        insert_value(&mut nts, &prods_by_lhs[i].0);
        proof {
            if value_exact::<Symbol>() {
                let pre = prods_by_lhs@.take(i as int);
                let post = prods_by_lhs@.take(i + 1);
                assert forall|s: Symbol| nts@.to_set().contains(s) == has_key(post, s) by {
                    if has_key(post, s) {
                        let j = choose|j: int| 0 <= j < post.len() && #[trigger] post[j].0 == s;
                        if j < i {
                            assert(pre[j].0 == s);
                        }
                    }
                    if has_key(pre, s) {
                        let j = choose|j: int| 0 <= j < pre.len() && #[trigger] pre[j].0 == s;
                        assert(post[j].0 == s);
                    }
                    assert(post[i as int].0 == prods_by_lhs@[i as int].0);
                }
                assert(nts@.to_set() =~= Set::new(|s: Symbol| has_key(post, s)));
            }
        }
        i += 1;
    }
    proof {
        assert(prods_by_lhs@.take(i as int) =~= prods_by_lhs@);
    }
    nts
}

/// Returns the terminals of `prods_by_lhs`: its right-hand-side symbols that are not among
/// the `non_terminals`.
fn build_terminals<Symbol: GrammarSymbol>(
    prods_by_lhs: &Vec<(Symbol, Vec<Production<Symbol>>)>,
    non_terminals: &Vec<Symbol>,
) -> (ts: Vec<Symbol>)
    ensures
        value_exact::<Symbol>() ==> ts@.to_set() == rhs_symbols(all_productions(prods_by_lhs@)).difference(non_terminals@.to_set()),
{
    let ghost all = all_productions(prods_by_lhs@);
    let ghost nts = non_terminals@.to_set();
    let ps = flatten_productions(prods_by_lhs);
    assert(ps@.len() == all.len()) by {
        assert(ps@.map_values(|r: &Production<Symbol>| *r).len() == ps@.len());
    }
    let mut ts: Vec<Symbol> = Vec::new();
    proof {
        assert(ts@.to_set() =~= Set::<Symbol>::empty());
        assert(rhs_symbols(all.take(0)) =~= Set::<Symbol>::empty());
    }
    let mut i: usize = 0;
    while i < ps.len()
        invariant
            ps@.map_values(|r: &Production<Symbol>| *r) == all,
            ps@.len() == all.len(),
            i <= ps@.len(),
            nts == non_terminals@.to_set(),
            value_exact::<Symbol>() ==> ts@.to_set() == rhs_symbols(all.take(i as int)).difference(nts),
        decreases ps@.len() - i,
    {
        let p = ps[i];
        assert(*p == all[i as int]) by {
            assert(ps@.map_values(|r: &Production<Symbol>| *r)[i as int] == *ps@[i as int]);
        }
        let ghost base = ts@.to_set();
        let mut j: usize = 0;
        while j < p.rhs.len()
            invariant
                j <= p.rhs@.len(),
                nts == non_terminals@.to_set(),
                value_exact::<Symbol>() ==> ts@.to_set() == base.union(
                    Set::new(|s: Symbol| exists|l: int| 0 <= l < j && #[trigger] p.rhs@[l].symbol == s).difference(nts),
                ),
            decreases p.rhs@.len() - j,
        {
            let symbol = &p.rhs[j].symbol;
            let ghost pre = ts@.to_set();
            let ghost in_nt = nts.contains(*symbol);
            if !contains_value(non_terminals, symbol) {
                insert_value(&mut ts, symbol);
                assert(value_exact::<Symbol>() ==> ts@.to_set() == pre.insert(*symbol) && !in_nt);
            } else {
                assert(value_exact::<Symbol>() ==> ts@.to_set() == pre && in_nt);
            }
            proof {
                if value_exact::<Symbol>() {
                    let lhs_set = Set::new(|s: Symbol| exists|l: int| 0 <= l < j + 1 && #[trigger] p.rhs@[l].symbol == s).difference(nts);
                    assert forall|s: Symbol| ts@.to_set().contains(s) == base.union(lhs_set).contains(s) by {
                        if s == *symbol {
                            assert(p.rhs@[j as int].symbol == s);
                        } else if exists|l: int| 0 <= l < j + 1 && #[trigger] p.rhs@[l].symbol == s {
                            let l = choose|l: int| 0 <= l < j + 1 && #[trigger] p.rhs@[l].symbol == s;
                            assert(l < j);
                        }
                    }
                    assert(ts@.to_set() =~= base.union(lhs_set));
                }
            }
            j += 1;
        }
        proof {
            if value_exact::<Symbol>() {
                let target = rhs_symbols(all.take(i + 1)).difference(nts);
                assert forall|s: Symbol| ts@.to_set().contains(s) == target.contains(s) by {
                    let pre_all = all.take(i as int);
                    let post_all = all.take(i + 1);
                    if rhs_symbols(pre_all).contains(s) {
                        let (a, b) = choose|a: int, b: int| 0 <= a < pre_all.len() && 0 <= b < pre_all[a].rhs@.len() && #[trigger] pre_all[a].rhs@[b].symbol == s;
                        assert(post_all[a].rhs@[b].symbol == s);
                    }
                    if rhs_symbols(post_all).contains(s) {
                        let (a, b) = choose|a: int, b: int| 0 <= a < post_all.len() && 0 <= b < post_all[a].rhs@.len() && #[trigger] post_all[a].rhs@[b].symbol == s;
                        if a < i {
                            assert(pre_all[a].rhs@[b].symbol == s);
                        } else {
                            assert(p.rhs@[b].symbol == s);
                        }
                    }
                    if exists|l: int| 0 <= l < j && #[trigger] p.rhs@[l].symbol == s {
                        let l = choose|l: int| 0 <= l < j && #[trigger] p.rhs@[l].symbol == s;
                        assert(post_all[i as int].rhs@[l].symbol == s);
                    }
                }
                assert(ts@.to_set() =~= target);
            }
        }
        i += 1;
    }
    proof {
        assert(all.take(i as int) =~= all);
    }
    ts
}

/// A conflict in how the symbols of a grammar are marked.
enum Conflict<Symbol> {
    NonTerminalIgnored(Symbol),
    NonTerminalInjected(Symbol),
    IgnoredAndInjected(Symbol),
}

/// Whether `grammar` marks no non-terminal as ignorable or injectable, and no symbol as both.
pub open spec fn consistent_marks<Symbol: GrammarSymbol>(grammar: SimpleGrammar<Symbol>) -> bool {
    &&& grammar.ignorable_set().disjoint(grammar.non_terminal_set())
    &&& grammar.injectables().dom().disjoint(grammar.non_terminal_set())
    &&& grammar.injectables().dom().disjoint(grammar.ignorable_set())
}

/// Whether a grammar with the productions `entries`, the injectable symbols `injectable` and
/// the ignorable symbols `ignorable` marks its symbols consistently: no non-terminal is ignorable
/// or injectable, and no symbol is both.
pub open spec fn builder_marks_consistent<Symbol: GrammarSymbol>(
    entries: Seq<(Symbol, Vec<Production<Symbol>>)>,
    injectable: Seq<(Symbol, InjectionAffinity)>,
    ignorable: Set<Symbol>,
) -> bool {
    &&& forall|s: Symbol| #[trigger] ignorable.contains(s) ==> !has_key(entries, s)
    &&& forall|s: Symbol| #[trigger] has_key(injectable, s) ==> !has_key(entries, s) && !ignorable.contains(s)
}

/// Returns the first conflict in how `grammar` marks its symbols: an ignorable non-terminal,
/// then an injectable non-terminal, then a symbol both injectable and ignorable.
fn check_grammar<Symbol: GrammarSymbol>(grammar: &SimpleGrammar<Symbol>) -> (c: Option<Conflict<Symbol>>)
    ensures
        eq_exact::<Symbol>() ==> (c is None <==> consistent_marks(*grammar)),
{
    let mut i: usize = 0;
    while i < grammar.ignorable.len()
        invariant
            i <= grammar.ignorable@.len(),
            eq_exact::<Symbol>() ==> forall|j: int| 0 <= j < i ==> !grammar.non_terminal_set().contains(#[trigger] grammar.ignorable@[j]),
        decreases grammar.ignorable@.len() - i,
    {
        let ignored = &grammar.ignorable[i];
        if contains_value(&grammar.non_terminals, ignored) {
            proof {
                if eq_exact::<Symbol>() {
                    assert(grammar.ignorable_set().contains(*ignored));
                    assert(!grammar.ignorable_set().disjoint(grammar.non_terminal_set()));
                }
            }
            return Some(Conflict::NonTerminalIgnored(copy_symbol(ignored)));
        }
        i += 1;
    }
    let mut i: usize = 0;
    while i < grammar.injectable.len()
        invariant
            i <= grammar.injectable@.len(),
            eq_exact::<Symbol>() ==> grammar.ignorable_set().disjoint(grammar.non_terminal_set()),
            eq_exact::<Symbol>() ==> forall|j: int| 0 <= j < i ==> !grammar.non_terminal_set().contains(#[trigger] grammar.injectable@[j].0)
                && !grammar.ignorable_set().contains(grammar.injectable@[j].0),
        decreases grammar.injectable@.len() - i,
    {
        let injected = &grammar.injectable[i].0;
        if contains_value(&grammar.non_terminals, injected) {
            proof {
                if eq_exact::<Symbol>() {
                    assert(grammar.injectables().dom().contains(*injected));
                }
            }
            return Some(Conflict::NonTerminalInjected(copy_symbol(injected)));
        }
        if contains_value(&grammar.ignorable, injected) {
            proof {
                if eq_exact::<Symbol>() {
                    assert(grammar.injectables().dom().contains(*injected));
                }
            }
            return Some(Conflict::IgnoredAndInjected(copy_symbol(injected)));
        }
        i += 1;
    }
    proof {
        if eq_exact::<Symbol>() {
            assert forall|x: Symbol| grammar.injectables().dom().contains(x) implies !grammar.non_terminal_set().contains(x) && !grammar.ignorable_set().contains(x) by {
                let j = choose|j: int| 0 <= j < grammar.injectable@.len() && #[trigger] grammar.injectable@[j].0 == x;
            }
        }
    }
    None
}

/// Build Error: an error in the marking of the symbols of a grammar, naming the symbol.
#[derive(Debug)]
pub enum BuildError {
    /// An ignorable symbol is a non-terminal.
    NonTerminalIgnoredErr(String),
    /// An injectable symbol is a non-terminal.
    NonTerminalInjectedErr(String),
    /// A symbol is both ignorable and injectable.
    IgnoredAndInjectedErr(String),
    /// No start symbol was marked, or the start symbol has no productions.
    StartErr(String),
}

/// Whether `m` describes the grammar build error `e`.
pub open spec fn grammar_message(e: BuildError, m: Seq<char>) -> bool {
    match e {
        BuildError::NonTerminalIgnoredErr(s) => m == "Ignored symbol '"@ + s@ + "' is non-terminal"@,
        BuildError::NonTerminalInjectedErr(s) => m == "Injected symbol '"@ + s@ + "' is non-terminal"@,
        BuildError::IgnoredAndInjectedErr(s) => m == "Symbol '"@ + s@ + "' is both ignored and injected"@,
        BuildError::StartErr(s) => m == ""@ + s@ + ""@,
    }
}

impl BuildError {
    /// Returns a description of the error.
    pub fn message(&self) -> (m: String)
        ensures
            grammar_message(*self, m@),
    {
        let (prefix, symbol, suffix) = match self {
            BuildError::NonTerminalIgnoredErr(s) => ("Ignored symbol '", s, "' is non-terminal"),
            BuildError::NonTerminalInjectedErr(s) => ("Injected symbol '", s, "' is non-terminal"),
            BuildError::IgnoredAndInjectedErr(s) => ("Symbol '", s, "' is both ignored and injected"),
            BuildError::StartErr(s) => ("", s, ""),
        };
        let mut m = String::from_str(prefix);
        m.append(symbol.as_str());
        m.append(suffix);
        m
    }
}

/// Adds the production `lhs -> rhs` to `builder`, leaving its marks unchanged.
pub(crate) fn add_rule<Symbol: GrammarSymbol>(
    builder: &mut SimpleGrammarBuilder<Symbol>,
    lhs: Symbol,
    rhs: Vec<Symbol>,
)
    ensures
        value_exact::<Symbol>() ==> has_key(final(builder).entries(), lhs),
        old(builder).buildable() ==> final(builder).buildable(),
        final(builder).start_marked() == old(builder).start_marked(),
        final(builder).injectable_entries() == old(builder).injectable_entries(),
        final(builder).ignorable_symbols() == old(builder).ignorable_symbols(),
        value_exact::<Symbol>() ==> rhs_views(productions_under(final(builder).entries(), lhs))
            == rhs_views(productions_under(old(builder).entries(), lhs)).push(plain_rhs(rhs@)),
        value_exact::<Symbol>() ==> forall|k: Symbol|
            k != lhs ==> #[trigger] productions_under(final(builder).entries(), k) == productions_under(
                old(builder).entries(),
                k,
            ),
        value_exact::<Symbol>() ==> forall|k: Symbol|
            k != lhs ==> #[trigger] lookup(final(builder).entries(), k) == lookup(old(builder).entries(), k),
{
    let mut prod_rhs: Vec<ProductionSymbol<Symbol>> = Vec::new();
    let mut i: usize = 0;
    while i < rhs.len()
        invariant
            i <= rhs@.len(),
            prod_rhs@.len() == i,
            clones_exactly::<Symbol>() ==> forall|j: int|
                0 <= j < i ==> #[trigger] prod_rhs@[j] == (ProductionSymbol { symbol: rhs@[j], is_list: false }),
        decreases rhs@.len() - i,
    {
        prod_rhs.push(ProductionSymbol::symbol(copy_symbol(&rhs[i])));
        i += 1;
    }
    proof {
        if clones_exactly::<Symbol>() {
            assert(prod_rhs@ =~= plain_rhs(rhs@));
        }
    }
    let production = Production::from(lhs, prod_rhs);
    let ghost before = productions_under(builder.entries(), lhs);
    builder.add_production(production);
    proof {
        if value_exact::<Symbol>() {
            assert(rhs_views(before.push(production)) =~= rhs_views(before).push(plain_rhs(rhs@)));
            assert forall|k: Symbol| k != lhs implies #[trigger] productions_under(builder.entries(), k)
                == productions_under(old(builder).entries(), k) by {
                assert(lookup(builder.entries(), k) == lookup(old(builder).entries(), k));
            }
        }
    }
}

/// The right-hand side of the rule of the symbols `s`, none of them a list.
pub open spec fn plain_rhs<Symbol: GrammarSymbol>(s: Seq<Symbol>) -> Seq<ProductionSymbol<Symbol>> {
    s.map_values(|x: Symbol| ProductionSymbol { symbol: x, is_list: false })
}

/// The right-hand sides of the productions `ps`.
pub open spec fn rhs_views<Symbol: GrammarSymbol>(ps: Seq<Production<Symbol>>) -> Seq<Seq<ProductionSymbol<Symbol>>> {
    ps.map_values(|p: Production<Symbol>| p.rhs@)
}

/// The right-hand sides of the rules of `rules` whose left-hand side is `lhs`, in order.
pub open spec fn rules_under<Symbol: GrammarSymbol>(rules: Seq<(Symbol, Seq<Symbol>)>, lhs: Symbol) -> Seq<
    Seq<ProductionSymbol<Symbol>>,
>
    decreases rules.len(),
{
    if rules.len() == 0 {
        Seq::empty()
    } else {
        let rest = rules_under(rules.drop_last(), lhs);
        if rules.last().0 == lhs {
            rest.push(plain_rhs(rules.last().1))
        } else {
            rest
        }
    }
}

/// The left-hand sides and symbols of the rules `rules`.
pub open spec fn rule_views<Symbol: GrammarSymbol>(rules: Seq<(Symbol, Vec<Symbol>)>) -> Seq<(Symbol, Seq<Symbol>)> {
    rules.map_values(|r: (Symbol, Vec<Symbol>)| (r.0, r.1@))
}

/// Adds the rules `rules` to `builder`, first rule first.
pub(crate) fn add_rules<Symbol: GrammarSymbol>(
    builder: &mut SimpleGrammarBuilder<Symbol>,
    rules: Vec<(Symbol, Vec<Symbol>)>,
)
    ensures
        old(builder).buildable() ==> final(builder).buildable(),
        final(builder).start_marked() == old(builder).start_marked(),
        final(builder).injectable_entries() == old(builder).injectable_entries(),
        final(builder).ignorable_symbols() == old(builder).ignorable_symbols(),
        value_exact::<Symbol>() ==> forall|k: Symbol|
            #[trigger] rhs_views(productions_under(final(builder).entries(), k)) == rhs_views(
                productions_under(old(builder).entries(), k),
            ) + rules_under(rule_views(rules@), k),
        value_exact::<Symbol>() ==> forall|i: int|
            0 <= i < rules@.len() ==> has_key(final(builder).entries(), #[trigger] rules@[i].0),
{
    let ghost all = rule_views(rules@);
    let ghost orig = rules@;
    let mut rules = rules;
    let mut pending: Vec<(Symbol, Vec<Symbol>)> = Vec::new();
    while rules.len() > 0
        invariant
            rule_views(rules@) + rule_views(pending@).reverse() == all,
        decreases rules@.len(),
    {
        let ghost before_rules = rules@;
        let ghost before_pending = pending@;
        let r = rules.pop().unwrap();
        pending.push(r);
        proof {
            assert(before_rules =~= rules@.push(r));
            assert(rule_views(before_rules) =~= rule_views(rules@).push((r.0, r.1@)));
            assert(rule_views(pending@) =~= rule_views(before_pending).push((r.0, r.1@)));
            assert(rule_views(pending@).reverse() =~= seq![(r.0, r.1@)] + rule_views(before_pending).reverse());
            assert(rule_views(rules@) + rule_views(pending@).reverse() =~= rule_views(before_rules)
                + rule_views(before_pending).reverse());
        }
    }
    assert(rule_views(rules@) =~= Seq::<(Symbol, Seq<Symbol>)>::empty());
    assert(rule_views(pending@).reverse() =~= all);
    let ghost mut done: Seq<(Symbol, Seq<Symbol>)> = Seq::empty();
    assert(all =~= done + rule_views(pending@).reverse());
    assert(all.len() == rules@.len() + pending@.len());
    while pending.len() > 0
        invariant
            all == done + rule_views(pending@).reverse(),
            old(builder).buildable() ==> builder.buildable(),
            builder.start_marked() == old(builder).start_marked(),
            builder.injectable_entries() == old(builder).injectable_entries(),
            builder.ignorable_symbols() == old(builder).ignorable_symbols(),
            value_exact::<Symbol>() ==> forall|k: Symbol|
                #[trigger] rhs_views(productions_under(builder.entries(), k)) == rhs_views(
                    productions_under(old(builder).entries(), k),
                ) + rules_under(done, k),
            value_exact::<Symbol>() ==> forall|j: int| 0 <= j < done.len() ==> has_key(builder.entries(), #[trigger] done[j].0),
        decreases pending@.len(),
    {
        let ghost before_pending = pending@;
        let ghost before = builder.entries();
        let (lhs, rhs) = pending.pop().unwrap();
        let ghost rv = (lhs, rhs@);
        add_rule(builder, lhs, rhs);
        proof {
            assert(before_pending =~= pending@.push((lhs, rhs)));
            assert(rule_views(before_pending) =~= rule_views(pending@).push(rv));
            assert(rule_views(before_pending).reverse() =~= seq![rv] + rule_views(pending@).reverse());
            assert(all =~= done.push(rv) + rule_views(pending@).reverse());
            if value_exact::<Symbol>() {
                assert forall|k: Symbol| #[trigger] rhs_views(productions_under(builder.entries(), k)) == rhs_views(
                    productions_under(old(builder).entries(), k),
                ) + rules_under(done.push(rv), k) by {
                    assert(done.push(rv).drop_last() =~= done);
                    if k == lhs {
                        assert(rhs_views(productions_under(before, k)) + rules_under(done, k).push(plain_rhs(rhs@))
                            =~= (rhs_views(productions_under(before, k)) + rules_under(done, k)).push(plain_rhs(rhs@)));
                    } else {
                        assert(productions_under(builder.entries(), k) == productions_under(before, k));
                    }
                }
            }
            if value_exact::<Symbol>() {
                assert forall|j: int| 0 <= j < done.push(rv).len() implies has_key(builder.entries(), #[trigger] done.push(rv)[j].0) by {
                    if j < done.len() {
                        assert(done.push(rv)[j] == done[j]);
                        let kj = done[j].0;
                        if kj != lhs {
                            assert(lookup(builder.entries(), kj) == lookup(before, kj));
                        }
                    }
                }
            }
            done = done.push(rv);
        }
    }
    assert(done =~= all);
    proof {
        if value_exact::<Symbol>() {
            assert forall|i: int| 0 <= i < orig.len() implies has_key(builder.entries(), #[trigger] orig[i].0) by {
                assert(all[i].0 == orig[i].0);
                assert(done[i].0 == orig[i].0);
            }
        }
    }
}

/// Non-Terminal Builder: adds productions of non-terminal `lhs` to a grammar builder.
pub struct NonTerminalBuilder<'builder, SymbolIn: GrammarSymbol, B> {
    /// The builder the productions are added to.
    pub grammar_builder: &'builder mut B,
    /// The left-hand side of the productions.
    pub lhs: SymbolIn,
}

impl<'builder, Symbol: GrammarSymbol> NonTerminalBuilder<'builder, Symbol, SimpleGrammarBuilder<Symbol>> {
    /// Adds the production `lhs -> rhs`.
    pub fn to(&mut self, rhs: Vec<Symbol>) -> (nb: &mut Self)
        ensures
            value_exact::<Symbol>() ==> {
                let before = productions_under(old(self).grammar_builder.entries(), old(self).lhs);
                let after = productions_under(nb.grammar_builder.entries(), old(self).lhs);
                &&& after.len() == before.len() + 1
                &&& after.take(before.len() as int) == before
                &&& after.last().lhs == old(self).lhs
                &&& after.last().rhs@ == nb_rhs(rhs@)
            },
            value_exact::<Symbol>() ==> has_key(nb.grammar_builder.entries(), old(self).lhs),
            old(self).grammar_builder.buildable() ==> nb.grammar_builder.buildable(),
            nb.grammar_builder.injectable_entries() == old(self).grammar_builder.injectable_entries(),
            nb.grammar_builder.ignorable_symbols() == old(self).grammar_builder.ignorable_symbols(),
            nb.grammar_builder.start_marked() == old(self).grammar_builder.start_marked(),
            nb.lhs == old(self).lhs,
            *final(self) == *final(nb),
    {
        let mut prod_rhs: Vec<ProductionSymbol<Symbol>> = Vec::new();
        let mut i: usize = 0;
        while i < rhs.len()
            invariant
                i <= rhs@.len(),
                clones_exactly::<Symbol>() ==> prod_rhs@ == nb_rhs(rhs@.take(i as int)),
            decreases rhs@.len() - i,
        {
            prod_rhs.push(ProductionSymbol::symbol(copy_symbol(&rhs[i])));
            i += 1;
            proof {
                if clones_exactly::<Symbol>() {
                    assert(prod_rhs@ =~= nb_rhs(rhs@.take(i as int)));
                }
            }
        }
        assert(rhs@.take(i as int) =~= rhs@);
        let production = Production::from(copy_symbol(&self.lhs), prod_rhs);
        self.grammar_builder.add_production(production);
        self
    }

    /// Adds the production `lhs -> ε`.
    pub fn epsilon(&mut self) -> (nb: &mut Self)
        ensures
            value_exact::<Symbol>() ==> {
                let before = productions_under(old(self).grammar_builder.entries(), old(self).lhs);
                let after = productions_under(nb.grammar_builder.entries(), old(self).lhs);
                &&& after.len() == before.len() + 1
                &&& after.take(before.len() as int) == before
                &&& after.last().lhs == old(self).lhs
                &&& after.last().rhs@.len() == 0
            },
            value_exact::<Symbol>() ==> has_key(nb.grammar_builder.entries(), old(self).lhs),
            old(self).grammar_builder.buildable() ==> nb.grammar_builder.buildable(),
            nb.grammar_builder.injectable_entries() == old(self).grammar_builder.injectable_entries(),
            nb.grammar_builder.ignorable_symbols() == old(self).grammar_builder.ignorable_symbols(),
            nb.grammar_builder.start_marked() == old(self).grammar_builder.start_marked(),
            nb.lhs == old(self).lhs,
            *final(self) == *final(nb),
    {
        let production = Production::epsilon(copy_symbol(&self.lhs));
        self.grammar_builder.add_production(production);
        self
    }
}

/// The right-hand side holding each of `symbols` once.
pub open spec fn nb_rhs<Symbol: GrammarSymbol>(symbols: Seq<Symbol>) -> Seq<ProductionSymbol<Symbol>> {
    symbols.map_values(|s: Symbol| ProductionSymbol { symbol: s, is_list: false })
}

impl<Symbol: GrammarSymbol> GrammarBuilder<Symbol, Symbol, SimpleGrammar<Symbol>> for SimpleGrammarBuilder<
    Symbol,
> {
    open spec fn buildable(&self) -> bool {
        self.start_marked() is Some && has_key(self.entries(), self.start_marked()->0)
    }

    open spec fn marked_ignorable(&self) -> Set<Symbol> {
        self.ignorable_symbols()
    }

    fn add_optional_state(&mut self, opt_state: &Symbol, dest_state: &Symbol)
        ensures
            value_exact::<Symbol>() ==> if has_key(old(self).entries(), *opt_state) {
                final(self).entries() == old(self).entries()
            } else {
                &&& has_key(final(self).entries(), *opt_state)
                &&& productions_under(final(self).entries(), *opt_state).len() == 2
                &&& productions_under(final(self).entries(), *opt_state)[0].lhs == *opt_state
                &&& productions_under(final(self).entries(), *opt_state)[0].rhs@ == seq![ProductionSymbol::<Symbol> { symbol: *dest_state, is_list: false }]
                &&& productions_under(final(self).entries(), *opt_state)[1].lhs == *opt_state
                &&& productions_under(final(self).entries(), *opt_state)[1].rhs@.len() == 0
                &&& forall|k: Symbol| k != *opt_state ==> #[trigger] lookup(final(self).entries(), k) == lookup(old(self).entries(), k)
            },
            final(self).injectable_entries() == old(self).injectable_entries(),
            final(self).ignorable_symbols() == old(self).ignorable_symbols(),
            final(self).start_marked() == old(self).start_marked(),
    {
        if key_position(&self.prods_by_lhs, opt_state).is_none() {
            let ghost old_entries = self.prods_by_lhs@;
            let mut rhs: Vec<ProductionSymbol<Symbol>> = Vec::new();
            rhs.push(ProductionSymbol::symbol(copy_symbol(dest_state)));
            let mut prods: Vec<Production<Symbol>> = Vec::new();
            prods.push(Production::from(copy_symbol(opt_state), rhs));
            prods.push(Production::epsilon(copy_symbol(opt_state)));
            self.prods_by_lhs.push((copy_symbol(opt_state), prods));
            proof {
                assert forall|k: Symbol| has_key(old_entries, k) implies #[trigger] has_key(self.prods_by_lhs@, k) by {
                    let j = choose|j: int| 0 <= j < old_entries.len() && #[trigger] old_entries[j].0 == k;
                    assert(self.prods_by_lhs@[j].0 == k);
                }
                if value_exact::<Symbol>() {
                    lemma_push_entry_lookup(old_entries, self.prods_by_lhs@);
                    assert(rhs@ =~= seq![ProductionSymbol::<Symbol> { symbol: *dest_state, is_list: false }]);
                }
            }
        }
    }

    fn add_production(&mut self, production: Production<Symbol>) -> (p: Production<Symbol>)
        ensures
            clones_exactly::<Symbol>() ==> p.lhs == production.lhs && p.rhs@ == production.rhs@,
            value_exact::<Symbol>() ==> productions_under(final(self).entries(), production.lhs)
                == productions_under(old(self).entries(), production.lhs).push(production),
            value_exact::<Symbol>() ==> forall|k: Symbol| k != production.lhs ==> #[trigger] lookup(final(self).entries(), k) == lookup(old(self).entries(), k),
            value_exact::<Symbol>() ==> has_key(final(self).entries(), production.lhs),
            final(self).injectable_entries() == old(self).injectable_entries(),
            final(self).ignorable_symbols() == old(self).ignorable_symbols(),
            final(self).start_marked() == old(self).start_marked(),
    {
        let p = copy_production(&production);
        self.push_production(production);
        p
    }

    fn try_mark_start(&mut self, start: &Symbol)
        ensures
            old(self).start_marked() is Some ==> final(self).start_marked() == old(self).start_marked(),
            old(self).start_marked() is None ==> (final(self).start_marked() matches Some(s) && (clones_exactly::<Symbol>() ==> s == *start)),
            final(self).entries() == old(self).entries(),
            final(self).injectable_entries() == old(self).injectable_entries(),
            final(self).ignorable_symbols() == old(self).ignorable_symbols(),
    {
        if self.start.is_some() {
            return;
        }
        self.start = Some(copy_symbol(start));
    }

    fn mark_injectable(&mut self, symbol: &Symbol, affinity: InjectionAffinity)
        ensures
            value_exact::<Symbol>() ==> lookup(final(self).injectable_entries(), *symbol) == Some(affinity),
            value_exact::<Symbol>() ==> forall|k: Symbol| k != *symbol ==> #[trigger] lookup(final(self).injectable_entries(), k) == lookup(old(self).injectable_entries(), k),
            final(self).entries() == old(self).entries(),
            final(self).ignorable_symbols() == old(self).ignorable_symbols(),
            final(self).start_marked() == old(self).start_marked(),
    {
        let ghost old_entries = self.injectable@;
        match key_position(&self.injectable, symbol) {
            Some(i) => {
                let entry = &mut self.injectable[i];
                entry.1 = affinity;
                proof {
                    if value_exact::<Symbol>() {
                        lemma_set_value_lookup(old_entries, self.injectable@, i as int);
                    }
                }
            },
            None => {
                self.injectable.push((copy_symbol(symbol), affinity));
                proof {
                    if value_exact::<Symbol>() {
                        lemma_push_value_lookup(old_entries, self.injectable@);
                    }
                }
            },
        }
    }

    fn mark_ignorable(&mut self, symbol: &Symbol)
        ensures
            value_exact::<Symbol>() ==> final(self).ignorable_symbols() == old(self).ignorable_symbols().insert(*symbol),
            final(self).entries() == old(self).entries(),
            final(self).injectable_entries() == old(self).injectable_entries(),
            final(self).start_marked() == old(self).start_marked(),
    {
        insert_value(&mut self.ignorable, symbol);
    }

    fn kind_for(&mut self, token: &Symbol) -> (k: Symbol)
        ensures
            clones_exactly::<Symbol>() ==> k == *token,
            *final(self) == *old(self),
    {
        copy_symbol(token)
    }

    fn build(self) -> (res: Result<SimpleGrammar<Symbol>, BuildError>)
        ensures
            match res {
                Ok(g) => g.entries() == self.entries() && g.start_symbol() == self.start_marked()->0
                    && (eq_exact::<Symbol>() ==> consistent_marks(g))
                    && g.ignorable_set() == self.ignorable_symbols()
                    && g.injectables().dom() == Set::new(|s: Symbol| has_key(self.injectable_entries(), s))
                    && (value_exact::<Symbol>() ==> g.nullable_set() == nullable(all_productions(self.entries()))),
                Err(_) => true,
            },
            value_exact::<Symbol>() ==> (res is Ok <==> self.buildable() && builder_marks_consistent(
                self.entries(),
                self.injectable_entries(),
                self.ignorable_symbols(),
            )),
    {
        if let Some(m) = self.start_check() {
            return Err(BuildError::StartErr(m));
        }
        let grammar = self.build_no_check();
        proof {
            assert(grammar.injectables().dom() =~= Set::new(|s: Symbol| has_key(self.injectable_entries(), s)));
            if value_exact::<Symbol>() {
                lemma_marks_consistent(self, grammar);
            }
        }
        match check_grammar(&grammar) {
            None => Ok(grammar),
            Some(Conflict::NonTerminalIgnored(s)) => Err(BuildError::NonTerminalIgnoredErr(s.to_string())),
            Some(Conflict::NonTerminalInjected(s)) => Err(BuildError::NonTerminalInjectedErr(s.to_string())),
            Some(Conflict::IgnoredAndInjected(s)) => Err(BuildError::IgnoredAndInjectedErr(s.to_string())),
        }
    }
}

/// A grammar built from `builder`, with its marks and with the left-hand sides of its entries as
/// non-terminals, marks its symbols consistently exactly when the builder does.
proof fn lemma_marks_consistent<Symbol: GrammarSymbol>(
    builder: SimpleGrammarBuilder<Symbol>,
    grammar: SimpleGrammar<Symbol>,
)
    requires
        grammar.injectable == builder.injectable,
        grammar.ignorable == builder.ignorable,
        grammar.non_terminal_set() == Set::new(|s: Symbol| has_key(builder.entries(), s)),
    ensures
        consistent_marks(grammar) <==> builder_marks_consistent(
            builder.entries(),
            builder.injectable_entries(),
            builder.ignorable_symbols(),
        ),
{
    let nts = grammar.non_terminal_set();
    let inj = grammar.injectables().dom();
    let ign = grammar.ignorable_set();
    assert(inj =~= Set::new(|s: Symbol| has_key(builder.injectable_entries(), s)));
    if consistent_marks(grammar) {
        assert forall|s: Symbol| #[trigger] ign.contains(s) implies !has_key(builder.entries(), s) by {
            assert(!nts.contains(s));
        }
        assert forall|s: Symbol| #[trigger] has_key(builder.injectable_entries(), s) implies !has_key(
            builder.entries(),
            s,
        ) && !ign.contains(s) by {
            assert(inj.contains(s));
            assert(!nts.contains(s));
        }
    }
    if builder_marks_consistent(builder.entries(), builder.injectable_entries(), builder.ignorable_symbols()) {
        assert(ign.disjoint(nts));
        assert(inj.disjoint(nts));
        assert(inj.disjoint(ign));
    }
}

/// Setting the value of entry `i` changes only the lookup of its key, to the new value.
proof fn lemma_set_value_lookup<K, V>(before: Seq<(K, V)>, after: Seq<(K, V)>, i: int)
    requires
        0 <= i < before.len(),
        after.len() == before.len(),
        after[i].0 == before[i].0,
        first_key_index(before, before[i].0, i),
        forall|j: int| 0 <= j < before.len() && j != i ==> #[trigger] after[j] == before[j],
    ensures
        lookup(after, before[i].0) == Some(after[i].1),
        forall|k: K| k != before[i].0 ==> #[trigger] lookup(after, k) == lookup(before, k),
{
    assert(first_key_index(after, before[i].0, i));
    assert forall|k: K| k != before[i].0 implies #[trigger] lookup(after, k) == lookup(before, k) by {
        assert(has_key(after, k) == has_key(before, k)) by {
            if has_key(after, k) {
                let j = choose|j: int| 0 <= j < after.len() && #[trigger] after[j].0 == k;
                assert(before[j].0 == k);
            }
            if has_key(before, k) {
                let j = choose|j: int| 0 <= j < before.len() && #[trigger] before[j].0 == k;
                assert(after[j].0 == k);
            }
        }
        if has_key(before, k) {
            crate::util::vecset::lemma_first_key_exists(before, k);
            let j = choose|j: int| first_key_index(before, k, j);
            assert(first_key_index(after, k, j));
        }
    }
}

/// Appending an entry with a new key makes it map to its value, and leaves the other keys.
proof fn lemma_push_value_lookup<K, V>(before: Seq<(K, V)>, after: Seq<(K, V)>)
    requires
        after.len() == before.len() + 1,
        !has_key(before, after.last().0),
        forall|j: int| 0 <= j < before.len() ==> #[trigger] after[j] == before[j],
    ensures
        lookup(after, after.last().0) == Some(after.last().1),
        forall|k: K| k != after.last().0 ==> #[trigger] lookup(after, k) == lookup(before, k),
{
    let n = before.len() as int;
    assert(first_key_index(after, after.last().0, n));
    assert forall|k: K| k != after.last().0 implies #[trigger] lookup(after, k) == lookup(before, k) by {
        assert(has_key(after, k) == has_key(before, k)) by {
            if has_key(after, k) {
                let j = choose|j: int| 0 <= j < after.len() && #[trigger] after[j].0 == k;
                assert(before[j].0 == k);
            }
            if has_key(before, k) {
                let j = choose|j: int| 0 <= j < before.len() && #[trigger] before[j].0 == k;
                assert(after[j].0 == k);
            }
        }
        if has_key(before, k) {
            crate::util::vecset::lemma_first_key_exists(before, k);
            let j = choose|j: int| first_key_index(before, k, j);
            assert(first_key_index(after, k, j));
        }
    }
}

/// Encoded Grammar: a grammar over integer codes of symbols of type `SymbolIn`.
pub struct EncodedGrammar<SymbolIn: GrammarSymbol> {
    grammar: SimpleGrammar<usize>,
    encoder: Encoder<SymbolIn>,
}

impl<SymbolIn: GrammarSymbol> EncodedGrammar<SymbolIn> {
    /// The symbols encoded by the grammar, indexed by code.
    pub closed spec fn codes(&self) -> Seq<SymbolIn> {
        self.encoder@
    }

    /// The grammar over codes.
    pub closed spec fn coded(&self) -> SimpleGrammar<usize> {
        self.grammar
    }
}

impl<SymbolIn: GrammarSymbol> Grammar<usize> for EncodedGrammar<SymbolIn> {
    open spec fn nullable_set(&self) -> Set<usize> {
        self.coded().nullable_set()
    }

    open spec fn non_terminal_set(&self) -> Set<usize> {
        self.coded().non_terminal_set()
    }

    open spec fn injectables(&self) -> Map<usize, InjectionAffinity> {
        self.coded().injectables()
    }

    open spec fn ignorable_set(&self) -> Set<usize> {
        self.coded().ignorable_set()
    }

    open spec fn terminal_set(&self) -> Set<usize> {
        self.coded().terminal_set()
    }

    open spec fn start_symbol(&self) -> usize {
        self.coded().start_symbol()
    }

    open spec fn productions_of(&self, lhs: usize) -> Option<Seq<Production<usize>>> {
        self.coded().productions_of(lhs)
    }

    fn is_nullable_nt(&self, lhs: &usize) -> (b: bool) {
        self.grammar.is_nullable_nt(lhs)
    }

    fn is_non_terminal(&self, symbol: &usize) -> (b: bool) {
        self.grammar.is_non_terminal(symbol)
    }

    fn is_injectable(&self, symbol: &usize) -> (b: bool) {
        self.grammar.is_injectable(symbol)
    }

    fn injection_affinity(&self, symbol: &usize) -> (a: Option<&InjectionAffinity>) {
        self.grammar.injection_affinity(symbol)
    }

    fn is_ignorable(&self, symbol: &usize) -> (b: bool) {
        self.grammar.is_ignorable(symbol)
    }

    fn terminals(&self) -> (t: &Vec<usize>) {
        self.grammar.terminals()
    }

    fn start(&self) -> (s: &usize) {
        self.grammar.start()
    }

    fn productions_for_lhs(&self, lhs: &usize) -> (p: Option<&Vec<Production<usize>>>) {
        self.grammar.productions_for_lhs(lhs)
    }

    fn weighted_parse(&self) -> (b: bool) {
        self.grammar.weighted_parse()
    }

    fn symbol_string(&self, symbol: &usize) -> (r: String)
        ensures
            *symbol >= self.codes().len() ==> r@ == Seq::<char>::empty(),
    {
        match self.encoder.decode(*symbol) {
            Some(s) => s.to_string(),
            None => String::new(),
        }
    }
}

/// The marked symbols of an encoded builder stay marked where the codes given before are kept
/// and no code loses its mark.
proof fn lemma_marked_grows<SymbolIn: GrammarSymbol>(
    before: EncodedGrammarBuilder<SymbolIn>,
    after: EncodedGrammarBuilder<SymbolIn>,
)
    requires
        before.codes().len() <= after.codes().len(),
        after.codes().take(before.codes().len() as int) == before.codes(),
        before.coded().ignorable_symbols().subset_of(after.coded().ignorable_symbols()),
    ensures
        before.marked_ignorable().subset_of(after.marked_ignorable()),
{
    assert forall|s: SymbolIn| before.marked_ignorable().contains(s) implies after.marked_ignorable().contains(s) by {
        let i = choose|i: int|
            0 <= i < before.codes().len() && before.codes()[i] == s && #[trigger] before.coded().ignorable_symbols().contains(
                i as usize,
            );
        assert(after.codes().take(before.codes().len() as int)[i] == after.codes()[i]);
        assert(after.coded().ignorable_symbols().contains(i as usize));
    }
}

/// Encoded Grammar Builder: builds an `EncodedGrammar`, encoding each symbol it is given.
pub struct EncodedGrammarBuilder<SymbolIn: GrammarSymbol> {
    builder: SimpleGrammarBuilder<usize>,
    encoder: Encoder<SymbolIn>,
}

impl<SymbolIn: GrammarSymbol> EncodedGrammarBuilder<SymbolIn> {
    /// The symbols encoded so far, indexed by code.
    pub closed spec fn codes(&self) -> Seq<SymbolIn> {
        self.encoder@
    }

    /// The builder over codes.
    pub closed spec fn coded(&self) -> SimpleGrammarBuilder<usize> {
        self.builder
    }

    /// Returns a new builder with no productions.
    pub fn new() -> (b: Self)
        ensures
            b.codes() == Seq::<SymbolIn>::empty(),
            b.coded().entries() == Seq::<(usize, Vec<Production<usize>>)>::empty(),
            b.coded().start_marked() is None,
    {
        Self { builder: SimpleGrammarBuilder::new(), encoder: Encoder::new() }
    }

    /// Returns the name of the symbol with code `code`.
    fn name_of(&self, code: usize) -> (r: String)
        ensures
            code >= self.codes().len() ==> r@ == Seq::<char>::empty(),
    {
        match self.encoder.decode(code) {
            Some(s) => s.to_string(),
            None => String::new(),
        }
    }
}

impl<SymbolIn: GrammarSymbol> GrammarBuilder<SymbolIn, usize, EncodedGrammar<SymbolIn>> for EncodedGrammarBuilder<
    SymbolIn,
> {
    open spec fn buildable(&self) -> bool {
        self.coded().buildable()
    }

    open spec fn marked_ignorable(&self) -> Set<SymbolIn> {
        Set::new(
            |s: SymbolIn|
                exists|i: int|
                    0 <= i < self.codes().len() && self.codes()[i] == s && #[trigger] self.coded().ignorable_symbols().contains(
                        i as usize,
                    ),
        )
    }

    fn add_optional_state(&mut self, opt_state: &SymbolIn, dest_state: &SymbolIn)
        ensures
            value_exact::<SymbolIn>() ==> {
                let (c1, o) = encode_spec(old(self).codes(), *opt_state);
                let (c2, d) = encode_spec(c1, *dest_state);
                &&& final(self).codes() == c2
                &&& has_key(final(self).coded().entries(), o as usize)
            },
    {
        let ghost before = *self;
        let opt_state_encoded = self.encoder.encode(opt_state);
        let ghost mid = self.codes();
        let dest_state_encoded = self.encoder.encode(dest_state);
        self.builder.add_optional_state(&opt_state_encoded, &dest_state_encoded);
        proof {
            crate::data::lemma_usize_exact();
            assert(self.codes().take(before.codes().len() as int) =~= before.codes()) by {
                assert forall|j: int| 0 <= j < before.codes().len() implies self.codes()[j] == before.codes()[j] by {
                    assert(self.codes().take(mid.len() as int)[j] == self.codes()[j]);
                    assert(mid.take(before.codes().len() as int)[j] == mid[j]);
                }
            }
            lemma_marked_grows(before, *self);
        }
    }

    fn add_production(&mut self, production: Production<SymbolIn>) -> (p: Production<usize>)
        ensures
            p.rhs@.len() == production.rhs@.len(),
            p.lhs < final(self).codes().len(),
            forall|i: int| 0 <= i < p.rhs@.len() ==> #[trigger] p.rhs@[i].symbol < final(self).codes().len()
                && p.rhs@[i].is_list == production.rhs@[i].is_list,
            value_exact::<SymbolIn>() ==> final(self).codes()[p.lhs as int] == production.lhs && forall|i: int|
                0 <= i < p.rhs@.len() ==> final(self).codes()[#[trigger] p.rhs@[i].symbol as int] == production.rhs@[i].symbol,
    {
        let mut rhs: Vec<ProductionSymbol<usize>> = Vec::new();
        let mut i: usize = 0;
        while i < production.rhs.len()
            invariant
                i <= production.rhs@.len(),
                rhs@.len() == i,
                forall|j: int| 0 <= j < i ==> #[trigger] rhs@[j].symbol < self.codes().len() && rhs@[j].is_list == production.rhs@[j].is_list,
                value_exact::<SymbolIn>() ==> forall|j: int| 0 <= j < i ==> self.codes()[#[trigger] rhs@[j].symbol as int] == production.rhs@[j].symbol,
                self.builder == old(self).builder,
                old(self).codes().len() <= self.codes().len(),
                self.codes().take(old(self).codes().len() as int) == old(self).codes(),
            decreases production.rhs@.len() - i,
        {
            let ghost before = self.codes();
            let sym = &production.rhs[i];
            let code = self.encoder.encode(&sym.symbol);
            proof {
                assert(self.codes().take(before.len() as int) == before);
                assert(self.codes().take(old(self).codes().len() as int) =~= old(self).codes()) by {
                    assert forall|j: int| 0 <= j < old(self).codes().len() implies self.codes()[j] == old(self).codes()[j] by {
                        assert(self.codes().take(before.len() as int)[j] == self.codes()[j]);
                        assert(before.take(old(self).codes().len() as int)[j] == before[j]);
                    }
                }
                if value_exact::<SymbolIn>() {
                    crate::util::encoder::law_encode_decode(before, sym.symbol);
                }
                assert forall|j: int| 0 <= j < i implies self.codes()[#[trigger] rhs@[j].symbol as int] == before[rhs@[j].symbol as int] by {
                    assert(rhs@[j].symbol < before.len());
                    assert(self.codes().take(before.len() as int)[rhs@[j].symbol as int] == self.codes()[rhs@[j].symbol as int]);
                }
            }
            rhs.push(ProductionSymbol { symbol: code, is_list: sym.is_list });
            i += 1;
        }
        let ghost before = self.codes();
        let lhs = self.encoder.encode(&production.lhs);
        proof {
            assert(self.codes().take(before.len() as int) == before);
            assert(self.codes().take(old(self).codes().len() as int) =~= old(self).codes()) by {
                assert forall|j: int| 0 <= j < old(self).codes().len() implies self.codes()[j] == old(self).codes()[j] by {
                    assert(self.codes().take(before.len() as int)[j] == self.codes()[j]);
                    assert(before.take(old(self).codes().len() as int)[j] == before[j]);
                }
            }
            if value_exact::<SymbolIn>() {
                crate::util::encoder::law_encode_decode(before, production.lhs);
            }
            assert forall|j: int| 0 <= j < rhs@.len() implies #[trigger] rhs@[j].symbol < self.codes().len() by {
                assert(rhs@[j].symbol < before.len());
            }
            assert forall|j: int| 0 <= j < rhs@.len() implies self.codes()[#[trigger] rhs@[j].symbol as int] == before[rhs@[j].symbol as int] by {
                assert(rhs@[j].symbol < before.len());
                assert(self.codes().take(before.len() as int)[rhs@[j].symbol as int] == self.codes()[rhs@[j].symbol as int]);
            }
        }
        let encoded_production = Production::from(lhs, rhs);
        proof {
            crate::data::lemma_usize_exact();
        }
        assert(encoded_production.rhs@ == rhs@);
        let p = self.builder.add_production(encoded_production);
        assert(p.rhs@ == rhs@);
        assert forall|j: int| 0 <= j < p.rhs@.len() implies #[trigger] p.rhs@[j].symbol < self.codes().len()
            && p.rhs@[j].is_list == production.rhs@[j].is_list by {
            assert(p.rhs@[j] == rhs@[j]);
            assert(rhs@[j].symbol < self.codes().len());
        }
        proof {
            lemma_marked_grows(*old(self), *self);
        }
        p
    }

    fn try_mark_start(&mut self, start: &SymbolIn)
        ensures
            old(self).coded().start_marked() is None && value_exact::<SymbolIn>() ==> final(self).coded().start_marked() == Some(
                encode_spec(old(self).codes(), *start).1 as usize,
            ),
            old(self).coded().start_marked() is Some ==> final(self).coded().start_marked() == old(self).coded().start_marked(),
    {
        let code = self.encoder.encode(start);
        self.builder.try_mark_start(&code);
        proof {
            crate::data::lemma_usize_exact();
            lemma_marked_grows(*old(self), *self);
        }
    }

    fn mark_injectable(&mut self, symbol: &SymbolIn, affinity: InjectionAffinity)
        ensures
            value_exact::<SymbolIn>() ==> lookup(
                final(self).coded().injectable_entries(),
                encode_spec(old(self).codes(), *symbol).1 as usize,
            ) == Some(affinity),
    {
        let code = self.encoder.encode(symbol);
        self.builder.mark_injectable(&code, affinity);
        proof {
            crate::data::lemma_usize_exact();
            lemma_marked_grows(*old(self), *self);
        }
    }

    fn mark_ignorable(&mut self, symbol: &SymbolIn)
        ensures
            value_exact::<SymbolIn>() ==> final(self).coded().ignorable_symbols() == old(self).coded().ignorable_symbols().insert(
                encode_spec(old(self).codes(), *symbol).1 as usize,
            ),
    {
        let ghost before = *self;
        let code = self.encoder.encode(symbol);
        self.builder.mark_ignorable(&code);
        proof {
            crate::data::lemma_usize_exact();
            if value_exact::<SymbolIn>() {
                lemma_first_code_found(before.codes(), *symbol);
                let after = *self;
                assert(after.codes()[code as int] == *symbol);
                assert(after.coded().ignorable_symbols().contains(code));
                assert forall|s: SymbolIn| #[trigger] after.marked_ignorable().contains(s) == before.marked_ignorable().insert(*symbol).contains(s) by {
                    if before.marked_ignorable().contains(s) {
                        let i = choose|i: int| 0 <= i < before.codes().len() && before.codes()[i] == s && #[trigger] before.coded().ignorable_symbols().contains(i as usize);
                        assert(after.codes()[i] == s);
                        assert(after.coded().ignorable_symbols().contains(i as usize));
                    }
                    if s == *symbol {
                        assert(after.coded().ignorable_symbols().contains(code as int as usize));
                    }
                    if after.marked_ignorable().contains(s) {
                        let i = choose|i: int| 0 <= i < after.codes().len() && after.codes()[i] == s && #[trigger] after.coded().ignorable_symbols().contains(i as usize);
                        if i != code as int {
                            assert(before.coded().ignorable_symbols().contains(i as usize));
                            assert(i < before.codes().len());
                            assert(before.codes()[i] == s);
                        }
                    }
                }
                assert(after.marked_ignorable() =~= before.marked_ignorable().insert(*symbol));
            }
        }
    }

    fn kind_for(&mut self, token: &SymbolIn) -> (k: usize)
        ensures
            value_exact::<SymbolIn>() ==> (final(self).codes(), k as int) == encode_spec(old(self).codes(), *token),
            final(self).coded() == old(self).coded(),
    {
        let k = self.encoder.encode(token);
        proof {
            lemma_marked_grows(*old(self), *self);
        }
        k
    }

    fn build(self) -> (res: Result<EncodedGrammar<SymbolIn>, BuildError>)
        ensures
            match res {
                Ok(g) => g.codes() == self.codes() && g.coded().entries() == self.coded().entries()
                    && consistent_marks(g.coded())
                    && g.coded().ignorable_set() == self.coded().ignorable_symbols()
                    && g.coded().nullable_set() == nullable(all_productions(self.coded().entries())),
                Err(_) => true,
            },
            res is Ok <==> self.buildable() && builder_marks_consistent(
                self.coded().entries(),
                self.coded().injectable_entries(),
                self.coded().ignorable_symbols(),
            ),
    {
        proof {
            crate::data::lemma_usize_exact();
        }
        let ghost coded = self.builder;
        if let Some(m) = self.builder.start_check() {
            return Err(BuildError::StartErr(m));
        }
        let grammar = self.builder.build_no_check();
        proof {
            crate::data::lemma_usize_exact();
            lemma_marks_consistent(coded, grammar);
        }
        let encoder = self.encoder;
        let namer = EncodedGrammarBuilder { builder: SimpleGrammarBuilder::new(), encoder };
        match check_grammar(&grammar) {
            None => Ok(EncodedGrammar { grammar, encoder: namer.encoder }),
            Some(Conflict::NonTerminalIgnored(s)) => Err(BuildError::NonTerminalIgnoredErr(namer.name_of(s))),
            Some(Conflict::NonTerminalInjected(s)) => Err(BuildError::NonTerminalInjectedErr(namer.name_of(s))),
            Some(Conflict::IgnoredAndInjected(s)) => Err(BuildError::IgnoredAndInjectedErr(namer.name_of(s))),
        }
    }
}

/// The rounds of nullability only grow.
proof fn lemma_nullable_within_grows<Symbol: GrammarSymbol>(ps: Seq<Production<Symbol>>, n: nat, m: nat)
    requires
        n <= m,
    ensures
        nullable_within(ps, n).subset_of(nullable_within(ps, m)),
    decreases m - n,
{
    if n < m {
        lemma_nullable_within_grows(ps, n, (m - 1) as nat);
    }
}

/// Nullable symbols `syms` all become nullable within a common number of rounds.
proof fn lemma_nullable_common_round<Symbol: GrammarSymbol>(ps: Seq<Production<Symbol>>, syms: Seq<Symbol>) -> (n: nat)
    requires
        forall|j: int| 0 <= j < syms.len() ==> nullable(ps).contains(#[trigger] syms[j]),
    ensures
        forall|j: int| 0 <= j < syms.len() ==> nullable_within(ps, n).contains(#[trigger] syms[j]),
    decreases syms.len(),
{
    if syms.len() == 0 {
        0
    } else {
        let rest = lemma_nullable_common_round(ps, syms.drop_last());
        assert(nullable(ps).contains(syms.last()));
        let own = choose|m: nat| #[trigger] nullable_within(ps, m).contains(syms.last());
        let n = if rest < own { own } else { rest };
        lemma_nullable_within_grows(ps, rest, n);
        lemma_nullable_within_grows(ps, own, n);
        assert forall|j: int| 0 <= j < syms.len() implies nullable_within(ps, n).contains(#[trigger] syms[j]) by {
            if j < syms.len() - 1 {
                assert(syms.drop_last()[j] == syms[j]);
            }
        }
        n
    }
}

/// The nullable symbols are closed under the productions: a production whose right-hand
/// symbols are all nullable has a nullable left-hand side.
pub proof fn law_nullable_closed<Symbol: GrammarSymbol>(ps: Seq<Production<Symbol>>)
    ensures
        closed_under(ps, nullable(ps)),
{
    assert forall|i: int|
        0 <= i < ps.len() && (forall|j: int| 0 <= j < ps[i].rhs@.len() ==> nullable(ps).contains(#[trigger] ps[i].rhs@[j].symbol))
        implies nullable(ps).contains(#[trigger] ps[i].lhs) by {
        let syms = ps[i].rhs@.map_values(|s: ProductionSymbol<Symbol>| s.symbol);
        assert forall|j: int| 0 <= j < syms.len() implies nullable(ps).contains(#[trigger] syms[j]) by {
            assert(syms[j] == ps[i].rhs@[j].symbol);
        }
        let n = lemma_nullable_common_round(ps, syms);
        assert forall|j: int| 0 <= j < ps[i].rhs@.len() implies nullable_within(ps, n).contains(#[trigger] ps[i].rhs@[j].symbol) by {
            assert(syms[j] == ps[i].rhs@[j].symbol);
        }
        assert(nullable_within(ps, n + 1).contains(ps[i].lhs));
    }
}

/// The nullable symbols are the least set closed under the productions.
pub proof fn law_nullable_least<Symbol: GrammarSymbol>(ps: Seq<Production<Symbol>>, s: Set<Symbol>)
    requires
        closed_under(ps, s),
    ensures
        nullable(ps).subset_of(s),
{
    assert forall|x: Symbol| nullable(ps).contains(x) implies s.contains(x) by {
        let n = choose|n: nat| #[trigger] nullable_within(ps, n).contains(x);
        lemma_closed_holds_nullable(ps, s, n);
    }
}

} // verus!
