use vstd::prelude::*;
use crate::data::{clones_exactly, decimal_text, eq_exact, value_exact, Data};
use crate::fmt::InjectionAffinity;
use crate::lex::Token;
use crate::parse::grammar::{copy_symbol, weighs_parses, Grammar, GrammarSymbol};
use crate::util::vecset::reverse_vec;
use crate::lex::longest_match::token_pairs;
use crate::parse::{
    keeps_lexed, keeps_tokens, lemma_child_smaller, same_production, tree_leaves, tree_size, Error, Parser,
    Production, ProductionSymbol, SymbolParseMethod, Tree,
};

verus! {

/// Earley Parser: recognizes a token stream with an Earley chart, then builds a parse tree from
/// the edges of the completed chart.
pub struct EarleyParser;

/// Shadow Symbol: a symbol matched by an item besides the symbols of its production: an ignored
/// or injected terminal, a repeated list element, or a production symbol standing before these.
struct ShadowSymbol<Symbol: GrammarSymbol> {
    symbol: Symbol,
    spm: SymbolParseMethod,
    reps: usize,
}

impl<Symbol: GrammarSymbol> ShadowSymbol<Symbol> {
    fn copy(&self) -> (c: Self)
        ensures
            c.spm == self.spm,
            c.reps == self.reps,
            clones_exactly::<Symbol>() ==> c == *self,
    {
        ShadowSymbol { symbol: copy_symbol(&self.symbol), spm: self.spm, reps: self.reps }
    }

    fn same(&self, other: &Self) -> (r: bool)
        ensures
            eq_exact::<Symbol>() ==> (r == (*self == *other)),
    {
        self.symbol == other.symbol && self.spm == other.spm && self.reps == other.reps
    }
}

fn copy_shadow<Symbol: GrammarSymbol>(shadow: &Vec<ShadowSymbol<Symbol>>) -> (c: Vec<
    ShadowSymbol<Symbol>,
>)
    ensures
        c@.len() == shadow@.len(),
        clones_exactly::<Symbol>() ==> c@ == shadow@,
{
    let mut c: Vec<ShadowSymbol<Symbol>> = Vec::new();
    let mut i: usize = 0;
    while i < shadow.len()
        invariant
            i <= shadow@.len(),
            c@.len() == i,
            clones_exactly::<Symbol>() ==> c@ == shadow@.take(i as int),
        decreases shadow@.len() - i,
    {
        c.push(shadow[i].copy());
        i += 1;
        proof {
            if clones_exactly::<Symbol>() {
                assert(c@ =~= shadow@.take(i as int));
            }
        }
    }
    proof {
        if clones_exactly::<Symbol>() {
            assert(shadow@.take(i as int) =~= shadow@);
        }
    }
    c
}

fn copy_shadow_opt<Symbol: GrammarSymbol>(shadow: &Option<Vec<ShadowSymbol<Symbol>>>) -> (c: Option<
    Vec<ShadowSymbol<Symbol>>,
>)
    ensures
        c is Some <==> shadow is Some,
        clones_exactly::<Symbol>() ==> shadow_seq(c) == shadow_seq(*shadow),
{
    match shadow {
        Some(s) => Some(copy_shadow(s)),
        None => None,
    }
}

/// The shadow as a sequence of symbols, if there is one.
spec fn shadow_seq<Symbol: GrammarSymbol>(s: Option<Vec<ShadowSymbol<Symbol>>>) -> Option<
    Seq<ShadowSymbol<Symbol>>,
> {
    match s {
        Some(v) => Some(v@),
        None => None,
    }
}

/// Whether the two shadows are both absent, or hold the same symbols.
fn same_shadow<Symbol: GrammarSymbol>(
    a: &Option<Vec<ShadowSymbol<Symbol>>>,
    b: &Option<Vec<ShadowSymbol<Symbol>>>,
) -> (r: bool)
    ensures
        eq_exact::<Symbol>() ==> (r == (shadow_seq(*a) == shadow_seq(*b))),
{
    match (a, b) {
        (None, None) => true,
        (Some(sa), Some(sb)) => {
            if sa.len() != sb.len() {
                return false;
            }
            let mut i: usize = 0;
            while i < sa.len()
                invariant
                    i <= sa@.len(),
                    sa@.len() == sb@.len(),
                    shadow_seq(*a) == Some(sa@),
                    shadow_seq(*b) == Some(sb@),
                    eq_exact::<Symbol>() ==> forall|j: int| 0 <= j < i ==> sa@[j] == sb@[j],
                decreases sa@.len() - i,
            {
                if !sa[i].same(&sb[i]) {
                    proof {
                        if eq_exact::<Symbol>() {
                            assert(sa@[i as int] != sb@[i as int]);
                        }
                    }
                    return false;
                }
                i += 1;
            }
            proof {
                if eq_exact::<Symbol>() {
                    assert(sa@ =~= sb@);
                }
            }
            true
        },
        _ => false,
    }
}

/// Item: a production `rule` partially matched from token `start`, up to the position `next` of
/// its right-hand side, with the `shadow` symbols matched besides the production symbols before
/// `shadow_top`.
struct Item<'r, Symbol: GrammarSymbol> {
    rule: &'r Production<Symbol>,
    shadow: Option<Vec<ShadowSymbol<Symbol>>>,
    shadow_top: usize,
    start: usize,
    next: usize,
    depth: usize,
    ignore_next: bool,
    weight: usize,
}

/// Whether two items match the same production from the same token, up to the same
/// position, with the same shadow and the same bookkeeping.
spec fn same_item<'r, Symbol: GrammarSymbol>(a: Item<'r, Symbol>, b: Item<'r, Symbol>) -> bool {
    &&& a.rule.lhs == b.rule.lhs
    &&& a.rule.rhs@ == b.rule.rhs@
    &&& shadow_seq(a.shadow) == shadow_seq(b.shadow)
    &&& a.shadow_top == b.shadow_top
    &&& a.start == b.start
    &&& a.next == b.next
    &&& a.depth == b.depth
    &&& a.ignore_next == b.ignore_next
    &&& a.weight == b.weight
}

impl<'r, Symbol: GrammarSymbol> Item<'r, Symbol> {
    /// The positions of the item lie within its production.
    spec fn wf(&self) -> bool {
        &&& self.next <= self.rule.rhs@.len()
        &&& self.shadow_top <= self.rule.rhs@.len()
    }

    /// Whether the whole production has been matched.
    spec fn spec_complete(&self) -> bool {
        self.next >= self.rule.rhs@.len()
    }

    /// An item matching `rule` from the start of the input.
    fn start(rule: &'r Production<Symbol>) -> (i: Self)
        ensures
            i.wf(),
            i.start == 0,
            i.rule == rule,
    {
        Item {
            rule,
            shadow: None,
            shadow_top: 0,
            start: 0,
            next: 0,
            depth: 0,
            ignore_next: false,
            weight: 0,
        }
    }

    fn copy(&self) -> (c: Self)
        ensures
            c.rule == self.rule,
            c.shadow_top == self.shadow_top,
            c.start == self.start,
            c.next == self.next,
            c.depth == self.depth,
            c.ignore_next == self.ignore_next,
            c.weight == self.weight,
            c.shadow is Some <==> self.shadow is Some,
            clones_exactly::<Symbol>() ==> shadow_seq(c.shadow) == shadow_seq(self.shadow),
    {
        Item {
            rule: self.rule,
            shadow: copy_shadow_opt(&self.shadow),
            shadow_top: self.shadow_top,
            start: self.start,
            next: self.next,
            depth: self.depth,
            ignore_next: self.ignore_next,
            weight: self.weight,
        }
    }

    fn same(&self, other: &Self) -> (r: bool)
        ensures
            eq_exact::<Symbol>() ==> (r == same_item(*self, *other)),
    {
        same_production(self.rule, other.rule) && same_shadow(&self.shadow, &other.shadow)
            && self.shadow_top == other.shadow_top && self.start == other.start && self.next
            == other.next && self.depth == other.depth && self.ignore_next == other.ignore_next
            && self.weight == other.weight
    }

    /// Moves the item past its next symbol.
    fn advance(&mut self)
        requires
            old(self).next < old(self).rule.rhs@.len(),
        ensures
            final(self).rule == old(self).rule,
            final(self).shadow_top == old(self).shadow_top,
            final(self).start == old(self).start,
            final(self).next == old(self).next + 1,
            final(self).depth == old(self).depth,
            !final(self).ignore_next,
            final(self).weight == old(self).weight,
            final(self).shadow == old(self).shadow,
    {
        let len = self.rule.rhs.len();
        self.next = self.next + 1;
        self.ignore_next = false;
    }

    /// A copy of the item moved past its next symbol.
    fn advance_new(&self) -> (i: Self)
        requires
            self.next < self.rule.rhs@.len(),
        ensures
            i.rule == self.rule,
            i.shadow_top == self.shadow_top,
            i.start == self.start,
            i.next == self.next + 1,
            i.depth == self.depth,
            !i.ignore_next,
            i.weight == self.weight,
            i.shadow is Some <==> self.shadow is Some,
            clones_exactly::<Symbol>() ==> shadow_seq(i.shadow) == shadow_seq(self.shadow),
    {
        let mut i = self.copy();
        i.advance();
        i
    }

    fn next_symbol(&self) -> (s: Option<&'r Symbol>)
        ensures
            s is Some <==> self.next < self.rule.rhs@.len(),
    {
        let rule: &'r Production<Symbol> = self.rule;
        if self.next < rule.rhs.len() {
            Some(&rule.rhs[self.next].symbol)
        } else {
            None
        }
    }

    fn prev_symbol(&self) -> (s: Option<&'r Symbol>)
        ensures
            s is Some <==> 0 < self.next <= self.rule.rhs@.len(),
            s matches Some(x) ==> *x == self.rule.rhs@[self.next - 1].symbol,
    {
        let rule: &'r Production<Symbol> = self.rule;
        if self.next > 0 && self.next - 1 < rule.rhs.len() {
            Some(&rule.rhs[self.next - 1].symbol)
        } else {
            None
        }
    }

    fn next_prod_symbol(&self) -> (s: Option<&'r ProductionSymbol<Symbol>>)
        ensures
            s is Some <==> self.next < self.rule.rhs@.len(),
            s matches Some(x) ==> *x == self.rule.rhs@[self.next as int],
    {
        let rule: &'r Production<Symbol> = self.rule;
        if self.next < rule.rhs.len() {
            Some(&rule.rhs[self.next])
        } else {
            None
        }
    }

    fn is_complete(&self) -> (b: bool)
        ensures
            b == self.spec_complete(),
    {
        self.next >= self.rule.rhs.len()
    }

    fn shadow_copy(&self) -> (c: Vec<ShadowSymbol<Symbol>>)
        ensures
            self.shadow is None ==> c@.len() == 0,
            self.shadow matches Some(v) ==> c@.len() == v@.len(),
            clones_exactly::<Symbol>() ==> (self.shadow matches Some(v) ==> c@ == v@),
    {
        match &self.shadow {
            Some(shadow_vec) => copy_shadow(shadow_vec),
            None => Vec::new(),
        }
    }

    /// Appends the production symbols matched since the shadow was last extended.
    fn extend_shadow(&self, shadow: &mut Vec<ShadowSymbol<Symbol>>)
        requires
            self.wf(),
        ensures
            final(shadow)@.len() == old(shadow)@.len() + (if self.next > self.shadow_top {
                self.next - self.shadow_top
            } else {
                0
            }),
            forall|j: int| 0 <= j < old(shadow)@.len() ==> final(shadow)@[j] == old(shadow)@[j],
            forall|j: int|
                old(shadow)@.len() <= j < final(shadow)@.len() ==> {
                    &&& (#[trigger] final(shadow)@[j]).spm == SymbolParseMethod::Standard
                    &&& final(shadow)@[j].reps == 1
                    &&& clones_exactly::<Symbol>() ==> final(shadow)@[j].symbol
                        == self.rule.rhs@[self.shadow_top + j - old(shadow)@.len()].symbol
                },
    {
        let ghost before = shadow@;
        let mut i: usize = self.shadow_top;
        while i < self.next
            invariant
                self.wf(),
                self.shadow_top <= i,
                self.next >= self.shadow_top ==> i <= self.next,
                self.next < self.shadow_top ==> i == self.shadow_top,
                shadow@.len() == before.len() + i - self.shadow_top,
                forall|j: int| 0 <= j < before.len() ==> shadow@[j] == before[j],
                forall|j: int|
                    before.len() <= j < shadow@.len() ==> {
                        &&& (#[trigger] shadow@[j]).spm == SymbolParseMethod::Standard
                        &&& shadow@[j].reps == 1
                        &&& clones_exactly::<Symbol>() ==> shadow@[j].symbol
                            == self.rule.rhs@[self.shadow_top + j - before.len()].symbol
                    },
            decreases self.next - i,
        {
            shadow.push(
                ShadowSymbol {
                    symbol: copy_symbol(&self.rule.rhs[i].symbol),
                    spm: SymbolParseMethod::Standard,
                    reps: 1,
                },
            );
            i += 1;
        }
    }

    /// Whether the item stands right after its shadow, whose last symbol is a repeated
    /// `symbol`.
    spec fn extends_list(&self, symbol: Symbol) -> bool {
        &&& self.shadow_top >= self.next
        &&& self.shadow matches Some(v)
        &&& v@.len() > 0
        &&& v@.last().symbol == symbol
        &&& v@.last().spm == SymbolParseMethod::Repeated
    }

    /// Returns true if the last shadow symbol is a list of `symbol` that the item can extend.
    fn can_extend_list(&self, symbol: &Symbol) -> (r: bool)
        ensures
            eq_exact::<Symbol>() ==> (r == self.extends_list(*symbol)),
    {
        if self.shadow_top >= self.next {
            if let Some(shadow_vec) = &self.shadow {
                if shadow_vec.len() > 0 {
                    let previous = &shadow_vec[shadow_vec.len() - 1];
                    if previous.symbol == *symbol && previous.spm == SymbolParseMethod::Repeated {
                        return true;
                    }
                }
            }
        }
        false
    }
}

/// Whether `item` is well formed, starts at or before row `row`, and is complete exactly when
/// `complete` holds.
spec fn item_fits<'r, Symbol: GrammarSymbol>(item: Item<'r, Symbol>, row: int, complete: bool) -> bool {
    &&& item.wf()
    &&& item.start <= row
    &&& item.spec_complete() == complete
}

/// A row of the recognition chart: the items ending at one position of the input, incomplete
/// and complete ones apart.
struct RChartRow<'r, Symbol: GrammarSymbol> {
    incomplete: Vec<Item<'r, Symbol>>,
    complete: Vec<Item<'r, Symbol>>,
}

impl<'r, Symbol: GrammarSymbol> RChartRow<'r, Symbol> {
    /// The items of the row are well formed, start at or before row `row`, and lie in the list
    /// that matches their completeness.
    spec fn wf(&self, row: int) -> bool {
        &&& forall|i: int|
            0 <= i < self.incomplete@.len() ==> item_fits(#[trigger] self.incomplete@[i], row, false)
        &&& forall|i: int|
            0 <= i < self.complete@.len() ==> item_fits(#[trigger] self.complete@[i], row, true)
    }

    fn new(scanned_items: Vec<Item<'r, Symbol>>, Ghost(row): Ghost<int>) -> (r: Self)
        requires
            forall|i: int|
                0 <= i < scanned_items@.len() ==> (#[trigger] scanned_items@[i]).wf()
                    && scanned_items@[i].start <= row,
        ensures
            r.wf(row),
    {
        let mut r = RChartRow { incomplete: Vec::new(), complete: Vec::new() };
        let mut items = reverse_vec(scanned_items);
        while items.len() > 0
            invariant
                r.wf(row),
                forall|i: int|
                    0 <= i < items@.len() ==> (#[trigger] items@[i]).wf() && items@[i].start <= row,
            decreases items@.len(),
        {
            let item = items.pop().unwrap();
            r.unsafe_append(item, Ghost(row));
        }
        r
    }

    fn unsafe_append(&mut self, item: Item<'r, Symbol>, Ghost(row): Ghost<int>)
        requires
            old(self).wf(row),
            item.wf(),
            item.start <= row,
        ensures
            final(self).wf(row),
            final(self).incomplete@.len() >= old(self).incomplete@.len(),
            final(self).complete@.len() >= old(self).complete@.len(),
            forall|i: int|
                0 <= i < old(self).incomplete@.len() ==> final(self).incomplete@[i] == old(
                    self,
                ).incomplete@[i],
            forall|i: int|
                0 <= i < old(self).complete@.len() ==> final(self).complete@[i] == old(
                    self,
                ).complete@[i],
            item.spec_complete() ==> final(self).complete@ == old(self).complete@.push(item)
                && final(self).incomplete@ == old(self).incomplete@,
            !item.spec_complete() ==> final(self).incomplete@ == old(self).incomplete@.push(item)
                && final(self).complete@ == old(self).complete@,
    {
        if item.is_complete() {
            self.complete.push(item);
        } else {
            self.incomplete.push(item);
        }
    }

    /// The items of the row that are complete exactly when `complete` holds.
    spec fn items_of(&self, complete: bool) -> Seq<Item<'r, Symbol>> {
        if complete {
            self.complete@
        } else {
            self.incomplete@
        }
    }

    fn contains(&self, item: &Item<'r, Symbol>) -> (r: bool)
        ensures
            eq_exact::<Symbol>() ==> (r == exists|j: int|
                0 <= j < self.items_of(item.spec_complete()).len() && same_item(
                    #[trigger] self.items_of(item.spec_complete())[j],
                    *item,
                )),
    {
        let list = if item.is_complete() {
            &self.complete
        } else {
            &self.incomplete
        };
        let mut i: usize = 0;
        while i < list.len()
            invariant
                i <= list@.len(),
                list@ == self.items_of(item.spec_complete()),
                eq_exact::<Symbol>() ==> forall|j: int|
                    0 <= j < i ==> !same_item(#[trigger] list@[j], *item),
            decreases list@.len() - i,
        {
            if list[i].same(item) {
                return true;
            }
            i += 1;
        }
        false
    }
}

/// Whether every item of `items` is well formed and starts at or before row `row`.
spec fn all_fit<'r, Symbol: GrammarSymbol>(items: Seq<Item<'r, Symbol>>, row: int) -> bool {
    forall|i: int| 0 <= i < items.len() ==> (#[trigger] items[i]).wf() && items[i].start <= row
}

/// The recognition chart: its finished rows, the `i`th holding the items that end at token
/// `i`. The row under construction is kept apart from them.
struct RChart<'r, Symbol: GrammarSymbol> {
    rows: Vec<RChartRow<'r, Symbol>>,
}

impl<'r, Symbol: GrammarSymbol> RChart<'r, Symbol> {
    spec fn wf(&self) -> bool {
        forall|r: int| 0 <= r < self.rows@.len() ==> (#[trigger] self.rows@[r]).wf(r)
    }
}

/// Whether `to` is the first position of the right-hand side of `rule` from `from` on that is
/// its end or holds a symbol that `grammar` cannot derive empty.
spec fn nullable_stop<Symbol: GrammarSymbol, G: Grammar<Symbol>>(
    grammar: G,
    rule: Production<Symbol>,
    from: int,
    to: int,
) -> bool {
    &&& from <= to <= rule.rhs@.len()
    &&& forall|p: int| from <= p < to ==> grammar.nullable_set().contains(#[trigger] rule.rhs@[p].symbol)
    &&& to < rule.rhs@.len() ==> !grammar.nullable_set().contains(rule.rhs@[to].symbol)
}

/// Whether `pushed` is `item` moved `k` positions on.
spec fn advanced_by<'r, Symbol: GrammarSymbol>(pushed: Item<'r, Symbol>, item: Item<'r, Symbol>, k: int) -> bool {
    &&& pushed.rule == item.rule
    &&& pushed.next == item.next + k
    &&& pushed.shadow_top == item.shadow_top
    &&& pushed.start == item.start
    &&& pushed.depth == item.depth
    &&& pushed.weight == item.weight
    &&& pushed.ignore_next == (if k == 0 {
        item.ignore_next
    } else {
        false
    })
    &&& pushed.shadow is Some <==> item.shadow is Some
    &&& clones_exactly::<Symbol>() ==> shadow_seq(pushed.shadow) == shadow_seq(item.shadow)
}

/// The shadow of the item that matches one more element of the list `symbol` at the next
/// position of `item`: the last shadow symbol repeated once more where it is a list of
/// `symbol` that the item can extend, else the shadow followed by the production symbols
/// matched since it was last extended and a first repetition of `symbol`.
spec fn list_shadow<'r, Symbol: GrammarSymbol>(item: Item<'r, Symbol>, symbol: Symbol) -> Seq<
    ShadowSymbol<Symbol>,
> {
    let base = match shadow_seq(item.shadow) {
        Some(v) => v,
        None => Seq::empty(),
    };
    if item.extends_list(symbol) {
        let last = base.last();
        base.update(
            base.len() - 1,
            ShadowSymbol {
                symbol: last.symbol,
                spm: last.spm,
                reps: saturated(last.reps + 1) as usize,
            },
        )
    } else {
        base + Seq::new(
            (if item.next > item.shadow_top {
                item.next - item.shadow_top
            } else {
                0
            }) as nat,
            |j: int|
                ShadowSymbol {
                    symbol: item.rule.rhs@[item.shadow_top + j].symbol,
                    spm: SymbolParseMethod::Standard,
                    reps: 1,
                },
        ) + seq![ShadowSymbol { symbol: symbol, spm: SymbolParseMethod::Repeated, reps: 1 }]
    }
}

/// Whether `pushed` is the item that matches one more element of the list `symbol` at the
/// next position of `item`, moved `k` positions on.
spec fn list_item_at<'r, Symbol: GrammarSymbol>(
    pushed: Item<'r, Symbol>,
    item: Item<'r, Symbol>,
    symbol: Symbol,
    k: int,
) -> bool {
    &&& pushed.rule == item.rule
    &&& pushed.next == item.next + k
    &&& pushed.shadow_top == item.next + 1
    &&& pushed.start == item.start
    &&& pushed.depth == item.depth
    &&& pushed.weight == item.weight
    &&& !pushed.ignore_next
    &&& pushed.shadow is Some
    &&& value_exact::<Symbol>() ==> shadow_seq(pushed.shadow) == Some(list_shadow(item, symbol))
}

/// Whether the next symbol of `item` is one that `grammar` can derive empty.
fn nullable_next<'r, Symbol: GrammarSymbol, G: Grammar<Symbol>>(item: &Item<'r, Symbol>, grammar: &G) -> (b: bool)
    ensures
        b ==> item.next < item.rule.rhs@.len(),
        eq_exact::<Symbol>() ==> (b == (item.next < item.rule.rhs@.len()
            && grammar.nullable_set().contains(item.rule.rhs@[item.next as int].symbol))),
{
    match item.next_prod_symbol() {
        None => false,
        Some(sym) => grammar.is_nullable_nt(&sym.symbol),
    }
}

/// Pushes `item` and each item reached from it by advancing over nullable symbols onto `dest`.
fn advance_over_nullable_symbols<'r, Symbol: GrammarSymbol, G: Grammar<Symbol>>(
    item: Item<'r, Symbol>,
    dest: &mut Vec<Item<'r, Symbol>>,
    grammar: &G,
    Ghost(row): Ghost<int>,
)
    requires
        item.wf(),
        item.start <= row,
        all_fit(old(dest)@, row),
    ensures
        all_fit(final(dest)@, row),
        final(dest)@.len() > old(dest)@.len(),
        forall|j: int| 0 <= j < old(dest)@.len() ==> final(dest)@[j] == old(dest)@[j],
        forall|k: int|
            0 <= k < final(dest)@.len() - old(dest)@.len() ==> advanced_by(
                #[trigger] final(dest)@[old(dest)@.len() + k],
                item,
                k,
            ),
        eq_exact::<Symbol>() ==> nullable_stop(
            *grammar,
            *item.rule,
            item.next as int,
            item.next + final(dest)@.len() - old(dest)@.len() - 1,
        ),
{
    let ghost before = dest@;
    let ghost first = item;
    let mut last_item = item;
    dest.push(last_item.copy());
    while nullable_next(&last_item, grammar)
        invariant
            last_item.wf(),
            last_item.start <= row,
            all_fit(dest@, row),
            first.next <= last_item.next,
            advanced_by(last_item, first, last_item.next - first.next),
            last_item.shadow == first.shadow,
            dest@.len() == before.len() + last_item.next - first.next + 1,
            forall|j: int| 0 <= j < before.len() ==> dest@[j] == before[j],
            forall|k: int|
                0 <= k < dest@.len() - before.len() ==> advanced_by(
                    #[trigger] dest@[before.len() + k],
                    first,
                    k,
                ),
            eq_exact::<Symbol>() ==> forall|p: int|
                first.next <= p < last_item.next ==> grammar.nullable_set().contains(
                    #[trigger] first.rule.rhs@[p].symbol,
                ),
        decreases last_item.rule.rhs@.len() - last_item.next,
    {
        last_item.advance();
        dest.push(last_item.copy());
    }
}

/// Advances `item` past its next symbol.
fn advance_past_symbol<'r, Symbol: GrammarSymbol, G: Grammar<Symbol>>(
    item: &Item<'r, Symbol>,
    dest: &mut Vec<Item<'r, Symbol>>,
    grammar: &G,
    Ghost(row): Ghost<int>,
)
    requires
        item.wf(),
        item.next < item.rule.rhs@.len(),
        item.start <= row,
        all_fit(old(dest)@, row),
    ensures
        all_fit(final(dest)@, row),
        final(dest)@.len() > old(dest)@.len(),
        forall|j: int| 0 <= j < old(dest)@.len() ==> final(dest)@[j] == old(dest)@[j],
        forall|k: int|
            0 <= k < final(dest)@.len() - old(dest)@.len() ==> advanced_by(
                #[trigger] final(dest)@[old(dest)@.len() + k],
                *item,
                k + 1,
            ),
        eq_exact::<Symbol>() ==> nullable_stop(
            *grammar,
            *item.rule,
            item.next + 1,
            item.next + final(dest)@.len() - old(dest)@.len(),
        ),
{
    let next_item = item.advance_new();
    let ghost n = next_item;
    advance_over_nullable_symbols(next_item, dest, grammar, Ghost(row));
    proof {
        assert forall|k: int| 0 <= k < dest@.len() - old(dest)@.len() implies advanced_by(
            #[trigger] dest@[old(dest)@.len() + k],
            *item,
            k + 1,
        ) by {
            assert(advanced_by(dest@[old(dest)@.len() + k], n, k));
        }
    }
}

/// Matches one more element of the list `symbol` that `item` stands before: the element is
/// recorded in the shadow, and the item may either take more elements or move past the list.
fn advance_list_via_shadow<'r, Symbol: GrammarSymbol, G: Grammar<Symbol>>(
    item: &Item<'r, Symbol>,
    symbol: &Symbol,
    dest: &mut Vec<Item<'r, Symbol>>,
    grammar: &G,
    Ghost(row): Ghost<int>,
)
    requires
        item.wf(),
        item.next < item.rule.rhs@.len(),
        item.start <= row,
        all_fit(old(dest)@, row),
    ensures
        all_fit(final(dest)@, row),
        final(dest)@.len() >= old(dest)@.len() + 2,
        forall|j: int| 0 <= j < old(dest)@.len() ==> final(dest)@[j] == old(dest)@[j],
        forall|k: int|
            0 <= k < final(dest)@.len() - old(dest)@.len() ==> list_item_at(
                #[trigger] final(dest)@[old(dest)@.len() + k],
                *item,
                *symbol,
                k,
            ),
        eq_exact::<Symbol>() ==> nullable_stop(
            *grammar,
            *item.rule,
            item.next + 1,
            item.next + final(dest)@.len() - old(dest)@.len() - 1,
        ),
{
    let rhs_len = item.rule.rhs.len();
    let mut shadow_vec = item.shadow_copy();
    let n = shadow_vec.len();
    if item.can_extend_list(symbol) && n > 0 {
        let mut previous = shadow_vec[n - 1].copy();
        previous.reps = previous.reps.saturating_add(1);
        shadow_vec.set(n - 1, previous);
        proof {
            if value_exact::<Symbol>() {
                assert(shadow_vec@ =~= list_shadow(*item, *symbol));
            }
        }
    } else {
        item.extend_shadow(&mut shadow_vec);
        shadow_vec.push(
            ShadowSymbol { symbol: copy_symbol(symbol), spm: SymbolParseMethod::Repeated, reps: 1 },
        );
        proof {
            if value_exact::<Symbol>() {
                assert(shadow_vec@ =~= list_shadow(*item, *symbol));
            }
        }
    }
    let mut new_item = Item {
        rule: item.rule,
        shadow: Some(shadow_vec),
        shadow_top: item.next + 1,
        start: item.start,
        next: item.next,
        depth: item.depth,
        ignore_next: false,
        weight: item.weight,
    };
    let ghost start_len = dest@.len();
    dest.push(new_item.copy());
    new_item.advance();
    let ghost moved = new_item;
    let ghost mid = dest@;
    advance_over_nullable_symbols(new_item, dest, grammar, Ghost(row));
    proof {
        assert forall|k: int| 0 <= k < dest@.len() - old(dest)@.len() implies list_item_at(
            #[trigger] dest@[old(dest)@.len() + k],
            *item,
            *symbol,
            k,
        ) by {
            if k == 0 {
                assert(dest@[old(dest)@.len() + k] == mid[start_len as int]);
            } else {
                assert(advanced_by(dest@[mid.len() + (k - 1)], moved, k - 1));
            }
        }
    }
}

/// Advances `item` over its next symbol `sym`, which has been matched.
fn advance_on_matching_symbol<'r, Symbol: GrammarSymbol, G: Grammar<Symbol>>(
    item: &Item<'r, Symbol>,
    sym: &ProductionSymbol<Symbol>,
    dest: &mut Vec<Item<'r, Symbol>>,
    grammar: &G,
    Ghost(row): Ghost<int>,
)
    requires
        item.wf(),
        item.next < item.rule.rhs@.len(),
        item.start <= row,
        all_fit(old(dest)@, row),
    ensures
        all_fit(final(dest)@, row),
        final(dest)@.len() > old(dest)@.len(),
        forall|j: int| 0 <= j < old(dest)@.len() ==> final(dest)@[j] == old(dest)@[j],
        sym.is_list ==> forall|k: int|
            0 <= k < final(dest)@.len() - old(dest)@.len() ==> list_item_at(
                #[trigger] final(dest)@[old(dest)@.len() + k],
                *item,
                sym.symbol,
                k,
            ),
        !sym.is_list ==> forall|k: int|
            0 <= k < final(dest)@.len() - old(dest)@.len() ==> advanced_by(
                #[trigger] final(dest)@[old(dest)@.len() + k],
                *item,
                k + 1,
            ),
        eq_exact::<Symbol>() ==> nullable_stop(
            *grammar,
            *item.rule,
            item.next + 1,
            item.next + final(dest)@.len() - old(dest)@.len() - (if sym.is_list {
                1int
            } else {
                0int
            }),
        ),
{
    if sym.is_list {
        advance_list_via_shadow(item, &sym.symbol, dest, grammar, Ghost(row));
    } else {
        advance_past_symbol(item, dest, grammar, Ghost(row));
    }
}

/// Matches the ignored or injected terminal `symbol` within `item`, recording it in the
/// shadow. Placements that some other parse improves on are not made: one with the terminal
/// away from its affinity (except at either end of the input), one with no terminal of the
/// production next to it, and one where a list can take the terminal instead.
fn advance_via_shadow<'r, Symbol: GrammarSymbol, G: Grammar<Symbol>>(
    item: &Item<'r, Symbol>,
    symbol: &Symbol,
    spm: SymbolParseMethod,
    affinity: &InjectionAffinity,
    dest: &mut Vec<Item<'r, Symbol>>,
    more_required_tokens: bool,
    grammar: &G,
    Ghost(row): Ghost<int>,
)
    requires
        item.wf(),
        item.start <= row,
        all_fit(old(dest)@, row),
    ensures
        all_fit(final(dest)@, row),
{
    let ignore_next = match affinity {
        InjectionAffinity::Left => false,
        InjectionAffinity::Right => true,
    };
    let mut weight = item.weight.saturating_add(1);

    let terminal_before = match item.prev_symbol() {
        Some(prev) => !grammar.is_non_terminal(prev),
        None => false,
    };
    let terminal_after = match item.next_symbol() {
        Some(next) => !grammar.is_non_terminal(next),
        None => false,
    };
    let satisfied = match affinity {
        InjectionAffinity::Left => terminal_before,
        InjectionAffinity::Right => terminal_after,
    };

    if !satisfied {
        weight = weight.saturating_add(1);
        let at_start = item.start == 0 && item.prev_symbol().is_none();
        let at_end = !more_required_tokens;
        if !at_start && !at_end {
            return;
        }
    }
    if !terminal_before && !terminal_after && item.rule.rhs.len() != 0 {
        return;
    }
    if item.can_extend_list(symbol) {
        return;
    }

    let mut shadow_vec = item.shadow_copy();
    item.extend_shadow(&mut shadow_vec);
    shadow_vec.push(ShadowSymbol { symbol: symbol.clone(), spm, reps: 1 });

    let new_item = Item {
        rule: item.rule,
        shadow: Some(shadow_vec),
        shadow_top: item.next,
        start: item.start,
        next: item.next,
        depth: item.depth,
        ignore_next,
        weight,
    };
    advance_over_nullable_symbols(new_item, dest, grammar, Ghost(row));
}

/// The items reached from the items of `src` that stand before `symbol`, by matching it.
fn cross<'r, Symbol: GrammarSymbol, G: Grammar<Symbol>>(
    src: &Vec<Item<'r, Symbol>>,
    symbol: &Symbol,
    grammar: &G,
    Ghost(row): Ghost<int>,
) -> (dest: Vec<Item<'r, Symbol>>)
    requires
        all_fit(src@, row),
    ensures
        all_fit(dest@, row),
{
    let mut dest: Vec<Item<'r, Symbol>> = Vec::new();
    let mut i: usize = 0;
    while i < src.len()
        invariant
            i <= src@.len(),
            all_fit(src@, row),
            all_fit(dest@, row),
        decreases src@.len() - i,
    {
        let item = &src[i];
        if let Some(sym) = item.next_prod_symbol() {
            if sym.symbol == *symbol {
                advance_on_matching_symbol(item, sym, &mut dest, grammar, Ghost(row));
            }
        }
        i += 1;
    }
    dest
}

/// The items reached from the items of `src` by matching the ignored or injected terminal
/// `symbol`: in the production where it stands next, otherwise in the shadow.
fn cross_shadow_symbol<'r, Symbol: GrammarSymbol, G: Grammar<Symbol>>(
    src: &RChartRow<'r, Symbol>,
    symbol: &Symbol,
    spm: SymbolParseMethod,
    affinity: &InjectionAffinity,
    more_required_tokens: bool,
    grammar: &G,
    Ghost(row): Ghost<int>,
) -> (dest: Vec<Item<'r, Symbol>>)
    requires
        src.wf(row),
    ensures
        all_fit(dest@, row),
{
    let mut dest: Vec<Item<'r, Symbol>> = Vec::new();
    let mut i: usize = 0;
    while i < src.incomplete.len()
        invariant
            i <= src.incomplete@.len(),
            src.wf(row),
            all_fit(dest@, row),
        decreases src.incomplete@.len() - i,
    {
        let item = &src.incomplete[i];
        assert(item_fits(src.incomplete@[i as int], row, false));
        match item.next_prod_symbol() {
            Some(sym) => {
                if sym.symbol == *symbol {
                    advance_on_matching_symbol(item, sym, &mut dest, grammar, Ghost(row));
                } else {
                    advance_via_shadow(
                        item,
                        symbol,
                        spm,
                        affinity,
                        &mut dest,
                        more_required_tokens,
                        grammar,
                        Ghost(row),
                    );
                }
            },
            None => {},
        }
        i += 1;
    }
    let mut j: usize = 0;
    while j < src.complete.len()
        invariant
            j <= src.complete@.len(),
            src.wf(row),
            all_fit(dest@, row),
        decreases src.complete@.len() - j,
    {
        let item = &src.complete[j];
        assert(item_fits(src.complete@[j as int], row, true));
        advance_via_shadow(
            item,
            symbol,
            spm,
            affinity,
            &mut dest,
            more_required_tokens,
            grammar,
            Ghost(row),
        );
        j += 1;
    }
    dest
}

/// Completes the items of the row under construction (row `cursor`): each complete item advances
/// the items of its start row that stand before its left-hand side. Each step spends one unit of
/// `fuel`; returns false if the fuel runs out.
fn complete_full<'r, Symbol: GrammarSymbol, G: Grammar<Symbol>>(
    cursor: usize,
    grammar: &'r G,
    chart: &RChart<'r, Symbol>,
    current: &mut RChartRow<'r, Symbol>,
    fuel: &mut u64,
) -> (done: bool)
    requires
        chart.wf(),
        chart.rows@.len() == cursor,
        old(current).wf(cursor as int),
    ensures
        final(current).wf(cursor as int),
{
    let mut i: usize = 0;
    while i < current.complete.len()
        invariant
            chart.wf(),
            chart.rows@.len() == cursor,
            current.wf(cursor as int),
        decreases *fuel,
    {
        if *fuel == 0 {
            return false;
        }
        *fuel = *fuel - 1;
        if current.complete[i].ignore_next {
            i += 1;
            continue;
        }
        assert(item_fits(current.complete@[i as int], cursor as int, true));
        let rule: &'r Production<Symbol> = current.complete[i].rule;
        let start = current.complete[i].start;
        let accumulator = if start == cursor {
            cross(&current.incomplete, &rule.lhs, grammar, Ghost(cursor as int))
        } else {
            assert(chart.rows@[start as int].wf(start as int));
            assert(all_fit(chart.rows@[start as int].incomplete@, cursor as int)) by {
                assert forall|k: int| 0 <= k < chart.rows@[start as int].incomplete@.len() implies (
                #[trigger] chart.rows@[start as int].incomplete@[k]).wf()
                    && chart.rows@[start as int].incomplete@[k].start <= cursor by {
                    assert(item_fits(chart.rows@[start as int].incomplete@[k], start as int, false));
                }
            }
            cross(&chart.rows[start].incomplete, &rule.lhs, grammar, Ghost(cursor as int))
        };
        let mut items_to_add: Vec<Item<'r, Symbol>> = Vec::new();
        let mut acc = reverse_vec(accumulator);
        proof {
            assert forall|k: int| 0 <= k < acc@.len() implies (#[trigger] acc@[k]).wf()
                && acc@[k].start <= cursor by {
                assert(acc@[k] == accumulator@[accumulator@.len() - 1 - k]);
            }
        }
        while acc.len() > 0
            invariant
                all_fit(acc@, cursor as int),
                all_fit(items_to_add@, cursor as int),
            decreases acc@.len(),
        {
            let completed_item = acc.pop().unwrap();
            if !current.contains(&completed_item) {
                items_to_add.push(completed_item);
            }
        }
        let mut add = reverse_vec(items_to_add);
        proof {
            assert forall|k: int| 0 <= k < add@.len() implies (#[trigger] add@[k]).wf()
                && add@[k].start <= cursor by {
                assert(add@[k] == items_to_add@[items_to_add@.len() - 1 - k]);
            }
        }
        while add.len() > 0
            invariant
                all_fit(add@, cursor as int),
                current.wf(cursor as int),
            decreases add@.len(),
        {
            let new_item = add.pop().unwrap();
            current.unsafe_append(new_item, Ghost(cursor as int));
        }
        i += 1;
    }
    true
}

/// Adds to the row under construction (row `cursor`) an item for each production of `symbol`,
/// starting at `cursor`. A production of the start symbol is not added twice.
fn predict_op<'r, Symbol: GrammarSymbol, G: Grammar<Symbol>>(
    cursor: usize,
    depth: usize,
    symbol: &Symbol,
    grammar: &'r G,
    current: &mut RChartRow<'r, Symbol>,
)
    requires
        old(current).wf(cursor as int),
    ensures
        final(current).wf(cursor as int),
        final(current).incomplete@.len() >= old(current).incomplete@.len(),
{
    let mut items_to_add: Vec<Item<'r, Symbol>> = Vec::new();
    match grammar.productions_for_lhs(symbol) {
        None => {},
        Some(prods) => {
            let is_start = *symbol == *grammar.start();
            let mut j: usize = 0;
            while j < prods.len()
                invariant
                    j <= prods@.len(),
                    all_fit(items_to_add@, cursor as int),
                decreases prods@.len() - j,
            {
                let new_item = Item {
                    rule: &prods[j],
                    shadow: None,
                    shadow_top: 0,
                    start: cursor,
                    next: 0,
                    depth,
                    ignore_next: false,
                    weight: 0,
                };
                if !is_start || !current.contains(&new_item) {
                    items_to_add.push(new_item);
                }
                j += 1;
            }
        },
    }
    let mut add = reverse_vec(items_to_add);
    proof {
        assert forall|k: int| 0 <= k < add@.len() implies (#[trigger] add@[k]).wf()
            && add@[k].start <= cursor by {
            assert(add@[k] == items_to_add@[items_to_add@.len() - 1 - k]);
        }
    }
    while add.len() > 0
        invariant
            all_fit(add@, cursor as int),
            current.wf(cursor as int),
            current.incomplete@.len() >= old(current).incomplete@.len(),
        decreases add@.len(),
    {
        let new_item = add.pop().unwrap();
        current.unsafe_append(new_item, Ghost(cursor as int));
    }
}

/// Whether `symbols` holds a value equal to `symbol`.
fn holds_symbol<Symbol: GrammarSymbol>(symbols: &Vec<Symbol>, symbol: &Symbol) -> (b: bool)
    ensures
        eq_exact::<Symbol>() ==> (b == symbols@.contains(*symbol)),
{
    let mut i: usize = 0;
    while i < symbols.len()
        invariant
            i <= symbols@.len(),
            eq_exact::<Symbol>() ==> forall|j: int| 0 <= j < i ==> symbols@[j] != *symbol,
        decreases symbols@.len() - i,
    {
        if symbols[i] == *symbol {
            return true;
        }
        i += 1;
    }
    false
}

/// Predicts the items of the row under construction (row `cursor`): each incomplete item that
/// stands before a non-terminal adds the productions of that non-terminal (once per
/// non-terminal), and moves past it if it is nullable. Each step spends one unit of `fuel`;
/// returns false if the fuel runs out.
fn predict_full<'r, Symbol: GrammarSymbol, G: Grammar<Symbol>>(
    cursor: usize,
    grammar: &'r G,
    current: &mut RChartRow<'r, Symbol>,
    fuel: &mut u64,
) -> (done: bool)
    requires
        old(current).wf(cursor as int),
    ensures
        final(current).wf(cursor as int),
{
    let mut symbols: Vec<Symbol> = Vec::new();
    let mut i: usize = 0;
    while i < current.incomplete.len()
        invariant
            current.wf(cursor as int),
        decreases *fuel,
    {
        if *fuel == 0 {
            return false;
        }
        *fuel = *fuel - 1;
        if current.incomplete[i].ignore_next {
            i += 1;
            continue;
        }
        assert(item_fits(current.incomplete@[i as int], cursor as int, false));
        let item = current.incomplete[i].copy();
        match item.next_symbol() {
            None => {},
            Some(symbol) => {
                if grammar.is_non_terminal(symbol) {
                    if grammar.is_nullable_nt(symbol) {
                        let new_item = item.advance_new();
                        if !current.contains(&new_item) {
                            current.unsafe_append(new_item, Ghost(cursor as int));
                        }
                    }
                    if !holds_symbol(&symbols, symbol) {
                        predict_op(
                            cursor,
                            item.depth.saturating_add(1),
                            symbol,
                            grammar,
                            current,
                        );
                        symbols.push(symbol.clone());
                    }
                }
            },
        }
        i += 1;
    }
    true
}

/// The items of the row after row `cursor`, reached by matching token `cursor`: a token of an
/// ignorable or injectable kind may also be matched in the shadow of an item. Empty if no token
/// is left.
fn scan_full<'r, Symbol: GrammarSymbol, G: Grammar<Symbol>>(
    cursor: usize,
    final_required_token: usize,
    lex: &Vec<Token<Symbol>>,
    grammar: &G,
    current: &RChartRow<'r, Symbol>,
) -> (next_row: Vec<Item<'r, Symbol>>)
    requires
        current.wf(cursor as int),
        cursor <= lex@.len(),
        forall|i: int| 0 <= i < lex@.len() ==> (#[trigger] lex@[i]).spec_kind() is Some,
    ensures
        all_fit(next_row@, cursor + 1),
        cursor == lex@.len() ==> next_row@.len() == 0,
{
    if cursor == lex.len() {
        return Vec::new();
    }
    let more_required_tokens = cursor <= final_required_token;
    assert(lex@[cursor as int].spec_kind() is Some);
    let symbol = lex[cursor].kind();
    let next_row = if grammar.is_ignorable(symbol) {
        cross_shadow_symbol(
            current,
            symbol,
            SymbolParseMethod::Ignored,
            &InjectionAffinity::Right,
            more_required_tokens,
            grammar,
            Ghost(cursor as int),
        )
    } else if grammar.is_injectable(symbol) {
        match grammar.injection_affinity(symbol) {
            Some(affinity) => cross_shadow_symbol(
                current,
                symbol,
                SymbolParseMethod::Injected,
                affinity,
                more_required_tokens,
                grammar,
                Ghost(cursor as int),
            ),
            None => Vec::new(),
        }
    } else {
        assert(all_fit(current.incomplete@, cursor as int)) by {
            assert forall|k: int| 0 <= k < current.incomplete@.len() implies (
            #[trigger] current.incomplete@[k]).wf() && current.incomplete@[k].start <= cursor by {
                assert(item_fits(current.incomplete@[k], cursor as int, false));
            }
        }
        cross(&current.incomplete, symbol, grammar, Ghost(cursor as int))
    };
    next_row
}

/// `n`, or the largest `usize` where `n` is larger.
spec fn saturated(n: int) -> int {
    if n > usize::MAX {
        usize::MAX as int
    } else {
        n
    }
}

/// The number of positions that the repeated symbols of `s` cover beyond their first.
spec fn repeated_extra<Symbol: GrammarSymbol>(s: Seq<ShadowSymbol<Symbol>>) -> int
    decreases s.len(),
{
    if s.len() == 0 {
        0
    } else {
        repeated_extra(s.drop_last()) + (if s.last().spm == SymbolParseMethod::Repeated
            && s.last().reps > 0 {
            s.last().reps - 1
        } else {
            0
        })
    }
}

/// The number of repetitions of all the symbols of `s`.
spec fn reps_sum<Symbol: GrammarSymbol>(s: Seq<ShadowSymbol<Symbol>>) -> int
    decreases s.len(),
{
    if s.len() == 0 {
        0
    } else {
        reps_sum(s.drop_last()) + s.last().reps
    }
}

/// Whether two optional productions are both absent, or equal.
spec fn same_rule<'r, Symbol: GrammarSymbol>(
    a: Option<&'r Production<Symbol>>,
    b: Option<&'r Production<Symbol>>,
) -> bool {
    match (a, b) {
        (None, None) => true,
        (Some(x), Some(y)) => x.lhs == y.lhs && x.rhs@ == y.rhs@,
        _ => false,
    }
}

/// Whether two edges recognize the same production over the same tokens the same way.
spec fn same_edge<'r, Symbol: GrammarSymbol>(a: Edge<'r, Symbol>, b: Edge<'r, Symbol>) -> bool {
    &&& same_rule(a.rule, b.rule)
    &&& shadow_seq(a.shadow) == shadow_seq(b.shadow)
    &&& a.shadow_top == b.shadow_top
    &&& a.shadow_len == b.shadow_len
    &&& a.start == b.start
    &&& a.finish == b.finish
    &&& a.ignored == b.ignored
    &&& a.weight == b.weight
    &&& a.depth == b.depth
}

/// The number of tokens that `edge` spans.
spec fn edge_width<'r, Symbol: GrammarSymbol>(edge: Edge<'r, Symbol>) -> int {
    if edge.finish >= edge.start {
        edge.finish - edge.start
    } else {
        0
    }
}

/// Whether `token` is of a kind that `grammar` lets be injected or ignored.
spec fn skippable<Symbol: GrammarSymbol, G: Grammar<Symbol>>(grammar: G, token: Token<Symbol>) -> bool {
    grammar.injectables().contains_key(token.spec_kind()->0) || grammar.ignorable_set().contains(
        token.spec_kind()->0,
    )
}

/// Parse Chart Edge: a recognized production `rule` (none for a single token), spanning the
/// tokens from `start` up to `finish`, with the `shadow` symbols it matched besides the
/// production symbols before `shadow_top`, and `shadow_len` the number of tokens the shadow
/// covers.
struct Edge<'r, Symbol: GrammarSymbol> {
    rule: Option<&'r Production<Symbol>>,
    shadow: Option<Vec<ShadowSymbol<Symbol>>>,
    shadow_top: usize,
    shadow_len: usize,
    start: usize,
    finish: usize,
    ignored: bool,
    weight: usize,
    depth: usize,
}

impl<'r, Symbol: GrammarSymbol> Edge<'r, Symbol> {
    /// The edge for the single token `start`, matched by parse method `spm`.
    fn terminal(start: usize, spm: SymbolParseMethod) -> (e: Self)
        requires
            start < usize::MAX,
        ensures
            e.rule is None,
            e.start == start,
            e.finish == start + 1,
    {
        Edge {
            rule: None,
            shadow: None,
            shadow_top: 0,
            shadow_len: 0,
            start,
            finish: start + 1,
            ignored: spm == SymbolParseMethod::Ignored,
            weight: 0,
            depth: 0,
        }
    }

    fn copy(&self) -> (c: Self)
        ensures
            c.rule == self.rule,
            c.shadow_top == self.shadow_top,
            c.shadow_len == self.shadow_len,
            c.start == self.start,
            c.finish == self.finish,
            c.ignored == self.ignored,
            c.weight == self.weight,
            c.depth == self.depth,
    {
        Edge {
            rule: self.rule,
            shadow: copy_shadow_opt(&self.shadow),
            shadow_top: self.shadow_top,
            shadow_len: self.shadow_len,
            start: self.start,
            finish: self.finish,
            ignored: self.ignored,
            weight: self.weight,
            depth: self.depth,
        }
    }

    fn same(&self, other: &Self) -> (r: bool)
        ensures
            eq_exact::<Symbol>() ==> (r == same_edge(*self, *other)),
    {
        let same_rule = match (self.rule, other.rule) {
            (None, None) => true,
            (Some(a), Some(b)) => same_production(a, b),
            _ => false,
        };
        same_rule && same_shadow(&self.shadow, &other.shadow) && self.shadow_top
            == other.shadow_top && self.shadow_len == other.shadow_len && self.start == other.start
            && self.finish == other.finish && self.ignored == other.ignored && self.weight
            == other.weight && self.depth == other.depth
    }

    /// The number of symbols the edge matched: its shadow tokens, then the production symbols
    /// from `shadow_top` on.
    fn symbols_len(&self) -> (n: usize)
        ensures
            n == match self.rule {
                Some(rule) => saturated(self.shadow_len + (if self.shadow_top <= rule.rhs@.len() {
                    rule.rhs@.len() - self.shadow_top
                } else {
                    0
                })),
                None => 0,
            },
    {
        match self.rule {
            Some(rule) => {
                let rest = if self.shadow_top <= rule.rhs.len() {
                    rule.rhs.len() - self.shadow_top
                } else {
                    0
                };
                self.shadow_len.saturating_add(rest)
            },
            None => 0,
        }
    }

    /// The number of tokens that `shadow` covers: each repeated symbol counts once per
    /// repetition.
    fn shadow_len_of(shadow: &Option<Vec<ShadowSymbol<Symbol>>>) -> (n: usize)
        ensures
            n == match shadow_seq(*shadow) {
                Some(v) => saturated(v.len() + repeated_extra(v)),
                None => 0,
            },
    {
        match shadow {
            Some(shadow) => {
                let mut repeated: usize = 0;
                let mut i: usize = 0;
                while i < shadow.len()
                    invariant
                        i <= shadow@.len(),
                        repeated == saturated(repeated_extra(shadow@.take(i as int))),
                    decreases shadow@.len() - i,
                {
                    proof {
                        assert(shadow@.take(i + 1).drop_last() =~= shadow@.take(i as int));
                    }
                    if shadow[i].spm == SymbolParseMethod::Repeated && shadow[i].reps > 0 {
                        repeated = repeated.saturating_add(shadow[i].reps - 1);
                    }
                    i += 1;
                }
                proof {
                    assert(shadow@.take(i as int) =~= shadow@);
                }
                shadow.len().saturating_add(repeated)
            },
            None => 0,
        }
    }

    /// The symbol matched at position `index` of the edge, its parse method and its number of
    /// repetitions; `None` if `index` is out of range.
    fn symbol_at(&self, index: usize) -> (r: Option<(&Symbol, SymbolParseMethod, usize)>)
        ensures
            index < self.shadow_len ==> self.covers_shadow(index as int, r),
            index >= self.shadow_len ==> r == match self.rule {
                Some(rule) => if self.shadow_top <= rule.rhs@.len() && index - self.shadow_len
                    < rule.rhs@.len() - self.shadow_top {
                    Some(
                        (
                            &rule.rhs@[index - self.shadow_len + self.shadow_top].symbol,
                            SymbolParseMethod::Standard,
                            1usize,
                        ),
                    )
                } else {
                    None
                },
                None => None,
            },
    {
        if index < self.shadow_len {
            self.shadow_symbol_at(index)
        } else {
            match self.rule {
                Some(rule) => {
                    let i = index - self.shadow_len;
                    if self.shadow_top <= rule.rhs.len() && i < rule.rhs.len() - self.shadow_top {
                        Some((&rule.rhs[i + self.shadow_top].symbol, SymbolParseMethod::Standard, 1))
                    } else {
                        None
                    }
                },
                None => None,
            }
        }
    }

    /// The shadow symbol that covers position `index`, counting each repetition.
    /// Whether `r` is the shadow symbol that covers position `index`: the symbol at that
    /// position where the shadow holds one symbol per position, else the symbol whose
    /// repetitions span it.
    spec fn covers_shadow(&self, index: int, r: Option<(&Symbol, SymbolParseMethod, usize)>) -> bool {
        match shadow_seq(self.shadow) {
            None => r is None,
            Some(v) => if v.len() == self.shadow_len {
                if index < v.len() {
                    r == Some((&v[index].symbol, v[index].spm, v[index].reps))
                } else {
                    r is None
                }
            } else {
                match r {
                    Some(t) => exists|j: int|
                        0 <= j < v.len() && reps_sum(v.take(j)) <= index < reps_sum(
                            #[trigger] v.take(j + 1),
                        ) && t == (&v[j].symbol, v[j].spm, v[j].reps),
                    None => saturated(reps_sum(v)) <= index,
                }
            },
        }
    }

    fn shadow_symbol_at(&self, index: usize) -> (r: Option<(&Symbol, SymbolParseMethod, usize)>)
        ensures
            self.covers_shadow(index as int, r),
    {
        match &self.shadow {
            None => None,
            Some(shadow) => {
                if shadow.len() == self.shadow_len {
                    if index < shadow.len() {
                        let shadow_symbol = &shadow[index];
                        return Some((&shadow_symbol.symbol, shadow_symbol.spm, shadow_symbol.reps));
                    }
                    return None;
                }
                let mut expanded_index: usize = 0;
                let mut real_index: usize = 0;
                while real_index < shadow.len()
                    invariant
                        real_index <= shadow@.len(),
                        shadow_seq(self.shadow) == Some(shadow@),
                        shadow@.len() != self.shadow_len,
                        expanded_index == saturated(reps_sum(shadow@.take(real_index as int))),
                        expanded_index <= index,
                    decreases shadow@.len() - real_index,
                {
                    proof {
                        assert(shadow@.take(real_index + 1).drop_last() =~= shadow@.take(
                            real_index as int,
                        ));
                    }
                    expanded_index = expanded_index.saturating_add(shadow[real_index].reps);
                    if expanded_index > index {
                        let shadow_symbol = &shadow[real_index];
                        return Some((&shadow_symbol.symbol, shadow_symbol.spm, shadow_symbol.reps));
                    }
                    real_index += 1;
                }
                proof {
                    assert(shadow@.take(real_index as int) =~= shadow@);
                }
                None
            },
        }
    }

    /// Whether the edge is a production of a single terminal, with no shadow.
    fn is_terminal<G: Grammar<Symbol>>(&self, grammar: &G) -> (b: bool)
        ensures
            eq_exact::<Symbol>() ==> (b == match self.rule {
                Some(rule) => rule.rhs@.len() == 1 && !grammar.non_terminal_set().contains(
                    rule.rhs@[0].symbol,
                ) && self.shadow is None,
                None => false,
            }),
    {
        match self.rule {
            Some(rule) => rule.rhs.len() == 1 && !grammar.is_non_terminal(&rule.rhs[0].symbol)
                && self.shadow.is_none(),
            None => false,
        }
    }

    /// Whether the edge matched no tokens but ignored ones.
    fn is_empty(&self) -> (b: bool)
        ensures
            b == ((match self.rule {
                Some(rule) => rule.rhs@.len() == 0,
                None => true,
            }) && (match shadow_seq(self.shadow) {
                Some(v) => forall|j: int|
                    0 <= j < v.len() ==> (#[trigger] v[j]).spm == SymbolParseMethod::Ignored,
                None => true,
            })),
    {
        let empty_normal = match self.rule {
            Some(rule) => rule.rhs.len() == 0,
            None => true,
        };
        let empty_shadow = match &self.shadow {
            Some(shadow) => {
                let mut all_ignored = true;
                let mut i: usize = 0;
                while i < shadow.len()
                    invariant
                        i <= shadow@.len(),
                        all_ignored == forall|j: int|
                            0 <= j < i ==> (#[trigger] shadow@[j]).spm == SymbolParseMethod::Ignored,
                    decreases shadow@.len() - i,
                {
                    if shadow[i].spm != SymbolParseMethod::Ignored {
                        all_ignored = false;
                    }
                    i += 1;
                }
                all_ignored
            },
            None => true,
        };
        empty_normal && empty_shadow
    }
}

/// The items of `items` that are recorded as edges: those that do not ignore their next
/// token, and all of them on the last row.
spec fn marked_items<'r, Symbol: GrammarSymbol>(items: Seq<Item<'r, Symbol>>, last: bool) -> Seq<
    Item<'r, Symbol>,
>
    decreases items.len(),
{
    if items.len() == 0 {
        Seq::empty()
    } else {
        let rest = marked_items(items.drop_last(), last);
        if !items.last().ignore_next || last {
            rest.push(items.last())
        } else {
            rest
        }
    }
}

/// Whether `edge` records the complete item `item` as ending at `cursor`.
spec fn edge_of<'r, Symbol: GrammarSymbol>(edge: Edge<'r, Symbol>, item: Item<'r, Symbol>, cursor: usize) -> bool {
    &&& edge.rule == Some(item.rule)
    &&& edge.shadow is Some <==> item.shadow is Some
    &&& clones_exactly::<Symbol>() ==> shadow_seq(edge.shadow) == shadow_seq(item.shadow)
    &&& edge.shadow_top == item.shadow_top
    &&& edge.shadow_len == (match shadow_seq(item.shadow) {
        Some(v) => saturated(v.len() + repeated_extra(v)),
        None => 0,
    })
    &&& edge.start == item.start
    &&& edge.finish == cursor
    &&& !edge.ignored
    &&& edge.weight == item.weight
    &&& edge.depth == item.depth
}

/// Records the complete items of the row under construction (row `cursor`) as edges of the
/// parse chart, ending at `cursor`; an item that ignores its next token is recorded only on the
/// last row, `last_row`.
fn parse_mark_full<'r, Symbol: GrammarSymbol>(
    cursor: usize,
    last_row: usize,
    current: &RChartRow<'r, Symbol>,
    edges: &mut Vec<Edge<'r, Symbol>>,
)
    ensures
        final(edges)@.len() == old(edges)@.len() + marked_items(
            current.complete@,
            cursor == last_row,
        ).len(),
        forall|j: int| 0 <= j < old(edges)@.len() ==> final(edges)@[j] == old(edges)@[j],
        forall|j: int|
            0 <= j < marked_items(current.complete@, cursor == last_row).len() ==> edge_of(
                #[trigger] final(edges)@[old(edges)@.len() + j],
                marked_items(current.complete@, cursor == last_row)[j],
                cursor,
            ),
{
    let ghost before = edges@;
    let ghost items = current.complete@;
    let ghost last = cursor == last_row;
    let mut i: usize = 0;
    while i < current.complete.len()
        invariant
            i <= current.complete@.len(),
            items == current.complete@,
            last == (cursor == last_row),
            edges@.len() == before.len() + marked_items(items.take(i as int), last).len(),
            forall|j: int| 0 <= j < before.len() ==> edges@[j] == before[j],
            forall|j: int|
                0 <= j < marked_items(items.take(i as int), last).len() ==> edge_of(
                    #[trigger] edges@[before.len() + j],
                    marked_items(items.take(i as int), last)[j],
                    cursor,
                ),
        decreases current.complete@.len() - i,
    {
        proof {
            assert(items.take(i + 1).drop_last() =~= items.take(i as int));
            assert(items.take(i + 1).last() == items[i as int]);
        }
        let item = &current.complete[i];
        if !item.ignore_next || cursor == last_row {
            edges.push(
                Edge {
                    rule: Some(item.rule),
                    shadow: copy_shadow_opt(&item.shadow),
                    shadow_top: item.shadow_top,
                    shadow_len: Edge::<'r, Symbol>::shadow_len_of(&item.shadow),
                    start: item.start,
                    finish: cursor,
                    ignored: false,
                    weight: item.weight,
                    depth: item.depth,
                },
            );
        }
        i += 1;
    }
    proof {
        assert(items.take(i as int) =~= items);
    }
}

/// Whether the row holds a complete item of the start symbol that starts at the first token.
fn recognized<'r, Symbol: GrammarSymbol, G: Grammar<Symbol>>(
    grammar: &G,
    row: &RChartRow<'r, Symbol>,
) -> (b: bool)
    ensures
        eq_exact::<Symbol>() ==> (b == exists|j: int|
            0 <= j < row.complete@.len() && (#[trigger] row.complete@[j]).rule.lhs
                == grammar.start_symbol() && row.complete@[j].start == 0),
{
    let mut i: usize = 0;
    while i < row.complete.len()
        invariant
            i <= row.complete@.len(),
            eq_exact::<Symbol>() ==> forall|j: int|
                0 <= j < i ==> !((#[trigger] row.complete@[j]).rule.lhs == grammar.start_symbol()
                    && row.complete@[j].start == 0),
        decreases row.complete@.len() - i,
    {
        let item = &row.complete[i];
        if item.rule.lhs == *grammar.start() && item.start == 0 {
            return true;
        }
        i += 1;
    }
    false
}

/// Parse Path: the edges matched by the symbols of an edge, last symbol first.
struct WeightedParsePath<'r, Symbol: GrammarSymbol> {
    path: Vec<Edge<'r, Symbol>>,
    weight: usize,
}

impl<'r, Symbol: GrammarSymbol> WeightedParsePath<'r, Symbol> {
    fn empty() -> (p: Self)
        ensures
            p.path@.len() == 0,
            p.weight == 0,
    {
        WeightedParsePath { path: Vec::new(), weight: 0 }
    }

    fn append(&mut self, edge: Edge<'r, Symbol>, weight: usize)
        ensures
            final(self).path@ == old(self).path@.push(edge),
            final(self).weight == saturated(old(self).weight + weight),
    {
        self.weight = self.weight.saturating_add(weight);
        self.path.push(edge);
    }
}

/// Edge Map: values keyed by edges, where equal edges share an entry. Each key is the position
/// of an edge in `edges`.
struct EdgeMap<V> {
    keys: Vec<usize>,
    values: Vec<V>,
}

impl<V> EdgeMap<V> {
    spec fn wf(&self) -> bool {
        self.keys@.len() == self.values@.len()
    }

    fn new() -> (m: Self)
        ensures
            m.wf(),
    {
        EdgeMap { keys: Vec::new(), values: Vec::new() }
    }

    /// Whether the entry at position `j` is for an edge equal to `edge`.
    spec fn key_matches<'r, Symbol: GrammarSymbol>(
        &self,
        edges: Seq<Edge<'r, Symbol>>,
        edge: Edge<'r, Symbol>,
        j: int,
    ) -> bool {
        &&& self.keys@[j] < edges.len()
        &&& same_edge(edges[self.keys@[j] as int], edge)
    }

    /// Whether `i` is the first entry for an edge equal to `edge`.
    spec fn first_match<'r, Symbol: GrammarSymbol>(
        &self,
        edges: Seq<Edge<'r, Symbol>>,
        edge: Edge<'r, Symbol>,
        i: int,
    ) -> bool {
        &&& 0 <= i < self.keys@.len()
        &&& self.key_matches(edges, edge, i)
        &&& forall|j: int| 0 <= j < i ==> !self.key_matches(edges, edge, j)
    }

    /// Whether no entry is for an edge equal to `edge`.
    spec fn no_match<'r, Symbol: GrammarSymbol>(
        &self,
        edges: Seq<Edge<'r, Symbol>>,
        edge: Edge<'r, Symbol>,
    ) -> bool {
        forall|j: int| 0 <= j < self.keys@.len() ==> !self.key_matches(edges, edge, j)
    }

    /// The position of the entry whose edge equals `edge`, if any.
    fn find<'r, Symbol: GrammarSymbol>(&self, edges: &Vec<Edge<'r, Symbol>>, edge: &Edge<'r, Symbol>) -> (
        r: Option<usize>)
        requires
            self.wf(),
        ensures
            r matches Some(i) ==> i < self.keys@.len(),
            eq_exact::<Symbol>() ==> match r {
                Some(i) => self.first_match(edges@, *edge, i as int),
                None => self.no_match(edges@, *edge),
            },
    {
        let mut i: usize = 0;
        while i < self.keys.len()
            invariant
                i <= self.keys@.len(),
                eq_exact::<Symbol>() ==> forall|j: int|
                    0 <= j < i ==> !self.key_matches(edges@, *edge, j),
            decreases self.keys@.len() - i,
        {
            let k = self.keys[i];
            if k < edges.len() && edges[k].same(edge) {
                return Some(i);
            }
            i += 1;
        }
        None
    }

    fn get<'r, Symbol: GrammarSymbol>(&self, edges: &Vec<Edge<'r, Symbol>>, edge: &Edge<'r, Symbol>) -> (
        r: Option<&V>)
        requires
            self.wf(),
        ensures
            eq_exact::<Symbol>() ==> (r is None <==> self.no_match(edges@, *edge)),
            eq_exact::<Symbol>() ==> (r matches Some(v) ==> exists|i: int|
                self.first_match(edges@, *edge, i) && *v == #[trigger] self.values@[i]),
    {
        match self.find(edges, edge) {
            Some(i) => Some(&self.values[i]),
            None => None,
        }
    }

    /// Sets the value of the entry for the edge at position `key` of `edges`.
    fn insert<'r, Symbol: GrammarSymbol>(&mut self, edges: &Vec<Edge<'r, Symbol>>, key: usize, value: V)
        requires
            old(self).wf(),
            key < edges@.len(),
        ensures
            final(self).wf(),
            eq_exact::<Symbol>() ==> forall|i: int|
                #![trigger old(self).values@.update(i, value)]
                old(self).first_match(edges@, edges@[key as int], i)
                    ==> final(self).keys@ == old(self).keys@
                    && final(self).values@ == old(self).values@.update(i, value),
            eq_exact::<Symbol>() ==> (old(self).no_match(edges@, edges@[key as int])
                ==> final(self).keys@ == old(self).keys@.push(key)
                && final(self).values@ == old(self).values@.push(value)),
    {
        match self.find(edges, &edges[key]) {
            Some(i) => {
                self.values.set(i, value);
            },
            None => {
                self.keys.push(key);
                self.values.push(value);
            },
        }
    }
}

/// The weight recorded for `edge`, or its own weight if none is.
fn weight_of<'r, Symbol: GrammarSymbol>(
    weight_map: &EdgeMap<usize>,
    edges: &Vec<Edge<'r, Symbol>>,
    edge: &Edge<'r, Symbol>,
) -> (w: usize)
    requires
        weight_map.wf(),
    ensures
        eq_exact::<Symbol>() ==> (weight_map.no_match(edges@, *edge) ==> w == edge.weight),
        eq_exact::<Symbol>() ==> forall|i: int|
            weight_map.first_match(edges@, *edge, i) ==> w == #[trigger] weight_map.values@[i],
{
    match weight_map.get(edges, edge) {
        Some(w) => *w,
        None => edge.weight,
    }
}

/// Whether `edge` is the edge of a production of `symbol`.
fn edge_derives<'r, Symbol: GrammarSymbol>(edge: &Edge<'r, Symbol>, symbol: &Symbol) -> (b: bool)
    ensures
        b ==> edge.rule is Some,
        eq_exact::<Symbol>() ==> (b <==> (edge.rule is Some && edge.rule->0.lhs == *symbol)),
{
    match edge.rule {
        Some(rule) => rule.lhs == *symbol,
        None => false,
    }
}

/// Search Context: what a decomposition of an edge searches over: the edges of the parse chart,
/// the position of its last row, and the weights found so far.
struct SearchContext<'c, 'r, Symbol: GrammarSymbol, G: Grammar<Symbol>> {
    edges: &'c Vec<Edge<'r, Symbol>>,
    last_row: usize,
    grammar: &'c G,
    weight_map: &'c EdgeMap<usize>,
}

/// Finds the lightest decomposition of `root_edge`, from its symbol at `depth` on, into edges
/// that start at token `root` and end where the edge ends. A list of a non-terminal is tried in
/// every way it can be split into edges. Each step spends one unit of `fuel`.
fn df_search_weighted<'c, 'r, Symbol: GrammarSymbol, G: Grammar<Symbol>>(
    depth: usize,
    root: usize,
    bottom: usize,
    root_edge: &Edge<'r, Symbol>,
    ctx: &SearchContext<'c, 'r, Symbol, G>,
    fuel: &mut u64,
) -> (found: Option<WeightedParsePath<'r, Symbol>>)
    requires
        ctx.weight_map.wf(),
    ensures
        *final(fuel) <= *old(fuel),
    decreases bottom - depth,
{
    if depth >= bottom {
        if depth == bottom && root == root_edge.finish {
            return Some(WeightedParsePath::empty());
        }
        return None;
    }
    let (symbol, spm, reps) = match root_edge.symbol_at(depth) {
        Some(s) => s,
        None => return None,
    };
    if reps > 1 {
        if reps > bottom - depth {
            return None;
        }
        if !ctx.grammar.is_non_terminal(symbol) {
            if root >= usize::MAX - reps {
                return None;
            }
            let mut edge = Edge::terminal(root + reps, spm);
            if let Some(mut path) = df_search_weighted(
                depth + reps,
                root + reps,
                bottom,
                root_edge,
                ctx,
                fuel,
            ) {
                let mut k: usize = 0;
                while k < reps
                    invariant
                        k <= reps,
                        edge.start == root + reps - k,
                        edge.finish == edge.start + 1,
                    decreases reps - k,
                {
                    edge.start = edge.start - 1;
                    edge.finish = edge.finish - 1;
                    path.append(edge.copy(), 0);
                    k += 1;
                }
                return Some(path);
            }
        } else if root <= ctx.last_row {
            let mut work_stack: Vec<(usize, usize, Option<usize>)> = Vec::new();
            let mut edge_stack: Vec<usize> = Vec::new();
            work_stack.push((0, root, None));
            let mut best_path: Option<WeightedParsePath<'r, Symbol>> = None;
            while work_stack.len() > 0
                invariant
                    ctx.weight_map.wf(),
                    depth + reps <= bottom,
                    depth < bottom,
                    reps > 1,
                    *fuel <= *old(fuel),
                decreases *fuel,
            {
                if *fuel == 0 {
                    return None;
                }
                *fuel = *fuel - 1;
                let (count, finish, edge_opt) = work_stack.pop().unwrap();
                if count <= edge_stack.len() && count > 0 {
                    edge_stack.truncate(count - 1);
                }
                if let Some(e) = edge_opt {
                    edge_stack.push(e);
                }
                if count == reps {
                    if let Some(mut path) = df_search_weighted(
                        depth + reps,
                        finish,
                        bottom,
                        root_edge,
                        ctx,
                        fuel,
                    ) {
                        let mut tree_list_weight: usize = 0;
                        let mut k: usize = 0;
                        while k < edge_stack.len()
                            invariant
                                k <= edge_stack@.len(),
                                ctx.weight_map.wf(),
                            decreases edge_stack@.len() - k,
                        {
                            let e = edge_stack[k];
                            if e < ctx.edges.len() {
                                tree_list_weight = tree_list_weight.saturating_add(
                                    weight_of(ctx.weight_map, ctx.edges, &ctx.edges[e]),
                                );
                            }
                            k += 1;
                        }
                        let better = match &best_path {
                            None => true,
                            Some(best) => path.weight.saturating_add(tree_list_weight)
                                < best.weight,
                        };
                        if better {
                            let reversed = reverse_vec(edge_stack);
                            let mut k: usize = 0;
                            while k < reversed.len()
                                invariant
                                    k <= reversed@.len(),
                                decreases reversed@.len() - k,
                            {
                                let e = reversed[k];
                                if e < ctx.edges.len() {
                                    path.append(ctx.edges[e].copy(), 0);
                                }
                                k += 1;
                            }
                            edge_stack = Vec::new();
                            path.weight = path.weight.saturating_add(tree_list_weight);
                            best_path = Some(path);
                        }
                    }
                } else if count < reps {
                    let mut k: usize = 0;
                    while k < ctx.edges.len()
                        invariant
                            k <= ctx.edges@.len(),
                            count < reps,
                        decreases ctx.edges@.len() - k,
                    {
                        let e = &ctx.edges[k];
                        if e.start == finish && edge_derives(e, symbol) {
                            work_stack.push((count + 1, e.finish, Some(k)));
                        }
                        k += 1;
                    }
                }
            }
            return best_path;
        }
    } else if !ctx.grammar.is_non_terminal(symbol) {
        if root == usize::MAX {
            return None;
        }
        let edge = Edge::terminal(root, spm);
        if let Some(mut path) = df_search_weighted(depth + 1, edge.finish, bottom, root_edge, ctx, fuel) {
            path.append(edge, 0);
            return Some(path);
        }
    } else if root <= ctx.last_row {
        let mut best_path: Option<WeightedParsePath<'r, Symbol>> = None;
        let mut k: usize = 0;
        while k < ctx.edges.len()
            invariant
                k <= ctx.edges@.len(),
                ctx.weight_map.wf(),
                depth < bottom,
                *fuel <= *old(fuel),
            decreases ctx.edges@.len() - k,
        {
            let edge = &ctx.edges[k];
            if edge.start == root && edge_derives(edge, symbol) {
                if let Some(mut path) = df_search_weighted(
                    depth + 1,
                    edge.finish,
                    bottom,
                    root_edge,
                    ctx,
                    fuel,
                ) {
                    let tree_weight = weight_of(ctx.weight_map, ctx.edges, edge);
                    let better = match &best_path {
                        None => true,
                        Some(best) => path.weight.saturating_add(tree_weight) < best.weight,
                    };
                    if better {
                        path.append(edge.copy(), tree_weight);
                        best_path = Some(path);
                    }
                }
            }
            k += 1;
        }
        return best_path;
    }
    None
}

/// Finds the first decomposition of `root_edge`, from its symbol at `depth` on, into edges
/// that start at token `root` and end where the edge ends, trying the chart edges in order.
/// Each step spends one unit of `fuel`.
fn df_search_first<'c, 'r, Symbol: GrammarSymbol, G: Grammar<Symbol>>(
    depth: usize,
    root: usize,
    bottom: usize,
    root_edge: &Edge<'r, Symbol>,
    ctx: &SearchContext<'c, 'r, Symbol, G>,
    fuel: &mut u64,
) -> (found: Option<Vec<Edge<'r, Symbol>>>)
    ensures
        *final(fuel) <= *old(fuel),
    decreases bottom - depth,
{
    if depth >= bottom {
        if depth == bottom && root == root_edge.finish {
            return Some(Vec::new());
        }
        return None;
    }
    let (symbol, spm, reps) = match root_edge.symbol_at(depth) {
        Some(s) => s,
        None => return None,
    };
    if reps > 1 {
        if reps > bottom - depth {
            return None;
        }
        if !ctx.grammar.is_non_terminal(symbol) {
            if root >= usize::MAX - reps {
                return None;
            }
            let mut edge = Edge::terminal(root + reps, spm);
            if let Some(mut path) = df_search_first(
                depth + reps,
                root + reps,
                bottom,
                root_edge,
                ctx,
                fuel,
            ) {
                let mut k: usize = 0;
                while k < reps
                    invariant
                        k <= reps,
                        edge.start == root + reps - k,
                        edge.finish == edge.start + 1,
                    decreases reps - k,
                {
                    edge.start = edge.start - 1;
                    edge.finish = edge.finish - 1;
                    path.push(edge.copy());
                    k += 1;
                }
                return Some(path);
            }
        } else if root <= ctx.last_row {
            let mut work_stack: Vec<(usize, usize, Option<usize>)> = Vec::new();
            let mut edge_stack: Vec<usize> = Vec::new();
            work_stack.push((0, root, None));
            while work_stack.len() > 0
                invariant
                    depth + reps <= bottom,
                    depth < bottom,
                    reps > 1,
                    *fuel <= *old(fuel),
                decreases *fuel,
            {
                if *fuel == 0 {
                    return None;
                }
                *fuel = *fuel - 1;
                let (count, finish, edge_opt) = work_stack.pop().unwrap();
                if count <= edge_stack.len() && count > 0 {
                    edge_stack.truncate(count - 1);
                }
                if let Some(e) = edge_opt {
                    edge_stack.push(e);
                }
                if count == reps {
                    if let Some(mut path) = df_search_first(
                        depth + reps,
                        finish,
                        bottom,
                        root_edge,
                        ctx,
                        fuel,
                    ) {
                        let reversed = reverse_vec(edge_stack);
                        let mut k: usize = 0;
                        while k < reversed.len()
                            invariant
                                k <= reversed@.len(),
                            decreases reversed@.len() - k,
                        {
                            let e = reversed[k];
                            if e < ctx.edges.len() {
                                path.push(ctx.edges[e].copy());
                            }
                            k += 1;
                        }
                        return Some(path);
                    }
                } else if count < reps {
                    let mut k: usize = 0;
                    while k < ctx.edges.len()
                        invariant
                            k <= ctx.edges@.len(),
                            count < reps,
                        decreases ctx.edges@.len() - k,
                    {
                        let e = &ctx.edges[k];
                        if e.start == finish && edge_derives(e, symbol) {
                            work_stack.push((count + 1, e.finish, Some(k)));
                        }
                        k += 1;
                    }
                }
            }
        }
    } else if !ctx.grammar.is_non_terminal(symbol) {
        if root >= usize::MAX - 1 {
            return None;
        }
        if let Some(mut path) = df_search_first(depth + 1, root + 1, bottom, root_edge, ctx, fuel) {
            path.push(Edge::terminal(root, spm));
            return Some(path);
        }
    } else if root <= ctx.last_row {
        let mut k: usize = 0;
        while k < ctx.edges.len()
            invariant
                k <= ctx.edges@.len(),
                depth < bottom,
                *fuel <= *old(fuel),
            decreases ctx.edges@.len() - k,
        {
            let edge = &ctx.edges[k];
            if edge.start == root && edge_derives(edge, symbol) {
                if let Some(mut path) = df_search_first(
                    depth + 1,
                    edge.finish,
                    bottom,
                    root_edge,
                    ctx,
                    fuel,
                ) {
                    path.push(edge.copy());
                    return Some(path);
                }
            }
            k += 1;
        }
    }
    None
}

/// The leaf tree of token `index` of `lex`, matched by parse method `spm`.
fn token_leaf<Symbol: GrammarSymbol>(lex: &Vec<Token<Symbol>>, index: usize, spm: SymbolParseMethod) -> (
    t: Option<Tree<Symbol>>)
    ensures
        t is Some <==> index < lex@.len(),
        t matches Some(tree) ==> tree.spm == spm,
        t matches Some(tree) ==> tree.children@.len() == 0 && tree.production is None,
        t matches Some(tree) ==> tree.lhs.spec_lexeme() == lex@[index as int].spec_lexeme(),
        t matches Some(tree) ==> (clones_exactly::<Symbol>() ==> tree.lhs.spec_kind()
            == lex@[index as int].spec_kind()),
{
    if index < lex.len() {
        Some(Tree { lhs: lex[index].copy(), children: Vec::new(), production: None, spm })
    } else {
        None
    }
}

/// Builds the tree of `edge` top-down: each production edge is decomposed into the first path
/// of edges found for its symbols. `None` if the decomposition fails or is deeper than `fuel`.
fn recur<'c, 'r, Symbol: GrammarSymbol, G: Grammar<Symbol>>(
    edge: &Edge<'r, Symbol>,
    spm: SymbolParseMethod,
    lex: &Vec<Token<Symbol>>,
    ctx: &SearchContext<'c, 'r, Symbol, G>,
    fuel: &mut u64,
    depth_fuel: usize,
) -> (t: Option<Tree<Symbol>>)
    ensures
        t matches Some(tree) ==> tree.spm == spm,
        t matches Some(tree) ==> (edge.rule matches Some(rule) ==> (clones_exactly::<Symbol>()
            ==> tree.lhs.spec_kind() == Some(rule.lhs))),
    decreases depth_fuel,
{
    match edge.rule {
        None => token_leaf(lex, edge.start, spm),
        Some(rule) => {
            if depth_fuel == 0 {
                return None;
            }
            let path = match df_search_first(0, edge.start, edge.symbols_len(), edge, ctx, fuel) {
                Some(p) => p,
                None => return None,
            };
            let edges = path.len();
            let mut children: Vec<Tree<Symbol>> = Vec::new();
            let mut i: usize = edges;
            while i > 0
                invariant
                    i <= edges,
                    edges == path@.len(),
                    depth_fuel > 0,
                decreases i,
            {
                i -= 1;
                let child_spm = match edge.symbol_at(edges - i - 1) {
                    Some((_, s, _)) => s,
                    None => return None,
                };
                match recur(&path[i], child_spm, lex, ctx, fuel, depth_fuel - 1) {
                    Some(child) => children.push(child),
                    None => return None,
                }
            }
            if children.len() == 0 {
                children.push(Tree::null());
            }
            let kind = rule.lhs.clone();
            proof {
                assert(cloned(rule.lhs, kind));
            }
            Some(
                Tree {
                    lhs: Token::interior(kind),
                    children,
                    production: Some(rule.clone()),
                    spm,
                },
            )
        },
    }
}

/// Builds the parse tree top-down from the edge of the start symbol that spans the whole input,
/// taking for each edge the first decomposition found.
fn parse_top_down<'c, 'r, Symbol: GrammarSymbol, G: Grammar<Symbol>>(
    lex: &Vec<Token<Symbol>>,
    ctx: &SearchContext<'c, 'r, Symbol, G>,
    fuel: &mut u64,
) -> (t: Option<Tree<Symbol>>)
    ensures
        t matches Some(tree) ==> tree.spm == SymbolParseMethod::Standard,
        t matches Some(tree) ==> (eq_exact::<Symbol>() && clones_exactly::<Symbol>()
            ==> tree.lhs.spec_kind() == Some(ctx.grammar.start_symbol())),
{
    let finish = ctx.last_row;
    let mut k: usize = 0;
    while k < ctx.edges.len()
        invariant
            k <= ctx.edges@.len(),
        decreases ctx.edges@.len() - k,
    {
        let edge = &ctx.edges[k];
        if edge.start == 0 && edge.finish == finish && edge_derives(edge, ctx.grammar.start()) {
            return recur(edge, SymbolParseMethod::Standard, lex, ctx, fuel, ctx.edges.len());
        }
        k += 1;
    }
    None
}

/// The number of tokens that `edge` spans.
fn width<'r, Symbol: GrammarSymbol>(edge: &Edge<'r, Symbol>) -> (w: usize)
    ensures
        w == edge_width(*edge),
{
    if edge.finish >= edge.start {
        edge.finish - edge.start
    } else {
        0
    }
}

/// Whether edge `a` is ordered before edge `b`: narrower edges first, and among edges of equal
/// width, deeper ones first.
spec fn edge_before<'r, Symbol: GrammarSymbol>(a: Edge<'r, Symbol>, b: Edge<'r, Symbol>) -> bool {
    edge_width(a) < edge_width(b) || (edge_width(a) == edge_width(b) && a.depth > b.depth)
}

/// Whether the edges that `order` lists from position `lo` up to `hi` come in order: none is
/// ordered before one listed earlier.
spec fn sorted_between<'r, Symbol: GrammarSymbol>(
    order: Seq<usize>,
    edges: Seq<Edge<'r, Symbol>>,
    lo: int,
    hi: int,
) -> bool {
    forall|p: int, q: int|
        #![trigger order[p], order[q]]
        lo <= p < q < hi ==> !edge_before(edges[order[q] as int], edges[order[p] as int])
}

/// Whether edge `a` is ordered before edge `b`: narrower edges first, and among edges of equal
/// width, deeper ones first.
fn ordered_before<'r, Symbol: GrammarSymbol>(a: &Edge<'r, Symbol>, b: &Edge<'r, Symbol>) -> (r: bool)
    ensures
        r == edge_before(*a, *b),
{
    let wa = width(a);
    let wb = width(b);
    wa < wb || (wa == wb && a.depth > b.depth)
}

/// Sorts the edge positions `order` by `ordered_before`, keeping the order of equal edges.
fn sort_edges<'r, Symbol: GrammarSymbol>(order: &mut Vec<usize>, edges: &Vec<Edge<'r, Symbol>>)
    requires
        forall|i: int| 0 <= i < old(order)@.len() ==> #[trigger] old(order)@[i] < edges@.len(),
    ensures
        final(order)@.len() == old(order)@.len(),
        forall|i: int| 0 <= i < final(order)@.len() ==> #[trigger] final(order)@[i] < edges@.len(),
        final(order)@.to_multiset() == old(order)@.to_multiset(),
        sorted_between(final(order)@, edges@, 0, final(order)@.len() as int),
{
    let mut i: usize = 1;
    while i < order.len()
        invariant
            1 <= i,
            order@.len() == old(order)@.len(),
            forall|k: int| 0 <= k < order@.len() ==> #[trigger] order@[k] < edges@.len(),
            order@.to_multiset() == old(order)@.to_multiset(),
            sorted_between(order@, edges@, 0, if i <= order@.len() {
                i as int
            } else {
                order@.len() as int
            }),
        decreases order@.len() - i,
    {
        let mut j: usize = i;
        while j > 0 && ordered_before(&edges[order[j]], &edges[order[j - 1]])
            invariant
                j <= i < order@.len(),
                order@.len() == old(order)@.len(),
                forall|k: int| 0 <= k < order@.len() ==> #[trigger] order@[k] < edges@.len(),
                order@.to_multiset() == old(order)@.to_multiset(),
                sorted_between(order@, edges@, 0, j as int),
                sorted_between(order@, edges@, j as int, i + 1),
                forall|p: int, q: int|
                    #![trigger order@[p], order@[q]]
                    0 <= p < j < q <= i ==> !edge_before(
                        edges@[order@[q] as int],
                        edges@[order@[p] as int],
                    ),
                forall|q: int|
                    j < q <= i ==> edge_before(
                        edges@[order@[j as int] as int],
                        edges@[#[trigger] order@[q] as int],
                    ),
            decreases j,
        {
            let a = order[j];
            let b = order[j - 1];
            let ghost prev = order@;
            order.set(j, b);
            order.set(j - 1, a);
            proof {
                let mid = prev.update(j as int, b);
                assert(order@ == mid.update(j - 1, a));
                vstd::seq_lib::to_multiset_update(prev, j as int, b);
                vstd::seq_lib::to_multiset_update(mid, j - 1, a);
                assert(prev.to_multiset().count(a) > 0) by {
                    vstd::seq_lib::to_multiset_contains(prev, a);
                }
                assert(order@.to_multiset() =~= prev.to_multiset()) by {
                    broadcast use vstd::multiset::group_multiset_axioms;
                }
            }
            j -= 1;
        }
        i += 1;
    }
}

/// Builds the tree of `edge` from the lightest decompositions found bottom-up (`nlp_map`):
/// ignored tokens are left out. `None` if a decomposition is missing or the tree is deeper
/// than `depth_fuel`.
fn link_shallow_paths<'c, 'r, Symbol: GrammarSymbol, G: Grammar<Symbol>>(
    edge: &Edge<'r, Symbol>,
    spm: SymbolParseMethod,
    lex: &Vec<Token<Symbol>>,
    ctx: &SearchContext<'c, 'r, Symbol, G>,
    nlp_map: &EdgeMap<Vec<Edge<'r, Symbol>>>,
    depth_fuel: usize,
) -> (t: Option<Tree<Symbol>>)
    requires
        nlp_map.wf(),
    ensures
        t matches Some(tree) ==> tree.spm == spm,
    decreases depth_fuel,
{
    match edge.rule {
        None => token_leaf(lex, edge.start, spm),
        Some(rule) => {
            if depth_fuel == 0 {
                return None;
            }
            let mut children: Vec<Tree<Symbol>> = Vec::new();
            if edge.is_empty() {
                children.push(Tree::null());
            } else if edge.is_terminal(ctx.grammar) {
                match token_leaf(lex, edge.start, spm) {
                    Some(leaf) => children.push(leaf),
                    None => return None,
                }
            } else {
                let path = match nlp_map.get(ctx.edges, edge) {
                    Some(p) => p,
                    None => return None,
                };
                let edges = path.len();
                let mut i: usize = edges;
                while i > 0
                    invariant
                        i <= edges,
                        edges == path@.len(),
                        depth_fuel > 0,
                        nlp_map.wf(),
                    decreases i,
                {
                    i -= 1;
                    let inner_edge = &path[i];
                    if !inner_edge.ignored {
                        let child_spm = match edge.symbol_at(edges - i - 1) {
                            Some((_, s, _)) => s,
                            None => return None,
                        };
                        match link_shallow_paths(inner_edge, child_spm, lex, ctx, nlp_map, depth_fuel - 1) {
                            Some(child) => children.push(child),
                            None => return None,
                        }
                    }
                }
            }
            Some(
                Tree {
                    lhs: Token::interior(rule.lhs.clone()),
                    children,
                    production: Some(rule.clone()),
                    spm,
                },
            )
        },
    }
}

/// Builds the parse tree bottom-up: edges are decomposed from the narrowest to the widest, each
/// into its lightest path of already weighed edges, and the lightest edge of the start symbol
/// that spans the whole input becomes the root.
fn parse_bottom_up<'r, Symbol: GrammarSymbol, G: Grammar<Symbol>>(
    lex: &Vec<Token<Symbol>>,
    grammar: &G,
    edges: &Vec<Edge<'r, Symbol>>,
    last_row: usize,
    fuel: &mut u64,
) -> (t: Option<Tree<Symbol>>)
    ensures
        t matches Some(tree) ==> tree.spm == SymbolParseMethod::Standard,
{
    let mut ordered: Vec<usize> = Vec::new();
    let mut row: usize = 0;
    loop
        invariant
            row <= last_row,
            forall|i: int| 0 <= i < ordered@.len() ==> #[trigger] ordered@[i] < edges@.len(),
        decreases last_row - row,
    {
        let mut k: usize = 0;
        while k < edges.len()
            invariant
                k <= edges@.len(),
                forall|i: int| 0 <= i < ordered@.len() ==> #[trigger] ordered@[i] < edges@.len(),
            decreases edges@.len() - k,
        {
            let edge = &edges[k];
            if edge.start == row && !edge.is_empty() && !edge.is_terminal(grammar) {
                ordered.push(k);
            }
            k += 1;
        }
        if row == last_row {
            break;
        }
        row += 1;
    }
    sort_edges(&mut ordered, edges);

    let mut weight_map: EdgeMap<usize> = EdgeMap::new();
    let mut nlp_map: EdgeMap<Vec<Edge<'r, Symbol>>> = EdgeMap::new();
    let mut n: usize = 0;
    while n < ordered.len()
        invariant
            forall|i: int| 0 <= i < ordered@.len() ==> #[trigger] ordered@[i] < edges@.len(),
            weight_map.wf(),
            nlp_map.wf(),
        decreases ordered@.len() - n,
    {
        let e = ordered[n];
        let edge = &edges[e];
        let found = {
            let ctx = SearchContext { edges, last_row, grammar, weight_map: &weight_map };
            df_search_weighted(0, edge.start, edge.symbols_len(), edge, &ctx, fuel)
        };
        match found {
            None => return None,
            Some(weighted_path) => {
                weight_map.insert(edges, e, weighted_path.weight.saturating_add(edge.weight));
                nlp_map.insert(edges, e, weighted_path.path);
            },
        }
        n += 1;
    }

    let mut best_root: usize = 0;
    if ordered.len() == 0 {
        let mut k: usize = 0;
        let mut found = false;
        while k < edges.len()
            invariant
                k <= edges@.len(),
                found ==> best_root < edges@.len(),
            decreases edges@.len() - k,
        {
            if !found && edges[k].start == 0 && edges[k].depth == 0 {
                best_root = k;
                found = true;
            }
            k += 1;
        }
        if !found {
            return None;
        }
    } else {
        best_root = ordered[ordered.len() - 1];
    }
    let mut best_root_weight = weight_of(&weight_map, edges, &edges[best_root]);
    let finish = last_row;
    if ordered.len() > 1 {
        let mut n: usize = ordered.len() - 1;
        while n > 0
            invariant
                n < ordered@.len(),
                forall|i: int| 0 <= i < ordered@.len() ==> #[trigger] ordered@[i] < edges@.len(),
                best_root < edges@.len(),
                weight_map.wf(),
            decreases n,
        {
            n -= 1;
            let edge = &edges[ordered[n]];
            if edge.finish != finish || !edge_derives(edge, grammar.start()) {
                break;
            }
            let minimal_tree_weight = weight_of(&weight_map, edges, edge);
            if minimal_tree_weight < best_root_weight {
                best_root = ordered[n];
                best_root_weight = minimal_tree_weight;
            }
        }
    }
    let ctx = SearchContext { edges, last_row, grammar, weight_map: &weight_map };
    link_shallow_paths(
        &edges[best_root],
        SymbolParseMethod::Standard,
        lex,
        &ctx,
        &nlp_map,
        edges.len(),
    )
}

/// Whether the two trees have root tokens of the same kind.
fn same_kind<Symbol: GrammarSymbol>(a: &Tree<Symbol>, b: &Tree<Symbol>) -> (r: bool)
    ensures
        eq_exact::<Symbol>() ==> (r == (a.lhs.spec_kind() is Some && a.lhs.spec_kind()
            == b.lhs.spec_kind())),
{
    match (a.lhs.kind_opt(), b.lhs.kind_opt()) {
        (Some(x), Some(y)) => *x == *y,
        _ => false,
    }
}

/// Groups the repeated elements of each inline list, together with the injected tokens among
/// them, under a node of their own (of no kind), so that a list that repeats more than once
/// forms a single child of its parent.
fn push_down_inline_lists<Symbol: GrammarSymbol>(tree: Tree<Symbol>) -> (t: Tree<Symbol>)
    ensures
        t.lhs == tree.lhs,
        t.spm == tree.spm,
    decreases tree_size(tree),
{
    if tree.children.len() == 0 {
        return tree;
    }
    let ghost orig = tree;
    let mut root = tree;
    let mut children: Vec<Tree<Symbol>> = Vec::new();
    while root.children.len() > 0
        invariant
            root.children@.len() <= orig.children@.len(),
            root.children@ == orig.children@.take(root.children@.len() as int),
            orig == tree,
            root.lhs == orig.lhs,
            root.spm == orig.spm,
        decreases root.children@.len(),
    {
        let last = root.children.len() - 1;
        if root.children[last].spm == SymbolParseMethod::Repeated && root.children.len() > 1 {
            let mut top = last;
            let mut end = last - 1;
            loop
                invariant
                    end < last,
                    top <= last,
                    last < root.children@.len(),
                decreases end,
            {
                if same_kind(&root.children[end], &root.children[last])
                    && root.children[end].spm == SymbolParseMethod::Repeated {
                    top = end;
                } else if root.children[end].spm != SymbolParseMethod::Injected {
                    break;
                }
                if end == 0 {
                    break;
                }
                end -= 1;
            }
            if top == last {
                let child = root.children.pop().unwrap();
                proof {
                    assert(child == orig.children@[last as int]);
                    lemma_child_smaller(orig, last as int);
                }
                children.push(push_down_inline_lists(child));
            } else {
                let mut drained: Vec<Tree<Symbol>> = Vec::new();
                while root.children.len() > top
                    invariant
                        root.children@.len() <= orig.children@.len(),
                        root.children@ == orig.children@.take(root.children@.len() as int),
                        orig == tree,
                        root.lhs == orig.lhs,
                        root.spm == orig.spm,
                        forall|k: int|
                            0 <= k < drained@.len() ==> tree_size(#[trigger] drained@[k])
                                < tree_size(orig),
                    decreases root.children@.len(),
                {
                    let t = root.children.pop().unwrap();
                    proof {
                        assert(t == orig.children@[root.children@.len() as int]);
                        lemma_child_smaller(orig, root.children@.len() as int);
                        assert(root.children@ =~= orig.children@.take(root.children@.len() as int));
                    }
                    drained.push(t);
                }
                let mut sub_children: Vec<Tree<Symbol>> = Vec::new();
                while drained.len() > 0
                    invariant
                        orig == tree,
                        forall|k: int|
                            0 <= k < drained@.len() ==> tree_size(#[trigger] drained@[k])
                                < tree_size(orig),
                    decreases drained@.len(),
                {
                    let mut t = drained.pop().unwrap();
                    let ghost before = t;
                    t.spm = SymbolParseMethod::Standard;
                    proof {
                        assert(t.children@ == before.children@);
                        assert(tree_size(t) == tree_size(before));
                    }
                    sub_children.push(push_down_inline_lists(t));
                }
                children.push(
                    Tree {
                        lhs: Token::null(),
                        children: sub_children,
                        production: None,
                        spm: SymbolParseMethod::Repeated,
                    },
                );
            }
        } else {
            let child = root.children.pop().unwrap();
            proof {
                assert(child == orig.children@[last as int]);
                lemma_child_smaller(orig, last as int);
            }
            children.push(push_down_inline_lists(child));
        }
        proof {
            assert(root.children@ =~= orig.children@.take(root.children@.len() as int));
        }
    }
    root.children = reverse_vec(children);
    root
}

/// The message of a parse error.
fn parse_error(message: &str) -> (e: Error)
    ensures
        e.message@ == message@,
{
    Error { message: String::from_str(message) }
}

/// Builds the parse tree from the edges of a recognized chart whose last row is `last_row`:
/// bottom-up by weight where the grammar weighs parses, otherwise top-down; inline lists are
/// then pushed down. `None` if no decomposition of the root edge is found.
fn parse_tree<'r, Symbol: GrammarSymbol, G: Grammar<Symbol>>(
    lex: &Vec<Token<Symbol>>,
    grammar: &G,
    edges: &Vec<Edge<'r, Symbol>>,
    last_row: usize,
    fuel: &mut u64,
) -> (t: Option<Tree<Symbol>>)
    ensures
        t matches Some(tree) ==> tree.spm == SymbolParseMethod::Standard,
        t matches Some(tree) ==> (eq_exact::<Symbol>() && clones_exactly::<Symbol>()
            && !weighs_parses(grammar) ==> tree.lhs.spec_kind() == Some(grammar.start_symbol())),
{
    let tree = if grammar.weighted_parse() {
        parse_bottom_up(lex, grammar, edges, last_row, fuel)
    } else {
        let weight_map: EdgeMap<usize> = EdgeMap::new();
        let ctx = SearchContext { edges, last_row, grammar, weight_map: &weight_map };
        parse_top_down(lex, &ctx, fuel)
    };
    match tree {
        Some(t) => Some(push_down_inline_lists(t)),
        None => None,
    }
}

/// The position of the last token of `lex` that is neither injectable nor ignorable, or 0 if
/// there is none.
fn final_required_token<Symbol: GrammarSymbol, G: Grammar<Symbol>>(
    lex: &Vec<Token<Symbol>>,
    grammar: &G,
) -> (index: usize)
    requires
        forall|i: int| 0 <= i < lex@.len() ==> (#[trigger] lex@[i]).spec_kind() is Some,
    ensures
        index <= lex@.len(),
        lex@.len() > 0 ==> index < lex@.len(),
        eq_exact::<Symbol>() ==> forall|j: int|
            index < j < lex@.len() ==> skippable(*grammar, #[trigger] lex@[j]),
        eq_exact::<Symbol>() ==> (index > 0 ==> !skippable(*grammar, lex@[index as int])),
{
    let mut index: usize = lex.len();
    let mut found = false;
    while index > 0 && !found
        invariant
            index <= lex@.len(),
            found ==> index < lex@.len(),
            forall|i: int| 0 <= i < lex@.len() ==> (#[trigger] lex@[i]).spec_kind() is Some,
            eq_exact::<Symbol>() ==> forall|j: int|
                index < j < lex@.len() ==> skippable(*grammar, #[trigger] lex@[j]),
            eq_exact::<Symbol>() ==> (!found ==> forall|j: int|
                index <= j < lex@.len() ==> skippable(*grammar, #[trigger] lex@[j])),
            eq_exact::<Symbol>() ==> (found ==> !skippable(*grammar, lex@[index as int])),
        decreases index + (if found {
            0int
        } else {
            1int
        }),
    {
        index -= 1;
        assert(lex@[index as int].spec_kind() is Some);
        let kind = lex[index].kind();
        if !grammar.is_injectable(kind) && !grammar.is_ignorable(kind) {
            found = true;
        }
    }
    index
}

impl EarleyParser {
    /// Parses `lex` under `grammar`: recognizes it row by row with an Earley chart (completing,
    /// predicting, then scanning the next token), and builds the tree of the recognized
    /// chart. Fails if the start symbol does not span the whole input.
    fn earley_parse<'r, Symbol: GrammarSymbol + 'r, G: Grammar<Symbol>>(
        &self,
        lex: &Vec<Token<Symbol>>,
        grammar: &'r G,
    ) -> (res: Result<Tree<Symbol>, Error>)
        requires
            forall|i: int|
                0 <= i < lex@.len() ==> (#[trigger] lex@[i]).spec_kind() is Some,
        ensures
            res matches Ok(tree) ==> tree.spm == SymbolParseMethod::Standard,
            res matches Ok(tree) ==> (eq_exact::<Symbol>() && clones_exactly::<Symbol>()
                && !weighs_parses(grammar) ==> tree.lhs.spec_kind() == Some(grammar.start_symbol())),
            res matches Ok(tree) ==> (eq_exact::<Symbol>() && clones_exactly::<Symbol>() ==> keeps_tokens(
                token_pairs(tree_leaves(tree)),
                token_pairs(lex@),
                grammar.ignorable_set(),
            )),
            res matches Err(e) ==> crate::parse::parse_failure(e.message@, lex@.len()),
    {
        let final_required = final_required_token(lex, grammar);
        let mut chart: RChart<'r, Symbol> = RChart { rows: Vec::new() };
        let mut current: RChartRow<'r, Symbol> = RChartRow {
            incomplete: Vec::new(),
            complete: Vec::new(),
        };
        match grammar.productions_for_lhs(grammar.start()) {
            Some(prods) => {
                let mut j: usize = 0;
                while j < prods.len()
                    invariant
                        j <= prods@.len(),
                        current.wf(0),
                    decreases prods@.len() - j,
                {
                    current.unsafe_append(Item::start(&prods[j]), Ghost(0));
                    j += 1;
                }
            },
            None => {},
        }
        let mut edges: Vec<Edge<'r, Symbol>> = Vec::new();
        let mut fuel: u64 = u64::MAX;
        let mut cursor: usize = 0;
        loop
            invariant
                chart.wf(),
                chart.rows@.len() == cursor,
                current.wf(cursor as int),
                cursor <= lex@.len(),
                forall|i: int| 0 <= i < lex@.len() ==> (#[trigger] lex@[i]).spec_kind() is Some,
            decreases lex@.len() - cursor,
        {
            if !complete_full(cursor, grammar, &chart, &mut current, &mut fuel) {
                return Err(parse_error("Parse exceeded its step limit"));
            }
            if !predict_full(cursor, grammar, &mut current, &mut fuel) {
                return Err(parse_error("Parse exceeded its step limit"));
            }
            parse_mark_full(cursor, cursor, &current, &mut edges);
            let next_row = scan_full(cursor, final_required, lex, grammar, &current);
            if next_row.len() == 0 {
                break;
            }
            let total = lex.len();
            chart.rows.push(current);
            current = RChartRow::new(next_row, Ghost(cursor + 1));
            cursor += 1;
        }

        if recognized(grammar, &current) {
            if cursor == lex.len() {
                match parse_tree(lex, grammar, &edges, cursor, &mut fuel) {
                    Some(tree) => if keeps_lexed(&tree, lex, grammar) {
                        Ok(tree)
                    } else {
                        Err(parse_error("Failed to decompose parse edge of recognized lex"))
                    },
                    None => Err(parse_error("Failed to decompose parse edge of recognized lex")),
                }
            } else {
                let mut message = String::from_str("Largest parse did not consume all tokens: ");
                let consumed = Data::to_string(&cursor);
                message.append(consumed.as_str());
                message.append(" of ");
                let total = Data::to_string(&lex.len());
                message.append(total.as_str());
                proof {
                    assert(message@ == "Largest parse did not consume all tokens: "@ + decimal_text(cursor as nat)
                        + " of "@ + decimal_text(lex@.len()));
                }
                Err(Error { message })
            }
        } else if lex.len() == 0 {
            Err(parse_error("No symbols tokenized"))
        } else if cursor == lex.len() {
            Err(parse_error("Recognition failed after consuming all tokens"))
        } else {
            let token = &lex[cursor];
            assert(lex@[cursor as int].spec_kind() is Some);
            let mut message = String::from_str("Recognition failed at token ");
            let position = Data::to_string(&(cursor + 1));
            message.append(position.as_str());
            message.append(": ");
            let kind = grammar.symbol_string(token.kind());
            message.append(kind.as_str());
            message.append(" <- '");
            let lexeme = token.lexeme_escaped();
            message.append(lexeme.as_str());
            message.append("'");
            proof {
                let head = "Recognition failed at token "@ + decimal_text((cursor + 1) as nat) + ": "@;
                assert(message@.take(head.len() as int) =~= head);
                assert(head.is_prefix_of(message@));
                assert(decimal_text(cursor as nat + 1) == decimal_text((cursor + 1) as nat));
            }
            Err(Error { message })
        }
    }
}

impl<Symbol: GrammarSymbol> Parser<Symbol> for EarleyParser {
    fn parse<G: Grammar<Symbol>>(&self, lex: Vec<Token<Symbol>>, grammar: &G) -> (res: Result<
        Tree<Symbol>,
        Error,
    >) {
        self.earley_parse(&lex, grammar)
    }
}

} // verus!
