use vstd::prelude::*;
use crate::data::{clones_exactly, decimal_text, eq_exact, Data};
use crate::lex::Token;
use crate::lex::longest_match::token_pairs;
use crate::text::{chars_equal, chars_of};
use crate::parse::grammar::{weighs_parses, Grammar, GrammarSymbol};

pub mod earley;
pub mod grammar;

verus! {

/// Parser: a parser of token streams under a grammar.
pub trait Parser<Symbol: GrammarSymbol> {
    /// Parses the tokens `lex` under `grammar`, returning the parse tree, or an error if the
    /// tokens are not a sentence of the grammar.
    fn parse<G: Grammar<Symbol>>(&self, lex: Vec<Token<Symbol>>, grammar: &G) -> (res: Result<
        Tree<Symbol>,
        Error,
    >)
        requires
            forall|i: int|
                0 <= i < lex@.len() ==> (#[trigger] lex@[i]).spec_kind() is Some,
        ensures
            res matches Ok(tree) ==> tree.spm == SymbolParseMethod::Standard,
            res matches Ok(tree) ==> (eq_exact::<Symbol>() && clones_exactly::<Symbol>()
                && !weighs_parses(grammar) ==> tree.lhs.spec_kind() == Some(grammar.start_symbol())),
            res matches Ok(tree) ==> (eq_exact::<Symbol>() && clones_exactly::<Symbol>() ==> keeps_tokens(
                token_pairs(tree_leaves(tree)),
                token_pairs(lex@),
                grammar.ignorable_set(),
            )),
            res matches Err(e) ==> parse_failure(e.message@, lex@.len()),
    ;
}

/// Whether `m` describes a failed parse of `n` tokens: the step limit was reached; the edge of
/// a recognized input could not be decomposed; the largest parse consumed only `i < n` tokens;
/// no tokens were given; recognition failed after all tokens; or recognition failed at token
/// `i + 1` (counting from one), followed by its kind and lexeme.
pub open spec fn parse_failure(m: Seq<char>, n: nat) -> bool {
    ||| m == "Parse exceeded its step limit"@
    ||| m == "Failed to decompose parse edge of recognized lex"@
    ||| exists|i: nat|
        i < n && m == "Largest parse did not consume all tokens: "@ + #[trigger] decimal_text(i) + " of "@
            + decimal_text(n)
    ||| n == 0 && m == "No symbols tokenized"@
    ||| n > 0 && m == "Recognition failed after consuming all tokens"@
    ||| exists|i: nat|
        i < n && ("Recognition failed at token "@ + #[trigger] decimal_text(i + 1) + ": "@).is_prefix_of(m)
}

/// Returns the current default parser.
pub fn def_parser() -> (p: earley::EarleyParser) {
    earley::EarleyParser
}

/// Symbol Parse Method: how a symbol was matched during a parse.
#[derive(PartialEq, Eq, Structural, Hash, Clone, Copy, Debug)]
pub enum SymbolParseMethod {
    Standard,
    Ignored,
    Injected,
    Repeated,
}

/// Tree: a parse tree, whose root is token `lhs` with `children`, built through `production`
/// (if any) and matched by parse method `spm`.
#[derive(PartialEq, Eq, Hash, Debug)]
pub struct Tree<Symbol: GrammarSymbol> {
    pub lhs: Token<Symbol>,
    pub children: Vec<Tree<Symbol>>,
    pub production: Option<Production<Symbol>>,
    pub spm: SymbolParseMethod,
}

impl<Symbol: GrammarSymbol> Tree<Symbol> {
    /// Returns the `i`th child of the tree.
    pub fn get_child(&self, i: usize) -> (c: &Tree<Symbol>)
        requires
            i < self.children@.len(),
        ensures
            *c == self.children@[i as int],
    {
        &self.children[i]
    }

    /// Returns true if the tree has no children.
    pub fn is_leaf(&self) -> (b: bool)
        ensures
            b == (self.children@.len() == 0),
    {
        self.children.len() == 0
    }

    /// Returns true if the tree has a single, null, child.
    pub fn is_empty(&self) -> (b: bool)
        ensures
            b == (self.children@.len() == 1 && self.children@[0].lhs.spec_kind() is None),
    {
        self.children.len() == 1 && self.get_child(0).is_null()
    }

    /// Returns true if the root token of the tree is null.
    pub fn is_null(&self) -> (b: bool)
        ensures
            b == self.lhs.spec_kind() is None,
    {
        self.lhs.is_null()
    }

    /// Returns the null tree: a null token, with no children and no production.
    pub fn null() -> (t: Tree<Symbol>)
        ensures
            t.lhs.spec_kind() is None,
            t.lhs.spec_lexeme() == seq!['N', 'U', 'L', 'L'],
            t.children@.len() == 0,
            t.production is None,
            t.spm == SymbolParseMethod::Standard,
    {
        Tree {
            lhs: Token::null(),
            children: Vec::new(),
            production: None,
            spm: SymbolParseMethod::Standard,
        }
    }
}

/// The number of nodes of a tree.
pub open spec fn tree_size<Symbol: GrammarSymbol>(t: Tree<Symbol>) -> nat
    decreases t,
{
    1 + forest_size(t.children@)
}

/// The number of nodes of a sequence of trees.
pub open spec fn forest_size<Symbol: GrammarSymbol>(ts: Seq<Tree<Symbol>>) -> nat
    decreases ts,
{
    if ts.len() == 0 {
        0
    } else {
        proof {
            assert(decreases_to!(ts => ts[ts.len() - 1]));
        }
        forest_size(ts.drop_last()) + tree_size(ts[ts.len() - 1])
    }
}

/// A tree of a sequence of trees is no larger than the whole sequence.
pub proof fn lemma_forest_member<Symbol: GrammarSymbol>(ts: Seq<Tree<Symbol>>, i: int)
    requires
        0 <= i < ts.len(),
    ensures
        tree_size(ts[i]) <= forest_size(ts),
    decreases ts.len(),
{
    if i < ts.len() - 1 {
        lemma_forest_member(ts.drop_last(), i);
    }
}

/// Each child of a tree is smaller than the tree.
pub proof fn lemma_child_smaller<Symbol: GrammarSymbol>(t: Tree<Symbol>, i: int)
    requires
        0 <= i < t.children@.len(),
    ensures
        tree_size(t.children@[i]) < tree_size(t),
{
    lemma_forest_member(t.children@, i);
}

/// Whether `d` is `t` with its symbols named by strings: the same shape and parse methods,
/// each node's token keeping its lexeme (a null token stays null), and a production where `t`
/// has one.
pub open spec fn decoded<Symbol: GrammarSymbol>(t: Tree<Symbol>, d: Tree<String>) -> bool
    decreases t,
{
    &&& d.spm == t.spm
    &&& (d.production is Some) == (t.production is Some)
    &&& (t.lhs.spec_kind() is None ==> d.lhs.spec_kind() is None && d.lhs.spec_lexeme() == "NULL"@)
    &&& (t.lhs.spec_kind() is Some ==> d.lhs.spec_kind() is Some && d.lhs.spec_lexeme() == t.lhs.spec_lexeme())
    &&& decoded_forest(t.children@, d.children@)
}

/// Whether the trees `ds` are the trees `ts`, each decoded.
pub open spec fn decoded_forest<Symbol: GrammarSymbol>(ts: Seq<Tree<Symbol>>, ds: Seq<Tree<String>>) -> bool
    decreases ts,
{
    if ts.len() == 0 {
        ds.len() == 0
    } else {
        proof {
            assert(decreases_to!(ts => ts[ts.len() - 1]));
        }
        ds.len() == ts.len() && decoded_forest(ts.drop_last(), ds.drop_last()) && decoded(
            ts[ts.len() - 1],
            ds[ds.len() - 1],
        )
    }
}

/// The branch drawn before a node: a corner for the last child of its parent, else a tee.
pub open spec fn branch_text(is_tail: bool) -> Seq<char> {
    if is_tail {
        "\u{2514}\u{2500}\u{2500} "@
    } else {
        "\u{251c}\u{2500}\u{2500} "@
    }
}

/// The prefix of the children of a node drawn after `prefix`.
pub open spec fn margin_text(prefix: Seq<char>, is_tail: bool) -> Seq<char> {
    if is_tail {
        prefix + "    "@
    } else {
        prefix + "\u{2502}   "@
    }
}

/// The rendering of `tree` below `prefix`, as the last child of its parent if `is_tail`: a
/// leaf as its token (marked `<< ` if injected), an interior node as its kind (`?` for none)
/// followed by its children, one per line.
pub open spec fn tree_text<Symbol: GrammarSymbol>(tree: Tree<Symbol>, prefix: Seq<char>, is_tail: bool) -> Seq<
    char,
>
    decreases tree_size(tree), 1nat, 0nat,
{
    let head = prefix + branch_text(is_tail);
    if tree.children@.len() == 0 {
        let mark = if tree.spm == SymbolParseMethod::Injected {
            "<< "@
        } else {
            Seq::empty()
        };
        head + mark + tree.lhs.rendered()
    } else {
        let kind = match tree.lhs.spec_kind() {
            None => "?"@,
            Some(k) => k.rendered(),
        };
        head + kind + children_text(
            tree.children@,
            margin_text(prefix, is_tail),
            tree.children@.len(),
            tree_size(tree),
        )
    }
}

/// The renderings of the first `n` of `children` (each smaller than `bound`) below `margin`,
/// each on a new line, the last child of all drawn as such.
pub open spec fn children_text<Symbol: GrammarSymbol>(
    children: Seq<Tree<Symbol>>,
    margin: Seq<char>,
    n: nat,
    bound: nat,
) -> Seq<char>
    decreases bound, 0nat, n,
{
    if n == 0 || n > children.len() {
        Seq::empty()
    } else {
        let prev = children_text(children, margin, (n - 1) as nat, bound);
        let child = children[n - 1];
        if tree_size(child) < bound {
            prev + "\n"@ + tree_text(child, margin, n == children.len())
        } else {
            prev + "\n"@
        }
    }
}

impl<Symbol: GrammarSymbol> Tree<Symbol> {
    /// Renders the tree below `prefix`, as the last child of its parent if `is_tail`: a leaf as
    /// its token, and an interior node as its kind (`?` for none) followed by its children, one
    /// per line.
    fn to_string_internal(&self, prefix: &String, is_tail: bool) -> (r: String)
        ensures
            Symbol::renders_exactly() ==> r@ == tree_text(*self, prefix@, is_tail),
        decreases tree_size(*self),
    {
        let mut builder = prefix.clone();
        if is_tail {
            builder.append("\u{2514}\u{2500}\u{2500} ");
        } else {
            builder.append("\u{251c}\u{2500}\u{2500} ");
        }
        if self.children.len() == 0 {
            if self.spm == SymbolParseMethod::Injected {
                builder.append("<< ");
            }
            let token = self.lhs.to_string();
            builder.append(token.as_str());
        } else {
            match self.lhs.kind_opt() {
                None => builder.append("?"),
                Some(kind) => {
                    let k = kind.to_string();
                    builder.append(k.as_str());
                },
            }
            let mut margin = prefix.clone();
            if is_tail {
                margin.append("    ");
            } else {
                margin.append("\u{2502}   ");
            }
            let len = self.children.len();
            let ghost head = builder@;
            let mut i: usize = 0;
            while i < len
                invariant
                    i <= len,
                    len == self.children@.len(),
                    Symbol::renders_exactly() ==> builder@ == head + children_text(self.children@, margin@, i as nat, tree_size(*self)),
                decreases len - i,
            {
                proof {
                    lemma_child_smaller(*self, i as int);
                }
                let child_string = self.children[i].to_string_internal(&margin, i == len - 1);
                builder.append("\n");
                builder.append(child_string.as_str());
                i += 1;
            }
        }
        builder
    }

    /// Returns the tree with every symbol replaced by its name in `grammar`.
    pub fn decode<G: Grammar<Symbol>>(&self, grammar: &G) -> (d: Tree<String>)
        ensures
            decoded(*self, d),
        decreases tree_size(*self),
    {
        let lhs = match self.lhs.kind_opt() {
            Some(symbol) => Token::leaf(grammar.symbol_string(symbol), self.lhs.lexeme().clone()),
            None => Token::null(),
        };
        let mut children: Vec<Tree<String>> = Vec::new();
        let mut i: usize = 0;
        while i < self.children.len()
            invariant
                i <= self.children@.len(),
                decoded_forest(self.children@.take(i as int), children@),
            decreases self.children@.len() - i,
        {
            proof {
                lemma_child_smaller(*self, i as int);
            }
            let child = self.children[i].decode(grammar);
            let ghost before = children@;
            children.push(child);
            proof {
                let ts = self.children@.take(i + 1);
                assert(ts.drop_last() =~= self.children@.take(i as int));
                assert(children@.drop_last() =~= before);
            }
            i += 1;
        }
        proof {
            assert(self.children@.take(self.children@.len() as int) =~= self.children@);
        }
        let production = match &self.production {
            Some(prod) => Some(prod.decode(grammar)),
            None => None,
        };
        proof {
            reveal_strlit("NULL");
            assert("NULL"@ =~= seq!['N', 'U', 'L', 'L']);
        }
        Tree { lhs, children, production, spm: self.spm }
    }

    /// Renders the tree, one node per line, each child drawn below its parent.
    pub fn to_string(&self) -> (r: String)
        ensures
            Symbol::renders_exactly() ==> r@ == tree_text(*self, Seq::empty(), true),
    {
        let prefix = String::new();
        self.to_string_internal(&prefix, true)
    }
}

/// Error: an error encountered while parsing, with its `message`.
#[derive(Debug)]
pub struct Error {
    pub message: String,
}

/// Production Symbol: a symbol on the right-hand side of a production, which may stand for a
/// list of repetitions of the symbol (`is_list`).
#[derive(PartialEq, Eq, Hash, Clone, Debug)]
pub struct ProductionSymbol<Symbol: GrammarSymbol> {
    pub symbol: Symbol,
    pub is_list: bool,
}

impl<Symbol: GrammarSymbol> ProductionSymbol<Symbol> {
    /// A single occurrence of `symbol`.
    pub fn symbol(symbol: Symbol) -> (s: Self)
        ensures
            s.symbol == symbol,
            !s.is_list,
    {
        ProductionSymbol { symbol, is_list: false }
    }

    /// A list of repetitions of `symbol`.
    pub fn symbol_list(symbol: Symbol) -> (s: Self)
        ensures
            s.symbol == symbol,
            s.is_list,
    {
        ProductionSymbol { symbol, is_list: true }
    }
}

/// Production: a grammar rule rewriting `lhs` to the sequence of symbols `rhs`.
#[derive(PartialEq, Eq, Hash, Clone, Debug)]
pub struct Production<Symbol: GrammarSymbol> {
    pub lhs: Symbol,
    pub rhs: Vec<ProductionSymbol<Symbol>>,
}

impl<Symbol: GrammarSymbol> Production<Symbol> {
    /// The production rewriting `lhs` to `rhs`.
    pub fn from(lhs: Symbol, rhs: Vec<ProductionSymbol<Symbol>>) -> (p: Self)
        ensures
            p.lhs == lhs,
            p.rhs@ == rhs@,
    {
        Production { lhs, rhs }
    }

    /// The production rewriting `lhs` to nothing.
    pub fn epsilon(lhs: Symbol) -> (p: Self)
        ensures
            p.lhs == lhs,
            p.rhs@.len() == 0,
    {
        Production::from(lhs, Vec::new())
    }

    /// The production with every symbol replaced by its string representation.
    pub fn string_production(&self) -> (p: Production<String>)
        ensures
            Symbol::renders_exactly() ==> p.lhs@ == self.lhs.rendered(),
            p.rhs@.len() == self.rhs@.len(),
            forall|i: int| 0 <= i < p.rhs@.len() ==> #[trigger] p.rhs@[i].is_list == self.rhs@[i].is_list
                && (Symbol::renders_exactly() ==> p.rhs@[i].symbol@ == self.rhs@[i].symbol.rendered()),
    {
        let mut rhs: Vec<ProductionSymbol<String>> = Vec::new();
        let mut i: usize = 0;
        while i < self.rhs.len()
            invariant
                i <= self.rhs@.len(),
                rhs@.len() == i,
                forall|j: int| 0 <= j < i ==> #[trigger] rhs@[j].is_list == self.rhs@[j].is_list
                    && (Symbol::renders_exactly() ==> rhs@[j].symbol@ == self.rhs@[j].symbol.rendered()),
            decreases self.rhs@.len() - i,
        {
            let sym = &self.rhs[i];
            rhs.push(ProductionSymbol { symbol: sym.symbol.to_string(), is_list: sym.is_list });
            i += 1;
        }
        Production { lhs: self.lhs.to_string(), rhs }
    }

    /// The production with its right-hand-side symbols rendered by `grammar`.
    pub fn decode<G: Grammar<Symbol>>(&self, grammar: &G) -> (p: Production<String>)
        ensures
            Symbol::renders_exactly() ==> p.lhs@ == self.lhs.rendered(),
            p.rhs@.len() == self.rhs@.len(),
            forall|i: int| 0 <= i < p.rhs@.len() ==> #[trigger] p.rhs@[i].is_list == self.rhs@[i].is_list,
    {
        let mut rhs: Vec<ProductionSymbol<String>> = Vec::new();
        let mut i: usize = 0;
        while i < self.rhs.len()
            invariant
                i <= self.rhs@.len(),
                rhs@.len() == i,
                forall|j: int| 0 <= j < i ==> #[trigger] rhs@[j].is_list == self.rhs@[j].is_list,
            decreases self.rhs@.len() - i,
        {
            let sym = &self.rhs[i];
            rhs.push(ProductionSymbol { symbol: grammar.symbol_string(&sym.symbol), is_list: sym.is_list });
            i += 1;
        }
        Production { lhs: self.lhs.to_string(), rhs }
    }
}

/// The first `n` symbols of `rhs`, each rendered and preceded by a space.
pub open spec fn rhs_text<Symbol: GrammarSymbol>(rhs: Seq<ProductionSymbol<Symbol>>, n: nat) -> Seq<char>
    decreases n,
{
    if n == 0 || n > rhs.len() {
        Seq::empty()
    } else {
        rhs_text(rhs, (n - 1) as nat) + " "@ + rhs[n - 1].symbol.rendered()
    }
}

/// Rendering the symbols of two right-hand sides gives the same text where each symbol of one
/// is rendered as the text of the other's symbol.
proof fn lemma_rhs_text_same<Symbol: GrammarSymbol>(
    rhs: Seq<ProductionSymbol<Symbol>>,
    strings: Seq<ProductionSymbol<String>>,
    n: nat,
)
    requires
        strings.len() == rhs.len(),
        forall|i: int| 0 <= i < rhs.len() ==> (#[trigger] strings[i]).symbol@ == rhs[i].symbol.rendered(),
    ensures
        rhs_text(strings, n) == rhs_text(rhs, n),
    decreases n,
{
    if n > 0 && n <= rhs.len() {
        lemma_rhs_text_same(rhs, strings, (n - 1) as nat);
        assert(strings[n - 1].symbol@ == rhs[n - 1].symbol.rendered());
    }
}

/// The string form of a production renders as the production itself.
pub proof fn lemma_string_production_rendered<Symbol: GrammarSymbol>(p: Production<Symbol>, q: Production<String>)
    requires
        Symbol::renders_exactly(),
        Symbol::renders_exactly() ==> q.lhs@ == p.lhs.rendered(),
        q.rhs@.len() == p.rhs@.len(),
        forall|i: int| 0 <= i < q.rhs@.len() ==> #[trigger] q.rhs@[i].is_list == p.rhs@[i].is_list
            && (Symbol::renders_exactly() ==> q.rhs@[i].symbol@ == p.rhs@[i].symbol.rendered()),
    ensures
        q.rendered() == p.rendered(),
{
    assert forall|i: int| 0 <= i < p.rhs@.len() implies (#[trigger] q.rhs@[i]).symbol@ == p.rhs@[i].symbol.rendered() by {
        assert(q.rhs@[i].is_list == p.rhs@[i].is_list);
    }
    lemma_rhs_text_same(p.rhs@, q.rhs@, p.rhs@.len());
}

impl<Symbol: GrammarSymbol> Data for Production<Symbol> {
    /// The production as its left-hand side followed by each right-hand-side symbol, separated
    /// by spaces.
    open spec fn rendered(&self) -> Seq<char> {
        self.lhs.rendered() + rhs_text(self.rhs@, self.rhs@.len())
    }

    open spec fn renders_exactly() -> bool {
        Symbol::renders_exactly()
    }

    /// Renders the production as its left-hand side followed by each right-hand-side symbol,
    /// separated by spaces.
    fn to_string(&self) -> String {
        let mut res_string = self.lhs.to_string();
        let mut i: usize = 0;
        while i < self.rhs.len()
            invariant
                i <= self.rhs@.len(),
                Symbol::renders_exactly() ==> res_string@ == self.lhs.rendered() + rhs_text(self.rhs@, i as nat),
            decreases self.rhs@.len() - i,
        {
            res_string.append(" ");
            let s = self.rhs[i].symbol.to_string();
            res_string.append(s.as_str());
            i += 1;
        }
        res_string
    }
}

/// Returns true if the two productions have equal left-hand sides and right-hand sides.
pub(crate) fn same_production<Symbol: GrammarSymbol>(a: &Production<Symbol>, b: &Production<Symbol>) -> (r: bool)
    ensures
        eq_exact::<Symbol>() ==> (r == (a.lhs == b.lhs && a.rhs@ == b.rhs@)),
{
    if !(a.lhs == b.lhs) || a.rhs.len() != b.rhs.len() {
        return false;
    }
    let mut i: usize = 0;
    while i < a.rhs.len()
        invariant
            i <= a.rhs@.len(),
            a.rhs@.len() == b.rhs@.len(),
            eq_exact::<Symbol>() ==> a.lhs == b.lhs,
            eq_exact::<Symbol>() ==> forall|j: int| 0 <= j < i ==> a.rhs@[j] == b.rhs@[j],
        decreases a.rhs@.len() - i,
    {
        if !(a.rhs[i].symbol == b.rhs[i].symbol) || a.rhs[i].is_list != b.rhs[i].is_list {
            return false;
        }
        i += 1;
    }
    proof {
        if eq_exact::<Symbol>() {
            assert(a.rhs@ =~= b.rhs@);
        }
    }
    true
}


/// The tokens at the leaves of `tree`, left to right: its childless nodes that have a kind
/// (the null nodes that stand for empty right-hand sides are left out).
pub open spec fn tree_leaves<Symbol: GrammarSymbol>(tree: Tree<Symbol>) -> Seq<Token<Symbol>>
    decreases tree_size(tree), 1nat, 0nat,
{
    if tree.children@.len() == 0 {
        if tree.lhs.spec_kind() is Some {
            seq![tree.lhs]
        } else {
            Seq::empty()
        }
    } else {
        forest_leaves(tree.children@, tree.children@.len(), tree_size(tree))
    }
}

/// The leaves of the first `n` of `children` (each smaller than `bound`), left to right.
pub open spec fn forest_leaves<Symbol: GrammarSymbol>(children: Seq<Tree<Symbol>>, n: nat, bound: nat) -> Seq<
    Token<Symbol>,
>
    decreases bound, 0nat, n,
{
    if n == 0 || n > children.len() {
        Seq::empty()
    } else {
        let prev = forest_leaves(children, (n - 1) as nat, bound);
        if tree_size(children[n - 1]) < bound {
            prev + tree_leaves(children[n - 1])
        } else {
            prev
        }
    }
}

/// Whether `leaves` are `tokens` in order, with only tokens of kinds in `ignorable` left out:
/// the first token is taken by the first leaf where the two are the same, and is otherwise
/// left out, which only an ignorable token may be.
pub open spec fn keeps_tokens<Symbol: GrammarSymbol>(
    leaves: Seq<(Option<Symbol>, Seq<char>)>,
    tokens: Seq<(Option<Symbol>, Seq<char>)>,
    ignorable: Set<Symbol>,
) -> bool
    decreases tokens.len(),
{
    if tokens.len() == 0 {
        leaves.len() == 0
    } else if leaves.len() > 0 && leaves[0] == tokens[0] {
        keeps_tokens(leaves.drop_first(), tokens.drop_first(), ignorable)
    } else {
        tokens[0].0 matches Some(k) && ignorable.contains(k) && keeps_tokens(leaves, tokens.drop_first(), ignorable)
    }
}

/// The kinds and lexemes of a concatenation are those of its parts.
proof fn lemma_pairs_concat<Symbol: GrammarSymbol>(a: Seq<Token<Symbol>>, b: Seq<Token<Symbol>>)
    ensures
        token_pairs(a + b) == token_pairs(a) + token_pairs(b),
{
    assert(token_pairs(a + b) =~= token_pairs(a) + token_pairs(b));
}

/// Appends the leaves of `tree`, left to right, to `out`.
fn collect_leaves<Symbol: GrammarSymbol>(tree: &Tree<Symbol>, out: &mut Vec<Token<Symbol>>)
    ensures
        clones_exactly::<Symbol>() ==> token_pairs(final(out)@) == token_pairs(old(out)@) + token_pairs(
            tree_leaves(*tree),
        ),
    decreases tree_size(*tree),
{
    let ghost start = out@;
    if tree.children.len() == 0 {
        if !tree.lhs.is_null() {
            let t = tree.lhs.copy();
            out.push(t);
            proof {
                lemma_pairs_concat(start, seq![t]);
                assert(out@ =~= start + seq![t]);
                assert(token_pairs(seq![t]) =~= seq![(t.spec_kind(), t.spec_lexeme())]);
                assert(token_pairs(seq![tree.lhs]) =~= seq![(tree.lhs.spec_kind(), tree.lhs.spec_lexeme())]);
            }
        } else {
            assert(token_pairs(tree_leaves(*tree)) =~= Seq::<(Option<Symbol>, Seq<char>)>::empty());
            assert(token_pairs(out@) + Seq::<(Option<Symbol>, Seq<char>)>::empty() =~= token_pairs(out@));
        }
    } else {
        let ghost bound = tree_size(*tree);
        let mut i: usize = 0;
        proof {
            assert(token_pairs(forest_leaves(tree.children@, 0, bound)) =~= Seq::<(Option<Symbol>, Seq<char>)>::empty());
            assert(token_pairs(start) + Seq::<(Option<Symbol>, Seq<char>)>::empty() =~= token_pairs(start));
        }
        while i < tree.children.len()
            invariant
                i <= tree.children@.len(),
                bound == tree_size(*tree),
                clones_exactly::<Symbol>() ==> token_pairs(out@) == token_pairs(start) + token_pairs(
                    forest_leaves(tree.children@, i as nat, bound),
                ),
            decreases tree.children@.len() - i,
        {
            proof {
                lemma_child_smaller(*tree, i as int);
            }
            let ghost mid = out@;
            collect_leaves(tree.get_child(i), out);
            proof {
                let child = tree.children@[i as int];
                let prev = forest_leaves(tree.children@, i as nat, bound);
                assert(forest_leaves(tree.children@, (i + 1) as nat, bound) == prev + tree_leaves(child));
                lemma_pairs_concat(prev, tree_leaves(child));
                assert(token_pairs(start) + token_pairs(prev) + token_pairs(tree_leaves(child))
                    =~= token_pairs(start) + (token_pairs(prev) + token_pairs(tree_leaves(child))));
            }
            i += 1;
        }
    }
}

/// Returns true if the two tokens have the same kind and lexeme.
fn same_token<Symbol: GrammarSymbol>(a: &Token<Symbol>, b: &Token<Symbol>) -> (r: bool)
    ensures
        eq_exact::<Symbol>() ==> r == ((a.spec_kind(), a.spec_lexeme()) == (b.spec_kind(), b.spec_lexeme())),
{
    let same_kind = match (a.kind_opt(), b.kind_opt()) {
        (Some(x), Some(y)) => *x == *y,
        (None, None) => true,
        _ => false,
    };
    if !same_kind {
        return false;
    }
    let ca = chars_of(a.lexeme().as_str());
    let cb = chars_of(b.lexeme().as_str());
    chars_equal(ca.as_slice(), cb.as_slice())
}

/// Returns true if the leaves of `tree` are the tokens `lex` in order, with only tokens of
/// kinds that `grammar` ignores left out.
pub(crate) fn keeps_lexed<Symbol: GrammarSymbol, G: Grammar<Symbol>>(
    tree: &Tree<Symbol>,
    lex: &Vec<Token<Symbol>>,
    grammar: &G,
) -> (b: bool)
    ensures
        eq_exact::<Symbol>() && clones_exactly::<Symbol>() ==> b == keeps_tokens(
            token_pairs(tree_leaves(*tree)),
            token_pairs(lex@),
            grammar.ignorable_set(),
        ),
{
    let mut leaves: Vec<Token<Symbol>> = Vec::new();
    collect_leaves(tree, &mut leaves);
    proof {
        assert(token_pairs(Seq::<Token<Symbol>>::empty()) + token_pairs(tree_leaves(*tree)) =~= token_pairs(tree_leaves(*tree)));
    }
    let ghost ls = token_pairs(leaves@);
    let ghost ts = token_pairs(lex@);
    let ghost ign = grammar.ignorable_set();
    let mut i: usize = 0;
    let mut j: usize = 0;
    proof {
        assert(ls.skip(0) =~= ls);
        assert(ts.skip(0) =~= ts);
    }
    while i < lex.len()
        invariant
            i <= lex@.len(),
            j <= leaves@.len(),
            ls == token_pairs(leaves@),
            ts == token_pairs(lex@),
            ign == grammar.ignorable_set(),
            clones_exactly::<Symbol>() ==> ls == token_pairs(tree_leaves(*tree)),
            eq_exact::<Symbol>() ==> keeps_tokens(ls, ts, ign) == keeps_tokens(ls.skip(j as int), ts.skip(i as int), ign),
        decreases lex@.len() - i,
    {
        proof {
            assert(ts[i as int] == (lex@[i as int].spec_kind(), lex@[i as int].spec_lexeme()));
            assert(j < leaves@.len() ==> ls[j as int] == (leaves@[j as int].spec_kind(), leaves@[j as int].spec_lexeme()));
            assert(ts.skip(i as int)[0] == ts[i as int]);
            assert(ts.skip(i as int).drop_first() =~= ts.skip(i + 1));
            if j < leaves@.len() {
                assert(ls.skip(j as int)[0] == ls[j as int]);
                assert(ls.skip(j as int).drop_first() =~= ls.skip(j + 1));
            }
        }
        if j < leaves.len() && same_token(&leaves[j], &lex[i]) {
            j += 1;
        } else {
            match lex[i].kind_opt() {
                None => {
                    return false;
                },
                Some(k) => {
                    if !grammar.is_ignorable(k) {
                        return false;
                    }
                },
            }
        }
        i += 1;
    }
    proof {
        assert(ts.skip(i as int).len() == 0);
    }
    j == leaves.len()
}

/// The text of `tokens`: their lexemes, one after another.
pub open spec fn lexemes_text<Symbol>(tokens: Seq<(Option<Symbol>, Seq<char>)>) -> Seq<char>
    decreases tokens.len(),
{
    if tokens.len() == 0 {
        Seq::empty()
    } else {
        lexemes_text(tokens.drop_last()) + tokens.last().1
    }
}

/// The text spelled by the leaves of `tree`: their lexemes, left to right.
pub open spec fn spelled_text<Symbol: GrammarSymbol>(tree: Tree<Symbol>) -> Seq<char> {
    lexemes_text(token_pairs(tree_leaves(tree)))
}

/// Returns true if the leaves of `tree` spell `text`.
pub(crate) fn spells<Symbol: GrammarSymbol>(tree: &Tree<Symbol>, text: &str) -> (b: bool)
    ensures
        clones_exactly::<Symbol>() ==> b == (spelled_text(*tree) == text@),
{
    let mut leaves: Vec<Token<Symbol>> = Vec::new();
    collect_leaves(tree, &mut leaves);
    proof {
        assert(token_pairs(Seq::<Token<Symbol>>::empty()) + token_pairs(tree_leaves(*tree)) =~= token_pairs(tree_leaves(*tree)));
    }
    let ghost pairs = token_pairs(leaves@);
    let mut spelled: Vec<char> = Vec::new();
    let mut k: usize = 0;
    proof {
        assert(pairs.take(0) =~= Seq::<(Option<Symbol>, Seq<char>)>::empty());
    }
    while k < leaves.len()
        invariant
            k <= leaves@.len(),
            pairs == token_pairs(leaves@),
            spelled@ == lexemes_text(pairs.take(k as int)),
        decreases leaves@.len() - k,
    {
        let lexeme = chars_of(leaves[k].lexeme().as_str());
        let ghost before = spelled@;
        let mut m: usize = 0;
        while m < lexeme.len()
            invariant
                m <= lexeme@.len(),
                spelled@ == before + lexeme@.take(m as int),
            decreases lexeme@.len() - m,
        {
            spelled.push(lexeme[m]);
            proof {
                assert(before + lexeme@.take(m + 1) =~= (before + lexeme@.take(m as int)).push(lexeme@[m as int]));
            }
            m += 1;
        }
        proof {
            assert(lexeme@.take(m as int) =~= lexeme@);
            assert(pairs.take(k + 1).drop_last() =~= pairs.take(k as int));
            assert(pairs.take(k + 1).last() == pairs[k as int]);
            assert(pairs[k as int].1 == leaves@[k as int].spec_lexeme());
        }
        k += 1;
    }
    proof {
        assert(pairs.take(k as int) =~= pairs);
    }
    let expected = chars_of(text);
    chars_equal(spelled.as_slice(), expected.as_slice())
}

} // verus!
