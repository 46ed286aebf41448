use vstd::prelude::*;
use crate::data::{clones_exactly, eq_exact};
use crate::fmt::pattern::{
    built_from_text, capture_size, copy_pattern, gen_pattern, pattern_view, Built, PatternSymbol, SegmentView, generate_pattern, lemma_declaration_smaller,
    lemma_segment_smaller, pattern_size, Capture, Pattern, Segment,
};
use crate::parse::grammar::GrammarSymbol;
use crate::parse::{
    lemma_child_smaller, same_production, spelled_text, tree_size, Production, ProductionSymbol,
    SymbolParseMethod, Tree,
};
use crate::text::{chars_equal, chars_of};
use crate::util::vecset::reverse_vec;

pub mod pattern;

verus! {

/// Injection Affinity: the direction in which an injectable symbol prefers to be injected.
///
/// `Left` prefers injection immediately after the previous non-terminal symbol; `Right`
/// prefers injection immediately before the next non-terminal symbol.
#[derive(Clone, Copy, PartialEq, Eq, Structural, Debug)]
pub enum InjectionAffinity {
    Left,
    Right,
}

impl InjectionAffinity {
    /// Returns the opposite injection affinity.
    pub fn opposite(&self) -> (a: Self)
        ensures
            a != *self,
            a == opposite_affinity(*self),
    {
        match self {
            InjectionAffinity::Left => InjectionAffinity::Right,
            InjectionAffinity::Right => InjectionAffinity::Left,
        }
    }
}


/// Whether productions `a` and `b` have the same left-hand side and right-hand side.
pub open spec fn same_prod<Symbol: GrammarSymbol>(a: Production<Symbol>, b: Production<Symbol>) -> bool {
    a.lhs == b.lhs && a.rhs@ == b.rhs@
}

/// Whether `r` is the value at the first position where `keys` holds (of the values `values`),
/// or none where `keys` never holds.
pub open spec fn found_at<V>(keys: Seq<bool>, r: Option<V>, values: Seq<V>) -> bool {
    match r {
        Some(v) => exists|i: int|
            0 <= i < keys.len() && i < values.len() && keys[i] && values[i] == v && forall|j: int|
                0 <= j < i ==> !keys[j],
        None => forall|j: int| 0 <= j < keys.len() ==> !keys[j],
    }
}

/// Whether the pattern entries `after` are `before` with `pattern` set for `production`: in
/// place of the pattern of the first entry of the same production, or appended.
pub open spec fn pattern_put<Symbol: GrammarSymbol>(
    before: Seq<(Production<Symbol>, Pattern)>,
    after: Seq<(Production<Symbol>, Pattern)>,
    production: Production<Symbol>,
    pattern: Pattern,
) -> bool {
    ||| exists|i: int|
        0 <= i < before.len() && same_prod(before[i].0, production) && (forall|j: int|
            0 <= j < i ==> !same_prod(#[trigger] before[j].0, production)) && after == before.update(
            i,
            (production, pattern),
        )
    ||| (forall|j: int| 0 <= j < before.len() ==> !same_prod(#[trigger] before[j].0, production))
        && after == before.push((production, pattern))
}

/// The position of the first variable named `key` among `vars`, or -1 if there is none.
pub open spec fn first_var(vars: Seq<(Seq<char>, Seq<char>)>, key: Seq<char>) -> int
    decreases vars.len(),
{
    if vars.len() == 0 {
        -1
    } else {
        let r = first_var(vars.drop_last(), key);
        if r >= 0 {
            r
        } else if vars.last().0 == key {
            vars.len() - 1
        } else {
            -1
        }
    }
}

/// The value of variable `key` among `vars`, if it is set.
pub open spec fn var_value(vars: Seq<(Seq<char>, Seq<char>)>, key: Seq<char>) -> Option<Seq<char>> {
    let i = first_var(vars, key);
    if i >= 0 {
        Some(vars[i].1)
    } else {
        None
    }
}

/// `vars` with variable `key` set to `value`: in its entry, or in a new last entry.
pub open spec fn var_set(vars: Seq<(Seq<char>, Seq<char>)>, key: Seq<char>, value: Seq<char>) -> Seq<
    (Seq<char>, Seq<char>),
> {
    let i = first_var(vars, key);
    if i >= 0 {
        vars.update(i, (key, value))
    } else {
        vars.push((key, value))
    }
}

/// `vars` with variable `key` cleared.
pub open spec fn var_clear(vars: Seq<(Seq<char>, Seq<char>)>, key: Seq<char>) -> Seq<(Seq<char>, Seq<char>)> {
    let i = first_var(vars, key);
    if i >= 0 {
        vars.remove(i)
    } else {
        vars
    }
}

/// `first_var` is the first position of the variable, or -1 where it has none.
proof fn lemma_first_var(vars: Seq<(Seq<char>, Seq<char>)>, key: Seq<char>)
    ensures
        first_var(vars, key) == -1 <==> forall|j: int| 0 <= j < vars.len() ==> vars[j].0 != key,
        first_var(vars, key) >= 0 ==> first_var(vars, key) < vars.len() && vars[first_var(vars, key)].0 == key
            && forall|j: int| 0 <= j < first_var(vars, key) ==> vars[j].0 != key,
        first_var(vars, key) >= -1,
    decreases vars.len(),
{
    if vars.len() > 0 {
        lemma_first_var(vars.drop_last(), key);
        let r = first_var(vars.drop_last(), key);
        if r >= 0 {
            assert(vars.drop_last()[r] == vars[r]);
            assert forall|j: int| 0 <= j < r implies vars[j].0 != key by {
                assert(vars.drop_last()[j] == vars[j]);
            }
        } else {
            assert forall|j: int| 0 <= j < vars.len() - 1 implies vars[j].0 != key by {
                assert(vars.drop_last()[j] == vars[j]);
            }
        }
    }
}

/// The names and values of the entries of a scope.
spec fn scope_vars(entries: Seq<(String, String)>) -> Seq<(Seq<char>, Seq<char>)> {
    entries.map_values(|e: (String, String)| (e.0@, e.1@))
}

/// Variable Scope: the values of the variables in scope, as pairs of name and value, each name
/// at most once.
struct Scope {
    entries: Vec<(String, String)>,
}

/// Returns true if the two strings hold the same characters.
fn same_text(a: &String, b: &String) -> (r: bool)
    ensures
        r == (a@ == b@),
{
    let ca = chars_of(a.as_str());
    let cb = chars_of(b.as_str());
    chars_equal(ca.as_slice(), cb.as_slice())
}

impl Scope {
    /// Returns a scope with no variables.
    fn new() -> (s: Self)
        ensures
            s.entries@ == Seq::<(String, String)>::empty(),
    {
        Scope { entries: Vec::new() }
    }

    /// Returns a copy of the scope.
    fn copy(&self) -> (s: Self)
        ensures
            s.entries@ == self.entries@,
    {
        let mut entries: Vec<(String, String)> = Vec::new();
        let mut i: usize = 0;
        while i < self.entries.len()
            invariant
                i <= self.entries@.len(),
                entries@ == self.entries@.take(i as int),
            decreases self.entries@.len() - i,
        {
            entries.push((self.entries[i].0.clone(), self.entries[i].1.clone()));
            i += 1;
            assert(entries@ =~= self.entries@.take(i as int));
        }
        assert(self.entries@.take(self.entries@.len() as int) =~= self.entries@);
        Scope { entries }
    }

    /// The position of the first entry of variable `key`, if any.
    fn find(&self, key: &String) -> (r: Option<usize>)
        ensures
            match r {
                Some(i) => i < self.entries@.len() && self.entries@[i as int].0@ == key@ && forall|j: int|
                    0 <= j < i ==> self.entries@[j].0@ != key@,
                None => forall|j: int| 0 <= j < self.entries@.len() ==> self.entries@[j].0@ != key@,
            },
    {
        let mut i: usize = 0;
        while i < self.entries.len()
            invariant
                i <= self.entries@.len(),
                forall|j: int| 0 <= j < i ==> self.entries@[j].0@ != key@,
            decreases self.entries@.len() - i,
        {
            if same_text(&self.entries[i].0, key) {
                return Some(i);
            }
            i += 1;
        }
        None
    }

    /// The value of variable `key`, if it is in scope.
    fn get(&self, key: &String) -> (r: Option<&String>)
        ensures
            match r {
                Some(v) => exists|i: int|
                    0 <= i < self.entries@.len() && self.entries@[i].0@ == key@ && *v
                        == self.entries@[i].1 && forall|j: int| 0 <= j < i ==> self.entries@[j].0@ != key@,
                None => forall|j: int| 0 <= j < self.entries@.len() ==> self.entries@[j].0@ != key@,
            },
            var_value(scope_vars(self.entries@), key@) == match r {
                Some(v) => Some(v@),
                None => None,
            },
    {
        proof {
            lemma_first_var(scope_vars(self.entries@), key@);
        }
        match self.find(key) {
            Some(i) => {
                proof {
                    let vars = scope_vars(self.entries@);
                    let f = first_var(vars, key@);
                    assert(vars[i as int].0 == self.entries@[i as int].0@);
                    if 0 <= f < i {
                        assert(vars[f].0 == self.entries@[f].0@);
                    }
                }
                Some(&self.entries[i].1)
            },
            None => {
                proof {
                    let vars = scope_vars(self.entries@);
                    if first_var(vars, key@) != -1 {
                        let f = first_var(vars, key@);
                        assert(vars[f].0 == self.entries@[f].0@);
                    }
                }
                None
            },
        }
    }

    /// Sets the value of variable `key` to `value`.
    fn insert(&mut self, key: String, value: String)
        ensures
            (exists|i: int| 0 <= i < old(self).entries@.len() && old(self).entries@[i].0@ == key@)
                ==> exists|i: int|
                0 <= i < old(self).entries@.len() && old(self).entries@[i].0@ == key@ && final(self).entries@ == old(self).entries@.update(i, (key, value)),
            (forall|j: int| 0 <= j < old(self).entries@.len() ==> old(self).entries@[j].0@ != key@)
                ==> final(self).entries@ == old(self).entries@.push((key, value)),
            scope_vars(final(self).entries@) == var_set(scope_vars(old(self).entries@), key@, value@),
    {
        let ghost vars = scope_vars(self.entries@);
        proof {
            lemma_first_var(vars, key@);
        }
        match self.find(&key) {
            Some(i) => {
                proof {
                    let f = first_var(vars, key@);
                    assert(vars[i as int].0 == self.entries@[i as int].0@);
                    if 0 <= f < i {
                        assert(vars[f].0 == self.entries@[f].0@);
                    }
                }
                let ghost kv = (key@, value@);
                self.entries.set(i, (key, value));
                proof {
                    assert(scope_vars(self.entries@) =~= vars.update(i as int, kv));
                }
            },
            None => {
                proof {
                    if first_var(vars, key@) != -1 {
                        let f = first_var(vars, key@);
                        assert(vars[f].0 == self.entries@[f].0@);
                    }
                }
                let ghost kv = (key@, value@);
                self.entries.push((key, value));
                proof {
                    assert(scope_vars(self.entries@) =~= vars.push(kv));
                }
            },
        }
    }

    /// Takes variable `key` out of scope.
    fn remove(&mut self, key: &String)
        ensures
            (exists|i: int| 0 <= i < old(self).entries@.len() && old(self).entries@[i].0@ == key@)
                ==> exists|i: int|
                0 <= i < old(self).entries@.len() && old(self).entries@[i].0@ == key@ && final(self).entries@ == old(self).entries@.remove(i),
            (forall|j: int| 0 <= j < old(self).entries@.len() ==> old(self).entries@[j].0@ != key@)
                ==> final(self).entries@ == old(self).entries@,
            scope_vars(final(self).entries@) == var_clear(scope_vars(old(self).entries@), key@),
    {
        let ghost vars = scope_vars(self.entries@);
        proof {
            lemma_first_var(vars, key@);
        }
        match self.find(key) {
            Some(i) => {
                proof {
                    let f = first_var(vars, key@);
                    assert(vars[i as int].0 == self.entries@[i as int].0@);
                    if 0 <= f < i {
                        assert(vars[f].0 == self.entries@[f].0@);
                    }
                }
                self.entries.remove(i);
                proof {
                    assert(scope_vars(self.entries@) =~= vars.remove(i as int));
                }
            },
            None => {
                proof {
                    if first_var(vars, key@) != -1 {
                        let f = first_var(vars, key@);
                        assert(vars[f].0 == self.entries@[f].0@);
                    }
                }
            },
        }
    }
}

/// Injectable: how injected tokens of a symbol are formatted: with their `pattern`, if any,
/// attached to their neighbour in the direction of their `affinity`.
struct Injectable {
    pattern: Option<Pattern>,
    affinity: InjectionAffinity,
}

/// The view of an injectable entry: its symbol, its affinity, and the view of its pattern.
spec fn injection_view<Symbol: GrammarSymbol>(e: (Symbol, Injectable)) -> (Symbol, InjectionAffinity, Option<
    Seq<SegmentView>,
>) {
    (
        e.0,
        e.1.affinity,
        match e.1.pattern {
            Some(p) => Some(pattern_view(p)),
            None => None,
        },
    )
}

/// The formatted text of a leaf: nothing for a null leaf, else its lexeme.
pub open spec fn leaf_text<Symbol: GrammarSymbol>(leaf: Tree<Symbol>) -> Seq<char> {
    if leaf.lhs.spec_kind() is None {
        Seq::<char>::empty()
    } else {
        leaf.lhs.spec_lexeme()
    }
}

/// Whether `i` is the first position where `keys` holds.
pub open spec fn first_key(keys: Seq<bool>, i: int) -> bool {
    0 <= i < keys.len() && keys[i] && forall|j: int| 0 <= j < i ==> !keys[j]
}

/// The value (of `values`) at the first position where `keys` holds, or none where it never
/// holds.
pub open spec fn first_found<V>(keys: Seq<bool>, values: Seq<V>) -> Option<V> {
    if exists|i: int| first_key(keys, i) && i < values.len() {
        Some(values[choose|i: int| first_key(keys, i) && i < values.len()])
    } else {
        None
    }
}

/// A value found at the first position where the keys hold is `first_found`.
proof fn lemma_found_at_first<V>(keys: Seq<bool>, r: Option<V>, values: Seq<V>)
    requires
        found_at(keys, r, values),
    ensures
        r == first_found(keys, values),
{
    match r {
        Some(v) => {
            let i = choose|i: int|
                0 <= i < keys.len() && i < values.len() && keys[i] && values[i] == v && forall|j: int|
                    0 <= j < i ==> !keys[j];
            assert(first_key(keys, i) && i < values.len());
            let c = choose|i: int| first_key(keys, i) && i < values.len();
            assert(c == i) by {
                if c < i {
                    assert(keys[c]);
                } else if i < c {
                    assert(keys[i]);
                }
            }
        },
        None => {
            if exists|i: int| first_key(keys, i) && i < values.len() {
                let c = choose|i: int| first_key(keys, i) && i < values.len();
                assert(keys[c]);
            }
        },
    }
}

/// The trees that `children` refer to.
spec fn derefs<'a, Symbol: GrammarSymbol>(children: Seq<&'a Tree<Symbol>>) -> Seq<Tree<Symbol>> {
    children.map_values(|t: &'a Tree<Symbol>| *t)
}

/// The views of the injections `injections`, if any.
spec fn taken_views<'a, Symbol: GrammarSymbol>(injections: Option<Vec<Injection<'a, Symbol>>>) -> Seq<
    (Tree<Symbol>, Option<Pattern>, InjectionAffinity),
> {
    match injections {
        Some(v) => v@.map_values(|x: Injection<'a, Symbol>| inj_view(x)),
        None => Seq::empty(),
    }
}

/// The child positions of the captures among the first `k` segments of `pattern`, in order.
spec fn captured_indices(pattern: Pattern, k: nat) -> Seq<usize>
    decreases k,
{
    if k == 0 || k > pattern.segments@.len() {
        Seq::empty()
    } else {
        let prev = captured_indices(pattern, (k - 1) as nat);
        match pattern.segments@[k - 1] {
            Segment::Capture(c) => prev.push(c.child_index),
            _ => prev,
        }
    }
}

/// The opposite of injection affinity `a`.
pub open spec fn opposite_affinity(a: InjectionAffinity) -> InjectionAffinity {
    match a {
        InjectionAffinity::Left => InjectionAffinity::Right,
        InjectionAffinity::Right => InjectionAffinity::Left,
    }
}

/// Injection: the injected token `tree`, formatted with `pattern`, attached before (`Right`)
/// or after (`Left`) the formatting of its neighbour.
struct Injection<'a, Symbol: GrammarSymbol> {
    tree: &'a Tree<Symbol>,
    pattern: &'a Option<Pattern>,
    direction: InjectionAffinity,
}

/// Formatter: formats parse trees with the pattern of each production, and injected tokens
/// with the injectable specification of their symbol.
pub struct Formatter<Symbol: GrammarSymbol> {
    pattern_map: Vec<(Production<Symbol>, Pattern)>,
    injection_map: Vec<(Symbol, Injectable)>,
}

impl<Symbol: GrammarSymbol> Formatter<Symbol> {
    /// Returns the formatted string of the parse tree `parse`: a leaf is its lexeme; a node
    /// with a pattern fills it with its children, each injected child attached before or after
    /// a captured child; any other node is its children formatted one after the other.
    pub fn format(&self, parse: &Tree<Symbol>) -> (r: String)
        ensures
            parse.children@.len() == 0 ==> r@ == leaf_text(*parse),
            eq_exact::<Symbol>() ==> r@ == self.formatted(*parse),
    {
        let scope = Scope::new();
        proof {
            assert(scope_vars(scope.entries@) =~= Seq::<(Seq<char>, Seq<char>)>::empty());
        }
        self.recur(parse, &scope)
    }

    /// The productions given a pattern, with their patterns.
    pub closed spec fn patterns(&self) -> Seq<(Production<Symbol>, Pattern)> {
        self.pattern_map@
    }

    /// The symbols given an injectable specification.
    pub closed spec fn injected_symbols(&self) -> Seq<Symbol> {
        self.injection_map@.map_values(|e: (Symbol, Injectable)| e.0)
    }

    /// The injectable symbols, with their affinities and the views of their patterns.
    pub closed spec fn injections(&self) -> Seq<(Symbol, InjectionAffinity, Option<Seq<SegmentView>>)> {
        self.injection_map@.map_values(|e: (Symbol, Injectable)| injection_view(e))
    }

    /// The pattern given for `production`, if any: that of its first entry.
    pub closed spec fn pattern_for(&self, production: Option<Production<Symbol>>) -> Option<Pattern> {
        match production {
            Some(prod) => first_found(
                self.pattern_map@.map_values(|e: (Production<Symbol>, Pattern)| same_prod(e.0, prod)),
                self.pattern_map@.map_values(|e: (Production<Symbol>, Pattern)| e.1),
            ),
            None => None,
        }
    }

    /// The formatted text of a parse tree.
    pub closed spec fn formatted(&self, tree: Tree<Symbol>) -> Seq<char> {
        self.text_of(tree, Seq::empty())
    }

    /// The injectable specification of the injected token `child`: that of the first entry of
    /// its kind, if any.
    spec fn injectable_spec(&self, child: Tree<Symbol>) -> Option<Injectable> {
        match child.lhs.spec_kind() {
            Some(k) => first_found(
                self.injection_map@.map_values(|e: (Symbol, Injectable)| e.0 == k),
                self.injection_map@.map_values(|e: (Symbol, Injectable)| e.1),
            ),
            None => None,
        }
    }

    /// The text of `node` with the variables `vars` (name and value, first entry of a name
    /// first): a leaf is its lexeme (nothing if null); a node with a pattern fills it with its
    /// children, each injected child attached to a captured child; any other node is the texts
    /// of its children (injected ones as injections) one after the other.
    spec fn text_of(&self, node: Tree<Symbol>, vars: Seq<(Seq<char>, Seq<char>)>) -> Seq<char>
        decreases tree_size(node), 7nat, 0nat, 0nat,
    {
        if node.children@.len() == 0 {
            leaf_text(node)
        } else {
            match self.pattern_for(node.production) {
                Some(p) => {
                    let d = self.distributed(p, node.children@, node.children@.len());
                    self.filled_with(p, p.segments@.len(), d.0, vars, d.1, tree_size(node)).0
                },
                None => self.joined_text(node.children@, node.children@.len(), vars, tree_size(node)),
            }
        }
    }

    /// The texts of the first `n` trees of `children` (each smaller than `bound`), one after
    /// the other: an injected tree with an injectable specification as an injection.
    spec fn joined_text(
        &self,
        children: Seq<Tree<Symbol>>,
        n: nat,
        vars: Seq<(Seq<char>, Seq<char>)>,
        bound: nat,
    ) -> Seq<char>
        decreases bound, 6nat, 0nat, n,
    {
        if n == 0 || n > children.len() {
            Seq::empty()
        } else {
            let prev = self.joined_text(children, (n - 1) as nat, vars, bound);
            let child = children[n - 1];
            if tree_size(child) < bound {
                if child.spm == SymbolParseMethod::Injected && self.injectable_spec(child) is Some {
                    prev + self.injection_text(child, self.injectable_spec(child)->0.pattern, vars, bound)
                } else {
                    prev + self.text_of(child, vars)
                }
            } else {
                prev
            }
        }
    }

    /// The text of the injected token `tree` (smaller than `bound`): filled into `pattern`, or
    /// else its lexeme.
    spec fn injection_text(
        &self,
        tree: Tree<Symbol>,
        pattern: Option<Pattern>,
        vars: Seq<(Seq<char>, Seq<char>)>,
        bound: nat,
    ) -> Seq<char>
        decreases bound, 2nat, 0nat, 0nat,
    {
        match pattern {
            Some(p) => if tree_size(tree) < bound {
                self.segments_text(p, p.segments@.len(), seq![tree], vars, tree_size(tree) + 1)
            } else {
                Seq::empty()
            },
            None => tree.lhs.spec_lexeme(),
        }
    }

    /// The children of the first `i` of `children` that a pattern `pattern` fills, and the
    /// injections of the injected ones among them, each with the position (among the filled
    /// children) of the captured child it attaches to: in the direction of its affinity, or
    /// else in the other direction; one that can attach to no captured child is left out.
    spec fn distributed(&self, pattern: Pattern, children: Seq<Tree<Symbol>>, i: nat) -> (
        Seq<Tree<Symbol>>,
        Seq<(usize, (Tree<Symbol>, Option<Pattern>, InjectionAffinity))>,
    )
        decreases i,
    {
        if i == 0 || i > children.len() {
            (Seq::empty(), Seq::empty())
        } else {
            let d = self.distributed(pattern, children, (i - 1) as nat);
            let child = children[i - 1];
            if child.spm != SymbolParseMethod::Injected {
                (d.0.push(child), d.1)
            } else if self.injectable_spec(child) is Some {
                let inj = self.injectable_spec(child)->0;
                let caps = captured_indices(pattern, pattern.segments@.len());
                let n = d.0.len() as int;
                let preferred: Option<int> = match inj.affinity {
                    InjectionAffinity::Left => if n == 0 {
                        None
                    } else {
                        Some(n - 1)
                    },
                    InjectionAffinity::Right => Some(n),
                };
                let preferred_ok = match preferred {
                    Some(t) => caps.contains(t as usize),
                    None => false,
                };
                let flipped: Option<int> = match inj.affinity {
                    InjectionAffinity::Left => Some(n),
                    InjectionAffinity::Right => if n == 0 {
                        None
                    } else {
                        Some(n - 1)
                    },
                };
                let target = if preferred_ok {
                    preferred
                } else {
                    flipped
                };
                let direction = if preferred_ok {
                    inj.affinity
                } else {
                    opposite_affinity(inj.affinity)
                };
                match target {
                    Some(t) => if caps.contains(t as usize) {
                        (d.0, d.1.push((t as usize, (child, inj.pattern, direction))))
                    } else {
                        d
                    },
                    None => d,
                }
            } else {
                d
            }
        }
    }

    /// The first `k` segments of `pattern` filled with `children` (each smaller than `bound`),
    /// the variables `vars` and the targeted injections `injections`, with the injections not
    /// taken yet: a capture takes the injections of its child.
    spec fn filled_with(
        &self,
        pattern: Pattern,
        k: nat,
        children: Seq<Tree<Symbol>>,
        vars: Seq<(Seq<char>, Seq<char>)>,
        injections: Seq<(usize, (Tree<Symbol>, Option<Pattern>, InjectionAffinity))>,
        bound: nat,
    ) -> (Seq<char>, Seq<(usize, (Tree<Symbol>, Option<Pattern>, InjectionAffinity))>)
        decreases bound, 5nat, 0nat, k,
    {
        if k == 0 || k > pattern.segments@.len() {
            (Seq::empty(), injections)
        } else {
            let prev = self.filled_with(pattern, (k - 1) as nat, children, vars, injections, bound);
            match pattern.segments@[k - 1] {
                Segment::Filler(s) => (prev.0 + s@, prev.1),
                Segment::Substitution(s) => (
                    prev.0 + match var_value(vars, s@) {
                        Some(v) => v,
                        None => Seq::empty(),
                    },
                    prev.1,
                ),
                Segment::Capture(c) => (
                    prev.0 + self.capture_with(c, children, vars, injections_of(prev.1, c.child_index), bound),
                    injections_except(prev.1, c.child_index),
                ),
            }
        }
    }

    /// The text of the child of `capture` (nothing if there is no such child) with the
    /// variables `vars` updated by its declarations, preceded by the texts of the injections of
    /// `taken` directed right and followed by those directed left.
    spec fn capture_with(
        &self,
        capture: Capture,
        children: Seq<Tree<Symbol>>,
        vars: Seq<(Seq<char>, Seq<char>)>,
        taken: Seq<(Tree<Symbol>, Option<Pattern>, InjectionAffinity)>,
        bound: nat,
    ) -> Seq<char>
        decreases bound, 4nat, 0nat, 0nat,
    {
        if capture.child_index >= children.len() {
            Seq::empty()
        } else {
            let child = children[capture.child_index as int];
            if tree_size(child) < bound {
                let inner = self.declared_vars(capture, capture.declarations@.len(), children, vars, bound);
                self.rights_text(taken, 0, vars, bound) + self.text_of(child, inner) + self.lefts_text(
                    taken,
                    taken.len(),
                    vars,
                    bound,
                )
            } else {
                Seq::empty()
            }
        }
    }

    /// The texts of the injections of `taken` from position `i` on that are directed right.
    spec fn rights_text(
        &self,
        taken: Seq<(Tree<Symbol>, Option<Pattern>, InjectionAffinity)>,
        i: nat,
        vars: Seq<(Seq<char>, Seq<char>)>,
        bound: nat,
    ) -> Seq<char>
        decreases bound, 3nat, 0nat, taken.len() - i,
    {
        if i >= taken.len() {
            Seq::empty()
        } else {
            let rest = self.rights_text(taken, i + 1, vars, bound);
            if taken[i as int].2 == InjectionAffinity::Right {
                self.injection_text(taken[i as int].0, taken[i as int].1, vars, bound) + rest
            } else {
                rest
            }
        }
    }

    /// The texts of the injections of the first `m` of `taken` that are directed left.
    spec fn lefts_text(
        &self,
        taken: Seq<(Tree<Symbol>, Option<Pattern>, InjectionAffinity)>,
        m: nat,
        vars: Seq<(Seq<char>, Seq<char>)>,
        bound: nat,
    ) -> Seq<char>
        decreases bound, 3nat, 0nat, m,
    {
        if m == 0 || m > taken.len() {
            Seq::empty()
        } else {
            let prev = self.lefts_text(taken, (m - 1) as nat, vars, bound);
            if taken[m - 1].2 == InjectionAffinity::Left {
                prev + self.injection_text(taken[m - 1].0, taken[m - 1].1, vars, bound)
            } else {
                prev
            }
        }
    }

    /// The first `k` segments of `pattern` filled with `children` (each smaller than `bound`)
    /// and the variables `vars`, with no injections: fillers as they are, substitutions by the
    /// value of their variable (nothing if unset), captures by the text of their child.
    spec fn segments_text(
        &self,
        pattern: Pattern,
        k: nat,
        children: Seq<Tree<Symbol>>,
        vars: Seq<(Seq<char>, Seq<char>)>,
        bound: nat,
    ) -> Seq<char>
        decreases bound, 0nat, pattern_size(pattern), k,
    {
        if k == 0 || k > pattern.segments@.len() {
            Seq::empty()
        } else {
            proof {
                lemma_segment_smaller(pattern, k - 1);
            }
            let prev = self.segments_text(pattern, (k - 1) as nat, children, vars, bound);
            prev + match pattern.segments@[k - 1] {
                Segment::Filler(s) => s@,
                Segment::Substitution(s) => match var_value(vars, s@) {
                    Some(v) => v,
                    None => Seq::empty(),
                },
                Segment::Capture(c) => self.capture_text(c, children, vars, bound),
            }
        }
    }

    /// The text of the child of `capture` (nothing if there is no such child) with the
    /// variables `vars` updated by its declarations.
    spec fn capture_text(
        &self,
        capture: Capture,
        children: Seq<Tree<Symbol>>,
        vars: Seq<(Seq<char>, Seq<char>)>,
        bound: nat,
    ) -> Seq<char>
        decreases bound, 0nat, capture_size(capture), capture.declarations@.len() + 1,
    {
        if capture.child_index >= children.len() {
            Seq::empty()
        } else {
            let child = children[capture.child_index as int];
            if tree_size(child) < bound {
                let inner = self.declared_vars(capture, capture.declarations@.len(), children, vars, bound);
                self.text_of(child, inner)
            } else {
                Seq::empty()
            }
        }
    }

    /// The variables `outer` updated by the first `n` declarations of `capture`: each value is
    /// its pattern filled with `children` and the variables `outer`; a declaration without
    /// value clears its variable.
    spec fn declared_vars(
        &self,
        capture: Capture,
        n: nat,
        children: Seq<Tree<Symbol>>,
        outer: Seq<(Seq<char>, Seq<char>)>,
        bound: nat,
    ) -> Seq<(Seq<char>, Seq<char>)>
        decreases bound, 0nat, capture_size(capture), n,
    {
        if n == 0 || n > capture.declarations@.len() {
            outer
        } else {
            let prev = self.declared_vars(capture, (n - 1) as nat, children, outer, bound);
            let d = capture.declarations@[n - 1];
            match d.value {
                Some(p) => {
                    proof {
                        lemma_declaration_smaller(capture, n - 1);
                    }
                    var_set(prev, d.key@, self.segments_text(p, p.segments@.len(), children, outer, bound))
                },
                None => var_clear(prev, d.key@),
            }
        }
    }

    /// The pattern of `production`, if one was given.
    fn pattern_of(&self, production: &Production<Symbol>) -> (r: Option<&Pattern>)
        ensures
            eq_exact::<Symbol>() ==> found_at(
                self.pattern_map@.map_values(|e: (Production<Symbol>, Pattern)| same_prod(e.0, *production)),
                match r {
                    Some(p) => Some(*p),
                    None => None,
                },
                self.pattern_map@.map_values(|e: (Production<Symbol>, Pattern)| e.1),
            ),
    {
        let ghost keys = self.pattern_map@.map_values(|e: (Production<Symbol>, Pattern)| same_prod(e.0, *production));
        let mut i: usize = 0;
        while i < self.pattern_map.len()
            invariant
                i <= self.pattern_map@.len(),
                keys == self.pattern_map@.map_values(|e: (Production<Symbol>, Pattern)| same_prod(e.0, *production)),
                eq_exact::<Symbol>() ==> forall|j: int| 0 <= j < i ==> !keys[j],
            decreases self.pattern_map@.len() - i,
        {
            if same_production(&self.pattern_map[i].0, production) {
                proof {
                    if eq_exact::<Symbol>() {
                        let values = self.pattern_map@.map_values(|e: (Production<Symbol>, Pattern)| e.1);
                        assert(keys[i as int] && values[i as int] == self.pattern_map@[i as int].1);
                    }
                }
                return Some(&self.pattern_map[i].1);
            }
            i += 1;
        }
        None
    }

    /// The injectable specification of `symbol`, if one was given.
    fn injectable_of(&self, symbol: &Symbol) -> (r: Option<&Injectable>)
        ensures
            eq_exact::<Symbol>() ==> found_at(
                self.injection_map@.map_values(|e: (Symbol, Injectable)| e.0 == *symbol),
                match r {
                    Some(x) => Some(*x),
                    None => None,
                },
                self.injection_map@.map_values(|e: (Symbol, Injectable)| e.1),
            ),
    {
        let ghost keys = self.injection_map@.map_values(|e: (Symbol, Injectable)| e.0 == *symbol);
        let mut i: usize = 0;
        while i < self.injection_map.len()
            invariant
                i <= self.injection_map@.len(),
                keys == self.injection_map@.map_values(|e: (Symbol, Injectable)| e.0 == *symbol),
                eq_exact::<Symbol>() ==> forall|j: int| 0 <= j < i ==> !keys[j],
            decreases self.injection_map@.len() - i,
        {
            if self.injection_map[i].0 == *symbol {
                proof {
                    if eq_exact::<Symbol>() {
                        let values = self.injection_map@.map_values(|e: (Symbol, Injectable)| e.1);
                        assert(keys[i as int] && values[i as int] == self.injection_map@[i as int].1);
                    }
                }
                return Some(&self.injection_map[i].1);
            }
            i += 1;
        }
        None
    }

    /// The injectable specification of the injected token `child`, if it has one.
    fn injectable_for(&self, child: &Tree<Symbol>) -> (r: Option<&Injectable>)
        ensures
            child.lhs.spec_kind() is None ==> r is None,
            child.lhs.spec_kind() matches Some(k) ==> (eq_exact::<Symbol>() ==> found_at(
                self.injection_map@.map_values(|e: (Symbol, Injectable)| e.0 == k),
                match r {
                    Some(x) => Some(*x),
                    None => None,
                },
                self.injection_map@.map_values(|e: (Symbol, Injectable)| e.1),
            )),
            eq_exact::<Symbol>() ==> match r {
                Some(x) => Some(*x),
                None => None,
            } == self.injectable_spec(*child),
    {
        let r = match child.lhs.kind_opt() {
            Some(kind) => self.injectable_of(kind),
            None => None,
        };
        proof {
            if eq_exact::<Symbol>() && child.lhs.spec_kind() is Some {
                let k = child.lhs.spec_kind()->0;
                lemma_found_at_first(
                    self.injection_map@.map_values(|e: (Symbol, Injectable)| e.0 == k),
                    match r {
                        Some(x) => Some(*x),
                        None => None,
                    },
                    self.injection_map@.map_values(|e: (Symbol, Injectable)| e.1),
                );
            }
        }
        r
    }

    /// Returns the formatted string of `node`, with the variables of `scope`: a leaf is its
    /// lexeme; a node with a pattern fills it with its children; any other node is its children
    /// formatted one after the other.
    fn recur(&self, node: &Tree<Symbol>, scope: &Scope) -> (r: String)
        ensures
            node.children@.len() == 0 ==> r@ == leaf_text(*node),
            eq_exact::<Symbol>() ==> r@ == self.text_of(*node, scope_vars(scope.entries@)),
        decreases tree_size(*node), 7nat, 0nat,
    {
        if node.children.len() == 0 {
            if node.lhs.is_null() {
                return String::new();
            }
            return node.lhs.lexeme().clone();
        }
        let pattern = match &node.production {
            Some(production) => self.pattern_of(production),
            None => None,
        };
        proof {
            if eq_exact::<Symbol>() && node.production is Some {
                let prod = node.production->0;
                lemma_found_at_first(
                    self.pattern_map@.map_values(|e: (Production<Symbol>, Pattern)| same_prod(e.0, prod)),
                    match pattern {
                        Some(p) => Some(*p),
                        None => None,
                    },
                    self.pattern_map@.map_values(|e: (Production<Symbol>, Pattern)| e.1),
                );
            }
        }
        match pattern {
            Some(p) => {
                proof {
                    assert forall|i: int| 0 <= i < node.children@.len() implies tree_size(
                        #[trigger] node.children@[i],
                    ) < tree_size(*node) by {
                        lemma_child_smaller(*node, i);
                    }
                }
                self.fill_pattern_outer(p, &node.children, scope, Ghost(tree_size(*node)))
            },
            None => {
                let mut res = String::new();
                let mut i: usize = 0;
                while i < node.children.len()
                    invariant
                        i <= node.children@.len(),
                        eq_exact::<Symbol>() ==> res@ == self.joined_text(
                            node.children@,
                            i as nat,
                            scope_vars(scope.entries@),
                            tree_size(*node),
                        ),
                    decreases node.children@.len() - i,
                {
                    let child = &node.children[i];
                    proof {
                        lemma_child_smaller(*node, i as int);
                    }
                    let injectable = if child.spm == SymbolParseMethod::Injected {
                        self.injectable_for(child)
                    } else {
                        None
                    };
                    let child_string = match injectable {
                        Some(injectable) => {
                            let injection = Injection {
                                tree: child,
                                pattern: &injectable.pattern,
                                direction: injectable.affinity,
                            };
                            self.injection_string(&injection, scope, Ghost(tree_size(*node)))
                        },
                        None => self.recur(child, scope),
                    };
                    res.append(child_string.as_str());
                    i += 1;
                }
                res
            },
        }
    }

    /// Fills `pattern` with `children`: each injected child is attached to the captured child
    /// in the direction of its affinity, or else in the other direction, or else left out.
    fn fill_pattern_outer(
        &self,
        pattern: &Pattern,
        children: &Vec<Tree<Symbol>>,
        scope: &Scope,
        Ghost(bound): Ghost<nat>,
    ) -> (r: String)
        requires
            forall|i: int| 0 <= i < children@.len() ==> tree_size(#[trigger] children@[i]) < bound,
        ensures
            eq_exact::<Symbol>() ==> r@ == self.filled_with(
                *pattern,
                pattern.segments@.len(),
                self.distributed(*pattern, children@, children@.len()).0,
                scope_vars(scope.entries@),
                self.distributed(*pattern, children@, children@.len()).1,
                bound,
            ).0,
        decreases bound, 6nat, 0nat,
    {
        let mut captured_children: Vec<usize> = Vec::new();
        let mut k: usize = 0;
        while k < pattern.segments.len()
            invariant
                k <= pattern.segments@.len(),
                captured_children@ == captured_indices(*pattern, k as nat),
            decreases pattern.segments@.len() - k,
        {
            if let Segment::Capture(c) = &pattern.segments[k] {
                captured_children.push(c.child_index);
            }
            k += 1;
        }

        let mut injections_by_node: Vec<(usize, Injection<Symbol>)> = Vec::new();
        let mut expected_children: Vec<&Tree<Symbol>> = Vec::new();
        let mut i: usize = 0;
        proof {
            assert(derefs(expected_children@) =~= Seq::<Tree<Symbol>>::empty());
            assert(targeted_views(injections_by_node@) =~= Seq::<
                (usize, (Tree<Symbol>, Option<Pattern>, InjectionAffinity)),
            >::empty());
        }
        while i < children.len()
            invariant
                i <= children@.len(),
                forall|j: int| 0 <= j < children@.len() ==> tree_size(#[trigger] children@[j]) < bound,
                forall|j: int| 0 <= j < expected_children@.len() ==> tree_size(*#[trigger] expected_children@[j]) < bound,
                injections_within(injections_by_node@, bound),
                captured_children@ == captured_indices(*pattern, pattern.segments@.len()),
                eq_exact::<Symbol>() ==> derefs(expected_children@) == self.distributed(*pattern, children@, i as nat).0
                    && targeted_views(injections_by_node@) == self.distributed(*pattern, children@, i as nat).1,
            decreases children@.len() - i,
        {
            let child = &children[i];
            let injectable = if child.spm == SymbolParseMethod::Injected {
                self.injectable_for(child)
            } else {
                None
            };
            let ghost exp_before = expected_children@;
            let ghost inj_before = injections_by_node@;
            if child.spm != SymbolParseMethod::Injected {
                expected_children.push(child);
                proof {
                    assert(derefs(expected_children@) =~= derefs(exp_before).push(*child));
                }
            } else if let Some(injectable) = injectable {
                let n = expected_children.len();
                let preferred: Option<usize> = match injectable.affinity {
                    InjectionAffinity::Left => if n == 0 {
                        None
                    } else {
                        Some(n - 1)
                    },
                    InjectionAffinity::Right => Some(n),
                };
                let preferred_ok = match preferred {
                    Some(t) => holds_index(&captured_children, t),
                    None => false,
                };
                let (target, direction) = if preferred_ok {
                    (preferred, injectable.affinity)
                } else {
                    let flipped: Option<usize> = match injectable.affinity {
                        InjectionAffinity::Left => Some(n),
                        InjectionAffinity::Right => if n == 0 {
                            None
                        } else {
                            Some(n - 1)
                        },
                    };
                    (flipped, injectable.affinity.opposite())
                };
                match target {
                    Some(t) => {
                        if holds_index(&captured_children, t) {
                            let injection = Injection {
                                tree: child,
                                pattern: &injectable.pattern,
                                direction,
                            };
                            let ghost kept = injections_by_node@;
                            let ghost view = (t, inj_view(injection));
                            injections_by_node.push((t, injection));
                            assert forall|j: int| 0 <= j < injections_by_node@.len() implies tree_size(
                                *#[trigger] injections_by_node@[j].1.tree,
                            ) < bound by {
                                if j < kept.len() {
                                    assert(injections_by_node@[j] == kept[j]);
                                }
                            }
                            proof {
                                assert(targeted_views(injections_by_node@) =~= targeted_views(kept).push(view));
                            }
                        }
                    },
                    None => {},
                }
            }
            i += 1;
        }
        proof {
            assert(derefs(expected_children@).len() == expected_children@.len());
        }
        self.fill_pattern_inner(pattern, &expected_children, scope, &mut injections_by_node, Ghost(bound))
    }

    /// Fills `pattern` with `children`, attaching the injections of each captured child.
    fn fill_pattern_inner(
        &self,
        pattern: &Pattern,
        children: &Vec<&Tree<Symbol>>,
        scope: &Scope,
        injections_by_node: &mut Vec<(usize, Injection<Symbol>)>,
        Ghost(bound): Ghost<nat>,
    ) -> (r: String)
        requires
            forall|i: int| 0 <= i < children@.len() ==> tree_size(*#[trigger] children@[i]) < bound,
            injections_within(old(injections_by_node)@, bound),
        ensures
            eq_exact::<Symbol>() ==> r@ == self.filled_with(
                *pattern,
                pattern.segments@.len(),
                derefs(children@),
                scope_vars(scope.entries@),
                targeted_views(old(injections_by_node)@),
                bound,
            ).0,
        decreases bound, 5nat, 0nat,
    {
        let ghost given = targeted_views(injections_by_node@);
        let mut res = String::new();
        let mut k: usize = 0;
        while k < pattern.segments.len()
            invariant
                k <= pattern.segments@.len(),
                forall|i: int| 0 <= i < children@.len() ==> tree_size(*#[trigger] children@[i]) < bound,
                injections_within(injections_by_node@, bound),
                eq_exact::<Symbol>() ==> res@ == self.filled_with(
                    *pattern,
                    k as nat,
                    derefs(children@),
                    scope_vars(scope.entries@),
                    given,
                    bound,
                ).0 && targeted_views(injections_by_node@) == self.filled_with(
                    *pattern,
                    k as nat,
                    derefs(children@),
                    scope_vars(scope.entries@),
                    given,
                    bound,
                ).1,
            decreases pattern.segments@.len() - k,
        {
            proof {
                lemma_segment_smaller(*pattern, k as int);
            }
            match &pattern.segments[k] {
                Segment::Filler(s) => res.append(s.as_str()),
                Segment::Substitution(s) => {
                    if let Some(value) = scope.get(s) {
                        res.append(value.as_str());
                    }
                },
                Segment::Capture(c) => {
                    let ghost before = injections_by_node@;
                    let injections = take_injections_for(injections_by_node, c.child_index, Ghost(bound));
                    proof {
                        lemma_views_of_target(before, c.child_index);
                        if injections is None {
                            assert(injections_of(targeted_views(before), c.child_index) =~= Seq::<
                                (Tree<Symbol>, Option<Pattern>, InjectionAffinity),
                            >::empty());
                        }
                    }
                    let captured = self.evaluate_capture(c, children, scope, &injections, Ghost(bound));
                    res.append(captured.as_str());
                },
            }
            k += 1;
        }
        res
    }

    /// Fills `pattern` with `children`, with no injections.
    fn fill_pattern_plain(
        &self,
        pattern: &Pattern,
        children: &Vec<&Tree<Symbol>>,
        scope: &Scope,
        Ghost(bound): Ghost<nat>,
    ) -> (r: String)
        requires
            forall|i: int| 0 <= i < children@.len() ==> tree_size(*#[trigger] children@[i]) < bound,
        ensures
            eq_exact::<Symbol>() ==> r@ == self.segments_text(
                *pattern,
                pattern.segments@.len(),
                derefs(children@),
                scope_vars(scope.entries@),
                bound,
            ),
        decreases bound, 0nat, pattern_size(*pattern),
    {
        let mut res = String::new();
        let mut k: usize = 0;
        while k < pattern.segments.len()
            invariant
                k <= pattern.segments@.len(),
                forall|i: int| 0 <= i < children@.len() ==> tree_size(*#[trigger] children@[i]) < bound,
                eq_exact::<Symbol>() ==> res@ == self.segments_text(
                    *pattern,
                    k as nat,
                    derefs(children@),
                    scope_vars(scope.entries@),
                    bound,
                ),
            decreases pattern.segments@.len() - k,
        {
            proof {
                lemma_segment_smaller(*pattern, k as int);
            }
            match &pattern.segments[k] {
                Segment::Filler(s) => res.append(s.as_str()),
                Segment::Substitution(s) => {
                    if let Some(value) = scope.get(s) {
                        res.append(value.as_str());
                    }
                },
                Segment::Capture(c) => {
                    let captured = self.evaluate_capture_plain(c, children, scope, Ghost(bound));
                    res.append(captured.as_str());
                },
            }
            k += 1;
        }
        res
    }

    /// The scope of a capture: `outer_scope` with its declarations applied, each value filled
    /// with `children` in `outer_scope`.
    fn capture_scope(
        &self,
        capture: &Capture,
        children: &Vec<&Tree<Symbol>>,
        outer_scope: &Scope,
        Ghost(bound): Ghost<nat>,
    ) -> (r: Scope)
        requires
            forall|i: int| 0 <= i < children@.len() ==> tree_size(*#[trigger] children@[i]) < bound,
        ensures
            eq_exact::<Symbol>() ==> scope_vars(r.entries@)
                == self.declared_vars(
                *capture,
                capture.declarations@.len(),
                derefs(children@),
                scope_vars(outer_scope.entries@),
                bound,
            ),
        decreases bound, 0nat, capture_size(*capture),
    {
        let mut inner_scope = outer_scope.copy();
        let mut i: usize = 0;
        while i < capture.declarations.len()
            invariant
                i <= capture.declarations@.len(),
                forall|j: int| 0 <= j < children@.len() ==> tree_size(*#[trigger] children@[j]) < bound,
                eq_exact::<Symbol>() ==> scope_vars(inner_scope.entries@)
                    == self.declared_vars(
                    *capture,
                    i as nat,
                    derefs(children@),
                    scope_vars(outer_scope.entries@),
                    bound,
                ),
            decreases capture.declarations@.len() - i,
        {
            let decl = &capture.declarations[i];
            match &decl.value {
                Some(p) => {
                    proof {
                        lemma_declaration_smaller(*capture, i as int);
                    }
                    let value = self.fill_pattern_plain(p, children, outer_scope, Ghost(bound));
                    inner_scope.insert(decl.key.clone(), value);
                },
                None => inner_scope.remove(&decl.key),
            }
            i += 1;
        }
        inner_scope
    }

    /// Formats the captured child of `capture`, with no injections.
    fn evaluate_capture_plain(
        &self,
        capture: &Capture,
        children: &Vec<&Tree<Symbol>>,
        outer_scope: &Scope,
        Ghost(bound): Ghost<nat>,
    ) -> (r: String)
        requires
            forall|i: int| 0 <= i < children@.len() ==> tree_size(*#[trigger] children@[i]) < bound,
        ensures
            capture.child_index >= children@.len() ==> r@.len() == 0,
            eq_exact::<Symbol>() ==> r@ == self.capture_text(
                *capture,
                derefs(children@),
                scope_vars(outer_scope.entries@),
                bound,
            ),
        decreases bound, 0nat, capture_size(*capture) + 1,
    {
        if capture.child_index >= children.len() {
            return String::new();
        }
        let child = children[capture.child_index];
        if capture.declarations.len() > 0 {
            let inner_scope = self.capture_scope(capture, children, outer_scope, Ghost(bound));
            self.recur(child, &inner_scope)
        } else {
            self.recur(child, outer_scope)
        }
    }

    /// Formats the captured child of `capture`, attaching `injections` to it.
    fn evaluate_capture(
        &self,
        capture: &Capture,
        children: &Vec<&Tree<Symbol>>,
        outer_scope: &Scope,
        injections: &Option<Vec<Injection<Symbol>>>,
        Ghost(bound): Ghost<nat>,
    ) -> (r: String)
        requires
            forall|i: int| 0 <= i < children@.len() ==> tree_size(*#[trigger] children@[i]) < bound,
            injections matches Some(v) ==> forall|m: int| 0 <= m < v@.len() ==> tree_size(*#[trigger] v@[m].tree) < bound,
        ensures
            capture.child_index >= children@.len() ==> r@.len() == 0,
            eq_exact::<Symbol>() ==> r@ == self.capture_with(
                *capture,
                derefs(children@),
                scope_vars(outer_scope.entries@),
                taken_views(*injections),
                bound,
            ),
        decreases bound, 4nat, 0nat,
    {
        if capture.child_index >= children.len() {
            return String::new();
        }
        let child = children[capture.child_index];
        if capture.declarations.len() > 0 {
            let inner_scope = self.capture_scope(capture, children, outer_scope, Ghost(bound));
            self.evaluate_capture_internal(child, outer_scope, &inner_scope, injections, Ghost(bound))
        } else {
            self.evaluate_capture_internal(child, outer_scope, outer_scope, injections, Ghost(bound))
        }
    }

    /// Formats `child` in `inner_scope`, preceded by the injections directed right at it and
    /// followed by those directed left at it, formatted in `outer_scope`.
    fn evaluate_capture_internal(
        &self,
        child: &Tree<Symbol>,
        outer_scope: &Scope,
        inner_scope: &Scope,
        injections: &Option<Vec<Injection<Symbol>>>,
        Ghost(bound): Ghost<nat>,
    ) -> (r: String)
        requires
            tree_size(*child) < bound,
            injections matches Some(v) ==> forall|m: int| 0 <= m < v@.len() ==> tree_size(*#[trigger] v@[m].tree) < bound,
        ensures
            eq_exact::<Symbol>() ==> r@ == self.rights_text(
                taken_views(*injections),
                0,
                scope_vars(outer_scope.entries@),
                bound,
            ) + self.text_of(*child, scope_vars(inner_scope.entries@)) + self.lefts_text(
                taken_views(*injections),
                taken_views(*injections).len(),
                scope_vars(outer_scope.entries@),
                bound,
            ),
        decreases bound, 3nat, 0nat,
    {
        let ghost taken = taken_views(*injections);
        let ghost vars = scope_vars(outer_scope.entries@);
        let child_string = self.recur(child, inner_scope);
        let mut prefix = String::new();
        let mut postfix = String::new();
        if let Some(injections) = injections {
            let mut i: usize = 0;
            while i < injections.len()
                invariant
                    i <= injections@.len(),
                    forall|m: int| 0 <= m < injections@.len() ==> tree_size(*#[trigger] injections@[m].tree) < bound,
                    taken == injections@.map_values(|x: Injection<Symbol>| inj_view(x)),
                    vars == scope_vars(outer_scope.entries@),
                    eq_exact::<Symbol>() ==> postfix@ == self.lefts_text(taken, i as nat, vars, bound),
                decreases injections@.len() - i,
            {
                if injections[i].direction == InjectionAffinity::Left {
                    let s = self.injection_string(&injections[i], outer_scope, Ghost(bound));
                    postfix.append(s.as_str());
                }
                i += 1;
            }
            let mut i: usize = injections.len();
            while i > 0
                invariant
                    i <= injections@.len(),
                    forall|m: int| 0 <= m < injections@.len() ==> tree_size(*#[trigger] injections@[m].tree) < bound,
                    taken == injections@.map_values(|x: Injection<Symbol>| inj_view(x)),
                    vars == scope_vars(outer_scope.entries@),
                    eq_exact::<Symbol>() ==> prefix@ == self.rights_text(taken, i as nat, vars, bound),
                decreases i,
            {
                i -= 1;
                if injections[i].direction == InjectionAffinity::Right {
                    let mut s = self.injection_string(&injections[i], outer_scope, Ghost(bound));
                    s.append(prefix.as_str());
                    prefix = s;
                }
            }
        }
        prefix.append(child_string.as_str());
        prefix.append(postfix.as_str());
        prefix
    }

    /// The formatted string of an injection: its token filled into its pattern, or else its
    /// lexeme.
    fn injection_string(&self, injection: &Injection<Symbol>, scope: &Scope, Ghost(bound): Ghost<nat>) -> (r: String)
        requires
            tree_size(*injection.tree) < bound,
        ensures
            injection.pattern is None ==> r@ == injection.tree.lhs.spec_lexeme(),
            eq_exact::<Symbol>() ==> r@ == self.injection_text(
                *injection.tree,
                *injection.pattern,
                scope_vars(scope.entries@),
                bound,
            ),
        decreases bound, 2nat, 0nat,
    {
        match injection.pattern {
            Some(pattern) => {
                let mut children: Vec<&Tree<Symbol>> = Vec::new();
                children.push(injection.tree);
                proof {
                    assert(derefs(children@) =~= seq![*injection.tree]);
                }
                self.fill_pattern_plain(pattern, &children, scope, Ghost(tree_size(*injection.tree) + 1))
            },
            None => injection.tree.lhs.lexeme().clone(),
        }
    }
}

/// Formatter Builder: builds a `Formatter`, remembering the pattern built for each pattern
/// string, and the number of symbols of the productions it was built for, so that a string
/// used for several productions of that many symbols is parsed once.
pub struct FormatterBuilder<Symbol: GrammarSymbol> {
    pattern_map: Vec<(Production<Symbol>, Pattern)>,
    injection_map: Vec<(Symbol, Injectable)>,
    memory: Vec<(String, usize, Pattern)>,
}

impl<Symbol: GrammarSymbol> FormatterBuilder<Symbol> {
    /// Each remembered pattern is the pattern of a parse tree of the pattern string it is
    /// remembered for, for productions of the number of symbols it was built for.
    pub closed spec fn memory_ok(&self) -> bool {
        forall|i: int|
            0 <= i < self.memory@.len() ==> built_from_text(
                #[trigger] self.memory@[i].2,
                self.memory@[i].0@,
                self.memory@[i].1 as nat,
            )
    }

    /// The symbols given an injectable specification so far.
    pub closed spec fn injected_symbols(&self) -> Seq<Symbol> {
        self.injection_map@.map_values(|e: (Symbol, Injectable)| e.0)
    }

    /// The injectable symbols, with their affinities and the views of their patterns.
    pub closed spec fn injections(&self) -> Seq<(Symbol, InjectionAffinity, Option<Seq<SegmentView>>)> {
        self.injection_map@.map_values(|e: (Symbol, Injectable)| injection_view(e))
    }

    /// The number of productions given a pattern so far.
    pub closed spec fn pattern_count(&self) -> nat {
        self.pattern_map@.len()
    }

    /// Returns a new builder, with no patterns and no injections.
    pub fn new() -> (b: FormatterBuilder<Symbol>)
        ensures
            b.injected_symbols() == Seq::<Symbol>::empty(),
            b.pattern_count() == 0,
            b.memory_ok(),
    {
        let b = FormatterBuilder { pattern_map: Vec::new(), injection_map: Vec::new(), memory: Vec::new() };
        assert(b.injected_symbols() =~= Seq::<Symbol>::empty());
        b
    }

    /// The productions given a pattern so far, with their patterns.
    pub closed spec fn patterns(&self) -> Seq<(Production<Symbol>, Pattern)> {
        self.pattern_map@
    }

    /// Builds the formatter, consuming the builder: the formatter has the builder's patterns
    /// and injectable specifications.
    pub fn build(self) -> (f: Formatter<Symbol>)
        ensures
            f.patterns() == self.patterns(),
            f.injected_symbols() == self.injected_symbols(),
            f.injections() == self.injections(),
    {
        Formatter { pattern_map: self.pattern_map, injection_map: self.injection_map }
    }

    /// Sets `pattern` as the pattern of `production`.
    fn set_pattern(&mut self, production: Production<Symbol>, pattern: Pattern)
        ensures
            final(self).injected_symbols() == old(self).injected_symbols(),
            final(self).memory@ == old(self).memory@,
            eq_exact::<Symbol>() ==> pattern_put(old(self).patterns(), final(self).patterns(), production, pattern),
    {
        let mut i: usize = 0;
        while i < self.pattern_map.len()
            invariant
                i <= self.pattern_map@.len(),
                self.injection_map@ == old(self).injection_map@,
                self.memory@ == old(self).memory@,
                self.pattern_map@ == old(self).pattern_map@,
                eq_exact::<Symbol>() ==> forall|j: int| 0 <= j < i ==> !same_prod(#[trigger] self.pattern_map@[j].0, production),
            decreases self.pattern_map@.len() - i,
        {
            if same_production(&self.pattern_map[i].0, &production) {
                self.pattern_map.set(i, (production, pattern));
                return;
            }
            i += 1;
        }
        self.pattern_map.push((production, pattern));
    }

    /// The pattern remembered for the pattern string `text`, built for productions of `n`
    /// symbols, if any.
    fn remembered(&self, text: &String, n: usize) -> (r: Option<&Pattern>)
        ensures
            found_at(
                self.memory@.map_values(|e: (String, usize, Pattern)| e.0@ == text@ && e.1 == n),
                match r {
                    Some(p) => Some(*p),
                    None => None,
                },
                self.memory@.map_values(|e: (String, usize, Pattern)| e.2),
            ),
            r matches Some(p) ==> exists|i: int|
                0 <= i < self.memory@.len() && self.memory@[i].0@ == text@ && self.memory@[i].1 == n
                    && #[trigger] self.memory@[i].2 == *p,
    {
        let ghost keys = self.memory@.map_values(|e: (String, usize, Pattern)| e.0@ == text@ && e.1 == n);
        let mut i: usize = 0;
        while i < self.memory.len()
            invariant
                i <= self.memory@.len(),
                keys == self.memory@.map_values(|e: (String, usize, Pattern)| e.0@ == text@ && e.1 == n),
                forall|j: int| 0 <= j < i ==> !keys[j],
            decreases self.memory@.len() - i,
        {
            if same_text(&self.memory[i].0, text) && self.memory[i].1 == n {
                proof {
                    let values = self.memory@.map_values(|e: (String, usize, Pattern)| e.2);
                    assert(keys[i as int] && values[i as int] == self.memory@[i as int].2);
                }
                return Some(&self.memory[i].2);
            }
            i += 1;
        }
        None
    }

    /// Adds the pattern of `pair` for its production, building it from its pattern string
    /// unless that string was seen before.
    ///
    /// Returns an error if the pattern string cannot be built into a pattern.
    pub fn add_pattern(&mut self, pair: PatternPair<Symbol>) -> (res: Result<(), BuildError>)
        requires
            pair.pattern@.len() + 2 < usize::MAX,
            old(self).memory_ok(),
        ensures
            final(self).memory_ok(),
            final(self).injected_symbols() == old(self).injected_symbols(),
            res is Ok ==> (eq_exact::<Symbol>() ==> exists|p: Pattern| pattern_put(
                old(self).patterns(),
                final(self).patterns(),
                pair.production,
                p,
            ) && built_from_text(p, pair.pattern@, pair.production.rhs@.len())),
            res is Err ==> final(self).patterns() == old(self).patterns(),
            res matches Err(e) ==> e is PatternBuildErr,
    {
        let n = pair.production.rhs.len();
        let known = match self.remembered(&pair.pattern, n) {
            Some(pattern) => {
                let c = copy_pattern(pattern);
                proof {
                    let i = choose|i: int|
                        0 <= i < self.memory@.len() && self.memory@[i].0@ == pair.pattern@ && self.memory@[i].1 == n
                            && #[trigger] self.memory@[i].2 == *pattern;
                    assert(built_from_text(self.memory@[i].2, self.memory@[i].0@, self.memory@[i].1 as nat));
                    let t = choose|t: Tree<PatternSymbol>|
                        t.lhs.spec_kind() == Some(PatternSymbol::Pattern) && spelled_text(t) == pair.pattern@
                            && #[trigger] gen_pattern(t, n as nat) == Built::Done(pattern_view(*pattern));
                    assert(gen_pattern(t, n as nat) == Built::Done(pattern_view(c)));
                }
                Some(c)
            },
            None => None,
        };
        match known {
            Some(pattern) => {
                let ghost chosen = pattern;
                assert(built_from_text(chosen, pair.pattern@, pair.production.rhs@.len()));
                self.set_pattern(pair.production, pattern);
                assert(eq_exact::<Symbol>() ==> pattern_put(old(self).patterns(), self.patterns(), pair.production, chosen)
                    && built_from_text(chosen, pair.pattern@, pair.production.rhs@.len()));
                Ok(())
            },
            None => {
                let pattern = match generate_pattern(
                    pair.pattern.as_str(),
                    &pair.production,
                    &pair.string_production,
                ) {
                    Ok(p) => p,
                    Err(err) => return Err(BuildError::PatternBuildErr(err)),
                };
                let remembered = copy_pattern(&pattern);
                let ghost text = pair.pattern@;
                proof {
                    let t = choose|t: Tree<PatternSymbol>|
                        t.lhs.spec_kind() == Some(PatternSymbol::Pattern) && spelled_text(t) == text
                            && #[trigger] gen_pattern(t, n as nat) == Built::Done(pattern_view(pattern));
                    assert(gen_pattern(t, n as nat) == Built::Done(pattern_view(remembered)));
                }
                let ghost prior = self.memory@;
                self.memory.push((pair.pattern, n, remembered));
                proof {
                    assert forall|i: int| 0 <= i < self.memory@.len() implies built_from_text(
                        #[trigger] self.memory@[i].2,
                        self.memory@[i].0@,
                        self.memory@[i].1 as nat,
                    ) by {
                        if i < prior.len() {
                            assert(self.memory@[i] == prior[i]);
                        }
                    }
                }
                let ghost chosen = pattern;
                let ghost mid = self.patterns();
                self.set_pattern(pair.production, pattern);
                assert(mid == old(self).patterns());
                assert(eq_exact::<Symbol>() ==> pattern_put(old(self).patterns(), self.patterns(), pair.production, chosen)
                    && built_from_text(chosen, text, pair.production.rhs@.len()));
                Ok(())
            },
        }
    }

    /// Returns true if `symbol` was given an injectable specification.
    fn has_injection(&self, symbol: &Symbol) -> (b: bool)
        ensures
            eq_exact::<Symbol>() ==> b == self.injected_symbols().contains(*symbol),
    {
        let mut i: usize = 0;
        while i < self.injection_map.len()
            invariant
                i <= self.injection_map@.len(),
                eq_exact::<Symbol>() ==> forall|j: int| 0 <= j < i ==> self.injection_map@[j].0 != *symbol,
            decreases self.injection_map@.len() - i,
        {
            if self.injection_map[i].0 == *symbol {
                proof {
                    if eq_exact::<Symbol>() {
                        assert(self.injected_symbols()[i as int] == *symbol);
                    }
                }
                return true;
            }
            i += 1;
        }
        proof {
            if eq_exact::<Symbol>() {
                assert forall|j: int| 0 <= j < self.injected_symbols().len() implies self.injected_symbols()[j] != *symbol by {
                    assert(self.injected_symbols()[j] == self.injection_map@[j].0);
                }
            }
        }
        false
    }

    /// Adds the injectable specification `injection` of a terminal.
    ///
    /// Returns an error if the terminal already has one, or if its pattern string cannot be
    /// built into a pattern.
    pub fn add_injection(&mut self, injection: InjectableString<Symbol>) -> (res: Result<(), BuildError>)
        requires
            injection.pattern_string matches Some(p) ==> p@.len() + 2 < usize::MAX,
        ensures
            old(self).memory_ok() ==> final(self).memory_ok(),
            eq_exact::<Symbol>() && old(self).injected_symbols().contains(injection.terminal) ==> (
            res matches Err(BuildError::DuplicateInjectionErr(s)) && s@ == injection.terminal_string@
                && final(self).injected_symbols() == old(self).injected_symbols()),
            eq_exact::<Symbol>() && clones_exactly::<Symbol>() && res is Ok
                ==> final(self).injected_symbols() == old(self).injected_symbols().push(injection.terminal),
            eq_exact::<Symbol>() && !old(self).injected_symbols().contains(injection.terminal) && (
            injection.pattern_string is None) ==> res is Ok,
            res is Err ==> final(self).injected_symbols() == old(self).injected_symbols(),
            res is Err ==> final(self).injections() == old(self).injections(),
            res matches Err(e) ==> e is DuplicateInjectionErr || e is PatternBuildErr,
            res is Ok ==> exists|v: Option<Seq<SegmentView>>| {
                &&& final(self).injections() == old(self).injections().push((injection.terminal, injection.affinity, v))
                &&& injection.pattern_string is None ==> v is None
                &&& injection.pattern_string matches Some(text) ==> (v matches Some(segments) && exists|t: Tree<PatternSymbol>|
                    t.lhs.spec_kind() == Some(PatternSymbol::Pattern) && spelled_text(t) == text@ && #[trigger] gen_pattern(
                        t,
                        1,
                    ) == Built::Done(segments))
            },
    {
        if self.has_injection(&injection.terminal) {
            return Err(BuildError::DuplicateInjectionErr(injection.terminal_string));
        }
        let ghost given = injection.pattern_string;
        let pattern = match injection.pattern_string {
            None => None,
            Some(pattern_string) => {
                let mut rhs: Vec<ProductionSymbol<Symbol>> = Vec::new();
                rhs.push(ProductionSymbol::symbol(injection.terminal.clone()));
                let production = Production::from(injection.terminal.clone(), rhs);
                let string_production = production.string_production();
                match generate_pattern(pattern_string.as_str(), &production, &string_production) {
                    Ok(p) => Some(p),
                    Err(err) => return Err(BuildError::PatternBuildErr(err)),
                }
            },
        };
        let ghost before = self.injected_symbols();
        let ghost before_views = self.injections();
        let ghost gp = pattern;
        let entry = (injection.terminal, Injectable { pattern, affinity: injection.affinity });
        let ghost v = injection_view(entry).2;
        self.injection_map.push(entry);
        assert(self.injected_symbols() =~= before.push(injection.terminal));
        assert(self.injections() =~= before_views.push((injection.terminal, injection.affinity, v)));
        proof {
            if let Some(p) = gp {
                let text = given->0@;
                assert(built_from_text(p, text, 1));
                let t = choose|t: Tree<PatternSymbol>|
                    t.lhs.spec_kind() == Some(PatternSymbol::Pattern) && spelled_text(t) == text && #[trigger] gen_pattern(
                        t,
                        1,
                    ) == Built::Done(pattern_view(p));
                assert(gen_pattern(t, 1) == Built::Done(v->0));
            }
        }
        Ok(())
    }
}

/// Build Error: an error encountered while building a formatter: a pattern that cannot be
/// built, or a symbol given more than one injectable specification.
#[derive(Debug)]
pub enum BuildError {
    PatternBuildErr(pattern::BuildError),
    DuplicateInjectionErr(String),
}

/// Whether `m` describes the formatter build error `e`.
pub open spec fn formatter_message(e: BuildError, m: Seq<char>) -> bool {
    match e {
        BuildError::PatternBuildErr(err) => exists|inner: Seq<char>|
            pattern::pattern_message(err, inner) && m == "Pattern build error: "@ + inner,
        BuildError::DuplicateInjectionErr(symbol) => m == "Injection specified multiple times for symbol '"@
            + symbol@ + "'"@,
    }
}

impl BuildError {
    /// Returns a description of the error.
    pub fn message(&self) -> (m: String)
        ensures
            formatter_message(*self, m@),
    {
        match self {
            BuildError::PatternBuildErr(err) => {
                let mut m = String::from_str("Pattern build error: ");
                let inner = err.message();
                m.append(inner.as_str());
                assert(pattern::pattern_message(*err, inner@) && m@ == "Pattern build error: "@ + inner@);
                m
            },
            BuildError::DuplicateInjectionErr(symbol) => {
                let mut m = String::from_str("Injection specified multiple times for symbol '");
                m.append(symbol.as_str());
                m.append("'");
                m
            },
        }
    }
}

/// Pattern Pair: an unparsed pattern: the `pattern` string of `production`, whose string
/// representation `string_production` is used in errors.
pub struct PatternPair<Symbol: GrammarSymbol> {
    pub production: Production<Symbol>,
    pub string_production: Production<String>,
    pub pattern: String,
}

/// Injectable String: the unparsed injectable specification of `terminal` (written
/// `terminal_string`): the pattern string to format its injections with, if any, and its
/// affinity.
pub struct InjectableString<Symbol: GrammarSymbol> {
    pub terminal: Symbol,
    pub terminal_string: String,
    pub pattern_string: Option<String>,
    pub affinity: InjectionAffinity,
}

/// Whether `indices` holds `index`.
fn holds_index(indices: &Vec<usize>, index: usize) -> (r: bool)
    ensures
        r == indices@.contains(index),
{
    let mut i: usize = 0;
    while i < indices.len()
        invariant
            i <= indices@.len(),
            forall|j: int| 0 <= j < i ==> indices@[j] != index,
        decreases indices@.len() - i,
    {
        if indices[i] == index {
            return true;
        }
        i += 1;
    }
    false
}

/// Whether every injection of `injections` has a token smaller than `bound`.
spec fn injections_within<'a, Symbol: GrammarSymbol>(
    injections: Seq<(usize, Injection<'a, Symbol>)>,
    bound: nat,
) -> bool {
    forall|j: int| 0 <= j < injections.len() ==> tree_size(*#[trigger] injections[j].1.tree) < bound
}

/// The injections of child `target` in `injections`, in order.
spec fn injections_of<T>(injections: Seq<(usize, T)>, target: usize) -> Seq<T>
    decreases injections.len(),
{
    if injections.len() == 0 {
        Seq::empty()
    } else {
        let rest = injections_of(injections.drop_last(), target);
        if injections.last().0 == target {
            rest.push(injections.last().1)
        } else {
            rest
        }
    }
}

/// The entries of `injections` for children other than `target`, in order.
spec fn injections_except<T>(injections: Seq<(usize, T)>, target: usize) -> Seq<(usize, T)>
    decreases injections.len(),
{
    if injections.len() == 0 {
        Seq::empty()
    } else {
        let rest = injections_except(injections.drop_last(), target);
        if injections.last().0 == target {
            rest
        } else {
            rest.push(injections.last())
        }
    }
}

/// The token, pattern and direction of an injection.
spec fn inj_view<'a, Symbol: GrammarSymbol>(i: Injection<'a, Symbol>) -> (Tree<Symbol>, Option<Pattern>, InjectionAffinity) {
    (*i.tree, *i.pattern, i.direction)
}

/// The targets and views of targeted injections.
spec fn targeted_views<'a, Symbol: GrammarSymbol>(injections: Seq<(usize, Injection<'a, Symbol>)>) -> Seq<
    (usize, (Tree<Symbol>, Option<Pattern>, InjectionAffinity)),
> {
    injections.map_values(|e: (usize, Injection<'a, Symbol>)| (e.0, inj_view(e.1)))
}

/// Taking the injections of a target commutes with viewing them.
proof fn lemma_views_of_target<'a, Symbol: GrammarSymbol>(injections: Seq<(usize, Injection<'a, Symbol>)>, target: usize)
    ensures
        injections_of(injections, target).map_values(|i: Injection<'a, Symbol>| inj_view(i)) == injections_of(
            targeted_views(injections),
            target,
        ),
        targeted_views(injections_except(injections, target)) == injections_except(targeted_views(injections), target),
    decreases injections.len(),
{
    if injections.len() > 0 {
        lemma_views_of_target(injections.drop_last(), target);
        assert(targeted_views(injections.drop_last()) =~= targeted_views(injections).drop_last());
        assert(injections_of(injections, target).map_values(|i: Injection<'a, Symbol>| inj_view(i)) =~= injections_of(
            targeted_views(injections),
            target,
        ));
        assert(targeted_views(injections_except(injections, target)) =~= injections_except(targeted_views(injections), target));
    }
}

/// Takes out the injections of child `target`, in the order they were added, if it has any.
fn take_injections_for<'a, Symbol: GrammarSymbol>(
    injections_by_node: &mut Vec<(usize, Injection<'a, Symbol>)>,
    target: usize,
    Ghost(bound): Ghost<nat>,
) -> (r: Option<Vec<Injection<'a, Symbol>>>)
    requires
        injections_within(old(injections_by_node)@, bound),
    ensures
        injections_within(final(injections_by_node)@, bound),
        r matches Some(v) ==> forall|m: int| 0 <= m < v@.len() ==> tree_size(*#[trigger] v@[m].tree) < bound,
        final(injections_by_node)@ == injections_except(old(injections_by_node)@, target),
        r is Some <==> injections_of(old(injections_by_node)@, target).len() > 0,
        r matches Some(v) ==> v@ == injections_of(old(injections_by_node)@, target),
{
    let ghost orig = injections_by_node@;
    let mut all = Vec::new();
    std::mem::swap(&mut all, injections_by_node);
    let mut pending = reverse_vec(all);
    proof {
        assert forall|j: int| 0 <= j < pending@.len() implies tree_size(*#[trigger] pending@[j].1.tree) < bound by {
            assert(pending@[j] == old(injections_by_node)@[old(injections_by_node)@.len() - 1 - j]);
        }
        assert(orig.take(0) =~= Seq::<(usize, Injection<'a, Symbol>)>::empty());
    }
    let mut taken: Vec<Injection<'a, Symbol>> = Vec::new();
    while pending.len() > 0
        invariant
            injections_within(pending@, bound),
            injections_within(injections_by_node@, bound),
            forall|m: int| 0 <= m < taken@.len() ==> tree_size(*#[trigger] taken@[m].tree) < bound,
            pending@.len() <= orig.len(),
            forall|j: int| 0 <= j < pending@.len() ==> #[trigger] pending@[j] == orig[orig.len() - 1 - j],
            taken@ == injections_of(orig.take(orig.len() - pending@.len()), target),
            injections_by_node@ == injections_except(orig.take(orig.len() - pending@.len()), target),
        decreases pending@.len(),
    {
        let ghost k = orig.len() - pending@.len();
        proof {
            assert(orig.take(k + 1).drop_last() =~= orig.take(k));
            assert(pending@[pending@.len() - 1] == orig[k]);
        }
        let ghost last = pending@[pending@.len() - 1];
        assert(tree_size(*last.1.tree) < bound);
        let ghost kept = injections_by_node@;
        let (key, injection) = pending.pop().unwrap();
        if key == target {
            taken.push(injection);
        } else {
            injections_by_node.push((key, injection));
            assert forall|j: int| 0 <= j < injections_by_node@.len() implies tree_size(
                *#[trigger] injections_by_node@[j].1.tree,
            ) < bound by {
                if j < kept.len() {
                    assert(injections_by_node@[j] == kept[j]);
                }
            }
        }
    }
    proof {
        assert(orig.take(orig.len() as int) =~= orig);
    }
    if taken.len() == 0 {
        None
    } else {
        Some(taken)
    }
}

} // verus!
