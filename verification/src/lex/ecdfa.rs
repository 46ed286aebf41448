use vstd::prelude::*;
use std::collections::HashMap;
use core::ops::RangeInclusive;
use crate::data::interval::{covers, point_disjoint, Interval, IntervalMap};
use crate::data::map::{CEHashMap, CEHashMapIterator};
use crate::data::{clones_exactly, Data};
use crate::lex::alphabet::{Alphabet, HashedAlphabet};
use crate::lex::{
    CDFABuilder, CDFAError, ConsumerStrategy, Transit, TransitBuilder, TransitionDestination,
    TransitionResult, CDFA,
};
use crate::lex::longest_match::{
    can_start, no_default_destinations, transitions_consume, transitions_without_destinations,
    zero_acceptances_settle, zero_acceptor,
};
use crate::parse::grammar::GrammarSymbol;
use crate::util::encoder::{encode_spec, lemma_encode_grows, Encoder};
use crate::text::chars_of;
use vstd::std_specs::cmp::PartialEqSpec;

verus! {

broadcast use vstd::std_specs::hash::group_hash_axioms;

/// The result of taking `transit` after traversing `traversed` input characters.
pub open spec fn transit_result(transit: Transit<usize>, traversed: int) -> TransitionResult<
    usize,
> {
    TransitionResult::Pass(
        TransitionDestination {
            state: transit.dest,
            consumed: match transit.consumer {
                ConsumerStrategy::All => traversed as usize,
                ConsumerStrategy::Nothing => 0,
            },
            acceptor_destination: transit.acceptor_destination,
        },
    )
}

/// The length of the longest prefix of `input`, at most `n` characters long, that is one of
/// the `chains`; 0 when there is none.
pub open spec fn longest_chain(
    chains: Map<Seq<char>, Transit<usize>>,
    input: Seq<char>,
    n: int,
) -> int
    decreases n,
{
    if n <= 0 {
        0
    } else if chains.contains_key(input.take(n)) {
        n
    } else {
        longest_chain(chains, input, n - 1)
    }
}

/// The transit of the range covering `c`, if any.
pub open spec fn range_match(ranges: Set<(int, int, Transit<usize>)>, c: char) -> Option<
    Transit<usize>,
> {
    if exists|e: (int, int, Transit<usize>)| #[trigger]
        ranges.contains(e) && covers(e.0, e.1, c as u32 as int) {
        Some(
            (choose|e: (int, int, Transit<usize>)| #[trigger]
                ranges.contains(e) && covers(e.0, e.1, c as u32 as int)).2,
        )
    } else {
        None
    }
}

/// The transition on `input` of a trie with explicit `chains`, `ranges` and `default`: the
/// longest chain prefixing the input wins; failing that, the range covering the first
/// character; failing that, the default.
pub open spec fn trie_transition(
    chains: Map<Seq<char>, Transit<usize>>,
    ranges: Set<(int, int, Transit<usize>)>,
    default: Option<Transit<usize>>,
    input: Seq<char>,
) -> TransitionResult<usize> {
    let k = longest_chain(chains, input, input.len() as int);
    if input.len() == 0 {
        TransitionResult::Fail
    } else if k > 0 {
        transit_result(chains[input.take(k)], k)
    } else {
        match range_match(ranges, input[0]) {
            Some(t) => transit_result(t, 1),
            None => match default {
                Some(t) => transit_result(t, 1),
                None => TransitionResult::Fail,
            },
        }
    }
}

proof fn lemma_longest_chain_stable(
    chains: Map<Seq<char>, Transit<usize>>,
    input: Seq<char>,
    m: int,
    n: int,
)
    requires
        0 <= m <= n,
        forall|k: int| m < k <= n ==> !chains.contains_key(#[trigger] input.take(k)),
    ensures
        longest_chain(chains, input, n) == longest_chain(chains, input, m),
    decreases n - m,
{
    if m < n {
        lemma_longest_chain_stable(chains, input, m, n - 1);
    }
}

proof fn lemma_longest_chain_found(
    chains: Map<Seq<char>, Transit<usize>>,
    input: Seq<char>,
    n: int,
)
    ensures
        0 <= longest_chain(chains, input, n),
        n >= 0 ==> longest_chain(chains, input, n) <= n,
        longest_chain(chains, input, n) > 0 ==> chains.contains_key(
            input.take(longest_chain(chains, input, n)),
        ),
    decreases n,
{
    if n > 0 {
        lemma_longest_chain_found(chains, input, n - 1);
    }
}

proof fn lemma_cloned_usize(a: usize, b: usize)
    requires
        cloned(a, b),
    ensures
        a == b,
{
}

/// A result built from `transit` with exact copies of its states is `transit_result`.
proof fn lemma_ok_result(transit: Transit<usize>, traversed: int, r: TransitionResult<usize>)
    requires
        0 <= traversed <= usize::MAX,
        r matches TransitionResult::Pass(d) && cloned(transit.dest, d.state) && d.consumed == (
        match transit.consumer {
            ConsumerStrategy::All => traversed,
            ConsumerStrategy::Nothing => 0,
        }) && match transit.acceptor_destination {
            Some(a) => d.acceptor_destination matches Some(b) && cloned(a, b),
            None => d.acceptor_destination is None,
        },
    ensures
        r == transit_result(transit, traversed),
{
    match r {
        TransitionResult::Pass(d) => {
            lemma_cloned_usize(transit.dest, d.state);
            match transit.acceptor_destination {
                Some(a) => lemma_cloned_usize(a, d.acceptor_destination->0),
                None => {},
            }
        },
        TransitionResult::Fail => {},
    }
}

/// A node of a transition trie: its children, by character code, as indices into the trie's
/// node arena, and the transit of the chain ending at it, if any.
struct TransitionNode {
    children: HashMap<u32, usize>,
    transit: Option<Transit<usize>>,
}

/// Transition Trie: the transitions out of a single state, matched against the input in
/// order of precedence: explicit character chains (longest first), then character ranges,
/// then a default.
///
/// The trie is viewed as its explicit `chains`, its `ranges`, and its `default` transit.
pub struct TransitionTrie {
    nodes: Vec<TransitionNode>,
    paths: Ghost<Map<Seq<char>, usize>>,
    ranges: IntervalMap<u32, Transit<usize>>,
    default: Option<Transit<usize>>,
}

impl TransitionTrie {
    /// The chains of the trie, each with its transit.
    pub closed spec fn chains(&self) -> Map<Seq<char>, Transit<usize>> {
        Map::new(
            |p: Seq<char>|
                self.paths@.contains_key(p) && self.nodes@[self.paths@[p] as int].transit is Some,
            |p: Seq<char>| self.nodes@[self.paths@[p] as int].transit->0,
        )
    }

    /// The ranges of the trie, as entries `(first code, last code, transit)`.
    pub closed spec fn ranges(&self) -> Set<(int, int, Transit<usize>)> {
        self.ranges.entries()
    }

    /// The number of ranges inserted into the trie.
    pub closed spec fn range_count(&self) -> nat {
        self.ranges.size()
    }

    /// The default transit of the trie.
    pub closed spec fn default_transit(&self) -> Option<Transit<usize>> {
        self.default
    }

    /// The result of a transition on `input` out of this trie.
    pub open spec fn spec_transition(&self, input: Seq<char>) -> TransitionResult<usize> {
        trie_transition(self.chains(), self.ranges(), self.default_transit(), input)
    }

    /// Well-formedness: every path of the trie leads from the root to its own node, the paths
    /// are closed under prefixes, children follow paths one character at a time, and ranges
    /// are disjoint.
    pub closed spec fn wf(&self) -> bool {
        let paths = self.paths@;
        let nodes = self.nodes@;
        &&& nodes.len() > 0
        &&& paths.contains_key(Seq::<char>::empty())
        &&& paths[Seq::<char>::empty()] == 0
        &&& nodes[0].transit is None
        &&& forall|p: Seq<char>| #[trigger] paths.contains_key(p) ==> paths[p] < nodes.len()
        &&& forall|p: Seq<char>, j: int|
            #![trigger paths.contains_key(p), p.take(j)]
            paths.contains_key(p) && 0 <= j <= p.len() ==> paths.contains_key(p.take(j))
        &&& forall|p: Seq<char>, q: Seq<char>|
            #![trigger paths.contains_key(p), paths.contains_key(q)]
            paths.contains_key(p) && paths.contains_key(q) && paths[p] == paths[q] ==> p == q
        &&& forall|p: Seq<char>, c: char|
            #![trigger nodes[paths[p] as int].children@.contains_key(c as u32)]
            #![trigger paths.contains_key(p.push(c))]
            paths.contains_key(p) ==> (nodes[paths[p] as int].children@.contains_key(c as u32)
                <==> paths.contains_key(p.push(c)))
        &&& forall|p: Seq<char>, c: char|
            #![trigger paths.contains_key(p.push(c))]
            paths.contains_key(p) && paths.contains_key(p.push(c))
                ==> nodes[paths[p] as int].children@[c as u32] == paths[p.push(c)]
        &&& point_disjoint(self.ranges.entries())
    }

    /// Returns a new trie with no transitions.
    pub fn new() -> (t: TransitionTrie)
        ensures
            t.wf(),
            t.chains() == Map::<Seq<char>, Transit<usize>>::empty(),
            t.ranges() == Set::<(int, int, Transit<usize>)>::empty(),
            t.range_count() == 0,
            t.default_transit() is None,
    {
        let root = TransitionNode { children: HashMap::new(), transit: None };
        let mut nodes = Vec::new();
        nodes.push(root);
        let t = TransitionTrie {
            nodes,
            paths: Ghost(Map::empty().insert(Seq::<char>::empty(), 0usize)),
            ranges: IntervalMap::new(),
            default: None,
        };
        assert forall|p: Seq<char>, j: int|
            t.paths@.contains_key(p) && 0 <= j <= p.len() implies t.paths@.contains_key(
            p.take(j)) by {
            assert(p.take(j) =~= Seq::<char>::empty());
        }
        assert forall|p: Seq<char>, c: char| t.paths@.contains_key(p) implies !t.paths@.contains_key(
            p.push(c)) by {
            assert(p.push(c).len() > 0);
        }
        assert(t.chains() =~= Map::<Seq<char>, Transit<usize>>::empty());
        t
    }
}


impl TransitionTrie {
    /// Returns the result of a transition on `input`: through the longest matching chain, or
    /// else the range covering the first character, or else the default.
    pub fn transition(&self, input: &[char]) -> (r: TransitionResult<usize>)
        requires
            self.wf(),
        ensures
            r == self.spec_transition(input@),
    {
        if input.len() == 0 {
            return TransitionResult::Fail;
        }
        match self.transition_explicit(input) {
            TransitionResult::Fail => match self.transition_range(input) {
                TransitionResult::Fail => self.transition_default(),
                result => result,
            },
            result => result,
        }
    }

    /// The transition through the longest chain prefixing `input`, if any.
    fn transition_explicit(&self, input: &[char]) -> (r: TransitionResult<usize>)
        requires
            self.wf(),
        ensures
            ({
                let k = longest_chain(self.chains(), input@, input@.len() as int);
                r == if k > 0 {
                    transit_result(self.chains()[input@.take(k)], k)
                } else {
                    TransitionResult::Fail
                }
            }),
    {
        let ghost chains = self.chains();
        let mut curr: usize = 0;
        let mut best = TransitionResult::Fail;
        let mut cursor: usize = 0;
        assert(input@.take(0) =~= Seq::<char>::empty());
        while cursor < input.len()
            invariant
                self.wf(),
                chains == self.chains(),
                cursor <= input@.len(),
                self.paths@.contains_key(input@.take(cursor as int)),
                curr == self.paths@[input@.take(cursor as int)],
                ({
                    let k = longest_chain(chains, input@, cursor as int);
                    best == if k > 0 {
                        transit_result(chains[input@.take(k)], k)
                    } else {
                        TransitionResult::Fail
                    }
                }),
            decreases input@.len() - cursor,
        {
            let ghost p = input@.take(cursor as int);
            let c = input[cursor];
            assert(input@.take(cursor + 1) =~= p.push(c));
            match self.nodes[curr].children.get(&(c as u32)) {
                None => {
                    proof {
                        assert forall|k: int| cursor < k <= input@.len() implies !chains.contains_key(
                            #[trigger] input@.take(k)) by {
                            if chains.contains_key(input@.take(k)) {
                                assert(input@.take(k).take(cursor + 1) =~= p.push(c));
                            }
                        }
                        lemma_longest_chain_stable(chains, input@, cursor as int, input@.len() as int);
                    }
                    return best;
                },
                Some(child) => {
                    curr = *child;
                    cursor = cursor + 1;
                    if let Some(transit) = &self.nodes[curr].transit {
                        let r = TransitionResult::ok(transit, cursor);
                        proof {
                            assert(chains.contains_key(input@.take(cursor as int)));
                            lemma_ok_result(*transit, cursor as int, r);
                        }
                        best = r;
                    }
                },
            }
        }
        proof {
            lemma_longest_chain_stable(chains, input@, cursor as int, input@.len() as int);
        }
        best
    }

    /// The transition through the range covering the first character of `input`, if any.
    fn transition_range(&self, input: &[char]) -> (r: TransitionResult<usize>)
        requires
            self.wf(),
            input@.len() > 0,
        ensures
            r == match range_match(self.ranges(), input@[0]) {
                Some(t) => transit_result(t, 1),
                None => TransitionResult::Fail,
            },
    {
        let value = input[0] as u32;
        match self.ranges.get(&value) {
            None => TransitionResult::Fail,
            Some(transit) => {
                let r = TransitionResult::direct(transit);
                proof {
                    let e = choose|e: (int, int, Transit<usize>)| #[trigger]
                        self.ranges().contains(e) && covers(e.0, e.1, value as int) && e.2
                            == *transit;
                    let f = choose|f: (int, int, Transit<usize>)| #[trigger]
                        self.ranges().contains(f) && covers(f.0, f.1, input@[0] as u32 as int);
                    assert(f == e);
                    lemma_ok_result(*transit, 1, r);
                }
                r
            },
        }
    }

    /// The transition through the default transit, if any.
    fn transition_default(&self) -> (r: TransitionResult<usize>)
        ensures
            r == match self.default_transit() {
                Some(t) => transit_result(t, 1),
                None => TransitionResult::Fail,
            },
    {
        match &self.default {
            None => TransitionResult::Fail,
            Some(dest) => {
                let r = TransitionResult::direct(dest);
                proof {
                    lemma_ok_result(*dest, 1, r);
                }
                r
            },
        }
    }
}


/// A sequence extended by one element determines both the sequence and the element.
proof fn lemma_push_injective(p: Seq<char>, c: char, q: Seq<char>, d: char)
    requires
        p.push(c) == q.push(d),
    ensures
        p == q,
        c == d,
{
    assert(p.push(c).drop_last() =~= p);
    assert(q.push(d).drop_last() =~= q);
    assert(p.push(c).last() == c);
}

/// Distinct characters have distinct codes.
proof fn lemma_char_code_injective(c: char, d: char)
    ensures
        (c as u32 == d as u32) == (c == d),
{
    vstd::utf8::char_u32_cast(c, c as u32);
    vstd::utf8::char_u32_cast(d, d as u32);
}

impl TransitionTrie {
    /// Follows the edge on `c` out of the node at `path`, adding a node for `path + c` if there
    /// is none; when `transit` is given it is set as the transit of that node, failing with a
    /// build error if that node already has one.
    ///
    /// Returns the index of the node at `path + c`.
    fn insert_internal(
        &mut self,
        c: char,
        node: usize,
        transit: Option<Transit<usize>>,
        Ghost(path): Ghost<Seq<char>>,
    ) -> (res: Result<usize, CDFAError>)
        requires
            old(self).wf(),
            old(self).paths@.contains_key(path),
            node == old(self).paths@[path],
        ensures
            final(self).wf(),
            final(self).ranges == old(self).ranges,
            final(self).default == old(self).default,
            forall|p: Seq<char>| #[trigger]
                old(self).paths@.contains_key(p) ==> final(self).paths@.contains_key(p)
                    && final(self).paths@[p] == old(self).paths@[p],
            match res {
                Ok(child) => final(self).paths@.contains_key(path.push(c)) && child
                    == final(self).paths@[path.push(c)],
                Err(e) => build_err(e, "Transition trie contains duplicate matchers"@),
            },
            match transit {
                None => res is Ok && final(self).chains() == old(self).chains(),
                Some(t) => if old(self).chains().contains_key(path.push(c)) {
                    res is Err && final(self).chains() == old(self).chains()
                } else {
                    res is Ok && final(self).chains() == old(self).chains().insert(path.push(c), t)
                },
            },
    {
        let ghost q = path.push(c);
        let ghost old_chains = self.chains();
        let key = c as u32;
        match self.nodes[node].children.get(&key) {
            Some(child) => {
                let child = *child;
                assert(self.paths@.contains_key(q));
                match transit {
                    None => Ok(child),
                    Some(t) => {
                        if self.nodes[child].transit.is_some() {
                            assert(old_chains.contains_key(q));
                            Err(
                                CDFAError::BuildErr(
                                    String::from_str("Transition trie contains duplicate matchers"),
                                ),
                            )
                        } else {
                            assert(!old_chains.contains_key(q));
                            let ghost tt = t;
                            self.set_transit(child, t, Ghost(q));
                            assert(self.chains() =~= old_chains.insert(q, tt));
                            Ok(child)
                        }
                    },
                }
            },
            None => {
                assert(!self.paths@.contains_key(q));
                assert(!old_chains.contains_key(q));
                let ghost new_transit = transit;
                let child = self.add_child(c, node, transit, Ghost(path));
                proof {
                    match new_transit {
                        Some(t) => {
                            assert(self.chains() =~= old_chains.insert(q, t));
                        },
                        None => {
                            assert(self.chains() =~= old_chains);
                        },
                    }
                }
                Ok(child)
            },
        }
    }

    /// Sets the transit of the node at `path`, which has none.
    fn set_transit(&mut self, node: usize, t: Transit<usize>, Ghost(path): Ghost<Seq<char>>)
        requires
            old(self).wf(),
            old(self).paths@.contains_key(path),
            node == old(self).paths@[path],
            path.len() > 0,
        ensures
            final(self).wf(),
            final(self).paths == old(self).paths,
            final(self).ranges == old(self).ranges,
            final(self).default == old(self).default,
            final(self).nodes@.len() == old(self).nodes@.len(),
            forall|i: int|
                0 <= i < old(self).nodes@.len() && i != node ==> #[trigger] final(self).nodes@[i]
                    == old(self).nodes@[i],
            final(self).nodes@[node as int].children == old(self).nodes@[node as int].children,
            final(self).nodes@[node as int].transit == Some(t),
    {
        let ghost old_nodes = self.nodes@;
        assert(node != 0) by {
            if node == 0 {
                assert(self.paths@.contains_key(Seq::<char>::empty()));
            }
        }
        let n = &mut self.nodes[node];
        n.transit = Some(t);
        assert forall|p: Seq<char>, c: char|
            #![trigger self.nodes@[self.paths@[p] as int].children@.contains_key(c as u32)]
            #![trigger self.paths@.contains_key(p.push(c))]
            self.paths@.contains_key(p) implies (self.nodes@[self.paths@[p] as int].children@.contains_key(
            c as u32) <==> self.paths@.contains_key(p.push(c))) by {
            assert(self.nodes@[self.paths@[p] as int].children == old_nodes[self.paths@[p] as int].children);
        }
        assert forall|p: Seq<char>, c: char|
            self.paths@.contains_key(p) && #[trigger] self.paths@.contains_key(p.push(c)) implies
            self.nodes@[self.paths@[p] as int].children@[c as u32] == self.paths@[p.push(c)] by {
            assert(self.nodes@[self.paths@[p] as int].children == old_nodes[self.paths@[p] as int].children);
        }
    }

    /// Adds a new node for `path + c` as a child of the node at `path`, which has no child on
    /// `c`, with transit `transit`; returns the index of the new node.
    fn add_child(
        &mut self,
        c: char,
        node: usize,
        transit: Option<Transit<usize>>,
        Ghost(path): Ghost<Seq<char>>,
    ) -> (child: usize)
        requires
            old(self).wf(),
            old(self).paths@.contains_key(path),
            node == old(self).paths@[path],
            !old(self).paths@.contains_key(path.push(c)),
        ensures
            final(self).wf(),
            final(self).ranges == old(self).ranges,
            final(self).default == old(self).default,
            final(self).paths@ == old(self).paths@.insert(path.push(c), child),
            child == old(self).nodes@.len(),
            final(self).nodes@.len() == old(self).nodes@.len() + 1,
            final(self).nodes@[child as int].transit == transit,
            forall|i: int|
                0 <= i < old(self).nodes@.len() ==> #[trigger] final(self).nodes@[i].transit
                    == old(self).nodes@[i].transit,
    {
        let ghost q = path.push(c);
        let ghost old_paths = self.paths@;
        let ghost old_nodes = self.nodes@;
        let child = self.nodes.len();
        self.nodes.push(TransitionNode { children: HashMap::new(), transit });
        let n = &mut self.nodes[node];
        n.children.insert(c as u32, child);
        proof {
            self.paths@ = old_paths.insert(q, child);
        }
        let ghost paths = self.paths@;
        let ghost nodes = self.nodes@;
        assert(paths[Seq::<char>::empty()] == 0) by {
            assert(q.len() > 0);
        }
        assert forall|p: Seq<char>| #[trigger] paths.contains_key(p) implies paths[p] < nodes.len() by {
            if p != q {
                assert(old_paths.contains_key(p));
            }
        }
        assert forall|p: Seq<char>, j: int|
            paths.contains_key(p) && 0 <= j <= p.len() implies paths.contains_key(
            #[trigger] p.take(j)) by {
            if p == q {
                if j == q.len() {
                    assert(p.take(j) =~= q);
                } else {
                    assert(p.take(j) =~= path.take(j));
                }
            } else {
                assert(old_paths.contains_key(p));
            }
        }
        assert forall|p: Seq<char>, r: Seq<char>|
            paths.contains_key(p) && paths.contains_key(r) && paths[p] == paths[r] implies p
            == r by {
            if p != q {
                assert(old_paths.contains_key(p));
            }
            if r != q {
                assert(old_paths.contains_key(r));
            }
        }
        assert forall|p: Seq<char>, d: char|
            #![trigger nodes[paths[p] as int].children@.contains_key(d as u32)]
            #![trigger paths.contains_key(p.push(d))]
            paths.contains_key(p) implies (nodes[paths[p] as int].children@.contains_key(
            d as u32) <==> paths.contains_key(p.push(d))) by {
            lemma_char_code_injective(c, d);
            if p == q {
                assert(nodes[paths[p] as int].children@ == Map::<u32, usize>::empty());
                if old_paths.contains_key(p.push(d)) {
                    assert(p.push(d).take(p.len() as int) =~= p);
                }
                assert(p.push(d) != q) by {
                    assert(p.push(d).len() != q.len());
                }
            } else {
                assert(old_paths.contains_key(p));
                if p.push(d) == q {
                    lemma_push_injective(p, d, path, c);
                }
                if p == path {
                    if d != c {
                        assert(p.push(d) != q) by {
                            if p.push(d) == q {
                                lemma_push_injective(p, d, path, c);
                            }
                        }
                    }
                } else {
                    assert(old_paths[p] != node);
                    assert(nodes[paths[p] as int] == old_nodes[old_paths[p] as int]);
                }
            }
        }
        assert forall|p: Seq<char>, d: char|
            paths.contains_key(p) && #[trigger] paths.contains_key(p.push(d)) implies nodes[paths[p] as int].children@[d as u32]
            == paths[p.push(d)] by {
            lemma_char_code_injective(c, d);
            if p == q {
                assert(p.push(d) != q) by {
                    assert(p.push(d).len() != q.len());
                }
                assert(old_paths.contains_key(p.push(d)));
                assert(p.push(d).take(p.len() as int) =~= p);
                assert(false);
            } else {
                assert(old_paths.contains_key(p));
                if p.push(d) == q {
                    lemma_push_injective(p, d, path, c);
                } else {
                    assert(old_paths.contains_key(p.push(d)));
                    if p == path {
                        assert(d != c);
                    } else {
                        assert(old_paths[p] != node);
                    }
                }
            }
        }
        child
    }
}


impl TransitionTrie {
    /// Adds the explicit transition `transit` on character `c`.
    ///
    /// Fails with a build error, leaving the trie unchanged, if the trie already has a
    /// transition on exactly `c`.
    pub fn insert(&mut self, c: char, transit: Transit<usize>) -> (res: Result<(), CDFAError>)
        requires
            old(self).wf(),
        ensures
            final(self).wf(),
            final(self).ranges() == old(self).ranges(),
            final(self).range_count() == old(self).range_count(),
            final(self).default_transit() == old(self).default_transit(),
            if old(self).chains().contains_key(seq![c]) {
                res is Err && final(self).chains() == old(self).chains()
            } else {
                res is Ok && final(self).chains() == old(self).chains().insert(seq![c], transit)
            },
            res matches Err(e) ==> build_err(e, "Transition trie contains duplicate matchers"@),
    {
        assert(Seq::<char>::empty().push(c) =~= seq![c]);
        match self.insert_internal(c, 0, Some(transit), Ghost(Seq::empty())) {
            Ok(_) => Ok(()),
            Err(e) => Err(e),
        }
    }

    /// Adds the explicit transition `transit` on the character chain `chars`; an empty chain
    /// adds nothing.
    ///
    /// Fails with a build error, leaving the trie's transitions unchanged, if the trie already
    /// has a transition on exactly `chars`.
    pub fn insert_chain(&mut self, chars: &[char], transit: Transit<usize>) -> (res: Result<
        (),
        CDFAError,
    >)
        requires
            old(self).wf(),
        ensures
            final(self).wf(),
            final(self).ranges() == old(self).ranges(),
            final(self).range_count() == old(self).range_count(),
            final(self).default_transit() == old(self).default_transit(),
            if chars@.len() == 0 {
                res is Ok && final(self).chains() == old(self).chains()
            } else if old(self).chains().contains_key(chars@) {
                res is Err && final(self).chains() == old(self).chains()
            } else {
                res is Ok && final(self).chains() == old(self).chains().insert(chars@, transit)
            },
            res matches Err(e) ==> build_err(e, "Transition trie contains duplicate matchers"@),
    {
        if chars.len() == 0 {
            return Ok(());
        }
        let ghost chains = self.chains();
        let mut node: usize = 0;
        let mut i: usize = 0;
        assert(chars@.take(0) =~= Seq::<char>::empty());
        while i < chars.len() - 1
            invariant
                self.wf(),
                0 <= i < chars@.len(),
                self.chains() == chains,
                self.ranges == old(self).ranges,
                self.default == old(self).default,
                self.paths@.contains_key(chars@.take(i as int)),
                node == self.paths@[chars@.take(i as int)],
            decreases chars@.len() - i,
        {
            let ghost path = chars@.take(i as int);
            assert(chars@.take(i + 1) =~= path.push(chars@[i as int]));
            match self.insert_internal(chars[i], node, None, Ghost(path)) {
                Ok(child) => {
                    node = child;
                },
                Err(_) => {
                    return Ok(());
                },
            }
            i = i + 1;
        }
        let ghost path = chars@.take(i as int);
        assert(path.push(chars@[i as int]) =~= chars@);
        match self.insert_internal(chars[i], node, Some(transit), Ghost(path)) {
            Ok(_) => Ok(()),
            Err(e) => Err(e),
        }
    }

    /// Adds the range transition `transit` on the character codes of `range`.
    ///
    /// Fails with a build error, leaving the trie unchanged, if the range overlaps a range
    /// already in the trie.
    pub fn insert_range(&mut self, range: RangeInclusive<u32>, transit: Transit<usize>) -> (res:
        Result<(), CDFAError>)
        requires
            old(self).wf(),
            old(self).range_count() + 1 < u32::MAX,
            !range@.exhausted,
        ensures
            final(self).wf(),
            final(self).chains() == old(self).chains(),
            final(self).default_transit() == old(self).default_transit(),
            res is Err <==> exists|e: (int, int, Transit<usize>)| #[trigger]
                old(self).ranges().contains(e) && crate::data::interval::overlapping(
                    e.0,
                    e.1,
                    range@.start as int,
                    range@.end as int,
                ),
            res is Ok ==> final(self).ranges() == old(self).ranges().insert(
                (range@.start as int, range@.end as int, transit),
            ) && final(self).range_count() == old(self).range_count() + 1,
            res is Err ==> final(self).ranges() == old(self).ranges() && final(self).range_count()
                == old(self).range_count(),
            res matches Err(e) ==> build_err(e, "Range matcher error: Intervals overlap"@),
    {
        let ghost chains = self.chains();
        let keys = Interval::from(range);
        let r = self.ranges.insert(keys, transit);
        assert(self.chains() =~= chains);
        match r {
            Ok(()) => Ok(()),
            Err(e) => {
                proof {
                    let w = choose|e: (int, int, Transit<usize>)| #[trigger]
                        self.ranges.entries().contains(e) && crate::data::interval::overlapping(
                            e.0,
                            e.1,
                            range@.start as int,
                            range@.end as int,
                        );
                    assert(old(self).ranges().contains(w));
                }
                Err(CDFAError::from_interval_error(e))
            },
        }
    }

    /// Sets the default transit of the trie.
    ///
    /// Fails with a build error, leaving the trie unchanged, if a default is already set.
    pub fn set_default(&mut self, transit: Transit<usize>) -> (res: Result<(), CDFAError>)
        requires
            old(self).wf(),
        ensures
            final(self).wf(),
            final(self).chains() == old(self).chains(),
            final(self).ranges() == old(self).ranges(),
            final(self).range_count() == old(self).range_count(),
            old(self).default_transit() is Some ==> res is Err && final(self).default_transit()
                == old(self).default_transit(),
            old(self).default_transit() is None ==> res is Ok && final(self).default_transit()
                == Some(transit),
            res matches Err(e) ==> build_err(e, "Default matcher used twice"@),
    {
        if self.default.is_some() {
            Err(CDFAError::BuildErr(String::from_str("Default matcher used twice")))
        } else {
            let ghost chains = self.chains();
            self.default = Some(transit);
            assert(self.chains() =~= chains);
            Ok(())
        }
    }
}


/// Whether `e` is the build error with message `m`.
pub open spec fn build_err(e: CDFAError, m: Seq<char>) -> bool {
    e matches CDFAError::BuildErr(x) && x@ == m
}

/// The states that the references of `sources` point to.
pub open spec fn states_of<T>(sources: Seq<&T>) -> Seq<T> {
    sources.map_values(|s: &T| *s)
}

/// Whether equality and cloning of `T` are exact, so that the code of a state is determined by
/// its value.
pub open spec fn exact<T: Data>() -> bool {
    T::obeys_eq_spec() && clones_exactly::<T>()
}

/// The codes after encoding the states of `transit`, destination first, and the transit with
/// its states replaced by their codes.
pub open spec fn encode_transit_spec<S: Data>(codes: Seq<S>, transit: Transit<S>) -> (
    Seq<S>,
    Transit<usize>,
) {
    let (c1, d) = encode_spec(codes, transit.dest);
    match transit.acceptor_destination {
        Some(a) => {
            let (c2, x) = encode_spec(c1, a);
            (
                c2,
                Transit {
                    dest: d as usize,
                    consumer: transit.consumer,
                    acceptor_destination: Some(x as usize),
                },
            )
        },
        None => (
            c1,
            Transit { dest: d as usize, consumer: transit.consumer, acceptor_destination: None },
        ),
    }
}

/// The trie of transitions out of state `code`, if it has one.
pub open spec fn trie_of(tries: Seq<Option<TransitionTrie>>, code: int) -> Option<TransitionTrie> {
    if 0 <= code < tries.len() {
        tries[code]
    } else {
        None
    }
}

/// The explicit chains out of state `code` (none for a state without a trie).
pub open spec fn chains_of(tries: Seq<Option<TransitionTrie>>, code: int) -> Map<
    Seq<char>,
    Transit<usize>,
> {
    match trie_of(tries, code) {
        Some(t) => t.chains(),
        None => Map::empty(),
    }
}

/// The ranges out of state `code` (none for a state without a trie).
pub open spec fn ranges_of(tries: Seq<Option<TransitionTrie>>, code: int) -> Set<
    (int, int, Transit<usize>),
> {
    match trie_of(tries, code) {
        Some(t) => t.ranges(),
        None => Set::empty(),
    }
}

/// The number of ranges out of state `code`.
pub open spec fn range_count_of(tries: Seq<Option<TransitionTrie>>, code: int) -> nat {
    match trie_of(tries, code) {
        Some(t) => t.range_count(),
        None => 0,
    }
}

/// The default transit out of state `code`.
pub open spec fn default_of(tries: Seq<Option<TransitionTrie>>, code: int) -> Option<
    Transit<usize>,
> {
    match trie_of(tries, code) {
        Some(t) => t.default_transit(),
        None => None,
    }
}

/// The transitions of `after` are those of `before`, except possibly out of state `code`, which
/// has a trie in `after`.
pub open spec fn tries_except(
    before: Seq<Option<TransitionTrie>>,
    after: Seq<Option<TransitionTrie>>,
    code: int,
) -> bool {
    &&& trie_of(after, code) is Some
    &&& forall|k: int| k != code ==> #[trigger] trie_of(after, k) == trie_of(before, k)
}

/// Whether every state with transitions has a code, and is one of `used`.
pub open spec fn tries_from<State: Data>(tries: Seq<Option<TransitionTrie>>, codes: Seq<State>, used: Set<State>) -> bool {
    forall|k: int| #[trigger] trie_of(tries, k) is Some ==> 0 <= k < codes.len() && used.contains(codes[k])
}

/// A state outside `used` has no transitions yet.
pub proof fn lemma_unused_fresh<State: Data>(
    tries: Seq<Option<TransitionTrie>>,
    codes: Seq<State>,
    used: Set<State>,
    x: State,
)
    requires
        crate::data::value_exact::<State>(),
        tries_from(tries, codes, used),
        !used.contains(x),
    ensures
        trie_of(tries, encode_spec(codes, x).1) is None,
{
    crate::util::encoder::lemma_first_code_found(codes, x);
    let k = encode_spec(codes, x).1;
    if trie_of(tries, k) is Some {
        assert(used.contains(codes[k]));
    }
}

/// A step out of state `from` towards `to` (encoding both, then changing the transitions of
/// `from` only) keeps the earlier codes, and leaves transitions only out of `used` and `from`.
pub proof fn lemma_from_step<State: Data>(
    before_tries: Seq<Option<TransitionTrie>>,
    before_codes: Seq<State>,
    after_tries: Seq<Option<TransitionTrie>>,
    after_codes: Seq<State>,
    from: State,
    to: State,
    used: Set<State>,
)
    requires
        crate::data::value_exact::<State>(),
        tries_from(before_tries, before_codes, used),
        after_codes == encode_spec(encode_spec(before_codes, from).0, to).0,
        tries_except(before_tries, after_tries, encode_spec(before_codes, from).1),
    ensures
        tries_from(after_tries, after_codes, used.insert(from)),
        before_codes.len() <= after_codes.len(),
        after_codes.take(before_codes.len() as int) == before_codes,
        encode_spec(after_codes, from).1 == encode_spec(before_codes, from).1,
        forall|x: State| #[trigger] crate::util::encoder::first_code(before_codes, x) is Some
            ==> crate::util::encoder::first_code(after_codes, x) == crate::util::encoder::first_code(before_codes, x),
{
    let (c1, f) = encode_spec(before_codes, from);
    crate::util::encoder::law_encode_decode(before_codes, from);
    crate::util::encoder::law_encode_decode(c1, to);
    let c2 = after_codes;
    assert(c2.take(c1.len() as int) == c1);
    assert(c2.take(before_codes.len() as int) =~= before_codes) by {
        assert forall|i: int| 0 <= i < before_codes.len() implies c2[i] == before_codes[i] by {
            assert(c1.take(before_codes.len() as int)[i] == c1[i]);
            assert(c2.take(c1.len() as int)[i] == c2[i]);
        }
    }
    assert(c2[f] == from) by {
        assert(c2.take(c1.len() as int)[f] == c2[f]);
    }
    assert forall|k: int| #[trigger] trie_of(after_tries, k) is Some implies 0 <= k < c2.len()
        && used.insert(from).contains(c2[k]) by {
        if k != f {
            assert(trie_of(before_tries, k) is Some);
            assert(c2.take(before_codes.len() as int)[k] == c2[k]);
        }
    }
    crate::util::encoder::lemma_first_code_prefix(c2, from, c1.len() as int);
    crate::util::encoder::lemma_first_code_found(before_codes, from);
    assert forall|x: State| #[trigger] crate::util::encoder::first_code(before_codes, x) is Some
        implies crate::util::encoder::first_code(c2, x) == crate::util::encoder::first_code(before_codes, x) by {
        crate::util::encoder::lemma_first_code_prefix(c2, x, before_codes.len() as int);
    }
    if crate::util::encoder::first_code(before_codes, from) is None {
        assert(c1 == before_codes.push(from));
        assert(c2.take(c1.len() as int) == c1);
        assert(crate::util::encoder::first_code(c2.take(c1.len() as int), from) == Some(before_codes.len() as int)) by {
            assert(c1.drop_last() =~= before_codes);
        }
    }
}

/// Whether a transit is plain: it consumes the input it traverses, and carries no acceptor
/// destination of its own.
pub open spec fn plain_transit(t: Transit<usize>) -> bool {
    t.consumer == ConsumerStrategy::All && t.acceptor_destination is None
}

/// Whether every transit out of every state is plain.
pub open spec fn plain_tries(tries: Seq<Option<TransitionTrie>>) -> bool {
    &&& forall|k: int, p: Seq<char>| #[trigger]
        chains_of(tries, k).contains_key(p) ==> plain_transit(chains_of(tries, k)[p])
    &&& forall|k: int, e: (int, int, Transit<usize>)| #[trigger]
        ranges_of(tries, k).contains(e) ==> plain_transit(e.2)
    &&& forall|k: int| #[trigger] default_of(tries, k) matches Some(t) ==> plain_transit(t)
}

/// Whether every state can take `n` more ranges without overflowing its range count.
pub open spec fn room_within(tries: Seq<Option<TransitionTrie>>, n: nat) -> bool {
    forall|k: int| #[trigger] range_count_of(tries, k) + n < u32::MAX
}

/// Whether no accepting state has an acceptor destination.
pub open spec fn no_destinations(accepting: Map<usize, Option<usize>>) -> bool {
    forall|k: usize| #[trigger] accepting.contains_key(k) ==> accepting[k] is None
}

/// Adding the transit `t` of a simple transition or of a chain keeps the transits of the
/// builder plain, if `t` is plain.
pub proof fn lemma_chain_keeps_plain(
    before: Seq<Option<TransitionTrie>>,
    after: Seq<Option<TransitionTrie>>,
    f: int,
    t: Transit<usize>,
    on: Seq<char>,
)
    requires
        plain_tries(before),
        plain_transit(t),
        tries_except(before, after, f),
        same_ranges_and_default(before, after, f),
        chains_of(after, f) == chains_of(before, f) || chains_of(after, f) == chains_of(
            before,
            f,
        ).insert(on, t),
    ensures
        plain_tries(after),
        forall|n: nat| #[trigger] room_within(before, n) ==> room_within(after, n),
{
    assert forall|k: int, p: Seq<char>| #[trigger]
        chains_of(after, k).contains_key(p) implies plain_transit(chains_of(after, k)[p]) by {
        if k != f {
            assert(trie_of(after, k) == trie_of(before, k));
            assert(chains_of(before, k).contains_key(p));
        } else if chains_of(after, f) == chains_of(before, f) || p != on {
            assert(chains_of(before, k).contains_key(p));
        } else {
            assert(chains_of(after, k)[p] == t);
        }
    }
    assert forall|k: int, e: (int, int, Transit<usize>)| #[trigger]
        ranges_of(after, k).contains(e) implies plain_transit(e.2) by {
        if k != f {
            assert(trie_of(after, k) == trie_of(before, k));
        }
        assert(ranges_of(before, k).contains(e));
    }
    assert forall|k: int| #[trigger]
        default_of(after, k) is Some implies plain_transit(default_of(after, k)->0) by {
        if k != f {
            assert(trie_of(after, k) == trie_of(before, k));
        }
        assert(default_of(before, k) == default_of(after, k));
    }
    assert forall|n: nat| #[trigger] room_within(before, n) implies room_within(after, n) by {
        assert forall|k: int| #[trigger] range_count_of(after, k) + n < u32::MAX by {
            if k != f {
                assert(trie_of(after, k) == trie_of(before, k));
            }
            assert(range_count_of(before, k) + n < u32::MAX);
        }
    }
}

/// Adding the plain transit `t` of a range keeps the transits of the builder plain.
pub proof fn lemma_range_keeps_plain(
    before: Seq<Option<TransitionTrie>>,
    after: Seq<Option<TransitionTrie>>,
    f: int,
    t: Transit<usize>,
    lo: int,
    hi: int,
)
    requires
        plain_tries(before),
        plain_transit(t),
        tries_except(before, after, f),
        chains_of(after, f) == chains_of(before, f),
        default_of(after, f) == default_of(before, f),
        ranges_of(after, f) == ranges_of(before, f) || ranges_of(after, f) == ranges_of(
            before,
            f,
        ).insert((lo, hi, t)),
    ensures
        plain_tries(after),
{
    assert forall|k: int, p: Seq<char>| #[trigger]
        chains_of(after, k).contains_key(p) implies plain_transit(chains_of(after, k)[p]) by {
        if k != f {
            assert(trie_of(after, k) == trie_of(before, k));
        }
        assert(chains_of(before, k).contains_key(p));
    }
    assert forall|k: int, e: (int, int, Transit<usize>)| #[trigger]
        ranges_of(after, k).contains(e) implies plain_transit(e.2) by {
        if k != f {
            assert(trie_of(after, k) == trie_of(before, k));
            assert(ranges_of(before, k).contains(e));
        } else if e != (lo, hi, t) {
            assert(ranges_of(before, k).contains(e));
        }
    }
    assert forall|k: int| #[trigger]
        default_of(after, k) is Some implies plain_transit(default_of(after, k)->0) by {
        if k != f {
            assert(trie_of(after, k) == trie_of(before, k));
        }
        assert(default_of(before, k) == default_of(after, k));
    }
}

/// Setting the plain default transit `t` keeps the transits of the builder plain.
pub proof fn lemma_default_keeps_plain(
    before: Seq<Option<TransitionTrie>>,
    after: Seq<Option<TransitionTrie>>,
    f: int,
    t: Transit<usize>,
)
    requires
        plain_tries(before),
        plain_transit(t),
        tries_except(before, after, f),
        chains_of(after, f) == chains_of(before, f),
        ranges_of(after, f) == ranges_of(before, f),
        range_count_of(after, f) == range_count_of(before, f),
        default_of(after, f) == default_of(before, f) || default_of(after, f) == Some(t),
    ensures
        plain_tries(after),
        forall|n: nat| #[trigger] room_within(before, n) ==> room_within(after, n),
{
    assert forall|k: int, p: Seq<char>| #[trigger]
        chains_of(after, k).contains_key(p) implies plain_transit(chains_of(after, k)[p]) by {
        if k != f {
            assert(trie_of(after, k) == trie_of(before, k));
        }
        assert(chains_of(before, k).contains_key(p));
    }
    assert forall|k: int, e: (int, int, Transit<usize>)| #[trigger]
        ranges_of(after, k).contains(e) implies plain_transit(e.2) by {
        if k != f {
            assert(trie_of(after, k) == trie_of(before, k));
        }
        assert(ranges_of(before, k).contains(e));
    }
    assert forall|k: int| #[trigger]
        default_of(after, k) is Some implies plain_transit(default_of(after, k)->0) by {
        if k != f {
            assert(trie_of(after, k) == trie_of(before, k));
            assert(default_of(before, k) == default_of(after, k));
        }
    }
    assert forall|n: nat| #[trigger] room_within(before, n) implies room_within(after, n) by {
        assert forall|k: int| #[trigger] range_count_of(after, k) + n < u32::MAX by {
            if k != f {
                assert(trie_of(after, k) == trie_of(before, k));
            }
            assert(range_count_of(before, k) + n < u32::MAX);
        }
    }
}

/// Encoded CDFA Builder: builds an `EncodedCDFA`, whose states are the codes of the builder's
/// states.
///
/// The builder is viewed as: the states encoded so far (`codes`, indexed by code), the
/// alphabet, the accepting states with their acceptor destinations, the transition trie of
/// each state, the token kind of each state, and the start code (`usize::MAX` if unset).
pub struct EncodedCDFABuilder<State: Data, Symbol: GrammarSymbol> {
    encoder: Encoder<State>,
    alphabet: Option<HashedAlphabet>,
    accepting: HashMap<usize, Option<usize>>,
    t_delta: CEHashMap<TransitionTrie>,
    tokenizer: CEHashMap<Symbol>,
    start: usize,
}

impl<State: Data, Symbol: GrammarSymbol> EncodedCDFABuilder<State, Symbol> {
    /// The states encoded so far, indexed by code.
    pub closed spec fn codes(&self) -> Seq<State> {
        self.encoder@
    }

    /// The alphabet, if one was set.
    pub closed spec fn alphabet_chars(&self) -> Option<Set<char>> {
        match self.alphabet {
            Some(a) => Some(a.chars()),
            None => None,
        }
    }

    /// The accepting states, each with its acceptor destination, if any.
    pub closed spec fn accepting_states(&self) -> Map<usize, Option<usize>> {
        self.accepting@
    }

    /// The transition trie of each state, indexed by code.
    pub closed spec fn tries(&self) -> Seq<Option<TransitionTrie>> {
        self.t_delta@
    }

    /// The token kind of each state, indexed by code.
    pub closed spec fn token_kinds(&self) -> Seq<Option<Symbol>> {
        self.tokenizer@
    }

    /// The code of the start state, or `usize::MAX` if none was set.
    pub closed spec fn start_code(&self) -> usize {
        self.start
    }

    /// The effect of `accept` on builder `before`, giving builder `after`.
    pub open spec fn accept_effect(before: Self, after: Self, state: State) -> bool {
        &&& (exact::<State>() ==> {
                let (codes, k) = encode_spec(before.codes(), state);
                &&& after.codes() == codes
                &&& after.accepting_states() == if before.accepting_states().contains_key(
                    k as usize,
                ) {
                    before.accepting_states()
                } else {
                    before.accepting_states().insert(k as usize, None)
                }
            })
        &&& (after.alphabet_chars() == before.alphabet_chars())
        &&& (after.tries() == before.tries())
        &&& (after.token_kinds() == before.token_kinds())
        &&& (after.start_code() == before.start_code())
    }

    /// The effect of `accept_to` on builder `before`, giving builder `after`.
    pub open spec fn accept_to_effect(before: Self, after: Self, state: State, to: State) -> bool {
        &&& (exact::<State>() ==> {
                let (c1, k) = encode_spec(before.codes(), state);
                let (c2, j) = encode_spec(c1, to);
                &&& after.codes() == c2
                &&& after.accepting_states() == before.accepting_states().insert(
                    k as usize,
                    Some(j as usize),
                )
            })
        &&& (after.alphabet_chars() == before.alphabet_chars())
        &&& (after.tries() == before.tries())
        &&& (after.token_kinds() == before.token_kinds())
        &&& (after.start_code() == before.start_code())
    }

    /// The effect of `mark_start` on builder `before`, giving builder `after`: the start state is
    /// set unless one was set before.
    pub open spec fn mark_start_effect(before: Self, after: Self, state: State) -> bool {
        &&& (before.start_code() == usize::MAX && exact::<State>() ==> {
                let (codes, k) = encode_spec(before.codes(), state);
                &&& after.codes() == codes
                &&& after.start_code() == k
            })
        &&& (before.start_code() != usize::MAX ==> after == before)
        &&& (after.alphabet_chars() == before.alphabet_chars())
        &&& (after.accepting_states() == before.accepting_states())
        &&& (after.tries() == before.tries())
        &&& (after.token_kinds() == before.token_kinds())
    }

    /// The effect of `tokenize` on builder `before`, giving builder `after`.
    pub open spec fn tokenize_effect(before: Self, after: Self, state: State, token: Symbol) -> bool {
        &&& (exact::<State>() ==> {
                let (codes, k) = encode_spec(before.codes(), state);
                &&& after.codes() == codes
                &&& after.token_kinds().len() == if k < before.token_kinds().len() {
                    before.token_kinds().len() as int
                } else {
                    k + 1
                }
                &&& after.token_kinds()[k] matches Some(t) && cloned(token, t)
                &&& forall|i: int|
                    0 <= i < after.token_kinds().len() && i != k ==> #[trigger] after.token_kinds()[i]
                        == trie_kind(before.token_kinds(), i)
            })
        &&& (after.alphabet_chars() == before.alphabet_chars())
        &&& (after.accepting_states() == before.accepting_states())
        &&& (after.tries() == before.tries())
        &&& (after.start_code() == before.start_code())
    }

    /// The effect of `mark_trans` on builder `before`, giving builder `after`; `ok` tells whether it
    /// succeeded.
    pub open spec fn mark_trans_effect(before: Self, after: Self, from: State, transit: Transit<State>, on: char, ok: bool) -> bool {
        &&& before.same_settings(&after)
        &&& forall|n: nat| #[trigger] before.range_room(n) ==> after.range_room(n)
        &&& exact::<State>() ==> {
            let (c1, f) = encode_spec(before.codes(), from);
            let (c2, t) = encode_transit_spec(c1, transit);
            &&& after.codes() == c2
            &&& tries_except(before.tries(), after.tries(), f)
            &&& same_ranges_and_default(before.tries(), after.tries(), f)
            &&& if chains_of(before.tries(), f).contains_key(seq![on]) {
                !ok && chains_of(after.tries(), f) == chains_of(before.tries(), f)
            } else {
                ok && chains_of(after.tries(), f) == chains_of(before.tries(), f).insert(
                    seq![on],
                    t,
                )
            }
        }
    
    }

    /// The effect of `mark_chain` on builder `before`, giving builder `after`; `ok` tells whether it
    /// succeeded.
    pub open spec fn mark_chain_effect(before: Self, after: Self, from: State, transit: Transit<State>, on: Seq<char>, ok: bool) -> bool {
        &&& before.same_settings(&after)
        &&& forall|n: nat| #[trigger] before.range_room(n) ==> after.range_room(n)
        &&& exact::<State>() ==> {
            let (c1, f) = encode_spec(before.codes(), from);
            let (c2, t) = encode_transit_spec(c1, transit);
            &&& after.codes() == c2
            &&& tries_except(before.tries(), after.tries(), f)
            &&& same_ranges_and_default(before.tries(), after.tries(), f)
            &&& if on.len() == 0 {
                ok && chains_of(after.tries(), f) == chains_of(before.tries(), f)
            } else if chains_of(before.tries(), f).contains_key(on) {
                !ok && chains_of(after.tries(), f) == chains_of(before.tries(), f)
            } else {
                ok && chains_of(after.tries(), f) == chains_of(before.tries(), f).insert(
                    on,
                    t,
                )
            }
        }
    
    }

    /// The effect of `mark_range` on builder `before`, giving builder `after`; `ok` tells whether it
    /// succeeded.
    /// Whether `steps` are the builders from `before` to `after` when the range transition is
    /// marked out of each state of `sources` in turn, each marking succeeding.
    pub open spec fn range_chain_effect(before: Self, after: Self, steps: Seq<Self>, sources: Seq<State>, transit: Transit<State>, start: char, end: char) -> bool {
        &&& steps.len() == sources.len() + 1
        &&& steps[0] == before
        &&& steps.last() == after
        &&& forall|k: int| 0 <= k < sources.len() ==> Self::mark_range_effect(#[trigger] steps[k], steps[k + 1], sources[k], transit, start, end, true)
    }

    pub open spec fn mark_range_effect(before: Self, after: Self, from: State, transit: Transit<State>, start: char, end: char, ok: bool) -> bool {
        &&& before.same_settings(&after)
        &&& forall|n: nat| #[trigger] before.range_room(n + 1) ==> after.range_room(n)
        &&& exact::<State>() ==> {
            let (c1, f) = encode_spec(before.codes(), from);
            let (c2, t) = encode_transit_spec(c1, transit);
            let (lo, hi) = (start as u32 as int, end as u32 as int);
            &&& after.codes() == c2
            &&& tries_except(before.tries(), after.tries(), f)
            &&& chains_of(after.tries(), f) == chains_of(before.tries(), f)
            &&& default_of(after.tries(), f) == default_of(before.tries(), f)
            &&& if exists|e: (int, int, Transit<usize>)| #[trigger]
                ranges_of(before.tries(), f).contains(e)
                    && crate::data::interval::overlapping(e.0, e.1, lo, hi) {
                !ok && ranges_of(after.tries(), f) == ranges_of(before.tries(), f)
                    && range_count_of(after.tries(), f) == range_count_of(before.tries(), f)
            } else {
                ok && ranges_of(after.tries(), f) == ranges_of(before.tries(), f).insert(
                    (lo, hi, t),
                ) && range_count_of(after.tries(), f) == range_count_of(before.tries(), f)
                    + 1
            }
        }
    
    }

    /// The effect of `default_to` on builder `before`, giving builder `after`; `ok` tells whether it
    /// succeeded.
    pub open spec fn default_to_effect(before: Self, after: Self, from: State, transit: Transit<State>, ok: bool) -> bool {
        &&& before.same_settings(&after)
        &&& forall|n: nat| #[trigger] before.range_room(n) ==> after.range_room(n)
        &&& exact::<State>() ==> {
            let (c1, f) = encode_spec(before.codes(), from);
            let (c2, t) = encode_transit_spec(c1, transit);
            &&& after.codes() == c2
            &&& tries_except(before.tries(), after.tries(), f)
            &&& chains_of(after.tries(), f) == chains_of(before.tries(), f)
            &&& ranges_of(after.tries(), f) == ranges_of(before.tries(), f)
            &&& range_count_of(after.tries(), f) == range_count_of(before.tries(), f)
            &&& if default_of(before.tries(), f) is Some {
                !ok && default_of(after.tries(), f) == default_of(before.tries(), f)
            } else {
                ok && default_of(after.tries(), f) == Some(t)
            }
        }
    
    }

    /// Whether every transition trie of the builder is well formed.
    pub closed spec fn tries_wf(&self) -> bool {
        forall|k: int| #[trigger] trie_of(self.tries(), k) matches Some(t) ==> t.wf()
    }

    /// The builder `other` has the same alphabet, accepting states, token kinds and start as
    /// this one.
    pub open spec fn same_settings(&self, other: &Self) -> bool {
        &&& other.alphabet_chars() == self.alphabet_chars()
        &&& other.accepting_states() == self.accepting_states()
        &&& other.token_kinds() == self.token_kinds()
        &&& other.start_code() == self.start_code()
    }

    /// Removes the transition trie of state `from` and returns it, or returns a new empty trie
    /// if `from` has none.
    fn take_trie(&mut self, from: usize) -> (t: TransitionTrie)
        requires
            old(self).tries_wf(),
        ensures
            t.wf(),
            match trie_of(old(self).tries(), from as int) {
                Some(u) => t == u,
                None => t.chains() == Map::<Seq<char>, Transit<usize>>::empty() && t.ranges()
                    == Set::<(int, int, Transit<usize>)>::empty() && t.range_count() == 0
                    && t.default_transit() is None,
            },
            final(self).tries() == if from < old(self).tries().len() {
                old(self).tries().update(from as int, None)
            } else {
                old(self).tries()
            },
            final(self).codes() == old(self).codes(),
            old(self).same_settings(&*final(self)),
    {
        match self.t_delta.take(from) {
            Some(t) => t,
            None => TransitionTrie::new(),
        }
    }

    /// Stores `t` as the transition trie of state `from`, which has none.
    fn put_trie(
        &mut self,
        from: usize,
        t: TransitionTrie,
        Ghost(before): Ghost<Seq<Option<TransitionTrie>>>,
    )
        requires
            t.wf(),
            from < usize::MAX,
            old(self).tries() == if from < before.len() {
                before.update(from as int, None)
            } else {
                before
            },
            forall|k: int| #[trigger] trie_of(before, k) is Some ==> trie_of(before, k)->0.wf(),
        ensures
            final(self).tries_wf(),
            tries_except(before, final(self).tries(), from as int),
            trie_of(final(self).tries(), from as int) == Some(t),
            final(self).codes() == old(self).codes(),
            old(self).same_settings(&*final(self)),
    {
        self.t_delta.insert(from, t);
        assert forall|k: int| k != from implies #[trigger] trie_of(self.tries(), k) == trie_of(
            before,
            k,
        ) by {}
        assert forall|k: int| #[trigger] trie_of(self.tries(), k) is Some implies trie_of(
            self.tries(),
            k,
        )->0.wf() by {
            if k != from {
                assert(trie_of(self.tries(), k) == trie_of(before, k));
            }
        }
    }

    /// Encodes the states of `transit`, destination first.
    fn encode_transit(&mut self, transit: Transit<State>) -> (t: Transit<usize>)
        ensures
            exact::<State>() ==> (final(self).codes(), t) == encode_transit_spec(
                old(self).codes(),
                transit,
            ),
            final(self).codes().len() <= usize::MAX,
            old(self).same_settings(&*final(self)),
            final(self).tries() == old(self).tries(),
    {
        let mut builder = TransitBuilder::to(self.encoder.encode(&transit.dest));
        if let Some(acceptor_destination) = transit.acceptor_destination {
            builder.accept_to(self.encoder.encode(&acceptor_destination));
        }
        builder.consumer(transit.consumer).build()
    }

}

impl<State: Data, Symbol: GrammarSymbol> EncodedCDFABuilder<State, Symbol> {
    /// Returns a builder of the transitions out of `state`, which extends this builder.
    pub fn state<'scope, 'state: 'scope>(&'scope mut self, state: &'state State) -> (sb:
        EncodedCDFAStateBuilder<'scope, 'state, State, Symbol>)
        ensures
            *sb.ecdfa_builder == *old(self),
            *sb.state == *state,
            *final(sb.ecdfa_builder) == *final(self),
    {
        EncodedCDFAStateBuilder { ecdfa_builder: self, state }
    }
}

/// Encoded CDFA State Builder: builds the transitions out of a single state, through the
/// `EncodedCDFABuilder` it extends.
pub struct EncodedCDFAStateBuilder<'scope, 'state: 'scope, State: Data, Symbol: GrammarSymbol> {
    /// The builder being extended.
    pub ecdfa_builder: &'scope mut EncodedCDFABuilder<State, Symbol>,
    /// The state whose transitions are built.
    pub state: &'state State,
}

impl<'scope, 'state: 'scope, State: Data, Symbol: GrammarSymbol> EncodedCDFAStateBuilder<
    'scope,
    'state,
    State,
    Symbol,
> {
    /// Marks the state as accepting.
    pub fn accept(&mut self) -> (sb: &mut Self)
        requires
            old(self).ecdfa_builder.well_formed(),
        ensures
            sb.ecdfa_builder.well_formed(),
            EncodedCDFABuilder::accept_effect(
                *old(self).ecdfa_builder,
                *sb.ecdfa_builder,
                *old(self).state,
            ),
            sb.state == old(self).state,
            *final(self) == *final(sb),
    {
        self.ecdfa_builder.accept(self.state);
        self
    }

    /// Marks the state as accepting, with acceptor destination `to`.
    pub fn accept_to(&mut self, to: &State) -> (sb: &mut Self)
        requires
            old(self).ecdfa_builder.well_formed(),
        ensures
            sb.ecdfa_builder.well_formed(),
            EncodedCDFABuilder::accept_to_effect(
                *old(self).ecdfa_builder,
                *sb.ecdfa_builder,
                *old(self).state,
                *to,
            ),
            sb.state == old(self).state,
            *final(self) == *final(sb),
    {
        self.ecdfa_builder.accept_to(self.state, to);
        self
    }

    /// Adds simple transition `transit` on `on` out of the state.
    pub fn mark_trans(&mut self, transit: Transit<State>, on: char) -> (res: Result<
        &mut Self,
        CDFAError,
    >)
        requires
            old(self).ecdfa_builder.well_formed(),
        ensures
            match res {
                Ok(sb) => sb.ecdfa_builder.well_formed() && sb.state == old(self).state
                    && *final(self) == *final(sb) && EncodedCDFABuilder::mark_trans_effect(
                    *old(self).ecdfa_builder,
                    *sb.ecdfa_builder,
                    *old(self).state,
                    transit,
                    on,
                    true,
                ),
                Err(_) => final(self).ecdfa_builder.well_formed()
                    && EncodedCDFABuilder::mark_trans_effect(
                    *old(self).ecdfa_builder,
                    *final(self).ecdfa_builder,
                    *old(self).state,
                    transit,
                    on,
                    false,
                ),
            },
            res matches Err(e) ==> build_err(e, "Transition trie contains duplicate matchers"@),
    {
        match self.ecdfa_builder.mark_trans(self.state, transit, on) {
            Ok(_) => Ok(self),
            Err(e) => Err(e),
        }
    }

    /// Adds chain transition `transit` on `on` out of the state.
    pub fn mark_chain(&mut self, transit: Transit<State>, on: &str) -> (res: Result<
        &mut Self,
        CDFAError,
    >)
        requires
            old(self).ecdfa_builder.well_formed(),
        ensures
            match res {
                Ok(sb) => sb.ecdfa_builder.well_formed() && sb.state == old(self).state
                    && *final(self) == *final(sb) && EncodedCDFABuilder::mark_chain_effect(
                    *old(self).ecdfa_builder,
                    *sb.ecdfa_builder,
                    *old(self).state,
                    transit,
                    on@,
                    true,
                ),
                Err(_) => final(self).ecdfa_builder.well_formed()
                    && EncodedCDFABuilder::mark_chain_effect(
                    *old(self).ecdfa_builder,
                    *final(self).ecdfa_builder,
                    *old(self).state,
                    transit,
                    on@,
                    false,
                ),
            },
            res matches Err(e) ==> build_err(e, "Transition trie contains duplicate matchers"@),
    {
        match self.ecdfa_builder.mark_chain(self.state, transit, on) {
            Ok(_) => Ok(self),
            Err(e) => Err(e),
        }
    }

    /// Adds range transition `transit` on range [`start`, `end`] out of the state.
    pub fn mark_range(&mut self, transit: Transit<State>, start: char, end: char) -> (res:
        Result<&mut Self, CDFAError>)
        requires
            old(self).ecdfa_builder.well_formed(),
            old(self).ecdfa_builder.range_room(1),
        ensures
            match res {
                Ok(sb) => sb.ecdfa_builder.well_formed() && sb.state == old(self).state
                    && *final(self) == *final(sb) && EncodedCDFABuilder::mark_range_effect(
                    *old(self).ecdfa_builder,
                    *sb.ecdfa_builder,
                    *old(self).state,
                    transit,
                    start,
                    end,
                    true,
                ),
                Err(_) => final(self).ecdfa_builder.well_formed()
                    && EncodedCDFABuilder::mark_range_effect(
                    *old(self).ecdfa_builder,
                    *final(self).ecdfa_builder,
                    *old(self).state,
                    transit,
                    start,
                    end,
                    false,
                ),
            },
            res matches Err(e) ==> build_err(e, "Range matcher error: Intervals overlap"@),
    {
        match self.ecdfa_builder.mark_range(self.state, transit, start, end) {
            Ok(_) => Ok(self),
            Err(e) => Err(e),
        }
    }

    /// Adds default transition `transit` out of the state.
    pub fn default_to(&mut self, transit: Transit<State>) -> (res: Result<&mut Self, CDFAError>)
        requires
            old(self).ecdfa_builder.well_formed(),
        ensures
            match res {
                Ok(sb) => sb.ecdfa_builder.well_formed() && sb.state == old(self).state
                    && *final(self) == *final(sb) && EncodedCDFABuilder::default_to_effect(
                    *old(self).ecdfa_builder,
                    *sb.ecdfa_builder,
                    *old(self).state,
                    transit,
                    true,
                ),
                Err(_) => final(self).ecdfa_builder.well_formed()
                    && EncodedCDFABuilder::default_to_effect(
                    *old(self).ecdfa_builder,
                    *final(self).ecdfa_builder,
                    *old(self).state,
                    transit,
                    false,
                ),
            },
            res matches Err(e) ==> build_err(e, "Default matcher used twice"@),
    {
        match self.ecdfa_builder.default_to(self.state, transit) {
            Ok(_) => Ok(self),
            Err(e) => Err(e),
        }
    }

    /// Marks the state as tokenizable, with token kind `token`.
    pub fn tokenize(&mut self, token: &Symbol) -> (sb: &mut Self)
        requires
            old(self).ecdfa_builder.well_formed(),
        ensures
            sb.ecdfa_builder.well_formed(),
            EncodedCDFABuilder::tokenize_effect(
                *old(self).ecdfa_builder,
                *sb.ecdfa_builder,
                *old(self).state,
                *token,
            ),
            sb.state == old(self).state,
            *final(self) == *final(sb),
    {
        self.ecdfa_builder.tokenize(self.state, token);
        self
    }
}

/// Whether the transitions out of state `code` are unchanged, apart from the chains, from
/// `before` to `after`.
pub open spec fn same_ranges_and_default(
    before: Seq<Option<TransitionTrie>>,
    after: Seq<Option<TransitionTrie>>,
    code: int,
) -> bool {
    &&& ranges_of(after, code) == ranges_of(before, code)
    &&& range_count_of(after, code) == range_count_of(before, code)
    &&& default_of(after, code) == default_of(before, code)
}

impl<State: Data, Symbol: GrammarSymbol> CDFABuilder<State, Symbol, EncodedCDFA<Symbol>> for
    EncodedCDFABuilder<State, Symbol> {
    open spec fn well_formed(&self) -> bool {
        self.tries_wf()
    }

    open spec fn range_room(&self, n: nat) -> bool {
        forall|k: int| range_count_of(self.tries(), k) + n < u32::MAX
    }

    fn new() -> (b: Self)
        ensures
            b.codes() == Seq::<State>::empty(),
            b.alphabet_chars() is None,
            b.accepting_states() == Map::<usize, Option<usize>>::empty(),
            b.tries() == Seq::<Option<TransitionTrie>>::empty(),
            b.token_kinds() == Seq::<Option<Symbol>>::empty(),
            b.start_code() == usize::MAX,
    {
        EncodedCDFABuilder {
            encoder: Encoder::new(),
            alphabet: None,
            accepting: HashMap::new(),
            t_delta: CEHashMap::new(),
            tokenizer: CEHashMap::new(),
            start: usize::MAX,
        }
    }

    fn build(self) -> (res: Result<EncodedCDFA<Symbol>, CDFAError>)
        ensures
            self.start_code() == usize::MAX ==> (res matches Err(CDFAError::BuildErr(m)) && m@
                == "No start state was set"@),
            self.start_code() != usize::MAX && self.start_code() > self.tries().len() ==> (
            res matches Err(CDFAError::BuildErr(m)) && m@ == "Invalid start state"@),
            self.start_code() != usize::MAX && self.start_code() <= self.tries().len() ==> (
            res matches Ok(cdfa) && cdfa.alphabet_chars() == self.alphabet_chars()
                && cdfa.accepting_states() == self.accepting_states() && cdfa.tries()
                == self.tries() && cdfa.token_kinds() == self.token_kinds() && cdfa.spec_start()
                == self.start_code()),
    {
        if self.start == usize::MAX {
            Err(CDFAError::BuildErr(String::from_str("No start state was set")))
        } else if self.start > self.t_delta.size() {
            Err(CDFAError::BuildErr(String::from_str("Invalid start state")))
        } else {
            Ok(
                EncodedCDFA {
                    alphabet: self.alphabet,
                    accepting: self.accepting,
                    t_delta: self.t_delta,
                    tokenizer: self.tokenizer,
                    start: self.start,
                },
            )
        }
    }

    fn set_alphabet(&mut self, chars: &str) -> (b: &mut Self)
        ensures
            b.alphabet_chars() == Some(chars@.to_set()),
            b.codes() == old(self).codes(),
            b.accepting_states() == old(self).accepting_states(),
            b.tries() == old(self).tries(),
            b.token_kinds() == old(self).token_kinds(),
            b.start_code() == old(self).start_code(),
    {
        let chars = chars_of(chars);
        let mut alphabet = HashedAlphabet::new();
        let mut i: usize = 0;
        while i < chars.len()
            invariant
                i <= chars@.len(),
                alphabet.chars() == chars@.take(i as int).to_set(),
            decreases chars@.len() - i,
        {
            alphabet.insert(chars[i]);
            assert(chars@.take(i + 1) =~= chars@.take(i as int).push(chars@[i as int]));
            proof {
                chars@.take(i as int).lemma_push_to_set_commute(chars@[i as int]);
            }
            i += 1;
        }
        assert(chars@.take(i as int) =~= chars@);
        self.alphabet = Some(alphabet);
        self
    }

    fn accept(&mut self, state: &State) -> (b: &mut Self)
        ensures
            Self::accept_effect(*old(self), *b, *state),

    {
        let state_encoded = self.encoder.encode(state);
        if !self.accepting.contains_key(&state_encoded) {
            self.accepting.insert(state_encoded, None);
        }
        self
    }

    fn accept_to(&mut self, state: &State, to: &State) -> (b: &mut Self)
        ensures
            Self::accept_to_effect(*old(self), *b, *state, *to),

    {
        let state_encoded = self.encoder.encode(state);
        let to_encoded = self.encoder.encode(to);
        self.accepting.insert(state_encoded, Some(to_encoded));
        self
    }

    fn mark_start(&mut self, state: &State) -> (b: &mut Self)
        ensures
            old(self).start_code() == usize::MAX && exact::<State>() ==> {
                let (codes, k) = encode_spec(old(self).codes(), *state);
                &&& b.codes() == codes
                &&& b.start_code() == k
            },
            old(self).start_code() != usize::MAX ==> *b == *old(self),
            b.alphabet_chars() == old(self).alphabet_chars(),
            b.accepting_states() == old(self).accepting_states(),
            b.tries() == old(self).tries(),
            b.token_kinds() == old(self).token_kinds(),
    {
        if self.start == usize::MAX {
            self.start = self.encoder.encode(state);
        }
        self
    }

    fn mark_trans(&mut self, from: &State, transit: Transit<State>, on: char) -> (res: Result<
        &mut Self,
        CDFAError,
    >)
        ensures
            Self::mark_trans_effect(
                *old(self),
                match res {
                    Ok(b) => *b,
                    Err(_) => *final(self),
                },
                *from, transit, on,
                res is Ok,
            ),
            res matches Err(e) ==> build_err(e, "Transition trie contains duplicate matchers"@),
    {
        let from_encoded = self.encoder.encode(from);
        let transit_encoded = self.encode_transit(transit);
        let ghost before = self.tries();
        let mut t_trie = self.take_trie(from_encoded);
        let r = t_trie.insert(on, transit_encoded);
        self.put_trie(from_encoded, t_trie, Ghost(before));
        proof {
            assert forall|n: nat| #[trigger] old(self).range_room(n) implies self.range_room(n) by {
                assert forall|k: int| range_count_of(self.tries(), k) + n < u32::MAX by {
                    assert(range_count_of(old(self).tries(), k) + n < u32::MAX);
                    if k != from_encoded {
                        assert(trie_of(self.tries(), k) == trie_of(before, k));
                    }
                }
            }
        }
        match r {
            Ok(()) => Ok(self),
            Err(e) => Err(e),
        }
    }

    fn mark_chain(&mut self, from: &State, transit: Transit<State>, on: &str) -> (res: Result<
        &mut Self,
        CDFAError,
    >)
        ensures
            Self::mark_chain_effect(
                *old(self),
                match res {
                    Ok(b) => *b,
                    Err(_) => *final(self),
                },
                *from, transit, on@,
                res is Ok,
            ),
            res matches Err(e) ==> build_err(e, "Transition trie contains duplicate matchers"@),
    {
        let from_encoded = self.encoder.encode(from);
        let transit_encoded = self.encode_transit(transit);
        let chars = chars_of(on);
        let ghost before = self.tries();
        let mut t_trie = self.take_trie(from_encoded);
        let r = t_trie.insert_chain(chars.as_slice(), transit_encoded);
        self.put_trie(from_encoded, t_trie, Ghost(before));
        proof {
            assert forall|n: nat| #[trigger] old(self).range_room(n) implies self.range_room(n) by {
                assert forall|k: int| range_count_of(self.tries(), k) + n < u32::MAX by {
                    assert(range_count_of(old(self).tries(), k) + n < u32::MAX);
                    if k != from_encoded {
                        assert(trie_of(self.tries(), k) == trie_of(before, k));
                    }
                }
            }
        }
        match r {
            Ok(()) => Ok(self),
            Err(e) => Err(e),
        }
    }

    fn mark_range(
        &mut self,
        from: &State,
        transit: Transit<State>,
        start: char,
        end: char,
    ) -> (res: Result<&mut Self, CDFAError>)
        ensures
            Self::mark_range_effect(
                *old(self),
                match res {
                    Ok(b) => *b,
                    Err(_) => *final(self),
                },
                *from, transit, start, end,
                res is Ok,
            ),
            res matches Err(e) ==> build_err(e, "Range matcher error: Intervals overlap"@),
    {
        let from_encoded = self.encoder.encode(from);
        let transit_encoded = self.encode_transit(transit);
        let ghost before = self.tries();
        assert(range_count_of(old(self).tries(), from_encoded as int) + 1 < u32::MAX);
        let mut t_trie = self.take_trie(from_encoded);
        let r = t_trie.insert_range((start as u32)..=(end as u32), transit_encoded);
        self.put_trie(from_encoded, t_trie, Ghost(before));
        proof {
            assert forall|n: nat| #[trigger] old(self).range_room(n + 1) implies self.range_room(n) by {
                assert forall|k: int| range_count_of(self.tries(), k) + n < u32::MAX by {
                    assert(range_count_of(old(self).tries(), k) + (n + 1) < u32::MAX);
                    if k != from_encoded {
                        assert(trie_of(self.tries(), k) == trie_of(before, k));
                    }
                }
            }
        }
        match r {
            Ok(()) => Ok(self),
            Err(e) => Err(e),
        }
    }

    fn mark_range_for_all(
        &mut self,
        sources: &[&State],
        transit: Transit<State>,
        start: char,
        end: char,
    ) -> (res: Result<&mut Self, CDFAError>)
        ensures
            ({
                let b = match res {
                    Ok(b) => *b,
                    Err(_) => *final(self),
                };
                &&& old(self).same_settings(&b)
                &&& sources@.len() == 0 ==> res is Ok && b == *old(self)
                &&& forall|n: nat| #[trigger] old(self).range_room(n + sources@.len()) ==> b.range_room(n)
            }),
            res matches Ok(b) ==> exists|steps: Seq<Self>|
                #[trigger] Self::range_chain_effect(*old(self), *b, steps, states_of(sources@), transit, start, end),
            res is Err ==> exists|k: int, steps: Seq<Self>|
                0 <= k < sources@.len() && #[trigger] Self::range_chain_effect(*old(self), steps.last(), steps, states_of(sources@).take(k), transit, start, end)
                && Self::mark_range_effect(steps.last(), *final(self), states_of(sources@)[k], transit, start, end, false),
            res matches Err(e) ==> build_err(e, "Range matcher error: Intervals overlap"@),
    {
        let ghost srcs = states_of(sources@);
        let ghost mut steps = seq![*self];
        let mut i: usize = 0;
        while i < sources.len()
            invariant
                i <= sources@.len(),
                srcs == states_of(sources@),
                self.well_formed(),
                self.range_room((sources@.len() - i) as nat),
                forall|n: nat| #[trigger] old(self).range_room(n + sources@.len()) ==> self.range_room((n + (sources@.len() - i)) as nat),
                old(self).same_settings(&*self),
                sources@.len() == 0 ==> *self == *old(self),
                Self::range_chain_effect(*old(self), *self, steps, srcs.take(i as int), transit, start, end),
            decreases sources@.len() - i,
        {
            let t = copy_transit(&transit);
            let ghost rest = (sources@.len() - i - 1) as nat;
            assert(self.range_room(rest + 1));
            let ghost mid = *self;
            match self.mark_range(sources[i], t, start, end) {
                Ok(b) => {
                    assert(b.range_room(rest));
                    assert forall|n: nat| #[trigger] old(self).range_room(n + sources@.len()) implies b.range_room(n + rest) by {
                        assert(mid.range_room((n + rest) + 1));
                    }
                    proof {
                        if exact::<State>() {
                            assert(t == transit);
                        }
                        assert(Self::mark_range_effect(mid, *b, srcs[i as int], transit, start, end, true));
                        let ghost next = steps.push(*b);
                        assert forall|k: int| 0 <= k < i + 1 implies Self::mark_range_effect(#[trigger] next[k], next[k + 1], srcs.take(i + 1)[k], transit, start, end, true) by {
                            if k < i {
                                assert(next[k] == steps[k] && next[k + 1] == steps[k + 1]);
                                assert(srcs.take(i + 1)[k] == srcs.take(i as int)[k]);
                                assert(Self::mark_range_effect(steps[k], steps[k + 1], srcs.take(i as int)[k], transit, start, end, true));
                            } else {
                                assert(next[k] == mid);
                            }
                        }
                        steps = next;
                    }
                },
                Err(e) => {
                    proof {
                        assert forall|n: nat| #[trigger] old(self).range_room(n + sources@.len()) implies self.range_room(n) by {
                            assert(mid.range_room((n + rest) + 1));
                            assert(self.range_room(n + rest));
                        }
                        if exact::<State>() {
                            assert(t == transit);
                        }
                        assert(Self::mark_range_effect(mid, *self, srcs[i as int], transit, start, end, false));
                        assert(Self::range_chain_effect(*old(self), steps.last(), steps, srcs.take(i as int), transit, start, end));
                        assert(exists|k: int, st: Seq<Self>|
                            0 <= k < srcs.len() && #[trigger] Self::range_chain_effect(*old(self), st.last(), st, srcs.take(k), transit, start, end)
                            && Self::mark_range_effect(st.last(), *self, srcs[k], transit, start, end, false));
                    }
                    return Err(e);
                },
            }
            i += 1;
        }
        proof {
            assert(srcs.take(i as int) =~= srcs);
            assert(Self::range_chain_effect(*old(self), *self, steps, srcs, transit, start, end));
            assert(exists|st: Seq<Self>| #[trigger] Self::range_chain_effect(*old(self), *self, st, srcs, transit, start, end));
        }
        Ok(self)
    }

    fn default_to(&mut self, from: &State, transit: Transit<State>) -> (res: Result<
        &mut Self,
        CDFAError,
    >)
        ensures
            Self::default_to_effect(
                *old(self),
                match res {
                    Ok(b) => *b,
                    Err(_) => *final(self),
                },
                *from, transit,
                res is Ok,
            ),
            res matches Err(e) ==> build_err(e, "Default matcher used twice"@),
    {
        let from_encoded = self.encoder.encode(from);
        let transit_encoded = self.encode_transit(transit);
        let ghost before = self.tries();
        let mut t_trie = self.take_trie(from_encoded);
        let r = t_trie.set_default(transit_encoded);
        self.put_trie(from_encoded, t_trie, Ghost(before));
        proof {
            assert forall|n: nat| #[trigger] old(self).range_room(n) implies self.range_room(n) by {
                assert forall|k: int| range_count_of(self.tries(), k) + n < u32::MAX by {
                    assert(range_count_of(old(self).tries(), k) + n < u32::MAX);
                    if k != from_encoded {
                        assert(trie_of(self.tries(), k) == trie_of(before, k));
                    }
                }
            }
        }
        match r {
            Ok(()) => Ok(self),
            Err(e) => Err(e),
        }
    }

    fn tokenize(&mut self, state: &State, token: &Symbol) -> (b: &mut Self)
        ensures
            Self::tokenize_effect(*old(self), *b, *state, *token),

    {
        let state_encoded = self.encoder.encode(state);
        proof {
            assert(self.encoder@.len() <= usize::MAX);
        }
        self.tokenizer.insert(state_encoded, token.clone());
        self
    }
}

/// Returns a transit with the same consumer strategy as `transit` and clones of its states.
fn copy_transit<S: Data>(transit: &Transit<S>) -> (t: Transit<S>)
    ensures
        clones_exactly::<S>() ==> t == *transit,
{
    let acceptor_destination = match &transit.acceptor_destination {
        Some(a) => {
            let b = a.clone();
            proof {
                if clones_exactly::<S>() {
                    assert(cloned(*a, b));
                }
            }
            Some(b)
        },
        None => None,
    };
    let dest = transit.dest.clone();
    proof {
        if clones_exactly::<S>() {
            assert(cloned(transit.dest, dest));
        }
    }
    Transit { dest, consumer: transit.consumer, acceptor_destination }
}

/// Encoded CDFA: a compressed deterministic finite automaton whose states are integer codes,
/// with the transitions out of each state held in a transition trie.
pub struct EncodedCDFA<Symbol: GrammarSymbol> {
    alphabet: Option<HashedAlphabet>,
    accepting: HashMap<usize, Option<usize>>,
    t_delta: CEHashMap<TransitionTrie>,
    tokenizer: CEHashMap<Symbol>,
    start: usize,
}

impl<Symbol: GrammarSymbol> EncodedCDFA<Symbol> {
    #[verifier::type_invariant]
    closed spec fn tries_wf(&self) -> bool {
        forall|k: int| #[trigger] trie_of(self.t_delta@, k) matches Some(t) ==> t.wf()
    }

    /// The alphabet, if one was set.
    pub closed spec fn alphabet_chars(&self) -> Option<Set<char>> {
        match self.alphabet {
            Some(a) => Some(a.chars()),
            None => None,
        }
    }

    /// The accepting states, each with its acceptor destination, if any.
    pub closed spec fn accepting_states(&self) -> Map<usize, Option<usize>> {
        self.accepting@
    }

    /// The transition trie of each state.
    pub closed spec fn tries(&self) -> Seq<Option<TransitionTrie>> {
        self.t_delta@
    }

    /// The token kind of each state.
    pub closed spec fn token_kinds(&self) -> Seq<Option<Symbol>> {
        self.tokenizer@
    }

    /// The code of the start state.
    pub closed spec fn start_code(&self) -> usize {
        self.start
    }

    /// Returns an iterator over the token kinds the CDFA can produce, by increasing state code.
    pub fn produces(&self) -> (it: CEHashMapIterator<'_, Symbol>)
        ensures
            it.slots() == self.token_kinds(),
            it.position() == 0,
    {
        self.tokenizer.iter()
    }
}

impl<Symbol: GrammarSymbol> CDFA<usize, Symbol> for EncodedCDFA<Symbol> {
    open spec fn spec_transition(&self, state: usize, input: Seq<char>) -> TransitionResult<usize> {
        match trie_of(self.tries(), state as int) {
            None => TransitionResult::Fail,
            Some(t) => t.spec_transition(input),
        }
    }

    open spec fn spec_alphabet_contains(&self, c: char) -> bool {
        match self.alphabet_chars() {
            Some(chars) => chars.contains(c),
            None => true,
        }
    }

    open spec fn spec_accepts(&self, state: usize) -> bool {
        self.accepting_states().contains_key(state)
    }

    open spec fn spec_default_acceptor_destination(&self, state: usize) -> Option<usize> {
        if self.accepting_states().contains_key(state) {
            self.accepting_states()[state]
        } else {
            None
        }
    }

    open spec fn spec_tokenize(&self, state: usize) -> Option<Symbol> {
        trie_kind(self.token_kinds(), state as int)
    }

    open spec fn spec_start(&self) -> usize {
        self.start_code()
    }

    fn transition(&self, state: &usize, input: &[char]) -> (r: TransitionResult<usize>) {
        proof {
            use_type_invariant(self);
        }
        match self.t_delta.get(*state) {
            None => TransitionResult::Fail,
            Some(t_trie) => {
                assert(trie_of(self.tries(), *state as int) == Some(*t_trie));
                let r = t_trie.transition(input);
                proof {
                    lemma_transition_consumed(*t_trie, input@);
                }
                r
            },
        }
    }

    fn alphabet_contains(&self, c: char) -> (r: bool) {
        match &self.alphabet {
            Some(alphabet) => alphabet.contains(c),
            None => true,
        }
    }

    fn accepts(&self, state: &usize) -> (r: bool) {
        self.accepting.contains_key(state)
    }

    fn default_acceptor_destination(&self, state: &usize) -> (r: Option<usize>) {
        match self.accepting.get(state) {
            Some(Some(acceptor_destination)) => Some(*acceptor_destination),
            _ => None,
        }
    }

    fn tokenize(&self, state: &usize) -> (r: Option<Symbol>) {
        match self.tokenizer.get(*state) {
            None => None,
            Some(dest) => {
                let d = dest.clone();
                proof {
                    if clones_exactly::<Symbol>() {
                        assert(cloned(*dest, d));
                    }
                }
                Some(d)
            },
        }
    }

    fn start(&self) -> (r: usize) {
        self.start
    }
}

/// A CDFA whose transits are all plain consumes input on every transition, and none of its
/// transitions carries an acceptor destination.
pub proof fn lemma_cdfa_plain<Symbol: GrammarSymbol>(cdfa: &EncodedCDFA<Symbol>)
    requires
        plain_tries(cdfa.tries()),
    ensures
        transitions_consume(cdfa),
        transitions_without_destinations(cdfa),
{
    assert forall|s: usize, w: Seq<char>| #[trigger]
        cdfa.spec_transition(s, w) is Pass implies cdfa.spec_transition(s, w)->Pass_0.acceptor_destination
        is None by {
        match trie_of(cdfa.tries(), s as int) {
            None => {},
            Some(t) => {
                let k = longest_chain(t.chains(), w, w.len() as int);
                lemma_longest_chain_found(t.chains(), w, w.len() as int);
                if w.len() > 0 && k > 0 {
                    assert(chains_of(cdfa.tries(), s as int).contains_key(w.take(k)));
                } else if w.len() > 0 {
                    match range_match(t.ranges(), w[0]) {
                        Some(r) => {
                            let e = choose|e: (int, int, Transit<usize>)| #[trigger]
                                t.ranges().contains(e) && covers(e.0, e.1, w[0] as u32 as int);
                            assert(ranges_of(cdfa.tries(), s as int).contains(e));
                        },
                        None => {
                            assert(default_of(cdfa.tries(), s as int) == t.default_transit());
                        },
                    }
                }
            },
        }
    }
    lemma_cdfa_consumes(cdfa);
}

/// A CDFA whose transits are all plain, and whose accepting states have no acceptor
/// destinations, consumes input on every transition and has no default acceptor destinations.
pub proof fn lemma_cdfa_consumes<Symbol: GrammarSymbol>(cdfa: &EncodedCDFA<Symbol>)
    requires
        plain_tries(cdfa.tries()),
    ensures
        transitions_consume(cdfa),
        no_destinations(cdfa.accepting_states()) ==> no_default_destinations(cdfa),
{
    assert forall|s: usize, w: Seq<char>| w.len() <= usize::MAX implies (
    #[trigger] cdfa.spec_transition(s, w) matches TransitionResult::Pass(d) ==> d.consumed >= 1) by {
        match trie_of(cdfa.tries(), s as int) {
            None => {},
            Some(t) => {
                let k = longest_chain(t.chains(), w, w.len() as int);
                lemma_longest_chain_found(t.chains(), w, w.len() as int);
                if w.len() > 0 && k > 0 {
                    assert(chains_of(cdfa.tries(), s as int).contains_key(w.take(k)));
                } else if w.len() > 0 {
                    match range_match(t.ranges(), w[0]) {
                        Some(r) => {
                            let e = choose|e: (int, int, Transit<usize>)| #[trigger]
                                t.ranges().contains(e) && covers(e.0, e.1, w[0] as u32 as int);
                            assert(ranges_of(cdfa.tries(), s as int).contains(e));
                        },
                        None => {
                            assert(default_of(cdfa.tries(), s as int) == t.default_transit());
                        },
                    }
                }
            },
        }
    }
    if no_destinations(cdfa.accepting_states()) {
        assert forall|s: usize| #[trigger] cdfa.spec_default_acceptor_destination(s) is None by {
            if cdfa.accepting_states().contains_key(s) {
                assert(cdfa.accepting_states()[s] is None);
            }
        }
    }
}

/// Whether `state` accepts, in the accepting states `accepting`, with an acceptor destination
/// other than itself: a scan starting there accepts without consuming input.
pub open spec fn zero_accepting(accepting: Map<usize, Option<usize>>, state: usize) -> bool {
    accepting.contains_key(state) && accepting[state] is Some && accepting[state]->0 != state
}

/// Whether every scan that starts in a zero-accepting state, the start state `start` or an
/// acceptor destination, continues from a state that is not zero-accepting.
pub open spec fn settled(accepting: Map<usize, Option<usize>>, start: usize) -> bool {
    &&& zero_accepting(accepting, start) ==> !zero_accepting(accepting, accepting[start]->0)
    &&& forall|t: usize|
        #[trigger] accepting.contains_key(t) && accepting[t] is Some && zero_accepting(
            accepting,
            accepting[t]->0,
        ) ==> !zero_accepting(accepting, accepting[accepting[t]->0]->0)
}

/// A CDFA whose accepting states are settled lets every zero-length acceptance settle.
pub proof fn lemma_cdfa_settles<Symbol: GrammarSymbol>(cdfa: &EncodedCDFA<Symbol>)
    requires
        settled(cdfa.accepting_states(), cdfa.spec_start()),
    ensures
        zero_acceptances_settle(cdfa),
{
    let acc = cdfa.accepting_states();
    assert forall|s: usize|
        can_start(cdfa, s) && #[trigger] zero_acceptor(cdfa, s) implies !zero_acceptor(
        cdfa,
        cdfa.spec_default_acceptor_destination(s)->0,
    ) by {
        assert(zero_accepting(acc, s));
        if s != cdfa.spec_start() {
            let t = choose|t: usize| #[trigger] cdfa.spec_default_acceptor_destination(t) == Some(s);
            assert(acc.contains_key(t) && acc[t] == Some(s));
        }
        let d = acc[s]->0;
        assert(cdfa.spec_default_acceptor_destination(s) == Some(d));
        assert(!zero_accepting(acc, d));
    }
}

/// The pattern of a builder of a CDFA with plain transits: well formed, all its transits plain,
/// and all its accepting states encoded.
pub open spec fn plain_builder<State: Data, Symbol: GrammarSymbol>(
    b: EncodedCDFABuilder<State, Symbol>,
) -> bool {
    &&& b.well_formed()
    &&& plain_tries(b.tries())
    &&& forall|k: usize| #[trigger] b.accepting_states().contains_key(k) ==> k < b.codes().len()
}

/// Whether `after` has the accepting states of `before`, and at least its codes.
pub open spec fn keeps_accepting<State: Data, Symbol: GrammarSymbol>(
    before: EncodedCDFABuilder<State, Symbol>,
    after: EncodedCDFABuilder<State, Symbol>,
) -> bool {
    &&& after.accepting_states() == before.accepting_states()
    &&& after.codes().len() >= before.codes().len()
}

/// Encoding the states of a transit never loses codes.
proof fn lemma_encode_transit_grows<State: Data>(codes: Seq<State>, transit: Transit<State>)
    ensures
        encode_transit_spec(codes, transit).0.len() >= codes.len(),
        transit.consumer == ConsumerStrategy::All && transit.acceptor_destination is None
            ==> plain_transit(encode_transit_spec(codes, transit).1),
{
    lemma_encode_grows(codes, transit.dest);
    let (c1, d) = encode_spec(codes, transit.dest);
    match transit.acceptor_destination {
        Some(a) => lemma_encode_grows(c1, a),
        None => {},
    }
}

/// Marks `state` as the start state.
pub(crate) fn plain_start<State: Data, Symbol: GrammarSymbol>(
    b: &mut EncodedCDFABuilder<State, Symbol>,
    state: &State,
)
    requires
        exact::<State>(),
        plain_builder(*old(b)),
    ensures
        EncodedCDFABuilder::mark_start_effect(*old(b), *final(b), *state),
        plain_builder(*final(b)),
        keeps_accepting(*old(b), *final(b)),
        final(b).tries() == old(b).tries(),
{
    proof {
        lemma_encode_grows(b.codes(), *state);
    }
    b.mark_start(state);
}

/// Sets the alphabet to the characters of `chars`.
pub(crate) fn plain_alphabet<State: Data, Symbol: GrammarSymbol>(
    b: &mut EncodedCDFABuilder<State, Symbol>,
    chars: &str,
)
    requires
        plain_builder(*old(b)),
    ensures
        plain_builder(*final(b)),
        keeps_accepting(*old(b), *final(b)),
        final(b).tries() == old(b).tries(),
{
    b.set_alphabet(chars);
}

/// Adds the plain transition from `from` to `to` on `on`.
pub(crate) fn plain_trans<State: Data, Symbol: GrammarSymbol>(
    b: &mut EncodedCDFABuilder<State, Symbol>,
    from: &State,
    to: State,
    on: char,
) -> (r: Result<(), CDFAError>)
    requires
        exact::<State>(),
        plain_builder(*old(b)),
    ensures
        EncodedCDFABuilder::mark_trans_effect(*old(b), *final(b), *from, Transit { dest: to, consumer: ConsumerStrategy::All, acceptor_destination: None }, on, r is Ok),
        plain_builder(*final(b)),
        keeps_accepting(*old(b), *final(b)),
        forall|n: nat| #[trigger] room_within(old(b).tries(), n) ==> room_within(final(b).tries(), n),
{
    let ghost before = *b;
    let transit = Transit::to(to);
    let res = b.mark_trans(from, transit, on);
    let out = match res {
        Ok(_) => Ok(()),
        Err(e) => Err(e),
    };
    proof {
        let (c1, f) = encode_spec(before.codes(), *from);
        lemma_encode_grows(before.codes(), *from);
        lemma_encode_transit_grows(c1, transit);
        let (c2, t) = encode_transit_spec(c1, transit);
        lemma_chain_keeps_plain(before.tries(), b.tries(), f, t, seq![on]);
    }
    out
}

/// Adds the plain chain transition from `from` to `to` on the characters of `on`.
pub(crate) fn plain_chain<State: Data, Symbol: GrammarSymbol>(
    b: &mut EncodedCDFABuilder<State, Symbol>,
    from: &State,
    to: State,
    on: &str,
) -> (r: Result<(), CDFAError>)
    requires
        exact::<State>(),
        plain_builder(*old(b)),
    ensures
        EncodedCDFABuilder::mark_chain_effect(*old(b), *final(b), *from, Transit { dest: to, consumer: ConsumerStrategy::All, acceptor_destination: None }, on@, r is Ok),
        plain_builder(*final(b)),
        keeps_accepting(*old(b), *final(b)),
        forall|n: nat| #[trigger] room_within(old(b).tries(), n) ==> room_within(final(b).tries(), n),
{
    let ghost before = *b;
    let transit = Transit::to(to);
    let res = b.mark_chain(from, transit, on);
    let out = match res {
        Ok(_) => Ok(()),
        Err(e) => Err(e),
    };
    proof {
        let (c1, f) = encode_spec(before.codes(), *from);
        lemma_encode_grows(before.codes(), *from);
        lemma_encode_transit_grows(c1, transit);
        let (c2, t) = encode_transit_spec(c1, transit);
        lemma_chain_keeps_plain(before.tries(), b.tries(), f, t, on@);
    }
    out
}

/// Adds the plain transitions from `from` to `to` on each character from `start` to `end`,
/// using one unit of range room.
pub(crate) fn plain_range<State: Data, Symbol: GrammarSymbol>(
    b: &mut EncodedCDFABuilder<State, Symbol>,
    from: &State,
    to: State,
    start: char,
    end: char,
    Ghost(n): Ghost<nat>,
) -> (r: Result<(), CDFAError>)
    requires
        exact::<State>(),
        plain_builder(*old(b)),
        room_within(old(b).tries(), n + 1),
    ensures
        EncodedCDFABuilder::mark_range_effect(*old(b), *final(b), *from, Transit { dest: to, consumer: ConsumerStrategy::All, acceptor_destination: None }, start, end, r is Ok),
        plain_builder(*final(b)),
        keeps_accepting(*old(b), *final(b)),
        room_within(final(b).tries(), n),
{
    proof {
        assert forall|k: int| #[trigger] range_count_of(b.tries(), k) + 1 < u32::MAX by {
            assert(room_within(b.tries(), n + 1));
        }
    }
    let ghost before = *b;
    let transit = Transit::to(to);
    let res = b.mark_range(from, transit, start, end);
    let out = match res {
        Ok(_) => Ok(()),
        Err(e) => Err(e),
    };
    proof {
        let (c1, f) = encode_spec(before.codes(), *from);
        lemma_encode_grows(before.codes(), *from);
        lemma_encode_transit_grows(c1, transit);
        let (c2, t) = encode_transit_spec(c1, transit);
        lemma_range_keeps_plain(
            before.tries(),
            b.tries(),
            f,
            t,
            start as u32 as int,
            end as u32 as int,
        );
        assert(before.range_room(n + 1));
    }
    out
}

/// Adds the plain default transition from `from` to `to`.
pub(crate) fn plain_default<State: Data, Symbol: GrammarSymbol>(
    b: &mut EncodedCDFABuilder<State, Symbol>,
    from: &State,
    to: State,
) -> (r: Result<(), CDFAError>)
    requires
        exact::<State>(),
        plain_builder(*old(b)),
    ensures
        EncodedCDFABuilder::default_to_effect(*old(b), *final(b), *from, Transit { dest: to, consumer: ConsumerStrategy::All, acceptor_destination: None }, r is Ok),
        plain_builder(*final(b)),
        keeps_accepting(*old(b), *final(b)),
        forall|n: nat| #[trigger] room_within(old(b).tries(), n) ==> room_within(final(b).tries(), n),
{
    let ghost before = *b;
    let transit = Transit::to(to);
    let res = b.default_to(from, transit);
    let out = match res {
        Ok(_) => Ok(()),
        Err(e) => Err(e),
    };
    proof {
        let (c1, f) = encode_spec(before.codes(), *from);
        lemma_encode_grows(before.codes(), *from);
        lemma_encode_transit_grows(c1, transit);
        let (c2, t) = encode_transit_spec(c1, transit);
        lemma_default_keeps_plain(before.tries(), b.tries(), f, t);
    }
    out
}

/// Marks `state` as accepting, with no acceptor destination.
pub(crate) fn plain_accept<State: Data, Symbol: GrammarSymbol>(
    b: &mut EncodedCDFABuilder<State, Symbol>,
    state: &State,
)
    requires
        exact::<State>(),
        plain_builder(*old(b)),
    ensures
        EncodedCDFABuilder::accept_effect(*old(b), *final(b), *state),
        plain_builder(*final(b)),
        final(b).tries() == old(b).tries(),
        no_destinations(old(b).accepting_states()) ==> no_destinations(final(b).accepting_states()),
{
    let ghost before = *b;
    proof {
        lemma_encode_grows(b.codes(), *state);
    }
    b.accept(state);
    proof {
        let (codes, k) = encode_spec(before.codes(), *state);
        if no_destinations(before.accepting_states()) {
            assert forall|j: usize| #[trigger] b.accepting_states().contains_key(j) implies b.accepting_states()[j]
                is None by {
                if j != k as usize {
                    assert(before.accepting_states().contains_key(j));
                } else if before.accepting_states().contains_key(j) {
                    assert(before.accepting_states()[j] is None);
                }
            }
        }
        assert forall|j: usize| #[trigger] b.accepting_states().contains_key(j) implies j < b.codes().len() by {
            if j != k as usize {
                assert(before.accepting_states().contains_key(j));
            }
        }
    }
}

/// Marks `state` as accepting, with acceptor destination `to`.
pub(crate) fn plain_accept_to<State: Data, Symbol: GrammarSymbol>(
    b: &mut EncodedCDFABuilder<State, Symbol>,
    state: &State,
    to: &State,
)
    requires
        exact::<State>(),
        plain_builder(*old(b)),
    ensures
        EncodedCDFABuilder::accept_to_effect(*old(b), *final(b), *state, *to),
        plain_builder(*final(b)),
        final(b).tries() == old(b).tries(),
{
    let ghost before = *b;
    proof {
        lemma_encode_grows(b.codes(), *state);
        let (c1, k) = encode_spec(b.codes(), *state);
        lemma_encode_grows(c1, *to);
    }
    b.accept_to(state, to);
    proof {
        let (c1, k) = encode_spec(before.codes(), *state);
        assert forall|j: usize| #[trigger] b.accepting_states().contains_key(j) implies j < b.codes().len() by {
            if j != k as usize {
                assert(before.accepting_states().contains_key(j));
            }
        }
    }
}

/// Marks `state` as producing tokens of kind `token`.
pub(crate) fn plain_token<State: Data, Symbol: GrammarSymbol>(
    b: &mut EncodedCDFABuilder<State, Symbol>,
    state: &State,
    token: &Symbol,
)
    requires
        exact::<State>(),
        plain_builder(*old(b)),
    ensures
        EncodedCDFABuilder::tokenize_effect(*old(b), *final(b), *state, *token),
        plain_builder(*final(b)),
        keeps_accepting(*old(b), *final(b)),
        final(b).tries() == old(b).tries(),
{
    proof {
        lemma_encode_grows(b.codes(), *state);
    }
    b.tokenize(state, token);
}

impl<State: Data, Symbol: GrammarSymbol> EncodedCDFABuilder<State, Symbol> {
    /// Returns true if `state` accepts with an acceptor destination other than itself.
    fn zero_accepting_code(&self, state: usize) -> (b: bool)
        ensures
            b == zero_accepting(self.accepting_states(), state),
    {
        match self.accepting.get(&state) {
            Some(Some(d)) => *d != state,
            _ => false,
        }
    }

    /// The acceptor destination of `state`, if it accepts with one.
    fn destination_code(&self, state: usize) -> (d: Option<usize>)
        ensures
            d == if self.accepting_states().contains_key(state) {
                self.accepting_states()[state]
            } else {
                None
            },
    {
        match self.accepting.get(&state) {
            Some(Some(d)) => Some(*d),
            _ => None,
        }
    }

    /// Returns true if, in the CDFA this builder builds, every scan that starts in a state
    /// accepting without consuming input continues from a state that does not; lexing then
    /// terminates.
    pub fn zero_acceptances_settle(&self) -> (b: bool)
        requires
            forall|k: usize| #[trigger] self.accepting_states().contains_key(k) ==> k < self.codes().len(),
        ensures
            b <==> settled(self.accepting_states(), self.start_code()),
    {
        let ghost acc = self.accepting_states();
        if self.zero_accepting_code(self.start) {
            match self.destination_code(self.start) {
                Some(d) => {
                    if self.zero_accepting_code(d) {
                        return false;
                    }
                },
                None => {},
            }
        }
        assert(zero_accepting(acc, self.start_code()) ==> !zero_accepting(acc, acc[self.start_code()]->0));
        let n = self.encoder.len();
        let mut k: usize = 0;
        while k < n
            invariant
                k <= n,
                n == self.codes().len(),
                acc == self.accepting_states(),
                zero_accepting(acc, self.start_code()) ==> !zero_accepting(acc, acc[self.start_code()]->0),
                forall|j: usize| #[trigger] acc.contains_key(j) ==> j < n,
                forall|t: usize|
                    t < k && #[trigger] acc.contains_key(t) && acc[t] is Some && zero_accepting(
                        acc,
                        acc[t]->0,
                    ) ==> !zero_accepting(acc, acc[acc[t]->0]->0),
            decreases n - k,
        {
            match self.destination_code(k) {
                Some(s) => {
                    if self.zero_accepting_code(s) {
                        match self.destination_code(s) {
                            Some(d) => {
                                if self.zero_accepting_code(d) {
                                    assert(acc.contains_key(k) && acc[k] is Some && zero_accepting(acc, acc[k]->0));
                                    return false;
                                }
                            },
                            None => {},
                        }
                    }
                },
                None => {},
            }
            k += 1;
        }
        true
    }
}

/// The token kind stored for `code`, if any.
pub open spec fn trie_kind<Symbol>(kinds: Seq<Option<Symbol>>, code: int) -> Option<Symbol> {
    if 0 <= code < kinds.len() {
        kinds[code]
    } else {
        None
    }
}

/// A transition out of a trie never consumes more than its input.
proof fn lemma_transition_consumed(t: TransitionTrie, input: Seq<char>)
    ensures
        t.spec_transition(input) matches TransitionResult::Pass(d) ==> d.consumed <= input.len(),
{
    lemma_longest_chain_found(t.chains(), input, input.len() as int);
}


/// The longest chain wins: where the input starts with a chain of `k` characters and with no
/// longer chain, the transition is taken through that chain, consuming `k` characters (or none,
/// for a non-consuming transit), whatever ranges and default the trie has.
pub proof fn law_longest_chain_wins(
    chains: Map<Seq<char>, Transit<usize>>,
    ranges: Set<(int, int, Transit<usize>)>,
    default: Option<Transit<usize>>,
    input: Seq<char>,
    k: int,
)
    requires
        1 <= k <= input.len(),
        chains.contains_key(input.take(k)),
        forall|j: int| k < j <= input.len() ==> !chains.contains_key(#[trigger] input.take(j)),
    ensures
        trie_transition(chains, ranges, default, input) == transit_result(chains[input.take(k)], k),
{
    lemma_longest_chain_stable(chains, input, k, input.len() as int);
}

/// Ranges come before the default: where no chain prefixes the input and a range covers its
/// first character, the transition is taken through that range, over one character.
pub proof fn law_range_before_default(
    chains: Map<Seq<char>, Transit<usize>>,
    ranges: Set<(int, int, Transit<usize>)>,
    default: Option<Transit<usize>>,
    input: Seq<char>,
    t: Transit<usize>,
)
    requires
        input.len() >= 1,
        forall|j: int| 1 <= j <= input.len() ==> !chains.contains_key(#[trigger] input.take(j)),
        range_match(ranges, input[0]) == Some(t),
    ensures
        trie_transition(chains, ranges, default, input) == transit_result(t, 1),
{
    lemma_longest_chain_stable(chains, input, 0, input.len() as int);
}

/// The default is taken last: where no chain prefixes the input and no range covers its first
/// character, the transition is through the default, if any, over one character.
pub proof fn law_default_last(
    chains: Map<Seq<char>, Transit<usize>>,
    ranges: Set<(int, int, Transit<usize>)>,
    default: Option<Transit<usize>>,
    input: Seq<char>,
)
    requires
        input.len() >= 1,
        forall|j: int| 1 <= j <= input.len() ==> !chains.contains_key(#[trigger] input.take(j)),
        range_match(ranges, input[0]) is None,
    ensures
        trie_transition(chains, ranges, default, input) == match default {
            Some(t) => transit_result(t, 1),
            None => TransitionResult::Fail,
        },
{
    lemma_longest_chain_stable(chains, input, 0, input.len() as int);
}
} // verus!
