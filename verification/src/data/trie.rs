use vstd::prelude::*;

verus! {

/// The number of key bits to multiplex on during traversal of each trie node.
const MUX_WIDTH: u8 = 4;

/// The maximum number of child nodes for each internal trie node (2 to the power `MUX_WIDTH`).
const TREE_WIDTH: usize = 16;

/// The nibble at position `d` of the nibble expansion of `key`: each byte contributes its high
/// nibble, then its low nibble.
pub open spec fn nibble(key: Seq<u8>, d: int) -> u8 {
    if d % 2 == 0 {
        (key[d / 2] / 16) as u8
    } else {
        (key[d / 2] % 16) as u8
    }
}

/// The nibble expansion of `key`, the path followed through the trie for that key.
pub open spec fn nibbles(key: Seq<u8>) -> Seq<u8> {
    Seq::new((2 * key.len()) as nat, |d: int| nibble(key, d))
}

/// Trie: a simple trie data structure, supporting generic value types and byte-slice keys.
///
/// The trie is viewed as the map from each stored key to its value.
pub struct Trie<Value> {
    root: HeapNode<Value>,
}

/// Wrapper around boxed node.
type HeapNode<Value> = Box<Node<Value>>;

/// Node: a tree-node of a trie, with one child slot per nibble value.
struct Node<Value> {
    children: Vec<Option<HeapNode<Value>>>,
    value: Option<Value>,
}

/// The node reached from `n` by following the nibble path `q`, if it exists.
spec fn node_at<V>(n: Node<V>, q: Seq<u8>) -> Option<Node<V>>
    decreases q.len(),
{
    if q.len() == 0 {
        Some(n)
    } else if q[0] < n.children@.len() {
        match n.children@[q[0] as int] {
            Some(c) => node_at(*c, q.drop_first()),
            None => None,
        }
    } else {
        None
    }
}

/// The value stored at nibble path `q` below `n`.
spec fn n_get<V>(n: Node<V>, q: Seq<u8>) -> Option<V> {
    match node_at(n, q) {
        Some(m) => m.value,
        None => None,
    }
}

/// Every node below `n` (which sits at nibble depth `depth`) has a full set of child slots,
/// and stores values only at even depths, i.e. at whole-byte keys.
spec fn node_wf<V>(n: Node<V>, depth: nat) -> bool {
    forall|q: Seq<u8>| slot_ok(#[trigger] node_at(n, q), depth + q.len())
}

/// A node (if present) at nibble depth `depth` has a full set of child slots, and a value
/// only when the depth is even.
spec fn slot_ok<V>(m: Option<Node<V>>, depth: nat) -> bool {
    m matches Some(m) ==> m.children@.len() == TREE_WIDTH && (m.value is Some ==> depth % 2 == 0)
}

/// The deepest value along the nibble path `p` below `n` (including `n` itself), together with
/// the number of nibbles leading to it.
spec fn deepest_value<V>(n: Node<V>, p: Seq<u8>) -> Option<(V, nat)>
    decreases p.len(),
{
    let deeper = if p.len() > 0 && p[0] < n.children@.len() {
        match n.children@[p[0] as int] {
            Some(c) => match deepest_value(*c, p.drop_first()) {
                Some((v, j)) => Some((v, j + 1)),
                None => None,
            },
            None => None,
        }
    } else {
        None
    };
    match deeper {
        Some(r) => Some(r),
        None => match n.value {
            Some(v) => Some((v, 0nat)),
            None => None,
        },
    }
}

proof fn lemma_node_at_step<V>(n: Node<V>, q: Seq<u8>)
    requires
        q.len() > 0,
    ensures
        node_at(n, q) == (if q[0] < n.children@.len() {
            match n.children@[q[0] as int] {
                Some(c) => node_at(*c, q.drop_first()),
                None => None,
            }
        } else {
            None
        }),
{
}

proof fn lemma_wf_child<V>(n: Node<V>, depth: nat, i: int)
    requires
        node_wf(n, depth),
        0 <= i < n.children@.len(),
        n.children@[i] is Some,
        i < 256,
    ensures
        node_wf(*n.children@[i].unwrap(), depth + 1),
{
    let c = *n.children@[i].unwrap();
    assert forall|q: Seq<u8>| slot_ok(#[trigger] node_at(c, q), depth + 1 + q.len()) by {
        let qq = seq![i as u8].add(q);
        assert(qq.drop_first() =~= q);
        lemma_node_at_step(n, qq);
        assert(node_at(n, qq) == node_at(c, q));
    }
}

/// The values found on the path `p` below `n` are those of `deepest_value`: the value at the
/// reported depth, and none deeper.
proof fn lemma_deepest_value<V>(n: Node<V>, p: Seq<u8>)
    ensures
        match deepest_value(n, p) {
            Some((v, j)) => j <= p.len() && n_get(n, p.take(j as int)) == Some(v) && forall|
                k: int,
            |
                j < k <= p.len() ==> #[trigger] n_get(n, p.take(k)) is None,
            None => forall|k: int| 0 <= k <= p.len() ==> #[trigger] n_get(n, p.take(k)) is None,
        },
    decreases p.len(),
{
    assert(p.take(0) =~= Seq::<u8>::empty());
    if p.len() > 0 && p[0] < n.children@.len() {
        if let Some(c) = n.children@[p[0] as int] {
            lemma_deepest_value(*c, p.drop_first());
            assert forall|k: int| 0 < k <= p.len() implies #[trigger] n_get(n, p.take(k)) == n_get(
                *c,
                p.drop_first().take(k - 1),
            ) by {
                lemma_node_at_step(n, p.take(k));
                assert(p.take(k).drop_first() =~= p.drop_first().take(k - 1));
            }
        } else {
            assert forall|k: int| 0 < k <= p.len() implies #[trigger] n_get(n, p.take(k)) is None by {
                lemma_node_at_step(n, p.take(k));
            }
        }
    } else {
        assert forall|k: int| 0 < k <= p.len() implies #[trigger] n_get(n, p.take(k)) is None by {
            lemma_node_at_step(n, p.take(k));
        }
    }
}

/// Helper function to create `HeapNode` objects.
fn new_node<Value>() -> (n: HeapNode<Value>)
    ensures
        n.children@.len() == TREE_WIDTH,
        n.value is None,
        forall|i: int| 0 <= i < TREE_WIDTH ==> #[trigger] n.children@[i] is None,
        forall|q: Seq<u8>| #[trigger] n_get(*n, q) is None,
        forall|d: nat| #[trigger] node_wf(*n, d),
{
    let n = Box::new(Node::new(None));
    assert forall|q: Seq<u8>| #[trigger] n_get(*n, q) is None by {
        if q.len() > 0 {
            lemma_node_at_step(*n, q);
        }
    }
    assert forall|d: nat| #[trigger] node_wf(*n, d) by {
        assert forall|q: Seq<u8>| slot_ok(#[trigger] node_at(*n, q), d + q.len()) by {
            if q.len() > 0 {
                lemma_node_at_step(*n, q);
            }
        }
    }
    n
}

/// Key Sequence: a suffix of a trie key, read one nibble at a time.
///
/// `consumed` bytes of `key` have been read entirely, and `idx` (0 or 4) is the bit offset of
/// the next nibble within the next byte.
struct KeySeq<'key> {
    key: &'key [u8],
    idx: u8,
    consumed: usize,
}

impl<'key> KeySeq<'key> {
    spec fn wf(&self) -> bool {
        &&& self.idx == 0 || self.idx == MUX_WIDTH
        &&& self.consumed <= self.key@.len()
        &&& self.idx == MUX_WIDTH ==> self.consumed < self.key@.len()
    }

    /// The number of nibbles of the key read so far.
    spec fn depth(&self) -> nat {
        (2 * self.consumed + if self.idx == MUX_WIDTH { 1int } else { 0int }) as nat
    }

    /// The nibbles of the key not read yet.
    spec fn rest(&self) -> Seq<u8> {
        nibbles(self.key@).skip(self.depth() as int)
    }

    fn from(key: &'key [u8]) -> (ks: KeySeq<'key>)
        ensures
            ks.wf(),
            ks.key@ == key@,
            ks.depth() == 0,
            ks.rest() == nibbles(key@),
    {
        let ks = KeySeq { key, idx: 0, consumed: 0 };
        assert(ks.rest() =~= nibbles(key@));
        ks
    }

    /// Returns the next multiplexed child node index corresponding with the key sequence.
    fn mux(&self) -> (i: usize)
        requires
            self.wf(),
            self.rest().len() > 0,
        ensures
            i == self.rest()[0],
            i < TREE_WIDTH,
    {
        let b = self.key[self.consumed];
        let shift_offset: u8 = 8 - MUX_WIDTH - self.idx;
        let mask: u8 = ((TREE_WIDTH - 1) as u8) << shift_offset;
        let r = (b & mask) >> shift_offset;
        if self.idx == 0 {
            assert((b & (15u8 << 4u8)) >> 4u8 == b / 16) by (bit_vector);
        } else {
            assert((b & (15u8 << 0u8)) >> 0u8 == b % 16) by (bit_vector);
        }
        r as usize
    }

    /// Consumes the head nibble of the sequence, and returns the tail key sequence.
    fn next(self) -> (ks: Self)
        requires
            self.wf(),
            self.rest().len() > 0,
        ensures
            ks.wf(),
            ks.key@ == self.key@,
            ks.depth() == self.depth() + 1,
            ks.rest() == self.rest().drop_first(),
    {
        let mut ks = self;
        if ks.idx == 8 - MUX_WIDTH {
            assert(ks.consumed < ks.key@.len());
            let len = ks.key.len();
            ks.consumed = ks.consumed + 1;
        }
        ks.idx = (ks.idx + MUX_WIDTH) % 8;
        assert(ks.rest() =~= self.rest().drop_first());
        ks
    }

    /// Returns the number of bytes of the key consumed so far.
    fn consumed(&self) -> (c: usize)
        ensures
            c == self.consumed,
    {
        self.consumed
    }

    /// Returns true if the key has been entirely consumed, false otherwise.
    fn is_empty(&self) -> (b: bool)
        requires
            self.wf(),
        ensures
            b == (self.rest().len() == 0),
    {
        self.consumed == self.key.len()
    }
}

impl<Value> Node<Value> {
    /// Returns a new leaf node with value `value`.
    fn new(value: Option<Value>) -> (n: Self)
        ensures
            n.value == value,
            n.children@.len() == TREE_WIDTH,
            forall|i: int| 0 <= i < TREE_WIDTH ==> #[trigger] n.children@[i] is None,
    {
        let mut children: Vec<Option<HeapNode<Value>>> = Vec::new();
        let mut i: usize = 0;
        while i < TREE_WIDTH
            invariant
                i <= TREE_WIDTH,
                children@.len() == i,
                forall|j: int| 0 <= j < i ==> #[trigger] children@[j] is None,
            decreases TREE_WIDTH - i,
        {
            children.push(None);
            i += 1;
        }
        Node { children, value }
    }

    /// Inserts `value` in the sub-trie rooted at this node at `key`.
    fn insert(&mut self, key: KeySeq, value: Value) -> (res: Result<(), Error>)
        requires
            key.wf(),
            node_wf(*old(self), key.depth()),
            (key.depth() + key.rest().len()) % 2 == 0,
        ensures
            node_wf(*final(self), key.depth()),
            res is Err <==> n_get(*old(self), key.rest()) is Some,
            res is Err ==> forall|q: Seq<u8>| #[trigger] n_get(*final(self), q) == n_get(*old(self), q),
            res is Ok ==> forall|q: Seq<u8>| #[trigger]
                n_get(*final(self), q) == if q == key.rest() {
                    Some(value)
                } else {
                    n_get(*old(self), q)
                },
        decreases key.rest().len(),
    {
        let ghost old_self = *self;
        let ghost p = key.rest();
        let ghost d = key.depth();
        assert(node_at(old_self, Seq::<u8>::empty()) == Some(old_self));
        if key.is_empty() {
            if self.value.is_some() {
                return Err(Error::DuplicateErr);
            }
            self.value = Some(value);
            proof {
                assert forall|q: Seq<u8>| #[trigger]
                    n_get(*self, q) == if q == p { Some(value) } else { n_get(old_self, q) } by {
                    if q.len() > 0 {
                        lemma_node_at_step(*self, q);
                        lemma_node_at_step(old_self, q);
                    } else {
                        assert(q =~= p);
                    }
                }
                assert forall|q: Seq<u8>| slot_ok(#[trigger] node_at(*self, q), d + q.len()) by {
                    if q.len() > 0 {
                        lemma_node_at_step(*self, q);
                        lemma_node_at_step(old_self, q);
                    }
                }
            }
            return Ok(());
        }
        let i = key.mux();
        let ghost i0 = i as int;
        let mut child = match self.children[i].take() {
            Some(c) => c,
            None => new_node(),
        };
        let ghost old_child = *child;
        proof {
            if old_self.children@.index(i0) is Some {
                lemma_wf_child(old_self, d, i0);
            }
            assert(node_wf(old_child, d + 1));
            assert forall|q: Seq<u8>| #[trigger] n_get(old_child, q) == n_get(
                old_self,
                seq![i as u8].add(q),
            ) by {
                let qq = seq![i as u8].add(q);
                assert(qq.drop_first() =~= q);
                lemma_node_at_step(old_self, qq);
            }
        }
        let next = key.next();
        let res = (&mut *child).insert(next, value);
        match res {
            Err(e) => {
                proof {
                    assert(p.drop_first() =~= next.rest());
                    assert(seq![i as u8].add(next.rest()) =~= p);
                }
                self.children.set(i, Some(child));
                proof {
                    if old_self.children@[i0] is None {
                        assert(n_get(old_child, next.rest()) is None);
                        assert(false);
                    }
                    let new_self = *self;
                    assert forall|q: Seq<u8>| #[trigger] n_get(new_self, q) == n_get(old_self, q) by {
                        if q.len() > 0 {
                            lemma_node_at_step(new_self, q);
                            lemma_node_at_step(old_self, q);
                            if q[0] == i {
                                let qq = seq![i as u8].add(q.drop_first());
                                assert(qq =~= q);
                                assert(n_get(new_self, q) == n_get(*child, q.drop_first()));
                                assert(n_get(old_child, q.drop_first()) == n_get(old_self, qq));
                            }
                        }
                    }
                    assert forall|q: Seq<u8>| slot_ok(#[trigger] node_at(new_self, q), d + q.len()) by {
                        if q.len() > 0 {
                            lemma_node_at_step(new_self, q);
                            lemma_node_at_step(old_self, q);
                            if q[0] == i {
                                assert(node_at(*child, q.drop_first()) == node_at(new_self, q));
                            } else if q[0] < old_self.children@.len() && old_self.children@[q[0] as int] is Some {
                                lemma_wf_child(old_self, d, q[0] as int);
                            }
                        }
                    }
                }
                Err(e)
            },
            Ok(()) => {
                self.children.set(i, Some(child));
                proof {
                    let new_self = *self;
                    assert(seq![i as u8].add(next.rest()) =~= p);
                    assert forall|q: Seq<u8>| #[trigger]
                        n_get(new_self, q) == if q == p { Some(value) } else { n_get(old_self, q) } by {
                        if q.len() > 0 {
                            lemma_node_at_step(new_self, q);
                            lemma_node_at_step(old_self, q);
                            if q[0] == i {
                                let qq = seq![i as u8].add(q.drop_first());
                                assert(qq =~= q);
                                assert(n_get(new_self, q) == n_get(*child, q.drop_first()));
                                assert(n_get(old_child, q.drop_first()) == n_get(old_self, qq));
                                if q == p {
                                    assert(q.drop_first() =~= next.rest());
                                } else {
                                    assert(q.drop_first() != next.rest());
                                }
                            }
                        } else {
                            assert(q != p);
                        }
                    }
                    assert forall|q: Seq<u8>| slot_ok(#[trigger] node_at(new_self, q), d + q.len()) by {
                        if q.len() > 0 {
                            lemma_node_at_step(new_self, q);
                            lemma_node_at_step(old_self, q);
                            if q[0] == i {
                                assert(node_at(*child, q.drop_first()) == node_at(new_self, q));
                            } else if q[0] < old_self.children@.len() && old_self.children@[q[0] as int] is Some {
                                lemma_wf_child(old_self, d, q[0] as int);
                            }
                        }
                    }
                }
                Ok(())
            },
        }
    }

    /// Removes the value associated with `key` in the sub-trie rooted at this node, if one exists.
    fn remove(&mut self, key: KeySeq)
        requires
            key.wf(),
            node_wf(*old(self), key.depth()),
        ensures
            node_wf(*final(self), key.depth()),
            forall|q: Seq<u8>| #[trigger]
                n_get(*final(self), q) == if q == key.rest() {
                    None
                } else {
                    n_get(*old(self), q)
                },
        decreases key.rest().len(),
    {
        let ghost old_self = *self;
        let ghost p = key.rest();
        let ghost d = key.depth();
        assert(node_at(old_self, Seq::<u8>::empty()) == Some(old_self));
        if key.is_empty() {
            self.value = None;
            proof {
                assert forall|q: Seq<u8>| #[trigger]
                    n_get(*self, q) == if q == p { None } else { n_get(old_self, q) } by {
                    if q.len() > 0 {
                        lemma_node_at_step(*self, q);
                        lemma_node_at_step(old_self, q);
                    } else {
                        assert(q =~= p);
                    }
                }
                assert forall|q: Seq<u8>| slot_ok(#[trigger] node_at(*self, q), d + q.len()) by {
                    if q.len() > 0 {
                        lemma_node_at_step(*self, q);
                        lemma_node_at_step(old_self, q);
                    }
                }
            }
            return;
        }
        let i = key.mux();
        let ghost i0 = i as int;
        if self.children[i].is_none() {
            proof {
                lemma_node_at_step(old_self, p);
                assert forall|q: Seq<u8>| #[trigger]
                    n_get(*self, q) == if q == p { None } else { n_get(old_self, q) } by {}
            }
            return;
        }
        let mut child = self.children[i].take().unwrap();
        let ghost old_child = *child;
        proof {
            lemma_wf_child(old_self, d, i0);
            assert forall|q: Seq<u8>| #[trigger] n_get(old_child, q) == n_get(
                old_self,
                seq![i as u8].add(q),
            ) by {
                let qq = seq![i as u8].add(q);
                assert(qq.drop_first() =~= q);
                lemma_node_at_step(old_self, qq);
            }
        }
        let next = key.next();
        (&mut *child).remove(next);
        self.children.set(i, Some(child));
        proof {
            let new_self = *self;
            assert(seq![i as u8].add(next.rest()) =~= p);
            assert forall|q: Seq<u8>| #[trigger]
                n_get(new_self, q) == if q == p { None } else { n_get(old_self, q) } by {
                if q.len() > 0 {
                    lemma_node_at_step(new_self, q);
                    lemma_node_at_step(old_self, q);
                    if q[0] == i {
                        let qq = seq![i as u8].add(q.drop_first());
                        assert(qq =~= q);
                        assert(n_get(new_self, q) == n_get(*child, q.drop_first()));
                        assert(n_get(old_child, q.drop_first()) == n_get(old_self, qq));
                        if q == p {
                            assert(q.drop_first() =~= next.rest());
                        } else {
                            assert(q.drop_first() != next.rest());
                        }
                    }
                } else {
                    assert(q != p);
                }
            }
            assert forall|q: Seq<u8>| slot_ok(#[trigger] node_at(new_self, q), d + q.len()) by {
                if q.len() > 0 {
                    lemma_node_at_step(new_self, q);
                    lemma_node_at_step(old_self, q);
                    if q[0] == i {
                        assert(node_at(*child, q.drop_first()) == node_at(new_self, q));
                    } else if q[0] < old_self.children@.len() && old_self.children@[q[0] as int] is Some {
                        lemma_wf_child(old_self, d, q[0] as int);
                    }
                }
            }
        }
    }

    /// Returns a reference to the value associated with `key` in the sub-trie rooted at this
    /// node, or `None` if there is no such value.
    fn search(&self, key: KeySeq) -> (res: Option<&Value>)
        requires
            key.wf(),
            node_wf(*self, key.depth()),
        ensures
            res == match n_get(*self, key.rest()) {
                Some(v) => Some(&v),
                None => None::<&Value>,
            },
        decreases key.rest().len(),
    {
        let ghost p = key.rest();
        assert(node_at(*self, Seq::<u8>::empty()) == Some(*self));
        if key.is_empty() {
            return self.value.as_ref();
        }
        proof {
            lemma_node_at_step(*self, p);
        }
        let i = key.mux();
        match &self.children[i] {
            Some(node) => {
                proof {
                    lemma_wf_child(*self, key.depth(), i as int);
                }
                let next = key.next();
                node.search(next)
            },
            None => None,
        }
    }

    /// Returns the value associated with the longest prefix of `key` in the sub-trie rooted at
    /// this node for which a value exists, as well as the length of the key associated with the
    /// value. `last_match` is returned if no prefix of `key` corresponds to a value in the
    /// sub-trie.
    fn longest_match<'scope>(
        &'scope self,
        key: KeySeq,
        last_match: Option<(&'scope Value, usize)>,
    ) -> (res: Option<(&'scope Value, usize)>)
        requires
            key.wf(),
            node_wf(*self, key.depth()),
        ensures
            res == match deepest_value(*self, key.rest()) {
                Some((v, j)) => Some((&v, ((key.depth() + j) / 2) as usize)),
                None => last_match,
            },
        decreases key.rest().len(),
    {
        let ghost p = key.rest();
        let ghost d = key.depth();
        assert(node_at(*self, Seq::<u8>::empty()) == Some(*self));
        let mut last_match = last_match;
        if let Some(value) = self.value.as_ref() {
            last_match = Some((value, key.consumed()));
        }
        if key.is_empty() {
            return last_match;
        }
        let i = key.mux();
        match &self.children[i] {
            Some(node) => {
                proof {
                    lemma_wf_child(*self, d, i as int);
                }
                let next = key.next();
                node.longest_match(next, last_match)
            },
            None => last_match,
        }
    }
}

impl<Value> Trie<Value> {
    #[verifier::type_invariant]
    closed spec fn well_formed(&self) -> bool {
        node_wf(*self.root, 0)
    }

    /// The value stored for `key`, if any.
    pub closed spec fn lookup(&self, key: Seq<u8>) -> Option<Value> {
        n_get(*self.root, nibbles(key))
    }

    /// Returns a new empty trie.
    pub fn new() -> (trie: Self)
        ensures
            forall|key: Seq<u8>| #[trigger] trie.lookup(key) is None,
    {
        Self { root: new_node() }
    }

    /// Inserts `value` at position `key` in the trie, or returns an error if there is already a
    /// value associated with that key.
    pub fn insert(&mut self, key: &[u8], value: Value) -> (res: Result<(), Error>)
        ensures
            res is Err <==> old(self).lookup(key@) is Some,
            res is Err ==> forall|k: Seq<u8>| #[trigger]
                final(self).lookup(k) == old(self).lookup(k),
            res is Ok ==> forall|k: Seq<u8>| #[trigger]
                final(self).lookup(k) == if k == key@ {
                    Some(value)
                } else {
                    old(self).lookup(k)
                },
    {
        proof { use_type_invariant(&*self); }
        let ks = KeySeq::from(key);
        let mut root = new_node();
        std::mem::swap(&mut root, &mut self.root);
        let ghost old_root = *root;
        let res = (&mut *root).insert(ks, value);
        self.root = root;
        proof {
            lemma_nibbles_injective();
        }
        res
    }

    /// Removes the value associated with `key` in the trie, if such a value exists.
    pub fn remove(&mut self, key: &[u8])
        ensures
            forall|k: Seq<u8>| #[trigger]
                final(self).lookup(k) == if k == key@ {
                    None
                } else {
                    old(self).lookup(k)
                },
    {
        proof { use_type_invariant(&*self); }
        let ks = KeySeq::from(key);
        let mut root = new_node();
        std::mem::swap(&mut root, &mut self.root);
        (&mut *root).remove(ks);
        self.root = root;
        proof {
            lemma_nibbles_injective();
        }
    }

    /// Returns a reference to the value associated with `key` in the trie, or `None` if there
    /// is no such value.
    pub fn search(&self, key: &[u8]) -> (res: Option<&Value>)
        ensures
            res == match self.lookup(key@) {
                Some(v) => Some(&v),
                None => None::<&Value>,
            },
    {
        proof { use_type_invariant(self); }
        self.root.search(KeySeq::from(key))
    }

    /// Returns the value associated with the longest prefix of `key` for which a value exists,
    /// as well as the length of that prefix. `None` is returned if no prefix of `key`
    /// corresponds to a value in the trie.
    pub fn longest_match(&self, key: &[u8]) -> (res: Option<(&Value, usize)>)
        ensures
            match res {
                Some((v, n)) => {
                    &&& n <= key@.len()
                    &&& self.lookup(key@.take(n as int)) == Some(*v)
                    &&& forall|m: int| n < m <= key@.len() ==> #[trigger] self.lookup(key@.take(m)) is None
                },
                None => forall|m: int| 0 <= m <= key@.len() ==> #[trigger] self.lookup(key@.take(m)) is None,
            },
    {
        proof { use_type_invariant(self); }
        let key_len = key.len();
        let ks = KeySeq::from(key);
        let res = self.root.longest_match(ks, None);
        proof {
            let p = nibbles(key@);
            lemma_deepest_value(*self.root, p);
            assert forall|m: int| 0 <= m <= key@.len() implies #[trigger] self.lookup(key@.take(m))
                == n_get(*self.root, p.take(2 * m)) by {
                assert(nibbles(key@.take(m)) =~= p.take(2 * m));
            }
            if let Some((v, j)) = deepest_value(*self.root, p) {
                assert(node_at(*self.root, p.take(j as int)) is Some);
                assert(j % 2 == 0);
                assert(p.take(j as int) =~= nibbles(key@.take((j / 2) as int)));
                assert forall|m: int| j / 2 < m <= key@.len() implies #[trigger] self.lookup(
                    key@.take(m),
                ) is None by {
                    assert(j < 2 * m);
                }
            }
        }
        res
    }
}

/// Distinct keys have distinct nibble expansions.
proof fn lemma_nibbles_injective()
    ensures
        forall|a: Seq<u8>, b: Seq<u8>| #[trigger] nibbles(a) == #[trigger] nibbles(b) ==> a == b,
{
    assert forall|a: Seq<u8>, b: Seq<u8>| #[trigger] nibbles(a) == #[trigger] nibbles(b) implies a
        == b by {
        assert(a.len() == b.len()) by {
            assert(nibbles(a).len() == nibbles(b).len());
        }
        assert forall|j: int| 0 <= j < a.len() implies a[j] == b[j] by {
            assert(nibbles(a)[2 * j] == nibbles(b)[2 * j]);
            assert(nibbles(a)[2 * j + 1] == nibbles(b)[2 * j + 1]);
            assert((2 * j) / 2 == j);
            assert((2 * j + 1) / 2 == j);
            assert(a[j] == (a[j] / 16) * 16 + a[j] % 16);
            assert(b[j] == (b[j] / 16) * 16 + b[j] % 16);
        }
        assert(a =~= b);
    }
}

/// Error: represents an error encountered when using a trie.
#[derive(Debug, PartialEq, Eq, Structural)]
pub enum Error {
    /// The trie already stores a value for the key.
    DuplicateErr,
}


/// Removing a key undoes its insertion: inserting `value` under a `key` that the trie does not
/// hold and then removing `key` gives back the original contents.
pub proof fn law_remove_undoes_insert<Value>(
    original: Trie<Value>,
    inserted: Trie<Value>,
    removed: Trie<Value>,
    key: Seq<u8>,
    value: Value,
)
    requires
        original.lookup(key) is None,
        forall|k: Seq<u8>| #[trigger]
            inserted.lookup(k) == if k == key {
                Some(value)
            } else {
                original.lookup(k)
            },
        forall|k: Seq<u8>| #[trigger]
            removed.lookup(k) == if k == key {
                None
            } else {
                inserted.lookup(k)
            },
    ensures
        forall|k: Seq<u8>| #[trigger] removed.lookup(k) == original.lookup(k),
        inserted.lookup(key) == Some(value),
{
    assert forall|k: Seq<u8>| #[trigger] removed.lookup(k) == original.lookup(k) by {
        if k != key {
            assert(inserted.lookup(k) == original.lookup(k));
        }
    }
}
} // verus!
