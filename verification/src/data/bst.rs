use vstd::prelude::*;
use crate::data::interval::Bound;

verus! {

/// Binary Search Tree: an ordered map from keys to values.
///
/// The tree is viewed as the map from the position (`Bound::point`) of each key to its value.
pub trait BinarySearchTree<Key: Bound, Value> {
    /// The contents of the tree.
    spec fn contents(&self) -> Map<int, Value>;

    /// The structural invariant of the tree (its search order).
    spec fn well_formed(&self) -> bool;

    /// Inserts `value` under `key`, unless `key` is already present, in which case the tree is
    /// left unchanged.
    fn insert(&mut self, key: Key, value: Value)
        requires
            old(self).well_formed(),
        ensures
            final(self).well_formed(),
            final(self).contents() == if old(self).contents().contains_key(key.point()) {
                old(self).contents()
            } else {
                old(self).contents().insert(key.point(), value)
            },
    ;

    /// Returns the value stored under `key`, if any.
    fn search(&self, key: &Key) -> (res: Option<&Value>)
        requires
            self.well_formed(),
        ensures
            res == if self.contents().contains_key(key.point()) {
                Some(&self.contents()[key.point()])
            } else {
                None::<&Value>
            },
    ;

    /// Returns a mutable reference to the value stored under `key`, if any. Writing through the
    /// reference updates the value stored under `key`, and nothing else.
    fn search_mut(&mut self, key: &Key) -> (res: Option<&mut Value>)
        requires
            old(self).well_formed(),
        ensures
            final(self).well_formed(),
            match res {
                Some(r) => {
                    &&& old(self).contents().contains_key(key.point())
                    &&& *r == old(self).contents()[key.point()]
                    &&& final(self).contents() == old(self).contents().insert(key.point(), *final(r))
                },
                None => {
                    &&& !old(self).contents().contains_key(key.point())
                    &&& final(self).contents() == old(self).contents()
                },
            },
    ;
}

/// Binary Search Tree Node: a node of a binary search tree, holding a key and its value.
pub trait BSTNode<Key: Bound, Value>: Sized {
    /// The position of the node's key.
    spec fn key_point(&self) -> int;

    /// The value held by the node.
    spec fn held(&self) -> Value;

    /// Returns the node's key.
    fn key(&self) -> (k: &Key)
        ensures
            k.point() == self.key_point(),
    ;

    /// Returns the node's value.
    fn value(&self) -> (v: &Value)
        ensures
            *v == self.held(),
    ;

    /// Returns a mutable reference to the node's value.
    fn value_mut(&mut self) -> (v: &mut Value)
        ensures
            *v == old(self).held(),
            final(self).held() == *final(v),
            final(self).key_point() == old(self).key_point(),
    ;

    /// The left child of the node.
    spec fn left_node(&self) -> Option<Self>;

    /// The right child of the node.
    spec fn right_node(&self) -> Option<Self>;

    /// Returns the left child of the node.
    fn left(&self) -> (n: Option<&Self>)
        ensures
            match n {
                Some(c) => self.left_node() == Some(*c),
                None => self.left_node() is None,
            },
    ;

    /// Returns the right child of the node.
    fn right(&self) -> (n: Option<&Self>)
        ensures
            match n {
                Some(c) => self.right_node() == Some(*c),
                None => self.right_node() is None,
            },
    ;
}

/// AVL Tree: a binary search tree recording, at each node, the difference between the number
/// of its right and left children.
pub struct AVLTree<Key: Bound, Value> {
    root: Option<Box<AVLTreeNode<Key, Value>>>,
}

struct AVLTreeNode<Key: Bound, Value> {
    key: Key,
    value: Value,
    left: Option<Box<AVLTreeNode<Key, Value>>>,
    right: Option<Box<AVLTreeNode<Key, Value>>>,
    balance: i8,
}

/// The contents of a subtree.
spec fn t_map<K: Bound, V>(t: Option<Box<AVLTreeNode<K, V>>>) -> Map<int, V>
    decreases t,
{
    match t {
        None => Map::empty(),
        Some(n) => t_map(n.left).union_prefer_right(t_map(n.right)).insert(n.key.point(), n.value),
    }
}

/// The number of nodes of a subtree.
spec fn t_size<K: Bound, V>(t: Option<Box<AVLTreeNode<K, V>>>) -> nat
    decreases t,
{
    match t {
        None => 0,
        Some(n) => t_size(n.left) + t_size(n.right) + 1,
    }
}

/// The search order of a subtree, and the child count recorded in `balance`.
spec fn t_wf<K: Bound, V>(t: Option<Box<AVLTreeNode<K, V>>>) -> bool
    decreases t,
{
    match t {
        None => true,
        Some(n) => {
            &&& t_wf(n.left)
            &&& t_wf(n.right)
            &&& forall|k: int| #[trigger] t_map(n.left).contains_key(k) ==> k < n.key.point()
            &&& forall|k: int| #[trigger] t_map(n.right).contains_key(k) ==> n.key.point() < k
            &&& n.balance == (if n.right is Some { 1int } else { 0int }) - (if n.left is Some {
                1int
            } else {
                0int
            })
        },
    }
}

proof fn lemma_leaf<K: Bound, V>(n: AVLTreeNode<K, V>)
    requires
        n.left is None,
        n.right is None,
        n.balance == 0,
    ensures
        t_map(Some(Box::new(n))) =~= Map::<int, V>::empty().insert(n.key.point(), n.value),
        t_wf(Some(Box::new(n))),
        t_size(Some(Box::new(n))) == 1,
{
    assert(t_map(n.left) =~= Map::<int, V>::empty());
    assert(t_map(n.right) =~= Map::<int, V>::empty());
    assert(t_wf(n.left) && t_wf(n.right));
    assert(t_size(n.left) == 0 && t_size(n.right) == 0);
}

impl<Key: Bound, Value> AVLTreeNode<Key, Value> {
    fn root(key: Key, value: Value) -> (n: Self)
        ensures
            n.key.point() == key.point(),
            n.value == value,
            n.left is None,
            n.right is None,
            n.balance == 0,
    {
        AVLTreeNode { key, value, left: None, right: None, balance: 0 }
    }

    fn search_path(&self, key: &Key) -> (res: Option<&Value>)
        requires
            t_wf(Some(Box::new(*self))),
        ensures
            res == if t_map(Some(Box::new(*self))).contains_key(key.point()) {
                Some(&t_map(Some(Box::new(*self)))[key.point()])
            } else {
                None::<&Value>
            },
        decreases t_size(Some(Box::new(*self))),
    {
        let ghost me = Some(Box::new(*self));
        let ghost k = key.point();
        if !key.precedes(&self.key) && !self.key.precedes(key) {
            assert(t_map(me)[k] == self.value);
            Some(&self.value)
        } else if key.precedes(&self.key) {
            assert(!t_map(self.right).contains_key(k));
            assert(t_map(me).contains_key(k) == t_map(self.left).contains_key(k));
            assert(t_map(me).contains_key(k) ==> t_map(me)[k] == t_map(self.left)[k]);
            match &self.left {
                None => None,
                Some(left) => {
                    assert(Some(Box::new(**left)) == self.left);
                    left.search_path(key)
                },
            }
        } else {
            assert(!t_map(self.left).contains_key(k));
            assert(t_map(me).contains_key(k) == t_map(self.right).contains_key(k));
            assert(t_map(me).contains_key(k) ==> t_map(me)[k] == t_map(self.right)[k]);
            match &self.right {
                None => None,
                Some(right) => {
                    assert(Some(Box::new(**right)) == self.right);
                    right.search_path(key)
                },
            }
        }
    }

    fn search_path_mut(&mut self, key: &Key) -> (res: Option<&mut Value>)
        requires
            t_wf(Some(Box::new(*old(self)))),
        ensures
            t_wf(Some(Box::new(*final(self)))),
            match res {
                Some(r) => {
                    &&& t_map(Some(Box::new(*old(self)))).contains_key(key.point())
                    &&& *r == t_map(Some(Box::new(*old(self))))[key.point()]
                    &&& t_map(Some(Box::new(*final(self)))) == t_map(
                        Some(Box::new(*old(self))),
                    ).insert(key.point(), *final(r))
                },
                None => {
                    &&& !t_map(Some(Box::new(*old(self)))).contains_key(key.point())
                    &&& *final(self) == *old(self)
                },
            },
        decreases t_size(Some(Box::new(*old(self)))),
    {
        let ghost k = key.point();
        let ghost me = Some(Box::new(*self));
        if !key.precedes(&self.key) && !self.key.precedes(key) {
            assert(!t_map(self.left).contains_key(k));
            assert(!t_map(self.right).contains_key(k));
            let r = &mut self.value;
            Some(r)
        } else if key.precedes(&self.key) {
            assert(!t_map(self.right).contains_key(k));
            assert(t_map(me).contains_key(k) == t_map(self.left).contains_key(k));
            assert(t_map(self.left) == Map::<int, Value>::empty() || self.left is Some);
            match &mut self.left {
                None => None,
                Some(left) => {
                    let res = left.search_path_mut(key);
                    res
                },
            }
        } else {
            assert(!t_map(self.left).contains_key(k));
            assert(t_map(me).contains_key(k) == t_map(self.right).contains_key(k));
            assert(t_map(self.right) == Map::<int, Value>::empty() || self.right is Some);
            match &mut self.right {
                None => None,
                Some(right) => {
                    let res = right.search_path_mut(key);
                    res
                },
            }
        }
    }

    fn insert_rec(&mut self, key: Key, value: Value)
        requires
            t_wf(Some(Box::new(*old(self)))),
        ensures
            t_wf(Some(Box::new(*final(self)))),
            t_map(Some(Box::new(*final(self)))) == if t_map(
                Some(Box::new(*old(self))),
            ).contains_key(key.point()) {
                t_map(Some(Box::new(*old(self))))
            } else {
                t_map(Some(Box::new(*old(self)))).insert(key.point(), value)
            },
        decreases t_size(Some(Box::new(*old(self)))),
    {
        let ghost k = key.point();
        let ghost old_self = *self;
        if !key.precedes(&self.key) && !self.key.precedes(&key) {
            return;
        }
        let ghost me = Some(Box::new(old_self));
        if key.precedes(&self.key) {
            assert(!t_map(self.right).contains_key(k));
            assert(t_map(me).contains_key(k) == t_map(self.left).contains_key(k));
            assert(t_map(self.left) == Map::<int, Value>::empty() || self.left is Some);
            match self.left.take() {
                None => {
                    let leaf = AVLTreeNode::root(key, value);
                    proof { lemma_leaf(leaf); }
                    self.left = Some(Box::new(leaf));
                    self.balance = self.balance - 1;
                },
                Some(mut left) => {
                    (&mut *left).insert_rec(key, value);
                    self.left = Some(left);
                },
            }
        } else {
            assert(!t_map(self.left).contains_key(k));
            assert(t_map(me).contains_key(k) == t_map(self.right).contains_key(k));
            assert(t_map(self.right) == Map::<int, Value>::empty() || self.right is Some);
            match self.right.take() {
                None => {
                    let leaf = AVLTreeNode::root(key, value);
                    proof { lemma_leaf(leaf); }
                    self.right = Some(Box::new(leaf));
                    self.balance = self.balance + 1;
                },
                Some(mut right) => {
                    (&mut *right).insert_rec(key, value);
                    self.right = Some(right);
                },
            }
        }
        proof {
            let new_self = *self;
            assert forall|j: int| #[trigger] t_map(new_self.left).contains_key(j) implies j
                < new_self.key.point() by {
                if j != k {
                    assert(t_map(old_self.left).contains_key(j));
                }
            }
            assert forall|j: int| #[trigger] t_map(new_self.right).contains_key(j) implies new_self.key.point()
                < j by {
                if j != k {
                    assert(t_map(old_self.right).contains_key(j));
                }
            }
            if t_map(Some(Box::new(old_self))).contains_key(k) {
                assert(t_map(Some(Box::new(new_self))) =~= t_map(Some(Box::new(old_self))));
            } else {
                assert(t_map(Some(Box::new(new_self))) =~= t_map(Some(Box::new(old_self))).insert(
                    k,
                    value,
                ));
            }
        }
    }
}

impl<Key: Bound, Value> BSTNode<Key, Value> for AVLTreeNode<Key, Value> {
    closed spec fn key_point(&self) -> int {
        self.key.point()
    }

    closed spec fn held(&self) -> Value {
        self.value
    }

    closed spec fn left_node(&self) -> Option<Self> {
        match self.left {
            Some(b) => Some(*b),
            None => None,
        }
    }

    closed spec fn right_node(&self) -> Option<Self> {
        match self.right {
            Some(b) => Some(*b),
            None => None,
        }
    }

    fn key(&self) -> (k: &Key) {
        &self.key
    }

    fn value(&self) -> (v: &Value) {
        &self.value
    }

    fn value_mut(&mut self) -> (v: &mut Value) {
        &mut self.value
    }

    fn left(&self) -> (n: Option<&Self>) {
        match &self.left {
            None => None,
            Some(left) => Some(&**left),
        }
    }

    fn right(&self) -> (n: Option<&Self>) {
        match &self.right {
            None => None,
            Some(right) => Some(&**right),
        }
    }
}

impl<Key: Bound, Value> AVLTree<Key, Value> {
    /// Returns a new empty tree.
    pub fn new() -> (tree: Self)
        ensures
            tree.contents() == Map::<int, Value>::empty(),
            tree.well_formed(),
    {
        AVLTree { root: None }
    }
}

impl<Key: Bound, Value> BinarySearchTree<Key, Value> for AVLTree<Key, Value> {
    closed spec fn contents(&self) -> Map<int, Value> {
        t_map(self.root)
    }

    closed spec fn well_formed(&self) -> bool {
        t_wf(self.root)
    }

    fn insert(&mut self, key: Key, value: Value) {
        let mut root = None;
        std::mem::swap(&mut root, &mut self.root);
        match root {
            None => {
                let leaf = AVLTreeNode::root(key, value);
                proof { lemma_leaf(leaf); }
                let node = Box::new(leaf);
                self.root = Some(node);
            },
            Some(mut node) => {
                (&mut *node).insert_rec(key, value);
                self.root = Some(node);
            },
        }
    }

    fn search(&self, key: &Key) -> (res: Option<&Value>) {
        match &self.root {
            None => None,
            Some(root) => {
                assert(Some(Box::new(**root)) == self.root);
                root.search_path(key)
            },
        }
    }

    fn search_mut(&mut self, key: &Key) -> (res: Option<&mut Value>) {
        match &mut self.root {
            None => None,
            Some(root) => root.search_path_mut(key),
        }
    }
}


/// The first value inserted under a key is kept: inserting `first` and then `second` under the
/// same absent key leaves `first` stored, and every other key as it was.
pub proof fn law_first_insert_wins<Value>(
    original: Map<int, Value>,
    once: Map<int, Value>,
    twice: Map<int, Value>,
    key: int,
    first: Value,
    second: Value,
)
    requires
        !original.contains_key(key),
        once == if original.contains_key(key) {
            original
        } else {
            original.insert(key, first)
        },
        twice == if once.contains_key(key) {
            once
        } else {
            once.insert(key, second)
        },
    ensures
        twice.contains_key(key),
        twice[key] == first,
        forall|k: int| k != key ==> #[trigger] twice.contains_key(k) == original.contains_key(k),
{
}
} // verus!
