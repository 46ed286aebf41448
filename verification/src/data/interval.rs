use vstd::prelude::*;
use core::ops::{Range, RangeInclusive};

verus! {

/// Bound: a totally ordered key type usable as an interval end point.
///
/// Each bound is placed on the integer line by `point`; comparisons between bounds are
/// comparisons of their points.
pub trait Bound: Sized {
    /// The position of this bound in the order.
    spec fn point(&self) -> int;

    /// The position of the smallest representable bound.
    spec fn lowest() -> int;

    /// Returns the bound immediately preceding this one.
    fn predecessor(&self) -> (p: Self)
        requires
            self.point() > Self::lowest(),
        ensures
            p.point() == self.point() - 1,
    ;

    /// Returns true when this bound comes strictly before `other`.
    fn precedes(&self, other: &Self) -> (r: bool)
        ensures
            r == (self.point() < other.point()),
    ;

    /// Returns a copy of this bound.
    fn duplicate(&self) -> (r: Self)
        ensures
            r.point() == self.point(),
    ;
}

impl Bound for u32 {
    open spec fn point(&self) -> int {
        *self as int
    }

    open spec fn lowest() -> int {
        0
    }

    fn predecessor(&self) -> (p: Self) {
        *self - 1
    }

    fn precedes(&self, other: &Self) -> (r: bool) {
        *self < *other
    }

    fn duplicate(&self) -> (r: Self) {
        *self
    }
}

impl Bound for i32 {
    open spec fn point(&self) -> int {
        *self as int
    }

    open spec fn lowest() -> int {
        i32::MIN as int
    }

    fn predecessor(&self) -> (p: Self) {
        *self - 1
    }

    fn precedes(&self, other: &Self) -> (r: bool) {
        *self < *other
    }

    fn duplicate(&self) -> (r: Self) {
        *self
    }
}

impl Bound for usize {
    open spec fn point(&self) -> int {
        *self as int
    }

    open spec fn lowest() -> int {
        0
    }

    fn predecessor(&self) -> (p: Self) {
        *self - 1
    }

    fn precedes(&self, other: &Self) -> (r: bool) {
        *self < *other
    }

    fn duplicate(&self) -> (r: Self) {
        *self
    }
}

/// Returns the larger of two bounds.
fn max_bound<B: Bound>(b1: &B, b2: &B) -> (r: B)
    ensures
        r.point() == if b1.point() > b2.point() { b1.point() } else { b2.point() },
{
    if b2.precedes(b1) {
        b1.duplicate()
    } else {
        b2.duplicate()
    }
}

/// Interval: the closed range of bounds from `start` to `end`.
pub struct Interval<B: Bound> {
    start: B,
    end: B,
}

impl<B: Bound> View for Interval<B> {
    type V = (int, int);

    closed spec fn view(&self) -> (int, int) {
        (self.start.point(), self.end.point())
    }
}

/// `RangeInclusive::into_inner`, which splits a range into its start and its (inclusive) end;
/// std documents the result for a range that has not been iterated to exhaustion.
pub assume_specification<Idx>[ RangeInclusive::<Idx>::into_inner ](
    range: RangeInclusive<Idx>,
) -> (res: (Idx, Idx))
    requires
        !range@.exhausted,
    ensures
        res.0 == range@.start,
        res.1 == range@.end,
;

/// Interval Source: a range expression that denotes a closed interval of bounds.
pub trait IntervalSource<B: Bound>: Sized {
    /// The first bound in the range.
    spec fn low(&self) -> int;

    /// The last bound in the range (inclusive).
    spec fn high(&self) -> int;

    /// Whether the range can be converted without leaving the bound type.
    spec fn admissible(&self) -> bool;

    /// Splits the range into its first and last (inclusive) bounds.
    fn into_bounds(self) -> (r: (B, B))
        requires
            self.admissible(),
        ensures
            r.0.point() == self.low(),
            r.1.point() == self.high(),
    ;
}

impl<B: Bound> IntervalSource<B> for Range<B> {
    open spec fn low(&self) -> int {
        self.start.point()
    }

    open spec fn high(&self) -> int {
        self.end.point() - 1
    }

    open spec fn admissible(&self) -> bool {
        self.end.point() > B::lowest()
    }

    fn into_bounds(self) -> (r: (B, B)) {
        let end = self.end.predecessor();
        (self.start, end)
    }
}

impl<B: Bound> IntervalSource<B> for RangeInclusive<B> {
    open spec fn low(&self) -> int {
        self@.start.point()
    }

    open spec fn high(&self) -> int {
        self@.end.point()
    }

    open spec fn admissible(&self) -> bool {
        !self@.exhausted
    }

    fn into_bounds(self) -> (r: (B, B)) {
        self.into_inner()
    }
}

impl<B: Bound> Interval<B> {
    /// Builds the closed interval denoted by `range`: a half-open range `start..end` becomes
    /// `[start, end - 1]`, and an inclusive range `start..=end` becomes `[start, end]`.
    pub fn from<R: IntervalSource<B>>(range: R) -> (i: Interval<B>)
        requires
            range.admissible(),
        ensures
            i@ == (range.low(), range.high()),
    {
        let (start, end) = range.into_bounds();
        Interval { start, end }
    }
}


/// The larger of two heights.
pub open spec fn max_height(a: nat, b: nat) -> nat {
    if a > b { a } else { b }
}

/// Whether the stored interval `(s, e)` overlaps the interval `(ks, ke)`.
pub open spec fn overlapping(s: int, e: int, ks: int, ke: int) -> bool {
    s <= ke && ks <= e
}

/// Whether the interval `(s, e)` contains the point `k`.
pub open spec fn covers(s: int, e: int, k: int) -> bool {
    s <= k <= e
}

/// Interval Map: a map from disjoint intervals of bounds to values, stored in a
/// height-balanced search tree ordered by interval start and augmented with the largest
/// interval end of each subtree.
///
/// The map is viewed as the set of its entries `(start, end, value)`.
pub struct IntervalMap<Key: Bound, Value> {
    root: Option<HeapNode<Key, Value>>,
}

type HeapNode<Key, Value> = Box<Node<Key, Value>>;

struct Node<Key: Bound, Value> {
    keys: Interval<Key>,
    value: Value,
    left: Option<Box<Node<Key, Value>>>,
    right: Option<Box<Node<Key, Value>>>,
    max_end: Key,
    height: u32,
}

/// The stored height of a subtree.
spec fn t_height<K: Bound, V>(t: Option<Box<Node<K, V>>>) -> nat {
    match t {
        None => 0,
        Some(n) => n.height as nat,
    }
}

/// The number of nodes of a subtree.
spec fn t_count<K: Bound, V>(t: Option<Box<Node<K, V>>>) -> nat
    decreases t,
{
    match t {
        None => 0,
        Some(n) => t_count(n.left) + t_count(n.right) + 1,
    }
}

/// The entries `(start, end, value)` of a subtree.
spec fn t_entries<K: Bound, V>(t: Option<Box<Node<K, V>>>) -> Set<(int, int, V)>
    decreases t,
{
    match t {
        None => Set::empty(),
        Some(n) => t_entries(n.left).union(t_entries(n.right)).insert(
            (n.keys@.0, n.keys@.1, n.value),
        ),
    }
}

/// The well-formedness of a subtree: exact heights, search order on interval starts,
/// `max_end` bounding every end below it, and no point covered by two entries.
spec fn t_wf<K: Bound, V>(t: Option<Box<Node<K, V>>>) -> bool
    decreases t,
{
    match t {
        None => true,
        Some(n) => {
            &&& t_wf(n.left)
            &&& t_wf(n.right)
            &&& n.height == 1 + max_height(t_height(n.left), t_height(n.right))
            &&& n.height <= t_count(t)
            &&& n.keys@.1 <= n.max_end.point()
            &&& forall|e: (int, int, V)| #[trigger]
                t_entries(n.left).contains(e) ==> e.0 <= n.keys@.0 && e.1 <= n.max_end.point()
            &&& forall|e: (int, int, V)| #[trigger]
                t_entries(n.right).contains(e) ==> n.keys@.0 <= e.0 && e.1 <= n.max_end.point()
        },
    }
}

/// The ordering and end-bound conditions of a subtree's root over well-formed children, without
/// the root's height bookkeeping.
spec fn t_shape<K: Bound, V>(t: Option<Box<Node<K, V>>>) -> bool {
    match t {
        None => true,
        Some(n) => {
            &&& t_wf(n.left)
            &&& t_wf(n.right)
            &&& n.keys@.1 <= n.max_end.point()
            &&& forall|e: (int, int, V)| #[trigger]
                t_entries(n.left).contains(e) ==> e.0 <= n.keys@.0 && e.1 <= n.max_end.point()
            &&& forall|e: (int, int, V)| #[trigger]
                t_entries(n.right).contains(e) ==> n.keys@.0 <= e.0 && e.1 <= n.max_end.point()
        },
    }
}

/// The balance of a subtree: at every node, the heights of the two children differ by at
/// most one.
spec fn t_bal<K: Bound, V>(t: Option<Box<Node<K, V>>>) -> bool
    decreases t,
{
    match t {
        None => true,
        Some(n) => {
            &&& t_bal(n.left)
            &&& t_bal(n.right)
            &&& t_height(n.left) <= t_height(n.right) + 1
            &&& t_height(n.right) <= t_height(n.left) + 1
        },
    }
}

/// The fewest entries of a height-balanced tree of height `h`.
pub open spec fn avl_min(h: nat) -> nat
    decreases h,
{
    if h == 0 {
        0
    } else if h == 1 {
        1
    } else {
        1 + avl_min((h - 1) as nat) + avl_min((h - 2) as nat)
    }
}

/// The fewest entries of a height-balanced tree grow with its height.
pub proof fn lemma_avl_min_grows(a: nat, b: nat)
    requires
        a <= b,
    ensures
        avl_min(a) <= avl_min(b),
    decreases b,
{
    if a < b {
        lemma_avl_min_grows(a, (b - 1) as nat);
    }
}

/// The most entries of a tree of height `h`: `2^h - 1`.
pub open spec fn full_count(h: nat) -> nat
    decreases h,
{
    if h == 0 {
        0
    } else {
        2 * full_count((h - 1) as nat) + 1
    }
}

/// The most entries of a tree grow with its height.
pub proof fn lemma_full_count_grows(a: nat, b: nat)
    requires
        a <= b,
    ensures
        full_count(a) <= full_count(b),
    decreases b,
{
    if a < b {
        lemma_full_count_grows(a, (b - 1) as nat);
    }
}

/// A well-formed subtree of height `h` holds at most `full_count(h)` entries.
proof fn lemma_count_below_full<K: Bound, V>(t: Option<Box<Node<K, V>>>)
    requires
        t_wf(t),
    ensures
        t_count(t) <= full_count(t_height(t)),
    decreases t,
{
    if let Some(n) = t {
        lemma_count_below_full(n.left);
        lemma_count_below_full(n.right);
        let h = (n.height - 1) as nat;
        lemma_full_count_grows(t_height(n.left), h);
        lemma_full_count_grows(t_height(n.right), h);
    }
}

/// A well-formed, balanced subtree of height `h` holds at least `avl_min(h)` entries.
proof fn lemma_bal_count<K: Bound, V>(t: Option<Box<Node<K, V>>>)
    requires
        t_wf(t),
        t_bal(t),
    ensures
        avl_min(t_height(t)) <= t_count(t),
    decreases t,
{
    if let Some(n) = t {
        lemma_bal_count(n.left);
        lemma_bal_count(n.right);
        let hl = t_height(n.left);
        let hr = t_height(n.right);
        if hl >= hr {
            if hl > 0 {
                lemma_avl_min_grows((hl - 1) as nat, hr);
            }
        } else {
            lemma_avl_min_grows((hr - 1) as nat, hl);
        }
    }
}

/// No point is covered by two distinct entries.
pub open spec fn point_disjoint<V>(entries: Set<(int, int, V)>) -> bool {
    forall|a: (int, int, V), b: (int, int, V), k: int|
        #![trigger entries.contains(a), entries.contains(b), covers(a.0, a.1, k), covers(b.0, b.1, k)]
        entries.contains(a) && entries.contains(b) && covers(a.0, a.1, k) && covers(b.0, b.1, k)
            ==> a == b
}

proof fn lemma_entries_finite<K: Bound, V>(t: Option<Box<Node<K, V>>>)
    ensures
        t_entries(t).finite(),
    decreases t,
{
    if let Some(n) = t {
        lemma_entries_finite(n.left);
        lemma_entries_finite(n.right);
    }
}

proof fn lemma_wf_max_end<K: Bound, V>(t: Option<Box<Node<K, V>>>)
    requires
        t_wf(t),
        t is Some,
    ensures
        forall|e: (int, int, V)| #[trigger]
            t_entries(t).contains(e) ==> e.1 <= t.unwrap().max_end.point(),
{
    let n = t.unwrap();
    assert forall|e: (int, int, V)| #[trigger] t_entries(t).contains(e) implies e.1
        <= n.max_end.point() by {
        if t_entries(n.left).contains(e) {
        } else if t_entries(n.right).contains(e) {
        } else {
            assert(e == (n.keys@.0, n.keys@.1, n.value));
        }
    }
}

fn new_node<Key: Bound, Value>(keys: Interval<Key>, value: Value) -> (n: HeapNode<Key, Value>)
    ensures
        t_wf(Some(n)),
        t_entries(Some(n)) == Set::<(int, int, Value)>::empty().insert((keys@.0, keys@.1, value)),
        t_count(Some(n)) == 1,
        t_height(Some(n)) == 1,
        t_bal(Some(n)),
{
    let n = Box::new(Node::new(keys, value));
    assert(t_count(n.left) == 0 && t_count(n.right) == 0);
    assert(t_wf(n.left) && t_wf(n.right));
    assert(t_bal(n.left) && t_bal(n.right));
    assert(t_height(n.left) == 0 && t_height(n.right) == 0);
    assert(t_entries(n.left) == Set::<(int, int, Value)>::empty());
    assert(t_entries(n.right) == Set::<(int, int, Value)>::empty());
    assert(t_entries(n.left).union(t_entries(n.right)) =~= Set::<(int, int, Value)>::empty());
    n
}

impl<Key: Bound, Value> Node<Key, Value> {
    fn new(keys: Interval<Key>, value: Value) -> (n: Self)
        ensures
            n.keys@ == keys@,
            n.value == value,
            n.left is None,
            n.right is None,
            n.height == 1,
            n.max_end.point() == keys@.1,
    {
        Node { max_end: keys.end.duplicate(), keys, value, left: None, right: None, height: 1 }
    }

    fn left_height(&self) -> (h: u32)
        ensures
            h == t_height(self.left),
    {
        match &self.left {
            None => 0,
            Some(left) => left.height,
        }
    }

    fn right_height(&self) -> (h: u32)
        ensures
            h == t_height(self.right),
    {
        match &self.right {
            None => 0,
            Some(right) => right.height,
        }
    }

    /// Recomputes the height and largest end of this node from its children.
    fn update_from_children(&mut self)
        requires
            t_wf(old(self).left),
            t_wf(old(self).right),
            t_count(old(self).left) + t_count(old(self).right) + 1 <= u32::MAX,
        ensures
            final(self).keys == old(self).keys,
            final(self).value == old(self).value,
            final(self).left == old(self).left,
            final(self).right == old(self).right,
            final(self).height == 1 + max_height(t_height(final(self).left), t_height(final(self).right)),
            final(self).height <= t_count(final(self).left) + t_count(final(self).right) + 1,
            final(self).keys@.1 <= final(self).max_end.point(),
            forall|e: (int, int, Value)| #[trigger]
                t_entries(final(self).left).contains(e) ==> e.1 <= final(self).max_end.point(),
            forall|e: (int, int, Value)| #[trigger]
                t_entries(final(self).right).contains(e) ==> e.1 <= final(self).max_end.point(),
    {
        let lh = self.left_height();
        let rh = self.right_height();
        self.height = if lh > rh { lh + 1 } else { rh + 1 };

        self.max_end = self.keys.end.duplicate();
        if let Some(left) = &self.left {
            proof { lemma_wf_max_end(self.left); }
            self.max_end = max_bound(&self.keys.end, &left.max_end);
        }
        if let Some(right) = &self.right {
            proof { lemma_wf_max_end(self.right); }
            self.max_end = max_bound(&self.max_end, &right.max_end);
        }
    }

    /// Returns true when the heights of the children differ by exactly two.
    fn needs_balance(&self) -> (r: bool)
        ensures
            r == (t_height(self.left) == t_height(self.right) + 2 || t_height(self.right)
                == t_height(self.left) + 2),
    {
        let diff: i64 = self.left_height() as i64 - self.right_height() as i64;
        assert(-0x1_0000_0000 < diff < 0x1_0000_0000);
        assert(diff * diff == 4 <==> (diff == 2 || diff == -2)) by (nonlinear_arith)
            requires
                -0x1_0000_0000 < diff < 0x1_0000_0000,
        {
            if diff >= 3 {
                assert(diff * diff >= 3 * diff);
            } else if diff <= -3 {
                assert(diff * diff >= -3 * diff);
            }
        }
        diff == 2 || diff == -2
    }

    /// Returns the value of the entry covering `key` in this subtree, if any.
    fn get(&self, key: &Key) -> (res: Option<&Value>)
        requires
            t_wf(Some(Box::new(*self))),
        ensures
            match res {
                Some(v) => exists|e: (int, int, Value)| #[trigger]
                    t_entries(Some(Box::new(*self))).contains(e) && covers(e.0, e.1, key.point())
                        && e.2 == *v,
                None => forall|e: (int, int, Value)| #[trigger]
                    t_entries(Some(Box::new(*self))).contains(e) ==> !covers(e.0, e.1, key.point()),
            },
        decreases t_count(Some(Box::new(*self))),
    {
        let ghost me = Some(Box::new(*self));
        let ghost k = key.point();
        proof { lemma_wf_max_end(me); }
        assert(t_entries(me) == t_entries(self.left).union(t_entries(self.right)).insert(
            (self.keys@.0, self.keys@.1, self.value),
        ));
        if self.max_end.precedes(key) {
            return None;
        }
        if !key.precedes(&self.keys.start) && !self.keys.end.precedes(key) {
            assert(t_entries(me).contains((self.keys@.0, self.keys@.1, self.value)));
            return Some(&self.value);
        }
        if let Some(left) = &self.left {
            assert(Some(Box::new(**left)) == self.left);
            if let Some(value) = left.get(key) {
                let ghost e = choose|e: (int, int, Value)|
                    t_entries(self.left).contains(e) && covers(e.0, e.1, k) && e.2 == *value;
                assert(t_entries(me).contains(e));
                return Some(value);
            }
        }
        if key.precedes(&self.keys.start) {
            assert forall|e: (int, int, Value)| #[trigger] t_entries(me).contains(e) implies !covers(
                e.0,
                e.1,
                k,
            ) by {
                if t_entries(self.right).contains(e) {
                } else if t_entries(self.left).contains(e) {
                } else {
                    assert(e == (self.keys@.0, self.keys@.1, self.value));
                }
            }
            return None;
        }
        match &self.right {
            None => {
                assert forall|e: (int, int, Value)| #[trigger] t_entries(me).contains(e) implies !covers(
                    e.0,
                    e.1,
                    k,
                ) by {
                    if t_entries(self.left).contains(e) {
                    } else if t_entries(self.right).contains(e) {
                    } else {
                        assert(e == (self.keys@.0, self.keys@.1, self.value));
                    }
                }
                None
            },
            Some(right) => {
                assert(Some(Box::new(**right)) == self.right);
                let res = right.get(key);
                match res {
                    Some(value) => {
                        let ghost e = choose|e: (int, int, Value)|
                            t_entries(self.right).contains(e) && covers(e.0, e.1, k) && e.2
                                == *value;
                        assert(t_entries(me).contains(e));
                    },
                    None => {
                        assert forall|e: (int, int, Value)| #[trigger]
                            t_entries(me).contains(e) implies !covers(e.0, e.1, k) by {
                            if t_entries(self.left).contains(e) {
                            }
                        }
                    },
                }
                res
            },
        }
    }

    /// Returns true if `keys` overlaps the interval of some entry in this subtree.
    fn overlaps(&self, keys: &Interval<Key>) -> (res: bool)
        requires
            t_wf(Some(Box::new(*self))),
        ensures
            res == exists|e: (int, int, Value)| #[trigger]
                t_entries(Some(Box::new(*self))).contains(e) && overlapping(
                    e.0,
                    e.1,
                    keys@.0,
                    keys@.1,
                ),
        decreases t_count(Some(Box::new(*self))),
    {
        let ghost me = Some(Box::new(*self));
        let ghost ks = keys@.0;
        let ghost ke = keys@.1;
        proof { lemma_wf_max_end(me); }
        assert(t_entries(me) == t_entries(self.left).union(t_entries(self.right)).insert(
            (self.keys@.0, self.keys@.1, self.value),
        ));
        if self.max_end.precedes(&keys.start) {
            return false;
        }
        if !keys.end.precedes(&self.keys.start) && !self.keys.end.precedes(&keys.start) {
            assert(t_entries(me).contains((self.keys@.0, self.keys@.1, self.value)));
            return true;
        }
        if let Some(left) = &self.left {
            assert(Some(Box::new(**left)) == self.left);
            if left.overlaps(keys) {
                let ghost e = choose|e: (int, int, Value)|
                    t_entries(self.left).contains(e) && overlapping(e.0, e.1, ks, ke);
                assert(t_entries(me).contains(e));
                return true;
            }
        }
        if keys.end.precedes(&self.keys.start) {
            assert forall|e: (int, int, Value)| #[trigger] t_entries(me).contains(e) implies !overlapping(
                e.0,
                e.1,
                ks,
                ke,
            ) by {
                if t_entries(self.right).contains(e) {
                } else if t_entries(self.left).contains(e) {
                } else {
                    assert(e == (self.keys@.0, self.keys@.1, self.value));
                }
            }
            return false;
        }
        match &self.right {
            None => {
                assert forall|e: (int, int, Value)| #[trigger]
                    t_entries(me).contains(e) implies !overlapping(e.0, e.1, ks, ke) by {
                    if t_entries(self.left).contains(e) {
                    } else if t_entries(self.right).contains(e) {
                    } else {
                        assert(e == (self.keys@.0, self.keys@.1, self.value));
                    }
                }
                false
            },
            Some(right) => {
                assert(Some(Box::new(**right)) == self.right);
                let res = right.overlaps(keys);
                if res {
                    let ghost e = choose|e: (int, int, Value)|
                        t_entries(self.right).contains(e) && overlapping(e.0, e.1, ks, ke);
                    assert(t_entries(me).contains(e));
                } else {
                    assert forall|e: (int, int, Value)| #[trigger]
                        t_entries(me).contains(e) implies !overlapping(e.0, e.1, ks, ke) by {
                        if t_entries(self.left).contains(e) {
                        } else if t_entries(self.right).contains(e) {
                        } else {
                            assert(e == (self.keys@.0, self.keys@.1, self.value));
                        }
                    }
                }
                res
            },
        }
    }
}

/// The direction of a rebalancing rotation.
enum Rotation {
    Right,
    Left,
}

impl<Key: Bound, Value> IntervalMap<Key, Value> {
    #[verifier::type_invariant]
    closed spec fn well_formed(&self) -> bool {
        &&& t_wf(self.root)
        &&& t_bal(self.root)
        &&& point_disjoint(t_entries(self.root))
    }

    /// The entries `(start, end, value)` of the map.
    pub closed spec fn entries(&self) -> Set<(int, int, Value)> {
        t_entries(self.root)
    }

    /// The number of stored entries (counting repeated insertions of equal entries).
    pub closed spec fn size(&self) -> nat {
        t_count(self.root)
    }

    /// Returns a new empty map.
    pub fn new() -> (map: Self)
        ensures
            map.entries() == Set::<(int, int, Value)>::empty(),
            map.size() == 0,
            point_disjoint(map.entries()),
    {
        IntervalMap { root: None }
    }

    /// Returns the height of the underlying search tree (0 when the map is empty). The tree is
    /// height-balanced: a tree of height `h` holds at least `avl_min(h)` entries (the Fibonacci
    /// bound) and at most `2^h - 1`, so its height grows with the logarithm of its size.
    pub fn height(&self) -> (h: u32)
        ensures
            h <= self.size(),
            h == 0 <==> self.size() == 0,
            avl_min(h as nat) <= self.size(),
            self.size() <= full_count(h as nat),
    {
        proof {
            use_type_invariant(self);
            lemma_bal_count(self.root);
            lemma_count_below_full(self.root);
        }
        match &self.root {
            None => 0,
            Some(root) => root.height,
        }
    }

    /// Returns the value associated with the interval containing `key`, or `None` if no
    /// interval of the map contains `key`.
    pub fn get(&self, key: &Key) -> (res: Option<&Value>)
        ensures
            match res {
                Some(v) => exists|e: (int, int, Value)| #[trigger]
                    self.entries().contains(e) && covers(e.0, e.1, key.point()) && e.2 == *v,
                None => forall|e: (int, int, Value)| #[trigger]
                    self.entries().contains(e) ==> !covers(e.0, e.1, key.point()),
            },
    {
        proof { use_type_invariant(self); }
        match &self.root {
            None => None,
            Some(root) => {
                assert(Some(Box::new(**root)) == self.root);
                let res = root.get(key);
                if let Some(v) = res {
                    let ghost e = choose|e: (int, int, Value)|
                        t_entries(self.root).contains(e) && covers(e.0, e.1, key.point()) && e.2
                            == *v;
                    assert(self.entries().contains(e));
                }
                res
            },
        }
    }

    /// Associates `value` with the interval `keys`, or returns `OverlapErr` (leaving the map
    /// unchanged) if `keys` overlaps an interval already in the map.
    pub fn insert(&mut self, keys: Interval<Key>, value: Value) -> (res: Result<(), Error>)
        requires
            old(self).size() + 1 < u32::MAX,
        ensures
            res is Err <==> exists|e: (int, int, Value)| #[trigger]
                old(self).entries().contains(e) && overlapping(e.0, e.1, keys@.0, keys@.1),
            res is Ok ==> final(self).entries() == old(self).entries().insert(
                (keys@.0, keys@.1, value),
            ) && final(self).size() == old(self).size() + 1,
            res is Err ==> final(self).entries() == old(self).entries() && final(self).size()
                == old(self).size(),
            point_disjoint(final(self).entries()),
    {
        proof { use_type_invariant(&*self); }
        if let Some(root) = &self.root {
            assert(Some(Box::new(**root)) == self.root);
            if root.overlaps(&keys) {
                let ghost e = choose|e: (int, int, Value)|
                    t_entries(self.root).contains(e) && overlapping(e.0, e.1, keys@.0, keys@.1);
                assert(old(self).entries().contains(e));
                return Err(Error::OverlapErr);
            }
        }
        let ghost old_entries = t_entries(self.root);
        let ghost new_entry = (keys@.0, keys@.1, value);
        assert forall|e: (int, int, Value), k: int|
            old_entries.insert(new_entry).contains(e) && old_entries.insert(new_entry).contains(
                new_entry,
            ) && #[trigger] covers(e.0, e.1, k) && covers(new_entry.0, new_entry.1, k)
            implies e == new_entry by {
            if e != new_entry {
                assert(old_entries.contains(e));
                assert(overlapping(e.0, e.1, keys@.0, keys@.1));
            }
        }
        let mut root = None;
        std::mem::swap(&mut root, &mut self.root);
        let new_root = Self::insert_rec_opt(root, keys, value);
        self.root = Some(new_root);
        Ok(())
    }

    fn insert_rec(mut node: HeapNode<Key, Value>, keys: Interval<Key>, value: Value) -> (r:
        HeapNode<Key, Value>)
        requires
            t_wf(Some(node)),
            t_bal(Some(node)),
            t_count(Some(node)) + 1 < u32::MAX,
        ensures
            t_wf(Some(r)),
            t_bal(Some(r)),
            t_height(Some(node)) <= t_height(Some(r)) <= t_height(Some(node)) + 1,
            t_entries(Some(r)) == t_entries(Some(node)).insert((keys@.0, keys@.1, value)),
            t_count(Some(r)) == t_count(Some(node)) + 1,
        decreases t_count(Some(node)), 0nat,
    {
        let ghost old_node = node;
        let ghost new_entry = (keys@.0, keys@.1, value);
        if !node.keys.start.precedes(&keys.start) {
            let left = node.left.take();
            let new_left = Self::insert_rec_opt(left, keys, value);
            node.left = Some(new_left);
            assert forall|e: (int, int, Value)| #[trigger]
                t_entries(node.left).contains(e) implies e.0 <= node.keys@.0 by {
                if e != new_entry {
                    assert(t_entries(old_node.left).contains(e));
                }
            }
        } else {
            let right = node.right.take();
            let new_right = Self::insert_rec_opt(right, keys, value);
            node.right = Some(new_right);
            assert forall|e: (int, int, Value)| #[trigger]
                t_entries(node.right).contains(e) implies node.keys@.0 <= e.0 by {
                if e != new_entry {
                    assert(t_entries(old_node.right).contains(e));
                }
            }
        }
        node.update_from_children();
        assert(t_entries(Some(node)) =~= t_entries(Some(old_node)).insert(new_entry));
        if node.needs_balance() {
            node = Self::balance(node);
        }
        node
    }

    fn insert_rec_opt(
        node_opt: Option<HeapNode<Key, Value>>,
        keys: Interval<Key>,
        value: Value,
    ) -> (r: HeapNode<Key, Value>)
        requires
            t_wf(node_opt),
            t_bal(node_opt),
            t_count(node_opt) + 1 < u32::MAX,
        ensures
            t_wf(Some(r)),
            t_bal(Some(r)),
            t_height(node_opt) <= t_height(Some(r)) <= t_height(node_opt) + 1,
            t_entries(Some(r)) == t_entries(node_opt).insert((keys@.0, keys@.1, value)),
            t_count(Some(r)) == t_count(node_opt) + 1,
        decreases t_count(node_opt), 1nat,
    {
        if let Some(node) = node_opt {
            Self::insert_rec(node, keys, value)
        } else {
            new_node(keys, value)
        }
    }

    fn balance(mut node: HeapNode<Key, Value>) -> (r: HeapNode<Key, Value>)
        requires
            t_wf(Some(node)),
            t_count(Some(node)) < u32::MAX,
            t_height(node.left) == t_height(node.right) + 2 || t_height(node.right) == t_height(
                node.left,
            ) + 2,
            t_bal(node.left),
            t_bal(node.right),
        ensures
            t_wf(Some(r)),
            t_bal(Some(r)),
            t_height(Some(r)) == t_height(Some(node)) || t_height(Some(r)) + 1 == t_height(Some(node)),
            t_entries(Some(r)) == t_entries(Some(node)),
            t_count(Some(r)) == t_count(Some(node)),
    {
        let (rotation, double) = if node.left_height() > node.right_height() {
            let left_node = node.left.as_ref().unwrap();
            (Rotation::Right, left_node.left_height() < left_node.right_height())
        } else {
            let right_node = node.right.as_ref().unwrap();
            (Rotation::Left, right_node.right_height() < right_node.left_height())
        };
        match rotation {
            Rotation::Right => {
                if double {
                    let ghost old_node = node;
                    let left = node.left.take().unwrap();
                    assert(old_node.left == Some(left));
                    assert(t_wf(Some(left)));
                    assert(t_shape(Some(left)));
                    let rotated = Self::left_rotation(left);
                    let ghost m1 = rotated;
                    node.left = Some(rotated);
                    assert(t_entries(node.left) == t_entries(old_node.left));
                    assert(t_entries(Some(node)) =~= t_entries(Some(old_node)));
                    assert(t_shape(Some(node)));
                    let ghost n2 = node;
                    let r = Self::right_rotation(node);
                    proof {
                        let l = left;
                        let m = l.right.unwrap();
                        let l1 = m1.left.unwrap();
                        let c = old_node.right;
                        assert(t_bal(Some(l)));
                        assert(t_wf(Some(l)));
                        assert(t_bal(l.right) && t_wf(l.right));
                        assert(t_bal(Some(m)));
                        assert(t_wf(Some(m)));
                        assert(t_wf(Some(m1)));
                        assert(t_wf(m1.left));
                        assert(t_bal(Some(l1)));
                        assert(t_wf(r.right));
                        assert(t_bal(r.right));
                    }
                    return r;
                }
                let ghost n0 = node;
                let r = Self::right_rotation(node);
                proof {
                    let l = n0.left.unwrap();
                    assert(t_bal(Some(l)));
                    assert(t_wf(Some(l)));
                    assert(t_wf(r.right));
                    assert(t_bal(r.right));
                }
                r
            },
            Rotation::Left => {
                if double {
                    let ghost old_node = node;
                    let right = node.right.take().unwrap();
                    assert(old_node.right == Some(right));
                    assert(t_wf(Some(right)));
                    assert(t_shape(Some(right)));
                    let rotated = Self::right_rotation(right);
                    let ghost m1 = rotated;
                    node.right = Some(rotated);
                    assert(t_entries(node.right) == t_entries(old_node.right));
                    assert(t_entries(Some(node)) =~= t_entries(Some(old_node)));
                    assert(t_shape(Some(node)));
                    let r = Self::left_rotation(node);
                    proof {
                        let rr = right;
                        let m = rr.left.unwrap();
                        let r1 = m1.right.unwrap();
                        assert(t_bal(Some(rr)));
                        assert(t_wf(Some(rr)));
                        assert(t_bal(rr.left) && t_wf(rr.left));
                        assert(t_bal(Some(m)));
                        assert(t_wf(Some(m)));
                        assert(t_wf(Some(m1)));
                        assert(t_wf(m1.right));
                        assert(t_bal(Some(r1)));
                        assert(t_wf(r.left));
                        assert(t_bal(r.left));
                    }
                    return r;
                }
                let ghost n0 = node;
                let r = Self::left_rotation(node);
                proof {
                    let rr = n0.right.unwrap();
                    assert(t_bal(Some(rr)));
                    assert(t_wf(Some(rr)));
                    assert(t_wf(r.left));
                    assert(t_bal(r.left));
                }
                r
            },
        }
    }

    fn right_rotation(mut node: HeapNode<Key, Value>) -> (r: HeapNode<Key, Value>)
        requires
            t_shape(Some(node)),
            node.left is Some,
            t_count(Some(node)) < u32::MAX,
        ensures
            t_wf(Some(r)),
            t_entries(Some(r)) == t_entries(Some(node)),
            t_count(Some(r)) == t_count(Some(node)),
            t_height(Some(r)) > 0,
            r.left == node.left.unwrap().left,
            r.right is Some,
            r.right.unwrap().left == node.left.unwrap().right,
            r.right.unwrap().right == node.right,
    {
        let ghost n0 = node;
        let mut left = node.left.take().unwrap();
        let ghost l0 = left;
        assert(n0.left == Some(l0));
        assert(t_wf(Some(l0)));
        assert(t_entries(Some(left)).contains((left.keys@.0, left.keys@.1, left.value)));
        node.left = left.right.take();
        assert forall|e: (int, int, Value)| #[trigger]
            t_entries(node.left).contains(e) implies e.0 <= node.keys@.0 by {
            assert(t_entries(Some(l0)).contains(e));
        }
        node.update_from_children();
        let ghost n1 = node;
        assert(t_entries(Some(n1)) =~= t_entries(l0.right).union(t_entries(n0.right)).insert(
            (n0.keys@.0, n0.keys@.1, n0.value),
        ));
        left.right = Some(node);
        assert forall|e: (int, int, Value)| #[trigger]
            t_entries(left.right).contains(e) implies left.keys@.0 <= e.0 by {
            if t_entries(n0.right).contains(e) {
            } else if t_entries(l0.right).contains(e) {
            } else {
                assert(e == (n0.keys@.0, n0.keys@.1, n0.value));
            }
        }
        left.update_from_children();
        assert(t_entries(Some(left)) =~= t_entries(Some(n0)));
        left
    }

    fn left_rotation(mut node: HeapNode<Key, Value>) -> (r: HeapNode<Key, Value>)
        requires
            t_shape(Some(node)),
            node.right is Some,
            t_count(Some(node)) < u32::MAX,
        ensures
            t_wf(Some(r)),
            t_entries(Some(r)) == t_entries(Some(node)),
            t_count(Some(r)) == t_count(Some(node)),
            t_height(Some(r)) > 0,
            r.right == node.right.unwrap().right,
            r.left is Some,
            r.left.unwrap().right == node.right.unwrap().left,
            r.left.unwrap().left == node.left,
    {
        let ghost n0 = node;
        let mut right = node.right.take().unwrap();
        let ghost r0 = right;
        assert(n0.right == Some(r0));
        assert(t_wf(Some(r0)));
        assert(t_entries(Some(right)).contains((right.keys@.0, right.keys@.1, right.value)));
        node.right = right.left.take();
        assert forall|e: (int, int, Value)| #[trigger]
            t_entries(node.right).contains(e) implies node.keys@.0 <= e.0 by {
            assert(t_entries(Some(r0)).contains(e));
        }
        node.update_from_children();
        let ghost n1 = node;
        assert(t_entries(Some(n1)) =~= t_entries(n0.left).union(t_entries(r0.left)).insert(
            (n0.keys@.0, n0.keys@.1, n0.value),
        ));
        right.left = Some(node);
        assert forall|e: (int, int, Value)| #[trigger]
            t_entries(right.left).contains(e) implies e.0 <= right.keys@.0 by {
            if t_entries(n0.left).contains(e) {
            } else if t_entries(r0.left).contains(e) {
            } else {
                assert(e == (n0.keys@.0, n0.keys@.1, n0.value));
            }
        }
        right.update_from_children();
        assert(t_entries(Some(right)) =~= t_entries(Some(n0)));
        right
    }
}

/// Error: represents an error encountered when using an interval map.
#[derive(Debug)]
pub enum Error {
    /// The inserted interval overlaps an interval already in the map.
    OverlapErr,
}


/// A read gives back what a write wrote: once `(s, e, v)` is inserted into a map whose
/// intervals stay disjoint, every point of `[s, e]` is covered by that entry, and by no entry
/// with another value.
pub proof fn law_get_after_insert<V>(entries: Set<(int, int, V)>, s: int, e: int, v: V, k: int)
    requires
        point_disjoint(entries.insert((s, e, v))),
        covers(s, e, k),
    ensures
        entries.insert((s, e, v)).contains((s, e, v)),
        forall|x: (int, int, V)| #[trigger]
            entries.insert((s, e, v)).contains(x) && covers(x.0, x.1, k) ==> x.2 == v,
{
    assert forall|x: (int, int, V)| #[trigger]
        entries.insert((s, e, v)).contains(x) && covers(x.0, x.1, k) implies x.2 == v by {
        let all = entries.insert((s, e, v));
        let new = (s, e, v);
        assert(all.contains(new));
        assert(covers(new.0, new.1, k));
        assert(all.contains(x) && all.contains(new) && covers(x.0, x.1, k) && covers(new.0, new.1, k));
        assert(x == new);
    }
}

/// Inserting an interval that overlaps none of the map leaves every point outside it covered
/// exactly as before.
pub proof fn law_insert_leaves_other_points<V>(entries: Set<(int, int, V)>, s: int, e: int, v: V, k: int)
    requires
        !covers(s, e, k),
    ensures
        forall|x: (int, int, V)| covers(x.0, x.1, k) ==> (#[trigger] entries.insert((s, e, v)).contains(x)
            <==> entries.contains(x)),
{
}
} // verus!
