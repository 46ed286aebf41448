use vstd::prelude::*;
use crate::data::{clones_exactly, eq_exact, Data};

verus! {

/// Whether `i` is the first position of `s` holding `x`.
pub open spec fn first_index<T>(s: Seq<T>, x: T, i: int) -> bool {
    &&& 0 <= i < s.len()
    &&& s[i] == x
    &&& forall|j: int| 0 <= j < i ==> s[j] != x
}

/// Whether `i` is the first entry of `s` with key `k`.
pub open spec fn first_key_index<K, V>(s: Seq<(K, V)>, k: K, i: int) -> bool {
    &&& 0 <= i < s.len()
    &&& s[i].0 == k
    &&& forall|j: int| 0 <= j < i ==> s[j].0 != k
}

/// Whether some entry of `s` has key `k`.
pub open spec fn has_key<K, V>(s: Seq<(K, V)>, k: K) -> bool {
    exists|i: int| 0 <= i < s.len() && #[trigger] s[i].0 == k
}

/// The value of the first entry of `s` with key `k`, if any.
pub open spec fn lookup<K, V>(s: Seq<(K, V)>, k: K) -> Option<V> {
    if has_key(s, k) {
        Some(s[choose|i: int| first_key_index(s, k, i)].1)
    } else {
        None
    }
}

/// A key that occurs in a sequence of entries has a first entry.
pub proof fn lemma_first_key_exists<K, V>(s: Seq<(K, V)>, k: K)
    requires
        has_key(s, k),
    ensures
        exists|i: int| first_key_index(s, k, i),
{
    let i = choose|i: int| 0 <= i < s.len() && #[trigger] s[i].0 == k;
    lemma_first_key_below(s, k, i);
}

/// A key that occurs at position `i` has a first entry, at or before `i`.
proof fn lemma_first_key_below<K, V>(s: Seq<(K, V)>, k: K, i: int)
    requires
        0 <= i < s.len(),
        s[i].0 == k,
    ensures
        exists|j: int| first_key_index(s, k, j),
    decreases i,
{
    if exists|j: int| 0 <= j < i && #[trigger] s[j].0 == k {
        let j = choose|j: int| 0 <= j < i && #[trigger] s[j].0 == k;
        lemma_first_key_below(s, k, j);
    } else {
        assert(first_key_index(s, k, i));
    }
}

/// The first entry with a key is unique.
pub proof fn lemma_first_key_unique<K, V>(s: Seq<(K, V)>, k: K, i: int, j: int)
    requires
        first_key_index(s, k, i),
        first_key_index(s, k, j),
    ensures
        i == j,
{
}

/// Returns the position of the first entry of `s` with key `k`, or `None` if there is none.
pub fn key_position<K: Data, V>(s: &Vec<(K, V)>, k: &K) -> (r: Option<usize>)
    ensures
        eq_exact::<K>() ==> match r {
            Some(i) => first_key_index(s@, *k, i as int),
            None => !has_key(s@, *k),
        },
        r matches Some(i) ==> i < s@.len(),
{
    let mut i: usize = 0;
    while i < s.len()
        invariant
            i <= s@.len(),
            eq_exact::<K>() ==> forall|j: int| 0 <= j < i ==> s@[j].0 != *k,
        decreases s@.len() - i,
    {
        if s[i].0 == *k {
            return Some(i);
        }
        i += 1;
    }
    None
}

/// Returns the value of the first entry of `s` with key `k`, or `None` if there is none.
pub fn key_lookup<'a, K: Data, V>(s: &'a Vec<(K, V)>, k: &K) -> (r: Option<&'a V>)
    ensures
        eq_exact::<K>() ==> r == match lookup(s@, *k) {
            Some(v) => Some(&v),
            None => None::<&V>,
        },
{
    match key_position(s, k) {
        Some(i) => {
            proof {
                if eq_exact::<K>() {
                    let j = choose|j: int| first_key_index(s@, *k, j);
                    lemma_first_key_unique(s@, *k, i as int, j);
                }
            }
            Some(&s[i].1)
        },
        None => None,
    }
}

/// Returns true if `x` occurs in `s`.
pub fn contains_value<T: Data>(s: &Vec<T>, x: &T) -> (b: bool)
    ensures
        eq_exact::<T>() ==> b == s@.contains(*x),
{
    let mut i: usize = 0;
    while i < s.len()
        invariant
            i <= s@.len(),
            eq_exact::<T>() ==> forall|j: int| 0 <= j < i ==> s@[j] != *x,
        decreases s@.len() - i,
    {
        if s[i] == *x {
            return true;
        }
        i += 1;
    }
    false
}

/// Adds a clone of `x` to `s`, unless `x` already occurs in it.
pub fn insert_value<T: Data>(s: &mut Vec<T>, x: &T)
    ensures
        eq_exact::<T>() && clones_exactly::<T>() ==> final(s)@.to_set()
            == old(s)@.to_set().insert(*x),
        eq_exact::<T>() && clones_exactly::<T>() && old(s)@.no_duplicates()
            ==> final(s)@.no_duplicates(),
        final(s)@.len() <= old(s)@.len() + 1,
{
    if !contains_value(s, x) {
        let y = x.clone();
        s.push(y);
        proof {
            if eq_exact::<T>() && clones_exactly::<T>() {
                assert(cloned(*x, y));
                old(s)@.lemma_push_to_set_commute(*x);
            }
        }
    } else {
        proof {
            if eq_exact::<T>() {
                assert(old(s)@.to_set().contains(*x));
                assert(old(s)@.to_set().insert(*x) =~= old(s)@.to_set());
            }
        }
    }
}

/// Returns the elements of `v` in reverse order.
pub fn reverse_vec<T>(v: Vec<T>) -> (r: Vec<T>)
    ensures
        r@ == v@.reverse(),
{
    let mut v = v;
    let ghost orig = v@;
    let mut r: Vec<T> = Vec::new();
    while v.len() > 0
        invariant
            v@ == orig.take(v@.len() as int),
            v@.len() <= orig.len(),
            r@ == orig.skip(v@.len() as int).reverse(),
        decreases v@.len(),
    {
        let x = v.pop().unwrap();
        r.push(x);
        proof {
            assert(r@ =~= orig.skip(v@.len() as int).reverse());
            assert(v@ =~= orig.take(v@.len() as int));
        }
    }
    proof {
        assert(orig.skip(0) =~= orig);
    }
    r
}

} // verus!
