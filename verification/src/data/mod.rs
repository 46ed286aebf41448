use vstd::prelude::*;
use vstd::std_specs::cmp::PartialEqSpec;

pub mod bst;
pub mod interval;
pub mod map;
pub mod stream;
pub mod trie;

verus! {

/// A trait encapsulating some piece of data, with useful requirements for equality, comparison,
/// and debugging.
pub trait Data: Sized + Clone + PartialEq + Eq + core::hash::Hash + core::fmt::Debug {
    /// The string representation of the data, where `renders_exactly` holds.
    open spec fn rendered(&self) -> Seq<char> {
        Seq::empty()
    }

    /// Whether `to_string` gives `rendered`: true for the types of this crate, false unless an
    /// implementation says otherwise.
    open spec fn renders_exactly() -> bool {
        false
    }

    /// Returns a string representation of the data.
    fn to_string(&self) -> (r: String)
        ensures
            Self::renders_exactly() ==> r@ == self.rendered(),
    ;
}

/// Whether every clone of a `T` is equal to the value it was cloned from.
pub open spec fn clones_exactly<T: Clone>() -> bool {
    forall|a: T, b: T| #[trigger] cloned(a, b) ==> a == b
}

/// Whether `==` on `T` is spec equality.
pub open spec fn eq_exact<T: PartialEq>() -> bool {
    &&& T::obeys_eq_spec()
    &&& forall|a: T, b: T| #[trigger] a.eq_spec(&b) <==> a == b
}

/// Whether equality and cloning of `T` coincide with spec equality.
pub open spec fn value_exact<T: Data>() -> bool {
    eq_exact::<T>() && clones_exactly::<T>()
}

/// Equality and cloning of `usize` are exact.
pub proof fn lemma_usize_exact()
    ensures
        eq_exact::<usize>(),
        clones_exactly::<usize>(),
{
    assert forall|a: usize, b: usize| #[trigger] cloned(a, b) implies a == b by {
        if vstd::pervasive::strictly_cloned(a, b) {
            assert(call_ensures(usize::clone, (&a,), b));
        }
    }
}

/// The character of decimal digit `d`.
pub open spec fn digit_char(d: nat) -> char {
    if d == 0 { '0' } else if d == 1 { '1' } else if d == 2 { '2' } else if d == 3 { '3' } else if d == 4 {
        '4'
    } else if d == 5 { '5' } else if d == 6 { '6' } else if d == 7 { '7' } else if d == 8 { '8' } else {
        '9'
    }
}

/// The decimal digits of `n`, most significant first, with no leading zeros.
pub open spec fn decimal_text(n: nat) -> Seq<char>
    decreases n,
{
    if n < 10 {
        seq![digit_char(n)]
    } else {
        decimal_text(n / 10).push(digit_char(n % 10))
    }
}

/// Returns the character of decimal digit `d`.
fn digit_char_of(d: usize) -> (c: char)
    requires
        d < 10,
    ensures
        c == digit_char(d as nat),
{
    if d == 0 { '0' } else if d == 1 { '1' } else if d == 2 { '2' } else if d == 3 { '3' } else if d == 4 {
        '4'
    } else if d == 5 { '5' } else if d == 6 { '6' } else if d == 7 { '7' } else if d == 8 { '8' } else {
        '9'
    }
}

/// Returns the decimal digits of `n`.
pub fn decimal_string(n: usize) -> (s: String)
    ensures
        s@ == decimal_text(n as nat),
    decreases n,
{
    if n < 10 {
        let mut s = String::new();
        crate::text::push_char(&mut s, digit_char_of(n));
        s
    } else {
        let mut s = decimal_string(n / 10);
        crate::text::push_char(&mut s, digit_char_of(n % 10));
        s
    }
}

impl Data for usize {
    open spec fn rendered(&self) -> Seq<char> {
        decimal_text(*self as nat)
    }

    open spec fn renders_exactly() -> bool {
        true
    }

    /// Renders the number in decimal.
    fn to_string(&self) -> String {
        decimal_string(*self)
    }
}

impl Data for String {
    open spec fn rendered(&self) -> Seq<char> {
        self@
    }

    open spec fn renders_exactly() -> bool {
        true
    }

    fn to_string(&self) -> String {
        self.clone()
    }
}

} // verus!
