use vstd::prelude::*;
use std::collections::HashSet;

verus! {

broadcast use vstd::std_specs::hash::group_hash_axioms;

/// Alphabet: trait representing a lexing alphabet.
pub trait Alphabet {
    /// The characters of the alphabet.
    spec fn chars(&self) -> Set<char>;

    /// Returns true if the alphabet contains `c`, false otherwise.
    fn contains(&self, c: char) -> (r: bool)
        ensures
            r == self.chars().contains(c),
    ;
}

/// Hashed Alphabet: alphabet implementation using hash-based storage of character codes.
pub struct HashedAlphabet {
    alphabet: HashSet<u32>,
}

impl HashedAlphabet {
    /// Returns a new empty alphabet.
    pub fn new() -> (a: HashedAlphabet)
        ensures
            a.chars() == Set::<char>::empty(),
    {
        let a = HashedAlphabet { alphabet: HashSet::new() };
        assert(a.chars() =~= Set::<char>::empty());
        a
    }

    /// Inserts character `c` into the alphabet.
    pub fn insert(&mut self, c: char)
        ensures
            final(self).chars() == old(self).chars().insert(c),
    {
        self.alphabet.insert(c as u32);
        assert forall|d: char| #[trigger] self.chars().contains(d) == old(self).chars().insert(
            c,
        ).contains(d) by {
            vstd::utf8::char_u32_cast(d, d as u32);
            vstd::utf8::char_u32_cast(c, c as u32);
            assert((d as u32 == c as u32) == (d == c));
        }
        assert(self.chars() =~= old(self).chars().insert(c));
    }
}

impl Alphabet for HashedAlphabet {
    closed spec fn chars(&self) -> Set<char> {
        Set::new(|c: char| self.alphabet@.contains(c as u32))
    }

    fn contains(&self, c: char) -> (r: bool) {
        self.alphabet.contains(&(c as u32))
    }
}

} // verus!
