use vstd::prelude::*;
use crate::data::Data;
use vstd::std_specs::cmp::PartialEqSpec;

verus! {

/// Encoder: assigns consecutive integer codes to values, in the order in which they are first
/// encoded.
///
/// The encoder is viewed as the sequence of its values, indexed by code.
pub struct Encoder<T: Data> {
    decoder: Vec<T>,
}

impl<T: Data> View for Encoder<T> {
    type V = Seq<T>;

    closed spec fn view(&self) -> Seq<T> {
        self.decoder@
    }
}

/// The first code of `values` whose value equals `value`, if any.
pub open spec fn first_code<T: Data>(values: Seq<T>, value: T) -> Option<int>
    decreases values.len(),
{
    if values.len() == 0 {
        None
    } else {
        match first_code(values.drop_last(), value) {
            Some(i) => Some(i),
            None => if values.last().eq_spec(&value) {
                Some(values.len() - 1)
            } else {
                None
            },
        }
    }
}

/// The values after encoding `value`, and its code, where equality and cloning of `T` are
/// exact: the first code of an equal value, or else the next code, assigned to `value`.
pub open spec fn encode_spec<T: Data>(values: Seq<T>, value: T) -> (Seq<T>, int) {
    match first_code(values, value) {
        Some(i) => (values, i),
        None => (values.push(value), values.len() as int),
    }
}

impl<T: Data> Encoder<T> {
    /// Returns a new encoder with no codes assigned.
    pub fn new() -> (e: Self)
        ensures
            e@ == Seq::<T>::empty(),
    {
        Encoder { decoder: Vec::new() }
    }

    /// Returns the code of `value`, assigning the next free code to it if it has none yet.
    pub fn encode(&mut self, value: &T) -> (code: usize)
        ensures
            T::obeys_eq_spec() && crate::data::clones_exactly::<T>() ==> (
            final(self)@,
            code as int,
            ) == encode_spec(old(self)@, *value),
            T::obeys_eq_spec() ==> match first_code(old(self)@, *value) {
                Some(i) => code == i && final(self)@ == old(self)@,
                None => code == old(self)@.len() && final(self)@.len() == old(self)@.len() + 1
                    && final(self)@.take(old(self)@.len() as int) == old(self)@ && cloned(
                    *value,
                    final(self)@[code as int],
                ),
            },
            code < final(self)@.len(),
            final(self)@.len() <= usize::MAX,
            old(self)@.len() <= final(self)@.len(),
            final(self)@.len() <= old(self)@.len() + 1,
            final(self)@.take(old(self)@.len() as int) == old(self)@,
    {
        let mut i: usize = 0;
        while i < self.decoder.len()
            invariant
                i <= self.decoder@.len(),
                self.decoder@ == old(self)@,
                T::obeys_eq_spec() ==> first_code(self.decoder@.take(i as int), *value) is None,
            decreases self.decoder@.len() - i,
        {
            assert(self.decoder@.take(i + 1).drop_last() =~= self.decoder@.take(i as int));
            if self.decoder[i] == *value {
                proof {
                    if T::obeys_eq_spec() {
                        assert(first_code(self.decoder@.take(i + 1), *value) == Some(i as int));
                        lemma_first_code_prefix(self.decoder@, *value, i + 1);
                    }
                }
                assert(self.decoder@.take(self.decoder@.len() as int) =~= self.decoder@);
                assert(self.decoder.len() == self.decoder@.len());
                return i;
            }
            i += 1;
        }
        assert(self.decoder@.take(i as int) =~= self.decoder@);
        let code = self.decoder.len();
        let v = value.clone();
        self.decoder.push(v);
        assert(self.decoder.len() == self.decoder@.len());
        assert(self.decoder@.take(code as int) =~= old(self)@);
        proof {
            if T::obeys_eq_spec() && crate::data::clones_exactly::<T>() {
                assert(cloned(*value, v));
                assert(self.decoder@ =~= old(self)@.push(*value));
            }
        }
        code
    }

    /// Returns the value with code `code`, or `None` if no value has that code.
    pub fn decode(&self, code: usize) -> (value: Option<&T>)
        ensures
            value == if code < self@.len() {
                Some(&self@[code as int])
            } else {
                None::<&T>
            },
    {
        if code < self.decoder.len() {
            Some(&self.decoder[code])
        } else {
            None
        }
    }

    /// Returns the number of codes assigned.
    pub fn len(&self) -> (n: usize)
        ensures
            n == self@.len(),
    {
        self.decoder.len()
    }
}

/// A code found in a prefix of `values` is the first code of `values`.
pub(crate) proof fn lemma_first_code_prefix<T: Data>(values: Seq<T>, value: T, k: int)
    requires
        0 <= k <= values.len(),
        first_code(values.take(k), value) is Some,
    ensures
        first_code(values, value) == first_code(values.take(k), value),
    decreases values.len(),
{
    if k < values.len() {
        assert(values.drop_last().take(k) =~= values.take(k));
        lemma_first_code_prefix(values.drop_last(), value, k);
    } else {
        assert(values.take(k) =~= values);
    }
}

/// A first code holds a value equal to the one looked up.
pub(crate) proof fn lemma_first_code_found<T: Data>(values: Seq<T>, value: T)
    requires
        crate::data::value_exact::<T>(),
    ensures
        first_code(values, value) matches Some(i) ==> 0 <= i < values.len() && values[i] == value,
        first_code(values, value) is None ==> !values.contains(value),
    decreases values.len(),
{
    if values.len() > 0 {
        lemma_first_code_found(values.drop_last(), value);
        if first_code(values, value) is None {
            assert forall|i: int| 0 <= i < values.len() implies values[i] != value by {
                if i < values.len() - 1 {
                    assert(values.drop_last()[i] == values[i]);
                }
            }
        }
    }
}

/// Decoding undoes encoding, and encoding is idempotent: where equality and cloning are exact,
/// the code of an encoded value holds that value, the earlier codes are kept, and encoding the
/// value again gives the same code and leaves the codes unchanged.
pub proof fn law_encode_decode<T: Data>(values: Seq<T>, value: T)
    requires
        crate::data::value_exact::<T>(),
    ensures
        0 <= encode_spec(values, value).1 < encode_spec(values, value).0.len(),
        encode_spec(values, value).0[encode_spec(values, value).1] == value,
        encode_spec(values, value).0.take(values.len() as int) == values,
        encode_spec(encode_spec(values, value).0, value) == encode_spec(values, value),
{
    lemma_first_code_found(values, value);
    match first_code(values, value) {
        Some(i) => {
            assert(values.take(values.len() as int) =~= values);
        },
        None => {
            let pushed = values.push(value);
            assert(pushed.take(values.len() as int) =~= values);
            assert(pushed.drop_last() =~= values);
            assert(first_code(pushed, value) == Some(values.len() as int));
        },
    }
}

/// Encoding never loses codes: the code given is one of the codes after encoding, and no
/// code is taken away.
pub proof fn lemma_encode_grows<T: Data>(values: Seq<T>, value: T)
    ensures
        0 <= encode_spec(values, value).1 < encode_spec(values, value).0.len(),
        encode_spec(values, value).0.len() >= values.len(),
{
    lemma_first_code_bound(values, value);
}

proof fn lemma_first_code_bound<T: Data>(values: Seq<T>, value: T)
    ensures
        first_code(values, value) matches Some(i) ==> 0 <= i < values.len(),
    decreases values.len(),
{
    if values.len() > 0 {
        lemma_first_code_bound(values.drop_last(), value);
    }
}

} // verus!
