use vstd::prelude::*;
use std::collections::VecDeque;
use crate::data::clones_exactly;

verus! {

/// Returns a copy of `val`, equal to it where cloning a `T` is exact.
fn copy_value<T: Clone>(val: &T) -> (v: T)
    ensures
        clones_exactly::<T>() ==> v == *val,
{
    let v = val.clone();
    proof {
        if clones_exactly::<T>() {
            assert(cloned(*val, v));
        }
    }
    v
}

/// Whether `after` is `before` with a copy of `v` appended: one more value, the same values
/// before it, and that value `v` where cloning a `T` is exact.
pub open spec fn pushed_copy<T: Clone>(before: Seq<T>, after: Seq<T>, v: T) -> bool {
    &&& after.len() == before.len() + 1
    &&& after.take(before.len() as int) == before
    &&& clones_exactly::<T>() ==> after == before.push(v)
}

/// Stream Buffer: the input seen by one stream: the values not yet pulled (`incoming`, next
/// first) and the values pulled but not yet consumed (`outgoing`, oldest first).
pub struct StreamBuffer<T: Clone> {
    incoming_buffer: VecDeque<T>,
    outgoing_buffer: VecDeque<T>,
}

impl<T: Clone> StreamBuffer<T> {
    /// The values not yet pulled, next first.
    pub closed spec fn incoming(&self) -> Seq<T> {
        self.incoming_buffer@
    }

    /// The values pulled but not yet consumed, oldest first.
    pub closed spec fn outgoing(&self) -> Seq<T> {
        self.outgoing_buffer@
    }

    /// Returns a new buffer with no values.
    fn new() -> (b: Self)
        ensures
            b.incoming() == Seq::<T>::empty(),
            b.outgoing() == Seq::<T>::empty(),
    {
        StreamBuffer { incoming_buffer: VecDeque::new(), outgoing_buffer: VecDeque::new() }
    }

    /// Queues a copy of `val` after the incoming values.
    fn push(&mut self, val: &T)
        ensures
            final(self).incoming().len() == old(self).incoming().len() + 1,
            final(self).incoming().take(old(self).incoming().len() as int) == old(self).incoming(),
            clones_exactly::<T>() ==> final(self).incoming() == old(self).incoming().push(*val),
            final(self).outgoing() == old(self).outgoing(),
    {
        self.incoming_buffer.push_back(copy_value(val));
        assert(self.incoming().take(old(self).incoming().len() as int) =~= old(self).incoming());
    }

    /// Removes and returns the next incoming value, if any.
    fn dequeue_incoming(&mut self) -> (v: Option<T>)
        ensures
            old(self).incoming().len() == 0 ==> v is None && final(self).incoming() == old(self).incoming(),
            old(self).incoming().len() > 0 ==> v == Some(old(self).incoming()[0]) && final(self).incoming()
                == old(self).incoming().drop_first(),
            final(self).outgoing() == old(self).outgoing(),
    {
        self.incoming_buffer.pop_front()
    }

    /// Records a copy of `val` as pulled.
    fn enqueue_outgoing(&mut self, val: &T)
        ensures
            final(self).outgoing().len() == old(self).outgoing().len() + 1,
            final(self).outgoing().take(old(self).outgoing().len() as int) == old(self).outgoing(),
            clones_exactly::<T>() ==> final(self).outgoing() == old(self).outgoing().push(*val),
            final(self).incoming() == old(self).incoming(),
    {
        self.outgoing_buffer.push_back(copy_value(val));
        assert(self.outgoing().take(old(self).outgoing().len() as int) =~= old(self).outgoing());
    }

    /// Removes the pulled values and returns them, oldest first.
    fn take_outgoing(&mut self) -> (v: Vec<T>)
        ensures
            v@ == old(self).outgoing(),
            final(self).outgoing() == Seq::<T>::empty(),
            final(self).incoming() == old(self).incoming(),
    {
        let mut v: Vec<T> = Vec::new();
        while self.outgoing_buffer.len() > 0
            invariant
                old(self).outgoing() == v@ + self.outgoing(),
                self.incoming() == old(self).incoming(),
            decreases self.outgoing().len(),
        {
            let ghost before = self.outgoing();
            let ghost before_v = v@;
            match self.outgoing_buffer.pop_front() {
                Some(x) => {
                    v.push(x);
                    assert(before =~= seq![x] + self.outgoing());
                    assert(old(self).outgoing() =~= v@ + self.outgoing());
                },
                None => {},
            }
        }
        assert(v@ + self.outgoing() =~= v@);
        v
    }

    /// Returns true if no value is waiting to be pulled.
    fn input_queued(&self) -> (b: bool)
        ensures
            b == (self.incoming().len() == 0),
    {
        self.incoming_buffer.len() == 0
    }

    /// Moves the next incoming value, if any, to the pulled values without returning it.
    fn advance(&mut self)
        ensures
            old(self).incoming().len() == 0 ==> final(self).incoming() == old(self).incoming()
                && final(self).outgoing() == old(self).outgoing(),
            old(self).incoming().len() > 0 ==> final(self).incoming() == old(self).incoming().drop_first()
                && final(self).outgoing() == old(self).outgoing().push(old(self).incoming()[0]),
    {
        match self.incoming_buffer.pop_front() {
            None => {},
            Some(val) => self.outgoing_buffer.push_back(val),
        }
    }

    /// Returns the pulled values to the front of the incoming values, in their original order.
    fn replay(&mut self)
        ensures
            final(self).incoming() == old(self).outgoing() + old(self).incoming(),
            final(self).outgoing() == Seq::<T>::empty(),
    {
        let mut val: Option<T> = self.outgoing_buffer.pop_back();
        while val.is_some()
            invariant
                val is None ==> self.outgoing().len() == 0,
                old(self).outgoing() + old(self).incoming() == self.outgoing() + match val {
                    Some(v) => seq![v],
                    None => Seq::<T>::empty(),
                } + self.incoming(),
            decreases self.outgoing().len() + if val is Some { 1int } else { 0int },
        {
            let ghost before = self.incoming();
            let ghost rest = self.outgoing();
            match val {
                Some(v) => {
                    let ghost gv = v;
                    self.incoming_buffer.push_front(v);
                    assert(self.incoming() =~= seq![gv] + before);
                    assert(rest + seq![gv] + before =~= rest + self.incoming());
                },
                None => {},
            }
            val = self.outgoing_buffer.pop_back();
            proof {
                if val is Some {
                    let w = val->0;
                    assert(rest =~= self.outgoing().push(w));
                    assert(self.outgoing() + seq![w] + self.incoming() =~= rest + self.incoming());
                } else {
                    assert(rest.len() == 0);
                    assert(self.outgoing() + Seq::<T>::empty() + self.incoming() =~= rest + self.incoming());
                }
            }
        }
        assert(self.outgoing() + Seq::<T>::empty() + self.incoming() =~= self.incoming());
    }
}

/// Stream Source: a source of values, read in order, shared by a stack of streams.
///
/// Each stream reads from its own buffer; a value read from the source is delivered to the
/// buffers of all streams. The stream of the last buffer is the head stream.
pub struct StreamSource<T: Clone> {
    buffers: Vec<StreamBuffer<T>>,
    input: VecDeque<T>,
}

impl<T: Clone> StreamSource<T> {
    /// The values the source has not yet read, next first.
    pub closed spec fn pending(&self) -> Seq<T> {
        self.input@
    }

    /// The number of streams.
    pub closed spec fn depth(&self) -> nat {
        self.buffers@.len()
    }

    /// The values not yet pulled by stream `i`.
    pub closed spec fn incoming_of(&self, i: int) -> Seq<T> {
        self.buffers@[i].incoming()
    }

    /// The values pulled, and not yet consumed, by stream `i`.
    pub closed spec fn outgoing_of(&self, i: int) -> Seq<T> {
        self.buffers@[i].outgoing()
    }

    /// Whether `other` has the same pending values and streams, with the same buffers, as this
    /// source.
    pub open spec fn agrees_with(&self, other: &Self) -> bool {
        &&& self.pending() == other.pending()
        &&& self.depth() == other.depth()
        &&& forall|i: int| 0 <= i < self.depth() ==> #[trigger] self.incoming_of(i) == other.incoming_of(i)
            && self.outgoing_of(i) == other.outgoing_of(i)
    }

    /// Whether `after` has the same pending values and streams as this source, with the same
    /// buffers for every stream but stream `i`.
    pub open spec fn same_except(&self, after: &Self, i: int) -> bool {
        &&& after.pending() == self.pending()
        &&& after.depth() == self.depth()
        &&& forall|j: int|
            0 <= j < self.depth() && j != i ==> #[trigger] after.incoming_of(j) == self.incoming_of(j)
                && after.outgoing_of(j) == self.outgoing_of(j)
    }

    /// Whether `after` is this source with its next pending value read, and a copy of it queued
    /// after the incoming values of every stream but stream `i` (of every stream, for an `i`
    /// that is no stream), their pulled values unchanged.
    pub open spec fn read_except(&self, after: &Self, i: int) -> bool {
        &&& self.pending().len() > 0
        &&& after.pending() == self.pending().drop_first()
        &&& after.depth() == self.depth()
        &&& forall|j: int|
            0 <= j < self.depth() && j != i ==> pushed_copy(
                self.incoming_of(j),
                #[trigger] after.incoming_of(j),
                self.pending()[0],
            ) && after.outgoing_of(j) == self.outgoing_of(j)
    }

    /// Whether `v` and `after` are what pulling stream `i` of this source gives: the next
    /// incoming value of the stream, moved to its pulled values; else, if the source has a
    /// pending value, that value, read into every stream and pulled by stream `i`; else
    /// nothing, and no change.
    pub open spec fn pulled(&self, after: &Self, i: int, v: Option<T>) -> bool {
        if self.incoming_of(i).len() > 0 {
            &&& v == Some(self.incoming_of(i)[0])
            &&& after.incoming_of(i) == self.incoming_of(i).drop_first()
            &&& pushed_copy(self.outgoing_of(i), after.outgoing_of(i), self.incoming_of(i)[0])
            &&& self.same_except(after, i)
        } else if self.pending().len() == 0 {
            &&& v is None
            &&& after.agrees_with(self)
        } else {
            &&& v is Some
            &&& clones_exactly::<T>() ==> v == Some(self.pending()[0])
            &&& self.read_except(after, i)
            &&& after.incoming_of(i) == Seq::<T>::empty()
            &&& pushed_copy(self.outgoing_of(i), after.outgoing_of(i), self.pending()[0])
        }
    }

    /// Whether `b` and `after` are what asking stream `i` of this source for a next value gives:
    /// whether it has one, reading the next pending value into every stream if its buffer is
    /// empty.
    pub open spec fn checked_next(&self, after: &Self, i: int, b: bool) -> bool {
        &&& b == (self.incoming_of(i).len() > 0 || self.pending().len() > 0)
        &&& self.incoming_of(i).len() > 0 || self.pending().len() == 0 ==> after.agrees_with(self)
        &&& self.incoming_of(i).len() == 0 && self.pending().len() > 0 ==> self.read_except(after, -1)
    }

    /// Returns a source that reads the values of `input`, in order, with no streams.
    pub fn observe(input: Vec<T>) -> (s: StreamSource<T>)
        ensures
            s.pending() == input@,
            s.depth() == 0,
    {
        let mut queue: VecDeque<T> = VecDeque::new();
        let mut input = input;
        let ghost all = input@;
        let mut rest: Vec<T> = Vec::new();
        assert(all =~= input@ + rest@.reverse());
        while input.len() > 0
            invariant
                all == input@ + rest@.reverse(),
            decreases input@.len(),
        {
            let ghost before_input = input@;
            let ghost before_rest = rest@;
            match input.pop() {
                Some(v) => {
                    rest.push(v);
                    assert(rest@.reverse() =~= seq![v] + before_rest.reverse());
                    assert(before_input =~= input@.push(v));
                    assert(all =~= input@ + rest@.reverse());
                },
                None => {},
            }
        }
        while rest.len() > 0
            invariant
                all == queue@ + rest@.reverse(),
            decreases rest@.len(),
        {
            let ghost before_rest = rest@;
            let ghost before_queue = queue@;
            match rest.pop() {
                Some(v) => {
                    queue.push_back(v);
                    assert(before_rest =~= rest@.push(v));
                    assert(before_rest.reverse() =~= seq![v] + rest@.reverse());
                    assert(all =~= queue@ + rest@.reverse());
                },
                None => {},
            }
        }
        assert(all =~= queue@);
        StreamSource { buffers: Vec::new(), input: queue }
    }

    /// Adds a stream that reads the source from this point on, and returns it as the new head.
    pub fn split(&mut self) -> (s: Stream)
        ensures
            final(self).depth() == old(self).depth() + 1,
            s.spec_index() == old(self).depth(),
            final(self).incoming_of(s.spec_index() as int) == Seq::<T>::empty(),
            final(self).outgoing_of(s.spec_index() as int) == Seq::<T>::empty(),
            final(self).pending() == old(self).pending(),
            forall|i: int| 0 <= i < old(self).depth() ==> #[trigger] final(self).incoming_of(i) == old(self).incoming_of(i)
                && final(self).outgoing_of(i) == old(self).outgoing_of(i),
    {
        self.buffers.push(StreamBuffer::new());
        Stream { index: self.buffers.len() - 1 }
    }

    /// Removes every stream but the head.
    pub fn detach_tail(&mut self)
        ensures
            old(self).depth() == 0 ==> final(self).depth() == 0,
            old(self).depth() > 0 ==> final(self).depth() == 1 && final(self).incoming_of(0)
                == old(self).incoming_of(old(self).depth() - 1) && final(self).outgoing_of(0)
                == old(self).outgoing_of(old(self).depth() - 1),
            final(self).pending() == old(self).pending(),
    {
        match self.buffers.pop() {
            None => {},
            Some(head) => {
                self.buffers = Vec::new();
                self.buffers.push(head);
            },
        }
    }

    /// Removes the head stream, and returns the new head, if any.
    pub fn detach_head(&mut self) -> (s: Option<Stream>)
        ensures
            final(self).depth() == if old(self).depth() > 0 { old(self).depth() - 1 } else { 0 },
            forall|i: int| 0 <= i < final(self).depth() ==> #[trigger] final(self).incoming_of(i) == old(self).incoming_of(i)
                && final(self).outgoing_of(i) == old(self).outgoing_of(i),
            final(self).pending() == old(self).pending(),
            match s {
                Some(h) => final(self).depth() > 0 && h.spec_index() == final(self).depth() - 1,
                None => final(self).depth() == 0,
            },
    {
        self.buffers.pop();
        self.head()
    }

    /// Returns the head stream, if there is one.
    pub fn head(&self) -> (s: Option<Stream>)
        ensures
            match s {
                Some(h) => self.depth() > 0 && h.spec_index() == self.depth() - 1,
                None => self.depth() == 0,
            },
    {
        if self.buffers.len() == 0 {
            None
        } else {
            Some(Stream { index: self.buffers.len() - 1 })
        }
    }

    /// Reads the next value of the source, if any, into the buffer of every stream.
    fn pull(&mut self)
        ensures
            final(self).depth() == old(self).depth(),
            old(self).pending().len() == 0 ==> final(self).agrees_with(&*old(self)),
            old(self).pending().len() > 0 ==> old(self).read_except(&*final(self), -1),
    {
        match self.input.pop_front() {
            None => {},
            Some(val) => {
                let mut i: usize = 0;
                while i < self.buffers.len()
                    invariant
                        i <= self.buffers@.len(),
                        self.buffers@.len() == old(self).buffers@.len(),
                        self.input@ == old(self).input@.drop_first(),
                        val == old(self).input@[0],
                        forall|j: int| i <= j < self.buffers@.len() ==> #[trigger] self.buffers@[j] == old(self).buffers@[j],
                        forall|j: int| 0 <= j < i ==> {
                            &&& #[trigger] self.buffers@[j].outgoing() == old(self).buffers@[j].outgoing()
                            &&& self.buffers@[j].incoming().len() == old(self).buffers@[j].incoming().len() + 1
                            &&& self.buffers@[j].incoming().take(old(self).buffers@[j].incoming().len() as int)
                                == old(self).buffers@[j].incoming()
                            &&& clones_exactly::<T>() ==> self.buffers@[j].incoming() == old(self).buffers@[j].incoming().push(val)
                        },
                    decreases self.buffers@.len() - i,
                {
                    let ghost prev = self.buffers@;
                    let buffer = &mut self.buffers[i];
                    buffer.push(&val);
                    assert(self.buffers@ == prev.update(i as int, self.buffers@[i as int]));
                    assert forall|j: int| 0 <= j < i + 1 implies {
                        &&& #[trigger] self.buffers@[j].outgoing() == old(self).buffers@[j].outgoing()
                        &&& self.buffers@[j].incoming().len() == old(self).buffers@[j].incoming().len() + 1
                        &&& self.buffers@[j].incoming().take(old(self).buffers@[j].incoming().len() as int)
                            == old(self).buffers@[j].incoming()
                        &&& clones_exactly::<T>() ==> self.buffers@[j].incoming() == old(self).buffers@[j].incoming().push(val)
                    } by {
                        if j < i {
                            assert(self.buffers@[j] == prev[j]);
                        } else {
                            assert(prev[j] == old(self).buffers@[j]);
                        }
                    }
                    i += 1;
                }
                assert forall|j: int| 0 <= j < self.depth() implies #[trigger] self.incoming_of(j) == self.buffers@[j].incoming()
                    && self.outgoing_of(j) == self.buffers@[j].outgoing() && old(self).incoming_of(j) == old(self).buffers@[j].incoming()
                    && old(self).outgoing_of(j) == old(self).buffers@[j].outgoing() by {}
                assert forall|j: int| 0 <= j < old(self).depth() && j != -1 implies pushed_copy(
                    old(self).incoming_of(j),
                    #[trigger] self.incoming_of(j),
                    old(self).pending()[0],
                ) && self.outgoing_of(j) == old(self).outgoing_of(j) by {
                    assert(self.buffers@[j].outgoing() == old(self).buffers@[j].outgoing());
                }
            },
        }
    }
}

/// Stream: a reader of the values of a `StreamSource`, identified by the position of its
/// buffer in the source.
pub struct Stream {
    index: usize,
}

impl Stream {
    /// The position of the stream's buffer in its source.
    pub closed spec fn spec_index(&self) -> usize {
        self.index
    }

    /// Adds a stream that reads `source` from this point on, and returns it.
    pub fn split<T: Clone>(&mut self, source: &mut StreamSource<T>) -> (s: Stream)
        ensures
            final(source).depth() == old(source).depth() + 1,
            s.spec_index() == old(source).depth(),
            final(source).incoming_of(s.spec_index() as int) == Seq::<T>::empty(),
            final(source).outgoing_of(s.spec_index() as int) == Seq::<T>::empty(),
            final(source).pending() == old(source).pending(),
            *final(self) == *old(self),
    {
        source.split()
    }

    /// Removes every stream of `source` but its head, which this stream becomes.
    pub fn detach_tail<T: Clone>(&mut self, source: &mut StreamSource<T>) -> (s: &mut Self)
        ensures
            old(source).depth() == 0 ==> final(source).depth() == 0,
            old(source).depth() > 0 ==> final(source).depth() == 1 && final(source).incoming_of(0)
                == old(source).incoming_of(old(source).depth() - 1) && final(source).outgoing_of(0)
                == old(source).outgoing_of(old(source).depth() - 1),
            final(source).pending() == old(source).pending(),
            s.spec_index() == 0,
            *final(self) == *final(s),
    {
        source.detach_tail();
        self.index = 0;
        self
    }

    /// Removes the head stream of `source`, and returns the new head, if any.
    pub fn detach_head<T: Clone>(&mut self, source: &mut StreamSource<T>) -> (s: Option<Stream>)
        ensures
            final(source).depth() == if old(source).depth() > 0 { old(source).depth() - 1 } else { 0 },
            forall|i: int| 0 <= i < final(source).depth() ==> #[trigger] final(source).incoming_of(i)
                == old(source).incoming_of(i) && final(source).outgoing_of(i) == old(source).outgoing_of(i),
            match s {
                Some(h) => final(source).depth() > 0 && h.spec_index() == final(source).depth() - 1,
                None => final(source).depth() == 0,
            },
    {
        source.detach_head()
    }

    /// Returns a consumer of this stream.
    pub fn consumer(&self) -> (c: StreamConsumer)
        ensures
            c.stream_index() == self.spec_index(),
            !c.blocked(),
    {
        StreamConsumer::new(Stream { index: self.index })
    }

    /// Returns true if the stream has another value to pull, reading the source if its buffer
    /// is empty.
    pub fn has_next<T: Clone>(&mut self, source: &mut StreamSource<T>) -> (b: bool)
        requires
            old(self).spec_index() < old(source).depth(),
        ensures
            old(source).checked_next(&*final(source), old(self).spec_index() as int, b),
            final(source).depth() == old(source).depth(),
            *final(self) == *old(self),
    {
        let ghost idx = self.index as int;
        assert(source.incoming_of(idx) == source.buffers@[idx].incoming());
        if source.buffers[self.index].input_queued() {
            self.source_pull(source);
            assert(source.incoming_of(idx) == source.buffers@[idx].incoming());
            !source.buffers[self.index].input_queued()
        } else {
            true
        }
    }

    /// Pulls the next value of the stream, reading the source if its buffer is empty, and
    /// records it as pulled; returns `None` once the stream and the source are exhausted.
    pub fn pull<T: Clone>(&mut self, source: &mut StreamSource<T>) -> (v: Option<T>)
        requires
            old(self).spec_index() < old(source).depth(),
        ensures
            old(source).pulled(&*final(source), old(self).spec_index() as int, v),
            final(source).depth() == old(source).depth(),
            *final(self) == *old(self),
    {
        let i = self.index;
        let ghost idx = i as int;
        assert(source.incoming_of(idx) == source.buffers@[idx].incoming());
        let ghost mut mid = *source;
        let val: T = match source.buffers[i].dequeue_incoming() {
            None => {
                self.source_pull(source);
                proof {
                    mid = *source;
                }
                assert(source.incoming_of(idx) == source.buffers@[idx].incoming());
                assert(source.outgoing_of(idx) == old(source).outgoing_of(idx));
                let ghost mid_buffers = source.buffers@;
                match source.buffers[i].dequeue_incoming() {
                    None => {
                        assert forall|j: int| 0 <= j < source.depth() implies #[trigger] source.incoming_of(j)
                            == old(source).incoming_of(j) && source.outgoing_of(j) == old(source).outgoing_of(j) by {
                            assert(mid.incoming_of(j) == old(source).incoming_of(j));
                        }
                        return None;
                    },
                    Some(val) => {
                        assert(source.outgoing_of(idx) == source.buffers@[idx].outgoing());
                        assert(mid.incoming_of(idx).len() == 1);
                        assert(source.buffers@ == mid_buffers.update(idx, source.buffers@[idx]));
                        assert forall|j: int| 0 <= j < source.depth() && j != idx implies #[trigger] source.incoming_of(j)
                            == mid.incoming_of(j) && source.outgoing_of(j) == mid.outgoing_of(j) by {}
                        assert(source.incoming_of(idx) == Seq::<T>::empty());
                        assert(mid.incoming_of(idx) == seq![val]) by {
                            assert(mid.incoming_of(idx).take(0) =~= Seq::<T>::empty());
                        }
                        proof {
                            if clones_exactly::<T>() {
                                assert(mid.incoming_of(idx) == Seq::<T>::empty().push(old(source).pending()[0]));
                                assert(val == old(source).pending()[0]);
                            }
                        }
                        val
                    },
                }
            },
            Some(val) => val,
        };
        let ghost before_out = source.outgoing_of(idx);
        let ghost pre = source.buffers@;
        let ghost pre_src = *source;
        assert(before_out == old(source).outgoing_of(idx));
        source.buffers[i].enqueue_outgoing(&val);
        assert(source.buffers@ == pre.update(idx, source.buffers@[idx]));
        assert(source.outgoing_of(idx) == source.buffers@[idx].outgoing());
        assert forall|j: int| 0 <= j < source.depth() && j != idx implies #[trigger] source.incoming_of(j)
            == pre_src.incoming_of(j) && source.outgoing_of(j) == pre_src.outgoing_of(j) by {}
        proof {
            if old(source).incoming_of(idx).len() == 0 {
                assert forall|j: int| 0 <= j < old(source).depth() && j != idx implies pushed_copy(
                    old(source).incoming_of(j),
                    #[trigger] source.incoming_of(j),
                    old(source).pending()[0],
                ) && source.outgoing_of(j) == old(source).outgoing_of(j) by {
                    assert(source.incoming_of(j) == pre_src.incoming_of(j));
                    assert(pre_src.incoming_of(j) == mid.incoming_of(j));
                    assert(pushed_copy(old(source).incoming_of(j), mid.incoming_of(j), old(source).pending()[0]));
                }
            }
        }
        Some(val)
    }

    /// Moves the next incoming value of the stream, if any, to its pulled values.
    pub fn advance<T: Clone>(&mut self, source: &mut StreamSource<T>) -> (s: &mut Self)
        requires
            old(self).spec_index() < old(source).depth(),
        ensures
            final(source).depth() == old(source).depth(),
            final(source).pending() == old(source).pending(),
            old(source).incoming_of(old(self).spec_index() as int).len() > 0 ==> {
                let i = old(self).spec_index() as int;
                &&& final(source).incoming_of(i) == old(source).incoming_of(i).drop_first()
                &&& final(source).outgoing_of(i) == old(source).outgoing_of(i).push(old(source).incoming_of(i)[0])
            },
            old(source).incoming_of(old(self).spec_index() as int).len() == 0 ==> final(source).agrees_with(&*old(source)),
            *s == *old(self),
            *final(self) == *final(s),
    {
        let buffer = &mut source.buffers[self.index];
        buffer.advance();
        self
    }

    /// Returns the pulled values of the stream to the front of its incoming values.
    pub fn replay<T: Clone>(&mut self, source: &mut StreamSource<T>) -> (s: &mut Self)
        requires
            old(self).spec_index() < old(source).depth(),
        ensures
            final(source).depth() == old(source).depth(),
            final(source).pending() == old(source).pending(),
            final(source).incoming_of(old(self).spec_index() as int) == old(source).outgoing_of(
                old(self).spec_index() as int,
            ) + old(source).incoming_of(old(self).spec_index() as int),
            final(source).outgoing_of(old(self).spec_index() as int) == Seq::<T>::empty(),
            *s == *old(self),
            *final(self) == *final(s),
    {
        let buffer = &mut source.buffers[self.index];
        buffer.replay();
        self
    }

    /// Reads the next value of `source`, if any, into every buffer.
    fn source_pull<T: Clone>(&self, source: &mut StreamSource<T>)
        ensures
            final(source).depth() == old(source).depth(),
            old(source).pending().len() == 0 ==> final(source).agrees_with(&*old(source)),
            old(source).pending().len() > 0 ==> old(source).read_except(&*final(source), -1),
    {
        source.pull()
    }
}

/// Stream Consumer: a reader of a stream that hands out the values it has pulled when they are
/// consumed, unless blocked, in which case consuming replays them instead.
pub struct StreamConsumer {
    stream: Stream,
    block: bool,
}

impl StreamConsumer {
    /// The position of the consumed stream's buffer in its source.
    pub closed spec fn stream_index(&self) -> usize {
        self.stream.index
    }

    /// Whether the consumer is blocked.
    pub closed spec fn blocked(&self) -> bool {
        self.block
    }

    /// Returns an unblocked consumer of `stream`.
    fn new(stream: Stream) -> (c: Self)
        ensures
            c.stream_index() == stream.spec_index(),
            !c.blocked(),
    {
        StreamConsumer { stream, block: false }
    }

    /// Returns true if the stream has another value to pull.
    pub fn has_next<T: Clone>(&mut self, source: &mut StreamSource<T>) -> (b: bool)
        requires
            old(self).stream_index() < old(source).depth(),
        ensures
            old(source).checked_next(&*final(source), old(self).stream_index() as int, b),
            final(source).depth() == old(source).depth(),
            *final(self) == *old(self),
    {
        self.stream.has_next(source)
    }

    /// Pulls the next value of the stream.
    pub fn pull<T: Clone>(&mut self, source: &mut StreamSource<T>) -> (v: Option<T>)
        requires
            old(self).stream_index() < old(source).depth(),
        ensures
            old(source).pulled(&*final(source), old(self).stream_index() as int, v),
            final(source).depth() == old(source).depth(),
            *final(self) == *old(self),
    {
        self.stream.pull(source)
    }

    /// Moves the next incoming value of the stream to its pulled values.
    pub fn advance<T: Clone>(&mut self, source: &mut StreamSource<T>) -> (c: &mut Self)
        requires
            old(self).stream_index() < old(source).depth(),
        ensures
            final(source).depth() == old(source).depth(),
            final(source).pending() == old(source).pending(),
            old(source).incoming_of(old(self).stream_index() as int).len() > 0 ==> {
                let i = old(self).stream_index() as int;
                &&& final(source).incoming_of(i) == old(source).incoming_of(i).drop_first()
                &&& final(source).outgoing_of(i) == old(source).outgoing_of(i).push(old(source).incoming_of(i)[0])
            },
            old(source).incoming_of(old(self).stream_index() as int).len() == 0 ==> final(source).agrees_with(&*old(source)),
            *c == *old(self),
            *final(self) == *final(c),
    {
        self.stream.advance(source);
        self
    }

    /// Returns the pulled values of the stream to the front of its incoming values.
    pub fn replay<T: Clone>(&mut self, source: &mut StreamSource<T>) -> (c: &mut Self)
        requires
            old(self).stream_index() < old(source).depth(),
        ensures
            final(source).depth() == old(source).depth(),
            final(source).incoming_of(old(self).stream_index() as int) == old(source).outgoing_of(
                old(self).stream_index() as int,
            ) + old(source).incoming_of(old(self).stream_index() as int),
            final(source).outgoing_of(old(self).stream_index() as int) == Seq::<T>::empty(),
            *c == *old(self),
            *final(self) == *final(c),
    {
        self.stream.replay(source);
        self
    }

    /// Consumes the pulled values of the stream: unless blocked, returns them (oldest first)
    /// and forgets them; if blocked, replays them instead, unblocks, and returns `None`.
    pub fn consume<T: Clone>(&mut self, source: &mut StreamSource<T>) -> (r: Option<Vec<T>>)
        requires
            old(self).stream_index() < old(source).depth(),
        ensures
            final(source).depth() == old(source).depth(),
            final(self).stream_index() == old(self).stream_index(),
            !final(self).blocked(),
            final(source).outgoing_of(old(self).stream_index() as int) == Seq::<T>::empty(),
            old(self).blocked() ==> r is None && final(source).incoming_of(old(self).stream_index() as int)
                == old(source).outgoing_of(old(self).stream_index() as int) + old(source).incoming_of(
                old(self).stream_index() as int,
            ),
            !old(self).blocked() ==> (r matches Some(v) && v@ == old(source).outgoing_of(
                old(self).stream_index() as int,
            ) && final(source).incoming_of(old(self).stream_index() as int) == old(source).incoming_of(
                old(self).stream_index() as int,
            )),
    {
        if self.block {
            self.stream.replay(source);
            self.block = false;
            None
        } else {
            let buffer = &mut source.buffers[self.stream.index];
            let consumed = buffer.take_outgoing();
            Some(consumed)
        }
    }

    /// Blocks the consumer.
    pub fn block(&mut self) -> (c: &mut Self)
        ensures
            c.blocked(),
            c.stream_index() == old(self).stream_index(),
            *final(self) == *final(c),
    {
        self.block = true;
        self
    }

    /// Unblocks the consumer.
    pub fn unblock(&mut self) -> (c: &mut Self)
        ensures
            !c.blocked(),
            c.stream_index() == old(self).stream_index(),
            *final(self) == *final(c),
    {
        self.block = false;
        self
    }
}

} // verus!
