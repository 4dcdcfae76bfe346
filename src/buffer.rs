//! The byte queue behind every tube's pending reads.

use std::collections::VecDeque;
use vstd::prelude::*;

verus! {

/// An ordered queue of bytes, oldest first, with its running length.
///
/// Draining removes bytes for good; `add` appends at the tail and `unget`
/// pushes a chunk back at the head, its bytes in the order they came.
pub struct Buffer {
    data: VecDeque<u8>,
    size: usize,
}

impl View for Buffer {
    type V = Seq<u8>;

    closed spec fn view(&self) -> Seq<u8> {
        self.data@
    }
}

/// Appends `bytes` to the tail of `data`.
fn push_tail(data: &mut VecDeque<u8>, bytes: &Vec<u8>)
    ensures
        final(data)@ == old(data)@ + bytes@,
{
    let mut i: usize = 0;
    while i < bytes.len()
        invariant
            i <= bytes@.len(),
            data@ == old(data)@ + bytes@.subrange(0, i as int),
        decreases bytes@.len() - i,
    {
        data.push_back(bytes[i]);
        i = i + 1;
        assert(bytes@.subrange(0, i as int) == bytes@.subrange(0, i - 1).push(bytes@[i - 1]));
    }
    assert(bytes@.subrange(0, bytes@.len() as int) == bytes@);
}

/// How many bytes `get(n)` drains from a buffer holding `held` bytes: all of
/// them when `n` is zero or reaches past the end, else exactly `n`.
pub open spec fn drain_count(held: nat, n: nat) -> nat {
    if n == 0 || n >= held {
        held
    } else {
        n
    }
}

/// The bytes that `get(n)` hands back from a buffer holding `held`.
pub open spec fn taken(held: Seq<u8>, n: nat) -> Seq<u8> {
    held.subrange(0, drain_count(held.len(), n) as int)
}

/// The bytes that stay in a buffer holding `held` after `get(n)`.
pub open spec fn left(held: Seq<u8>, n: nat) -> Seq<u8> {
    held.subrange(drain_count(held.len(), n) as int, held.len() as int)
}

impl Default for Buffer {
    /// An empty buffer.
    fn default() -> (r: Buffer)
        ensures
            r@ == Seq::<u8>::empty(),
    {
        Buffer::new()
    }
}

impl Buffer {
    #[verifier::type_invariant]
    spec fn inv(self) -> bool {
        self.size == self.data@.len()
    }

    /// Moves the queue and its length out, leaving `self` empty.
    fn take_parts(&mut self) -> (r: (VecDeque<u8>, usize))
        ensures
            r.0@ == old(self)@,
            r.1 == old(self)@.len(),
            final(self)@ == Seq::<u8>::empty(),
    {
        let mut taken = Buffer::new();
        std::mem::swap(self, &mut taken);
        proof {
            use_type_invariant(&taken);
        }
        let Buffer { data, size } = taken;
        (data, size)
    }

    /// An empty buffer.
    pub fn new() -> (r: Buffer)
        ensures
            r@ == Seq::<u8>::empty(),
    {
        Buffer { data: VecDeque::new(), size: 0 }
    }

    /// The number of bytes held.
    pub fn len(&self) -> (r: usize)
        ensures
            r == self@.len(),
    {
        proof {
            use_type_invariant(self);
        }
        self.size
    }

    /// Whether no byte is held.
    pub fn is_empty(&self) -> (r: bool)
        ensures
            r == (self@.len() == 0),
    {
        self.len() == 0
    }

    /// Appends `data` at the tail.
    pub fn add(&mut self, data: Vec<u8>)
        requires
            old(self)@.len() + data@.len() <= usize::MAX,
        ensures
            final(self)@ == old(self)@ + data@,
    {
        let (mut queue, size) = self.take_parts();
        push_tail(&mut queue, &data);
        *self = Buffer { data: queue, size: size + data.len() };
    }

    /// A copy of every byte held, leaving the buffer as it is.
    pub fn peek(&self) -> (r: Vec<u8>)
        ensures
            r@ == self@,
    {
        let mut out: Vec<u8> = Vec::new();
        let mut i: usize = 0;
        while i < self.data.len()
            invariant
                i <= self@.len(),
                out@ == self@.subrange(0, i as int),
            decreases self@.len() - i,
        {
            out.push(self.data[i]);
            i = i + 1;
            assert(out@ == self@.subrange(0, i as int));
        }
        assert(self@.subrange(0, self@.len() as int) == self@);
        out
    }

    /// Drains and returns the first `n` bytes, or every byte held when `n`
    /// is zero or at least the length.
    pub fn get(&mut self, n: usize) -> (r: Vec<u8>)
        ensures
            r@ == taken(old(self)@, n as nat),
            final(self)@ == left(old(self)@, n as nat),
    {
        let (mut queue, size) = self.take_parts();
        let count: usize = if n == 0 || n >= size {
            size
        } else {
            n
        };
        let ghost whole = queue@;
        let mut out: Vec<u8> = Vec::new();
        let mut i: usize = 0;
        while i < count
            invariant
                count <= whole.len(),
                i <= count,
                out@ == whole.subrange(0, i as int),
                queue@ == whole.subrange(i as int, whole.len() as int),
            decreases count - i,
        {
            match queue.pop_front() {
                Some(b) => {
                    out.push(b);
                },
                None => {},
            }
            i = i + 1;
            assert(out@ == whole.subrange(0, i as int));
        }
        *self = Buffer { data: queue, size: size - count };
        out
    }

    /// Pushes `data` back at the head, keeping its order, so that it is the
    /// next thing read.
    pub fn unget(&mut self, data: Vec<u8>)
        requires
            old(self)@.len() + data@.len() <= usize::MAX,
        ensures
            final(self)@ == data@ + old(self)@,
    {
        let (mut queue, size) = self.take_parts();
        let ghost rest = queue@;
        let mut i: usize = data.len();
        while i > 0
            invariant
                i <= data@.len(),
                queue@ == data@.subrange(i as int, data@.len() as int) + rest,
            decreases i,
        {
            i = i - 1;
            queue.push_front(data[i]);
            assert(data@.subrange(i as int, data@.len() as int) == seq![data@[i as int]]
                + data@.subrange(i + 1, data@.len() as int));
        }
        assert(data@.subrange(0, data@.len() as int) == data@);
        *self = Buffer { data: queue, size: size + data.len() };
    }
}

/// The bytes a buffer holding `held` holds after `add` of each chunk in turn.
pub open spec fn after_adds(held: Seq<u8>, chunks: Seq<Seq<u8>>) -> Seq<u8>
    decreases chunks.len(),
{
    if chunks.len() == 0 {
        held
    } else {
        after_adds(held + chunks[0], chunks.drop_first())
    }
}

/// A run of `add` calls appends the chunks' concatenation to what was held.
pub proof fn lemma_after_adds(held: Seq<u8>, chunks: Seq<Seq<u8>>)
    ensures
        after_adds(held, chunks) == held + chunks.flatten(),
    decreases chunks.len(),
{
    if chunks.len() > 0 {
        lemma_after_adds(held + chunks[0], chunks.drop_first());
        assert(held + chunks[0] + chunks.drop_first().flatten() == held + (chunks[0]
            + chunks.drop_first().flatten()));
    } else {
        assert(held + Seq::<u8>::empty() == held);
    }
}

/// Any run of `add` calls on an empty buffer, then one `get(0)`, hands back
/// exactly the chunks concatenated in call order, and leaves nothing behind.
pub proof fn law_adds_then_drain(chunks: Seq<Seq<u8>>)
    ensures
        taken(after_adds(Seq::empty(), chunks), 0) == chunks.flatten(),
        left(after_adds(Seq::empty(), chunks), 0) == Seq::<u8>::empty(),
{
    lemma_after_adds(Seq::empty(), chunks);
    let all = after_adds(Seq::empty(), chunks);
    assert(Seq::<u8>::empty() + chunks.flatten() == chunks.flatten());
    assert(all.subrange(0, all.len() as int) == all);
    assert(all.subrange(all.len() as int, all.len() as int) == Seq::<u8>::empty());
}

/// After `add(x)` on an empty buffer, `get(n)` with `0 < n < x.len()` hands
/// back exactly the first `n` bytes of `x`, and a following `get(0)` the rest.
pub proof fn law_add_then_split(x: Seq<u8>, n: nat)
    requires
        0 < n < x.len(),
    ensures
        taken(Seq::empty() + x, n) == x.subrange(0, n as int),
        taken(left(Seq::empty() + x, n), 0) == x.subrange(n as int, x.len() as int),
        left(left(Seq::empty() + x, n), 0) == Seq::<u8>::empty(),
{
    assert(Seq::<u8>::empty() + x == x);
    let rest = x.subrange(n as int, x.len() as int);
    assert(rest.subrange(0, rest.len() as int) == rest);
    assert(rest.subrange(rest.len() as int, rest.len() as int) == Seq::<u8>::empty());
}

/// `unget(x)` of a non-empty `x`, then `get(x.len())`, hands `x` back
/// unchanged, whatever the buffer held before, and leaves that as it was.
pub proof fn law_unget_then_get(held: Seq<u8>, x: Seq<u8>)
    requires
        x.len() > 0,
    ensures
        taken(x + held, x.len()) == x,
        left(x + held, x.len()) == held,
{
    assert((x + held).subrange(0, x.len() as int) == x);
    assert((x + held).subrange(x.len() as int, (x + held).len() as int) == held);
}

} // verus!
