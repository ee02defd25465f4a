//! A reader over a circular buffer of samples that consumes `take` samples
//! and then yields the next sample `peek` more times without consuming it.
use vstd::prelude::*;
use queues::CircularBuffer;
use queues::IsQueue;

verus! {

/// `queues::CircularBuffer`, a bounded first-in first-out buffer, optionally
/// made with a default value that refills it; its contents are known to the
/// proofs only through `buffered` and `buffer_default`.
#[verifier::external_type_specification]
#[verifier::external_body]
#[verifier::reject_recursive_types(T)]
pub struct ExCircularBuffer<T: Clone>(CircularBuffer<T>);

/// The samples a `CircularBuffer` holds, oldest first.
pub uninterp spec fn buffered(b: CircularBuffer<u32>) -> Seq<u32>;

/// The default value a `CircularBuffer` was made with, if any.
pub uninterp spec fn buffer_default(b: CircularBuffer<u32>) -> Option<u32>;

/// The samples that stay after the oldest of `q` is removed from a buffer
/// made with `default`: a buffer with a default value refills itself with it.
pub open spec fn after_remove(q: Seq<u32>, default: Option<u32>) -> Seq<u32> {
    match default {
        Some(d) => q.drop_first().push(d),
        None => q.drop_first(),
    }
}

/// The samples that successive reads give, from a buffer holding `q` and
/// made with `default`, until a read gives nothing.
pub open spec fn read_out(q: Seq<u32>, default: Option<u32>, take: nat, peek: nat) -> Seq<u32>
    decreases take + peek,
{
    if take > 0 {
        seq![q[0]] + read_out(after_remove(q, default), default, (take - 1) as nat, peek)
    } else if peek > 0 {
        seq![q[0]] + read_out(q, default, 0, (peek - 1) as nat)
    } else {
        Seq::<u32>::empty()
    }
}

/// `IsQueue::remove` on a `CircularBuffer`: the oldest sample, which leaves
/// the buffer; `None` (the crate's error) when the buffer is empty.
#[verifier::external_body]
fn buffer_remove(b: &mut CircularBuffer<u32>) -> (r: Option<u32>)
    ensures
        buffer_default(*final(b)) == buffer_default(*old(b)),
        buffered(*old(b)).len() > 0 ==> {
            &&& r == Some(buffered(*old(b))[0])
            &&& buffered(*final(b)) == after_remove(buffered(*old(b)), buffer_default(*old(b)))
        },
        buffered(*old(b)).len() == 0 ==> r is None && buffered(*final(b)) == buffered(*old(b)),
{
    b.remove().ok()
}

/// `IsQueue::peek` on a `CircularBuffer`: the oldest sample, which stays;
/// `None` (the crate's error) when the buffer is empty.
#[verifier::external_body]
fn buffer_peek(b: &CircularBuffer<u32>) -> (r: Option<u32>)
    ensures
        buffered(*b).len() > 0 ==> r == Some(buffered(*b)[0]),
        buffered(*b).len() == 0 ==> r is None,
{
    b.peek().ok()
}

/// Reads `take` samples out of a circular buffer, then looks `peek` times
/// at the sample that comes next.
pub struct CircIter<'a> {
    pub cbuf: &'a mut CircularBuffer<u32>,
    /// Samples still to be consumed.
    pub take: usize,
    /// Looks still to be taken at the next sample once nothing is left to consume.
    pub peek: usize,
}

impl<'a> CircIter<'a> {
    /// While `take` is positive, consumes and returns the oldest sample;
    /// then, while `peek` is positive, returns the oldest sample without
    /// consuming it; then `None`.
    pub fn next(&mut self) -> (r: Option<u32>)
        requires
            old(self).take > 0 || old(self).peek > 0 ==> buffered(*old(self).cbuf).len() > 0,
        ensures
            *final(final(self).cbuf) == *final(old(self).cbuf),
            old(self).take > 0 ==> {
                &&& r == Some(buffered(*old(self).cbuf)[0])
                &&& final(self).take == old(self).take - 1
                &&& final(self).peek == old(self).peek
                &&& buffered(*final(self).cbuf) == after_remove(
                    buffered(*old(self).cbuf),
                    buffer_default(*old(self).cbuf),
                )
                &&& buffer_default(*final(self).cbuf) == buffer_default(*old(self).cbuf)
            },
            old(self).take == 0 && old(self).peek > 0 ==> {
                &&& r == Some(buffered(*old(self).cbuf)[0])
                &&& final(self).take == 0
                &&& final(self).peek == old(self).peek - 1
                &&& *final(self).cbuf == *old(self).cbuf
            },
            old(self).take == 0 && old(self).peek == 0 ==> {
                &&& r is None
                &&& *final(self) == *old(self)
            },
            r is Some ==> read_out(
                buffered(*old(self).cbuf),
                buffer_default(*old(self).cbuf),
                old(self).take as nat,
                old(self).peek as nat,
            ) == seq![r->0] + read_out(
                buffered(*final(self).cbuf),
                buffer_default(*final(self).cbuf),
                final(self).take as nat,
                final(self).peek as nat,
            ),
            r is None ==> read_out(
                buffered(*old(self).cbuf),
                buffer_default(*old(self).cbuf),
                old(self).take as nat,
                old(self).peek as nat,
            ) == Seq::<u32>::empty(),
    {
        if self.take > 0 {
            self.take = self.take - 1;
            let v = buffer_remove(self.cbuf);
            v
        } else if self.peek > 0 {
            self.peek = self.peek - 1;
            buffer_peek(self.cbuf)
        } else {
            None
        }
    }
}

/// From a buffer made without a default value and holding enough samples,
/// the reads give the first `take` samples, then the sample after them
/// `peek` times; the first `take` samples leave the buffer.
pub proof fn lemma_take_then_peek(q: Seq<u32>, take: nat, peek: nat)
    requires
        q.len() >= take + (if peek > 0 { 1nat } else { 0nat }),
    ensures
        read_out(q, None, take, peek) == q.take(take as int) + Seq::new(peek, |_i: int| q[take as int]),
    decreases take + peek,
{
    if take > 0 {
        lemma_take_then_peek(q.drop_first(), (take - 1) as nat, peek);
        assert(q.take(take as int) =~= seq![q[0]] + q.drop_first().take(take - 1));
        assert(Seq::new(peek, |_i: int| q[take as int]) =~= Seq::new(peek, |_i: int| q.drop_first()[take - 1]));
        assert(read_out(q, None, take, peek) =~= seq![q[0]] + read_out(q.drop_first(), None, (take - 1) as nat, peek));
        assert(read_out(q, None, take, peek)
            =~= q.take(take as int) + Seq::new(peek, |_i: int| q[take as int]));
    } else if peek > 0 {
        lemma_take_then_peek(q, 0, (peek - 1) as nat);
        assert(q.take(0) =~= Seq::<u32>::empty());
        assert(read_out(q, None, 0, peek)
            =~= q.take(0) + Seq::new(peek, |_i: int| q[0]));
    } else {
        assert(q.take(0) =~= Seq::<u32>::empty());
        assert(read_out(q, None, 0, 0) =~= q.take(0) + Seq::new(0, |_i: int| q[0]));
    }
}

} // verus!
