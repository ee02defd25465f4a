//! Splits a stream of samples into segments of `segment_length` samples,
//! each followed by the next `overlap` samples, which stay queued so that
//! they open the following segment as well.
use vstd::prelude::*;
use slice_queue::ReadableSliceQueue;
use slice_queue::SliceQueue;
use slice_queue::WriteableSliceQueue;

verus! {

/// `slice_queue::SliceQueue`, a first-in first-out queue backed by a `Vec`;
/// its contents are known to the proofs only through `queued` and `queue_limit`.
#[verifier::external_type_specification]
#[verifier::external_body]
#[verifier::reject_recursive_types(T)]
pub struct ExSliceQueue<T>(SliceQueue<T>);

/// The samples a `SliceQueue` holds, oldest first.
pub uninterp spec fn queued(q: SliceQueue<u32>) -> Seq<u32>;

/// The limit on the number of samples that a `SliceQueue` enforces on a push.
pub uninterp spec fn queue_limit(q: SliceQueue<u32>) -> nat;

/// `SliceQueue::new`: an empty queue whose limit is `usize::MAX`.
#[verifier::external_body]
fn queue_new() -> (q: SliceQueue<u32>)
    ensures
        queued(q) == Seq::<u32>::empty(),
        queue_limit(q) == usize::MAX,
{
    SliceQueue::new()
}

/// `SliceQueue::push` (of `WriteableSliceQueue`): appends the sample when the
/// queue holds fewer samples than its limit, and otherwise hands it back and
/// leaves the queue as it was. As for `Vec::push`, running out of memory is
/// not part of the contract.
#[verifier::external_body]
fn queue_push(q: &mut SliceQueue<u32>, sample: u32) -> (r: Result<(), u32>)
    ensures
        queue_limit(*final(q)) == queue_limit(*old(q)),
        queued(*old(q)).len() < queue_limit(*old(q)) ==> {
            &&& r == Ok::<(), u32>(())
            &&& queued(*final(q)) == queued(*old(q)).push(sample)
        },
        queued(*old(q)).len() >= queue_limit(*old(q)) ==> {
            &&& r == Err::<(), u32>(sample)
            &&& queued(*final(q)) == queued(*old(q))
        },
{
    q.push(sample)
}

/// `SliceQueue::pop_n` (of `ReadableSliceQueue`): removes the first `min(n, len)` samples and returns
/// them, as `Ok` when there were `n` of them and as `Err` otherwise.
#[verifier::external_body]
fn queue_pop_n(q: &mut SliceQueue<u32>, n: usize) -> (r: Result<Vec<u32>, Vec<u32>>)
    ensures
        queue_limit(*final(q)) == queue_limit(*old(q)),
        n <= queued(*old(q)).len() ==> {
            &&& r is Ok
            &&& r->Ok_0@ == queued(*old(q)).take(n as int)
            &&& queued(*final(q)) == queued(*old(q)).skip(n as int)
        },
        n > queued(*old(q)).len() ==> {
            &&& r is Err
            &&& r->Err_0@ == queued(*old(q))
            &&& queued(*final(q)) == Seq::<u32>::empty()
        },
{
    q.pop_n(n)
}

/// `SliceQueue::peek_n` (of `ReadableSliceQueue`): the first `n` samples as `Ok` when there are that
/// many, and all of them as `Err` otherwise; the queue is not changed.
#[verifier::external_body]
fn queue_peek_n(q: &SliceQueue<u32>, n: usize) -> (r: Result<&[u32], &[u32]>)
    ensures
        n <= queued(*q).len() ==> r is Ok && r->Ok_0@ == queued(*q).take(n as int),
        n > queued(*q).len() ==> r is Err && r->Err_0@ == queued(*q),
{
    q.peek_n(n)
}

/// `ReadableSliceQueue::len` on a `SliceQueue`: the number of samples it holds.
#[verifier::external_body]
fn queue_len(q: &SliceQueue<u32>) -> (n: usize)
    ensures
        n == queued(*q).len(),
{
    q.len()
}

/// Why a segment could not be taken.
#[derive(Debug, PartialEq, Eq, Structural)]
pub enum SegmentError {
    /// Fewer than `segment_length` samples were queued.
    PopError(),
    /// The segment itself was there, but fewer than `overlap` samples followed it.
    PeekError(),
}

/// The outcome that `pop_segment` gives on a queue `q`: the first
/// `segment_length + overlap` samples, or the error that says which part was short.
pub open spec fn segment_of(q: Seq<u32>, segment_length: nat, overlap: nat) -> Result<Seq<u32>, SegmentError> {
    if q.len() < segment_length {
        Err(SegmentError::PopError())
    } else if q.len() < segment_length + overlap {
        Err(SegmentError::PeekError())
    } else {
        Ok(q.take((segment_length + overlap) as int))
    }
}

/// What stays queued after `pop_segment` on a queue `q`: the segment's own
/// samples are consumed (all samples, when there were fewer than that); the
/// overlap stays.
pub open spec fn rest_of(q: Seq<u32>, segment_length: nat) -> Seq<u32> {
    if q.len() < segment_length {
        Seq::<u32>::empty()
    } else {
        q.skip(segment_length as int)
    }
}

/// A queue of samples from which segments are cut.
pub struct Segmenter {
    queue: SliceQueue<u32>,
    segment_length: usize,
    overlap: usize,
}

impl View for Segmenter {
    type V = Seq<u32>;

    /// The queued samples, oldest first.
    closed spec fn view(&self) -> Seq<u32> {
        queued(self.queue)
    }
}

impl Segmenter {
    #[verifier::type_invariant]
    closed spec fn inv(self) -> bool {
        queue_limit(self.queue) == usize::MAX
    }

    /// The number of samples each segment consumes.
    pub closed spec fn segment_length(&self) -> nat {
        self.segment_length as nat
    }

    /// The number of samples after each segment that are returned with it but stay queued.
    pub closed spec fn overlap(&self) -> nat {
        self.overlap as nat
    }

    /// An empty segmenter that cuts segments of `segment_length` samples,
    /// each followed by `overlap` more.
    pub fn new(segment_length: usize, overlap: usize) -> (s: Segmenter)
        ensures
            s@ == Seq::<u32>::empty(),
            s.segment_length() == segment_length,
            s.overlap() == overlap,
    {
        Segmenter { queue: queue_new(), segment_length, overlap }
    }

    /// The number of samples queued.
    pub fn len(&self) -> (n: usize)
        ensures
            n == self@.len(),
    {
        queue_len(&self.queue)
    }

    /// Appends one sample to the stream.
    pub fn push(&mut self, sample: u32)
        requires
            old(self)@.len() < usize::MAX,
        ensures
            final(self)@ == old(self)@.push(sample),
            final(self).segment_length() == old(self).segment_length(),
            final(self).overlap() == old(self).overlap(),
    {
        proof { use_type_invariant(&*self); }
        let mut q = queue_new();
        std::mem::swap(&mut q, &mut self.queue);
        let r = queue_push(&mut q, sample);
        self.queue = q;
        match r {
            Ok(()) => {},
            Err(_) => {
                assert(false);
            },
        }
    }

    /// Takes the next segment: the first `segment_length` samples are
    /// consumed and returned, followed by copies of the next `overlap`
    /// samples, which stay queued. When fewer than `segment_length` samples
    /// are queued, all of them are consumed and the result is
    /// `PopError`; when the segment is there but its overlap is not, the
    /// segment's samples are consumed and the result is `PeekError`.
    pub fn pop_segment(&mut self) -> (r: Result<Vec<u32>, SegmentError>)
        ensures
            final(self).segment_length() == old(self).segment_length(),
            final(self).overlap() == old(self).overlap(),
            final(self)@ == rest_of(old(self)@, old(self).segment_length()),
            match r {
                Ok(seg) => segment_of(old(self)@, old(self).segment_length(), old(self).overlap())
                    == Ok::<Seq<u32>, SegmentError>(seg@),
                Err(e) => segment_of(old(self)@, old(self).segment_length(), old(self).overlap())
                    == Err::<Seq<u32>, SegmentError>(e),
            },            r is Ok <==> old(self)@.len() >= old(self).segment_length() + old(self).overlap(),
            r is Ok ==> r->Ok_0@.len() == old(self).segment_length() + old(self).overlap()
                && r->Ok_0@ == old(self)@.take((old(self).segment_length() + old(self).overlap()) as int),
            r == Err::<Vec<u32>, SegmentError>(SegmentError::PopError()) <==> old(self)@.len() < old(self).segment_length(),
            old(self)@.len() >= old(self).segment_length() ==> final(self)@ == old(self)@.skip(old(self).segment_length() as int),
            old(self)@.len() < old(self).segment_length() ==> final(self)@.len() == 0,
    {
        proof { use_type_invariant(&*self); }
        let ghost q = self@;
        let mut queue = queue_new();
        std::mem::swap(&mut queue, &mut self.queue);
        let popped = queue_pop_n(&mut queue, self.segment_length);
        self.queue = queue;
        let mut seg = match popped {
            Ok(v) => v,
            Err(_) => {
                return Err(SegmentError::PopError());
            },
        };
        assert(self@ == q.skip(self.segment_length as int));
        let peeked = queue_peek_n(&self.queue, self.overlap);
        let tail = match peeked {
            Ok(t) => t,
            Err(_) => {
                return Err(SegmentError::PeekError());
            },
        };
        let mut i: usize = 0;
        while i < tail.len()
            invariant
                i <= tail@.len(),
                tail@ == q.skip(self.segment_length as int).take(self.overlap as int),
                seg@ == q.take(self.segment_length as int) + tail@.take(i as int),
            decreases tail@.len() - i,
        {
            seg.push(tail[i]);
            assert(tail@.take(i + 1) == tail@.take(i as int).push(tail@[i as int]));
            i = i + 1;
        }
        assert(tail@.take(i as int) == tail@);
        assert(seg@ == q.take(self.segment_length + self.overlap));
        proof {
            lemma_segment_is_prefix(q, self.segment_length as nat, self.overlap as nat);
        }
        Ok(seg)
    }
}

/// Consecutive segments overlap: the `overlap` samples that follow one
/// segment's own samples are the first `overlap` samples of the next segment.
pub proof fn lemma_consecutive_segments_overlap(q: Seq<u32>, segment_length: nat, overlap: nat)
    requires
        segment_of(q, segment_length, overlap) is Ok,
        segment_of(rest_of(q, segment_length), segment_length, overlap) is Ok,
    ensures
        segment_of(q, segment_length, overlap)->Ok_0.skip(segment_length as int)
            == segment_of(rest_of(q, segment_length), segment_length, overlap)->Ok_0.take(overlap as int),
{
    let s1 = segment_of(q, segment_length, overlap)->Ok_0;
    let s2 = segment_of(rest_of(q, segment_length), segment_length, overlap)->Ok_0;
    assert(s1.skip(segment_length as int) =~= s2.take(overlap as int));
}

/// Taking a segment loses and reorders nothing: its own samples followed by
/// what stays queued are the queue as it was.
pub proof fn lemma_segment_then_rest_is_queue(q: Seq<u32>, segment_length: nat, overlap: nat)
    requires
        segment_of(q, segment_length, overlap) is Ok,
    ensures
        segment_of(q, segment_length, overlap)->Ok_0.take(segment_length as int)
            + rest_of(q, segment_length) == q,
{
    let s = segment_of(q, segment_length, overlap)->Ok_0;
    assert(s.take(segment_length as int) + rest_of(q, segment_length) =~= q);
}

/// The samples that `k` segments taken in turn from a queue `q` consume, joined in order.
pub open spec fn consumed(q: Seq<u32>, segment_length: nat, overlap: nat, k: nat) -> Seq<u32>
    decreases k,
{
    if k == 0 {
        Seq::<u32>::empty()
    } else {
        segment_of(q, segment_length, overlap)->Ok_0.take(segment_length as int)
            + consumed(rest_of(q, segment_length), segment_length, overlap, (k - 1) as nat)
    }
}

/// The queue after `k` segments are taken in turn from `q`.
pub open spec fn rest_after(q: Seq<u32>, segment_length: nat, k: nat) -> Seq<u32>
    decreases k,
{
    if k == 0 {
        q
    } else {
        rest_after(rest_of(q, segment_length), segment_length, (k - 1) as nat)
    }
}

/// Segmenting tiles the stream: from a queue holding at least
/// `k * segment_length + overlap` samples, `k` segments taken in turn all
/// succeed, their own samples joined in order are the first
/// `k * segment_length` samples of the queue, and the rest stays queued.
pub proof fn lemma_segments_tile_stream(q: Seq<u32>, segment_length: nat, overlap: nat, k: nat)
    requires
        q.len() >= k * segment_length + overlap,
    ensures
        forall|j: nat| j < k ==> (#[trigger] segment_of(rest_after(q, segment_length, j), segment_length, overlap)) is Ok,
        consumed(q, segment_length, overlap, k) == q.take((k * segment_length) as int),
        rest_after(q, segment_length, k) == q.skip((k * segment_length) as int),
    decreases k,
{
    if k == 0 {
        assert(k * segment_length == 0) by (nonlinear_arith)
            requires k == 0;
        assert(q.take(0) =~= Seq::<u32>::empty());
        assert(q.skip(0) =~= q);
    } else {
        let km1 = (k - 1) as nat;
        assert(k * segment_length == segment_length + km1 * segment_length) by (nonlinear_arith)
            requires k == km1 + 1;
        assert(km1 * segment_length >= 0) by (nonlinear_arith);
        let r = rest_of(q, segment_length);
        assert(r == q.skip(segment_length as int));
        lemma_segments_tile_stream(r, segment_length, overlap, km1);
        assert forall|j: nat| j < k implies (#[trigger] segment_of(rest_after(q, segment_length, j), segment_length, overlap)) is Ok by {
            if j > 0 {
                let jm1 = (j - 1) as nat;
                assert(rest_after(q, segment_length, j) == rest_after(r, segment_length, jm1));
                assert(segment_of(rest_after(r, segment_length, jm1), segment_length, overlap) is Ok);
            }
        }
        assert(consumed(q, segment_length, overlap, k)
            == q.take(segment_length as int) + r.take((km1 * segment_length) as int));
        assert(q.take(segment_length as int) + r.take((km1 * segment_length) as int) =~= q.take((k * segment_length) as int));
        assert(r.skip((km1 * segment_length) as int) =~= q.skip((k * segment_length) as int));
    }
}

/// A segment is the first `segment_length + overlap` queued samples, no
/// more and no fewer, and it is there exactly when that many are queued;
/// taking it leaves the queue without its first `segment_length` samples
/// (or empty, when not even those were there).
pub proof fn lemma_segment_is_prefix(q: Seq<u32>, segment_length: nat, overlap: nat)
    ensures
        segment_of(q, segment_length, overlap) is Ok <==> q.len() >= segment_length + overlap,
        segment_of(q, segment_length, overlap) is Ok ==> {
            &&& segment_of(q, segment_length, overlap)->Ok_0.len() == segment_length + overlap
            &&& forall|i: int| 0 <= i < segment_length + overlap ==>
                #[trigger] segment_of(q, segment_length, overlap)->Ok_0[i] == q[i]
        },
        segment_of(q, segment_length, overlap) == Err::<Seq<u32>, SegmentError>(SegmentError::PopError())
            <==> q.len() < segment_length,
        q.len() >= segment_length ==> rest_of(q, segment_length).len() == q.len() - segment_length
            && forall|i: int| 0 <= i < q.len() - segment_length ==>
                #[trigger] rest_of(q, segment_length)[i] == q[i + segment_length],
        q.len() < segment_length ==> rest_of(q, segment_length).len() == 0,
{
}

} // verus!
