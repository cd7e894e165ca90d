//! Server-side connection handling.
//!
//! A [`Handler`] drives one accepted connection: it accumulates bytes,
//! decodes a stream of requests, hands each out for dispatch to the shared
//! worker pool, and — as races between "work finished" and "deadline
//! expired" resolve, in whatever order — emits the encoded responses in
//! strict request order. [`resolve_race`] fixes the outcome of one race and
//! [`run_computation`] is the simulated unit of work itself.

use vstd::prelude::*;

pub mod protocol;

use crate::codec;
use crate::codec::{has_nl, request_frames, request_payload, response_frames};
use crate::{ConnectionError, Elapsed, Response};

verus! {

/// The simulated workload for one request: a tight counting loop from zero
/// to `number`. The count it returns is exactly `number`; the interesting
/// output of a real run is the wall-clock time it took, which the caller
/// measures around this call.
pub fn run_computation(number: u64) -> (r: u64)
    ensures
        r == number,
{
    let mut i: u64 = 0;
    let mut k: u64 = 0;
    while k < number
        invariant
            i == k,
            k <= number,
        decreases number - k,
    {
        i = i + 1;
        k = k + 1;
    }
    i
}

/// Resolve the race between a submitted computation and its deadline timer.
///
/// `computation` carries the measured elapsed time when the computation was
/// ready; `timer_fired` and `timer_failed` report the timer side. If both
/// sides are ready at once the computation takes precedence. A timer
/// failure, with no finished computation to prefer, is a fatal connection
/// error — distinct from an ordinary timeout, which is the normal `Failure`
/// response.
pub fn resolve_race(computation: Option<Elapsed>, timer_fired: bool, timer_failed: bool) -> (r:
    Result<Response, ConnectionError>)
    requires
        computation is Some || timer_fired || timer_failed,
        computation matches Some(e) ==> e.wf(),
    ensures
        match computation {
            Some(e) => r == Ok::<Response, ConnectionError>(Response::Success(e)),
            None => if timer_failed {
                r == Err::<Response, ConnectionError>(ConnectionError::TimerFailed)
            } else {
                r == Ok::<Response, ConnectionError>(Response::Failure)
            },
        },
        r matches Ok(resp) ==> resp.wf(),
{
    match computation {
        Some(e) => Ok(Response::Success(e)),
        None => {
            if timer_failed {
                Err(ConnectionError::TimerFailed)
            } else {
                Ok(Response::Failure)
            }
        },
    }
}

/// The number of workers a pool is actually built with: a requested size of
/// zero means "one per available processor".
pub fn effective_pool_size(requested: usize, available: usize) -> (r: usize)
    requires
        available >= 1,
    ensures
        requested == 0 ==> r == available,
        requested != 0 ==> r == requested,
        r >= 1,
{
    if requested == 0 {
        available
    } else {
        requested
    }
}

/// The length of the longest prefix of the outstanding-response queue whose
/// slots are all resolved.
pub open spec fn some_prefix_len(p: Seq<Option<Response>>) -> int
    decreases p.len(),
{
    if p.len() == 0 {
        0
    } else if p[0] is None {
        0
    } else {
        1 + some_prefix_len(p.skip(1))
    }
}

/// The responses of that resolved prefix, in slot order.
pub open spec fn prefix_vals(p: Seq<Option<Response>>) -> Seq<Response> {
    Seq::new(some_prefix_len(p) as nat, |i: int| p[i]->0)
}

/// The resolved prefix ends at the queue's end or at its first unresolved
/// slot.
pub proof fn lemma_some_prefix_len_bounds(p: Seq<Option<Response>>)
    ensures
        0 <= some_prefix_len(p) <= p.len(),
        forall|i: int| 0 <= i < some_prefix_len(p) ==> p[i] is Some,
        some_prefix_len(p) < p.len() ==> p[some_prefix_len(p)] is None,
    decreases p.len(),
{
    if p.len() == 0 {
    } else if p[0] is None {
    } else {
        lemma_some_prefix_len_bounds(p.skip(1));
        assert forall|i: int| 0 <= i < some_prefix_len(p) implies p[i] is Some by {
            if i > 0 {
                assert(p.skip(1)[i - 1] == p[i]);
            }
        }
        if some_prefix_len(p) < p.len() {
            assert(p.skip(1)[some_prefix_len(p) - 1] == p[some_prefix_len(p)]);
        }
    }
}

/// A run of resolved slots up to the end or up to an unresolved slot pins
/// the resolved prefix exactly.
pub proof fn lemma_some_prefix_len_unique(p: Seq<Option<Response>>, k: int)
    requires
        0 <= k <= p.len(),
        forall|i: int| 0 <= i < k ==> p[i] is Some,
        k < p.len() ==> p[k] is None,
    ensures
        some_prefix_len(p) == k,
    decreases p.len(),
{
    if p.len() == 0 {
    } else if p[0] is None {
        assert(k == 0);
    } else {
        assert(k >= 1);
        assert forall|i: int| 0 <= i < k - 1 implies p.skip(1)[i] is Some by {
            assert(p.skip(1)[i] == p[i + 1]);
        }
        if k - 1 < p.skip(1).len() {
            assert(p.skip(1)[k - 1] == p[k]);
        }
        lemma_some_prefix_len_unique(p.skip(1), k - 1);
    }
}

/// A run of `k` resolved slots from the front keeps the resolved prefix at
/// least `k` long.
pub proof fn lemma_some_prefix_len_at_least(p: Seq<Option<Response>>, k: int)
    requires
        0 <= k <= p.len(),
        forall|i: int| 0 <= i < k ==> p[i] is Some,
    ensures
        some_prefix_len(p) >= k,
    decreases p.len(),
{
    lemma_some_prefix_len_bounds(p);
    if k == 0 {
    } else {
        assert(p[0] is Some);
        assert forall|i: int| 0 <= i < k - 1 implies p.skip(1)[i] is Some by {
            assert(p.skip(1)[i] == p[i + 1]);
        }
        lemma_some_prefix_len_at_least(p.skip(1), k - 1);
    }
}

/// What remains of `on_bytes` when a malformed frame killed the connection:
/// the requests `ns` decoded before it were dispatched, the bad frame — a
/// payload `bad` that is no request, plus its delimiter — was consumed, and
/// the bytes after it are still buffered.
pub open spec fn failed_on_bytes(
    pre: Handler,
    chunk: Seq<u8>,
    post: Handler,
    ns: Seq<u64>,
    bad: Seq<u8>,
) -> bool {
    &&& post.requests@ == pre.requests@ + ns
    &&& post.submitted == pre.submitted + ns.len()
    &&& post.pending@ == pre.pending@ + Seq::new(ns.len(), |i: int| None::<Response>)
    &&& pre.buffer@ + chunk == request_frames(ns) + bad + seq![10u8] + post.buffer@
    &&& forall|n: u64| bad != request_payload(n)
}

/// Per-connection state: the decode buffer, the counters of dispatched
/// requests and written responses, and the ordered queue of outstanding
/// responses. Requests are numbered in the order they were decoded; slot `j`
/// of `pending` belongs to request `written + j`. Ghost fields record the
/// full history the contracts speak of: the numbers dispatched, the response
/// each race resolved to, and the responses emitted.
pub struct Handler {
    /// Bytes received but not yet forming a complete frame.
    pub buffer: Vec<u8>,
    /// How many requests have been decoded and handed out for dispatch.
    pub submitted: u64,
    /// How many responses have been emitted.
    pub written: u64,
    /// One slot per outstanding request, in request order; a slot is `Some`
    /// once its race has resolved but an earlier response is still owed.
    pub pending: Vec<Option<Response>>,
    /// Whether the connection is closed.
    pub closed: bool,
    /// History: the request numbers dispatched, in order.
    pub requests: Ghost<Seq<u64>>,
    /// History: the response each request's race resolved to, by request
    /// index.
    pub resolved: Ghost<Map<int, Response>>,
    /// History: the responses emitted, in order.
    pub emitted: Ghost<Seq<Response>>,
}

/// Dispatching one decoded request preserves the handler invariant: one
/// more request, one more unresolved slot at the back of the queue.
proof fn lemma_wf_after_dispatch(pre: Handler, post: Handler, n: u64)
    requires
        pre.wf(),
        pre.submitted < u64::MAX,
        post.submitted == pre.submitted + 1,
        post.written == pre.written,
        post.pending@ == pre.pending@.push(None::<Response>),
        post.requests@ == pre.requests@.push(n),
        post.resolved@ == pre.resolved@,
        post.emitted@ == pre.emitted@,
    ensures
        post.wf(),
{
    assert forall|j: int| 0 <= j < post.pending@.len() implies ((#[trigger] post.pending@[j])
        is Some <==> post.resolved@.contains_key(post.written + j)) by {
        if j < pre.pending@.len() {
            assert(post.pending@[j] == pre.pending@[j]);
        } else {
            assert(post.pending@[j] is None);
            if post.resolved@.contains_key(post.written + j) {
                assert(post.written + j < pre.submitted);
            }
        }
    }
    assert forall|j: int| 0 <= j < post.pending@.len() implies ((#[trigger] post.pending@[j])
        matches Some(resp) ==> resp == post.resolved@[post.written + j] && resp.wf()) by {
        if j < pre.pending@.len() {
            assert(post.pending@[j] == pre.pending@[j]);
        }
    }
    assert forall|i: int| 0 <= i < post.written implies #[trigger] post.resolved@.contains_key(
        i,
    ) by {
        assert(pre.resolved@.contains_key(i));
    }
    assert forall|i: int| 0 <= i < post.written implies #[trigger] post.emitted@[i]
        == post.resolved@[i] by {
        assert(pre.emitted@[i] == pre.resolved@[i]);
    }
    assert forall|i: int| 0 <= i < post.written implies (#[trigger] post.emitted@[i]).wf() by {
        assert((pre.emitted@[i]).wf());
    }
    if post.pending@.len() > 0 {
        if pre.pending@.len() > 0 {
            assert(post.pending@[0] == pre.pending@[0]);
        } else {
            assert(post.pending@[0] is None);
        }
    }
}

impl Handler {
    /// The handler invariant. Beyond bookkeeping between the counters and
    /// the queue, it carries the ordering guarantee: response `i` was
    /// emitted, in order, for request `i`, and exactly the resolved races
    /// whose turn has come have left the queue.
    pub open spec fn wf(self) -> bool {
        &&& self.written <= self.submitted
        &&& self.pending@.len() == self.submitted - self.written
        &&& self.requests@.len() == self.submitted
        &&& self.emitted@.len() == self.written
        &&& (forall|k: int| self.resolved@.contains_key(k) ==> 0 <= k < self.submitted)
        &&& (forall|i: int| 0 <= i < self.written ==> #[trigger] self.resolved@.contains_key(i))
        &&& (forall|i: int|
            0 <= i < self.written ==> #[trigger] self.emitted@[i] == self.resolved@[i])
        &&& (forall|i: int| 0 <= i < self.written ==> (#[trigger] self.emitted@[i]).wf())
        &&& (forall|j: int|
            0 <= j < self.pending@.len() ==> ((#[trigger] self.pending@[j]) is Some
                <==> self.resolved@.contains_key(self.written + j)))
        &&& (forall|j: int|
            0 <= j < self.pending@.len() ==> ((#[trigger] self.pending@[j]) matches Some(resp)
                ==> resp == self.resolved@[self.written + j] && resp.wf()))
        &&& (self.pending@.len() > 0 ==> self.pending@[0] is None)
    }

    /// A fresh handler for a newly accepted connection.
    pub fn new() -> (h: Handler)
        ensures
            h.wf(),
            h.buffer@ == Seq::<u8>::empty(),
            h.submitted == 0,
            h.written == 0,
            h.pending@ == Seq::<Option<Response>>::empty(),
            !h.closed,
            h.requests@ == Seq::<u64>::empty(),
            h.resolved@ == Map::<int, Response>::empty(),
            h.emitted@ == Seq::<Response>::empty(),
    {
        Handler {
            buffer: Vec::new(),
            submitted: 0,
            written: 0,
            pending: Vec::new(),
            closed: false,
            requests: Ghost(Seq::empty()),
            resolved: Ghost(Map::empty()),
            emitted: Ghost(Seq::empty()),
        }
    }

    /// Feed bytes read from the connection. Every complete frame now in the
    /// buffer is decoded; the decoded request numbers are returned, in
    /// order, for the caller to dispatch (request `i` of the return value
    /// has index `old(self).submitted + i`). A malformed frame closes the
    /// connection with a fatal error; requests decoded before it were
    /// already dispatched and stay so.
    #[verifier::loop_isolation(false)]
    pub fn on_bytes(&mut self, chunk: &Vec<u8>) -> (r: Result<Vec<u64>, ConnectionError>)
        requires
            old(self).wf(),
            !old(self).closed,
            old(self).submitted + old(self).buffer@.len() + chunk@.len() <= u64::MAX,
        ensures
            final(self).wf(),
            final(self).written == old(self).written,
            final(self).emitted@ == old(self).emitted@,
            final(self).resolved@ == old(self).resolved@,
            match r {
                Ok(ns) => {
                    &&& !final(self).closed
                    &&& final(self).requests@ == old(self).requests@ + ns@
                    &&& final(self).submitted == old(self).submitted + ns@.len()
                    &&& final(self).pending@ == old(self).pending@ + Seq::new(
                        ns@.len(),
                        |i: int| None::<Response>,
                    )
                    &&& old(self).buffer@ + chunk@ == request_frames(ns@) + final(self).buffer@
                    &&& !has_nl(final(self).buffer@)
                },
                Err(e) => {
                    &&& e == ConnectionError::MalformedFrame
                    &&& final(self).closed
                    &&& exists|ns: Seq<u64>, bad: Seq<u8>|
                        #[trigger] failed_on_bytes(*old(self), chunk@, *final(self), ns, bad)
                },
            },
    {
        let mut k: usize = 0;
        while k < chunk.len()
            invariant
                0 <= k <= chunk@.len(),
                self.wf(),
                self.buffer@ == old(self).buffer@ + chunk@.subrange(0, k as int),
                self.submitted == old(self).submitted,
                self.written == old(self).written,
                self.pending@ == old(self).pending@,
                self.closed == old(self).closed,
                self.requests@ == old(self).requests@,
                self.resolved@ == old(self).resolved@,
                self.emitted@ == old(self).emitted@,
            decreases chunk@.len() - k,
        {
            self.buffer.push(chunk[k]);
            proof {
                assert(self.buffer@ =~= old(self).buffer@ + chunk@.subrange(0, k + 1));
            }
            k = k + 1;
        }
        proof {
            assert(chunk@.subrange(0, chunk@.len() as int) =~= chunk@);
        }
        let mut out: Vec<u64> = Vec::new();
        proof {
            assert(self.requests@ =~= old(self).requests@ + out@);
            assert(self.pending@ =~= old(self).pending@ + Seq::new(
                out@.len(),
                |i: int| None::<Response>,
            ));
            assert(request_frames(out@) == Seq::<u8>::empty());
            assert(old(self).buffer@ + chunk@ =~= request_frames(out@) + self.buffer@);
        }
        loop
            invariant
                self.wf(),
                !self.closed,
                self.written == old(self).written,
                self.emitted@ == old(self).emitted@,
                self.resolved@ == old(self).resolved@,
                self.requests@ == old(self).requests@ + out@,
                self.submitted == old(self).submitted + out@.len(),
                self.pending@ == old(self).pending@ + Seq::new(
                    out@.len(),
                    |i: int| None::<Response>,
                ),
                old(self).buffer@ + chunk@ == request_frames(out@) + self.buffer@,
                self.submitted + self.buffer@.len() <= u64::MAX,
            decreases self.buffer@.len(),
        {
            let ghost pre = *self;
            let ghost pre_buf = self.buffer@;
            let step = codec::decode_request(&mut self.buffer);
            match step {
                Ok(None) => {
                    return Ok(out);
                },
                Ok(Some(req)) => {
                    proof {
                        codec::lemma_first_nl_props(pre_buf);
                        assert(pre_buf =~= pre_buf.take(codec::first_nl(pre_buf)) + seq![10u8]
                            + pre_buf.skip(codec::first_nl(pre_buf) + 1));
                        codec::lemma_request_frames_snoc(out@, req.number);
                        assert(request_frames(out@.push(req.number)) + self.buffer@
                            =~= request_frames(out@) + pre_buf);
                    }
                    out.push(req.number);
                    self.pending.push(None);
                    self.submitted = self.submitted + 1;
                    proof {
                        self.requests@ = self.requests@.push(req.number);
                        lemma_wf_after_dispatch(pre, *self, req.number);
                        assert(self.requests@ =~= old(self).requests@ + out@);
                        assert(self.pending@ =~= old(self).pending@ + Seq::new(
                            out@.len(),
                            |i: int| None::<Response>,
                        ));
                    }
                },
                Err(e) => {
                    proof {
                        codec::lemma_first_nl_props(pre_buf);
                        assert(pre_buf =~= pre_buf.take(codec::first_nl(pre_buf)) + seq![10u8]
                            + pre_buf.skip(codec::first_nl(pre_buf) + 1));
                    }
                    self.closed = true;
                    proof {
                        let bad = pre_buf.take(codec::first_nl(pre_buf));
                        assert(old(self).buffer@ + chunk@ =~= request_frames(out@) + bad
                            + seq![10u8] + self.buffer@);
                        assert(failed_on_bytes(*old(self), chunk@, *self, out@, bad));
                    }
                    return Err(e);
                },
            }
        }
    }

    /// Record that the race for request `index` resolved to `resp`, and
    /// emit every response whose turn has now come: the returned bytes are
    /// the frames, in request order, of the maximal run of resolved
    /// responses starting at the next one owed. A response reaches the wire
    /// exactly once, and only after all its predecessors.
    #[verifier::loop_isolation(false)]
    pub fn on_race_resolved(&mut self, index: u64, resp: Response) -> (out: Vec<u8>)
        requires
            old(self).wf(),
            !old(self).closed,
            old(self).written <= index < old(self).submitted,
            !old(self).resolved@.contains_key(index as int),
            resp.wf(),
        ensures
            final(self).wf(),
            !final(self).closed,
            final(self).buffer@ == old(self).buffer@,
            final(self).requests@ == old(self).requests@,
            final(self).submitted == old(self).submitted,
            final(self).resolved@ == old(self).resolved@.insert(index as int, resp),
            ({
                let updated = old(self).pending@.update(index - old(self).written, Some(resp));
                let flushed = some_prefix_len(updated);
                &&& final(self).written == old(self).written + flushed
                &&& final(self).pending@ == updated.skip(flushed)
                &&& final(self).emitted@ == old(self).emitted@ + prefix_vals(updated)
                &&& out@ == response_frames(prefix_vals(updated))
            }),
    {
        proof {
            assert(index - self.written < self.pending@.len());
        }
        let slot = (index - self.written) as usize;
        let _vacant = self.pending.remove(slot);
        self.pending.insert(slot, Some(resp));
        proof {
            self.resolved@ = self.resolved@.insert(index as int, resp);
            assert(self.pending@ =~= old(self).pending@.update(slot as int, Some(resp)));
        }
        let ghost updated = self.pending@;
        let ghost total = some_prefix_len(updated);
        let total_len: usize = self.pending.len();
        proof {
            assert(updated.len() == total_len);
            lemma_some_prefix_len_bounds(updated);
        }
        let mut out_buf: Vec<u8> = Vec::new();
        let mut k: usize = 0;
        proof {
            assert(self.pending@ =~= updated.skip(0));
            assert(prefix_vals(updated).take(0) =~= Seq::<Response>::empty());
            assert(response_frames(Seq::<Response>::empty()) == Seq::<u8>::empty());
            assert(self.emitted@ =~= old(self).emitted@ + prefix_vals(updated).take(0));
        }
        loop
            invariant
                updated.len() == total_len,
                0 <= k <= updated.len(),
                forall|i: int| 0 <= i < k ==> updated[i] is Some,
                self.pending@ == updated.skip(k as int),
                self.written == old(self).written + k,
                self.submitted == old(self).submitted,
                self.buffer@ == old(self).buffer@,
                self.requests@ == old(self).requests@,
                self.resolved@ == old(self).resolved@.insert(index as int, resp),
                !self.closed,
                self.emitted@ == old(self).emitted@ + prefix_vals(updated).take(k as int),
                out_buf@ == response_frames(prefix_vals(updated).take(k as int)),
                forall|j: int|
                    0 <= j < updated.len() ==> ((#[trigger] updated[j]) matches Some(r2)
                        ==> r2.wf()),
            decreases self.pending@.len(),
        {
            if self.pending.len() == 0 {
                break;
            }
            let head = self.pending[0];
            match head {
                None => {
                    break;
                },
                Some(r2) => {
                    proof {
                        assert(k < updated.len());
                        assert(updated.skip(k as int)[0] == updated[k as int]);
                        assert(updated[k as int] is Some);
                        assert forall|i: int| 0 <= i < k + 1 implies updated[i] is Some by {
                            if i == k {
                                assert(updated[k as int] is Some);
                            }
                        }
                        lemma_some_prefix_len_at_least(updated, k as int + 1);
                    }
                    let _gone = self.pending.remove(0);
                    codec::encode_response(&r2, &mut out_buf);
                    self.written = self.written + 1;
                    proof {
                        assert(self.pending@ =~= updated.skip(k as int + 1));
                        let vals = prefix_vals(updated);
                        assert(vals[k as int] == updated[k as int]->0);
                        assert(vals.take(k as int + 1) =~= vals.take(k as int).push(r2));
                        codec::lemma_response_frames_snoc(vals.take(k as int), r2);
                        self.emitted@ = self.emitted@ + seq![r2];
                        assert(self.emitted@ =~= old(self).emitted@ + vals.take(k as int + 1));
                        assert(out_buf@ == response_frames(vals.take(k as int + 1)));
                    }
                    k = k + 1;
                },
            }
        }
        proof {
            if k < updated.len() {
                assert(self.pending@[0] == updated[k as int]);
                assert(updated[k as int] is None);
            }
            lemma_some_prefix_len_unique(updated, k as int);
            assert(k == total);
            assert(prefix_vals(updated).take(total) =~= prefix_vals(updated));
            let post_written = old(self).written + total;
            assert forall|i: int| 0 <= i < post_written implies #[trigger] self.resolved@.contains_key(
                i,
            ) && #[trigger] self.emitted@[i] == self.resolved@[i] && (self.emitted@[i]).wf() by {
                if i < old(self).written {
                    assert(old(self).resolved@.contains_key(i));
                    assert(old(self).emitted@[i] == old(self).resolved@[i]);
                    assert((old(self).emitted@[i]).wf());
                } else {
                    let j = i - old(self).written;
                    assert(self.emitted@[i] == prefix_vals(updated)[j]);
                    assert(updated[j] is Some);
                    assert(prefix_vals(updated)[j] == updated[j]->0);
                    if j == index - old(self).written {
                        assert(updated[j] == Some(resp));
                        assert(self.resolved@.contains_key(i));
                    } else {
                        assert(updated[j] == old(self).pending@[j]);
                        assert(old(self).resolved@.contains_key(old(self).written + j));
                    }
                }
            }
            assert forall|i: int| 0 <= i < post_written implies #[trigger] self.resolved@.contains_key(
                i,
            ) by {
                // Name both history terms so the invariant instantiates here.
                assert(self.emitted@[i] == self.resolved@[i] || self.resolved@.contains_key(i));
            }
            assert forall|i: int| 0 <= i < post_written implies #[trigger] self.emitted@[i]
                == self.resolved@[i] by {
                assert(self.resolved@.contains_key(i));
            }
            assert forall|i: int| 0 <= i < post_written implies (#[trigger] self.emitted@[i]).wf() by {
                assert(self.resolved@.contains_key(i));
            }
            assert forall|j: int| 0 <= j < self.pending@.len() implies ((
            #[trigger] self.pending@[j]) is Some <==> self.resolved@.contains_key(self.written
                + j)) by {
                assert(self.pending@[j] == updated[total + j]);
                if total + j == index - old(self).written {
                    assert(updated[total + j] == Some(resp));
                } else {
                    assert(updated[total + j] == old(self).pending@[total + j]);
                }
            }
            assert forall|j: int| 0 <= j < self.pending@.len() implies ((
            #[trigger] self.pending@[j]) matches Some(r2) ==> r2 == self.resolved@[self.written
                + j] && r2.wf()) by {
                assert(self.pending@[j] == updated[total + j]);
                if total + j == index - old(self).written {
                    assert(updated[total + j] == Some(resp));
                } else {
                    assert(updated[total + j] == old(self).pending@[total + j]);
                }
            }
            if self.pending@.len() > 0 {
                assert(self.pending@[0] == updated[total]);
                assert(updated[total] is None);
            }
        }
        out_buf
    }

    /// Close the connection: on a clean end of stream (any partial frame in
    /// the buffer is discarded, which is not an error), or after a fatal
    /// error reported by `on_bytes` or chosen by the caller.
    pub fn close(&mut self)
        ensures
            final(self).closed,
            final(self).buffer@ == old(self).buffer@,
            final(self).submitted == old(self).submitted,
            final(self).written == old(self).written,
            final(self).pending@ == old(self).pending@,
            final(self).requests@ == old(self).requests@,
            final(self).resolved@ == old(self).resolved@,
            final(self).emitted@ == old(self).emitted@,
    {
        self.closed = true;
    }
}

/// Responses are emitted in request order: the handler invariant pins the
/// `i`-th emitted response, for every `i`, to be exactly the response the
/// race for request `i` resolved to.
pub proof fn lemma_responses_in_request_order(h: Handler)
    requires
        h.wf(),
    ensures
        h.emitted@.len() == h.written,
        forall|i: int|
            0 <= i < h.written ==> h.resolved@.contains_key(i) && #[trigger] h.emitted@[i]
                == h.resolved@[i],
{
}

/// A connection that dispatched `k` requests emits exactly `k` responses:
/// once every dispatched request's race has resolved, every response has
/// been emitted — none is dropped, duplicated, or reordered, however the
/// races interleaved.
pub proof fn lemma_all_resolved_all_emitted(h: Handler)
    requires
        h.wf(),
        forall|i: int| 0 <= i < h.submitted ==> h.resolved@.contains_key(i),
    ensures
        h.written == h.submitted,
        h.emitted@.len() == h.submitted,
        forall|i: int| 0 <= i < h.submitted ==> #[trigger] h.emitted@[i] == h.resolved@[i],
{
    if h.pending@.len() > 0 {
        assert(h.written < h.submitted);
        assert(h.resolved@.contains_key(h.written as int));
        assert(h.pending@[0] is Some);
    }
}

} // verus!
