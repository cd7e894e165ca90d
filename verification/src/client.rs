//! Client-side logic: random request generation and the counted-read
//! session.
//!
//! The client writes a fixed number of randomly generated requests, then
//! reads exactly that many responses and stops — an explicit counted-read
//! loop, not a stream boundary.

use vstd::prelude::*;

use crate::Request;

pub mod protocol;

verus! {

/// Relies on rand::random_range over `min..max`: the sampled value is
/// uniformly distributed over the half-open range `[min, max)`; the call
/// panics only on an empty range, which the precondition rules out.
#[verifier::external_body]
fn random_in_range(min: u64, max: u64) -> (r: u64)
    requires
        min < max,
    ensures
        min <= r < max,
{
    rand::random_range(min..max)
}

/// Draw one request whose number lies in `[min, max)`.
pub fn generate_request(min: u64, max: u64) -> (r: Request)
    requires
        min < max,
    ensures
        min <= r.number < max,
{
    Request { number: random_in_range(min, max) }
}

/// Draw `count` requests, each with a number in `[min, max)`.
#[verifier::loop_isolation(false)]
pub fn generate_requests(count: u32, min: u64, max: u64) -> (v: Vec<Request>)
    requires
        min < max,
    ensures
        v@.len() == count,
        forall|i: int| 0 <= i < v@.len() ==> min <= (#[trigger] v@[i]).number < max,
{
    let mut v: Vec<Request> = Vec::new();
    let mut k: u32 = 0;
    while k < count
        invariant
            0 <= k <= count,
            v@.len() == k,
            forall|i: int| 0 <= i < v@.len() ==> min <= (#[trigger] v@[i]).number < max,
        decreases count - k,
    {
        let req = generate_request(min, max);
        v.push(req);
        k = k + 1;
    }
    v
}

/// The counted-read side of one client run: after sending `expected`
/// requests, the client counts responses and is done exactly when the last
/// one has arrived.
pub struct ClientSession {
    /// How many responses the session owes in total.
    pub expected: u32,
    /// How many responses have arrived so far.
    pub received: u32,
}

impl ClientSession {
    /// No more responses have arrived than are owed.
    pub open spec fn wf(self) -> bool {
        self.received <= self.expected
    }

    /// A session that will read exactly `num_requests` responses.
    pub fn new(num_requests: u32) -> (s: ClientSession)
        ensures
            s.wf(),
            s.expected == num_requests,
            s.received == 0,
    {
        ClientSession { expected: num_requests, received: 0 }
    }

    /// Count one arrived response; the result says whether it was the last
    /// one owed, so the caller stops reading exactly then.
    pub fn on_response(&mut self) -> (done: bool)
        requires
            old(self).wf(),
            old(self).received < old(self).expected,
        ensures
            final(self).wf(),
            final(self).expected == old(self).expected,
            final(self).received == old(self).received + 1,
            done <==> final(self).received == final(self).expected,
    {
        self.received = self.received + 1;
        self.received == self.expected
    }

    /// Whether every owed response has arrived.
    pub fn is_done(&self) -> (b: bool)
        ensures
            b <==> self.received == self.expected,
    {
        self.received == self.expected
    }
}

} // verus!
