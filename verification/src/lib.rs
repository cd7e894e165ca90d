//! A minimal request/response service library.
//!
//! A server accepts framed [`Request`] messages describing a unit of simulated
//! work, runs each on a bounded worker pool, races it against a deadline, and
//! answers with a [`Response`] — either `Success` with the elapsed time or
//! `Failure` when the deadline fired first.
//!
//! The wire format is a stream of newline-delimited JSON frames; the codec in
//! [`codec`] states the exact byte shape of each frame and proves that
//! encoding and decoding invert each other.

use vstd::prelude::*;

pub mod digits;
pub mod codec;
pub mod client;
pub mod server;

verus! {

/// A request: one number that represents the size of a fake computation
/// ("count from 0 to `number`").
#[derive(Clone, Copy, Debug, PartialEq, Eq, Structural)]
pub struct Request {
    /// Some number that represents the complexity of the fake computation.
    pub number: u64,
}

/// Wall-clock time measured for a finished computation, as whole seconds plus
/// a nanosecond remainder. This is the plain-value form of a duration; the
/// remainder is always below one second.
#[derive(Clone, Copy, Debug, PartialEq, Eq, Structural)]
pub struct Elapsed {
    /// Whole seconds.
    pub secs: u64,
    /// Nanoseconds below one second.
    pub nanos: u32,
}

impl Elapsed {
    /// A duration split into seconds and nanoseconds is in normal form when
    /// the nanosecond part is below one second.
    pub open spec fn wf(self) -> bool {
        self.nanos < 1_000_000_000
    }
}

/// A response to one request.
#[derive(Clone, Copy, Debug, PartialEq, Eq, Structural)]
pub enum Response {
    /// The computation finished before the deadline, in the given time.
    Success(Elapsed),
    /// The computation had not finished when the deadline fired.
    Failure,
}

impl Response {
    /// A response is well formed when its elapsed time, if any, is in normal
    /// form.
    pub open spec fn wf(self) -> bool {
        match self {
            Response::Success(e) => e.wf(),
            Response::Failure => true,
        }
    }
}

/// A fatal, per-connection error. Either kind closes the owning connection;
/// other connections are unaffected.
#[derive(Clone, Copy, Debug, PartialEq, Eq, Structural)]
pub enum ConnectionError {
    /// A frame arrived whose payload is not a valid message.
    MalformedFrame,
    /// The timing facility itself failed; distinct from an ordinary timeout,
    /// which is answered with `Response::Failure`.
    TimerFailed,
}

} // verus!
