//! The message codec: newline-delimited JSON frames.
//!
//! One frame is a JSON payload followed by a single `\n` byte; the delimiter
//! is the sole framing signal. The payload shapes are fixed and canonical —
//! no interior whitespace, numbers in plain decimal without leading zeros:
//!
//! - request: `{"number":N}` with `N` a decimal `u64`;
//! - response: `{"Success":S.NNNNNNNNN}` (whole seconds, a dot, exactly nine
//!   fractional digits) or `"Failure"`.
//!
//! This canonical byte shape is the wire contract. A decoder consumes
//! everything up to and including the first delimiter and rejects any payload
//! that is not the canonical encoding of a message; a buffer without a
//! delimiter is left untouched ("incomplete"). Encoding then decoding is
//! proved to give back the original message.

use vstd::prelude::*;

use crate::digits::{
    dec_of, is_digit, lemma_dec_of_injective, lemma_dec_of_shape, lemma_padded_shape,
    lemma_pow10_9, lemma_val_of_padded, padded_dec, push_dec, push_padded, parse_dec_u64,
    parse_padded_u32,
};
use crate::{ConnectionError, Elapsed, Request, Response};

verus! {

/// The opening bytes of a request payload: `{"number":`.
pub open spec fn req_open() -> Seq<u8> {
    seq![123u8, 34u8, 110u8, 117u8, 109u8, 98u8, 101u8, 114u8, 34u8, 58u8]
}

/// The opening bytes of a success payload: `{"Success":`.
pub open spec fn succ_open() -> Seq<u8> {
    seq![123u8, 34u8, 83u8, 117u8, 99u8, 99u8, 101u8, 115u8, 115u8, 34u8, 58u8]
}

/// The whole failure payload: `"Failure"`.
pub open spec fn failure_payload() -> Seq<u8> {
    seq![34u8, 70u8, 97u8, 105u8, 108u8, 117u8, 114u8, 101u8, 34u8]
}

/// The canonical payload of a request: `{"number":N}`.
pub open spec fn request_payload(n: u64) -> Seq<u8> {
    req_open() + dec_of(n as nat) + seq![125u8]
}

/// A whole request frame: the payload plus the `\n` delimiter.
pub open spec fn request_frame(n: u64) -> Seq<u8> {
    request_payload(n) + seq![10u8]
}

/// The canonical payload of a response: `{"Success":S.NNNNNNNNN}` or
/// `"Failure"`.
pub open spec fn response_payload(r: Response) -> Seq<u8> {
    match r {
        Response::Success(e) => succ_open() + dec_of(e.secs as nat) + seq![46u8] + padded_dec(
            e.nanos as nat,
            9,
        ) + seq![125u8],
        Response::Failure => failure_payload(),
    }
}

/// A whole response frame: the payload plus the `\n` delimiter.
pub open spec fn response_frame(r: Response) -> Seq<u8> {
    response_payload(r) + seq![10u8]
}

/// The concatenation of the frames of a sequence of request numbers.
pub open spec fn request_frames(ns: Seq<u64>) -> Seq<u8>
    decreases ns.len(),
{
    if ns.len() == 0 {
        Seq::empty()
    } else {
        request_frame(ns[0]) + request_frames(ns.skip(1))
    }
}

/// The concatenation of the frames of a sequence of responses.
pub open spec fn response_frames(rs: Seq<Response>) -> Seq<u8>
    decreases rs.len(),
{
    if rs.len() == 0 {
        Seq::empty()
    } else {
        response_frame(rs[0]) + response_frames(rs.skip(1))
    }
}

/// Whether the buffer holds a frame delimiter.
pub open spec fn has_nl(s: Seq<u8>) -> bool {
    exists|i: int| 0 <= i < s.len() && s[i] == 10
}

/// The position of the first frame delimiter (meaningful only when
/// `has_nl(s)`).
pub open spec fn first_nl(s: Seq<u8>) -> int
    decreases s.len(),
{
    if s.len() == 0 {
        0
    } else if s[0] == 10 {
        0
    } else {
        1 + first_nl(s.skip(1))
    }
}

/// A delimiter at `i` with none before it is the first delimiter.
pub proof fn lemma_first_nl_at(s: Seq<u8>, i: int)
    requires
        0 <= i < s.len(),
        s[i] == 10,
        forall|j: int| 0 <= j < i ==> s[j] != 10,
    ensures
        has_nl(s),
        first_nl(s) == i,
    decreases i,
{
    if i == 0 {
    } else {
        assert(s.skip(1)[i - 1] == s[i]);
        assert forall|j: int| 0 <= j < i - 1 implies s.skip(1)[j] != 10 by {
            assert(s.skip(1)[j] == s[j + 1]);
        }
        lemma_first_nl_at(s.skip(1), i - 1);
    }
}

/// When the buffer holds a delimiter, the first delimiter is inside the
/// buffer, is a delimiter byte, and nothing before it is one.
pub proof fn lemma_first_nl_props(s: Seq<u8>)
    requires
        has_nl(s),
    ensures
        0 <= first_nl(s) < s.len(),
        s[first_nl(s)] == 10,
        forall|j: int| 0 <= j < first_nl(s) ==> s[j] != 10,
    decreases s.len(),
{
    if s.len() == 0 {
    } else if s[0] == 10 {
    } else {
        let i = choose|i: int| 0 <= i < s.len() && s[i] == 10;
        assert(s.skip(1)[i - 1] == s[i]);
        assert(has_nl(s.skip(1)));
        lemma_first_nl_props(s.skip(1));
        assert(s[first_nl(s)] == s.skip(1)[first_nl(s.skip(1))]);
        assert forall|j: int| 0 <= j < first_nl(s) implies s[j] != 10 by {
            if j > 0 {
                assert(s.skip(1)[j - 1] == s[j]);
            }
        }
    }
}

/// Shape of a request payload: its length, opening bytes, closing brace, the
/// decimal digits in the middle, and the absence of any delimiter byte.
pub proof fn lemma_request_payload_facts(n: u64)
    ensures
        request_payload(n).len() == 11 + dec_of(n as nat).len(),
        request_payload(n).len() >= 12,
        request_payload(n)[0] == 123,
        request_payload(n)[1] == 34,
        request_payload(n)[2] == 110,
        request_payload(n)[3] == 117,
        request_payload(n)[4] == 109,
        request_payload(n)[5] == 98,
        request_payload(n)[6] == 101,
        request_payload(n)[7] == 114,
        request_payload(n)[8] == 34,
        request_payload(n)[9] == 58,
        request_payload(n)[request_payload(n).len() - 1] == 125,
        request_payload(n).subrange(10, request_payload(n).len() - 1) == dec_of(n as nat),
        forall|j: int| 0 <= j < request_payload(n).len() ==> request_payload(n)[j] != 10,
{
    lemma_dec_of_shape(n as nat);
    let p = request_payload(n);
    let d = dec_of(n as nat);
    assert(p.subrange(10, p.len() - 1) =~= d);
    assert forall|j: int| 0 <= j < p.len() implies p[j] != 10 by {
        if 10 <= j < p.len() - 1 {
            assert(p[j] == d[j - 10]);
            assert(is_digit(d[j - 10]));
        }
    }
}

/// Shape of a success payload: its length, opening bytes, the dot eleven
/// bytes from the end, the two digit runs, and the absence of any delimiter.
pub proof fn lemma_success_payload_facts(e: Elapsed)
    ensures
        ({
            let p = response_payload(Response::Success(e));
            &&& p.len() == 22 + dec_of(e.secs as nat).len()
            &&& p.len() >= 23
            &&& p[0] == 123
            &&& p[1] == 34
            &&& p[2] == 83
            &&& p[3] == 117
            &&& p[4] == 99
            &&& p[5] == 99
            &&& p[6] == 101
            &&& p[7] == 115
            &&& p[8] == 115
            &&& p[9] == 34
            &&& p[10] == 58
            &&& p[p.len() - 11] == 46
            &&& p[p.len() - 1] == 125
            &&& p.subrange(11, p.len() - 11) == dec_of(e.secs as nat)
            &&& p.subrange(p.len() - 10, p.len() - 1) == padded_dec(e.nanos as nat, 9)
            &&& forall|j: int| 0 <= j < p.len() ==> p[j] != 10
        }),
{
    lemma_dec_of_shape(e.secs as nat);
    lemma_padded_shape(e.nanos as nat, 9);
    let p = response_payload(Response::Success(e));
    let d = dec_of(e.secs as nat);
    let f = padded_dec(e.nanos as nat, 9);
    assert(p =~= succ_open() + d + seq![46u8] + f + seq![125u8]);
    assert(p.subrange(11, p.len() - 11) =~= d);
    assert(p.subrange(p.len() - 10, p.len() - 1) =~= f);
    assert forall|j: int| 0 <= j < p.len() implies p[j] != 10 by {
        if 11 <= j < 11 + d.len() {
            assert(p[j] == d[j - 11]);
            assert(is_digit(d[j - 11]));
        } else if 12 + d.len() <= j < p.len() - 1 {
            assert(p[j] == f[j - 12 - d.len()]);
            assert(is_digit(f[j - 12 - d.len()]));
        }
    }
}

/// Shape of the failure payload: nine fixed bytes, none a delimiter.
pub proof fn lemma_failure_payload_facts()
    ensures
        response_payload(Response::Failure) == failure_payload(),
        failure_payload().len() == 9,
        failure_payload()[0] == 34,
        forall|j: int| 0 <= j < failure_payload().len() ==> failure_payload()[j] != 10,
{
}

/// Different request numbers have different payloads.
pub proof fn lemma_request_payload_injective(a: u64, b: u64)
    requires
        request_payload(a) == request_payload(b),
    ensures
        a == b,
{
    lemma_request_payload_facts(a);
    lemma_request_payload_facts(b);
    assert(dec_of(a as nat) == dec_of(b as nat));
    lemma_dec_of_injective(a as nat, b as nat);
}

/// Different well-formed responses have different payloads.
pub proof fn lemma_response_payload_injective(a: Response, b: Response)
    requires
        a.wf(),
        b.wf(),
        response_payload(a) == response_payload(b),
    ensures
        a == b,
{
    match a {
        Response::Failure => {
            match b {
                Response::Failure => {
                },
                Response::Success(eb) => {
                    lemma_failure_payload_facts();
                    lemma_success_payload_facts(eb);
                    assert(response_payload(a)[0] == 34);
                    assert(response_payload(b)[0] == 123);
                },
            }
        },
        Response::Success(ea) => {
            match b {
                Response::Failure => {
                    lemma_failure_payload_facts();
                    lemma_success_payload_facts(ea);
                    assert(response_payload(a)[0] == 123);
                    assert(response_payload(b)[0] == 34);
                },
                Response::Success(eb) => {
                    lemma_success_payload_facts(ea);
                    lemma_success_payload_facts(eb);
                    assert(dec_of(ea.secs as nat) == dec_of(eb.secs as nat));
                    lemma_dec_of_injective(ea.secs as nat, eb.secs as nat);
                    assert(padded_dec(ea.nanos as nat, 9) == padded_dec(eb.nanos as nat, 9));
                    lemma_pow10_9();
                    lemma_val_of_padded(ea.nanos as nat, 9);
                    lemma_val_of_padded(eb.nanos as nat, 9);
                },
            }
        },
    }
}

/// Append the opening bytes of a request payload.
fn push_req_open(buf: &mut Vec<u8>)
    ensures
        final(buf)@ == old(buf)@ + req_open(),
{
    buf.push(123);
    buf.push(34);
    buf.push(110);
    buf.push(117);
    buf.push(109);
    buf.push(98);
    buf.push(101);
    buf.push(114);
    buf.push(34);
    buf.push(58);
    proof {
        assert(buf@ =~= old(buf)@ + req_open());
    }
}

/// Append the opening bytes of a success payload.
fn push_succ_open(buf: &mut Vec<u8>)
    ensures
        final(buf)@ == old(buf)@ + succ_open(),
{
    buf.push(123);
    buf.push(34);
    buf.push(83);
    buf.push(117);
    buf.push(99);
    buf.push(99);
    buf.push(101);
    buf.push(115);
    buf.push(115);
    buf.push(34);
    buf.push(58);
    proof {
        assert(buf@ =~= old(buf)@ + succ_open());
    }
}

/// Append the failure payload.
fn push_failure(buf: &mut Vec<u8>)
    ensures
        final(buf)@ == old(buf)@ + failure_payload(),
{
    buf.push(34);
    buf.push(70);
    buf.push(97);
    buf.push(105);
    buf.push(108);
    buf.push(117);
    buf.push(114);
    buf.push(101);
    buf.push(34);
    proof {
        assert(buf@ =~= old(buf)@ + failure_payload());
    }
}

/// Serialize a request and append its frame — payload plus delimiter — to
/// the output buffer. Encoding cannot fail: every `u64` has a frame.
pub fn encode_request(req: &Request, buf: &mut Vec<u8>)
    ensures
        final(buf)@ == old(buf)@ + request_frame(req.number),
{
    push_req_open(buf);
    push_dec(req.number, buf);
    buf.push(125);
    buf.push(10);
    proof {
        assert(buf@ =~= old(buf)@ + request_frame(req.number));
    }
}

/// Serialize a response and append its frame — payload plus delimiter — to
/// the output buffer. Encoding cannot fail for a well-formed response.
pub fn encode_response(resp: &Response, buf: &mut Vec<u8>)
    requires
        resp.wf(),
    ensures
        final(buf)@ == old(buf)@ + response_frame(*resp),
{
    match resp {
        Response::Success(e) => {
            push_succ_open(buf);
            push_dec(e.secs, buf);
            buf.push(46);
            push_padded(e.nanos, 9, buf);
            buf.push(125);
        },
        Response::Failure => {
            push_failure(buf);
        },
    }
    buf.push(10);
    proof {
        assert(buf@ =~= old(buf)@ + response_frame(*resp));
    }
}

/// Find the first frame delimiter in the buffer.
#[verifier::loop_isolation(false)]
fn find_nl(buf: &Vec<u8>) -> (r: Option<usize>)
    ensures
        match r {
            Some(i) => has_nl(buf@) && i == first_nl(buf@) && i < buf@.len(),
            None => !has_nl(buf@),
        },
{
    let mut i: usize = 0;
    while i < buf.len()
        invariant
            0 <= i <= buf@.len(),
            forall|j: int| 0 <= j < i ==> buf@[j] != 10,
        decreases buf@.len() - i,
    {
        if buf[i] == 10 {
            proof {
                lemma_first_nl_at(buf@, i as int);
            }
            return Some(i);
        }
        i = i + 1;
    }
    None
}

/// Remove the first frame from the buffer and hand back its payload, the
/// bytes before the first delimiter. Payload and delimiter are both
/// consumed; without a delimiter the buffer is untouched.
fn split_frame(buf: &mut Vec<u8>) -> (r: Option<Vec<u8>>)
    ensures
        match r {
            None => !has_nl(old(buf)@) && final(buf)@ == old(buf)@,
            Some(p) => has_nl(old(buf)@) && p@ == old(buf)@.take(first_nl(old(buf)@))
                && final(buf)@ == old(buf)@.skip(first_nl(old(buf)@) + 1),
        },
{
    let idx = match find_nl(buf) {
        None => {
            return None;
        },
        Some(i) => i,
    };
    assert(idx < buf.len());
    let mut tail = buf.split_off(idx + 1);
    buf.truncate(idx);
    core::mem::swap(buf, &mut tail);
    proof {
        assert(tail@ =~= old(buf)@.take(first_nl(old(buf)@)));
        assert(buf@ =~= old(buf)@.skip(first_nl(old(buf)@) + 1));
    }
    Some(tail)
}

/// Parse a frame payload as a request. Succeeds exactly on the canonical
/// encoding of some request number.
fn parse_request_payload(p: &Vec<u8>) -> (r: Option<u64>)
    ensures
        match r {
            Some(n) => p@ == request_payload(n),
            None => forall|n: u64| p@ != request_payload(n),
        },
{
    if p.len() < 12 {
        proof {
            assert forall|n: u64| p@ != request_payload(n) by {
                lemma_request_payload_facts(n);
            }
        }
        return None;
    }
    if p[0] != 123 || p[1] != 34 || p[2] != 110 || p[3] != 117 || p[4] != 109 || p[5] != 98
        || p[6] != 101 || p[7] != 114 || p[8] != 34 || p[9] != 58 {
        proof {
            assert forall|n: u64| p@ != request_payload(n) by {
                lemma_request_payload_facts(n);
            }
        }
        return None;
    }
    if p[p.len() - 1] != 125 {
        proof {
            assert forall|n: u64| p@ != request_payload(n) by {
                lemma_request_payload_facts(n);
            }
        }
        return None;
    }
    match parse_dec_u64(p, 10, p.len() - 1) {
        Some(n) => {
            proof {
                lemma_request_payload_facts(n);
                assert(p@ =~= request_payload(n));
            }
            Some(n)
        },
        None => {
            proof {
                assert forall|n: u64| p@ != request_payload(n) by {
                    if p@ == request_payload(n) {
                        lemma_request_payload_facts(n);
                        assert(p@.subrange(10, p@.len() - 1) == dec_of(n as nat));
                    }
                }
            }
            None
        },
    }
}

/// Parse a frame payload as a response. Succeeds exactly on the canonical
/// encoding of some well-formed response.
fn parse_response_payload(p: &Vec<u8>) -> (r: Option<Response>)
    ensures
        match r {
            Some(resp) => resp.wf() && p@ == response_payload(resp),
            None => forall|resp: Response|
                resp.wf() ==> p@ != #[trigger] response_payload(resp),
        },
{
    if p.len() == 0 {
        proof {
            assert forall|resp: Response| resp.wf() implies p@ != #[trigger] response_payload(resp) by {
                match resp {
                    Response::Failure => lemma_failure_payload_facts(),
                    Response::Success(e) => lemma_success_payload_facts(e),
                }
            }
        }
        return None;
    }
    if p[0] == 34 {
        // Only the failure payload begins with a quote.
        if p.len() == 9 && p[1] == 70 && p[2] == 97 && p[3] == 105 && p[4] == 108 && p[5] == 117
            && p[6] == 114 && p[7] == 101 && p[8] == 34 {
            proof {
                assert(p@ =~= failure_payload());
            }
            Some(Response::Failure)
        } else {
            proof {
                assert forall|resp: Response| resp.wf() implies p@ != #[trigger] response_payload(resp) by {
                    match resp {
                        Response::Failure => {
                            lemma_failure_payload_facts();
                            if p@ == failure_payload() {
                                assert(p@.len() == 9);
                            }
                        },
                        Response::Success(e) => lemma_success_payload_facts(e),
                    }
                }
            }
            None
        }
    } else if p[0] == 123 {
        // Only a success payload begins with a brace.
        if p.len() < 23 {
            proof {
                assert forall|resp: Response| resp.wf() implies p@ != #[trigger] response_payload(resp) by {
                    match resp {
                        Response::Failure => lemma_failure_payload_facts(),
                        Response::Success(e) => lemma_success_payload_facts(e),
                    }
                }
            }
            return None;
        }
        if p[1] != 34 || p[2] != 83 || p[3] != 117 || p[4] != 99 || p[5] != 99 || p[6] != 101
            || p[7] != 115 || p[8] != 115 || p[9] != 34 || p[10] != 58 || p[p.len() - 11] != 46
            || p[p.len() - 1] != 125 {
            proof {
                assert forall|resp: Response| resp.wf() implies p@ != #[trigger] response_payload(resp) by {
                    match resp {
                        Response::Failure => lemma_failure_payload_facts(),
                        Response::Success(e) => lemma_success_payload_facts(e),
                    }
                }
            }
            return None;
        }
        let secs = match parse_dec_u64(p, 11, p.len() - 11) {
            Some(s) => s,
            None => {
                proof {
                    assert forall|resp: Response| resp.wf() implies p@ != #[trigger] response_payload(resp) by {
                        match resp {
                            Response::Failure => lemma_failure_payload_facts(),
                            Response::Success(e) => {
                                lemma_success_payload_facts(e);
                                if p@ == response_payload(resp) {
                                    assert(p@.subrange(11, p@.len() - 11) == dec_of(
                                        e.secs as nat,
                                    ));
                                }
                            },
                        }
                    }
                }
                return None;
            },
        };
        let nanos = match parse_padded_u32(p, p.len() - 10) {
            Some(v) => v,
            None => {
                proof {
                    assert forall|resp: Response| resp.wf() implies p@ != #[trigger] response_payload(resp) by {
                        match resp {
                            Response::Failure => lemma_failure_payload_facts(),
                            Response::Success(e) => {
                                lemma_success_payload_facts(e);
                                if p@ == response_payload(resp) {
                                    assert(p@.subrange(p@.len() - 10, p@.len() - 1)
                                        == padded_dec(e.nanos as nat, 9));
                                }
                            },
                        }
                    }
                }
                return None;
            },
        };
        let e = Elapsed { secs, nanos };
        proof {
            lemma_success_payload_facts(e);
            assert(p@.subrange(11, p@.len() - 11) == dec_of(secs as nat));
            assert(p@.subrange(p@.len() - 10, p@.len() - 1) == padded_dec(nanos as nat, 9));
            assert(p@ =~= response_payload(Response::Success(e)));
        }
        Some(Response::Success(e))
    } else {
        proof {
            assert forall|resp: Response| resp.wf() implies p@ != #[trigger] response_payload(resp) by {
                match resp {
                    Response::Failure => lemma_failure_payload_facts(),
                    Response::Success(e) => lemma_success_payload_facts(e),
                }
            }
        }
        None
    }
}

/// Decode one request frame from the buffer.
///
/// With no delimiter in the buffer the result is `Ok(None)` and nothing is
/// consumed. Otherwise the first frame — payload and delimiter — is
/// consumed: a canonical request payload decodes to its request, and any
/// other payload is a fatal `MalformedFrame` error.
pub fn decode_request(buf: &mut Vec<u8>) -> (r: Result<Option<Request>, ConnectionError>)
    ensures
        ({
            let s = old(buf)@;
            match r {
                Ok(opt) => match opt {
                    None => !has_nl(s) && final(buf)@ == s,
                    Some(req) => has_nl(s) && final(buf)@ == s.skip(first_nl(s) + 1) && s.take(
                        first_nl(s),
                    ) == request_payload(req.number),
                },
                Err(e) => has_nl(s) && final(buf)@ == s.skip(first_nl(s) + 1) && e
                    == ConnectionError::MalformedFrame && (forall|n: u64|
                    s.take(first_nl(s)) != request_payload(n)),
            }
        }),
{
    let payload = match split_frame(buf) {
        None => {
            return Ok(None);
        },
        Some(p) => p,
    };
    match parse_request_payload(&payload) {
        Some(n) => Ok(Some(Request { number: n })),
        None => Err(ConnectionError::MalformedFrame),
    }
}

/// Decode one response frame from the buffer.
///
/// With no delimiter in the buffer the result is `Ok(None)` and nothing is
/// consumed. Otherwise the first frame — payload and delimiter — is
/// consumed: a canonical response payload decodes to its response, and any
/// other payload is a fatal `MalformedFrame` error.
pub fn decode_response(buf: &mut Vec<u8>) -> (r: Result<Option<Response>, ConnectionError>)
    ensures
        ({
            let s = old(buf)@;
            match r {
                Ok(opt) => match opt {
                    None => !has_nl(s) && final(buf)@ == s,
                    Some(resp) => has_nl(s) && final(buf)@ == s.skip(first_nl(s) + 1)
                        && resp.wf() && s.take(first_nl(s)) == response_payload(resp),
                },
                Err(e) => has_nl(s) && final(buf)@ == s.skip(first_nl(s) + 1) && e
                    == ConnectionError::MalformedFrame && (forall|resp: Response|
                    resp.wf() ==> s.take(first_nl(s)) != #[trigger] response_payload(resp)),
            }
        }),
{
    let payload = match split_frame(buf) {
        None => {
            return Ok(None);
        },
        Some(p) => p,
    };
    match parse_response_payload(&payload) {
        Some(resp) => Ok(Some(resp)),
        None => Err(ConnectionError::MalformedFrame),
    }
}

/// Appending one more request frame to a frame run.
pub proof fn lemma_request_frames_snoc(ns: Seq<u64>, n: u64)
    ensures
        request_frames(ns.push(n)) == request_frames(ns) + request_frame(n),
    decreases ns.len(),
{
    if ns.len() == 0 {
        assert(ns.push(n).skip(1) =~= Seq::<u64>::empty());
        assert(ns.push(n)[0] == n);
        assert(request_frames(ns.push(n)) == request_frame(n) + request_frames(
            Seq::<u64>::empty(),
        ));
        assert(request_frames(Seq::<u64>::empty()) == Seq::<u8>::empty());
        assert(request_frames(ns.push(n)) =~= request_frames(ns) + request_frame(n));
    } else {
        assert(ns.push(n).skip(1) =~= ns.skip(1).push(n));
        lemma_request_frames_snoc(ns.skip(1), n);
        assert(ns.push(n)[0] == ns[0]);
        assert(request_frames(ns.push(n)) == request_frame(ns[0]) + request_frames(
            ns.skip(1).push(n),
        ));
        assert(request_frames(ns) == request_frame(ns[0]) + request_frames(ns.skip(1)));
        assert(request_frames(ns.push(n)) =~= request_frames(ns) + request_frame(n));
    }
}

/// Appending one more response frame to a frame run.
pub proof fn lemma_response_frames_snoc(rs: Seq<Response>, r: Response)
    ensures
        response_frames(rs.push(r)) == response_frames(rs) + response_frame(r),
    decreases rs.len(),
{
    if rs.len() == 0 {
        assert(rs.push(r).skip(1) =~= Seq::<Response>::empty());
        assert(rs.push(r)[0] == r);
        assert(response_frames(rs.push(r)) == response_frame(r) + response_frames(
            Seq::<Response>::empty(),
        ));
        assert(response_frames(Seq::<Response>::empty()) == Seq::<u8>::empty());
        assert(response_frames(rs.push(r)) =~= response_frames(rs) + response_frame(r));
    } else {
        assert(rs.push(r).skip(1) =~= rs.skip(1).push(r));
        lemma_response_frames_snoc(rs.skip(1), r);
        assert(rs.push(r)[0] == rs[0]);
        assert(response_frames(rs.push(r)) == response_frame(rs[0]) + response_frames(
            rs.skip(1).push(r),
        ));
        assert(response_frames(rs) == response_frame(rs[0]) + response_frames(rs.skip(1)));
        assert(response_frames(rs.push(r)) =~= response_frames(rs) + response_frame(r));
    }
}

/// Round trip for requests: a request frame written by the encoder splits at
/// its own delimiter, its payload is the canonical payload of the encoded
/// number — so by `decode_request`'s contract the decoder hands back exactly
/// the encoded request — and nothing is left in the buffer.
pub proof fn lemma_request_round_trip(n: u64)
    ensures
        has_nl(request_frame(n)),
        first_nl(request_frame(n)) == request_payload(n).len(),
        request_frame(n).take(request_payload(n).len() as int) == request_payload(n),
        request_frame(n).skip(request_payload(n).len() as int + 1) == Seq::<u8>::empty(),
{
    lemma_request_payload_facts(n);
    let f = request_frame(n);
    let p = request_payload(n);
    let m = p.len() as int;
    assert(f[m] == 10);
    assert forall|j: int| 0 <= j < m implies f[j] != 10 by {
        assert(f[j] == p[j]);
    }
    lemma_first_nl_at(f, m);
    assert(f.take(m) =~= p);
    assert(f.skip(m + 1) =~= Seq::<u8>::empty());
}

/// Round trip for responses: a response frame written by the encoder splits
/// at its own delimiter, its payload is the canonical payload of the encoded
/// response — so by `decode_response`'s contract the decoder hands back
/// exactly the encoded response — and nothing is left in the buffer.
pub proof fn lemma_response_round_trip(r: Response)
    requires
        r.wf(),
    ensures
        has_nl(response_frame(r)),
        first_nl(response_frame(r)) == response_payload(r).len(),
        response_frame(r).take(response_payload(r).len() as int) == response_payload(r),
        response_frame(r).skip(response_payload(r).len() as int + 1) == Seq::<u8>::empty(),
{
    match r {
        Response::Failure => lemma_failure_payload_facts(),
        Response::Success(e) => lemma_success_payload_facts(e),
    }
    let f = response_frame(r);
    let p = response_payload(r);
    let m = p.len() as int;
    assert(f[m] == 10);
    assert forall|j: int| 0 <= j < m implies f[j] != 10 by {
        assert(f[j] == p[j]);
    }
    lemma_first_nl_at(f, m);
    assert(f.take(m) =~= p);
    assert(f.skip(m + 1) =~= Seq::<u8>::empty());
}

/// Back-to-back frames decode one frame at a time: a buffer holding a run of
/// complete request frames splits at the first frame's own delimiter,
/// yields exactly that frame's payload, and leaves exactly the remaining
/// frames — so N frames give N successive decodes, each consuming its own
/// frame including the delimiter.
pub proof fn lemma_frames_decode_in_turn(ns: Seq<u64>)
    requires
        ns.len() > 0,
    ensures
        has_nl(request_frames(ns)),
        first_nl(request_frames(ns)) == request_payload(ns[0]).len(),
        request_frames(ns).take(request_payload(ns[0]).len() as int) == request_payload(ns[0]),
        request_frames(ns).skip(request_payload(ns[0]).len() as int + 1) == request_frames(ns.skip(1)),
{
    lemma_request_payload_facts(ns[0]);
    let s = request_frames(ns);
    let p = request_payload(ns[0]);
    let m = p.len() as int;
    assert(s == request_frame(ns[0]) + request_frames(ns.skip(1)));
    assert(s[m] == 10) by {
        assert(s[m] == request_frame(ns[0])[m]);
    }
    assert forall|j: int| 0 <= j < m implies s[j] != 10 by {
        assert(s[j] == request_frame(ns[0])[j]);
        assert(request_frame(ns[0])[j] == p[j]);
    }
    lemma_first_nl_at(s, m);
    assert(s.take(m) =~= p);
    assert(s.skip(m + 1) =~= request_frames(ns.skip(1)));
}

} // verus!
