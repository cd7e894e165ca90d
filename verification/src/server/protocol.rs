//! The server's view of the wire: it decodes requests and encodes
//! responses, with the same framing rules as the client side.

use vstd::prelude::*;

use crate::codec;
use crate::codec::{first_nl, has_nl, request_payload, response_frame};
use crate::{ConnectionError, Request, Response};

verus! {

/// The server-side codec: decoder of requests, encoder of responses.
pub struct Codec;

impl Codec {
    /// Decode one request frame from the buffer; see
    /// [`codec::decode_request`] for the full contract.
    pub fn decode(&self, buf: &mut Vec<u8>) -> (r: Result<Option<Request>, ConnectionError>)
        ensures
            ({
                let s = old(buf)@;
                match r {
                    Ok(opt) => match opt {
                        None => !has_nl(s) && final(buf)@ == s,
                        Some(req) => has_nl(s) && final(buf)@ == s.skip(first_nl(s) + 1)
                            && s.take(first_nl(s)) == request_payload(req.number),
                    },
                    Err(e) => has_nl(s) && final(buf)@ == s.skip(first_nl(s) + 1) && e
                        == ConnectionError::MalformedFrame && (forall|n: u64|
                        s.take(first_nl(s)) != request_payload(n)),
                }
            }),
    {
        codec::decode_request(buf)
    }

    /// Encode one response and append its frame to the output buffer.
    pub fn encode(&self, msg: &Response, buf: &mut Vec<u8>)
        requires
            msg.wf(),
        ensures
            final(buf)@ == old(buf)@ + response_frame(*msg),
    {
        codec::encode_response(msg, buf)
    }
}

} // verus!
