//! The client's view of the wire: it encodes requests and decodes
//! responses, with the same framing rules as the server side.

use vstd::prelude::*;

use crate::codec;
use crate::codec::{first_nl, has_nl, request_frame, response_payload};
use crate::{ConnectionError, Request, Response};

verus! {

/// The client-side codec: encoder of requests, decoder of responses.
pub struct Codec;

impl Codec {
    /// Decode one response frame from the buffer; see
    /// [`codec::decode_response`] for the full contract.
    pub fn decode(&self, buf: &mut Vec<u8>) -> (r: Result<Option<Response>, ConnectionError>)
        ensures
            ({
                let s = old(buf)@;
                match r {
                    Ok(opt) => match opt {
                        None => !has_nl(s) && final(buf)@ == s,
                        Some(resp) => has_nl(s) && final(buf)@ == s.skip(first_nl(s) + 1)
                            && resp.wf() && s.take(first_nl(s)) == response_payload(resp),
                    },
                    Err(e) => has_nl(s) && final(buf)@ == s.skip(first_nl(s) + 1) && e
                        == ConnectionError::MalformedFrame && (forall|resp: Response|
                        resp.wf() ==> s.take(first_nl(s)) != #[trigger] response_payload(resp)),
                }
            }),
    {
        codec::decode_response(buf)
    }

    /// Encode one request and append its frame to the output buffer.
    pub fn encode(&self, msg: &Request, buf: &mut Vec<u8>)
        ensures
            final(buf)@ == old(buf)@ + request_frame(msg.number),
    {
        codec::encode_request(msg, buf)
    }
}

} // verus!
