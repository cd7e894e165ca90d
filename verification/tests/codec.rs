use ancestor::client;
use ancestor::codec;
use ancestor::server;
use ancestor::{ConnectionError, Elapsed, Request, Response};

fn encoded_request(number: u64) -> Vec<u8> {
    let mut buf: Vec<u8> = Vec::new();
    codec::encode_request(&Request { number }, &mut buf);
    buf
}

fn encoded_response(resp: &Response) -> Vec<u8> {
    let mut buf: Vec<u8> = Vec::new();
    codec::encode_response(resp, &mut buf);
    buf
}

#[test]
fn request_frame_bytes_are_json_line() {
    assert_eq!(encoded_request(42), b"{\"number\":42}\n".to_vec());
    assert_eq!(encoded_request(0), b"{\"number\":0}\n".to_vec());
    assert_eq!(
        encoded_request(u64::MAX),
        b"{\"number\":18446744073709551615}\n".to_vec()
    );
}

#[test]
fn response_frame_bytes_are_json_line() {
    let success = Response::Success(Elapsed { secs: 1, nanos: 500_000_000 });
    assert_eq!(
        encoded_response(&success),
        b"{\"Success\":1.500000000}\n".to_vec()
    );
    assert_eq!(encoded_response(&Response::Failure), b"\"Failure\"\n".to_vec());
}

#[test]
fn request_round_trip() {
    for number in [0u64, 1, 9, 10, 12345, u64::MAX] {
        let mut buf = encoded_request(number);
        let decoded = codec::decode_request(&mut buf).unwrap().unwrap();
        assert_eq!(decoded, Request { number });
        assert!(buf.is_empty());
    }
}

#[test]
fn response_round_trip() {
    let cases = [
        Response::Success(Elapsed { secs: 0, nanos: 0 }),
        Response::Success(Elapsed { secs: 7, nanos: 1 }),
        Response::Success(Elapsed { secs: u64::MAX, nanos: 999_999_999 }),
        Response::Failure,
    ];
    for resp in cases {
        let mut buf = encoded_response(&resp);
        let decoded = codec::decode_response(&mut buf).unwrap().unwrap();
        assert_eq!(decoded, resp);
        assert!(buf.is_empty());
    }
}

#[test]
fn no_delimiter_is_incomplete_and_consumes_nothing() {
    let mut buf = b"{\"number\":42}".to_vec();
    let before = buf.clone();
    assert_eq!(codec::decode_request(&mut buf), Ok(None));
    assert_eq!(buf, before);

    let mut empty: Vec<u8> = Vec::new();
    assert_eq!(codec::decode_request(&mut empty), Ok(None));
    assert!(empty.is_empty());

    let mut partial = b"{\"Success\":1.".to_vec();
    assert_eq!(codec::decode_response(&mut partial), Ok(None));
    assert_eq!(partial, b"{\"Success\":1.".to_vec());
}

#[test]
fn back_to_back_frames_decode_one_by_one() {
    let mut buf: Vec<u8> = Vec::new();
    for number in [3u64, 1, 4] {
        codec::encode_request(&Request { number }, &mut buf);
    }
    let first = codec::decode_request(&mut buf).unwrap().unwrap();
    assert_eq!(first.number, 3);
    assert_eq!(buf, b"{\"number\":1}\n{\"number\":4}\n".to_vec());
    let second = codec::decode_request(&mut buf).unwrap().unwrap();
    assert_eq!(second.number, 1);
    assert_eq!(buf, b"{\"number\":4}\n".to_vec());
    let third = codec::decode_request(&mut buf).unwrap().unwrap();
    assert_eq!(third.number, 4);
    assert!(buf.is_empty());
    assert_eq!(codec::decode_request(&mut buf), Ok(None));
}

#[test]
fn malformed_payload_is_fatal_and_consumed() {
    let mut buf = b"not-json\n".to_vec();
    assert_eq!(
        codec::decode_request(&mut buf),
        Err(ConnectionError::MalformedFrame)
    );
    assert!(buf.is_empty());

    // Whitespace, leading zeros, or a missing field are not the canonical
    // shape either.
    for bad in [
        b"{\"number\": 42}\n".to_vec(),
        b"{\"number\":042}\n".to_vec(),
        b"{\"number\":-1}\n".to_vec(),
        b"{\"number\":18446744073709551616}\n".to_vec(),
        b"{}\n".to_vec(),
        b"\n".to_vec(),
    ] {
        let mut buf = bad.clone();
        assert_eq!(
            codec::decode_request(&mut buf),
            Err(ConnectionError::MalformedFrame)
        );
    }

    let mut resp_buf = b"{\"Success\":1.5}\n".to_vec();
    assert_eq!(
        codec::decode_response(&mut resp_buf),
        Err(ConnectionError::MalformedFrame)
    );
}

#[test]
fn frames_parse_as_json_documents() {
    let mut buf = encoded_request(987654321);
    buf.pop();
    let v: serde_json::Value = serde_json::from_slice(&buf).unwrap();
    assert_eq!(v.get("number").unwrap().as_u64().unwrap(), 987654321);

    let mut sbuf = encoded_response(&Response::Success(Elapsed { secs: 2, nanos: 250_000_000 }));
    sbuf.pop();
    let v: serde_json::Value = serde_json::from_slice(&sbuf).unwrap();
    assert_eq!(v.get("Success").unwrap().as_f64().unwrap(), 2.25);

    let mut fbuf = encoded_response(&Response::Failure);
    fbuf.pop();
    let v: serde_json::Value = serde_json::from_slice(&fbuf).unwrap();
    assert_eq!(v.as_str().unwrap(), "Failure");
}

#[test]
fn codec_structs_mirror_the_free_functions() {
    let server_codec = server::protocol::Codec;
    let client_codec = client::protocol::Codec;

    let mut wire: Vec<u8> = Vec::new();
    client_codec.encode(&Request { number: 5 }, &mut wire);
    let req = server_codec.decode(&mut wire).unwrap().unwrap();
    assert_eq!(req, Request { number: 5 });

    let mut back: Vec<u8> = Vec::new();
    server_codec.encode(&Response::Failure, &mut back);
    let resp = client_codec.decode(&mut back).unwrap().unwrap();
    assert_eq!(resp, Response::Failure);
}
