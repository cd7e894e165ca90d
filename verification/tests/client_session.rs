use ancestor::client::{generate_request, generate_requests, ClientSession};

#[test]
fn generated_numbers_lie_in_the_range() {
    let reqs = generate_requests(100, 100_000, 1_000_000);
    assert_eq!(reqs.len(), 100);
    for req in &reqs {
        assert!(100_000 <= req.number && req.number < 1_000_000);
    }
}

#[test]
fn degenerate_range_pins_the_number() {
    // With max = min + 1 the half-open range holds a single value, so the
    // generator cannot echo anything else back.
    for _ in 0..10 {
        assert_eq!(generate_request(7, 8).number, 7);
    }
    let reqs = generate_requests(5, 0, 1);
    for req in &reqs {
        assert_eq!(req.number, 0);
    }
}

#[test]
fn counted_read_session_stops_at_the_last_response() {
    let mut session = ClientSession::new(3);
    assert!(!session.is_done());
    assert!(!session.on_response());
    assert!(!session.on_response());
    assert!(session.on_response());
    assert!(session.is_done());
    assert_eq!(session.received, 3);
}

#[test]
fn zero_request_session_is_done_at_once() {
    let session = ClientSession::new(0);
    assert!(session.is_done());
}
