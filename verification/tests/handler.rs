use ancestor::server::{
    effective_pool_size, resolve_race, run_computation, Handler,
};
use ancestor::{ConnectionError, Elapsed, Response};

fn frame(bytes: &[u8]) -> Vec<u8> {
    bytes.to_vec()
}

#[test]
fn requests_decoded_in_arrival_order() {
    let mut h = Handler::new();
    let ns = h
        .on_bytes(&frame(b"{\"number\":10}\n{\"number\":20}\n{\"number\":30}\n"))
        .unwrap();
    assert_eq!(ns, vec![10, 20, 30]);
    assert_eq!(h.submitted, 3);
    assert_eq!(h.written, 0);
}

#[test]
fn split_frames_across_reads() {
    let mut h = Handler::new();
    assert_eq!(h.on_bytes(&frame(b"{\"numb")).unwrap(), Vec::<u64>::new());
    assert_eq!(h.on_bytes(&frame(b"er\":7}\n{\"num")).unwrap(), vec![7]);
    assert_eq!(h.on_bytes(&frame(b"ber\":8}\n")).unwrap(), vec![8]);
    assert_eq!(h.submitted, 2);
}

#[test]
fn responses_emitted_in_request_order() {
    // Two requests; the second race resolves first, but nothing is written
    // until the first is resolved, and then both go out in request order.
    let mut h = Handler::new();
    let ns = h
        .on_bytes(&frame(b"{\"number\":0}\n{\"number\":999}\n"))
        .unwrap();
    assert_eq!(ns.len(), 2);

    let out_late = h.on_race_resolved(1, Response::Failure);
    assert!(out_late.is_empty());
    assert_eq!(h.written, 0);

    let quick = Response::Success(Elapsed { secs: 0, nanos: 42 });
    let out = h.on_race_resolved(0, quick);
    assert_eq!(h.written, 2);
    assert_eq!(
        out,
        b"{\"Success\":0.000000042}\n\"Failure\"\n".to_vec()
    );
}

#[test]
fn scenario_fast_then_slow_request() {
    // Server with timeout 1s, pool of one worker; the client sends a
    // request of 0 and then a huge one. The first race resolves to success,
    // the second to a timeout: the responses keep request order.
    let pool = effective_pool_size(1, 8);
    assert_eq!(pool, 1);

    let mut h = Handler::new();
    let ns = h
        .on_bytes(&frame(b"{\"number\":0}\n{\"number\":18446744073709551615}\n"))
        .unwrap();
    assert_eq!(ns, vec![0, u64::MAX]);

    // Worker finishes the first request almost at once.
    assert_eq!(run_computation(ns[0]), 0);
    let elapsed = Elapsed { secs: 0, nanos: 120 };
    let first = resolve_race(Some(elapsed), false, false).unwrap();
    assert_eq!(first, Response::Success(elapsed));
    let out1 = h.on_race_resolved(0, first);
    assert_eq!(out1, b"{\"Success\":0.000000120}\n".to_vec());

    // The second request is still counting when the deadline fires.
    let second = resolve_race(None, true, false).unwrap();
    assert_eq!(second, Response::Failure);
    let out2 = h.on_race_resolved(1, second);
    assert_eq!(out2, b"\"Failure\"\n".to_vec());

    assert_eq!(h.written, 2);
    assert!(!h.closed);
}

#[test]
fn zero_timeout_yields_failure() {
    // With a zero-second deadline the timer is ready before any
    // non-instantaneous computation: the race resolves to Failure.
    let resolved = resolve_race(None, true, false).unwrap();
    assert_eq!(resolved, Response::Failure);
}

#[test]
fn instant_computation_beats_large_timeout() {
    // A request of zero work finishes immediately; with a distant deadline
    // the response is a success whose elapsed time is well formed.
    assert_eq!(run_computation(0), 0);
    let elapsed = Elapsed { secs: 0, nanos: 3_500 };
    let resolved = resolve_race(Some(elapsed), false, false).unwrap();
    match resolved {
        Response::Success(e) => assert!(e.nanos < 1_000_000_000),
        Response::Failure => panic!("expected success"),
    }
}

#[test]
fn computation_wins_ties() {
    // Both sides ready at once: the computation's result takes precedence.
    let elapsed = Elapsed { secs: 1, nanos: 0 };
    let resolved = resolve_race(Some(elapsed), true, false).unwrap();
    assert_eq!(resolved, Response::Success(elapsed));
    // Even a timer failure is outranked by a finished computation.
    let resolved = resolve_race(Some(elapsed), false, true).unwrap();
    assert_eq!(resolved, Response::Success(elapsed));
}

#[test]
fn timer_failure_is_fatal_not_a_timeout() {
    let err = resolve_race(None, false, true).unwrap_err();
    assert_eq!(err, ConnectionError::TimerFailed);
}

#[test]
fn malformed_frame_closes_only_its_connection() {
    let mut poisoned = Handler::new();
    let err = poisoned.on_bytes(&frame(b"not-json\n")).unwrap_err();
    assert_eq!(err, ConnectionError::MalformedFrame);
    assert!(poisoned.closed);

    // Another connection is unaffected and stays servable.
    let mut healthy = Handler::new();
    let ns = healthy.on_bytes(&frame(b"{\"number\":5}\n")).unwrap();
    assert_eq!(ns, vec![5]);
    let out = healthy.on_race_resolved(0, Response::Failure);
    assert_eq!(out, b"\"Failure\"\n".to_vec());
    assert!(!healthy.closed);
}

#[test]
fn requests_before_a_bad_frame_are_still_dispatched() {
    let mut h = Handler::new();
    let err = h.on_bytes(&frame(b"{\"number\":1}\ngarbage\n")).unwrap_err();
    assert_eq!(err, ConnectionError::MalformedFrame);
    assert!(h.closed);
    assert_eq!(h.submitted, 1);
}

#[test]
fn eof_with_partial_frame_closes_cleanly() {
    let mut h = Handler::new();
    assert_eq!(h.on_bytes(&frame(b"{\"numb")).unwrap(), Vec::<u64>::new());
    h.close();
    assert!(h.closed);
    assert_eq!(h.written, 0);
}

#[test]
fn pool_size_zero_means_available_processors() {
    assert_eq!(effective_pool_size(0, 4), 4);
    assert_eq!(effective_pool_size(3, 4), 3);
    assert_eq!(effective_pool_size(1, 1), 1);
}

#[test]
fn computation_counts_to_its_argument() {
    assert_eq!(run_computation(0), 0);
    assert_eq!(run_computation(1), 1);
    assert_eq!(run_computation(1_000_000), 1_000_000);
}
