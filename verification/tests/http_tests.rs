use git_plumbing::http::{
    process_request, run_requests, status_error_kind, BodySignal, Error, FetchOutcome,
    HeadersSignal, HttpOptions, PostBodyDataKind, Remote, WorkerEvents, CONNECT_TIMEOUT_SECS,
};
use git_plumbing::IoErrorKind;

fn plain_events(fetch: FetchOutcome) -> WorkerEvents {
    WorkerEvents { upload_read_error: None, configure_reject: false, fetch }
}

fn response(status: u16) -> FetchOutcome {
    FetchOutcome::Response { status, headers: Vec::new(), body_copy_error: None }
}

#[test]
fn unauthorized_is_permission_denied_on_the_headers_pipe() {
    let remote = Remote::default();
    let req = remote.get(&b"https://host/repo".to_vec(), &vec![b"Accept: */*".to_vec()]);
    assert!(req.upload_body_kind.is_none());
    let effect = process_request(&req, &plain_events(response(401))).unwrap();
    assert!(!effect.used_post);
    match effect.headers {
        HeadersSignal::IoError(kind) => assert_eq!(kind, IoErrorKind::PermissionDenied),
        _ => panic!("a 401 must surface as an in-band error"),
    }
    // The body pipe was never written.
    assert_eq!(effect.body, BodySignal::Untouched);
    // The remote stays usable: a follow-up request completes normally.
    let next = remote.get(&b"https://host/repo".to_vec(), &vec![b"Accept: */*".to_vec()]);
    let (effects, death) = run_requests(
        &vec![req, next],
        &vec![plain_events(response(401)), plain_events(response(200))],
    );
    assert_eq!(effects.len(), 2);
    assert!(death.is_none());
    assert!(matches!(effects[1].headers, HeadersSignal::Bytes(_)));
    assert_eq!(effects[1].body, BodySignal::Streamed);
}

#[test]
fn status_classification() {
    assert_eq!(status_error_kind(401), IoErrorKind::PermissionDenied);
    assert_eq!(status_error_kind(500), IoErrorKind::ConnectionAborted);
    assert_eq!(status_error_kind(503), IoErrorKind::ConnectionAborted);
    assert_eq!(status_error_kind(599), IoErrorKind::ConnectionAborted);
    assert_eq!(status_error_kind(404), IoErrorKind::Other);
    assert_eq!(status_error_kind(302), IoErrorKind::Other);
}

#[test]
fn spurious_errors_are_timeouts_connects_and_server_errors() {
    let timeout = Error::Reqwest { timeout: true, connect: false, status: None };
    let connect = Error::Reqwest { timeout: false, connect: true, status: None };
    let server = Error::Reqwest { timeout: false, connect: false, status: Some(503) };
    let client = Error::Reqwest { timeout: false, connect: false, status: Some(404) };
    assert!(timeout.is_spurious());
    assert!(connect.is_spurious());
    assert!(server.is_spurious());
    assert!(!client.is_spurious());
    assert!(!Error::ReadPostBody { kind: IoErrorKind::Other }.is_spurious());
    assert!(!Error::ConfigureRequest.is_spurious());
}

#[test]
fn response_headers_are_serialized_as_lines() {
    let remote = Remote::default();
    let req = remote.get(&b"https://host".to_vec(), &Vec::new());
    let fetch = FetchOutcome::Response {
        status: 200,
        headers: vec![
            (b"Content-Type".to_vec(), b"text/plain".to_vec()),
            (b"ETag".to_vec(), b"abc".to_vec()),
        ],
        body_copy_error: None,
    };
    let effect = process_request(&req, &plain_events(fetch)).unwrap();
    match effect.headers {
        HeadersSignal::Bytes(b) => assert_eq!(b, b"Content-Type:text/plain\nETag:abc\n".to_vec()),
        _ => panic!("a success must stream the headers"),
    }
}

#[test]
fn header_lines_are_split_at_the_first_colon_and_trimmed() {
    let remote = Remote::default();
    let req = remote.get(
        &b"https://host".to_vec(),
        &vec![b"Content-Type:  text/plain  ".to_vec(), b"X-Odd: a:b:c".to_vec()],
    );
    assert_eq!(req.headers.len(), 2);
    assert_eq!(req.headers[0].0, b"Content-Type".to_vec());
    assert_eq!(req.headers[0].1, b"text/plain".to_vec());
    assert_eq!(req.headers[1].0, b"X-Odd".to_vec());
    assert_eq!(req.headers[1].1, b"a:b:c".to_vec());
}

#[test]
fn post_uses_the_post_verb() {
    let remote = Remote::default();
    let req = remote.post(
        &b"https://host".to_vec(),
        &Vec::new(),
        PostBodyDataKind::Unbounded,
    );
    assert_eq!(req.upload_body_kind, Some(PostBodyDataKind::Unbounded));
    let effect = process_request(&req, &plain_events(response(200))).unwrap();
    assert!(effect.used_post);
}

#[test]
fn requests_are_served_in_order_each_from_its_own_events() {
    let remote = Remote::default();
    let r1 = remote.get(&b"https://host/1".to_vec(), &Vec::new());
    let r2 = remote.post(
        &b"https://host/2".to_vec(),
        &Vec::new(),
        PostBodyDataKind::Unbounded,
    );
    let r3 = remote.get(&b"https://host/3".to_vec(), &Vec::new());
    let (effects, death) = run_requests(
        &vec![r1, r2, r3],
        &vec![
            plain_events(response(200)),
            plain_events(response(500)),
            plain_events(response(200)),
        ],
    );
    assert!(death.is_none());
    assert_eq!(effects.len(), 3);
    assert!(!effects[0].used_post);
    assert!(effects[1].used_post);
    assert!(!effects[2].used_post);
    assert!(matches!(effects[0].headers, HeadersSignal::Bytes(_)));
    assert!(matches!(
        effects[1].headers,
        HeadersSignal::IoError(IoErrorKind::ConnectionAborted)
    ));
    assert!(matches!(effects[2].headers, HeadersSignal::Bytes(_)));
}

#[test]
fn a_broken_body_stream_does_not_block_the_next_request() {
    let remote = Remote::default();
    let r1 = remote.get(&b"https://host/big".to_vec(), &Vec::new());
    let r2 = remote.get(&b"https://host/next".to_vec(), &Vec::new());
    let dropped_midstream = FetchOutcome::Response {
        status: 200,
        headers: Vec::new(),
        body_copy_error: Some(IoErrorKind::ConnectionAborted),
    };
    let (effects, death) = run_requests(
        &vec![r1, r2],
        &vec![plain_events(dropped_midstream), plain_events(response(200))],
    );
    assert!(death.is_none());
    assert_eq!(effects.len(), 2);
    assert_eq!(
        effects[0].body,
        BodySignal::StreamError(IoErrorKind::ConnectionAborted)
    );
    assert_eq!(effects[1].body, BodySignal::Streamed);
}

#[test]
fn transport_failure_is_an_uncategorised_in_band_error() {
    let remote = Remote::default();
    let req = remote.get(&b"https://host".to_vec(), &Vec::new());
    let effect = process_request(
        &req,
        &plain_events(FetchOutcome::Transport { timeout: true, connect: false }),
    )
    .unwrap();
    assert!(matches!(effect.headers, HeadersSignal::IoError(IoErrorKind::Other)));
    assert_eq!(effect.body, BodySignal::Untouched);
}

#[test]
fn a_failed_bounded_upload_kills_the_worker() {
    let remote = Remote::default();
    let r1 = remote.post(
        &b"https://host".to_vec(),
        &Vec::new(),
        PostBodyDataKind::BoundedAndFitsIntoMemory,
    );
    let r2 = remote.get(&b"https://host".to_vec(), &Vec::new());
    let events = WorkerEvents {
        upload_read_error: Some(IoErrorKind::ConnectionAborted),
        configure_reject: false,
        fetch: response(200),
    };
    let (effects, death) = run_requests(&vec![r1, r2], &vec![events, plain_events(response(200))]);
    assert_eq!(effects.len(), 0);
    assert_eq!(
        death,
        Some(Error::ReadPostBody { kind: IoErrorKind::ConnectionAborted })
    );
}

#[test]
fn a_rejecting_configuration_hook_kills_the_worker() {
    let mut remote = Remote::default();
    remote.configure(Some(&HttpOptions { has_configure_request: true }));
    let req = remote.get(&b"https://host".to_vec(), &Vec::new());
    assert!(req.config.has_configure_request);
    let events = WorkerEvents {
        upload_read_error: None,
        configure_reject: true,
        fetch: response(200),
    };
    let (effects, death) = run_requests(&vec![req], &vec![events]);
    assert_eq!(effects.len(), 0);
    assert_eq!(death, Some(Error::ConfigureRequest));
}

#[test]
fn configure_ignores_anything_but_http_options() {
    let mut remote = Remote::default();
    remote.configure(None);
    assert!(!remote.config.has_configure_request);
    remote.configure(Some(&HttpOptions { has_configure_request: true }));
    assert!(remote.config.has_configure_request);
}

#[test]
fn the_connect_timeout_is_twenty_seconds() {
    assert_eq!(CONNECT_TIMEOUT_SECS, 20);
}
