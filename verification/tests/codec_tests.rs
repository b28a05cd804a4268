use mock_api_backend::{Request, Response, Route};

fn sample(name: &str, method: &str, payload: Vec<u8>, status: u64, body: Vec<u8>) -> Route {
    Route {
        route: name.to_string(),
        request: Request { method: method.to_string(), payload },
        expected_response: Response { status, body },
    }
}

fn assert_roundtrip(r: &Route) {
    let bytes = r.to_bytes();
    let back = Route::from_bytes(&bytes).expect("decoding an encoded route must succeed");
    assert_eq!(back.route, r.route);
    assert_eq!(back.request.method, r.request.method);
    assert_eq!(back.request.payload, r.request.payload);
    assert_eq!(back.expected_response.status, r.expected_response.status);
    assert_eq!(back.expected_response.body, r.expected_response.body);
}

#[test]
fn route_roundtrip_plain() {
    assert_roundtrip(&sample("r1", "GET", b"{\"a\":1}".to_vec(), 200, b"ok".to_vec()));
}

#[test]
fn route_roundtrip_empty_payloads() {
    assert_roundtrip(&sample("r", "HEAD", Vec::new(), 0, Vec::new()));
}

#[test]
fn route_roundtrip_max_sized_payload() {
    let payload: Vec<u8> = (0..=255u8).cycle().take(1024).collect();
    let body: Vec<u8> = (0..=255u8).rev().cycle().take(1024).collect();
    assert_roundtrip(&sample("big", "POST", payload, u64::MAX, body));
}

#[test]
fn route_roundtrip_unicode_name() {
    assert_roundtrip(&sample("päth/ω/🦀", "GÉT", vec![0, 1, 2], 404, vec![255]));
}

#[test]
fn request_roundtrip() {
    let rq = Request { method: "PATCH".to_string(), payload: vec![9, 8, 7] };
    let bytes = rq.to_bytes();
    let back = Request::from_bytes(&bytes).expect("decoding an encoded request must succeed");
    assert_eq!(back.method, rq.method);
    assert_eq!(back.payload, rq.payload);
}

#[test]
fn response_roundtrip() {
    let rs = Response { status: 503, body: b"busy".to_vec() };
    let bytes = rs.to_bytes();
    let back = Response::from_bytes(&bytes).expect("decoding an encoded response must succeed");
    assert_eq!(back.status, rs.status);
    assert_eq!(back.body, rs.body);
}

#[test]
fn encoding_is_not_the_identity() {
    let rq = Request { method: "GET".to_string(), payload: b"xyz".to_vec() };
    let bytes = rq.to_bytes();
    // the framing prefixes each field with its 8-byte length
    assert_eq!(bytes.len(), 8 + 3 + 8 + 3);
    assert_eq!(&bytes[0..8], &[3, 0, 0, 0, 0, 0, 0, 0]);
    assert_eq!(&bytes[8..11], b"GET");
}

#[test]
fn malformed_bytes_do_not_decode() {
    assert!(Route::from_bytes(&Vec::new()).is_none());
    assert!(Route::from_bytes(&vec![1, 2, 3]).is_none());
    // a length prefix that overruns the buffer
    assert!(Request::from_bytes(&vec![255, 0, 0, 0, 0, 0, 0, 0, b'G']).is_none());
    // invalid UTF-8 where the method string should be
    assert!(Request::from_bytes(&vec![1, 0, 0, 0, 0, 0, 0, 0, 0xff]).is_none());
}

#[test]
fn trailing_bytes_do_not_decode() {
    let rq = Request { method: "GET".to_string(), payload: Vec::new() };
    let mut bytes = rq.to_bytes();
    bytes.push(0);
    assert!(Request::from_bytes(&bytes).is_none());
}
