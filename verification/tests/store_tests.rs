use mock_api_backend::store::RouteStore;
use mock_api_backend::{Error, Request, Response, Route};

fn route(name: &str, method: &str, payload: &[u8], status: u64, body: &[u8]) -> Route {
    Route {
        route: name.to_string(),
        request: Request { method: method.to_string(), payload: payload.to_vec() },
        expected_response: Response { status, body: body.to_vec() },
    }
}

#[test]
fn add_then_get_includes_the_route() {
    let mut st = RouteStore::new();
    assert!(st.add_route(route("r1", "GET", b"", 200, b"ok")).is_ok());
    let rs = st.get_routes();
    assert_eq!(rs.len(), 1);
    assert_eq!(rs[0].route, "r1");
    assert_eq!(rs[0].request.method, "GET");
    assert_eq!(rs[0].request.payload, Vec::<u8>::new());
    assert_eq!(rs[0].expected_response.status, 200);
    assert_eq!(rs[0].expected_response.body, b"ok".to_vec());
}

#[test]
fn add_same_name_replaces_the_entry() {
    let mut st = RouteStore::new();
    assert!(st.add_route(route("r1", "GET", b"old", 200, b"ok")).is_ok());
    assert!(st.add_route(route("r1", "POST", b"new", 500, b"err")).is_ok());
    let rs = st.get_routes();
    assert_eq!(rs.len(), 1);
    assert_eq!(rs[0].route, "r1");
    assert_eq!(rs[0].request.method, "POST");
    assert_eq!(rs[0].request.payload, b"new".to_vec());
    assert_eq!(rs[0].expected_response.status, 500);
    assert_eq!(rs[0].expected_response.body, b"err".to_vec());
}

#[test]
fn add_blank_name_is_invalid_and_changes_nothing() {
    let mut st = RouteStore::new();
    let r = st.add_route(route("", "GET", b"", 200, b"ok"));
    match r {
        Err(Error::InvalidOperation { msg }) => {
            assert_eq!(msg, "Route name cannot be empty.");
        },
        _ => panic!("expected InvalidOperation"),
    }
    let r = st.add_route(route("   ", "GET", b"", 200, b"ok"));
    assert!(matches!(r, Err(Error::InvalidOperation { .. })));
    assert_eq!(st.get_routes().len(), 0);
}

#[test]
fn edit_missing_route_is_not_found_and_changes_nothing() {
    let mut st = RouteStore::new();
    assert!(st.add_route(route("r1", "GET", b"", 200, b"ok")).is_ok());
    let r = st.edit_route(
        "missing".to_string(),
        Request { method: "POST".to_string(), payload: b"x".to_vec() },
        Response { status: 404, body: b"nf".to_vec() },
    );
    match r {
        Err(Error::NotFound { msg }) => {
            assert_eq!(msg, "Route 'missing' not found.");
        },
        _ => panic!("expected NotFound"),
    }
    let rs = st.get_routes();
    assert_eq!(rs.len(), 1);
    assert_eq!(rs[0].request.method, "GET");
}

#[test]
fn edit_updates_fields_but_not_the_name() {
    let mut st = RouteStore::new();
    assert!(st.add_route(route("r1", "GET", b"", 200, b"ok")).is_ok());
    let r = st.edit_route(
        "r1".to_string(),
        Request { method: "POST".to_string(), payload: b"x".to_vec() },
        Response { status: 404, body: b"nf".to_vec() },
    );
    assert!(r.is_ok());
    let rs = st.get_routes();
    assert_eq!(rs.len(), 1);
    assert_eq!(rs[0].route, "r1");
    assert_eq!(rs[0].request.method, "POST");
    assert_eq!(rs[0].request.payload, b"x".to_vec());
    assert_eq!(rs[0].expected_response.status, 404);
    assert_eq!(rs[0].expected_response.body, b"nf".to_vec());
}

#[test]
fn delete_removes_the_entry() {
    let mut st = RouteStore::new();
    assert!(st.add_route(route("r1", "GET", b"", 200, b"ok")).is_ok());
    assert!(st.add_route(route("r2", "PUT", b"p", 201, b"c")).is_ok());
    assert!(st.delete_route("r1".to_string()).is_ok());
    let rs = st.get_routes();
    assert_eq!(rs.len(), 1);
    assert_eq!(rs[0].route, "r2");
}

#[test]
fn delete_missing_route_is_not_found() {
    let mut st = RouteStore::new();
    let r = st.delete_route("ghost".to_string());
    match r {
        Err(Error::NotFound { msg }) => {
            assert_eq!(msg, "Route 'ghost' not found.");
        },
        _ => panic!("expected NotFound"),
    }
}

#[test]
fn full_scenario() {
    let mut st = RouteStore::new();
    assert!(st.add_route(route("r1", "GET", b"", 200, b"ok")).is_ok());
    let rs = st.get_routes();
    assert_eq!(rs.len(), 1);
    assert_eq!(rs[0].route, "r1");
    assert_eq!(rs[0].expected_response.status, 200);
    assert_eq!(rs[0].expected_response.body, b"ok".to_vec());
    assert!(
        st.edit_route(
            "r1".to_string(),
            Request { method: "POST".to_string(), payload: b"x".to_vec() },
            Response { status: 404, body: b"nf".to_vec() },
        ).is_ok()
    );
    let rs = st.get_routes();
    assert_eq!(rs.len(), 1);
    assert_eq!(rs[0].route, "r1");
    assert_eq!(rs[0].request.method, "POST");
    assert_eq!(rs[0].request.payload, b"x".to_vec());
    assert_eq!(rs[0].expected_response.status, 404);
    assert_eq!(rs[0].expected_response.body, b"nf".to_vec());
    assert!(st.delete_route("r1".to_string()).is_ok());
    assert_eq!(st.get_routes().len(), 0);
}

#[test]
fn validate_route_accepts_only_non_blank_names() {
    assert!(mock_api_backend::validate_route(&route("r1", "GET", b"", 200, b"")).is_ok());
    assert!(mock_api_backend::validate_route(&route(" x ", "GET", b"", 200, b"")).is_ok());
    assert!(mock_api_backend::validate_route(&route("", "GET", b"", 200, b"")).is_err());
    assert!(mock_api_backend::validate_route(&route("   ", "GET", b"", 200, b"")).is_err());
    assert!(mock_api_backend::validate_route(&route("\t\n", "GET", b"", 200, b"")).is_err());
}

#[test]
fn routes_with_unicode_names_survive_the_store() {
    let mut st = RouteStore::new();
    assert!(st.add_route(route("rüte/π", "GET", b"\x00\xff", 200, b"ok")).is_ok());
    let rs = st.get_routes();
    assert_eq!(rs.len(), 1);
    assert_eq!(rs[0].route, "rüte/π");
    assert_eq!(rs[0].request.payload, b"\x00\xff".to_vec());
}
