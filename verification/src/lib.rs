//! A mock route registry: a keyed store of canned request/response pairs.
//!
//! A [`Route`] pairs a request template with the response a mock server
//! should answer it with, under a unique non-blank name.  The store itself
//! lives in [`store`], backed by a stable-memory B-tree map; [`codec`] gives
//! every record a lossless byte representation so the backing medium can
//! hold it.
use vstd::prelude::*;
use vstd::string::StrSliceExecFns;

pub mod codec;
pub mod store;

verus! {

/// An operation failed: either the caller's input was malformed, or it named
/// a route that the store does not hold.
#[derive(Debug)]
pub enum Error {
    InvalidOperation { msg: String },
    NotFound { msg: String },
}

/// A canned request template: a method name and an opaque payload.
#[derive(Debug, Clone)]
pub struct Request {
    pub method: String,
    pub payload: Vec<u8>,
}

/// The response a mock server should give: a numeric status and a body.
#[derive(Debug, Clone)]
pub struct Response {
    pub status: u64,
    pub body: Vec<u8>,
}

/// A named pairing of a request template and its expected response.
/// The name is the store's key and must not be blank.
#[derive(Debug, Clone)]
pub struct Route {
    pub route: String,
    pub request: Request,
    pub expected_response: Response,
}

/// Mathematical value of a [`Request`].
#[verifier::ext_equal]
pub struct RequestView {
    pub method: Seq<char>,
    pub payload: Seq<u8>,
}

/// Mathematical value of a [`Response`].
#[verifier::ext_equal]
pub struct ResponseView {
    pub status: u64,
    pub body: Seq<u8>,
}

/// Mathematical value of a [`Route`].
#[verifier::ext_equal]
pub struct RouteView {
    pub route: Seq<char>,
    pub request: RequestView,
    pub expected_response: ResponseView,
}

impl View for Request {
    type V = RequestView;

    open spec fn view(&self) -> RequestView {
        RequestView { method: self.method@, payload: self.payload@ }
    }
}

impl View for Response {
    type V = ResponseView;

    open spec fn view(&self) -> ResponseView {
        ResponseView { status: self.status, body: self.body@ }
    }
}

impl View for Route {
    type V = RouteView;

    open spec fn view(&self) -> RouteView {
        RouteView {
            route: self.route@,
            request: self.request@,
            expected_response: self.expected_response@,
        }
    }
}

/// True of the characters that `str::trim` strips: the Unicode
/// `White_Space` set.
pub open spec fn is_white(c: char) -> bool {
    let u = c as u32;
    ||| u == 0x09
    ||| u == 0x0A
    ||| u == 0x0B
    ||| u == 0x0C
    ||| u == 0x0D
    ||| u == 0x20
    ||| u == 0x85
    ||| u == 0xA0
    ||| u == 0x1680
    ||| (0x2000 <= u && u <= 0x200A)
    ||| u == 0x2028
    ||| u == 0x2029
    ||| u == 0x202F
    ||| u == 0x205F
    ||| u == 0x3000
}

/// A name is blank when trimming whitespace leaves nothing: every character
/// is whitespace.  The empty name is blank.
pub open spec fn is_blank(s: Seq<char>) -> bool {
    forall|i: int| #![auto] 0 <= i < s.len() ==> is_white(s[i])
}

fn is_white_char(c: char) -> (r: bool)
    ensures
        r == is_white(c),
{
    let u: u32 = c as u32;
    u == 0x09 || u == 0x0A || u == 0x0B || u == 0x0C || u == 0x0D || u == 0x20 || u == 0x85
        || u == 0xA0 || u == 0x1680 || (0x2000 <= u && u <= 0x200A) || u == 0x2028 || u == 0x2029
        || u == 0x202F || u == 0x205F || u == 0x3000
}

/// True exactly when the string consists of whitespace alone.
pub fn str_is_blank(s: &str) -> (r: bool)
    ensures
        r == is_blank(s@),
{
    let n: usize = s.unicode_len();
    let mut i: usize = 0;
    while i < n
        invariant
            0 <= i <= n,
            n == s@.len(),
            forall|j: int| #![auto] 0 <= j < i ==> is_white(s@[j]),
        decreases n - i,
    {
        if !is_white_char(s.get_char(i)) {
            return false;
        }
        i = i + 1;
    }
    true
}

/// A route may enter the store only under a non-blank name; a blank name is
/// an invalid operation.
pub fn validate_route(route: &Route) -> (r: Result<(), Error>)
    ensures
        r is Ok <==> !is_blank(route.route@),
        r matches Err(e) ==> e matches Error::InvalidOperation { msg } && msg@
            == "Route name cannot be empty."@,
{
    if str_is_blank(route.route.as_str()) {
        Err(Error::InvalidOperation { msg: "Route name cannot be empty.".to_owned() })
    } else {
        Ok(())
    }
}

} // verus!
