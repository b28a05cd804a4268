//! A lossless byte representation for [`Route`] records and their parts.
//!
//! Every field is framed as a little-endian `u64` length followed by the
//! field's bytes; strings are framed as their UTF-8 encoding.  The spec
//! functions below say exactly which byte sequence a value maps to, the
//! `to_bytes` methods produce it, and the `from_bytes` methods recover the
//! unique value a well-formed byte sequence encodes.
use crate::{Request, RequestView, Response, ResponseView, Route, RouteView};
use vstd::bytes::{spec_u64_to_le_bytes, u64_from_le_bytes, u64_to_le_bytes};
use vstd::prelude::*;
use vstd::slice::slice_to_vec;
use vstd::string::StrSliceExecFns;
use vstd::utf8::{decode_utf8, encode_utf8, valid_utf8};

verus! {

broadcast use vstd::utf8::encode_utf8_valid_utf8, vstd::utf8::encode_utf8_decode_utf8, vstd::utf8::decode_utf8_encode_utf8;

/// A byte field is framed as its length (little-endian `u64`) followed by
/// its bytes.
pub open spec fn enc_chunk(b: Seq<u8>) -> Seq<u8> {
    spec_u64_to_le_bytes(b.len() as u64) + b
}

/// A string is framed as the chunk holding its UTF-8 encoding.
pub open spec fn enc_str(s: Seq<char>) -> Seq<u8> {
    enc_chunk(encode_utf8(s))
}

/// The byte representation of a request: method string, then payload chunk.
pub open spec fn enc_request(r: RequestView) -> Seq<u8> {
    enc_str(r.method) + enc_chunk(r.payload)
}

/// The byte representation of a response: status, then body chunk.
pub open spec fn enc_response(r: ResponseView) -> Seq<u8> {
    spec_u64_to_le_bytes(r.status) + enc_chunk(r.body)
}

/// The byte representation of a route: name, request, expected response.
pub open spec fn enc_route(r: RouteView) -> Seq<u8> {
    enc_str(r.route) + enc_request(r.request) + enc_response(r.expected_response)
}

/// Every framed length must fit the `u64` prefix that carries it.  Any value
/// held in real vectors and strings satisfies this.
pub open spec fn request_fits(r: RequestView) -> bool {
    encode_utf8(r.method).len() <= u64::MAX && r.payload.len() <= u64::MAX
}

/// See [`request_fits`].
pub open spec fn response_fits(r: ResponseView) -> bool {
    r.body.len() <= u64::MAX
}

/// See [`request_fits`].
pub open spec fn route_fits(r: RouteView) -> bool {
    encode_utf8(r.route).len() <= u64::MAX && request_fits(r.request) && response_fits(
        r.expected_response,
    )
}

/// Appends the framed form of `data` to `out`.
fn append_chunk(out: &mut Vec<u8>, data: &mut Vec<u8>)
    ensures
        final(out)@ == old(out)@ + enc_chunk(old(data)@),
        old(data)@.len() <= u64::MAX,
{
    let n: usize = data.len();
    let mut lenb: Vec<u8> = u64_to_le_bytes(n as u64);
    out.append(&mut lenb);
    out.append(data);
}

impl Request {
    /// The framed byte representation of this request.
    pub fn to_bytes(&self) -> (r: Vec<u8>)
        ensures
            r@ == enc_request(self@),
            request_fits(self@),
    {
        let mut out: Vec<u8> = Vec::new();
        let mut mb: Vec<u8> = self.method.as_str().as_bytes_vec();
        append_chunk(&mut out, &mut mb);
        let mut pb: Vec<u8> = slice_to_vec(self.payload.as_slice());
        append_chunk(&mut out, &mut pb);
        out
    }
}

impl Response {
    /// The framed byte representation of this response.
    pub fn to_bytes(&self) -> (r: Vec<u8>)
        ensures
            r@ == enc_response(self@),
            response_fits(self@),
    {
        let mut out: Vec<u8> = u64_to_le_bytes(self.status);
        let mut bb: Vec<u8> = slice_to_vec(self.body.as_slice());
        append_chunk(&mut out, &mut bb);
        out
    }
}

impl Route {
    /// The framed byte representation of this route.
    pub fn to_bytes(&self) -> (r: Vec<u8>)
        ensures
            r@ == enc_route(self@),
            route_fits(self@),
    {
        let mut out: Vec<u8> = Vec::new();
        let mut nb: Vec<u8> = self.route.as_str().as_bytes_vec();
        append_chunk(&mut out, &mut nb);
        let mut req: Vec<u8> = self.request.to_bytes();
        out.append(&mut req);
        let mut resp: Vec<u8> = self.expected_response.to_bytes();
        out.append(&mut resp);
        out
    }
}



/// Relies on `String::from_utf8`: it succeeds exactly on valid UTF-8 input,
/// and then returns the string whose characters the bytes encode.
#[verifier::external_body]
fn string_from_utf8(bytes: Vec<u8>) -> (r: Option<String>)
    ensures
        r is Some <==> valid_utf8(bytes@),
        r matches Some(s) ==> s@ == decode_utf8(bytes@),
{
    String::from_utf8(bytes).ok()
}

/// Reads the 8-byte little-endian `u64` at `pos`.
fn read_u64_at(bytes: &Vec<u8>, pos: usize) -> (r: Option<(u64, usize)>)
    requires
        pos <= bytes@.len(),
    ensures
        r matches Some(p) ==> pos + 8 <= bytes@.len() && p.1 == pos + 8 && bytes@.subrange(
            pos as int,
            pos + 8,
        ) == spec_u64_to_le_bytes(p.0),
        r is None ==> bytes@.len() < pos + 8,
{
    proof {
        vstd::bytes::lemma_auto_spec_u64_to_from_le_bytes();
    }
    if bytes.len() - pos >= 8 {
        let s: &[u8] = vstd::slice::slice_subrange(bytes.as_slice(), pos, pos + 8);
        let x: u64 = u64_from_le_bytes(s);
        Some((x, pos + 8))
    } else {
        None
    }
}


/// Reads the framed chunk at `pos`: a `u64` length and that many bytes.
/// The second clause says the framing is unambiguous: whenever the bytes at
/// `pos` continue with a framed chunk, this is the parse that comes out.
fn take_chunk(bytes: &Vec<u8>, pos: usize) -> (r: Option<(Vec<u8>, usize)>)
    requires
        pos <= bytes@.len(),
    ensures
        r matches Some(p) ==> pos <= p.1 <= bytes@.len() && p.0@.len() <= u64::MAX
            && bytes@.subrange(pos as int, p.1 as int) == enc_chunk(p.0@),
        forall|b: Seq<u8>, rest: Seq<u8>| #![auto]
            b.len() <= u64::MAX && bytes@.skip(pos as int) == enc_chunk(b) + rest ==> (
            r matches Some(p) && p.0@ == b && p.1 == pos + 8 + b.len()),
{
    proof {
        vstd::bytes::lemma_auto_spec_u64_to_from_le_bytes();
    }
    let ghost full = bytes@;
    let ghost tail = full.skip(pos as int);
    match read_u64_at(bytes, pos) {
        None => {
            proof {
                assert forall|b: Seq<u8>, rest: Seq<u8>| #![auto]
                    b.len() <= u64::MAX && tail == enc_chunk(b) + rest implies false by {
                    assert(tail.len() == full.len() - pos);
                    assert((enc_chunk(b) + rest).len() == 8 + b.len() + rest.len());
                }
            }
            None
        },
        Some((len, mid)) => {
            let rem: usize = bytes.len() - mid;
            if len <= rem as u64 {
                let end: usize = mid + (len as usize);
                let chunk: Vec<u8> = slice_to_vec(
                    vstd::slice::slice_subrange(bytes.as_slice(), mid, end),
                );
                proof {
                    assert(chunk@ == full.subrange(mid as int, end as int));
                    assert(full.subrange(pos as int, end as int) =~= full.subrange(
                        pos as int,
                        mid as int,
                    ) + full.subrange(mid as int, end as int));
                    assert(full.subrange(pos as int, end as int) == enc_chunk(chunk@));
                    assert forall|b: Seq<u8>, rest: Seq<u8>| #![auto]
                        b.len() <= u64::MAX && tail == enc_chunk(b) + rest implies chunk@ == b
                        && end == pos + 8 + b.len() by {
                        let lb = b.len() as u64;
                        assert(tail =~= spec_u64_to_le_bytes(lb) + (b + rest));
                        assert(full.subrange(pos as int, mid as int) =~= tail.subrange(0, 8));
                        assert(tail.subrange(0, 8) =~= spec_u64_to_le_bytes(lb));
                        assert(spec_u64_to_le_bytes(len) == spec_u64_to_le_bytes(lb));
                        assert(len == lb);
                        assert(b.len() == len as nat);
                        assert(tail.len() == 8 + b.len() + rest.len());
                        assert(chunk@ =~= tail.subrange(8, 8 + len as int));
                        assert forall|i: int| 0 <= i < b.len() implies b[i] == tail[8 + i] by {
                            assert(tail[8 + i] == (b + rest)[i]);
                        }
                        assert(chunk@ =~= b);
                    }
                }
                Some((chunk, end))
            } else {
                proof {
                    assert forall|b: Seq<u8>, rest: Seq<u8>| #![auto]
                        b.len() <= u64::MAX && tail == enc_chunk(b) + rest implies false by {
                        let lb = b.len() as u64;
                        assert(tail =~= spec_u64_to_le_bytes(lb) + (b + rest));
                        assert(full.subrange(pos as int, mid as int) =~= tail.subrange(0, 8));
                        assert(tail.subrange(0, 8) =~= spec_u64_to_le_bytes(lb));
                        assert(len == lb);
                        assert(tail.len() == 8 + b.len() + rest.len());
                        assert(rem >= b.len());
                    }
                }
                None
            }
        },
    }
}


/// Reads the framed string at `pos`: a chunk that must hold valid UTF-8.
fn take_string(bytes: &Vec<u8>, pos: usize) -> (r: Option<(String, usize)>)
    requires
        pos <= bytes@.len(),
    ensures
        r matches Some(p) ==> pos <= p.1 <= bytes@.len() && encode_utf8(p.0@).len() <= u64::MAX
            && bytes@.subrange(pos as int, p.1 as int) == enc_str(p.0@),
        forall|s: Seq<char>, rest: Seq<u8>| #![auto]
            encode_utf8(s).len() <= u64::MAX && bytes@.skip(pos as int) == enc_str(s) + rest ==> (
            r matches Some(p) && p.0@ == s && p.1 == pos + 8 + encode_utf8(s).len()),
{
    broadcast use vstd::utf8::encode_utf8_valid_utf8, vstd::utf8::encode_utf8_decode_utf8, vstd::utf8::decode_utf8_encode_utf8;

    let ghost full = bytes@;
    let ghost tail = full.skip(pos as int);
    match take_chunk(bytes, pos) {
        None => {
            proof {
                assert forall|s: Seq<char>, rest: Seq<u8>| #![auto]
                    encode_utf8(s).len() <= u64::MAX && tail == enc_str(s) + rest implies false by {
                    assert(tail == enc_chunk(encode_utf8(s)) + rest);
                }
            }
            None
        },
        Some((chunk, end)) => {
            let ghost cb = chunk@;
            match string_from_utf8(chunk) {
                Some(sstr) => {
                    proof {
                        assert(encode_utf8(decode_utf8(cb)) == cb);
                        assert(encode_utf8(sstr@) == cb);
                        assert(full.subrange(pos as int, end as int) == enc_str(sstr@));
                        assert forall|s: Seq<char>, rest: Seq<u8>| #![auto]
                            encode_utf8(s).len() <= u64::MAX && tail == enc_str(s)
                                + rest implies sstr@ == s && end == pos + 8 + encode_utf8(
                            s,
                        ).len() by {
                            assert(tail == enc_chunk(encode_utf8(s)) + rest);
                            assert(cb == encode_utf8(s));
                            assert(decode_utf8(encode_utf8(s)) == s);
                        }
                    }
                    Some((sstr, end))
                },
                None => {
                    proof {
                        assert forall|s: Seq<char>, rest: Seq<u8>| #![auto]
                            encode_utf8(s).len() <= u64::MAX && tail == enc_str(s)
                                + rest implies false by {
                            assert(tail == enc_chunk(encode_utf8(s)) + rest);
                            assert(cb == encode_utf8(s));
                            assert(valid_utf8(cb));
                        }
                    }
                    None
                },
            }
        },
    }
}


/// Reads the framed request at `pos`: method string, then payload chunk.
fn parse_request(bytes: &Vec<u8>, pos: usize) -> (r: Option<(Request, usize)>)
    requires
        pos <= bytes@.len(),
    ensures
        r matches Some(p) ==> pos <= p.1 <= bytes@.len() && request_fits(p.0@) && bytes@.subrange(
            pos as int,
            p.1 as int,
        ) == enc_request(p.0@),
        forall|v: RequestView, rest: Seq<u8>| #![auto]
            request_fits(v) && bytes@.skip(pos as int) == enc_request(v) + rest ==> (
            r matches Some(p) && p.0@ == v && p.1 == pos + enc_request(v).len()),
{
    proof {
        vstd::bytes::lemma_auto_spec_u64_to_from_le_bytes();
    }
    let ghost full = bytes@;
    let ghost tail = full.skip(pos as int);
    match take_string(bytes, pos) {
        None => {
            proof {
                assert forall|v: RequestView, rest: Seq<u8>| #![auto]
                    request_fits(v) && tail == enc_request(v) + rest implies false by {
                    assert(tail =~= enc_str(v.method) + (enc_chunk(v.payload) + rest));
                }
            }
            None
        },
        Some((method, p1)) => {
            match take_chunk(bytes, p1) {
                None => {
                    proof {
                        assert forall|v: RequestView, rest: Seq<u8>| #![auto]
                            request_fits(v) && tail == enc_request(v) + rest implies false by {
                            assert(tail =~= enc_str(v.method) + (enc_chunk(v.payload) + rest));
                            assert(p1 - pos == enc_str(v.method).len());
                            assert(full.skip(p1 as int) =~= tail.skip(p1 - pos));
                            assert(tail.skip(enc_str(v.method).len() as int) =~= enc_chunk(
                                v.payload,
                            ) + rest);
                        }
                    }
                    None
                },
                Some((payload, p2)) => {
                    proof {
                        assert(full.subrange(pos as int, p2 as int) =~= full.subrange(
                            pos as int,
                            p1 as int,
                        ) + full.subrange(p1 as int, p2 as int));
                        assert(full.subrange(pos as int, p2 as int) == enc_request(
                            RequestView { method: method@, payload: payload@ },
                        ));
                        assert forall|v: RequestView, rest: Seq<u8>| #![auto]
                            request_fits(v) && tail == enc_request(v) + rest implies (RequestView {
                            method: method@,
                            payload: payload@,
                        } == v && p2 == pos + enc_request(v).len()) by {
                            assert(tail =~= enc_str(v.method) + (enc_chunk(v.payload) + rest));
                            assert(method@ == v.method);
                            assert(p1 - pos == enc_str(v.method).len());
                            assert(full.skip(p1 as int) =~= tail.skip(p1 - pos));
                            assert(tail.skip(enc_str(v.method).len() as int) =~= enc_chunk(
                                v.payload,
                            ) + rest);
                            assert(payload@ == v.payload);
                            assert(RequestView { method: method@, payload: payload@ } =~= v);
                        }
                    }
                    Some((Request { method, payload }, p2))
                },
            }
        },
    }
}

/// Reads the framed response at `pos`: status, then body chunk.
fn parse_response(bytes: &Vec<u8>, pos: usize) -> (r: Option<(Response, usize)>)
    requires
        pos <= bytes@.len(),
    ensures
        r matches Some(p) ==> pos <= p.1 <= bytes@.len() && response_fits(p.0@) && bytes@.subrange(
            pos as int,
            p.1 as int,
        ) == enc_response(p.0@),
        forall|v: ResponseView, rest: Seq<u8>| #![auto]
            response_fits(v) && bytes@.skip(pos as int) == enc_response(v) + rest ==> (
            r matches Some(p) && p.0@ == v && p.1 == pos + enc_response(v).len()),
{
    proof {
        vstd::bytes::lemma_auto_spec_u64_to_from_le_bytes();
    }
    let ghost full = bytes@;
    let ghost tail = full.skip(pos as int);
    match read_u64_at(bytes, pos) {
        None => {
            proof {
                assert forall|v: ResponseView, rest: Seq<u8>| #![auto]
                    response_fits(v) && tail == enc_response(v) + rest implies false by {
                    assert(tail =~= spec_u64_to_le_bytes(v.status) + (enc_chunk(v.body) + rest));
                    assert(tail.len() == full.len() - pos);
                }
            }
            None
        },
        Some((status, p1)) => {
            match take_chunk(bytes, p1) {
                None => {
                    proof {
                        assert forall|v: ResponseView, rest: Seq<u8>| #![auto]
                            response_fits(v) && tail == enc_response(v) + rest implies false by {
                            assert(tail =~= spec_u64_to_le_bytes(v.status) + (enc_chunk(v.body)
                                + rest));
                            assert(full.skip(p1 as int) =~= tail.skip(8));
                            assert(tail.skip(8) =~= enc_chunk(v.body) + rest);
                        }
                    }
                    None
                },
                Some((body, p2)) => {
                    proof {
                        assert(full.subrange(pos as int, p2 as int) =~= full.subrange(
                            pos as int,
                            p1 as int,
                        ) + full.subrange(p1 as int, p2 as int));
                        assert(full.subrange(pos as int, p2 as int) == enc_response(
                            ResponseView { status, body: body@ },
                        ));
                        assert forall|v: ResponseView, rest: Seq<u8>| #![auto]
                            response_fits(v) && tail == enc_response(v) + rest implies (
                        ResponseView { status, body: body@ } == v && p2 == pos + enc_response(
                            v,
                        ).len()) by {
                            assert(tail =~= spec_u64_to_le_bytes(v.status) + (enc_chunk(v.body)
                                + rest));
                            assert(full.subrange(pos as int, p1 as int) =~= tail.subrange(0, 8));
                            assert(tail.subrange(0, 8) =~= spec_u64_to_le_bytes(v.status));
                            assert(spec_u64_to_le_bytes(status) == spec_u64_to_le_bytes(v.status));
                            assert(status == v.status);
                            assert(full.skip(p1 as int) =~= tail.skip(8));
                            assert(tail.skip(8) =~= enc_chunk(v.body) + rest);
                            assert(body@ == v.body);
                            assert(ResponseView { status, body: body@ } =~= v);
                        }
                    }
                    Some((Response { status, body }, p2))
                },
            }
        },
    }
}


impl Request {
    /// Recovers the request a byte representation encodes.  Fails exactly
    /// when the bytes are not the representation of any request.
    pub fn from_bytes(bytes: &Vec<u8>) -> (r: Option<Request>)
        ensures
            r matches Some(rq) ==> bytes@ == enc_request(rq@) && request_fits(rq@),
            forall|v: RequestView| #![auto]
                request_fits(v) && bytes@ == enc_request(v) ==> (r matches Some(rq) && rq@ == v),
    {
        let ghost full = bytes@;
        proof {
            assert(full.skip(0) =~= full);
        }
        match parse_request(bytes, 0) {
            Some((rq, p)) => {
                if p == bytes.len() {
                    proof {
                        assert(full =~= full.subrange(0, full.len() as int));
                        assert forall|v: RequestView| #![auto]
                            request_fits(v) && full == enc_request(v) implies rq@ == v by {
                            assert(full.skip(0) == enc_request(v) + Seq::<u8>::empty()) by {
                                assert(enc_request(v) + Seq::<u8>::empty() =~= full);
                            }
                        }
                    }
                    Some(rq)
                } else {
                    proof {
                        assert forall|v: RequestView| #![auto]
                            request_fits(v) && full == enc_request(v) implies false by {
                            assert(full.skip(0) == enc_request(v) + Seq::<u8>::empty()) by {
                                assert(enc_request(v) + Seq::<u8>::empty() =~= full);
                            }
                        }
                    }
                    None
                }
            },
            None => {
                proof {
                    assert forall|v: RequestView| #![auto]
                        request_fits(v) && full == enc_request(v) implies false by {
                        assert(full.skip(0) == enc_request(v) + Seq::<u8>::empty()) by {
                            assert(enc_request(v) + Seq::<u8>::empty() =~= full);
                        }
                    }
                }
                None
            },
        }
    }
}

impl Response {
    /// Recovers the response a byte representation encodes.  Fails exactly
    /// when the bytes are not the representation of any response.
    pub fn from_bytes(bytes: &Vec<u8>) -> (r: Option<Response>)
        ensures
            r matches Some(rs) ==> bytes@ == enc_response(rs@) && response_fits(rs@),
            forall|v: ResponseView| #![auto]
                response_fits(v) && bytes@ == enc_response(v) ==> (r matches Some(rs) && rs@ == v),
    {
        let ghost full = bytes@;
        proof {
            assert(full.skip(0) =~= full);
        }
        match parse_response(bytes, 0) {
            Some((rs, p)) => {
                if p == bytes.len() {
                    proof {
                        assert(full =~= full.subrange(0, full.len() as int));
                        assert forall|v: ResponseView| #![auto]
                            response_fits(v) && full == enc_response(v) implies rs@ == v by {
                            assert(full.skip(0) == enc_response(v) + Seq::<u8>::empty()) by {
                                assert(enc_response(v) + Seq::<u8>::empty() =~= full);
                            }
                        }
                    }
                    Some(rs)
                } else {
                    proof {
                        assert forall|v: ResponseView| #![auto]
                            response_fits(v) && full == enc_response(v) implies false by {
                            assert(full.skip(0) == enc_response(v) + Seq::<u8>::empty()) by {
                                assert(enc_response(v) + Seq::<u8>::empty() =~= full);
                            }
                        }
                    }
                    None
                }
            },
            None => {
                proof {
                    assert forall|v: ResponseView| #![auto]
                        response_fits(v) && full == enc_response(v) implies false by {
                        assert(full.skip(0) == enc_response(v) + Seq::<u8>::empty()) by {
                            assert(enc_response(v) + Seq::<u8>::empty() =~= full);
                        }
                    }
                }
                None
            },
        }
    }
}


impl Route {
    /// Recovers the route a byte representation encodes.  Fails exactly when
    /// the bytes are not the representation of any route, so decoding is the
    /// inverse of [`Route::to_bytes`]: every route comes back equal in all
    /// fields.
    pub fn from_bytes(bytes: &Vec<u8>) -> (r: Option<Route>)
        ensures
            r matches Some(rt) ==> bytes@ == enc_route(rt@) && route_fits(rt@),
            forall|v: RouteView| #![auto]
                route_fits(v) && bytes@ == enc_route(v) ==> (r matches Some(rt) && rt@ == v),
    {
        proof {
            vstd::bytes::lemma_auto_spec_u64_to_from_le_bytes();
        }
        let ghost full = bytes@;
        proof {
            assert(full.skip(0) =~= full);
        }
        match take_string(bytes, 0) {
            None => {
                proof {
                    assert forall|v: RouteView| #![auto]
                        route_fits(v) && full == enc_route(v) implies false by {
                        lemma_route_parts(full, v);
                    }
                }
                None
            },
            Some((name, p1)) => {
                match parse_request(bytes, p1) {
                    None => {
                        proof {
                            assert forall|v: RouteView| #![auto]
                                route_fits(v) && full == enc_route(v) implies false by {
                                lemma_route_parts(full, v);
                                assert(p1 == enc_str(v.route).len());
                                assert(full.skip(p1 as int) =~= enc_request(v.request) + (
                                enc_response(v.expected_response) + Seq::<u8>::empty()));
                            }
                        }
                        None
                    },
                    Some((request, p2)) => {
                        match parse_response(bytes, p2) {
                            None => {
                                proof {
                                    assert forall|v: RouteView| #![auto]
                                        route_fits(v) && full == enc_route(v) implies false by {
                                        lemma_route_parts(full, v);
                                        assert(p1 == enc_str(v.route).len());
                                        assert(full.skip(p1 as int) =~= enc_request(v.request) + (
                                        enc_response(v.expected_response) + Seq::<u8>::empty()));
                                        assert(p2 == p1 + enc_request(v.request).len());
                                        assert(full.skip(p2 as int) =~= enc_response(
                                            v.expected_response,
                                        ) + Seq::<u8>::empty());
                                    }
                                }
                                None
                            },
                            Some((expected_response, p3)) => {
                                if p3 == bytes.len() {
                                    proof {
                                        assert(full.subrange(0, p2 as int) =~= full.subrange(
                                            0,
                                            p1 as int,
                                        ) + full.subrange(p1 as int, p2 as int));
                                        assert(full.subrange(0, p3 as int) =~= full.subrange(
                                            0,
                                            p2 as int,
                                        ) + full.subrange(p2 as int, p3 as int));
                                        assert(full =~= full.subrange(0, full.len() as int));
                                        assert(full == enc_route(
                                            RouteView {
                                                route: name@,
                                                request: request@,
                                                expected_response: expected_response@,
                                            },
                                        ));
                                        assert forall|v: RouteView| #![auto]
                                            route_fits(v) && full == enc_route(v) implies (
                                        RouteView {
                                            route: name@,
                                            request: request@,
                                            expected_response: expected_response@,
                                        } == v) by {
                                            lemma_route_parts(full, v);
                                            assert(name@ == v.route);
                                            assert(p1 == enc_str(v.route).len());
                                            assert(full.skip(p1 as int) =~= enc_request(v.request)
                                                + (enc_response(v.expected_response)
                                                + Seq::<u8>::empty()));
                                            assert(request@ == v.request);
                                            assert(p2 == p1 + enc_request(v.request).len());
                                            assert(full.skip(p2 as int) =~= enc_response(
                                                v.expected_response,
                                            ) + Seq::<u8>::empty());
                                            assert(expected_response@ == v.expected_response);
                                            assert(RouteView {
                                                route: name@,
                                                request: request@,
                                                expected_response: expected_response@,
                                            } =~= v);
                                        }
                                    }
                                    Some(Route { route: name, request, expected_response })
                                } else {
                                    proof {
                                        assert forall|v: RouteView| #![auto]
                                            route_fits(v) && full == enc_route(v) implies false by {
                                            lemma_route_parts(full, v);
                                            assert(p1 == enc_str(v.route).len());
                                            assert(full.skip(p1 as int) =~= enc_request(v.request)
                                                + (enc_response(v.expected_response)
                                                + Seq::<u8>::empty()));
                                            assert(p2 == p1 + enc_request(v.request).len());
                                            assert(full.skip(p2 as int) =~= enc_response(
                                                v.expected_response,
                                            ) + Seq::<u8>::empty());
                                            assert(p3 == p2 + enc_response(
                                                v.expected_response,
                                            ).len());
                                            assert(p3 == full.len());
                                        }
                                    }
                                    None
                                }
                            },
                        }
                    },
                }
            },
        }
    }
}

/// Splits a route's byte representation at the seam after its name, so the
/// three framed parts can be peeled off in order.
proof fn lemma_route_parts(full: Seq<u8>, v: RouteView)
    requires
        full == enc_route(v),
    ensures
        full.skip(0) == enc_str(v.route) + (enc_request(v.request) + (enc_response(
            v.expected_response,
        ) + Seq::<u8>::empty())),
{
    assert(full.skip(0) =~= full);
    assert(full.skip(0) =~= enc_str(v.route) + (enc_request(v.request) + (enc_response(
        v.expected_response,
    ) + Seq::<u8>::empty())));
}

} // verus!
