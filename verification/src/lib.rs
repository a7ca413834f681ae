//! A minimal HTTP/1.1 request-parsing and routing library.
//!
//! The library turns raw request text into a structured [`Request`],
//! resolves `(path, method)` pairs against a route table, and renders
//! [`Response`] values back into wire text.  All protocol logic lives
//! here; sockets and handler callbacks live with the caller.

pub mod parser;
pub mod strmap;
pub mod wire;
pub mod text;

pub use strmap::StringMap;

use vstd::prelude::*;

use crate::parser::spec_parse_request;
use crate::text::{spec_lower, seq_insert, str_eq, to_lower, StrPairs};
use crate::wire::status_line_of;

verus! {

/// The HTTP methods the parser recognises.  A method token outside this
/// set parses to `UNRECOGNIZED`; it is a valid value, not a failure.
#[derive(Clone, Copy, PartialEq, Eq, Hash, Debug, Structural)]
pub enum HTTP {
    GET,
    POST,
    PUT,
    DELETE,
    PATCH,
    HEAD,
    OPTIONS,
    UNRECOGNIZED,
}

/// The HTTP versions the parser recognises.  An unknown version token
/// parses to `Unknown`; it never fails the parse.
#[derive(Clone, Copy, PartialEq, Eq, Hash, Debug, Structural)]
pub enum HTTPVersion {
    One,
    OnePointOne,
    Two,
    Unknown,
}

/// What a [`RequestPath`] holds, as the specs see it.
pub ghost struct PathModel {
    pub raw: Seq<char>,
    pub absolute: Seq<char>,
    pub query: StrPairs,
}

/// The target of a request: the raw text, the part before the first
/// `?`, and the decoded query pairs.
#[derive(Debug)]
pub struct RequestPath {
    pub raw: String,
    pub absolute: String,
    pub query: StringMap,
}

impl View for RequestPath {
    type V = PathModel;

    open spec fn view(&self) -> PathModel {
        PathModel { raw: self.raw@, absolute: self.absolute@, query: self.query@ }
    }
}

/// What a [`Request`] holds, as the specs see it.
pub ghost struct RequestModel {
    pub path: PathModel,
    pub method: HTTP,
    pub version: HTTPVersion,
    pub headers: StrPairs,
}

/// A parsed request: target, method, version and headers.  No body is
/// ever read or attached.
#[derive(Debug)]
pub struct Request {
    pub path: RequestPath,
    pub method: HTTP,
    pub version: HTTPVersion,
    pub headers: StringMap,
}

impl View for Request {
    type V = RequestModel;

    open spec fn view(&self) -> RequestModel {
        RequestModel {
            path: self.path@,
            method: self.method,
            version: self.version,
            headers: self.headers@,
        }
    }
}

/// What a [`Response`] holds, as the specs see it.
pub ghost struct ResponseModel {
    pub status: int,
    pub body: Seq<char>,
    pub headers: StrPairs,
}

/// A response under construction: status code, body text and headers.
pub struct Response {
    status: usize,
    body: String,
    headers: StringMap,
}

impl View for Response {
    type V = ResponseModel;

    closed spec fn view(&self) -> ResponseModel {
        ResponseModel { status: self.status as int, body: self.body@, headers: self.headers@ }
    }
}

impl Response {
    /// A fresh response: status 200, empty body, no headers.
    pub fn new() -> (r: Response)
        ensures
            r@.status == 200,
            r@.body == Seq::<char>::empty(),
            r@.headers == Seq::<(Seq<char>, Seq<char>)>::empty(),
    {
        Response { status: 200, body: String::new(), headers: StringMap::new() }
    }

    /// Replace the status code.
    pub fn set_status(self, status: usize) -> (r: Self)
        ensures
            r@.status == status as int,
            r@.body == self@.body,
            r@.headers == self@.headers,
    {
        let mut r = self;
        r.status = status;
        r
    }

    /// Replace the entire body; never an append.
    pub fn send(self, content: String) -> (r: Self)
        ensures
            r@.status == self@.status,
            r@.body == content@,
            r@.headers == self@.headers,
    {
        let mut r = self;
        r.body = content;
        r
    }

    /// Store a header.  The key is lower-cased before storage; the
    /// value is stored verbatim, overwriting any earlier value.
    pub fn set_header(self, key: String, value: String) -> (r: Self)
        ensures
            r@.status == self@.status,
            r@.body == self@.body,
            r@.headers == seq_insert(self@.headers, spec_lower(key@), value@),
    {
        let lowered = to_lower(key.as_str());
        let mut r = self;
        r.headers.insert(lowered, value);
        r
    }

    pub fn status(&self) -> (r: usize)
        ensures
            r as int == self@.status,
    {
        self.status
    }

    pub fn body(&self) -> (r: &String)
        ensures
            r@ == self@.body,
    {
        &self.body
    }

    pub fn headers(&self) -> (r: &StringMap)
        ensures
            r@ == self@.headers,
    {
        &self.headers
    }

    /// The stored value of a header, looked up by lower-cased key.
    pub fn header(&self, key: &str) -> (r: Option<&String>)
        ensures
            match r {
                Some(v) => crate::text::lookup(self@.headers, key@) == Some(v@),
                None => crate::text::lookup(self@.headers, key@) is None,
            },
    {
        self.headers.get(key)
    }
}

/// A handle naming the callback registered for a route.  The caller
/// owns the callbacks and indexes them by this token; the table only
/// records which token answers which route.
#[derive(Clone, Copy, PartialEq, Eq, Structural, Debug)]
pub struct RegisteredRoute {
    pub handler: usize,
}

/// What one table entry holds, as the specs see it.
pub ghost struct RouteModel {
    pub path: Seq<char>,
    pub method: HTTP,
    pub handler: usize,
}

/// What `resolve` reports for a `(path, method)` pair.
#[derive(Clone, Copy, PartialEq, Eq, Structural, Debug)]
pub enum Resolution {
    Found(RegisteredRoute),
    PathNotFound,
    MethodNotAllowed,
}

/// Whether some entry answers exactly `(p, m)`.
pub open spec fn spec_has_route(rs: Seq<RouteModel>, p: Seq<char>, m: HTTP) -> bool {
    exists|i: int| 0 <= i < rs.len() && rs[i].path == p && rs[i].method == m
}

/// Whether some entry is registered under path `p`, whatever method.
pub open spec fn spec_has_path(rs: Seq<RouteModel>, p: Seq<char>) -> bool {
    exists|i: int| 0 <= i < rs.len() && rs[i].path == p
}

/// Index of the first entry answering `(p, m)`; `rs.len()` if none.
pub open spec fn route_idx(rs: Seq<RouteModel>, p: Seq<char>, m: HTTP) -> nat
    decreases rs.len(),
{
    if rs.len() == 0 {
        0
    } else if rs[0].path == p && rs[0].method == m {
        0
    } else {
        1 + route_idx(rs.drop_first(), p, m)
    }
}

pub proof fn lemma_route_idx_is(rs: Seq<RouteModel>, p: Seq<char>, m: HTTP, i: int)
    requires
        0 <= i <= rs.len(),
        forall|j: int| 0 <= j < i ==> !(rs[j].path == p && rs[j].method == m),
        i < rs.len() ==> rs[i].path == p && rs[i].method == m,
    ensures
        route_idx(rs, p, m) == i,
    decreases rs.len(),
{
    if rs.len() == 0 {
    } else if rs[0].path == p && rs[0].method == m {
        assert(i == 0);
    } else {
        assert(forall|j: int| 0 <= j < i - 1 ==> rs.drop_first()[j] == rs[j + 1]);
        assert(i >= 1);
        if i < rs.len() {
            assert(rs.drop_first()[i - 1] == rs[i]);
        }
        lemma_route_idx_is(rs.drop_first(), p, m, i - 1);
    }
}

/// Registration: a fresh `(p, m)` pair is appended; an existing one
/// leaves the table untouched — the first registration wins.
pub open spec fn spec_register(rs: Seq<RouteModel>, p: Seq<char>, m: HTTP, h: usize) -> Seq<
    RouteModel,
> {
    if spec_has_route(rs, p, m) {
        rs
    } else {
        rs.push(RouteModel { path: p, method: m, handler: h })
    }
}

/// Resolution: the registered handler on an exact `(path, method)`
/// match; `MethodNotAllowed` when only the path is known;
/// `PathNotFound` when not even the path is.
pub open spec fn spec_resolve(rs: Seq<RouteModel>, p: Seq<char>, m: HTTP) -> Resolution {
    if spec_has_route(rs, p, m) {
        Resolution::Found((RegisteredRoute { handler: rs[route_idx(rs, p, m) as int].handler }))
    } else if spec_has_path(rs, p) {
        Resolution::MethodNotAllowed
    } else {
        Resolution::PathNotFound
    }
}

/// Registering the same `(path, method)` twice leaves the table as
/// the first registration made it, and resolution still answers with
/// the first handler: the second one can never be invoked.
pub proof fn lemma_register_first_wins(
    rs: Seq<RouteModel>,
    p: Seq<char>,
    m: HTTP,
    h1: usize,
    h2: usize,
)
    requires
        !spec_has_route(rs, p, m),
    ensures
        spec_register(spec_register(rs, p, m, h1), p, m, h2) == spec_register(rs, p, m, h1),
        spec_resolve(spec_register(spec_register(rs, p, m, h1), p, m, h2), p, m)
            == Resolution::Found((RegisteredRoute { handler: h1 })),
{
    let rs1 = spec_register(rs, p, m, h1);
    assert(rs1 == rs.push(RouteModel { path: p, method: m, handler: h1 }));
    assert(rs1[rs.len() as int].path == p && rs1[rs.len() as int].method == m);
    assert(spec_has_route(rs1, p, m));
    assert forall|j: int| 0 <= j < rs.len() implies !(rs1[j].path == p && rs1[j].method
        == m) by {
        assert(rs1[j] == rs[j]);
    }
    lemma_route_idx_is(rs1, p, m, rs.len() as int);
}

/// The route table: at most one handler per `(path, method)` pair.
pub struct App {
    registered_routes: Vec<(String, HTTP, RegisteredRoute)>,
}

impl View for App {
    type V = Seq<RouteModel>;

    closed spec fn view(&self) -> Seq<RouteModel> {
        Seq::new(
            self.registered_routes@.len(),
            |i: int|
                RouteModel {
                    path: self.registered_routes@[i].0@,
                    method: self.registered_routes@[i].1,
                    handler: self.registered_routes@[i].2.handler,
                },
        )
    }
}

impl App {
    /// At most one entry per `(path, method)` pair.
    pub open spec fn wf(self) -> bool {
        forall|i: int, j: int|
            0 <= i < j < self@.len() ==> !(self@[i].path == self@[j].path && self@[i].method
                == self@[j].method)
    }

    pub fn new() -> (r: App)
        ensures
            r@ == Seq::<RouteModel>::empty(),
            r.wf(),
    {
        let r = App { registered_routes: Vec::new() };
        proof {
            assert(r@ =~= Seq::<RouteModel>::empty());
        }
        r
    }

    /// Register `route` for `(path, method)` unless the pair already
    /// has a handler; the first registration wins.  Returns whether
    /// the route was fresh, so the caller can warn on a duplicate.
    pub fn register(&mut self, path: &str, method: HTTP, route: RegisteredRoute) -> (fresh:
        bool)
        ensures
            fresh == !spec_has_route(old(self)@, path@, method),
            final(self)@ == spec_register(old(self)@, path@, method, route.handler),
            old(self).wf() ==> final(self).wf(),
    {
        let n = self.registered_routes.len();
        let mut i: usize = 0;
        while i < n
            invariant
                i <= n,
                n == self.registered_routes@.len(),
                n == self@.len(),
                self@ == old(self)@,
                forall|j: int|
                    0 <= j < i ==> !(self@[j].path == path@ && self@[j].method == method),
            decreases n - i,
        {
            if str_eq(self.registered_routes[i].0.as_str(), path) && self.registered_routes[i].1
                == method {
                proof {
                    assert(self@[i as int].path == path@ && self@[i as int].method == method);
                }
                return false;
            }
            i += 1;
        }
        proof {
            assert(!spec_has_route(self@, path@, method));
        }
        let owned = String::from_str(path);
        self.registered_routes.push((owned, method, route));
        proof {
            assert(self@ =~= old(self)@.push(
                RouteModel { path: path@, method, handler: route.handler },
            ));
            if old(self).wf() {
                assert forall|i2: int, j2: int| 0 <= i2 < j2 < self@.len() implies !(
                self@[i2].path == self@[j2].path && self@[i2].method == self@[j2].method) by {
                    if j2 == self@.len() - 1 {
                        assert(self@[i2] == old(self)@[i2]);
                    }
                }
            }
        }
        true
    }

    /// Look `(path, method)` up, exactly as [`spec_resolve`] says.
    pub fn resolve(&self, path: &str, method: HTTP) -> (r: Resolution)
        ensures
            r == spec_resolve(self@, path@, method),
    {
        let n = self.registered_routes.len();
        let mut i: usize = 0;
        while i < n
            invariant
                i <= n,
                n == self.registered_routes@.len(),
                n == self@.len(),
                forall|j: int|
                    0 <= j < i ==> !(self@[j].path == path@ && self@[j].method == method),
            decreases n - i,
        {
            if str_eq(self.registered_routes[i].0.as_str(), path) && self.registered_routes[i].1
                == method {
                proof {
                    assert(self@[i as int].path == path@ && self@[i as int].method == method);
                    lemma_route_idx_is(self@, path@, method, i as int);
                }
                return Resolution::Found(self.registered_routes[i].2);
            }
            i += 1;
        }
        let mut k: usize = 0;
        while k < n
            invariant
                k <= n,
                n == self.registered_routes@.len(),
                n == self@.len(),
                !spec_has_route(self@, path@, method),
                forall|j: int| 0 <= j < k ==> self@[j].path != path@,
            decreases n - k,
        {
            if str_eq(self.registered_routes[k].0.as_str(), path) {
                proof {
                    assert(self@[k as int].path == path@);
                }
                return Resolution::MethodNotAllowed;
            }
            k += 1;
        }
        Resolution::PathNotFound
    }
}

/// The headers every successful response starts from.
pub open spec fn default_headers() -> StrPairs {
    seq![
        ("content-type"@, "text/plain; charset=utf-8"@),
        ("connection"@, "keep-alive"@),
        ("keep-alive"@, "timeout=5"@),
    ]
}

/// The response handed to a handler: status 200, empty body, and the
/// advisory content-type and keep-alive headers.
pub fn default_response() -> (r: Response)
    ensures
        r@.status == 200,
        r@.body == Seq::<char>::empty(),
        r@.headers == default_headers(),
{
    let mut h = StringMap::new();
    h.insert(String::from_str("content-type"), String::from_str("text/plain; charset=utf-8"));
    h.insert(String::from_str("connection"), String::from_str("keep-alive"));
    h.insert(String::from_str("keep-alive"), String::from_str("timeout=5"));
    proof {
        reveal_strlit("content-type");
        reveal_strlit("connection");
        reveal_strlit("keep-alive");
        assert("content-type"@.len() == 12);
        assert("connection"@.len() == 10);
        assert("keep-alive"@.len() == 10);
        assert("connection"@[0] == 'c');
        assert("keep-alive"@[0] == 'k');
        assert("connection"@ != "content-type"@);
        assert("keep-alive"@ != "content-type"@);
        assert("keep-alive"@ != "connection"@);
        let p1 = seq![("content-type"@, "text/plain; charset=utf-8"@)];
        let p2 = p1.push(("connection"@, "keep-alive"@));
        crate::text::lemma_key_idx_is(p1, "connection"@, 1);
        crate::text::lemma_key_idx_is(p2, "keep-alive"@, 2);
        assert(crate::text::seq_insert(
            Seq::<(Seq<char>, Seq<char>)>::empty(),
            "content-type"@,
            "text/plain; charset=utf-8"@,
        ) =~= p1);
        assert(h@ =~= default_headers());
    }
    Response { status: 200, body: String::new(), headers: h }
}

/// What one exchange asks of the caller: write `Respond` back as-is,
/// or run the named handler on the parsed request, seed it with
/// [`default_response`], and write the rendered result.
pub enum Dispatch {
    Respond(String),
    Run(Request, RegisteredRoute),
}

impl App {
    /// Decide a whole exchange from the raw request text: a parse
    /// failure draws a bare 400 status line, an unknown path 404, a
    /// known path without the method 405; otherwise the registered
    /// handler is to be run on the parsed request.
    pub fn handle_message(&self, message: &str) -> (r: Dispatch)
        ensures
            spec_parse_request(message@) is None ==> (r matches Dispatch::Respond(s) && s@
                == status_line_of(400)),
            spec_parse_request(message@) matches Some(req) ==> match spec_resolve(
                self@,
                req.path.absolute,
                req.method,
            ) {
                Resolution::Found(rt) => r matches Dispatch::Run(q, h) && q@ == req && h == rt,
                Resolution::PathNotFound => r matches Dispatch::Respond(s) && s@
                    == status_line_of(404),
                Resolution::MethodNotAllowed => r matches Dispatch::Respond(s) && s@
                    == status_line_of(405),
            },
    {
        match parser::parse_request(message) {
            None => Dispatch::Respond(wire::status_line(400)),
            Some(req) => {
                match self.resolve(req.path.absolute.as_str(), req.method) {
                    Resolution::PathNotFound => Dispatch::Respond(wire::status_line(404)),
                    Resolution::MethodNotAllowed => Dispatch::Respond(wire::status_line(405)),
                    Resolution::Found(rt) => Dispatch::Run(req, rt),
                }
            },
        }
    }
}

} // verus!
