//! Request parsing: raw text to a structured [`Request`], or nothing.
//!
//! The functions here are proved against a sequence-level model of the
//! same grammar: [`spec_parse_request`] says exactly which texts parse
//! and to what.

use vstd::prelude::*;

use crate::{HTTP, HTTPVersion, PathModel, Request, RequestModel, RequestPath, StringMap};
use crate::text::{
    StrPairs, distinct_keys, find_from, first_idx, has_char, is_wsp, lemma_first_idx_is,
    lemma_insert_distinct, lemma_split_three, lemma_trim_end_take, lemma_trim_start_skip,
    lines_of, seq_insert, spec_lines, spec_trim, split_all, str_eq, strip_cr, trim_of,
};

verus! {

/// The method a request-line token names; anything unknown is
/// `UNRECOGNIZED`, never a failure.
pub open spec fn method_of(t: Seq<char>) -> HTTP {
    if t == "GET"@ {
        HTTP::GET
    } else if t == "POST"@ {
        HTTP::POST
    } else if t == "PUT"@ {
        HTTP::PUT
    } else if t == "PATCH"@ {
        HTTP::PATCH
    } else if t == "DELETE"@ {
        HTTP::DELETE
    } else if t == "HEAD"@ {
        HTTP::HEAD
    } else if t == "OPTIONS"@ {
        HTTP::OPTIONS
    } else {
        HTTP::UNRECOGNIZED
    }
}

/// The version a request-line token names; anything unknown is
/// `Unknown`, never a failure.
pub open spec fn version_of(t: Seq<char>) -> HTTPVersion {
    if t == "HTTP/1"@ {
        HTTPVersion::One
    } else if t == "HTTP/1.1"@ {
        HTTPVersion::OnePointOne
    } else if t == "HTTP/2"@ {
        HTTPVersion::Two
    } else {
        HTTPVersion::Unknown
    }
}

/// Fold the query segments into a map: a segment with an `=` stores
/// the part before it under the part after it; a segment without `=`
/// is dropped; a repeated key keeps the last value.
pub open spec fn query_fold(segs: Seq<Seq<char>>, acc: StrPairs) -> StrPairs
    decreases segs.len(),
{
    if segs.len() == 0 {
        acc
    } else {
        let seg = segs[0];
        let acc2 = if has_char(seg, '=') {
            let i = first_idx(seg, '=');
            seq_insert(acc, seg.take(i as int), seg.skip(i + 1 as int))
        } else {
            acc
        };
        query_fold(segs.drop_first(), acc2)
    }
}

/// The query pairs encoded by the text after `?`.
pub open spec fn query_of(q: Seq<char>) -> StrPairs {
    query_fold(split_all(q, '&'), Seq::empty())
}

/// The model of a parsed target: split at the first `?`, with the
/// remainder read as query pairs.
pub open spec fn path_of(t: Seq<char>) -> PathModel {
    if has_char(t, '?') {
        let i = first_idx(t, '?');
        PathModel { raw: t, absolute: t.take(i as int), query: query_of(t.skip(i + 1 as int)) }
    } else {
        PathModel { raw: t, absolute: t, query: Seq::empty() }
    }
}

/// Fold header lines into a map, stopping at the first blank line.
/// A line is split at its first `:`; both trimmed sides must be
/// non-empty or the line is dropped silently.
pub open spec fn headers_fold(ls: Seq<Seq<char>>, acc: StrPairs) -> StrPairs
    decreases ls.len(),
{
    if ls.len() == 0 {
        acc
    } else if spec_trim(ls[0]).len() == 0 {
        acc
    } else {
        let line = ls[0];
        let acc2 = if has_char(line, ':') {
            let i = first_idx(line, ':');
            let name = spec_trim(line.take(i as int));
            let value = spec_trim(line.skip(i + 1 as int));
            if name.len() > 0 && value.len() > 0 {
                seq_insert(acc, name, value)
            } else {
                acc
            }
        } else {
            acc
        };
        headers_fold(ls.drop_first(), acc2)
    }
}

pub open spec fn headers_of(ls: Seq<Seq<char>>) -> StrPairs {
    headers_fold(ls, Seq::empty())
}

/// The request encoded by a sequence of lines: one leading blank line
/// is tolerated, the request line must hold at least three
/// space-separated tokens, and the lines after it are headers.
pub open spec fn request_of_lines(ls: Seq<Seq<char>>) -> Option<RequestModel> {
    if ls.len() == 0 {
        None
    } else {
        let start: int = if spec_trim(ls[0]).len() == 0 {
            1
        } else {
            0
        };
        if start >= ls.len() {
            None
        } else {
            let toks = split_all(ls[start], ' ');
            if toks.len() < 3 {
                None
            } else {
                Some(
                    RequestModel {
                        path: path_of(toks[1]),
                        method: method_of(toks[0]),
                        version: version_of(toks[2]),
                        headers: headers_of(ls.skip(start + 1)),
                    },
                )
            }
        }
    }
}

/// Which texts parse, and to what.
pub open spec fn spec_parse_request(msg: Seq<char>) -> Option<RequestModel> {
    request_of_lines(spec_lines(msg))
}

fn match_method(t: &str) -> (m: HTTP)
    ensures
        m == method_of(t@),
{
    if str_eq(t, "GET") {
        HTTP::GET
    } else if str_eq(t, "POST") {
        HTTP::POST
    } else if str_eq(t, "PUT") {
        HTTP::PUT
    } else if str_eq(t, "PATCH") {
        HTTP::PATCH
    } else if str_eq(t, "DELETE") {
        HTTP::DELETE
    } else if str_eq(t, "HEAD") {
        HTTP::HEAD
    } else if str_eq(t, "OPTIONS") {
        HTTP::OPTIONS
    } else {
        HTTP::UNRECOGNIZED
    }
}

fn match_version(t: &str) -> (v: HTTPVersion)
    ensures
        v == version_of(t@),
{
    if str_eq(t, "HTTP/1") {
        HTTPVersion::One
    } else if str_eq(t, "HTTP/1.1") {
        HTTPVersion::OnePointOne
    } else if str_eq(t, "HTTP/2") {
        HTTPVersion::Two
    } else {
        HTTPVersion::Unknown
    }
}

/// The query map encoded by the text after `?`.
fn parse_query(rest: &str) -> (m: StringMap)
    ensures
        m@ == query_of(rest@),
{
    let n = rest.unicode_len();
    let mut m = StringMap::new();
    let mut start: usize = 0;
    let mut finished = false;
    proof {
        assert(rest@.skip(0) =~= rest@);
    }
    while !finished
        invariant
            start <= n,
            n == rest@.len(),
            !finished ==> query_of(rest@) == query_fold(
                split_all(rest@.skip(start as int), '&'),
                m@,
            ),
            finished ==> query_of(rest@) == m@,
        decreases (if finished { 0int } else { n - start + 1 }),
    {
        let ghost t = rest@.skip(start as int);
        let ghost acc0 = m@;
        let j = find_from(rest, '&', start);
        let e = find_from(rest, '=', start);
        let ghost seg = t.take(j - start);
        proof {
            assert(forall|k: int| 0 <= k < t.len() ==> t[k] == rest@[k + start]);
            lemma_first_idx_is(t, '&', j - start);
            assert(seg =~= rest@.subrange(start as int, j as int));
            if e < j {
                lemma_first_idx_is(seg, '=', e - start);
            } else {
                lemma_first_idx_is(seg, '=', seg.len() as int);
            }
        }
        if e < j {
            let key = String::from_str(rest.substring_char(start, e));
            let value = String::from_str(rest.substring_char(e + 1, j));
            proof {
                assert(key@ =~= seg.take(e - start));
                assert(value@ =~= seg.skip(e - start + 1));
            }
            m.insert(key, value);
        }
        proof {
            if j < n {
                assert(split_all(t, '&') == seq![seg] + split_all(t.skip(j - start + 1), '&'));
                assert((seq![seg] + split_all(t.skip(j - start + 1), '&'))[0] == seg);
                assert((seq![seg] + split_all(t.skip(j - start + 1), '&')).drop_first()
                    =~= split_all(t.skip(j - start + 1), '&'));
                assert(t.skip(j - start + 1) =~= rest@.skip(j + 1));
            } else {
                assert(seg =~= t);
                assert(split_all(t, '&') == seq![t]);
                assert(seq![t].drop_first() =~= Seq::<Seq<char>>::empty());
                assert(query_fold(Seq::<Seq<char>>::empty(), m@) == m@);
            }
        }
        if j < n {
            start = j + 1;
        } else {
            finished = true;
        }
    }
    m
}

/// Parse a request target.  Always succeeds; the `Option` mirrors the
/// shape callers expect.
pub fn parse_path(path: &str) -> (r: Option<RequestPath>)
    ensures
        r matches Some(p) && p@ == path_of(path@),
{
    let n = path.unicode_len();
    let raw = String::from_str(path);
    let q = find_from(path, '?', 0);
    proof {
        lemma_first_idx_is(path@, '?', q as int);
    }
    if q < n {
        let absolute = String::from_str(path.substring_char(0, q));
        let query = parse_query(path.substring_char(q + 1, n));
        proof {
            assert(path@.subrange(0, q as int) =~= path@.take(q as int));
            assert(path@.subrange(q + 1, n as int) =~= path@.skip(q + 1));
        }
        Some(RequestPath { raw, absolute, query })
    } else {
        let absolute = String::from_str(path);
        Some(RequestPath { raw, absolute, query: StringMap::new() })
    }
}

/// The headers among `lines[from..]`, up to the first blank line.
fn parse_headers(lines: &Vec<String>, from: usize) -> (m: StringMap)
    requires
        from <= lines@.len(),
    ensures
        m@ == headers_of(lines.deep_view().skip(from as int)),
{
    let ghost ls = lines.deep_view();
    let n = lines.len();
    let mut m = StringMap::new();
    let mut i = from;
    let mut stopped = false;
    while !stopped && i < n
        invariant
            from <= i <= n,
            n == lines@.len(),
            n == ls.len(),
            ls == lines.deep_view(),
            !stopped ==> headers_of(ls.skip(from as int)) == headers_fold(
                ls.skip(i as int),
                m@,
            ),
            stopped ==> headers_of(ls.skip(from as int)) == m@,
        decreases (if stopped { 0int } else { n - i + 1 }),
    {
        let ghost rem = ls.skip(i as int);
        let ghost acc0 = m@;
        let line: &String = &lines[i];
        proof {
            assert(line@ == rem[0]);
            assert(rem.drop_first() =~= ls.skip(i + 1));
        }
        let lt = trim_of(line.as_str());
        if lt.unicode_len() == 0 {
            stopped = true;
        } else {
            let ln = line.as_str().unicode_len();
            let c = find_from(line.as_str(), ':', 0);
            proof {
                lemma_first_idx_is(line@, ':', c as int);
            }
            if c < ln {
                let name = trim_of(line.as_str().substring_char(0, c));
                let value = trim_of(line.as_str().substring_char(c + 1, ln));
                proof {
                    assert(line@.subrange(0, c as int) =~= line@.take(c as int));
                    assert(line@.subrange(c + 1, ln as int) =~= line@.skip(c + 1));
                }
                if name.unicode_len() > 0 && value.unicode_len() > 0 {
                    m.insert(String::from_str(name), String::from_str(value));
                }
            }
            i += 1;
        }
    }
    proof {
        if !stopped {
            assert(ls.skip(i as int) =~= Seq::<Seq<char>>::empty());
            assert(headers_fold(Seq::<Seq<char>>::empty(), m@) == m@);
        }
    }
    m
}

/// Parse raw request text into a [`Request`], or nothing for a text
/// whose request line is absent or short of its three tokens.
#[verifier::rlimit(40)]
pub fn parse_request(message: &str) -> (r: Option<Request>)
    ensures
        match r {
            Some(req) => spec_parse_request(message@) == Some(req@),
            None => spec_parse_request(message@) is None,
        },
{
    let lines = lines_of(message);
    let ghost ls = lines.deep_view();
    let nl = lines.len();
    if nl == 0 {
        return None;
    }
    let first_line: &String = &lines[0];
    proof {
        assert(first_line@ == ls[0]);
    }
    let start: usize = if trim_of(first_line.as_str()).unicode_len() == 0 {
        1
    } else {
        0
    };
    if start >= nl {
        return None;
    }
    let rl: &String = &lines[start];
    proof {
        assert(rl@ == ls[start as int]);
    }
    let rls = rl.as_str();
    let n = rls.unicode_len();
    let ghost lv = rl@;
    let j1 = find_from(rls, ' ', 0);
    proof {
        lemma_first_idx_is(lv, ' ', j1 as int);
    }
    if j1 == n {
        proof {
            assert(split_all(lv, ' ') == seq![lv]);
        }
        return None;
    }
    let ghost t1 = lv.skip(j1 + 1);
    let j2 = find_from(rls, ' ', j1 + 1);
    proof {
        assert(forall|k: int| 0 <= k < t1.len() ==> t1[k] == lv[k + j1 + 1]);
        lemma_first_idx_is(t1, ' ', j2 - j1 - 1);
        assert(split_all(lv, ' ') == seq![lv.take(j1 as int)] + split_all(t1, ' '));
    }
    if j2 == n {
        proof {
            assert(split_all(t1, ' ') == seq![t1]);
            assert(split_all(lv, ' ').len() == 2);
        }
        return None;
    }
    let ghost t2 = lv.skip(j2 + 1);
    let j3 = find_from(rls, ' ', j2 + 1);
    proof {
        assert(forall|k: int| 0 <= k < t2.len() ==> t2[k] == lv[k + j2 + 1]);
        lemma_first_idx_is(t2, ' ', j3 - j2 - 1);
        assert(t1.skip(j2 - j1) =~= t2);
        assert(split_all(t1, ' ') == seq![t1.take(j2 - j1 - 1)] + split_all(t2, ' '));
    }
    let ghost toks = split_all(lv, ' ');
    proof {
        assert(toks.len() >= 3);
        assert(toks[0] == lv.take(j1 as int));
        assert(toks[1] == t1.take(j2 - j1 - 1));
        assert(toks[1] =~= lv.subrange(j1 + 1, j2 as int));
        if j3 < n {
            assert(split_all(t2, ' ') == seq![t2.take(j3 - j2 - 1)] + split_all(
                t2.skip(j3 - j2),
                ' ',
            ));
            assert(toks[2] == t2.take(j3 - j2 - 1));
        } else {
            assert(split_all(t2, ' ') == seq![t2]);
            assert(toks[2] == t2);
        }
        assert(toks[2] =~= lv.subrange(j2 + 1, j3 as int));
    }
    let method = match_method(rls.substring_char(0, j1));
    let target = rls.substring_char(j1 + 1, j2);
    let path = match parse_path(target) {
        Some(p) => p,
        None => {
            return None;
        },
    };
    let version = match_version(rls.substring_char(j2 + 1, j3));
    let headers = parse_headers(&lines, start + 1);
    proof {
        assert(lv.take(j1 as int) =~= lv.subrange(0, j1 as int));
    }
    Some(Request { path, method, version, headers })
}

/// The wire token of each recognised method.
pub open spec fn method_token(m: HTTP) -> Seq<char> {
    match m {
        HTTP::GET => "GET"@,
        HTTP::POST => "POST"@,
        HTTP::PUT => "PUT"@,
        HTTP::PATCH => "PATCH"@,
        HTTP::DELETE => "DELETE"@,
        HTTP::HEAD => "HEAD"@,
        HTTP::OPTIONS => "OPTIONS"@,
        HTTP::UNRECOGNIZED => Seq::empty(),
    }
}

/// The wire token of each recognised version.
pub open spec fn version_token(v: HTTPVersion) -> Seq<char> {
    match v {
        HTTPVersion::One => "HTTP/1"@,
        HTTPVersion::OnePointOne => "HTTP/1.1"@,
        HTTPVersion::Two => "HTTP/2"@,
        HTTPVersion::Unknown => Seq::empty(),
    }
}

/// Each recognised method's token parses back to it, is non-empty,
/// and holds no whitespace.
pub proof fn lemma_method_token(m: HTTP)
    requires
        m != HTTP::UNRECOGNIZED,
    ensures
        method_of(method_token(m)) == m,
        method_token(m).len() > 0,
        forall|i: int| 0 <= i < method_token(m).len() ==> !is_wsp(#[trigger] method_token(m)[i]),
{
    reveal_strlit("GET");
    reveal_strlit("POST");
    reveal_strlit("PUT");
    reveal_strlit("PATCH");
    reveal_strlit("DELETE");
    reveal_strlit("HEAD");
    reveal_strlit("OPTIONS");
    assert("GET"@.len() == 3);
    assert("POST"@.len() == 4);
    assert("PUT"@.len() == 3);
    assert("PATCH"@.len() == 5);
    assert("DELETE"@.len() == 6);
    assert("HEAD"@.len() == 4);
    assert("OPTIONS"@.len() == 7);
    let t = method_token(m);
    match m {
        HTTP::GET => {
            assert forall|i: int| 0 <= i < t.len() implies !is_wsp(t[i]) by {
                assert(t[0] == 'G' && t[1] == 'E' && t[2] == 'T');
            }
        },
        HTTP::POST => {
            assert(t != "GET"@);
            assert forall|i: int| 0 <= i < t.len() implies !is_wsp(t[i]) by {
                assert(t[0] == 'P' && t[1] == 'O' && t[2] == 'S' && t[3] == 'T');
            }
        },
        HTTP::PUT => {
            assert("PUT"@[0] != "GET"@[0]);
            assert(t != "GET"@ && t != "POST"@);
            assert forall|i: int| 0 <= i < t.len() implies !is_wsp(t[i]) by {
                assert(t[0] == 'P' && t[1] == 'U' && t[2] == 'T');
            }
        },
        HTTP::PATCH => {
            assert(t != "GET"@ && t != "POST"@ && t != "PUT"@);
            assert forall|i: int| 0 <= i < t.len() implies !is_wsp(t[i]) by {
                assert(t[0] == 'P' && t[1] == 'A' && t[2] == 'T' && t[3] == 'C' && t[4] == 'H');
            }
        },
        HTTP::DELETE => {
            assert(t != "GET"@ && t != "POST"@ && t != "PUT"@ && t != "PATCH"@);
            assert forall|i: int| 0 <= i < t.len() implies !is_wsp(t[i]) by {
                assert(t[0] == 'D' && t[1] == 'E' && t[2] == 'L' && t[3] == 'E' && t[4] == 'T'
                    && t[5] == 'E');
            }
        },
        HTTP::HEAD => {
            assert("HEAD"@[0] != "POST"@[0]);
            assert(t != "GET"@ && t != "POST"@ && t != "PUT"@ && t != "PATCH"@ && t
                != "DELETE"@);
            assert forall|i: int| 0 <= i < t.len() implies !is_wsp(t[i]) by {
                assert(t[0] == 'H' && t[1] == 'E' && t[2] == 'A' && t[3] == 'D');
            }
        },
        HTTP::OPTIONS => {
            assert(t != "GET"@ && t != "POST"@ && t != "PUT"@ && t != "PATCH"@ && t != "DELETE"@
                && t != "HEAD"@);
            assert forall|i: int| 0 <= i < t.len() implies !is_wsp(t[i]) by {
                assert(t[0] == 'O' && t[1] == 'P' && t[2] == 'T' && t[3] == 'I' && t[4] == 'O'
                    && t[5] == 'N' && t[6] == 'S');
            }
        },
        HTTP::UNRECOGNIZED => {
        },
    }
}

/// Each recognised version's token parses back to it, is non-empty,
/// and holds no whitespace.
pub proof fn lemma_version_token(v: HTTPVersion)
    requires
        v != HTTPVersion::Unknown,
    ensures
        version_of(version_token(v)) == v,
        version_token(v).len() > 0,
        forall|i: int| 0 <= i < version_token(v).len() ==> !is_wsp(
            #[trigger] version_token(v)[i],
        ),
{
    reveal_strlit("HTTP/1");
    reveal_strlit("HTTP/1.1");
    reveal_strlit("HTTP/2");
    assert("HTTP/1"@.len() == 6);
    assert("HTTP/1.1"@.len() == 8);
    assert("HTTP/2"@.len() == 6);
    let t = version_token(v);
    match v {
        HTTPVersion::One => {
            assert forall|i: int| 0 <= i < t.len() implies !is_wsp(t[i]) by {
                assert(t[0] == 'H' && t[1] == 'T' && t[2] == 'T' && t[3] == 'P' && t[4] == '/'
                    && t[5] == '1');
            }
        },
        HTTPVersion::OnePointOne => {
            assert(t != "HTTP/1"@);
            assert forall|i: int| 0 <= i < t.len() implies !is_wsp(t[i]) by {
                assert(t[0] == 'H' && t[1] == 'T' && t[2] == 'T' && t[3] == 'P' && t[4] == '/'
                    && t[5] == '1' && t[6] == '.' && t[7] == '1');
            }
        },
        HTTPVersion::Two => {
            assert("HTTP/2"@[5] != "HTTP/1"@[5]);
            assert(t != "HTTP/1"@ && t != "HTTP/1.1"@);
            assert forall|i: int| 0 <= i < t.len() implies !is_wsp(t[i]) by {
                assert(t[0] == 'H' && t[1] == 'T' && t[2] == 'T' && t[3] == 'P' && t[4] == '/'
                    && t[5] == '2');
            }
        },
        HTTPVersion::Unknown => {
        },
    }
}

/// The wire form of a request line for `m`, `target` and `v`,
/// terminated by CRLF.
pub open spec fn render_request_line(m: HTTP, target: Seq<char>, v: HTTPVersion) -> Seq<char> {
    method_token(m) + " "@ + target + " "@ + version_token(v) + "\r\n"@
}

/// Parsing recovers exactly what a well-formed request line encodes:
/// the method, the version, and the parsed target; and such a lone
/// request line carries no headers.
#[verifier::rlimit(80)]
pub proof fn lemma_parse_round_trip(m: HTTP, target: Seq<char>, v: HTTPVersion)
    ensures
        m != HTTP::UNRECOGNIZED && v != HTTPVersion::Unknown && (forall|i: int|
            0 <= i < target.len() ==> !is_wsp(#[trigger] target[i])) ==> spec_parse_request(
            render_request_line(m, target, v),
        ) == Some(
            RequestModel {
                path: path_of(target),
                method: m,
                version: v,
                headers: Seq::<(Seq<char>, Seq<char>)>::empty(),
            },
        ),
{
    if m != HTTP::UNRECOGNIZED && v != HTTPVersion::Unknown && (forall|i: int|
        0 <= i < target.len() ==> !is_wsp(#[trigger] target[i])) {
        reveal_strlit(" ");
        reveal_strlit("\r\n");
        lemma_method_token(m);
        lemma_version_token(v);
        let mt = method_token(m);
        let vt = version_token(v);
        let sp = " "@;
        let line = mt + sp + target + sp + vt;
        let msg = render_request_line(m, target, v);
        assert(msg == line + "\r\n"@);
        assert(msg.len() == line.len() + 2);
        assert(line.len() == mt.len() + 1 + target.len() + 1 + vt.len());
        assert forall|j: int| 0 <= j < line.len() implies !is_wsp(#[trigger] line[j]) || line[j]
            == ' ' by {
            if j < mt.len() {
                assert((mt + sp)[j] == mt[j]);
                assert((mt + sp + target)[j] == (mt + sp)[j]);
                assert((mt + sp + target + sp)[j] == (mt + sp + target)[j]);
                assert(line[j] == mt[j]);
            } else if j == mt.len() {
                assert((mt + sp)[j] == ' ');
                assert((mt + sp + target)[j] == (mt + sp)[j]);
                assert((mt + sp + target + sp)[j] == (mt + sp + target)[j]);
                assert(line[j] == ' ');
            } else if j < mt.len() + 1 + target.len() {
                assert((mt + sp + target)[j] == target[j - mt.len() - 1]);
                assert((mt + sp + target + sp)[j] == (mt + sp + target)[j]);
                assert(line[j] == target[j - mt.len() - 1]);
            } else if j == mt.len() + 1 + target.len() {
                assert((mt + sp + target + sp)[j] == ' ');
                assert(line[j] == ' ');
            } else {
                assert(line[j] == vt[j - (mt.len() + 1 + target.len() + 1)]);
            }
        }
        // one line: the only newline is the final one
        assert(msg[msg.len() - 1] == '\n');
        assert(msg[msg.len() - 2] == '\r');
        let body = msg.drop_last();
        assert(body =~= line + "\r"@) by {
            reveal_strlit("\r");
            assert forall|j: int| 0 <= j < body.len() implies body[j] == (line + "\r"@)[j] by {
                if j < line.len() {
                    assert(body[j] == msg[j]);
                    assert(msg[j] == line[j]);
                } else {
                    assert(body[j] == msg[j]);
                    assert(msg[j] == "\r\n"@[j - line.len()]);
                }
            }
        }
        reveal_strlit("\r");
        assert(forall|j: int| 0 <= j < line.len() ==> #[trigger] body[j] == line[j]);
        assert(body[line.len() as int] == '\r');
        lemma_first_idx_is(body, '\n', body.len() as int);
        assert(split_all(body, '\n') == seq![body]);
        let f = |l: Seq<char>| strip_cr(l);
        assert(strip_cr(body) =~= line);
        assert(spec_lines(msg) == seq![body].map_values(f));
        assert(seq![body].map_values(f) =~= seq![line]);
        let ls = spec_lines(msg);
        assert(ls == seq![line]);
        // the request line is not blank
        assert(line[0] == mt[0]) by {
            assert((mt + sp)[0] == mt[0]);
            assert((mt + sp + target)[0] == (mt + sp)[0]);
            assert((mt + sp + target + sp)[0] == (mt + sp + target)[0]);
        }
        assert(!is_wsp(line[0]));
        assert(line[line.len() - 1] == vt[vt.len() - 1]);
        assert(!is_wsp(line[line.len() - 1]));
        lemma_trim_start_skip(line, 0);
        assert(line.skip(0) =~= line);
        lemma_trim_end_take(line, line.len() as int);
        assert(line.take(line.len() as int) =~= line);
        assert(spec_trim(line) == line);
        assert(spec_trim(line).len() > 0);
        // three tokens
        lemma_split_three(mt, target, vt);
        let toks = split_all(line, ' ');
        assert(toks == seq![mt, target, vt]);
        assert(toks.len() == 3);
        assert(toks[0] == mt && toks[1] == target && toks[2] == vt);
        // no headers
        assert(ls.skip(1) =~= Seq::<Seq<char>>::empty());
        assert(headers_of(Seq::<Seq<char>>::empty()) == Seq::<(Seq<char>, Seq<char>)>::empty());
        assert(request_of_lines(ls) == Some(
            RequestModel {
                path: path_of(target),
                method: m,
                version: v,
                headers: Seq::<(Seq<char>, Seq<char>)>::empty(),
            },
        ));
    }
}

/// An empty message parses to nothing.
pub proof fn lemma_parse_empty_none()
    ensures
        spec_parse_request(Seq::<char>::empty()) is None,
{
    assert(spec_lines(Seq::<char>::empty()) == Seq::<Seq<char>>::empty());
}

/// A message whose request line is absent, or short of its three
/// tokens, parses to nothing.
pub proof fn lemma_parse_missing_tokens(msg: Seq<char>)
    requires
        ({
            let ls = spec_lines(msg);
            ls.len() > 0 ==> {
                let start: int = if spec_trim(ls[0]).len() == 0 {
                    1int
                } else {
                    0int
                };
                start < ls.len() ==> split_all(ls[start], ' ').len() < 3
            }
        }),
    ensures
        spec_parse_request(msg) is None,
{
}

/// Folding query segments keeps the keys distinct.
pub proof fn lemma_query_fold_distinct(segs: Seq<Seq<char>>, acc: StrPairs)
    requires
        distinct_keys(acc),
    ensures
        distinct_keys(query_fold(segs, acc)),
    decreases segs.len(),
{
    if segs.len() > 0 {
        let seg = segs[0];
        if has_char(seg, '=') {
            let i = first_idx(seg, '=');
            lemma_insert_distinct(acc, seg.take(i as int), seg.skip(i + 1 as int));
            lemma_query_fold_distinct(
                segs.drop_first(),
                seq_insert(acc, seg.take(i as int), seg.skip(i + 1 as int)),
            );
        } else {
            lemma_query_fold_distinct(segs.drop_first(), acc);
        }
    }
}

/// Folding header lines keeps the keys distinct.
pub proof fn lemma_headers_fold_distinct(ls: Seq<Seq<char>>, acc: StrPairs)
    requires
        distinct_keys(acc),
    ensures
        distinct_keys(headers_fold(ls, acc)),
    decreases ls.len(),
{
    if ls.len() > 0 && spec_trim(ls[0]).len() != 0 {
        let line = ls[0];
        if has_char(line, ':') {
            let i = first_idx(line, ':');
            let name = spec_trim(line.take(i as int));
            let value = spec_trim(line.skip(i + 1 as int));
            if name.len() > 0 && value.len() > 0 {
                lemma_insert_distinct(acc, name, value);
                lemma_headers_fold_distinct(ls.drop_first(), seq_insert(acc, name, value));
            } else {
                lemma_headers_fold_distinct(ls.drop_first(), acc);
            }
        } else {
            lemma_headers_fold_distinct(ls.drop_first(), acc);
        }
    }
}

/// Every parsed request maps each header key, and each query key, to
/// exactly one value.
pub proof fn lemma_parse_distinct_keys(msg: Seq<char>)
    ensures
        spec_parse_request(msg) matches Some(req) ==> distinct_keys(req.headers)
            && distinct_keys(req.path.query),
{
    if spec_parse_request(msg) is Some {
        let ls = spec_lines(msg);
        let start: int = if spec_trim(ls[0]).len() == 0 {
            1int
        } else {
            0int
        };
        let toks = split_all(ls[start], ' ');
        lemma_headers_fold_distinct(ls.skip(start + 1), Seq::empty());
        let target = toks[1];
        if has_char(target, '?') {
            let i = first_idx(target, '?');
            lemma_query_fold_distinct(split_all(target.skip(i + 1 as int), '&'), Seq::empty());
        }
    }
}

} // verus!
