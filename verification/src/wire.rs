//! Serialization of responses to wire text: the status catalog, the
//! decimal rendering of a status code, header lines and the final
//! response text.

use vstd::prelude::*;

use crate::Response;
use crate::ResponseModel;
use crate::text::{push_char, StrPairs};

verus! {

/// The reason phrase of a status code; codes outside the catalog get
/// a generic phrase instead of borrowing another code's text.
pub open spec fn reason_of(status: int) -> Seq<char> {
    if status == 200 {
        "OK"@
    } else if status == 201 {
        "Created"@
    } else if status == 400 {
        "Bad Request"@
    } else if status == 404 {
        "Not Found"@
    } else if status == 405 {
        "Method Not Allowed"@
    } else if status == 413 {
        "Payload Too Large"@
    } else if status == 418 {
        "I'm a teapot"@
    } else if status == 500 {
        "Internal Server Error"@
    } else {
        "Unknown Status"@
    }
}

pub fn reason_phrase(status: usize) -> (r: &'static str)
    ensures
        r@ == reason_of(status as int),
{
    if status == 200 {
        "OK"
    } else if status == 201 {
        "Created"
    } else if status == 400 {
        "Bad Request"
    } else if status == 404 {
        "Not Found"
    } else if status == 405 {
        "Method Not Allowed"
    } else if status == 413 {
        "Payload Too Large"
    } else if status == 418 {
        "I'm a teapot"
    } else if status == 500 {
        "Internal Server Error"
    } else {
        "Unknown Status"
    }
}

pub open spec fn dec_digit(d: int) -> char {
    if d == 0 {
        '0'
    } else if d == 1 {
        '1'
    } else if d == 2 {
        '2'
    } else if d == 3 {
        '3'
    } else if d == 4 {
        '4'
    } else if d == 5 {
        '5'
    } else if d == 6 {
        '6'
    } else if d == 7 {
        '7'
    } else if d == 8 {
        '8'
    } else {
        '9'
    }
}

/// The usual decimal rendering of a non-negative integer, most
/// significant digit first and no leading zeros.
pub open spec fn dec_of(n: int) -> Seq<char>
    decreases n,
{
    if n < 10 {
        seq![dec_digit(n)]
    } else {
        dec_of(n / 10).push(dec_digit(n % 10))
    }
}

fn digit_char(d: usize) -> (c: char)
    requires
        d < 10,
    ensures
        c == dec_digit(d as int),
{
    match d {
        0 => '0',
        1 => '1',
        2 => '2',
        3 => '3',
        4 => '4',
        5 => '5',
        6 => '6',
        7 => '7',
        8 => '8',
        _ => '9',
    }
}

/// `n` rendered in decimal.
pub fn dec_string(n: usize) -> (r: String)
    ensures
        r@ == dec_of(n as int),
    decreases n,
{
    if n < 10 {
        let mut r = String::new();
        push_char(&mut r, digit_char(n));
        proof {
            assert(r@ =~= seq![dec_digit(n as int)]);
        }
        r
    } else {
        proof {
            assert(n as int / 10 < n as int) by (nonlinear_arith)
                requires
                    n >= 10,
            ;
        }
        let mut r = dec_string(n / 10);
        push_char(&mut r, digit_char(n % 10));
        r
    }
}

/// Each header pair as a `Key: Value` line ending in CRLF, in storage
/// order.
pub open spec fn render_headers(hs: StrPairs) -> Seq<char>
    decreases hs.len(),
{
    if hs.len() == 0 {
        Seq::empty()
    } else {
        hs[0].0 + ": "@ + hs[0].1 + "\r\n"@ + render_headers(hs.drop_first())
    }
}

pub proof fn lemma_render_headers_push(hs: StrPairs, p: (Seq<char>, Seq<char>))
    ensures
        render_headers(hs.push(p)) == render_headers(hs) + p.0 + ": "@ + p.1 + "\r\n"@,
    decreases hs.len(),
{
    if hs.len() == 0 {
        let q = hs.push(p);
        assert(q[0] == p);
        assert(q.drop_first() =~= hs);
        assert(render_headers(q) == p.0 + ": "@ + p.1 + "\r\n"@ + render_headers(hs));
        assert(render_headers(hs) == Seq::<char>::empty());
        assert(p.0 + ": "@ + p.1 + "\r\n"@ + Seq::<char>::empty() =~= Seq::<char>::empty() + p.0
            + ": "@ + p.1 + "\r\n"@);
    } else {
        assert(hs.push(p).drop_first() =~= hs.drop_first().push(p));
        assert(hs.push(p)[0] == hs[0]);
        lemma_render_headers_push(hs.drop_first(), p);
        assert(hs[0].0 + ": "@ + hs[0].1 + "\r\n"@ + (render_headers(hs.drop_first()) + p.0
            + ": "@ + p.1 + "\r\n"@) =~= (hs[0].0 + ": "@ + hs[0].1 + "\r\n"@
            + render_headers(hs.drop_first())) + p.0 + ": "@ + p.1 + "\r\n"@);
    }
}

/// The full wire text of a response: status line, header lines, blank
/// line, body.
pub open spec fn render_response(m: ResponseModel) -> Seq<char> {
    "HTTP/1.1 "@ + dec_of(m.status) + " "@ + reason_of(m.status) + "\r\n"@ + render_headers(
        m.headers,
    ) + "\r\n"@ + m.body
}

/// A status line with no headers and no body, for rejected requests.
pub open spec fn status_line_of(status: int) -> Seq<char> {
    "HTTP/1.1 "@ + dec_of(status) + " "@ + reason_of(status) + "\r\n\r\n"@
}

/// The wire text of `resp`, exactly as [`render_response`] states it.
pub fn render_response_text(resp: &Response) -> (r: String)
    ensures
        r@ == render_response(resp@),
{
    let status = resp.status();
    let mut out = String::from_str("HTTP/1.1 ");
    let code = dec_string(status);
    out.append(code.as_str());
    out.append(" ");
    out.append(reason_phrase(status));
    out.append("\r\n");
    let ghost head = out@;
    let hs = resp.headers();
    let n = hs.len();
    let mut i: usize = 0;
    proof {
        assert(render_headers(hs@.take(0)) =~= Seq::<char>::empty());
        assert(head + Seq::<char>::empty() =~= head);
    }
    while i < n
        invariant
            i <= n,
            n == hs@.len(),
            out@ == head + render_headers(hs@.take(i as int)),
        decreases n - i,
    {
        out.append(hs.key_at(i).as_str());
        out.append(": ");
        out.append(hs.val_at(i).as_str());
        out.append("\r\n");
        proof {
            let p = hs@[i as int];
            assert(hs@.take(i + 1) =~= hs@.take(i as int).push(p));
            lemma_render_headers_push(hs@.take(i as int), p);
            assert(head + render_headers(hs@.take(i as int)) + p.0 + ": "@ + p.1 + "\r\n"@
                =~= head + render_headers(hs@.take(i + 1)));
        }
        i += 1;
    }
    out.append("\r\n");
    let body = resp.body();
    out.append(body.as_str());
    proof {
        assert(hs@.take(n as int) =~= hs@);
        assert(head + render_headers(hs@) + "\r\n"@ + resp@.body =~= render_response(resp@));
    }
    out
}

/// The wire text of a bare status line for `status`.
pub fn status_line(status: usize) -> (r: String)
    ensures
        r@ == status_line_of(status as int),
{
    let mut out = String::from_str("HTTP/1.1 ");
    let code = dec_string(status);
    out.append(code.as_str());
    out.append(" ");
    out.append(reason_phrase(status));
    out.append("\r\n\r\n");
    out
}

} // verus!
