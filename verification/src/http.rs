//! The compute side of a minimal HTTP responder: choosing which page a
//! request line gets, and assembling the raw response around a body.

use vstd::prelude::*;
use vstd::string::StrSliceExecFns;
use vstd::string::StringExecFns;
use vstd::string::StringSliceAdditionalSpecFns;

use crate::text::push_char;
use crate::text::str_eq;

verus! {

/// The decimal digit character for `d`.
pub open spec fn digit_char_of(d: nat) -> char {
    if d == 0 {
        '0'
    } else if d == 1 {
        '1'
    } else if d == 2 {
        '2'
    } else if d == 3 {
        '3'
    } else if d == 4 {
        '4'
    } else if d == 5 {
        '5'
    } else if d == 6 {
        '6'
    } else if d == 7 {
        '7'
    } else if d == 8 {
        '8'
    } else {
        '9'
    }
}

/// The decimal numeral of `n`, most significant digit first, no sign and no
/// leading zero except for zero itself.
pub open spec fn spec_dec(n: nat) -> Seq<char>
    decreases n,
{
    if n < 10 {
        seq![digit_char_of(n)]
    } else {
        spec_dec(n / 10).push(digit_char_of(n % 10))
    }
}

/// The character for one digit.
fn digit_char(d: usize) -> (c: char)
    requires
        d < 10,
    ensures
        c == digit_char_of(d as nat),
{
    if d == 0 {
        '0'
    } else if d == 1 {
        '1'
    } else if d == 2 {
        '2'
    } else if d == 3 {
        '3'
    } else if d == 4 {
        '4'
    } else if d == 5 {
        '5'
    } else if d == 6 {
        '6'
    } else if d == 7 {
        '7'
    } else if d == 8 {
        '8'
    } else {
        '9'
    }
}

/// Writes `n` in decimal.
pub fn dec_string(n: usize) -> (r: String)
    ensures
        r@ == spec_dec(n as nat),
    decreases n,
{
    if n < 10 {
        let mut s = String::new();
        push_char(&mut s, digit_char(n));
        proof {
            assert(s@ =~= seq![digit_char_of(n as nat)]);
        }
        s
    } else {
        let mut s = dec_string(n / 10);
        push_char(&mut s, digit_char(n % 10));
        s
    }
}

/// Picks the page and the status line for one request line: the root
/// request gets the greeting page, anything else the not-found page.
pub fn route(request: &str) -> (r: (String, String))
    ensures
        request@ == "GET / HTTP/1.1"@ ==> r.0@ == "hello.html"@ && r.1@ == "200 OK"@,
        request@ != "GET / HTTP/1.1"@ ==> r.0@ == "404.html"@ && r.1@ == "404 NOT FOUND"@,
{
    if str_eq(request, "GET / HTTP/1.1") {
        (String::from_str("hello.html"), String::from_str("200 OK"))
    } else {
        (String::from_str("404.html"), String::from_str("404 NOT FOUND"))
    }
}

/// Assembles the raw response: the protocol tag, the status, a
/// `Content-Length` header carrying the byte length of the body, a blank
/// line, and the body.
pub fn build_response(status: &str, content: &str) -> (r: String)
    ensures
        r@ == "HTTP/1.1"@ + status@ + "\r\nContent-Length: "@ + spec_dec(
            (content.spec_bytes().len() as usize) as nat,
        ) + "\r\n\r\n"@ + content@,
{
    let mut r = String::from_str("HTTP/1.1");
    r.append(status);
    r.append("\r\nContent-Length: ");
    let d = dec_string(content.len());
    r.append(d.as_str());
    r.append("\r\n\r\n");
    r.append(content);
    proof {
        assert(r@ =~= "HTTP/1.1"@ + status@ + "\r\nContent-Length: "@ + spec_dec(
            (content.spec_bytes().len() as usize) as nat,
        ) + "\r\n\r\n"@ + content@);
    }
    r
}

} // verus!
