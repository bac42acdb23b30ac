//! The responses the server sends: the fixed replies, and `200 OK` responses framed with
//! their content type and length.
use vstd::prelude::*;
use vstd::string::StringSliceAdditionalSpecFns;

verus! {

/// The reply to a counted hit on a connection that stays open.
pub const HIT_RESPONSE: &'static str = "HTTP/1.1 200 OK\r\nContent-Type: text/plain; charset=utf-8\r\nContent-Length: 3\r\nConnection: keep-alive\r\n\r\nOK\n";

/// The reply to a counted hit after which the connection is closed.
pub const HIT_CLOSE_RESPONSE: &'static str = "HTTP/1.1 200 OK\r\nContent-Type: text/plain; charset=utf-8\r\nContent-Length: 3\r\nConnection: close\r\n\r\nOK\n";

/// The reply to a request line without a path.
pub const BAD_REQUEST_RESPONSE: &'static str = "HTTP/1.1 400 Bad Request\r\nContent-Type: text/plain; charset=utf-8\r\nContent-Length: 12\r\nConnection: close\r\n\r\nBad Request\n";

/// The content type of the metrics document.
pub const JSON_CONTENT_TYPE: &'static str = "application/json";

/// The decimal digits of `n`, most significant first, with no leading zero.
pub open spec fn decimal(n: nat) -> Seq<u8>
    decreases n,
{
    if n < 10 {
        seq![(48 + n) as u8]
    } else {
        decimal(n / 10).push((48 + n % 10) as u8)
    }
}

/// The number that a string of decimal digits stands for.
pub open spec fn decimal_value(s: Seq<u8>) -> int
    decreases s.len(),
{
    if s.len() == 0 {
        0
    } else {
        decimal_value(s.drop_last()) * 10 + (s.last() - 48)
    }
}

pub open spec fn is_digit(b: u8) -> bool {
    48 <= b <= 57
}

/// The head of a `200 OK` response up to its content type.
pub open spec fn head_start() -> Seq<u8> {
    "HTTP/1.1 200 OK\r\nContent-Type: ".spec_bytes()
}

/// The text between the content type and the length.
pub open spec fn head_length() -> Seq<u8> {
    "\r\nContent-Length: ".spec_bytes()
}

/// The rest of the head after the length, through the blank line.
pub open spec fn head_end_lines() -> Seq<u8> {
    "\r\nCache-Control: no-store\r\nConnection: keep-alive\r\n\r\n".spec_bytes()
}

/// A `200 OK` response of content type `content_type` whose body is `body`, with the body's
/// length in its `Content-Length` header.
pub open spec fn ok_response(content_type: Seq<u8>, body: Seq<u8>) -> Seq<u8> {
    head_start() + content_type + head_length() + decimal(body.len()) + head_end_lines() + body
}

/// The digits of a number are digits, and read back as that number.
pub proof fn lemma_decimal_roundtrip(n: nat)
    ensures
        decimal_value(decimal(n)) == n,
        decimal(n).len() >= 1,
        forall|i: int| 0 <= i < decimal(n).len() ==> is_digit(#[trigger] decimal(n)[i]),
    decreases n,
{
    if n >= 10 {
        lemma_decimal_roundtrip(n / 10);
        let d = decimal(n);
        assert(d.drop_last() =~= decimal(n / 10));
        assert(d.last() == (48 + n % 10) as u8);
        vstd::arithmetic::div_mod::lemma_fundamental_div_mod(n as int, 10);
        assert forall|i: int| 0 <= i < d.len() implies is_digit(#[trigger] d[i]) by {
            if i < d.len() - 1 {
                assert(d[i] == decimal(n / 10)[i]);
            }
        }
    } else {
        assert(decimal(n).drop_last() =~= Seq::<u8>::empty());
        assert(decimal_value(Seq::<u8>::empty()) == 0);
    }
}

/// The `Content-Length` field of a `200 OK` response reads back as the length of its body: the
/// field is a run of digits, ended by the line break that follows it, whose value is the
/// body's length.
pub proof fn law_content_length(content_type: Seq<u8>, body: Seq<u8>)
    ensures
        exists|d: Seq<u8>|
            #![trigger decimal_value(d)]
            {
                &&& ok_response(content_type, body) == head_start() + content_type + head_length() + d
                    + head_end_lines() + body
                &&& d.len() >= 1
                &&& forall|i: int| 0 <= i < d.len() ==> is_digit(#[trigger] d[i])
                &&& decimal_value(d) == body.len()
            },
        !is_digit(head_end_lines()[0]),
{
    lemma_decimal_roundtrip(body.len());
    let d = decimal(body.len());
    assert(decimal_value(d) == body.len());
    reveal_strlit("\r\nCache-Control: no-store\r\nConnection: keep-alive\r\n\r\n");
    vstd::string::is_ascii_spec_bytes("\r\nCache-Control: no-store\r\nConnection: keep-alive\r\n\r\n");
    assert(head_end_lines()[0] == 13u8);
}

/// Appends the decimal digits of `n` to `out`.
pub fn push_decimal(out: &mut Vec<u8>, n: usize)
    ensures
        final(out)@ == old(out)@ + decimal(n as nat),
    decreases n,
{
    if n >= 10 {
        push_decimal(out, n / 10);
    }
    let digit: u8 = (n % 10) as u8;
    out.push(48u8 + digit);
    proof {
        if n >= 10 {
            assert(decimal(n as nat) == decimal((n / 10) as nat).push((48 + n % 10) as u8));
        }
    }
    assert(final(out)@ =~= old(out)@ + decimal(n as nat));
}

/// A `200 OK` response that serves `body` as `content_type`.
pub fn make_response(content_type: &str, body: &[u8]) -> (r: Vec<u8>)
    ensures
        r@ == ok_response(content_type.spec_bytes(), body@),
{
    let mut response: Vec<u8> = Vec::new();
    response.extend_from_slice("HTTP/1.1 200 OK\r\nContent-Type: ".as_bytes());
    response.extend_from_slice(content_type.as_bytes());
    response.extend_from_slice("\r\nContent-Length: ".as_bytes());
    push_decimal(&mut response, body.len());
    response.extend_from_slice("\r\nCache-Control: no-store\r\nConnection: keep-alive\r\n\r\n".as_bytes());
    response.extend_from_slice(body);
    assert(response@ =~= ok_response(content_type.spec_bytes(), body@));
    response
}

/// The dashboard's files, each held as a complete response.
pub struct Assets {
    pub index: Vec<u8>,
    pub js: Vec<u8>,
    pub css: Vec<u8>,
}

/// Frames the dashboard page, its script and its style sheet as responses.
pub fn load_assets(index_html: &[u8], app_js: &[u8], styles_css: &[u8]) -> (r: Assets)
    ensures
        r.index@ == ok_response("text/html; charset=utf-8".spec_bytes(), index_html@),
        r.js@ == ok_response("application/javascript; charset=utf-8".spec_bytes(), app_js@),
        r.css@ == ok_response("text/css; charset=utf-8".spec_bytes(), styles_css@),
{
    Assets {
        index: make_response("text/html; charset=utf-8", index_html),
        js: make_response("application/javascript; charset=utf-8", app_js),
        css: make_response("text/css; charset=utf-8", styles_css),
    }
}

} // verus!
