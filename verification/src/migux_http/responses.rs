//! The short responses that the server answers with on its own behalf.
//!
//! Every one of them closes the connection and carries the length of its
//! body.
use crate::buffer::push_bytes;
use crate::encoding::bytes_of;
use crate::number;
use crate::number::push_decimal;
use crate::written;
use vstd::prelude::*;
use vstd::utf8::*;

verus! {

/// The head of a response with a body of the given length.
pub open spec fn response_head(status: Seq<char>, content_type: Seq<char>, len: nat) -> Seq<char> {
    "HTTP/1.1 "@ + status + "\r\nServer: migux/0.1.0\r\nContent-Type: "@ + content_type
        + "\r\nContent-Length: "@ + number::decimal(len) + "\r\nConnection: close\r\n\r\n"@
}

/// The bytes of a response.
pub open spec fn response(status: Seq<char>, content_type: Seq<char>, body: Seq<u8>) -> Seq<u8> {
    encode_utf8(response_head(status, content_type, body.len())) + body
}

/// Builds a response with a body.
pub fn build_response(status: &str, content_type: &str, body: &[u8]) -> (r: Vec<u8>)
    ensures
        r@ == response(status@, content_type@, body@),
{
    let mut head = String::new();
    head.append("HTTP/1.1 ");
    head.append(status);
    head.append("\r\nServer: migux/0.1.0\r\nContent-Type: ");
    head.append(content_type);
    head.append("\r\nContent-Length: ");
    push_decimal(&mut head, body.len() as u128);
    head.append("\r\nConnection: close\r\n\r\n");
    assert(head@ =~= response_head(status@, content_type@, body@.len()));
    let mut out = bytes_of(head.as_str());
    push_bytes(&mut out, body);
    out
}

/// The bytes of a plain-text response.
pub open spec fn text_response(status: Seq<char>, body: Seq<char>) -> Seq<u8> {
    response(status, "text/plain; charset=utf-8"@, encode_utf8(body))
}

/// Builds a plain-text response.
pub fn build_text_response(status: &str, body: &str) -> (r: Vec<u8>)
    ensures
        r@ == text_response(status@, body@),
{
    build_response(status, "text/plain; charset=utf-8", body.as_bytes())
}

/// A response that says why a request was not served.
#[derive(Clone, Copy, Debug, PartialEq, Eq, Structural)]
pub enum Refusal {
    /// 400
    BadRequest,
    /// 404
    NotFound,
    /// 405
    MethodNotAllowed,
    /// 408
    RequestTimeout,
    /// 413
    PayloadTooLarge,
    /// 431
    HeadersTooLarge,
    /// 500
    InternalError,
    /// 501
    NotImplemented,
    /// 502
    BadGateway,
}

/// The status line text of a refusal.
pub open spec fn refusal_status(k: Refusal) -> Seq<char> {
    match k {
        Refusal::BadRequest => "400 Bad Request"@,
        Refusal::NotFound => "404 Not Found"@,
        Refusal::MethodNotAllowed => "405 Method Not Allowed"@,
        Refusal::RequestTimeout => "408 Request Timeout"@,
        Refusal::PayloadTooLarge => "413 Payload Too Large"@,
        Refusal::HeadersTooLarge => "431 Request Header Fields Too Large"@,
        Refusal::InternalError => "500 Internal Server Error"@,
        Refusal::NotImplemented => "501 Not Implemented"@,
        Refusal::BadGateway => "502 Bad Gateway"@,
    }
}

/// The body of a refusal.
pub open spec fn refusal_body(k: Refusal) -> Seq<char> {
    match k {
        Refusal::BadRequest => "400 Bad Request\n"@,
        Refusal::NotFound => "404 Not Found\n"@,
        Refusal::MethodNotAllowed => "405 Method Not Allowed\n"@,
        Refusal::RequestTimeout => "408 Request Timeout\n"@,
        Refusal::PayloadTooLarge => "413 Payload Too Large\n"@,
        Refusal::HeadersTooLarge => "431 Request Header Fields Too Large\n"@,
        Refusal::InternalError => "Internal Server Error\n"@,
        Refusal::NotImplemented => "501 Not Implemented (proxy TODO)\n"@,
        Refusal::BadGateway => "502 Bad Gateway\n"@,
    }
}

/// The bytes of a refusal.
pub open spec fn refusal_response(k: Refusal) -> Seq<u8> {
    text_response(refusal_status(k), refusal_body(k))
}

/// Builds the response for a refusal.
pub fn build_refusal(k: Refusal) -> (r: Vec<u8>)
    ensures
        r@ == refusal_response(k),
{
    match k {
        Refusal::BadRequest => build_text_response("400 Bad Request", "400 Bad Request\n"),
        Refusal::NotFound => build_text_response("404 Not Found", "404 Not Found\n"),
        Refusal::MethodNotAllowed => build_text_response(
            "405 Method Not Allowed",
            "405 Method Not Allowed\n",
        ),
        Refusal::RequestTimeout => build_text_response(
            "408 Request Timeout",
            "408 Request Timeout\n",
        ),
        Refusal::PayloadTooLarge => build_text_response(
            "413 Payload Too Large",
            "413 Payload Too Large\n",
        ),
        Refusal::HeadersTooLarge => build_text_response(
            "431 Request Header Fields Too Large",
            "431 Request Header Fields Too Large\n",
        ),
        Refusal::InternalError => build_text_response(
            "500 Internal Server Error",
            "Internal Server Error\n",
        ),
        Refusal::NotImplemented => build_text_response(
            "501 Not Implemented",
            "501 Not Implemented (proxy TODO)\n",
        ),
        Refusal::BadGateway => build_text_response("502 Bad Gateway", "502 Bad Gateway\n"),
    }
}

/// The text of a response that refuses a method and names the allowed ones.
pub open spec fn not_allowed_head(allow: Seq<char>) -> Seq<char> {
    "HTTP/1.1 405 Method Not Allowed\r\nServer: migux/0.1.0\r\nAllow: "@ + allow
        + "\r\nContent-Type: text/plain; charset=utf-8\r\nContent-Length: 23\r\nConnection: close\r\n\r\n405 Method Not Allowed\n"@
}

/// Builds a response that refuses a method and names the allowed ones.
pub fn build_405_with_allow(allow: &str) -> (r: Vec<u8>)
    ensures
        r@ == encode_utf8(not_allowed_head(allow@)),
{
    let mut out = String::new();
    out.append("HTTP/1.1 405 Method Not Allowed\r\nServer: migux/0.1.0\r\nAllow: ");
    out.append(allow);
    out.append(
        "\r\nContent-Type: text/plain; charset=utf-8\r\nContent-Length: 23\r\nConnection: close\r\n\r\n405 Method Not Allowed\n",
    );
    assert(out@ =~= not_allowed_head(allow@));
    bytes_of(out.as_str())
}

/// The text of a permanent redirect.
pub open spec fn redirect_text(location: Seq<char>) -> Seq<char> {
    "HTTP/1.1 301 Moved Permanently\r\nServer: migux/0.1.0\r\nLocation: "@ + location
        + "\r\nContent-Length: 0\r\nConnection: close\r\n\r\n"@
}

/// Builds a permanent redirect.
pub fn build_redirect(location: &str) -> (r: Vec<u8>)
    ensures
        r@ == encode_utf8(redirect_text(location@)),
{
    let mut out = String::new();
    out.append("HTTP/1.1 301 Moved Permanently\r\nServer: migux/0.1.0\r\nLocation: ");
    out.append(location);
    out.append("\r\nContent-Length: 0\r\nConnection: close\r\n\r\n");
    assert(out@ =~= redirect_text(location@));
    bytes_of(out.as_str())
}

// ---------------------------------------------------------------------------
// What clients read
// ---------------------------------------------------------------------------

proof fn lemma_lines4(
    a: (Seq<char>, Seq<char>),
    b: (Seq<char>, Seq<char>),
    c: (Seq<char>, Seq<char>),
    d: (Seq<char>, Seq<char>),
)
    ensures
        written::field_lines(seq![a, b, c, d]) == written::field_line(a) + written::field_line(b)
            + written::field_line(c) + written::field_line(d),
{
    let all = seq![a, b, c, d];
    assert(all.drop_last() =~= seq![a, b, c]);
    assert(seq![a, b, c].drop_last() =~= seq![a, b]);
    assert(seq![a, b].drop_last() =~= seq![a]);
    assert(seq![a].drop_last() =~= seq![]);
    assert(written::field_lines(seq![]) =~= seq![]);
    assert(written::field_lines(seq![a]) =~= written::field_line(a));
    assert(written::field_lines(seq![a, b]) =~= written::field_line(a) + written::field_line(b));
    assert(written::field_lines(seq![a, b, c]) =~= written::field_line(a) + written::field_line(b)
        + written::field_line(c));
}

/// A response is a status line, four header lines, an empty line and the body; it
/// tells the length of the body and that the connection closes.
pub proof fn response_is_well_formed(status: Seq<char>, content_type: Seq<char>, body: Seq<u8>)
    ensures
        response(status, content_type, body) == encode_utf8(
            written::head_text(
                "HTTP/1.1 "@ + status,
                seq![
                    ("Server"@, "migux/0.1.0"@),
                    ("Content-Type"@, content_type),
                    ("Content-Length"@, number::decimal(body.len())),
                    ("Connection"@, "close"@),
                ],
            ) + "\r\n"@,
        ) + body,
{
    let len = number::decimal(body.len());
    lemma_lines4(
        ("Server"@, "migux/0.1.0"@),
        ("Content-Type"@, content_type),
        ("Content-Length"@, len),
        ("Connection"@, "close"@),
    );
    reveal_strlit("\r\nServer: migux/0.1.0\r\nContent-Type: ");
    reveal_strlit("\r\nContent-Length: ");
    reveal_strlit("\r\nConnection: close\r\n\r\n");
    reveal_strlit("\r\n");
    reveal_strlit(": ");
    reveal_strlit("Server");
    reveal_strlit("migux/0.1.0");
    reveal_strlit("Content-Type");
    reveal_strlit("Content-Length");
    reveal_strlit("Connection");
    reveal_strlit("close");
    assert("\r\nServer: migux/0.1.0\r\nContent-Type: "@ =~= "\r\n"@ + "Server"@ + ": "@
        + "migux/0.1.0"@ + "\r\n"@ + "Content-Type"@ + ": "@);
    assert("\r\nContent-Length: "@ =~= "\r\n"@ + "Content-Length"@ + ": "@);
    assert("\r\nConnection: close\r\n\r\n"@ =~= "\r\n"@ + "Connection"@ + ": "@ + "close"@ + "\r\n"@
        + "\r\n"@);
    assert(response_head(status, content_type, body.len()) =~= written::head_text(
        "HTTP/1.1 "@ + status,
        seq![
            ("Server"@, "migux/0.1.0"@),
            ("Content-Type"@, content_type),
            ("Content-Length"@, len),
            ("Connection"@, "close"@),
        ],
    ) + "\r\n"@);
}

/// The number of a refusal.
pub open spec fn code_of(k: Refusal) -> nat {
    match k {
        Refusal::BadRequest => 400,
        Refusal::NotFound => 404,
        Refusal::MethodNotAllowed => 405,
        Refusal::RequestTimeout => 408,
        Refusal::PayloadTooLarge => 413,
        Refusal::HeadersTooLarge => 431,
        Refusal::InternalError => 500,
        Refusal::NotImplemented => 501,
        Refusal::BadGateway => 502,
    }
}

/// A refusal tells its number, in the status and as plain text.
pub proof fn refusal_tells_its_number(k: Refusal)
    ensures
        refusal_status(k).take(4) == number::decimal(code_of(k)) + seq![' '],
        refusal_response(k) == response(
            refusal_status(k),
            "text/plain; charset=utf-8"@,
            encode_utf8(refusal_body(k)),
        ),
        k != Refusal::InternalError && k != Refusal::NotImplemented ==> refusal_body(k)
            == refusal_status(k) + seq!['\n'],
        k == Refusal::InternalError ==> refusal_body(k) == refusal_status(k).skip(4) + seq!['\n'],
        k == Refusal::NotImplemented ==> refusal_body(k).take(19) == refusal_status(k),
{
    let n = code_of(k);
    assert(number::decimal(n) =~= seq![
        number::digit_char(n / 100),
        number::digit_char(n / 10 % 10),
        number::digit_char(n % 10),
    ]) by {
        assert(100 <= n < 1000);
        let (a, b) = (n / 10, n / 100);
        assert(a / 10 == b && 1 <= b < 10 && 10 <= a < 100);
        assert(number::decimal(b) =~= seq![number::digit_char(b)]);
        assert(number::decimal(a) =~= number::decimal(b).push(number::digit_char(a % 10)));
        assert(number::decimal(n) =~= number::decimal(a).push(number::digit_char(n % 10)));
    }
    match k {
        Refusal::BadRequest => {
            reveal_strlit("400 Bad Request");
            reveal_strlit("400 Bad Request\n");
        },
        Refusal::NotFound => {
            reveal_strlit("404 Not Found");
            reveal_strlit("404 Not Found\n");
        },
        Refusal::MethodNotAllowed => {
            reveal_strlit("405 Method Not Allowed");
            reveal_strlit("405 Method Not Allowed\n");
        },
        Refusal::RequestTimeout => {
            reveal_strlit("408 Request Timeout");
            reveal_strlit("408 Request Timeout\n");
        },
        Refusal::PayloadTooLarge => {
            reveal_strlit("413 Payload Too Large");
            reveal_strlit("413 Payload Too Large\n");
        },
        Refusal::HeadersTooLarge => {
            reveal_strlit("431 Request Header Fields Too Large");
            reveal_strlit("431 Request Header Fields Too Large\n");
        },
        Refusal::InternalError => {
            reveal_strlit("500 Internal Server Error");
            reveal_strlit("Internal Server Error\n");
        },
        Refusal::NotImplemented => {
            reveal_strlit("501 Not Implemented");
            reveal_strlit("501 Not Implemented (proxy TODO)\n");
        },
        Refusal::BadGateway => {
            reveal_strlit("502 Bad Gateway");
            reveal_strlit("502 Bad Gateway\n");
        },
    }
    assert(refusal_status(k).take(4) =~= number::decimal(n) + seq![' ']);
    if k == Refusal::InternalError {
        assert(refusal_body(k) =~= refusal_status(k).skip(4) + seq!['\n']);
    } else if k == Refusal::NotImplemented {
        assert(refusal_body(k).take(19) =~= refusal_status(k));
    } else {
        assert(refusal_body(k) =~= refusal_status(k) + seq!['\n']);
    }
}

/// A redirect names the place it leads to and has no body; the answer to a method
/// that is not allowed names those that are, as the refusal does otherwise.
pub proof fn redirect_is_well_formed(location: Seq<char>, allow: Seq<char>)
    ensures
        redirect_text(location) == written::head_text(
            "HTTP/1.1 301 Moved Permanently"@,
            seq![
                ("Server"@, "migux/0.1.0"@),
                ("Location"@, location),
                ("Content-Length"@, "0"@),
                ("Connection"@, "close"@),
            ],
        ) + "\r\n"@,
        ({
            let front = "HTTP/1.1 405 Method Not Allowed\r\nServer: migux/0.1.0\r\nAllow: "@ + allow
                + "\r\n"@;
            &&& not_allowed_head(allow).take(front.len() as int) == front
            &&& not_allowed_head(allow).skip(front.len() as int) == written::field_lines(
                seq![
                    ("Content-Type"@, "text/plain; charset=utf-8"@),
                    ("Content-Length"@, "23"@),
                    ("Connection"@, "close"@),
                ],
            ) + "\r\n"@ + "405 Method Not Allowed\n"@
        }),
        "405 Method Not Allowed\n"@.len() == 23,
{
    lemma_lines4(
        ("Server"@, "migux/0.1.0"@),
        ("Location"@, location),
        ("Content-Length"@, "0"@),
        ("Connection"@, "close"@),
    );
    reveal_strlit("HTTP/1.1 301 Moved Permanently\r\nServer: migux/0.1.0\r\nLocation: ");
    reveal_strlit("HTTP/1.1 301 Moved Permanently");
    reveal_strlit("\r\nContent-Length: 0\r\nConnection: close\r\n\r\n");
    reveal_strlit("\r\n");
    reveal_strlit(": ");
    reveal_strlit("0");
    reveal_strlit("23");
    reveal_strlit("Server");
    reveal_strlit("migux/0.1.0");
    reveal_strlit("Location");
    reveal_strlit("Content-Type");
    reveal_strlit("text/plain; charset=utf-8");
    reveal_strlit("Content-Length");
    reveal_strlit("Connection");
    reveal_strlit("close");
    assert("HTTP/1.1 301 Moved Permanently\r\nServer: migux/0.1.0\r\nLocation: "@
        =~= "HTTP/1.1 301 Moved Permanently"@ + "\r\n"@ + "Server"@ + ": "@ + "migux/0.1.0"@ + "\r\n"@
        + "Location"@ + ": "@);
    assert("\r\nContent-Length: 0\r\nConnection: close\r\n\r\n"@ =~= "\r\n"@ + "Content-Length"@
        + ": "@ + "0"@ + "\r\n"@ + "Connection"@ + ": "@ + "close"@ + "\r\n"@ + "\r\n"@);
    assert(redirect_text(location) =~= written::head_text(
        "HTTP/1.1 301 Moved Permanently"@,
        seq![
            ("Server"@, "migux/0.1.0"@),
            ("Location"@, location),
            ("Content-Length"@, "0"@),
            ("Connection"@, "close"@),
        ],
    ) + "\r\n"@);
    let end =
        "\r\nContent-Type: text/plain; charset=utf-8\r\nContent-Length: 23\r\nConnection: close\r\n\r\n405 Method Not Allowed\n"@;
    reveal_strlit("\r\nContent-Type: text/plain; charset=utf-8\r\nContent-Length: 23\r\nConnection: close\r\n\r\n405 Method Not Allowed\n");
    reveal_strlit("405 Method Not Allowed\n");
    let fs = seq![
        ("Content-Type"@, "text/plain; charset=utf-8"@),
        ("Content-Length"@, "23"@),
        ("Connection"@, "close"@),
    ];
    assert(fs.drop_last() =~= seq![fs[0], fs[1]]);
    assert(seq![fs[0], fs[1]].drop_last() =~= seq![fs[0]]);
    assert(seq![fs[0]].drop_last() =~= seq![]);
    assert(written::field_lines(seq![]) =~= seq![]);
    assert(written::field_lines(seq![fs[0]]) =~= written::field_line(fs[0]));
    assert(written::field_lines(seq![fs[0], fs[1]]) =~= written::field_line(fs[0])
        + written::field_line(fs[1]));
    let front = "HTTP/1.1 405 Method Not Allowed\r\nServer: migux/0.1.0\r\nAllow: "@ + allow;
    assert(end =~= "\r\n"@ + (written::field_lines(fs) + "\r\n"@ + "405 Method Not Allowed\n"@));
    let whole = not_allowed_head(allow);
    assert(whole.take(front.len() as int + 2) =~= front + "\r\n"@);
    assert(whole.skip(front.len() as int + 2) =~= written::field_lines(fs) + "\r\n"@
        + "405 Method Not Allowed\n"@);
}

} // verus!
