//! The responses that static locations give.
use crate::buffer::push_bytes;
use crate::encoding::bytes_of;
use crate::headers;
use crate::number::{self, push_decimal};
use crate::written;
use vstd::prelude::*;
use vstd::utf8::*;

verus! {

/// The value of the `Connection` field.
pub open spec fn connection_text(keep_alive: bool) -> Seq<char> {
    if keep_alive {
        "keep-alive"@
    } else {
        "close"@
    }
}

/// The header fields of a response.
pub open spec fn response_fields(
    content_type: Option<Seq<char>>,
    content_length: nat,
    keep_alive: bool,
    extra: Seq<(Seq<char>, Seq<char>)>,
) -> Seq<(Seq<char>, Seq<char>)> {
    seq![("Content-Length"@, number::decimal(content_length))] + (match content_type {
        Some(t) => seq![("Content-Type"@, t)],
        None => seq![],
    }) + extra + seq![("Connection"@, connection_text(keep_alive))]
}

/// The head of a response.
pub open spec fn head_text(
    status: Seq<char>,
    content_type: Option<Seq<char>>,
    content_length: nat,
    keep_alive: bool,
    extra: Seq<(Seq<char>, Seq<char>)>,
) -> Seq<char> {
    written::head_text(
        "HTTP/1.1 "@ + status,
        response_fields(content_type, content_length, keep_alive, extra),
    ) + "\r\n"@
}

/// The bytes of a response.
pub open spec fn response_bytes(
    status: Seq<char>,
    content_type: Option<Seq<char>>,
    content_length: nat,
    keep_alive: bool,
    extra: Seq<(Seq<char>, Seq<char>)>,
    body: Option<Seq<u8>>,
) -> Seq<u8> {
    encode_utf8(head_text(status, content_type, content_length, keep_alive, extra)) + (match body {
        Some(b) => b,
        None => seq![],
    })
}

/// The views of pairs of strings.
pub open spec fn string_pairs(v: Seq<(String, String)>) -> Seq<(Seq<char>, Seq<char>)> {
    v.map_values(|p: (String, String)| (p.0@, p.1@))
}

/// The value of the `Connection` field.
pub fn connection_value(keep_alive: bool) -> (r: &'static str)
    ensures
        r@ == connection_text(keep_alive),
{
    if keep_alive {
        "keep-alive"
    } else {
        "close"
    }
}

/// The number of decimal digits of a number.
pub fn decimal_len(value: usize) -> (r: usize)
    ensures
        r == number::decimal(value as nat).len(),
{
    let mut rest: usize = value;
    let mut len: usize = 1;
    while rest >= 10
        invariant
            number::decimal(value as nat).len() == number::decimal(rest as nat).len() + len - 1,
            len + rest <= usize::MAX || len <= 1,
            1 <= len,
        decreases rest,
    {
        rest = rest / 10;
        len = len + 1;
    }
    len
}

/// Appends a status line.
fn write_status_line(out: &mut String, status: &str)
    ensures
        final(out)@ == old(out)@ + ("HTTP/1.1 "@ + status@ + "\r\n"@),
{
    let ghost start = out@;
    out.append("HTTP/1.1");
    out.push(' ');
    out.append(status);
    out.append("\r\n");
    proof {
        reveal_strlit("HTTP/1.1");
        reveal_strlit("HTTP/1.1 ");
        assert("HTTP/1.1"@.push(' ') =~= "HTTP/1.1 "@);
        assert(out@ =~= start + ("HTTP/1.1"@.push(' ') + status@ + "\r\n"@));
    }
}

/// Appends a header line.
fn write_header(
    out: &mut String,
    name: &str,
    value: &str,
    Ghost(front): Ghost<Seq<char>>,
    Ghost(fields): Ghost<Seq<(Seq<char>, Seq<char>)>>,
)
    requires
        old(out)@ == front + written::field_lines(fields),
    ensures
        final(out)@ == front + written::field_lines(fields.push((name@, value@))),
{
    let ghost start = out@;
    out.append(name);
    out.append(": ");
    out.append(value);
    out.append("\r\n");
    assert(fields.push((name@, value@)).drop_last() =~= fields);
    assert(out@ =~= start + written::field_line((name@, value@)));
    assert(out@ =~= front + written::field_lines(fields.push((name@, value@))));
}

/// Builds the head of a response.
fn build_head(
    status: &str,
    content_type: Option<&str>,
    content_length: usize,
    keep_alive: bool,
    extra: &Vec<(String, String)>,
) -> (r: String)
    ensures
        r@ == head_text(
            status@,
            content_type.deep_view(),
            content_length as nat,
            keep_alive,
            string_pairs(extra@),
        ),
{
    let mut out = String::new();
    write_status_line(&mut out, status);
    let ghost front = out@;
    let ghost mut done: Seq<(Seq<char>, Seq<char>)> = seq![];
    assert(front + written::field_lines(done) =~= front);
    let mut digits = String::new();
    push_decimal(&mut digits, content_length as u128);
    assert(digits@ =~= number::decimal(content_length as nat));
    write_header(&mut out, "Content-Length", digits.as_str(), Ghost(front), Ghost(done));
    proof {
        done = done.push(("Content-Length"@, digits@));
    }
    match content_type {
        Some(t) => {
            write_header(&mut out, "Content-Type", t, Ghost(front), Ghost(done));
            proof {
                done = done.push(("Content-Type"@, t@));
            }
        },
        None => {},
    }
    let ghost all = string_pairs(extra@);
    assert(done + all.take(0) =~= done);
    for i in 0..extra.len()
        invariant
            all == string_pairs(extra@),
            out@ == front + written::field_lines(done + all.take(i as int)),
    {
        write_header(
            &mut out,
            extra[i].0.as_str(),
            extra[i].1.as_str(),
            Ghost(front),
            Ghost(done + all.take(i as int)),
        );
        assert((done + all.take(i as int)).push(all[i as int]) =~= done + all.take(i + 1));
    }
    assert(all.take(extra@.len() as int) =~= all);
    write_header(
        &mut out,
        "Connection",
        connection_value(keep_alive),
        Ghost(front),
        Ghost(done + all),
    );
    out.append("\r\n");
    let ghost fields = response_fields(
        content_type.deep_view(),
        content_length as nat,
        keep_alive,
        all,
    );
    assert((done + all).push(("Connection"@, connection_text(keep_alive))) =~= fields);
    assert(out@ =~= written::head_text("HTTP/1.1 "@ + status@, fields) + "\r\n"@);
    out
}

/// A response says what it is: read again, its head has the fields that it was
/// built from, the length of the body first and the fate of the connection
/// last.
pub proof fn response_reads_back(
    status: Seq<char>,
    content_type: Option<Seq<char>>,
    content_length: nat,
    keep_alive: bool,
    extra: Seq<(Seq<char>, Seq<char>)>,
)
    requires
        !status.contains('\n'),
        content_type matches Some(t) ==> written::clean(t),
        written::all_clean(extra),
    ensures
        ({
            let fields = response_fields(content_type, content_length, keep_alive, extra);
            let head = written::head_text("HTTP/1.1 "@ + status, fields);
            &&& head_text(status, content_type, content_length, keep_alive, extra) == head
                + "\r\n"@
            &&& headers::header_fields(head) == fields
            &&& headers::start_line(head) == "HTTP/1.1 "@ + status
        }),
{
    let fields = response_fields(content_type, content_length, keep_alive, extra);
    let line = "HTTP/1.1 "@ + status;
    reveal_strlit("HTTP/1.1 ");
    reveal_strlit("Content-Length");
    reveal_strlit("Content-Type");
    reveal_strlit("Connection");
    reveal_strlit("keep-alive");
    reveal_strlit("close");
    let digits = number::decimal(content_length);
    number::lemma_digits_plain(content_length);
    assert(!digits.contains('\n'));
    assert(written::clean_field(("Content-Length"@, digits)));
    assert(written::clean_field(("Connection"@, connection_text(keep_alive))));
    assert(!line.contains('\n')) by {
        assert forall|k: int| 0 <= k < line.len() implies line[k] != '\n' by {
            if k >= 9 {
                assert(line[k] == status[k - 9]);
                assert(status.contains(status[k - 9]));
            }
        }
    }
    let front: int = if content_type is Some {
        2
    } else {
        1
    };
    assert forall|i: int| 0 <= i < fields.len() implies written::clean_field(
        #[trigger] fields[i],
    ) by {
        if i >= front && i < front + extra.len() {
            assert(fields[i] == extra[i - front]);
        } else if i == 1 && content_type is Some {
            assert(written::clean_field(("Content-Type"@, content_type->0)));
        }
    }
    written::written_head_reads_back(line, fields);
}

/// Builds responses.
pub struct ResponseBuilder;

impl ResponseBuilder {
    /// Builds a response with further header fields.
    pub fn build_with_headers(
        status: &str,
        content_type: Option<&str>,
        content_length: usize,
        keep_alive: bool,
        extra_headers: &Vec<(String, String)>,
        body: Option<&[u8]>,
    ) -> (r: Vec<u8>)
        ensures
            r@ == response_bytes(
                status@,
                content_type.deep_view(),
                content_length as nat,
                keep_alive,
                string_pairs(extra_headers@),
                match body {
                    Some(b) => Some(b@),
                    None => None,
                },
            ),
    {
        let head = build_head(status, content_type, content_length, keep_alive, extra_headers);
        let mut out = bytes_of(head.as_str());
        match body {
            Some(b) => push_bytes(&mut out, b),
            None => {
                assert(out@ + Seq::<u8>::empty() =~= out@);
            },
        }
        out
    }

    /// Builds a response with a body.
    pub fn build(status: &str, content_type: Option<&str>, body: &[u8], keep_alive: bool) -> (r: Vec<
        u8,
    >)
        ensures
            r@ == response_bytes(
                status@,
                content_type.deep_view(),
                body@.len(),
                keep_alive,
                seq![],
                Some(body@),
            ),
    {
        let none: Vec<(String, String)> = Vec::new();
        assert(string_pairs(none@) =~= seq![]);
        Self::build_with_headers(status, content_type, body.len(), keep_alive, &none, Some(body))
    }

    /// Builds a response without a body.
    pub fn build_empty(status: &str, keep_alive: bool, extra_headers: &Vec<(String, String)>) -> (r:
        Vec<u8>)
        ensures
            r@ == response_bytes(status@, None, 0, keep_alive, string_pairs(extra_headers@), None),
    {
        Self::build_with_headers(status, None, 0, keep_alive, extra_headers, None)
    }

    /// Builds a plain-text response.
    pub fn plain_text(status: &str, body: &str, keep_alive: bool) -> (r: Vec<u8>)
        ensures
            r@ == plain_response(status@, body@, keep_alive),
    {
        Self::build(status, Some("text/plain; charset=utf-8"), body.as_bytes(), keep_alive)
    }

    /// Builds the response for a file that is not there.
    pub fn not_found(keep_alive: bool) -> (r: Vec<u8>)
        ensures
            r@ == plain_response("404 Not Found"@, "404 Not Found"@, keep_alive),
    {
        Self::plain_text("404 Not Found", "404 Not Found", keep_alive)
    }

    /// Builds the response for a file that cannot be read.
    pub fn internal_error(keep_alive: bool) -> (r: Vec<u8>)
        ensures
            r@ == plain_response(
                "500 Internal Server Error"@,
                "500 Internal Server Error"@,
                keep_alive,
            ),
    {
        Self::plain_text("500 Internal Server Error", "500 Internal Server Error", keep_alive)
    }
}

/// The bytes of a plain-text response.
pub open spec fn plain_response(status: Seq<char>, body: Seq<char>, keep_alive: bool) -> Seq<u8> {
    response_bytes(
        status,
        Some("text/plain; charset=utf-8"@),
        encode_utf8(body).len(),
        keep_alive,
        seq![],
        Some(encode_utf8(body)),
    )
}

/// A response is a status line, header lines, an empty line and the body. It tells
/// the length and the type first and whether the connection stays open last; the
/// other fields stand between them in their order.
pub proof fn response_is_well_formed(
    status: Seq<char>,
    content_type: Seq<char>,
    length: nat,
    keep_alive: bool,
    extra: Seq<(Seq<char>, Seq<char>)>,
    body: Seq<u8>,
)
    ensures
        ({
            let line = "HTTP/1.1 "@ + status;
            let first = seq![("Content-Length"@, number::decimal(length))];
            let last = seq![("Connection"@, if keep_alive {
                "keep-alive"@
            } else {
                "close"@
            })];
            let typed = encode_utf8(
                written::head_text(
                    line,
                    first + seq![("Content-Type"@, content_type)] + extra + last,
                ) + "\r\n"@,
            );
            let untyped = encode_utf8(written::head_text(line, first + extra + last) + "\r\n"@);
            &&& response_bytes(status, Some(content_type), length, keep_alive, extra, Some(body))
                == typed + body
            &&& response_bytes(status, Some(content_type), length, keep_alive, extra, None) == typed
            &&& response_bytes(status, None, length, keep_alive, extra, None) == untyped
        }),
{
    let first = seq![("Content-Length"@, number::decimal(length))];
    let none = Seq::<(Seq<char>, Seq<char>)>::empty();
    assert(first + none =~= first);
    let e = Seq::<u8>::empty();
    let t = encode_utf8(head_text(status, Some(content_type), length, keep_alive, extra));
    let u = encode_utf8(head_text(status, None, length, keep_alive, extra));
    assert(t + e =~= t);
    assert(u + e =~= u);
}

/// A plain response tells the length of its text.
pub proof fn plain_response_is_well_formed(status: Seq<char>, body: Seq<char>, keep_alive: bool)
    ensures
        plain_response(status, body, keep_alive) == response_bytes(
            status,
            Some("text/plain; charset=utf-8"@),
            encode_utf8(body).len(),
            keep_alive,
            seq![],
            Some(encode_utf8(body)),
        ),
{
}

} // verus!
