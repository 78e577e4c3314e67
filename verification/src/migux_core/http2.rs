//! HTTP/2 requests served as HTTP/1 ones: the request as the HTTP/1 pipeline
//! reads it, and the HTTP/1 response as it goes back.
use crate::buffer::{copy_bytes, push_bytes};
use crate::chunked::{self, decode_chunked, ChunkError};
use crate::encoding::{self, bytes_of, lossy, strict};
use crate::headers;
use crate::migux_core::request;
use crate::number::{self, parse_usize, push_decimal};
use crate::text::{
    self, chars_of, copy_str, same_str, spells, split_chars, to_lower, trim, trim_by, Class,
};
use crate::wire::{self, parse_head, parse_name, parse_value, HeadError, RawHead};
use crate::written;
use vstd::prelude::*;
use vstd::slice::slice_subrange;
use vstd::utf8::*;

verus! {

/// How many header fields a response may have.
pub const MAX_FIELDS: usize = 64;

// ---------------------------------------------------------------------------
// The request
// ---------------------------------------------------------------------------

/// An HTTP/2 request without its body.
#[derive(Debug)]
pub struct RequestParts {
    /// The method.
    pub method: String,
    /// The path with the query.
    pub path: Option<String>,
    /// The authority of the address.
    pub authority: Option<String>,
    /// The header fields, with names in lower case.
    pub headers: Vec<(String, Vec<u8>)>,
}

/// Whether a header field belongs to the connection or says where the body
/// ends, so that it does not go into the HTTP/1 request.
pub open spec fn is_left_out(name: Seq<char>) -> bool {
    ||| name == "connection"@
    ||| name == "proxy-connection"@
    ||| name == "keep-alive"@
    ||| name == "upgrade"@
    ||| name == "transfer-encoding"@
    ||| name == "content-length"@
}

/// A header line.
pub open spec fn field_line(f: (Seq<char>, Seq<u8>)) -> Seq<u8> {
    encode_utf8(f.0) + encode_utf8(": "@) + f.1 + encode_utf8("\r\n"@)
}

/// The lines of the header fields that go into the HTTP/1 request.
pub open spec fn field_lines(fs: Seq<(Seq<char>, Seq<u8>)>) -> Seq<u8>
    decreases fs.len(),
{
    if fs.len() == 0 {
        seq![]
    } else if is_left_out(fs.last().0) {
        field_lines(fs.drop_last())
    } else {
        field_lines(fs.drop_last()) + field_line(fs.last())
    }
}

/// Whether one of the header fields names the host.
pub open spec fn names_host(fs: Seq<(Seq<char>, Seq<u8>)>) -> bool {
    exists|i: int| 0 <= i < fs.len() && (#[trigger] fs[i]).0 == "host"@
}

/// The line that names the host, where no header field does.
pub open spec fn host_line(fs: Seq<(Seq<char>, Seq<u8>)>, authority: Option<Seq<char>>) -> Seq<u8> {
    match authority {
        Some(a) => if names_host(fs) {
            seq![]
        } else {
            encode_utf8("Host: "@) + encode_utf8(a) + encode_utf8("\r\n"@)
        },
        None => seq![],
    }
}

/// A path, or the root where there is none.
pub open spec fn path_or_root(path: Option<Seq<char>>) -> Seq<char> {
    match path {
        Some(p) => p,
        None => "/"@,
    }
}

/// The start line of the HTTP/1 request.
pub open spec fn request_line(method: Seq<char>, path: Option<Seq<char>>) -> Seq<char> {
    method + " "@ + path_or_root(path) + " HTTP/1.1\r\n"@
}

/// The lines that end the head of the HTTP/1 request.
pub open spec fn closing_lines(body_len: nat) -> Seq<char> {
    "Content-Length: "@ + number::decimal(body_len) + "\r\nConnection: close\r\n\r\n"@
}

/// The HTTP/1 request for an HTTP/2 one.
pub open spec fn http1_request(
    method: Seq<char>,
    path: Option<Seq<char>>,
    authority: Option<Seq<char>>,
    fs: Seq<(Seq<char>, Seq<u8>)>,
    body: Seq<u8>,
) -> Seq<u8> {
    encode_utf8(request_line(method, path)) + field_lines(fs) + host_line(fs, authority)
        + encode_utf8(closing_lines(body.len())) + body
}

/// Whether a header field does not go into the HTTP/1 request.
fn leaves_out(name: &str) -> (r: bool)
    ensures
        r == is_left_out(name@),
{
    same_str(name, "connection") || same_str(name, "proxy-connection") || same_str(
        name,
        "keep-alive",
    ) || same_str(name, "upgrade") || same_str(name, "transfer-encoding") || same_str(
        name,
        "content-length",
    )
}

/// Appends a header line.
fn push_line(out: &mut Vec<u8>, name: &str, value: &[u8])
    ensures
        final(out)@ == old(out)@ + field_line((name@, value@)),
{
    let ghost start = out@;
    push_bytes(out, name.as_bytes());
    push_bytes(out, ": ".as_bytes());
    push_bytes(out, value);
    push_bytes(out, "\r\n".as_bytes());
    assert(out@ =~= start + field_line((name@, value@)));
}

/// Builds the HTTP/1 request for an HTTP/2 one.
pub fn build_http1_request(parts: &RequestParts, body: &[u8]) -> (r: Vec<u8>)
    ensures
        r@ == http1_request(
            parts.method@,
            parts.path.deep_view(),
            parts.authority.deep_view(),
            wire::field_views(parts.headers@),
            body@,
        ),
{
    let mut line = copy_str(parts.method.as_str());
    line.append(" ");
    match &parts.path {
        Some(p) => line.append(p.as_str()),
        None => line.append("/"),
    }
    line.append(" HTTP/1.1\r\n");
    assert(line@ =~= request_line(parts.method@, parts.path.deep_view()));
    let mut out = bytes_of(line.as_str());
    let ghost first = out@;
    let ghost all = wire::field_views(parts.headers@);
    let mut has_host = false;
    assert(all.take(0) =~= seq![]);
    assert(first + Seq::<u8>::empty() =~= first);
    for i in 0..parts.headers.len()
        invariant
            all == wire::field_views(parts.headers@),
            out@ == first + field_lines(all.take(i as int)),
            has_host == names_host(all.take(i as int)),
    {
        let ghost seen = all.take(i + 1);
        assert(seen.drop_last() =~= all.take(i as int));
        assert(seen.last() == (parts.headers@[i as int].0@, parts.headers@[i as int].1@));
        let name = parts.headers[i].0.as_str();
        let ghost had = has_host;
        let ghost before = out@;
        if same_str(name, "host") {
            has_host = true;
        }
        proof {
            if had {
                let k = choose|k: int|
                    0 <= k < all.take(i as int).len() && (#[trigger] all.take(i as int)[k]).0
                        == "host"@;
                assert(seen[k] == all.take(i as int)[k]);
            }
            if name@ == "host"@ {
                assert(seen[i as int].0 == "host"@);
            }
            if names_host(seen) && !has_host {
                let k = choose|k: int| 0 <= k < seen.len() && (#[trigger] seen[k]).0 == "host"@;
                assert(all.take(i as int)[k] == seen[k]);
            }
        }
        if !leaves_out(name) {
            push_line(&mut out, name, parts.headers[i].1.as_slice());
            assert(out@ =~= first + field_lines(seen));
        }
    }
    assert(all.take(parts.headers@.len() as int) =~= all);
    let ghost fields = out@;
    match &parts.authority {
        Some(a) => {
            if !has_host {
                push_bytes(&mut out, "Host: ".as_bytes());
                push_bytes(&mut out, a.as_str().as_bytes());
                push_bytes(&mut out, "\r\n".as_bytes());
            }
        },
        None => {},
    }
    assert(out@ =~= fields + host_line(all, parts.authority.deep_view()));
    let mut last = String::new();
    last.append("Content-Length: ");
    push_decimal(&mut last, body.len() as u128);
    last.append("\r\nConnection: close\r\n\r\n");
    assert(last@ =~= closing_lines(body@.len()));
    push_bytes(&mut out, last.as_str().as_bytes());
    push_bytes(&mut out, body);
    out
}

// ---------------------------------------------------------------------------
// The response
// ---------------------------------------------------------------------------

/// A response that goes back over HTTP/2.
#[derive(Debug)]
pub struct H2Response {
    /// The status.
    pub status: u16,
    /// The header fields.
    pub headers: Vec<(String, Vec<u8>)>,
    /// The body.
    pub body: Vec<u8>,
}

/// The same, as plain values.
#[verifier::ext_equal]
pub struct H2View {
    pub status: u16,
    pub headers: Seq<(Seq<char>, Seq<u8>)>,
    pub body: Seq<u8>,
}

impl View for H2Response {
    type V = H2View;

    open spec fn view(&self) -> H2View {
        H2View {
            status: self.status,
            headers: wire::field_views(self.headers@),
            body: self.body@,
        }
    }
}

/// Why an HTTP/1 response does not go back.
#[derive(Clone, Copy, Debug, PartialEq, Eq, Structural)]
pub enum Http1Error {
    /// Its head cannot be read.
    Head(HeadError),
    /// Its chunked body cannot be decoded.
    Body(ChunkError),
}

/// The status that goes back: what is none counts as an internal error.
pub open spec fn status_of(code: Option<u16>) -> u16 {
    match code {
        Some(c) => if 100 <= c <= 999 {
            c
        } else {
            500
        },
        None => 500,
    }
}

/// Whether a header field belongs to the connection.
pub open spec fn is_hop_field(name: Seq<char>) -> bool {
    ||| name == "connection"@
    ||| name == "proxy-connection"@
    ||| name == "keep-alive"@
    ||| name == "upgrade"@
}

/// Whether a `Transfer-Encoding` value names the chunked encoding.
pub open spec fn says_chunked(value: Seq<u8>) -> bool {
    exists|i: int|
        0 <= i < text::split(text::lower(encoding::lossy_text(value)), ',').len() && is_chunked_item(
            #[trigger] text::split(text::lower(encoding::lossy_text(value)), ',')[i],
        )
}

/// Whether an item of such a value is the chunked encoding.
pub open spec fn is_chunked_item(item: Seq<char>) -> bool {
    text::trim_class(text::trimmed(item), Class::One('"')) == "chunked"@
}

/// The length that a `Content-Length` value gives.
pub open spec fn length_in(value: Seq<u8>) -> Option<nat> {
    if valid_utf8(value) {
        number::parsed_number(text::trimmed(decode_utf8(value)), 10, usize::MAX as nat)
    } else {
        None
    }
}

/// What the header fields of a response say.
#[verifier::ext_equal]
pub struct Reading {
    /// The fields that go back.
    pub fields: Seq<(Seq<char>, Seq<u8>)>,
    /// Whether the body is chunked.
    pub chunked: bool,
    /// The length of the body: the last one that is given.
    pub length: Option<nat>,
}

/// What the header fields of a response say, with one more.
pub open spec fn read_one(r: Reading, f: (Seq<char>, Seq<u8>)) -> Reading {
    let name = text::lower(f.0);
    if is_hop_field(name) {
        r
    } else if name == "transfer-encoding"@ {
        Reading { chunked: r.chunked || says_chunked(f.1), ..r }
    } else if name == "content-length"@ {
        Reading {
            length: match length_in(f.1) {
                Some(n) => Some(n),
                None => r.length,
            },
            ..r
        }
    } else {
        match wire::name_in(encode_utf8(f.0)) {
            Some(n) => if wire::is_value(f.1) {
                Reading { fields: r.fields.push((n, f.1)), ..r }
            } else {
                r
            },
            None => r,
        }
    }
}

/// What the header fields of a response say.
pub open spec fn reading_of(fs: Seq<(Seq<char>, Seq<u8>)>) -> Reading
    decreases fs.len(),
{
    if fs.len() == 0 {
        Reading { fields: seq![], chunked: false, length: None }
    } else {
        read_one(reading_of(fs.drop_last()), fs.last())
    }
}

/// The body that goes back.
pub open spec fn body_of(rest: Seq<u8>, chunked: bool, length: Option<nat>) -> Result<
    Seq<u8>,
    ChunkError,
> {
    if chunked {
        chunked::decoded(rest)
    } else {
        match length {
            Some(n) => if rest.len() > n {
                Ok(rest.take(n as int))
            } else {
                Ok(rest)
            },
            None => Ok(rest),
        }
    }
}

/// The response that goes back for a head and what follows it.
pub open spec fn converted(
    code: Option<u16>,
    fs: Seq<(Seq<char>, Seq<u8>)>,
    rest: Seq<u8>,
) -> Result<H2View, Http1Error> {
    let reading = reading_of(fs);
    match body_of(rest, reading.chunked, reading.length) {
        Ok(body) => Ok(
            H2View {
                status: status_of(code),
                headers: reading.fields.push(
                    ("content-length"@, encode_utf8(number::decimal(body.len()))),
                ),
                body,
            },
        ),
        Err(e) => Err(Http1Error::Body(e)),
    }
}

/// The response that goes back for the bytes of an HTTP/1 one.
pub open spec fn converted_bytes(b: Seq<u8>) -> Result<H2View, Http1Error> {
    match wire::head_in(b, MAX_FIELDS as nat) {
        Ok(Some(h)) => converted(h.1, h.2, b.skip(h.0 as int)),
        Ok(None) => Err(Http1Error::Head(HeadError::Incomplete)),
        Err(_) => Err(Http1Error::Head(HeadError::Malformed)),
    }
}

/// Whether a `Transfer-Encoding` value names the chunked encoding.
fn names_chunked(value: &[u8]) -> (r: bool)
    ensures
        r == says_chunked(value@),
{
    let val = lossy(value);
    let vc = chars_of(val.as_str());
    let low = to_lower(vc.as_slice());
    let items = split_chars(low.as_slice(), ',');
    let ghost all = text::split(text::lower(encoding::lossy_text(value@)), ',');
    assert(text::views(items@) == all);
    for i in 0..items.len()
        invariant
            text::views(items@) == all,
            all == text::split(text::lower(encoding::lossy_text(value@)), ','),
            forall|k: int| 0 <= k < i ==> !is_chunked_item(#[trigger] all[k]),
    {
        assert(all[i as int] == items@[i as int]@);
        if spells(trim_by(trim(items[i]), Class::One('"')), "chunked") {
            return true;
        }
    }
    assert(all.len() == items@.len());
    false
}

/// The length that a `Content-Length` value gives.
fn read_length(value: &[u8]) -> (r: Option<usize>)
    ensures
        match r {
            Some(n) => length_in(value@) == Some(n as nat),
            None => length_in(value@) is None,
        },
{
    match strict(value) {
        Some(s) => {
            let sc = chars_of(s.as_str());
            parse_usize(trim(sc.as_slice()))
        },
        None => None,
    }
}

/// Builds the response that goes back for a head and what follows it.
pub fn convert_response(head: &RawHead, rest: &[u8]) -> (r: Result<H2Response, Http1Error>)
    ensures
        match r {
            Ok(v) => converted(head.code, wire::field_views(head.fields@), rest@) == Ok::<
                H2View,
                Http1Error,
            >(v@),
            Err(e) => converted(head.code, wire::field_views(head.fields@), rest@) == Err::<
                H2View,
                Http1Error,
            >(e),
        },
{
    let status: u16 = match head.code {
        Some(c) => if 100 <= c && c <= 999 {
            c
        } else {
            500
        },
        None => 500,
    };
    let ghost all = wire::field_views(head.fields@);
    let mut headers: Vec<(String, Vec<u8>)> = Vec::new();
    let mut is_chunked = false;
    let mut content_length: Option<usize> = None;
    assert(all.take(0) =~= seq![]);
    assert(wire::field_views(headers@) =~= seq![]);
    for i in 0..head.fields.len()
        invariant
            all == wire::field_views(head.fields@),
            wire::field_views(headers@) == reading_of(all.take(i as int)).fields,
            is_chunked == reading_of(all.take(i as int)).chunked,
            match content_length {
                Some(n) => reading_of(all.take(i as int)).length == Some(n as nat),
                None => reading_of(all.take(i as int)).length is None,
            },
    {
        let ghost seen = all.take(i + 1);
        assert(seen.drop_last() =~= all.take(i as int));
        assert(seen.last() == (head.fields@[i as int].0@, head.fields@[i as int].1@));
        let name = head.fields[i].0.as_str();
        let value = head.fields[i].1.as_slice();
        let nc = chars_of(name);
        let low = to_lower(nc.as_slice());
        let l = low.as_slice();
        if spells(l, "connection") || spells(l, "proxy-connection") || spells(l, "keep-alive")
            || spells(l, "upgrade") {
        } else if spells(l, "transfer-encoding") {
            if names_chunked(value) {
                is_chunked = true;
            }
        } else if spells(l, "content-length") {
            match read_length(value) {
                Some(n) => {
                    content_length = Some(n);
                },
                None => {},
            }
        } else {
            match (parse_name(name.as_bytes()), parse_value(value)) {
                (Some(n), Some(v)) => {
                    let ghost before = headers@;
                    headers.push((n, v));
                    assert(wire::field_views(headers@) =~= wire::field_views(before).push(
                        (n@, v@),
                    ));
                },
                _ => {},
            }
        }
    }
    assert(all.take(head.fields@.len() as int) =~= all);
    let body = if is_chunked {
        match decode_chunked(rest) {
            Ok(b) => b,
            Err(e) => {
                return Err(Http1Error::Body(e));
            },
        }
    } else {
        match content_length {
            Some(n) => if rest.len() > n {
                assert(rest@.subrange(0, n as int) =~= rest@.take(n as int));
                copy_bytes(slice_subrange(rest, 0, n))
            } else {
                copy_bytes(rest)
            },
            None => copy_bytes(rest),
        }
    };
    let ghost before = headers@;
    headers.push((copy_str("content-length"), decimal_bytes(body.len())));
    assert(wire::field_views(headers@) =~= wire::field_views(before).push(
        ("content-length"@, encode_utf8(number::decimal(body@.len()))),
    ));
    Ok(H2Response { status, headers, body })
}

/// The bytes of a number.
fn decimal_bytes(n: usize) -> (r: Vec<u8>)
    ensures
        r@ == encode_utf8(number::decimal(n as nat)),
{
    let mut s = String::new();
    push_decimal(&mut s, n as u128);
    assert(s@ =~= number::decimal(n as nat));
    bytes_of(s.as_str())
}

/// Reads an HTTP/1 response and builds the one that goes back.
pub fn parse_http1_response(bytes: &[u8]) -> (r: Result<H2Response, Http1Error>)
    ensures
        match r {
            Ok(v) => converted_bytes(bytes@) == Ok::<H2View, Http1Error>(v@),
            Err(e) => converted_bytes(bytes@) == Err::<H2View, Http1Error>(e),
        },
{
    match parse_head(bytes, MAX_FIELDS) {
        Ok(head) => {
            let rest = slice_subrange(bytes, head.len, bytes.len());
            assert(rest@ =~= bytes@.skip(head.len as int));
            convert_response(&head, rest)
        },
        Err(e) => Err(Http1Error::Head(e)),
    }
}

/// A response that says only why there is no other.
pub open spec fn simple_view(status: u16, body: Seq<char>) -> H2View {
    H2View {
        status,
        headers: seq![("content-length"@, encode_utf8(number::decimal(encode_utf8(body).len())))],
        body: encode_utf8(body),
    }
}

/// Builds a response that says only why there is no other.
pub fn simple_h2_response(status: u16, body: &str) -> (r: H2Response)
    ensures
        r@ == simple_view(status, body@),
{
    let body = bytes_of(body);
    let mut headers: Vec<(String, Vec<u8>)> = Vec::new();
    headers.push((copy_str("content-length"), decimal_bytes(body.len())));
    let r = H2Response { status, headers, body };
    assert(r@.headers =~= seq![("content-length"@, encode_utf8(number::decimal(body@.len())))]);
    r
}

/// What came of serving an HTTP/2 request as an HTTP/1 one.
#[derive(Debug)]
pub enum Pipeline {
    /// The body of the request could not be read.
    BodyFailed,
    /// The request could not be served.
    Failed,
    /// The bytes of the HTTP/1 response.
    Response(Vec<u8>),
}

/// The response that goes back.
pub open spec fn answered(p: Pipeline) -> H2View {
    match p {
        Pipeline::BodyFailed => simple_view(400, "Bad Request"@),
        Pipeline::Failed => simple_view(500, "Internal Server Error"@),
        Pipeline::Response(b) => match converted_bytes(b@) {
            Ok(v) => v,
            Err(_) => simple_view(502, "Bad Gateway"@),
        },
    }
}

/// Decides on the response to an HTTP/2 request.
pub fn handle_h2_request(p: &Pipeline) -> (r: H2Response)
    ensures
        r@ == answered(*p),
{
    match p {
        Pipeline::BodyFailed => simple_h2_response(400, "Bad Request"),
        Pipeline::Failed => simple_h2_response(500, "Internal Server Error"),
        Pipeline::Response(b) => match parse_http1_response(b.as_slice()) {
            Ok(v) => v,
            Err(_) => simple_h2_response(502, "Bad Gateway"),
        },
    }
}

// ---------------------------------------------------------------------------
// Laws
// ---------------------------------------------------------------------------

/// The response that goes back says how long its body is, once and rightly.
pub proof fn length_is_told(code: Option<u16>, fs: Seq<(Seq<char>, Seq<u8>)>, rest: Seq<u8>)
    ensures
        converted(code, fs, rest) matches Ok(v) ==> v.headers.last() == (
            "content-length"@,
            encode_utf8(number::decimal(v.body.len())),
        ),
{
}

/// A body is sent back as its length says, or as its chunks say, and is never
/// longer than what came.
pub proof fn body_is_what_came(rest: Seq<u8>, length: Option<nat>)
    ensures
        body_of(rest, false, length) == Ok::<Seq<u8>, ChunkError>(
            match length {
                Some(n) => rest.take(
                    if n < rest.len() {
                        n as int
                    } else {
                        rest.len() as int
                    },
                ),
                None => rest,
            },
        ),
        body_of(rest, true, length) == chunked::decoded(rest),
{
    assert(rest.take(rest.len() as int) =~= rest);
}

/// Fields of the connection do not go into the HTTP/1 request.
pub proof fn connection_fields_stay_out(
    before: Seq<(Seq<char>, Seq<u8>)>,
    f: (Seq<char>, Seq<u8>),
    after: Seq<(Seq<char>, Seq<u8>)>,
)
    requires
        is_left_out(f.0),
    ensures
        field_lines(before.push(f) + after) == field_lines(before + after),
    decreases after.len(),
{
    if after.len() == 0 {
        assert(before.push(f) + after =~= before.push(f));
        assert(before + after =~= before);
        assert(before.push(f).drop_last() =~= before);
    } else {
        connection_fields_stay_out(before, f, after.drop_last());
        assert((before.push(f) + after).drop_last() =~= before.push(f) + after.drop_last());
        assert((before + after).drop_last() =~= before + after.drop_last());
    }
}

/// Header fields with texts as values, as they go over the wire.
pub open spec fn encoded_fields(fs: Seq<(Seq<char>, Seq<char>)>) -> Seq<(Seq<char>, Seq<u8>)> {
    fs.map_values(|f: (Seq<char>, Seq<char>)| (f.0, encode_utf8(f.1)))
}

/// The header fields that go into the HTTP/1 request.
pub open spec fn kept(fs: Seq<(Seq<char>, Seq<char>)>) -> Seq<(Seq<char>, Seq<char>)>
    decreases fs.len(),
{
    if fs.len() == 0 {
        seq![]
    } else if is_left_out(fs.last().0) {
        kept(fs.drop_last())
    } else {
        kept(fs.drop_last()).push(fs.last())
    }
}

/// The header fields of the HTTP/1 request.
pub open spec fn http1_fields(
    fs: Seq<(Seq<char>, Seq<char>)>,
    authority: Option<Seq<char>>,
    body_len: nat,
) -> Seq<(Seq<char>, Seq<char>)> {
    kept(fs) + (if authority is Some && !names_host(encoded_fields(fs)) {
        seq![("Host"@, authority->0)]
    } else {
        seq![]
    }) + seq![("Content-Length"@, number::decimal(body_len)), ("Connection"@, "close"@)]
}

/// Whether a text is a word: not empty, and without white space.
pub open spec fn is_word(s: Seq<char>) -> bool {
    s.len() > 0 && forall|i: int| 0 <= i < s.len() ==> !text::is_white(#[trigger] s[i])
}

/// The start line of the HTTP/1 request, without its end.
pub open spec fn start_line(method: Seq<char>, path: Seq<char>) -> Seq<char> {
    method + " "@ + path + " HTTP/1.1"@
}

proof fn lemma_kept(fs: Seq<(Seq<char>, Seq<char>)>)
    requires
        written::all_clean(fs),
        forall|i: int| 0 <= i < fs.len() ==> text::lower((#[trigger] fs[i]).0) == fs[i].0,
    ensures
        written::all_clean(kept(fs)),
        forall|i: int|
            0 <= i < kept(fs).len() ==> !is_left_out(#[trigger] kept(fs)[i].0) && text::lower(
                kept(fs)[i].0,
            ) == kept(fs)[i].0,
        field_lines(encoded_fields(fs)) == encode_utf8(written::field_lines(kept(fs))),
    decreases fs.len(),
{
    if fs.len() == 0 {
        assert(encoded_fields(fs) =~= seq![]);
        assert(encode_utf8(Seq::<char>::empty()) =~= seq![]);
    } else {
        let rest = fs.drop_last();
        let f = fs.last();
        assert(f == fs[fs.len() - 1]);
        assert forall|i: int| 0 <= i < rest.len() implies written::clean_field(#[trigger] rest[i])
            && text::lower(rest[i].0) == rest[i].0 by {
            assert(rest[i] == fs[i]);
        }
        lemma_kept(rest);
        assert(encoded_fields(fs).drop_last() =~= encoded_fields(rest));
        assert(encoded_fields(fs).last() == (f.0, encode_utf8(f.1)));
        if !is_left_out(f.0) {
            let k = kept(fs);
            assert(k.drop_last() =~= kept(rest));
            lemma_line_encoded(f);
            encoding::lemma_encode_concat(written::field_lines(kept(rest)), written::field_line(f));
            assert forall|i: int| 0 <= i < k.len() implies !is_left_out(#[trigger] k[i].0)
                && text::lower(k[i].0) == k[i].0 && written::clean_field(k[i]) by {
                if i < kept(rest).len() {
                    assert(k[i] == kept(rest)[i]);
                }
            }
        }
    }
}

proof fn lemma_line_encoded(f: (Seq<char>, Seq<char>))
    ensures
        field_line((f.0, encode_utf8(f.1))) == encode_utf8(written::field_line(f)),
{
    encoding::lemma_encode_concat(f.0, ": "@);
    encoding::lemma_encode_concat(f.0 + ": "@, f.1);
    encoding::lemma_encode_concat(f.0 + ": "@ + f.1, "\r\n"@);
}

proof fn lemma_request_text(
    method: Seq<char>,
    path: Option<Seq<char>>,
    authority: Option<Seq<char>>,
    fs: Seq<(Seq<char>, Seq<char>)>,
    body: Seq<u8>,
)
    requires
        written::all_clean(fs),
        forall|i: int| 0 <= i < fs.len() ==> text::lower((#[trigger] fs[i]).0) == fs[i].0,
    ensures
        http1_request(method, path, authority, encoded_fields(fs), body) == encode_utf8(
            written::head_text(
                start_line(method, path_or_root(path)),
                http1_fields(fs, authority, body.len()),
            ) + "\r\n"@,
        ) + body,
{
    let line = start_line(method, path_or_root(path));
    let k = kept(fs);
    let digits = number::decimal(body.len());
    lemma_kept(fs);
    reveal_strlit(" HTTP/1.1\r\n");
    reveal_strlit(" HTTP/1.1");
    reveal_strlit("\r\n");
    reveal_strlit("\r\nConnection: close\r\n\r\n");
    reveal_strlit("Content-Length: ");
    reveal_strlit("Content-Length");
    reveal_strlit("Connection");
    reveal_strlit("close");
    reveal_strlit(": ");
    reveal_strlit("Host: ");
    reveal_strlit("Host");
    assert(" HTTP/1.1\r\n"@ =~= " HTTP/1.1"@ + "\r\n"@);
    assert(request_line(method, path) =~= line + "\r\n"@);
    let length = ("Content-Length"@, digits);
    let connection = ("Connection"@, "close"@);
    assert("Content-Length: "@ =~= "Content-Length"@ + ": "@);
    assert("\r\nConnection: close\r\n\r\n"@ =~= "\r\n"@ + (written::field_line(connection)
        + "\r\n"@));
    assert(closing_lines(body.len()) =~= written::field_line(length) + written::field_line(
        connection,
    ) + "\r\n"@);
    let start = line + "\r\n"@;
    let kept_text = written::field_lines(k);
    encoding::lemma_encode_concat(start, kept_text);
    let front = start + kept_text;
    let hosted = authority is Some && !names_host(encoded_fields(fs));
    let host: Seq<(Seq<char>, Seq<char>)> = if hosted {
        seq![("Host"@, authority->0)]
    } else {
        seq![]
    };
    let host_text: Seq<char> = if hosted {
        written::field_line(("Host"@, authority->0))
    } else {
        seq![]
    };
    assert(host_line(encoded_fields(fs), authority) == encode_utf8(host_text)) by {
        if hosted {
            assert("Host: "@ =~= "Host"@ + ": "@);
            let a = authority->0;
            encoding::lemma_encode_concat("Host: "@, a);
            encoding::lemma_encode_concat("Host: "@ + a, "\r\n"@);
            assert(host_text =~= "Host: "@ + a + "\r\n"@);
        } else {
            assert(encode_utf8(Seq::<char>::empty()) =~= seq![]);
        }
    }
    encoding::lemma_encode_concat(front, host_text);
    encoding::lemma_encode_concat(front + host_text, closing_lines(body.len()));
    let with_host = k + host;
    assert(written::field_lines(with_host) =~= kept_text + host_text) by {
        if hosted {
            assert(with_host.drop_last() =~= k);
        } else {
            assert(with_host =~= k);
        }
    }
    let with_length = with_host.push(length);
    assert(with_length.drop_last() =~= with_host);
    let all = with_length.push(connection);
    assert(all.drop_last() =~= with_length);
    assert(all =~= http1_fields(fs, authority, body.len()));
    assert(written::field_lines(with_length) == written::field_lines(with_host)
        + written::field_line(length));
    assert(written::field_lines(all) == written::field_lines(with_length) + written::field_line(
        connection,
    ));
    assert(front + host_text + closing_lines(body.len()) =~= written::head_text(line, all)
        + "\r\n"@);
}

proof fn lemma_words(method: Seq<char>, path: Seq<char>)
    requires
        is_word(method),
        is_word(path),
    ensures
        text::words(start_line(method, path)) == seq![method, path, "HTTP/1.1"@],
{
    reveal_strlit(" HTTP/1.1");
    reveal_strlit("HTTP/1.1");
    reveal_strlit(" ");
    let v = "HTTP/1.1"@;
    let empty = Seq::<char>::empty();
    text::lemma_word(v, empty);
    assert(v + empty =~= v);
    assert(text::words(empty) =~= seq![]);
    let tail = seq![' '] + v;
    assert(tail =~= " HTTP/1.1"@);
    text::lemma_leading_white(' ', v);
    text::lemma_word(path, tail);
    let rest = path + tail;
    text::lemma_leading_white(' ', rest);
    text::lemma_word(method, seq![' '] + rest);
    assert(start_line(method, path) =~= method + (seq![' '] + rest));
    assert(text::words(start_line(method, path)) =~= seq![method, path, v]);
}

proof fn lemma_close()
    ensures
        headers::has_token("close"@, "close"@),
        text::lower("Content-Length"@) == "content-length"@,
        text::lower("Connection"@) == "connection"@,
        text::lower("Host"@) == "host"@,
{
    reveal_strlit("close");
    reveal_strlit("Content-Length");
    reveal_strlit("content-length");
    reveal_strlit("Connection");
    reveal_strlit("connection");
    reveal_strlit("Host");
    reveal_strlit("host");
    let c = "close"@;
    assert(text::trimmed(c) == c);
    assert(!c.contains(','));
    headers::lemma_one_item(c);
    assert(text::trim_class(c, Class::Quotes) == c);
    assert(text::lower(c) =~= c);
    assert(headers::token_of(headers::list_items(c)[0]) == c);
    assert(text::lower("Content-Length"@) =~= "content-length"@);
    assert(text::lower("Connection"@) =~= "connection"@);
    assert(text::lower("Host"@) =~= "host"@);
}

/// The HTTP/1 pipeline reads an HTTP/2 request as what it is: the same method
/// and path, a body of the same length that does not come in chunks, and a
/// connection that ends with it. The header fields are texts here, with names
/// in lower case.
pub proof fn request_is_understood(
    method: Seq<char>,
    path: Option<Seq<char>>,
    authority: Option<Seq<char>>,
    fs: Seq<(Seq<char>, Seq<char>)>,
    body: Seq<u8>,
    head: Seq<char>,
)
    requires
        is_word(method),
        is_word(path_or_root(path)),
        authority matches Some(a) ==> written::clean(a),
        written::all_clean(fs),
        forall|i: int| 0 <= i < fs.len() ==> text::lower((#[trigger] fs[i]).0) == fs[i].0,
        body.len() <= usize::MAX,
        http1_request(method, path, authority, encoded_fields(fs), body) == encode_utf8(
            head + "\r\n\r\n"@,
        ) + body,
    ensures
        request::metadata_of(head) == Ok::<request::MetadataView, request::HeaderParseError>(
            (request::MetadataView {
                method,
                path: path_or_root(path),
                http_version: "HTTP/1.1"@,
                content_length: body.len(),
                close_after: true,
                is_chunked: false,
            }),
        ),
{
    let line = start_line(method, path_or_root(path));
    let all = http1_fields(fs, authority, body.len());
    lemma_request_head(method, path, authority, fs, body, head);
    lemma_fields_clean(fs, authority, body.len());
    lemma_line_plain(method, path_or_root(path));
    written::written_head_reads_back(line, all);
    assert(headers::start_line(head) == line && headers::header_fields(head) == all);
    lemma_words(method, path_or_root(path));
    lemma_close();
    lemma_length(fs, authority, body.len());
    lemma_plain(fs, authority, body.len());
    reveal_strlit("HTTP/1.1");
    reveal_strlit("HTTP/1.0");
    assert("HTTP/1.1"@[7] != "HTTP/1.0"@[7]);
}

proof fn lemma_request_head(
    method: Seq<char>,
    path: Option<Seq<char>>,
    authority: Option<Seq<char>>,
    fs: Seq<(Seq<char>, Seq<char>)>,
    body: Seq<u8>,
    head: Seq<char>,
)
    requires
        authority matches Some(a) ==> written::clean(a),
        written::all_clean(fs),
        forall|i: int| 0 <= i < fs.len() ==> text::lower((#[trigger] fs[i]).0) == fs[i].0,
        http1_request(method, path, authority, encoded_fields(fs), body) == encode_utf8(
            head + "\r\n\r\n"@,
        ) + body,
    ensures
        head + "\r\n"@ == written::head_text(
            start_line(method, path_or_root(path)),
            http1_fields(fs, authority, body.len()),
        ),
{
    let line = start_line(method, path_or_root(path));
    let all = http1_fields(fs, authority, body.len());
    lemma_request_text(method, path, authority, fs, body);
    let whole = written::head_text(line, all) + "\r\n"@;
    assert(head + "\r\n"@ == written::head_text(line, all)) by {
        let given = encode_utf8(head + "\r\n\r\n"@);
        let built = encode_utf8(whole);
        assert((given + body).take(given.len() as int) =~= given);
        assert((built + body).take(built.len() as int) =~= built);
        assert(given + body == built + body);
        assert((given + body).len() == given.len() + body.len());
        assert((built + body).len() == built.len() + body.len());
        encoding::encoded_text_reads_back(head + "\r\n\r\n"@);
        encoding::encoded_text_reads_back(whole);
        assert(head + "\r\n\r\n"@ == whole);
        reveal_strlit("\r\n");
        reveal_strlit("\r\n\r\n");
        assert(head + "\r\n\r\n"@ =~= (head + "\r\n"@) + "\r\n"@);
        let n = whole.len() - 2;
        assert(whole.take(n) =~= head + "\r\n"@);
        assert(whole.take(n) =~= written::head_text(line, all));
    }
}

proof fn lemma_line_plain(method: Seq<char>, path: Seq<char>)
    requires
        is_word(method),
        is_word(path),
    ensures
        !start_line(method, path).contains('\n'),
        start_line(method, path).len() > 0,
{
    reveal_strlit(" ");
    reveal_strlit(" HTTP/1.1");
    let l = start_line(method, path);
    let m = method.len();
    assert forall|k: int| 0 <= k < l.len() implies l[k] != '\n' by {
        if k < m {
            assert(l[k] == method[k]);
        } else if m < k && k < m + 1 + path.len() {
            assert(l[k] == path[k - m - 1]);
        }
    }
}

proof fn lemma_fields_clean(
    fs: Seq<(Seq<char>, Seq<char>)>,
    authority: Option<Seq<char>>,
    body_len: nat,
)
    requires
        authority matches Some(a) ==> written::clean(a),
        written::all_clean(fs),
        forall|i: int| 0 <= i < fs.len() ==> text::lower((#[trigger] fs[i]).0) == fs[i].0,
    ensures
        written::all_clean(http1_fields(fs, authority, body_len)),
{
    let all = http1_fields(fs, authority, body_len);
    let k = kept(fs);
    lemma_kept(fs);
    reveal_strlit("Content-Length");
    reveal_strlit("Connection");
    reveal_strlit("close");
    reveal_strlit("Host");
    let digits = number::decimal(body_len);
    number::lemma_digits_plain(body_len);
    assert(!digits.contains('\n'));
    assert(written::clean_field(("Content-Length"@, digits)));
    assert(written::clean_field(("Connection"@, "close"@)));
    assert forall|i: int| 0 <= i < all.len() implies written::clean_field(#[trigger] all[i]) by {
        if i < k.len() {
            assert(all[i] == k[i]);
        } else if i < all.len() - 2 {
            assert(all[i] == ("Host"@, authority->0));
        }
    }
}

/// The fields before the last two say nothing of the length, the encoding or the
/// connection.
proof fn lemma_plain(fs: Seq<(Seq<char>, Seq<char>)>, authority: Option<Seq<char>>, body_len: nat)
    requires
        written::all_clean(fs),
        forall|i: int| 0 <= i < fs.len() ==> text::lower((#[trigger] fs[i]).0) == fs[i].0,
    ensures
        !request::body_chunked(http1_fields(fs, authority, body_len)),
        request::connection_says(http1_fields(fs, authority, body_len), "close"@),
{
    let all = http1_fields(fs, authority, body_len);
    let k = kept(fs);
    lemma_kept(fs);
    lemma_close();
    reveal_strlit("transfer-encoding");
    reveal_strlit("content-length");
    reveal_strlit("connection");
    reveal_strlit("host");
    assert forall|i: int| 0 <= i < all.len() implies !headers::named(
        #[trigger] all[i],
        "transfer-encoding"@,
    ) by {
        if i < k.len() {
            assert(all[i] == k[i]);
            assert(!is_left_out(k[i].0));
        } else if i == all.len() - 2 {
            assert("content-length"@.len() != "transfer-encoding"@.len());
        } else if i == all.len() - 1 {
            assert("connection"@.len() != "transfer-encoding"@.len());
        } else {
            assert("host"@.len() != "transfer-encoding"@.len());
        }
    }
    let last = all.len() - 1;
    assert(all[last] == ("Connection"@, "close"@));
    assert(request::about_connection(all[last]));
}

proof fn lemma_length(fs: Seq<(Seq<char>, Seq<char>)>, authority: Option<Seq<char>>, body_len: nat)
    requires
        written::all_clean(fs),
        forall|i: int| 0 <= i < fs.len() ==> text::lower((#[trigger] fs[i]).0) == fs[i].0,
        body_len <= usize::MAX,
    ensures
        request::announced_length(http1_fields(fs, authority, body_len)) == Ok::<
            nat,
            request::HeaderParseError,
        >(body_len),
{
    let all = http1_fields(fs, authority, body_len);
    let k = kept(fs);
    lemma_kept(fs);
    lemma_close();
    reveal_strlit("content-length");
    reveal_strlit("connection");
    reveal_strlit("host");
    let digits = number::decimal(body_len);
    number::lemma_digits_plain(body_len);
    assert(text::trimmed(digits) == digits);
    assert(!digits.contains(','));
    headers::lemma_one_item(digits);
    number::decimal_reads_back(body_len, usize::MAX as nat);
    let before = all.drop_last().drop_last();
    assert forall|i: int| 0 <= i < before.len() implies !headers::named(
        #[trigger] before[i],
        "content-length"@,
    ) by {
        if i < k.len() {
            assert(before[i] == k[i]);
            assert(!is_left_out(k[i].0));
        } else {
            assert(before[i].0 == "Host"@);
            assert("host"@.len() != "content-length"@.len());
        }
    }
    lemma_no_lengths(before);
    assert(all.last() == ("Connection"@, "close"@));
    assert("connection"@.len() != "content-length"@.len());
    assert(!headers::named(all.last(), "content-length"@));
    assert(all.drop_last().last() == ("Content-Length"@, digits));
    let items = request::length_items(all);
    assert(request::length_items(all.drop_last()) =~= seq![digits]);
    assert(items =~= seq![digits]);
    assert(items.drop_last() =~= seq![]);
    assert(request::lengths(items.drop_last()) =~= seq![]);
    assert(request::lengths(items) =~= seq![body_len]);
    assert forall|i: int|
        0 <= i < all.len() && headers::named(#[trigger] all[i], "content-length"@) implies
        headers::list_items(all[i].1).len() != 0 by {
        if i < before.len() {
            assert(all[i] == before[i]);
        }
    }
    assert(!request::blank_length(all));
    assert(request::lengths_valid(items));
    assert(!request::lengths_differ(items));
}

proof fn lemma_no_lengths(fs: Seq<(Seq<char>, Seq<char>)>)
    requires
        forall|i: int|
            0 <= i < fs.len() ==> !headers::named(#[trigger] fs[i], "content-length"@),
    ensures
        request::length_items(fs) == Seq::<Seq<char>>::empty(),
    decreases fs.len(),
{
    if fs.len() > 0 {
        assert(!headers::named(fs[fs.len() - 1], "content-length"@));
        assert forall|i: int| 0 <= i < fs.drop_last().len() implies !headers::named(
            #[trigger] fs.drop_last()[i],
            "content-length"@,
        ) by {
            assert(fs.drop_last()[i] == fs[i]);
        }
        lemma_no_lengths(fs.drop_last());
    }
}

// ---------------------------------------------------------------------------
// What goes through, both ways
// ---------------------------------------------------------------------------

/// Whether a name, in lower case, is that of a field that holds for one
/// connection or says where a body ends.
pub open spec fn frames_a_message(name: Seq<char>) -> bool {
    seq![
        "connection"@,
        "proxy-connection"@,
        "keep-alive"@,
        "upgrade"@,
        "transfer-encoding"@,
        "content-length"@,
    ].contains(name)
}

proof fn lemma_framing_names(name: Seq<char>)
    ensures
        frames_a_message(name) == (name == "connection"@ || name == "proxy-connection"@ || name
            == "keep-alive"@ || name == "upgrade"@ || name == "transfer-encoding"@ || name
            == "content-length"@),
{
    let l = seq![
        "connection"@,
        "proxy-connection"@,
        "keep-alive"@,
        "upgrade"@,
        "transfer-encoding"@,
        "content-length"@,
    ];
    assert(l[0] == "connection"@ && l[1] == "proxy-connection"@ && l[2] == "keep-alive"@ && l[3]
        == "upgrade"@ && l[4] == "transfer-encoding"@ && l[5] == "content-length"@);
}

/// The fields of a response that go back: all with a valid name and value, but
/// for those that frame a message.
pub open spec fn field_goes_back(f: (Seq<char>, Seq<u8>)) -> bool {
    &&& !frames_a_message(text::lower(f.0))
    &&& wire::is_token(f.0)
    &&& forall|i: int| 0 <= i < f.1.len() ==> (#[trigger] f.1[i] == 9 || 32 <= f.1[i] <= 126 || f.1[i]
        >= 128)
}

proof fn lemma_fields_read(fs: Seq<(Seq<char>, Seq<u8>)>)
    ensures
        reading_of(fs).fields == fs.filter(
            |f: (Seq<char>, Seq<u8>)| field_goes_back(f),
        ).map_values(|f: (Seq<char>, Seq<u8>)| (text::lower(f.0), f.1)),
    decreases fs.len(),
{
    reveal(Seq::filter);
    let good = |f: (Seq<char>, Seq<u8>)| field_goes_back(f);
    let low = |f: (Seq<char>, Seq<u8>)| (text::lower(f.0), f.1);
    if fs.len() == 0 {
        assert(fs.filter(good).map_values(low) =~= seq![]);
    } else {
        let f = fs.last();
        let rest = fs.drop_last();
        lemma_fields_read(rest);
        lemma_framing_names(text::lower(f.0));
        wire::names_are_tokens(f.0);
        assert(wire::is_value(f.1) == (forall|i: int|
            0 <= i < f.1.len() ==> (#[trigger] f.1[i] == 9 || 32 <= f.1[i] <= 126 || f.1[i] >= 128)));
        if field_goes_back(f) {
            assert(fs.filter(good) == rest.filter(good).push(f));
            assert(fs.filter(good).map_values(low) =~= rest.filter(good).map_values(low).push(
                low(f),
            ));
        }
    }
}

/// The response that goes back has every field of the HTTP/1 response that has
/// a valid name and value and does not frame the message, in order and with its
/// value as it was; behind them the length of the body, and nothing else.
pub proof fn response_fields_go_back(
    code: Option<u16>,
    fs: Seq<(Seq<char>, Seq<u8>)>,
    rest: Seq<u8>,
)
    ensures
        converted(code, fs, rest) matches Ok(v) ==> v.headers == fs.filter(
            |f: (Seq<char>, Seq<u8>)| field_goes_back(f),
        ).map_values(|f: (Seq<char>, Seq<u8>)| (text::lower(f.0), f.1)).push(
            ("content-length"@, encode_utf8(number::decimal(v.body.len()))),
        ),
{
    lemma_fields_read(fs);
}

/// The status goes back as it came. Where there is none, or none of three
/// digits, that is an internal error.
pub proof fn status_goes_back(code: Option<u16>, fs: Seq<(Seq<char>, Seq<u8>)>, rest: Seq<u8>)
    ensures
        converted(code, fs, rest) matches Ok(v) ==> (match code {
            Some(c) => v.status == (if 99 < c < 1000 {
                c
            } else {
                500
            }),
            None => v.status == 500,
        }),
{
}

/// A value names the chunked encoding if one of its parts between commas is that
/// word, up to case and white space and quotation marks around it; where the
/// word does not stand in it, it does not name it.
#[verifier::rlimit(50)]
pub proof fn chunked_is_named(
    value: Seq<u8>,
    a: Seq<char>,
    part: Seq<char>,
    b: Seq<char>,
)
    requires
        encoding::lossy_text(value) == a + part + b,
        a.len() == 0 || a.last() == ',',
        b.len() == 0 || b[0] == ',',
        !part.contains(','),
    ensures
        text::trim_class(text::trimmed(text::lower(part)), Class::One('"')) == "chunked"@
            ==> says_chunked(value),
        (forall|x: Seq<char>, y: Seq<char>|
            text::lower(a + part + b) != #[trigger] (x + "chunked"@ + y)) ==> !says_chunked(value),
{
    let all = text::lower(encoding::lossy_text(value));
    let (la, lp, lb) = (text::lower(a), text::lower(part), text::lower(b));
    assert(all =~= la + lp + lb);
    assert(!lp.contains(',')) by {
        if lp.contains(',') {
            let i = choose|i: int| 0 <= i < lp.len() && lp[i] == ',';
            assert(part[i] == ',');
        }
    }
    if a.len() > 0 {
        assert(la.last() == ',');
    }
    text::part_is_found(la, lp, lb, ',');
    let items = text::split(all, ',');
    let k = choose|k: int| 0 <= k < items.len() && items[k] == lp;
    assert(is_chunked_item(lp) ==> is_chunked_item(items[k]));
    if says_chunked(value) {
        let i = choose|i: int| 0 <= i < items.len() && is_chunked_item(#[trigger] items[i]);
        text::parts_are_in_the_text(all, ',', i);
        let (x, y) = choose|x: Seq<char>, y: Seq<char>|
            all == #[trigger] (x + items[i] + y) && (x.len() == 0 || x.last() == ',') && (y.len()
                == 0 || y[0] == ',');
        text::trimming_cuts_the_ends(items[i], Class::White);
        let t = text::trimmed(items[i]);
        text::trimming_cuts_the_ends(t, Class::One('"'));
        let (p, q) = choose|p: Seq<char>, q: Seq<char>| items[i] == #[trigger] (p + t + q);
        let (r, s) = choose|r: Seq<char>, s: Seq<char>| t == #[trigger] (r + "chunked"@ + s);
        assert(all =~= (x + p + r) + "chunked"@ + (s + q + y));
        assert(all == text::lower(a + part + b));
    }
}

proof fn lemma_framing_read(fs: Seq<(Seq<char>, Seq<u8>)>, n: nat)
    requires
        n <= usize::MAX,
    ensures
        reading_of(fs).chunked == exists|i: int|
            0 <= i < fs.len() && text::lower((#[trigger] fs[i]).0) == "transfer-encoding"@
                && says_chunked(fs[i].1),
        response_length_given(fs, n) ==> reading_of(fs).length == Some(n),
        (forall|i: int| 0 <= i < fs.len() ==> text::lower((#[trigger] fs[i]).0) != "content-length"@)
            ==> reading_of(fs).length is None,
    decreases fs.len(),
{
    if fs.len() > 0 {
        let rest = fs.drop_last();
        let f = fs[fs.len() - 1];
        lemma_framing_read(rest, n);
        assert(forall|i: int| 0 <= i < rest.len() ==> #[trigger] rest[i] == fs[i]);
        reveal_strlit("connection");
        reveal_strlit("proxy-connection");
        reveal_strlit("keep-alive");
        reveal_strlit("upgrade");
        reveal_strlit("transfer-encoding");
        reveal_strlit("content-length");
        assert("transfer-encoding"@.len() == 17);
        assert("content-length"@.len() == 14);
        assert(!is_hop_field("transfer-encoding"@));
        assert(!is_hop_field("content-length"@));
        if reading_of(fs).chunked && !reading_of(rest).chunked {
            assert(text::lower(fs[fs.len() - 1].0) == "transfer-encoding"@);
        }
        if exists|i: int|
            0 <= i < fs.len() && text::lower((#[trigger] fs[i]).0) == "transfer-encoding"@
                && says_chunked(fs[i].1) {
            let i = choose|i: int|
                0 <= i < fs.len() && text::lower((#[trigger] fs[i]).0) == "transfer-encoding"@
                    && says_chunked(fs[i].1);
            if i < rest.len() {
                assert(text::lower(rest[i].0) == "transfer-encoding"@);
            }
        }
        if exists|i: int|
            0 <= i < rest.len() && text::lower((#[trigger] rest[i]).0) == "transfer-encoding"@
                && says_chunked(rest[i].1) {
            let i = choose|i: int|
                0 <= i < rest.len() && text::lower((#[trigger] rest[i]).0) == "transfer-encoding"@
                    && says_chunked(rest[i].1);
            assert(text::lower(fs[i].0) == "transfer-encoding"@);
        }
        if response_length_given(fs, n) {
            let i = choose|i: int|
                0 <= i < fs.len() && text::lower((#[trigger] fs[i]).0) == "content-length"@
                    && fs[i].1 == encode_utf8(number::decimal(n)) && forall|j: int|
                    i < j < fs.len() ==> text::lower((#[trigger] fs[j]).0) != "content-length"@;
            encoding::encoded_text_reads_back(number::decimal(n));
            number::lemma_digits_plain(n);
            number::decimal_reads_back(n, usize::MAX as nat);
            let d = number::decimal(n);
            assert(!text::is_white(d[0]) && !text::is_white(d.last()));
            assert(text::trimmed(d) == d);
            if i < rest.len() {
                assert(text::lower(fs[fs.len() - 1].0) != "content-length"@);
                assert(text::lower(rest[i].0) == "content-length"@);
                assert(response_length_given(rest, n));
            }
        }
    }
}

/// Whether the last field that is named `Content-Length`, up to case, gives the
/// number.
pub open spec fn response_length_given(fs: Seq<(Seq<char>, Seq<u8>)>, n: nat) -> bool {
    exists|i: int|
        0 <= i < fs.len() && text::lower((#[trigger] fs[i]).0) == "content-length"@ && fs[i].1
            == encode_utf8(number::decimal(n)) && forall|j: int|
            i < j < fs.len() ==> text::lower((#[trigger] fs[j]).0) != "content-length"@
}

/// The body goes back: where it comes in chunks, what they hold; else the
/// announced number of bytes, as far as they came; else all that came.
pub proof fn response_body_goes_back(
    code: Option<u16>,
    fs: Seq<(Seq<char>, Seq<u8>)>,
    body: Seq<u8>,
    rest: Seq<u8>,
    n: nat,
)
    requires
        n <= usize::MAX,
    ensures
        ({
            let in_chunks = exists|i: int|
                0 <= i < fs.len() && text::lower((#[trigger] fs[i]).0) == "transfer-encoding"@
                    && says_chunked(fs[i].1);
            let unannounced = forall|i: int|
                0 <= i < fs.len() ==> text::lower((#[trigger] fs[i]).0) != "content-length"@;
            &&& in_chunks ==> (match chunked::decoded(body) {
                Ok(b) => converted(code, fs, body) matches Ok(v) && v.body == b,
                Err(e) => converted(code, fs, body) == Err::<H2View, Http1Error>(
                    Http1Error::Body(e),
                ),
            })
            &&& !in_chunks && response_length_given(fs, n) && body.len() == n ==> (converted(
                code,
                fs,
                body + rest,
            ) matches Ok(v) && v.body == body)
            &&& !in_chunks && response_length_given(fs, n) && body.len() < n ==> (converted(
                code,
                fs,
                body,
            ) matches Ok(v) && v.body == body)
            &&& !in_chunks && unannounced ==> (converted(code, fs, body) matches Ok(v) && v.body
                == body)
        }),
{
    lemma_framing_read(fs, n);
    assert((body + rest).take(body.len() as int) =~= body);
    assert(rest.len() == 0 ==> body + rest =~= body);
}

/// The HTTP/1 request has every field of the HTTP/2 request that does not frame
/// the message, in order and as it was; behind them a `Host` where none was
/// there and the address has an authority, the length of the body and the wish
/// to close the connection. Its first line is the method, the path and the
/// version.
pub proof fn request_keeps_its_fields(
    method: Seq<char>,
    path: Option<Seq<char>>,
    authority: Option<Seq<char>>,
    fs: Seq<(Seq<char>, Seq<char>)>,
    body: Seq<u8>,
    head: Seq<char>,
)
    requires
        is_word(method),
        is_word(path_or_root(path)),
        authority matches Some(a) ==> written::clean(a),
        written::all_clean(fs),
        forall|i: int| 0 <= i < fs.len() ==> text::lower((#[trigger] fs[i]).0) == fs[i].0,
        http1_request(method, path, authority, encoded_fields(fs), body) == encode_utf8(
            head + "\r\n\r\n"@,
        ) + body,
    ensures
        headers::start_line(head) == method + " "@ + (match path {
            Some(p) => p,
            None => "/"@,
        }) + " HTTP/1.1"@,
        headers::header_fields(head) == fs.filter(
            |f: (Seq<char>, Seq<char>)| !frames_a_message(f.0),
        ) + (match authority {
            Some(a) => if exists|i: int| 0 <= i < fs.len() && (#[trigger] fs[i]).0 == "host"@ {
                seq![]
            } else {
                seq![("Host"@, a)]
            },
            None => seq![],
        }) + seq![("Content-Length"@, number::decimal(body.len())), ("Connection"@, "close"@)],
{
    let line = start_line(method, path_or_root(path));
    let all = http1_fields(fs, authority, body.len());
    lemma_request_head(method, path, authority, fs, body, head);
    lemma_fields_clean(fs, authority, body.len());
    lemma_line_plain(method, path_or_root(path));
    written::written_head_reads_back(line, all);
    lemma_kept_is_filter(fs);
    let e = encoded_fields(fs);
    assert(forall|i: int| 0 <= i < fs.len() ==> (#[trigger] e[i]).0 == fs[i].0);
    if names_host(e) {
        let i = choose|i: int| 0 <= i < e.len() && (#[trigger] e[i]).0 == "host"@;
        assert(fs[i].0 == "host"@);
    }
    if exists|i: int| 0 <= i < fs.len() && (#[trigger] fs[i]).0 == "host"@ {
        let i = choose|i: int| 0 <= i < fs.len() && (#[trigger] fs[i]).0 == "host"@;
        assert(e[i].0 == "host"@);
    }
}

proof fn lemma_kept_is_filter(fs: Seq<(Seq<char>, Seq<char>)>)
    ensures
        kept(fs) == fs.filter(|f: (Seq<char>, Seq<char>)| !frames_a_message(f.0)),
    decreases fs.len(),
{
    reveal(Seq::filter);
    if fs.len() > 0 {
        lemma_kept_is_filter(fs.drop_last());
        lemma_framing_names(fs.last().0);
    }
}

/// A request whose body could not be read, one that could not be served and one
/// whose response cannot be understood are answered with a status and a text that
/// tell so; any other response goes back as it is understood.
pub proof fn failures_are_answered(p: Pipeline)
    ensures
        ({
            let r = answered(p);
            let told = |status: u16, text: Seq<char>|
                {
                    &&& r.status == status
                    &&& r.body == encode_utf8(text)
                    &&& r.headers == seq![
                        ("content-length"@, encode_utf8(number::decimal(encode_utf8(text).len()))),
                    ]
                };
            match p {
                Pipeline::BodyFailed => told(400, "Bad Request"@),
                Pipeline::Failed => told(500, "Internal Server Error"@),
                Pipeline::Response(b) => match wire::head_in(b@, MAX_FIELDS as nat) {
                    Ok(Some(h)) => match converted(h.1, h.2, b@.skip(h.0 as int)) {
                        Ok(v) => r == v,
                        Err(_) => told(502, "Bad Gateway"@),
                    },
                    _ => told(502, "Bad Gateway"@),
                },
            }
        }),
{
}

/// A response is refused where its head is not complete, where it is none, and
/// where its chunked body cannot be decoded.
pub proof fn bad_responses_are_refused(b: Seq<u8>)
    ensures
        match wire::head_in(b, MAX_FIELDS as nat) {
            Ok(Some(h)) => converted_bytes(b) == converted(h.1, h.2, b.skip(h.0 as int)),
            Ok(None) => converted_bytes(b) == Err::<H2View, Http1Error>(
                Http1Error::Head(HeadError::Incomplete),
            ),
            Err(_) => converted_bytes(b) == Err::<H2View, Http1Error>(
                Http1Error::Head(HeadError::Malformed),
            ),
        },
        MAX_FIELDS == 64,
{
}

} // verus!
