//! Reading one request from a connection.
use crate::buffer::{self, buffer_slice, find_headers_end};
use crate::encoding::lossy;
use crate::headers::{
    self, first_line, head_lines, holds_token, is_named, parse_fields, parse_items, word_string,
};
use crate::migux_http::responses::Refusal;
use crate::number::{self, parse_usize};
use crate::text::{self, chars_of, split_words, spells, string_of};
use bytes::BytesMut;
use vstd::prelude::*;
use vstd::slice::slice_subrange;

verus! {

// ---------------------------------------------------------------------------
// Content-Length
// ---------------------------------------------------------------------------

/// Why the headers of a request are refused.
#[derive(Clone, Copy, Debug, PartialEq, Eq, Structural)]
pub enum HeaderParseError {
    /// A `Content-Length` is blank or not a number.
    InvalidContentLength,
    /// Two `Content-Length` values differ.
    ConflictingContentLength,
}

/// The number that one item of a `Content-Length` value gives.
pub open spec fn length_of(item: Seq<char>) -> Option<nat> {
    number::parsed_number(item, 10, usize::MAX as nat)
}

/// The numbers among the items, in order.
pub open spec fn lengths(items: Seq<Seq<char>>) -> Seq<nat>
    decreases items.len(),
{
    if items.len() == 0 {
        seq![]
    } else {
        match length_of(items.last()) {
            Some(n) => lengths(items.drop_last()).push(n),
            None => lengths(items.drop_last()),
        }
    }
}

/// Whether two of the items give different numbers.
pub open spec fn lengths_differ(items: Seq<Seq<char>>) -> bool {
    exists|i: int| 0 <= i < lengths(items).len() && #[trigger] lengths(items)[i] != lengths(items)[0]
}

/// Whether every item is a number.
pub open spec fn lengths_valid(items: Seq<Seq<char>>) -> bool {
    forall|i: int| 0 <= i < items.len() ==> length_of(#[trigger] items[i]) is Some
}

/// The items of all `Content-Length` fields, in order.
pub open spec fn length_items(fields: Seq<(Seq<char>, Seq<char>)>) -> Seq<Seq<char>>
    decreases fields.len(),
{
    if fields.len() == 0 {
        seq![]
    } else if headers::named(fields.last(), "content-length"@) {
        length_items(fields.drop_last()) + headers::list_items(fields.last().1)
    } else {
        length_items(fields.drop_last())
    }
}

/// Whether some `Content-Length` field has no item.
pub open spec fn blank_length(fields: Seq<(Seq<char>, Seq<char>)>) -> bool {
    exists|i: int|
        0 <= i < fields.len() && headers::named(#[trigger] fields[i], "content-length"@)
            && headers::list_items(fields[i].1).len() == 0
}

/// The length that the fields announce. The same number may be given more
/// than once.
pub open spec fn announced_length(fields: Seq<(Seq<char>, Seq<char>)>) -> Result<
    nat,
    HeaderParseError,
> {
    let items = length_items(fields);
    if lengths_differ(items) {
        Err(HeaderParseError::ConflictingContentLength)
    } else if blank_length(fields) || !lengths_valid(items) {
        Err(HeaderParseError::InvalidContentLength)
    } else if items.len() == 0 {
        Ok(0)
    } else {
        Ok(lengths(items)[0])
    }
}

/// What the `Content-Length` fields seen so far amount to.
#[derive(Clone, Copy, Debug)]
pub struct ContentLengthState {
    /// The first number.
    pub value: Option<usize>,
    /// Some value was blank, not a number, or different from the first.
    pub invalid: bool,
    /// Some number was different from the first.
    pub conflict: bool,
}

impl Default for ContentLengthState {
    fn default() -> (r: Self)
        ensures
            r.value is None,
            !r.invalid,
            !r.conflict,
    {
        ContentLengthState { value: None, invalid: false, conflict: false }
    }
}

/// The state after one more item.
pub open spec fn with_item(s: ContentLengthState, item: Seq<char>) -> ContentLengthState {
    match length_of(item) {
        Some(n) => match s.value {
            Some(v) => if v == n {
                s
            } else {
                (ContentLengthState { value: s.value, invalid: true, conflict: true })
            },
            None => (ContentLengthState {
                value: Some(n as usize),
                invalid: s.invalid,
                conflict: s.conflict,
            }),
        },
        None => (ContentLengthState { value: s.value, invalid: true, conflict: s.conflict }),
    }
}

/// The state after further items.
pub open spec fn with_items(s: ContentLengthState, items: Seq<Seq<char>>) -> ContentLengthState
    decreases items.len(),
{
    if items.len() == 0 {
        s
    } else {
        with_item(with_items(s, items.drop_last()), items.last())
    }
}

impl ContentLengthState {
    /// Takes in the value of one `Content-Length` field.
    pub fn add(&mut self, raw: &[char])
        ensures
            *final(self) == (if headers::list_items(raw@).len() == 0 {
                (ContentLengthState {
                    value: old(self).value,
                    invalid: true,
                    conflict: old(self).conflict,
                })
            } else {
                with_items(*old(self), headers::list_items(raw@))
            }),
    {
        let items = parse_items(raw, ',');
        let ghost all = headers::list_items(raw@);
        let ghost start = *self;
        assert(all.take(0) =~= seq![]);
        for i in 0..items.len()
            invariant
                all == text::views(items@),
                *self == with_items(start, all.take(i as int)),
        {
            assert(all.take(i + 1).drop_last() =~= all.take(i as int));
            assert(all.take(i + 1).last() == items@[i as int]@);
            match parse_usize(items[i]) {
                Some(len) => match self.value {
                    Some(prev) => {
                        if prev != len {
                            self.conflict = true;
                            self.invalid = true;
                        }
                    },
                    None => {
                        self.value = Some(len);
                    },
                },
                None => {
                    self.invalid = true;
                },
            }
        }
        assert(all.take(items@.len() as int) =~= all);
        if items.len() == 0 {
            self.invalid = true;
        }
    }
}

/// Whether the state sums up the items, and whether there was a blank value.
spec fn sums_up(s: ContentLengthState, items: Seq<Seq<char>>, blank: bool) -> bool {
    let ns = lengths(items);
    &&& s.value == (if ns.len() == 0 {
        None
    } else {
        Some(ns[0] as usize)
    })
    &&& s.conflict == lengths_differ(items)
    &&& s.invalid == (blank || lengths_differ(items) || !lengths_valid(items))
    &&& forall|i: int| 0 <= i < ns.len() ==> ns[i] <= usize::MAX
}

proof fn lemma_with_item(s: ContentLengthState, items: Seq<Seq<char>>, blank: bool, item: Seq<char>)
    requires
        sums_up(s, items, blank),
    ensures
        sums_up(with_item(s, item), items.push(item), blank),
{
    let more = items.push(item);
    assert(more.drop_last() =~= items);
    let ns = lengths(items);
    let ms = lengths(more);
    assert(lengths_valid(more) == (lengths_valid(items) && length_of(item) is Some)) by {
        if lengths_valid(more) {
            assert forall|i: int| 0 <= i < items.len() implies length_of(#[trigger] items[i]) is Some by {
                assert(more[i] == items[i]);
            }
            assert(more[items.len() as int] == item);
        }
    }
    match length_of(item) {
        Some(n) => {
            assert(ms == ns.push(n));
            if lengths_differ(items) {
                let i = choose|i: int| 0 <= i < ns.len() && #[trigger] ns[i] != ns[0];
                assert(ms[i] != ms[0]);
            }
            if ns.len() > 0 && n != ns[0] {
                assert(ms[ns.len() as int] != ms[0]);
            }
            if lengths_differ(more) {
                let i = choose|i: int| 0 <= i < ms.len() && #[trigger] ms[i] != ms[0];
                if i < ns.len() {
                    assert(ns[i] != ns[0]);
                }
            }
        },
        None => {
            assert(ms == ns);
        },
    }
}

proof fn lemma_with_items(
    s: ContentLengthState,
    before: Seq<Seq<char>>,
    blank: bool,
    items: Seq<Seq<char>>,
)
    requires
        sums_up(s, before, blank),
    ensures
        sums_up(with_items(s, items), before + items, blank),
    decreases items.len(),
{
    if items.len() == 0 {
        assert(before + items =~= before);
    } else {
        lemma_with_items(s, before, blank, items.drop_last());
        lemma_with_item(with_items(s, items.drop_last()), before + items.drop_last(), blank, items.last());
        assert((before + items.drop_last()).push(items.last()) =~= before + items);
    }
}

// ---------------------------------------------------------------------------
// The request line and the headers
// ---------------------------------------------------------------------------

/// What the head of a request says.
#[derive(Debug)]
pub struct RequestMetadata {
    pub method: String,
    pub path: String,
    pub http_version: String,
    pub content_length: usize,
    pub close_after: bool,
    pub is_chunked: bool,
}

/// What the head of a request says, as texts and numbers.
#[verifier::ext_equal]
pub struct MetadataView {
    pub method: Seq<char>,
    pub path: Seq<char>,
    pub http_version: Seq<char>,
    pub content_length: nat,
    pub close_after: bool,
    pub is_chunked: bool,
}

impl View for RequestMetadata {
    type V = MetadataView;

    open spec fn view(&self) -> MetadataView {
        MetadataView {
            method: self.method@,
            path: self.path@,
            http_version: self.http_version@,
            content_length: self.content_length as nat,
            close_after: self.close_after,
            is_chunked: self.is_chunked,
        }
    }
}

/// Whether a field speaks of the connection.
pub open spec fn about_connection(f: (Seq<char>, Seq<char>)) -> bool {
    headers::named(f, "connection"@) || headers::named(f, "proxy-connection"@)
}

/// Whether a connection field holds the token.
pub open spec fn connection_says(fields: Seq<(Seq<char>, Seq<char>)>, token: Seq<char>) -> bool {
    exists|i: int|
        0 <= i < fields.len() && about_connection(#[trigger] fields[i]) && headers::has_token(
            fields[i].1,
            token,
        )
}

/// Whether the body comes in chunks.
pub open spec fn body_chunked(fields: Seq<(Seq<char>, Seq<char>)>) -> bool {
    exists|i: int|
        0 <= i < fields.len() && headers::named(#[trigger] fields[i], "transfer-encoding"@)
            && headers::has_token(fields[i].1, "chunked"@)
}

/// Whether the connection ends after the request.
pub open spec fn closes(version: Seq<char>, fields: Seq<(Seq<char>, Seq<char>)>) -> bool {
    if version == "HTTP/1.0"@ {
        !connection_says(fields, "keep-alive"@) || connection_says(fields, "close"@)
    } else {
        connection_says(fields, "close"@)
    }
}

/// What the head of a request says, or why it is refused.
pub open spec fn metadata_of(head: Seq<char>) -> Result<MetadataView, HeaderParseError> {
    let line = headers::start_line(head);
    let fields = headers::header_fields(head);
    let version = headers::word_or(line, 2, "HTTP/1.1"@);
    match announced_length(fields) {
        Ok(n) => Ok(
            (MetadataView {
                method: headers::word_or(line, 0, "-"@),
                path: headers::word_or(line, 1, "/"@),
                http_version: version,
                content_length: n,
                close_after: closes(version, fields),
                is_chunked: body_chunked(fields),
            }),
        ),
        Err(e) => Err(e),
    }
}

/// Reads the request line and the headers of a request.
pub fn parse_request_metadata(head: &str) -> (r: Result<RequestMetadata, HeaderParseError>)
    ensures
        match r {
            Ok(m) => metadata_of(head@) == Ok::<MetadataView, HeaderParseError>(m@),
            Err(e) => metadata_of(head@) == Err::<MetadataView, HeaderParseError>(e),
        },
{
    let hc = chars_of(head);
    let ls = head_lines(hc.as_slice());
    let line = first_line(&ls, hc.as_slice());
    assert(line@ == headers::start_line(head@));
    let words = split_words(line);
    let method = word_string(&words, 0, "-");
    let path = word_string(&words, 1, "/");
    let http_version = word_string(&words, 2, "HTTP/1.1");

    let fields = parse_fields(&ls);
    let ghost all = headers::header_fields(head@);
    assert(headers::pair_views(fields@) =~= all);
    let mut length = ContentLengthState::default();
    let mut close = false;
    let mut keep_alive = false;
    let mut is_chunked = false;
    assert(all.take(0) =~= seq![]);
    assert(!lengths_differ(seq![]));
    for i in 0..fields.len()
        invariant
            headers::pair_views(fields@) == all,
            sums_up(length, length_items(all.take(i as int)), blank_length(all.take(i as int))),
            close == connection_says(all.take(i as int), "close"@),
            keep_alive == connection_says(all.take(i as int), "keep-alive"@),
            is_chunked == body_chunked(all.take(i as int)),
    {
        let ghost seen = all.take(i as int);
        let ghost now = all.take(i + 1);
        let (name, value) = fields[i];
        let ghost f = (name@, value@);
        assert(all[i as int] == f);
        assert(now.drop_last() =~= seen);
        assert(now.last() == f);
        assert(now =~= seen.push(f));
        assert(now[i as int] == f);
        assert(forall|j: int| 0 <= j < i ==> now[j] == #[trigger] seen[j]);
        let ghost length_before = length;
        if is_named(name, "content-length") {
            length.add(value);
            proof {
                let items = headers::list_items(value@);
                let b = blank_length(seen);
                lemma_with_items(length_before, length_items(seen), b, items);
                if items.len() == 0 {
                    assert(length_items(now) =~= length_items(seen));
                    assert(blank_length(now));
                } else {
                    assert(blank_length(now) == blank_length(seen)) by {
                        lemma_blank_push(seen, f);
                    }
                }
            }
        } else {
            proof {
                lemma_blank_push(seen, f);
            }
        }
        proof {
            lemma_says_push(seen, f, "close"@);
            lemma_says_push(seen, f, "keep-alive"@);
            lemma_chunked_push(seen, f);
        }
        if is_named(name, "connection") || is_named(name, "proxy-connection") {
            if holds_token(value, "close") {
                close = true;
            }
            if holds_token(value, "keep-alive") {
                keep_alive = true;
            }
        }
        if is_named(name, "transfer-encoding") {
            if holds_token(value, "chunked") {
                is_chunked = true;
            }
        }
    }
    assert(all.take(fields@.len() as int) =~= all);
    proof {
        if lengths_valid(length_items(all)) {
            lemma_lengths_len(length_items(all));
        }
    }
    if length.invalid {
        if length.conflict {
            return Err(HeaderParseError::ConflictingContentLength);
        }
        return Err(HeaderParseError::InvalidContentLength);
    }
    let vc = chars_of(http_version.as_str());
    let close_after = if spells(vc.as_slice(), "HTTP/1.0") {
        !keep_alive || close
    } else {
        close
    };
    let content_length: usize = match length.value {
        Some(n) => n,
        None => 0,
    };
    Ok(RequestMetadata { method, path, http_version, content_length, close_after, is_chunked })
}

proof fn lemma_lengths_len(items: Seq<Seq<char>>)
    requires
        lengths_valid(items),
    ensures
        lengths(items).len() == items.len(),
    decreases items.len(),
{
    if items.len() > 0 {
        assert(length_of(items[items.len() - 1]) is Some);
        assert(lengths_valid(items.drop_last())) by {
            assert forall|i: int| 0 <= i < items.drop_last().len() implies length_of(
                #[trigger] items.drop_last()[i],
            ) is Some by {
                assert(items.drop_last()[i] == items[i]);
            }
        }
        lemma_lengths_len(items.drop_last());
    }
}

proof fn lemma_blank_push(fields: Seq<(Seq<char>, Seq<char>)>, f: (Seq<char>, Seq<char>))
    ensures
        blank_length(fields.push(f)) == (blank_length(fields) || (headers::named(
            f,
            "content-length"@,
        ) && headers::list_items(f.1).len() == 0)),
{
    let now = fields.push(f);
    assert(now[fields.len() as int] == f);
    if blank_length(fields) {
        let i = choose|i: int|
            0 <= i < fields.len() && headers::named(#[trigger] fields[i], "content-length"@)
                && headers::list_items(fields[i].1).len() == 0;
        assert(now[i] == fields[i]);
    }
    if blank_length(now) {
        let i = choose|i: int|
            0 <= i < now.len() && headers::named(#[trigger] now[i], "content-length"@)
                && headers::list_items(now[i].1).len() == 0;
        if i < fields.len() {
            assert(now[i] == fields[i]);
        }
    }
}

proof fn lemma_says_push(
    fields: Seq<(Seq<char>, Seq<char>)>,
    f: (Seq<char>, Seq<char>),
    token: Seq<char>,
)
    ensures
        connection_says(fields.push(f), token) == (connection_says(fields, token) || (
        about_connection(f) && headers::has_token(f.1, token))),
{
    let now = fields.push(f);
    assert(now[fields.len() as int] == f);
    if connection_says(fields, token) {
        let i = choose|i: int|
            0 <= i < fields.len() && about_connection(#[trigger] fields[i]) && headers::has_token(
                fields[i].1,
                token,
            );
        assert(now[i] == fields[i]);
    }
    if connection_says(now, token) {
        let i = choose|i: int|
            0 <= i < now.len() && about_connection(#[trigger] now[i]) && headers::has_token(
                now[i].1,
                token,
            );
        if i < fields.len() {
            assert(now[i] == fields[i]);
        }
    }
}

proof fn lemma_chunked_push(fields: Seq<(Seq<char>, Seq<char>)>, f: (Seq<char>, Seq<char>))
    ensures
        body_chunked(fields.push(f)) == (body_chunked(fields) || (headers::named(
            f,
            "transfer-encoding"@,
        ) && headers::has_token(f.1, "chunked"@))),
{
    let now = fields.push(f);
    assert(now[fields.len() as int] == f);
    if body_chunked(fields) {
        let i = choose|i: int|
            0 <= i < fields.len() && headers::named(#[trigger] fields[i], "transfer-encoding"@)
                && headers::has_token(fields[i].1, "chunked"@);
        assert(now[i] == fields[i]);
    }
    if body_chunked(now) {
        let i = choose|i: int|
            0 <= i < now.len() && headers::named(#[trigger] now[i], "transfer-encoding"@)
                && headers::has_token(now[i].1, "chunked"@);
        if i < fields.len() {
            assert(now[i] == fields[i]);
        }
    }
}

// ---------------------------------------------------------------------------
// The Host header
// ---------------------------------------------------------------------------

/// Whether a field names the host.
pub open spec fn gives_host(f: (Seq<char>, Seq<char>)) -> bool {
    headers::named(f, "host"@) && f.1.len() > 0
}

/// The first host that the fields name.
pub open spec fn first_host(fields: Seq<(Seq<char>, Seq<char>)>) -> Option<Seq<char>>
    decreases fields.len(),
{
    if fields.len() == 0 {
        None
    } else {
        match first_host(fields.drop_last()) {
            Some(h) => Some(h),
            None => if gives_host(fields.last()) {
                Some(fields.last().1)
            } else {
                None
            },
        }
    }
}

/// The host that a request names: the first `Host` header that is not blank.
pub fn extract_host_header(head: &str) -> (r: Option<String>)
    ensures
        match r {
            Some(h) => first_host(headers::header_fields(head@)) == Some(h@),
            None => first_host(headers::header_fields(head@)) is None,
        },
{
    let hc = chars_of(head);
    let ls = head_lines(hc.as_slice());
    let fields = parse_fields(&ls);
    let ghost all = headers::header_fields(head@);
    assert(headers::pair_views(fields@) =~= all);
    let mut found: Option<String> = None;
    assert(all.take(0) =~= seq![]);
    for i in 0..fields.len()
        invariant
            headers::pair_views(fields@) == all,
            match found {
                Some(h) => first_host(all.take(i as int)) == Some(h@),
                None => first_host(all.take(i as int)) is None,
            },
    {
        assert(all.take(i + 1).drop_last() =~= all.take(i as int));
        let (name, value) = fields[i];
        assert(all[i as int] == (name@, value@));
        if found.is_none() && is_named(name, "host") && value.len() > 0 {
            found = Some(string_of(value));
        }
    }
    assert(all.take(fields@.len() as int) =~= all);
    found
}

// ---------------------------------------------------------------------------
// Reading a request
// ---------------------------------------------------------------------------

/// What became of an attempt to read from the client.
#[derive(Clone, Copy, Debug, PartialEq, Eq, Structural)]
pub enum ReadOutcome {
    /// So many bytes were added to the buffer; none at the end of input.
    Read(usize),
    /// Nothing came in time.
    Timeout,
}

/// A request whose head has been read.
#[derive(Debug)]
pub struct ParsedRequest {
    pub headers: String,
    pub method: String,
    pub path: String,
    pub http_version: String,
    pub content_length: usize,
    pub is_chunked: bool,
    pub close_after: bool,
    pub body_start: usize,
}

/// A request as texts and numbers.
#[verifier::ext_equal]
pub struct RequestView {
    pub headers: Seq<char>,
    pub method: Seq<char>,
    pub path: Seq<char>,
    pub http_version: Seq<char>,
    pub content_length: nat,
    pub is_chunked: bool,
    pub close_after: bool,
    pub body_start: nat,
}

impl View for ParsedRequest {
    type V = RequestView;

    open spec fn view(&self) -> RequestView {
        RequestView {
            headers: self.headers@,
            method: self.method@,
            path: self.path@,
            http_version: self.http_version@,
            content_length: self.content_length as nat,
            is_chunked: self.is_chunked,
            close_after: self.close_after,
            body_start: self.body_start as nat,
        }
    }
}

/// What to do next to get a request.
#[derive(Debug)]
pub enum RequestStep {
    /// Read more; `idle` where nothing of the request has come yet.
    Read { idle: bool },
    /// Answer with the refusal and close the connection.
    Refuse(Refusal),
    /// Close the connection without an answer.
    Close,
    /// The head of the request is complete.
    Request(ParsedRequest),
}

/// A step as texts and numbers.
pub enum StepView {
    Read { idle: bool },
    Refuse(Refusal),
    Close,
    Request(RequestView),
}

impl View for RequestStep {
    type V = StepView;

    open spec fn view(&self) -> StepView {
        match *self {
            RequestStep::Read { idle } => StepView::Read { idle },
            RequestStep::Refuse(k) => StepView::Refuse(k),
            RequestStep::Close => StepView::Close,
            RequestStep::Request(q) => StepView::Request(q@),
        }
    }
}

/// The length of the body that follows a head. Chunks take precedence over an
/// announced length.
pub open spec fn body_length(m: MetadataView) -> nat {
    if m.is_chunked {
        0
    } else {
        m.content_length
    }
}

/// What a complete head leads to. A limit of zero is none.
pub open spec fn judged(head: Seq<char>, headers_end: nat, max_body: nat) -> StepView {
    match metadata_of(head) {
        Err(_) => StepView::Refuse(Refusal::BadRequest),
        Ok(m) => if max_body > 0 && body_length(m) > max_body {
            StepView::Refuse(Refusal::PayloadTooLarge)
        } else {
            StepView::Request(
                (RequestView {
                    headers: head,
                    method: m.method,
                    path: m.path,
                    http_version: m.http_version,
                    content_length: body_length(m),
                    is_chunked: m.is_chunked,
                    close_after: m.close_after,
                    body_start: headers_end + 4,
                }),
            )
        },
    }
}

/// Decides on a request whose head is complete.
pub fn judge_request(head: String, headers_end: usize, max_body: u64) -> (r: RequestStep)
    requires
        headers_end + 4 <= usize::MAX,
    ensures
        r@ == judged(head@, headers_end as nat, max_body as nat),
        r matches RequestStep::Request(q) ==> q.body_start == headers_end + 4,
{
    match parse_request_metadata(head.as_str()) {
        Err(_) => RequestStep::Refuse(Refusal::BadRequest),
        Ok(m) => {
            let content_length: usize = if m.is_chunked {
                0
            } else {
                m.content_length
            };
            if max_body > 0 && content_length as u64 > max_body {
                return RequestStep::Refuse(Refusal::PayloadTooLarge);
            }
            RequestStep::Request(
                ParsedRequest {
                    headers: head,
                    method: m.method,
                    path: m.path,
                    http_version: m.http_version,
                    content_length,
                    is_chunked: m.is_chunked,
                    close_after: m.close_after,
                    body_start: headers_end + 4,
                },
            )
        },
    }
}

/// What the bytes received so far lead to.
pub open spec fn step_of(buf: Seq<u8>, max_headers: nat, max_body: nat) -> StepView {
    match text::first_occurrence(buf, buffer::head_end()) {
        Some(i) => judged(crate::encoding::lossy_text(buf.take(i)), i as nat, max_body),
        None => if max_headers > 0 && buf.len() > max_headers {
            StepView::Refuse(Refusal::HeadersTooLarge)
        } else {
            StepView::Read { idle: buf.len() == 0 }
        },
    }
}

/// The next step, given what became of the last attempt to read.
pub open spec fn step_after(
    buf: Seq<u8>,
    last: Option<ReadOutcome>,
    max_headers: nat,
    max_body: nat,
) -> StepView {
    match last {
        Some(ReadOutcome::Timeout) => if buf.len() == 0 {
            StepView::Close
        } else {
            StepView::Refuse(Refusal::RequestTimeout)
        },
        Some(ReadOutcome::Read(n)) => if n == 0 {
            StepView::Close
        } else {
            step_of(buf, max_headers, max_body)
        },
        None => step_of(buf, max_headers, max_body),
    }
}

/// Takes one step in reading the head of a request. The caller starts with
/// `None`, and answers every `Read` with what became of the attempt.
pub fn read_http_request(
    buf: &BytesMut,
    last: Option<ReadOutcome>,
    max_headers: u64,
    max_body: u64,
) -> (r: RequestStep)
    ensures
        r@ == step_after(buffer::buffered(*buf), last, max_headers as nat, max_body as nat),
        r matches RequestStep::Request(q) ==> q.body_start <= buffer::buffered(*buf).len(),
{
    let b = buffer_slice(buf);
    let len: usize = b.len();
    match last {
        Some(ReadOutcome::Timeout) => {
            if len == 0 {
                return RequestStep::Close;
            }
            return RequestStep::Refuse(Refusal::RequestTimeout);
        },
        Some(ReadOutcome::Read(n)) => {
            if n == 0 {
                return RequestStep::Close;
            }
        },
        None => {},
    }
    match find_headers_end(b) {
        Some(end) => {
            let head = lossy(slice_subrange(b, 0, end));
            assert(b@.subrange(0, end as int) =~= b@.take(end as int));
            judge_request(head, end, max_body)
        },
        None => {
            if max_headers > 0 && len as u64 > max_headers {
                RequestStep::Refuse(Refusal::HeadersTooLarge)
            } else {
                RequestStep::Read { idle: len == 0 }
            }
        },
    }
}

// ---------------------------------------------------------------------------
// Requests as clients write them
// ---------------------------------------------------------------------------

/// Whether a text is a word: not empty, and without white space.
pub open spec fn is_word(s: Seq<char>) -> bool {
    s.len() > 0 && forall|i: int| 0 <= i < s.len() ==> !text::is_white(#[trigger] s[i])
}

/// A request line gives the method, the path and the version. Where words are
/// missing, the version is HTTP/1.1, the path is the root, and there is no method.
pub proof fn request_line_is_read(a: Seq<char>, b: Seq<char>, c: Seq<char>)
    requires
        is_word(a),
        is_word(b),
        is_word(c),
    ensures
        ({
            let full = a + " "@ + b + " "@ + c;
            &&& headers::word_or(full, 0, "-"@) == a
            &&& headers::word_or(full, 1, "/"@) == b
            &&& headers::word_or(full, 2, "HTTP/1.1"@) == c
            &&& !full.contains('\n')
        }),
        headers::word_or(a + " "@ + b, 1, "/"@) == b,
        headers::word_or(a + " "@ + b, 2, "HTTP/1.1"@) == "HTTP/1.1"@,
        headers::word_or(a, 0, "-"@) == a,
        headers::word_or(a, 1, "/"@) == "/"@,
        headers::word_or(seq![], 0, "-"@) == "-"@,
{
    reveal_strlit(" ");
    let none = Seq::<char>::empty();
    assert(text::words(none) =~= seq![]);
    text::lemma_word(c, none);
    assert(c + none =~= c);
    text::lemma_leading_white(' ', c);
    let s2 = seq![' '] + c;
    text::lemma_word(b, s2);
    text::lemma_leading_white(' ', b + s2);
    text::lemma_word(a, seq![' '] + (b + s2));
    let full = a + " "@ + b + " "@ + c;
    assert(full =~= a + (seq![' '] + (b + s2)));
    assert(text::words(full) =~= seq![a, b, c]);
    text::lemma_word(b, none);
    assert(b + none =~= b);
    text::lemma_leading_white(' ', b);
    text::lemma_word(a, seq![' '] + b);
    assert(a + " "@ + b =~= a + (seq![' '] + b));
    assert(text::words(a + " "@ + b) =~= seq![a, b]);
    text::lemma_word(a, none);
    assert(a + none =~= a);
    assert(text::words(a) =~= seq![a]);
    assert forall|i: int| 0 <= i < full.len() implies full[i] != '\n' by {
        if i < a.len() {
            assert(full[i] == a[i]);
        } else if a.len() < i <= a.len() + b.len() {
            assert(full[i] == b[i - a.len() - 1]);
        } else if i > a.len() + b.len() + 1 {
            assert(full[i] == c[i - a.len() - b.len() - 2]);
        }
    }
}

proof fn lemma_no_lengths(fs: Seq<(Seq<char>, Seq<char>)>)
    requires
        forall|i: int| 0 <= i < fs.len() ==> text::lower((#[trigger] fs[i]).0) != "content-length"@,
    ensures
        length_items(fs) == Seq::<Seq<char>>::empty(),
    decreases fs.len(),
{
    if fs.len() > 0 {
        let rest = fs.drop_last();
        assert(text::lower(fs[fs.len() - 1].0) != "content-length"@);
        assert forall|i: int| 0 <= i < rest.len() implies text::lower((#[trigger] rest[i]).0)
            != "content-length"@ by {
            assert(rest[i] == fs[i]);
        }
        lemma_no_lengths(rest);
    }
}

proof fn lemma_number_item(n: nat)
    ensures
        headers::list_items(number::decimal(n)) == seq![number::decimal(n)],
        n <= usize::MAX ==> length_of(number::decimal(n)) == Some(n),
{
    let d = number::decimal(n);
    number::lemma_digits_plain(n);
    assert(!text::is_white(d[0]) && !text::is_white(d.last()));
    assert(text::trimmed(d) == d);
    assert(!d.contains(','));
    headers::lemma_one_item(d);
    if n <= usize::MAX {
        number::decimal_reads_back(n, usize::MAX as nat);
    }
}

proof fn lemma_same_lengths(fs: Seq<(Seq<char>, Seq<char>)>, n: nat)
    requires
        n <= usize::MAX,
        forall|i: int|
            0 <= i < fs.len() && text::lower((#[trigger] fs[i]).0) == "content-length"@ ==> fs[i].1
                == number::decimal(n),
    ensures
        forall|k: int|
            0 <= k < length_items(fs).len() ==> #[trigger] length_items(fs)[k] == number::decimal(n),
        (exists|i: int| 0 <= i < fs.len() && text::lower((#[trigger] fs[i]).0) == "content-length"@)
            ==> length_items(fs).len() > 0,
    decreases fs.len(),
{
    if fs.len() > 0 {
        let rest = fs.drop_last();
        assert(forall|i: int| 0 <= i < rest.len() ==> #[trigger] rest[i] == fs[i]);
        assert(fs.last() == fs[fs.len() - 1]);
        lemma_same_lengths(rest, n);
        lemma_number_item(n);
        if exists|i: int| 0 <= i < fs.len() && text::lower((#[trigger] fs[i]).0) == "content-length"@ {
            let i = choose|i: int|
                0 <= i < fs.len() && text::lower((#[trigger] fs[i]).0) == "content-length"@;
            if i < rest.len() {
                assert(text::lower(rest[i].0) == "content-length"@);
            }
        }
    }
}

proof fn lemma_lengths_same(items: Seq<Seq<char>>, n: nat)
    requires
        n <= usize::MAX,
        forall|k: int| 0 <= k < items.len() ==> #[trigger] items[k] == number::decimal(n),
    ensures
        lengths(items).len() == items.len(),
        forall|k: int| 0 <= k < items.len() ==> #[trigger] lengths(items)[k] == n,
    decreases items.len(),
{
    if items.len() > 0 {
        let rest = items.drop_last();
        assert(forall|k: int| 0 <= k < rest.len() ==> #[trigger] rest[k] == items[k]);
        assert(items.last() == items[items.len() - 1]);
        lemma_lengths_same(rest, n);
        lemma_number_item(n);
    }
}

proof fn lemma_items_held(fs: Seq<(Seq<char>, Seq<char>)>, i: int, k: int) -> (at: int)
    requires
        0 <= i < fs.len(),
        text::lower(fs[i].0) == "content-length"@,
        0 <= k < headers::list_items(fs[i].1).len(),
    ensures
        0 <= at < length_items(fs).len(),
        length_items(fs)[at] == headers::list_items(fs[i].1)[k],
    decreases fs.len(),
{
    let rest = fs.drop_last();
    if i < rest.len() {
        assert(rest[i] == fs[i]);
        lemma_items_held(rest, i, k)
    } else {
        length_items(rest).len() + k
    }
}

proof fn lemma_numbers_held(items: Seq<Seq<char>>, k: int) -> (at: int)
    requires
        0 <= k < items.len(),
        length_of(items[k]) is Some,
    ensures
        0 <= at < lengths(items).len(),
        Some(lengths(items)[at]) == length_of(items[k]),
    decreases items.len(),
{
    if k < items.len() - 1 {
        assert(items.drop_last()[k] == items[k]);
        lemma_numbers_held(items.drop_last(), k)
    } else {
        assert(items.last() == items[k]);
        lengths(items.drop_last()).len() as int
    }
}

/// The length of a request is the number that its `Content-Length` fields give,
/// whatever the case of their name and however often it is given; without such a
/// field it is zero. Two different numbers, here in the fields `i` and `j`, are a
/// conflict.
pub proof fn length_is_what_all_say(
    fs: Seq<(Seq<char>, Seq<char>)>,
    n: nat,
    m: nat,
    i: int,
    j: int,
)
    requires
        n <= usize::MAX,
        m <= usize::MAX,
    ensures
        (forall|k: int| 0 <= k < fs.len() ==> text::lower((#[trigger] fs[k]).0) != "content-length"@)
            ==> announced_length(fs) == Ok::<nat, HeaderParseError>(0),
        (forall|k: int|
            0 <= k < fs.len() && text::lower((#[trigger] fs[k]).0) == "content-length"@ ==> fs[k].1
                == number::decimal(n)) && (exists|k: int|
            0 <= k < fs.len() && text::lower((#[trigger] fs[k]).0) == "content-length"@)
            ==> announced_length(fs) == Ok::<nat, HeaderParseError>(n),
        0 <= i < fs.len() && 0 <= j < fs.len() && text::lower(fs[i].0) == "content-length"@
            && text::lower(fs[j].0) == "content-length"@ && fs[i].1 == number::decimal(n) && fs[j].1
            == number::decimal(m) && n != m ==> announced_length(fs) == Err::<nat, HeaderParseError>(
            HeaderParseError::ConflictingContentLength,
        ),
{
    let items = length_items(fs);
    lemma_number_item(n);
    lemma_number_item(m);
    if forall|k: int| 0 <= k < fs.len() ==> text::lower((#[trigger] fs[k]).0) != "content-length"@ {
        lemma_no_lengths(fs);
    }
    if (forall|k: int|
        0 <= k < fs.len() && text::lower((#[trigger] fs[k]).0) == "content-length"@ ==> fs[k].1
            == number::decimal(n)) && (exists|k: int|
        0 <= k < fs.len() && text::lower((#[trigger] fs[k]).0) == "content-length"@) {
        lemma_same_lengths(fs, n);
        lemma_lengths_same(items, n);
        assert(!blank_length(fs));
        assert(!lengths_differ(items));
        assert(lengths_valid(items));
        assert(lengths(items)[0] == n);
    }
    if 0 <= i < fs.len() && 0 <= j < fs.len() && text::lower(fs[i].0) == "content-length"@
        && text::lower(fs[j].0) == "content-length"@ && fs[i].1 == number::decimal(n) && fs[j].1
        == number::decimal(m) && n != m {
        let x = lemma_items_held(fs, i, 0);
        let y = lemma_items_held(fs, j, 0);
        let p = lemma_numbers_held(items, x);
        let q = lemma_numbers_held(items, y);
        assert(lengths(items)[p] == n);
        assert(lengths(items)[q] == m);
        assert(lengths(items)[p] != lengths(items)[0] || lengths(items)[q] != lengths(items)[0]);
    }
}

/// A `Content-Length` that is empty or no number makes a request invalid: one
/// value with a character that is neither a digit nor a sign, here at `k`.
pub proof fn bad_length_is_refused(fs: Seq<(Seq<char>, Seq<char>)>, i: int, k: int)
    requires
        0 <= i < fs.len(),
        text::lower(fs[i].0) == "content-length"@,
        fs[i].1.len() == 0 || (headers::plain_item(fs[i].1) && 0 <= k < fs[i].1.len() && !('0'
            <= fs[i].1[k] <= '9') && fs[i].1[k] != '+'),
    ensures
        announced_length(fs) is Err,
{
    let v = fs[i].1;
    if v.len() == 0 {
        headers::list_reads_back(seq![]);
        assert(headers::joined(seq![]) =~= v);
        assert(headers::list_items(v).len() == 0);
        assert(blank_length(fs));
    } else {
        headers::list_reads_back(seq![v]);
        assert(headers::joined(seq![v]) =~= v);
        let at = lemma_items_held(fs, i, 0);
        let d = number::without_plus(v);
        assert(!number::is_digit(v[k], 10)) by {
            number::decimal_digits_only(v[k]);
        }
        if v[0] == '+' {
            assert(d[k - 1] == v[k]);
        }
        assert(length_of(v) is None);
        assert(!lengths_valid(length_items(fs)));
    }
}

/// A connection is closed behind a request of HTTP/1.1 only where it says so, and
/// behind one of HTTP/1.0 unless it says that it is kept, in a `Connection` or
/// `Proxy-Connection` field; a body is chunked where a `Transfer-Encoding` field
/// says so.
pub proof fn connection_is_kept_as_asked(version: Seq<char>, fs: Seq<(Seq<char>, Seq<char>)>)
    ensures
        ({
            let close = exists|i: int|
                0 <= i < fs.len() && (text::lower((#[trigger] fs[i]).0) == "connection"@ || text::lower(
                    fs[i].0,
                ) == "proxy-connection"@) && headers::has_token(fs[i].1, "close"@);
            let keep = exists|i: int|
                0 <= i < fs.len() && (text::lower((#[trigger] fs[i]).0) == "connection"@ || text::lower(
                    fs[i].0,
                ) == "proxy-connection"@) && headers::has_token(fs[i].1, "keep-alive"@);
            &&& close ==> closes(version, fs)
            &&& !close && version != "HTTP/1.0"@ ==> !closes(version, fs)
            &&& !close && version == "HTTP/1.0"@ ==> closes(version, fs) == !keep
        }),
        body_chunked(fs) == exists|i: int|
            0 <= i < fs.len() && text::lower((#[trigger] fs[i]).0) == "transfer-encoding"@
                && headers::has_token(fs[i].1, "chunked"@),
{
    assert(forall|i: int|
        0 <= i < fs.len() ==> #[trigger] about_connection(fs[i]) == (text::lower(fs[i].0)
            == "connection"@ || text::lower(fs[i].0) == "proxy-connection"@));
    if connection_says(fs, "close"@) {
        let i = choose|i: int|
            0 <= i < fs.len() && about_connection(#[trigger] fs[i]) && headers::has_token(
                fs[i].1,
                "close"@,
            );
        assert(headers::has_token(fs[i].1, "close"@));
    }
    if connection_says(fs, "keep-alive"@) {
        let i = choose|i: int|
            0 <= i < fs.len() && about_connection(#[trigger] fs[i]) && headers::has_token(
                fs[i].1,
                "keep-alive"@,
            );
        assert(headers::has_token(fs[i].1, "keep-alive"@));
    }
}

/// The host of a request is its first `Host` that is not empty.
pub proof fn first_host_counts(fs: Seq<(Seq<char>, Seq<char>)>, i: int)
    requires
        0 <= i <= fs.len(),
        i < fs.len() ==> text::lower(fs[i].0) == "host"@ && fs[i].1.len() > 0,
        forall|j: int|
            0 <= j < i ==> text::lower((#[trigger] fs[j]).0) != "host"@ || fs[j].1.len() == 0,
    ensures
        first_host(fs) == (if i < fs.len() {
            Some(fs[i].1)
        } else {
            None
        }),
    decreases fs.len(),
{
    if fs.len() > 0 {
        let rest = fs.drop_last();
        assert(forall|j: int| 0 <= j < rest.len() ==> #[trigger] rest[j] == fs[j]);
        if i < fs.len() - 1 {
            first_host_counts(rest, i);
        } else {
            assert forall|j: int| 0 <= j < rest.len() implies text::lower((#[trigger] rest[j]).0)
                != "host"@ || rest[j].1.len() == 0 by {
                assert(rest[j] == fs[j]);
                assert(j < i);
            }
            first_host_counts(rest, rest.len() as int);
            if i == fs.len() {
                let l = fs[fs.len() - 1];
                assert(text::lower(l.0) != "host"@ || l.1.len() == 0);
            }
        }
    }
}

/// A request is handed on with what its head says once the head is there; its
/// body begins behind the empty line. The length of a chunked one does not count.
/// It is refused where its length cannot be told, or exceeds a limit that is not
/// zero.
pub proof fn request_is_handed_on(
    head: Seq<u8>,
    rest: Seq<u8>,
    m: MetadataView,
    max_headers: nat,
    max_body: nat,
)
    requires
        text::first_occurrence(
            head + seq![13u8, 10u8, 13u8, 10u8] + rest,
            seq![13u8, 10u8, 13u8, 10u8],
        ) == Some(head.len() as int),
    ensures
        ({
            let buf = head + seq![13u8, 10u8, 13u8, 10u8] + rest;
            let t = crate::encoding::lossy_text(head);
            let s = step_of(buf, max_headers, max_body);
            &&& metadata_of(t) is Err ==> s == StepView::Refuse(Refusal::BadRequest)
            &&& metadata_of(t) == Ok::<MetadataView, HeaderParseError>(m) ==> (if !m.is_chunked
                && max_body != 0 && m.content_length > max_body {
                s == StepView::Refuse(Refusal::PayloadTooLarge)
            } else {
                s == StepView::Request(
                    (RequestView {
                        headers: t,
                        method: m.method,
                        path: m.path,
                        http_version: m.http_version,
                        content_length: if m.is_chunked {
                            0
                        } else {
                            m.content_length
                        },
                        is_chunked: m.is_chunked,
                        close_after: m.close_after,
                        body_start: head.len() + 4,
                    }),
                )
            })
        }),
{
    let buf = head + seq![13u8, 10u8, 13u8, 10u8] + rest;
    assert(buf.take(head.len() as int) =~= head);
}

/// Without a complete head more is read, unless the head exceeds a limit that is
/// not zero. A client that sends nothing in time, or closes, is left; one that
/// stops inside a head is told so.
pub proof fn head_is_awaited(buf: Seq<u8>, n: usize, max_headers: nat, max_body: nat)
    requires
        text::first_occurrence(buf, seq![13u8, 10u8, 13u8, 10u8]) is None,
        n > 0,
    ensures
        max_headers != 0 && buf.len() > max_headers ==> step_of(buf, max_headers, max_body)
            == StepView::Refuse(Refusal::HeadersTooLarge),
        max_headers == 0 || buf.len() <= max_headers ==> step_of(buf, max_headers, max_body)
            == (StepView::Read { idle: buf.len() == 0 }),
        step_after(buf, None, max_headers, max_body) == step_of(buf, max_headers, max_body),
        step_after(buf, Some(ReadOutcome::Read(n)), max_headers, max_body) == step_of(
            buf,
            max_headers,
            max_body,
        ),
        step_after(buf, Some(ReadOutcome::Read(0)), max_headers, max_body) == StepView::Close,
        buf.len() == 0 ==> step_after(buf, Some(ReadOutcome::Timeout), max_headers, max_body)
            == StepView::Close,
        buf.len() > 0 ==> step_after(buf, Some(ReadOutcome::Timeout), max_headers, max_body)
            == StepView::Refuse(Refusal::RequestTimeout),
{
}

/// The head of a request is read as it was written.
pub proof fn metadata_is_what_was_written(
    method: Seq<char>,
    path: Seq<char>,
    version: Seq<char>,
    fs: Seq<(Seq<char>, Seq<char>)>,
    head: Seq<char>,
)
    requires
        is_word(method),
        is_word(path),
        is_word(version),
        crate::written::all_clean(fs),
        head + "\r\n"@ == crate::written::head_text(method + " "@ + path + " "@ + version, fs),
    ensures
        metadata_of(head) == (match announced_length(fs) {
            Ok(n) => Ok::<MetadataView, HeaderParseError>(
                (MetadataView {
                    method,
                    path,
                    http_version: version,
                    content_length: n,
                    close_after: closes(version, fs),
                    is_chunked: body_chunked(fs),
                }),
            ),
            Err(e) => Err::<MetadataView, HeaderParseError>(e),
        }),
{
    request_line_is_read(method, path, version);
    crate::written::written_head_reads_back(method + " "@ + path + " "@ + version, fs);
    assert(headers::start_line(head) == method + " "@ + path + " "@ + version);
    assert(headers::header_fields(head) == fs);
}

} // verus!
