//! Reading an upstream response as a whole before it is passed on.
use crate::buffer::{self, copy_bytes, find_headers_end, push_bytes};
use crate::encoding::{self, lossy};
use crate::headers::{self, any_line_says, find_last_number, head_lines, parse_line_value};
use crate::text::{self, chars_of, contains_text, spells};
use crate::migux_proxy::response;
use crate::written;
use vstd::prelude::*;
use vstd::slice::slice_subrange;

verus! {

// ---------------------------------------------------------------------------
// The response
// ---------------------------------------------------------------------------

/// The limit on the head of a response.
pub const MAX_RESPONSE_HEAD: usize = 65536;

/// Why a response is given up.
#[derive(Clone, Copy, Debug, PartialEq, Eq, Structural)]
pub enum BufferedFault {
    /// The upstream closed the connection without an answer.
    NoResponse,
    /// The upstream closed the connection inside the head.
    ClosedInHeaders,
    /// The head exceeds the limit.
    HeadersTooLarge,
}

/// What to do with the bytes received so far.
#[derive(Debug)]
pub enum BufferedStep {
    /// Read more.
    NeedMore,
    /// The response is complete; whether the connection can be used again.
    Done(Vec<u8>, bool),
    /// The response is given up.
    Fail(BufferedFault),
}

/// A step as bytes.
#[verifier::ext_equal]
pub enum BufferedView {
    NeedMore,
    Done(Seq<u8>, bool),
    Fail(BufferedFault),
}

impl View for BufferedStep {
    type V = BufferedView;

    open spec fn view(&self) -> BufferedView {
        match *self {
            BufferedStep::NeedMore => BufferedView::NeedMore,
            BufferedStep::Done(b, reusable) => BufferedView::Done(b@, reusable),
            BufferedStep::Fail(f) => BufferedView::Fail(f),
        }
    }
}

/// Whether some line says exactly that the connection is closed.
pub open spec fn says_close(ls: Seq<Seq<char>>) -> bool {
    exists|i: int|
        0 <= i < ls.len() && headers::line_value(#[trigger] ls[i], "connection:"@) == Some("close"@)
}

/// Whether some line says that the connection is kept open.
pub open spec fn says_keep_alive(ls: Seq<Seq<char>>) -> bool {
    headers::some_line_says(ls, "connection:"@, "keep-alive"@)
}

/// Whether the connection can be used again after the response.
pub open spec fn buffered_reusable(head: Seq<char>) -> bool {
    let ls = headers::header_lines(head);
    if text::has_text(headers::start_line(head), "HTTP/1.0"@) {
        says_keep_alive(ls) && !says_close(ls)
    } else {
        !says_close(ls)
    }
}

/// What to do with a response whose head is complete: `rest` is what has come
/// behind it.
pub open spec fn buffered_body(head: Seq<char>, front: Seq<u8>, rest: Seq<u8>, eof: bool) -> BufferedView {
    let ls = headers::header_lines(head);
    if headers::some_line_says(ls, "transfer-encoding:"@, "chunked"@) {
        if eof {
            BufferedView::Done(front + rest, false)
        } else {
            BufferedView::NeedMore
        }
    } else {
        match headers::last_number(ls, "content-length:"@) {
            Some(n) => if n <= rest.len() {
                BufferedView::Done(front + rest.take(n as int), buffered_reusable(head))
            } else if eof {
                BufferedView::Done(front + rest, buffered_reusable(head))
            } else {
                BufferedView::NeedMore
            },
            None => if eof {
                BufferedView::Done(front + rest, false)
            } else {
                BufferedView::NeedMore
            },
        }
    }
}

/// What to do with the bytes received so far; `eof` where the upstream has
/// closed the connection.
pub open spec fn buffered_step(buf: Seq<u8>, eof: bool) -> BufferedView {
    match text::first_occurrence(buf, buffer::head_end()) {
        Some(i) => buffered_body(
            encoding::lossy_text(buf.take(i)),
            buf.take(i + 4),
            buf.skip(i + 4),
            eof,
        ),
        None => if eof {
            BufferedView::Fail(
                if buf.len() == 0 {
                    BufferedFault::NoResponse
                } else {
                    BufferedFault::ClosedInHeaders
                },
            )
        } else if buf.len() > MAX_RESPONSE_HEAD {
            BufferedView::Fail(BufferedFault::HeadersTooLarge)
        } else {
            BufferedView::NeedMore
        },
    }
}

/// Whether some line, from a line on, says exactly that the connection is
/// closed.
fn any_line_closes(ls: &Vec<&[char]>, from: usize) -> (r: bool)
    requires
        from <= ls@.len(),
    ensures
        r == says_close(text::views(ls@).skip(from as int)),
{
    let ghost all = text::views(ls@).skip(from as int);
    let mut i: usize = from;
    while i < ls.len()
        invariant
            from <= i <= ls@.len(),
            all == text::views(ls@).skip(from as int),
            forall|j: int|
                0 <= j < i - from ==> headers::line_value(#[trigger] all[j], "connection:"@) != Some(
                    "close"@,
                ),
        decreases ls@.len() - i,
    {
        assert(all[i - from] == ls@[i as int]@);
        match parse_line_value(ls[i], "connection:") {
            Some(v) => {
                if spells(v.as_slice(), "close") {
                    return true;
                }
            },
            None => {},
        }
        i = i + 1;
    }
    false
}

/// Decides on a response whose head is complete.
pub fn judge_response(head: &str, front: &[u8], rest: &[u8], eof: bool) -> (r: BufferedStep)
    ensures
        r@ == buffered_body(head@, front@, rest@, eof),
{
    let hc = chars_of(head);
    let ls = head_lines(hc.as_slice());
    assert(text::views(ls@).len() == ls@.len());
    let from: usize = if ls.len() == 0 {
        0
    } else {
        1
    };
    assert(headers::header_lines(head@) =~= text::views(ls@).skip(from as int));
    let chunked = any_line_says(&ls, from, "transfer-encoding:", "chunked");
    let length = if chunked {
        None
    } else {
        find_last_number(&ls, from, "content-length:")
    };
    let mut response = copy_bytes(front);
    match length {
        Some(n) => {
            let http10 = if ls.len() == 0 {
                proof {
                    reveal_strlit("HTTP/1.0");
                    assert(!text::has_text(headers::start_line(head@), "HTTP/1.0"@));
                }
                false
            } else {
                assert(text::views(ls@)[0] == ls@[0]@);
                contains_text(ls[0], "HTTP/1.0")
            };
            let close = any_line_closes(&ls, from);
            let keep_alive = any_line_says(&ls, from, "connection:", "keep-alive");
            let reusable = if http10 {
                keep_alive && !close
            } else {
                !close
            };
            let have: usize = rest.len();
            if n <= have {
                push_bytes(&mut response, slice_subrange(rest, 0, n));
                assert(rest@.subrange(0, n as int) =~= rest@.take(n as int));
                BufferedStep::Done(response, reusable)
            } else if eof {
                push_bytes(&mut response, rest);
                BufferedStep::Done(response, reusable)
            } else {
                BufferedStep::NeedMore
            }
        },
        None => {
            if eof {
                push_bytes(&mut response, rest);
                BufferedStep::Done(response, false)
            } else {
                BufferedStep::NeedMore
            }
        },
    }
}

/// Takes one step in reading a response: decides on all bytes received so far.
pub fn read_http_response(buf: &[u8], eof: bool) -> (r: BufferedStep)
    ensures
        r@ == buffered_step(buf@, eof),
{
    let len: usize = buf.len();
    match find_headers_end(buf) {
        Some(end) => {
            let head = lossy(slice_subrange(buf, 0, end));
            let front = slice_subrange(buf, 0, end + 4);
            let rest = slice_subrange(buf, end + 4, len);
            assert(buf@.subrange(0, end as int) =~= buf@.take(end as int));
            assert(front@ =~= buf@.take(end + 4));
            assert(rest@ =~= buf@.skip(end + 4));
            judge_response(head.as_str(), front, rest, eof)
        },
        None => {
            if eof {
                if len == 0 {
                    BufferedStep::Fail(BufferedFault::NoResponse)
                } else {
                    BufferedStep::Fail(BufferedFault::ClosedInHeaders)
                }
            } else if len > MAX_RESPONSE_HEAD {
                BufferedStep::Fail(BufferedFault::HeadersTooLarge)
            } else {
                BufferedStep::NeedMore
            }
        },
    }
}

/// A response that has been read is the beginning of what the upstream sent.
pub proof fn response_is_a_prefix(buf: Seq<u8>, eof: bool)
    ensures
        buffered_step(buf, eof) matches BufferedView::Done(r, _) ==> r.len() <= buf.len() && r
            == buf.take(r.len() as int),
{
    text::lemma_first_occurrence(buf, buffer::head_end());
    match text::first_occurrence(buf, buffer::head_end()) {
        Some(i) => {
            let front = buf.take(i + 4);
            let rest = buf.skip(i + 4);
            assert(front + rest =~= buf);
            assert(buf.take(buf.len() as int) =~= buf);
            match buffered_step(buf, eof) {
                BufferedView::Done(r, _) => {
                    assert(r =~= buf.take(r.len() as int));
                },
                _ => {},
            }
        },
        None => {},
    }
}

// ---------------------------------------------------------------------------
// Heads as upstreams write them
// ---------------------------------------------------------------------------

/// Whether a field named `Connection`, up to case, says just that the connection
/// closes.
pub open spec fn told_to_close(fs: Seq<(Seq<char>, Seq<char>)>) -> bool {
    exists|i: int|
        0 <= i < fs.len() && text::lower((#[trigger] fs[i]).0) == "connection"@ && text::lower(
            fs[i].1,
        ) == "close"@
}

proof fn lemma_told_to_close(fs: Seq<(Seq<char>, Seq<char>)>)
    requires
        written::all_clean(fs),
    ensures
        says_close(written::bare_lines(fs)) == told_to_close(fs),
{
    let ls = written::bare_lines(fs);
    reveal_strlit("connection:");
    reveal_strlit("connection");
    assert("connection:"@ =~= "connection"@.push(':'));
    assert forall|i: int| 0 <= i < fs.len() implies (headers::line_value(
        #[trigger] ls[i],
        "connection:"@,
    ) == Some("close"@)) == (text::lower(fs[i].0) == "connection"@ && text::lower(fs[i].1)
        == "close"@) by {
        assert(written::clean_field(fs[i]));
        written::field_is_found_by_name(fs[i], "connection"@);
    }
    if told_to_close(fs) {
        let i = choose|i: int|
            0 <= i < fs.len() && text::lower((#[trigger] fs[i]).0) == "connection"@ && text::lower(
                fs[i].1,
            ) == "close"@;
        assert(headers::line_value(ls[i], "connection:"@) == Some("close"@));
    }
    if says_close(ls) {
        let i = choose|i: int|
            0 <= i < ls.len() && headers::line_value(#[trigger] ls[i], "connection:"@) == Some(
                "close"@,
            );
        assert(text::lower(fs[i].0) == "connection"@);
    }
}

/// A response of known length is complete with as many bytes of body as its head
/// announces; one that comes in chunks, or whose end is not announced, with the
/// end of the connection, which is not used again. Before that more is read.
pub proof fn response_is_awaited(
    line: Seq<char>,
    fs: Seq<(Seq<char>, Seq<char>)>,
    head: Seq<char>,
    front: Seq<u8>,
    body: Seq<u8>,
    rest: Seq<u8>,
)
    requires
        !line.contains('\n'),
        written::all_clean(fs),
        head + "\r\n"@ == written::head_text(line, fs),
        body.len() <= usize::MAX,
    ensures
        ({
            let in_chunks = response::field_says(fs, "transfer-encoding"@, "chunked"@);
            let kept = if text::has_text(line, "HTTP/1.0"@) {
                response::field_says(fs, "connection"@, "keep-alive"@) && !told_to_close(fs)
            } else {
                !told_to_close(fs)
            };
            &&& !in_chunks && response::length_given(fs, body.len()) ==> buffered_body(
                head,
                front,
                body + rest,
                false,
            ) == BufferedView::Done(front + body, kept)
            &&& !in_chunks && response::length_given(fs, body.len()) && rest.len() > 0 ==> (
            forall|k: int|
                0 <= k < body.len() ==> #[trigger] buffered_body(head, front, body.take(k), false)
                    == BufferedView::NeedMore && buffered_body(head, front, body.take(k), true)
                    == BufferedView::Done(front + body.take(k), kept))
            &&& in_chunks || response::no_length_given(fs) ==> buffered_body(head, front, body, false)
                == BufferedView::NeedMore && buffered_body(head, front, body, true)
                == BufferedView::Done(front + body, false)
        }),
{
    written::written_head_reads_back(line, fs);
    assert(headers::header_lines(head) == written::bare_lines(fs));
    lemma_told_to_close(fs);
    response::head_is_understood(line, fs, head, body.len(), seq![], 0, seq![]);
    response::lemma_last_number(fs, body.len());
    assert((body + rest).take(body.len() as int) =~= body);
}

/// A connection that ends before a head is complete brings no response; a head
/// that is not complete after 64 KiB is given up; else more is read.
pub proof fn head_is_awaited(buf: Seq<u8>)
    requires
        text::first_occurrence(buf, seq![13u8, 10u8, 13u8, 10u8]) is None,
    ensures
        buffered_step(buf, true) is Fail,
        buf.len() <= 64 * 1024 ==> buffered_step(buf, false) == BufferedView::NeedMore,
        buf.len() > 64 * 1024 ==> buffered_step(buf, false) == BufferedView::Fail(
            BufferedFault::HeadersTooLarge,
        ),
        buf.len() == 0 ==> buffered_step(buf, true) == BufferedView::Fail(BufferedFault::NoResponse),
        buf.len() > 0 ==> buffered_step(buf, true) == BufferedView::Fail(
            BufferedFault::ClosedInHeaders,
        ),
{
}

} // verus!
