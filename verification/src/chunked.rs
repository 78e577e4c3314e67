//! Bodies that come in chunks.
//!
//! A chunk is a line with its size in hexadecimal, the data, and a line end.
//! A size of zero ends the body; trailer lines may follow it, up to an empty
//! line.
use crate::buffer::{self, buffer_slice, find_crlf, push_bytes};
use crate::encoding::{self, lossy, strict};
use crate::number::{self, parse_hex_usize};
use crate::text::{self, before_char, chars_of, trim};
use bytes::BytesMut;
use vstd::prelude::*;
use vstd::slice::slice_subrange;
use vstd::utf8::*;

verus! {

// ---------------------------------------------------------------------------
// Size lines
// ---------------------------------------------------------------------------

/// The size that the text of a size line gives: a hexadecimal number that an
/// extension may follow behind a semicolon.
pub open spec fn size_in_text(t: Seq<char>) -> Option<nat> {
    number::parsed_number(text::trimmed(text::before(t, ';')), 16, usize::MAX as nat)
}

/// The size that a size line gives; the line comes without its end.
pub open spec fn chunk_size(line: Seq<u8>) -> Option<nat> {
    if valid_utf8(line) {
        size_in_text(decode_utf8(line))
    } else {
        None
    }
}

/// The size that a size line gives where bytes that are not text are let
/// through; the line comes with its end.
pub open spec fn lenient_chunk_size(line: Seq<u8>) -> Option<nat> {
    size_in_text(text::trimmed(encoding::lossy_text(line)))
}

/// Reads the text of a size line.
pub fn parse_size_text(t: &[char]) -> (r: Option<usize>)
    ensures
        match r {
            Some(n) => size_in_text(t@) == Some(n as nat),
            None => size_in_text(t@) is None,
        },
{
    parse_hex_usize(trim(before_char(t, ';')))
}

/// Reads a size line that comes without its end.
pub fn parse_chunk_size(line: &[u8]) -> (r: Option<usize>)
    ensures
        match r {
            Some(n) => chunk_size(line@) == Some(n as nat),
            None => chunk_size(line@) is None,
        },
{
    match strict(line) {
        Some(s) => {
            let c = chars_of(s.as_str());
            parse_size_text(c.as_slice())
        },
        None => None,
    }
}

/// Reads a size line that comes with its end.
pub fn parse_lenient_chunk_size(line: &[u8]) -> (r: Option<usize>)
    ensures
        match r {
            Some(n) => lenient_chunk_size(line@) == Some(n as nat),
            None => lenient_chunk_size(line@) is None,
        },
{
    let s = lossy(line);
    let c = chars_of(s.as_str());
    parse_size_text(trim(c.as_slice()))
}

// ---------------------------------------------------------------------------
// Passing over a body as it arrives
// ---------------------------------------------------------------------------

/// Where in a chunked body the scanner stands.
#[derive(Clone, Copy, Debug, PartialEq, Eq, Structural)]
pub enum ChunkPhase {
    /// Before a size line.
    Size,
    /// Inside data, with so many bytes to go, the line end counted.
    Data(usize),
    /// Behind the last chunk.
    Trailer,
    /// Behind the body.
    End,
}

/// Why a chunked body is given up.
#[derive(Clone, Copy, Debug, PartialEq, Eq, Structural)]
pub enum ChunkFault {
    /// A size line gives no usable size.
    Invalid,
    /// The data exceeds the limit.
    TooLarge,
}

/// What the scanner says after a step.
#[derive(Clone, Copy, Debug, PartialEq, Eq, Structural)]
pub enum ScanVerdict {
    /// There may be more to take at once.
    Continue,
    /// The buffer holds too little: read more.
    NeedRead,
    /// The body is complete.
    Done,
    /// The body is given up.
    Fail(ChunkFault),
}

/// Follows a chunked body through the buffer in which it arrives.
#[derive(Clone, Copy, Debug, PartialEq, Eq, Structural)]
pub struct ChunkScanner {
    /// Where the scanner stands.
    pub phase: ChunkPhase,
    /// The data that the chunks so far have announced.
    pub body_bytes: usize,
    /// The limit on the data; zero is none.
    pub max_body: usize,
    /// Whether a size line has to be text.
    pub strict: bool,
}

/// The size that the line up to `end` gives, as the scanner reads it.
pub open spec fn scanned_size(strict: bool, buf: Seq<u8>, end: int) -> Option<nat> {
    if strict {
        chunk_size(buf.take(end))
    } else {
        lenient_chunk_size(buf.take(end + 2))
    }
}

/// What one step makes of the scanner, how many bytes it takes from the front
/// of the buffer, and what it says.
pub open spec fn scan_step(s: ChunkScanner, buf: Seq<u8>) -> (ChunkScanner, int, ScanVerdict) {
    match s.phase {
        ChunkPhase::Size => match text::first_occurrence(buf, buffer::crlf()) {
            None => (s, 0, ScanVerdict::NeedRead),
            Some(i) => match scanned_size(s.strict, buf, i) {
                None => (s, i + 2, ScanVerdict::Fail(ChunkFault::Invalid)),
                Some(n) => if n == 0 {
                    ((ChunkScanner { phase: ChunkPhase::Trailer, ..s }), i + 2, ScanVerdict::Continue)
                } else if s.max_body > 0 && s.body_bytes + n > s.max_body {
                    (s, i + 2, ScanVerdict::Fail(ChunkFault::TooLarge))
                } else if n + 2 > usize::MAX {
                    (s, i + 2, ScanVerdict::Fail(ChunkFault::Invalid))
                } else {
                    (
                        (ChunkScanner {
                            phase: ChunkPhase::Data((n + 2) as usize),
                            body_bytes: if s.body_bytes + n > usize::MAX {
                                usize::MAX
                            } else {
                                (s.body_bytes + n) as usize
                            },
                            ..s
                        }),
                        i + 2,
                        ScanVerdict::Continue,
                    )
                },
            },
        },
        ChunkPhase::Data(left) => if left == 0 {
            ((ChunkScanner { phase: ChunkPhase::Size, ..s }), 0, ScanVerdict::Continue)
        } else if buf.len() == 0 {
            (s, 0, ScanVerdict::NeedRead)
        } else {
            let take = if left <= buf.len() {
                left as int
            } else {
                buf.len() as int
            };
            (
                (ChunkScanner { phase: ChunkPhase::Data((left - take) as usize), ..s }),
                take,
                ScanVerdict::Continue,
            )
        },
        ChunkPhase::Trailer => match text::first_occurrence(buf, buffer::crlf()) {
            None => (s, 0, ScanVerdict::NeedRead),
            Some(i) => if i == 0 {
                ((ChunkScanner { phase: ChunkPhase::End, ..s }), 2, ScanVerdict::Done)
            } else {
                (s, i + 2, ScanVerdict::Continue)
            },
        },
        ChunkPhase::End => (s, 0, ScanVerdict::Done),
    }
}

impl ChunkScanner {
    /// A scanner before the first chunk.
    pub fn new(max_body: usize, strict: bool) -> (r: Self)
        ensures
            r == (ChunkScanner { phase: ChunkPhase::Size, body_bytes: 0, max_body, strict }),
    {
        ChunkScanner { phase: ChunkPhase::Size, body_bytes: 0, max_body, strict }
    }

    /// Takes one step: removes bytes of the body from the front of the buffer
    /// and returns them.
    pub fn step(&mut self, buf: &mut BytesMut) -> (r: (BytesMut, ScanVerdict))
        ensures
            scan_step(*old(self), buffer::buffered(*old(buf))) == (
                *final(self),
                buffer::buffered(r.0).len() as int,
                r.1,
            ),
            buffer::buffered(r.0) + buffer::buffered(*final(buf)) == buffer::buffered(*old(buf)),
    {
        let ghost all = buffer::buffered(*buf);
        let len: usize = buffer_slice(buf).len();
        proof {
            text::lemma_first_occurrence(all, buffer::crlf());
        }
        match self.phase {
            ChunkPhase::Size => match find_crlf(buffer_slice(buf)) {
                None => {
                    let none = BytesMut::new();
                    assert(buffer::buffered(none) + all =~= all);
                    (none, ScanVerdict::NeedRead)
                },
                Some(end) => {
                    let size = if self.strict {
                        let line = slice_subrange(buffer_slice(buf), 0, end);
                        assert(line@ =~= all.take(end as int));
                        parse_chunk_size(line)
                    } else {
                        let line = slice_subrange(buffer_slice(buf), 0, end + 2);
                        assert(line@ =~= all.take(end + 2));
                        parse_lenient_chunk_size(line)
                    };
                    let line = buf.split_to(end + 2);
                    assert(buffer::buffered(line) + buffer::buffered(*buf) =~= all);
                    let n: usize = match size {
                        Some(n) => n,
                        None => {
                            return (line, ScanVerdict::Fail(ChunkFault::Invalid));
                        },
                    };
                    if n == 0 {
                        self.phase = ChunkPhase::Trailer;
                        return (line, ScanVerdict::Continue);
                    }
                    let total: usize = self.body_bytes.saturating_add(n);
                    if self.max_body > 0 && (n > self.max_body || self.body_bytes > self.max_body
                        - n) {
                        return (line, ScanVerdict::Fail(ChunkFault::TooLarge));
                    }
                    if n > usize::MAX - 2 {
                        return (line, ScanVerdict::Fail(ChunkFault::Invalid));
                    }
                    self.phase = ChunkPhase::Data(n + 2);
                    self.body_bytes = total;
                    (line, ScanVerdict::Continue)
                },
            },
            ChunkPhase::Data(left) => {
                if left == 0 {
                    self.phase = ChunkPhase::Size;
                    let none = BytesMut::new();
                    assert(buffer::buffered(none) + all =~= all);
                    return (none, ScanVerdict::Continue);
                }
                if len == 0 {
                    let none = BytesMut::new();
                    assert(buffer::buffered(none) + all =~= all);
                    return (none, ScanVerdict::NeedRead);
                }
                let take: usize = if left <= len {
                    left
                } else {
                    len
                };
                let piece = buf.split_to(take);
                assert(buffer::buffered(piece) + buffer::buffered(*buf) =~= all);
                self.phase = ChunkPhase::Data(left - take);
                (piece, ScanVerdict::Continue)
            },
            ChunkPhase::Trailer => match find_crlf(buffer_slice(buf)) {
                None => {
                    let none = BytesMut::new();
                    assert(buffer::buffered(none) + all =~= all);
                    (none, ScanVerdict::NeedRead)
                },
                Some(end) => {
                    let line = buf.split_to(end + 2);
                    assert(buffer::buffered(line) + buffer::buffered(*buf) =~= all);
                    if end == 0 {
                        self.phase = ChunkPhase::End;
                        (line, ScanVerdict::Done)
                    } else {
                        (line, ScanVerdict::Continue)
                    }
                },
            },
            ChunkPhase::End => {
                let none = BytesMut::new();
                assert(buffer::buffered(none) + all =~= all);
                (none, ScanVerdict::Done)
            },
        }
    }
}

/// How close a phase is to asking for bytes.
pub open spec fn phase_rank(p: ChunkPhase) -> nat {
    match p {
        ChunkPhase::Data(_) => 1,
        _ => 0,
    }
}

/// What a run of steps makes of the scanner, up to the first that does not
/// say to continue: the scanner, the number of bytes taken, and what it says.
pub open spec fn scan_run(s: ChunkScanner, buf: Seq<u8>) -> (ChunkScanner, int, ScanVerdict)
    decreases buf.len(), phase_rank(s.phase),
    via scan_run_decreases
{
    let r = scan_step(s, buf);
    if r.2 == ScanVerdict::Continue {
        let q = scan_run(r.0, buf.skip(r.1));
        (q.0, r.1 + q.1, q.2)
    } else {
        r
    }
}

#[via_fn]
proof fn scan_run_decreases(s: ChunkScanner, buf: Seq<u8>) {
    lemma_scan_step(s, buf);
}

pub proof fn lemma_scan_step(s: ChunkScanner, buf: Seq<u8>)
    ensures
        0 <= scan_step(s, buf).1 <= buf.len(),
        scan_step(s, buf).2 == ScanVerdict::Continue && scan_step(s, buf).1 == 0 ==> phase_rank(
            scan_step(s, buf).0.phase,
        ) < phase_rank(s.phase),
{
    text::lemma_first_occurrence(buf, buffer::crlf());
}

pub proof fn lemma_scan_run(s: ChunkScanner, buf: Seq<u8>)
    ensures
        0 <= scan_run(s, buf).1 <= buf.len(),
        scan_run(s, buf).2 != ScanVerdict::Continue,
    decreases buf.len(), phase_rank(s.phase),
{
    lemma_scan_step(s, buf);
    let r = scan_step(s, buf);
    if r.2 == ScanVerdict::Continue {
        lemma_scan_run(r.0, buf.skip(r.1));
    }
}

/// Drops as much of a chunked body from the front of the buffer as is there.
pub fn discard_chunked_body(scanner: &mut ChunkScanner, buf: &mut BytesMut) -> (r: ScanVerdict)
    ensures
        scan_run(*old(scanner), buffer::buffered(*old(buf))).0 == *final(scanner),
        scan_run(*old(scanner), buffer::buffered(*old(buf))).2 == r,
        buffer::buffered(*final(buf)) == buffer::buffered(*old(buf)).skip(
            scan_run(*old(scanner), buffer::buffered(*old(buf))).1,
        ),
{
    let ghost all = buffer::buffered(*buf);
    let ghost goal = scan_run(*scanner, all);
    let ghost mut taken: int = 0;
    assert(all.skip(0) =~= all);
    loop
        invariant
            all == buffer::buffered(*old(buf)),
            goal == scan_run(*old(scanner), all),
            0 <= taken <= all.len(),
            buffer::buffered(*buf) == all.skip(taken),
            ({
                let q = scan_run(*scanner, buffer::buffered(*buf));
                goal == (q.0, taken + q.1, q.2)
            }),
        decreases buffer::buffered(*buf).len(), phase_rank(scanner.phase),
    {
        let ghost before = *scanner;
        let ghost here = buffer::buffered(*buf);
        proof {
            lemma_scan_step(before, here);
        }
        let (piece, verdict) = scanner.step(buf);
        assert(buffer::buffered(*buf) =~= here.skip(buffer::buffered(piece).len() as int));
        proof {
            taken = taken + buffer::buffered(piece).len();
        }
        assert(buffer::buffered(*buf) =~= all.skip(taken));
        match verdict {
            ScanVerdict::Continue => {},
            _ => {
                return verdict;
            },
        }
    }
}

/// Drops as much of a body of known length from the front of the buffer as is
/// there, and returns how much is still to come.
pub fn discard_content_length(buf: &mut BytesMut, remaining: usize) -> (r: usize)
    ensures
        remaining <= buffer::buffered(*old(buf)).len() ==> r == 0 && buffer::buffered(*final(buf)) == buffer::buffered(
            *old(buf),
        ).skip(remaining as int),
        remaining > buffer::buffered(*old(buf)).len() ==> r == remaining - buffer::buffered(*old(buf)).len()
            && buffer::buffered(*final(buf)).len() == 0,
{
    let len: usize = buffer_slice(buf).len();
    let take: usize = if remaining <= len {
        remaining
    } else {
        len
    };
    buffer::buffer_advance(buf, take);
    remaining - take
}

// ---------------------------------------------------------------------------
// Arrival in pieces
// ---------------------------------------------------------------------------

proof fn lemma_crlf_prefix(a: Seq<u8>, b: Seq<u8>)
    ensures
        text::first_occurrence(a, buffer::crlf()) is Some ==> text::first_occurrence(
            a + b,
            buffer::crlf(),
        ) == text::first_occurrence(a, buffer::crlf()),
{
    text::lemma_first_occurrence(a, buffer::crlf());
    text::lemma_first_occurrence(a + b, buffer::crlf());
    match text::first_occurrence(a, buffer::crlf()) {
        Some(i) => {
            assert((a + b).subrange(i, i + 2) =~= a.subrange(i, i + 2));
            assert(text::occurs_at(a + b, buffer::crlf(), i));
            match text::first_occurrence(a + b, buffer::crlf()) {
                Some(j) => {
                    if j < i {
                        assert((a + b).subrange(j, j + 2) =~= a.subrange(j, j + 2));
                        assert(text::occurs_at(a, buffer::crlf(), j));
                    }
                },
                None => {},
            }
        },
        None => {},
    }
}

/// Data may be passed over in any two pieces.
proof fn lemma_data_split(s: ChunkScanner, left: usize, x: Seq<u8>, y: Seq<u8>)
    requires
        s.phase == ChunkPhase::Data(left),
        x.len() <= left,
    ensures
        ({
            let t = ChunkScanner { phase: ChunkPhase::Data((left - x.len()) as usize), ..s };
            let q = scan_run(t, y);
            scan_run(s, x + y) == (q.0, x.len() + q.1, q.2)
        }),
{
    let t = ChunkScanner { phase: ChunkPhase::Data((left - x.len()) as usize), ..s };
    if x.len() == 0 {
        assert(x + y =~= y);
        assert(t == s);
    } else {
        let r = scan_step(s, x + y);
        if y.len() == 0 || left == x.len() {
            assert(r.1 == x.len());
            assert((x + y).skip(r.1) =~= y);
            assert(r.0 == t);
        } else {
            let r2 = scan_step(t, y);
            assert(r.1 == x.len() + r2.1);
            assert(r.0 == r2.0);
            assert((x + y).skip(r.1) =~= y.skip(r2.1));
        }
    }
}

/// It makes no difference whether a chunked body arrives at once or in
/// pieces: where the first piece leaves the scanner asking for more, going on
/// with the second one ends as if both had been there from the start.
pub proof fn body_in_pieces(s: ChunkScanner, a: Seq<u8>, b: Seq<u8>)
    requires
        scan_run(s, a).2 == ScanVerdict::NeedRead,
    ensures
        ({
            let first = scan_run(s, a);
            let second = scan_run(first.0, a.skip(first.1) + b);
            scan_run(s, a + b) == (second.0, first.1 + second.1, second.2)
        }),
    decreases a.len(), phase_rank(s.phase),
{
    lemma_scan_step(s, a);
    lemma_crlf_prefix(a, b);
    text::lemma_first_occurrence(a, buffer::crlf());
    let r = scan_step(s, a);
    if r.2 != ScanVerdict::Continue {
        assert(a.skip(r.1) =~= a);
    } else {
        let rest = a.skip(r.1);
        let inner = scan_run(r.0, rest);
        lemma_scan_run(r.0, rest);
        body_in_pieces(r.0, rest, b);
        assert(a.skip(r.1 + inner.1) =~= rest.skip(inner.1));
        assert(rest + b =~= (a + b).skip(r.1));
        match s.phase {
            ChunkPhase::Data(left) => {
                if left > 0 {
                    let x = a.take(r.1);
                    assert(a + b =~= x + (rest + b));
                    lemma_data_split(s, left, x, rest + b);
                } else {
                    assert(scan_step(s, a + b) == r);
                    assert((a + b).skip(0) =~= a + b);
                }
            },
            ChunkPhase::Size => {
                let i = text::first_occurrence(a, buffer::crlf())->0;
                assert((a + b).take(i) =~= a.take(i));
                assert((a + b).take(i + 2) =~= a.take(i + 2));
                assert(scan_step(s, a + b) == r);
            },
            _ => {
                assert(scan_step(s, a + b) == r);
            },
        }
    }
}

// ---------------------------------------------------------------------------
// Whole bodies
// ---------------------------------------------------------------------------

/// A chunk: its size line, without the line end, and its data.
pub struct Chunk {
    pub line: Seq<u8>,
    pub data: Seq<u8>,
}

/// The size that a size line gives; the line comes without its end.
pub open spec fn line_size(strict: bool, line: Seq<u8>) -> Option<nat> {
    if strict {
        chunk_size(line)
    } else {
        lenient_chunk_size(line + buffer::crlf())
    }
}

/// Whether the size line fits the data.
pub open spec fn chunk_ok(strict: bool, c: Chunk) -> bool {
    &&& 0 < c.data.len()
    &&& c.data.len() + 2 <= usize::MAX
    &&& line_size(strict, c.line) == Some(c.data.len())
    &&& !c.line.contains(13u8)
}

/// Whether a line says that the last chunk has come.
pub open spec fn last_line_ok(strict: bool, line: Seq<u8>) -> bool {
    line_size(strict, line) == Some(0nat) && !line.contains(13u8)
}

/// The bytes of a chunk.
pub open spec fn chunk_bytes(c: Chunk) -> Seq<u8> {
    c.line + buffer::crlf() + c.data + buffer::crlf()
}

/// The bytes of chunks and of the line that ends them.
pub open spec fn chunks_bytes(cs: Seq<Chunk>, last: Seq<u8>) -> Seq<u8>
    decreases cs.len(),
{
    if cs.len() == 0 {
        last + buffer::crlf()
    } else {
        chunk_bytes(cs[0]) + chunks_bytes(cs.drop_first(), last)
    }
}

/// The data of chunks.
pub open spec fn chunks_data(cs: Seq<Chunk>) -> Seq<u8>
    decreases cs.len(),
{
    if cs.len() == 0 {
        seq![]
    } else {
        cs[0].data + chunks_data(cs.drop_first())
    }
}

proof fn lemma_line_end(line: Seq<u8>, rest: Seq<u8>)
    requires
        !line.contains(13u8),
    ensures
        text::first_occurrence(line + buffer::crlf() + rest, buffer::crlf()) == Some(
            line.len() as int,
        ),
{
    let s = line + buffer::crlf() + rest;
    let n = line.len() as int;
    assert(text::occurs_at(s, buffer::crlf(), n)) by {
        assert(s.subrange(n, n + 2) =~= buffer::crlf());
    }
    assert forall|j: int| 0 <= j < n implies !text::occurs_at(s, buffer::crlf(), j) by {
        assert(s[j] == line[j]);
        assert(line[j] != 13u8);
        if j + 2 <= s.len() {
            assert(s.subrange(j, j + 2)[0] == s[j]);
            assert(buffer::crlf()[0] == 13u8);
        }
    }
    text::lemma_is_first_occurrence(s, buffer::crlf(), n);
}

/// The bytes of trailer lines, which come without their ends.
pub open spec fn trailer_bytes(ts: Seq<Seq<u8>>) -> Seq<u8>
    decreases ts.len(),
{
    if ts.len() == 0 {
        seq![]
    } else {
        ts[0] + buffer::crlf() + trailer_bytes(ts.drop_first())
    }
}

/// Whether bytes can be a trailer line.
pub open spec fn trailer_ok(t: Seq<u8>) -> bool {
    t.len() > 0 && !t.contains(13u8)
}

/// The bytes of a whole chunked body: its chunks, the line that ends them, its
/// trailer lines and an empty line.
pub open spec fn body_bytes(cs: Seq<Chunk>, last: Seq<u8>, ts: Seq<Seq<u8>>) -> Seq<u8> {
    chunks_bytes(cs, last) + trailer_bytes(ts) + buffer::crlf()
}

proof fn lemma_trailers(s: ChunkScanner, ts: Seq<Seq<u8>>, tail: Seq<u8>)
    requires
        s.phase == ChunkPhase::Trailer,
        forall|i: int| 0 <= i < ts.len() ==> trailer_ok(#[trigger] ts[i]),
    ensures
        ({
            let body = trailer_bytes(ts) + buffer::crlf();
            let r = scan_run(s, body + tail);
            r.1 == body.len() && r.2 == ScanVerdict::Done
        }),
    decreases ts.len(),
{
    let body = trailer_bytes(ts) + buffer::crlf();
    let all = body + tail;
    if ts.len() == 0 {
        assert(all =~= Seq::<u8>::empty() + buffer::crlf() + tail);
        lemma_line_end(Seq::<u8>::empty(), tail);
        assert(scan_step(s, all).2 == ScanVerdict::Done);
        assert(scan_run(s, all) == scan_step(s, all));
    } else {
        let t = ts[0];
        assert(trailer_ok(t));
        let more = trailer_bytes(ts.drop_first()) + buffer::crlf() + tail;
        assert(all =~= t + buffer::crlf() + more);
        lemma_line_end(t, more);
        let r = scan_step(s, all);
        assert(all.skip(r.1) =~= more);
        assert forall|i: int| 0 <= i < ts.drop_first().len() implies trailer_ok(
            #[trigger] ts.drop_first()[i],
        ) by {
            assert(ts.drop_first()[i] == ts[i + 1]);
        }
        lemma_trailers(s, ts.drop_first(), tail);
    }
}

/// A body that consists of well-formed chunks, the last line, trailer lines and
/// an empty line is passed over exactly, whatever follows it, as long as the
/// data stays within the limit.
pub proof fn whole_body_is_scanned(
    s: ChunkScanner,
    cs: Seq<Chunk>,
    last: Seq<u8>,
    ts: Seq<Seq<u8>>,
    tail: Seq<u8>,
)
    requires
        s.phase == ChunkPhase::Size,
        last_line_ok(s.strict, last),
        forall|i: int| 0 <= i < cs.len() ==> chunk_ok(s.strict, #[trigger] cs[i]),
        forall|i: int| 0 <= i < ts.len() ==> trailer_ok(#[trigger] ts[i]),
        s.max_body == 0 || s.body_bytes + chunks_data(cs).len() <= s.max_body,
    ensures
        ({
            let body = body_bytes(cs, last, ts);
            let r = scan_run(s, body + tail);
            r.1 == body.len() && r.2 == ScanVerdict::Done
        }),
    decreases cs.len(),
{
    let end = trailer_bytes(ts) + buffer::crlf();
    let body = body_bytes(cs, last, ts);
    let all = body + tail;
    if cs.len() == 0 {
        let rest = end + tail;
        assert(all =~= last + buffer::crlf() + rest);
        lemma_line_end(last, rest);
        assert(all.take(last.len() as int) =~= last);
        assert(all.take(last.len() as int + 2) =~= last + buffer::crlf());
        let r = scan_step(s, all);
        assert(all.skip(r.1) =~= rest);
        lemma_trailers(r.0, ts, tail);
    } else {
        let c = cs[0];
        assert(chunk_ok(s.strict, c));
        let more = body_bytes(cs.drop_first(), last, ts) + tail;
        let inner = c.data + buffer::crlf() + more;
        assert(all =~= c.line + buffer::crlf() + inner);
        lemma_line_end(c.line, inner);
        assert(all.take(c.line.len() as int) =~= c.line);
        assert(all.take(c.line.len() as int + 2) =~= c.line + buffer::crlf());
        let r = scan_step(s, all);
        assert(all.skip(r.1) =~= inner);
        let n = c.data.len();
        assert(r.0.phase == ChunkPhase::Data((n + 2) as usize));
        let x = c.data + buffer::crlf();
        assert(inner =~= x + more);
        lemma_data_split(r.0, (n + 2) as usize, x, more);
        let t = ChunkScanner { phase: ChunkPhase::Data(0), ..r.0 };
        let u = ChunkScanner { phase: ChunkPhase::Size, ..r.0 };
        assert(scan_step(t, more) == (u, 0int, ScanVerdict::Continue));
        assert(more.skip(0) =~= more);
        assert(scan_run(t, more) == scan_run(u, more));
        assert forall|i: int| 0 <= i < cs.drop_first().len() implies chunk_ok(
            s.strict,
            #[trigger] cs.drop_first()[i],
        ) by {
            assert(cs.drop_first()[i] == cs[i + 1]);
        }
        whole_body_is_scanned(u, cs.drop_first(), last, ts, tail);
    }
}

// ---------------------------------------------------------------------------
// Decoding a body that is there as a whole
// ---------------------------------------------------------------------------

/// Why a chunked body cannot be decoded.
#[derive(Clone, Copy, Debug, PartialEq, Eq, Structural)]
pub enum ChunkError {
    /// There is no further size line.
    MissingSizeLine,
    /// A size line gives no size.
    InvalidSize,
    /// There is less data than the size line says.
    TooShort,
    /// The data is not followed by a line end.
    MissingLineEnd,
}

/// The data of a chunked body, or why there is none. What follows the last
/// chunk is not looked at.
pub open spec fn decoded(input: Seq<u8>) -> Result<Seq<u8>, ChunkError>
    decreases input.len(),
    via decoded_decreases
{
    match text::first_occurrence(input, buffer::crlf()) {
        None => Err(ChunkError::MissingSizeLine),
        Some(i) => {
            let rest = input.skip(i + 2);
            match chunk_size(input.take(i)) {
                None => Err(ChunkError::InvalidSize),
                Some(n) => if n == 0 {
                    Ok(seq![])
                } else if rest.len() < n + 2 {
                    Err(ChunkError::TooShort)
                } else if rest.subrange(n as int, n as int + 2) != buffer::crlf() {
                    Err(ChunkError::MissingLineEnd)
                } else {
                    match decoded(rest.skip(n as int + 2)) {
                        Ok(more) => Ok(rest.take(n as int) + more),
                        Err(e) => Err(e),
                    }
                },
            }
        },
    }
}

#[via_fn]
proof fn decoded_decreases(input: Seq<u8>) {
    text::lemma_first_occurrence(input, buffer::crlf());
}

/// Decodes a chunked body.
pub fn decode_chunked(body: &[u8]) -> (r: Result<Vec<u8>, ChunkError>)
    ensures
        match r {
            Ok(data) => decoded(body@) == Ok::<Seq<u8>, ChunkError>(data@),
            Err(e) => decoded(body@) == Err::<Seq<u8>, ChunkError>(e),
        },
{
    let mut out: Vec<u8> = Vec::new();
    let mut input: &[u8] = body;
    loop
        invariant
            match decoded(input@) {
                Ok(more) => decoded(body@) == Ok::<Seq<u8>, ChunkError>(out@ + more),
                Err(e) => decoded(body@) == Err::<Seq<u8>, ChunkError>(e),
            },
        decreases input@.len(),
    {
        let len: usize = input.len();
        let ghost here = input@;
        let end: usize = match find_crlf(input) {
            Some(i) => i,
            None => {
                return Err(ChunkError::MissingSizeLine);
            },
        };
        let line = slice_subrange(input, 0, end);
        assert(line@ =~= here.take(end as int));
        let rest = slice_subrange(input, end + 2, len);
        assert(rest@ =~= here.skip(end + 2));
        let n: usize = match parse_chunk_size(line) {
            Some(n) => n,
            None => {
                return Err(ChunkError::InvalidSize);
            },
        };
        if n == 0 {
            assert(out@ + seq![] =~= out@);
            return Ok(out);
        }
        let have: usize = rest.len();
        if have < 2 || have - 2 < n {
            return Err(ChunkError::TooShort);
        }
        let ghost taken = out@;
        if rest[n] != 13u8 || rest[n + 1] != 10u8 {
            assert(rest@.subrange(n as int, n + 2)[0] == rest@[n as int]);
            assert(rest@.subrange(n as int, n + 2)[1] == rest@[n + 1]);
            return Err(ChunkError::MissingLineEnd);
        }
        assert(rest@.subrange(n as int, n + 2) =~= buffer::crlf());
        let data = slice_subrange(rest, 0, n);
        assert(data@ =~= rest@.take(n as int));
        push_bytes(&mut out, data);
        input = slice_subrange(rest, n + 2, have);
        assert(input@ =~= rest@.skip(n + 2));
        proof {
            match decoded(input@) {
                Ok(more) => {
                    assert(out@ + more =~= taken + (data@ + more));
                },
                Err(_) => {},
            }
        }
    }
}

/// Decoding well-formed chunks gives their data, whatever follows the last
/// line.
pub proof fn chunks_decode(cs: Seq<Chunk>, last: Seq<u8>, tail: Seq<u8>)
    requires
        last_line_ok(true, last),
        forall|i: int| 0 <= i < cs.len() ==> chunk_ok(true, #[trigger] cs[i]),
    ensures
        decoded(chunks_bytes(cs, last) + tail) == Ok::<Seq<u8>, ChunkError>(chunks_data(cs)),
    decreases cs.len(),
{
    let all = chunks_bytes(cs, last) + tail;
    if cs.len() == 0 {
        lemma_line_end(last, tail);
        assert(all.take(last.len() as int) =~= last);
    } else {
        let c = cs[0];
        assert(chunk_ok(true, c));
        let more = chunks_bytes(cs.drop_first(), last) + tail;
        let inner = c.data + buffer::crlf() + more;
        assert(all =~= c.line + buffer::crlf() + inner);
        lemma_line_end(c.line, inner);
        assert(all.take(c.line.len() as int) =~= c.line);
        assert(all.skip(c.line.len() as int + 2) =~= inner);
        let n = c.data.len();
        assert(inner.take(n as int) =~= c.data);
        assert(inner.subrange(n as int, n as int + 2) =~= buffer::crlf());
        assert(inner.skip(n as int + 2) =~= more);
        assert forall|i: int| 0 <= i < cs.drop_first().len() implies chunk_ok(
            true,
            #[trigger] cs.drop_first()[i],
        ) by {
            assert(cs.drop_first()[i] == cs[i + 1]);
        }
        chunks_decode(cs.drop_first(), last, tail);
    }
}

// ---------------------------------------------------------------------------
// What is read of a body, and what is refused
// ---------------------------------------------------------------------------

/// A size line gives a hexadecimal number, with white space round it or not; an
/// extension behind a semicolon does not count.
pub proof fn size_line_is_read(size: Seq<char>, extension: Seq<char>)
    requires
        size.len() > 0,
        forall|i: int|
            0 <= i < size.len() ==> '0' <= #[trigger] size[i] <= '9' || 'a' <= size[i] <= 'f' || 'A'
                <= size[i] <= 'F',
    ensures
        ({
            let n = number::number_value(size, 16);
            let read = if n <= usize::MAX {
                Some(n)
            } else {
                None
            };
            &&& size_in_text(size) == read
            &&& size_in_text(size + seq![';'] + extension) == read
            &&& size_in_text(seq![' '] + size + seq![' ']) == read
            &&& chunk_size(encode_utf8(size)) == read
            &&& chunk_size(encode_utf8(size + seq![';'] + extension)) == read
        }),
{
    number::hex_numbers_are_read(size, usize::MAX as nat);
    let n = size.len() as int;
    assert(size[0] == size[0]);
    assert(size.last() == size[n - 1]);
    assert('0' <= size[n - 1] <= '9' || 'a' <= size[n - 1] <= 'f' || 'A' <= size[n - 1] <= 'F');
    assert('0' <= size[0] <= '9' || 'a' <= size[0] <= 'f' || 'A' <= size[0] <= 'F');
    text::lemma_trim_nothing(size);
    assert forall|j: int| 0 <= j < n implies size[j] != ';' by {
        assert('0' <= size[j] <= '9' || 'a' <= size[j] <= 'f' || 'A' <= size[j] <= 'F');
    }
    text::lemma_first_pos(size, ';', n);
    assert(size.take(n) =~= size);
    let ext = size + seq![';'] + extension;
    text::lemma_first_pos(ext, ';', n);
    assert(ext.take(n) =~= size);
    let wide = seq![' '] + size + seq![' '];
    assert forall|j: int| 0 <= j < wide.len() implies wide[j] != ';' by {
        if 0 < j <= n {
            assert(wide[j] == size[j - 1]);
        }
    }
    text::lemma_first_pos(wide, ';', n + 2);
    assert(wide.take(n + 2) =~= wide);
    assert(wide.drop_first() =~= size + seq![' ']);
    let t = size + seq![' '];
    assert(t[0] == size[0]);
    assert(t.last() == ' ');
    assert(t.drop_last() =~= size);
    assert(text::trim_start(t, text::Class::White) == t);
    assert(text::trim_end(t, text::Class::White) == text::trim_end(size, text::Class::White));
    assert(text::trimmed(wide) == size);
    encode_utf8_valid_utf8(size);
    encode_utf8_valid_utf8(ext);
    encode_utf8_decode_utf8(size);
    encode_utf8_decode_utf8(ext);
}

/// A size line with anything else than hexadecimal digits gives no size, nor does
/// one without digits.
pub proof fn other_size_lines_are_refused(size: Seq<char>, i: int)
    requires
        text::trimmed(size) == size,
        !size.contains(';'),
        size.len() > 0 ==> size[0] != '+',
        size.len() > 0 ==> 0 <= i < size.len() && !('0' <= size[i] <= '9' || 'a' <= size[i] <= 'f'
            || 'A' <= size[i] <= 'F'),
    ensures
        size_in_text(size) is None,
        chunk_size(encode_utf8(size)) is None,
{
    let n = size.len() as int;
    assert forall|j: int| 0 <= j < n implies size[j] != ';' by {
        assert(size.contains(size[j]));
    }
    text::lemma_first_pos(size, ';', n);
    assert(size.take(n) =~= size);
    if n > 0 {
        number::hex_numbers_are_read(size, usize::MAX as nat);
    }
    encode_utf8_valid_utf8(size);
    encode_utf8_decode_utf8(size);
}

/// A line that is not valid UTF-8 gives no size where that is asked for; elsewhere
/// its text is read with what is not valid replaced, and without white space at
/// its ends.
pub proof fn texts_of_size_lines_are_read(line: Seq<u8>, t: Seq<char>)
    requires
        encoding::lossy_text(line) == t,
    ensures
        !valid_utf8(line) ==> chunk_size(line) is None,
        text::trimmed(t) == t ==> lenient_chunk_size(line) == size_in_text(t),
{
}

/// A chunk is passed over with its size line and the line end behind its data, and
/// its data counts.
pub proof fn chunk_is_passed(s: ChunkScanner, c: Chunk, more: Seq<u8>)
    requires
        s.phase == ChunkPhase::Size,
        chunk_ok(s.strict, c),
        s.max_body == 0 || s.body_bytes + c.data.len() <= s.max_body,
        s.body_bytes + c.data.len() <= usize::MAX,
    ensures
        ({
            let end = seq![13u8, 10u8];
            let chunk = c.line + end + c.data + end;
            let next = scan_run(
                (ChunkScanner { body_bytes: (s.body_bytes + c.data.len()) as usize, ..s }),
                more,
            );
            scan_run(s, chunk + more) == (next.0, chunk.len() + next.1, next.2)
        }),
{
    let end = buffer::crlf();
    let all = c.line + end + c.data + end + more;
    let inner = c.data + end + more;
    assert(all =~= c.line + end + inner);
    lemma_line_end(c.line, inner);
    assert(all.take(c.line.len() as int) =~= c.line);
    assert(all.take(c.line.len() as int + 2) =~= c.line + end);
    let r = scan_step(s, all);
    assert(all.skip(r.1) =~= inner);
    let n = c.data.len();
    assert(r.0.phase == ChunkPhase::Data((n + 2) as usize));
    let x = c.data + end;
    assert(inner =~= x + more);
    lemma_data_split(r.0, (n + 2) as usize, x, more);
    let t = ChunkScanner { phase: ChunkPhase::Data(0), ..r.0 };
    let u = ChunkScanner { phase: ChunkPhase::Size, ..r.0 };
    assert(scan_step(t, more) == (u, 0int, ScanVerdict::Continue));
    assert(more.skip(0) =~= more);
    assert(scan_run(t, more) == scan_run(u, more));
    assert(u == (ChunkScanner { body_bytes: (s.body_bytes + n) as usize, ..s }));
}

/// A body is refused at a size line that gives no size, and at one whose chunk
/// takes the data over the limit. More is awaited where a size line has no end yet.
pub proof fn bad_chunks_are_refused(s: ChunkScanner, line: Seq<u8>, rest: Seq<u8>)
    requires
        s.phase == ChunkPhase::Size,
        !line.contains(13u8),
    ensures
        ({
            let all = line + seq![13u8, 10u8] + rest;
            &&& line_size(s.strict, line) is None ==> scan_run(s, all).2 == ScanVerdict::Fail(
                ChunkFault::Invalid,
            )
            &&& line_size(s.strict, line) is Some && line_size(s.strict, line)->0 > 0 && s.max_body > 0
                && s.body_bytes + line_size(s.strict, line)->0 > s.max_body ==> scan_run(s, all).2
                == ScanVerdict::Fail(ChunkFault::TooLarge)
            &&& scan_run(s, line) == (s, 0int, ScanVerdict::NeedRead)
        }),
{
    let all = line + buffer::crlf() + rest;
    lemma_line_end(line, rest);
    assert(all.take(line.len() as int) =~= line);
    assert(all.take(line.len() as int + 2) =~= line + buffer::crlf());
    assert(scan_run(s, all).2 == scan_step(s, all).2 || scan_step(s, all).2 == ScanVerdict::Continue);
    text::lemma_first_occurrence(line, buffer::crlf());
    match text::first_occurrence(line, buffer::crlf()) {
        Some(i) => {
            assert(line.subrange(i, i + 2)[0] == line[i]);
            assert(line.contains(line[i]));
        },
        None => {},
    }
}

/// A body that is there as a whole is decoded chunk by chunk. It is refused where a
/// size line is missing or gives no size, where there is less data than the line
/// says, and where no line end follows the data.
pub proof fn chunks_are_decoded_in_turn(line: Seq<u8>, rest: Seq<u8>)
    requires
        !line.contains(13u8),
    ensures
        ({
            let all = line + seq![13u8, 10u8] + rest;
            let size = chunk_size(line);
            let n = size->0 as int;
            &&& decoded(line) == Err::<Seq<u8>, ChunkError>(ChunkError::MissingSizeLine)
            &&& size is None ==> decoded(all) == Err::<Seq<u8>, ChunkError>(ChunkError::InvalidSize)
            &&& size is Some && n == 0 ==> decoded(all) == Ok::<Seq<u8>, ChunkError>(seq![])
            &&& size is Some && n > 0 && rest.len() < n + 2 ==> decoded(all) == Err::<
                Seq<u8>,
                ChunkError,
            >(ChunkError::TooShort)
            &&& size is Some && n > 0 && rest.len() >= n + 2 && !(rest[n] == 13 && rest[n + 1]
                == 10) ==> decoded(all) == Err::<Seq<u8>, ChunkError>(ChunkError::MissingLineEnd)
            &&& size is Some && n > 0 && rest.len() >= n + 2 && rest[n] == 13 && rest[n + 1] == 10
                ==> match decoded(rest.skip(n + 2)) {
                Ok(more) => decoded(all) == Ok::<Seq<u8>, ChunkError>(rest.take(n) + more),
                Err(e) => decoded(all) == Err::<Seq<u8>, ChunkError>(e),
            }
        }),
{
    let all = line + buffer::crlf() + rest;
    let size = chunk_size(line);
    lemma_line_end(line, rest);
    assert(all.take(line.len() as int) =~= line);
    assert(all.skip(line.len() as int + 2) =~= rest);
    text::lemma_first_occurrence(line, buffer::crlf());
    match text::first_occurrence(line, buffer::crlf()) {
        Some(i) => {
            assert(line.subrange(i, i + 2)[0] == line[i]);
            assert(line.contains(line[i]));
        },
        None => {},
    }
    if size is Some && size->0 > 0 && rest.len() >= size->0 + 2 {
        let n = size->0 as int;
        let two = rest.subrange(n, n + 2);
        assert(two[0] == rest[n] && two[1] == rest[n + 1]);
        if rest[n] == 13 && rest[n + 1] == 10 {
            assert(two =~= buffer::crlf());
        } else {
            assert(two != buffer::crlf());
        }
    }
}

} // verus!
