//! Byte buffers and the searches made in them.
use crate::text;
use bytes::{Buf, BytesMut};
use vstd::prelude::*;
use vstd::slice::slice_subrange;

verus! {

/// The growable buffer of the `bytes` crate, taken as it is.
#[verifier::external_type_specification]
#[verifier::external_body]
pub struct ExBytesMut(BytesMut);

/// The bytes that a buffer holds.
pub uninterp spec fn buffered(b: BytesMut) -> Seq<u8>;

/// `BytesMut::new` gives a buffer without bytes.
pub assume_specification[ BytesMut::new ]() -> (r: BytesMut)
    ensures
        buffered(r).len() == 0,
;

/// `BytesMut::split_to` takes the first `at` bytes out of the buffer and
/// returns them; it panics where there are fewer.
pub assume_specification[ BytesMut::split_to ](b: &mut BytesMut, at: usize) -> (r: BytesMut)
    requires
        at <= buffered(*old(b)).len(),
    ensures
        buffered(r) == buffered(*old(b)).take(at as int),
        buffered(*final(b)) == buffered(*old(b)).skip(at as int),
;

/// Dereferencing a `BytesMut` gives the slice of the bytes that it holds.
#[verifier::external_body]
pub(crate) fn buffer_slice(b: &BytesMut) -> (r: &[u8])
    ensures
        r@ == buffered(*b),
{
    &b[..]
}

/// `Buf::advance` drops the first `count` bytes of the buffer; it panics
/// where there are fewer.
#[verifier::external_body]
pub(crate) fn buffer_advance(b: &mut BytesMut, count: usize)
    requires
        count <= buffered(*old(b)).len(),
    ensures
        buffered(*final(b)) == buffered(*old(b)).skip(count as int),
{
    b.advance(count);
}

/// The end of a line: carriage return and line feed.
pub open spec fn crlf() -> Seq<u8> {
    seq![13u8, 10u8]
}

/// The end of a message head: an empty line.
pub open spec fn head_end() -> Seq<u8> {
    seq![13u8, 10u8, 13u8, 10u8]
}

/// Whether two byte slices are equal.
pub fn same_bytes(a: &[u8], b: &[u8]) -> (r: bool)
    ensures
        r == (a@ == b@),
{
    if a.len() != b.len() {
        return false;
    }
    for i in 0..a.len()
        invariant
            a@.len() == b@.len(),
            forall|j: int| 0 <= j < i ==> a@[j] == b@[j],
    {
        if a[i] != b[i] {
            return false;
        }
    }
    assert(a@ =~= b@);
    true
}

/// The first position of one byte sequence in another.
pub fn find_bytes(s: &[u8], p: &[u8]) -> (r: Option<usize>)
    ensures
        match r {
            Some(i) => text::first_occurrence(s@, p@) == Some(i as int) && i + p@.len() <= s@.len(),
            None => text::first_occurrence(s@, p@) is None,
        },
{
    proof {
        text::lemma_first_occurrence(s@, p@);
    }
    if p.len() > s.len() {
        return None;
    }
    let n: usize = s.len();
    let last: usize = n - p.len();
    let mut i: usize = 0;
    loop
        invariant
            n == s@.len(),
            last + p@.len() == n,
            i <= last,
            forall|j: int| 0 <= j < i ==> !text::occurs_at(s@, p@, j),
            match text::first_occurrence(s@, p@) {
                Some(k) => text::occurs_at(s@, p@, k) && forall|j: int|
                    0 <= j < k ==> !text::occurs_at(s@, p@, j),
                None => forall|j: int| !text::occurs_at(s@, p@, j),
            },
        decreases last - i,
    {
        if same_bytes(slice_subrange(s, i, i + p.len()), p) {
            assert(text::occurs_at(s@, p@, i as int));
            return Some(i);
        }
        if i == last {
            return None;
        }
        i = i + 1;
    }
}

/// The first position of a line end.
pub fn find_crlf(s: &[u8]) -> (r: Option<usize>)
    ensures
        match r {
            Some(i) => text::first_occurrence(s@, crlf()) == Some(i as int) && i + 2 <= s@.len(),
            None => text::first_occurrence(s@, crlf()) is None,
        },
{
    let p: [u8; 2] = [13u8, 10u8];
    assert(p@ =~= crlf());
    find_bytes(s, p.as_slice())
}

/// The first position of the end of a message head.
pub fn find_headers_end(s: &[u8]) -> (r: Option<usize>)
    ensures
        match r {
            Some(i) => text::first_occurrence(s@, head_end()) == Some(i as int) && i + 4 <= s@.len(),
            None => text::first_occurrence(s@, head_end()) is None,
        },
{
    let p: [u8; 4] = [13u8, 10u8, 13u8, 10u8];
    assert(p@ =~= head_end());
    find_bytes(s, p.as_slice())
}

/// Appends bytes to a vector.
pub fn push_bytes(out: &mut Vec<u8>, s: &[u8])
    ensures
        final(out)@ == old(out)@ + s@,
{
    let ghost start = out@;
    for i in 0..s.len()
        invariant
            out@ == start + s@.take(i as int),
    {
        out.push(s[i]);
    }
}

/// A copy of a byte slice.
pub fn copy_bytes(s: &[u8]) -> (r: Vec<u8>)
    ensures
        r@ == s@,
{
    let mut out: Vec<u8> = Vec::new();
    push_bytes(&mut out, s);
    out
}

} // verus!
