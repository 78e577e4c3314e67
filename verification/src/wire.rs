//! Heads of responses and header fields as they go over the wire.
use crate::buffer::copy_bytes;
use crate::text::{self, copy_str};
use vstd::prelude::*;
use vstd::utf8::*;

verus! {

/// The views of header fields.
pub open spec fn field_views(fields: Seq<(String, Vec<u8>)>) -> Seq<(Seq<char>, Seq<u8>)> {
    fields.map_values(|f: (String, Vec<u8>)| (f.0@, f.1@))
}

/// Copies header fields.
pub fn copy_fields(fields: &Vec<(String, Vec<u8>)>) -> (r: Vec<(String, Vec<u8>)>)
    ensures
        field_views(r@) == field_views(fields@),
{
    let mut out: Vec<(String, Vec<u8>)> = Vec::new();
    for i in 0..fields.len()
        invariant
            out@.len() == i,
            forall|k: int|
                0 <= k < i ==> (#[trigger] out@[k]).0@ == fields@[k].0@ && out@[k].1@
                    == fields@[k].1@,
    {
        out.push((copy_str(fields[i].0.as_str()), copy_bytes(fields[i].1.as_slice())));
    }
    assert(field_views(out@) =~= field_views(fields@));
    out
}

/// The head of a response at the beginning of some bytes.
#[derive(Debug)]
pub struct RawHead {
    /// How many bytes it has.
    pub len: usize,
    /// The status.
    pub code: Option<u16>,
    /// The header fields.
    pub fields: Vec<(String, Vec<u8>)>,
}

/// Why there is no head.
#[derive(Clone, Copy, Debug, PartialEq, Eq, Structural)]
pub enum HeadError {
    /// The bytes are no head.
    Malformed,
    /// The head is not complete.
    Incomplete,
}

/// The head at the beginning of some bytes, with at most so many fields: its
/// length, its status and its fields. `Ok(None)` stands for a head that is not
/// complete.
pub uninterp spec fn head_in(b: Seq<u8>, max_fields: nat) -> Result<
    Option<(nat, Option<u16>, Seq<(Seq<char>, Seq<u8>)>)>,
    (),
>;

/// What a parsed head stands for.
pub open spec fn head_result(r: Result<RawHead, HeadError>) -> Result<
    Option<(nat, Option<u16>, Seq<(Seq<char>, Seq<u8>)>)>,
    (),
> {
    match r {
        Ok(h) => Ok(Some((h.len as nat, h.code, field_views(h.fields@)))),
        Err(HeadError::Incomplete) => Ok(None),
        Err(HeadError::Malformed) => Err(()),
    }
}

/// `httparse::Response::parse` reads the head of a response, into as many
/// fields as it is given room for; the room has to fit in memory. The head
/// ends inside the bytes.
#[verifier::external_body]
pub(crate) fn parse_head(b: &[u8], max_fields: usize) -> (r: Result<RawHead, HeadError>)
    requires
        max_fields <= 65_535,
    ensures
        head_result(r) == head_in(b@, max_fields as nat),
        r matches Ok(h) ==> h.len <= b@.len(),
{
    let mut slots = vec![httparse::EMPTY_HEADER; max_fields];
    let mut head = httparse::Response::new(&mut slots);
    match head.parse(b) {
        Ok(httparse::Status::Complete(len)) => Ok(RawHead {
            len,
            code: head.code,
            fields: head.headers.iter().map(|h| (h.name.to_string(), h.value.to_vec())).collect(),
        }),
        Ok(httparse::Status::Partial) => Err(HeadError::Incomplete),
        Err(_) => Err(HeadError::Malformed),
    }
}

/// Whether a byte can stand in the name of a header field: a letter, a digit or
/// one of ``!#$%&'*+-.^_`|~``.
pub open spec fn is_name_byte(b: u8) -> bool {
    ||| b == 33 || b == 42 || b == 43 || b == 45 || b == 46 || b == 124 || b == 126
    ||| 35 <= b <= 39
    ||| 48 <= b <= 57
    ||| 65 <= b <= 90
    ||| 94 <= b <= 122
}

/// The name that bytes give a header field, in lower case, if they can be one.
pub open spec fn name_in(b: Seq<u8>) -> Option<Seq<char>> {
    if 1 <= b.len() <= 65_535 && (forall|i: int|
        0 <= i < b.len() ==> is_name_byte(#[trigger] b[i])) {
        Some(text::lower(Seq::new(b.len(), |i: int| b[i] as char)))
    } else {
        None
    }
}

/// `http::HeaderName::from_bytes` takes bytes that can be the name of a header
/// field, which it puts in lower case, and refuses all others.
#[verifier::external_body]
pub(crate) fn parse_name(b: &[u8]) -> (r: Option<String>)
    ensures
        r.deep_view() == name_in(b@),
{
    http::HeaderName::from_bytes(b).ok().map(|n| n.as_str().to_string())
}

/// Whether bytes can be the value of a header field: no control character but
/// the tab.
pub open spec fn is_value(b: Seq<u8>) -> bool {
    forall|i: int| 0 <= i < b.len() ==> (#[trigger] b[i]) >= 32 && b[i] != 127 || b[i] == 9
}

/// `http::HeaderValue::from_bytes` takes bytes that can be the value of a
/// header field, and refuses all others.
#[verifier::external_body]
pub(crate) fn parse_value(b: &[u8]) -> (r: Option<Vec<u8>>)
    ensures
        match r {
            Some(v) => is_value(b@) && v@ == b@,
            None => !is_value(b@),
        },
{
    http::HeaderValue::from_bytes(b).ok().map(|v| v.as_bytes().to_vec())
}

// ---------------------------------------------------------------------------
// Names as texts
// ---------------------------------------------------------------------------

/// Whether a text can be the name of a header field: at least one letter, digit
/// or other token character, and not too many.
pub open spec fn is_token(s: Seq<char>) -> bool {
    &&& 1 <= s.len() <= 65_535
    &&& forall|i: int|
        0 <= i < s.len() ==> ('0' <= #[trigger] s[i] <= '9' || 'A' <= s[i] <= 'Z' || 'a' <= s[i] <= 'z'
            || "!#$%&'*+-.^_`|~"@.contains(s[i]))
}

proof fn lemma_ascii_bytes(s: Seq<char>)
    requires
        forall|i: int| 0 <= i < encode_utf8(s).len() ==> #[trigger] encode_utf8(s)[i] < 128,
    ensures
        is_ascii_chars(s),
    decreases s.len(),
{
    if s.len() > 0 {
        let v = s[0] as u32;
        let first = encode_scalar(v);
        let rest = encode_utf8(s.drop_first());
        let all = encode_utf8(s);
        assert(all == first + rest);
        char_is_scalar(s[0]);
        char_u32_cast(s[0], v);
        assert(0xC0u8 | ((v >> 6) & 0x1F) as u8 >= 128) by (bit_vector);
        assert(0xE0u8 | ((v >> 12) & 0x0F) as u8 >= 128) by (bit_vector);
        assert(0xF0u8 | ((v >> 18) & 0x7) as u8 >= 128) by (bit_vector);
        assert(first.len() > 0);
        assert(all[0] == first[0]);
        assert(has_width_1_encoding(v));
        assert forall|i: int| 0 <= i < rest.len() implies #[trigger] rest[i] < 128 by {
            assert(rest[i] == all[first.len() + i]);
        }
        lemma_ascii_bytes(s.drop_first());
        assert forall|i: int| 0 <= i < s.len() implies '\0' <= #[trigger] s[i] <= '\u{7f}' by {
            if i > 0 {
                assert(s[i] == s.drop_first()[i - 1]);
            }
        }
    }
}

/// A name of a header field is a token and is put in lower case; nothing else
/// is a name.
pub proof fn names_are_tokens(s: Seq<char>)
    ensures
        is_token(s) ==> name_in(encode_utf8(s)) == Some(text::lower(s)),
        !is_token(s) ==> name_in(encode_utf8(s)) is None,
{
    reveal_strlit("!#$%&'*+-.^_`|~");
    let signs = "!#$%&'*+-.^_`|~"@;
    let b = encode_utf8(s);
    assert(forall|c: char| signs.contains(c) <==> c == '!' || c == '#' || c == '$' || c == '%' || c
        == '&' || c == '\'' || c == '*' || c == '+' || c == '-' || c == '.' || c == '^' || c == '_'
        || c == '`' || c == '|' || c == '~') by {
        assert(signs[0] == '!' && signs[1] == '#' && signs[2] == '$' && signs[3] == '%' && signs[4]
            == '&' && signs[5] == '\'' && signs[6] == '*' && signs[7] == '+' && signs[8] == '-'
            && signs[9] == '.' && signs[10] == '^' && signs[11] == '_' && signs[12] == '`'
            && signs[13] == '|' && signs[14] == '~');
    }
    if is_token(s) {
        assert(is_ascii_chars(s));
        is_ascii_chars_encode_utf8(s);
        assert forall|i: int| 0 <= i < b.len() implies is_name_byte(#[trigger] b[i]) by {
            assert(b[i] == s[i] as u8);
        }
        assert(Seq::new(b.len(), |i: int| b[i] as char) =~= s) by {
            assert forall|i: int| 0 <= i < s.len() implies b[i] as char == s[i] by {
                assert(b[i] == s[i] as u8);
            }
        }
    } else if name_in(b) is Some {
        assert forall|i: int| 0 <= i < b.len() implies #[trigger] b[i] < 128 by {
            assert(is_name_byte(b[i]));
        }
        lemma_ascii_bytes(s);
        is_ascii_chars_encode_utf8(s);
        assert forall|i: int| 0 <= i < s.len() implies ('0' <= #[trigger] s[i] <= '9' || 'A' <= s[i]
            <= 'Z' || 'a' <= s[i] <= 'z' || signs.contains(s[i])) by {
            assert(b[i] == s[i] as u8);
            assert(is_name_byte(b[i]));
        }
    }
}

} // verus!
