//! Media types by file name.
use crate::text::{copy_str, same_str};
use vstd::prelude::*;

verus! {

/// The media type that a path is taken for, and the part of it before the
/// slash.
pub uninterp spec fn media_of(path: Seq<char>) -> (Seq<char>, Seq<char>);

/// `mime_guess::from_path` looks the extension of the path up in a fixed
/// table; `first_or_octet_stream` takes the first type found there, or the one
/// for plain bytes. The type comes back without parameters, with the part of
/// it before the slash beside it.
#[verifier::external_body]
pub(crate) fn guess_media(path: &str) -> (r: (String, String))
    ensures
        (r.0@, r.1@) == media_of(path@),
{
    let mime = mime_guess::from_path(path).first_or_octet_stream();
    (mime.essence_str().to_string(), mime.type_().as_str().to_string())
}

/// The content type of a media type. Text is sent as UTF-8.
pub open spec fn content_type(essence: Seq<char>, kind: Seq<char>) -> Seq<char> {
    if kind == "text"@ {
        essence + "; charset=utf-8"@
    } else {
        essence
    }
}

/// Builds the content type of a media type.
pub fn content_type_of(essence: &str, kind: &str) -> (r: String)
    ensures
        r@ == content_type(essence@, kind@),
{
    let mut out = copy_str(essence);
    if same_str(kind, "text") {
        out.append("; charset=utf-8");
    }
    out
}

/// The content type of a file.
pub fn content_type_for_path(path: &str) -> (r: String)
    ensures
        r@ == content_type(media_of(path@).0, media_of(path@).1),
{
    let (essence, kind) = guess_media(path);
    content_type_of(essence.as_str(), kind.as_str())
}

/// Text is announced with its encoding; any other type as it is.
pub proof fn text_is_announced_with_its_encoding(essence: Seq<char>, kind: Seq<char>)
    ensures
        kind == seq!['t', 'e', 'x', 't'] ==> content_type(essence, kind) == essence
            + "; charset=utf-8"@,
        kind != seq!['t', 'e', 'x', 't'] ==> content_type(essence, kind) == essence,
{
    reveal_strlit("text");
    assert("text"@ =~= seq!['t', 'e', 'x', 't']);
}

} // verus!
