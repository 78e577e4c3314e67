//! The path under which an upstream is asked.
use crate::text::{self, chars_of, push_chars, starts_with, tail_from};
use vstd::prelude::*;

verus! {

/// A path without the prefix of its location. It stays absolute; a path
/// outside the location is left alone.
pub open spec fn stripped(req: Seq<char>, location: Seq<char>) -> Seq<char> {
    if !text::starts(req, location) {
        req
    } else {
        let tail = req.skip(location.len() as int);
        if tail.len() == 0 {
            seq!['/']
        } else if tail[0] == '/' {
            tail
        } else {
            seq!['/'] + tail
        }
    }
}

/// Strips the prefix of a location from a request path.
pub fn strip_prefix_path(req_path: &str, location_path: &str) -> (r: String)
    ensures
        r@ == stripped(req_path@, location_path@),
{
    let req = chars_of(req_path);
    let loc = chars_of(location_path);
    if !starts_with(req.as_slice(), loc.as_slice()) {
        return text::copy_str(req_path);
    }
    let tail = tail_from(req.as_slice(), loc.len());
    let mut out = String::new();
    if tail.len() == 0 || tail[0] != '/' {
        out.push('/');
    }
    push_chars(&mut out, tail);
    assert(out@ =~= stripped(req_path@, location_path@));
    out
}

/// Inside its location, a path is absolute after stripping.
pub proof fn stripped_path_is_absolute(req: Seq<char>, location: Seq<char>)
    requires
        text::starts(req, location),
    ensures
        stripped(req, location).len() > 0,
        stripped(req, location)[0] == '/',
{
}

/// Stripping takes the prefix of the location away and nothing else: what
/// follows it, the query included, stays as it is, behind one slash. A path that
/// does not begin with the location stays whole.
pub proof fn only_the_prefix_is_lost(location: Seq<char>, tail: Seq<char>, other: Seq<char>)
    ensures
        tail.len() > 0 && tail[0] == '/' ==> stripped(location + tail, location) == tail,
        tail.len() == 0 || tail[0] != '/' ==> stripped(location + tail, location) == seq!['/']
            + tail,
        (forall|t: Seq<char>| other != #[trigger] (location + t)) ==> stripped(other, location)
            == other,
{
    let req = location + tail;
    assert(req.take(location.len() as int) =~= location);
    assert(req.skip(location.len() as int) =~= tail);
    if tail.len() == 0 {
        assert(seq!['/'] + tail =~= seq!['/']);
    }
    if text::starts(other, location) {
        assert(other =~= location + other.skip(location.len() as int));
    }
}

} // verus!
