//! Validators of a file: its entity tag and the time of its last change.
use crate::dates::{self, format_date};
use crate::number::{self, push_decimal};
use crate::text::concat3;
use vstd::prelude::*;

verus! {

/// The entity tag of a file.
#[derive(Debug)]
pub struct EtagInfo {
    /// The tag.
    pub value: String,
    /// The tag as it stands in a header.
    pub header: String,
    /// The time of the last change, in nanoseconds since 1970.
    pub mtime_nanos: u128,
}

/// The tag of a file of the given size and time of last change.
pub open spec fn tag_of(size: u64, mtime_nanos: u128) -> Seq<char> {
    number::decimal(size as nat) + "-"@ + number::decimal(mtime_nanos as nat)
}

/// A tag as it stands in a header.
pub open spec fn tag_header(tag: Seq<char>) -> Seq<char> {
    "W/\""@ + tag + "\""@
}

/// The time of last change that counts: an unknown one counts as 1970.
pub open spec fn known_nanos(mtime_nanos: Option<u128>) -> u128 {
    match mtime_nanos {
        Some(n) => n,
        None => 0,
    }
}

/// The weak entity tag of a file, made of its size and the time of its last
/// change.
pub fn weak_etag_size_mtime(size: u64, mtime_nanos: Option<u128>) -> (r: EtagInfo)
    ensures
        r.mtime_nanos == known_nanos(mtime_nanos),
        r.value@ == tag_of(size, known_nanos(mtime_nanos)),
        r.header@ == tag_header(r.value@),
{
    let nanos: u128 = match mtime_nanos {
        Some(n) => n,
        None => 0,
    };
    let mut value = String::new();
    push_decimal(&mut value, size as u128);
    value.append("-");
    push_decimal(&mut value, nanos);
    assert(value@ =~= tag_of(size, nanos));
    let header = concat3("W/\"", value.as_str(), "\"");
    EtagInfo { value, header, mtime_nanos: nanos }
}

/// The second of a time in nanoseconds.
pub open spec fn seconds_of(nanos: u128) -> int {
    nanos as int / 1_000_000_000
}

/// Whether the time of last change can be written as a date.
pub open spec fn writable(mtime_nanos: Option<u128>) -> bool {
    mtime_nanos matches Some(n) ==> seconds_of(n) < dates::DATE_LIMIT
}

/// The `Last-Modified` value of a file, if the time of its last change is
/// known.
pub fn last_modified_header(mtime_nanos: Option<u128>) -> (r: Option<String>)
    requires
        writable(mtime_nanos),
    ensures
        match r {
            Some(s) => mtime_nanos matches Some(n) && s@ == dates::date_text(seconds_of(n) as u64)
                && dates::date_in(s@) == Some(seconds_of(n) as u64),
            None => mtime_nanos is None,
        },
{
    match mtime_nanos {
        Some(n) => Some(format_date((n / 1_000_000_000) as u64)),
        None => None,
    }
}

/// The tag of a file changes with its size and with the time of its last change,
/// whichever it is.
pub proof fn tags_tell_files_apart(size: u64, nanos: u128, other_size: u64, other_nanos: u128)
    requires
        tag_of(size, nanos) == tag_of(other_size, other_nanos),
    ensures
        size == other_size,
        nanos == other_nanos,
{
    reveal_strlit("-");
    let (a, b) = (number::decimal(size as nat), number::decimal(nanos as nat));
    let (c, d) = (number::decimal(other_size as nat), number::decimal(other_nanos as nat));
    let t = a + "-"@ + b;
    let u = c + "-"@ + d;
    number::lemma_digits_plain(size as nat);
    number::lemma_digits_plain(other_size as nat);
    assert(t[a.len() as int] == '-');
    assert(u[c.len() as int] == '-');
    if a.len() < c.len() {
        assert(u[a.len() as int] == c[a.len() as int]);
    } else if c.len() < a.len() {
        assert(t[c.len() as int] == a[c.len() as int]);
    }
    assert(a =~= t.take(a.len() as int));
    assert(c =~= u.take(a.len() as int));
    assert(b =~= t.skip(a.len() as int + 1));
    assert(d =~= u.skip(a.len() as int + 1));
    number::decimal_reads_back(size as nat, u64::MAX as nat);
    number::decimal_reads_back(other_size as nat, u64::MAX as nat);
    number::decimal_reads_back(nanos as nat, u128::MAX as nat);
    number::decimal_reads_back(other_nanos as nat, u128::MAX as nat);
}

/// A tag is announced as a weak one, in quotation marks. A time that is not known
/// counts as none, and a date holds whole seconds.
pub proof fn tags_are_weak(tag: Seq<char>, nanos: u128)
    ensures
        tag_header(tag) == seq!['W', '/', '"'] + tag + seq!['"'],
        known_nanos(Some(nanos)) == nanos,
        known_nanos(None) == 0,
        seconds_of(nanos) * 1_000_000_000 <= nanos < (seconds_of(nanos) + 1) * 1_000_000_000,
{
    reveal_strlit("W/\"");
    reveal_strlit("\"");
    assert("W/\""@ =~= seq!['W', '/', '"']);
    assert("\""@ =~= seq!['"']);
}

} // verus!
