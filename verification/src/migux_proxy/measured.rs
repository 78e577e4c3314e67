//! Requests whose body came in chunks: an upstream gets the body whole, with
//! its length.
use super::headers::{self, push_field};
use crate::chunked::{self, decode_chunked, ChunkError};
use crate::headers::{self as head_fields, first_line, head_lines, is_named, parse_fields};
use crate::migux_core::request;
use crate::number::{self, decimal_string};
use crate::text::{self, chars_of, push_chars, string_of};
use crate::written;
use vstd::prelude::*;

verus! {

/// The fields that tell no length, in order.
pub open spec fn without_length(fields: Seq<(Seq<char>, Seq<char>)>) -> Seq<(Seq<char>, Seq<char>)>
    decreases fields.len(),
{
    if fields.len() == 0 {
        seq![]
    } else if head_fields::named(fields.last(), "content-length"@) {
        without_length(fields.drop_last())
    } else {
        without_length(fields.drop_last()).push(fields.last())
    }
}

/// The fields of a head, with the given length in place of any other.
pub open spec fn measured_fields(head: Seq<char>, len: nat) -> Seq<(Seq<char>, Seq<char>)> {
    without_length(head_fields::header_fields(head)).push(("Content-Length"@, number::decimal(len)))
}

/// A head with the given length in place of any other.
pub open spec fn measured_head(head: Seq<char>, len: nat) -> Seq<char> {
    written::head_text(head_fields::start_line(head), measured_fields(head, len))
}

/// Writes a head with the given length in place of any other.
pub fn build_measured_head(head: &str, len: u64) -> (r: String)
    ensures
        r@ == measured_head(head@, len as nat),
{
    let hc = chars_of(head);
    let ls = head_lines(hc.as_slice());
    let fields = parse_fields(&ls);
    let ghost all = head_fields::header_fields(head@);
    assert(head_fields::pair_views(fields@) =~= all);
    let mut tail = String::new();
    assert(all.take(0) =~= seq![]);
    assert(tail@ =~= seq![]);
    for i in 0..fields.len()
        invariant
            head_fields::pair_views(fields@) == all,
            tail@ == written::field_lines(without_length(all.take(i as int))),
    {
        assert(all.take(i + 1).drop_last() =~= all.take(i as int));
        let (name, value) = fields[i];
        assert(all[i as int] == (name@, value@));
        if !is_named(name, "content-length") {
            let n = string_of(name);
            let v = string_of(value);
            push_field(
                &mut tail,
                n.as_str(),
                v.as_str(),
                Ghost(without_length(all.take(i as int))),
            );
        }
    }
    assert(all.take(fields@.len() as int) =~= all);
    let digits = decimal_string(len);
    push_field(&mut tail, "Content-Length", digits.as_str(), Ghost(without_length(all)));
    let mut out = String::new();
    push_chars(&mut out, first_line(&ls, hc.as_slice()));
    out.append("\r\n");
    out.append(tail.as_str());
    assert(out@ =~= measured_head(head@, len as nat));
    out
}

/// Makes a request whose body came in chunks into one whose body comes whole.
pub fn whole_request(head: &str, chunks: &[u8]) -> (r: Result<(String, Vec<u8>), ChunkError>)
    ensures
        match r {
            Ok((h, body)) => chunked::decoded(chunks@) == Ok::<Seq<u8>, ChunkError>(body@) && h@
                == measured_head(head@, body@.len()),
            Err(e) => chunked::decoded(chunks@) == Err::<Seq<u8>, ChunkError>(e),
        },
{
    match decode_chunked(chunks) {
        Ok(body) => {
            let h = build_measured_head(head, body.len() as u64);
            Ok((h, body))
        },
        Err(e) => Err(e),
    }
}

// ---------------------------------------------------------------------------
// What an upstream is told
// ---------------------------------------------------------------------------

proof fn lemma_without_length(fields: Seq<(Seq<char>, Seq<char>)>)
    ensures
        forall|i: int|
            0 <= i < without_length(fields).len() ==> !head_fields::named(
                #[trigger] without_length(fields)[i],
                "content-length"@,
            ),
        written::all_clean(fields) ==> written::all_clean(without_length(fields)),
    decreases fields.len(),
{
    if fields.len() > 0 {
        let rest = fields.drop_last();
        lemma_without_length(rest);
        if written::all_clean(fields) {
            assert forall|i: int| 0 <= i < rest.len() implies written::clean_field(
                #[trigger] rest[i],
            ) by {
                assert(rest[i] == fields[i]);
            }
            assert(written::clean_field(fields[fields.len() - 1]));
        }
    }
}

/// The fields that are passed on tell the lengths that all of them tell.
proof fn lemma_kept_lengths(fields: Seq<(Seq<char>, Seq<char>)>)
    ensures
        request::length_items(headers::kept_fields(fields)) == request::length_items(fields),
        request::blank_length(headers::kept_fields(fields)) ==> request::blank_length(fields),
    decreases fields.len(),
{
    if fields.len() > 0 {
        let f = fields.last();
        let rest = fields.drop_last();
        let k = headers::kept_fields(rest);
        lemma_kept_lengths(rest);
        lemma_length_is_kept(f);
        if headers::passed_on(f) {
            assert(k.push(f).drop_last() =~= k);
        }
        if request::blank_length(headers::kept_fields(fields)) {
            let all = headers::kept_fields(fields);
            let i = choose|i: int|
                0 <= i < all.len() && head_fields::named(#[trigger] all[i], "content-length"@)
                    && head_fields::list_items(all[i].1).len() == 0;
            if i < k.len() {
                assert(k[i] == all[i]);
                assert(request::blank_length(rest));
                let j = choose|j: int|
                    0 <= j < rest.len() && head_fields::named(
                        #[trigger] rest[j],
                        "content-length"@,
                    ) && head_fields::list_items(rest[j].1).len() == 0;
                assert(fields[j] == rest[j]);
            } else {
                assert(all[i] == fields[fields.len() - 1]);
            }
        }
    }
}

proof fn lemma_length_is_kept(f: (Seq<char>, Seq<char>))
    ensures
        head_fields::named(f, "content-length"@) ==> headers::passed_on(f),
{
    reveal_strlit("content-length");
    reveal_strlit("x-forwarded-for");
    reveal_strlit("x-real-ip");
    reveal_strlit("x-forwarded-proto");
    reveal_strlit("x-forwarded-host");
    reveal_strlit("connection");
    reveal_strlit("keep-alive");
    reveal_strlit("proxy-connection");
    reveal_strlit("te");
    reveal_strlit("trailer");
    reveal_strlit("transfer-encoding");
    reveal_strlit("upgrade");
    assert("content-length"@.len() == 14);
    assert(forall|n: Seq<char>|
        #![trigger headers::forwarding_name(n)]
        headers::forwarding_name(n) ==> n.len() != 14);
    assert(forall|n: Seq<char>|
        #![trigger headers::hop_by_hop_name(n)]
        headers::hop_by_hop_name(n) ==> n.len() != 14);
}

proof fn lemma_added(ip: Seq<char>, host: Option<Seq<char>>, keep_alive: bool)
    ensures
        forall|i: int|
            0 <= i < headers::added_fields(ip, host, keep_alive).len() ==> !head_fields::named(
                #[trigger] headers::added_fields(ip, host, keep_alive)[i],
                "content-length"@,
            ),
{
    reveal_strlit("content-length");
    reveal_strlit("X-Forwarded-For");
    reveal_strlit("X-Real-IP");
    reveal_strlit("X-Forwarded-Proto");
    reveal_strlit("X-Forwarded-Host");
    reveal_strlit("Connection");
    assert forall|i: int|
        0 <= i < headers::added_fields(ip, host, keep_alive).len() implies !head_fields::named(
        #[trigger] headers::added_fields(ip, host, keep_alive)[i],
        "content-length"@,
    ) by {
        let f = headers::added_fields(ip, host, keep_alive)[i];
        assert(text::lower(f.0).len() == f.0.len());
        assert(f.0.len() != "content-length"@.len());
    }
}

/// Fields that tell no length change nothing behind those that do.
proof fn lemma_more_fields(
    fields: Seq<(Seq<char>, Seq<char>)>,
    more: Seq<(Seq<char>, Seq<char>)>,
)
    requires
        forall|i: int|
            0 <= i < more.len() ==> !head_fields::named(#[trigger] more[i], "content-length"@),
    ensures
        request::length_items(fields + more) == request::length_items(fields),
        request::blank_length(fields + more) ==> request::blank_length(fields),
    decreases more.len(),
{
    let all = fields + more;
    if more.len() == 0 {
        assert(all =~= fields);
    } else {
        assert(!head_fields::named(more[more.len() - 1], "content-length"@));
        assert(all.drop_last() =~= fields + more.drop_last());
        assert forall|i: int| 0 <= i < more.drop_last().len() implies !head_fields::named(
            #[trigger] more.drop_last()[i],
            "content-length"@,
        ) by {
            assert(more.drop_last()[i] == more[i]);
        }
        lemma_more_fields(fields, more.drop_last());
    }
    if request::blank_length(all) {
        let i = choose|i: int|
            0 <= i < all.len() && head_fields::named(#[trigger] all[i], "content-length"@)
                && head_fields::list_items(all[i].1).len() == 0;
        if i < fields.len() {
            assert(fields[i] == all[i]);
        } else {
            assert(more[i - fields.len()] == all[i]);
        }
    }
}

/// The upstream of a request whose body came in chunks is told the length of
/// the body that it gets, whatever length the client told.
pub proof fn upstream_is_told_the_length(
    head: Seq<char>,
    body: Seq<u8>,
    ip: Seq<char>,
    keep_alive: bool,
)
    requires
        body.len() <= usize::MAX,
    ensures
        request::announced_length(
            headers::upstream_fields(measured_head(head, body.len()), ip, keep_alive),
        ) == Ok::<nat, request::HeaderParseError>(body.len()),
{
    let n = body.len();
    let own = head_fields::header_fields(head);
    let left = without_length(own);
    let fs = measured_fields(head, n);
    let line = head_fields::start_line(head);
    let digits = number::decimal(n);
    let f = ("Content-Length"@, digits);
    written::read_fields_are_clean(head);
    lemma_without_length(own);
    number::lemma_digits_plain(n);
    reveal_strlit("Content-Length");
    reveal_strlit("content-length");
    assert(text::trimmed(digits) == digits);
    assert(!digits.contains(','));
    assert(text::trimmed("Content-Length"@) == "Content-Length"@);
    assert(written::clean_field(f));
    assert forall|i: int| 0 <= i < fs.len() implies written::clean_field(#[trigger] fs[i]) by {
        if i < left.len() {
            assert(fs[i] == left[i]);
        }
    }
    written::lemma_start_line_plain(head);
    written::written_head_reads_back(line, fs);
    let read = head_fields::header_fields(measured_head(head, n));
    assert(read == fs);

    head_fields::lemma_one_item(digits);
    number::decimal_reads_back(n, usize::MAX as nat);
    assert(text::lower(f.0) =~= "content-length"@);
    let none = Seq::<(Seq<char>, Seq<char>)>::empty();
    assert(none + left =~= left);
    lemma_more_fields(none, left);
    assert(fs.drop_last() =~= left);
    let items = request::length_items(fs);
    assert(items =~= seq![digits]);
    assert forall|i: int|
        0 <= i < fs.len() && head_fields::named(#[trigger] fs[i], "content-length"@) implies
        head_fields::list_items(fs[i].1).len() != 0 by {
        if i < left.len() {
            assert(fs[i] == left[i]);
        }
    }
    assert(!request::blank_length(fs));

    let added = headers::added_fields(ip, headers::last_host(fs), keep_alive);
    lemma_kept_lengths(fs);
    lemma_added(ip, headers::last_host(fs), keep_alive);
    lemma_more_fields(headers::kept_fields(fs), added);
    let sent = headers::upstream_fields(measured_head(head, n), ip, keep_alive);
    assert(request::length_items(sent) == items);
    assert(!request::blank_length(sent));
    assert(items.drop_last() =~= seq![]);
    assert(request::lengths(items.drop_last()) =~= seq![]);
    assert(request::lengths(items) =~= seq![n]);
    assert(request::lengths_valid(items));
    assert(!request::lengths_differ(items));
}

/// A head that is given a length keeps its first line and every other field, in
/// order and as it was; no other length is left.
pub proof fn only_the_length_changes(head: Seq<char>, len: nat)
    ensures
        head_fields::start_line(measured_head(head, len)) == head_fields::start_line(head),
        head_fields::header_fields(measured_head(head, len)) == head_fields::header_fields(
            head,
        ).filter(|f: (Seq<char>, Seq<char>)| text::lower(f.0) != "content-length"@) + seq![
            ("Content-Length"@, number::decimal(len)),
        ],
{
    let own = head_fields::header_fields(head);
    let left = without_length(own);
    let fs = measured_fields(head, len);
    let digits = number::decimal(len);
    written::read_fields_are_clean(head);
    lemma_without_length(own);
    lemma_filtered(own);
    number::lemma_digits_plain(len);
    reveal_strlit("Content-Length");
    assert(text::trimmed(digits) == digits);
    assert(text::trimmed("Content-Length"@) == "Content-Length"@);
    assert(written::clean_field(("Content-Length"@, digits)));
    assert forall|i: int| 0 <= i < fs.len() implies written::clean_field(#[trigger] fs[i]) by {
        if i < left.len() {
            assert(fs[i] == left[i]);
        }
    }
    written::lemma_start_line_plain(head);
    written::written_head_reads_back(head_fields::start_line(head), fs);
}

proof fn lemma_filtered(fields: Seq<(Seq<char>, Seq<char>)>)
    ensures
        without_length(fields) == fields.filter(
            |f: (Seq<char>, Seq<char>)| text::lower(f.0) != "content-length"@,
        ),
    decreases fields.len(),
{
    reveal(Seq::filter);
    if fields.len() > 0 {
        lemma_filtered(fields.drop_last());
    }
}

} // verus!
