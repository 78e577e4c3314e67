//! Conditional requests: when the client's copy of a file is still good.
use super::etag;
use crate::dates::{self, parse_date};
use crate::headers::{self, head_lines, is_named, parse_fields};
use crate::number;
use crate::text::{
    self, chars_of, push_chars, same_str, spells, split_chars, starts_with, string_of, tail_from, trim,
};
use vstd::prelude::*;
use vstd::slice::slice_subrange;

verus! {

/// The tags that a client names.
#[derive(Debug)]
pub enum IfNoneMatch {
    /// All tags.
    Any,
    /// The given tags.
    Tags(Vec<String>),
}

/// The same, as texts.
#[verifier::ext_equal]
pub enum NoneMatchView {
    Any,
    Tags(Seq<Seq<char>>),
}

impl View for IfNoneMatch {
    type V = NoneMatchView;

    open spec fn view(&self) -> NoneMatchView {
        match self {
            IfNoneMatch::Any => NoneMatchView::Any,
            IfNoneMatch::Tags(l) => NoneMatchView::Tags(l.deep_view()),
        }
    }
}

/// What an optional value is as texts.
pub open spec fn option_view(o: Option<IfNoneMatch>) -> Option<NoneMatchView> {
    match o {
        Some(v) => Some(v@),
        None => None,
    }
}

/// A token without the mark of a weak tag.
pub open spec fn without_weak_mark(t: Seq<char>) -> Seq<char> {
    if text::starts(t, "W/"@) || text::starts(t, "w/"@) {
        text::trimmed(t.skip(2))
    } else {
        t
    }
}

/// Whether a token stands in quotation marks of the given kind.
pub open spec fn quoted_by(t: Seq<char>, q: char) -> bool {
    t.len() >= 2 && t[0] == q && t.last() == q
}

/// A token without the quotation marks around it.
pub open spec fn unquoted(t: Seq<char>) -> Seq<char> {
    if quoted_by(t, '"') || quoted_by(t, '\'') {
        t.subrange(1, t.len() - 1)
    } else {
        t
    }
}

/// The tag that a token stands for, if it stands for any.
pub open spec fn tag_in(token: Seq<char>) -> Option<Seq<char>> {
    let t = text::trimmed(token);
    let tag = text::trimmed(unquoted(without_weak_mark(t)));
    if t.len() == 0 || tag.len() == 0 {
        None
    } else {
        Some(tag)
    }
}

/// The tags that pieces of a value stand for, in order.
pub open spec fn tags_in(pieces: Seq<Seq<char>>) -> Seq<Seq<char>>
    decreases pieces.len(),
{
    if pieces.len() == 0 {
        seq![]
    } else {
        match tag_in(pieces.last()) {
            Some(t) => tags_in(pieces.drop_last()).push(t),
            None => tags_in(pieces.drop_last()),
        }
    }
}

/// Whether one of the pieces is an asterisk.
pub open spec fn has_asterisk(pieces: Seq<Seq<char>>) -> bool {
    exists|i: int| 0 <= i < pieces.len() && text::trimmed(#[trigger] pieces[i]) == "*"@
}

/// The tags that a value names.
pub open spec fn none_match_in(value: Seq<char>) -> Option<NoneMatchView> {
    let pieces = text::split(text::trimmed(value), ',');
    if has_asterisk(pieces) {
        Some(NoneMatchView::Any)
    } else if tags_in(pieces).len() == 0 {
        None
    } else {
        Some(NoneMatchView::Tags(tags_in(pieces)))
    }
}

/// The values of all `If-None-Match` fields in one.
pub open spec fn combined(fields: Seq<(Seq<char>, Seq<char>)>) -> Seq<char>
    decreases fields.len(),
{
    if fields.len() == 0 {
        seq![]
    } else {
        let before = combined(fields.drop_last());
        if headers::named(fields.last(), "if-none-match"@) {
            if before.len() == 0 {
                fields.last().1
            } else {
                before + seq![','] + fields.last().1
            }
        } else {
            before
        }
    }
}

/// The tags that a request names.
pub open spec fn none_match_of(head: Seq<char>) -> Option<NoneMatchView> {
    let c = combined(headers::header_fields(head));
    if c.len() == 0 {
        None
    } else {
        none_match_in(c)
    }
}

/// Whether a tag is among those that a client names.
pub open spec fn satisfied(m: NoneMatchView, tag: Seq<char>) -> bool {
    match m {
        NoneMatchView::Any => true,
        NoneMatchView::Tags(l) => l.contains(tag),
    }
}

/// Whether the method reads.
pub open spec fn reads(method: Seq<char>) -> bool {
    method == "GET"@ || method == "HEAD"@
}

/// Whether the method reads.
pub fn is_read(method: &str) -> (r: bool)
    ensures
        r == reads(method@),
{
    same_str(method, "GET") || same_str(method, "HEAD")
}

/// The tag that a token stands for.
pub fn normalize_etag_token(token: &[char]) -> (r: Option<String>)
    ensures
        match r {
            Some(t) => tag_in(token@) == Some(t@),
            None => tag_in(token@) is None,
        },
{
    let t = trim(token);
    if t.len() == 0 {
        return None;
    }
    let w1 = chars_of("W/");
    let w2 = chars_of("w/");
    proof {
        reveal_strlit("W/");
        reveal_strlit("w/");
    }
    let strong = if starts_with(t, w1.as_slice()) || starts_with(t, w2.as_slice()) {
        trim(tail_from(t, 2))
    } else {
        t
    };
    let n: usize = strong.len();
    let bare = if n >= 2 && ((strong[0] == '"' && strong[n - 1] == '"') || (strong[0] == '\''
        && strong[n - 1] == '\'')) {
        slice_subrange(strong, 1, n - 1)
    } else {
        strong
    };
    let tag = trim(bare);
    if tag.len() == 0 {
        None
    } else {
        Some(string_of(tag))
    }
}

/// Reads the tags that a value names.
pub fn parse_if_none_match_value(value: &str) -> (r: Option<IfNoneMatch>)
    ensures
        option_view(r) == none_match_in(value@),
{
    let vc = chars_of(value);
    let pieces = split_chars(trim(vc.as_slice()), ',');
    let ghost all = text::views(pieces@);
    let mut tags: Vec<String> = Vec::new();
    assert(all.take(0) =~= seq![]);
    assert(tags.deep_view() =~= seq![]);
    for i in 0..pieces.len()
        invariant
            all == text::views(pieces@),
            all == text::split(text::trimmed(value@), ','),
            tags.deep_view() == tags_in(all.take(i as int)),
            forall|j: int| 0 <= j < i ==> text::trimmed(#[trigger] all[j]) != "*"@,
    {
        let ghost before = tags.deep_view();
        assert(all.take(i + 1).drop_last() =~= all.take(i as int));
        assert(all.take(i + 1).last() == pieces@[i as int]@);
        assert(all[i as int] == pieces@[i as int]@);
        if spells(trim(pieces[i]), "*") {
            return Some(IfNoneMatch::Any);
        }
        match normalize_etag_token(pieces[i]) {
            Some(t) => {
                tags.push(t);
                assert(tags.deep_view() =~= before.push(t@));
            },
            None => {},
        }
    }
    assert(all.take(pieces@.len() as int) =~= all);
    if tags.len() == 0 {
        None
    } else {
        Some(IfNoneMatch::Tags(tags))
    }
}

/// Reads the tags that a request names.
pub fn parse_if_none_match(head: &str) -> (r: Option<IfNoneMatch>)
    ensures
        option_view(r) == none_match_of(head@),
{
    let hc = chars_of(head);
    let ls = head_lines(hc.as_slice());
    let fields = parse_fields(&ls);
    let ghost all = headers::header_fields(head@);
    assert(headers::pair_views(fields@) =~= all);
    let mut out = String::new();
    assert(all.take(0) =~= seq![]);
    assert(out@ =~= seq![]);
    for i in 0..fields.len()
        invariant
            headers::pair_views(fields@) == all,
            out@ == combined(all.take(i as int)),
    {
        assert(all.take(i + 1).drop_last() =~= all.take(i as int));
        let (name, value) = fields[i];
        assert(all[i as int] == (name@, value@));
        if is_named(name, "if-none-match") {
            let ghost before = out@;
            if !text::is_empty(out.as_str()) {
                out.push(',');
            }
            push_chars(&mut out, value);
            assert(out@ =~= combined(all.take(i + 1)));
        }
    }
    assert(all.take(fields@.len() as int) =~= all);
    if text::is_empty(out.as_str()) {
        None
    } else {
        parse_if_none_match_value(out.as_str())
    }
}

/// Whether a tag is among those that a client names.
pub fn if_none_match_satisfied(if_none_match: &IfNoneMatch, etag_value: &str) -> (r: bool)
    ensures
        r == satisfied(if_none_match@, etag_value@),
{
    match if_none_match {
        IfNoneMatch::Any => true,
        IfNoneMatch::Tags(tags) => crate::migux_config::validation::list_has(tags, etag_value),
    }
}

/// Whether a request is answered with 304 on account of the tag of the file.
pub open spec fn matches_tag(method: Seq<char>, head: Seq<char>, tag: Seq<char>) -> bool {
    reads(method) && (none_match_of(head) matches Some(m) && satisfied(m, tag))
}

/// Whether a request is answered with 304 on account of the tag of the file.
pub fn should_return_not_modified(method: &str, headers: &str, etag_value: &str) -> (r: bool)
    ensures
        r == matches_tag(method@, headers@, etag_value@),
{
    if !is_read(method) {
        return false;
    }
    match parse_if_none_match(headers) {
        Some(m) => if_none_match_satisfied(&m, etag_value),
        None => false,
    }
}

proof fn lemma_tag_chars(size: u64, nanos: u128)
    ensures
        ({
            let t = etag::tag_of(size, nanos);
            &&& t.len() > 0
            &&& forall|i: int| 0 <= i < t.len() ==> '0' <= #[trigger] t[i] <= '9' || t[i] == '-'
        }),
{
    reveal_strlit("-");
    number::lemma_digits_plain(size as nat);
    number::lemma_digits_plain(nanos as nat);
    let a = number::decimal(size as nat);
    let b = number::decimal(nanos as nat);
    let t = etag::tag_of(size, nanos);
    assert forall|i: int| 0 <= i < t.len() implies '0' <= #[trigger] t[i] <= '9' || t[i]
        == '-' by {
        if i < a.len() {
            assert(t[i] == a[i]);
        } else if i > a.len() {
            assert(t[i] == b[i - a.len() - 1]);
        }
    }
}

/// A client that sends back the tag it was given gets 304 for as long as the
/// file stays as it is.
pub proof fn echoed_tag_is_not_modified(
    method: Seq<char>,
    head: Seq<char>,
    size: u64,
    nanos: u128,
)
    requires
        reads(method),
        combined(headers::header_fields(head)) == etag::tag_header(etag::tag_of(size, nanos)),
    ensures
        matches_tag(method, head, etag::tag_of(size, nanos)),
{
    let tag = etag::tag_of(size, nanos);
    let h = etag::tag_header(tag);
    lemma_tag_chars(size, nanos);
    reveal_strlit("W/\"");
    reveal_strlit("\"");
    reveal_strlit("W/");
    reveal_strlit("*");
    assert(h[0] == 'W');
    assert(h.last() == '"');
    text::lemma_trim_nothing(h);
    assert forall|j: int| 0 <= j < h.len() implies h[j] != ',' by {
        if 3 <= j < h.len() - 1 {
            assert(h[j] == tag[j - 3]);
        }
    }
    text::lemma_first_pos(h, ',', h.len() as int);
    let pieces = text::split(h, ',');
    assert(pieces =~= seq![h]);
    assert(!has_asterisk(pieces));
    assert(h.take(2) =~= "W/"@);
    let q = h.skip(2);
    assert(q[0] == '"');
    assert(q.last() == '"');
    text::lemma_trim_nothing(q);
    assert(q.subrange(1, q.len() - 1) =~= tag);
    assert(tag.last() == tag[tag.len() - 1]);
    text::lemma_trim_nothing(tag);
    assert(tag_in(h) == Some(tag));
    assert(pieces.drop_last() =~= seq![]);
    assert(tags_in(pieces.drop_last()) =~= seq![]);
    assert(tags_in(pieces) =~= seq![tag]);
    assert(tags_in(pieces)[0] == tag);
}

// ---------------------------------------------------------------------------
// Dates
// ---------------------------------------------------------------------------

/// The value of the first field with a name.
pub open spec fn first_value(fields: Seq<(Seq<char>, Seq<char>)>, name: Seq<char>) -> Option<
    Seq<char>,
>
    decreases fields.len(),
{
    if fields.len() == 0 {
        None
    } else {
        match first_value(fields.drop_last(), name) {
            Some(v) => Some(v),
            None => if headers::named(fields.last(), name) {
                Some(fields.last().1)
            } else {
                None
            },
        }
    }
}

/// The second in the `If-Modified-Since` field of a request.
pub open spec fn modified_since_of(head: Seq<char>) -> Option<u64> {
    match first_value(headers::header_fields(head), "if-modified-since"@) {
        Some(v) => if v.len() == 0 {
            None
        } else {
            dates::date_in(v)
        },
        None => None,
    }
}

/// The text in the `If-Modified-Since` field of a request.
pub fn modified_since_text(head: &str) -> (r: Option<String>)
    ensures
        match r {
            Some(v) => first_value(headers::header_fields(head@), "if-modified-since"@) == Some(v@),
            None => first_value(headers::header_fields(head@), "if-modified-since"@) is None,
        },
{
    let hc = chars_of(head);
    let ls = head_lines(hc.as_slice());
    let fields = parse_fields(&ls);
    let ghost all = headers::header_fields(head@);
    assert(headers::pair_views(fields@) =~= all);
    let mut found: Option<String> = None;
    assert(all.take(0) =~= seq![]);
    for i in 0..fields.len()
        invariant
            headers::pair_views(fields@) == all,
            match found {
                Some(v) => first_value(all.take(i as int), "if-modified-since"@) == Some(v@),
                None => first_value(all.take(i as int), "if-modified-since"@) is None,
            },
    {
        assert(all.take(i + 1).drop_last() =~= all.take(i as int));
        let (name, value) = fields[i];
        assert(all[i as int] == (name@, value@));
        if found.is_none() && is_named(name, "if-modified-since") {
            found = Some(string_of(value));
        }
    }
    assert(all.take(fields@.len() as int) =~= all);
    found
}

/// Reads the second in the `If-Modified-Since` field of a request.
pub fn parse_if_modified_since(head: &str) -> (r: Option<u64>)
    ensures
        r == modified_since_of(head@),
{
    match modified_since_text(head) {
        Some(v) => {
            if text::is_empty(v.as_str()) {
                None
            } else {
                parse_date(v.as_str())
            }
        },
        None => None,
    }
}

/// The second of a time in nanoseconds.
pub fn truncate_to_seconds(nanos: u128) -> (r: u128)
    ensures
        r == etag::seconds_of(nanos),
{
    nanos / 1_000_000_000
}

/// Whether a file that was changed at the given time has not changed since the
/// second that a client names.
pub open spec fn unchanged_since(
    method: Seq<char>,
    since: Option<u64>,
    mtime_nanos: Option<u128>,
) -> bool {
    reads(method) && (since matches Some(s) && (mtime_nanos matches Some(n) && etag::seconds_of(n)
        <= s))
}

/// Whether a file has not changed since the second that a client names. Only
/// whole seconds count, as a date in a header has no smaller unit.
pub fn unchanged(method: &str, since: Option<u64>, mtime_nanos: Option<u128>) -> (r: bool)
    ensures
        r == unchanged_since(method@, since, mtime_nanos),
{
    if !is_read(method) {
        return false;
    }
    match (since, mtime_nanos) {
        (Some(s), Some(n)) => truncate_to_seconds(n) <= s as u128,
        _ => false,
    }
}

/// Whether a request is answered with 304 on account of the time at which the
/// file was last changed. This is for requests that name no tags.
pub fn should_return_not_modified_if_modified_since(
    method: &str,
    headers: &str,
    file_mtime_nanos: Option<u128>,
) -> (r: bool)
    ensures
        r == unchanged_since(method@, modified_since_of(headers@), file_mtime_nanos),
{
    unchanged(method, parse_if_modified_since(headers), file_mtime_nanos)
}

/// A client that sends back the date it was given gets 304 for as long as the
/// file stays as it is.
pub proof fn echoed_date_is_not_modified(
    method: Seq<char>,
    head: Seq<char>,
    last_modified: Seq<char>,
    nanos: u128,
)
    requires
        reads(method),
        last_modified.len() > 0,
        dates::date_in(last_modified) == Some(etag::seconds_of(nanos) as u64),
        etag::seconds_of(nanos) < dates::DATE_LIMIT,
        first_value(headers::header_fields(head), "if-modified-since"@) == Some(last_modified),
    ensures
        unchanged_since(method, modified_since_of(head), Some(nanos)),
{
}

// ---------------------------------------------------------------------------
// What a client names
// ---------------------------------------------------------------------------

/// Whether an item names a tag: in quotation marks, with or without the mark of a
/// weak tag.
pub open spec fn names_tag(item: Seq<char>, tag: Seq<char>) -> bool {
    let quoted = seq!['"'] + tag + seq!['"'];
    item == quoted || item == seq!['W', '/'] + quoted || item == seq!['w', '/'] + quoted
}

proof fn lemma_named_tag(item: Seq<char>, tag: Seq<char>)
    requires
        headers::plain_item(tag),
        names_tag(item, tag),
    ensures
        headers::plain_item(item),
        tag_in(item) == Some(tag),
        item != seq!['*'],
        forall|piece: Seq<char>| #[trigger] text::trimmed(piece) == item ==> tag_in(piece) == Some(tag),
{
    reveal_strlit("W/");
    reveal_strlit("w/");
    let quoted = seq!['"'] + tag + seq!['"'];
    assert(quoted.last() == '"');
    assert(quoted[0] == '"');
    assert forall|j: int| 0 <= j < quoted.len() implies quoted[j] != ',' by {
        if 0 < j < quoted.len() - 1 {
            assert(quoted[j] == tag[j - 1]);
            assert(tag.contains(tag[j - 1]));
        }
    }
    assert(item.last() == '"');
    let m: int = item.len() - quoted.len();
    assert(item =~= item.take(m) + quoted);
    assert forall|j: int| 0 <= j < item.len() implies item[j] != ',' by {
        if j >= m {
            assert(item[j] == quoted[j - m]);
        }
    }
    text::lemma_trim_nothing(item);
    text::lemma_trim_nothing(quoted);
    text::lemma_trim_nothing(tag);
    assert(quoted.subrange(1, quoted.len() - 1) =~= tag);
    if m == 0 {
        assert(item =~= quoted);
        assert(!text::starts(item, "W/"@)) by {
            assert(item.take(2)[0] == '"');
        }
        assert(!text::starts(item, "w/"@)) by {
            assert(item.take(2)[0] == '"');
        }
    } else {
        assert(item.skip(2) =~= quoted);
        assert(item.take(2) =~= "W/"@ || item.take(2) =~= "w/"@);
    }
}

proof fn lemma_tags(pieces: Seq<Seq<char>>, tags: Seq<Seq<char>>)
    requires
        pieces.len() == tags.len(),
        forall|i: int| 0 <= i < pieces.len() ==> tag_in(#[trigger] pieces[i]) == Some(tags[i]),
    ensures
        tags_in(pieces) == tags,
    decreases pieces.len(),
{
    if pieces.len() > 0 {
        let (p, t) = (pieces.drop_last(), tags.drop_last());
        assert forall|i: int| 0 <= i < p.len() implies tag_in(#[trigger] p[i]) == Some(t[i]) by {
            assert(p[i] == pieces[i]);
        }
        lemma_tags(p, t);
        assert(tag_in(pieces[pieces.len() - 1]) == Some(tags.last()));
        assert(tags_in(pieces) =~= tags);
    } else {
        assert(tags_in(pieces) =~= tags);
    }
}

/// A client that names tags has a good copy if one of them is the tag of the file,
/// and not otherwise; the asterisk stands for every tag. This is so of requests
/// to read alone.
pub proof fn named_tags_are_compared(
    method: Seq<char>,
    head: Seq<char>,
    items: Seq<Seq<char>>,
    tags: Seq<Seq<char>>,
    tag: Seq<char>,
)
    requires
        items.len() == tags.len(),
        items.len() > 0,
        forall|i: int|
            0 <= i < items.len() ==> headers::plain_item(#[trigger] tags[i]) && names_tag(
                items[i],
                tags[i],
            ),
        combined(headers::header_fields(head)) == headers::joined(items),
    ensures
        matches_tag(method, head, tag) == ((method == "GET"@ || method == "HEAD"@) && tags.contains(
            tag,
        )),
{
    reveal_strlit("*");
    assert("*"@ =~= seq!['*']);
    assert forall|i: int| 0 <= i < items.len() implies headers::plain_item(#[trigger] items[i]) by {
        assert(headers::plain_item(tags[i]));
        lemma_named_tag(items[i], tags[i]);
    }
    let all = headers::joined(items);
    headers::lemma_joined_pieces(seq![], items);
    assert(seq![] + all =~= all);
    assert(headers::plain_item(items[items.len() - 1]));
    assert(headers::plain_item(items[0]));
    text::lemma_trim_nothing(all);
    let pieces = text::split(all, ',');
    assert forall|i: int| 0 <= i < pieces.len() implies tag_in(#[trigger] pieces[i]) == Some(tags[i])
        && text::trimmed(pieces[i]) != "*"@ by {
        assert(headers::plain_item(tags[i]));
        lemma_named_tag(items[i], tags[i]);
        assert(text::trimmed(pieces[i]) == items[i]);
    }
    lemma_tags(pieces, tags);
    assert(!has_asterisk(pieces));
}

/// A client that names every tag by an asterisk has a good copy, whichever tags
/// stand beside it.
pub proof fn asterisk_names_every_tag(
    method: Seq<char>,
    head: Seq<char>,
    items: Seq<Seq<char>>,
    k: int,
    tag: Seq<char>,
)
    requires
        0 <= k < items.len(),
        items[k] == seq!['*'],
        forall|i: int| 0 <= i < items.len() ==> headers::plain_item(#[trigger] items[i]),
        combined(headers::header_fields(head)) == headers::joined(items),
    ensures
        matches_tag(method, head, tag) == (method == "GET"@ || method == "HEAD"@),
{
    reveal_strlit("*");
    assert("*"@ =~= seq!['*']);
    let all = headers::joined(items);
    headers::lemma_joined_pieces(seq![], items);
    assert(seq![] + all =~= all);
    assert(headers::plain_item(items[items.len() - 1]));
    assert(headers::plain_item(items[0]));
    text::lemma_trim_nothing(all);
    let pieces = text::split(all, ',');
    assert(text::trimmed(pieces[k]) == "*"@);
    assert(has_asterisk(pieces));
}

/// Values with commas between them.
pub open spec fn put_together(values: Seq<Seq<char>>) -> Seq<char>
    decreases values.len(),
{
    if values.len() == 0 {
        seq![]
    } else if values.len() == 1 {
        values[0]
    } else {
        put_together(values.drop_last()) + seq![','] + values.last()
    }
}

/// The lists of tags of all fields of the name, whatever its case, count together,
/// in their order; other fields name no tags.
pub proof fn lists_of_tags_count_together(fields: Seq<(Seq<char>, Seq<char>)>)
    requires
        forall|i: int| 0 <= i < fields.len() ==> (#[trigger] fields[i]).1.len() > 0,
    ensures
        combined(fields) == put_together(
            fields.filter(|f: (Seq<char>, Seq<char>)| text::lower(f.0) == "if-none-match"@).map_values(
                |f: (Seq<char>, Seq<char>)| f.1,
            ),
        ),
        combined(fields).len() == 0 <==> forall|i: int|
            0 <= i < fields.len() ==> text::lower((#[trigger] fields[i]).0) != "if-none-match"@,
    decreases fields.len(),
{
    reveal(Seq::filter);
    let p = |f: (Seq<char>, Seq<char>)| text::lower(f.0) == "if-none-match"@;
    let v = |f: (Seq<char>, Seq<char>)| f.1;
    if fields.len() == 0 {
        assert(fields.filter(p).map_values(v) =~= seq![]);
        assert(combined(fields) =~= put_together(fields.filter(p).map_values(v)));
    } else {
        let rest = fields.drop_last();
        assert forall|i: int| 0 <= i < rest.len() implies (#[trigger] rest[i]).1.len() > 0 by {
            assert(rest[i] == fields[i]);
        }
        lists_of_tags_count_together(rest);
        let before = rest.filter(p).map_values(v);
        let last = fields.last();
        assert(last == fields[fields.len() - 1]);
        assert(before.len() == 0 ==> put_together(before).len() == 0);
        if p(last) {
            let now = fields.filter(p).map_values(v);
            assert(now =~= before.push(last.1));
            assert(now.drop_last() =~= before);
            if before.len() > 0 {
                assert(rest.filter(p).len() > 0);
                lemma_some_left(rest, p);
                let i = choose|i: int| 0 <= i < rest.len() && p(#[trigger] rest[i]);
                assert(text::lower(rest[i].0) == "if-none-match"@);
                assert(combined(rest).len() > 0);
            } else {
                assert(combined(rest) =~= seq![]);
            }
            assert(combined(fields) == put_together(now));
            assert(text::lower(fields[fields.len() - 1].0) == "if-none-match"@);
        } else {
            assert(fields.filter(p) =~= rest.filter(p));
            if combined(rest).len() > 0 {
                let i = choose|i: int|
                    0 <= i < rest.len() && text::lower((#[trigger] rest[i]).0) == "if-none-match"@;
                assert(fields[i] == rest[i]);
            } else {
                assert forall|i: int| 0 <= i < fields.len() implies text::lower(
                    (#[trigger] fields[i]).0,
                ) != "if-none-match"@ by {
                    if i < rest.len() {
                        assert(rest[i] == fields[i]);
                    }
                }
            }
        }
    }
}

proof fn lemma_some_left(
    fields: Seq<(Seq<char>, Seq<char>)>,
    p: spec_fn((Seq<char>, Seq<char>)) -> bool,
)
    requires
        fields.filter(p).len() > 0,
    ensures
        exists|i: int| 0 <= i < fields.len() && p(#[trigger] fields[i]),
    decreases fields.len(),
{
    reveal(Seq::filter);
    if fields.len() > 0 {
        if p(fields.last()) {
            assert(p(fields[fields.len() - 1]));
        } else {
            let rest = fields.drop_last();
            lemma_some_left(rest, p);
            let i = choose|i: int| 0 <= i < rest.len() && p(#[trigger] rest[i]);
            assert(fields[i] == rest[i]);
        }
    }
}

/// The first field of a name, whatever its case, gives the value; later ones do
/// not count.
pub proof fn first_value_counts(
    before: Seq<(Seq<char>, Seq<char>)>,
    f: (Seq<char>, Seq<char>),
    after: Seq<(Seq<char>, Seq<char>)>,
    name: Seq<char>,
)
    requires
        forall|i: int| 0 <= i < before.len() ==> text::lower((#[trigger] before[i]).0) != name,
    ensures
        first_value(before, name) is None,
        text::lower(f.0) == name ==> first_value(before.push(f) + after, name) == Some(f.1),
    decreases before.len() + after.len(),
{
    if after.len() > 0 {
        first_value_counts(before, f, after.drop_last(), name);
        let all = before.push(f) + after;
        assert(all.drop_last() =~= before.push(f) + after.drop_last());
    } else {
        let all = before.push(f) + after;
        assert(all =~= before.push(f));
        assert(all.drop_last() =~= before);
        if before.len() > 0 {
            let rest = before.drop_last();
            assert forall|i: int| 0 <= i < rest.len() implies text::lower((#[trigger] rest[i]).0)
                != name by {
                assert(rest[i] == before[i]);
            }
            first_value_counts(rest, f, after, name);
            assert(text::lower(before[before.len() - 1].0) != name);
        }
    }
}

/// A client that tells the second of its copy has a good one if the file has not
/// changed after the end of that second. This is so of requests to read alone, and
/// where both times are known.
pub proof fn times_are_compared_by_the_second(method: Seq<char>, second: u64, nanos: u128)
    ensures
        unchanged_since(method, Some(second), Some(nanos)) == ((method == "GET"@ || method
            == "HEAD"@) && nanos < (second + 1) * 1_000_000_000),
        !unchanged_since(method, None, Some(nanos)),
        !unchanged_since(method, Some(second), None),
        !unchanged_since(method, None, None),
{
}

/// The time that a client tells is read from its text. Without a text there is no
/// time.
pub proof fn told_time_is_read(
    head: Seq<char>,
    before: Seq<(Seq<char>, Seq<char>)>,
    f: (Seq<char>, Seq<char>),
    after: Seq<(Seq<char>, Seq<char>)>,
)
    requires
        headers::header_fields(head) == before.push(f) + after,
        forall|i: int|
            0 <= i < before.len() ==> text::lower((#[trigger] before[i]).0) != "if-modified-since"@,
    ensures
        text::lower(f.0) == "if-modified-since"@ && f.1.len() > 0 ==> modified_since_of(head)
            == dates::date_in(f.1),
        text::lower(f.0) == "if-modified-since"@ && f.1.len() == 0 ==> modified_since_of(head) is None,
        text::lower(f.0) != "if-modified-since"@ && after.len() == 0 ==> modified_since_of(head) is None,
{
    first_value_counts(before, f, after, "if-modified-since"@);
    if after.len() == 0 {
        assert(before.push(f) + after =~= before.push(f));
        assert(before.push(f).drop_last() =~= before);
    }
}

/// A client that names an empty tag names none, and its copy is not good.
pub proof fn empty_tags_do_not_count(method: Seq<char>, head: Seq<char>, tag: Seq<char>)
    requires
        combined(headers::header_fields(head)) == seq!['"', '"'] || combined(
            headers::header_fields(head),
        ) == seq!['W', '/', '"', '"'] || combined(headers::header_fields(head)).len() == 0,
    ensures
        !matches_tag(method, head, tag),
{
    reveal_strlit("*");
    reveal_strlit("W/");
    reveal_strlit("w/");
    let c = combined(headers::header_fields(head));
    if c.len() > 0 {
        text::lemma_trim_nothing(c);
        text::lemma_first_pos(c, ',', c.len() as int);
        let pieces = text::split(c, ',');
        assert(pieces =~= seq![c]);
        assert(!has_asterisk(pieces)) by {
            assert(c.len() != 1);
        }
        let quotes = seq!['"', '"'];
        text::lemma_trim_nothing(quotes);
        if c.len() == 4 {
            assert(c.take(2) =~= "W/"@);
            assert(c.skip(2) =~= quotes);
        } else {
            assert(c.take(2)[0] == '"');
        }
        assert(quotes.subrange(1, 1) =~= Seq::<char>::empty());
        let none = Seq::<char>::empty();
        assert(text::trimmed(none) =~= none);
        assert(tag_in(c) is None);
        assert(pieces.drop_last() =~= seq![]);
        assert(tags_in(pieces.drop_last()) =~= seq![]);
        assert(tags_in(pieces) =~= seq![]);
    }
}

} // verus!
