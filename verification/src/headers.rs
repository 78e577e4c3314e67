//! Header lines of an HTTP message head.
//!
//! A head is a start line followed by header lines. A header line that is
//! blank or has no colon is passed over; of the others the text before the
//! first colon is the name and the text behind it the value, both without
//! the white space around them.
use crate::number::{self, parse_usize};
use crate::text::{
    self, chars_of, contains_text, copy_str, same_chars, spells, split_at_char, split_chars,
    split_lines, starts_with, string_of, tail_from, to_lower, trim, trim_by, Class,
};
use vstd::prelude::*;
use vstd::slice::slice_subrange;

verus! {

/// The name and the value that a header line gives, if it gives any.
pub open spec fn field_of(line: Seq<char>) -> Option<(Seq<char>, Seq<char>)> {
    let t = text::trimmed(line);
    if t.len() == 0 {
        None
    } else {
        match text::split_once(t, ':') {
            Some(p) => Some((text::trimmed(p.0), text::trimmed(p.1))),
            None => None,
        }
    }
}

/// The fields that a sequence of header lines gives, in order.
pub open spec fn fields_of(ls: Seq<Seq<char>>) -> Seq<(Seq<char>, Seq<char>)>
    decreases ls.len(),
{
    if ls.len() == 0 {
        seq![]
    } else {
        match field_of(ls.last()) {
            Some(f) => fields_of(ls.drop_last()).push(f),
            None => fields_of(ls.drop_last()),
        }
    }
}

/// The start line of a head: its first line, or nothing.
pub open spec fn start_line(head: Seq<char>) -> Seq<char> {
    let ls = text::lines(head);
    if ls.len() == 0 {
        seq![]
    } else {
        ls[0]
    }
}

/// The lines of a head behind its start line.
pub open spec fn header_lines(head: Seq<char>) -> Seq<Seq<char>> {
    let ls = text::lines(head);
    if ls.len() == 0 {
        seq![]
    } else {
        ls.skip(1)
    }
}

/// The header fields of a head, in order.
pub open spec fn header_fields(head: Seq<char>) -> Seq<(Seq<char>, Seq<char>)> {
    fields_of(header_lines(head))
}

/// Whether a field has the given name, which is in lower case.
pub open spec fn named(f: (Seq<char>, Seq<char>), name: Seq<char>) -> bool {
    text::lower(f.0) == name
}

/// The views of pairs of slices.
pub open spec fn pair_views(v: Seq<(&[char], &[char])>) -> Seq<(Seq<char>, Seq<char>)> {
    v.map_values(|p: (&[char], &[char])| (p.0@, p.1@))
}

/// Reads one header line.
pub fn parse_field<'a>(line: &'a [char]) -> (r: Option<(&'a [char], &'a [char])>)
    ensures
        match r {
            Some(p) => field_of(line@) == Some((p.0@, p.1@)),
            None => field_of(line@) is None,
        },
{
    let t = trim(line);
    if t.len() == 0 {
        return None;
    }
    match split_at_char(t, ':') {
        Some((n, v)) => Some((trim(n), trim(v))),
        None => None,
    }
}

/// Reads the header fields of a head whose lines are given.
pub fn parse_fields<'a>(ls: &Vec<&'a [char]>) -> (r: Vec<(&'a [char], &'a [char])>)
    ensures
        pair_views(r@) == (if ls@.len() == 0 {
            seq![]
        } else {
            fields_of(text::views(ls@).skip(1))
        }),
{
    let mut out: Vec<(&'a [char], &'a [char])> = Vec::new();
    if ls.len() == 0 {
        assert(pair_views(out@) =~= seq![]);
        return out;
    }
    let ghost all = text::views(ls@).skip(1);
    assert(all.take(0) =~= seq![]);
    let mut i: usize = 1;
    while i < ls.len()
        invariant
            1 <= i <= ls@.len(),
            all == text::views(ls@).skip(1),
            pair_views(out@) =~= fields_of(all.take(i - 1)),
        decreases ls@.len() - i,
    {
        let ghost before = out@;
        assert(all.take(i as int).drop_last() =~= all.take(i - 1));
        assert(all.take(i as int).last() == ls@[i as int]@);
        match parse_field(ls[i]) {
            Some(f) => {
                out.push(f);
                assert(pair_views(out@) =~= pair_views(before).push((f.0@, f.1@)));
            },
            None => {},
        }
        i = i + 1;
    }
    assert(all.take(i - 1) =~= all);
    out
}

// ---------------------------------------------------------------------------
// Comma-separated values
// ---------------------------------------------------------------------------

/// The pieces that are not blank, without the white space around them.
pub open spec fn kept_pieces(pieces: Seq<Seq<char>>) -> Seq<Seq<char>>
    decreases pieces.len(),
{
    if pieces.len() == 0 {
        seq![]
    } else {
        let t = text::trimmed(pieces.last());
        if t.len() == 0 {
            kept_pieces(pieces.drop_last())
        } else {
            kept_pieces(pieces.drop_last()).push(t)
        }
    }
}

/// The items of a comma-separated value.
pub open spec fn list_items(value: Seq<char>) -> Seq<Seq<char>> {
    kept_pieces(text::split(value, ','))
}

/// Reads the items of a value that are separated by the given character.
pub fn parse_items<'a>(value: &'a [char], separator: char) -> (r: Vec<&'a [char]>)
    ensures
        text::views(r@) == kept_pieces(text::split(value@, separator)),
{
    let pieces = split_chars(value, separator);
    let ghost all = text::views(pieces@);
    let mut out: Vec<&'a [char]> = Vec::new();
    assert(all.take(0) =~= seq![]);
    for i in 0..pieces.len()
        invariant
            all == text::views(pieces@),
            text::views(out@) =~= kept_pieces(all.take(i as int)),
    {
        let ghost before = out@;
        assert(all.take(i + 1).drop_last() =~= all.take(i as int));
        assert(all.take(i + 1).last() == pieces@[i as int]@);
        let t = trim(pieces[i]);
        if t.len() > 0 {
            out.push(t);
            assert(text::views(out@) =~= text::views(before).push(t@));
        }
    }
    assert(all.take(pieces@.len() as int) =~= all);
    out
}

/// The form in which a token of a list is compared: without quotation marks
/// and in lower case.
pub open spec fn token_of(item: Seq<char>) -> Seq<char> {
    text::lower(text::trim_class(item, Class::Quotes))
}

/// Whether the comma-separated value holds the token.
pub open spec fn has_token(value: Seq<char>, token: Seq<char>) -> bool {
    exists|i: int|
        0 <= i < list_items(value).len() && token_of(#[trigger] list_items(value)[i]) == token
}

/// Whether a comma-separated value holds a token.
pub fn holds_token(value: &[char], token: &str) -> (r: bool)
    ensures
        r == has_token(value@, token@),
{
    let items = parse_items(value, ',');
    let tc = chars_of(token);
    for i in 0..items.len()
        invariant
            text::views(items@) == list_items(value@),
            tc@ == token@,
            forall|j: int| 0 <= j < i ==> token_of(#[trigger] list_items(value@)[j]) != token@,
    {
        let l = to_lower(trim_by(items[i], Class::Quotes));
        assert(list_items(value@)[i as int] == items@[i as int]@);
        if same_chars(l.as_slice(), tc.as_slice()) {
            return true;
        }
    }
    false
}

/// Whether the name of a field is the given one up to case.
pub fn is_named(name: &[char], expected: &str) -> (r: bool)
    ensures
        r == (text::lower(name@) == expected@),
{
    let l = to_lower(name);
    spells(l.as_slice(), expected)
}

/// The lines of a head.
pub fn head_lines<'a>(head: &'a [char]) -> (r: Vec<&'a [char]>)
    ensures
        text::views(r@) == text::lines(head@),
{
    split_lines(head)
}

/// The `i`-th word of a request line, or what stands for it.
pub open spec fn word_or(line: Seq<char>, i: int, default: Seq<char>) -> Seq<char> {
    if i < text::words(line).len() {
        text::words(line)[i]
    } else {
        default
    }
}

/// The `i`-th of some words as a string, or a default.
pub(crate) fn word_string(words: &Vec<&[char]>, i: usize, default: &str) -> (r: String)
    ensures
        r@ == (if i < words@.len() {
            words@[i as int]@
        } else {
            default@
        }),
{
    if i < words.len() {
        string_of(words[i])
    } else {
        copy_str(default)
    }
}

/// The first line of a head, or nothing.
pub(crate) fn first_line<'a>(ls: &Vec<&'a [char]>, head: &'a [char]) -> (r: &'a [char])
    ensures
        r@ == (if ls@.len() == 0 {
            seq![]
        } else {
            ls@[0]@
        }),
{
    if ls.len() == 0 {
        let r = slice_subrange(head, 0, 0);
        assert(r@ =~= seq![]);
        r
    } else {
        ls[0]
    }
}

// ---------------------------------------------------------------------------
// Lines known by what they begin with
// ---------------------------------------------------------------------------

/// What follows the prefix in a line, in lower case and without the white
/// space around it, if the line begins with the prefix up to case.
pub open spec fn line_value(line: Seq<char>, prefix: Seq<char>) -> Option<Seq<char>> {
    if text::starts(text::lower(line), prefix) {
        Some(text::trimmed(text::lower(line).skip(prefix.len() as int)))
    } else {
        None
    }
}

/// The last number that a line with the prefix gives.
pub open spec fn last_number(ls: Seq<Seq<char>>, prefix: Seq<char>) -> Option<nat>
    decreases ls.len(),
{
    if ls.len() == 0 {
        None
    } else {
        match line_value(ls.last(), prefix) {
            Some(v) => match number::parsed_number(v, 10, usize::MAX as nat) {
                Some(n) => Some(n),
                None => last_number(ls.drop_last(), prefix),
            },
            None => last_number(ls.drop_last(), prefix),
        }
    }
}

/// Whether a line says the text behind the prefix.
pub open spec fn line_says(line: Seq<char>, prefix: Seq<char>, what: Seq<char>) -> bool {
    line_value(line, prefix) matches Some(v) && text::has_text(v, what)
}

/// Whether some line says the text behind the prefix.
pub open spec fn some_line_says(ls: Seq<Seq<char>>, prefix: Seq<char>, what: Seq<char>) -> bool {
    exists|i: int| 0 <= i < ls.len() && line_says(#[trigger] ls[i], prefix, what)
}

/// Reads what follows a prefix in a line.
pub fn parse_line_value(line: &[char], prefix: &str) -> (r: Option<Vec<char>>)
    ensures
        match r {
            Some(v) => line_value(line@, prefix@) == Some(v@),
            None => line_value(line@, prefix@) is None,
        },
{
    let l = to_lower(line);
    let p = chars_of(prefix);
    if !starts_with(l.as_slice(), p.as_slice()) {
        return None;
    }
    let v = trim(tail_from(l.as_slice(), p.len()));
    let mut out: Vec<char> = Vec::new();
    for i in 0..v.len()
        invariant
            out@ == v@.take(i as int),
    {
        out.push(v[i]);
    }
    assert(out@ =~= v@);
    Some(out)
}

/// The last number that a line with the prefix gives, from a line on.
pub fn find_last_number(ls: &Vec<&[char]>, from: usize, prefix: &str) -> (r: Option<usize>)
    requires
        from <= ls@.len(),
    ensures
        match r {
            Some(n) => last_number(text::views(ls@).skip(from as int), prefix@) == Some(n as nat),
            None => last_number(text::views(ls@).skip(from as int), prefix@) is None,
        },
{
    let ghost all = text::views(ls@).skip(from as int);
    let mut found: Option<usize> = None;
    let mut i: usize = from;
    assert(all.take(0) =~= seq![]);
    while i < ls.len()
        invariant
            from <= i <= ls@.len(),
            all == text::views(ls@).skip(from as int),
            match found {
                Some(n) => last_number(all.take(i - from), prefix@) == Some(n as nat),
                None => last_number(all.take(i - from), prefix@) is None,
            },
        decreases ls@.len() - i,
    {
        assert(all.take(i - from + 1).drop_last() =~= all.take(i - from));
        assert(all.take(i - from + 1).last() == ls@[i as int]@);
        match parse_line_value(ls[i], prefix) {
            Some(v) => match parse_usize(v.as_slice()) {
                Some(n) => {
                    found = Some(n);
                },
                None => {},
            },
            None => {},
        }
        i = i + 1;
    }
    assert(all.take(i - from) =~= all);
    found
}

/// Whether some line says the text behind the prefix, from a line on.
pub fn any_line_says(ls: &Vec<&[char]>, from: usize, prefix: &str, what: &str) -> (r: bool)
    requires
        from <= ls@.len(),
    ensures
        r == some_line_says(text::views(ls@).skip(from as int), prefix@, what@),
{
    let ghost all = text::views(ls@).skip(from as int);
    let mut i: usize = from;
    while i < ls.len()
        invariant
            from <= i <= ls@.len(),
            all == text::views(ls@).skip(from as int),
            forall|j: int| 0 <= j < i - from ==> !line_says(#[trigger] all[j], prefix@, what@),
        decreases ls@.len() - i,
    {
        assert(all[i - from] == ls@[i as int]@);
        match parse_line_value(ls[i], prefix) {
            Some(v) => {
                if contains_text(v.as_slice(), what) {
                    assert(line_says(all[i - from], prefix@, what@));
                    return true;
                }
            },
            None => {},
        }
        i = i + 1;
    }
    false
}

// ---------------------------------------------------------------------------
// Values of one item
// ---------------------------------------------------------------------------

pub proof fn lemma_one_item(v: Seq<char>)
    requires
        v.len() > 0,
        text::trimmed(v) == v,
        !v.contains(','),
    ensures
        list_items(v) == seq![v],
{
    text::lemma_first_pos_range(v, ',');
    assert(text::first_pos(v, ',') == v.len());
    let pieces = text::split(v, ',');
    assert(pieces =~= seq![v]);
    assert(pieces.drop_last() =~= seq![]);
    assert(kept_pieces(pieces.drop_last()) =~= seq![]);
    assert(kept_pieces(pieces) =~= seq![v]);
}

// ---------------------------------------------------------------------------
// Lists as they are written
// ---------------------------------------------------------------------------

/// Items with commas between them.
pub open spec fn joined(items: Seq<Seq<char>>) -> Seq<char>
    decreases items.len(),
{
    if items.len() == 0 {
        seq![]
    } else if items.len() == 1 {
        items[0]
    } else {
        items[0] + seq![',', ' '] + joined(items.drop_first())
    }
}

/// Whether a text can be an item of a list: it is not empty, holds no comma, and
/// has no white space at its ends.
pub open spec fn plain_item(item: Seq<char>) -> bool {
    &&& item.len() > 0
    &&& !item.contains(',')
    &&& !text::is_white(item[0])
    &&& !text::is_white(item.last())
}

proof fn lemma_kept_front(pieces: Seq<Seq<char>>)
    requires
        pieces.len() > 0,
    ensures
        kept_pieces(pieces) == (if text::trimmed(pieces[0]).len() == 0 {
            Seq::<Seq<char>>::empty()
        } else {
            seq![text::trimmed(pieces[0])]
        }) + kept_pieces(pieces.drop_first()),
    decreases pieces.len(),
{
    let front = if text::trimmed(pieces[0]).len() == 0 {
        Seq::<Seq<char>>::empty()
    } else {
        seq![text::trimmed(pieces[0])]
    };
    if pieces.len() == 1 {
        assert(pieces.drop_last() =~= seq![]);
        assert(pieces.drop_first() =~= seq![]);
        assert(kept_pieces(pieces.drop_last()) =~= seq![]);
        assert(kept_pieces(pieces) =~= front + kept_pieces(pieces.drop_first()));
    } else {
        lemma_kept_front(pieces.drop_last());
        assert(pieces.drop_last().drop_first() =~= pieces.drop_first().drop_last());
        assert(pieces.drop_first().last() == pieces.last());
        assert(kept_pieces(pieces) =~= front + kept_pieces(pieces.drop_first()));
    }
}

proof fn lemma_joined(lead: Seq<char>, items: Seq<Seq<char>>)
    requires
        items.len() > 0,
        forall|i: int| 0 <= i < items.len() ==> plain_item(#[trigger] items[i]),
        lead == Seq::<char>::empty() || lead == seq![' '],
    ensures
        list_items(lead + joined(items)) == items,
    decreases items.len(),
{
    let a = items[0];
    let piece = lead + a;
    let all = lead + joined(items);
    let n = piece.len() as int;
    assert(text::trimmed(a) == a);
    if lead.len() > 0 {
        assert(piece.drop_first() =~= a);
        assert(text::trimmed(piece) == a);
    } else {
        assert(piece =~= a);
    }
    assert forall|j: int| 0 <= j < n implies piece[j] != ',' by {
        if j >= lead.len() {
            assert(piece[j] == a[j - lead.len()]);
            assert(a.contains(a[j - lead.len()]));
        }
    }
    if items.len() == 1 {
        assert(all =~= piece);
        text::lemma_first_pos(all, ',', n);
        let ps = text::split(all, ',');
        assert(ps =~= seq![piece]);
        lemma_kept_front(ps);
        assert(ps.drop_first() =~= seq![]);
        assert(kept_pieces(ps) =~= items);
    } else {
        let more = items.drop_first();
        assert forall|i: int| 0 <= i < more.len() implies plain_item(#[trigger] more[i]) by {
            assert(more[i] == items[i + 1]);
        }
        let rest = seq![' '] + joined(more);
        assert(all =~= piece + seq![','] + rest);
        text::lemma_first_pos(all, ',', n);
        assert(all.take(n) =~= piece);
        assert(all.skip(n + 1) =~= rest);
        lemma_joined(seq![' '], more);
        let ps = text::split(all, ',');
        assert(ps == seq![piece] + text::split(rest, ','));
        lemma_kept_front(ps);
        assert(ps.drop_first() =~= text::split(rest, ','));
        assert(kept_pieces(ps) =~= seq![a] + more);
        assert(seq![a] + more =~= items);
    }
}

/// The items of a list are read as they were written.
pub proof fn list_reads_back(items: Seq<Seq<char>>)
    requires
        forall|i: int| 0 <= i < items.len() ==> plain_item(#[trigger] items[i]),
    ensures
        list_items(joined(items)) == items,
{
    if items.len() == 0 {
        let e = joined(items);
        assert(e =~= seq![]);
        let ps = text::split(e, ',');
        assert(ps =~= seq![e]);
        lemma_kept_front(ps);
        assert(ps.drop_first() =~= seq![]);
        assert(list_items(e) =~= items);
    } else {
        assert(Seq::<char>::empty() + joined(items) =~= joined(items));
        lemma_joined(seq![], items);
    }
}

/// A list holds a token if one of its items is the token, up to case, bare or in
/// quotation marks, and not otherwise.
pub proof fn token_is_found(items: Seq<Seq<char>>, words: Seq<Seq<char>>, token: Seq<char>)
    requires
        items.len() == words.len(),
        forall|i: int| 0 <= i < items.len() ==> plain_item(#[trigger] items[i]),
        forall|i: int|
            0 <= i < words.len() ==> words[i].len() > 0 && words[i][0] != '"' && words[i][0] != '\''
                && words[i].last() != '"' && words[i].last() != '\'' && (#[trigger] items[i]
                == words[i] || items[i] == seq!['"'] + words[i] + seq!['"']),
    ensures
        has_token(joined(items), token) == exists|i: int|
            0 <= i < words.len() && text::lower(#[trigger] words[i]) == token,
{
    list_reads_back(items);
    assert forall|i: int| 0 <= i < items.len() implies token_of(#[trigger] items[i]) == text::lower(
        words[i],
    ) by {
        let w = words[i];
        assert(items[i] == w || items[i] == seq!['"'] + w + seq!['"']);
        assert(text::trim_class(w, Class::Quotes) == w);
        let q = seq!['"'] + w + seq!['"'];
        assert(q[0] == '"');
        assert(q.drop_first() =~= w + seq!['"']);
        let t = w + seq!['"'];
        assert(t[0] == w[0]);
        assert(text::trim_start(t, Class::Quotes) == t);
        assert(t.last() == '"');
        assert(t.drop_last() =~= w);
        assert(text::trim_end(w, Class::Quotes) == w);
        assert(text::trim_class(q, Class::Quotes) == w);
    }
    let value = joined(items);
    if has_token(value, token) {
        let i = choose|i: int|
            0 <= i < list_items(value).len() && token_of(#[trigger] list_items(value)[i]) == token;
        assert(token_of(items[i]) == text::lower(words[i]));
    }
    if exists|i: int| 0 <= i < words.len() && text::lower(#[trigger] words[i]) == token {
        let i = choose|i: int| 0 <= i < words.len() && text::lower(#[trigger] words[i]) == token;
        assert(token_of(list_items(value)[i]) == token);
    }
}

/// The pieces between the commas of a written list are its items, up to white space.
pub proof fn lemma_joined_pieces(lead: Seq<char>, items: Seq<Seq<char>>)
    requires
        items.len() > 0,
        forall|i: int| 0 <= i < items.len() ==> plain_item(#[trigger] items[i]),
        lead == Seq::<char>::empty() || lead == seq![' '],
    ensures
        text::split(lead + joined(items), ',').len() == items.len(),
        forall|i: int|
            0 <= i < items.len() ==> text::trimmed(#[trigger] text::split(lead + joined(items), ',')[i])
                == items[i],
        joined(items).len() > 0,
        joined(items)[0] == items[0][0],
        joined(items).last() == items.last().last(),
    decreases items.len(),
{
    let a = items[0];
    let piece = lead + a;
    let all = lead + joined(items);
    let n = piece.len() as int;
    assert(text::trimmed(a) == a);
    if lead.len() > 0 {
        assert(piece.drop_first() =~= a);
        assert(text::trimmed(piece) == a);
    } else {
        assert(piece =~= a);
    }
    assert forall|j: int| 0 <= j < n implies piece[j] != ',' by {
        if j >= lead.len() {
            assert(piece[j] == a[j - lead.len()]);
            assert(a.contains(a[j - lead.len()]));
        }
    }
    let ps = text::split(all, ',');
    if items.len() == 1 {
        assert(all =~= piece);
        text::lemma_first_pos(all, ',', n);
        assert(ps =~= seq![piece]);
    } else {
        let more = items.drop_first();
        assert forall|i: int| 0 <= i < more.len() implies plain_item(#[trigger] more[i]) by {
            assert(more[i] == items[i + 1]);
        }
        let rest = seq![' '] + joined(more);
        assert(all =~= piece + seq![','] + rest);
        text::lemma_first_pos(all, ',', n);
        assert(all.take(n) =~= piece);
        assert(all.skip(n + 1) =~= rest);
        lemma_joined_pieces(seq![' '], more);
        let qs = text::split(rest, ',');
        assert(ps == seq![piece] + qs);
        assert forall|i: int| 0 <= i < items.len() implies text::trimmed(#[trigger] ps[i]) == items[i] by {
            if i > 0 {
                assert(ps[i] == qs[i - 1]);
                assert(more[i - 1] == items[i]);
            }
        }
        assert(joined(items).last() == joined(more).last());
    }
}

} // verus!
