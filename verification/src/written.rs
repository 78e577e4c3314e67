//! Heads as they are written, and what is read from them again.
use crate::headers;
use crate::text::{self, Class};
use vstd::prelude::*;

verus! {

/// A header line, with its end.
pub open spec fn field_line(f: (Seq<char>, Seq<char>)) -> Seq<char> {
    f.0 + ": "@ + f.1 + "\r\n"@
}

/// Header lines, with their ends.
pub open spec fn field_lines(fs: Seq<(Seq<char>, Seq<char>)>) -> Seq<char>
    decreases fs.len(),
{
    if fs.len() == 0 {
        seq![]
    } else {
        field_lines(fs.drop_last()) + field_line(fs.last())
    }
}

/// A start line and header lines, with their ends.
pub open spec fn head_text(line: Seq<char>, fs: Seq<(Seq<char>, Seq<char>)>) -> Seq<char> {
    line + "\r\n"@ + field_lines(fs)
}

/// Whether a text can be written into a header line and be found there again:
/// it has no line feed, and no white space at either end.
pub open spec fn clean(s: Seq<char>) -> bool {
    text::trimmed(s) == s && !s.contains('\n')
}

/// Whether a header field can be written and be found again.
pub open spec fn clean_field(f: (Seq<char>, Seq<char>)) -> bool {
    clean(f.0) && clean(f.1) && !f.0.contains(':')
}

/// Whether all header fields can be written and be found again.
pub open spec fn all_clean(fs: Seq<(Seq<char>, Seq<char>)>) -> bool {
    forall|i: int| 0 <= i < fs.len() ==> clean_field(#[trigger] fs[i])
}

// ---------------------------------------------------------------------------
// Trimming
// ---------------------------------------------------------------------------

proof fn lemma_trim_start(s: Seq<char>)
    ensures
        text::trim_start(s, Class::White).len() <= s.len(),
        text::trim_start(s, Class::White).len() > 0 ==> !text::is_white(
            text::trim_start(s, Class::White)[0],
        ),
        forall|c: char|
            #[trigger] text::trim_start(s, Class::White).contains(c) ==> s.contains(c),
    decreases s.len(),
{
    if s.len() > 0 && text::is_white(s[0]) {
        lemma_trim_start(s.drop_first());
        assert forall|c: char| #[trigger]
            text::trim_start(s, Class::White).contains(c) implies s.contains(c) by {
            assert(s.drop_first().contains(c));
            let k = choose|k: int| 0 <= k < s.drop_first().len() && s.drop_first()[k] == c;
            assert(s[k + 1] == c);
        }
    }
}

proof fn lemma_trim_end(s: Seq<char>)
    ensures
        text::trim_end(s, Class::White).len() <= s.len(),
        text::trim_end(s, Class::White) == s.take(text::trim_end(s, Class::White).len() as int),
        text::trim_end(s, Class::White).len() > 0 ==> !text::is_white(
            text::trim_end(s, Class::White).last(),
        ),
    decreases s.len(),
{
    if s.len() > 0 && text::is_white(s.last()) {
        lemma_trim_end(s.drop_last());
        let n = text::trim_end(s, Class::White).len() as int;
        assert(s.drop_last().take(n) =~= s.take(n));
    } else {
        assert(s.take(s.len() as int) =~= s);
    }
}

/// What trimming leaves has no white space at either end, and no character that
/// was not there.
proof fn lemma_trimmed(s: Seq<char>)
    ensures
        text::trimmed(s).len() > 0 ==> !text::is_white(text::trimmed(s)[0]) && !text::is_white(
            text::trimmed(s).last(),
        ),
        text::trimmed(s).len() <= s.len(),
        forall|c: char| #[trigger] text::trimmed(s).contains(c) ==> s.contains(c),
{
    let a = text::trim_start(s, Class::White);
    lemma_trim_start(s);
    lemma_trim_end(a);
    let t = text::trimmed(s);
    assert forall|c: char| #[trigger] t.contains(c) implies s.contains(c) by {
        let k = choose|k: int| 0 <= k < t.len() && t[k] == c;
        assert(a[k] == c);
        assert(a.contains(c));
    }
}

/// A text without white space at either end is left as it is.
proof fn lemma_untrimmed(s: Seq<char>)
    requires
        s.len() > 0 ==> !text::is_white(s[0]) && !text::is_white(s.last()),
    ensures
        text::trimmed(s) == s,
{
}

proof fn lemma_trimmed_ends(s: Seq<char>)
    requires
        text::trimmed(s) == s,
    ensures
        s.len() > 0 ==> !text::is_white(s[0]) && !text::is_white(s.last()),
{
    lemma_trimmed(s);
}

// ---------------------------------------------------------------------------
// Lines
// ---------------------------------------------------------------------------

proof fn lemma_first_line(l: Seq<char>, rest: Seq<char>)
    requires
        !l.contains('\n'),
    ensures
        text::lines(l + "\r\n"@ + rest) == seq![l] + text::lines(rest),
{
    reveal_strlit("\r\n");
    let s = l + "\r\n"@ + rest;
    let n = l.len() as int;
    assert forall|j: int| 0 <= j < n + 1 implies s[j] != '\n' by {
        if j < n {
            assert(s[j] == l[j]);
            assert(l.contains(l[j]));
        }
    }
    assert(s[n + 1] == '\n');
    text::lemma_first_pos(s, '\n', n + 1);
    assert(s.take(n + 1).drop_last() =~= l);
    assert(s.take(n + 1).last() == '\r');
    assert(s.skip(n + 2) =~= rest);
}

/// The end of the last line makes no difference.
proof fn lemma_last_end(s: Seq<char>)
    requires
        s.len() > 0,
        s.last() != '\n',
    ensures
        text::lines(s + "\r\n"@) == text::lines(s),
    decreases s.len(),
{
    reveal_strlit("\r\n");
    text::lemma_first_pos_range(s, '\n');
    let i = text::first_pos(s, '\n');
    let t = s + "\r\n"@;
    if i >= s.len() {
        assert(!s.contains('\n'));
        lemma_first_line(s, seq![]);
        assert(s + "\r\n"@ + Seq::<char>::empty() =~= t);
        assert(seq![s] + text::lines(Seq::<char>::empty()) =~= seq![s]);
    } else {
        let rest = s.skip(i + 1);
        assert(rest.len() > 0 && rest.last() == s.last());
        lemma_last_end(rest);
        assert forall|j: int| 0 <= j < i implies t[j] != '\n' by {
            assert(t[j] == s[j]);
        }
        text::lemma_first_pos(t, '\n', i);
        assert(t.take(i) =~= s.take(i));
        assert(t.skip(i + 1) =~= rest + "\r\n"@);
    }
}

proof fn lemma_lines_plain(s: Seq<char>)
    ensures
        forall|i: int| 0 <= i < text::lines(s).len() ==> !(#[trigger] text::lines(s)[i]).contains(
            '\n',
        ),
    decreases s.len(),
{
    text::lemma_first_pos_range(s, '\n');
    let i = text::first_pos(s, '\n');
    if s.len() == 0 {
    } else if i >= s.len() {
        assert(!s.contains('\n'));
    } else {
        lemma_lines_plain(s.skip(i + 1));
        let l = text::without_cr(s.take(i));
        assert forall|k: int| 0 <= k < l.len() implies l[k] != '\n' by {
            assert(l[k] == s[k]);
        }
        assert(!l.contains('\n'));
        assert forall|j: int| 0 <= j < text::lines(s).len() implies !(#[trigger] text::lines(
            s,
        )[j]).contains('\n') by {
            if j > 0 {
                assert(text::lines(s)[j] == text::lines(s.skip(i + 1))[j - 1]);
            }
        }
    }
}

// ---------------------------------------------------------------------------
// Fields
// ---------------------------------------------------------------------------

/// A header line without its end.
pub open spec fn bare_line(f: (Seq<char>, Seq<char>)) -> Seq<char> {
    f.0 + ": "@ + f.1
}

/// Header lines without their ends.
pub open spec fn bare_lines(fs: Seq<(Seq<char>, Seq<char>)>) -> Seq<Seq<char>> {
    fs.map_values(|f: (Seq<char>, Seq<char>)| bare_line(f))
}

proof fn lemma_bare_line(f: (Seq<char>, Seq<char>))
    requires
        clean_field(f),
    ensures
        headers::field_of(bare_line(f)) == Some(f),
{
    reveal_strlit(": ");
    let (n, v) = f;
    let line = bare_line(f);
    lemma_trimmed_ends(n);
    lemma_trimmed_ends(v);
    assert(line[n.len() as int] == ':');
    assert(!text::is_white(line[0]));
    assert(text::trim_start(line, Class::White) == line);
    let colon = n.push(':');
    if v.len() == 0 {
        assert(line.drop_last() =~= colon);
        assert(line.last() == ' ');
        assert(!text::is_white(colon.last()));
        assert(text::trim_end(colon, Class::White) == colon);
        assert(text::trimmed(line) == colon);
    } else {
        assert(line.last() == v.last());
        assert(text::trimmed(line) == line);
    }
    let t = text::trimmed(line);
    assert forall|j: int| 0 <= j < n.len() implies t[j] != ':' by {
        assert(t[j] == n[j]);
        assert(n.contains(n[j]));
    }
    text::lemma_first_pos(t, ':', n.len() as int);
    assert(t.take(n.len() as int) =~= n);
    let after = t.skip(n.len() as int + 1);
    if v.len() == 0 {
        assert(after =~= seq![]);
        lemma_untrimmed(after);
    } else {
        assert(after =~= seq![' '] + v);
        assert(after.drop_first() =~= v);
        assert(text::trim_start(v, Class::White) == v);
        assert(text::trim_start(after, Class::White) == v);
        assert(text::trim_end(v, Class::White) == v);
    }
}

proof fn lemma_front(fs: Seq<(Seq<char>, Seq<char>)>)
    requires
        fs.len() > 0,
    ensures
        field_lines(fs) == field_line(fs[0]) + field_lines(fs.drop_first()),
    decreases fs.len(),
{
    if fs.len() == 1 {
        assert(fs.drop_last() =~= seq![]);
        assert(fs.drop_first() =~= seq![]);
        assert(field_lines(fs.drop_last()) =~= seq![]);
        assert(field_lines(fs.drop_first()) =~= seq![]);
        assert(field_lines(fs) =~= field_line(fs[0]));
    } else {
        lemma_front(fs.drop_last());
        assert(fs.drop_last().drop_first() =~= fs.drop_first().drop_last());
        assert(fs.drop_first().last() == fs.last());
        assert(field_lines(fs) =~= field_line(fs[0]) + field_lines(fs.drop_first()));
    }
}

proof fn lemma_field_lines(fs: Seq<(Seq<char>, Seq<char>)>)
    requires
        all_clean(fs),
    ensures
        text::lines(field_lines(fs)) == bare_lines(fs),
    decreases fs.len(),
{
    if fs.len() == 0 {
        assert(bare_lines(fs) =~= seq![]);
    } else {
        let f = fs[0];
        let rest = fs.drop_first();
        assert(clean_field(f));
        assert(all_clean(rest)) by {
            assert forall|i: int| 0 <= i < rest.len() implies clean_field(#[trigger] rest[i]) by {
                assert(rest[i] == fs[i + 1]);
            }
        }
        lemma_field_lines(rest);
        lemma_front(fs);
        lemma_no_feed(f);
        assert(field_line(f) + field_lines(rest) =~= bare_line(f) + "\r\n"@ + field_lines(rest));
        lemma_first_line(bare_line(f), field_lines(rest));
        assert(bare_lines(fs) =~= seq![bare_line(f)] + bare_lines(rest));
    }
}

proof fn lemma_no_feed(f: (Seq<char>, Seq<char>))
    requires
        clean_field(f),
    ensures
        !bare_line(f).contains('\n'),
{
    reveal_strlit(": ");
    let l = bare_line(f);
    assert forall|k: int| 0 <= k < l.len() implies l[k] != '\n' by {
        if k < f.0.len() {
            assert(l[k] == f.0[k]);
            assert(f.0.contains(f.0[k]));
        } else if k >= f.0.len() + 2 {
            assert(l[k] == f.1[k - f.0.len() - 2]);
            assert(f.1.contains(l[k]));
        }
    }
}

proof fn lemma_fields_of(fs: Seq<(Seq<char>, Seq<char>)>)
    requires
        all_clean(fs),
    ensures
        headers::fields_of(bare_lines(fs)) == fs,
    decreases fs.len(),
{
    if fs.len() > 0 {
        let rest = fs.drop_last();
        lemma_fields_of(rest);
        assert(bare_lines(fs).drop_last() =~= bare_lines(rest));
        assert(clean_field(fs.last()));
        lemma_bare_line(fs.last());
        assert(rest.push(fs.last()) =~= fs);
    }
}

/// What is written is read again: a head of a start line and clean fields has
/// that start line and those fields, with the end of its last line and without
/// it.
pub proof fn written_head_reads_back(line: Seq<char>, fs: Seq<(Seq<char>, Seq<char>)>)
    requires
        !line.contains('\n'),
        all_clean(fs),
    ensures
        headers::start_line(head_text(line, fs)) == line,
        headers::header_fields(head_text(line, fs)) == fs,
        text::lines(head_text(line, fs)).len() == fs.len() + 1,
        forall|head: Seq<char>| #[trigger]
            (head + "\r\n"@) == head_text(line, fs) ==> headers::start_line(head) == line
                && headers::header_fields(head) == fs && headers::header_lines(head) == bare_lines(
                fs,
            ),
{
    lemma_first_line(line, field_lines(fs));
    lemma_field_lines(fs);
    lemma_fields_of(fs);
    let ls = text::lines(head_text(line, fs));
    assert(ls =~= seq![line] + bare_lines(fs));
    assert(ls.skip(1) =~= bare_lines(fs));
    assert forall|head: Seq<char>| #[trigger] (head + "\r\n"@) == head_text(line, fs) implies
        headers::start_line(head) == line && headers::header_fields(head) == fs
            && headers::header_lines(head) == bare_lines(fs) by {
        reveal_strlit("\r\n");
        reveal_strlit(": ");
        let all = head_text(line, fs);
        let n = head.len() as int;
        assert(all.len() == n + 2);
        if fs.len() == 0 {
            assert(all =~= line + "\r\n"@);
            assert(head =~= line) by {
                assert(all.take(n) =~= head);
                assert(all.take(n) =~= line);
            }
            if line.len() > 0 {
                assert(line.contains(line.last()));
            }
        } else {
            let f = fs.last();
            let front = line + "\r\n"@ + field_lines(fs.drop_last());
            assert(all =~= front + bare_line(f) + "\r\n"@);
            assert(head =~= front + bare_line(f)) by {
                assert(all.take(n) =~= head);
                assert(all.take(n) =~= front + bare_line(f));
            }
            assert(clean_field(f));
            lemma_no_feed(f);
            assert(head.last() == bare_line(f).last());
            assert(bare_line(f).contains(bare_line(f).last()));
        }
        if head.len() == 0 {
            assert(head =~= line);
            assert(fs =~= headers::header_fields(head));
            assert(bare_lines(fs) =~= headers::header_lines(head));
        } else {
            lemma_last_end(head);
        }
    }
}

pub proof fn lemma_start_line_plain(head: Seq<char>)
    ensures
        !headers::start_line(head).contains('\n'),
{
    lemma_lines_plain(head);
}

/// The fields that are read from a head are clean, so they can be written and
/// be found again.
pub proof fn read_fields_are_clean(head: Seq<char>)
    ensures
        all_clean(headers::header_fields(head)),
{
    lemma_lines_plain(head);
    let ls = headers::header_lines(head);
    assert forall|i: int| 0 <= i < ls.len() implies !(#[trigger] ls[i]).contains('\n') by {
        assert(ls[i] == text::lines(head)[i + 1]);
    }
    lemma_clean_fields(ls);
}

proof fn lemma_clean_fields(ls: Seq<Seq<char>>)
    requires
        forall|i: int| 0 <= i < ls.len() ==> !(#[trigger] ls[i]).contains('\n'),
    ensures
        all_clean(headers::fields_of(ls)),
    decreases ls.len(),
{
    if ls.len() > 0 {
        let rest = ls.drop_last();
        assert forall|i: int| 0 <= i < rest.len() implies !(#[trigger] rest[i]).contains('\n') by {
            assert(rest[i] == ls[i]);
        }
        lemma_clean_fields(rest);
        let line = ls.last();
        assert(line == ls[ls.len() - 1]);
        match headers::field_of(line) {
            Some(f) => {
                let t = text::trimmed(line);
                lemma_trimmed(line);
                text::lemma_first_pos_range(t, ':');
                let i = text::first_pos(t, ':');
                let (a, b) = (t.take(i), t.skip(i + 1));
                lemma_trimmed(a);
                lemma_trimmed(b);
                lemma_untrimmed(f.0);
                lemma_untrimmed(f.1);
                if f.0.contains('\n') {
                    assert(a.contains('\n'));
                    let k = choose|k: int| 0 <= k < a.len() && a[k] == '\n';
                    assert(t[k] == '\n');
                    assert(t.contains('\n'));
                }
                if f.1.contains('\n') {
                    assert(b.contains('\n'));
                    let k = choose|k: int| 0 <= k < b.len() && b[k] == '\n';
                    assert(t[k + i + 1] == '\n');
                    assert(t.contains('\n'));
                }
                if f.0.contains(':') {
                    assert(a.contains(':'));
                    let k = choose|k: int| 0 <= k < a.len() && a[k] == ':';
                    assert(t[k] == ':');
                }
                assert(clean_field(f));
            },
            None => {},
        }
    }
}

// ---------------------------------------------------------------------------
// Lines known by what they begin with
// ---------------------------------------------------------------------------

/// Taking a text to lower case changes letters only, so what is white or a
/// colon stays where it is.
proof fn lemma_lower_plain(s: Seq<char>)
    ensures
        text::lower(s).len() == s.len(),
        forall|i: int|
            #![trigger text::lower(s)[i]]
            0 <= i < s.len() ==> (text::lower(s)[i] == s[i] || (text::is_white(text::lower(s)[i])
                == text::is_white(s[i]) && text::lower(s)[i] != ':' && s[i] != ':')),
{
}

/// A written field is found by its name, up to case, and by no other; its value
/// is what was written, in lower case.
pub proof fn field_is_found_by_name(f: (Seq<char>, Seq<char>), name: Seq<char>)
    requires
        clean_field(f),
        !name.contains(':'),
    ensures
        headers::line_value(bare_line(f), name.push(':')) == (if text::lower(f.0) == name {
            Some(text::lower(f.1))
        } else {
            None
        }),
{
    reveal_strlit(": ");
    let line = bare_line(f);
    let low = text::lower(line);
    let ln = text::lower(f.0);
    let lv = text::lower(f.1);
    let n = f.0.len() as int;
    lemma_lower_plain(f.0);
    lemma_lower_plain(f.1);
    assert(low =~= ln + ": "@ + lv);
    assert forall|j: int| 0 <= j < n implies ln[j] != ':' by {
        assert(f.0.contains(f.0[j]));
        assert(ln[j] == ln[j]);
    }
    let p = name.push(':');
    if ln == name {
        assert(low.take(p.len() as int) =~= p);
        lemma_trimmed_ends(f.1);
        let rest = low.skip(p.len() as int);
        assert(rest =~= seq![' '] + lv);
        assert(rest.drop_first() =~= lv);
        assert(text::trim_start(rest, Class::White) == text::trim_start(lv, Class::White));
        if lv.len() > 0 {
            assert(!text::is_white(lv[0]));
            assert(lv.last() == lv[lv.len() - 1]);
            assert(!text::is_white(lv.last()));
        }
        lemma_untrimmed(lv);
    } else if text::starts(low, p) {
        assert(low.take(p.len() as int)[name.len() as int] == ':');
        assert(low[name.len() as int] == ':');
        if name.len() < n {
            assert(ln[name.len() as int] == ':');
        } else if name.len() > n {
            assert(low.take(p.len() as int)[n] == low[n]);
            assert(name[n] == ':');
            assert(name.contains(name[n]));
        } else {
            assert forall|j: int| 0 <= j < n implies ln[j] == name[j] by {
                assert(low.take(p.len() as int)[j] == low[j]);
                assert(p[j] == name[j]);
            }
            assert(ln =~= name);
        }
    }
}

pub proof fn lemma_written_lines(line: Seq<char>, fs: Seq<(Seq<char>, Seq<char>)>)
    requires
        !line.contains('\n'),
        all_clean(fs),
    ensures
        text::lines(head_text(line, fs)) == seq![line] + bare_lines(fs),
{
    lemma_first_line(line, field_lines(fs));
    lemma_field_lines(fs);
}

/// Each field is written on a line of its own, behind those before it and behind
/// the start line: its name, a colon and a space, and its value.
pub proof fn fields_are_written_line_by_line(
    line: Seq<char>,
    fs: Seq<(Seq<char>, Seq<char>)>,
    f: (Seq<char>, Seq<char>),
)
    ensures
        head_text(line, seq![]) == line + seq!['\r', '\n'],
        head_text(line, fs.push(f)) == head_text(line, fs) + f.0 + seq![':', ' '] + f.1 + seq![
            '\r',
            '\n',
        ],
{
    reveal_strlit("\r\n");
    reveal_strlit(": ");
    assert("\r\n"@ =~= seq!['\r', '\n']);
    assert(": "@ =~= seq![':', ' ']);
    let none = Seq::<(Seq<char>, Seq<char>)>::empty();
    assert(head_text(line, none) =~= line + "\r\n"@);
    assert(fs.push(f).drop_last() =~= fs);
    assert(head_text(line, fs.push(f)) =~= head_text(line, fs) + f.0 + ": "@ + f.1 + "\r\n"@);
}

} // verus!
