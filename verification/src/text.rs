//! Text handling over sequences of characters.
//!
//! Every function works on a slice of characters and is specified over its
//! view, a `Seq<char>`. Strings enter through [`chars_of`] and leave through
//! [`string_of`].
use vstd::prelude::*;
use vstd::slice::slice_subrange;

verus! {

/// `String::push` appends one character to the end of the string.
pub assume_specification[ String::push ](s: &mut String, c: char)
    ensures
        final(s)@ == old(s)@.push(c),
;

/// The characters of a string.
pub fn chars_of(s: &str) -> (r: Vec<char>)
    ensures
        r@ == s@,
{
    let mut out: Vec<char> = Vec::new();
    for c in it: s.chars()
        invariant
            it.seq() == s@,
            out@ == s@.take(it.index()),
    {
        out.push(c);
    }
    out
}

/// The string with the given characters.
pub fn string_of(s: &[char]) -> (r: String)
    ensures
        r@ == s@,
{
    let mut out = String::new();
    push_chars(&mut out, s);
    out
}

/// Appends the given characters to a string.
pub fn push_chars(out: &mut String, s: &[char])
    ensures
        final(out)@ == old(out)@ + s@,
{
    let ghost start = out@;
    for i in 0..s.len()
        invariant
            out@ == start + s@.take(i as int),
    {
        out.push(s[i]);
    }
}

/// A copy of a string with exactly its characters.
pub fn copy_str(s: &str) -> (r: String)
    ensures
        r@ == s@,
{
    s.to_owned()
}

/// Three strings, one after another.
pub fn concat3(a: &str, b: &str, c: &str) -> (r: String)
    ensures
        r@ == a@ + b@ + c@,
{
    let mut out = String::new();
    out.append(a);
    out.append(b);
    out.append(c);
    assert(out@ =~= a@ + b@ + c@);
    out
}

/// Five strings, one after another.
pub fn concat5(a: &str, b: &str, c: &str, d: &str, e: &str) -> (r: String)
    ensures
        r@ == a@ + b@ + c@ + d@ + e@,
{
    let mut out = concat3(a, b, c);
    out.append(d);
    out.append(e);
    out
}

/// Seven strings, one after another.
pub fn concat7(a: &str, b: &str, c: &str, d: &str, e: &str, f: &str, g: &str) -> (r: String)
    ensures
        r@ == a@ + b@ + c@ + d@ + e@ + f@ + g@,
{
    let mut out = concat5(a, b, c, d, e);
    out.append(f);
    out.append(g);
    out
}

/// Whether a string has no characters.
pub fn is_empty(s: &str) -> (r: bool)
    ensures
        r == (s@.len() == 0),
{
    s.unicode_len() == 0
}

// ---------------------------------------------------------------------------
// Comparing
// ---------------------------------------------------------------------------

/// Whether two character slices are equal.
pub fn same_chars(a: &[char], b: &[char]) -> (r: bool)
    ensures
        r == (a@ == b@),
{
    if a.len() != b.len() {
        return false;
    }
    for i in 0..a.len()
        invariant
            a@.len() == b@.len(),
            forall|j: int| 0 <= j < i ==> a@[j] == b@[j],
    {
        if a[i] != b[i] {
            return false;
        }
    }
    assert(a@ =~= b@);
    true
}

/// Whether a character slice spells the given string.
pub fn spells(a: &[char], b: &str) -> (r: bool)
    ensures
        r == (a@ == b@),
{
    let bc = chars_of(b);
    same_chars(a, bc.as_slice())
}

/// Whether two strings are equal.
pub fn same_str(a: &str, b: &str) -> (r: bool)
    ensures
        r == (a@ == b@),
{
    let ac = chars_of(a);
    spells(ac.as_slice(), b)
}

/// Whether `s` begins with `p`.
pub open spec fn starts(s: Seq<char>, p: Seq<char>) -> bool {
    p.len() <= s.len() && s.take(p.len() as int) == p
}

/// Whether `s` ends with `p`.
pub open spec fn ends(s: Seq<char>, p: Seq<char>) -> bool {
    p.len() <= s.len() && s.skip(s.len() - p.len()) == p
}

/// Whether a character slice begins with another.
pub fn starts_with(s: &[char], p: &[char]) -> (r: bool)
    ensures
        r == starts(s@, p@),
{
    if p.len() > s.len() {
        return false;
    }
    same_chars(slice_subrange(s, 0, p.len()), p)
}

/// Whether a string begins with another.
pub fn str_starts_with(s: &str, p: &str) -> (r: bool)
    ensures
        r == starts(s@, p@),
{
    let sc = chars_of(s);
    let pc = chars_of(p);
    starts_with(sc.as_slice(), pc.as_slice())
}

/// Whether a character slice ends with another.
pub fn ends_with(s: &[char], p: &[char]) -> (r: bool)
    ensures
        r == ends(s@, p@),
{
    if p.len() > s.len() {
        return false;
    }
    same_chars(slice_subrange(s, s.len() - p.len(), s.len()), p)
}

/// What follows the first `n` characters.
pub fn tail_from(s: &[char], n: usize) -> (r: &[char])
    requires
        n <= s@.len(),
    ensures
        r@ == s@.skip(n as int),
{
    slice_subrange(s, n, s.len())
}

/// The first `n` characters.
pub fn head_to(s: &[char], n: usize) -> (r: &[char])
    requires
        n <= s@.len(),
    ensures
        r@ == s@.take(n as int),
{
    slice_subrange(s, 0, n)
}

/// The ASCII lower-case form of a character.
pub open spec fn lower_char(c: char) -> char {
    if 'A' <= c <= 'Z' {
        (c as u8 + 32) as char
    } else {
        c
    }
}

/// A text with its ASCII letters in lower case.
pub open spec fn lower(s: Seq<char>) -> Seq<char> {
    s.map_values(|c: char| lower_char(c))
}

/// The ASCII lower-case form of a character slice.
pub fn to_lower(s: &[char]) -> (r: Vec<char>)
    ensures
        r@ == lower(s@),
{
    let mut out: Vec<char> = Vec::new();
    for i in 0..s.len()
        invariant
            out@ == lower(s@).take(i as int),
    {
        let c = s[i];
        let l = if 'A' <= c && c <= 'Z' {
            (c as u8 + 32) as char
        } else {
            c
        };
        out.push(l);
    }
    assert(lower(s@).take(s@.len() as int) =~= lower(s@));
    out
}

/// Whether two texts agree up to the case of ASCII letters.
pub open spec fn same_ignoring_case(a: Seq<char>, b: Seq<char>) -> bool {
    lower(a) == lower(b)
}

/// Whether a character slice spells the given string up to ASCII case.
pub fn spells_ignoring_case(a: &[char], b: &str) -> (r: bool)
    ensures
        r == same_ignoring_case(a@, b@),
{
    let bc = chars_of(b);
    let la = to_lower(a);
    let lb = to_lower(bc.as_slice());
    same_chars(la.as_slice(), lb.as_slice())
}

// ---------------------------------------------------------------------------
// Searching
// ---------------------------------------------------------------------------

/// The position of the first `c` in `s`, or the length of `s`.
pub open spec fn first_pos(s: Seq<char>, c: char) -> int
    decreases s.len(),
{
    if s.len() == 0 || s[0] == c {
        0
    } else {
        1 + first_pos(s.drop_first(), c)
    }
}

pub proof fn lemma_first_pos(s: Seq<char>, c: char, i: int)
    requires
        0 <= i <= s.len(),
        forall|j: int| 0 <= j < i ==> s[j] != c,
        i < s.len() ==> s[i] == c,
    ensures
        first_pos(s, c) == i,
    decreases s.len(),
{
    if s.len() > 0 && s[0] != c {
        lemma_first_pos(s.drop_first(), c, i - 1);
    }
}

pub proof fn lemma_first_pos_range(s: Seq<char>, c: char)
    ensures
        0 <= first_pos(s, c) <= s.len(),
        first_pos(s, c) < s.len() ==> s[first_pos(s, c)] == c,
        forall|j: int| 0 <= j < first_pos(s, c) ==> s[j] != c,
    decreases s.len(),
{
    if s.len() > 0 && s[0] != c {
        lemma_first_pos_range(s.drop_first(), c);
        assert forall|j: int| 0 <= j < first_pos(s, c) implies s[j] != c by {
            if j > 0 {
                assert(s[j] == s.drop_first()[j - 1]);
            }
        }
    }
}

/// The position of the first `c` in a slice, or the slice's length.
pub fn find_char(s: &[char], c: char) -> (r: usize)
    ensures
        r == first_pos(s@, c),
        r <= s@.len(),
{
    let mut i: usize = 0;
    while i < s.len()
        invariant
            i <= s@.len(),
            forall|j: int| 0 <= j < i ==> s@[j] != c,
        decreases s@.len() - i,
    {
        if s[i] == c {
            proof {
                lemma_first_pos(s@, c, i as int);
            }
            return i;
        }
        i = i + 1;
    }
    proof {
        lemma_first_pos(s@, c, i as int);
    }
    i
}

/// Whether a slice holds the character.
pub fn has_char(s: &[char], c: char) -> (r: bool)
    ensures
        r == s@.contains(c),
{
    let i = find_char(s, c);
    proof {
        lemma_first_pos_range(s@, c);
    }
    i < s.len()
}

/// Whether `p` stands in `s` at position `i`.
pub open spec fn occurs_at<T>(s: Seq<T>, p: Seq<T>, i: int) -> bool {
    0 <= i && i + p.len() <= s.len() && s.subrange(i, i + p.len()) == p
}

/// The first position at which `p` stands in `s`.
pub open spec fn first_occurrence<T>(s: Seq<T>, p: Seq<T>) -> Option<int>
    decreases s.len(),
{
    if s.len() < p.len() {
        None
    } else if s.take(p.len() as int) == p {
        Some(0)
    } else if s.len() == 0 {
        None
    } else {
        match first_occurrence(s.drop_first(), p) {
            Some(i) => Some(i + 1),
            None => None,
        }
    }
}

pub proof fn lemma_first_occurrence<T>(s: Seq<T>, p: Seq<T>)
    ensures
        match first_occurrence(s, p) {
            Some(i) => occurs_at(s, p, i) && forall|j: int| 0 <= j < i ==> !occurs_at(s, p, j),
            None => forall|j: int| !occurs_at(s, p, j),
        },
    decreases s.len(),
{
    if s.len() < p.len() {
    } else if s.take(p.len() as int) == p {
        assert(s.subrange(0, p.len() as int) =~= s.take(p.len() as int));
    } else if s.len() == 0 {
    } else {
        let t = s.drop_first();
        lemma_first_occurrence(t, p);
        assert forall|j: int| 0 < j implies occurs_at(s, p, j) == occurs_at(t, p, j - 1) by {
            if j + p.len() <= s.len() {
                assert(s.subrange(j, j + p.len()) =~= t.subrange(j - 1, j - 1 + p.len()));
            }
        }
        assert(!occurs_at(s, p, 0)) by {
            assert(s.subrange(0, p.len() as int) =~= s.take(p.len() as int));
        }
        match first_occurrence(t, p) {
            Some(i) => {
                assert(occurs_at(s, p, i + 1));
            },
            None => {
                assert forall|j: int| !occurs_at(s, p, j) by {
                    if 0 < j {
                        assert(!occurs_at(t, p, j - 1));
                    }
                }
            },
        }
    }
}

pub proof fn lemma_is_first_occurrence<T>(s: Seq<T>, p: Seq<T>, i: int)
    requires
        occurs_at(s, p, i),
        forall|j: int| 0 <= j < i ==> !occurs_at(s, p, j),
    ensures
        first_occurrence(s, p) == Some(i),
{
    lemma_first_occurrence(s, p);
}

/// Whether `p` stands somewhere in `s`.
pub open spec fn has_text(s: Seq<char>, p: Seq<char>) -> bool {
    exists|i: int| occurs_at(s, p, i)
}

/// Whether a slice holds the given text.
pub fn contains_text(s: &[char], p: &str) -> (r: bool)
    ensures
        r == has_text(s@, p@),
{
    let pc = chars_of(p);
    if pc.len() > s.len() {
        return false;
    }
    let n: usize = s.len();
    let last: usize = n - pc.len();
    let mut i: usize = 0;
    loop
        invariant
            pc@ == p@,
            n == s@.len(),
            last + pc@.len() == n,
            i <= last,
            forall|j: int| 0 <= j < i ==> !occurs_at(s@, p@, j),
        decreases last - i,
    {
        if same_chars(slice_subrange(s, i, i + pc.len()), pc.as_slice()) {
            assert(occurs_at(s@, p@, i as int));
            return true;
        }
        if i == last {
            return false;
        }
        i = i + 1;
    }
}

// ---------------------------------------------------------------------------
// Trimming
// ---------------------------------------------------------------------------

/// A set of characters that can be trimmed from the ends of a text.
#[derive(Clone, Copy)]
pub enum Class {
    /// Unicode white space.
    White,
    /// Single and double quotation marks.
    Quotes,
    /// One character.
    One(char),
}

/// Unicode white space.
pub open spec fn is_white(c: char) -> bool {
    ||| '\u{9}' <= c <= '\u{d}'
    ||| c == ' '
    ||| c == '\u{85}'
    ||| c == '\u{a0}'
    ||| c == '\u{1680}'
    ||| '\u{2000}' <= c <= '\u{200a}'
    ||| c == '\u{2028}'
    ||| c == '\u{2029}'
    ||| c == '\u{202f}'
    ||| c == '\u{205f}'
    ||| c == '\u{3000}'
}

/// Whether `c` belongs to the class.
pub open spec fn in_class(k: Class, c: char) -> bool {
    match k {
        Class::White => is_white(c),
        Class::Quotes => c == '"' || c == '\'',
        Class::One(x) => c == x,
    }
}

/// Whether a character belongs to a class.
pub fn class_has(k: Class, c: char) -> (r: bool)
    ensures
        r == in_class(k, c),
{
    match k {
        Class::White => {
            ('\u{9}' <= c && c <= '\u{d}') || c == ' ' || c == '\u{85}' || c == '\u{a0}' || c
                == '\u{1680}' || ('\u{2000}' <= c && c <= '\u{200a}') || c == '\u{2028}' || c
                == '\u{2029}' || c == '\u{202f}' || c == '\u{205f}' || c == '\u{3000}'
        },
        Class::Quotes => c == '"' || c == '\'',
        Class::One(x) => c == x,
    }
}

/// `s` without the class's characters at its beginning.
pub open spec fn trim_start(s: Seq<char>, k: Class) -> Seq<char>
    decreases s.len(),
{
    if s.len() > 0 && in_class(k, s[0]) {
        trim_start(s.drop_first(), k)
    } else {
        s
    }
}

/// `s` without the class's characters at its end.
pub open spec fn trim_end(s: Seq<char>, k: Class) -> Seq<char>
    decreases s.len(),
{
    if s.len() > 0 && in_class(k, s.last()) {
        trim_end(s.drop_last(), k)
    } else {
        s
    }
}

/// `s` without the class's characters at either end.
pub open spec fn trim_class(s: Seq<char>, k: Class) -> Seq<char> {
    trim_end(trim_start(s, k), k)
}

/// `s` without white space at either end.
pub open spec fn trimmed(s: Seq<char>) -> Seq<char> {
    trim_class(s, Class::White)
}

/// Drops the class's characters from the beginning.
pub fn drop_leading(s: &[char], k: Class) -> (r: &[char])
    ensures
        r@ == trim_start(s@, k),
{
    let mut i: usize = 0;
    assert(s@.skip(0) =~= s@);
    while i < s.len() && class_has(k, s[i])
        invariant
            i <= s@.len(),
            trim_start(s@, k) == trim_start(s@.skip(i as int), k),
        decreases s@.len() - i,
    {
        assert(s@.skip(i as int).drop_first() =~= s@.skip(i + 1));
        i = i + 1;
    }
    tail_from(s, i)
}

/// Drops the class's characters from the end.
pub fn drop_trailing(s: &[char], k: Class) -> (r: &[char])
    ensures
        r@ == trim_end(s@, k),
{
    let mut n: usize = s.len();
    assert(s@.take(n as int) =~= s@);
    while n > 0 && class_has(k, s[n - 1])
        invariant
            n <= s@.len(),
            trim_end(s@, k) == trim_end(s@.take(n as int), k),
        decreases n,
    {
        assert(s@.take(n as int).drop_last() =~= s@.take(n - 1));
        n = n - 1;
    }
    head_to(s, n)
}

/// Drops the class's characters from both ends.
pub fn trim_by(s: &[char], k: Class) -> (r: &[char])
    ensures
        r@ == trim_class(s@, k),
{
    drop_trailing(drop_leading(s, k), k)
}

/// Drops white space from both ends.
pub fn trim(s: &[char]) -> (r: &[char])
    ensures
        r@ == trimmed(s@),
{
    trim_by(s, Class::White)
}

pub proof fn lemma_trim_nothing(s: Seq<char>)
    requires
        s.len() > 0,
        !is_white(s[0]),
        !is_white(s.last()),
    ensures
        trimmed(s) == s,
{
}

/// Whether a string is empty or white space alone.
pub fn is_blank(s: &str) -> (r: bool)
    ensures
        r == (trimmed(s@).len() == 0),
{
    let c = chars_of(s);
    trim(c.as_slice()).len() == 0
}

// ---------------------------------------------------------------------------
// Splitting
// ---------------------------------------------------------------------------

/// The views of a sequence of slices.
pub open spec fn views(v: Seq<&[char]>) -> Seq<Seq<char>> {
    v.map_values(|x: &[char]| x@)
}

/// The parts of `s` between occurrences of `c`.
pub open spec fn split(s: Seq<char>, c: char) -> Seq<Seq<char>>
    decreases s.len(),
    via split_decreases
{
    let i = first_pos(s, c);
    if i >= s.len() {
        seq![s]
    } else {
        seq![s.take(i)] + split(s.skip(i + 1), c)
    }
}

#[via_fn]
proof fn split_decreases(s: Seq<char>, c: char) {
    lemma_first_pos_range(s, c);
}

/// Splits a slice at every `c`.
pub fn split_chars<'a>(s: &'a [char], c: char) -> (r: Vec<&'a [char]>)
    ensures
        views(r@) == split(s@, c),
{
    let mut out: Vec<&'a [char]> = Vec::new();
    let mut rest: &'a [char] = s;
    loop
        invariant
            split(s@, c) =~= views(out@) + split(rest@, c),
        decreases rest@.len(),
    {
        let i = find_char(rest, c);
        if i >= rest.len() {
            out.push(rest);
            return out;
        }
        out.push(head_to(rest, i));
        rest = tail_from(rest, i + 1);
    }
}

/// The part of `s` before the first `c`; all of `s` if there is none.
pub open spec fn before(s: Seq<char>, c: char) -> Seq<char> {
    s.take(first_pos(s, c))
}

/// The part of a slice before the first `c`.
pub fn before_char(s: &[char], c: char) -> (r: &[char])
    ensures
        r@ == before(s@, c),
{
    let i = find_char(s, c);
    head_to(s, i)
}

/// The parts of `s` before and after the first `c`.
pub open spec fn split_once(s: Seq<char>, c: char) -> Option<(Seq<char>, Seq<char>)> {
    let i = first_pos(s, c);
    if i >= s.len() {
        None
    } else {
        Some((s.take(i), s.skip(i + 1)))
    }
}

/// Splits a slice at the first `c`.
pub fn split_at_char<'a>(s: &'a [char], c: char) -> (r: Option<(&'a [char], &'a [char])>)
    ensures
        match r {
            Some(p) => split_once(s@, c) == Some((p.0@, p.1@)),
            None => split_once(s@, c) is None,
        },
{
    let i = find_char(s, c);
    if i >= s.len() {
        None
    } else {
        Some((head_to(s, i), tail_from(s, i + 1)))
    }
}

/// A line without the carriage return that may end it.
pub open spec fn without_cr(s: Seq<char>) -> Seq<char> {
    if s.len() > 0 && s.last() == '\r' {
        s.drop_last()
    } else {
        s
    }
}

/// The lines of `s`: each ends at a line feed, or at a carriage return
/// followed by one, and neither belongs to the line. What follows the last
/// line feed is a line of its own unless it is empty.
pub open spec fn lines(s: Seq<char>) -> Seq<Seq<char>>
    decreases s.len(),
    via lines_decreases
{
    let i = first_pos(s, '\n');
    if s.len() == 0 {
        seq![]
    } else if i >= s.len() {
        seq![s]
    } else {
        seq![without_cr(s.take(i))] + lines(s.skip(i + 1))
    }
}

#[via_fn]
proof fn lines_decreases(s: Seq<char>) {
    lemma_first_pos_range(s, '\n');
}

/// The lines of a slice.
pub fn split_lines<'a>(s: &'a [char]) -> (r: Vec<&'a [char]>)
    ensures
        views(r@) == lines(s@),
{
    let mut out: Vec<&'a [char]> = Vec::new();
    let mut rest: &'a [char] = s;
    while rest.len() > 0
        invariant
            lines(s@) =~= views(out@) + lines(rest@),
        decreases rest@.len(),
    {
        let i = find_char(rest, '\n');
        if i >= rest.len() {
            out.push(rest);
            return out;
        }
        if i > 0 && rest[i - 1] == '\r' {
            let line = head_to(rest, i - 1);
            assert(line@ =~= rest@.take(i as int).drop_last());
            out.push(line);
        } else {
            out.push(head_to(rest, i));
        }
        rest = tail_from(rest, i + 1);
    }
    out
}

/// The length of the run without white space at the beginning of `s`.
pub open spec fn word_len(s: Seq<char>) -> int
    decreases s.len(),
{
    if s.len() == 0 || is_white(s[0]) {
        0
    } else {
        1 + word_len(s.drop_first())
    }
}

proof fn lemma_word_len(s: Seq<char>, i: int)
    requires
        0 <= i <= s.len(),
        forall|j: int| 0 <= j < i ==> !is_white(s[j]),
        i < s.len() ==> is_white(s[i]),
    ensures
        word_len(s) == i,
    decreases s.len(),
{
    if s.len() > 0 && !is_white(s[0]) {
        lemma_word_len(s.drop_first(), i - 1);
    }
}

proof fn lemma_word_len_range(s: Seq<char>)
    ensures
        0 <= word_len(s) <= s.len(),
        s.len() > 0 && !is_white(s[0]) ==> word_len(s) > 0,
    decreases s.len(),
{
    if s.len() > 0 {
        lemma_word_len_range(s.drop_first());
    }
}

proof fn lemma_trim_start_len(s: Seq<char>, k: Class)
    ensures
        trim_start(s, k).len() <= s.len(),
        trim_start(s, k).len() > 0 ==> !in_class(k, trim_start(s, k)[0]),
    decreases s.len(),
{
    if s.len() > 0 && in_class(k, s[0]) {
        lemma_trim_start_len(s.drop_first(), k);
    }
}

/// The words of `s`: its longest runs without white space.
pub open spec fn words(s: Seq<char>) -> Seq<Seq<char>>
    decreases s.len(),
    via words_decreases
{
    let t = trim_start(s, Class::White);
    if t.len() == 0 {
        seq![]
    } else {
        let n = word_len(t);
        seq![t.take(n)] + words(t.skip(n))
    }
}

#[via_fn]
proof fn words_decreases(s: Seq<char>) {
    lemma_trim_start_len(s, Class::White);
    lemma_word_len_range(trim_start(s, Class::White));
}

/// The words of a slice.
pub fn split_words<'a>(s: &'a [char]) -> (r: Vec<&'a [char]>)
    ensures
        views(r@) == words(s@),
{
    let mut out: Vec<&'a [char]> = Vec::new();
    let mut rest: &'a [char] = s;
    loop
        invariant
            words(s@) =~= views(out@) + words(rest@),
        decreases rest@.len(),
    {
        proof {
            lemma_trim_start_len(rest@, Class::White);
        }
        let t = drop_leading(rest, Class::White);
        if t.len() == 0 {
            return out;
        }
        let mut n: usize = 0;
        while n < t.len() && !class_has(Class::White, t[n])
            invariant
                n <= t@.len(),
                forall|j: int| 0 <= j < n ==> !is_white(t@[j]),
            decreases t@.len() - n,
        {
            n = n + 1;
        }
        proof {
            lemma_word_len(t@, n as int);
            lemma_word_len_range(t@);
        }
        out.push(head_to(t, n));
        rest = tail_from(t, n);
    }
}

pub proof fn lemma_word(w: Seq<char>, rest: Seq<char>)
    requires
        w.len() > 0,
        forall|i: int| 0 <= i < w.len() ==> !is_white(#[trigger] w[i]),
        rest.len() == 0 || is_white(rest[0]),
    ensures
        words(w + rest) == seq![w] + words(rest),
{
    let s = w + rest;
    assert(s[0] == w[0]);
    assert(trim_start(s, Class::White) == s);
    assert forall|j: int| 0 <= j < w.len() implies !is_white(s[j]) by {
        assert(s[j] == w[j]);
    }
    lemma_word_len(s, w.len() as int);
    assert(s.take(w.len() as int) =~= w);
    assert(s.skip(w.len() as int) =~= rest);
}

pub proof fn lemma_leading_white(c: char, s: Seq<char>)
    requires
        is_white(c),
    ensures
        words(seq![c] + s) == words(s),
{
    assert((seq![c] + s).drop_first() =~= s);
}

/// What stands between two separators, or between one and an end, is one of the
/// parts of a text, unless it holds a separator itself.
pub proof fn part_is_found(a: Seq<char>, part: Seq<char>, b: Seq<char>, c: char)
    requires
        a.len() == 0 || a.last() == c,
        b.len() == 0 || b[0] == c,
        !part.contains(c),
    ensures
        split(a + part + b, c).contains(part),
    decreases a.len(),
{
    let s = a + part + b;
    if a.len() == 0 {
        assert forall|j: int| 0 <= j < part.len() implies s[j] != c by {
            assert(s[j] == part[j]);
        }
        lemma_first_pos(s, c, part.len() as int);
        assert(s.take(part.len() as int) =~= part);
        assert(split(s, c)[0] == part);
    } else {
        lemma_first_pos_range(s, c);
        let i = first_pos(s, c);
        assert(s[a.len() - 1] == c);
        assert(i < a.len());
        let rest = a.skip(i + 1);
        assert(rest.len() > 0 ==> rest.last() == a.last());
        part_is_found(rest, part, b, c);
        assert(s.skip(i + 1) =~= rest + part + b);
        let k = choose|k: int|
            0 <= k < split(rest + part + b, c).len() && split(rest + part + b, c)[k] == part;
        assert(split(s, c)[k + 1] == part);
    }
}

/// The parts of a text hold no separator, and each stands in the text.
pub proof fn parts_are_in_the_text(s: Seq<char>, c: char, k: int)
    requires
        0 <= k < split(s, c).len(),
    ensures
        !split(s, c)[k].contains(c),
        exists|a: Seq<char>, b: Seq<char>|
            s == #[trigger] (a + split(s, c)[k] + b) && (a.len() == 0 || a.last() == c) && (b.len() == 0
                || b[0] == c),
    decreases s.len(),
{
    lemma_first_pos_range(s, c);
    let i = first_pos(s, c);
    let part = split(s, c)[k];
    if i >= s.len() {
        assert(s =~= seq![] + part + seq![]);
        assert(!s.contains(c));
    } else if k == 0 {
        let b = s.skip(i);
        assert(s =~= seq![] + part + b);
        assert(b[0] == c);
    } else {
        let rest = s.skip(i + 1);
        parts_are_in_the_text(rest, c, k - 1);
        let (a, b) = choose|a: Seq<char>, b: Seq<char>|
            rest == #[trigger] (a + split(rest, c)[k - 1] + b) && (a.len() == 0 || a.last() == c) && (
            b.len() == 0 || b[0] == c);
        let front = s.take(i + 1) + a;
        assert(part == split(rest, c)[k - 1]);
        assert(s =~= s.take(i + 1) + rest);
        assert(s =~= front + part + b);
        assert(front.last() == (if a.len() == 0 {
            s[i]
        } else {
            a.last()
        }));
    }
}

/// Trimming takes characters of the class from both ends, as many as there are,
/// and nothing else.
pub proof fn trimming_cuts_the_ends(s: Seq<char>, k: Class)
    ensures
        exists|a: Seq<char>, b: Seq<char>|
            s == #[trigger] (a + trim_class(s, k) + b) && (forall|i: int|
                0 <= i < a.len() ==> in_class(k, #[trigger] a[i])) && (forall|i: int|
                0 <= i < b.len() ==> in_class(k, #[trigger] b[i])),
        trim_class(s, k).len() > 0 ==> !in_class(k, trim_class(s, k)[0]) && !in_class(
            k,
            trim_class(s, k).last(),
        ),
{
    let n = lemma_start_cut(s, k);
    let t = s.skip(n);
    let m = lemma_end_cut(t, k);
    let (a, b) = (s.take(n), t.skip(m));
    assert(s =~= a + trim_class(s, k) + b);
    assert forall|i: int| 0 <= i < b.len() implies in_class(k, #[trigger] b[i]) by {
        assert(b[i] == t[m + i]);
    }
}

proof fn lemma_start_cut(s: Seq<char>, k: Class) -> (n: int)
    ensures
        0 <= n <= s.len(),
        trim_start(s, k) == s.skip(n),
        forall|i: int| 0 <= i < n ==> in_class(k, #[trigger] s[i]),
        n < s.len() ==> !in_class(k, s[n]),
    decreases s.len(),
{
    if s.len() > 0 && in_class(k, s[0]) {
        let m = lemma_start_cut(s.drop_first(), k);
        assert(s.drop_first().skip(m) =~= s.skip(m + 1));
        assert forall|i: int| 0 <= i < m + 1 implies in_class(k, #[trigger] s[i]) by {
            if i > 0 {
                assert(s.drop_first()[i - 1] == s[i]);
            }
        }
        m + 1
    } else {
        assert(s.skip(0) =~= s);
        0
    }
}

proof fn lemma_end_cut(s: Seq<char>, k: Class) -> (m: int)
    ensures
        0 <= m <= s.len(),
        trim_end(s, k) == s.take(m),
        forall|i: int| m <= i < s.len() ==> in_class(k, #[trigger] s[i]),
        m > 0 ==> !in_class(k, s[m - 1]),
    decreases s.len(),
{
    if s.len() > 0 && in_class(k, s.last()) {
        let m = lemma_end_cut(s.drop_last(), k);
        assert(s.drop_last().take(m) =~= s.take(m));
        assert forall|i: int| m <= i < s.len() implies in_class(k, #[trigger] s[i]) by {
            if i < s.len() - 1 {
                assert(s.drop_last()[i] == s[i]);
            }
        }
        m
    } else {
        assert(s.take(s.len() as int) =~= s);
        s.len() as int
    }
}

// ---------------------------------------------------------------------------
// Texts as they are put together
// ---------------------------------------------------------------------------

/// A text begins with another where it is that one with more behind it, and ends
/// with another where it is that one with more before it.
pub proof fn ends_of_a_text_are_told(s: Seq<char>, p: Seq<char>)
    ensures
        starts(s, p) <==> exists|rest: Seq<char>| s == #[trigger] (p + rest),
        ends(s, p) <==> exists|rest: Seq<char>| s == #[trigger] (rest + p),
{
    if starts(s, p) {
        assert(s =~= p + s.skip(p.len() as int));
    }
    if ends(s, p) {
        assert(s =~= s.take(s.len() - p.len()) + p);
    }
    if exists|rest: Seq<char>| s == #[trigger] (p + rest) {
        let rest = choose|rest: Seq<char>| s == #[trigger] (p + rest);
        assert((p + rest).take(p.len() as int) =~= p);
    }
    if exists|rest: Seq<char>| s == #[trigger] (rest + p) {
        let rest = choose|rest: Seq<char>| s == #[trigger] (rest + p);
        assert((rest + p).skip(rest.len() as int) =~= p);
    }
}

/// The capital letters of the alphabet have a small one 32 places behind them; no
/// other character changes.
pub proof fn letters_have_a_small_form(s: Seq<char>, i: int)
    requires
        0 <= i < s.len(),
    ensures
        lower(s).len() == s.len(),
        65 <= s[i] as u32 <= 90 ==> lower(s)[i] as u32 == s[i] as u32 + 32,
        !(65 <= s[i] as u32 <= 90) ==> lower(s)[i] == s[i],
{
}

/// White space is told by the code points of Unicode.
pub proof fn white_space_is_told(c: char)
    ensures
        is_white(c) <==> {
            let n = c as u32;
            ||| 9 <= n <= 13
            ||| n == 32
            ||| n == 133
            ||| n == 160
            ||| n == 5760
            ||| 8192 <= n <= 8202
            ||| n == 8232
            ||| n == 8233
            ||| n == 8239
            ||| n == 8287
            ||| n == 12288
        },
        in_class(Class::White, c) == is_white(c),
        in_class(Class::Quotes, c) <==> c as u32 == 34 || c as u32 == 39,
        forall|x: char| #[trigger] in_class(Class::One(x), c) <==> c == x,
{
}

/// A text is blank if all of it is white space.
pub proof fn blank_texts_are_white(s: Seq<char>)
    ensures
        trimmed(s).len() == 0 <==> forall|i: int| 0 <= i < s.len() ==> is_white(#[trigger] s[i]),
{
    trimming_cuts_the_ends(s, Class::White);
    let (a, b) = choose|a: Seq<char>, b: Seq<char>|
        s == #[trigger] (a + trim_class(s, Class::White) + b) && (forall|i: int|
            0 <= i < a.len() ==> in_class(Class::White, #[trigger] a[i])) && (forall|i: int|
            0 <= i < b.len() ==> in_class(Class::White, #[trigger] b[i]));
    let t = trimmed(s);
    if t.len() == 0 {
        assert forall|i: int| 0 <= i < s.len() implies is_white(#[trigger] s[i]) by {
            if i < a.len() {
                assert(s[i] == a[i]);
                assert(in_class(Class::White, a[i]));
            } else {
                assert(s[i] == b[i - a.len()]);
                assert(in_class(Class::White, b[i - a.len()]));
            }
        }
    } else {
        assert(s[a.len() as int] == t[0]);
    }
}

/// A text is cut at the first separator; without one it is whole.
pub proof fn texts_are_cut_at_the_first(a: Seq<char>, c: char, b: Seq<char>)
    requires
        !a.contains(c),
    ensures
        split_once(a + seq![c] + b, c) == Some((a, b)),
        split_once(a, c) is None,
        before(a + seq![c] + b, c) == a,
        before(a, c) == a,
        split(a + seq![c] + b, c) == seq![a] + split(b, c),
        split(a, c) == seq![a],
{
    let s = a + seq![c] + b;
    let n = a.len() as int;
    assert forall|j: int| 0 <= j < n implies a[j] != c && s[j] != c by {
        assert(a.contains(a[j]));
        assert(s[j] == a[j]);
    }
    lemma_first_pos(s, c, n);
    lemma_first_pos(a, c, n);
    assert(s.take(n) =~= a);
    assert(a.take(n) =~= a);
    assert(s.skip(n + 1) =~= b);
}

/// A line ends at a line feed, and a carriage return before it is not part of the
/// line. What stands behind the last line feed is a line if there is any.
pub proof fn lines_end_at_line_feeds(a: Seq<char>, rest: Seq<char>)
    requires
        !a.contains('\n'),
    ensures
        a.len() == 0 || a.last() != '\r' ==> lines(a + seq!['\n'] + rest) == seq![a] + lines(rest),
        lines(a + seq!['\r', '\n'] + rest) == seq![a] + lines(rest),
        a.len() > 0 ==> lines(a) == seq![a],
        lines(seq![]) == Seq::<Seq<char>>::empty(),
{
    let s = a + seq!['\n'] + rest;
    let t = a + seq!['\r', '\n'] + rest;
    let n = a.len() as int;
    assert forall|j: int| 0 <= j < n implies a[j] != '\n' && s[j] != '\n' && t[j] != '\n' by {
        assert(a.contains(a[j]));
        assert(s[j] == a[j]);
        assert(t[j] == a[j]);
    }
    lemma_first_pos(s, '\n', n);
    lemma_first_pos(t, '\n', n + 1);
    lemma_first_pos(a, '\n', n);
    assert(s.take(n) =~= a);
    assert(s.skip(n + 1) =~= rest);
    assert(t.take(n + 1) =~= a + seq!['\r']);
    assert((a + seq!['\r']).drop_last() =~= a);
    assert(t.skip(n + 2) =~= rest);
}

/// Words are told apart by white space, however much of it there is.
pub proof fn words_are_told_apart(w: Seq<char>, c: char, rest: Seq<char>)
    requires
        w.len() > 0,
        forall|i: int| 0 <= i < w.len() ==> !is_white(#[trigger] w[i]),
        is_white(c),
    ensures
        words(w + seq![c] + rest) == seq![w] + words(rest),
        words(w) == seq![w],
        words(seq![c] + rest) == words(rest),
        words(seq![]) == Seq::<Seq<char>>::empty(),
{
    let more = seq![c] + rest;
    assert(w + seq![c] + rest =~= w + more);
    lemma_word(w, more);
    lemma_leading_white(c, rest);
    let e = Seq::<char>::empty();
    lemma_word(w, e);
    assert(w + e =~= w);
    assert(trim_start(e, Class::White) =~= e);
    assert(words(e) =~= seq![]);
    assert(seq![w] + words(e) =~= seq![w]);
}

/// Two texts are the same up to case if they are equally long and each character
/// of one is that of the other, or its small or capital form.
pub proof fn case_does_not_matter(a: Seq<char>, b: Seq<char>)
    ensures
        same_ignoring_case(a, b) <==> a.len() == b.len() && forall|i: int|
            0 <= i < a.len() ==> {
                let (x, y) = (#[trigger] a[i] as u32, b[i] as u32);
                ||| x == y
                ||| 65 <= x <= 90 && y == x + 32
                ||| 65 <= y <= 90 && x == y + 32
            },
{
    if same_ignoring_case(a, b) {
        assert(lower(a).len() == lower(b).len());
        assert forall|i: int| 0 <= i < a.len() implies {
            let (x, y) = (#[trigger] a[i] as u32, b[i] as u32);
            ||| x == y
            ||| 65 <= x <= 90 && y == x + 32
            ||| 65 <= y <= 90 && x == y + 32
        } by {
            assert(lower(a)[i] == lower(b)[i]);
        }
    }
    if a.len() == b.len() && forall|i: int|
        0 <= i < a.len() ==> {
            let (x, y) = (#[trigger] a[i] as u32, b[i] as u32);
            ||| x == y
            ||| 65 <= x <= 90 && y == x + 32
            ||| 65 <= y <= 90 && x == y + 32
        } {
        assert forall|i: int| 0 <= i < a.len() implies lower(a)[i] == lower(b)[i] by {
            let (x, y) = (a[i] as u32, b[i] as u32);
            assert(x == y || (65 <= x <= 90 && y == x + 32) || (65 <= y <= 90 && x == y + 32));
        }
        assert(lower(a) =~= lower(b));
    }
}

} // verus!
