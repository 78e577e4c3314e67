//! From request paths to files.
use crate::encoding;
use crate::text::{
    self, before_char, chars_of, contains_text, copy_str, has_char, same_str, spells, split_chars,
    starts_with, string_of, tail_from,
};
use vstd::prelude::*;
use vstd::utf8::*;

verus! {

/// The value of a hexadecimal digit.
pub open spec fn hex_value(b: u8) -> Option<u8> {
    if 48 <= b <= 57 {
        Some((b - 48) as u8)
    } else if 97 <= b <= 102 {
        Some((b - 87) as u8)
    } else if 65 <= b <= 70 {
        Some((b - 55) as u8)
    } else {
        None
    }
}

/// The value of a hexadecimal digit.
pub fn from_hex(byte: u8) -> (r: Option<u8>)
    ensures
        r == hex_value(byte),
{
    if 48 <= byte && byte <= 57 {
        Some(byte - 48)
    } else if 97 <= byte && byte <= 102 {
        Some(byte - 87)
    } else if 65 <= byte && byte <= 70 {
        Some(byte - 55)
    } else {
        None
    }
}

/// The byte that an escape at the beginning of the bytes stands for.
pub open spec fn escape_at_front(b: Seq<u8>) -> Option<u8> {
    if b.len() > 2 && b[0] == 37 {
        match (hex_value(b[1]), hex_value(b[2])) {
            (Some(h), Some(l)) => Some((h * 16 + l) as u8),
            _ => None,
        }
    } else {
        None
    }
}

/// Whether an escape is undone before a path is judged: that of a full stop, a
/// slash or a backslash.
pub open spec fn undone(b: u8) -> bool {
    b == 46 || b == 47 || b == 92
}

/// The form of a path in which it is judged, byte for byte, with the escapes
/// that matter undone.
pub open spec fn judged_form(b: Seq<u8>) -> Seq<char>
    decreases b.len(),
{
    if b.len() == 0 {
        seq![]
    } else {
        match escape_at_front(b) {
            Some(v) => (if undone(v) {
                seq![v as char]
            } else {
                seq!['%', b[1] as char, b[2] as char]
            }) + judged_form(b.skip(3)),
            None => seq![b[0] as char] + judged_form(b.skip(1)),
        }
    }
}

/// Puts a path into the form in which it is judged.
pub fn decode_path_for_check(path: &str) -> (r: Vec<char>)
    ensures
        r@ == judged_form(encode_utf8(path@)),
{
    let bytes = path.as_bytes();
    let n: usize = bytes.len();
    let mut out: Vec<char> = Vec::new();
    let mut i: usize = 0;
    assert(bytes@.skip(0) =~= bytes@);
    while i < n
        invariant
            n == bytes@.len(),
            i <= n,
            judged_form(bytes@) =~= out@ + judged_form(bytes@.skip(i as int)),
        decreases n - i,
    {
        let ghost rest = bytes@.skip(i as int);
        let ghost before = out@;
        if bytes[i] == 37 && n - i > 2 {
            match (from_hex(bytes[i + 1]), from_hex(bytes[i + 2])) {
                (Some(h), Some(l)) => {
                    let value: u8 = h * 16 + l;
                    assert(escape_at_front(rest) == Some(value));
                    assert(rest.skip(3) =~= bytes@.skip(i + 3));
                    if value == 46 || value == 47 || value == 92 {
                        out.push(value as char);
                    } else {
                        out.push('%');
                        out.push(bytes[i + 1] as char);
                        out.push(bytes[i + 2] as char);
                        assert(out@ =~= before + seq!['%', rest[1] as char, rest[2] as char]);
                    }
                    i = i + 3;
                    continue;
                },
                _ => {},
            }
        }
        assert(escape_at_front(rest) is None);
        assert(rest.skip(1) =~= bytes@.skip(i + 1));
        out.push(bytes[i] as char);
        i = i + 1;
    }
    out
}

/// Whether a path in its judged form stays below where it begins.
pub open spec fn safe_form(d: Seq<char>) -> bool {
    &&& !text::has_text(d, "//"@)
    &&& !d.contains('\\')
    &&& forall|i: int| 0 <= i < text::split(d, '/').len() ==> #[trigger] text::split(d, '/')[i] != ".."@
}

/// Whether a request path is safe: no empty segment, no backslash, and no
/// segment that leads upward, escaped or not.
pub open spec fn safe_path(path: Seq<char>) -> bool {
    safe_form(judged_form(encode_utf8(path)))
}

/// Whether a request path is safe.
pub fn is_safe_request_path(path: &str) -> (r: bool)
    ensures
        r == safe_path(path@),
{
    let d = decode_path_for_check(path);
    if contains_text(d.as_slice(), "//") {
        return false;
    }
    if has_char(d.as_slice(), '\\') {
        return false;
    }
    let segments = split_chars(d.as_slice(), '/');
    for i in 0..segments.len()
        invariant
            d@ == judged_form(encode_utf8(path@)),
            text::views(segments@) == text::split(d@, '/'),
            forall|j: int| 0 <= j < i ==> #[trigger] text::split(d@, '/')[j] != ".."@,
    {
        assert(text::split(d@, '/')[i as int] == segments@[i as int]@);
        if spells(segments[i], "..") {
            return false;
        }
    }
    assert(text::split(d@, '/').len() == segments@.len());
    true
}

/// A path without its query.
pub fn strip_query(path: &str) -> (r: String)
    ensures
        r@ == text::before(path@, '?'),
{
    let pc = chars_of(path);
    string_of(before_char(pc.as_slice(), '?'))
}

/// What follows the location in a path, without the slash at its beginning.
pub open spec fn tail_of(path: Seq<char>, location: Seq<char>) -> Seq<char> {
    let t = path.skip(location.len() as int);
    if t.len() > 0 && t[0] == '/' {
        t.skip(1)
    } else {
        t
    }
}

/// The file, relative to the root of the location, that a request path stands
/// for.
pub open spec fn relative_path(req: Seq<char>, location: Seq<char>, index: Seq<char>) -> Option<
    Seq<char>,
> {
    let path = text::before(req, '?');
    if !safe_path(path) || !text::starts(path, location) {
        None
    } else if tail_of(path, location).len() == 0 {
        Some(index)
    } else {
        Some(tail_of(path, location))
    }
}

/// Finds files by request path.
pub struct PathResolver;

impl PathResolver {
    /// The file, relative to the root of the location, that a request path
    /// stands for.
    pub fn resolve_relative_path(req_path: &str, location_path: &str, index: &str) -> (r: Option<
        String,
    >)
        ensures
            match r {
                Some(p) => relative_path(req_path@, location_path@, index@) == Some(p@),
                None => relative_path(req_path@, location_path@, index@) is None,
            },
    {
        let path = strip_query(req_path);
        if !is_safe_request_path(path.as_str()) {
            return None;
        }
        let pc = chars_of(path.as_str());
        let lc = chars_of(location_path);
        if same_str(path.as_str(), location_path) {
            assert(pc@.take(lc@.len() as int) =~= lc@);
            return Some(copy_str(index));
        }
        if !starts_with(pc.as_slice(), lc.as_slice()) {
            return None;
        }
        let mut tail = tail_from(pc.as_slice(), lc.len());
        if tail.len() > 0 && tail[0] == '/' {
            tail = tail_from(tail, 1);
        }
        if tail.len() == 0 {
            Some(copy_str(index))
        } else {
            Some(string_of(tail))
        }
    }
}

// ---------------------------------------------------------------------------
// Staying below the root
// ---------------------------------------------------------------------------

/// Whether a segment that leads upward begins at position `q`.
pub open spec fn upward_at(s: Seq<char>, q: int) -> bool {
    &&& 0 <= q
    &&& q + 2 <= s.len()
    &&& s[q] == '.'
    &&& s[q + 1] == '.'
    &&& q == 0 || s[q - 1] == '/'
    &&& q + 2 == s.len() || s[q + 2] == '/'
}

/// Whether a path has a segment that leads upward.
pub open spec fn leads_upward(s: Seq<char>) -> bool {
    exists|q: int| upward_at(s, q)
}

/// Whether a text is empty or ends with a slash.
spec fn closed_before(s: Seq<char>) -> bool {
    s.len() == 0 || s.last() == '/'
}

/// Whether a text is empty or begins with a slash.
spec fn closed_behind(s: Seq<char>) -> bool {
    s.len() == 0 || s[0] == '/'
}

proof fn lemma_form_splits(x: Seq<u8>, y: Seq<u8>)
    requires
        x.len() > 0,
        x.last() == 47,
    ensures
        judged_form(x + y) == judged_form(x) + judged_form(y),
        judged_form(x).len() > 0,
        judged_form(x).last() == '/',
    decreases x.len(),
{
    let all = x + y;
    assert(hex_value(47) is None);
    assert(escape_at_front(all) == escape_at_front(x)) by {
        if x.len() == 1 {
            assert(all[0] == 47);
        } else if x.len() == 2 {
            assert(all[1] == 47);
        } else {
            assert(all[1] == x[1]);
            assert(all[2] == x[2]);
        }
    }
    let n: int = if escape_at_front(x) is Some {
        3
    } else {
        1
    };
    assert(all[0] == x[0]);
    let rest = x.skip(n);
    assert(all.skip(n) =~= rest + y);
    if n == 3 {
        assert(all[1] == x[1]);
        assert(all[2] == x[2]);
        assert(x.len() > 3) by {
            assert(x[2] == x.last() || x.len() > 3);
        }
    }
    if rest.len() > 0 {
        assert(rest.last() == x.last());
        lemma_form_splits(rest, y);
        assert(judged_form(x).last() == judged_form(rest).last());
        assert(judged_form(all) =~= judged_form(x) + judged_form(y));
    } else {
        assert(x.len() == 1);
        assert(judged_form(rest) =~= seq![]);
        assert(rest + y =~= y);
        assert(judged_form(x) =~= seq!['/']);
        assert(judged_form(all) =~= judged_form(x) + judged_form(y));
    }
}

proof fn lemma_segment_found(a: Seq<char>, seg: Seq<char>, c: Seq<char>)
    requires
        closed_before(a),
        closed_behind(c),
        !seg.contains('/'),
    ensures
        exists|i: int|
            0 <= i < text::split(a + seg + c, '/').len() && #[trigger] text::split(a + seg + c, '/')[i]
                == seg,
    decreases a.len(),
{
    let s = a + seg + c;
    if a.len() == 0 {
        assert forall|j: int| 0 <= j < seg.len() implies s[j] != '/' by {
            assert(s[j] == seg[j]);
        }
        text::lemma_first_pos(s, '/', seg.len() as int);
        assert(s.take(seg.len() as int) =~= seg);
        assert(text::split(s, '/')[0] == seg);
    } else {
        text::lemma_first_pos_range(s, '/');
        let i = text::first_pos(s, '/');
        assert(s[a.len() - 1] == '/');
        assert(i < a.len());
        let b = a.skip(i + 1);
        assert(b.len() > 0 ==> b.last() == a.last());
        lemma_segment_found(b, seg, c);
        assert(s.skip(i + 1) =~= b + seg + c);
        let k = choose|k: int|
            0 <= k < text::split(b + seg + c, '/').len() && #[trigger] text::split(
                b + seg + c,
                '/',
            )[k] == seg;
        assert(text::split(s, '/')[k + 1] == seg);
    }
}

/// A path with a segment that leads upward is not safe.
pub proof fn upward_path_is_unsafe(path: Seq<char>)
    requires
        leads_upward(path),
    ensures
        !safe_path(path),
{
    let q = choose|q: int| upward_at(path, q);
    let a = path.take(q);
    let dots = seq!['.', '.'];
    let c = path.skip(q + 2);
    assert(path =~= a + (dots + c));
    encoding::lemma_encode_concat(a, dots + c);
    encoding::lemma_encode_concat(dots, c);
    let x = encode_utf8(a);
    let y = encode_utf8(dots);
    let z = encode_utf8(c);
    encoding::lemma_encode_ascii(dots);
    assert(y =~= seq![46u8, 46u8]);
    let d = judged_form(encode_utf8(path));
    let front = judged_form(x);
    let back = judged_form(z);
    assert(judged_form(y + z) =~= dots + back) by {
        let t = y + z;
        assert(t[0] == 46 && t[1] == 46);
        assert(t.skip(1).skip(1) =~= z);
        assert(t.skip(1)[0] == 46);
        assert(judged_form(t.skip(1)) =~= seq!['.'] + back);
    }
    if q == 0 {
        assert(a =~= seq![]);
        assert(x =~= seq![]);
        assert(x + (y + z) =~= y + z);
        assert(front =~= seq![]);
    } else {
        assert(a =~= path.take(q - 1) + seq!['/']);
        encoding::lemma_encode_concat(path.take(q - 1), seq!['/']);
        encoding::lemma_encode_ascii(seq!['/']);
        assert(x.last() == 47);
        lemma_form_splits(x, y + z);
    }
    assert(d =~= front + dots + back);
    assert(closed_behind(back)) by {
        if c.len() > 0 {
            assert(c[0] == '/');
            assert(c =~= seq!['/'] + c.skip(1));
            encoding::lemma_encode_concat(seq!['/'], c.skip(1));
            encoding::lemma_encode_ascii(seq!['/']);
            assert(z[0] == 47);
            assert(back[0] == '/');
        } else {
            assert(z =~= seq![]);
        }
    }
    lemma_segment_found(front, dots, back);
    reveal_strlit("..");
    assert(".."@ =~= dots);
}

/// What a location serves lies below its root: where the path of the location
/// ends at a slash, or the request goes on with one, the file of a request has
/// no segment that leads upward.
pub proof fn served_files_stay_below(
    req: Seq<char>,
    location: Seq<char>,
    index: Seq<char>,
)
    requires
        relative_path(req, location, index) is Some,
        location.len() > 0,
        ({
            let path = text::before(req, '?');
            location.last() == '/' || path.len() == location.len() || path[location.len() as int]
                == '/'
        }),
    ensures
        relative_path(req, location, index)->0 == index || !leads_upward(
            relative_path(req, location, index)->0,
        ),
{
    let path = text::before(req, '?');
    let rel = tail_of(path, location);
    if rel.len() > 0 && leads_upward(rel) {
        let q = choose|q: int| upward_at(rel, q);
        let off = path.len() - rel.len();
        assert forall|i: int| 0 <= i < rel.len() implies rel[i] == path[off + i] by {}
        assert(path.take(location.len() as int)[location.len() - 1] == path[location.len() - 1]);
        assert(upward_at(path, off + q));
        upward_path_is_unsafe(path);
    }
}

// ---------------------------------------------------------------------------
// Which paths are safe
// ---------------------------------------------------------------------------

/// A path is safe in its judged form if it has no two slashes in a row, no
/// backslash and no segment that leads upward, and only then.
pub proof fn safety_is_about_segments(d: Seq<char>)
    ensures
        safe_form(d) <==> !d.contains('\\') && !leads_upward(d) && forall|i: int|
            0 <= i < d.len() - 1 ==> !(#[trigger] d[i] == '/' && d[i + 1] == '/'),
{
    reveal_strlit("//");
    reveal_strlit("..");
    let dots = seq!['.', '.'];
    assert(".."@ =~= dots);
    assert(text::has_text(d, "//"@) == exists|i: int|
        0 <= i < d.len() - 1 && #[trigger] d[i] == '/' && d[i + 1] == '/') by {
        if text::has_text(d, "//"@) {
            let i = choose|i: int| text::occurs_at(d, "//"@, i);
            assert(d.subrange(i, i + 2)[0] == d[i]);
            assert(d.subrange(i, i + 2)[1] == d[i + 1]);
        }
        if exists|i: int| 0 <= i < d.len() - 1 && #[trigger] d[i] == '/' && d[i + 1] == '/' {
            let i = choose|i: int| 0 <= i < d.len() - 1 && #[trigger] d[i] == '/' && d[i + 1] == '/';
            assert(d.subrange(i, i + 2) =~= "//"@);
            assert(text::occurs_at(d, "//"@, i));
        }
    }
    let parts = text::split(d, '/');
    if leads_upward(d) {
        let q = choose|q: int| upward_at(d, q);
        let (a, c) = (d.take(q), d.skip(q + 2));
        assert(d =~= a + dots + c);
        assert(a.len() > 0 ==> a.last() == d[q - 1]);
        assert(c.len() > 0 ==> c[0] == d[q + 2]);
        text::part_is_found(a, dots, c, '/');
        let k = choose|k: int| 0 <= k < parts.len() && parts[k] == dots;
        assert(text::split(d, '/')[k] == ".."@);
    }
    if exists|k: int| 0 <= k < parts.len() && #[trigger] text::split(d, '/')[k] == ".."@ {
        let k = choose|k: int| 0 <= k < parts.len() && #[trigger] text::split(d, '/')[k] == ".."@;
        text::parts_are_in_the_text(d, '/', k);
        let (a, b) = choose|a: Seq<char>, b: Seq<char>|
            d == #[trigger] (a + parts[k] + b) && (a.len() == 0 || a.last() == '/') && (b.len() == 0
                || b[0] == '/');
        let q = a.len() as int;
        assert(d[q] == parts[k][0] && d[q + 1] == parts[k][1]);
        assert(q > 0 ==> d[q - 1] == a.last());
        assert(b.len() > 0 ==> d[q + 2] == b[0]);
        assert(upward_at(d, q));
    }
}

proof fn lemma_form_splits_at_escape(x: Seq<u8>, y: Seq<u8>)
    requires
        y.len() > 0,
        y[0] == 37,
    ensures
        judged_form(x + y) == judged_form(x) + judged_form(y),
    decreases x.len(),
{
    let all = x + y;
    if x.len() == 0 {
        assert(all =~= y);
        assert(judged_form(x) =~= seq![]);
        assert(judged_form(x) + judged_form(y) =~= judged_form(y));
    } else {
        assert(hex_value(37) is None);
        assert(escape_at_front(all) == escape_at_front(x)) by {
            if x.len() == 1 {
                assert(all[1] == 37);
            } else if x.len() == 2 {
                assert(all[2] == 37);
            } else {
                assert(all[1] == x[1]);
                assert(all[2] == x[2]);
            }
        }
        let n: int = if escape_at_front(x) is Some {
            3
        } else {
            1
        };
        assert(all[0] == x[0]);
        if n == 3 {
            assert(all[1] == x[1]);
            assert(all[2] == x[2]);
        }
        assert(all.skip(n) =~= x.skip(n) + y);
        lemma_form_splits_at_escape(x.skip(n), y);
        assert(judged_form(all) =~= judged_form(x) + judged_form(y));
    }
}

/// Whether two bytes are hexadecimal digits, of either case, that give the number.
pub open spec fn digits_give(h: u8, l: u8, v: int) -> bool {
    exists|a: int, b: int|
        0 <= a < 16 && 0 <= b < 16 && v == 16 * a + b && #[trigger] is_digit_of(h, a)
            && #[trigger] is_digit_of(l, b)
}

/// Whether a byte is the hexadecimal digit of a value, of either case.
pub open spec fn is_digit_of(c: u8, v: int) -> bool {
    if v < 10 {
        c == 48 + v
    } else {
        c == 97 + v - 10 || c == 65 + v - 10
    }
}

proof fn lemma_digits(c: u8, v: int)
    requires
        0 <= v < 16,
    ensures
        is_digit_of(c, v) <==> hex_value(c) == Some(v as u8),
{
}

/// An escape counts as what it stands for where that is a full stop, a slash or a
/// backslash, whatever the case of its digits; any other escape, and any other
/// byte, counts as it is written.
pub proof fn escapes_count_as_what_they_hide(a: Seq<u8>, h: u8, l: u8, b: Seq<u8>, v: int)
    requires
        digits_give(h, l, v),
    ensures
        v == 46 ==> judged_form(a + seq![37u8, h, l] + b) == judged_form(a) + seq!['.'] + judged_form(b),
        v == 47 ==> judged_form(a + seq![37u8, h, l] + b) == judged_form(a) + seq!['/'] + judged_form(b),
        v == 92 ==> judged_form(a + seq![37u8, h, l] + b) == judged_form(a) + seq!['\\'] + judged_form(
            b,
        ),
        v != 46 && v != 47 && v != 92 ==> judged_form(a + seq![37u8, h, l] + b) == judged_form(a) + seq![
            '%',
            h as char,
            l as char,
        ] + judged_form(b),
        (forall|i: int| 0 <= i < a.len() ==> #[trigger] a[i] != 37) ==> judged_form(a).len() == a.len()
            && forall|i: int| 0 <= i < a.len() ==> #[trigger] judged_form(a)[i] == a[i] as char,
{
    let (p, q) = choose|p: int, q: int|
        0 <= p < 16 && 0 <= q < 16 && v == 16 * p + q && #[trigger] is_digit_of(h, p)
            && #[trigger] is_digit_of(l, q);
    lemma_digits(h, p);
    lemma_digits(l, q);
    let y = seq![37u8, h, l] + b;
    assert(y[0] == 37 && y[1] == h && y[2] == l);
    assert(y.skip(3) =~= b);
    assert(a + seq![37u8, h, l] + b =~= a + y);
    lemma_form_splits_at_escape(a, y);
    assert(escape_at_front(y) == Some(v as u8));
    let mid = if undone(v as u8) {
        seq![v as u8 as char]
    } else {
        seq!['%', h as char, l as char]
    };
    assert(judged_form(y) == mid + judged_form(b));
    assert(judged_form(a) + judged_form(y) =~= judged_form(a) + mid + judged_form(b));
    if forall|i: int| 0 <= i < a.len() ==> #[trigger] a[i] != 37 {
        lemma_plain_form(a);
    }
}

proof fn lemma_plain_form(a: Seq<u8>)
    requires
        forall|i: int| 0 <= i < a.len() ==> #[trigger] a[i] != 37,
    ensures
        judged_form(a).len() == a.len(),
        forall|i: int| 0 <= i < a.len() ==> #[trigger] judged_form(a)[i] == a[i] as char,
    decreases a.len(),
{
    if a.len() > 0 {
        let rest = a.skip(1);
        assert forall|i: int| 0 <= i < rest.len() implies #[trigger] rest[i] != 37 by {
            assert(rest[i] == a[i + 1]);
        }
        lemma_plain_form(rest);
        assert(a[0] != 37);
        assert(judged_form(a) == seq![a[0] as char] + judged_form(rest));
        assert forall|i: int| 0 <= i < a.len() implies #[trigger] judged_form(a)[i] == a[i] as char by {
            if i > 0 {
                assert(judged_form(a)[i] == judged_form(rest)[i - 1]);
            }
        }
    }
}

} // verus!
