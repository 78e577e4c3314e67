//! Lines that show settings.
use crate::number::{self, push_decimal};
use crate::text::copy_str;
use vstd::prelude::*;

verus! {

/// A text in quotation marks, as `Debug` writes it.
pub uninterp spec fn quoted(s: Seq<char>) -> Seq<char>;

/// The `Debug` format of a string: the text in quotation marks, with what
/// cannot be shown escaped.
#[verifier::external_body]
pub(crate) fn quote(s: &str) -> (r: String)
    ensures
        r@ == quoted(s@),
{
    format!("{:?}", s)
}

/// A truth value as a text.
pub open spec fn flag_text(b: bool) -> Seq<char> {
    if b {
        "true"@
    } else {
        "false"@
    }
}

/// An optional text as it is shown, over the quoted form of the text.
pub open spec fn option_text(o: Option<Seq<char>>) -> Seq<char> {
    match o {
        Some(s) => "Some("@ + quoted(s) + ")"@,
        None => "None"@,
    }
}

/// An optional number as it is shown.
pub open spec fn option_number(o: Option<nat>) -> Seq<char> {
    match o {
        Some(n) => "Some("@ + number::decimal(n) + ")"@,
        None => "None"@,
    }
}

/// The quoted texts of a list, separated by commas.
pub open spec fn joined(l: Seq<Seq<char>>) -> Seq<char>
    decreases l.len(),
{
    if l.len() == 0 {
        seq![]
    } else if l.len() == 1 {
        quoted(l[0])
    } else {
        joined(l.drop_last()) + ", "@ + quoted(l.last())
    }
}

/// A list of texts as it is shown.
pub open spec fn list_text(l: Seq<Seq<char>>) -> Seq<char> {
    "["@ + joined(l) + "]"@
}

/// Writes a list of texts.
pub fn show_list(l: &Vec<String>) -> (r: String)
    ensures
        r@ == list_text(l.deep_view()),
{
    let ghost all = l.deep_view();
    let mut out = copy_str("[");
    assert(all.take(0) =~= seq![]);
    assert(out@ =~= "["@ + joined(all.take(0)));
    for i in 0..l.len()
        invariant
            all == l.deep_view(),
            out@ == "["@ + joined(all.take(i as int)),
    {
        let ghost seen = all.take(i + 1);
        assert(seen.drop_last() =~= all.take(i as int));
        assert(seen.last() == l@[i as int]@);
        if i > 0 {
            out.append(", ");
        } else {
            assert(seen[0] == seen.last());
        }
        let q = quote(l[i].as_str());
        out.append(q.as_str());
        assert(out@ =~= "["@ + joined(seen));
    }
    assert(all.take(l@.len() as int) =~= all);
    out.append("]");
    assert(out@ =~= list_text(all));
    out
}

/// Adds a line.
pub fn push_line(out: &mut Vec<String>, label: &str, value: &str)
    ensures
        final(out).deep_view() == old(out).deep_view().push(label@ + value@),
{
    let mut line = copy_str(label);
    line.append(value);
    let ghost before = out.deep_view();
    out.push(line);
    assert(out.deep_view() =~= before.push(label@ + value@));
}

/// Adds a line with nothing behind the label.
pub fn push_heading(out: &mut Vec<String>, label: &str)
    ensures
        final(out).deep_view() == old(out).deep_view().push(label@),
{
    push_line(out, label, "");
    proof {
        reveal_strlit("");
        assert(label@ + ""@ =~= label@);
    }
}

/// Adds a line with a number.
pub fn push_number(out: &mut Vec<String>, label: &str, n: u128)
    ensures
        final(out).deep_view() == old(out).deep_view().push(label@ + number::decimal(n as nat)),
{
    let mut value = String::new();
    push_decimal(&mut value, n);
    assert(value@ =~= number::decimal(n as nat));
    push_line(out, label, value.as_str());
}

/// Adds a line with a truth value.
pub fn push_flag(out: &mut Vec<String>, label: &str, b: bool)
    ensures
        final(out).deep_view() == old(out).deep_view().push(label@ + flag_text(b)),
{
    if b {
        push_line(out, label, "true");
    } else {
        push_line(out, label, "false");
    }
}

/// Adds a line with an optional text.
pub fn push_option(out: &mut Vec<String>, label: &str, o: &Option<String>)
    ensures
        final(out).deep_view() == old(out).deep_view().push(label@ + option_text(o.deep_view())),
{
    match o {
        Some(s) => {
            let mut value = copy_str("Some(");
            let q = quote(s.as_str());
            value.append(q.as_str());
            value.append(")");
            push_line(out, label, value.as_str());
        },
        None => push_line(out, label, "None"),
    }
}

/// Adds a line with an optional number.
pub fn push_option_number(out: &mut Vec<String>, label: &str, o: Option<u64>)
    ensures
        final(out).deep_view() == old(out).deep_view().push(
            label@ + option_number(
                match o {
                    Some(n) => Some(n as nat),
                    None => None,
                },
            ),
        ),
{
    match o {
        Some(n) => {
            let mut value = copy_str("Some(");
            push_decimal(&mut value, n as u128);
            value.append(")");
            push_line(out, label, value.as_str());
        },
        None => push_line(out, label, "None"),
    }
}

/// Truth values are shown as words, and what is optional with a mark of whether it
/// is there.
pub proof fn values_are_shown(s: Seq<char>, n: nat)
    ensures
        flag_text(true) == "true"@,
        flag_text(false) == "false"@,
        option_text(Some(s)) == "Some("@ + quoted(s) + ")"@,
        option_text(None) == "None"@,
        option_number(Some(n)) == "Some("@ + number::decimal(n) + ")"@,
        option_number(None) == "None"@,
{
}

/// A list is shown in brackets, its texts quoted and with commas between them.
pub proof fn lists_are_shown(l: Seq<Seq<char>>, last: Seq<char>)
    ensures
        list_text(seq![]) == "["@ + "]"@,
        list_text(seq![last]) == "["@ + quoted(last) + "]"@,
        l.len() > 0 ==> exists|inner: Seq<char>|
            list_text(l) == #[trigger] ("["@ + inner + "]"@) && list_text(l.push(last)) == "["@ + (inner
                + ", "@ + quoted(last)) + "]"@,
{
    let e = Seq::<Seq<char>>::empty();
    assert("["@ + joined(e) =~= "["@);
    assert(l.push(last).drop_last() =~= l);
    if l.len() > 0 {
        let inner = joined(l);
        assert(list_text(l) == "["@ + inner + "]"@);
        assert(joined(l.push(last)) == inner + ", "@ + quoted(last));
    }
}

/// Whether lines stand among others, one behind the other.
pub open spec fn stand_among(part: Seq<Seq<char>>, lines: Seq<Seq<char>>) -> bool {
    exists|a: Seq<Seq<char>>, b: Seq<Seq<char>>| lines == #[trigger] (a + part + b)
}

} // verus!
