//! Reading and writing unsigned numbers as text.
use vstd::prelude::*;

verus! {

/// The value of a digit, whatever the radix.
pub open spec fn digit_value(c: char) -> Option<nat> {
    if '0' <= c <= '9' {
        Some((c as u32 - '0' as u32) as nat)
    } else if 'a' <= c <= 'f' {
        Some((c as u32 - 'a' as u32 + 10) as nat)
    } else if 'A' <= c <= 'F' {
        Some((c as u32 - 'A' as u32 + 10) as nat)
    } else {
        None
    }
}

/// Whether `c` is a digit in the radix.
pub open spec fn is_digit(c: char, radix: nat) -> bool {
    match digit_value(c) {
        Some(d) => d < radix,
        None => false,
    }
}

/// Whether `s` consists of digits alone.
pub open spec fn all_digits(s: Seq<char>, radix: nat) -> bool {
    forall|i: int| 0 <= i < s.len() ==> is_digit(s[i], radix)
}

/// The number that a sequence of digits stands for.
pub open spec fn number_value(s: Seq<char>, radix: nat) -> nat
    decreases s.len(),
{
    if s.len() == 0 {
        0
    } else {
        match digit_value(s.last()) {
            Some(d) => number_value(s.drop_last(), radix) * radix + d,
            None => 0,
        }
    }
}

/// The digits of a number that may begin with a plus sign.
pub open spec fn without_plus(s: Seq<char>) -> Seq<char> {
    if s.len() > 0 && s[0] == '+' {
        s.skip(1)
    } else {
        s
    }
}

/// The number that `s` spells, if it is at most `max`: an optional plus sign
/// and at least one digit.
pub open spec fn parsed_number(s: Seq<char>, radix: nat, max: nat) -> Option<nat> {
    let d = without_plus(s);
    if d.len() > 0 && all_digits(d, radix) && number_value(d, radix) <= max {
        Some(number_value(d, radix))
    } else {
        None
    }
}

/// The value of a digit.
fn digit(c: char) -> (r: Option<u64>)
    ensures
        match r {
            Some(d) => digit_value(c) == Some(d as nat),
            None => digit_value(c) is None,
        },
{
    if '0' <= c && c <= '9' {
        Some((c as u32 - '0' as u32) as u64)
    } else if 'a' <= c && c <= 'f' {
        Some((c as u32 - 'a' as u32 + 10) as u64)
    } else if 'A' <= c && c <= 'F' {
        Some((c as u32 - 'A' as u32 + 10) as u64)
    } else {
        None
    }
}

proof fn lemma_value_grows(s: Seq<char>, radix: nat, i: int)
    requires
        radix >= 1,
        0 <= i <= s.len(),
        all_digits(s, radix),
    ensures
        number_value(s.take(i), radix) <= number_value(s, radix),
    decreases s.len() - i,
{
    if i < s.len() {
        lemma_value_grows(s, radix, i + 1);
        let t = s.take(i + 1);
        assert(t.drop_last() =~= s.take(i));
        assert(t.last() == s[i]);
        assert(is_digit(s[i], radix));
        let v = number_value(s.take(i), radix);
        assert(v * radix >= v) by (nonlinear_arith)
            requires
                radix >= 1,
                v >= 0,
        ;
    } else {
        assert(s.take(i) =~= s);
    }
}

/// Reads an unsigned number in the radix 10 or 16, up to a bound.
pub fn parse_number(s: &[char], radix: u64, max: u64) -> (r: Option<u64>)
    requires
        radix == 10 || radix == 16,
    ensures
        match r {
            Some(n) => parsed_number(s@, radix as nat, max as nat) == Some(n as nat),
            None => parsed_number(s@, radix as nat, max as nat) is None,
        },
{
    let ghost d = without_plus(s@);
    let start: usize = if s.len() > 0 && s[0] == '+' {
        1
    } else {
        0
    };
    assert(d =~= s@.skip(start as int));
    if start == s.len() {
        return None;
    }
    let mut value: u64 = 0;
    let mut i: usize = start;
    while i < s.len()
        invariant
            radix == 10 || radix == 16,
            start <= i <= s@.len(),
            start < s@.len(),
            d == without_plus(s@),
            d == s@.skip(start as int),
            all_digits(d.take(i - start), radix as nat),
            value == number_value(d.take(i - start), radix as nat),
            value <= max,
        decreases s@.len() - i,
    {
        let ghost t = d.take(i - start + 1);
        assert(t.drop_last() =~= d.take(i - start));
        assert(t.last() == s@[i as int]);
        assert(d[i - start] == s@[i as int]);
        let dv = match digit(s[i]) {
            Some(v) => v,
            None => {
                assert(!is_digit(d[i - start], radix as nat));
                return None;
            },
        };
        if dv >= radix {
            assert(!is_digit(d[i - start], radix as nat));
            return None;
        }
        assert(all_digits(t, radix as nat)) by {
            assert forall|k: int| 0 <= k < t.len() implies is_digit(t[k], radix as nat) by {
                if k < i - start {
                    assert(t[k] == d.take(i - start)[k]);
                }
            }
        }
        assert(value * radix + dv == number_value(t, radix as nat)) by {
            assert(digit_value(t.last()) == Some(dv as nat));
        }
        assert(value as u128 * radix as u128 <= 0xffff_ffff_ffff_ffffu128 * 16) by (nonlinear_arith)
            requires
                value <= 0xffff_ffff_ffff_ffff,
                radix <= 16,
        ;
        let next: u128 = value as u128 * radix as u128 + dv as u128;
        if next > max as u128 {
            proof {
                if all_digits(d, radix as nat) {
                    lemma_value_grows(d, radix as nat, i - start + 1);
                }
            }
            return None;
        }
        value = next as u64;
        i = i + 1;
    }
    assert(d.take(i - start) =~= d);
    Some(value)
}

/// Reads a decimal `u64`.
pub fn parse_u64(s: &[char]) -> (r: Option<u64>)
    ensures
        match r {
            Some(n) => parsed_number(s@, 10, u64::MAX as nat) == Some(n as nat),
            None => parsed_number(s@, 10, u64::MAX as nat) is None,
        },
{
    parse_number(s, 10, u64::MAX)
}

/// Reads a decimal `usize`.
pub fn parse_usize(s: &[char]) -> (r: Option<usize>)
    ensures
        match r {
            Some(n) => parsed_number(s@, 10, usize::MAX as nat) == Some(n as nat),
            None => parsed_number(s@, 10, usize::MAX as nat) is None,
        },
{
    match parse_number(s, 10, usize::MAX as u64) {
        Some(n) => Some(n as usize),
        None => None,
    }
}

/// Reads a hexadecimal `usize`.
pub fn parse_hex_usize(s: &[char]) -> (r: Option<usize>)
    ensures
        match r {
            Some(n) => parsed_number(s@, 16, usize::MAX as nat) == Some(n as nat),
            None => parsed_number(s@, 16, usize::MAX as nat) is None,
        },
{
    match parse_number(s, 16, usize::MAX as u64) {
        Some(n) => Some(n as usize),
        None => None,
    }
}

// ---------------------------------------------------------------------------
// Writing
// ---------------------------------------------------------------------------

/// The digit with the given value below sixteen.
pub open spec fn digit_char(n: nat) -> char {
    if n < 10 {
        (48 + n) as char
    } else {
        (87 + n) as char
    }
}

/// The decimal digits of `n`.
pub open spec fn decimal(n: nat) -> Seq<char>
    decreases n,
{
    if n < 10 {
        seq![digit_char(n)]
    } else {
        decimal(n / 10).push(digit_char(n % 10))
    }
}

/// The last `width` hexadecimal digits of `n`, in lower case.
pub open spec fn hex_digits(n: nat, width: nat) -> Seq<char>
    decreases width,
{
    if width == 0 {
        seq![]
    } else {
        hex_digits(n / 16, (width - 1) as nat).push(digit_char(n % 16))
    }
}

/// Appends a number in decimal.
pub fn push_decimal(out: &mut String, n: u128)
    ensures
        final(out)@ == old(out)@ + decimal(n as nat),
    decreases n,
{
    if n >= 10 {
        push_decimal(out, n / 10);
    }
    let c = (48 + (n % 10) as u8) as char;
    out.push(c);
}

/// Appends a number as the given count of hexadecimal digits.
pub fn push_hex(out: &mut String, n: u64, width: usize)
    ensures
        final(out)@ == old(out)@ + hex_digits(n as nat, width as nat),
    decreases width,
{
    if width > 0 {
        push_hex(out, n / 16, width - 1);
        let d: u8 = (n % 16) as u8;
        let c = if d < 10 {
            (48 + d) as char
        } else {
            (87 + d) as char
        };
        out.push(c);
    }
}

/// A number in decimal.
pub fn decimal_string(n: u64) -> (r: String)
    ensures
        r@ == decimal(n as nat),
{
    let mut out = String::new();
    push_decimal(&mut out, n as u128);
    out
}

pub proof fn lemma_digits_plain(n: nat)
    ensures
        decimal(n).len() > 0,
        forall|i: int| 0 <= i < decimal(n).len() ==> '0' <= #[trigger] decimal(n)[i] <= '9',
    decreases n,
{
    if n >= 10 {
        lemma_digits_plain(n / 10);
    }
}

proof fn lemma_digit_char(n: nat)
    requires
        n < 16,
    ensures
        digit_value(digit_char(n)) == Some(n),
        digit_char(n) != '+',
{
}

proof fn lemma_decimal_digits(n: nat)
    ensures
        decimal(n).len() > 0,
        all_digits(decimal(n), 10),
        decimal(n)[0] != '+',
        number_value(decimal(n), 10) == n,
    decreases n,
{
    lemma_digit_char(n % 10);
    if n < 10 {
        let s = decimal(n);
        assert(s.drop_last() =~= Seq::<char>::empty());
        assert(number_value(s.drop_last(), 10) == 0);
        lemma_digit_char(n);
    } else {
        lemma_decimal_digits(n / 10);
        let s = decimal(n);
        assert(s.drop_last() =~= decimal(n / 10));
        assert(s[0] == decimal(n / 10)[0]);
        assert(s.last() == digit_char(n % 10));
    }
}

/// Reading a number's decimal digits gives the number back.
pub proof fn decimal_reads_back(n: nat, max: nat)
    requires
        n <= max,
    ensures
        parsed_number(decimal(n), 10, max) == Some(n),
{
    lemma_decimal_digits(n);
}

/// The width of the number in hexadecimal digits.
pub open spec fn fits_hex(n: nat, width: nat) -> bool
    decreases width,
{
    if width == 0 {
        n == 0
    } else {
        fits_hex(n / 16, (width - 1) as nat)
    }
}

proof fn lemma_hex_digits(n: nat, width: nat)
    requires
        fits_hex(n, width),
    ensures
        hex_digits(n, width).len() == width,
        all_digits(hex_digits(n, width), 16),
        forall|i: int| 0 <= i < width ==> hex_digits(n, width)[i] != '+',
        number_value(hex_digits(n, width), 16) == n,
    decreases width,
{
    if width > 0 {
        lemma_digit_char(n % 16);
        lemma_hex_digits(n / 16, (width - 1) as nat);
        let s = hex_digits(n, width);
        assert(s.drop_last() =~= hex_digits(n / 16, (width - 1) as nat));
        assert(s.last() == digit_char(n % 16));
    }
}

proof fn lemma_u64_fits_hex(n: u64)
    ensures
        fits_hex(n as nat, 16),
{
    reveal_with_fuel(fits_hex, 17);
    assert(n / 16 / 16 / 16 / 16 / 16 / 16 / 16 / 16 / 16 / 16 / 16 / 16 / 16 / 16 / 16 / 16 == 0)
        by (bit_vector);
}

/// Reading the sixteen hexadecimal digits of a `u64` gives it back.
pub proof fn hex_reads_back(n: u64)
    ensures
        parsed_number(hex_digits(n as nat, 16), 16, u64::MAX as nat) == Some(n as nat),
{
    lemma_u64_fits_hex(n);
    lemma_hex_digits(n as nat, 16);
}

/// The digits of decimal numbers are the ten digits, and no other character.
pub proof fn decimal_digits_only(c: char)
    ensures
        is_digit(c, 10) == ('0' <= c <= '9'),
{
}

proof fn lemma_leading_zero(s: Seq<char>)
    ensures
        number_value(seq!['0'] + s, 10) == number_value(s, 10),
    decreases s.len(),
{
    let z = seq!['0'] + s;
    if s.len() == 0 {
        assert(z.drop_last() =~= seq![]);
        assert(number_value(z.drop_last(), 10) == 0);
    } else {
        assert(z.drop_last() =~= seq!['0'] + s.drop_last());
        assert(z.last() == s.last());
        lemma_leading_zero(s.drop_last());
    }
}

/// A number is read with a plus sign and zeros before it, up to the bound and no
/// further. A text is no number where it is empty or has a character, here at
/// `i`, that is no digit; a plus sign may stand at its beginning only.
pub proof fn only_numbers_are_read(n: nat, max: nat, s: Seq<char>, i: int)
    ensures
        parsed_number(decimal(n), 10, max) == (if n <= max {
            Some(n)
        } else {
            None
        }),
        parsed_number(seq!['+'] + decimal(n), 10, max) == parsed_number(decimal(n), 10, max),
        parsed_number(seq!['0'] + decimal(n), 10, max) == parsed_number(decimal(n), 10, max),
        parsed_number(seq![], 10, max) is None,
        parsed_number(seq!['+'], 10, max) is None,
        0 <= i < s.len() && !('0' <= s[i] <= '9') && (i > 0 || s[i] != '+') ==> parsed_number(
            s,
            10,
            max,
        ) is None,
{
    let d = decimal(n);
    lemma_decimal_digits(n);
    let plus = seq!['+'] + d;
    assert(plus.skip(1) =~= d);
    let zero = seq!['0'] + d;
    lemma_leading_zero(d);
    assert(is_digit('0', 10));
    assert forall|j: int| 0 <= j < zero.len() implies is_digit(zero[j], 10) by {
        if j > 0 {
            assert(zero[j] == d[j - 1]);
        }
    }
    assert(without_plus(zero) == zero);
    assert(all_digits(zero, 10));
    assert(seq!['+'].skip(1) =~= seq![]);
    if 0 <= i < s.len() && !('0' <= s[i] <= '9') && (i > 0 || s[i] != '+') {
        let w = without_plus(s);
        assert(!is_digit(s[i], 10));
        if s[0] == '+' {
            assert(w[i - 1] == s[i]);
        } else {
            assert(w[i] == s[i]);
        }
        assert(!all_digits(w, 10));
    }
}

/// A number is written in decimal, the digits of most weight first.
pub proof fn decimal_is_positional(n: nat, d: nat)
    requires
        d < 10,
    ensures
        n == 0 ==> decimal(10 * n + d) == seq![(48 + d) as char],
        n > 0 ==> decimal(10 * n + d) == decimal(n).push((48 + d) as char),
{
    assert((10 * n + d) / 10 == n);
    assert((10 * n + d) % 10 == d);
}

/// Digits count by their place, hexadecimal ones whatever their case.
pub proof fn digits_count_by_place(s: Seq<char>, c: char, d: nat)
    requires
        d < 16,
        d < 10 ==> c == (48 + d) as char,
        d >= 10 ==> c == (87 + d) as char || c == (55 + d) as char,
    ensures
        d < 10 ==> number_value(s.push(c), 10) == 10 * number_value(s, 10) + d,
        number_value(s.push(c), 16) == 16 * number_value(s, 16) + d,
        number_value(seq![], 10) == 0,
        number_value(seq![], 16) == 0,
{
    assert(s.push(c).drop_last() =~= s);
    assert(digit_value(c) == Some(d));
}

/// A number in hexadecimal is read where it is made of such digits alone, has one
/// at least, and is not too large.
pub proof fn hex_numbers_are_read(s: Seq<char>, max: nat)
    requires
        s.len() > 0,
    ensures
        ({
            let plain = forall|i: int|
                0 <= i < s.len() ==> '0' <= #[trigger] s[i] <= '9' || 'a' <= s[i] <= 'f' || 'A' <= s[i]
                    <= 'F';
            &&& plain && number_value(s, 16) <= max ==> parsed_number(s, 16, max) == Some(
                number_value(s, 16),
            )
            &&& plain && number_value(s, 16) > max ==> parsed_number(s, 16, max) is None
            &&& !plain && s[0] != '+' ==> parsed_number(s, 16, max) is None
        }),
{
    assert forall|c: char| is_digit(c, 16) == ('0' <= c <= '9' || 'a' <= c <= 'f' || 'A' <= c <= 'F') by {}
    let plain = forall|i: int|
        0 <= i < s.len() ==> '0' <= #[trigger] s[i] <= '9' || 'a' <= s[i] <= 'f' || 'A' <= s[i] <= 'F';
    if plain {
        assert('0' <= s[0] <= '9' || 'a' <= s[0] <= 'f' || 'A' <= s[0] <= 'F');
        assert(without_plus(s) == s);
        assert(all_digits(s, 16)) by {
            assert forall|i: int| 0 <= i < s.len() implies is_digit(s[i], 16) by {
                assert('0' <= s[i] <= '9' || 'a' <= s[i] <= 'f' || 'A' <= s[i] <= 'F');
            }
        }
    } else if s[0] != '+' {
        let i = choose|i: int|
            0 <= i < s.len() && !('0' <= #[trigger] s[i] <= '9' || 'a' <= s[i] <= 'f' || 'A' <= s[i]
                <= 'F');
        assert(!is_digit(s[i], 16));
    }
}

/// A number is written in hexadecimal with as many digits as are asked for, in
/// lower case, the digits of most weight first.
pub proof fn hex_is_positional(n: nat, d: nat, width: nat)
    requires
        d < 16,
    ensures
        hex_digits(16 * n + d, width + 1) == hex_digits(n, width).push(
            (if d < 10 {
                48 + d
            } else {
                87 + d
            }) as char,
        ),
        hex_digits(n, 0) == Seq::<char>::empty(),
{
    assert((16 * n + d) / 16 == n);
    assert((16 * n + d) % 16 == d);
}

} // verus!
