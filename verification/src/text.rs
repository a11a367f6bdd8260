//! Character classes, comparison of text, and decimal numerals.

use vstd::prelude::*;
use vstd::string::*;
use vstd::utf8::*;

verus! {

/// The characters that separate tokens: the code points with the Unicode
/// property White_Space.
pub open spec fn is_space(c: char) -> bool {
    let u = c as u32;
    ||| 0x09 <= u <= 0x0D
    ||| u == 0x20
    ||| u == 0x85
    ||| u == 0xA0
    ||| u == 0x1680
    ||| 0x2000 <= u <= 0x200A
    ||| u == 0x2028
    ||| u == 0x2029
    ||| u == 0x202F
    ||| u == 0x205F
    ||| u == 0x3000
}

/// Whether `c` separates tokens.
pub fn is_whitespace(c: char) -> (space: bool)
    ensures
        space == is_space(c),
{
    let u: u32 = c as u32;
    (0x09 <= u && u <= 0x0D) || u == 0x20 || u == 0x85 || u == 0xA0 || u == 0x1680 || (0x2000 <= u
        && u <= 0x200A) || u == 0x2028 || u == 0x2029 || u == 0x202F || u == 0x205F || u == 0x3000
}

/// Whether two texts hold the same characters.
pub fn str_eq(a: &str, b: &str) -> (same: bool)
    ensures
        same == (a@ == b@),
{
    let x = a.as_bytes();
    let y = b.as_bytes();
    proof {
        encode_utf8_decode_utf8(a@);
        encode_utf8_decode_utf8(b@);
    }
    if x.len() != y.len() {
        return false;
    }
    let mut i: usize = 0;
    while i < x.len()
        invariant
            i <= x.len(),
            x.len() == y.len(),
            x@ == encode_utf8(a@),
            y@ == encode_utf8(b@),
            forall|k: int| 0 <= k < i ==> x@[k] == y@[k],
        decreases x.len() - i,
    {
        if x[i] != y[i] {
            return false;
        }
        i += 1;
    }
    assert(x@ =~= y@);
    true
}

/// Whether `c` is one of the ten decimal digits.
pub open spec fn is_digit(c: char) -> bool {
    0x30 <= c as u32 <= 0x39
}

/// The number a decimal digit stands for.
pub open spec fn digit_value(c: char) -> nat {
    (c as u32 - 0x30) as nat
}

/// The decimal digit that stands for `d`, for `d` below ten.
pub open spec fn digit_char(d: nat) -> char {
    if d == 0 {
        '0'
    } else if d == 1 {
        '1'
    } else if d == 2 {
        '2'
    } else if d == 3 {
        '3'
    } else if d == 4 {
        '4'
    } else if d == 5 {
        '5'
    } else if d == 6 {
        '6'
    } else if d == 7 {
        '7'
    } else if d == 8 {
        '8'
    } else {
        '9'
    }
}

/// Whether every character of `s` is a decimal digit.
pub open spec fn all_digits(s: Seq<char>) -> bool {
    forall|i: int| 0 <= i < s.len() ==> is_digit(#[trigger] s[i])
}

/// The number that a run of decimal digits denotes, most significant digit
/// first; the empty run denotes zero.
pub open spec fn digits_value(s: Seq<char>) -> nat
    decreases s.len(),
{
    if s.len() == 0 {
        0
    } else {
        digits_value(s.drop_last()) * 10 + digit_value(s.last())
    }
}

/// Whether `s` starts with a sign.
pub open spec fn has_sign(s: Seq<char>) -> bool {
    s.len() > 0 && (s[0] == '-' || s[0] == '+')
}

/// The digits of a numeral: what follows the sign, if there is one.
pub open spec fn numeral_digits(s: Seq<char>) -> Seq<char> {
    if has_sign(s) {
        s.skip(1)
    } else {
        s
    }
}

/// Whether `s` is a decimal numeral: an optional sign, then one digit or
/// more, and nothing else.
pub open spec fn is_numeral(s: Seq<char>) -> bool {
    numeral_digits(s).len() > 0 && all_digits(numeral_digits(s))
}

/// The integer that the numeral `s` denotes.
pub open spec fn numeral_value(s: Seq<char>) -> int {
    if s.len() > 0 && s[0] == '-' {
        -(digits_value(numeral_digits(s)) as int)
    } else {
        digits_value(numeral_digits(s)) as int
    }
}

/// The 32-bit signed integer that `s` denotes, if `s` is a numeral whose
/// value fits.
pub open spec fn parse_numeral(s: Seq<char>) -> Option<i32> {
    if is_numeral(s) && i32::MIN <= numeral_value(s) <= i32::MAX {
        Some(numeral_value(s) as i32)
    } else {
        None
    }
}

/// The decimal digits of `n`, most significant first, without leading zeros.
pub open spec fn nat_text(n: nat) -> Seq<char>
    decreases n,
{
    if n < 10 {
        seq![digit_char(n)]
    } else {
        nat_text(n / 10).push(digit_char(n % 10))
    }
}

/// The decimal numeral of `n`: a minus sign for a negative number, then the
/// digits of its magnitude.
pub open spec fn int_text(n: int) -> Seq<char> {
    if n < 0 {
        seq!['-'] + nat_text((-n) as nat)
    } else {
        nat_text(n as nat)
    }
}

/// A run of digits never denotes less after one more digit.
proof fn lemma_digits_value_grows(s: Seq<char>, k: int)
    requires
        0 <= k <= s.len(),
    ensures
        digits_value(s.take(k)) <= digits_value(s),
    decreases s.len() - k,
{
    if k < s.len() {
        lemma_digits_value_grows(s, k + 1);
        assert(s.take(k + 1).drop_last() =~= s.take(k));
    } else {
        assert(s.take(k) =~= s);
    }
}

/// A character outside ASCII is neither a digit nor a sign.
proof fn lemma_outside_ascii(c: char)
    ensures
        !('\0' <= c <= '\u{7f}') ==> !is_digit(c) && c != '-' && c != '+',
{
}

/// Reads a decimal numeral as a 32-bit signed integer.
///
/// The result is `None` when `s` is no numeral, and when its value does not
/// fit in 32 bits.
pub fn parse_i32(s: &str) -> (parsed: Option<i32>)
    ensures
        parsed == parse_numeral(s@),
{
    if !s.is_ascii() {
        proof {
            assert(!is_ascii_chars(s@));
            let i = choose|i: int| 0 <= i < s@.len() && !('\0' <= #[trigger] s@[i] <= '\u{7f}');
            lemma_outside_ascii(s@[i]);
            if has_sign(s@) {
                assert(i >= 1);
                assert(s@.skip(1)[i - 1] == s@[i]);
            }
            assert(!all_digits(numeral_digits(s@)));
        }
        return None;
    }
    let bytes = s.as_bytes();
    proof {
        is_ascii_spec_bytes(s);
    }
    assert(bytes@ == Seq::new(s@.len(), |k: int| s@[k] as u8));
    let n = bytes.len();
    let negative = n > 0 && bytes[0] == 0x2D;
    let signed = n > 0 && (bytes[0] == 0x2D || bytes[0] == 0x2B);
    let start: usize = if signed {
        1
    } else {
        0
    };
    assert(signed == has_sign(s@));
    let ghost digits = numeral_digits(s@);
    assert(digits.len() == n - start);
    if start == n {
        return None;
    }
    let mut value: i64 = 0;
    let mut i: usize = start;
    while i < n
        invariant
            start <= i <= n,
            n == bytes@.len(),
            n == s@.len(),
            digits == s@.skip(start as int),
            digits == numeral_digits(s@),
            negative == (s@.len() > 0 && s@[0] == '-'),
            is_ascii_chars(s@),
            bytes@ == Seq::new(s@.len(), |k: int| s@[k] as u8),
            all_digits(digits.take(i - start)),
            value == digits_value(digits.take(i - start)),
            value <= 0x8000_0000,
        decreases n - i,
    {
        let b = bytes[i];
        let ghost c = s@[i as int];
        assert(digits[i - start] == c);
        assert(digits.take(i - start + 1).drop_last() =~= digits.take(i - start));
        if b < 0x30 || b > 0x39 {
            assert(!is_digit(digits[i - start]));
            assert(!all_digits(digits));
            return None;
        }
        value = value * 10 + (b - 0x30) as i64;
        assert(is_digit(c));
        assert(value == digits_value(digits.take(i - start + 1)));
        if value > 0x8000_0000 {
            proof {
                lemma_digits_value_grows(digits, i - start + 1);
                if all_digits(digits) {
                    assert(digits_value(digits) > 0x8000_0000);
                }
            }
            return None;
        }
        i += 1;
    }
    assert(digits.take(n - start) =~= digits);
    if negative {
        Some((-value) as i32)
    } else if value == 0x8000_0000 {
        None
    } else {
        Some(value as i32)
    }
}

/// One decimal digit as text.
fn digit_str(d: u32) -> (text: &'static str)
    requires
        d < 10,
    ensures
        text@ == seq![digit_char(d as nat)],
{
    proof {
        reveal_strlit("0");
        reveal_strlit("1");
        reveal_strlit("2");
        reveal_strlit("3");
        reveal_strlit("4");
        reveal_strlit("5");
        reveal_strlit("6");
        reveal_strlit("7");
        reveal_strlit("8");
        reveal_strlit("9");
    }
    let text = if d == 0 {
        "0"
    } else if d == 1 {
        "1"
    } else if d == 2 {
        "2"
    } else if d == 3 {
        "3"
    } else if d == 4 {
        "4"
    } else if d == 5 {
        "5"
    } else if d == 6 {
        "6"
    } else if d == 7 {
        "7"
    } else if d == 8 {
        "8"
    } else {
        "9"
    };
    assert(text@ =~= seq![digit_char(d as nat)]);
    text
}

/// Appends the decimal digits of `n` to `out`.
fn push_nat(out: &mut String, n: u32)
    ensures
        final(out)@ == old(out)@ + nat_text(n as nat),
    decreases n,
{
    if n >= 10 {
        push_nat(out, n / 10);
    }
    out.append(digit_str(n % 10));
    assert(final(out)@ =~= old(out)@ + nat_text(n as nat));
}

/// The decimal numeral of `n`.
pub fn i32_to_string(n: i32) -> (text: String)
    ensures
        text@ == int_text(n as int),
{
    let mut text = String::new();
    if n < 0 {
        proof {
            reveal_strlit("-");
        }
        text.append("-");
        assert(text@ =~= seq!['-']);
        let magnitude: u32 = (-(n as i64)) as u32;
        push_nat(&mut text, magnitude);
    } else {
        push_nat(&mut text, n as u32);
        assert(text@ =~= int_text(n as int));
    }
    text
}

/// The digits of a number are digits, at least one of them, and denote the
/// number.
pub proof fn lemma_nat_text_denotes(n: nat)
    ensures
        nat_text(n).len() > 0,
        all_digits(nat_text(n)),
        digits_value(nat_text(n)) == n,
        !has_sign(nat_text(n)),
    decreases n,
{
    let d = digit_char(n % 10);
    assert(is_digit(d) && digit_value(d) == n % 10);
    if n < 10 {
        let text = seq![digit_char(n)];
        assert(text.drop_last() =~= Seq::<char>::empty());
        assert(digits_value(text.drop_last()) == 0);
        assert(text.last() == d);
    } else {
        lemma_nat_text_denotes(n / 10);
        let head = nat_text(n / 10);
        let text = head.push(d);
        assert(text.drop_last() =~= head);
        assert(text.last() == d);
        assert(text[0] == head[0]);
        assert forall|i: int| 0 <= i < text.len() implies is_digit(#[trigger] text[i]) by {
            if i < head.len() {
                assert(text[i] == head[i]);
            }
        }
    }
}

/// Reading the decimal numeral of a 32-bit signed integer gives the
/// integer back.
pub proof fn lemma_numeral_round_trip(n: i32)
    ensures
        parse_numeral(int_text(n as int)) == Some(n),
{
    if n < 0 {
        let m = (-(n as int)) as nat;
        lemma_nat_text_denotes(m);
        let text = seq!['-'] + nat_text(m);
        assert(text[0] == '-');
        assert(text.skip(1) =~= nat_text(m));
    } else {
        lemma_nat_text_denotes(n as nat);
        let text = nat_text(n as nat);
        assert(text[0] != '-');
    }
}

} // verus!
