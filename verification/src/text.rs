//! Text helpers: string equality and decimal numerals.
//!
//! Task identifiers end in a decimal number and estimates are typed in as
//! decimal text, so the rest of the crate needs numerals with an exact
//! meaning. Everything here is stated over `Seq<char>`, the view of `str`
//! and `String`.

use vstd::prelude::*;
use vstd::string::StringExecFns;
use vstd::string::StringSliceAdditionalSpecFns;
use vstd::string::is_ascii_spec_bytes;
use vstd::utf8::encode_utf8_decode_utf8;
use vstd::utf8::is_ascii_chars;

verus! {

/// The character that writes the digit `d`; meaningful for `d < 10`.
pub open spec fn digit_char(d: nat) -> char {
    if d == 0 {
        '0'
    } else if d == 1 {
        '1'
    } else if d == 2 {
        '2'
    } else if d == 3 {
        '3'
    } else if d == 4 {
        '4'
    } else if d == 5 {
        '5'
    } else if d == 6 {
        '6'
    } else if d == 7 {
        '7'
    } else if d == 8 {
        '8'
    } else {
        '9'
    }
}

/// Whether `c` is one of the ten ASCII digits.
pub open spec fn is_digit(c: char) -> bool {
    '0' <= c && c <= '9'
}

/// The value of the digit `c`; meaningful where `is_digit(c)`.
pub open spec fn digit_value(c: char) -> nat {
    (c as int - '0' as int) as nat
}

/// The decimal numeral of `n`, without sign or leading zeros.
pub open spec fn decimal(n: nat) -> Seq<char>
    decreases n,
{
    if n < 10 {
        seq![digit_char(n)]
    } else {
        decimal(n / 10).push(digit_char(n % 10))
    }
}

/// The decimal numeral of an integer: a `-` in front of negative values.
pub open spec fn signed_decimal(v: int) -> Seq<char> {
    if v < 0 {
        seq!['-'] + decimal((-v) as nat)
    } else {
        decimal(v as nat)
    }
}

/// The number that a sequence of digits writes, most significant first.
pub open spec fn digits_value(s: Seq<char>) -> nat
    decreases s.len(),
{
    if s.len() == 0 {
        0
    } else {
        digits_value(s.drop_last()) * 10 + digit_value(s.last())
    }
}

/// Whether every character of `s` is a digit.
pub open spec fn all_digits(s: Seq<char>) -> bool {
    forall|i: int| 0 <= i < s.len() ==> is_digit(#[trigger] s[i])
}

/// Whether `s` starts with a sign character.
pub open spec fn has_sign(s: Seq<char>) -> bool {
    s.len() > 0 && (s[0] == '-' || s[0] == '+')
}

/// The part of `s` after its sign, or all of `s` where it has none.
pub open spec fn unsigned_part(s: Seq<char>) -> Seq<char> {
    if has_sign(s) {
        s.drop_first()
    } else {
        s
    }
}

/// The integer that `s` writes, whatever its size: an optional `+` or `-`
/// followed by at least one digit and nothing else.
pub open spec fn parsed_integer(s: Seq<char>) -> Option<int> {
    let body = unsigned_part(s);
    if body.len() == 0 || !all_digits(body) {
        None
    } else if s[0] == '-' {
        Some(-(digits_value(body) as int))
    } else {
        Some(digits_value(body) as int)
    }
}

/// The 32-bit integer that `s` writes; `None` where `s` is no numeral or
/// its value does not fit.
pub open spec fn parsed_i32(s: Seq<char>) -> Option<int> {
    match parsed_integer(s) {
        Some(v) => if i32::MIN <= v <= i32::MAX {
            Some(v)
        } else {
            None
        },
        None => None,
    }
}

/// The estimate that typed text stands for: its value where it is a
/// 32-bit numeral, zero otherwise.
pub open spec fn estimate_of_text(s: Seq<char>) -> int {
    match parsed_i32(s) {
        Some(v) => v,
        None => 0,
    }
}

/// Distinct digits are written with distinct characters.
pub proof fn lemma_digit_char_injective(a: nat, b: nat)
    requires
        a < 10,
        b < 10,
        digit_char(a) == digit_char(b),
    ensures
        a == b,
{
}

/// A digit character is a digit and has the value it was made from.
pub proof fn lemma_digit_char_value(d: nat)
    requires
        d < 10,
    ensures
        is_digit(digit_char(d)),
        digit_value(digit_char(d)) == d,
{
}

/// A decimal numeral is never empty.
pub proof fn lemma_decimal_nonempty(n: nat)
    ensures
        decimal(n).len() >= 1,
    decreases n,
{
    if n >= 10 {
        lemma_decimal_nonempty(n / 10);
    }
}

/// Different numbers have different decimal numerals.
pub proof fn lemma_decimal_injective(a: nat, b: nat)
    requires
        decimal(a) == decimal(b),
    ensures
        a == b,
    decreases a,
{
    if a < 10 && b < 10 {
        assert(decimal(a)[0] == digit_char(a));
        assert(decimal(b)[0] == digit_char(b));
        lemma_digit_char_injective(a, b);
    } else if a < 10 {
        lemma_decimal_nonempty(b / 10);
        assert(decimal(a).len() == 1);
        assert(decimal(b).len() == decimal(b / 10).len() + 1);
    } else if b < 10 {
        lemma_decimal_nonempty(a / 10);
        assert(decimal(b).len() == 1);
        assert(decimal(a).len() == decimal(a / 10).len() + 1);
    } else {
        let x = decimal(a / 10);
        let y = decimal(b / 10);
        let p = x.push(digit_char(a % 10));
        let q = y.push(digit_char(b % 10));
        assert(p == decimal(a));
        assert(q == decimal(b));
        assert(p.last() == digit_char(a % 10));
        assert(q.last() == digit_char(b % 10));
        assert(p.drop_last() =~= x);
        assert(q.drop_last() =~= y);
        lemma_digit_char_injective(a % 10, b % 10);
        lemma_decimal_injective(a / 10, b / 10);
    }
}

/// A decimal numeral consists of digits and writes the number it was made
/// from.
pub proof fn lemma_decimal_digits(n: nat)
    ensures
        all_digits(decimal(n)),
        digits_value(decimal(n)) == n,
        n > 0 ==> decimal(n)[0] != '0',
    decreases n,
{
    if n < 10 {
        lemma_digit_char_value(n);
        let s = decimal(n);
        assert(s.drop_last().len() == 0);
        assert(digits_value(s) == digits_value(s.drop_last()) * 10 + digit_value(s.last()));
    } else {
        lemma_decimal_digits(n / 10);
        lemma_decimal_nonempty(n / 10);
        lemma_digit_char_value(n % 10);
        let x = decimal(n / 10);
        let s = x.push(digit_char(n % 10));
        assert(s.drop_last() =~= x);
        assert(s.last() == digit_char(n % 10));
        assert(digits_value(s) == digits_value(s.drop_last()) * 10 + digit_value(s.last()));
    }
}

/// The numeral of a 32-bit integer reads back as that integer.
pub proof fn lemma_signed_decimal_parses(v: int)
    requires
        i32::MIN <= v <= i32::MAX,
    ensures
        parsed_i32(signed_decimal(v)) == Some(v),
        estimate_of_text(signed_decimal(v)) == v,
{
    let s = signed_decimal(v);
    if v < 0 {
        let m = (-v) as nat;
        lemma_decimal_digits(m);
        lemma_decimal_nonempty(m);
        assert(s[0] == '-');
        assert(s.drop_first() =~= decimal(m));
    } else {
        let m = v as nat;
        lemma_decimal_digits(m);
        lemma_decimal_nonempty(m);
        assert(is_digit(s[0]));
    }
}

/// The value of the first digits of a numeral is at most the value of the
/// whole.
pub proof fn lemma_digits_value_prefix(s: Seq<char>, k: int)
    requires
        0 <= k <= s.len(),
    ensures
        digits_value(s.take(k)) <= digits_value(s),
    decreases s.len() - k,
{
    if k == s.len() {
        assert(s.take(k) =~= s);
    } else {
        assert(s.drop_last().take(k) =~= s.take(k));
        lemma_digits_value_prefix(s.drop_last(), k);
    }
}

/// Whether two strings hold the same characters.
pub fn str_eq(a: &str, b: &str) -> (r: bool)
    ensures
        r == (a@ == b@),
{
    let x = a.as_bytes();
    let y = b.as_bytes();
    proof {
        encode_utf8_decode_utf8(a@);
        encode_utf8_decode_utf8(b@);
    }
    if x.len() != y.len() {
        return false;
    }
    let mut i: usize = 0;
    while i < x.len()
        invariant
            i <= x.len(),
            x.len() == y.len(),
            x@ == a.spec_bytes(),
            y@ == b.spec_bytes(),
            forall|j: int| 0 <= j < i ==> x@[j] == y@[j],
        decreases x.len() - i,
    {
        if x[i] != y[i] {
            return false;
        }
        i += 1;
    }
    assert(x@ =~= y@);
    true
}

/// The 32-bit integer that `text` writes in decimal: an optional `+` or
/// `-`, then digits only, at least one. `None` for any other text and for
/// a value out of range.
pub fn parse_i32(text: &str) -> (r: Option<i32>)
    ensures
        match parsed_i32(text@) {
            Some(v) => r is Some && r.unwrap() == v,
            None => r is None,
        },
{
    let ghost s = text@;
    let ghost body = unsigned_part(s);
    if !text.is_ascii() {
        proof {
            assert(!is_ascii_chars(s));
            let i = choose|i: int| 0 <= i < s.len() && !('\0' <= #[trigger] s[i] <= '\u{7f}');
            if has_sign(s) {
                assert(i > 0);
                assert(!is_digit(body[i - 1]));
            } else {
                assert(!is_digit(body[i]));
            }
        }
        return None;
    }
    proof {
        is_ascii_spec_bytes(text);
    }
    let bytes = text.as_bytes();
    let n: usize = bytes.len();
    if n == 0 {
        return None;
    }
    let first: u8 = bytes[0];
    let negative: bool = first == 45;
    let start: usize = if first == 45 || first == 43 {
        1
    } else {
        0
    };
    assert(s[0] == '-' <==> first == 45);
    assert(s[0] == '+' <==> first == 43);
    assert(body =~= s.skip(start as int));
    if start == n {
        return None;
    }
    let mut acc: i64 = 0;
    let mut i: usize = start;
    assert(body.take(0).len() == 0);
    while i < n
        invariant
            start <= i <= n,
            n == s.len(),
            s == text@,
            n == bytes@.len(),
            forall|j: int| 0 <= j < n ==> bytes@[j] == (#[trigger] s[j]) as u8,
            is_ascii_chars(s),
            body == s.skip(start as int),
            body == unsigned_part(s),
            all_digits(body.take(i - start)),
            acc == digits_value(body.take(i - start)),
            0 <= acc <= 2147483648,
        decreases n - i,
    {
        let b: u8 = bytes[i];
        let ghost k = i - start;
        assert(body[k] == s[i as int]);
        if b < 48 || b > 57 {
            assert(!is_digit(body[k]));
            return None;
        }
        assert(is_digit(body[k]));
        assert(digit_value(body[k]) == b - 48);
        proof {
            let prefix = body.take(k + 1);
            assert(prefix.drop_last() =~= body.take(k));
            assert(prefix.last() == body[k]);
            assert forall|j: int| 0 <= j < prefix.len() implies is_digit(#[trigger] prefix[j]) by {
                if j < k {
                    assert(prefix[j] == body.take(k)[j]);
                }
            }
        }
        acc = acc * 10 + (b - 48) as i64;
        if acc > 2147483648 {
            proof {
                lemma_digits_value_prefix(body, k + 1);
            }
            return None;
        }
        i += 1;
    }
    assert(body.take(n - start) =~= body);
    if negative {
        Some((-acc) as i32)
    } else if acc > 2147483647 {
        None
    } else {
        Some(acc as i32)
    }
}

/// The estimate that typed text stands for: its value where it is the
/// decimal numeral of a 32-bit integer, zero for any other text.
pub fn parse_estimate(text: &str) -> (r: i32)
    ensures
        r == estimate_of_text(text@),
{
    match parse_i32(text) {
        Some(v) => v,
        None => 0,
    }
}

/// The one-character string that writes the digit `d`.
fn digit_str(d: u8) -> (r: &'static str)
    requires
        d < 10,
    ensures
        r@ == seq![digit_char(d as nat)],
{
    proof {
        reveal_strlit("0");
        reveal_strlit("1");
        reveal_strlit("2");
        reveal_strlit("3");
        reveal_strlit("4");
        reveal_strlit("5");
        reveal_strlit("6");
        reveal_strlit("7");
        reveal_strlit("8");
        reveal_strlit("9");
    }
    let r = if d == 0 {
        "0"
    } else if d == 1 {
        "1"
    } else if d == 2 {
        "2"
    } else if d == 3 {
        "3"
    } else if d == 4 {
        "4"
    } else if d == 5 {
        "5"
    } else if d == 6 {
        "6"
    } else if d == 7 {
        "7"
    } else if d == 8 {
        "8"
    } else {
        "9"
    };
    assert(r@ =~= seq![digit_char(d as nat)]);
    r
}

/// Appends the decimal numeral of `n` to `out`.
pub fn push_decimal(out: &mut String, n: u128)
    ensures
        final(out)@ == old(out)@ + decimal(n as nat),
    decreases n,
{
    if n >= 10 {
        push_decimal(out, n / 10);
    }
    out.append(digit_str((n % 10) as u8));
    assert(out@ =~= old(out)@ + decimal(n as nat));
}

/// Appends the decimal numeral of `v` to `out`, with a `-` in front of a
/// negative value.
pub fn push_signed_decimal(out: &mut String, v: i32)
    ensures
        final(out)@ == old(out)@ + signed_decimal(v as int),
{
    if v < 0 {
        proof {
            reveal_strlit("-");
        }
        out.append("-");
        let m: u128 = (-(v as i64)) as u128;
        push_decimal(out, m);
        assert(out@ =~= old(out)@ + signed_decimal(v as int));
    } else {
        push_decimal(out, v as u128);
    }
}

/// The decimal numeral of `v` as a string.
pub fn i32_to_string(v: i32) -> (r: String)
    ensures
        r@ == signed_decimal(v as int),
{
    let mut out = String::new();
    push_signed_decimal(&mut out, v);
    assert(out@ =~= signed_decimal(v as int));
    out
}

} // verus!
