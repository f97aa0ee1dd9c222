//! Fixed-point decimals with one fractional digit, as text and as integers:
//! `-12.3` is the integer `-123`, a number of tenths.

use vstd::prelude::*;
use crate::ascii::{DIGIT_NINE, DIGIT_ZERO, MINUS, PLUS, POINT};

verus! {

/// Whether `b` is one of the ASCII digits `0` to `9`.
pub open spec fn is_digit(b: u8) -> bool {
    DIGIT_ZERO <= b <= DIGIT_NINE
}

/// The number of ASCII digits that `s` starts with.
pub open spec fn digit_run(s: Seq<u8>) -> nat
    decreases s.len(),
{
    if s.len() > 0 && is_digit(s[0]) {
        1 + digit_run(s.skip(1))
    } else {
        0
    }
}

/// The number that the ASCII digits `s` denote in base ten; 0 for no digits.
pub open spec fn decimal_value(s: Seq<u8>) -> nat
    decreases s.len(),
{
    if s.len() == 0 {
        0
    } else {
        (10 * decimal_value(s.drop_last()) + (s.last() - DIGIT_ZERO)) as nat
    }
}

/// The integer that `text` starts with: an optional sign `+` or `-`, then
/// the digits that follow it, however few. A lone sign reads as 0; a text
/// that starts with neither a sign nor a digit holds no integer.
pub open spec fn leading_integer(text: Seq<u8>) -> Option<int> {
    let signed = text.len() > 0 && (text[0] == MINUS || text[0] == PLUS);
    let start: int = if signed { 1 } else { 0 };
    let run = digit_run(text.skip(start));
    let magnitude = decimal_value(text.subrange(start, start + run));
    if start + run == 0 {
        None
    } else if text[0] == MINUS {
        Some(-magnitude)
    } else {
        Some(magnitude as int)
    }
}

/// Calls `atoi::atoi::<i16>`. Its result is taken on trust, as the
/// source of `atoi` gives it: the integer that `text` starts with, sign
/// included, where there is one and it fits in 16 bits; `None` otherwise.
/// Bytes after the digits are ignored.
#[verifier::external_body]
fn atoi_i16(text: &[u8]) -> (r: Option<i16>)
    ensures
        r == match leading_integer(text@) {
            Some(v) => if i16::MIN <= v <= i16::MAX {
                Some(v as i16)
            } else {
                None
            },
            None => None,
        },
{
    atoi::atoi::<i16>(text)
}

/// Whether every byte of `s` is a digit.
pub open spec fn all_digits(s: Seq<u8>) -> bool {
    forall|i: int| 0 <= i < s.len() ==> is_digit(#[trigger] s[i])
}

/// 1 where `s` starts with `-`, else 0.
pub open spec fn sign_len(s: Seq<u8>) -> int {
    if s.len() > 0 && s[0] == MINUS {
        1
    } else {
        0
    }
}

/// What stands between the sign and the point of a fixed-point text.
pub open spec fn whole_part(s: Seq<u8>) -> Seq<u8> {
    s.subrange(sign_len(s), s.len() - 2)
}

/// Whether `s` is a fixed-point value: an optional `-`, one to three
/// digits, a point, and one digit.
pub open spec fn is_fixed_point(s: Seq<u8>) -> bool {
    &&& sign_len(s) + 3 <= s.len() <= sign_len(s) + 5
    &&& all_digits(whole_part(s))
    &&& s[s.len() - 2] == POINT
    &&& is_digit(s[s.len() - 1])
}

/// Ten times the number that the fixed-point text `s` denotes.
pub open spec fn fixed_point_value(s: Seq<u8>) -> int {
    let tenths = 10 * decimal_value(whole_part(s)) + (s[s.len() - 1] - DIGIT_ZERO);
    if sign_len(s) == 1 {
        -tenths
    } else {
        tenths
    }
}

/// A text of digits only is one run of digits.
proof fn lemma_digit_run_all(s: Seq<u8>)
    requires
        all_digits(s),
    ensures
        digit_run(s) == s.len(),
    decreases s.len(),
{
    if s.len() > 0 {
        assert(is_digit(s[0]));
        assert forall|i: int| 0 <= i < s.skip(1).len() implies is_digit(
            #[trigger] s.skip(1)[i],
        ) by {
            assert(s.skip(1)[i] == s[i + 1]);
        }
        lemma_digit_run_all(s.skip(1));
    }
}

/// Few digits denote a small number: up to three digits stay below a
/// thousand, up to four below ten thousand.
proof fn lemma_decimal_value_bound(s: Seq<u8>)
    requires
        all_digits(s),
        s.len() <= 4,
    ensures
        s.len() <= 1 ==> decimal_value(s) <= 9,
        s.len() <= 2 ==> decimal_value(s) <= 99,
        s.len() <= 3 ==> decimal_value(s) <= 999,
        decimal_value(s) <= 9999,
    decreases s.len(),
{
    if s.len() > 0 {
        assert(is_digit(s.last()));
        let front = s.drop_last();
        assert forall|i: int| 0 <= i < front.len() implies is_digit(#[trigger] front[i]) by {
            assert(front[i] == s[i]);
        }
        lemma_decimal_value_bound(front);
    }
}

/// Ten times the fixed-point value in `s`: `12.3` gives 123, `-0.5` gives
/// -5. `None` where `s` is not an optional `-`, one to three digits, a
/// point and one digit.
pub fn atoi_times_ten(s: &[u8]) -> (r: Option<i16>)
    ensures
        r is Some <==> is_fixed_point(s@),
        r matches Some(v) ==> v == fixed_point_value(s@) && -9999 <= v <= 9999,
{
    let n = s.len();
    if n < 3 {
        return None;
    }
    let negative = s[0] == MINUS;
    let start: usize = if negative { 1 } else { 0 };
    if n < start + 3 || n > start + 5 {
        return None;
    }
    if s[n - 2] != POINT || s[n - 1] < DIGIT_ZERO || s[n - 1] > DIGIT_NINE {
        return None;
    }
    let mut i = start;
    while i < n - 2
        invariant
            n == s.len(),
            start == sign_len(s@),
            start <= i <= n - 2,
            forall|j: int| start <= j < i ==> is_digit(s@[j]),
        decreases n - i,
    {
        if s[i] < DIGIT_ZERO || s[i] > DIGIT_NINE {
            proof {
                assert(whole_part(s@)[i - start] == s@[i as int]);
            }
            return None;
        }
        i = i + 1;
    }
    let head = &s[0..n - 2];
    proof {
        let whole = whole_part(s@);
        assert forall|j: int| 0 <= j < whole.len() implies is_digit(#[trigger] whole[j]) by {
            assert(whole[j] == s@[start + j]);
        }
        assert(head@.skip(start as int) =~= whole);
        lemma_digit_run_all(whole);
        assert(head@.subrange(start as int, start + whole.len()) =~= whole);
        lemma_decimal_value_bound(whole);
        assert(head@[0] == s@[0]);
    }
    match atoi_i16(head) {
        Some(whole) => {
            let last = (s[n - 1] - DIGIT_ZERO) as i16;
            if negative {
                Some(whole * 10 - last)
            } else {
                Some(whole * 10 + last)
            }
        },
        None => None,
    }
}

/// The ASCII digit for `d`, a number below ten.
pub open spec fn digit_byte(d: nat) -> u8 {
    (DIGIT_ZERO + d) as u8
}

/// The digits of `n` in base ten, without leading zeros; `0` for zero.
pub open spec fn decimal_digits(n: nat) -> Seq<u8>
    decreases n,
{
    if n < 10 {
        seq![digit_byte(n)]
    } else {
        decimal_digits(n / 10).push(digit_byte(n % 10))
    }
}

/// A number of tenths as text with one fractional digit: 123 is `12.3`,
/// -5 is `-0.5`, 0 is `0.0`.
pub open spec fn tenths_text(t: int) -> Seq<u8> {
    let tenths = if t < 0 { -t } else { t };
    let body = decimal_digits((tenths / 10) as nat).push(POINT).push(
        digit_byte((tenths % 10) as nat),
    );
    if t < 0 {
        seq![MINUS] + body
    } else {
        body
    }
}

/// Whether the fixed-point text `s` is written the one way `tenths_text`
/// writes: no zero in front of another digit of the whole part, and no
/// sign on zero.
pub open spec fn is_plain(s: Seq<u8>) -> bool {
    &&& whole_part(s).len() == 1 || whole_part(s)[0] != DIGIT_ZERO
    &&& sign_len(s) == 1 ==> fixed_point_value(s) != 0
}

/// The digits of a number are digits, as many as the number needs, and
/// they denote the number.
pub proof fn lemma_decimal_digits(n: nat)
    ensures
        all_digits(decimal_digits(n)),
        decimal_value(decimal_digits(n)) == n,
        decimal_digits(n).len() >= 1,
        n < 10 ==> decimal_digits(n).len() == 1,
        10 <= n < 100 ==> decimal_digits(n).len() == 2,
        100 <= n < 1000 ==> decimal_digits(n).len() == 3,
        n >= 10 ==> decimal_digits(n)[0] != DIGIT_ZERO,
    decreases n,
{
    if n < 10 {
        assert(decimal_digits(n).drop_last() =~= Seq::<u8>::empty());
        assert(decimal_value(Seq::<u8>::empty()) == 0);
        assert(decimal_digits(n).last() == digit_byte(n));
    } else {
        lemma_decimal_digits(n / 10);
        let front = decimal_digits(n / 10);
        let all = decimal_digits(n);
        assert(all.drop_last() =~= front);
        assert(all.last() == digit_byte(n % 10));
        assert(all[0] == front[0]);
        if n / 10 < 10 {
            assert(front[0] == digit_byte(n / 10));
        }
    }
}

/// Digits without a zero in front denote a positive number.
proof fn lemma_decimal_value_positive(s: Seq<u8>)
    requires
        all_digits(s),
        s.len() >= 1,
        s[0] != DIGIT_ZERO,
    ensures
        decimal_value(s) >= 1,
    decreases s.len(),
{
    let front = s.drop_last();
    assert(is_digit(s.last()));
    if front.len() == 0 {
        assert(decimal_value(front) == 0);
        assert(s.last() == s[0]);
    } else {
        assert forall|i: int| 0 <= i < front.len() implies is_digit(#[trigger] front[i]) by {
            assert(front[i] == s[i]);
        }
        assert(front[0] == s[0]);
        lemma_decimal_value_positive(front);
    }
}

/// Digits without a needless zero in front are the digits of the number
/// they denote.
proof fn lemma_digits_of_value(s: Seq<u8>)
    requires
        all_digits(s),
        s.len() >= 1,
        s.len() == 1 || s[0] != DIGIT_ZERO,
    ensures
        decimal_digits(decimal_value(s)) == s,
    decreases s.len(),
{
    let front = s.drop_last();
    assert(is_digit(s.last()));
    if front.len() == 0 {
        assert(decimal_value(front) == 0);
        assert(decimal_digits(decimal_value(s)) =~= s);
    } else {
        assert forall|i: int| 0 <= i < front.len() implies is_digit(#[trigger] front[i]) by {
            assert(front[i] == s[i]);
        }
        assert(front[0] == s[0]);
        lemma_decimal_value_positive(front);
        lemma_digits_of_value(front);
        let v = decimal_value(s);
        assert(v / 10 == decimal_value(front));
        assert(v % 10 == s.last() - DIGIT_ZERO);
        assert(decimal_digits(v) =~= s);
    }
}

/// Writing a number of tenths and reading the text gives the number back.
pub proof fn law_text_reads_back(t: int)
    requires
        -9999 <= t <= 9999,
    ensures
        is_fixed_point(tenths_text(t)),
        is_plain(tenths_text(t)),
        fixed_point_value(tenths_text(t)) == t,
{
    let tenths = if t < 0 { -t } else { t };
    let whole = decimal_digits((tenths / 10) as nat);
    let text = tenths_text(t);
    lemma_decimal_digits((tenths / 10) as nat);
    assert(is_digit(whole[0]));
    if t < 0 {
        assert(text[0] == MINUS);
    } else {
        assert(text[0] == whole[0]);
    }
    assert(whole_part(text) =~= whole);
}

/// Reading a fixed-point text loses nothing of its value: the value, written
/// as text again, reads as the same number of tenths. This holds of every
/// text of the grammar, with or without zeros in front.
pub proof fn law_value_survives(s: Seq<u8>)
    requires
        is_fixed_point(s),
    ensures
        -9999 <= fixed_point_value(s) <= 9999,
        is_fixed_point(tenths_text(fixed_point_value(s))),
        fixed_point_value(tenths_text(fixed_point_value(s))) == fixed_point_value(s),
{
    lemma_decimal_value_bound(whole_part(s));
    law_text_reads_back(fixed_point_value(s));
}

/// A text that is written plainly comes back byte for byte when its value
/// is written as text again.
pub proof fn law_plain_text_survives(s: Seq<u8>)
    requires
        is_fixed_point(s),
        is_plain(s),
    ensures
        tenths_text(fixed_point_value(s)) == s,
{
    let whole = whole_part(s);
    lemma_decimal_value_bound(whole);
    lemma_digits_of_value(whole);
    let t = fixed_point_value(s);
    let tenths = if t < 0 { -t } else { t };
    assert(tenths / 10 == decimal_value(whole));
    assert(tenths_text(t) =~= s);
}

/// A `-` in front turns the value round: values are ordered as numbers
/// are, not as their texts are, so `-0.1` lies below `0.0` and `0.1` above.
pub proof fn law_minus_negates(s: Seq<u8>)
    requires
        is_fixed_point(s),
        s[0] == MINUS,
    ensures
        is_fixed_point(s.skip(1)),
        fixed_point_value(s) == -fixed_point_value(s.skip(1)),
        fixed_point_value(s) <= 0 <= fixed_point_value(s.skip(1)),
{
    let rest = s.skip(1);
    assert(is_digit(whole_part(s)[0]));
    assert(rest[0] == whole_part(s)[0]);
    assert(whole_part(rest) =~= whole_part(s));
}

/// Appends the digits of `n` to `out`.
fn push_decimal(out: &mut Vec<u8>, n: u16)
    ensures
        final(out)@ == old(out)@ + decimal_digits(n as nat),
    decreases n,
{
    if n >= 10 {
        push_decimal(out, n / 10);
    }
    out.push(DIGIT_ZERO + (n % 10) as u8);
    proof {
        assert(out@ =~= old(out)@ + decimal_digits(n as nat));
    }
}

/// Appends to `out` the number of tenths `t` as text with one fractional
/// digit.
pub fn push_tenths(out: &mut Vec<u8>, t: i16)
    ensures
        final(out)@ == old(out)@ + tenths_text(t as int),
{
    let tenths: u16 = if t < 0 {
        out.push(MINUS);
        (-(t as i32)) as u16
    } else {
        t as u16
    };
    push_decimal(out, tenths / 10);
    out.push(POINT);
    out.push(DIGIT_ZERO + (tenths % 10) as u8);
    proof {
        assert(out@ =~= old(out)@ + tenths_text(t as int));
    }
}

} // verus!
