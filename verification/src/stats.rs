//! Running statistics of one key: the smallest and largest value seen,
//! their sum and their number. Values are fixed-point: a reading of
//! `12.3` is held as the integer `123`.

use vstd::arithmetic::div_mod::{
    lemma_div_is_ordered,
    lemma_fundamental_div_mod,
    lemma_fundamental_div_mod_converse,
};
use vstd::arithmetic::mul::{
    lemma_mul_inequality,
    lemma_mul_is_commutative,
    lemma_mul_is_distributive_add,
};
use vstd::prelude::*;
use vstd::string::StringExecFns;
use crate::ascii::{DIGIT_NINE, DIGIT_ZERO, MINUS, POINT, SLASH};
use crate::decimal::{is_digit, lemma_decimal_digits, push_tenths, tenths_text};

verus! {

/// What a `Statistics` stands for: the minimum, maximum, sum and number
/// of the values observed so far.
pub struct Summary {
    pub min: int,
    pub max: int,
    pub sum: int,
    pub count: nat,
}

/// The most observations one `Statistics` can hold. With values of 16
/// bits, a sum of this many of them still fits in 64 bits.
pub const MAX_COUNT: u64 = 0x1_0000_0000_0000;

/// The running statistics of one key.
#[derive(Clone, Copy, Debug)]
pub struct Statistics {
    max: i16,
    min: i16,
    sum: i64,
    count: u64,
}

impl Summary {
    /// At least one value was observed, the minimum is not above the
    /// maximum, and the sum lies between `count` times the one and `count`
    /// times the other.
    pub open spec fn valid(self) -> bool {
        &&& self.count >= 1
        &&& self.min <= self.max
        &&& self.min * self.count <= self.sum <= self.max * self.count
    }
}

/// The smaller of two numbers.
pub open spec fn lesser(a: int, b: int) -> int {
    if a <= b {
        a
    } else {
        b
    }
}

/// The greater of two numbers.
pub open spec fn greater(a: int, b: int) -> int {
    if a >= b {
        a
    } else {
        b
    }
}

/// The summary of a single observation.
pub open spec fn single(v: int) -> Summary {
    Summary { min: v, max: v, sum: v, count: 1 }
}

/// The summary after one more observation.
pub open spec fn observe(s: Summary, v: int) -> Summary {
    Summary {
        min: lesser(s.min, v),
        max: greater(s.max, v),
        sum: s.sum + v,
        count: s.count + 1,
    }
}

/// The summary of two sets of observations taken together.
pub open spec fn combine(a: Summary, b: Summary) -> Summary {
    Summary {
        min: lesser(a.min, b.min),
        max: greater(a.max, b.max),
        sum: a.sum + b.sum,
        count: a.count + b.count,
    }
}

/// The mean of the observed values, rounded to the nearest integer; a mean
/// that lies halfway between two integers goes to the greater one.
pub open spec fn mean_tenths(s: Summary) -> int {
    (2 * s.sum + s.count) / (2 * s.count as int)
}

/// A summary as text: minimum, mean and maximum, each with one fractional
/// digit, with `/` between them.
pub open spec fn rendered(s: Summary) -> Seq<u8> {
    tenths_text(s.min) + seq![SLASH] + tenths_text(mean_tenths(s)) + seq![SLASH] + tenths_text(
        s.max,
    )
}

/// Bytes as the characters with the same codes.
pub open spec fn as_chars(bytes: Seq<u8>) -> Seq<char> {
    Seq::new(bytes.len(), |i: int| bytes[i] as char)
}

/// The sum of a valid summary lies between `count` times any number that
/// is not above its minimum and `count` times any number that is not below
/// its maximum.
pub proof fn lemma_sum_bounds(s: Summary, low: int, high: int)
    requires
        s.valid(),
        low <= s.min,
        s.max <= high,
    ensures
        low * s.count <= s.sum <= high * s.count,
{
    lemma_mul_inequality(low, s.min, s.count as int);
    lemma_mul_inequality(s.max, high, s.count as int);
}

/// Two valid summaries combine to a valid summary.
pub proof fn lemma_combine_valid(a: Summary, b: Summary)
    requires
        a.valid(),
        b.valid(),
    ensures
        combine(a, b).valid(),
{
    let both = combine(a, b);
    lemma_sum_bounds(a, both.min, both.max);
    lemma_sum_bounds(b, both.min, both.max);
    lemma_mul_is_distributive_add(both.min, a.count as int, b.count as int);
    lemma_mul_is_distributive_add(both.max, a.count as int, b.count as int);
}

/// A valid summary stays valid with one more observation.
pub proof fn lemma_observe_valid(s: Summary, v: int)
    requires
        s.valid(),
    ensures
        observe(s, v).valid(),
{
    assert(single(v).valid()) by {
        assert(v * 1 == v);
    }
    lemma_combine_valid(s, single(v));
    assert(observe(s, v) == combine(s, single(v)));
}

/// The mean of a valid summary lies between its minimum and its maximum.
pub proof fn lemma_mean_bounds(s: Summary)
    requires
        s.valid(),
    ensures
        s.min <= mean_tenths(s) <= s.max,
{
    let c = s.count as int;
    let d = 2 * c;
    assert(s.min * d == 2 * (s.min * c) && s.max * d == 2 * (s.max * c)) by (nonlinear_arith)
        requires
            d == 2 * c,
    ;
    lemma_fundamental_div_mod_converse(2 * (s.min * c) + c, d, s.min, c);
    lemma_fundamental_div_mod_converse(2 * (s.max * c) + c, d, s.max, c);
    lemma_div_is_ordered(2 * (s.min * c) + c, 2 * s.sum + c, d);
    lemma_div_is_ordered(2 * s.sum + c, 2 * (s.max * c) + c, d);
}

impl View for Statistics {
    type V = Summary;

    /// The summary that the statistics hold.
    closed spec fn view(&self) -> Summary {
        Summary {
            min: self.min as int,
            max: self.max as int,
            sum: self.sum as int,
            count: self.count as nat,
        }
    }
}

impl Statistics {
    /// The summary is valid, and `MAX_COUNT` is not passed.
    pub open spec fn wf(&self) -> bool {
        &&& self@.valid()
        &&& self@.count <= MAX_COUNT
    }

    /// The statistics of a key seen once, with value `val`.
    pub fn new(val: i16) -> (s: Self)
        ensures
            s.wf(),
            s@ == single(val as int),
    {
        Statistics { max: val, min: val, sum: val as i64, count: 1 }
    }

    /// Takes one more value into the statistics.
    pub fn add_val(&mut self, val: i16)
        requires
            old(self).wf(),
            old(self)@.count < MAX_COUNT,
        ensures
            final(self).wf(),
            final(self)@ == observe(old(self)@, val as int),
    {
        proof {
            lemma_observe_valid(self@, val as int);
            lemma_sum_bounds(self@, i16::MIN as int, i16::MAX as int);
        }
        if val > self.max {
            self.max = val;
        }
        if val < self.min {
            self.min = val;
        }
        self.sum = self.sum + val as i64;
        self.count = self.count + 1;
    }

    /// The smallest value observed.
    pub fn min(&self) -> (r: i16)
        ensures
            r == self@.min,
    {
        self.min
    }

    /// The largest value observed.
    pub fn max(&self) -> (r: i16)
        ensures
            r == self@.max,
    {
        self.max
    }

    /// The sum of the values observed.
    pub fn sum(&self) -> (r: i64)
        ensures
            r == self@.sum,
    {
        self.sum
    }

    /// The number of values observed.
    pub fn count(&self) -> (r: u64)
        ensures
            r == self@.count,
    {
        self.count
    }

    /// Takes the observations of `other` into the statistics.
    pub fn merge(&mut self, other: &Statistics)
        requires
            old(self).wf(),
            other.wf(),
            old(self)@.count + other@.count <= MAX_COUNT,
        ensures
            final(self).wf(),
            final(self)@ == combine(old(self)@, other@),
    {
        proof {
            lemma_combine_valid(self@, other@);
            lemma_sum_bounds(self@, i16::MIN as int, i16::MAX as int);
            lemma_sum_bounds(other@, i16::MIN as int, i16::MAX as int);
        }
        if other.max > self.max {
            self.max = other.max;
        }
        if other.min < self.min {
            self.min = other.min;
        }
        self.sum = self.sum + other.sum;
        self.count = self.count + other.count;
    }

    /// The mean of the observed values in tenths, rounded to the nearest
    /// tenth; a mean halfway between two tenths goes to the greater one.
    pub fn mean(&self) -> (m: i16)
        requires
            self.wf(),
        ensures
            m == mean_tenths(self@),
            self@.min <= m <= self@.max,
    {
        proof {
            lemma_mean_bounds(self@);
        }
        let count = self.count as u128;
        let twice = 2 * count;
        if self.sum >= 0 {
            let top = 2 * (self.sum as u128) + count;
            (top / twice) as i16
        } else {
            let below = (-(self.sum as i128)) as u128;
            let top = 2 * below + count - 1;
            let q = top / twice;
            proof {
                let d = twice as int;
                let whole = q as int;
                let r = top as int % d;
                lemma_fundamental_div_mod(top as int, d);
                lemma_mul_is_commutative(d, whole);
                assert((-whole) * d == -(whole * d)) by (nonlinear_arith);
                lemma_fundamental_div_mod_converse(
                    2 * self.sum as int + count as int,
                    d,
                    -whole,
                    d - 1 - r,
                );
            }
            (-(q as i32)) as i16
        }
    }

    /// Appends the statistics to `out`: minimum, mean and maximum, each with
    /// one fractional digit, with `/` between them.
    pub fn push_text(&self, out: &mut Vec<u8>)
        requires
            self.wf(),
        ensures
            final(out)@ == old(out)@ + rendered(self@),
    {
        push_tenths(out, self.min);
        out.push(SLASH);
        push_tenths(out, self.mean());
        out.push(SLASH);
        push_tenths(out, self.max);
        proof {
            assert(out@ =~= old(out)@ + rendered(self@));
        }
    }

    /// The statistics as text: minimum, mean and maximum, each with one
    /// fractional digit, with `/` between them.
    pub fn to_text(&self) -> (text: String)
        requires
            self.wf(),
        ensures
            text@ == as_chars(rendered(self@)),
    {
        let mut bytes: Vec<u8> = Vec::new();
        self.push_text(&mut bytes);
        proof {
            lemma_mean_bounds(self@);
            lemma_tenths_text_bytes(self@.min);
            lemma_tenths_text_bytes(mean_tenths(self@));
            lemma_tenths_text_bytes(self@.max);
            assert(bytes@ =~= rendered(self@));
        }
        let mut text = String::new();
        let mut i: usize = 0;
        while i < bytes.len()
            invariant
                0 <= i <= bytes.len(),
                forall|j: int| 0 <= j < bytes.len() ==> is_glyph(#[trigger] bytes@[j]),
                text@ == as_chars(bytes@.take(i as int)),
            decreases bytes.len() - i,
        {
            text.append(glyph(bytes[i]));
            i = i + 1;
            proof {
                assert(text@ =~= as_chars(bytes@.take(i as int)));
            }
        }
        proof {
            assert(bytes@.take(i as int) =~= bytes@);
        }
        text
    }
}

/// Whether `b` is one of the bytes that the text of statistics is made of:
/// a digit, `-`, `.` or `/`.
pub open spec fn is_glyph(b: u8) -> bool {
    DIGIT_ZERO <= b <= DIGIT_NINE || b == MINUS || b == POINT || b == SLASH
}

/// The text of a number of tenths is made of digits, `-` and `.`.
proof fn lemma_tenths_text_bytes(t: int)
    ensures
        forall|i: int| 0 <= i < tenths_text(t).len() ==> is_glyph(#[trigger] tenths_text(t)[i]),
{
    let tenths = if t < 0 { -t } else { t };
    let whole = crate::decimal::decimal_digits((tenths / 10) as nat);
    lemma_decimal_digits((tenths / 10) as nat);
    assert forall|i: int| 0 <= i < tenths_text(t).len() implies is_glyph(
        #[trigger] tenths_text(t)[i],
    ) by {
        let at = if t < 0 { i - 1 } else { i };
        if 0 <= at < whole.len() {
            assert(is_digit(whole[at]));
        }
    }
}

/// The byte `b` as a text of one character.
fn glyph(b: u8) -> (piece: &'static str)
    requires
        is_glyph(b),
    ensures
        piece@ == seq![b as char],
{
    proof {
        reveal_strlit("0");
        reveal_strlit("1");
        reveal_strlit("2");
        reveal_strlit("3");
        reveal_strlit("4");
        reveal_strlit("5");
        reveal_strlit("6");
        reveal_strlit("7");
        reveal_strlit("8");
        reveal_strlit("9");
        reveal_strlit("-");
        reveal_strlit(".");
        reveal_strlit("/");
    }
    let piece = match b {
        48 => "0",
        49 => "1",
        50 => "2",
        51 => "3",
        52 => "4",
        53 => "5",
        54 => "6",
        55 => "7",
        56 => "8",
        57 => "9",
        45 => "-",
        46 => ".",
        _ => "/",
    };
    proof {
        assert(piece@ =~= seq![b as char]);
    }
    piece
}

} // verus!
