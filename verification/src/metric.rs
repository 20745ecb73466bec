//! Readings with units ("1234 MiB", "45 %") as exact decimal numbers.

use vstd::prelude::*;
use vstd::string::*;

verus! {

/// An ASCII decimal digit.
pub open spec fn is_digit(c: char) -> bool {
    '0' <= c && c <= '9'
}

/// The characters of a reading that carry its value: digits and the point.
pub open spec fn is_metric_char(c: char) -> bool {
    is_digit(c) || c == '.'
}

/// What is left of `s` once every character without value is removed.
pub open spec fn significant(s: Seq<char>) -> Seq<char> {
    s.filter(|c: char| is_metric_char(c))
}

/// Every character of `t` is a digit or a point.
pub open spec fn all_metric(t: Seq<char>) -> bool {
    forall|i: int| 0 <= i < t.len() ==> is_metric_char(#[trigger] t[i])
}

/// The number that a digit character stands for.
pub open spec fn digit_value(c: char) -> u8 {
    (c as u8 - 48) as u8
}

/// The digits of `t` from left to right, points left out.
pub open spec fn digits_of(t: Seq<char>) -> Seq<u8>
    decreases t.len(),
{
    if t.len() == 0 {
        Seq::empty()
    } else if is_digit(t.last()) {
        digits_of(t.drop_last()).push(digit_value(t.last()))
    } else {
        digits_of(t.drop_last())
    }
}

/// How many points `t` holds.
pub open spec fn dots_in(t: Seq<char>) -> nat
    decreases t.len(),
{
    if t.len() == 0 {
        0
    } else if t.last() == '.' {
        dots_in(t.drop_last()) + 1
    } else {
        dots_in(t.drop_last())
    }
}

/// How many characters follow the last point of `t` (all of them where
/// there is no point).
pub open spec fn tail_len(t: Seq<char>) -> nat
    decreases t.len(),
{
    if t.len() == 0 || t.last() == '.' {
        0
    } else {
        tail_len(t.drop_last()) + 1
    }
}

/// How many digits follow the last point of `s` (all of them where there
/// is no point), whatever stands between them.
pub open spec fn tail_digits(s: Seq<char>) -> nat
    decreases s.len(),
{
    if s.len() == 0 || s.last() == '.' {
        0
    } else if is_digit(s.last()) {
        tail_digits(s.drop_last()) + 1
    } else {
        tail_digits(s.drop_last())
    }
}

/// The number of fractional digits of the decimal text `t`.
pub open spec fn scale_of(t: Seq<char>) -> nat {
    if dots_in(t) == 0 {
        0
    } else {
        tail_len(t)
    }
}

/// `t` is a decimal number: digits with at most one point, and at least
/// one digit ("12", "12.", ".5", "1.5"; not "", ".", "1.2.3").
pub open spec fn is_decimal(t: Seq<char>) -> bool {
    all_metric(t) && dots_in(t) <= 1 && digits_of(t).len() >= 1
}

/// The natural number written by the digits `d`, most significant first.
pub open spec fn digits_value(d: Seq<u8>) -> nat
    decreases d.len(),
{
    if d.len() == 0 {
        0
    } else {
        digits_value(d.drop_last()) * 10 + d.last() as nat
    }
}

/// Ten to the power `n`.
pub open spec fn pow10(n: nat) -> nat
    decreases n,
{
    if n == 0 {
        1
    } else {
        10 * pow10((n - 1) as nat)
    }
}

/// Every digit of `d` is below ten.
pub open spec fn all_below_ten(d: Seq<u8>) -> bool {
    forall|i: int| 0 <= i < d.len() ==> #[trigger] d[i] < 10
}

/// The mathematical content of a [`Metric`]: the number
/// `digits_value(digits) / 10^scale`.
pub struct MetricView {
    pub digits: Seq<u8>,
    pub scale: nat,
}

impl MetricView {
    /// There is at least one digit, and each digit is below ten.
    pub open spec fn wf(self) -> bool {
        self.digits.len() >= 1 && all_below_ten(self.digits)
    }

    /// The digits read as one natural number.
    pub open spec fn mantissa(self) -> nat {
        digits_value(self.digits)
    }

    /// The same number divided by one hundred.
    pub open spec fn per_hundred(self) -> MetricView {
        MetricView { digits: self.digits, scale: self.scale + 2 }
    }

    /// The same number multiplied by one hundred.
    pub open spec fn hundredfold(self) -> MetricView {
        if self.scale >= 2 {
            MetricView { digits: self.digits, scale: (self.scale - 2) as nat }
        } else if self.scale == 1 {
            MetricView { digits: self.digits.push(0), scale: 0 }
        } else {
            MetricView { digits: self.digits.push(0).push(0), scale: 0 }
        }
    }

    /// `self` is `n` times `other`.
    pub open spec fn is_multiple(self, n: nat, other: MetricView) -> bool {
        self.mantissa() * pow10(other.scale) == n * other.mantissa() * pow10(self.scale)
    }
}

/// An exact decimal reading: the digits, most significant first, and the
/// number of them that stand right of the point.
#[derive(Debug, Clone, PartialEq, Eq)]
pub struct Metric {
    pub digits: Vec<u8>,
    pub scale: u128,
}

impl View for Metric {
    type V = MetricView;

    open spec fn view(&self) -> MetricView {
        MetricView { digits: self.digits@, scale: self.scale as nat }
    }
}

/// The text held no decimal number once its units were removed.
#[derive(Debug, Clone, Copy, PartialEq, Eq)]
pub struct NotANumber;

impl Metric {
    /// There is at least one digit, and each digit is below ten.
    pub open spec fn wf(&self) -> bool {
        self@.wf()
    }

    /// Tells whether the reading is well formed.
    pub fn is_valid(&self) -> (b: bool)
        ensures
            b == self.wf(),
    {
        let n: usize = self.digits.len();
        if n == 0 {
            return false;
        }
        let mut i: usize = 0;
        while i < n
            invariant
                i <= n,
                n == self.digits@.len(),
                forall|k: int| 0 <= k < i ==> #[trigger] self.digits@[k] < 10,
            decreases n - i,
        {
            if self.digits[i] >= 10 {
                return false;
            }
            i = i + 1;
        }
        true
    }

    /// Divides the reading by one hundred, exactly: a percentage becomes a
    /// ratio.
    pub fn per_hundred(self) -> (r: Metric)
        requires
            self.scale + 2 <= u128::MAX,
        ensures
            r@ == self@.per_hundred(),
            self.wf() ==> r.wf(),
    {
        Metric { digits: self.digits, scale: self.scale + 2 }
    }

    /// Multiplies the reading by one hundred, exactly: a ratio becomes a
    /// percentage.
    pub fn hundredfold(&self) -> (r: Metric)
        ensures
            r@ == self@.hundredfold(),
            self.wf() ==> r.wf(),
    {
        let mut digits = self.digits.clone();
        if self.scale >= 2 {
            Metric { digits, scale: self.scale - 2 }
        } else if self.scale == 1 {
            digits.push(0);
            Metric { digits, scale: 0 }
        } else {
            digits.push(0);
            digits.push(0);
            Metric { digits, scale: 0 }
        }
    }
}

/// A percentage of at most one hundred becomes a ratio of at most one.
pub proof fn lemma_ratio_range(m: MetricView)
    requires
        m.mantissa() <= 100 * pow10(m.scale),
    ensures
        m.per_hundred().mantissa() <= pow10(m.per_hundred().scale),
{
    assert(pow10(m.scale + 2) == 100 * pow10(m.scale)) by {
        reveal_with_fuel(pow10, 3);
    }
}

/// Multiplying by one hundred undoes dividing by one hundred.
pub proof fn lemma_hundredfold_inverts(m: MetricView)
    ensures
        m.per_hundred().hundredfold() == m,
{
}

/// Multiplying by one hundred yields the hundredfold of the number.
pub proof fn lemma_hundredfold(m: MetricView)
    ensures
        m.hundredfold().is_multiple(100, m),
{
    let h = m.hundredfold();
    reveal_with_fuel(pow10, 3);
    if m.scale >= 2 {
        assert(pow10(m.scale) == 100 * pow10((m.scale - 2) as nat));
        assert(m.mantissa() * (100 * pow10(h.scale)) == 100 * m.mantissa() * pow10(h.scale))
            by (nonlinear_arith);
    } else if m.scale == 1 {
        assert(m.digits.push(0).drop_last() =~= m.digits);
        assert(h.mantissa() == m.mantissa() * 10);
        assert(m.mantissa() * 10 * 10 == 100 * m.mantissa() * 1) by (nonlinear_arith);
    } else {
        assert(m.digits.push(0).drop_last() =~= m.digits);
        assert(m.digits.push(0).push(0).drop_last() =~= m.digits.push(0));
        assert(digits_value(m.digits.push(0)) == m.mantissa() * 10);
        assert(h.mantissa() == digits_value(m.digits.push(0)) * 10);
        assert(m.mantissa() * 10 * 10 * 1 == 100 * m.mantissa() * 1) by (nonlinear_arith);
    }
}

/// Dividing by one hundred yields a number whose hundredfold is the number
/// that was divided.
pub proof fn lemma_per_hundred(m: MetricView)
    ensures
        m.is_multiple(100, m.per_hundred()),
{
    let s = m.scale;
    assert(pow10(s + 2) == 100 * pow10(s)) by {
        reveal_with_fuel(pow10, 3);
    }
    assert(m.mantissa() * (100 * pow10(s)) == 100 * m.mantissa() * pow10(s))
        by (nonlinear_arith);
}

/// Removing the characters without value changes neither the digits of a
/// text nor the number of its points: the digits of a reading are the
/// digits of the text it was read from, in their order.
pub proof fn lemma_significant_keeps(s: Seq<char>)
    ensures
        all_metric(significant(s)),
        digits_of(significant(s)) == digits_of(s),
        dots_in(significant(s)) == dots_in(s),
        tail_len(significant(s)) == tail_digits(s),
    decreases s.len(),
{
    reveal(Seq::filter);
    let keep = |c: char| is_metric_char(c);
    if s.len() > 0 {
        lemma_significant_keeps(s.drop_last());
        let front = s.drop_last().filter(keep);
        if is_metric_char(s.last()) {
            assert(significant(s) == front.push(s.last()));
            assert(front.push(s.last()).drop_last() =~= front);
        } else {
            assert(significant(s) == front);
        }
    }
}

/// A text holds a reading if and only if it holds at least one digit and at
/// most one point, whatever else it holds.
pub proof fn lemma_reading_exists(s: Seq<char>)
    ensures
        is_decimal(significant(s)) <==> dots_in(s) <= 1 && digits_of(s).len() >= 1,
{
    lemma_significant_keeps(s);
}

/// Calls `regex::Regex::new` on `pattern` and `regex::Regex::replace_all` on
/// `text` with `replacement`. For the pattern of one or more characters that
/// are neither a digit nor a point, replaced by nothing, what is left is
/// `text` without those characters: every maximal run of them is one match.
#[verifier::external_body]
fn replace_all(pattern: &str, text: &str, replacement: &str) -> (r: String)
    requires
        pattern@ == "[^0-9.]+"@,
        replacement@ == ""@,
    ensures
        r@ == significant(text@),
{
    regex::Regex::new(pattern).unwrap().replace_all(text, replacement).into_owned()
}

proof fn lemma_take_step(t: Seq<char>, i: int)
    requires
        0 <= i < t.len(),
    ensures
        t.take(i + 1).drop_last() == t.take(i),
        t.take(i + 1).last() == t[i],
        t.take(i + 1).len() == i + 1,
{
    assert(t.take(i + 1).drop_last() =~= t.take(i));
}

/// Reads a decimal number from text that holds nothing but the number.
pub fn parse_decimal(t: &str) -> (r: Result<Metric, NotANumber>)
    ensures
        r is Ok <==> is_decimal(t@),
        r matches Ok(m) ==> m.wf() && m.digits@ == digits_of(t@) && m.scale as nat == scale_of(
            t@,
        ) && m.scale <= usize::MAX,
{
    if !t.is_ascii() {
        assert(!all_metric(t@)) by {
            if all_metric(t@) {
                assert forall|i: int| 0 <= i < t@.len() implies '\0' <= #[trigger] t@[i]
                    <= '\u{7f}' by {
                    assert(is_metric_char(t@[i]));
                }
            }
        }
        return Err(NotANumber);
    }
    let n: usize = t.unicode_len();
    let mut digits: Vec<u8> = Vec::new();
    let mut dots: usize = 0;
    let mut tail: usize = 0;
    let mut i: usize = 0;
    while i < n
        invariant
            i <= n,
            n == t@.len(),
            is_ascii(t),
            all_metric(t@.take(i as int)),
            digits@ == digits_of(t@.take(i as int)),
            dots == dots_in(t@.take(i as int)),
            tail == tail_len(t@.take(i as int)),
            dots <= i,
            tail <= i,
            forall|k: int| 0 <= k < digits@.len() ==> #[trigger] digits@[k] < 10,
        decreases n - i,
    {
        let b: u8 = t.get_ascii(i);
        proof {
            lemma_take_step(t@, i as int);
            assert('\0' <= t@[i as int] <= '\u{7f}');
        }
        if b == 46 {
            assert(t@[i as int] == '.');
            dots = dots + 1;
            tail = 0;
        } else if 48 <= b && b <= 57 {
            assert(is_digit(t@[i as int]));
            digits.push(b - 48);
            tail = tail + 1;
        } else {
            assert(!is_metric_char(t@[i as int]));
            return Err(NotANumber);
        }
        i = i + 1;
    }
    assert(t@.take(n as int) =~= t@);
    if dots > 1 || digits.len() == 0 {
        Err(NotANumber)
    } else if dots == 0 {
        Ok(Metric { digits, scale: 0 })
    } else {
        Ok(Metric { digits, scale: tail as u128 })
    }
}

/// The reading that the text `s` holds, units removed.
pub open spec fn metric_of(s: Seq<char>) -> MetricView {
    MetricView { digits: digits_of(significant(s)), scale: scale_of(significant(s)) }
}

/// `s` holds a reading: what is left of it without its units is a decimal
/// number.
pub open spec fn is_metric(s: Seq<char>) -> bool {
    is_decimal(significant(s))
}

/// Reads the number embedded in a reading with units: the characters that
/// are neither digit nor point are removed, and the rest is read as a
/// decimal number. The digits of the number are the digits of `s`.
pub fn string_to_metric(s: &str) -> (r: Result<Metric, NotANumber>)
    ensures
        r is Ok <==> is_metric(s@),
        r is Ok <==> dots_in(s@) <= 1 && digits_of(s@).len() >= 1,
        r matches Ok(m) ==> m.wf() && m@ == metric_of(s@) && m.scale <= usize::MAX,
        r matches Ok(m) ==> m.digits@ == digits_of(s@) && m.scale == (if dots_in(s@) == 0 {
            0
        } else {
            tail_digits(s@)
        }),
{
    let cleaned = replace_all("[^0-9.]+", s, "");
    proof {
        lemma_significant_keeps(s@);
    }
    parse_decimal(cleaned.as_str())
}

} // verus!
