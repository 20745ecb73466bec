//! Numbers as decimal text.

use vstd::prelude::*;
use vstd::string::*;
use crate::metric::{
    all_below_ten, all_metric, digit_value, digits_of, digits_value, dots_in, is_digit, is_metric,
    is_metric_char, metric_of, scale_of, significant, tail_len, Metric, MetricView,
};

verus! {

/// The character that writes the digit `d`.
pub open spec fn digit_char(d: u8) -> char {
    (d + 48) as char
}

/// The decimal text of `n`, without leading zeros.
pub open spec fn decimal_text(n: nat) -> Seq<char>
    decreases n,
{
    if n < 10 {
        seq![digit_char(n as u8)]
    } else {
        decimal_text(n / 10).push(digit_char((n % 10) as u8))
    }
}

/// The characters that write the digits `d`, one for one.
pub open spec fn digits_text(d: Seq<u8>) -> Seq<char> {
    d.map_values(|x: u8| digit_char(x))
}

/// `n` zeros.
pub open spec fn zeros(n: nat) -> Seq<char> {
    Seq::new(n, |i: int| '0')
}

/// The decimal text of a reading: its digits as they stand, with the point
/// before the last `scale` of them; where there are not more digits than
/// that, a zero stands before the point and zeros fill the gap behind it.
pub open spec fn metric_text(m: MetricView) -> Seq<char> {
    let len = m.digits.len();
    if m.scale == 0 {
        digits_text(m.digits)
    } else if m.scale < len {
        digits_text(m.digits.take(len - m.scale)) + seq!['.'] + digits_text(
            m.digits.skip(len - m.scale),
        )
    } else {
        seq!['0', '.'] + zeros((m.scale - len) as nat) + digits_text(m.digits)
    }
}

proof fn lemma_concat(a: Seq<char>, b: Seq<char>)
    ensures
        digits_of(a + b) == digits_of(a) + digits_of(b),
        dots_in(a + b) == dots_in(a) + dots_in(b),
        dots_in(b) == 0 ==> tail_len(a + b) == tail_len(a) + b.len(),
    decreases b.len(),
{
    if b.len() == 0 {
        assert(a + b =~= a);
        assert(digits_of(a) + digits_of(b) =~= digits_of(a));
    } else {
        assert((a + b).drop_last() =~= a + b.drop_last());
        assert((a + b).last() == b.last());
        lemma_concat(a, b.drop_last());
        if is_digit(b.last()) {
            assert(digits_of(a + b) =~= digits_of(a) + digits_of(b));
        }
    }
}

proof fn lemma_digits_text(d: Seq<u8>)
    requires
        all_below_ten(d),
    ensures
        all_metric(digits_text(d)),
        digits_of(digits_text(d)) == d,
        dots_in(digits_text(d)) == 0,
    decreases d.len(),
{
    let t = digits_text(d);
    if d.len() == 0 {
        assert(digits_of(t) =~= d);
    } else {
        assert(t.drop_last() =~= digits_text(d.drop_last()));
        lemma_digits_text(d.drop_last());
        assert(d.last() < 10);
        assert(is_digit(t.last()));
        assert(digit_value(t.last()) == d.last());
        assert(digits_of(t) =~= d);
        assert forall|i: int| 0 <= i < t.len() implies is_metric_char(#[trigger] t[i]) by {
            if i < t.len() - 1 {
                assert(t[i] == t.drop_last()[i]);
            }
        }
    }
}

proof fn lemma_point_text(a: Seq<u8>, b: Seq<u8>)
    requires
        all_below_ten(a),
        all_below_ten(b),
    ensures
        all_metric(digits_text(a) + seq!['.'] + digits_text(b)),
        digits_of(digits_text(a) + seq!['.'] + digits_text(b)) == a + b,
        dots_in(digits_text(a) + seq!['.'] + digits_text(b)) == 1,
        tail_len(digits_text(a) + seq!['.'] + digits_text(b)) == b.len(),
{
    let head = digits_text(a) + seq!['.'];
    lemma_digits_text(a);
    lemma_digits_text(b);
    assert(head.drop_last() =~= digits_text(a));
    assert(head.last() == '.');
    assert(!is_digit('.'));
    lemma_concat(head, digits_text(b));
    assert(digits_of(head) + digits_of(digits_text(b)) =~= a + b);
}

proof fn lemma_leading_zeros(z: Seq<u8>, d: Seq<u8>)
    requires
        forall|i: int| 0 <= i < z.len() ==> #[trigger] z[i] == 0,
    ensures
        digits_value(z + d) == digits_value(d),
    decreases d.len(), z.len(),
{
    if d.len() > 0 {
        assert((z + d).drop_last() =~= z + d.drop_last());
        lemma_leading_zeros(z, d.drop_last());
    } else if z.len() > 0 {
        assert(z + d =~= z);
        assert(z.drop_last() + d =~= z.drop_last());
        lemma_leading_zeros(z.drop_last(), d);
    } else {
        assert(z + d =~= d);
    }
}

proof fn lemma_significant_all(t: Seq<char>)
    requires
        all_metric(t),
    ensures
        significant(t) == t,
    decreases t.len(),
{
    reveal(Seq::filter);
    if t.len() > 0 {
        lemma_significant_all(t.drop_last());
        assert(t.drop_last().push(t.last()) =~= t);
    }
}

proof fn lemma_reads_back_whole(m: MetricView)
    requires
        m.digits.len() >= 1,
        all_below_ten(m.digits),
        m.scale == 0,
    ensures
        is_metric(metric_text(m)),
        metric_of(metric_text(m)) == m,
{
    let t = metric_text(m);
    assert(t == digits_text(m.digits));
    lemma_digits_text(m.digits);
    lemma_significant_all(t);
}

proof fn lemma_reads_back_split(m: MetricView)
    requires
        all_below_ten(m.digits),
        0 < m.scale < m.digits.len(),
    ensures
        is_metric(metric_text(m)),
        metric_of(metric_text(m)) == m,
{
    let len = m.digits.len();
    let t = metric_text(m);
    let a = m.digits.take(len - m.scale);
    let b = m.digits.skip(len - m.scale);
    assert(t == digits_text(a) + seq!['.'] + digits_text(b));
    lemma_point_text(a, b);
    assert(a + b =~= m.digits);
    assert(b.len() == m.scale);
    lemma_significant_all(t);
}

/// `n` digits zero.
pub open spec fn zero_digits(n: nat) -> Seq<u8> {
    Seq::new(n, |i: int| 0u8)
}

proof fn lemma_padded_shape(m: MetricView)
    requires
        m.scale >= m.digits.len(),
        m.scale > 0,
    ensures
        metric_text(m) == digits_text(seq![0u8]) + seq!['.'] + digits_text(
            zero_digits((m.scale - m.digits.len()) as nat) + m.digits,
        ),
{
    let n = (m.scale - m.digits.len()) as nat;
    let left = seq!['0', '.'] + zeros(n) + digits_text(m.digits);
    let right = digits_text(seq![0u8]) + seq!['.'] + digits_text(zero_digits(n) + m.digits);
    assert(left.len() == right.len());
    assert forall|i: int| 0 <= i < left.len() implies left[i] == right[i] by {
        if i >= 2 {
            assert(right[i] == digits_text(zero_digits(n) + m.digits)[i - 2]);
        }
    }
    assert(left =~= right);
}

proof fn lemma_reads_back_padded(m: MetricView)
    requires
        m.digits.len() >= 1,
        all_below_ten(m.digits),
        m.scale >= m.digits.len(),
    ensures
        is_metric(metric_text(m)),
        metric_of(metric_text(m)).scale == m.scale,
        metric_of(metric_text(m)).mantissa() == m.mantissa(),
{
    let t = metric_text(m);
    let gap = zero_digits((m.scale - m.digits.len()) as nat);
    let a = seq![0u8];
    let b = gap + m.digits;
    lemma_padded_shape(m);
    lemma_point_text(a, b);
    lemma_significant_all(t);
    assert(digits_of(t) == a + b);
    assert(a + b =~= (a + gap) + m.digits);
    lemma_leading_zeros(a + gap, m.digits);
}

/// The text of a well-formed reading reads back as the same number: it
/// holds a reading with the same scale and the same digits, but for the
/// zeros that the text puts in front where the point would stand first.
pub proof fn lemma_text_reads_back(m: MetricView)
    requires
        m.wf(),
    ensures
        is_metric(metric_text(m)),
        metric_of(metric_text(m)).scale == m.scale,
        metric_of(metric_text(m)).mantissa() == m.mantissa(),
        m.scale < m.digits.len() ==> metric_of(metric_text(m)) == m,
{
    if m.scale == 0 {
        lemma_reads_back_whole(m);
    } else if m.scale < m.digits.len() {
        lemma_reads_back_split(m);
    } else {
        lemma_reads_back_padded(m);
    }
}

fn digit_str(d: u8) -> (r: &'static str)
    requires
        d < 10,
    ensures
        r@ == seq![digit_char(d)],
{
    proof {
        reveal_strlit("0");
        reveal_strlit("1");
        reveal_strlit("2");
        reveal_strlit("3");
        reveal_strlit("4");
        reveal_strlit("5");
        reveal_strlit("6");
        reveal_strlit("7");
        reveal_strlit("8");
        reveal_strlit("9");
    }
    let r = match d {
        0 => "0",
        1 => "1",
        2 => "2",
        3 => "3",
        4 => "4",
        5 => "5",
        6 => "6",
        7 => "7",
        8 => "8",
        _ => "9",
    };
    assert(r@ =~= seq![digit_char(d)]);
    r
}

/// Writes `n` in decimal.
pub fn usize_text(n: usize) -> (r: String)
    ensures
        r@ == decimal_text(n as nat),
    decreases n,
{
    if n < 10 {
        digit_str(n as u8).to_owned()
    } else {
        let mut s = usize_text(n / 10);
        s.append(digit_str((n % 10) as u8));
        assert(s@ =~= decimal_text(n as nat));
        s
    }
}

fn append_digits(s: &mut String, digits: &Vec<u8>, from: usize, to: usize)
    requires
        from <= to <= digits@.len(),
        forall|i: int| 0 <= i < digits@.len() ==> #[trigger] digits@[i] < 10,
    ensures
        final(s)@ == old(s)@ + digits_text(digits@.subrange(from as int, to as int)),
{
    let mut i: usize = from;
    assert(digits_text(digits@.subrange(from as int, from as int)) =~= Seq::empty());
    assert(s@ + Seq::<char>::empty() =~= s@);
    while i < to
        invariant
            from <= i <= to <= digits@.len(),
            forall|k: int| 0 <= k < digits@.len() ==> #[trigger] digits@[k] < 10,
            s@ == old(s)@ + digits_text(digits@.subrange(from as int, i as int)),
        decreases to - i,
    {
        let ghost before = s@;
        s.append(digit_str(digits[i]));
        assert(s@ =~= old(s)@ + digits_text(digits@.subrange(from as int, i + 1))) by {
            assert(digits_text(digits@.subrange(from as int, i + 1)) =~= digits_text(
                digits@.subrange(from as int, i as int),
            ).push(digit_char(digits@[i as int])));
        }
        i = i + 1;
    }
}

impl Metric {
    /// Writes the reading as decimal text.
    pub fn text(&self) -> (r: String)
        requires
            self.wf(),
        ensures
            r@ == metric_text(self@),
    {
        let len: usize = self.digits.len();
        let mut s = String::new();
        if self.scale == 0 {
            append_digits(&mut s, &self.digits, 0, len);
            assert(self.digits@.subrange(0, len as int) =~= self.digits@);
            assert(s@ =~= metric_text(self@));
        } else if self.scale < len as u128 {
            let split: usize = len - self.scale as usize;
            append_digits(&mut s, &self.digits, 0, split);
            s.append(".");
            append_digits(&mut s, &self.digits, split, len);
            proof {
                reveal_strlit(".");
                assert("."@ =~= seq!['.']);
                assert(self.digits@.subrange(0, split as int) =~= self.digits@.take(split as int));
                assert(self.digits@.subrange(split as int, len as int) =~= self.digits@.skip(
                    split as int,
                ));
                assert(s@ =~= metric_text(self@));
            }
        } else {
            s.append("0.");
            proof {
                reveal_strlit("0.");
                reveal_strlit("0");
                assert(s@ =~= seq!['0', '.'] + zeros(0));
            }
            let gap: u128 = self.scale - len as u128;
            let mut k: u128 = 0;
            while k < gap
                invariant
                    k <= gap,
                    s@ == seq!['0', '.'] + zeros(k as nat),
                decreases gap - k,
            {
                s.append("0");
                proof {
                    reveal_strlit("0");
                    assert(s@ =~= seq!['0', '.'] + zeros((k + 1) as nat));
                }
                k = k + 1;
            }
            append_digits(&mut s, &self.digits, 0, len);
            assert(self.digits@.subrange(0, len as int) =~= self.digits@);
        }
        s
    }
}

} // verus!
