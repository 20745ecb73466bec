//! Readings rounded to two decimals, for display.

use vstd::prelude::*;
use vstd::arithmetic::div_mod::lemma_fundamental_div_mod_converse;
use crate::metric::{all_below_ten, digits_value, pow10, Metric, MetricView};
use crate::text::zero_digits;

verus! {

/// The digits of the number that is one above the number `d` writes.
pub open spec fn incremented(d: Seq<u8>) -> Seq<u8>
    decreases d.len(),
{
    if d.len() == 0 {
        seq![1u8]
    } else if d.last() < 9 {
        d.drop_last().push((d.last() + 1) as u8)
    } else {
        incremented(d.drop_last()).push(0u8)
    }
}

/// Cutting `d` before position `split` rounds away from zero: what is cut
/// is more than half a unit of the last digit kept, or it is exactly half
/// and the last digit kept is odd. A tie goes to the even neighbour.
pub open spec fn rounds_up(d: Seq<u8>, split: int) -> bool {
    d[split] > 5 || (d[split] == 5 && ((exists|j: int| split < j < d.len() && d[j] != 0) || (split
        > 0 && d[split - 1] % 2 == 1)))
}

/// The digits of the number `d` writes, divided by ten to the power `k`
/// and rounded to the nearest whole number, a tie to the even one.
pub open spec fn cut_round(d: Seq<u8>, k: nat) -> Seq<u8> {
    if k == 0 {
        d
    } else if k > d.len() {
        seq![0u8]
    } else {
        let split = d.len() - k;
        if rounds_up(d, split) {
            incremented(d.take(split))
        } else if split == 0 {
            seq![0u8]
        } else {
            d.take(split)
        }
    }
}

/// `d` without zeros in front, as long as more than `keep` digits are left.
pub open spec fn strip_zeros(d: Seq<u8>, keep: nat) -> Seq<u8>
    decreases d.len(),
{
    if d.len() > keep && d[0] == 0 {
        strip_zeros(d.drop_first(), keep)
    } else {
        d
    }
}

/// The reading `m` times ten to the power `shift`, rounded to two decimals,
/// a tie to the even neighbour, and written without needless zeros in
/// front.
pub open spec fn two_places(m: MetricView, shift: int) -> MetricView {
    let k = m.scale - shift - 2;
    let d = if k <= 0 {
        m.digits + zero_digits((-k) as nat)
    } else {
        cut_round(m.digits, k as nat)
    };
    MetricView { digits: strip_zeros(d, 3), scale: 2 }
}

/// Incrementing the digits adds one to the number they write.
pub proof fn lemma_incremented(d: Seq<u8>)
    requires
        all_below_ten(d),
    ensures
        all_below_ten(incremented(d)),
        incremented(d).len() >= 1,
        digits_value(incremented(d)) == digits_value(d) + 1,
    decreases d.len(),
{
    if d.len() == 0 {
        let r = seq![1u8];
        assert(r.drop_last() =~= Seq::<u8>::empty());
        assert(digits_value(r.drop_last()) == 0);
        assert(r.last() == 1);
        assert(digits_value(r) == 1);
    } else if d.last() < 9 {
        let r = d.drop_last().push((d.last() + 1) as u8);
        assert(r.drop_last() =~= d.drop_last());
        assert(r.last() == d.last() + 1);
        assert(digits_value(r) == digits_value(d.drop_last()) * 10 + (d.last() + 1));
    } else {
        lemma_incremented(d.drop_last());
        let r = incremented(d.drop_last()).push(0u8);
        assert(r.drop_last() =~= incremented(d.drop_last()));
        assert(d.last() == 9);
        assert(r.last() == 0);
        assert(digits_value(r) == digits_value(incremented(d.drop_last())) * 10 + 0);
    }
}

/// Zeros in front add nothing to the number that the digits write.
pub proof fn lemma_strip_zeros(d: Seq<u8>, keep: nat)
    requires
        all_below_ten(d),
        d.len() >= 1,
        keep >= 1,
    ensures
        all_below_ten(strip_zeros(d, keep)),
        strip_zeros(d, keep).len() >= 1,
        digits_value(strip_zeros(d, keep)) == digits_value(d),
    decreases d.len(),
{
    if d.len() > keep && d[0] == 0 {
        lemma_strip_zeros(d.drop_first(), keep);
        lemma_zero_in_front(d);
    }
}

proof fn lemma_zero_in_front(d: Seq<u8>)
    requires
        d.len() >= 1,
        d[0] == 0,
    ensures
        digits_value(d) == digits_value(d.drop_first()),
    decreases d.len(),
{
    if d.len() == 1 {
        assert(d.drop_last() =~= Seq::<u8>::empty());
        assert(d.drop_first() =~= Seq::<u8>::empty());
    } else {
        lemma_zero_in_front(d.drop_last());
        assert(d.drop_last().drop_first() =~= d.drop_first().drop_last());
    }
}

/// `v` divided by `p` and rounded to the nearest whole number, a tie to
/// the even one.
pub open spec fn nearest_even(v: nat, p: nat) -> nat {
    let q = v / p;
    let r = v % p;
    if 2 * r > p || (2 * r == p && q % 2 == 1) {
        q + 1
    } else {
        q
    }
}

proof fn lemma_pow10_grows(a: nat, b: nat)
    requires
        a <= b,
    ensures
        1 <= pow10(a) <= pow10(b),
    decreases b,
{
    if a < b {
        lemma_pow10_grows(a, (b - 1) as nat);
    } else if a > 0 {
        lemma_pow10_grows((a - 1) as nat, (b - 1) as nat);
    }
}

proof fn lemma_value_bound(d: Seq<u8>)
    requires
        all_below_ten(d),
    ensures
        digits_value(d) < pow10(d.len()),
    decreases d.len(),
{
    if d.len() > 0 {
        lemma_value_bound(d.drop_last());
        assert(d.last() < 10);
    }
}

proof fn lemma_value_split(d: Seq<u8>, split: int)
    requires
        0 <= split <= d.len(),
    ensures
        digits_value(d) == digits_value(d.take(split)) * pow10((d.len() - split) as nat)
            + digits_value(d.skip(split)),
    decreases d.len(),
{
    if split == d.len() {
        assert(d.take(split) =~= d);
        assert(d.skip(split) =~= Seq::<u8>::empty());
        assert(pow10(0) == 1);
        assert(digits_value(d.skip(split)) == 0);
        assert(digits_value(d) * 1 + 0 == digits_value(d));
    } else {
        let front = d.drop_last();
        lemma_value_split(front, split);
        assert(front.take(split) =~= d.take(split));
        assert(front.skip(split) =~= d.skip(split).drop_last());
        assert(d.skip(split).last() == d.last());
        let a = digits_value(d.take(split));
        let p = pow10((d.len() - 1 - split) as nat);
        let b = digits_value(front.skip(split));
        let last = d.last() as nat;
        assert(pow10((d.len() - split) as nat) == 10 * p);
        assert(digits_value(d.skip(split)) == b * 10 + last);
        assert(digits_value(d) == (a * p + b) * 10 + last);
        assert((a * p + b) * 10 + last == a * (10 * p) + (b * 10 + last)) by (nonlinear_arith);
    }
}

proof fn lemma_value_zero(d: Seq<u8>)
    ensures
        digits_value(d) == 0 <==> forall|i: int| 0 <= i < d.len() ==> #[trigger] d[i] == 0,
    decreases d.len(),
{
    if d.len() > 0 {
        let front = d.drop_last();
        lemma_value_zero(front);
        if digits_value(d) == 0 {
            assert forall|i: int| 0 <= i < d.len() implies #[trigger] d[i] == 0 by {
                if i < d.len() - 1 {
                    assert(front[i] == d[i]);
                }
            }
        }
        if forall|i: int| 0 <= i < d.len() ==> #[trigger] d[i] == 0 {
            assert forall|i: int| 0 <= i < front.len() implies #[trigger] front[i] == 0 by {
                assert(front[i] == d[i]);
            }
            assert(d.last() == d[d.len() - 1]);
        }
    }
}

proof fn lemma_half(c: nat, p: nat, t: nat)
    requires
        c <= 9,
        t < p,
    ensures
        c > 5 ==> 2 * (c * p + t) > 10 * p,
        c < 5 ==> 2 * (c * p + t) < 10 * p,
        c == 5 ==> 2 * (c * p + t) == 10 * p + 2 * t,
        c * p + t < 10 * p,
{
    assert(c >= 6 ==> c * p >= 6 * p) by (nonlinear_arith);
    assert(c <= 4 ==> c * p <= 4 * p) by (nonlinear_arith);
    assert(c <= 9 ==> c * p <= 9 * p) by (nonlinear_arith);
    assert(c == 5 ==> c * p == 5 * p) by (nonlinear_arith);
}

proof fn lemma_single(x: u8)
    ensures
        digits_value(seq![x]) == x,
{
    let one = seq![x];
    assert(one.len() == 1);
    assert(one.drop_last() =~= Seq::<u8>::empty());
    assert(digits_value(one.drop_last()) == 0);
    assert(one.last() == x);
}

proof fn lemma_quotient(d: Seq<u8>, k: nat)
    requires
        all_below_ten(d),
        1 <= k <= d.len(),
    ensures
        digits_value(d) / pow10(k) == digits_value(d.take(d.len() - k)),
        digits_value(d) % pow10(k) == digits_value(d.skip(d.len() - k)),
{
    let split = d.len() - k;
    let cut = d.skip(split);
    lemma_value_split(d, split);
    lemma_value_bound(cut);
    lemma_pow10_grows(0, k);
    lemma_fundamental_div_mod_converse(
        digits_value(d) as int,
        pow10(k) as int,
        digits_value(d.take(split)) as int,
        digits_value(cut) as int,
    );
}

proof fn lemma_cut_value(d: Seq<u8>, split: int) -> (t: nat)
    requires
        all_below_ten(d),
        0 <= split < d.len(),
    ensures
        digits_value(d.skip(split)) == d[split] * pow10((d.len() - split - 1) as nat) + t,
        t < pow10((d.len() - split - 1) as nat),
        t != 0 <==> exists|j: int| split < j < d.len() && d[j] != 0,
{
    let cut = d.skip(split);
    let rest = cut.skip(1);
    let t = digits_value(rest);
    lemma_value_split(cut, 1);
    lemma_value_bound(rest);
    assert(cut.take(1) =~= seq![d[split]]);
    lemma_single(d[split]);
    lemma_value_zero(rest);
    if t != 0 {
        let i = choose|i: int| 0 <= i < rest.len() && rest[i] != 0;
        assert(d[split + 1 + i] == rest[i]);
    }
    if exists|j: int| split < j < d.len() && d[j] != 0 {
        let j = choose|j: int| split < j < d.len() && d[j] != 0;
        assert(rest[j - split - 1] == d[j]);
    }
    t
}

proof fn lemma_parity(d: Seq<u8>)
    ensures
        d.len() == 0 ==> digits_value(d) == 0,
        d.len() > 0 ==> digits_value(d) % 2 == (d.last() % 2) as nat,
{
    if d.len() > 0 {
        let a = digits_value(d.drop_last());
        let last = d.last() as nat;
        assert(digits_value(d) == a * 10 + last);
        assert((a * 10 + last) % 2 == last % 2) by (nonlinear_arith);
    }
}

proof fn lemma_cut_inside(d: Seq<u8>, k: nat)
    requires
        all_below_ten(d),
        1 <= k <= d.len(),
    ensures
        digits_value(cut_round(d, k)) == nearest_even(digits_value(d), pow10(k)),
{
    let split = d.len() - k;
    let kept = d.take(split);
    let q = digits_value(kept);
    let r = digits_value(d.skip(split));
    let p = pow10(k);
    let unit = pow10((k - 1) as nat);
    lemma_quotient(d, k);
    let t = lemma_cut_value(d, split);
    lemma_half(d[split] as nat, unit, t);
    lemma_parity(kept);
    assert(p == 10 * unit);
    if split > 0 {
        assert(kept.last() == d[split - 1]);
    }
    assert(rounds_up(d, split) <==> (2 * r > p || (2 * r == p && q % 2 == 1)));
    if rounds_up(d, split) {
        lemma_incremented(kept);
    } else if split == 0 {
        lemma_single(0u8);
    }
}

/// Cutting digits with rounding is division by a power of ten with
/// rounding to the nearest whole number, a tie to the even one.
pub proof fn lemma_cut_round(d: Seq<u8>, k: nat)
    requires
        all_below_ten(d),
        d.len() >= 1,
    ensures
        digits_value(cut_round(d, k)) == nearest_even(digits_value(d), pow10(k)),
{
    let v = digits_value(d);
    let p = pow10(k);
    if k == 0 {
        assert(p == 1);
        lemma_fundamental_div_mod_converse(v as int, 1, v as int, 0);
    } else if k > d.len() {
        lemma_single(0u8);
        lemma_value_bound(d);
        lemma_pow10_grows(d.len(), (k - 1) as nat);
        assert(p == 10 * pow10((k - 1) as nat));
        lemma_fundamental_div_mod_converse(v as int, p as int, 0, v as int);
    } else {
        lemma_cut_inside(d, k);
    }
}

/// The number that the rounded reading writes: where no digit is cut, the
/// reading's own number with zeros appended; where `k` digits are cut, that
/// number divided by ten to the power `k` and rounded, a tie to the even
/// side.
pub proof fn lemma_two_places(m: MetricView, shift: int)
    requires
        m.wf(),
    ensures
        two_places(m, shift).scale == 2,
        m.scale - shift - 2 <= 0 ==> two_places(m, shift).mantissa() == m.mantissa() * pow10(
            (shift + 2 - m.scale) as nat,
        ),
        m.scale - shift - 2 > 0 ==> two_places(m, shift).mantissa() == nearest_even(
            m.mantissa(),
            pow10((m.scale - shift - 2) as nat),
        ),
{
    let k = m.scale - shift - 2;
    lemma_two_places_wf(m, shift);
    if k <= 0 {
        let n = (-k) as nat;
        let d = m.digits + zero_digits(n);
        lemma_value_split(d, m.digits.len() as int);
        assert(d.take(m.digits.len() as int) =~= m.digits);
        assert(d.skip(m.digits.len() as int) =~= zero_digits(n));
        lemma_value_zero(zero_digits(n));
        lemma_strip_zeros(d, 3);
    } else {
        let d = cut_round(m.digits, k as nat);
        lemma_cut_round(m.digits, k as nat);
        if k <= m.digits.len() {
            lemma_incremented(m.digits.take(m.digits.len() - k));
        }
        lemma_strip_zeros(d, 3);
    }
}

fn increment(v: Vec<u8>) -> (r: Vec<u8>)
    requires
        all_below_ten(v@),
    ensures
        r@ == incremented(v@),
    decreases v@.len(),
{
    let mut v = v;
    let ghost before = v@;
    match v.pop() {
        None => {
            v.push(1);
            assert(v@ =~= seq![1u8]);
            v
        },
        Some(last) => {
            assert(v@ =~= before.drop_last());
            assert(last == before.last());
            if last < 9 {
                v.push(last + 1);
                v
            } else {
                let mut w = increment(v);
                w.push(0);
                w
            }
        },
    }
}

fn copy_range(v: &Vec<u8>, from: usize, to: usize) -> (r: Vec<u8>)
    requires
        from <= to <= v@.len(),
    ensures
        r@ == v@.subrange(from as int, to as int),
{
    let mut r: Vec<u8> = Vec::new();
    let mut i: usize = from;
    while i < to
        invariant
            from <= i <= to <= v@.len(),
            r@ == v@.subrange(from as int, i as int),
        decreases to - i,
    {
        r.push(v[i]);
        assert(r@ =~= v@.subrange(from as int, i + 1));
        i = i + 1;
    }
    assert(r@ =~= v@.subrange(from as int, to as int));
    r
}

fn strip(v: &Vec<u8>, keep: usize) -> (r: Vec<u8>)
    ensures
        r@ == strip_zeros(v@, keep as nat),
{
    let n: usize = v.len();
    let mut first: usize = 0;
    assert(v@.skip(0) =~= v@);
    while n - first > keep && v[first] == 0
        invariant
            first <= n,
            n == v@.len(),
            strip_zeros(v@, keep as nat) == strip_zeros(v@.skip(first as int), keep as nat),
        decreases n - first,
    {
        assert(v@.skip(first as int).drop_first() =~= v@.skip(first + 1));
        first = first + 1;
    }
    let r = copy_range(v, first, n);
    assert(v@.subrange(first as int, n as int) =~= v@.skip(first as int));
    r
}

fn cut(digits: &Vec<u8>, k: usize) -> (r: Vec<u8>)
    requires
        all_below_ten(digits@),
        1 <= k <= digits@.len(),
    ensures
        r@ == cut_round(digits@, k as nat),
{
    let n: usize = digits.len();
    let split: usize = n - k;
    let first: u8 = digits[split];
    let mut more: bool = false;
    let mut j: usize = split + 1;
    while j < n
        invariant
            split < j <= n,
            n == digits@.len(),
            more <==> exists|i: int| split < i < j && digits@[i] != 0,
        decreases n - j,
    {
        if digits[j] != 0 {
            more = true;
        }
        j = j + 1;
    }
    let odd: bool = split > 0 && digits[split - 1] % 2 == 1;
    let up: bool = first > 5 || (first == 5 && (more || odd));
    assert(up == rounds_up(digits@, split as int));
    let kept = copy_range(digits, 0, split);
    assert(kept@ =~= digits@.take(split as int));
    if up {
        increment(kept)
    } else if split == 0 {
        let mut zero: Vec<u8> = Vec::new();
        zero.push(0);
        assert(zero@ =~= seq![0u8]);
        zero
    } else {
        kept
    }
}

fn cut_or_zero(digits: &Vec<u8>, k: u128) -> (r: Vec<u8>)
    requires
        all_below_ten(digits@),
        k >= 1,
    ensures
        r@ == cut_round(digits@, k as nat),
{
    if k > digits.len() as u128 {
        let mut zero: Vec<u8> = Vec::new();
        zero.push(0);
        assert(zero@ =~= seq![0u8]);
        zero
    } else {
        cut(digits, k as usize)
    }
}

fn pad(digits: &Vec<u8>, zeros: u8) -> (r: Vec<u8>)
    ensures
        r@ == digits@ + zero_digits(zeros as nat),
{
    let mut r = copy_range(digits, 0, digits.len());
    assert(r@ =~= digits@ + zero_digits(0));
    let mut i: u8 = 0;
    while i < zeros
        invariant
            i <= zeros,
            r@ == digits@ + zero_digits(i as nat),
        decreases zeros - i,
    {
        r.push(0);
        assert(r@ =~= digits@ + zero_digits((i + 1) as nat));
        i = i + 1;
    }
    r
}

proof fn lemma_two_places_wf(m: MetricView, shift: int)
    requires
        m.wf(),
    ensures
        two_places(m, shift).wf(),
{
    let k = m.scale - shift - 2;
    let d = if k <= 0 {
        m.digits + zero_digits((-k) as nat)
    } else {
        cut_round(m.digits, k as nat)
    };
    if k > 0 && k <= m.digits.len() {
        lemma_incremented(m.digits.take(m.digits.len() - k));
    }
    assert(all_below_ten(d));
    assert(d.len() >= 1);
    lemma_strip_zeros(d, 3);
}

impl Metric {
    /// The reading times ten to the power `shift`, rounded to two
    /// decimals. A tie in the third decimal goes to the even neighbour.
    pub fn two_places(&self, shift: i8) -> (r: Metric)
        requires
            self.wf(),
        ensures
            r@ == two_places(self@, shift as int),
            r.wf(),
    {
        let places: i16 = shift as i16 + 2;
        let n: usize = self.digits.len();
        let digits = if places >= 0 {
            let up: u128 = places as u128;
            if self.scale <= up {
                pad(&self.digits, (up - self.scale) as u8)
            } else {
                cut_or_zero(&self.digits, self.scale - up)
            }
        } else {
            let down: u128 = (-places) as u128;
            if self.scale >= n as u128 {
                let mut zero: Vec<u8> = Vec::new();
                zero.push(0);
                assert(zero@ =~= seq![0u8]);
                zero
            } else {
                cut_or_zero(&self.digits, self.scale + down)
            }
        };
        proof {
            lemma_two_places_wf(self@, shift as int);
        }
        Metric { digits: strip(&digits, 3), scale: 2 }
    }
}

} // verus!
