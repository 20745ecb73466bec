//! One row of telemetry as a typed record.

use vstd::prelude::*;
use vstd::string::*;
use crate::metric::{
    digit_value, digits_of, digits_value, is_digit, is_metric, metric_of, string_to_metric,
    Metric, MetricView,
};

verus! {

/// The number of fields that a row of telemetry must hold: index, name,
/// total memory, used memory, utilization.
pub const FIELDS: usize = 5;

/// The mathematical content of a [`GpuRecord`].
pub struct GpuRecordView {
    pub index: nat,
    pub name: Seq<char>,
    pub total_memory: MetricView,
    pub used_memory: MetricView,
    pub utilization: MetricView,
}

/// The telemetry of one GPU: memory in megabytes, utilization as a ratio.
#[derive(Debug, Clone, PartialEq, Eq)]
pub struct GpuRecord {
    pub index: usize,
    pub name: String,
    pub total_memory: Metric,
    pub used_memory: Metric,
    pub utilization: Metric,
}

impl View for GpuRecord {
    type V = GpuRecordView;

    open spec fn view(&self) -> GpuRecordView {
        GpuRecordView {
            index: self.index as nat,
            name: self.name@,
            total_memory: self.total_memory@,
            used_memory: self.used_memory@,
            utilization: self.utilization@,
        }
    }
}

impl GpuRecord {
    /// Each of the three readings is well formed.
    pub open spec fn wf(&self) -> bool {
        self.total_memory.wf() && self.used_memory.wf() && self.utilization.wf()
    }

    /// Tells whether the record is well formed.
    pub fn is_valid(&self) -> (b: bool)
        ensures
            b == self.wf(),
    {
        self.total_memory.is_valid() && self.used_memory.is_valid() && self.utilization.is_valid()
    }
}

/// Why a row of telemetry is no record.
#[derive(Debug, Clone, Copy, PartialEq, Eq)]
pub enum RowError {
    /// The row has fewer fields than a record needs.
    MissingField,
    /// The first field is no index that fits the machine.
    BadIndex,
    /// The field at this position holds no number.
    BadMetric(usize),
}

/// The views of the strings of `row`, in order.
pub open spec fn texts(row: Seq<String>) -> Seq<Seq<char>> {
    row.map_values(|s: String| s@)
}

/// Every character of `t` is a digit.
pub open spec fn all_digits(t: Seq<char>) -> bool {
    forall|i: int| 0 <= i < t.len() ==> is_digit(#[trigger] t[i])
}

/// The natural number that the digits of `t` write.
pub open spec fn decimal_value(t: Seq<char>) -> nat {
    digits_value(digits_of(t))
}

/// `t` without a plus sign in front.
pub open spec fn unsigned_part(t: Seq<char>) -> Seq<char> {
    if t.len() > 0 && t[0] == '+' {
        t.drop_first()
    } else {
        t
    }
}

/// `t` writes an index: one or more decimal digits, a plus sign in front
/// allowed, with a value that fits `usize`. No other notation is an index,
/// a hexadecimal one neither.
pub open spec fn is_index(t: Seq<char>) -> bool {
    let d = unsigned_part(t);
    d.len() >= 1 && all_digits(d) && decimal_value(d) <= usize::MAX
}

/// The index that `t` writes.
pub open spec fn index_value(t: Seq<char>) -> nat {
    decimal_value(unsigned_part(t))
}

/// `name` without its first character.
pub open spec fn trimmed_name(name: Seq<char>) -> Seq<char> {
    if name.len() == 0 {
        name
    } else {
        name.drop_first()
    }
}

/// The record that a row stands for, or the first reason why it stands for
/// none. Fields beyond the fifth are not read.
pub open spec fn record_of(row: Seq<Seq<char>>) -> Result<GpuRecordView, RowError> {
    if row.len() < FIELDS {
        Err(RowError::MissingField)
    } else if !is_index(row[0]) {
        Err(RowError::BadIndex)
    } else if !is_metric(row[2]) {
        Err(RowError::BadMetric(2))
    } else if !is_metric(row[3]) {
        Err(RowError::BadMetric(3))
    } else if !is_metric(row[4]) {
        Err(RowError::BadMetric(4))
    } else {
        Ok(
            GpuRecordView {
                index: index_value(row[0]),
                name: trimmed_name(row[1]),
                total_memory: metric_of(row[2]),
                used_memory: metric_of(row[3]),
                utilization: metric_of(row[4]).per_hundred(),
            },
        )
    }
}

proof fn lemma_value_step(t: Seq<char>, i: int)
    requires
        0 <= i < t.len(),
    ensures
        is_digit(t[i]) ==> decimal_value(t.take(i + 1)) == decimal_value(t.take(i)) * 10
            + digit_value(t[i]) as nat,
        !is_digit(t[i]) ==> decimal_value(t.take(i + 1)) == decimal_value(t.take(i)),
{
    let u = t.take(i + 1);
    assert(u.drop_last() =~= t.take(i));
    assert(u.last() == t[i]);
    if is_digit(t[i]) {
        let d = digits_of(t.take(i));
        assert(d.push(digit_value(t[i])).drop_last() =~= d);
    }
}

proof fn lemma_value_grows(t: Seq<char>, i: int, j: int)
    requires
        0 <= i <= j <= t.len(),
    ensures
        decimal_value(t.take(i)) <= decimal_value(t.take(j)),
    decreases j - i,
{
    if i < j {
        lemma_value_grows(t, i, j - 1);
        lemma_value_step(t, j - 1);
    }
}

/// Reads an index. Only decimal indices are accepted: decimal digits, a
/// plus sign in front allowed. A hexadecimal form such as `0x1f` is no
/// index.
pub fn parse_index(t: &str) -> (r: Option<usize>)
    ensures
        r is Some <==> is_index(t@),
        r matches Some(v) ==> v as nat == index_value(t@),
{
    if !t.is_ascii() {
        assert(!is_index(t@)) by {
            let d = unsigned_part(t@);
            if all_digits(d) {
                assert forall|i: int| 0 <= i < t@.len() implies '\0' <= #[trigger] t@[i]
                    <= '\u{7f}' by {
                    if t@[0] == '+' && i > 0 {
                        assert(is_digit(d[i - 1]));
                    } else if t@[0] != '+' {
                        assert(is_digit(d[i]));
                    }
                }
            }
        }
        return None;
    }
    let n: usize = t.unicode_len();
    if n == 0 {
        return None;
    }
    let signed: bool = t.get_ascii(0) == 43;
    let body: &str = if signed {
        t.substring_ascii(1, n)
    } else {
        t
    };
    let m: usize = if signed {
        n - 1
    } else {
        n
    };
    let ghost d = unsigned_part(t@);
    assert(body@ =~= d);
    if m == 0 {
        return None;
    }
    let mut acc: usize = 0;
    let mut i: usize = 0;
    while i < m
        invariant
            i <= m,
            m == d.len(),
            d == unsigned_part(t@),
            body@ == d,
            body.is_ascii(),
            all_digits(d.take(i as int)),
            acc as nat == decimal_value(d.take(i as int)),
        decreases m - i,
    {
        let b: u8 = body.get_ascii(i);
        proof {
            lemma_value_step(d, i as int);
            assert('\0' <= d[i as int] <= '\u{7f}');
        }
        if b < 48 || b > 57 {
            assert(!is_digit(d[i as int]));
            return None;
        }
        assert(is_digit(d[i as int]));
        let v: usize = (b - 48) as usize;
        if acc > (usize::MAX - v) / 10 {
            proof {
                lemma_value_grows(d, i + 1, m as int);
                assert(d.take(m as int) =~= d);
            }
            return None;
        }
        acc = acc * 10 + v;
        i = i + 1;
    }
    assert(d.take(m as int) =~= d);
    Some(acc)
}

/// Drops the first character of a name, the separator that the report puts
/// in front of it. An empty name stays empty.
pub fn trim_name(name: &str) -> (r: String)
    ensures
        r@ == trimmed_name(name@),
{
    let n: usize = name.unicode_len();
    if n == 0 {
        name.to_owned()
    } else {
        let rest = name.substring_char(1, n);
        assert(rest@ =~= name@.drop_first());
        rest.to_owned()
    }
}

/// Turns one row of telemetry into a record: the index is read, the name
/// loses its first character, memory and utilization lose their units, and
/// utilization is scaled from percent to a ratio.
pub fn parse_record(row: &Vec<String>) -> (r: Result<GpuRecord, RowError>)
    ensures
        match r {
            Ok(g) => g.wf() && record_of(texts(row@)) == Ok::<GpuRecordView, RowError>(g@),
            Err(e) => record_of(texts(row@)) == Err::<GpuRecordView, RowError>(e),
        },
{
    if row.len() < FIELDS {
        return Err(RowError::MissingField);
    }
    let index = match parse_index(row[0].as_str()) {
        Some(v) => v,
        None => {
            return Err(RowError::BadIndex);
        },
    };
    let total_memory = match string_to_metric(row[2].as_str()) {
        Ok(m) => m,
        Err(_) => {
            return Err(RowError::BadMetric(2));
        },
    };
    let used_memory = match string_to_metric(row[3].as_str()) {
        Ok(m) => m,
        Err(_) => {
            return Err(RowError::BadMetric(3));
        },
    };
    let percent = match string_to_metric(row[4].as_str()) {
        Ok(m) => m,
        Err(_) => {
            return Err(RowError::BadMetric(4));
        },
    };
    let name = trim_name(row[1].as_str());
    let g = GpuRecord {
        index,
        name,
        total_memory,
        used_memory,
        utilization: percent.per_hundred(),
    };
    assert(g@ =~= record_of(texts(row@))->Ok_0);
    Ok(g)
}

} // verus!
