//! From what a host printed to the records of its GPUs, for one host and
//! for a fleet.

use vstd::prelude::*;
use vstd::utf8::{decode_utf8, valid_utf8};
use vstd::string::*;
use crate::record::{parse_record, record_of, texts, GpuRecord, GpuRecordView, RowError};
use crate::text::{decimal_text, usize_text};

verus! {

/// What the CSV reader makes of `data`: its records, each a sequence of
/// fields, or the message of the first error that it meets. With
/// `has_headers` the first record is held back as the header.
pub uninterp spec fn csv_rows(has_headers: bool, data: Seq<u8>) -> Result<
    Seq<Seq<Seq<char>>>,
    Seq<char>,
>;

/// The views of the fields of `rows`, row by row.
pub open spec fn table_texts(rows: Seq<Vec<String>>) -> Seq<Seq<Seq<char>>> {
    rows.map_values(|row: Vec<String>| texts(row@))
}

/// Reads `data` with `csv::Reader::records`, on a reader that
/// `csv::ReaderBuilder` made with the given `has_headers`, up to the first
/// record that the reader rejects. The rows are the reader's records, field
/// by field; on a rejected record the result is the message that
/// `csv::Error` displays. Either depends on `has_headers` and `data` alone.
#[verifier::external_body]
fn read_rows(has_headers: bool, data: &Vec<u8>) -> (r: Result<Vec<Vec<String>>, String>)
    ensures
        match r {
            Ok(rows) => csv_rows(has_headers, data@) == Ok::<Seq<Seq<Seq<char>>>, Seq<char>>(
                table_texts(rows@),
            ),
            Err(message) => csv_rows(has_headers, data@) == Err::<
                Seq<Seq<Seq<char>>>,
                Seq<char>,
            >(message@),
        },
{
    let mut reader = csv::ReaderBuilder::new().has_headers(has_headers).from_reader(
        data.as_slice(),
    );
    let mut rows = Vec::new();
    for record in reader.records() {
        match record {
            Ok(fields) => rows.push(fields.iter().map(|field| field.to_string()).collect()),
            Err(error) => return Err(error.to_string()),
        }
    }
    Ok(rows)
}

/// `String::from_utf8`: the text that `bytes` encode, where they are valid
/// UTF-8, and `None` where they are not.
#[verifier::external_body]
fn utf8_text(bytes: &Vec<u8>) -> (r: Option<String>)
    ensures
        match r {
            Some(s) => valid_utf8(bytes@) && s@ == decode_utf8(bytes@),
            None => !valid_utf8(bytes@),
        },
{
    String::from_utf8(bytes.clone()).ok()
}

/// What a finished remote command left behind.
#[derive(Debug, Clone, PartialEq, Eq)]
pub struct ProcessOutput {
    /// The command exited with status zero.
    pub success: bool,
    pub stdout: Vec<u8>,
    pub stderr: Vec<u8>,
}

/// A host's name with what the command printed there.
#[derive(Debug, Clone, PartialEq, Eq)]
pub struct HostOutput {
    pub hostname: String,
    pub output: ProcessOutput,
}

/// The views of `records`, in order.
pub open spec fn record_views(records: Seq<GpuRecord>) -> Seq<GpuRecordView> {
    records.map_values(|g: GpuRecord| g@)
}

/// Every record of `records` is well formed.
pub open spec fn all_wf(records: Seq<GpuRecord>) -> bool {
    forall|i: int| 0 <= i < records.len() ==> (#[trigger] records[i]).wf()
}

/// The mathematical content of a [`HostRecord`].
pub struct HostRecordView {
    pub hostname: Seq<char>,
    pub gpu_records: Seq<GpuRecordView>,
}

/// A host that answered: its name and the records of its GPUs, in the
/// order of its report.
#[derive(Debug, Clone, PartialEq, Eq)]
pub struct HostRecord {
    pub hostname: String,
    pub gpu_records: Vec<GpuRecord>,
}

impl View for HostRecord {
    type V = HostRecordView;

    open spec fn view(&self) -> HostRecordView {
        HostRecordView { hostname: self.hostname@, gpu_records: record_views(self.gpu_records@) }
    }
}

impl HostRecord {
    /// Every record is well formed.
    pub open spec fn wf(&self) -> bool {
        all_wf(self.gpu_records@)
    }

    /// Tells whether every record is well formed.
    pub fn is_valid(&self) -> (b: bool)
        ensures
            b == self.wf(),
    {
        let n: usize = self.gpu_records.len();
        let mut i: usize = 0;
        while i < n
            invariant
                i <= n,
                n == self.gpu_records@.len(),
                forall|k: int| 0 <= k < i ==> (#[trigger] self.gpu_records@[k]).wf(),
            decreases n - i,
        {
            if !self.gpu_records[i].is_valid() {
                return false;
            }
            i = i + 1;
        }
        true
    }
}

/// The mathematical content of a [`ParseError`].
pub enum ParseErrorView {
    Malformed(Seq<char>),
    Row(nat, RowError),
}

/// Why a report yields no records.
#[derive(Debug, Clone, PartialEq, Eq)]
pub enum ParseError {
    /// The report is no CSV; the reader's message.
    Malformed(String),
    /// The row at this position, the header counted as row zero, is no
    /// record.
    Row(usize, RowError),
}

impl View for ParseError {
    type V = ParseErrorView;

    open spec fn view(&self) -> ParseErrorView {
        match *self {
            ParseError::Malformed(s) => ParseErrorView::Malformed(s@),
            ParseError::Row(n, e) => ParseErrorView::Row(n as nat, e),
        }
    }
}

/// Why a host has no records.
#[derive(Debug, Clone, PartialEq, Eq)]
pub enum HostError {
    /// The remote command failed; what it wrote to its error stream.
    Ssh(String),
    /// The command's report could not be read.
    Csv(ParseError),
}

/// The mathematical content of a [`HostError`].
pub enum HostErrorView {
    Ssh(Seq<char>),
    Csv(ParseErrorView),
}

impl View for HostError {
    type V = HostErrorView;

    open spec fn view(&self) -> HostErrorView {
        match *self {
            HostError::Ssh(s) => HostErrorView::Ssh(s@),
            HostError::Csv(f) => HostErrorView::Csv(f@),
        }
    }
}

/// One host's outcome: its records, or why there are none.
#[derive(Debug, PartialEq, Eq)]
pub struct HostResult {
    pub hostname: String,
    pub result: Result<HostRecord, HostError>,
}

/// The mathematical content of a [`HostResult`].
pub struct HostResultView {
    pub hostname: Seq<char>,
    pub result: Result<HostRecordView, HostErrorView>,
}

impl HostResult {
    /// The records, where there are any, are well formed.
    pub open spec fn wf(&self) -> bool {
        self.result matches Ok(h) ==> h.wf()
    }

    /// Tells whether the records, where there are any, are well formed.
    pub fn is_valid(&self) -> (b: bool)
        ensures
            b == self.wf(),
    {
        match &self.result {
            Ok(h) => h.is_valid(),
            Err(_) => true,
        }
    }
}

impl View for HostResult {
    type V = HostResultView;

    open spec fn view(&self) -> HostResultView {
        HostResultView {
            hostname: self.hostname@,
            result: result_view(self.result),
        }
    }
}

/// What is shown for a row that is no record.
pub open spec fn row_error_text(e: RowError) -> Seq<char> {
    match e {
        RowError::MissingField => "missing field"@,
        RowError::BadIndex => "invalid index"@,
        RowError::BadMetric(column) => "invalid number in field "@ + decimal_text(column as nat),
    }
}

/// What is shown for a report that yields no records.
pub open spec fn failure_text(f: ParseErrorView) -> Seq<char> {
    match f {
        ParseErrorView::Malformed(m) => m,
        ParseErrorView::Row(n, e) => "row "@ + decimal_text(n) + ": "@ + row_error_text(e),
    }
}

/// What is shown for a host without records.
pub open spec fn error_message(e: HostErrorView) -> Seq<char> {
    match e {
        HostErrorView::Ssh(m) => "SSH error: "@ + m,
        HostErrorView::Csv(f) => failure_text(f),
    }
}

impl RowError {
    /// The words for this failure.
    pub fn message(&self) -> (r: String)
        ensures
            r@ == row_error_text(*self),
    {
        match *self {
            RowError::MissingField => "missing field".to_owned(),
            RowError::BadIndex => "invalid index".to_owned(),
            RowError::BadMetric(column) => {
                let mut s = "invalid number in field ".to_owned();
                s.append(usize_text(column).as_str());
                s
            },
        }
    }
}

impl ParseError {
    /// The words for this failure.
    pub fn message(&self) -> (r: String)
        ensures
            r@ == failure_text(self@),
    {
        match self {
            ParseError::Malformed(m) => m.clone(),
            ParseError::Row(n, e) => {
                let mut s = "row ".to_owned();
                s.append(usize_text(*n).as_str());
                s.append(": ");
                s.append(e.message().as_str());
                s
            },
        }
    }
}

impl HostError {
    /// The words for this failure, as the table shows them.
    pub fn message(&self) -> (r: String)
        ensures
            r@ == error_message(self@),
    {
        match self {
            HostError::Ssh(m) => {
                let mut s = "SSH error: ".to_owned();
                s.append(m.as_str());
                s
            },
            HostError::Csv(f) => f.message(),
        }
    }
}

/// The records of a report whose first row is the header: one per row
/// after it, in order, or the failure of the first row that is no record.
pub open spec fn records_of(rows: Seq<Seq<Seq<char>>>) -> Result<Seq<GpuRecordView>, ParseErrorView>
    decreases rows.len(),
{
    if rows.len() <= 1 {
        Ok(Seq::empty())
    } else {
        match records_of(rows.drop_last()) {
            Err(e) => Err(e),
            Ok(records) => match record_of(rows.last()) {
                Ok(g) => Ok(records.push(g)),
                Err(e) => Err(ParseErrorView::Row((rows.len() - 1) as nat, e)),
            },
        }
    }
}

/// A report whose rows are all records yields one record for each row
/// after the header: as many records as the report has data rows, the
/// record at position `i` read from row `i + 1`.
pub proof fn lemma_one_record_per_row(rows: Seq<Seq<Seq<char>>>)
    ensures
        records_of(rows) matches Ok(records) ==> {
            &&& rows.len() >= 1 ==> records.len() == rows.len() - 1
            &&& rows.len() == 0 ==> records.len() == 0
            &&& forall|i: int|
                0 <= i < records.len() ==> record_of(#[trigger] rows[i + 1]) == Ok::<
                    GpuRecordView,
                    RowError,
                >(records[i])
        },
    decreases rows.len(),
{
    if rows.len() > 1 {
        let front = rows.drop_last();
        lemma_one_record_per_row(front);
        if let Ok(records) = records_of(rows) {
            let earlier = records_of(front)->Ok_0;
            assert forall|i: int| 0 <= i < records.len() implies record_of(
                #[trigger] rows[i + 1],
            ) == Ok::<GpuRecordView, RowError>(records[i]) by {
                if i < earlier.len() {
                    assert(rows[i + 1] == front[i + 1]);
                }
            }
        }
    }
}

/// A report yields records if and only if every row after the header is a
/// record; otherwise the failure names the first row that is none.
pub proof fn lemma_first_bad_row(rows: Seq<Seq<Seq<char>>>)
    ensures
        records_of(rows) is Ok <==> forall|i: int|
            1 <= i < rows.len() ==> record_of(#[trigger] rows[i]) is Ok,
        records_of(rows) matches Err(f) ==> (f matches ParseErrorView::Row(n, e) && 1 <= n
            < rows.len() && record_of(rows[n as int]) == Err::<GpuRecordView, RowError>(e)
            && forall|i: int| 1 <= i < n ==> record_of(#[trigger] rows[i]) is Ok),
    decreases rows.len(),
{
    if rows.len() > 1 {
        let front = rows.drop_last();
        lemma_first_bad_row(front);
        assert forall|i: int| 1 <= i < front.len() implies front[i] == rows[i] by {}
        if records_of(front) is Ok {
            assert forall|i: int| 1 <= i < front.len() implies record_of(#[trigger] rows[i])
                is Ok by {
                assert(record_of(front[i]) is Ok);
            }
        } else {
            let n = records_of(front)->Err_0->Row_0;
            assert(front[n as int] == rows[n as int]);
            assert forall|i: int| 1 <= i < n implies record_of(#[trigger] rows[i]) is Ok by {
                assert(record_of(front[i]) is Ok);
            }
        }
    }
}

/// Turns the rows of a report into records. The first row is the header
/// and is not read. The first row that is no record ends the work.
pub fn parse_rows(rows: &Vec<Vec<String>>) -> (r: Result<Vec<GpuRecord>, ParseError>)
    ensures
        match r {
            Ok(records) => all_wf(records@) && records_of(table_texts(rows@)) == Ok::<
                Seq<GpuRecordView>,
                ParseErrorView,
            >(record_views(records@)),
            Err(e) => records_of(table_texts(rows@)) == Err::<
                Seq<GpuRecordView>,
                ParseErrorView,
            >(e@),
        },
        r matches Ok(records) ==> records@.len() == (if rows@.len() == 0 {
            0
        } else {
            rows@.len() - 1
        }),
{
    let ghost all = table_texts(rows@);
    proof {
        lemma_one_record_per_row(all);
    }
    let mut gpu_records: Vec<GpuRecord> = Vec::new();
    let n: usize = rows.len();
    if n == 0 {
        assert(record_views(gpu_records@) =~= Seq::empty());
        return Ok(gpu_records);
    }
    assert(record_views(gpu_records@) =~= Seq::empty());
    let mut i: usize = 1;
    while i < n
        invariant
            1 <= i <= n,
            n == rows@.len(),
            all == table_texts(rows@),
            records_of(all.take(i as int)) == Ok::<Seq<GpuRecordView>, ParseErrorView>(
                record_views(gpu_records@),
            ),
            all_wf(gpu_records@),
        decreases n - i,
    {
        proof {
            assert(all.take(i + 1).drop_last() =~= all.take(i as int));
            assert(all.take(i + 1).last() == texts(rows@[i as int]@));
        }
        match parse_record(&rows[i]) {
            Ok(g) => {
                proof {
                    assert(record_views(gpu_records@.push(g)) =~= record_views(
                        gpu_records@,
                    ).push(g@));
                }
                gpu_records.push(g);
            },
            Err(e) => {
                proof {
                    lemma_failure_stays(all, i + 1);
                }
                return Err(ParseError::Row(i, e));
            },
        }
        i = i + 1;
    }
    assert(all.take(n as int) =~= all);
    Ok(gpu_records)
}

proof fn lemma_failure_stays(rows: Seq<Seq<Seq<char>>>, k: int)
    requires
        0 <= k <= rows.len(),
        records_of(rows.take(k)) is Err,
    ensures
        records_of(rows) == records_of(rows.take(k)),
    decreases rows.len() - k,
{
    if k < rows.len() {
        assert(rows.take(k + 1).drop_last() =~= rows.take(k));
        lemma_failure_stays(rows, k + 1);
    } else {
        assert(rows.take(k) =~= rows);
    }
}

/// The outcome of reading the report `data`: a report that the CSV reader
/// rejects is malformed, with the reader's message, and one that it accepts
/// yields what its rows yield.
pub open spec fn parse_of(data: Seq<u8>) -> Result<Seq<GpuRecordView>, ParseErrorView> {
    match csv_rows(false, data) {
        Err(message) => Err(ParseErrorView::Malformed(message)),
        Ok(rows) => records_of(rows),
    }
}

/// Reads a report: CSV without a header of its own, whose first row names
/// the columns and is skipped.
pub fn parse_csv(data: &Vec<u8>) -> (r: Result<Vec<GpuRecord>, ParseError>)
    ensures
        match r {
            Ok(records) => all_wf(records@) && parse_of(data@) == Ok::<
                Seq<GpuRecordView>,
                ParseErrorView,
            >(record_views(records@)),
            Err(e) => parse_of(data@) == Err::<Seq<GpuRecordView>, ParseErrorView>(e@),
        },
{
    match read_rows(false, data) {
        Ok(rows) => parse_rows(&rows),
        Err(message) => Err(ParseError::Malformed(message)),
    }
}

/// The text of an error stream: what the bytes encode, or a fixed notice
/// where they are no UTF-8.
pub open spec fn error_text(stderr: Seq<u8>) -> Seq<char> {
    if valid_utf8(stderr) {
        decode_utf8(stderr)
    } else {
        "parse error"@
    }
}

/// Tells a finished command's report from its failure: with exit status
/// zero the report is what it wrote to its output stream, otherwise the
/// failure is the text of its error stream.
pub fn fetch(output: &ProcessOutput) -> (r: Result<&Vec<u8>, String>)
    ensures
        output.success ==> r == Ok::<&Vec<u8>, String>(&output.stdout),
        !output.success ==> (r matches Err(m) && m@ == error_text(output.stderr@)),
{
    if output.success {
        Ok(&output.stdout)
    } else {
        match utf8_text(&output.stderr) {
            Some(text) => Err(text),
            None => Err("parse error".to_owned()),
        }
    }
}

/// The outcome of the host `hostname` whose command left `output`: the
/// transport failure of a command that failed, else what its report
/// yields.
pub open spec fn outcome_of(hostname: Seq<char>, output: ProcessOutput) -> Result<
    HostRecordView,
    HostErrorView,
> {
    if !output.success {
        Err(HostErrorView::Ssh(error_text(output.stderr@)))
    } else {
        match parse_of(output.stdout@) {
            Ok(gpu_records) => Ok(HostRecordView { hostname, gpu_records }),
            Err(e) => Err(HostErrorView::Csv(e)),
        }
    }
}

/// The view of one host's records or failure.
pub open spec fn result_view(r: Result<HostRecord, HostError>) -> Result<
    HostRecordView,
    HostErrorView,
> {
    match r {
        Ok(h) => Ok(h@),
        Err(e) => Err(e@),
    }
}

/// The outcome of one host: the records of its report, or the reason why
/// there are none.
pub fn fetch_host(hostname: &str, output: &ProcessOutput) -> (r: Result<HostRecord, HostError>)
    ensures
        result_view(r) == outcome_of(hostname@, *output),
        r matches Ok(h) ==> h.wf(),
{
    match fetch(output) {
        Err(message) => Err(HostError::Ssh(message)),
        Ok(data) => match parse_csv(data) {
            Ok(gpu_records) => Ok(HostRecord { hostname: hostname.to_owned(), gpu_records }),
            Err(f) => Err(HostError::Csv(f)),
        },
    }
}

/// The outcomes of a fleet: one for each host, under its name and in the
/// order given. The outcome of a host depends on that host's name and
/// output alone, whatever became of the other hosts.
pub fn fetch_hosts(outputs: &Vec<HostOutput>) -> (r: Vec<HostResult>)
    ensures
        r@.len() == outputs@.len(),
        forall|i: int|
            0 <= i < r@.len() ==> (#[trigger] r@[i]).hostname@ == outputs@[i].hostname@
                && r@[i]@.result == outcome_of(outputs@[i].hostname@, outputs@[i].output)
                && r@[i].wf(),
{
    let mut results: Vec<HostResult> = Vec::new();
    let n: usize = outputs.len();
    let mut i: usize = 0;
    while i < n
        invariant
            i <= n,
            n == outputs@.len(),
            results@.len() == i,
            forall|k: int|
                0 <= k < i ==> (#[trigger] results@[k]).hostname@ == outputs@[k].hostname@
                    && results@[k]@.result == outcome_of(
                    outputs@[k].hostname@,
                    outputs@[k].output,
                ) && results@[k].wf(),
        decreases n - i,
    {
        let host = &outputs[i];
        let result = fetch_host(host.hostname.as_str(), &host.output);
        results.push(HostResult { hostname: host.hostname.clone(), result });
        i = i + 1;
    }
    results
}

/// A host whose command failed has no records: its outcome is the failure
/// with the text of the error stream.
pub proof fn lemma_failed_command(hostname: Seq<char>, output: ProcessOutput)
    requires
        !output.success,
    ensures
        outcome_of(hostname, output) == Err::<HostRecordView, HostErrorView>(
            HostErrorView::Ssh(error_text(output.stderr@)),
        ),
{
}

/// A host whose command succeeded with a report of well-formed rows has
/// exactly one record for each row after the header.
pub proof fn lemma_record_count(hostname: Seq<char>, output: ProcessOutput)
    requires
        output.success,
        csv_rows(false, output.stdout@) matches Ok(rows) && rows.len() >= 1 && forall|i: int|
            1 <= i < rows.len() ==> record_of(#[trigger] rows[i]) is Ok,
    ensures
        outcome_of(hostname, output) matches Ok(h) && h.gpu_records.len() == csv_rows(
            false,
            output.stdout@,
        )->Ok_0.len() - 1,
{
    let rows = csv_rows(false, output.stdout@)->Ok_0;
    lemma_first_bad_row(rows);
    lemma_one_record_per_row(rows);
}

} // verus!
