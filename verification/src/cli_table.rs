//! The fleet's outcomes laid out as a table of text.

use vstd::prelude::*;
use vstd::string::*;
use crate::host::{
    all_wf, error_message, record_views, table_texts, HostResult, HostResultView,
};
use crate::record::{texts, GpuRecord, GpuRecordView};
use crate::round::two_places;
use crate::text::{decimal_text, metric_text, usize_text};

verus! {

/// The text that the table printer draws for rows of cells: a grid with a
/// border, each column as wide as its widest cell, a cell of several lines
/// kept whole.
pub uninterp spec fn table_text(rows: Seq<Seq<Seq<char>>>) -> Seq<char>;

/// `s` holds no escape character.
pub open spec fn no_escape(s: Seq<char>) -> bool {
    forall|i: int| 0 <= i < s.len() ==> #[trigger] s[i] != '\u{1b}'
}

/// No cell of `rows` holds an escape character.
pub open spec fn printable(rows: Seq<Seq<Seq<char>>>) -> bool {
    forall|i: int, j: int|
        0 <= i < rows.len() && 0 <= j < rows[i].len() ==> no_escape(#[trigger] rows[i][j])
}

/// `s` without its escape characters.
pub open spec fn without_escape(s: Seq<char>) -> Seq<char>
    decreases s.len(),
{
    if s.len() == 0 {
        s
    } else if s.last() == '\u{1b}' {
        without_escape(s.drop_last())
    } else {
        without_escape(s.drop_last()).push(s.last())
    }
}

/// The cells of `row`, each without its escape characters.
pub open spec fn clean_row(row: Seq<Seq<char>>) -> Seq<Seq<char>> {
    row.map_values(|cell: Seq<char>| without_escape(cell))
}

/// The cells of `rows`, each without its escape characters.
pub open spec fn clean_table(rows: Seq<Seq<Seq<char>>>) -> Seq<Seq<Seq<char>>> {
    rows.map_values(|row: Seq<Seq<char>>| clean_row(row))
}

/// The text drawn for `rows`: the printer's drawing of the cells without
/// their escape characters.
pub open spec fn drawn(rows: Seq<Seq<Seq<char>>>) -> Seq<char> {
    table_text(clean_table(rows))
}

/// Draws `rows` with `prettytable::Table::init` and the table's `Display`,
/// each cell made by `prettytable::Cell::new` and each row by
/// `prettytable::Row::new`, in the printer's default format. The drawing
/// depends on the cells' text alone. The printer measures a cell as
/// terminal text and gives up on some text that holds an escape character,
/// so no cell may hold one.
#[verifier::external_body]
fn render_table(rows: &Vec<Vec<String>>) -> (r: String)
    requires
        printable(table_texts(rows@)),
    ensures
        r@ == table_text(table_texts(rows@)),
{
    prettytable::Table::init(
        rows.iter().map(
            |row| prettytable::Row::new(row.iter().map(|c| prettytable::Cell::new(c)).collect()),
        ).collect(),
    ).to_string()
}

/// Removes the escape characters from a cell's text.
pub fn clean_cell(s: &str) -> (r: String)
    ensures
        r@ == without_escape(s@),
        no_escape(r@),
{
    let n: usize = s.unicode_len();
    let mut out = String::new();
    let mut i: usize = 0;
    assert(s@.take(0) =~= Seq::<char>::empty());
    while i < n
        invariant
            i <= n,
            n == s@.len(),
            out@ == without_escape(s@.take(i as int)),
            no_escape(out@),
        decreases n - i,
    {
        let c = s.get_char(i);
        proof {
            assert(s@.take(i + 1).drop_last() =~= s@.take(i as int));
            assert(s@.take(i + 1).last() == s@[i as int]);
        }
        if c != '\u{1b}' {
            let ghost before = out@;
            out.append(s.substring_char(i, i + 1));
            assert(out@ =~= before.push(c));
        }
        i = i + 1;
    }
    assert(s@.take(n as int) =~= s@);
    out
}

/// Removes the escape characters from every cell of `rows`.
pub fn clean_rows(rows: &Vec<Vec<String>>) -> (r: Vec<Vec<String>>)
    ensures
        table_texts(r@) == clean_table(table_texts(rows@)),
        printable(table_texts(r@)),
{
    let mut out: Vec<Vec<String>> = Vec::new();
    let n: usize = rows.len();
    let mut i: usize = 0;
    while i < n
        invariant
            i <= n,
            n == rows@.len(),
            out@.len() == i,
            forall|a: int| 0 <= a < i ==> texts((#[trigger] out@[a])@) == clean_row(texts(rows@[a]@)),
            forall|a: int, b: int|
                0 <= a < i && 0 <= b < out@[a]@.len() ==> no_escape(#[trigger] out@[a]@[b]@),
        decreases n - i,
    {
        let row = &rows[i];
        let mut cells: Vec<String> = Vec::new();
        let m: usize = row.len();
        let mut j: usize = 0;
        while j < m
            invariant
                j <= m,
                m == row@.len(),
                cells@.len() == j,
                forall|b: int| 0 <= b < j ==> (#[trigger] cells@[b])@ == without_escape(row@[b]@),
                forall|b: int| 0 <= b < j ==> no_escape(#[trigger] cells@[b]@),
            decreases m - j,
        {
            cells.push(clean_cell(row[j].as_str()));
            j = j + 1;
        }
        assert(texts(cells@) =~= clean_row(texts(row@)));
        out.push(cells);
        i = i + 1;
    }
    assert(table_texts(out@) =~= clean_table(table_texts(rows@)));
    assert forall|a: int, b: int|
        0 <= a < table_texts(out@).len() && 0 <= b < table_texts(out@)[a].len() implies no_escape(
        #[trigger] table_texts(out@)[a][b],
    ) by {
        assert(table_texts(out@)[a][b] == out@[a]@[b]@);
    }
    out
}

/// Draws `rows` as a table, the cells without their escape characters.
pub fn draw_table(rows: &Vec<Vec<String>>) -> (r: String)
    ensures
        r@ == drawn(table_texts(rows@)),
{
    render_table(&clean_rows(rows))
}

/// The titles of the columns of a host's GPUs.
pub open spec fn gpu_header() -> Seq<Seq<char>> {
    seq!["Index"@, "Name"@, "Total mem (GB)"@, "Used mem (GB)"@, "Util (%)"@]
}

/// The cells of one GPU: index, name, memory in gigabytes (a thousandth
/// of the megabytes reported) and utilization as a percentage, each of the
/// three numbers rounded to two decimals, a tie to the even neighbour.
pub open spec fn gpu_row(g: GpuRecordView) -> Seq<Seq<char>> {
    seq![
        decimal_text(g.index),
        g.name,
        metric_text(two_places(g.total_memory, -3)),
        metric_text(two_places(g.used_memory, -3)),
        metric_text(two_places(g.utilization, 2)),
    ]
}

/// The rows of a host's GPUs: the titles, then one row for each record.
pub open spec fn gpu_rows(records: Seq<GpuRecordView>) -> Seq<Seq<Seq<char>>> {
    seq![gpu_header()] + records.map_values(|g: GpuRecordView| gpu_row(g))
}

/// The titles of the columns of the fleet.
pub open spec fn host_header() -> Seq<Seq<char>> {
    seq!["Hostname"@, "GPUs"@]
}

/// The cells of one host: its name, and the drawn table of its GPUs or the
/// words for its failure.
pub open spec fn host_row(result: HostResultView) -> Seq<Seq<char>> {
    seq![
        result.hostname,
        match result.result {
            Ok(host) => drawn(gpu_rows(host.gpu_records)),
            Err(e) => error_message(e),
        },
    ]
}

/// The rows of the fleet: the titles, then one row for each host.
pub open spec fn host_rows(results: Seq<HostResultView>) -> Seq<Seq<Seq<char>>> {
    seq![host_header()] + results.map_values(|r: HostResultView| host_row(r))
}

/// The views of `results`, in order.
pub open spec fn result_views(results: Seq<HostResult>) -> Seq<HostResultView> {
    results.map_values(|r: HostResult| r@)
}

/// Lays out one GPU as a row of cells.
pub fn gpu_record_row(r: &GpuRecord) -> (row: Vec<String>)
    requires
        r.wf(),
    ensures
        texts(row@) == gpu_row(r@),
{
    let mut row: Vec<String> = Vec::new();
    row.push(usize_text(r.index));
    row.push(r.name.clone());
    row.push(r.total_memory.two_places(-3).text());
    row.push(r.used_memory.two_places(-3).text());
    row.push(r.utilization.two_places(2).text());
    assert(texts(row@) =~= gpu_row(r@));
    row
}

/// Lays out the GPUs of one host as rows of cells under their titles.
pub fn gpu_record_table(rs: &Vec<GpuRecord>) -> (rows: Vec<Vec<String>>)
    requires
        all_wf(rs@),
    ensures
        table_texts(rows@) == gpu_rows(record_views(rs@)),
{
    let mut header: Vec<String> = Vec::new();
    header.push("Index".to_owned());
    header.push("Name".to_owned());
    header.push("Total mem (GB)".to_owned());
    header.push("Used mem (GB)".to_owned());
    header.push("Util (%)".to_owned());
    assert(texts(header@) =~= gpu_header());
    let mut rows: Vec<Vec<String>> = Vec::new();
    rows.push(header);
    let ghost views = record_views(rs@);
    assert(table_texts(rows@) =~= gpu_rows(views.take(0)));
    let n: usize = rs.len();
    let mut i: usize = 0;
    while i < n
        invariant
            i <= n,
            n == rs@.len(),
            views == record_views(rs@),
            all_wf(rs@),
            table_texts(rows@) == gpu_rows(views.take(i as int)),
        decreases n - i,
    {
        let row = gpu_record_row(&rs[i]);
        let ghost before = rows@;
        rows.push(row);
        proof {
            let cells = |g: GpuRecordView| gpu_row(g);
            assert(views.take(i + 1).map_values(cells) =~= views.take(i as int).map_values(
                cells,
            ).push(gpu_row(views[i as int])));
            assert(table_texts(rows@) =~= table_texts(before).push(texts(row@)));
            assert(table_texts(rows@) =~= gpu_rows(views.take(i + 1)));
        }
        i = i + 1;
    }
    assert(views.take(n as int) =~= views);
    rows
}

/// Lays out one host as a row of two cells: its name, and the drawn table
/// of its GPUs or the words for its failure.
pub fn host_record_row(result: &HostResult) -> (row: Vec<String>)
    requires
        result.wf(),
    ensures
        texts(row@) == host_row(result@),
{
    let cell = match &result.result {
        Ok(record) => draw_table(&gpu_record_table(&record.gpu_records)),
        Err(error) => error.message(),
    };
    let mut row: Vec<String> = Vec::new();
    row.push(result.hostname.clone());
    row.push(cell);
    assert(texts(row@) =~= host_row(result@));
    row
}

/// Lays out the fleet as rows of cells under their titles, one row for
/// each host in the order given.
pub fn host_records_rows(records: &Vec<HostResult>) -> (rows: Vec<Vec<String>>)
    requires
        forall|i: int| 0 <= i < records@.len() ==> (#[trigger] records@[i]).wf(),
    ensures
        table_texts(rows@) == host_rows(result_views(records@)),
{
    let mut header: Vec<String> = Vec::new();
    header.push("Hostname".to_owned());
    header.push("GPUs".to_owned());
    assert(texts(header@) =~= host_header());
    let mut rows: Vec<Vec<String>> = Vec::new();
    rows.push(header);
    let ghost views = result_views(records@);
    assert(table_texts(rows@) =~= host_rows(views.take(0)));
    let n: usize = records.len();
    let mut i: usize = 0;
    while i < n
        invariant
            i <= n,
            n == records@.len(),
            views == result_views(records@),
            forall|k: int| 0 <= k < records@.len() ==> (#[trigger] records@[k]).wf(),
            table_texts(rows@) == host_rows(views.take(i as int)),
        decreases n - i,
    {
        let row = host_record_row(&records[i]);
        let ghost before = rows@;
        rows.push(row);
        proof {
            let cells = |r: HostResultView| host_row(r);
            assert(views.take(i + 1).map_values(cells) =~= views.take(i as int).map_values(
                cells,
            ).push(host_row(views[i as int])));
            assert(table_texts(rows@) =~= table_texts(before).push(texts(row@)));
            assert(table_texts(rows@) =~= host_rows(views.take(i + 1)));
        }
        i = i + 1;
    }
    assert(views.take(n as int) =~= views);
    rows
}

/// Draws the fleet's table: a row of titles, then one row for each host in
/// the order given.
pub fn host_records_table(records: &Vec<HostResult>) -> (r: String)
    requires
        forall|i: int| 0 <= i < records@.len() ==> (#[trigger] records@[i]).wf(),
    ensures
        r@ == drawn(host_rows(result_views(records@))),
{
    draw_table(&host_records_rows(records))
}

} // verus!
