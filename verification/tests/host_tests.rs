use gpu_hosts::cli_table::{
    clean_cell, clean_rows, draw_table, gpu_record_row, gpu_record_table, host_record_row,
    host_records_rows, host_records_table,
};
use gpu_hosts::host::{
    fetch, fetch_host, fetch_hosts, parse_csv, parse_rows, HostError, HostOutput, HostRecord,
    HostResult, ParseError, ProcessOutput,
};
use gpu_hosts::metric::Metric;
use gpu_hosts::record::{GpuRecord, RowError};

const REPORT: &str = "index, name, memory.total [MiB], memory.used [MiB], utilization.gpu [%]\n\
0, TITAN X, 12189 MiB, 100 MiB, 0 %\n\
1, GTX 1080, 8114 MiB, 4057 MiB, 100 %\n";

fn metric(digits: &[u8], scale: u128) -> Metric {
    Metric { digits: digits.to_vec(), scale }
}

fn titan() -> GpuRecord {
    GpuRecord {
        index: 0,
        name: "TITAN X".to_string(),
        total_memory: metric(&[1, 2, 1, 8, 9], 0),
        used_memory: metric(&[1, 0, 0], 0),
        utilization: metric(&[0], 2),
    }
}

fn gtx() -> GpuRecord {
    GpuRecord {
        index: 1,
        name: "GTX 1080".to_string(),
        total_memory: metric(&[8, 1, 1, 4], 0),
        used_memory: metric(&[4, 0, 5, 7], 0),
        utilization: metric(&[1, 0, 0], 2),
    }
}

fn succeeded(stdout: &str) -> ProcessOutput {
    ProcessOutput { success: true, stdout: stdout.as_bytes().to_vec(), stderr: Vec::new() }
}

fn failed(stderr: &[u8]) -> ProcessOutput {
    ProcessOutput { success: false, stdout: Vec::new(), stderr: stderr.to_vec() }
}

fn rows(table: &[&[&str]]) -> Vec<Vec<String>> {
    table.iter().map(|r| r.iter().map(|f| f.to_string()).collect()).collect()
}

#[test]
fn report_yields_one_record_per_data_row() {
    let r = parse_csv(&REPORT.as_bytes().to_vec());
    assert_eq!(r, Ok(vec![titan(), gtx()]));
}

#[test]
fn first_data_row_is_kept() {
    let r = parse_csv(&REPORT.as_bytes().to_vec()).unwrap();
    assert_eq!(r[0].index, 0);
    assert_eq!(r[0].name, "TITAN X");
}

#[test]
fn report_with_n_rows_yields_n_records() {
    for n in 0..6usize {
        let mut text = String::from("index, name, total, used, util\n");
        for i in 0..n {
            text.push_str(&format!("{}, GPU, 1000 MiB, {} MiB, {} %\n", i, i * 10, i));
        }
        let r = parse_csv(&text.into_bytes()).unwrap();
        assert_eq!(r.len(), n);
        for i in 0..n {
            assert_eq!(r[i].index, i);
        }
    }
}

#[test]
fn header_alone_yields_no_records() {
    let r = parse_csv(&b"index, name, total, used, util\n".to_vec());
    assert_eq!(r, Ok(vec![]));
}

#[test]
fn empty_report_yields_no_records() {
    assert_eq!(parse_csv(&Vec::new()), Ok(vec![]));
}

#[test]
fn header_is_not_read_as_a_record() {
    let r = parse_csv(&b"a,b\n".to_vec());
    assert_eq!(r, Ok(vec![]));
}

#[test]
fn quoted_field_is_one_field() {
    let r = parse_csv(&b"i,n,t,u,p\n2,\" A, B\",1 MiB,2 MiB,3 %\n".to_vec()).unwrap();
    assert_eq!(r[0].name, "A, B");
}

#[test]
fn rows_of_unequal_length_are_malformed() {
    let r = parse_csv(&b"a,b,c,d,e\n0, A, 1, 1\n".to_vec());
    assert!(matches!(r, Err(ParseError::Malformed(_))));
}

#[test]
fn invalid_utf8_is_malformed() {
    let r = parse_csv(&b"a,b,c,d,e\n0, \xff, 1, 1, 1\n".to_vec());
    assert!(matches!(r, Err(ParseError::Malformed(_))));
}

#[test]
fn first_bad_row_is_named() {
    let text = "i,n,t,u,p\n0, A, 1, 1, 1\nx, B, 1, 1, 1\n2, C, bad, 1, 1\n";
    assert_eq!(parse_csv(&text.as_bytes().to_vec()), Err(ParseError::Row(2, RowError::BadIndex)));
    let text = "i,n,t,u,p\n0, A, 1, 1, %\n";
    assert_eq!(
        parse_csv(&text.as_bytes().to_vec()),
        Err(ParseError::Row(1, RowError::BadMetric(4)))
    );
    let text = "i,n,t\n0, A, 1\n";
    assert_eq!(
        parse_csv(&text.as_bytes().to_vec()),
        Err(ParseError::Row(1, RowError::MissingField))
    );
}

#[test]
fn parse_rows_skips_the_first_row() {
    let table = rows(&[&["not", "a", "record"], &["4", " K80", "11441 MiB", "0 MiB", "12 %"]]);
    let r = parse_rows(&table).unwrap();
    assert_eq!(r.len(), 1);
    assert_eq!(r[0].index, 4);
    assert_eq!(r[0].name, "K80");
    assert_eq!(r[0].utilization, metric(&[1, 2], 2));
    assert_eq!(parse_rows(&Vec::new()), Ok(vec![]));
}

#[test]
fn successful_command_gives_its_output() {
    let out = succeeded("abc");
    assert_eq!(fetch(&out), Ok(&b"abc".to_vec()));
}

#[test]
fn successful_command_ignores_its_error_stream() {
    let out = ProcessOutput { success: true, stdout: b"x".to_vec(), stderr: b"warning".to_vec() };
    assert_eq!(fetch(&out), Ok(&b"x".to_vec()));
}

#[test]
fn failed_command_gives_its_error_text() {
    let out = ProcessOutput {
        success: false,
        stdout: REPORT.as_bytes().to_vec(),
        stderr: b"ssh: connect to host a port 22: Connection refused\n".to_vec(),
    };
    assert_eq!(
        fetch(&out),
        Err("ssh: connect to host a port 22: Connection refused\n".to_string())
    );
}

#[test]
fn failed_command_with_unreadable_error_text() {
    assert_eq!(fetch(&failed(b"\xff\xfe")), Err("parse error".to_string()));
}

#[test]
fn failed_host_has_a_transport_failure_and_no_records() {
    let r = fetch_host("alpha", &failed("Permission denied".as_bytes()));
    assert_eq!(r, Err(HostError::Ssh("Permission denied".to_string())));
}

#[test]
fn host_with_a_report_has_records() {
    let r = fetch_host("alpha", &succeeded(REPORT));
    assert_eq!(r, Ok(HostRecord { hostname: "alpha".to_string(), gpu_records: vec![titan(), gtx()] }));
}

#[test]
fn host_with_a_bad_report_has_a_parse_failure() {
    let r = fetch_host("alpha", &succeeded("h,h,h,h,h\n0, A, 1, 1, 1\n1, B, 1\n"));
    assert!(matches!(r, Err(HostError::Csv(ParseError::Malformed(_)))));
    let r = fetch_host("alpha", &succeeded("h,h,h,h,h\n0, A, 1, none, 1\n"));
    assert_eq!(r, Err(HostError::Csv(ParseError::Row(1, RowError::BadMetric(3)))));
}

#[test]
fn fleet_has_one_result_per_host_in_order() {
    let outputs = vec![
        HostOutput { hostname: "alpha".to_string(), output: succeeded(REPORT) },
        HostOutput { hostname: "beta".to_string(), output: failed(b"no route") },
        HostOutput { hostname: "gamma".to_string(), output: succeeded("garbage\n1,2\n") },
        HostOutput { hostname: "alpha".to_string(), output: succeeded("h,h,h,h,h\n") },
    ];
    let results = fetch_hosts(&outputs);
    assert_eq!(results.len(), 4);
    assert_eq!(results[0].hostname, "alpha");
    assert_eq!(
        results[0].result,
        Ok(HostRecord { hostname: "alpha".to_string(), gpu_records: vec![titan(), gtx()] })
    );
    assert_eq!(results[1].hostname, "beta");
    assert_eq!(results[1].result, Err(HostError::Ssh("no route".to_string())));
    assert_eq!(results[2].hostname, "gamma");
    assert!(matches!(results[2].result, Err(HostError::Csv(ParseError::Malformed(_)))));
    assert_eq!(results[3].hostname, "alpha");
    assert_eq!(
        results[3].result,
        Ok(HostRecord { hostname: "alpha".to_string(), gpu_records: vec![] })
    );
}

#[test]
fn fleet_size_is_kept() {
    for k in 0..5usize {
        let outputs: Vec<HostOutput> = (0..k)
            .map(|i| HostOutput {
                hostname: format!("host{}", i),
                output: if i % 2 == 0 { succeeded(REPORT) } else { failed(b"down") },
            })
            .collect();
        let results = fetch_hosts(&outputs);
        assert_eq!(results.len(), k);
        for i in 0..k {
            assert_eq!(results[i].hostname, format!("host{}", i));
            assert_eq!(results[i].result.is_ok(), i % 2 == 0);
        }
    }
}

#[test]
fn failures_have_words() {
    assert_eq!(HostError::Ssh("down".to_string()).message(), "SSH error: down");
    assert_eq!(
        HostError::Csv(ParseError::Malformed("bad quote".to_string())).message(),
        "bad quote"
    );
    assert_eq!(
        HostError::Csv(ParseError::Row(12, RowError::MissingField)).message(),
        "row 12: missing field"
    );
    assert_eq!(ParseError::Row(1, RowError::BadIndex).message(), "row 1: invalid index");
    assert_eq!(RowError::BadMetric(3).message(), "invalid number in field 3");
}

#[test]
fn malformed_report_carries_the_reader_message() {
    let r = parse_csv(&b"a,b\n1,2,3\n".to_vec());
    assert_eq!(
        r,
        Err(ParseError::Malformed(
            "CSV error: record 1 (line: 2, byte: 4): found record with 3 fields, \
             but the previous record has 2 fields"
                .to_string()
        ))
    );
}

#[test]
fn gpu_row_has_five_cells() {
    assert_eq!(gpu_record_row(&titan()), vec!["0", "TITAN X", "12.19", "0.10", "0.00"]);
    assert_eq!(gpu_record_row(&gtx()), vec!["1", "GTX 1080", "8.11", "4.06", "100.00"]);
}

#[test]
fn gpu_table_starts_with_the_titles() {
    let t = gpu_record_table(&vec![titan(), gtx()]);
    assert_eq!(t.len(), 3);
    assert_eq!(t[0], vec!["Index", "Name", "Total mem (GB)", "Used mem (GB)", "Util (%)"]);
    assert_eq!(t[1], gpu_record_row(&titan()));
    assert_eq!(t[2], gpu_record_row(&gtx()));
}

#[test]
fn failed_host_shows_its_error() {
    let r = HostResult { hostname: "beta".to_string(), result: Err(HostError::Ssh("down".to_string())) };
    assert_eq!(host_record_row(&r), vec!["beta", "SSH error: down"]);
}

#[test]
fn host_with_records_shows_a_table() {
    let r = HostResult {
        hostname: "alpha".to_string(),
        result: Ok(HostRecord { hostname: "alpha".to_string(), gpu_records: vec![titan()] }),
    };
    let row = host_record_row(&r);
    assert_eq!(row.len(), 2);
    assert_eq!(row[0], "alpha");
    let expected = "\
+-------+---------+----------------+---------------+----------+\n\
| Index | Name    | Total mem (GB) | Used mem (GB) | Util (%) |\n\
+-------+---------+----------------+---------------+----------+\n\
| 0     | TITAN X | 12.19          | 0.10          | 0.00     |\n\
+-------+---------+----------------+---------------+----------+\n";
    assert_eq!(row[1], expected);
}

#[test]
fn empty_fleet_shows_the_titles() {
    assert_eq!(host_records_rows(&Vec::new()), vec![vec!["Hostname", "GPUs"]]);
    let expected = "\
+----------+------+\n\
| Hostname | GPUs |\n\
+----------+------+\n";
    assert_eq!(host_records_table(&Vec::new()), expected);
}

#[test]
fn fleet_table_has_a_row_per_host() {
    let results = fetch_hosts(&vec![
        HostOutput { hostname: "alpha".to_string(), output: failed(b"down") },
        HostOutput { hostname: "beta".to_string(), output: failed(b"refused") },
    ]);
    assert_eq!(
        host_records_rows(&results),
        vec![
            vec!["Hostname", "GPUs"],
            vec!["alpha", "SSH error: down"],
            vec!["beta", "SSH error: refused"],
        ]
    );
    let expected = "\
+----------+--------------------+\n\
| Hostname | GPUs               |\n\
+----------+--------------------+\n\
| alpha    | SSH error: down    |\n\
+----------+--------------------+\n\
| beta     | SSH error: refused |\n\
+----------+--------------------+\n";
    assert_eq!(host_records_table(&results), expected);
}

#[test]
fn results_of_a_fleet_are_valid() {
    let results = fetch_hosts(&vec![
        HostOutput { hostname: "alpha".to_string(), output: succeeded(REPORT) },
        HostOutput { hostname: "beta".to_string(), output: failed(b"down") },
    ]);
    assert!(results.iter().all(|r| r.is_valid()));
}

#[test]
fn reading_with_a_digit_above_nine_is_not_valid() {
    assert!(metric(&[1, 9], 0).is_valid());
    assert!(!metric(&[1, 10], 0).is_valid());
    assert!(!metric(&[], 0).is_valid());
    let mut g = titan();
    assert!(g.is_valid());
    g.used_memory = metric(&[12], 0);
    assert!(!g.is_valid());
    let h = HostRecord { hostname: "alpha".to_string(), gpu_records: vec![titan(), g] };
    assert!(!h.is_valid());
    let r = HostResult { hostname: "alpha".to_string(), result: Ok(h) };
    assert!(!r.is_valid());
}

#[test]
fn fleet_table_nests_the_gpu_tables() {
    let results = fetch_hosts(&vec![HostOutput {
        hostname: "alpha".to_string(),
        output: succeeded(REPORT),
    }]);
    let text = host_records_table(&results);
    let lines: Vec<&str> = text.lines().collect();
    assert_eq!(lines.len(), 11);
    assert!(lines[1].starts_with("| Hostname | GPUs "));
    assert!(lines[3].starts_with("| alpha    | +-------+"));
    assert!(lines[4].contains("| Index | Name     | Total mem (GB) | Used mem (GB) | Util (%) |"));
    assert!(lines[6].contains("| 0     | TITAN X  | 12.19          | 0.10          | 0.00     |"));
    assert!(lines[8].contains("| 1     | GTX 1080 | 8.11           | 4.06          | 100.00   |"));
}

#[test]
fn gpu_row_shows_gigabytes_and_percent_with_two_decimals() {
    let g = GpuRecord {
        index: 0,
        name: "TITAN X".to_string(),
        total_memory: metric(&[1, 2, 2, 8, 8], 0),
        used_memory: metric(&[1, 2, 3, 4], 0),
        utilization: metric(&[4, 5], 2),
    };
    assert_eq!(gpu_record_row(&g), vec!["0", "TITAN X", "12.29", "1.23", "45.00"]);
}

#[test]
fn cell_loses_its_escape_characters() {
    assert_eq!(clean_cell("plain"), "plain");
    assert_eq!(clean_cell(""), "");
    assert_eq!(clean_cell("\u{1b}[31mred\u{1b}[0m"), "[31mred[0m");
    assert_eq!(clean_cell("\u{1b}\u{1b}"), "");
    assert_eq!(clean_cell("Tésla\u{1b}é"), "Téslaé");
}

#[test]
fn rows_lose_their_escape_characters() {
    let rows = vec![
        vec!["a\u{1b}".to_string(), "b".to_string()],
        vec![],
        vec!["\u{1b}[c".to_string()],
    ];
    let expected: Vec<Vec<String>> =
        vec![vec!["a".to_string(), "b".to_string()], vec![], vec!["[c".to_string()]];
    assert_eq!(clean_rows(&rows), expected);
}

#[test]
fn escape_sequence_before_joined_letters_is_drawn() {
    let name = "\u{1b}[\u{644}\u{627}\u{644}\u{627}";
    let cleaned = "[\u{644}\u{627}\u{644}\u{627}";
    let with = draw_table(&vec![vec![name.to_string()]]);
    let without = draw_table(&vec![vec![cleaned.to_string()]]);
    assert_eq!(with, without);
    assert!(with.contains(cleaned));
    let results = vec![
        HostResult { hostname: name.to_string(), result: Err(HostError::Ssh(name.to_string())) },
        HostResult {
            hostname: "beta".to_string(),
            result: Ok(HostRecord {
                hostname: "beta".to_string(),
                gpu_records: vec![GpuRecord { name: name.to_string(), ..titan() }],
            }),
        },
    ];
    let text = host_records_table(&results);
    assert!(!text.contains('\u{1b}'));
    assert!(text.contains("SSH error: [\u{644}\u{627}\u{644}\u{627}"));
}

#[test]
fn drawing_keeps_cells_without_escape_characters() {
    let expected = "\
+---+----+\n\
| a | bc |\n\
+---+----+\n";
    assert_eq!(draw_table(&vec![vec!["a".to_string(), "bc".to_string()]]), expected);
}

#[test]
fn tables_of_any_shape_are_drawn() {
    assert_eq!(draw_table(&Vec::new()), "++\n++\n");
    let ragged = vec![
        vec![],
        vec!["a".to_string()],
        vec!["b".to_string(), "two\nlines".to_string(), "".to_string()],
    ];
    let text = draw_table(&ragged);
    assert!(text.contains("| b | two   |  |"));
    assert!(text.contains("|   | lines |  |"));
}

#[test]
fn rejected_report_shows_the_reader_message() {
    let results = fetch_hosts(&vec![HostOutput {
        hostname: "alpha".to_string(),
        output: succeeded("a,b\n1,2,3\n"),
    }]);
    assert_eq!(
        host_record_row(&results[0]),
        vec![
            "alpha",
            "CSV error: record 1 (line: 2, byte: 4): found record with 3 fields, \
             but the previous record has 2 fields"
        ]
    );
}

#[test]
fn outcome_of_a_host_does_not_depend_on_the_others() {
    let rejected = HostOutput { hostname: "alpha".to_string(), output: succeeded("a,b\n1\n") };
    let down = HostOutput { hostname: "beta".to_string(), output: failed(b"down") };
    let fine = HostOutput { hostname: "gamma".to_string(), output: succeeded(REPORT) };
    let alone = fetch_hosts(&vec![rejected.clone()]);
    let among = fetch_hosts(&vec![down, rejected, fine]);
    assert_eq!(alone[0], among[1]);
}
