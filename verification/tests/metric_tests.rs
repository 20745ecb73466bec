use gpu_hosts::metric::{parse_decimal, string_to_metric, Metric, NotANumber};
use gpu_hosts::text::usize_text;

fn metric(digits: &[u8], scale: u128) -> Metric {
    Metric { digits: digits.to_vec(), scale }
}

#[test]
fn memory_reading_loses_its_unit() {
    assert_eq!(string_to_metric("1234 MiB"), Ok(metric(&[1, 2, 3, 4], 0)));
}

#[test]
fn percent_reading_loses_its_sign() {
    assert_eq!(string_to_metric("45 %"), Ok(metric(&[4, 5], 0)));
}

#[test]
fn leading_space_is_removed() {
    assert_eq!(string_to_metric(" 12189 MiB"), Ok(metric(&[1, 2, 1, 8, 9], 0)));
}

#[test]
fn fraction_keeps_its_scale() {
    assert_eq!(string_to_metric("12.5 GB"), Ok(metric(&[1, 2, 5], 1)));
    assert_eq!(string_to_metric("0.075"), Ok(metric(&[0, 0, 7, 5], 3)));
}

#[test]
fn point_at_either_end_is_accepted() {
    assert_eq!(string_to_metric("5."), Ok(metric(&[5], 0)));
    assert_eq!(string_to_metric(".5"), Ok(metric(&[5], 1)));
}

#[test]
fn digits_apart_are_joined() {
    assert_eq!(string_to_metric("1e5"), Ok(metric(&[1, 5], 0)));
    assert_eq!(string_to_metric("1 024 MiB"), Ok(metric(&[1, 0, 2, 4], 0)));
}

#[test]
fn units_beyond_ascii_are_removed() {
    assert_eq!(string_to_metric("37 °C"), Ok(metric(&[3, 7], 0)));
    assert_eq!(string_to_metric("٣7"), Ok(metric(&[7], 0)));
}

#[test]
fn text_without_digits_is_no_number() {
    assert_eq!(string_to_metric(""), Err(NotANumber));
    assert_eq!(string_to_metric("MiB"), Err(NotANumber));
    assert_eq!(string_to_metric("[N/A]"), Err(NotANumber));
    assert_eq!(string_to_metric("."), Err(NotANumber));
}

#[test]
fn two_points_are_no_number() {
    assert_eq!(string_to_metric("1.2.3"), Err(NotANumber));
    assert_eq!(string_to_metric("v1.2 build 3.4"), Err(NotANumber));
}

#[test]
fn parse_decimal_rejects_foreign_characters() {
    assert_eq!(parse_decimal("12 MiB"), Err(NotANumber));
    assert_eq!(parse_decimal("12é"), Err(NotANumber));
    assert_eq!(parse_decimal("-12"), Err(NotANumber));
    assert_eq!(parse_decimal("12"), Ok(metric(&[1, 2], 0)));
    assert_eq!(parse_decimal("12.25"), Ok(metric(&[1, 2, 2, 5], 2)));
}

#[test]
fn long_reading_is_exact() {
    let text = "123456789012345678901234567890.5 B";
    let m = string_to_metric(text).unwrap();
    assert_eq!(m.scale, 1);
    assert_eq!(m.digits.len(), 31);
    assert_eq!(m.text(), "123456789012345678901234567890.5");
}

#[test]
fn per_hundred_of_zero_is_zero() {
    let m = string_to_metric("0 %").unwrap().per_hundred();
    assert_eq!(m, metric(&[0], 2));
    assert_eq!(m.text(), "0.00");
    assert_eq!(m.text().parse::<f64>().unwrap(), 0.0);
}

#[test]
fn per_hundred_of_hundred_is_one() {
    let m = string_to_metric("100 %").unwrap().per_hundred();
    assert_eq!(m, metric(&[1, 0, 0], 2));
    assert_eq!(m.text(), "1.00");
    assert_eq!(m.text().parse::<f64>().unwrap(), 1.0);
}

#[test]
fn per_hundred_of_forty_five() {
    let m = string_to_metric("45 %").unwrap().per_hundred();
    assert_eq!(m.text(), "0.45");
    assert_eq!(m.text().parse::<f64>().unwrap(), 0.45);
}

#[test]
fn per_hundred_of_a_fraction() {
    let m = string_to_metric("2.5 %").unwrap().per_hundred();
    assert_eq!(m, metric(&[2, 5], 3));
    assert_eq!(m.text(), "0.025");
}

#[test]
fn hundredfold_undoes_per_hundred() {
    for text in ["0", "7", "45", "100", "12.5", ".5", "0.001"] {
        let m = string_to_metric(text).unwrap();
        assert_eq!(m.clone().per_hundred().hundredfold(), m);
    }
}

#[test]
fn hundredfold_appends_zeros() {
    assert_eq!(metric(&[4, 5], 0).hundredfold(), metric(&[4, 5, 0, 0], 0));
    assert_eq!(metric(&[4, 5], 1).hundredfold(), metric(&[4, 5, 0], 0));
    assert_eq!(metric(&[4, 5], 2).hundredfold(), metric(&[4, 5], 0));
    assert_eq!(metric(&[4, 5], 3).hundredfold(), metric(&[4, 5], 1));
}

#[test]
fn text_places_the_point() {
    assert_eq!(metric(&[1, 2, 3, 4], 0).text(), "1234");
    assert_eq!(metric(&[1, 2, 3, 4], 1).text(), "123.4");
    assert_eq!(metric(&[1, 2, 3, 4], 3).text(), "1.234");
    assert_eq!(metric(&[1, 2, 3, 4], 4).text(), "0.1234");
    assert_eq!(metric(&[1, 2, 3, 4], 6).text(), "0.001234");
    assert_eq!(metric(&[0, 0, 7], 0).text(), "007");
}

#[test]
fn usize_text_writes_decimal() {
    assert_eq!(usize_text(0), "0");
    assert_eq!(usize_text(9), "9");
    assert_eq!(usize_text(10), "10");
    assert_eq!(usize_text(1234567), "1234567");
    assert_eq!(usize_text(usize::MAX), format!("{}", usize::MAX));
}

#[test]
fn text_reads_back_as_the_same_reading() {
    for (digits, scale) in [(vec![0u8], 0u128), (vec![1, 2, 3], 0), (vec![1, 2, 3], 1), (vec![1, 2, 3], 2)] {
        let m = Metric { digits, scale };
        assert_eq!(string_to_metric(&m.text()), Ok(m));
    }
}

#[test]
fn padded_text_reads_back_with_leading_zeros() {
    assert_eq!(string_to_metric(&metric(&[4, 5], 2).text()), Ok(metric(&[0, 4, 5], 2)));
    assert_eq!(string_to_metric(&metric(&[4, 5], 4).text()), Ok(metric(&[0, 0, 0, 4, 5], 4)));
}

fn gigabytes(megabytes: &str) -> String {
    string_to_metric(megabytes).unwrap().two_places(-3).text()
}

fn percent(ratio: &[u8], scale: u128) -> String {
    metric(ratio, scale).two_places(2).text()
}

#[test]
fn gigabytes_are_rounded_to_two_decimals() {
    assert_eq!(gigabytes("12288 MiB"), "12.29");
    assert_eq!(gigabytes("1234 MiB"), "1.23");
    assert_eq!(gigabytes("12126 MiB"), "12.13");
    assert_eq!(gigabytes("12000 MiB"), "12.00");
    assert_eq!(gigabytes("100 MiB"), "0.10");
    assert_eq!(gigabytes("0 MiB"), "0.00");
    assert_eq!(gigabytes("4 MiB"), "0.00");
    assert_eq!(gigabytes("6 MiB"), "0.01");
    assert_eq!(gigabytes("0.4 MiB"), "0.00");
    assert_eq!(gigabytes("1234.5678 MiB"), "1.23");
    assert_eq!(gigabytes("1235.0001 MiB"), "1.24");
}

#[test]
fn rounding_carries_into_a_new_digit() {
    assert_eq!(gigabytes("999996 MiB"), "1000.00");
    assert_eq!(gigabytes("9995 MiB"), "10.00");
    assert_eq!(gigabytes("1999 MiB"), "2.00");
}

#[test]
fn a_tie_goes_to_the_even_neighbour() {
    assert_eq!(gigabytes("12125 MiB"), "12.12");
    assert_eq!(gigabytes("12135 MiB"), "12.14");
    assert_eq!(gigabytes("1235 MiB"), "1.24");
    assert_eq!(gigabytes("1245 MiB"), "1.24");
    assert_eq!(gigabytes("5 MiB"), "0.00");
    assert_eq!(gigabytes("15 MiB"), "0.02");
    assert_eq!(gigabytes("5.0 MiB"), "0.00");
    assert_eq!(metric(&[1, 2, 3, 4, 5], 3).two_places(0).text(), "12.34");
    assert_eq!(metric(&[1, 2, 3, 5, 5], 3).two_places(0).text(), "12.36");
}

#[test]
fn zeros_in_front_are_not_shown() {
    assert_eq!(gigabytes("01234 MiB"), "1.23");
    assert_eq!(gigabytes("0012 MiB"), "0.01");
    assert_eq!(gigabytes("000000 MiB"), "0.00");
}

#[test]
fn percent_is_shown_with_two_decimals() {
    assert_eq!(percent(&[4, 5], 2), "45.00");
    assert_eq!(percent(&[0], 2), "0.00");
    assert_eq!(percent(&[1, 0, 0], 2), "100.00");
    assert_eq!(percent(&[2, 5], 3), "2.50");
    assert_eq!(percent(&[1], 0), "100.00");
    assert_eq!(percent(&[1, 2, 3, 4, 5, 6], 5), "123.46");
    assert_eq!(percent(&[1], 9), "0.00");
}

#[test]
fn two_places_has_scale_two() {
    for shift in [-3i8, 0, 2] {
        for (digits, scale) in [(vec![0u8], 0u128), (vec![9, 9, 9], 1), (vec![5], 7)] {
            let r = Metric { digits, scale }.two_places(shift);
            assert_eq!(r.scale, 2);
            assert!(r.is_valid());
            assert!(r.digits.len() >= 1);
        }
    }
}

#[test]
fn two_places_at_the_limits_of_scale() {
    assert_eq!(metric(&[9], u128::MAX).two_places(-3).text(), "0.00");
    assert_eq!(metric(&[9], u128::MAX).two_places(2).text(), "0.00");
    assert_eq!(metric(&[9], 0).two_places(i8::MAX).digits.len(), 130);
    assert_eq!(metric(&[9], 0).two_places(i8::MIN).text(), "0.00");
}
