use mem_hog::float::{parse_float, percent_of, scaled_digits};
use mem_hog::plan::{plan_threads, reader_share, ThreadPlan};
use mem_hog::rate::{find_var, parse_bps, RateError};
use mem_hog::size::{parse_size, NumError};

fn vars(pairs: &[(&str, &str)]) -> Vec<(String, String)> {
    pairs.iter().map(|(k, v)| (k.to_string(), v.to_string())).collect()
}

#[test]
fn sizes_in_digits_and_suffixes() {
    assert_eq!(parse_size("4096"), Ok(4096));
    assert_eq!(parse_size("0"), Ok(0));
    assert_eq!(parse_size("4k"), Ok(4096));
    assert_eq!(parse_size("4K"), Ok(4096));
    assert_eq!(parse_size("7b"), Ok(7));
    assert_eq!(parse_size("3M"), Ok(3 << 20));
    assert_eq!(parse_size("1G"), Ok(1 << 30));
    assert_eq!(parse_size("2t"), Ok(2 << 40));
    assert_eq!(parse_size("5P"), Ok(5 << 50));
    assert_eq!(parse_size("15E"), Ok(15 << 60));
    assert_eq!(parse_size("18446744073709551615"), Ok(u64::MAX));
}

#[test]
fn malformed_sizes() {
    assert_eq!(parse_size(""), Err(NumError::Malformed));
    assert_eq!(parse_size("k"), Err(NumError::Malformed));
    assert_eq!(parse_size("12x"), Err(NumError::Malformed));
    assert_eq!(parse_size("1.5G"), Err(NumError::Malformed));
    assert_eq!(parse_size("4kk"), Err(NumError::Malformed));
    assert_eq!(parse_size(" 4"), Err(NumError::Malformed));
}

#[test]
fn sizes_too_large() {
    assert_eq!(parse_size("18446744073709551616"), Err(NumError::TooLarge));
    assert_eq!(parse_size("16E"), Err(NumError::TooLarge));
    assert_eq!(parse_size("99999999999999999999999k"), Err(NumError::TooLarge));
}

#[test]
fn absolute_rate_is_the_size() {
    let v = vars(&[("IO_WBPS", "1000")]);
    assert_eq!(parse_bps("1M", "IO_WBPS", &v), Ok(1 << 20));
    assert_eq!(parse_bps("12345", "IO_WBPS", &v), Ok(12345));
    assert_eq!(parse_bps("0", "IO_WBPS", &vec![]), Ok(0));
}

#[test]
fn half_of_baseline() {
    let v = vars(&[("IO_RBPS", "7"), ("IO_WBPS", "1000")]);
    assert_eq!(parse_bps("50%", "IO_WBPS", &v), Ok(500));
}

#[test]
fn fractional_percentage_rounds_down() {
    let v = vars(&[("IO_WBPS", "1k")]);
    assert_eq!(parse_bps("12.5%", "IO_WBPS", &v), Ok(128));
    assert_eq!(parse_bps("0.1%", "IO_WBPS", &v), Ok(1));
    assert_eq!(parse_bps("0.09%", "IO_WBPS", &v), Ok(0));
    assert_eq!(parse_bps("300%", "IO_WBPS", &v), Ok(3072));
}

#[test]
fn percentage_without_baseline_fails() {
    let v = vars(&[("IO_RBPS", "1000")]);
    assert_eq!(parse_bps("50%", "IO_WBPS", &v), Err(RateError::MissingBaseline));
    assert_eq!(parse_bps("50%", "IO_WBPS", &vec![]), Err(RateError::MissingBaseline));
}

#[test]
fn rate_errors() {
    let v = vars(&[("IO_WBPS", "abc"), ("BIG", "16383P")]);
    assert_eq!(parse_bps("x%", "IO_WBPS", &v), Err(RateError::Percent));
    assert_eq!(parse_bps("%", "IO_WBPS", &v), Err(RateError::Percent));
    assert_eq!(parse_bps("50%", "IO_WBPS", &v), Err(RateError::Baseline(NumError::Malformed)));
    assert_eq!(parse_bps("abc", "IO_WBPS", &v), Err(RateError::Size(NumError::Malformed)));
    assert_eq!(parse_bps("99999999999999999999", "IO_WBPS", &v), Err(RateError::Size(NumError::TooLarge)));
    assert_eq!(parse_bps("200%", "BIG", &v), Ok(u64::MAX));
}

#[test]
fn first_matching_variable_wins() {
    let v = vars(&[("A", "1"), ("IO_WBPS", "2"), ("IO_WBPS", "3")]);
    assert_eq!(find_var(&v, "IO_WBPS").map(|s| s.as_str()), Some("2"));
    assert_eq!(find_var(&v, "IO_WBP"), None);
    assert_eq!(parse_bps("100%", "IO_WBPS", &v), Ok(2));
}

#[test]
fn reader_share_rounds_up() {
    assert_eq!(reader_share(10, 3), 4);
    assert_eq!(reader_share(9, 3), 3);
    assert_eq!(reader_share(0, 3), 0);
    assert_eq!(reader_share(10, 0), 0);
    assert_eq!(reader_share(u64::MAX, 2), u64::MAX / 2 + 1);
}

#[test]
fn thread_plans() {
    let v = vars(&[("IO_RBPS", "4M")]);
    let p = plan_threads("1M", "75%", 2, "IO_WBPS", "IO_RBPS", &v).unwrap();
    assert_eq!(p, ThreadPlan { write_bps: 1 << 20, read_bps: 3 << 19, readers: 2 });
    assert!(p.has_writer());
    let p = plan_threads("0", "0", 4, "IO_WBPS", "IO_RBPS", &v).unwrap();
    assert_eq!(p, ThreadPlan { write_bps: 0, read_bps: 0, readers: 0 });
    assert!(!p.has_writer());
    let p = plan_threads("1k", "1k", 0, "IO_WBPS", "IO_RBPS", &v).unwrap();
    assert_eq!(p.readers, 0);
    assert_eq!(
        plan_threads("10%", "10%", 1, "IO_WBPS", "IO_RBPS", &v),
        Err(RateError::MissingBaseline)
    );
    assert_eq!(
        plan_threads("1k", "oops", 1, "IO_WBPS", "IO_RBPS", &v),
        Err(RateError::Size(NumError::Malformed))
    );
}

#[test]
fn percentage_in_any_float_form() {
    let v = vars(&[("IO_WBPS", "1000")]);
    let rate = |s: &str| parse_bps(s, "IO_WBPS", &v);
    assert_eq!(rate(".5%"), Ok(5));
    assert_eq!(rate("5.%"), Ok(50));
    assert_eq!(rate("+50%"), Ok(500));
    assert_eq!(rate("1e2%"), Ok(1000));
    assert_eq!(rate("1.5E1%"), Ok(150));
    assert_eq!(rate("2500e-2%"), Ok(250));
    assert_eq!(rate("33.333%"), Ok(333));
    assert_eq!(rate("0.001%"), Ok(0));
    assert_eq!(rate("12345678901234567890123456789e-27%"), Ok(123));
    assert_eq!(rate("0000000000000000000000000000050%"), Ok(500));
}

#[test]
fn negative_or_nan_percentage_is_zero() {
    let v = vars(&[("IO_WBPS", "1000")]);
    let rate = |s: &str| parse_bps(s, "IO_WBPS", &v);
    assert_eq!(rate("-5%"), Ok(0));
    assert_eq!(rate("-0%"), Ok(0));
    assert_eq!(rate("-inf%"), Ok(0));
    assert_eq!(rate("NaN%"), Ok(0));
    assert_eq!(rate("-nan%"), Ok(0));
}

#[test]
fn huge_percentage_saturates() {
    let v = vars(&[("IO_WBPS", "1000"), ("ZERO", "0")]);
    assert_eq!(parse_bps("inf%", "IO_WBPS", &v), Ok(u64::MAX));
    assert_eq!(parse_bps("Infinity%", "IO_WBPS", &v), Ok(u64::MAX));
    assert_eq!(parse_bps("1e30%", "IO_WBPS", &v), Ok(u64::MAX));
    assert_eq!(parse_bps("1e999999999999999999999999999999%", "IO_WBPS", &v), Ok(u64::MAX));
    assert_eq!(parse_bps("1e-999999999999999999999999999999%", "IO_WBPS", &v), Ok(0));
    assert_eq!(parse_bps("inf%", "ZERO", &v), Ok(0));
    assert_eq!(parse_bps("1e30%", "ZERO", &v), Ok(0));
}

#[test]
fn malformed_percentages() {
    let v = vars(&[("IO_WBPS", "1000")]);
    for s in ["e5%", ".%", "1e%", "1e+%", "--5%", "5..0%", "1.2.3%", "in%", "infinit%", " 5%", "5 %"] {
        assert_eq!(parse_bps(s, "IO_WBPS", &v), Err(RateError::Percent), "{}", s);
    }
}

#[test]
fn float_forms_and_scaling() {
    let p = parse_float("-1.25e3").unwrap();
    assert_eq!((p.kind, p.neg, p.frac_len, p.exp), (0, true, 2, 3));
    assert_eq!(p.digits, vec!['1', '2', '5']);
    assert_eq!(parse_float("INF").unwrap().kind, 1);
    assert_eq!(parse_float("nan").unwrap().kind, 2);
    assert!(parse_float("1e").is_none());
    assert!(parse_float("").is_none());
    let digits = vec!['1', '2'];
    assert_eq!(scaled_digits(3, &digits, -1), 360);
    assert_eq!(scaled_digits(3, &digits, 0), 36);
    assert_eq!(scaled_digits(3, &digits, 1), 3);
    assert_eq!(scaled_digits(3, &digits, 5), 0);
    assert_eq!(scaled_digits(u64::MAX, &digits, 0), u64::MAX);
    assert_eq!(percent_of(1000, &parse_float("12.5").unwrap()), 125);
    assert_eq!(percent_of(0, &parse_float("inf").unwrap()), 0);
}
