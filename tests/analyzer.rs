use opstats::{csv_analysis, Analyzer, CSVAnalysis, Error, Fraction, Malformed, Report};

const HEADER: &str = "timestamp,elapsedtime_seconds,trace_id,jaeger_url\n";

fn log_of(lines: &[&str]) -> String {
    let mut text = String::from(HEADER);
    for line in lines {
        text.push_str(line);
        text.push('\n');
    }
    text
}

fn five_rows() -> Analyzer {
    let text = log_of(&[
        "2024-01-01T00:00:05Z,5.0,t5,https://trace.example/t5",
        "2024-01-01T00:00:01Z,1.0,t1,https://trace.example/t1",
        "2024-01-01T00:00:03Z,3.0,t3,https://trace.example/t3",
        "2024-01-01T00:00:02Z,2.0,t2,https://trace.example/t2",
        "2024-01-01T00:00:04Z,4.0,t4,https://trace.example/t4",
    ]);
    Analyzer::from_csv(&text).unwrap()
}

fn frac(numerator: u64, denominator: u64) -> Fraction {
    Fraction { numerator, denominator }
}

const SECOND: i128 = 1_000_000_000;

#[test]
fn five_rows_scenario() {
    let a = five_rows();
    assert_eq!(a.fastest(), Ok((SECOND, "t1".to_string())));
    assert_eq!(a.slowest(), Ok((5 * SECOND, "t5".to_string())));
    assert_eq!(a.percentile(frac(1, 2)), Ok(3 * SECOND));
    assert_eq!(a.percentile(frac(99, 100)), Ok(5 * SECOND));
}

#[test]
fn extremes_bound_every_row() {
    let a = five_rows();
    let (fast, _) = a.fastest().unwrap();
    let (slow, _) = a.slowest().unwrap();
    for k in 1..=5i128 {
        assert!(fast <= k * SECOND && k * SECOND <= slow);
    }
}

#[test]
fn top_percentile_is_slowest() {
    let a = five_rows();
    assert_eq!(a.percentile(frac(1, 1)), Ok(a.slowest().unwrap().0));
    assert_eq!(a.percentile(frac(100, 100)), Ok(5 * SECOND));
}

#[test]
fn lowest_percentile_on_one_row_is_fastest() {
    let a = Analyzer::from_csv(&log_of(&["x,0.25,only,u"])).unwrap();
    assert_eq!(a.percentile(frac(1, u64::MAX)), Ok(a.fastest().unwrap().0));
    let b = five_rows();
    // The "higher" rule rounds any positive rank up: the second smallest.
    assert_eq!(b.percentile(frac(1, u64::MAX)), Ok(2 * SECOND));
}

#[test]
fn queries_are_idempotent() {
    let a = five_rows();
    assert_eq!(a.fastest(), a.fastest());
    assert_eq!(a.slowest(), a.slowest());
    assert_eq!(a.percentile(frac(3, 10)), a.percentile(frac(3, 10)));
    let ps = [frac(1, 4), frac(3, 4)];
    assert_eq!(a.percentiles(&ps), a.percentiles(&ps));
}

#[test]
fn percentiles_are_monotone() {
    let a = five_rows();
    let mut last = 0;
    for p in 1..=100u64 {
        let v = a.percentile(frac(p, 100)).unwrap();
        assert!(last <= v);
        last = v;
    }
}

#[test]
fn batch_matches_single() {
    let a = five_rows();
    let p1 = frac(1, 2);
    let p2 = frac(99, 100);
    assert_eq!(
        a.percentiles(&[p1, p2]),
        Ok(vec![a.percentile(p1).unwrap(), a.percentile(p2).unwrap()])
    );
    assert_eq!(a.percentiles(&[frac(1, 4), frac(1, 1), frac(1, 10)]), Ok(vec![2 * SECOND, 5 * SECOND, 2 * SECOND]));
}

#[test]
fn header_only_log_is_empty() {
    let a = Analyzer::from_csv(HEADER).unwrap();
    assert_eq!(a.fastest(), Err(Error::EmptyDataset));
    assert_eq!(a.slowest(), Err(Error::EmptyDataset));
    assert_eq!(a.percentile(frac(1, 2)), Err(Error::EmptyDataset));
    assert_eq!(a.percentiles(&[frac(1, 2)]), Err(Error::EmptyDataset));
    assert_eq!(a.percentiles(&[]), Err(Error::EmptyDataset));
    assert_eq!(a.percentile(frac(0, 2)), Err(Error::EmptyDataset));
}

#[test]
fn header_without_newline_is_empty() {
    let a = Analyzer::from_csv("timestamp,elapsedtime_seconds,trace_id,jaeger_url").unwrap();
    assert_eq!(a.fastest(), Err(Error::EmptyDataset));
}

#[test]
fn non_numeric_elapsed_is_malformed() {
    let text = log_of(&["a,1.5,t1,u", "b,fast,t2,u", "c,2.5,t3,u"]);
    assert!(matches!(
        Analyzer::from_csv(&text),
        Err(Error::MalformedFile { line: 3, problem: Malformed::InvalidElapsed })
    ));
}

#[test]
fn empty_text_has_no_header() {
    assert!(matches!(
        Analyzer::from_csv(""),
        Err(Error::MalformedFile { line: 1, problem: Malformed::MissingHeader })
    ));
}

#[test]
fn wrong_column_count_is_malformed() {
    assert!(matches!(
        Analyzer::from_csv("timestamp,elapsedtime_seconds,trace_id\n"),
        Err(Error::MalformedFile { line: 1, problem: Malformed::ColumnCount { found: 3 } })
    ));
    let text = log_of(&["a,1.5,t1,u", "b,2.5,t2,u,extra"]);
    assert!(matches!(
        Analyzer::from_csv(&text),
        Err(Error::MalformedFile { line: 3, problem: Malformed::ColumnCount { found: 5 } })
    ));
}

#[test]
fn blank_line_is_malformed() {
    let text = format!("{}a,1.5,t1,u\n\n", HEADER);
    assert!(matches!(
        Analyzer::from_csv(&text),
        Err(Error::MalformedFile { line: 3, problem: Malformed::ColumnCount { found: 1 } })
    ));
}

#[test]
fn first_bad_line_is_reported() {
    let text = log_of(&["a,x,t1,u", "b,2.5,t2"]);
    assert!(matches!(
        Analyzer::from_csv(&text),
        Err(Error::MalformedFile { line: 2, problem: Malformed::InvalidElapsed })
    ));
}

fn elapsed_of(cell: &str) -> Result<i128, Error> {
    let text = log_of(&[&format!("a,{},t,u", cell)]);
    Analyzer::from_csv(&text).map(|a| a.fastest().unwrap().0)
}

#[test]
fn decimal_cells() {
    assert_eq!(elapsed_of("1.234"), Ok(1_234_000_000));
    assert_eq!(elapsed_of("0"), Ok(0));
    assert_eq!(elapsed_of("+2"), Ok(2 * SECOND));
    assert_eq!(elapsed_of(".5"), Ok(500_000_000));
    assert_eq!(elapsed_of("7."), Ok(7 * SECOND));
    assert_eq!(elapsed_of("0.000000001"), Ok(1));
    assert_eq!(elapsed_of("00012.5"), Ok(12_500_000_000));
    assert_eq!(elapsed_of("18446744073.709551615"), Ok(18_446_744_073_709_551_615));
    assert_eq!(elapsed_of("1.0000000000"), Ok(SECOND));
}

#[test]
fn exponent_cells() {
    assert_eq!(elapsed_of("1e3"), Ok(1000 * SECOND));
    assert_eq!(elapsed_of("1.5E-3"), Ok(1_500_000));
    assert_eq!(elapsed_of("1e+2"), Ok(100 * SECOND));
    assert_eq!(elapsed_of("2e-9"), Ok(2));
    assert_eq!(elapsed_of("+.25e1"), Ok(2_500_000_000));
    assert_eq!(elapsed_of("100000e-14"), Ok(1));
    assert_eq!(elapsed_of("18446744073709551615e-9"), Ok(18_446_744_073_709_551_615));
    assert_eq!(elapsed_of("1.8446744073709551615E10"), Ok(18_446_744_073_709_551_615));
    assert_eq!(elapsed_of("0e999999999999999999999999"), Ok(0));
    assert_eq!(elapsed_of("0.0e-999999999999999999999999"), Ok(0));
    assert_eq!(elapsed_of("1e-0"), Ok(SECOND));
}

#[test]
fn bad_decimal_cells() {
    let bad = Err(Error::MalformedFile { line: 2, problem: Malformed::InvalidElapsed });
    for cell in [
        "", ".", "+", "-", "+-1", "--1", "1.2.3", " 1", "abc", "NaN", "inf", "-inf", "1e", "1e+",
        "e5", "1e10e1", "1.5e1.5",
    ] {
        assert_eq!(elapsed_of(cell), bad, "cell {:?}", cell);
    }
}

#[test]
fn float_cells_round_to_nanoseconds() {
    assert_eq!(elapsed_of("-1"), Ok(-SECOND));
    assert_eq!(elapsed_of("-0.5e-3"), Ok(-500_000));
    assert_eq!(elapsed_of("1.0000000001"), Ok(SECOND));
    assert_eq!(elapsed_of("1e-10"), Ok(0));
    assert_eq!(elapsed_of("5e-10"), Ok(1));
    assert_eq!(elapsed_of("4.9e-10"), Ok(0));
    assert_eq!(elapsed_of("-5e-10"), Ok(-1));
    assert_eq!(elapsed_of("120000e-14"), Ok(1));
    assert_eq!(elapsed_of("0.0001234567890123"), Ok(123_457));
    assert_eq!(elapsed_of("18446744073.709551616"), Ok(18_446_744_073_709_551_616));
    assert_eq!(elapsed_of("99999999999999999999"), Ok(99_999_999_999_999_999_999_000_000_000));
    assert_eq!(elapsed_of("1e-999999999999999999999999"), Ok(0));
}

#[test]
fn float_cells_beyond_range_are_clamped() {
    assert_eq!(elapsed_of("170141183460469231731687303715.884105727"), Ok(i128::MAX));
    assert_eq!(elapsed_of("170141183460469231731687303715.884105728"), Ok(i128::MAX));
    assert_eq!(elapsed_of("-170141183460469231731687303715.884105728"), Ok(i128::MIN));
    assert_eq!(elapsed_of("-170141183460469231731687303715.884105727"), Ok(-i128::MAX));
    assert_eq!(elapsed_of("1e300"), Ok(i128::MAX));
    assert_eq!(elapsed_of("-1e99999999999999999999999"), Ok(i128::MIN));
}

#[test]
fn negative_elapsed_sorts_first() {
    let a = Analyzer::from_csv(&log_of(&["a,1,t1,u", "b,-2,t2,u", "c,0,t3,u"])).unwrap();
    assert_eq!(a.fastest(), Ok((-2 * SECOND, "t2".to_string())));
    assert_eq!(a.percentile(frac(1, 2)), Ok(0));
}

#[test]
fn crlf_lines_and_texts() {
    let text = "timestamp,elapsedtime_seconds,trace_id,jaeger_url\r\n2024,0.5,tré-1,https://x/é\r\n2025,0.25,t2,\r\n";
    let a = Analyzer::from_csv(text).unwrap();
    assert_eq!(a.slowest(), Ok((500_000_000, "tré-1".to_string())));
    assert_eq!(a.fastest(), Ok((250_000_000, "t2".to_string())));
}

#[test]
fn ties_give_the_first_row() {
    let a = Analyzer::from_csv(&log_of(&["a,2,first,u", "b,1,low1,u", "c,1,low2,u", "d,2,second,u"])).unwrap();
    assert_eq!(a.fastest(), Ok((SECOND, "low1".to_string())));
    assert_eq!(a.slowest(), Ok((2 * SECOND, "first".to_string())));
}

#[test]
fn invalid_percentiles() {
    let a = five_rows();
    assert_eq!(a.percentile(frac(0, 100)), Err(Error::InvalidPercentile { numerator: 0, denominator: 100 }));
    assert_eq!(a.percentile(frac(101, 100)), Err(Error::InvalidPercentile { numerator: 101, denominator: 100 }));
    assert_eq!(a.percentile(frac(1, 0)), Err(Error::InvalidPercentile { numerator: 1, denominator: 0 }));
    assert_eq!(
        a.percentiles(&[frac(1, 2), frac(3, 2), frac(0, 1)]),
        Err(Error::InvalidPercentile { numerator: 3, denominator: 2 })
    );
    assert_eq!(a.percentiles(&[]), Ok(vec![]));
}

#[test]
fn large_fractions_do_not_overflow() {
    let a = five_rows();
    assert_eq!(a.percentile(frac(u64::MAX, u64::MAX)), Ok(5 * SECOND));
    assert_eq!(a.percentile(frac(u64::MAX / 2, u64::MAX)), Ok(3 * SECOND));
}

#[test]
fn analysis_all() {
    let a = five_rows();
    match csv_analysis(&a, &CSVAnalysis::All) {
        Ok(Report::All { fastest, fastest_trace_id, slowest, slowest_trace_id, percentiles }) => {
            assert_eq!((fastest, fastest_trace_id.as_str()), (SECOND, "t1"));
            assert_eq!((slowest, slowest_trace_id.as_str()), (5 * SECOND, "t5"));
            assert_eq!(percentiles, vec![3 * SECOND, 5 * SECOND]);
        }
        _ => panic!("expected a full report"),
    }
}

#[test]
fn analysis_single_queries() {
    let a = five_rows();
    assert!(matches!(
        csv_analysis(&a, &CSVAnalysis::Fastest),
        Ok(Report::Fastest { elapsed_nanos: SECOND, ref trace_id }) if trace_id == "t1"
    ));
    assert!(matches!(
        csv_analysis(&a, &CSVAnalysis::Slowest),
        Ok(Report::Slowest { elapsed_nanos: 5_000_000_000, ref trace_id }) if trace_id == "t5"
    ));
    match csv_analysis(&a, &CSVAnalysis::Percentile { percentiles: vec![25, 50, 100] }) {
        Ok(Report::Percentiles { values }) => assert_eq!(values, vec![2 * SECOND, 3 * SECOND, 5 * SECOND]),
        _ => panic!("expected percentiles"),
    }
}

#[test]
fn analysis_errors() {
    let a = five_rows();
    assert!(matches!(
        csv_analysis(&a, &CSVAnalysis::Percentile { percentiles: vec![50, 0] }),
        Err(Error::InvalidPercentile { numerator: 0, denominator: 100 })
    ));
    assert!(matches!(
        csv_analysis(&a, &CSVAnalysis::Percentile { percentiles: vec![150] }),
        Err(Error::InvalidPercentile { numerator: 150, denominator: 100 })
    ));
    let empty = Analyzer::from_csv(HEADER).unwrap();
    for op in [CSVAnalysis::All, CSVAnalysis::Fastest, CSVAnalysis::Slowest, CSVAnalysis::Percentile { percentiles: vec![50] }] {
        assert!(matches!(csv_analysis(&empty, &op), Err(Error::EmptyDataset)));
    }
}

#[test]
fn quoted_cells() {
    let text = log_of(&[
        "\"2024-01-01, noon\",\"1.5\",\"t\"\"1\"\"\",\"https://x/?a=1,b=2\"",
        "b,\"2e0\",t2,\"\"",
    ]);
    let a = Analyzer::from_csv(&text).unwrap();
    assert_eq!(a.fastest(), Ok((1_500_000_000, "t\"1\"".to_string())));
    assert_eq!(a.slowest(), Ok((2 * SECOND, "t2".to_string())));
}

#[test]
fn quoted_header_and_comma() {
    let text = "\"timestamp\",\"elapsedtime_seconds\",\"trace_id\",\"jaeger_url\"\nx,1,\"a,b\",u\n";
    let a = Analyzer::from_csv(text).unwrap();
    assert_eq!(a.fastest(), Ok((SECOND, "a,b".to_string())));
}

#[test]
fn quoted_bad_elapsed() {
    let text = log_of(&["a,\"1.5x\",t,u"]);
    assert!(matches!(
        Analyzer::from_csv(&text),
        Err(Error::MalformedFile { line: 2, problem: Malformed::InvalidElapsed })
    ));
    let text = log_of(&["a,\"1,5\",t,u,v"]);
    assert!(matches!(
        Analyzer::from_csv(&text),
        Err(Error::MalformedFile { line: 2, problem: Malformed::ColumnCount { found: 5 } })
    ));
}

#[test]
fn lowest_percentile_with_repeated_minimum() {
    let a = Analyzer::from_csv(&log_of(&["a,3,t1,u", "b,1,t2,u", "c,1,t3,u", "d,2,t4,u"])).unwrap();
    assert_eq!(a.percentile(frac(1, 3)), Ok(a.fastest().unwrap().0));
    let b = Analyzer::from_csv(&log_of(&["a,3,t1,u", "b,1,t2,u", "d,2,t4,u"])).unwrap();
    assert_eq!(b.percentile(frac(1, 2)), Ok(2 * SECOND));
}

#[test]
fn bad_elapsed_anywhere_fails_load() {
    for bad in 0..3 {
        let mut lines = vec!["a,1,t1,u", "b,2,t2,u", "c,3,t3,u"];
        lines[bad] = "x,slow,tx,u";
        assert!(matches!(
            Analyzer::from_csv(&log_of(&lines)),
            Err(Error::MalformedFile { problem: Malformed::InvalidElapsed, .. })
        ));
    }
}
