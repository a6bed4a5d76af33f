use benchcmp::benchmark::Benchmark;
use benchcmp::utils::{drop_commas, drop_commas_and_parse, fmt_thousands_sep};

#[test]
fn parses_well_formed_line() {
    let b = Benchmark::parse("test mod::bench ... bench: 1,234 ns/iter (+/- 56)".to_string())
        .unwrap();
    assert_eq!(b.name, "mod::bench");
    assert_eq!(b.ns, 1234);
    assert_eq!(b.variance, 56);
    assert_eq!(b.throughput, None);
}

#[test]
fn parses_throughput_line() {
    let b = Benchmark::parse("test a::b ... bench: 10 ns/iter (+/- 1) = 2,000 MB/s".to_string())
        .unwrap();
    assert_eq!(b.name, "a::b");
    assert_eq!(b.ns, 10);
    assert_eq!(b.variance, 1);
    assert_eq!(b.throughput, Some(2000));
}

#[test]
fn rejects_line_without_bench_marker() {
    assert!(Benchmark::parse("test mod::bench ... 1,234 ns/iter (+/- 56)".to_string()).is_none());
}

#[test]
fn rejects_non_numeric_ns() {
    assert!(
        Benchmark::parse("test mod::bench ... bench: abc ns/iter (+/- 56)".to_string()).is_none()
    );
}

#[test]
fn rejects_blank_and_noise_lines() {
    assert!(Benchmark::parse("".to_string()).is_none());
    assert!(Benchmark::parse("running 3 tests".to_string()).is_none());
    assert!(Benchmark::parse("test result: ok. 0 passed".to_string()).is_none());
}

#[test]
fn skips_leading_tokens_before_pattern() {
    let b = Benchmark::parse("noise here test a ... bench: 5 ns/iter (+/- 1)".to_string())
        .unwrap();
    assert_eq!(b.name, "a");
    assert_eq!(b.ns, 5);
}

#[test]
fn rejects_overflowing_ns() {
    let line = "test a ... bench: 99999999999999999999999999 ns/iter (+/- 1)";
    assert!(Benchmark::parse(line.to_string()).is_none());
}

#[test]
fn rejects_malformed_variance() {
    assert!(Benchmark::parse("test a ... bench: 1 ns/iter (+/- 2x)".to_string()).is_none());
}

#[test]
fn malformed_throughput_is_dropped_not_fatal() {
    let b = Benchmark::parse("test a ... bench: 1 ns/iter (+/- 2) = 2,0b0 MB/s".to_string())
        .unwrap();
    assert_eq!(b.ns, 1);
    assert_eq!(b.throughput, None);
}

#[test]
fn drop_commas_and_parse_accepts_digit_groups() {
    assert_eq!(drop_commas_and_parse("1,234"), Some(1234));
    assert_eq!(drop_commas_and_parse("0"), Some(0));
    assert_eq!(drop_commas_and_parse("1,2,3"), Some(123));
}

#[test]
fn drop_commas_and_parse_rejects_bad_tokens() {
    assert_eq!(drop_commas_and_parse(""), None);
    assert_eq!(drop_commas_and_parse(","), None);
    assert_eq!(drop_commas_and_parse("12a"), None);
    assert_eq!(drop_commas_and_parse("-3"), None);
    assert_eq!(drop_commas_and_parse("99999999999999999999999999"), None);
}

#[test]
fn drop_commas_removes_every_comma() {
    assert_eq!(drop_commas("1,2,3"), "123");
    assert_eq!(drop_commas("abc"), "abc");
    assert_eq!(drop_commas(",,"), "");
}

#[test]
fn thousands_separation() {
    assert_eq!(fmt_thousands_sep(0, ','), "0");
    assert_eq!(fmt_thousands_sep(999, ','), "999");
    assert_eq!(fmt_thousands_sep(1000, ','), "1,000");
    assert_eq!(fmt_thousands_sep(1234567, ','), "1,234,567");
    assert_eq!(fmt_thousands_sep(1000000, ','), "1,000,000");
    assert_eq!(fmt_thousands_sep(12, '.'), "12");
}

#[test]
fn fmt_ns_cells() {
    let b = Benchmark {
        name: "a".to_string(),
        ns: 1234,
        variance: 56,
        throughput: None,
    };
    assert_eq!(b.fmt_ns(false), "1,234");
    assert_eq!(b.fmt_ns(true), "1,234 (+/- 56)");
    let t = Benchmark {
        name: "a".to_string(),
        ns: 10,
        variance: 1,
        throughput: Some(2000),
    };
    assert_eq!(t.fmt_ns(true), "10 (+/- 1) (2000 MB/s)");
    assert_eq!(t.fmt_ns(false), "10 (2000 MB/s)");
}
