use benchcmp::benchmark::{Benchmark, Benchmarks};
use benchcmp::cmd::{CompareBy, Show, TableCompareBy, TableSettings};
use benchcmp::pipeline::{
    by_bench_name, by_module_name, filter_benchmarks, parse_benchmark_lines, split_module,
    warn_missing, CmpError,
};

fn rec(name: &str, ns: usize) -> Benchmark {
    Benchmark {
        name: name.to_string(),
        ns,
        variance: 0,
        throughput: None,
    }
}

fn group(name: &str, records: Vec<Benchmark>) -> Benchmarks {
    Benchmarks {
        name: name.to_string(),
        benchmarks: records,
    }
}

#[test]
fn split_module_at_first_separator() {
    assert_eq!(split_module("mod::leaf"), ("mod".to_string(), "leaf".to_string()));
    assert_eq!(split_module("a::b::c"), ("a".to_string(), "b::c".to_string()));
    assert_eq!(split_module("plain"), ("".to_string(), "plain".to_string()));
    assert_eq!(split_module(""), ("".to_string(), "".to_string()));
}

#[test]
fn by_file_is_identity() {
    let nbs = vec![group("f1", vec![rec("a::x", 1)]), group("f2", vec![rec("y", 2)])];
    let expected = vec![group("f1", vec![rec("a::x", 1)]), group("f2", vec![rec("y", 2)])];
    assert_eq!(by_module_name(nbs, CompareBy::File), expected);
}

#[test]
fn by_module_regroups_and_sorts() {
    let nbs = vec![group(
        "f1",
        vec![rec("a::x", 1), rec("y", 2), rec("a::z", 3), rec("b::w", 4)],
    )];
    let out = by_module_name(nbs, CompareBy::Module);
    assert_eq!(out.len(), 3);
    assert_eq!(out[0].name, "");
    assert_eq!(out[0].benchmarks, vec![rec("y", 2)]);
    assert_eq!(out[1].name, "a");
    assert_eq!(out[1].benchmarks, vec![rec("x", 1), rec("z", 3)]);
    assert_eq!(out[2].name, "b");
    assert_eq!(out[2].benchmarks, vec![rec("w", 4)]);
}

#[test]
fn join_matches_shared_names_and_reports_singles() {
    let nbs = vec![
        group("old", vec![rec("foo", 10), rec("bar", 20)]),
        group("new", vec![rec("foo", 15)]),
    ];
    let (matched, singles) = by_bench_name(nbs);
    assert_eq!(matched.len(), 1);
    assert_eq!(matched[0].bench_name, "foo");
    assert_eq!(
        matched[0].assocs,
        vec![("old".to_string(), rec("foo", 10)), ("new".to_string(), rec("foo", 15))]
    );
    assert_eq!(singles.len(), 1);
    assert_eq!(singles[0].bench_name, "bar");
    assert_eq!(singles[0].assocs, vec![("old".to_string(), rec("bar", 20))]);
}

#[test]
fn join_output_names_are_sorted() {
    let nbs = vec![
        group("old", vec![rec("zeta", 1), rec("alpha", 2)]),
        group("new", vec![rec("zeta", 3), rec("alpha", 4)]),
    ];
    let (matched, singles) = by_bench_name(nbs);
    assert!(singles.is_empty());
    assert_eq!(matched.len(), 2);
    assert_eq!(matched[0].bench_name, "alpha");
    assert_eq!(matched[1].bench_name, "zeta");
}

#[test]
fn join_twice_is_deterministic() {
    let mk = || {
        vec![
            group("old", vec![rec("foo", 10), rec("bar", 20), rec("baz", 5)]),
            group("new", vec![rec("bar", 21), rec("foo", 11)]),
        ]
    };
    let (m1, s1) = by_bench_name(mk());
    let (m2, s2) = by_bench_name(mk());
    assert_eq!(m1, m2);
    assert_eq!(s1, s2);
}

#[test]
fn unmatched_name_gets_one_warning_entry() {
    let nbs = vec![
        group("old", vec![rec("foo", 10), rec("only_old", 20)]),
        group("new", vec![rec("foo", 15)]),
    ];
    let (matched, singles) = by_bench_name(nbs);
    assert_eq!(matched.len(), 1);
    let warnings = warn_missing(&singles);
    assert_eq!(
        warnings,
        vec![("old".to_string(), vec!["only_old".to_string()])]
    );
}

#[test]
fn warnings_group_names_under_first_label() {
    let nbs = vec![
        group("old", vec![rec("a", 1), rec("b", 2)]),
        group("new", vec![rec("c", 3)]),
    ];
    let (matched, singles) = by_bench_name(nbs);
    assert!(matched.is_empty());
    let warnings = warn_missing(&singles);
    assert_eq!(
        warnings,
        vec![
            ("new".to_string(), vec!["c".to_string()]),
            ("old".to_string(), vec!["a".to_string(), "b".to_string()]),
        ]
    );
}

fn table_settings(compare_by: TableCompareBy) -> TableSettings {
    TableSettings {
        compare_by,
        out_file: None,
        variance: false,
        threshold: None,
        show: Show::Both,
        strip_fst: None,
        strip_snd: None,
        color: false,
    }
}

#[test]
fn file_mode_needs_exactly_two_sources() {
    let nbs = vec![
        group("f1", vec![rec("a", 1)]),
        group("f2", vec![rec("a", 2)]),
        group("f3", vec![rec("a", 3)]),
    ];
    let r = filter_benchmarks(&nbs, &table_settings(TableCompareBy::File));
    assert_eq!(r, Err(CmpError::SourceCount { found: 3 }));
    let two = vec![group("f1", vec![rec("a", 1)]), group("f2", vec![rec("a", 2)])];
    let r = filter_benchmarks(&two, &table_settings(TableCompareBy::File)).unwrap();
    assert_eq!(r, two);
}

#[test]
fn module_mode_selects_named_groups() {
    let nbs = vec![
        group("alpha", vec![rec("x", 1)]),
        group("beta", vec![rec("x", 2)]),
    ];
    let sel = TableCompareBy::Module("beta".to_string(), "gamma".to_string());
    let r = filter_benchmarks(&nbs, &table_settings(sel)).unwrap();
    assert_eq!(r.len(), 2);
    assert_eq!(r[0], group("beta", vec![rec("x", 2)]));
    assert_eq!(r[1], group("gamma", vec![]));
}

#[test]
fn reads_records_from_lines() {
    let lines = vec![
        "".to_string(),
        "running 2 tests".to_string(),
        "test a::one ... bench: 100 ns/iter (+/- 5)".to_string(),
        "garbage".to_string(),
        "test a::two ... bench: 2,000 ns/iter (+/- 10) = 512 MB/s".to_string(),
    ];
    let nb = parse_benchmark_lines("report.txt".to_string(), &lines);
    assert_eq!(nb.name, "report.txt");
    assert_eq!(nb.benchmarks.len(), 2);
    assert_eq!(nb.benchmarks[0].name, "a::one");
    assert_eq!(nb.benchmarks[1].ns, 2000);
    assert_eq!(nb.benchmarks[1].throughput, Some(512));
}

#[test]
fn new_collection_is_empty() {
    let nb = Benchmarks::new("fresh".to_string());
    assert_eq!(nb.name, "fresh");
    assert!(nb.benchmarks.is_empty());
}
