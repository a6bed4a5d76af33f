use benchcmp::benchmark::{Benchmark, Benchmarks, Comparisons};
use benchcmp::cmd::{
    Args, CompareBy, OutputFormat, PlotSettings, Show, TableCompareBy, ToolMode,
};
use benchcmp::pipeline::{
    chart_file_name, compile_pattern, include_comparison, strip_bench_names, table_rows, CmpError,
};

fn rec(name: &str, ns: usize) -> Benchmark {
    Benchmark {
        name: name.to_string(),
        ns,
        variance: 0,
        throughput: None,
    }
}

fn group(name: &str, records: Vec<Benchmark>) -> Benchmarks {
    Benchmarks {
        name: name.to_string(),
        benchmarks: records,
    }
}

#[test]
fn comparator_sign_convention_regression() {
    let c = rec("a", 100).compare(rec("a", 150));
    assert_eq!(c.diff_ns, 50);
    assert_eq!(c.percent_cell(), "50.00%");
    assert_eq!(c.diff_cell(), "50");
}

#[test]
fn comparator_sign_convention_improvement() {
    let c = rec("a", 150).compare(rec("a", 100));
    assert_eq!(c.diff_ns, -50);
    assert_eq!(c.percent_cell(), "-33.33%");
    assert_eq!(c.diff_cell(), "-50");
}

#[test]
fn percent_rounding_convention() {
    // exact value: 1/200 = 0.50%
    assert_eq!(rec("a", 200).compare(rec("a", 201)).percent_cell(), "0.50%");
    // a half in the hundredths place rounds away from zero: 1/800 = 0.125%
    assert_eq!(rec("a", 800).compare(rec("a", 801)).percent_cell(), "0.13%");
    assert_eq!(rec("a", 800).compare(rec("a", 799)).percent_cell(), "-0.13%");
}

#[test]
fn degenerate_ratio_is_rendered_literally() {
    assert_eq!(rec("a", 0).compare(rec("a", 5)).percent_cell(), "inf%");
    assert_eq!(rec("a", 0).compare(rec("a", 0)).percent_cell(), "NaN%");
}

#[test]
fn truncated_percentage_saturates() {
    assert_eq!(rec("a", 100).compare(rec("a", 105)).trunc_abs_percent(), 5);
    assert_eq!(rec("a", 1).compare(rec("a", 1000)).trunc_abs_percent(), 255);
    assert_eq!(rec("a", 0).compare(rec("a", 5)).trunc_abs_percent(), 255);
    assert_eq!(rec("a", 0).compare(rec("a", 0)).trunc_abs_percent(), 0);
}

#[test]
fn threshold_filter_bounds() {
    let c = rec("a", 100).compare(rec("a", 105));
    assert!(!include_comparison(&c, Some(10), Show::Both));
    assert!(include_comparison(&c, Some(4), Show::Both));
}

#[test]
fn zero_delta_show_mode_exclusivity() {
    let c = rec("a", 100).compare(rec("a", 100));
    assert!(!include_comparison(&c, None, Show::Regressions));
    assert!(!include_comparison(&c, None, Show::Improvements));
    assert!(include_comparison(&c, None, Show::Both));
}

#[test]
fn show_modes_pick_a_side() {
    let worse = rec("a", 100).compare(rec("a", 150));
    let better = rec("a", 150).compare(rec("a", 100));
    assert!(include_comparison(&worse, None, Show::Regressions));
    assert!(!include_comparison(&worse, None, Show::Improvements));
    assert!(!include_comparison(&better, None, Show::Regressions));
    assert!(include_comparison(&better, None, Show::Improvements));
}

#[test]
fn row_cells_are_exact() {
    let c = rec("mod::bench", 1234).compare(rec("mod::bench", 2468));
    assert_eq!(
        c.to_row(false),
        vec![
            "mod::bench".to_string(),
            "1,234".to_string(),
            "2,468".to_string(),
            "1,234".to_string(),
            "100.00%".to_string(),
        ]
    );
}

#[test]
fn comparisons_compare_by_column() {
    let cs = Comparisons {
        bench_name: "foo".to_string(),
        assocs: vec![
            ("old".to_string(), rec("foo", 10)),
            ("new".to_string(), rec("foo", 15)),
        ],
    };
    let c = cs.compare(0, 1);
    assert_eq!(c.diff_ns, 5);
    let back = cs.compare(1, 0);
    assert_eq!(back.diff_ns, -5);
}

#[test]
fn table_rows_filter_and_render() {
    let pairs = vec![
        Comparisons {
            bench_name: "same".to_string(),
            assocs: vec![
                ("old".to_string(), rec("same", 100)),
                ("new".to_string(), rec("same", 100)),
            ],
        },
        Comparisons {
            bench_name: "worse".to_string(),
            assocs: vec![
                ("old".to_string(), rec("worse", 100)),
                ("new".to_string(), rec("worse", 150)),
            ],
        },
    ];
    let rows = table_rows(&pairs, false, None, Show::Regressions);
    assert_eq!(rows.len(), 1);
    assert_eq!(rows[0][0], "worse");
    assert_eq!(rows[0][3], "50");
    assert_eq!(rows[0][4], "50.00%");
    let rows = table_rows(&pairs, false, None, Show::Both);
    assert_eq!(rows.len(), 2);
}

#[test]
fn strip_applies_one_pattern_per_side() {
    let nbs = vec![
        group("old", vec![rec("x_foo", 1)]),
        group("new", vec![rec("y_foo", 2)]),
    ];
    let out = strip_bench_names(nbs.clone(), &Some("^x_".to_string()), &Some("^y_".to_string()))
        .unwrap();
    assert_eq!(out[0].benchmarks[0].name, "foo");
    assert_eq!(out[1].benchmarks[0].name, "foo");
    assert_eq!(out[0].benchmarks[0].ns, 1);
    assert_eq!(out[1].benchmarks[0].ns, 2);
}

#[test]
fn strip_without_patterns_changes_nothing() {
    let nbs = vec![group("old", vec![rec("a", 1)]), group("new", vec![rec("b", 2)])];
    let out = strip_bench_names(nbs.clone(), &None, &None).unwrap();
    assert_eq!(out, nbs);
}

#[test]
fn empty_match_pattern_leaves_names_unchanged() {
    let nbs = vec![
        group("old", vec![rec("alpha", 1), rec("beta", 2)]),
        group("new", vec![rec("alpha", 3)]),
    ];
    let out = strip_bench_names(nbs.clone(), &Some("zzz".to_string()), &Some("zzz".to_string()))
        .unwrap();
    assert_eq!(out, nbs);
}

#[test]
fn invalid_pattern_is_a_configuration_error() {
    let nbs = vec![group("old", vec![rec("a", 1)]), group("new", vec![rec("b", 2)])];
    match strip_bench_names(nbs, &Some("(".to_string()), &None) {
        Err(CmpError::BadPattern { pattern, .. }) => assert_eq!(pattern, "("),
        other => panic!("expected a pattern error, got {:?}", other),
    }
}

#[test]
fn invalid_second_pattern_is_reported() {
    let nbs = vec![group("old", vec![rec("a", 1)]), group("new", vec![rec("b", 2)])];
    match strip_bench_names(nbs, &None, &Some(")".to_string())) {
        Err(CmpError::BadPattern { pattern, .. }) => assert_eq!(pattern, ")"),
        _ => panic!("expected a pattern error"),
    }
}

#[test]
fn compile_pattern_reports_the_pattern() {
    assert!(compile_pattern("^abc$").is_ok());
    match compile_pattern("[") {
        Err(CmpError::BadPattern { pattern, .. }) => assert_eq!(pattern, "["),
        Err(other) => panic!("expected a pattern error, got {:?}", other),
        Ok(_) => panic!("expected a pattern error"),
    }
}

#[test]
fn filter_name_strips_all_matches() {
    let p = compile_pattern("o").unwrap();
    let mut b = rec("foo_bob", 1);
    b.filter_name(&p);
    assert_eq!(b.name, "f_bb");
    assert_eq!(b.ns, 1);
}

#[test]
fn chart_file_names_are_sanitized() {
    assert_eq!(chart_file_name("a::b::c", OutputFormat::Png), "a..b..c.png");
    assert_eq!(chart_file_name("plain", OutputFormat::Svg), "plain.svg");
}

#[test]
fn output_format_extensions() {
    assert_eq!(OutputFormat::Pdf.extension(), "pdf");
    assert_eq!(OutputFormat::Eps.extension(), "eps");
    assert_eq!(OutputFormat::Png.extension(), "png");
    assert_eq!(OutputFormat::Svg.extension(), "svg");
}

fn args(by_module: bool, plot: bool, files: Vec<&str>) -> Args {
    Args {
        cmd_table: !plot,
        cmd_plot: plot,
        arg_file: files.into_iter().map(|s| s.to_string()).collect(),
        flag_by_module: by_module,
        flag_no_color: false,
        flag_output: None,
        flag_variance: false,
        flag_threshold: None,
        flag_regressions: false,
        flag_improvements: false,
        flag_strip_fst: None,
        flag_strip_snd: None,
        flag_by: CompareBy::Module,
        flag_format: OutputFormat::Png,
    }
}

#[test]
fn settings_split_module_names_from_files() {
    let s = args(true, false, vec!["m1", "m2", "f1", "f2"]).into_settings();
    assert_eq!(s.files, vec!["f1".to_string(), "f2".to_string()]);
    match s.tool_mode {
        ToolMode::Table(t) => {
            assert_eq!(
                t.compare_by,
                TableCompareBy::Module("m1".to_string(), "m2".to_string())
            );
        }
        ToolMode::Plot(_) => panic!("expected a table mode"),
    }
}

#[test]
fn settings_show_selection() {
    let mut a = args(false, false, vec!["f1", "f2"]);
    a.flag_regressions = true;
    match a.into_settings().tool_mode {
        ToolMode::Table(t) => assert_eq!(t.show, Show::Regressions),
        _ => panic!("expected a table mode"),
    }
    let mut a = args(false, false, vec!["f1", "f2"]);
    a.flag_regressions = true;
    a.flag_improvements = true;
    match a.into_settings().tool_mode {
        ToolMode::Table(t) => assert_eq!(t.show, Show::Both),
        _ => panic!("expected a table mode"),
    }
}

#[test]
fn settings_plot_mode() {
    let s = args(false, true, vec!["f1"]).into_settings();
    assert_eq!(s.files, vec!["f1".to_string()]);
    match s.tool_mode {
        ToolMode::Plot(p) => {
            assert_eq!(
                p,
                PlotSettings {
                    compare_by: CompareBy::Module,
                    format: OutputFormat::Png,
                    color: true,
                }
            );
        }
        ToolMode::Table(_) => panic!("expected a plot mode"),
    }
}

#[test]
fn get_compare_by_follows_mode() {
    let table = ToolMode::Table(benchcmp::cmd::TableSettings {
        compare_by: TableCompareBy::File,
        out_file: None,
        variance: false,
        threshold: None,
        show: Show::Both,
        strip_fst: None,
        strip_snd: None,
        color: true,
    });
    assert_eq!(table.get_compare_by(), CompareBy::File);
    let plot = ToolMode::Plot(PlotSettings {
        compare_by: CompareBy::Module,
        format: OutputFormat::Png,
        color: true,
    });
    assert_eq!(plot.get_compare_by(), CompareBy::Module);
}
