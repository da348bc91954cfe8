use kconfig_compare::analysis::{analyze, Report, Summary};
use kconfig_compare::history::read;
use kconfig_compare::reporter::build;

fn lines(text: &[&str]) -> Vec<String> {
    text.iter().map(|line| line.to_string()).collect()
}

fn run(first: &[&str], second: &[&str], format: &str) -> Report {
    let reading = read(&lines(first), &lines(second));
    assert_eq!(reading.parameters.blank_key(), None);
    analyze(&reading.parameters, build(format))
}

fn counts(modified: u64, added: u64, removed: u64, unmodified: u64, analyzed: usize) -> Summary {
    Summary { modified, added, removed, unmodified, analyzed }
}

#[test]
fn a_changed_value_is_reported_as_modified() {
    let report = run(&["CONFIG_FOO=1"], &["CONFIG_FOO=2"], "");
    assert_eq!(report.lines, vec!["Modified(CONFIG_FOO,1,2)"]);
    assert_eq!(report.summary, counts(1, 0, 0, 0, 1));
    let summary = report.summary.lines();
    assert_eq!(summary[4], "  - Modified:1");
    assert_eq!(summary[8], "  - Analyzed:1");
}

#[test]
fn a_parameter_that_the_second_file_lacks_is_reported_as_removed() {
    let report = run(&["CONFIG_BAR=y"], &[], "");
    assert_eq!(report.lines, vec!["Removed(CONFIG_BAR,y,)"]);
    assert_eq!(report.summary, counts(0, 0, 1, 0, 1));
}

#[test]
fn a_parameter_that_the_first_file_lacks_is_reported_as_added() {
    let report = run(&[], &["# CONFIG_BAZ is not set"], "");
    assert_eq!(report.lines, vec!["Added(CONFIG_BAZ,,is not set)"]);
    assert_eq!(report.summary, counts(0, 1, 0, 0, 1));
}

#[test]
fn an_unchanged_parameter_is_counted_and_not_printed() {
    for format in ["", "text-with-links", "md", "csv"] {
        let report = run(&["CONFIG_QUX=y"], &["CONFIG_QUX=y"], format);
        assert!(report.lines.is_empty(), "format {:?}", format);
        assert_eq!(report.summary, counts(0, 0, 0, 1, 1));
    }
}

#[test]
fn lines_come_in_the_order_of_the_names() {
    let report = run(
        &["CONFIG_Z=1", "CONFIG_B=1", "CONFIG_M=y"],
        &["CONFIG_M=y", "CONFIG_A=1", "CONFIG_Z=2", "# CONFIG_C is not set"],
        "",
    );
    assert_eq!(
        report.lines,
        vec![
            "Added(CONFIG_A,,1)",
            "Removed(CONFIG_B,1,)",
            "Added(CONFIG_C,,is not set)",
            "Modified(CONFIG_Z,1,2)",
        ]
    );
    assert_eq!(report.summary, counts(1, 2, 1, 1, 5));
}

#[test]
fn the_order_of_the_lines_in_the_files_does_not_matter() {
    let one = run(
        &["CONFIG_A=1", "CONFIG_B=2", "CONFIG_C=3"],
        &["CONFIG_C=4", "CONFIG_D=5", "CONFIG_A=1"],
        "md",
    );
    let other = run(
        &["CONFIG_C=3", "CONFIG_B=2", "CONFIG_A=1"],
        &["CONFIG_A=1", "CONFIG_C=4", "CONFIG_D=5"],
        "md",
    );
    assert_eq!(one.lines, other.lines);
    assert_eq!(one.summary, other.summary);
}

#[test]
fn a_second_run_gives_the_same_report() {
    let first = ["CONFIG_A=1", "CONFIG_B=2", "# CONFIG_C is not set", "CONFIG_E=x"];
    let second = ["CONFIG_A=2", "CONFIG_C=y", "CONFIG_D=m", "CONFIG_E=x"];
    for format in ["", "text-with-links", "md", "csv"] {
        let one = run(&first, &second, format);
        let other = run(&first, &second, format);
        assert_eq!(one.lines, other.lines);
        assert_eq!(one.summary, other.summary);
        assert_eq!(one.summary.lines(), other.summary.lines());
    }
}

#[test]
fn a_markdown_report_numbers_the_changes() {
    let report = run(
        &["CONFIG_A=1", "CONFIG_B=2", "CONFIG_C=3"],
        &["CONFIG_A=2", "CONFIG_B=2", "CONFIG_D=4"],
        "md",
    );
    assert_eq!(
        report.lines,
        vec![
            "|# | Parameter | Status | Old Value | New Value |",
            "|--|-----------|--------|-----------|-----------|",
            "| 1 | [CONFIG_A](https://cateee.net/lkddb/web-lkddb/A.html) | Modified | 1 | 2 |",
            "| 2 | [CONFIG_C](https://cateee.net/lkddb/web-lkddb/C.html) | Removed | 3 |  |",
            "| 3 | [CONFIG_D](https://cateee.net/lkddb/web-lkddb/D.html) | Added |  | 4 |",
        ]
    );
    assert_eq!(report.summary, counts(1, 1, 1, 1, 4));
}

#[test]
fn a_csv_report_numbers_the_changes() {
    let report = run(&["CONFIG_A=1", "CONFIG_B=2"], &["CONFIG_B=3", "CONFIG_=1"], "csv");
    assert_eq!(
        report.lines,
        vec![
            "#,Parameter,Status,Old Value,New Value,Description",
            "1,CONFIG_,Added,,1,NA",
            "2,CONFIG_A,Removed,1,,https://cateee.net/lkddb/web-lkddb/A.html",
            "3,CONFIG_B,Modified,2,3,https://cateee.net/lkddb/web-lkddb/B.html",
        ]
    );
}

#[test]
fn a_report_with_links_ends_each_line_with_the_link() {
    let report = run(&["CONFIG_A=1"], &["CONFIG_A=2", "CONFIG=1"], "text-with-links");
    assert_eq!(
        report.lines,
        vec![
            "Added(CONFIG,,1,NA)",
            "Modified(CONFIG_A,1,2,https://cateee.net/lkddb/web-lkddb/A.html)",
        ]
    );
}

#[test]
fn a_disabled_parameter_that_gets_a_value_is_modified() {
    let report = run(&["# CONFIG_A is not set"], &["CONFIG_A=y"], "");
    assert_eq!(report.lines, vec!["Modified(CONFIG_A,is not set,y)"]);
}

#[test]
fn nothing_to_analyze() {
    let report = run(&[], &[], "csv");
    assert!(report.lines.is_empty());
    assert_eq!(report.summary, counts(0, 0, 0, 0, 0));
}

#[test]
fn the_summary_is_a_block_of_ten_lines() {
    let rule = "-".repeat(80);
    let summary = counts(12, 3, 0, 4567, 4582);
    assert_eq!(
        summary.lines(),
        vec![
            rule.as_str(),
            "SUMMARY",
            rule.as_str(),
            "Parameters:",
            "  - Modified:12",
            "  - Added:3",
            "  - Removed:0",
            "  - Unmodified:4567",
            "  - Analyzed:4582",
            rule.as_str(),
        ]
    );
}

#[test]
fn a_reporter_in_use_goes_on_counting() {
    let reading = read(&lines(&["CONFIG_A=1"]), &lines(&["CONFIG_B=1"]));
    let mut reporter = build("csv");
    let warm_up = kconfig_compare::parameters::Change {
        change_type: kconfig_compare::parameters::ChangeType::Added,
        parameter_name: "CONFIG_X",
        old_value: "",
        new_value: "y",
    };
    assert_eq!(kconfig_compare::reporter::ChangeReporter::on_change(&mut reporter, &warm_up).len(), 2);
    let report = analyze(&reading.parameters, reporter);
    assert_eq!(
        report.lines,
        vec![
            "2,CONFIG_A,Removed,1,,https://cateee.net/lkddb/web-lkddb/A.html",
            "3,CONFIG_B,Added,,1,https://cateee.net/lkddb/web-lkddb/B.html",
        ]
    );
}
