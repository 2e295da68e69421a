use recreate::backtest::model::{Finding, Report, Status};
use recreate::backtest::report::{apply_allowances, body, text};

fn finding(line: &str) -> Finding {
    Finding {
        key: line.into(),
        line: line.into(),
        viewport: 1440,
        scenario: "base".into(),
        target: String::new(),
        property: String::new(),
        source: String::new(),
        candidate: String::new(),
        severity: "high".into(),
        confidence: "high".into(),
        items: Vec::new(),
    }
}

fn failing(lines: &[&str]) -> Report {
    Report {
        schema_version: 1,
        status: Status::Fail,
        findings: lines.iter().map(|line| finding(line)).collect(),
        suppressed_duplicates: 0,
        elapsed_ms: 1,
        source_digest: String::new(),
        candidate_digest: String::new(),
        diagnostic: None,
        scope: None,
        allowed: Vec::new(),
        unused_allowances: Vec::new(),
    }
}

#[test]
fn an_allowed_finding_no_longer_fails_the_comparison() {
    let mut report = failing(&["image \"Caleb Zearing\" content present->missing"]);
    apply_allowances(&mut report, &vec!["caleb zearing".into()]);
    assert_eq!(report.status, Status::Pass);
    assert_eq!(report.allowed.len(), 1);
    assert!(report.findings.is_empty());
    assert!(text(&report).starts_with("PASS 0 ALLOWED 1"));
}

#[test]
fn an_unrelated_finding_still_fails_the_comparison() {
    let mut report = failing(&["toolbar x 12->36 +24px", "image \"Caleb Zearing\" missing"]);
    apply_allowances(&mut report, &vec!["Caleb Zearing".into()]);
    assert_eq!(report.status, Status::Fail);
    assert_eq!(report.findings.len(), 1);
    assert!(text(&report).starts_with("FAIL 1 ALLOWED 1"));
}

#[test]
fn an_allowance_that_matches_nothing_is_reported() {
    let mut report = failing(&["toolbar x 12->36 +24px"]);
    apply_allowances(&mut report, &vec!["sign in".into()]);
    assert_eq!(report.unused_allowances, vec!["sign in".to_string()]);
    assert!(text(&report).contains("STALE ALLOWANCE sign in matched nothing"));
}

#[test]
fn viewport_and_state_are_stated_once_per_section() {
    let report = failing(&[
        "V1440 base toolbar x 12->36 +24px",
        "V1440 base content color #000->#111",
    ]);
    let rendered = text(&report);
    assert_eq!(rendered.matches("viewport 1440 / base").count(), 1);
    assert!(rendered.contains("\ntoolbar x 12->36 +24px\n"), "{rendered}");
    assert!(!rendered.contains("V1440"), "{rendered}");
}

#[test]
fn grouped_items_are_listed_one_per_line() {
    let items = vec![
        "paragraph \"Case files, filings, and deadlines\"".to_string(),
        "button \"Create\"".to_string(),
    ];
    let mut report = failing(&[&format!(
        "V1440 base content paragraph missing 2: {}",
        items.join(", ")
    )]);
    report.findings[0].items = items.clone();
    let rendered = text(&report);
    assert!(rendered.contains("content paragraph missing 2:\n"), "{rendered}");
    for item in items {
        assert!(rendered.contains(&format!("\n    {item}\n")), "{rendered}");
    }
}

#[test]
fn a_report_without_a_verdict_keeps_every_finding_and_states_its_diagnostic() {
    let mut report = failing(&["toolbar x 12->36 +24px"]);
    report.status = Status::Inconclusive;
    report.diagnostic = Some("comparison deadline\nexpired".into());
    apply_allowances(&mut report, &vec!["toolbar".into()]);
    assert_eq!(report.findings.len(), 1);
    assert!(report.allowed.is_empty());
    assert_eq!(
        text(&report),
        "INCONCLUSIVE 1\n\nviewport 1440 / base\ntoolbar x 12->36 +24px\nDIAG comparison deadline expired\n"
    );
}

#[test]
fn a_grouped_line_closed_by_a_parenthesis_keeps_it() {
    let mut grouped = finding("V1440 base main layout x shifted +10px (2 elements: a, b)");
    grouped.items = vec!["a".into(), "b".into()];
    assert_eq!(body(&grouped), "main layout x shifted +10px (2 elements: )");
}
