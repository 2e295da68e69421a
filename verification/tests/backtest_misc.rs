use recreate::backtest::browser::{document_failure, find, DocumentIdentity, FindError, PathProbe};
use recreate::backtest::deadline::{admits_of, left_of, remaining_of, Deadline, DeadlineError};
use recreate::backtest::fixture::{
    control_valid, gate, judge, mutation_total, percentile, ControlExpectation, GateFailure, MutationExpectation,
    MutationOutcome, MutationProgress, RunObservation, Tally,
};
use recreate::backtest::model::{Action, Session, SessionError, Side, Status, Viewport, SCHEMA_VERSION};
use recreate::backtest::server::{plain_names, safe_path};
use recreate::digest;

fn identity(url: &str, error_page: bool, element_count: u64) -> DocumentIdentity {
    DocumentIdentity {
        url: url.into(),
        title: "page".into(),
        error_page,
        element_count,
    }
}

#[test]
fn rejects_explicit_browser_path_that_is_not_a_file() {
    let error = find(
        Some(PathProbe {
            path: "does-not-exist".into(),
            is_file: false,
        }),
        None,
        &Vec::new(),
    )
    .unwrap_err();
    assert!(error.message().contains("browser executable not found"));
}

#[test]
fn the_first_installed_browser_is_chosen_when_none_is_named() {
    let candidates = vec![
        PathProbe {
            path: "/usr/bin/google-chrome".into(),
            is_file: false,
        },
        PathProbe {
            path: "/usr/bin/chromium".into(),
            is_file: true,
        },
    ];
    assert_eq!(find(None, None, &candidates).unwrap(), "/usr/bin/chromium");
    assert!(matches!(
        find(None, None, &Vec::new()),
        Err(FindError::Missing)
    ));
    let variable = PathProbe {
        path: "/opt/browser".into(),
        is_file: false,
    };
    let error = find(None, Some(variable), &candidates).unwrap_err();
    assert_eq!(
        error.message(),
        "RECREATE_BACKTEST_BROWSER does not point at an executable: /opt/browser"
    );
}

#[test]
fn rejects_a_browser_error_page_instead_of_measuring_it() {
    let reason = document_failure(&identity("chrome-error://chromewebdata/", true, 56))
        .expect("an error page must never be measured");
    assert!(reason.contains("error page"));
    assert!(reason.contains("certificate"));
}

#[test]
fn rejects_an_empty_document() {
    let reason = document_failure(&identity("http://127.0.0.1:8080/", false, 3))
        .expect("an empty document must never be measured");
    assert!(reason.contains("empty document"));
}

#[test]
fn accepts_a_rendered_page() {
    assert!(document_failure(&identity("http://127.0.0.1:8080/", false, 900)).is_none());
}

const MS: u128 = 1_000_000;

#[test]
fn a_spent_slice_admits_no_further_work() {
    assert!(!Deadline::new(0).admits(MS));
    let ample = Deadline::new(1_000);
    assert!(ample.admits(10 * MS));
    assert!(
        !ample.admits(10_000 * MS),
        "a unit costing more than the remaining budget is refused"
    );
}

#[test]
fn time_left_is_an_error_only_once_none_is_left() {
    assert_eq!(remaining_of(0), Err(DeadlineError::Expired));
    assert_eq!(remaining_of(5), Ok(5));
    assert!(admits_of(5, 4));
    assert!(!admits_of(5, 5));
    assert_eq!(DeadlineError::Expired.message(), "comparison deadline expired");
    assert!(Deadline::new(1_000).remaining().is_ok());
}

#[test]
fn a_correct_comparison_that_ran_out_of_time_is_over_budget_not_undetected() {
    assert_eq!(
        MutationOutcome::classify(true, false),
        MutationOutcome::ExceededBudget
    );
}

#[test]
fn a_wrong_comparison_inside_the_budget_is_undetected() {
    assert_eq!(
        MutationOutcome::classify(false, true),
        MutationOutcome::Undetected
    );
}

#[test]
fn budget_is_decided_before_content_so_an_interrupted_run_is_never_called_blind() {
    assert_eq!(
        MutationOutcome::classify(false, false),
        MutationOutcome::ExceededBudget
    );
}

#[test]
fn every_outcome_is_counted_exactly_once_against_a_fixed_denominator() {
    let mut tally = Tally::new(3);
    let outcomes = [
        tally.finish(MutationProgress {
            content_valid: true,
            within_budget: true,
        }),
        tally.finish(MutationProgress {
            content_valid: true,
            within_budget: false,
        }),
        tally.finish(MutationProgress {
            content_valid: false,
            within_budget: true,
        }),
    ];
    assert_eq!(
        outcomes,
        [
            MutationOutcome::Detected,
            MutationOutcome::ExceededBudget,
            MutationOutcome::Undetected
        ]
    );
    assert_eq!(tally.detected + tally.undetected + tally.exceeded_budget, 3);
    assert_eq!(tally.finished, tally.total);
}

fn observation(status: Status, findings: usize, line: &str, elapsed_ms: u128) -> RunObservation {
    RunObservation {
        status,
        findings,
        duplicates: 0,
        first_line: line.into(),
        elapsed_ms,
        under_five_seconds: elapsed_ms < 5000,
        same_text: true,
        same_json: true,
    }
}

#[test]
fn a_mutant_caught_in_time_is_expected_and_a_late_one_spends_the_budget() {
    let expectation = MutationExpectation {
        finding: "V1440 base target x 0->10 +10px".into(),
        primary_findings: 1,
        unexpected_primary_findings: 0,
        duplicates: 0,
        maximum_duration_ms: 3000,
    };
    let mut progress = MutationProgress::new();
    let caught = judge(
        &observation(Status::Fail, 1, "V1440 base target x 0->10 +10px", 1000),
        &expectation,
    );
    assert!(progress.observe(caught));
    let late = judge(
        &observation(Status::Fail, 1, "V1440 base target x 0->10 +10px", 4000),
        &expectation,
    );
    assert!(!progress.observe(late));
    assert!(!progress.within_budget);
    assert!(progress.content_valid);
    let wrong = judge(&observation(Status::Pass, 0, "", 100), &expectation);
    let mut fresh = MutationProgress::new();
    assert!(!fresh.observe(wrong));
    assert!(!fresh.content_valid);
    assert!(fresh.within_budget);
}

#[test]
fn a_control_page_must_pass_with_exactly_the_expected_findings() {
    let expectation = ControlExpectation {
        findings: 0,
        duplicates: 0,
        maximum_duration_ms: 3000,
    };
    assert!(control_valid(&observation(Status::Pass, 0, "", 100), &expectation));
    assert!(!control_valid(&observation(Status::Fail, 1, "x", 100), &expectation));
    assert!(!control_valid(&observation(Status::Pass, 0, "", 3001), &expectation));
}

#[test]
fn the_gate_reports_slow_comparisons_and_every_uncaught_mutant() {
    let durations: Vec<u128> = (1..=20).map(|value| value * 250).collect();
    assert_eq!(percentile(&durations, 95), 5000);
    assert_eq!(percentile(&durations, 50), 2750);
    assert_eq!(percentile(&Vec::new(), 95), 0);
    let mut tally = Tally::new(2);
    tally.finish(MutationProgress {
        content_valid: false,
        within_budget: true,
    });
    tally.finish(MutationProgress {
        content_valid: true,
        within_budget: true,
    });
    let failures = gate(&durations, &tally, true);
    assert_eq!(
        failures,
        vec![
            GateFailure::SlowP95(5000),
            GateFailure::SlowP99(5000),
            GateFailure::SlowMaximum(5000),
            GateFailure::Undetected {
                undetected: 1,
                total: 2
            },
            GateFailure::ChildProcessFailed,
        ]
    );
    let quick: Vec<u128> = vec![100, 200, 300];
    let mut clean = Tally::new(1);
    clean.finish(MutationProgress {
        content_valid: true,
        within_budget: true,
    });
    assert!(gate(&quick, &clean, false).is_empty());
}

fn session() -> Session {
    Session {
        schema_version: SCHEMA_VERSION,
        side: Side::Source,
        cdp_url: "http://127.0.0.1:1".into(),
        target_id: "target".into(),
        requested_url: "http://source.test".into(),
        rendered_url: "http://source.test".into(),
        browser: "browser".into(),
        executable: "browser.exe".into(),
        profile: "profile".into(),
        viewport: Viewport {
            width: 1440,
            height: 900,
        },
        digest: String::new(),
    }
}

/// The form a session is digested in here: its debug rendering with an
/// empty digest.
fn unsigned(session: &Session) -> Vec<u8> {
    let mut copy = session.clone();
    copy.digest.clear();
    format!("{copy:?}").into_bytes()
}

#[test]
fn session_corruption_is_rejected() {
    let mut session = session();
    let bytes = unsigned(&session);
    session.seal(&bytes);
    session.requested_url.push_str("/corrupt");
    assert!(session.verify(&unsigned(&session)).is_err());
}

#[test]
fn a_sealed_session_verifies_and_each_fault_is_named() {
    let mut sealed = session();
    let bytes = unsigned(&sealed);
    sealed.seal(&bytes);
    assert_eq!(sealed.digest, digest::bytes(&bytes));
    assert_eq!(sealed.digest.len(), 64);
    assert!(sealed.verify(&unsigned(&sealed)).is_ok());
    let mut unsealed = session();
    assert_eq!(
        unsealed.verify(&unsigned(&unsealed)),
        Err(SessionError::MissingDigest)
    );
    unsealed.target_id.clear();
    assert_eq!(
        unsealed.verify(&unsigned(&unsealed)),
        Err(SessionError::EmptyTarget)
    );
    assert_eq!(SessionError::EmptyTarget.message(), "session target is empty");
    let mut old = sealed.clone();
    old.schema_version = 0;
    assert_eq!(
        old.verify(&unsigned(&old)),
        Err(SessionError::UnsupportedSchema)
    );
}

#[test]
fn the_digest_of_bytes_is_their_sha256_in_lowercase_hex() {
    assert_eq!(
        digest::bytes(b"abc"),
        "ba7816bf8f01cfea414140de5dae2223b00361a396177a9cb410ff61f20015ad"
    );
    assert_eq!(
        digest::bytes(b""),
        "e3b0c44298fc1c149afbf4c8996fb92427ae41e4649b934ca495991b7852b855"
    );
}

#[test]
fn every_action_names_the_scenario_it_records() {
    assert_eq!(
        Action::Click {
            target: "menu".into()
        }
        .scenario(),
        "click:menu"
    );
    assert_eq!(
        Action::Hover {
            target: "menu".into()
        }
        .scenario(),
        "hover:menu"
    );
    assert_eq!(
        Action::ClickSequence {
            targets: vec!["a".into(), "b".into()],
            label: "open".into()
        }
        .scenario(),
        "click:open"
    );
    assert_eq!(
        Action::Timer {
            milliseconds: 100,
            target: "x".into()
        }
        .scenario(),
        "timer:100"
    );
    assert_eq!(
        Action::Animation {
            target: "panel".into()
        }
        .scenario(),
        "animation:panel"
    );
}

#[test]
fn a_deadline_never_leaves_more_than_its_span() {
    assert_eq!(Deadline::new(0).remaining(), Err(DeadlineError::Expired));
    let left = Deadline::new(1_000).remaining().unwrap();
    assert!(left > 0 && left <= 1_000 * MS);
    assert!(!Deadline::new(1_000).admits(1_000 * MS));
    assert_eq!(left_of(10, 3), 7);
    assert_eq!(left_of(10, 10), 0);
    assert_eq!(left_of(10, 30), 0);
}

fn names(parts: &[&str]) -> Vec<String> {
    parts.iter().map(|p| p.to_string()).collect()
}

#[test]
fn a_request_names_only_plain_components_below_the_root() {
    assert_eq!(safe_path("/a/b.html"), Some(names(&["a", "b.html"])));
    assert_eq!(safe_path("///css//site.css"), Some(names(&["css", "site.css"])));
    assert_eq!(safe_path("/a/./b/"), Some(names(&["a", "b"])));
    assert_eq!(safe_path("/"), Some(Vec::new()));
    assert_eq!(safe_path(""), Some(Vec::new()));
}

#[test]
fn a_request_that_climbs_out_of_the_root_is_refused() {
    assert_eq!(safe_path("/../secret"), None);
    assert_eq!(safe_path("/a/../../b"), None);
    assert_eq!(safe_path("./a"), None);
}

#[test]
fn plain_names_refuse_any_component_that_is_not_a_name() {
    assert_eq!(
        plain_names(vec![Some("a".to_string()), Some("b".to_string())]),
        Some(names(&["a", "b"]))
    );
    assert_eq!(plain_names(vec![Some("a".to_string()), None]), None);
    assert_eq!(plain_names(Vec::new()), Some(Vec::new()));
}

#[test]
fn the_mutants_of_every_case_are_counted_together() {
    assert_eq!(mutation_total(&vec![3, 0, 4]), Some(7));
    assert_eq!(mutation_total(&Vec::new()), Some(0));
    assert_eq!(mutation_total(&vec![usize::MAX, 1]), None);
}
