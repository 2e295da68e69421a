use recreate::digest::bytes;
use recreate::json::{between, json_eq, Json};
use recreate::oracle::artifact::{Artifact, Checkpoint, Domain};
use recreate::oracle::compare::{artifacts, reference_artifacts};
use recreate::oracle::engine::{
    coverage_incomplete, has_ambiguous_nodes, network_response_count, has_network_evidence, retain_diagnostic, has_unavailable_network_body, insert_before_async, responsive_width_count,
    retain_interactions,
};
use recreate::oracle::network::{decode_body, normalized_path, request_key, BodyError};
use recreate::oracle::model::{Coverage, Environment, Obligation, ObligationStatus, Scenario, Step, Viewport};
use recreate::oracle::obligations::append;

const DOMAINS: [&str; 7] = ["interaction", "async", "structure", "accessibility", "motion", "geometry", "style"];

fn num(n: &str) -> Json {
    Json::Number(n.into())
}

fn text(s: &str) -> Json {
    Json::Text(s.into())
}

fn object(members: Vec<(&str, Json)>) -> Json {
    Json::Object(members.into_iter().map(|(k, v)| (k.to_string(), v)).collect())
}

#[test]
fn returns_shortest_path_and_leaf_values() {
    let left = object(vec![("a", Json::Array(vec![object(vec![("x", num("1"))])]))]);
    let right = object(vec![("a", Json::Array(vec![object(vec![("x", num("2"))])]))]);
    let (path, expected, actual) = between(&left, &right);
    assert_eq!(path, "$.a[0].x");
    assert!(json_eq(&expected, &num("1")));
    assert!(json_eq(&actual, &num("2")));
}

#[test]
fn a_missing_item_or_member_is_reported_against_null() {
    let left = Json::Array(vec![num("1"), num("2")]);
    let right = Json::Array(vec![num("1")]);
    let (path, expected, actual) = between(&left, &right);
    assert_eq!(path, "$[1]");
    assert!(json_eq(&expected, &num("2")));
    assert!(matches!(actual, Json::Null));
    let left = object(vec![("b", num("1"))]);
    let right = object(vec![("a", Json::Bool(true)), ("b", num("1"))]);
    let (path, expected, actual) = between(&left, &right);
    assert_eq!(path, "$.a");
    assert!(matches!(expected, Json::Null));
    assert!(matches!(actual, Json::Bool(true)));
}

#[test]
fn values_of_different_kinds_differ_where_they_stand() {
    let left = object(vec![("a", text("1"))]);
    let right = object(vec![("a", num("1"))]);
    let (path, _, _) = between(&left, &right);
    assert_eq!(path, "$.a");
    let (path, _, _) = between(&left, &left);
    assert_eq!(path, "$");
}

#[test]
fn runtime_registrations_are_deduplicated_by_kind() {
    let value = object(vec![
        ("registrations", object(vec![])),
        (
            "runtime",
            Json::Array(vec![
                object(vec![("kind", text("timeout"))]),
                object(vec![("kind", text("listener"))]),
                object(vec![("kind", text("timeout"))]),
            ]),
        ),
    ]);
    let mut obligations = Vec::new();
    append(&value, false, &mut obligations);
    assert_eq!(obligations.len(), 2);
    assert_eq!(obligations[0].id, "runtime:listener");
    assert_eq!(obligations[1].id, "runtime:timeout");
}

#[test]
fn flagged_registrations_and_unbounded_motion_become_obligations() {
    let value = object(vec![
        ("motionUnbounded", Json::Bool(true)),
        ("registrations", object(vec![("animation", Json::Bool(true)), ("timer", Json::Bool(false))])),
        ("runtime", Json::Array(vec![object(vec![("kind", text("listener"))]), object(vec![])])),
    ]);
    let mut obligations = vec![Obligation {
        id: "edge-1".into(),
        kind: "edge".into(),
        status: ObligationStatus::Qualified,
        scenarios: vec![],
    }];
    append(&value, true, &mut obligations);
    let ids: Vec<&str> = obligations.iter().map(|o| o.id.as_str()).collect();
    assert_eq!(ids, vec!["edge-1", "registration:animation", "runtime:listener", "runtime:unknown", "motion:unbounded"]);
    assert_eq!(obligations[1].scenarios, vec!["motion-frames".to_string()]);
    assert!(matches!(obligations[2].status, ObligationStatus::Uncovered));
    assert!(obligations[2].scenarios.is_empty());
    assert_eq!(obligations[4].kind, "motion");
}

fn domain(value: Json, encoded: &str) -> Domain {
    Domain { digest: bytes(encoded.as_bytes()), value, encoded: encoded.as_bytes().to_vec() }
}

fn checkpoint(scenario: &str, step: usize, width: u32) -> Checkpoint {
    Checkpoint {
        scenario: scenario.into(),
        step,
        viewport: Viewport { width, height: 800 },
        domains: DOMAINS
            .iter()
            .map(|name| (name.to_string(), domain(object(vec![("step", num(&step.to_string()))]), &format!("{{\"step\":{step}}}"))))
            .collect(),
    }
}

fn recording() -> Artifact {
    Artifact {
        format: "recreate-oracle/v1".into(),
        source: "https://example.com".into(),
        environment: Environment {
            schema: 1,
            browser_product: "test".into(),
            browser_revision: "1".into(),
            protocol_version: "1".into(),
            command_line_digest: "flags".into(),
            operating_system: "test".into(),
            architecture: "test".into(),
            locale: "en-US".into(),
            timezone: "UTC".into(),
            color_scheme: "light".into(),
            reduced_motion: false,
            device_scale_factor_milli: 1000,
        },
        scenarios: vec![],
        obligations: vec![],
        checkpoints: vec![checkpoint("responsive-320-768", 0, 320), checkpoint("responsive-320-768", 1, 768)],
        coverage: Coverage { widths_required: 2, widths_observed: 2, domains_required: vec![], incomplete: vec![] },
        payload_digest: "payload".into(),
    }
}

#[test]
fn a_recording_certifies_its_own_checkpoints() {
    let expected = recording();
    let report = artifacts(&expected, &expected.checkpoints, b"environment", 12);
    assert!(report.certified);
    assert_eq!(report.status, "PASS");
    assert_eq!(report.accuracy_ppm, 1_000_000);
    assert_eq!(report.qualified_coverage_ppm, 1_000_000);
    assert_eq!(report.matched_domains, 14);
    assert_eq!(report.total_domains, 14);
    assert_eq!(report.environment_digest, bytes(b"environment"));
    assert_eq!(report.source_artifact_digest, "payload");
    assert_eq!(report.elapsed_ms, 12);
    assert!(report.first_difference.is_none());
    let names: Vec<&str> = report.domain_scores_ppm.iter().map(|(name, _)| name.as_str()).collect();
    assert_eq!(names, vec!["accessibility", "async", "geometry", "interaction", "motion", "structure", "style"]);
    assert!(report.domain_scores_ppm.iter().all(|(_, score)| *score == 1_000_000));
    let reference = reference_artifacts(&expected, &expected.checkpoints, b"environment", 12);
    assert!(reference.certified);
}

#[test]
fn a_missing_checkpoint_fails_with_a_coverage_blocker() {
    let expected = recording();
    let actual = vec![expected.checkpoints[0].clone()];
    let report = artifacts(&expected, &actual, b"environment", 0);
    assert!(!report.certified);
    assert_eq!(report.status, "FAIL");
    assert_eq!(report.matched_domains, 7);
    assert_eq!(report.accuracy_ppm, 500_000);
    assert_eq!(report.qualified_coverage_ppm, 0);
    assert_eq!(report.blockers, vec!["checkpoint coverage expected=2 actual=1".to_string()]);
    assert_eq!(report.differences.len(), 1);
    let missing = report.first_difference.unwrap();
    assert_eq!(missing.domain, "checkpoint");
    assert_eq!(missing.path, "$");
    assert_eq!(missing.viewport_width, 768);
    assert!(matches!(&missing.expected, Json::Text(t) if t == "present"));
    assert!(matches!(missing.actual, Json::Null));
}

#[test]
fn a_changed_domain_is_located_by_path() {
    let expected = recording();
    let mut actual = expected.checkpoints.clone();
    actual[1].domains[4].1 = domain(object(vec![("step", num("7"))]), "{\"step\":7}");
    let report = artifacts(&expected, &actual, b"environment", 0);
    assert!(!report.certified);
    assert_eq!(report.matched_domains, 13);
    assert_eq!(report.accuracy_ppm, 928_571);
    assert_eq!(report.differences.len(), 1);
    let difference = &report.differences[0];
    assert_eq!(difference.domain, "motion");
    assert_eq!(difference.scenario, "responsive-320-768");
    assert_eq!(difference.step, 1);
    assert_eq!(difference.path, "$.step");
    assert!(json_eq(&difference.expected, &num("1")));
    assert!(json_eq(&difference.actual, &num("7")));
    let motion = report.domain_scores_ppm.iter().find(|(name, _)| name == "motion").unwrap();
    assert_eq!(motion.1, 500_000);
}

#[test]
fn the_reference_comparison_goes_by_value_and_the_fast_one_by_digest() {
    let expected = recording();
    let mut actual = expected.checkpoints.clone();
    actual[0].domains[0].1.digest = "stale".into();
    assert!(!artifacts(&expected, &actual, b"", 0).certified);
    assert!(reference_artifacts(&expected, &actual, b"", 0).certified);
}

#[test]
fn a_missing_domain_and_the_recording_gaps_are_reported() {
    let mut expected = recording();
    expected.coverage.incomplete = vec!["hover".into()];
    let mut actual = expected.checkpoints.clone();
    actual[0].domains.retain(|(name, _)| name != "style");
    let report = artifacts(&expected, &actual, b"", 0);
    assert_eq!(report.blockers, vec!["hover".to_string()]);
    assert_eq!(report.differences.len(), 1);
    assert_eq!(report.differences[0].domain, "style");
    assert!(matches!(report.differences[0].actual, Json::Null));
}

#[test]
fn the_later_of_two_candidate_checkpoints_at_one_place_is_compared() {
    let expected = recording();
    let mut stale = expected.checkpoints[1].clone();
    stale.domains[0].1 = domain(num("0"), "0");
    let actual = vec![expected.checkpoints[0].clone(), stale, expected.checkpoints[1].clone()];
    let report = artifacts(&expected, &actual, b"", 0);
    assert!(report.differences.is_empty());
    assert_eq!(report.blockers, vec!["checkpoint coverage expected=2 actual=3".to_string()]);
}

#[test]
fn narrowing_to_interactions_keeps_their_scenarios_and_checkpoints() {
    let mut expected = recording();
    expected.scenarios = vec![
        Scenario { id: "responsive-320-768".into(), steps: vec![Step::ResizePath { widths: vec![320, 768], height: 800 }] },
        Scenario { id: "activate-menu".into(), steps: vec![Step::Reset, Step::Activate { anchor: "menu".into() }] },
        Scenario { id: "keyboard-navigation".into(), steps: vec![Step::Reset, Step::Key { key: "Tab".into() }] },
    ];
    expected.checkpoints.push(checkpoint("activate-menu", 1, 1280));
    expected.checkpoints.push(checkpoint("keyboard-navigation", 1, 1280));
    retain_interactions(&mut expected);
    let ids: Vec<&str> = expected.scenarios.iter().map(|s| s.id.as_str()).collect();
    assert_eq!(ids, vec!["activate-menu", "keyboard-navigation"]);
    let taken: Vec<&str> = expected.checkpoints.iter().map(|c| c.scenario.as_str()).collect();
    assert_eq!(taken, vec!["activate-menu", "keyboard-navigation"]);
    assert_eq!(expected.source, "https://example.com");
}

#[test]
fn a_request_is_keyed_by_method_url_and_body() {
    let request = object(vec![("postData", text("q=1")), ("url", text("https://example.com/api"))]);
    assert_eq!(request_key(&request), "GET\nhttps://example.com/api\nq=1");
    let request = object(vec![("method", text("POST"))]);
    assert_eq!(request_key(&request), "POST\n\n");
}

#[test]
fn response_bodies_are_decoded_from_base64_when_marked() {
    let body = object(vec![("base64Encoded", Json::Bool(true)), ("body", text("aGVsbG8="))]);
    assert_eq!(decode_body(&body).unwrap(), b"hello".to_vec());
    let body = object(vec![("body", text("héllo"))]);
    assert_eq!(decode_body(&body).unwrap(), "héllo".as_bytes().to_vec());
    let body = object(vec![("base64Encoded", Json::Bool(true)), ("body", text("not base64!"))]);
    assert_eq!(decode_body(&body).unwrap_err(), BodyError::InvalidBase64);
}

#[test]
fn responses_are_listed_by_path_and_query() {
    assert_eq!(normalized_path("https://example.com/a/b?x=1#top"), "/a/b?x=1");
    assert_eq!(normalized_path("https://example.com"), "/");
    assert_eq!(normalized_path("not a url"), "not a url");
}

fn with_domain(mut c: Checkpoint, name: &str, value: Json) -> Checkpoint {
    let i = c.domains.iter().position(|(n, _)| n == name).unwrap();
    c.domains[i].1 = domain(value, "{}");
    c
}

#[test]
fn network_evidence_and_unavailable_bodies_are_found() {
    let plain = checkpoint("async-settled", 0, 1280);
    assert!(!has_network_evidence(&plain));
    assert!(!has_unavailable_network_body(&plain));
    assert!(!has_ambiguous_nodes(&plain));
    let c = with_domain(
        plain.clone(),
        "async",
        object(vec![("network", Json::Array(vec![object(vec![]), object(vec![("body_unavailable", Json::Bool(true))])]))]),
    );
    assert!(has_network_evidence(&c));
    assert!(has_unavailable_network_body(&c));
    let c = with_domain(plain.clone(), "async", object(vec![("documentState", object(vec![("network", text("idle"))]))]));
    assert!(has_network_evidence(&c));
    let c = with_domain(plain, "structure", object(vec![("ambiguous", Json::Array(vec![text("a")]))]));
    assert!(has_ambiguous_nodes(&c));
}

#[test]
fn responsive_widths_are_counted_and_discoveries_go_before_settling() {
    let scenarios = vec![
        Scenario { id: "responsive-320-768".into(), steps: vec![Step::ResizePath { widths: vec![320, 768], height: 800 }] },
        Scenario { id: "responsive-1440".into(), steps: vec![Step::SetViewport { width: 1440, height: 900 }, Step::Reset] },
        Scenario { id: "keyboard-navigation".into(), steps: vec![Step::SetViewport { width: 1280, height: 800 }] },
        Scenario { id: "async-settled".into(), steps: vec![] },
    ];
    assert_eq!(responsive_width_count(&scenarios), 3);
    let mut placed = scenarios.clone();
    insert_before_async(&mut placed, vec![Scenario { id: "activate-menu".into(), steps: vec![] }]);
    let ids: Vec<&str> = placed.iter().map(|s| s.id.as_str()).collect();
    assert_eq!(ids, vec!["responsive-320-768", "responsive-1440", "keyboard-navigation", "activate-menu", "async-settled"]);
}

fn obligation(id: &str, kind: &str, status: ObligationStatus, scenarios: &[&str]) -> Obligation {
    Obligation { id: id.into(), kind: kind.into(), status, scenarios: scenarios.iter().map(|s| s.to_string()).collect() }
}

#[test]
fn a_diagnostic_recording_keeps_interactions_and_narrows_obligations() {
    let mut scenarios = vec![
        Scenario { id: "responsive-ascending".into(), steps: vec![] },
        Scenario { id: "interaction-0".into(), steps: vec![] },
        Scenario { id: "async-settled".into(), steps: vec![] },
        Scenario { id: "keyboard-navigation".into(), steps: vec![] },
        Scenario { id: "successor-2".into(), steps: vec![] },
    ];
    let mut obligations = vec![
        obligation("edge-1", "edge", ObligationStatus::Qualified, &["interaction-0", "async-settled"]),
        obligation("timer", "timer", ObligationStatus::Qualified, &["async-settled"]),
        obligation("opaque", "media", ObligationStatus::Opaque, &["responsive-ascending"]),
    ];
    retain_diagnostic(&mut scenarios, &mut obligations);
    let ids: Vec<&str> = scenarios.iter().map(|s| s.id.as_str()).collect();
    assert_eq!(ids, vec!["interaction-0", "keyboard-navigation", "successor-2"]);
    assert_eq!(obligations[0].scenarios, vec!["interaction-0".to_string()]);
    assert!(matches!(obligations[0].status, ObligationStatus::Qualified));
    assert!(obligations[1].scenarios.is_empty());
    assert!(matches!(obligations[1].status, ObligationStatus::Uncovered));
    assert!(matches!(obligations[2].status, ObligationStatus::Opaque));
}

#[test]
fn coverage_gaps_are_listed_in_order_and_a_perturbed_trace_is_refused() {
    let plain = checkpoint("responsive-ascending", 0, 1280);
    let lacking = with_domain(
        plain.clone(),
        "async",
        object(vec![("network", Json::Array(vec![object(vec![("body_unavailable", Json::Bool(true))])]))]),
    );
    let obligations = vec![
        obligation("edge-1", "edge", ObligationStatus::Qualified, &[]),
        obligation("runtime:fetch", "fetch", ObligationStatus::Uncovered, &[]),
    ];
    let trace = Some(("structure".to_string(), "$.nodes[0]".to_string(), "1".to_string(), "2".to_string()));
    assert_eq!(
        coverage_incomplete(false, trace.clone(), &obligations, &vec![plain.clone()]).unwrap_err(),
        "discovery instrumentation perturbed structure at $.nodes[0]: traced=1 clean=2"
    );
    assert_eq!(
        coverage_incomplete(true, trace, &obligations, &vec![plain.clone()]).unwrap(),
        vec![
            "diagnostic-trace-instability:structure:$.nodes[0]".to_string(),
            "diagnostic-source-self-unverified".to_string(),
            "diagnostic-discovered-responsive-motion-skipped".to_string(),
            "runtime:fetch".to_string(),
            "network-registration-without-response-fixture".to_string(),
        ]
    );
    assert_eq!(
        coverage_incomplete(false, None, &obligations, &vec![plain, lacking]).unwrap(),
        vec!["runtime:fetch".to_string(), "network-response-body-unavailable".to_string()]
    );
}

#[test]
fn network_responses_are_counted_over_every_checkpoint() {
    let plain = checkpoint("responsive-ascending", 0, 1280);
    let two = with_domain(plain.clone(), "async", object(vec![("network", Json::Array(vec![object(vec![]), object(vec![])]))]));
    assert_eq!(network_response_count(&vec![plain.clone(), two.clone(), two]), 4);
    assert_eq!(network_response_count(&vec![plain]), 0);
}
