use recreate::digest::bytes;
use recreate::json::Json;
use recreate::oracle::artifact::{seal, verify, verify_with, Artifact, Checkpoint, Domain, VerifyError};
use recreate::oracle::model::{Coverage, Environment, Obligation, ObligationStatus, Scenario, Step, Viewport};

const DOMAINS: [&str; 7] = ["interaction", "async", "structure", "accessibility", "motion", "geometry", "style"];

/// The artifact's serialized form with an empty payload digest.
fn payload(artifact: &Artifact) -> Vec<u8> {
    let mut unsigned = artifact.clone();
    unsigned.payload_digest.clear();
    format!("{unsigned:?}").into_bytes()
}

fn sealed(artifact: Artifact) -> Artifact {
    let unsigned = payload(&artifact);
    seal(artifact, &unsigned)
}

fn environment() -> Environment {
    Environment {
        schema: 1,
        browser_product: "test".into(),
        browser_revision: "1".into(),
        protocol_version: "1".into(),
        command_line_digest: "flags".into(),
        operating_system: "test".into(),
        architecture: "test".into(),
        locale: "en-US".into(),
        timezone: "UTC".into(),
        color_scheme: "light".into(),
        reduced_motion: false,
        device_scale_factor_milli: 1000,
    }
}

fn domain(value: &str) -> Domain {
    Domain { digest: bytes(value.as_bytes()), value: Json::Text(value.into()), encoded: value.as_bytes().to_vec() }
}

fn checkpoint(scenario: &str, step: usize) -> Checkpoint {
    Checkpoint {
        scenario: scenario.into(),
        step,
        viewport: Viewport { width: 1280, height: 800 },
        domains: DOMAINS.iter().map(|name| (name.to_string(), domain(&format!("{{\"{name}\":{step}}}")))).collect(),
    }
}

/// A complete recording: one responsive scenario over two widths and one
/// activation, every obligation qualified.
fn complete() -> Artifact {
    Artifact {
        format: "recreate-oracle/v1".into(),
        source: "https://example.com".into(),
        environment: environment(),
        scenarios: vec![
            Scenario {
                id: "responsive-320-768".into(),
                steps: vec![Step::ResizePath { widths: vec![320, 768], height: 800 }],
            },
            Scenario {
                id: "activate-menu".into(),
                steps: vec![Step::Reset, Step::Activate { anchor: "menu".into() }, Step::Hover { anchor: "menu".into() }],
            },
        ],
        obligations: vec![Obligation {
            id: "edge-1".into(),
            kind: "edge".into(),
            status: ObligationStatus::Qualified,
            scenarios: vec!["activate-menu".into()],
        }],
        checkpoints: vec![checkpoint("responsive-320-768", 0), checkpoint("responsive-320-768", 1), checkpoint("activate-menu", 1)],
        coverage: Coverage {
            widths_required: 2,
            widths_observed: 2,
            domains_required: DOMAINS.iter().map(|name| name.to_string()).collect(),
            incomplete: vec![],
        },
        payload_digest: String::new(),
    }
}

fn refusal(artifact: Artifact) -> String {
    let artifact = sealed(artifact);
    verify(&artifact, &payload(&artifact)).unwrap_err().message()
}

#[test]
fn tampering_is_rejected() {
    let mut artifact = sealed(Artifact {
        format: "recreate-oracle/v1".into(),
        source: "a".into(),
        environment: environment(),
        scenarios: vec![],
        obligations: vec![],
        checkpoints: vec![],
        coverage: Coverage { widths_required: 0, widths_observed: 0, domains_required: vec![], incomplete: vec![] },
        payload_digest: String::new(),
    });
    artifact.source = "tampered".into();
    assert!(verify(&artifact, &payload(&artifact)).is_err());
}

#[test]
fn digest_is_stable() {
    assert_eq!(bytes(b"oracle"), bytes(b"oracle"));
    assert_ne!(bytes(b"oracle"), bytes(b"candidate"));
}

#[test]
fn a_digest_is_sixty_four_lowercase_hex_digits() {
    assert_eq!(bytes(b""), "e3b0c44298fc1c149afbf4c8996fb92427ae41e4649b934ca495991b7852b855");
    assert_eq!(bytes(b"abc"), "ba7816bf8f01cfea414140de5dae2223b00361a396177a9cb410ff61f20015ad");
}

#[test]
fn a_complete_sealed_recording_verifies() {
    let artifact = sealed(complete());
    assert_eq!(artifact.payload_digest.len(), 64);
    assert!(verify(&artifact, &payload(&artifact)).is_ok());
}

#[test]
fn a_tampered_recording_is_refused_as_a_digest_mismatch() {
    let mut artifact = sealed(complete());
    artifact.source = "https://example.org".into();
    let refused = verify(&artifact, &payload(&artifact)).unwrap_err();
    assert!(matches!(refused, VerifyError::DigestMismatch));
    assert_eq!(refused.message(), "artifact digest mismatch");
}

#[test]
fn an_unknown_format_is_refused() {
    let mut artifact = complete();
    artifact.format = "recreate-oracle/v2".into();
    assert_eq!(refusal(artifact), "unsupported artifact format");
}

#[test]
fn an_empty_source_is_refused() {
    let mut artifact = complete();
    artifact.source = String::new();
    assert_eq!(refusal(artifact), "artifact source is empty");
}

#[test]
fn missing_widths_are_refused() {
    let mut artifact = complete();
    artifact.coverage.widths_required = 3;
    assert_eq!(refusal(artifact), "responsive width coverage is incomplete");
}

#[test]
fn responsive_checkpoints_must_match_the_observed_widths() {
    let mut artifact = complete();
    artifact.checkpoints.remove(1);
    assert_eq!(refusal(artifact), "responsive checkpoint count does not match coverage");
}

#[test]
fn the_domain_contract_must_name_every_domain_in_order() {
    let mut artifact = complete();
    artifact.coverage.domains_required.swap(0, 1);
    assert_eq!(refusal(artifact), "artifact domain contract is incomplete");
}

#[test]
fn scenario_ids_must_be_unique() {
    let mut artifact = complete();
    artifact.scenarios[1].id = "responsive-320-768".into();
    assert_eq!(refusal(artifact), "scenario ids are not unique");
}

#[test]
fn every_step_that_observes_leaves_one_checkpoint() {
    let mut artifact = complete();
    artifact.checkpoints.push(checkpoint("activate-menu", 2));
    assert_eq!(refusal(artifact), "scenario checkpoint coverage mismatch: activate-menu");
}

#[test]
fn an_unqualified_obligation_is_refused_unless_diagnosing() {
    let mut artifact = complete();
    artifact.obligations[0].status = ObligationStatus::Opaque;
    let artifact = sealed(artifact);
    let unsigned = payload(&artifact);
    assert_eq!(verify(&artifact, &unsigned).unwrap_err().message(), "unqualified obligation: edge-1");
    assert!(verify_with(&artifact, &unsigned, true).is_ok());
}

#[test]
fn an_obligation_must_name_a_recorded_scenario() {
    let mut artifact = complete();
    artifact.obligations[0].scenarios.push("hover-menu".into());
    assert_eq!(refusal(artifact), "obligation references an unknown scenario: edge-1");
}

#[test]
fn every_checkpoint_records_every_domain() {
    let mut artifact = complete();
    artifact.checkpoints[2].domains.retain(|(name, _)| name != "motion");
    assert_eq!(refusal(artifact), "checkpoint missing domain motion");
}

#[test]
fn a_domain_digest_must_match_its_value() {
    let mut artifact = complete();
    artifact.checkpoints[0].domains[3].1.encoded = b"{\"changed\":true}".to_vec();
    assert_eq!(refusal(artifact), "checkpoint domain digest mismatch: accessibility");
}

#[test]
fn incomplete_coverage_is_listed_unless_diagnosing() {
    let mut artifact = complete();
    artifact.coverage.incomplete = vec!["hover".into(), "keyboard".into()];
    let artifact = sealed(artifact);
    let unsigned = payload(&artifact);
    assert_eq!(verify(&artifact, &unsigned).unwrap_err().message(), "artifact coverage is incomplete: hover, keyboard");
    assert!(verify_with(&artifact, &unsigned, true).is_ok());
}
