use recreate::backtest::authored::{
    compare_authored_state, compare_raster_tiles, compare_stylesheet,
};
use recreate::backtest::compact::compact_semantic_findings;
use recreate::backtest::display::css_pixel_delta;
use recreate::backtest::grouping::normalized_font_family;
use recreate::backtest::focus::artifacts_focused;
use recreate::backtest::matched::compare_semantic_node;
use recreate::backtest::pairing::{boxes_fit, compare_semantic_state, compare_text_collisions, semantic_nodes, semantic_per_state};
use recreate::backtest::semantic::semantic_text;
use recreate::backtest::topology::{compare_layout_topology, layout_metrics, Bounds, LayoutPair};
use recreate::backtest::compare::{compare_node, duplicate_keys, finding, scenario_rank, Scope};
use recreate::backtest::display::round_pixels;
use recreate::backtest::grouping::label_list;
use recreate::backtest::model::{
    Artifact, LayoutShiftEvidence, MotionCheckpoint, MotionEvidence, NodeEvidence,
    RasterTileEvidence, SourceIdentity, State, Status, StylesheetEvidence, SweepNode, SweepProbe,
    Viewport, SCHEMA_VERSION,
};
use recreate::backtest::motion::compare_motion;
use recreate::backtest::runtime::{compare_interaction_events, compare_load_events};
use recreate::backtest::swept::compare_sweep;
use recreate::backtest::verdict::artifacts;
use std::time::Instant;

fn state(scenario: &str, node: NodeEvidence) -> State {
    State {
        viewport: Viewport {
            width: 1440,
            height: 900,
        },
        scenario: scenario.into(),
        nodes: vec![("target".into(), node)],
        capture_complete: true,
        ..State::default()
    }
}

fn scope(scenario: &str) -> Scope {
    Scope::Recorded {
        viewport: 1440,
        scenario: scenario.into(),
    }
}

/// The form an artifact is digested in here: its debug rendering with an
/// empty digest.
fn unsigned(artifact: &Artifact) -> Vec<u8> {
    let mut copy = artifact.clone();
    copy.digest.clear();
    format!("{copy:?}").into_bytes()
}

fn artifact(states: Vec<State>) -> Artifact {
    let mut artifact = Artifact {
        schema_version: SCHEMA_VERSION,
        source: SourceIdentity {
            requested_url: "http://fixture.test".into(),
            rendered_url: "http://fixture.test".into(),
            browser: "browser".into(),
            fingerprint: "fingerprint".into(),
        },
        actions: Vec::new(),
        states,
        sweep: Vec::new(),
        uncovered: Vec::new(),
        digest: String::new(),
    };
    let bytes = unsigned(&artifact);
    artifact.seal(&bytes);
    artifact
}

fn compare(source: &Artifact, candidate: &Artifact, elapsed_ms: u128) -> recreate::backtest::model::Report {
    let semantic = vec![Vec::new(); source.states.len()];
    artifacts(
        source,
        candidate,
        elapsed_ms,
        &unsigned(source),
        &unsigned(candidate),
        &semantic,
    )
}

#[test]
fn text_is_canonical_over_geometry() {
    let source = state(
        "base",
        NodeEvidence {
            text: "source".into(),
            width: 10000,
            ..NodeEvidence::default()
        },
    );
    let candidate = state(
        "base",
        NodeEvidence {
            text: "candidate".into(),
            width: 12000,
            ..NodeEvidence::default()
        },
    );
    let findings = compare_authored_state(&source, &candidate);
    assert_eq!(findings.len(), 1);
    assert_eq!(findings[0].property, "text");
}

fn page_of(nodes: usize) -> State {
    let mut state = state("base", NodeEvidence::default());
    state.nodes = (0..nodes)
        .map(|index| {
            (
                format!("node{index}"),
                NodeEvidence {
                    tag: "span".into(),
                    text: format!("item {index}"),
                    visible: true,
                    y: index as i64 * 4000,
                    width: 20000,
                    height: 2200,
                    ..NodeEvidence::default()
                },
            )
        })
        .collect();
    state.nodes.sort_by(|a, b| a.0.cmp(&b.0));
    state
}

fn clipped_page_of(nodes: usize, clipped: bool) -> State {
    let mut state = page_of(nodes);
    for (_, node) in state.nodes.iter_mut() {
        node.clipped = clipped;
    }
    state
}

#[test]
fn a_source_that_never_rendered_its_page_is_inconclusive_rather_than_compared() {
    let report = compare(&artifact(vec![page_of(9)]), &artifact(vec![page_of(2656)]), 10);
    assert_eq!(report.status, Status::Inconclusive);
    assert!(
        report
            .diagnostic
            .as_deref()
            .unwrap_or_default()
            .contains("the source never rendered its page"),
        "{:?}",
        report.diagnostic
    );
    assert!(report.findings.is_empty());
}

#[test]
fn a_recreation_clipped_to_nothing_is_inconclusive_rather_than_compared() {
    let report = compare(
        &artifact(vec![page_of(369)]),
        &artifact(vec![clipped_page_of(369, true)]),
        10,
    );
    assert_eq!(report.status, Status::Inconclusive);
    assert!(
        report
            .diagnostic
            .as_deref()
            .unwrap_or_default()
            .contains("the recreation painted nothing"),
        "{:?}",
        report.diagnostic
    );
    assert!(report.findings.is_empty());
}

#[test]
fn a_page_that_actually_paints_is_still_compared() {
    let report = compare(
        &artifact(vec![page_of(369)]),
        &artifact(vec![clipped_page_of(369, false)]),
        10,
    );
    assert_ne!(
        report.status,
        Status::Inconclusive,
        "an unclipped page must not trip the blank-page guard: {:?}",
        report.diagnostic
    );
}

#[test]
fn two_fully_rendered_pages_are_still_compared() {
    let report = compare(&artifact(vec![page_of(2656)]), &artifact(vec![page_of(2600)]), 10);
    assert_ne!(report.status, Status::Inconclusive);
}

fn styled(bands: &[&str], frozen_pixels: usize) -> State {
    let mut state = state("base", NodeEvidence::default());
    state.stylesheet = StylesheetEvidence {
        viewport_bands: bands.iter().map(|band| band.to_string()).collect(),
        frozen_pixels,
        frozen_tracks: 0,
    };
    state
}

#[test]
fn breakpoints_the_source_never_declared_are_reported_at_one_viewport() {
    let findings = compare_stylesheet(
        &styled(&["(max-width:1023px)"], 4),
        &styled(
            &["(max-width:1023px)", "(min-width:769px)and(max-width:1440px)"],
            4,
        ),
    );
    let line = findings
        .iter()
        .find(|finding| finding.property == "invented breakpoints")
        .map(|finding| finding.line.clone());
    assert_eq!(
        line.as_deref(),
        Some("V1440 base stylesheet invented breakpoints none->(min-width:769px)and(max-width:1440px)")
    );
}

#[test]
fn a_breakpoint_rewritten_in_range_syntax_is_not_reported_as_invented() {
    let findings = compare_stylesheet(
        &styled(&["(max-width:800px)"], 4),
        &styled(&["(width<=800px)"], 4),
    );
    assert!(!findings
        .iter()
        .any(|finding| finding.property == "invented breakpoints"));
}

#[test]
fn matching_breakpoints_are_not_reported() {
    let findings = compare_stylesheet(
        &styled(&["(max-width:1023px)"], 40),
        &styled(&["(max-width:1023px)"], 44),
    );
    assert!(!findings.iter().any(|finding| finding.target == "stylesheet"));
}

#[test]
fn a_flood_of_sampled_pixel_lengths_is_reported() {
    let findings = compare_stylesheet(&styled(&[], 8), &styled(&[], 393));
    assert!(findings
        .iter()
        .any(|finding| finding.property == "sampled pixel lengths"));
    assert_eq!(
        findings[0].line,
        "V1440 base stylesheet sampled pixel lengths 8->393 +385"
    );
}

#[test]
fn authored_image_content_difference_is_actionable() {
    let source = state(
        "base",
        NodeEvidence {
            tag: "img".into(),
            rendered_content_sha256: "source".into(),
            ..NodeEvidence::default()
        },
    );
    let candidate = state(
        "base",
        NodeEvidence {
            tag: "img".into(),
            rendered_content_sha256: "candidate".into(),
            ..NodeEvidence::default()
        },
    );
    let findings = compare_authored_state(&source, &candidate);
    assert_eq!(findings.len(), 1);
    assert_eq!(findings[0].property, "image-content");
    assert_eq!(findings[0].line, "V1440 base target image-content expected->different");
}

#[test]
fn identical_rendered_asset_content_is_ignored() {
    let source = NodeEvidence {
        tag: "img".into(),
        rendered_content_sha256: "same".into(),
        ..NodeEvidence::default()
    };
    assert!(compare_node(&scope("base"), "image", &source, &source).is_none());
}

#[test]
fn interaction_runtime_values_are_compared() {
    let source = state("click:button", NodeEvidence::default());
    let mut candidate = state("click:button", NodeEvidence::default());
    candidate.runtime.console_errors = vec!["interaction failed".into()];
    let mut findings = Vec::new();
    compare_interaction_events(&source, &candidate, None, None, &mut findings);
    assert_eq!(findings.len(), 1);
    assert_eq!(findings[0].property, "console-errors");
    assert_eq!(findings[0].candidate, "interaction failed");
}

#[test]
fn pending_work_is_compared_in_base_state() {
    let source = state("base", NodeEvidence::default());
    let mut candidate = state("base", NodeEvidence::default());
    candidate.runtime.pending_timers = 1;
    let findings = compare_authored_state(&source, &candidate);
    assert_eq!(findings.len(), 1);
    assert_eq!(findings[0].property, "pending-timers");
}

#[test]
fn unexpected_layout_shift_is_compared() {
    let mut source = state("timer:100", NodeEvidence::default());
    source.runtime.layout_shifts = vec![LayoutShiftEvidence {
        value: 120_000,
        sources: vec!["main \"Notebook grid\"".into()],
    }];
    let candidate = state("timer:100", NodeEvidence::default());
    let findings = compare_authored_state(&source, &candidate);
    assert_eq!(findings.len(), 1);
    assert_eq!(
        findings[0].line,
        "V1440 timer:100 layout near main \"Notebook grid\" shift-score 0.12->0 -0.12"
    );
}

#[test]
fn equal_count_load_event_values_are_compared() {
    let mut source = state("load", NodeEvidence::default());
    source.runtime.console_errors = vec!["source error".into()];
    let mut candidate = state("load", NodeEvidence::default());
    candidate.runtime.console_errors = vec!["candidate error".into()];
    let mut findings = Vec::new();
    compare_load_events(&source, &candidate, &mut findings);
    assert_eq!(findings.len(), 1);
    assert_eq!(findings[0].source, "source error");
    assert_eq!(findings[0].candidate, "candidate error");
}

#[test]
fn interaction_pixel_only_difference_is_compared() {
    let mut source = state("hover:target", NodeEvidence::default());
    source.screenshot_sha256 = "source-pixels".into();
    let mut candidate = state("hover:target", NodeEvidence::default());
    candidate.screenshot_sha256 = "candidate-pixels".into();
    let findings = compare_authored_state(&source, &candidate);
    assert_eq!(findings.len(), 1);
    assert_eq!(findings[0].property, "pixels");
    assert_eq!(
        findings[0].line,
        "V1440 hover:target viewport pixels source-pixel->candidate-pi"
    );
}

#[test]
fn raster_attribution_reports_every_changed_owner() {
    let mut source = state("base", NodeEvidence::default());
    source.nodes.clear();
    source.screenshot_sha256 = "source-pixels".into();
    let mut candidate = source.clone();
    candidate.screenshot_sha256 = "candidate-pixels".into();
    for index in 0..12u32 {
        let x = index * 32;
        let node = NodeEvidence {
            tag: "section".into(),
            visible: true,
            x: i64::from(x) * 100,
            width: 3200,
            height: 3200,
            accessible_name: format!("Surface {index}"),
            raster_kind: "background-content".into(),
            ..NodeEvidence::default()
        };
        source.nodes.push((format!("surface-{index}"), node.clone()));
        candidate.nodes.push((format!("surface-{index}"), node));
        source.raster_tiles.push(RasterTileEvidence {
            x,
            y: 0,
            width: 32,
            height: 32,
            sha256: format!("source-{index}"),
        });
        candidate.raster_tiles.push(RasterTileEvidence {
            x,
            y: 0,
            width: 32,
            height: 32,
            sha256: format!("candidate-{index}"),
        });
    }
    source.nodes.sort_by(|a, b| a.0.cmp(&b.0));
    candidate.nodes.sort_by(|a, b| a.0.cmp(&b.0));
    let findings = compare_raster_tiles(&source, &candidate, true);
    assert_eq!(findings.len(), 12);
}

#[test]
fn structural_root_suppresses_descendant_noise() {
    let mut source = state("base", NodeEvidence::default());
    source.nodes = vec![
        ("html>body".into(), NodeEvidence::default()),
        ("html>body>main".into(), NodeEvidence::default()),
    ];
    let mut candidate = state("base", NodeEvidence::default());
    candidate.nodes.clear();
    let findings = compare_authored_state(&source, &candidate);
    assert_eq!(findings.len(), 1);
    assert_eq!(findings[0].target, "html>body");
}

#[test]
fn motion_duration_is_reported_without_waiting() {
    let motion = |duration_ms| MotionEvidence {
        kind: "web-animation".into(),
        name: "panel-open".into(),
        duration_ms,
        properties: vec!["opacity".into()],
        checkpoints: vec![MotionCheckpoint {
            progress: 50,
            values: vec![("opacity".into(), "0.5".into())],
        }],
        ..MotionEvidence::default()
    };
    let source = NodeEvidence {
        motions: vec![motion(200)],
        ..NodeEvidence::default()
    };
    let candidate = NodeEvidence {
        motions: vec![motion(350)],
        ..NodeEvidence::default()
    };
    let finding = compare_motion(&scope("base"), "panel", &source, &candidate).unwrap();
    assert_eq!(
        finding.line,
        "V1440 base panel / web animation \"panel-open\" duration 200ms->350ms +150ms"
    );
}

#[test]
fn suppresses_repeated_root_difference() {
    let source_node = NodeEvidence {
        width: 10000,
        height: 1000,
        ..NodeEvidence::default()
    };
    let candidate_node = NodeEvidence {
        width: 8000,
        height: 1000,
        ..NodeEvidence::default()
    };
    let source = artifact(vec![
        state("base", source_node.clone()),
        state("click:button", source_node),
    ]);
    let candidate = artifact(vec![
        state("base", candidate_node.clone()),
        state("click:button", candidate_node),
    ]);
    let report = compare(&source, &candidate, 1);
    assert_eq!(report.findings.len(), 1);
    assert_eq!(report.suppressed_duplicates, 1);
    assert_eq!(duplicate_keys(&report.findings), 0);
}

#[test]
fn compare_corrupted_artifact_fails_closed() {
    let mut source = artifact(vec![state("base", NodeEvidence::default())]);
    let candidate = source.clone();
    source.states[0].scenario = "corrupt".into();
    let report = compare(&source, &candidate, 1);
    assert_eq!(report.status, Status::PreparationRequired);
    assert!(report.findings.is_empty());
    assert_eq!(report.diagnostic.as_deref(), Some("artifact integrity check failed"));
}

#[test]
fn comparison_core_stays_fast() {
    let source = artifact(vec![state("base", NodeEvidence::default())]);
    let candidate = source.clone();
    let started = Instant::now();
    for _ in 0..1_000 {
        assert_eq!(compare(&source, &candidate, 0).status, Status::Pass);
    }
    assert!(started.elapsed().as_secs_f64() < 5.0);
}

fn sweep_node(x: i64, y: i64, width: i64, visible: bool) -> SweepNode {
    SweepNode {
        visible,
        x: x * 100,
        y: y * 100,
        width: width * 100,
        height: 2000,
        transform: "none".into(),
    }
}

fn sweep_probe(width: u32, node: SweepNode) -> SweepProbe {
    SweepProbe {
        width,
        nodes: vec![("p1-mark".into(), node)],
    }
}

fn swept(source: Vec<SweepProbe>, candidate: Vec<SweepProbe>) -> Vec<recreate::backtest::model::Finding> {
    let mut left = artifact(vec![state("base", NodeEvidence::default())]);
    left.sweep = source;
    let mut right = artifact(vec![state("base", NodeEvidence::default())]);
    right.sweep = candidate;
    compare_sweep(&left, &right)
}

#[test]
fn a_swept_difference_names_the_width_interval_it_holds_over() {
    let findings = swept(
        vec![
            sweep_probe(449, sweep_node(24, 0, 200, true)),
            sweep_probe(450, sweep_node(24, 0, 200, true)),
            sweep_probe(479, sweep_node(24, 0, 200, true)),
            sweep_probe(480, sweep_node(24, 0, 200, true)),
        ],
        vec![
            sweep_probe(449, sweep_node(24, 0, 200, true)),
            sweep_probe(450, sweep_node(159, 0, 200, true)),
            sweep_probe(479, sweep_node(159, 0, 200, true)),
            sweep_probe(480, sweep_node(24, 0, 200, true)),
        ],
    );
    assert_eq!(findings.len(), 1);
    assert_eq!(findings[0].line, "V450-479 sweep p1-mark x 24->159 +135px");
    assert_eq!(findings[0].key, "450-479:p1-mark:x");
    assert_eq!(findings[0].viewport, 450);
    assert_eq!(findings[0].scenario, "sweep");
}

#[test]
fn a_band_open_at_the_lowest_probe_reports_from_that_probe() {
    let hidden = sweep_node(0, 0, 0, false);
    let shown = sweep_node(24, 24, 200, true);
    let findings = swept(
        vec![
            sweep_probe(540, hidden.clone()),
            sweep_probe(599, hidden.clone()),
            sweep_probe(600, hidden.clone()),
            sweep_probe(601, shown.clone()),
        ],
        vec![
            sweep_probe(540, shown.clone()),
            sweep_probe(599, shown.clone()),
            sweep_probe(600, shown.clone()),
            sweep_probe(601, shown.clone()),
        ],
    );
    assert_eq!(
        findings.iter().map(|f| f.line.as_str()).collect::<Vec<_>>(),
        vec!["V540-600 sweep p1-mark visibility hidden->visible"]
    );
}

#[test]
fn a_one_pixel_interval_collapses_to_a_single_width() {
    let findings = swept(
        vec![
            sweep_probe(599, sweep_node(24, 204, 200, true)),
            sweep_probe(600, sweep_node(24, 204, 200, true)),
            sweep_probe(601, sweep_node(24, 204, 200, true)),
        ],
        vec![
            sweep_probe(599, sweep_node(24, 204, 200, true)),
            sweep_probe(600, sweep_node(24, 184, 200, true)),
            sweep_probe(601, sweep_node(24, 204, 200, true)),
        ],
    );
    assert_eq!(findings.len(), 1);
    assert_eq!(findings[0].line, "V600 sweep p1-mark y 204->184 -20px");
    assert_eq!(findings[0].key, "600-600:p1-mark:y");
}

#[test]
fn a_pure_translation_is_reported_as_a_position_not_as_a_transform() {
    let mut moved = sweep_node(24, 456, 200, true);
    moved.transform = "matrix(1, 0, 0, 1, 0, 48)".into();
    let findings = swept(
        vec![
            sweep_probe(600, sweep_node(24, 408, 200, true)),
            sweep_probe(601, sweep_node(24, 408, 200, true)),
            sweep_probe(661, sweep_node(24, 408, 200, true)),
            sweep_probe(662, sweep_node(24, 408, 200, true)),
        ],
        vec![
            sweep_probe(600, sweep_node(24, 408, 200, true)),
            sweep_probe(601, moved.clone()),
            sweep_probe(661, moved),
            sweep_probe(662, sweep_node(24, 408, 200, true)),
        ],
    );
    assert_eq!(findings.len(), 1);
    assert_eq!(findings[0].property, "y");
    assert_eq!(findings[0].line, "V601-661 sweep p1-mark y 408->456 +48px");
}

#[test]
fn a_page_that_matches_at_every_swept_width_reports_nothing() {
    let probes = vec![
        sweep_probe(599, sweep_node(24, 0, 200, true)),
        sweep_probe(600, sweep_node(24, 0, 200, true)),
    ];
    assert!(swept(probes.clone(), probes).is_empty());
}

#[test]
fn a_missing_sweep_on_either_side_produces_no_interval_findings() {
    let probes = vec![sweep_probe(600, sweep_node(24, 0, 200, true))];
    assert!(swept(probes.clone(), Vec::new()).is_empty());
    assert!(swept(Vec::new(), probes).is_empty());
}

#[test]
fn a_width_the_sweep_never_reached_is_reported_as_uncovered() {
    let probes = vec![sweep_probe(600, sweep_node(24, 0, 200, true))];
    let mut left = artifact(vec![state("base", NodeEvidence::default())]);
    left.sweep = probes.clone();
    left.uncovered = vec![900, 901];
    let mut right = artifact(vec![state("base", NodeEvidence::default())]);
    right.sweep = probes;
    let findings = compare_sweep(&left, &right);
    assert_eq!(
        findings.iter().map(|f| f.line.as_str()).collect::<Vec<_>>(),
        vec![
            "V900 sweep viewport coverage measured->UNCOVERED",
            "V901 sweep viewport coverage measured->UNCOVERED"
        ]
    );
}

#[test]
fn uncovered_widths_of_both_sides_are_listed_once_in_ascending_order() {
    let mut left = artifact(vec![state("base", NodeEvidence::default())]);
    left.uncovered = vec![901, 600];
    let mut right = artifact(vec![state("base", NodeEvidence::default())]);
    right.uncovered = vec![600, 700];
    let findings = compare_sweep(&left, &right);
    assert_eq!(
        findings.iter().map(|f| f.viewport).collect::<Vec<_>>(),
        vec![600, 700, 901]
    );
}

#[test]
fn an_entirely_unswept_page_still_declares_the_widths_it_skipped() {
    let mut left = artifact(vec![state("base", NodeEvidence::default())]);
    left.uncovered = vec![600];
    let right = artifact(vec![state("base", NodeEvidence::default())]);
    assert_eq!(compare_sweep(&left, &right).len(), 1);
}

#[test]
fn a_sweep_that_reached_every_width_reports_no_coverage_gap() {
    let probes = vec![
        sweep_probe(599, sweep_node(24, 0, 200, true)),
        sweep_probe(600, sweep_node(24, 0, 200, true)),
    ];
    assert!(swept(probes.clone(), probes).is_empty());
}

#[test]
fn a_recorded_width_sorts_ahead_of_a_later_interval() {
    assert!(scenario_rank("base") < scenario_rank("sweep"));
    assert!(scenario_rank("sweep") < scenario_rank("load"));
    assert!(scenario_rank("sweep") < scenario_rank("click:toggle"));
}

fn labels(count: usize) -> Vec<String> {
    (0..count).map(|index| format!("button \"{index}\"")).collect()
}

#[test]
fn a_small_group_names_every_element() {
    assert_eq!(
        label_list(&labels(3)),
        "button \"0\", button \"1\", button \"2\""
    );
}

#[test]
fn a_large_group_names_every_element() {
    let line = label_list(&labels(44));
    assert!(!line.contains("more"), "{line}");
    assert_eq!(line.matches("button").count(), 44);
}

#[test]
fn a_pixel_value_is_displayed_without_false_precision() {
    assert_eq!(round_pixels("13.3333px"), "13.33px");
    assert_eq!(round_pixels("14px"), "14px");
    assert_eq!(round_pixels("12.50px"), "12.5px");
    assert_eq!(round_pixels("Segoe UI"), "Segoe UI");
    assert_eq!(round_pixels("#f0f0f0"), "#f0f0f0");
}

#[test]
fn grouped_content_findings_name_every_item() {
    let state = state("base", NodeEvidence::default());
    let findings = (1..=6)
        .map(|index| {
            finding(
                &scope("base"),
                &format!("main / button \"Item {index}\""),
                "content",
                "present",
                "missing",
                None,
            )
        })
        .collect();
    let compacted = compact_semantic_findings(&state, findings);
    assert_eq!(compacted.len(), 1);
    for index in 1..=6 {
        assert!(compacted[0].line.contains(&format!("Item {index}")));
    }
    assert!(!compacted[0].line.contains("more"));
}

#[test]
fn grouped_layout_and_style_findings_name_every_item() {
    let state = state("base", NodeEvidence::default());
    for property in ["x", "background"] {
        let findings = (1..=6)
            .map(|index| {
                finding(
                    &scope("base"),
                    &format!("main / button \"Item {index}\""),
                    property,
                    if property == "x" { "10" } else { "#ffffff" },
                    if property == "x" { "20" } else { "#000000" },
                    if property == "x" { Some("+10px".to_string()) } else { None },
                )
            })
            .collect();
        let compacted = compact_semantic_findings(&state, findings);
        assert_eq!(compacted.len(), 1);
        for index in 1..=6 {
            assert!(compacted[0].line.contains(&format!("Item {index}")));
        }
    }
}

#[test]
fn a_group_line_states_its_region_kind_direction_and_count() {
    let state = state("base", NodeEvidence::default());
    let findings = vec![
        finding(&scope("base"), "main / button \"A\"", "content", "present", "missing", None),
        finding(&scope("base"), "main / button \"B\"", "content", "present", "missing", None),
        finding(&scope("base"), "toolbar", "opacity", "1", "0.5", None),
    ];
    let compacted = compact_semantic_findings(&state, findings);
    assert_eq!(compacted.len(), 2);
    assert_eq!(compacted[0].property, "opacity");
    assert_eq!(
        compacted[1].line,
        "V1440 base main button missing 2: button \"A\", button \"B\""
    );
    assert_eq!(compacted[1].target, "main button");
    assert_eq!(compacted[1].key, "1440:main button:content");
    assert_eq!(compacted[1].items, vec!["button \"A\"", "button \"B\""]);
}

#[test]
fn a_shift_shared_by_three_elements_is_one_finding_with_counted_labels() {
    let state = state("base", NodeEvidence::default());
    let findings = vec![
        finding(&scope("base"), "main / link \"Docs\"", "y", "10", "30", Some("+20px".into())),
        finding(&scope("base"), "main / link \"Docs\"", "y", "40", "60", Some("+20px".into())),
        finding(&scope("base"), "main / link \"Blog\"", "y", "70", "90", Some("+20px".into())),
    ];
    let compacted = compact_semantic_findings(&state, findings);
    assert_eq!(compacted.len(), 1);
    assert_eq!(
        compacted[0].line,
        "V1440 base main layout y shifted +20px (3 elements: link \"Docs\" x2, link \"Blog\")"
    );
    assert_eq!(compacted[0].target, "main layout");
    assert_eq!(compacted[0].property, "y");
}

#[test]
fn groups_too_small_keep_their_findings_in_key_order() {
    let state = state("base", NodeEvidence::default());
    let findings = vec![
        finding(&scope("base"), "zone / button \"A\"", "content", "present", "missing", None),
        finding(&scope("base"), "area / button \"B\"", "content", "missing", "present", None),
        finding(&scope("base"), "area", "font-size", "12px", "14px", Some("+2px".into())),
        finding(&scope("base"), "area", "font-size", "12px", "14px", Some("+2px".into())),
    ];
    let compacted = compact_semantic_findings(&state, findings);
    let targets: Vec<&str> = compacted.iter().map(|f| f.target.as_str()).collect();
    assert_eq!(
        targets,
        vec!["area / button \"B\"", "zone / button \"A\"", "area", "area"]
    );
}

#[test]
fn a_matched_element_reports_one_property_per_family() {
    let state = state("base", NodeEvidence::default());
    let source = NodeEvidence {
        tag: "button".into(),
        text: "Save".into(),
        x: 1000,
        y: 2000,
        width: 8000,
        height: 3000,
        font_size: "16px".into(),
        font_weight: "400".into(),
        color: "#000".into(),
        background: "#fff".into(),
        ..NodeEvidence::default()
    };
    let candidate = NodeEvidence {
        x: 1250,
        font_size: "18px".into(),
        font_weight: "700".into(),
        color: "#111".into(),
        background: "#eee".into(),
        ..source.clone()
    };
    let findings = compare_semantic_node(&state, "button \"Save\"", &source, &candidate);
    let lines: Vec<&str> = findings.iter().map(|f| f.line.as_str()).collect();
    assert_eq!(
        lines,
        vec![
            "V1440 base button \"Save\" font-size 16px->18px +2px",
            "V1440 base button \"Save\" x 10->12.50 +2.50px",
            "V1440 base button \"Save\" color #000->#111",
        ]
    );
}

#[test]
fn a_matched_element_that_reads_differently_names_both_texts() {
    let state = state("base", NodeEvidence::default());
    let source = NodeEvidence {
        tag: "a".into(),
        role: "link".into(),
        text: "  Read   more ".into(),
        font_family: "\"Inter\", sans-serif".into(),
        ..NodeEvidence::default()
    };
    let candidate = NodeEvidence {
        text: "Continue".into(),
        role: "button".into(),
        font_family: "Roboto".into(),
        ..source.clone()
    };
    let findings = compare_semantic_node(&state, "link", &source, &candidate);
    let lines: Vec<&str> = findings.iter().map(|f| f.line.as_str()).collect();
    assert_eq!(
        lines,
        vec![
            "V1440 base link text \"Read more\"->\"Continue\"",
            "V1440 base link role link->button",
            "V1440 base link font-family Inter->Roboto",
        ]
    );
}

#[test]
fn a_small_move_of_a_matched_element_is_not_reported() {
    let state = state("base", NodeEvidence::default());
    let source = NodeEvidence { x: 1000, ..NodeEvidence::default() };
    let candidate = NodeEvidence { x: 1199, ..NodeEvidence::default() };
    assert!(compare_semantic_node(&state, "box", &source, &candidate).is_empty());
}

#[test]
fn pixel_deltas_are_signed_and_only_between_pixel_lengths() {
    assert_eq!(css_pixel_delta("16px", "13.3333px").as_deref(), Some("-2.67px"));
    assert_eq!(css_pixel_delta("12.5px", "14px").as_deref(), Some("+1.50px"));
    assert_eq!(css_pixel_delta("normal", "14px"), None);
    assert_eq!(css_pixel_delta("14px", "14px").as_deref(), Some("+0px"));
}

#[test]
fn a_font_stack_is_named_by_its_first_family() {
    assert_eq!(normalized_font_family("\"Segoe UI\", Arial, sans-serif"), "Segoe UI");
    assert_eq!(normalized_font_family("  Inter  "), "Inter");
    assert_eq!(normalized_font_family("system-ui"), "system-ui");
}

fn card(column: i64, row: i64, columns_gap: i64) -> Bounds {
    Bounds { x: 10000 + column * (20000 + columns_gap), y: 26000 + row * 12000, width: 20000, height: 10000 }
}

fn cards(columns: i64, columns_gap: i64) -> Vec<Bounds> {
    (0..4).map(|index| card(index % columns, index / columns, columns_gap)).collect()
}

fn layout_pairs(source: Vec<Bounds>, candidate: Vec<Bounds>) -> Vec<LayoutPair> {
    source
        .into_iter()
        .zip(candidate)
        .map(|(source, candidate)| LayoutPair {
            source,
            candidate,
            region: "main".into(),
            kind: "button".into(),
        })
        .collect()
}

#[test]
fn semantic_layout_reports_flow_instead_of_coordinate_noise_per_cohort() {
    let state = state("base", NodeEvidence::default());
    let pairs = layout_pairs(cards(2, 2000), cards(1, 2000));
    let findings = compare_layout_topology(&state, &pairs);
    assert_eq!(findings.len(), 1);
    assert_eq!(
        findings[0].line,
        "V1440 base main button layout flow 2 columns / 2 rows->1 columns / 4 rows"
    );
}

#[test]
fn a_wider_column_gap_is_reported_once_for_the_cohort() {
    let state = state("base", NodeEvidence::default());
    let pairs = layout_pairs(cards(2, 2000), cards(2, 3000));
    let findings = compare_layout_topology(&state, &pairs);
    assert_eq!(findings.len(), 1);
    assert_eq!(
        findings[0].line,
        "V1440 base main button layout column-gap 20px->30px +10px"
    );
}

#[test]
fn a_swapped_pair_changes_the_visual_order() {
    let state = state("base", NodeEvidence::default());
    let source = cards(2, 2000);
    let mut candidate = source.clone();
    candidate.swap(0, 1);
    let findings = compare_layout_topology(&state, &layout_pairs(source, candidate));
    assert_eq!(findings.len(), 1);
    assert_eq!(findings[0].property, "visual-order");
    assert_eq!(findings[0].target, "main button layout");
}

#[test]
fn a_scattered_cohort_or_one_too_small_is_not_compared() {
    let state = state("base", NodeEvidence::default());
    let scattered: Vec<Bounds> = (0..4)
        .map(|index| Bounds { x: index * 200000, y: index * 200000, width: 2000, height: 2000 })
        .collect();
    let moved: Vec<Bounds> = scattered.iter().map(|b| Bounds { x: b.x + 50000, ..*b }).collect();
    assert!(compare_layout_topology(&state, &layout_pairs(scattered, moved)).is_empty());
    let few = layout_pairs(cards(2, 2000)[..2].to_vec(), cards(1, 2000)[..2].to_vec());
    assert!(compare_layout_topology(&state, &few).is_empty());
}

#[test]
fn a_grid_has_rows_columns_and_a_median_gap() {
    let nodes: Vec<(usize, Bounds)> = cards(2, 2000).into_iter().enumerate().collect();
    let m = layout_metrics(&nodes);
    assert_eq!((m.rows, m.columns), (2, 2));
    assert_eq!(m.order, vec![0, 1, 2, 3]);
    assert_eq!(m.horizontal_gap, Some(2000));
    assert_eq!(m.vertical_gap, Some(2000));
    assert_eq!(m.overlaps, 0);
    assert!(!m.sparse);
}

/// Where each listed candidate sits relative to each listed source element,
/// measured the way the recording tool measures it: distance between centres
/// plus a quarter of the size difference, and shared words.
fn proximity(source: &State, candidate: &State) -> (Vec<Vec<usize>>, Vec<Vec<bool>>) {
    let px = |v: i64| v as f64 / 100.0;
    let score = |a: &NodeEvidence, b: &NodeEvidence| {
        let dx = (px(a.x) + px(a.width) / 2.0) - (px(b.x) + px(b.width) / 2.0);
        let dy = (px(a.y) + px(a.height) / 2.0) - (px(b.y) + px(b.height) / 2.0);
        let size = (px(a.width) - px(b.width)).abs() + (px(a.height) - px(b.height)).abs();
        dx.hypot(dy) + size * 0.25
    };
    let words = |t: &str| -> std::collections::BTreeSet<String> {
        t.split(|c: char| !c.is_alphanumeric())
            .filter(|w| !w.is_empty())
            .map(str::to_ascii_lowercase)
            .collect()
    };
    let similarity = |a: &str, b: &str| {
        let (a, b) = (words(a), words(b));
        if a.is_empty() || b.is_empty() {
            0.0
        } else {
            a.intersection(&b).count() as f64 / a.union(&b).count() as f64
        }
    };
    let sp = semantic_nodes(source);
    let cp = semantic_nodes(candidate);
    let mut order = Vec::new();
    let mut near = Vec::new();
    for &p in &sp {
        let expected = &source.nodes[p].1;
        let scores: Vec<f64> = cp.iter().map(|&q| score(expected, &candidate.nodes[q].1)).collect();
        let mut ranked: Vec<usize> = (0..cp.len()).collect();
        ranked.sort_by(|a, b| scores[*a].total_cmp(&scores[*b]));
        order.push(ranked);
        near.push(
            cp.iter()
                .enumerate()
                .map(|(e, &q)| {
                    scores[e] <= 64.0
                        && similarity(
                            &semantic_text(expected),
                            &semantic_text(&candidate.nodes[q].1),
                        ) >= 0.35
                })
                .collect(),
        );
    }
    (order, near)
}

fn compare_semantic(source: &State, candidate: &State) -> Vec<recreate::backtest::model::Finding> {
    let (order, near) = proximity(source, candidate);
    compare_semantic_state(source, candidate, &order, &near)
}

fn card_state(title_height: i64) -> State {
    let card = |key: &str, text: &str, y: i64, height: i64| {
        (
            key.to_string(),
            NodeEvidence {
                tag: "span".into(),
                parent: "card".into(),
                text: text.into(),
                visible: true,
                x: 0,
                y,
                width: 20000,
                height,
                ..NodeEvidence::default()
            },
        )
    };
    let mut nodes = vec![
        card("title", "Untitled notebook", 0, title_height),
        card("action", "Create", 3000, 2200),
    ];
    nodes.sort_by(|a, b| a.0.cmp(&b.0));
    State {
        viewport: Viewport { width: 1440, height: 900 },
        scenario: "base".into(),
        nodes,
        capture_complete: true,
        ..State::default()
    }
}

#[test]
fn text_painted_over_unrelated_text_is_reported() {
    let findings = compare_semantic(&card_state(2200), &card_state(4400));
    assert!(
        findings.iter().any(|finding| finding.property == "overlap"),
        "{:?}",
        findings.iter().map(|f| &f.line).collect::<Vec<_>>()
    );
}

fn enclosure_state(inner_parent: &str, inner_x: i64) -> State {
    let node = |parent: &str, text: &str, x: i64, width: i64| NodeEvidence {
        tag: "span".into(),
        parent: parent.into(),
        text: text.into(),
        visible: true,
        x,
        y: 0,
        width,
        height: 2400,
        ..NodeEvidence::default()
    };
    let mut state = card_state(2200);
    state.nodes = vec![
        ("inner".to_string(), node(inner_parent, "Related links panel", inner_x, 13520)),
        ("outer".to_string(), node("row", "Serializer options", 64800, 20000)),
    ];
    state
}

#[test]
fn total_enclosure_between_unrelated_branches_is_reported() {
    let findings = compare_semantic(&enclosure_state("row", 30000), &enclosure_state("row", 66480));
    assert!(
        findings.iter().any(|finding| finding.property == "overlap"),
        "total enclosure is the most severe overlap and must not be discarded: {:?}",
        findings.iter().map(|f| &f.line).collect::<Vec<_>>()
    );
}

#[test]
fn text_enclosed_by_its_own_ancestor_is_never_reported() {
    let findings = compare_semantic(&enclosure_state("outer", 30000), &enclosure_state("outer", 66480));
    assert!(
        !findings.iter().any(|finding| finding.property == "overlap"),
        "a child painted inside its own parent is not a collision: {:?}",
        findings.iter().map(|f| &f.line).collect::<Vec<_>>()
    );
}

fn semantic_layout_state(columns: i64) -> State {
    let mut nodes = vec![(
        "html>body>main".to_string(),
        NodeEvidence {
            tag: "main".into(),
            role: "main".into(),
            visible: true,
            width: 80000,
            height: 60000,
            ..NodeEvidence::default()
        },
    )];
    for index in 0..4 {
        let column = index % columns;
        let row = index / columns;
        nodes.push((
            format!("html>body>main>button:nth-of-type({})", index + 1),
            NodeEvidence {
                tag: "button".into(),
                parent: "html>body>main".into(),
                role: "button".into(),
                accessible_name: format!("Card {}", index + 1),
                visible: true,
                x: 10000 + column * 22000,
                y: 26000 + row * 12000,
                width: 20000,
                height: 10000,
                ..NodeEvidence::default()
            },
        ));
    }
    nodes.sort_by(|a, b| a.0.cmp(&b.0));
    State {
        viewport: Viewport { width: 1440, height: 900 },
        scenario: "base".into(),
        nodes,
        capture_complete: true,
        ..State::default()
    }
}

#[test]
fn semantic_layout_reports_flow_instead_of_coordinate_noise() {
    let source = semantic_layout_state(2);
    let candidate = semantic_layout_state(1);
    let findings = compare_semantic(&source, &candidate);
    assert_eq!(findings.len(), 1);
    assert_eq!(
        findings[0].line,
        "V1440 base main button layout flow 2 columns / 2 rows->1 columns / 4 rows"
    );
}

#[test]
fn an_element_only_one_side_has_is_missing_or_unexpected() {
    let mut source = card_state(2200);
    let mut candidate = card_state(2200);
    source.nodes.retain(|(key, _)| key != "action");
    candidate.nodes.retain(|(key, _)| key != "title");
    let findings = compare_semantic(&source, &candidate);
    let lines: Vec<&str> = findings.iter().map(|f| f.line.as_str()).collect();
    assert_eq!(
        lines,
        vec![
            "V1440 base application toolbar / text \"Untitled notebook\" missing",
            "V1440 base application toolbar / text \"Create\" unexpected",
        ]
    );
}

#[test]
fn a_collision_the_source_also_has_is_not_reported() {
    let state = card_state(4400);
    assert!(compare_text_collisions(&state, &state).is_empty());
    let found = compare_text_collisions(&card_state(2200), &card_state(4400));
    assert_eq!(found.len(), 1);
    assert_eq!(
        found[0].line,
        "V1440 base Create over Untitled notebook overlap clear->2800px²"
    );
}

/// Each source state compared by meaning with the candidate state of the
/// same width and scenario.
fn semantic_of(source: &Artifact, candidate: &Artifact) -> Vec<Vec<recreate::backtest::model::Finding>> {
    source
        .states
        .iter()
        .map(|expected| {
            match candidate
                .states
                .iter()
                .rev()
                .find(|s| s.viewport.width == expected.viewport.width && s.scenario == expected.scenario)
            {
                Some(actual) => compare_semantic(expected, actual),
                None => Vec::new(),
            }
        })
        .collect()
}

fn focused(source: &Artifact, candidate: &Artifact, elapsed_ms: u128, focus: &str) -> recreate::backtest::model::Report {
    artifacts_focused(
        source,
        candidate,
        elapsed_ms,
        focus,
        &unsigned(source),
        &unsigned(candidate),
        &semantic_of(source, candidate),
    )
}

#[test]
fn focused_comparison_filters_to_semantic_region() {
    let launcher = |color: &str| NodeEvidence {
        tag: "button".into(),
        role: "button".into(),
        accessible_name: "App launcher".into(),
        visible: true,
        width: 4000,
        height: 4000,
        color: color.into(),
        ..NodeEvidence::default()
    };
    let mut source_state = state("base", NodeEvidence::default());
    source_state.nodes = vec![("html>body>button:nth-of-type(1)".into(), launcher("#000000"))];
    let source = artifact(vec![source_state]);
    let mut candidate_state = state("base", NodeEvidence::default());
    candidate_state.nodes = vec![("html>body>button:nth-of-type(1)".into(), launcher("#ffffff"))];
    let candidate = artifact(vec![candidate_state]);
    let report = focused(&source, &candidate, 1, "toolbar");
    assert_eq!(report.status, Status::Fail);
    assert_eq!(report.scope.as_deref(), Some("toolbar"));
    assert_eq!(report.findings.len(), 1);
    assert!(report.findings[0].target.contains("App launcher"));
}

#[test]
fn focused_comparison_fails_closed_when_candidate_has_no_match() {
    let source = artifact(vec![state(
        "base",
        NodeEvidence {
            tag: "button".into(),
            role: "button".into(),
            accessible_name: "App launcher".into(),
            visible: true,
            width: 4000,
            height: 4000,
            ..NodeEvidence::default()
        },
    )]);
    let candidate = artifact(vec![state("base", NodeEvidence::default())]);
    let report = focused(&source, &candidate, 1, "App launcher");
    assert_eq!(report.status, Status::PreparationRequired);
    assert!(report.diagnostic.as_deref().is_some_and(|value| value.contains("0 candidate")));
    assert_eq!(
        report.diagnostic.as_deref(),
        Some("focus \"App launcher\" matched 1 source and 0 candidate elements")
    );
}

#[test]
fn an_empty_focus_narrows_nothing() {
    let source = artifact(vec![state("base", NodeEvidence { text: "a".into(), ..NodeEvidence::default() })]);
    let candidate = artifact(vec![state("base", NodeEvidence { text: "b".into(), ..NodeEvidence::default() })]);
    let narrowed = focused(&source, &candidate, 1, "   ");
    let full = compare(&source, &candidate, 1);
    assert_eq!(narrowed.scope, None);
    assert_eq!(narrowed.findings.len(), full.findings.len());
    assert_eq!(narrowed.status, full.status);
}

#[test]
fn a_focused_comparison_of_a_page_that_never_rendered_stays_inconclusive() {
    let source = artifact(vec![page_of(9)]);
    let candidate = artifact(vec![page_of(2656)]);
    let report = focused(&source, &candidate, 10, "item 1");
    assert_eq!(report.status, Status::Inconclusive);
    assert!(report.findings.is_empty());
    assert_eq!(report.scope.as_deref(), Some("item 1"));
}

#[test]
fn semantic_findings_are_taken_per_state_against_its_counterpart() {
    let source = vec![card_state(2000), page_of(3)];
    let mut shifted = card_state(2600);
    shifted.scenario = "base".into();
    let candidate = vec![shifted.clone()];
    let proximity: Vec<_> = source.iter().map(|s| proximity(s, &shifted)).collect();
    let per_state = semantic_per_state(&source, &candidate, &proximity);
    assert_eq!(per_state.len(), 2);
    let direct = compare_semantic(&source[0], &shifted);
    assert_eq!(per_state[0].len(), direct.len());
    let mut elsewhere = page_of(3);
    elsewhere.scenario = "hover:x".into();
    let none = semantic_per_state(&vec![elsewhere], &candidate, &vec![(Vec::new(), Vec::new())]);
    assert!(none[0].is_empty());
    let short = semantic_per_state(&vec![source[0].clone()], &candidate, &vec![(Vec::new(), Vec::new())]);
    assert!(semantic_nodes(&source[0]).is_empty() || short[0].is_empty());
}

#[test]
fn malformed_states_and_oversized_boxes_are_recognised() {
    let mut state = page_of(3);
    assert!(state.is_wf());
    assert!(boxes_fit(&state));
    state.nodes.swap(0, 1);
    assert!(!state.is_wf());
    let mut big = page_of(2);
    big.nodes[0].1.x = 0x1_0000_0000;
    assert!(!boxes_fit(&big));
    let artifact = artifact(vec![page_of(2)]);
    assert!(artifact.is_wf());
}

#[test]
fn a_missing_state_is_reported_under_a_key_of_its_own() {
    let node = NodeEvidence::default();
    let source = artifact(vec![state("base", node.clone()), state("click:menu", node.clone())]);
    let candidate = artifact(vec![state("base", node.clone())]);
    let report = compare(&source, &candidate, 1);
    assert_eq!(report.findings.len(), 1);
    assert_eq!(report.findings[0].key, "1440:state:scenario");
    assert_eq!(duplicate_keys(&report.findings), 0);
}

#[test]
fn two_missing_states_at_one_width_share_their_key() {
    let node = NodeEvidence::default();
    let source = artifact(vec![
        state("base", node.clone()),
        state("click:menu", node.clone()),
        state("click:search", node.clone()),
    ]);
    let candidate = artifact(vec![state("base", node)]);
    let report = compare(&source, &candidate, 1);
    assert_eq!(report.findings.len(), 2);
    assert_eq!(duplicate_keys(&report.findings), 1);
}
