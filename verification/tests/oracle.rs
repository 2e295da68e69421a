use recreate::oracle::benchmark::percentile;
use recreate::oracle::discovery::{keyboard, Control};
use recreate::oracle::graph::{
    action_kind, actions, append_isolated, next_state, own_scenario, prepare, route, uncovered, Next,
    Route, MAX_STATES,
};
use recreate::oracle::holdout::rewrite_network;
use recreate::oracle::model::{ObligationStatus, Step};
use recreate::oracle::network::replay_header;
use recreate::oracle::qualification::{verdict, Counts, MutantOutcome, Verdict};
use recreate::oracle::scenario::{responsive, WidthsError};

fn resize(step: &Step) -> Option<(Vec<u32>, u32)> {
    match step {
        Step::ResizePath { widths, height } => Some((widths.clone(), *height)),
        _ => None,
    }
}

#[test]
fn paths_cover_both_directions() {
    let scenarios = responsive(&vec![768, 320, 768], 800).unwrap();
    assert_eq!(scenarios.len(), 3);
    assert_eq!(scenarios[0].steps.len(), 1);
    assert_eq!(resize(&scenarios[0].steps[0]), Some((vec![320, 768], 800)));
}

#[test]
fn responsive_paths_descend_and_then_settle() {
    let scenarios = responsive(&vec![768, 320, 1440], 900).unwrap();
    assert_eq!(scenarios[1].id, "responsive-descending");
    assert_eq!(
        resize(&scenarios[1].steps[0]),
        Some((vec![1440, 768, 320], 900))
    );
    assert_eq!(scenarios[2].id, "async-settled");
    assert!(matches!(
        scenarios[2].steps[0],
        Step::AdvanceTime {
            milliseconds: 100_000
        }
    ));
    assert!(matches!(responsive(&Vec::new(), 900), Err(WidthsError::Empty)));
    assert!(matches!(
        responsive(&vec![320, 0], 900),
        Err(WidthsError::OutOfRange)
    ));
    assert!(matches!(
        responsive(&vec![16385], 900),
        Err(WidthsError::OutOfRange)
    ));
}

#[test]
fn percentile_is_bounded() {
    assert_eq!(percentile(&vec![1, 2, 3, 4], 50), 2);
    assert_eq!(percentile(&vec![1, 2, 3, 4], 99), 4);
}

#[test]
fn stable_actions_are_isolated_by_reset() {
    let mut steps = Vec::new();
    append_isolated(&mut steps, &Vec::new(), Step::Activate { anchor: "a".into() });
    append_isolated(&mut steps, &Vec::new(), Step::Activate { anchor: "b".into() });
    assert!(matches!(steps[0], Step::Reset));
    assert!(matches!(steps[2], Step::Reset));
}

#[test]
fn a_replayed_prefix_prepares_activations_and_hovers() {
    let prefix = vec![
        Step::Activate { anchor: "a".into() },
        Step::Hover { anchor: "b".into() },
        Step::Key { key: "Tab".into() },
    ];
    let scenario = own_scenario(7, &prefix, Step::Activate { anchor: "c".into() });
    assert_eq!(scenario.id, "edge-7");
    assert_eq!(scenario.steps.len(), 5);
    assert!(matches!(scenario.steps[0], Step::Reset));
    assert!(matches!(&scenario.steps[1], Step::PrepareActivate { anchor } if anchor == "a"));
    assert!(matches!(&scenario.steps[2], Step::PrepareHover { anchor } if anchor == "b"));
    assert!(matches!(&scenario.steps[3], Step::Key { key } if key == "Tab"));
    assert!(matches!(&scenario.steps[4], Step::Activate { anchor } if anchor == "c"));
    assert!(matches!(
        prepare(&Step::PrepareHover { anchor: "x".into() }),
        Step::PrepareHover { .. }
    ));
    assert_eq!(action_kind(&Step::Key { key: "Tab".into() }), "trusted-key");
    assert_eq!(action_kind(&Step::Reset), "browser-action");
}

#[test]
fn edges_are_routed_and_new_states_are_explored_within_budget() {
    let control = Control { anchor: "menu".into() };
    let both = actions(&control);
    assert!(matches!(&both[0], Step::Hover { anchor } if anchor == "menu"));
    assert_eq!(route(&both[0], "d1", "d0"), Route::Hover);
    assert_eq!(route(&both[1], "d0", "d0"), Route::Stable);
    assert_eq!(route(&both[1], "d1", "d0"), Route::Own);
    let seen = vec!["d0".to_string(), "d1".to_string()];
    assert_eq!(next_state(&"d1".to_string(), &"d0".to_string(), &seen), Next::Known);
    assert_eq!(next_state(&"d2".to_string(), &"d0".to_string(), &seen), Next::Explore);
    let full: Vec<String> = (0..MAX_STATES).map(|i| format!("s{i}")).collect();
    assert_eq!(
        next_state(&"new".to_string(), &"s0".to_string(), &full),
        Next::StateBudget
    );
    let gap = uncovered("state-budget", "d9");
    assert_eq!(gap.id, "state-budget:d9");
    assert_eq!(gap.status, ObligationStatus::Uncovered);
}

#[test]
fn keyboard_navigation_tabs_through_every_control() {
    assert!(keyboard(&Vec::new()).is_none());
    let controls = vec![
        Control { anchor: "a".into() },
        Control { anchor: "b".into() },
    ];
    let scenario = keyboard(&controls).unwrap();
    assert_eq!(scenario.id, "keyboard-navigation");
    assert_eq!(scenario.steps.len(), 3);
    assert!(matches!(scenario.steps[0], Step::Reset));
    assert!(matches!(&scenario.steps[2], Step::Key { key } if key == "Tab"));
}

#[test]
fn decoded_fixture_bodies_drop_transport_headers() {
    assert!(!replay_header("Content-Encoding"));
    assert!(!replay_header("content-length"));
    assert!(replay_header("content-type"));
}

#[test]
fn fixture_pages_fetch_from_the_local_endpoints() {
    let html = "<script>fetch(\"http://x/\"); let a = 'data:application/json,%7B%22ok%22%3Atrue%7D';</script>";
    assert_eq!(
        rewrite_network(html, ("http://ok", "http://fail")),
        "<script type=\"module\">await fetch(\"http://x/\"); let a = 'http://ok';</script>"
    );
    assert_eq!(
        rewrite_network(
            "data:application/json,%7B%22ok%22%3Afalse%7D",
            ("a", "b")
        ),
        "b"
    );
}

#[test]
fn qualification_counts_every_mutant_and_gates_on_localization() {
    let mut counts = Counts::new();
    counts.record(
        &MutantOutcome::Rejected {
            first_domain: Some("layout".into()),
        },
        "layout",
        true,
    );
    counts.record(&MutantOutcome::Unrecordable, "style", false);
    counts.record(&MutantOutcome::Certified, "text", false);
    assert_eq!((counts.killed, counts.localized, counts.hidden_killed, counts.seen), (2, 1, 1, 3));
    assert_eq!(verdict(true, true, &counts, 3, 100, 100), Verdict::MutantSurvived);
    assert_eq!(verdict(false, true, &counts, 3, 100, 100), Verdict::SourceSelfFailed);
    let mut all = Counts::new();
    all.record(
        &MutantOutcome::Rejected {
            first_domain: Some("layout".into()),
        },
        "layout",
        false,
    );
    assert_eq!(verdict(true, true, &all, 1, 2000, 2500), Verdict::Qualified);
    assert_eq!(verdict(true, true, &all, 1, 2001, 2500), Verdict::SlowP95);
    assert_eq!(
        recreate::oracle::qualification::percentile(&vec![10, 20, 30, 40], 50),
        30
    );
}

#[test]
fn qualification_tallies_rejections_by_domain_and_hidden_mutants() {
    let mut counts = Counts::new();
    let rejected = |domain: &str| MutantOutcome::Rejected { first_domain: Some(domain.into()) };
    counts.record(&rejected("style"), "style", true);
    counts.record(&rejected("geometry"), "style", false);
    counts.record(&MutantOutcome::Unrecordable, "motion", true);
    counts.record(&rejected("geometry"), "geometry", false);
    counts.record(&MutantOutcome::Certified, "async", true);
    assert_eq!(counts.hidden_total, 3);
    assert_eq!(counts.hidden_killed, 2);
    assert_eq!(
        counts.kills_by_domain(),
        vec![("geometry".to_string(), 1), ("style".to_string(), 2)]
    );
}

#[test]
fn exploration_stops_at_the_edge_budget() {
    assert!(recreate::oracle::graph::edge_budget(255, "s0").is_none());
    let stop = recreate::oracle::graph::edge_budget(256, "s0").unwrap();
    assert_eq!(stop.id, "edge-budget:s0");
    assert!(matches!(stop.status, ObligationStatus::Uncovered));
}
