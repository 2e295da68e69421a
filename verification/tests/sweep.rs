use recreate::backtest::model::{SweepNode, SweepProbe};
use recreate::backtest::sweep::{
    boundaries, diverging_targets, interval, probe_widths, refinable, source_at, Refiner,
    MAXIMUM_PROBES, MAXIMUM_REFINEMENTS, MAXIMUM_WIDTH, MINIMUM_WIDTH,
};

fn bands(values: &[&str]) -> Vec<String> {
    values.iter().map(|value| value.to_string()).collect()
}

fn probe(width: u32, x: i64) -> SweepProbe {
    SweepProbe {
        width,
        nodes: vec![(
            "mark".to_string(),
            SweepNode {
                visible: true,
                x: x * 100,
                y: 0,
                width: 20000,
                height: 2000,
                transform: "none".to_string(),
            },
        )],
    }
}

fn mark() -> String {
    "mark".to_string()
}

#[test]
fn probe_widths_come_from_the_pages_own_declared_boundaries() {
    let widths = probe_widths(
        &bands(&[
            "(min-width:450px)and(max-width:479px)",
            "(min-width:480px)and(max-width:499px)",
            "(min-width:600px)and(max-width:600px)",
            "(min-width:601px)and(max-width:661px)",
            "(min-width:662px)and(max-width:900px)",
        ]),
        1440,
    );
    for boundary in [450, 479, 480, 499, 600, 601, 661, 662, 900] {
        for width in [boundary - 1, boundary, boundary + 1] {
            assert!(widths.contains(&width), "missing probe {width}");
        }
    }
    assert!(widths.contains(&781));
    assert!(widths.contains(&1440));
    assert!(widths.len() <= MAXIMUM_PROBES);
    assert_eq!(widths, {
        let mut sorted = widths.clone();
        sorted.sort_unstable();
        sorted.dedup();
        sorted
    });
}

#[test]
fn a_page_without_width_conditional_css_is_never_swept() {
    assert!(probe_widths(&Vec::new(), 1440).is_empty());
    assert!(probe_widths(&bands(&["(min-width:37.5em)"]), 1440).is_empty());
}

#[test]
fn probe_widths_stay_inside_the_renderable_range_and_the_cap() {
    let many = (1..40)
        .map(|index| format!("(min-width:{}px)", index * 40))
        .collect::<Vec<_>>();
    let widths = probe_widths(&many, 1440);
    assert!(widths.len() <= MAXIMUM_PROBES);
    assert!(widths.contains(&1440));
    assert!(widths
        .iter()
        .all(|width| (MINIMUM_WIDTH..=MAXIMUM_WIDTH).contains(width)));
    assert_eq!(widths, probe_widths(&many, 1440));
}

#[test]
fn an_interval_is_the_contiguous_run_of_differing_widths() {
    let source = vec![
        probe(449, 24),
        probe(450, 24),
        probe(464, 24),
        probe(479, 24),
        probe(480, 24),
    ];
    let candidate = vec![
        probe(449, 24),
        probe(450, 159),
        probe(464, 159),
        probe(479, 159),
        probe(480, 24),
    ];
    assert_eq!(interval(&source, &candidate, &mark()), Some((450, 479)));
}

#[test]
fn a_one_pixel_band_reports_the_same_width_twice() {
    let source = vec![probe(599, 24), probe(600, 24), probe(601, 24)];
    let candidate = vec![probe(599, 24), probe(600, 48), probe(601, 24)];
    assert_eq!(interval(&source, &candidate, &mark()), Some((600, 600)));
}

#[test]
fn a_matching_page_yields_no_interval_and_no_refinement() {
    let source = vec![probe(599, 24), probe(600, 24), probe(601, 24)];
    assert_eq!(interval(&source, &source, &mark()), None);
    assert!(diverging_targets(&source, &source).is_empty());
    assert!(Refiner::plan(&source, &source).next_width().is_none());
}

#[test]
fn refinement_is_deterministic_on_a_false_true_false_predicate() {
    let source = (0..=10)
        .map(|index| probe(400 + index * 20, 24))
        .collect::<Vec<_>>();
    let diverges = |width: u32| (430..=530).contains(&width);
    let run = || {
        let mut candidate = source
            .iter()
            .map(|value| probe(value.width, if diverges(value.width) { 99 } else { 24 }))
            .collect::<Vec<_>>();
        let mut refiner = Refiner::plan(&source, &candidate);
        let mut visited = Vec::new();
        while let Some(width) = refiner.next_width() {
            let taken = probe(width, if diverges(width) { 99 } else { 24 });
            refiner.accept(&source, &taken);
            visited.push(width);
            candidate.push(taken);
            candidate.sort_by_key(|value| value.width);
        }
        (visited, interval(&source, &candidate, &mark()))
    };
    let first = run();
    assert_eq!(first, run());
    assert_eq!(first, run());
    assert_eq!(first.1, Some((430, 530)));
    assert!(first.0.len() <= MAXIMUM_REFINEMENTS);
}

#[test]
fn an_unprobed_width_is_only_claimed_where_the_source_is_constant() {
    let probes = vec![probe(400, 24), probe(500, 24), probe(600, 90)];
    assert!(source_at(&probes, 450, &mark()).is_some());
    assert!(source_at(&probes, 550, &mark()).is_none());
    assert!(!refinable(&probes, 500, 600, &mark()));
    assert!(refinable(&probes, 400, 500, &mark()));
}

#[test]
fn boundaries_are_the_pixel_integers_a_page_declares() {
    let found = boundaries(&bands(&[
        "(min-width:768px)",
        "(max-width:1023px) and (min-width:768px)",
        "(min-width:37.5em)",
    ]));
    assert_eq!(found, vec![768, 1023]);
}

#[test]
fn an_interval_found_is_a_run_that_reaches_the_lowest_differing_probe() {
    // A candidate that departs at two separate runs reports the lower one.
    let source = vec![probe(400, 24), probe(500, 24), probe(600, 24), probe(700, 24)];
    let candidate = vec![probe(400, 30), probe(500, 24), probe(600, 30), probe(700, 30)];
    assert_eq!(interval(&source, &candidate, &mark()), Some((400, 400)));
}
