use cocoball::aggregate::aggregate;
use cocoball::data::{AggregationError, BenchSample, Commit};

fn commit(
    sha1: &str,
    title: &str,
    time: i64,
    benches: Vec<(&str, &str, f64, Option<f64>)>,
) -> Commit {
    Commit {
        sha1: sha1.to_string(),
        title: title.to_string(),
        author: "A. Author".to_string(),
        time,
        url: None,
        benches: benches
            .into_iter()
            .map(|(name, unit, mean, sd)| {
                (
                    name.to_string(),
                    BenchSample {
                        unit: unit.to_string(),
                        mean: mean.to_bits(),
                        sd: sd.map(f64::to_bits),
                    },
                )
            })
            .collect(),
    }
}

#[test]
fn empty_input_gives_empty_render_data() {
    let rd = aggregate(Vec::new()).unwrap();
    assert!(rd.benches.is_empty());
    assert!(rd.xlabels.is_empty());
}

#[test]
fn sample_scenario_two_commits() {
    let a = commit("aaaaaa1", "A", 20210101, vec![("build_ms", "ms", 100.0, None)]);
    let b = commit(
        "bbbbbb2",
        "B",
        20210102,
        vec![("build_ms", "ms", 120.0, None), ("test_ms", "ms", 50.0, None)],
    );
    let rd = aggregate(vec![a, b]).unwrap();
    assert_eq!(rd.xlabels, vec!["A (aaaaaa)".to_string(), "B (bbbbbb)".to_string()]);
    assert_eq!(rd.benches.len(), 2);
    assert_eq!(rd.benches[0].name, "build_ms");
    assert_eq!(
        rd.benches[0].means,
        vec![Some(100.0f64.to_bits()), Some(120.0f64.to_bits())]
    );
    assert_eq!(rd.benches[1].name, "test_ms");
    assert_eq!(rd.benches[1].means, vec![None, Some(50.0f64.to_bits())]);
    assert_eq!(rd.benches[1].sds, vec![None, None]);
}

#[test]
fn unit_conflict_fails_with_both_units() {
    let a = commit("aaaaaa1", "A", 1, vec![("x", "ms", 1.0, None)]);
    let b = commit("bbbbbb2", "B", 2, vec![("x", "s", 2.0, None)]);
    let err = aggregate(vec![a, b]).unwrap_err();
    match err {
        AggregationError::UnitConflict { name, unit_a, unit_b } => {
            assert_eq!(name, "x");
            assert_eq!(unit_a, "ms");
            assert_eq!(unit_b, "s");
        }
        other => panic!("expected a unit conflict, got {:?}", other),
    }
}

#[test]
fn unit_conflict_first_seen_unit_comes_first() {
    // The conflicting pair arrives in reverse input order; the unit
    // fixed by the chronologically first commit must still be unit_a.
    let a = commit("aaaaaa1", "A", 10, vec![("x", "ms", 1.0, None)]);
    let b = commit("bbbbbb2", "B", 20, vec![("x", "s", 2.0, None)]);
    let err = aggregate(vec![b, a]).unwrap_err();
    match err {
        AggregationError::UnitConflict { name, unit_a, unit_b } => {
            assert_eq!(name, "x");
            assert_eq!(unit_a, "ms");
            assert_eq!(unit_b, "s");
        }
        other => panic!("expected a unit conflict, got {:?}", other),
    }
}

#[test]
fn ordering_same_labels_for_every_permutation() {
    let c1 = commit("aaaaaa1", "first", 100, vec![("b", "ms", 1.0, None)]);
    let c2 = commit("bbbbbb2", "second", 200, vec![("b", "ms", 2.0, None)]);
    let c3 = commit("cccccc3", "third", 300, vec![("b", "ms", 3.0, None)]);
    let expected = vec![
        "first (aaaaaa)".to_string(),
        "second (bbbbbb)".to_string(),
        "third (cccccc)".to_string(),
    ];
    let perms: Vec<Vec<Commit>> = vec![
        vec![c1.clone(), c2.clone(), c3.clone()],
        vec![c1.clone(), c3.clone(), c2.clone()],
        vec![c2.clone(), c1.clone(), c3.clone()],
        vec![c2.clone(), c3.clone(), c1.clone()],
        vec![c3.clone(), c1.clone(), c2.clone()],
        vec![c3.clone(), c2.clone(), c1.clone()],
    ];
    for p in perms {
        let rd = aggregate(p).unwrap();
        assert_eq!(rd.xlabels, expected);
        assert_eq!(rd.benches[0].means[0], Some(1.0f64.to_bits()));
        assert_eq!(rd.benches[0].means[2], Some(3.0f64.to_bits()));
    }
}

#[test]
fn determinism_shuffled_input_gives_identical_output() {
    let c1 = commit("aaaaaa1", "one", 5, vec![("p", "ms", 1.5, Some(0.1))]);
    let c2 = commit("bbbbbb2", "two", 3, vec![("q", "kb", 7.0, None)]);
    let c3 = commit(
        "cccccc3",
        "three",
        9,
        vec![("p", "ms", 2.5, None), ("q", "kb", 8.0, Some(0.2))],
    );
    let rd_a = aggregate(vec![c1.clone(), c2.clone(), c3.clone()]).unwrap();
    let rd_b = aggregate(vec![c3, c1, c2]).unwrap();
    assert_eq!(rd_a, rd_b);
}

#[test]
fn rectangular_every_series_spans_every_commit() {
    let a = commit("aaaaaa1", "A", 1, vec![("x", "ms", 1.0, None)]);
    let b = commit("bbbbbb2", "B", 2, vec![("y", "s", 2.0, None)]);
    let c = commit("cccccc3", "C", 3, vec![]);
    let rd = aggregate(vec![a, b, c]).unwrap();
    assert_eq!(rd.xlabels.len(), 3);
    for bench in &rd.benches {
        assert_eq!(bench.means.len(), rd.xlabels.len());
        assert_eq!(bench.sds.len(), rd.xlabels.len());
    }
}

#[test]
fn missing_bench_and_missing_sd_are_holes() {
    let a = commit("aaaaaa1", "A", 1, vec![("x", "ms", 4.0, Some(0.5))]);
    let b = commit("bbbbbb2", "B", 2, vec![]);
    let rd = aggregate(vec![a, b]).unwrap();
    assert_eq!(rd.benches.len(), 1);
    assert_eq!(rd.benches[0].means, vec![Some(4.0f64.to_bits()), None]);
    assert_eq!(rd.benches[0].sds, vec![Some(0.5f64.to_bits()), None]);
}

#[test]
fn short_sha_is_a_malformed_record() {
    let a = commit("abc", "tiny sha", 1, vec![("x", "ms", 1.0, None)]);
    let err = aggregate(vec![a]).unwrap_err();
    match err {
        AggregationError::MalformedRecord { reason } => {
            assert_eq!(reason, "commit sha1 has fewer than 6 characters");
        }
        other => panic!("expected a malformed record, got {:?}", other),
    }
}

#[test]
fn short_sha_fails_even_with_valid_neighbours() {
    let a = commit("aaaaaa1", "ok", 1, vec![("x", "ms", 1.0, None)]);
    let b = commit("bb", "bad", 2, vec![]);
    assert!(matches!(
        aggregate(vec![a, b]),
        Err(AggregationError::MalformedRecord { .. })
    ));
}

#[test]
fn label_is_title_and_first_six_sha_characters() {
    let a = commit("0123456789", "Add feature", 1, vec![]);
    let rd = aggregate(vec![a]).unwrap();
    assert_eq!(rd.xlabels, vec!["Add feature (012345)".to_string()]);
}

#[test]
fn exactly_six_sha_characters_is_accepted() {
    let a = commit("012345", "edge", 1, vec![]);
    let rd = aggregate(vec![a]).unwrap();
    assert_eq!(rd.xlabels, vec!["edge (012345)".to_string()]);
}

#[test]
fn benches_appear_in_first_seen_chronological_order() {
    let a = commit("aaaaaa1", "A", 2, vec![("later", "ms", 1.0, None)]);
    let b = commit("bbbbbb2", "B", 1, vec![("earlier", "ms", 2.0, None)]);
    let rd = aggregate(vec![a, b]).unwrap();
    assert_eq!(rd.benches[0].name, "earlier");
    assert_eq!(rd.benches[1].name, "later");
}

#[test]
fn same_unit_twice_is_no_conflict() {
    let a = commit("aaaaaa1", "A", 1, vec![("x", "ms", 1.0, None)]);
    let b = commit("bbbbbb2", "B", 2, vec![("x", "ms", 2.0, None)]);
    let rd = aggregate(vec![a, b]).unwrap();
    assert_eq!(rd.benches.len(), 1);
    assert_eq!(rd.benches[0].unit, "ms");
}

#[test]
fn bench_new_starts_empty() {
    let b = cocoball::data::Bench::new("n".to_string(), "ms".to_string());
    assert_eq!(b.name, "n");
    assert_eq!(b.unit, "ms");
    assert!(b.means.is_empty());
    assert!(b.sds.is_empty());
}
