use playlist_sync::aggregate::CollectionOutcome;
use playlist_sync::aggregate::aggregate_outcomes;
use playlist_sync::apply::plan_additions;
use playlist_sync::apply::plan_removals;
use playlist_sync::model::PlayableOccurrence;
use playlist_sync::model::TrackRef;
use playlist_sync::sync::plan_sync;

fn track(id: &str, added_at: Option<i64>) -> PlayableOccurrence {
    PlayableOccurrence {
        added_at,
        contributor: None,
        is_local_only: false,
        track_ref: Some(TrackRef { stable_id: id.to_string() }),
    }
}

#[test]
fn aggregation_flattens_in_collection_order_and_counts_failures() {
    let outcomes = vec![
        CollectionOutcome::Collected(vec![track("a", Some(1)), track("b", Some(2))]),
        CollectionOutcome::ReadFailed,
        CollectionOutcome::Collected(vec![track("c", Some(3))]),
        CollectionOutcome::ReadFailed,
    ];
    let (merged, failed) = aggregate_outcomes(outcomes);
    let ids: Vec<String> = merged
        .iter()
        .map(|o| o.track_ref.as_ref().unwrap().stable_id.clone())
        .collect();
    assert_eq!(ids, vec!["a", "b", "c"]);
    assert_eq!(failed, 2);
}

#[test]
fn aggregation_of_nothing_is_empty() {
    let (merged, failed) = aggregate_outcomes(Vec::new());
    assert!(merged.is_empty());
    assert_eq!(failed, 0);
}

#[test]
fn empty_batches_plan_zero_remote_calls() {
    let none: Vec<PlayableOccurrence> = Vec::new();
    assert!(plan_additions("target", &none, 100).is_empty());
    assert!(plan_removals("target", &none, 100).is_empty());
}

#[test]
fn long_batches_are_chunked_to_the_remote_cap() {
    let items = vec![
        track("k1", Some(5)),
        track("k2", Some(4)),
        track("k3", Some(3)),
        track("k4", Some(2)),
        track("k5", Some(1)),
    ];
    let batches = plan_additions("target", &items, 2);
    assert_eq!(batches.len(), 3);
    assert_eq!(batches[0].keys, vec!["k1".to_string(), "k2".to_string()]);
    assert_eq!(batches[1].keys, vec!["k3".to_string(), "k4".to_string()]);
    assert_eq!(batches[2].keys, vec!["k5".to_string()]);
    for b in &batches {
        assert_eq!(b.collection_id, "target");
        assert!(!b.keys.is_empty() && b.keys.len() <= 2);
    }
}

#[test]
fn an_exact_multiple_fills_every_batch() {
    let items = vec![track("k1", Some(2)), track("k2", Some(1))];
    let batches = plan_removals("target", &items, 2);
    assert_eq!(batches.len(), 1);
    assert_eq!(batches[0].keys.len(), 2);
}

#[test]
fn a_full_run_plans_the_expected_mutations() {
    // desired, after canonicalization: [a@3, b@2, c@1]; current target: [b, d]
    let aggregated = vec![
        track("c", Some(1)),
        track("a", Some(3)),
        track("b", Some(2)),
        track("a", Some(1)),
    ];
    let current = vec![track("b", Some(2)), track("d", Some(9))];
    let plan = plan_sync("recent", aggregated, current, 3, 100, 1);

    assert_eq!(plan.report.tracks_aggregated, 4);
    assert_eq!(plan.report.unique_tracks, 3);
    assert_eq!(plan.report.tracks_to_add, 2);
    assert_eq!(plan.report.tracks_to_remove, 1);
    assert_eq!(plan.report.collections_failed, 1);
    assert_eq!(plan.report.batches_failed, 0);

    assert_eq!(plan.addition_batches.len(), 1);
    assert_eq!(
        plan.addition_batches[0].keys,
        vec!["a".to_string(), "c".to_string()]
    );
    assert_eq!(plan.removal_batches.len(), 1);
    assert_eq!(plan.removal_batches[0].keys, vec!["d".to_string()]);
    assert_eq!(plan.addition_batches[0].collection_id, "recent");
}

#[test]
fn a_synced_target_plans_nothing() {
    let aggregated = vec![track("a", Some(3)), track("b", Some(2))];
    let current = vec![track("a", Some(3)), track("b", Some(2))];
    let plan = plan_sync("recent", aggregated, current, 10, 100, 0);
    assert!(plan.addition_batches.is_empty());
    assert!(plan.removal_batches.is_empty());
    assert_eq!(plan.report.tracks_to_add, 0);
    assert_eq!(plan.report.tracks_to_remove, 0);
    assert_eq!(plan.report.unique_tracks, 2);
}

#[test]
fn the_bound_caps_what_a_run_keeps() {
    let aggregated = vec![track("a", Some(3)), track("b", Some(2)), track("c", Some(1))];
    let current: Vec<PlayableOccurrence> = Vec::new();
    let plan = plan_sync("recent", aggregated, current, 2, 1, 0);
    assert_eq!(plan.report.unique_tracks, 2);
    // the two most recent tracks arrive, one per batch at cap 1
    assert_eq!(plan.addition_batches.len(), 2);
    assert_eq!(plan.addition_batches[0].keys, vec!["a".to_string()]);
    assert_eq!(plan.addition_batches[1].keys, vec!["b".to_string()]);
}
