use playlist_sync::diff::diff;
use playlist_sync::model::PlayableOccurrence;
use playlist_sync::model::TrackRef;

fn track(id: &str, added_at: Option<i64>) -> PlayableOccurrence {
    PlayableOccurrence {
        added_at,
        contributor: None,
        is_local_only: false,
        track_ref: Some(TrackRef { stable_id: id.to_string() }),
    }
}

fn local_item() -> PlayableOccurrence {
    PlayableOccurrence {
        added_at: Some(1),
        contributor: None,
        is_local_only: true,
        track_ref: None,
    }
}

fn ids(out: &[PlayableOccurrence]) -> Vec<String> {
    out.iter()
        .map(|o| o.track_ref.as_ref().unwrap().stable_id.clone())
        .collect()
}

#[test]
fn diff_of_a_state_with_itself_is_empty() {
    let desired = vec![track("a", Some(3)), track("b", Some(2)), track("c", Some(1))];
    let current = vec![track("a", Some(3)), track("b", Some(2)), track("c", Some(1))];
    let (to_add, to_remove) = diff(desired, current);
    assert!(to_add.is_empty());
    assert!(to_remove.is_empty());
}

#[test]
fn diff_partitions_toward_the_desired_key_set() {
    // desired = tracks [a@3, b@2, c@1]; current target = [b, d]
    let desired = vec![track("a", Some(3)), track("b", Some(2)), track("c", Some(1))];
    let current = vec![track("b", Some(2)), track("d", Some(9))];
    let (to_add, to_remove) = diff(desired, current);
    assert_eq!(ids(&to_add), vec!["a", "c"]);
    assert_eq!(ids(&to_remove), vec!["d"]);

    // applying the plan: current keys + added keys - removed keys == desired keys
    let mut after: Vec<String> = vec!["b".to_string(), "d".to_string()];
    after.extend(ids(&to_add));
    after.retain(|k| !ids(&to_remove).contains(k));
    after.sort();
    assert_eq!(after, vec!["a".to_string(), "b".to_string(), "c".to_string()]);
}

#[test]
fn to_add_preserves_desired_order() {
    let desired = vec![
        track("e", Some(5)),
        track("a", Some(4)),
        track("c", Some(3)),
        track("b", Some(2)),
    ];
    let current = vec![track("a", Some(4))];
    let (to_add, _) = diff(desired, current);
    assert_eq!(ids(&to_add), vec!["e", "c", "b"]);
}

#[test]
fn already_placed_tracks_are_left_untouched() {
    let desired = vec![track("a", Some(2)), track("b", Some(1))];
    let current = vec![track("b", Some(1)), track("c", Some(7))];
    let (to_add, to_remove) = diff(desired, current);
    assert_eq!(ids(&to_add), vec!["a"]);
    assert_eq!(ids(&to_remove), vec!["c"]);
}

#[test]
fn identity_less_occurrences_reach_neither_output() {
    let desired = vec![local_item(), track("a", Some(2))];
    let current = vec![local_item(), track("b", Some(1))];
    let (to_add, to_remove) = diff(desired, current);
    assert!(to_add.iter().all(|o| o.track_ref.is_some()));
    assert!(to_remove.iter().all(|o| o.track_ref.is_some()));
    assert_eq!(ids(&to_add), vec!["a"]);
    assert_eq!(ids(&to_remove), vec!["b"]);
}

#[test]
fn empty_sides_diff_cleanly() {
    let (to_add, to_remove) = diff(Vec::new(), vec![track("a", Some(1))]);
    assert!(to_add.is_empty());
    assert_eq!(ids(&to_remove), vec!["a"]);

    let (to_add, to_remove) = diff(vec![track("a", Some(1))], Vec::new());
    assert_eq!(ids(&to_add), vec!["a"]);
    assert!(to_remove.is_empty());
}
