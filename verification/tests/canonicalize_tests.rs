use playlist_sync::canonical::canonicalize;
use playlist_sync::model::PlayableOccurrence;
use playlist_sync::model::TrackRef;

fn track(id: &str, added_at: Option<i64>) -> PlayableOccurrence {
    PlayableOccurrence {
        added_at,
        contributor: Some("listener".to_string()),
        is_local_only: false,
        track_ref: Some(TrackRef { stable_id: id.to_string() }),
    }
}

fn local_item(added_at: Option<i64>) -> PlayableOccurrence {
    PlayableOccurrence {
        added_at,
        contributor: None,
        is_local_only: true,
        track_ref: None,
    }
}

fn ids(out: &[PlayableOccurrence]) -> Vec<String> {
    out.iter()
        .map(|o| o.track_ref.as_ref().unwrap().stable_id.clone())
        .collect()
}

#[test]
fn dedup_keeps_no_equal_keys() {
    let occurrences = vec![
        track("a", Some(10)),
        track("b", Some(30)),
        track("a", Some(50)),
        track("b", Some(20)),
        track("a", Some(40)),
    ];
    let out = canonicalize(occurrences, 100);
    assert_eq!(out.len(), 2);
    for i in 0..out.len() {
        for j in (i + 1)..out.len() {
            assert_ne!(
                out[i].track_ref.as_ref().unwrap().stable_id,
                out[j].track_ref.as_ref().unwrap().stable_id
            );
        }
    }
}

#[test]
fn most_recent_appearance_wins() {
    let occurrences = vec![
        track("a", Some(10)),
        track("b", Some(30)),
        track("a", Some(50)),
    ];
    let out = canonicalize(occurrences, 100);
    assert_eq!(ids(&out), vec!["a".to_string(), "b".to_string()]);
    assert_eq!(out[0].added_at, Some(50));
}

#[test]
fn output_is_ordered_by_descending_recency() {
    let occurrences = vec![
        track("c", Some(1)),
        track("a", Some(9)),
        track("d", None),
        track("b", Some(5)),
    ];
    let out = canonicalize(occurrences, 100);
    assert_eq!(out.len(), 4);
    let stamped: Vec<i64> = out.iter().filter_map(|o| o.added_at).collect();
    for w in stamped.windows(2) {
        assert!(w[0] >= w[1]);
    }
    // the timestamp-less occurrence sorts after every timestamped one
    assert_eq!(out[3].added_at, None);
    assert_eq!(ids(&out), vec!["a", "b", "c", "d"]);
}

#[test]
fn truncation_is_min_of_bound_and_unique_count() {
    let occurrences = vec![
        track("a", Some(4)),
        track("b", Some(3)),
        track("c", Some(2)),
        track("a", Some(1)),
    ];
    // three distinct keys, bound below them
    let out = canonicalize(occurrences, 2);
    assert_eq!(out.len(), 2);
    assert_eq!(ids(&out), vec!["a", "b"]);

    // bound above the distinct-key count
    let occurrences = vec![track("a", Some(4)), track("b", Some(3)), track("a", Some(2))];
    let out = canonicalize(occurrences, 100);
    assert_eq!(out.len(), 2);
}

#[test]
fn identity_less_occurrences_never_appear() {
    let occurrences = vec![
        local_item(Some(99)),
        track("a", Some(4)),
        local_item(None),
        track("b", Some(3)),
    ];
    let out = canonicalize(occurrences, 100);
    assert_eq!(out.len(), 2);
    assert!(out.iter().all(|o| o.track_ref.is_some()));
    assert_eq!(ids(&out), vec!["a", "b"]);
}

#[test]
fn empty_input_yields_empty_canonical_set() {
    let out = canonicalize(Vec::new(), 100);
    assert!(out.is_empty());
    let out = canonicalize(vec![local_item(Some(1))], 100);
    assert!(out.is_empty());
}

#[test]
fn zero_bound_yields_empty_canonical_set() {
    let out = canonicalize(vec![track("a", Some(1))], 0);
    assert!(out.is_empty());
}

#[test]
fn timestamp_less_occurrences_compare_without_panicking() {
    let stamped = track("a", Some(5));
    let unstamped = track("b", None);
    assert!(stamped.at_least_as_recent(&unstamped));
    assert!(!unstamped.at_least_as_recent(&stamped));
    assert!(unstamped.at_least_as_recent(&track("c", None)));
}

#[test]
fn the_cut_keeps_the_most_recent_keys() {
    let occurrences = vec![
        track("old", Some(1)),
        track("new", Some(9)),
        track("mid", Some(5)),
    ];
    let out = canonicalize(occurrences, 2);
    assert_eq!(ids(&out), vec!["new", "mid"]);
}

#[test]
fn equal_timestamps_keep_both_tracks() {
    let occurrences = vec![track("a", Some(7)), track("b", Some(7))];
    let out = canonicalize(occurrences, 100);
    assert_eq!(out.len(), 2);
    assert_eq!(out[0].added_at, Some(7));
    assert_eq!(out[1].added_at, Some(7));
}
