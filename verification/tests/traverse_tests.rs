use playlist_sync::traverse::Cursor;
use playlist_sync::traverse::CursorParseError;
use playlist_sync::traverse::MediaPayload;
use playlist_sync::traverse::Page;
use playlist_sync::traverse::RawItem;
use playlist_sync::traverse::ingest_page;
use playlist_sync::traverse::map_raw_item;
use playlist_sync::traverse::parse_cursor;
use playlist_sync::model::TrackRef;

fn raw_track(id: &str, added_at: i64) -> RawItem {
    RawItem {
        added_at: Some(added_at),
        contributor: None,
        is_local: false,
        payload: Some(MediaPayload::CatalogTrack(TrackRef { stable_id: id.to_string() })),
    }
}

fn href(collection: &str, offset: u32, limit: u32) -> Vec<u8> {
    format!(
        "https://api.example.com/v1/playlists/{}/tracks?offset={}&limit={}",
        collection, offset, limit
    )
    .into_bytes()
}

#[test]
fn parse_cursor_reads_all_three_fields() {
    let c: Cursor = parse_cursor(&href("abc123XYZ", 40, 20)).unwrap();
    assert_eq!(c.collection_id, b"abc123XYZ".to_vec());
    assert_eq!(c.offset, 40);
    assert_eq!(c.limit, 20);
}

#[test]
fn parse_cursor_without_collection_marker_fails() {
    let bad = b"https://api.example.com/v1/albums/abc?offset=1&limit=2".to_vec();
    assert_eq!(parse_cursor(&bad), Err(CursorParseError::MissingCollectionId));
}

#[test]
fn parse_cursor_with_empty_collection_id_fails() {
    let bad = b"https://api.example.com/v1/playlists/?offset=1&limit=2".to_vec();
    assert_eq!(parse_cursor(&bad), Err(CursorParseError::MissingCollectionId));
}

#[test]
fn parse_cursor_without_offset_fails() {
    let bad = b"https://api.example.com/v1/playlists/abc/tracks?limit=2".to_vec();
    assert_eq!(parse_cursor(&bad), Err(CursorParseError::InvalidOffset));
}

#[test]
fn parse_cursor_with_oversized_offset_fails() {
    let bad = b"https://x/playlists/abc?offset=4294967296&limit=2".to_vec();
    assert_eq!(parse_cursor(&bad), Err(CursorParseError::InvalidOffset));
    // the largest 32-bit value itself is still accepted
    let edge = b"https://x/playlists/abc?offset=4294967295&limit=2".to_vec();
    assert_eq!(parse_cursor(&edge).unwrap().offset, u32::MAX);
}

#[test]
fn parse_cursor_without_limit_fails() {
    let bad = b"https://x/playlists/abc?offset=1&limit=".to_vec();
    assert_eq!(parse_cursor(&bad), Err(CursorParseError::InvalidLimit));
}

#[test]
fn map_raw_item_keeps_track_payloads_only() {
    let o = map_raw_item(raw_track("t1", 5));
    assert_eq!(o.track_ref.unwrap().stable_id, "t1");
    assert_eq!(o.added_at, Some(5));

    let episode = RawItem {
        added_at: Some(9),
        contributor: Some("someone".to_string()),
        is_local: false,
        payload: Some(MediaPayload::NonTrackMedia),
    };
    let o = map_raw_item(episode);
    assert!(o.track_ref.is_none());
    assert_eq!(o.contributor.as_deref(), Some("someone"));

    let unresolved = RawItem {
        added_at: None,
        contributor: None,
        is_local: true,
        payload: None,
    };
    let o = map_raw_item(unresolved);
    assert!(o.track_ref.is_none());
    assert!(o.is_local_only);
}

#[test]
fn traversal_exhausts_a_three_page_chain() {
    // pages of sizes 2, 2, 1 linked by cursors
    let page1 = Page {
        items: vec![raw_track("t1", 10), raw_track("t2", 9)],
        next: Some(href("col", 2, 2)),
    };
    let page2 = Page {
        items: vec![raw_track("t3", 8), raw_track("t4", 7)],
        next: Some(href("col", 4, 2)),
    };
    let page3 = Page { items: vec![raw_track("t5", 6)], next: None };

    let mut acc = Vec::new();

    let cursor = ingest_page(&mut acc, page1).unwrap().unwrap();
    assert_eq!(cursor.collection_id, b"col".to_vec());
    assert_eq!(cursor.offset, 2);
    assert_eq!(cursor.limit, 2);

    let cursor = ingest_page(&mut acc, page2).unwrap().unwrap();
    assert_eq!(cursor.offset, 4);

    let end = ingest_page(&mut acc, page3).unwrap();
    assert!(end.is_none());

    // exactly 5 occurrences, in page order then item order
    let ids: Vec<String> = acc
        .iter()
        .map(|o| o.track_ref.as_ref().unwrap().stable_id.clone())
        .collect();
    assert_eq!(ids, vec!["t1", "t2", "t3", "t4", "t5"]);
}

#[test]
fn a_bad_cursor_aborts_that_traversal() {
    let page = Page {
        items: vec![raw_track("t1", 10)],
        next: Some(b"https://x/playlists/abc?limit=2".to_vec()),
    };
    let mut acc = Vec::new();
    let r = ingest_page(&mut acc, page);
    assert_eq!(r, Err(CursorParseError::InvalidOffset));
    // the page's own items were still collected before the cursor was read
    assert_eq!(acc.len(), 1);
}
