use pmc::clock::{read_rfc3339, Timestamp};
use pmc::db::{
    media_type_from_label, media_type_label, row_to_watch_entry, sqlite_url, watch_entry_from_row,
    WatchRow, WatchRowError,
};
use pmc::state::MediaType;

fn row(id: &str, media_type: &str, watched_at: &str) -> WatchRow {
    WatchRow {
        id: id.into(),
        media_id: format!("media-{}", id),
        media_type: media_type.into(),
        progress: 42,
        complete: false,
        watched_at: watched_at.into(),
    }
}

#[test]
fn media_type_labels_read_back() {
    for t in [MediaType::Movie, MediaType::Show] {
        assert_eq!(media_type_from_label(media_type_label(t)), Some(t));
    }
    assert_eq!(media_type_label(MediaType::Movie), "Movie");
    assert_eq!(media_type_label(MediaType::Show), "Show");
    assert_eq!(media_type_from_label("movie"), None);
}

#[test]
fn reads_rfc3339_instants() {
    assert_eq!(read_rfc3339("1996-12-19T16:39:57-08:00"), Some(Timestamp { secs: 851042397, nanos: 0 }));
    assert_eq!(
        read_rfc3339("2024-01-02T03:04:05.5+00:00"),
        Some(Timestamp { secs: 1704164645, nanos: 500_000_000 })
    );
    assert_eq!(read_rfc3339("yesterday"), None);
}

#[test]
fn rows_become_watch_entries() {
    let e = watch_entry_from_row(row("1", "Show", "2024-01-02T03:04:05+00:00")).unwrap();
    assert_eq!(e.id, "1");
    assert_eq!(e.media_id, "media-1");
    assert_eq!(e.media_type, MediaType::Show);
    assert_eq!(e.progress, 42);
    assert!(!e.complete);
    assert_eq!(e.watched_at, Timestamp { secs: 1704164645, nanos: 0 });
}

#[test]
fn row_errors_name_the_row() {
    match watch_entry_from_row(row("7", "Song", "bad")) {
        Err(WatchRowError::UnknownMediaType { media_type, id }) => {
            assert_eq!(media_type, "Song");
            assert_eq!(id, "7");
        }
        other => panic!("unexpected {:?}", other),
    }
    match watch_entry_from_row(row("8", "Movie", "bad")) {
        Err(WatchRowError::BadTimestamp { watched_at, id }) => {
            assert_eq!(watched_at, "bad");
            assert_eq!(id, "8");
        }
        other => panic!("unexpected {:?}", other),
    }
}

#[test]
fn the_first_bad_row_decides() {
    let ok = "2024-01-02T03:04:05+00:00";
    let rows = vec![row("1", "Movie", ok), row("2", "Show", "nope"), row("3", "Tape", ok)];
    match row_to_watch_entry(rows) {
        Err(WatchRowError::BadTimestamp { id, .. }) => assert_eq!(id, "2"),
        other => panic!("unexpected {:?}", other),
    }
    let rows = vec![row("1", "Movie", ok), row("2", "Show", ok)];
    let entries = row_to_watch_entry(rows).unwrap();
    assert_eq!(entries.len(), 2);
    assert_eq!(entries[1].media_type, MediaType::Show);
    assert!(row_to_watch_entry(vec![]).unwrap().is_empty());
}

#[test]
fn sqlite_urls() {
    assert_eq!(sqlite_url("./pmc.db"), "sqlite:./pmc.db");
    assert_eq!(sqlite_url("sqlite://data/pmc.db"), "sqlite:data/pmc.db");
    assert_eq!(sqlite_url("sqlite:/x"), "sqlite:sqlite:/x");
    assert_eq!(sqlite_url(""), "sqlite:");
}
