use pmc::state::{MediaType, WatchEntry};

#[test]
fn a_new_record_has_a_fresh_id() {
    let a = WatchEntry::record("ep1".into(), MediaType::Show, 42, false);
    let b = WatchEntry::record("ep1".into(), MediaType::Show, 42, false);
    assert_eq!(a.id.chars().count(), 21);
    assert!(a.id.chars().all(|c| c == '_' || c == '-' || c.is_ascii_alphanumeric()));
    assert_ne!(a.id, b.id);
    assert_eq!(a.media_id, "ep1");
    assert_eq!(a.media_type, MediaType::Show);
    assert_eq!(a.progress, 42);
    assert!(!a.complete);
    assert!(a.watched_at.secs > 0);
}
