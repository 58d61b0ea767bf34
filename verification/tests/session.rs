use pmc::clock::Timestamp;
use pmc::indexer::{build_show, FileEntry, Library, ShowDir};
use pmc::library::MediaLibrary;
use pmc::session::{Session, SessionAction, SessionEvent};
use pmc::state::MediaType;

fn file(path: &str) -> FileEntry {
    FileEntry { path: path.to_string(), created_at: Timestamp { secs: 0, nanos: 0 }, size: 1 }
}

fn sample() -> MediaLibrary {
    let dir = ShowDir {
        path: "tv/Show".into(),
        season_dirs: vec![],
        files: vec![file("tv/Show/S01E01.mkv"), file("tv/Show/S01E02.mkv")],
    };
    let show = build_show(&dir).unwrap();
    MediaLibrary::new("m".into(), "tv".into(), Library { movies: vec![], shows: vec![show] })
}

fn position(id: &str, past: bool) -> SessionEvent {
    SessionEvent::Position { media_id: id.to_string(), past_completion: past }
}

#[test]
fn completing_an_episode_advances_to_the_next() {
    let lib = sample();
    let flat = lib.library().shows[0].flatten_show();
    let mut s = Session::new(flat[0].id.clone(), MediaType::Show);

    assert!(matches!(s.on_event(&position(&flat[0].id, false), &lib), SessionAction::RecordPosition));
    match s.on_event(&position(&flat[0].id, true), &lib) {
        SessionAction::CompleteAndAdvance { next: Some(ep) } => assert_eq!(ep.id, flat[1].id),
        other => panic!("unexpected {:?}", other),
    }
    assert!(!s.has_reached_completion);
    assert_eq!(s.current_media_id, flat[0].id);
    s.now_playing(flat[1].id.clone());
    assert_eq!(s.current_media_id, flat[1].id);

    // A late position of the episode before is skipped.
    assert!(matches!(s.on_event(&position(&flat[0].id, true), &lib), SessionAction::SkipPosition));

    // The last episode: saved once, then the session ends.
    match s.on_event(&position(&flat[1].id, true), &lib) {
        SessionAction::CompleteAndAdvance { next: None } => {}
        other => panic!("unexpected {:?}", other),
    }
    assert!(s.has_reached_completion);
    assert!(matches!(s.on_event(&position(&flat[1].id, true), &lib), SessionAction::RecordPosition));
    assert!(matches!(s.on_event(&SessionEvent::Completed, &lib), SessionAction::Finish { save: false }));
}

#[test]
fn a_movie_ends_when_completed() {
    let lib = sample();
    let mut s = Session::new("movie".into(), MediaType::Movie);
    assert!(matches!(s.on_event(&SessionEvent::Completed, &lib), SessionAction::Finish { save: true }));
    match s.on_event(&position("movie", true), &lib) {
        SessionAction::CompleteAndAdvance { next: None } => {}
        other => panic!("unexpected {:?}", other),
    }
    assert!(matches!(s.on_event(&SessionEvent::RequestNext, &lib), SessionAction::Ignore));
    assert!(matches!(s.on_event(&SessionEvent::RequestPrev, &lib), SessionAction::Ignore));
    // A new start clears the mark.
    assert!(matches!(s.on_event(&SessionEvent::Started, &lib), SessionAction::Report));
    assert!(!s.has_reached_completion);
}

#[test]
fn requests_switch_between_episodes() {
    let lib = sample();
    let flat = lib.library().shows[0].flatten_show();
    let mut s = Session::new(flat[0].id.clone(), MediaType::Show);
    match s.on_event(&SessionEvent::RequestPrev, &lib) {
        SessionAction::Switch { episode: None, forward: false } => {}
        other => panic!("unexpected {:?}", other),
    }
    match s.on_event(&SessionEvent::RequestNext, &lib) {
        SessionAction::Switch { episode: Some(ep), forward: true } => assert_eq!(ep.id, flat[1].id),
        other => panic!("unexpected {:?}", other),
    }
    assert!(matches!(s.on_event(&SessionEvent::RequestQuit, &lib), SessionAction::Quit { save: true }));
    let mut idle = Session::new(String::new(), MediaType::Movie);
    assert!(matches!(idle.on_event(&SessionEvent::RequestQuit, &lib), SessionAction::Quit { save: false }));
    assert!(matches!(s.on_event(&SessionEvent::Exited, &lib), SessionAction::Exit));
    assert!(matches!(s.on_event(&SessionEvent::Paused, &lib), SessionAction::Report));
    assert!(matches!(s.on_event(&SessionEvent::Error, &lib), SessionAction::Report));
}
