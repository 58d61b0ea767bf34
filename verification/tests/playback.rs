use pmc::clock::Timestamp;
use pmc::indexer::{build_show, index_movies, Episode, FileEntry, Library, ShowDir};
use pmc::library::MediaLibrary;
use pmc::monitor::{
    action_ends_monitoring, monitor_action, wait_outcome, MonitorAction, MpvNotice, PropertyData,
    WaitOutcome,
};
use pmc::playback::{plan_resume, select_episode_to_play, ResumePlan};
use pmc::state::{MediaType, WatchEntry};

fn episode(id: &str) -> Episode {
    Episode {
        id: id.into(),
        name: id.into(),
        path: format!("{}.mkv", id),
        created_at: Timestamp { secs: 0, nanos: 0 },
        size: 0,
    }
}

fn watch(media_id: &str, media_type: MediaType, complete: bool, secs: i64) -> WatchEntry {
    WatchEntry {
        id: format!("w{}", secs),
        media_id: media_id.into(),
        media_type,
        progress: 50,
        complete,
        watched_at: Timestamp { secs, nanos: 0 },
    }
}

#[test]
fn first_episode_without_history() {
    let eps = vec![episode("a"), episode("b")];
    assert_eq!(select_episode_to_play(&eps, &[]).unwrap().id, "a");
    let movie_only = vec![watch("b", MediaType::Movie, false, 9)];
    assert_eq!(select_episode_to_play(&eps, &movie_only).unwrap().id, "a");
    assert!(select_episode_to_play(&[], &[]).is_none());
}

#[test]
fn unfinished_episode_is_resumed_and_finished_one_is_followed() {
    let eps = vec![episode("a"), episode("b"), episode("c")];
    let history = vec![watch("a", MediaType::Show, true, 1), watch("b", MediaType::Show, false, 5)];
    assert_eq!(select_episode_to_play(&eps, &history).unwrap().id, "b");
    let history = vec![watch("b", MediaType::Show, true, 5), watch("a", MediaType::Show, false, 1)];
    assert_eq!(select_episode_to_play(&eps, &history).unwrap().id, "c");
    let history = vec![watch("c", MediaType::Show, true, 5)];
    assert!(select_episode_to_play(&eps, &history).is_none());
    let history = vec![watch("zz", MediaType::Show, true, 5)];
    assert_eq!(select_episode_to_play(&eps, &history).unwrap().id, "a");
}

#[test]
fn ties_on_time_pick_the_last_record() {
    let eps = vec![episode("a"), episode("b"), episode("c")];
    let history = vec![watch("a", MediaType::Show, false, 5), watch("b", MediaType::Show, false, 5)];
    assert_eq!(select_episode_to_play(&eps, &history).unwrap().id, "b");
}

fn file(path: &str) -> FileEntry {
    FileEntry { path: path.to_string(), created_at: Timestamp { secs: 0, nanos: 0 }, size: 1 }
}

fn library() -> MediaLibrary {
    let dir = ShowDir {
        path: "tv/Show".into(),
        season_dirs: vec![],
        files: vec![file("tv/Show/S01E01.mkv"), file("tv/Show/S01E02.mkv")],
    };
    let show = build_show(&dir).unwrap();
    let movies = index_movies(&vec![file("m/Up.mkv")]);
    MediaLibrary::new("m".into(), "tv".into(), Library { movies, shows: vec![show] })
}

#[test]
fn resume_plans() {
    let lib = library();
    let movie_id = lib.library().movies[0].id.clone();
    let flat = lib.library().shows[0].flatten_show();
    let recent = vec![watch(&flat[0].id, MediaType::Show, true, 9), watch(&movie_id, MediaType::Movie, false, 3)];
    match plan_resume(&recent, &lib) {
        ResumePlan::ResumeMovie { movie, progress } => {
            assert_eq!(movie.name, "Up");
            assert_eq!(progress, 50);
        }
        other => panic!("unexpected {:?}", other),
    }
    let recent = vec![watch(&flat[0].id, MediaType::Show, false, 9)];
    match plan_resume(&recent, &lib) {
        ResumePlan::ResumeEpisode { episode, .. } => assert_eq!(episode.id, flat[0].id),
        other => panic!("unexpected {:?}", other),
    }
    let recent = vec![watch(&flat[0].id, MediaType::Show, true, 9)];
    match plan_resume(&recent, &lib) {
        ResumePlan::PlayNext { episode } => assert_eq!(episode.id, flat[1].id),
        other => panic!("unexpected {:?}", other),
    }
    let recent = vec![watch(&flat[1].id, MediaType::Show, true, 9)];
    assert!(matches!(plan_resume(&recent, &lib), ResumePlan::NoMoreEpisodes));
    let recent = vec![watch(&movie_id, MediaType::Movie, true, 9)];
    assert!(matches!(plan_resume(&recent, &lib), ResumePlan::NoRecentShow));
    assert!(matches!(plan_resume(&[], &lib), ResumePlan::Nothing));
    let recent = vec![watch("gone", MediaType::Movie, false, 9)];
    assert!(matches!(plan_resume(&recent, &lib), ResumePlan::Nothing));
}

fn event(event: &str, property: Option<(&str, PropertyData)>, reason: Option<&str>) -> MpvNotice {
    MpvNotice::Event {
        event: event.into(),
        property: property.map(|(n, d)| (n.to_string(), d)),
        end_reason: reason.map(|r| r.to_string()),
    }
}

#[test]
fn monitor_reacts_to_mpv_events() {
    assert_eq!(monitor_action(&MpvNotice::Closed), MonitorAction::Exit);
    assert_eq!(monitor_action(&MpvNotice::ReadError), MonitorAction::Fail);
    assert_eq!(monitor_action(&MpvNotice::Blank), MonitorAction::Ignore);
    assert_eq!(
        monitor_action(&event("property-change", Some(("pause", PropertyData::Bool(true))), None)),
        MonitorAction::Pause { paused: true }
    );
    assert_eq!(
        monitor_action(&event("property-change", Some(("percent-pos", PropertyData::Number)), None)),
        MonitorAction::Position
    );
    assert_eq!(
        monitor_action(&event("property-change", Some(("eof-reached", PropertyData::Bool(false))), None)),
        MonitorAction::Ignore
    );
    assert_eq!(
        monitor_action(&event("property-change", Some(("eof-reached", PropertyData::Bool(true))), None)),
        MonitorAction::Complete { from_property: true }
    );
    assert_eq!(monitor_action(&event("end-file", None, Some("eof"))), MonitorAction::Complete { from_property: false });
    assert_eq!(monitor_action(&event("end-file", None, Some("quit"))), MonitorAction::Stop);
    assert_eq!(monitor_action(&event("end-file", None, Some("error"))), MonitorAction::UnhandledEnd);
    assert_eq!(monitor_action(&event("shutdown", None, None)), MonitorAction::Shutdown);
    assert_eq!(monitor_action(&event("seek", None, None)), MonitorAction::Ignore);
    assert!(action_ends_monitoring(&MonitorAction::Shutdown));
    assert!(!action_ends_monitoring(&MonitorAction::Stop));
}

#[test]
fn waiting_for_playback() {
    assert_eq!(wait_outcome(0, true), WaitOutcome::Ready);
    assert_eq!(wait_outcome(0, false), WaitOutcome::Retry);
    assert_eq!(wait_outcome(28, false), WaitOutcome::Retry);
    assert_eq!(wait_outcome(29, false), WaitOutcome::TimedOut);
}

#[test]
fn movie_records_do_not_change_the_episode_chosen() {
    let eps = vec![episode("a"), episode("b"), episode("c")];
    let shows_only = vec![watch("a", MediaType::Show, true, 1), watch("b", MediaType::Show, false, 5)];
    let mixed = vec![
        watch("m1", MediaType::Movie, false, 9),
        watch("a", MediaType::Show, true, 1),
        watch("m2", MediaType::Movie, true, 20),
        watch("b", MediaType::Show, false, 5),
        watch("c", MediaType::Movie, true, 30),
    ];
    assert_eq!(select_episode_to_play(&eps, &shows_only).unwrap().id, "b");
    assert_eq!(select_episode_to_play(&eps, &mixed).unwrap().id, "b");
}
