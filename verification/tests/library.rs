use pmc::clock::Timestamp;
use pmc::indexer::{build_show, index_movies, FileEntry, Library, ShowDir};
use pmc::library::{str_eq, MediaLibrary};

fn file(path: &str) -> FileEntry {
    FileEntry { path: path.to_string(), created_at: Timestamp { secs: 0, nanos: 0 }, size: 1 }
}

fn sample() -> MediaLibrary {
    let dir = ShowDir {
        path: "tv/Show".into(),
        season_dirs: vec![],
        files: vec![file("tv/Show/S01E01.mkv"), file("tv/Show/S01E02.mkv"), file("tv/Show/S02E01.mkv")],
    };
    let show = build_show(&dir).unwrap();
    let movies = index_movies(&vec![file("m/Up.mkv"), file("m/Cars.mkv")]);
    MediaLibrary::new("m".into(), "tv".into(), Library { movies, shows: vec![show] })
}

#[test]
fn episodes_are_found_by_id() {
    let lib = sample();
    let show = &lib.library().shows[0];
    for season in &show.seasons {
        for ep in &season.episodes {
            let (t, s, e) = lib.episode_entry(&ep.id).unwrap();
            assert_eq!(t.id, show.id);
            assert_eq!(s.number, season.number);
            assert_eq!(e.id, ep.id);
        }
    }
    assert!(lib.episode_entry("missing").is_none());
    assert_eq!(lib.show_entry(&show.id).unwrap().name, "Show");
    assert!(lib.show_entry("missing").is_none());
}

#[test]
fn next_and_previous_episodes_cross_seasons() {
    let lib = sample();
    let flat = lib.library().shows[0].flatten_show();
    let next = lib.get_next_episode(&flat[1].id).unwrap();
    assert_eq!(next.name, "S02E01");
    assert!(lib.get_next_episode(&flat[2].id).is_none());
    let prev = lib.get_prev_episode(&flat[2].id).unwrap();
    assert_eq!(prev.name, "S01E02");
    assert!(lib.get_prev_episode(&flat[0].id).is_none());
    assert!(lib.get_next_episode("missing").is_none());
}

#[test]
fn movies_are_found_by_id() {
    let lib = sample();
    let cars = &lib.library().movies[0];
    assert_eq!(cars.name, "Cars");
    assert_eq!(lib.find_movie(&cars.id).unwrap().name, "Cars");
    assert!(lib.find_movie("nope").is_none());
}

#[test]
fn rebuilding_the_tables_keeps_the_library() {
    let mut lib = sample();
    let id = lib.library().shows[0].seasons[0].episodes[0].id.clone();
    lib.rebuild_maps();
    assert!(lib.episode_entry(&id).is_some());
    assert_eq!(lib.movie_dir(), "m");
    assert_eq!(lib.tv_dir(), "tv");
    let restored = MediaLibrary::restore(
        lib.movie_dir().clone(),
        lib.tv_dir().clone(),
        Timestamp { secs: 5, nanos: 6 },
        lib.library().clone(),
    );
    assert_eq!(restored.indexed_at(), Timestamp { secs: 5, nanos: 6 });
    assert!(restored.episode_entry(&id).is_some());
}

#[test]
fn string_equality() {
    assert!(str_eq("abc", "abc"));
    assert!(!str_eq("abc", "abd"));
    assert!(!str_eq("ab", "abc"));
}
