use pmc::clock::Timestamp;
use pmc::indexer::{
    build_show, index, index_episodes, index_movies, index_shows, seasons_from_episode_files,
    seasons_from_season_dirs, FileEntry, SeasonDir, ShowDir,
};

fn file(path: &str, secs: i64, size: u64) -> FileEntry {
    FileEntry { path: path.to_string(), created_at: Timestamp { secs, nanos: 0 }, size }
}

fn is_id(s: &str) -> bool {
    s.chars().count() == 10
        && s.chars().all(|c| c == '_' || c == '-' || c.is_ascii_alphanumeric())
}

#[test]
fn movies_are_media_files_sorted_by_title() {
    let files = vec![
        file("m/zeta.Movie.2001.mkv", 1, 10),
        file("m/notes.txt", 2, 20),
        file("m/Alpha.720p.mp4", 3, 30),
        file("m/beta.avi", 4, 40),
        file("m/.mkv", 5, 50),
    ];
    let movies = index_movies(&files);
    let names: Vec<&str> = movies.iter().map(|m| m.name.as_str()).collect();
    assert_eq!(names, vec!["Alpha", "beta", "zeta Movie"]);
    assert_eq!(movies[0].path, "m/Alpha.720p.mp4");
    assert_eq!(movies[0].size, 30);
    assert_eq!(movies[0].created_at, Timestamp { secs: 3, nanos: 0 });
    assert!(movies.iter().all(|m| is_id(&m.id)));
}

#[test]
fn movie_sort_is_stable_and_case_insensitive() {
    let files = vec![file("b/Same.mkv", 1, 1), file("a/same.mkv", 2, 2), file("c/SAME.mkv", 3, 3)];
    let movies = index_movies(&files);
    let paths: Vec<&str> = movies.iter().map(|m| m.path.as_str()).collect();
    assert_eq!(paths, vec!["b/Same.mkv", "a/same.mkv", "c/SAME.mkv"]);
}

#[test]
fn episodes_keep_their_stem_and_sort_by_it() {
    let files = vec![file("s/E02.mkv", 1, 1), file("s/e01.mkv", 2, 2), file("s/readme.md", 3, 3)];
    let eps = index_episodes(&files);
    let names: Vec<&str> = eps.iter().map(|e| e.name.as_str()).collect();
    assert_eq!(names, vec!["e01", "E02"]);
}

#[test]
fn season_directories_make_seasons_by_number() {
    let dirs = vec![
        SeasonDir { path: "show/Season 2".into(), files: vec![file("show/Season 2/b.mkv", 1, 1)] },
        SeasonDir { path: "show/extras".into(), files: vec![file("show/extras/x.txt", 1, 1)] },
        SeasonDir { path: "show/Season 1".into(), files: vec![file("show/Season 1/a.mkv", 1, 1)] },
        SeasonDir { path: "show/S02 again".into(), files: vec![file("show/S02 again/c.mp4", 1, 1)] },
    ];
    let seasons = seasons_from_season_dirs(&dirs);
    assert_eq!(seasons.len(), 2);
    assert_eq!(seasons[0].number, 1);
    assert_eq!(seasons[0].name, "Season 1");
    assert_eq!(seasons[1].number, 2);
    // The later directory of the same number replaces the earlier one.
    assert_eq!(seasons[1].name, "S02 again");
    assert_eq!(seasons[1].episodes[0].path, "show/S02 again/c.mp4");
}

#[test]
fn loose_episodes_are_grouped_by_guessed_season() {
    let files = vec![
        file("show/Show.S02E01.mkv", 1, 1),
        file("show/Show.S01E02.mkv", 1, 1),
        file("show/Show.S01E01.mkv", 1, 1),
        file("show/Special.mkv", 1, 1),
    ];
    let seasons = seasons_from_episode_files(&files);
    let summary: Vec<(i32, &str, usize)> =
        seasons.iter().map(|s| (s.number, s.name.as_str(), s.episodes.len())).collect();
    assert_eq!(summary, vec![(0, "Season 0", 1), (1, "Season 1", 2), (2, "Season 2", 1)]);
    assert_eq!(seasons[1].episodes[0].name, "Show.S01E01");
}

#[test]
fn shows_without_media_are_skipped_and_shows_sort_by_title() {
    let dirs = vec![
        ShowDir {
            path: "tv/Zoo.2015".into(),
            season_dirs: vec![],
            files: vec![file("tv/Zoo.2015/Zoo.S01E01.mkv", 1, 1)],
        },
        ShowDir { path: "tv/Empty".into(), season_dirs: vec![], files: vec![file("tv/Empty/a.txt", 1, 1)] },
        ShowDir {
            path: "tv/alf".into(),
            season_dirs: vec![SeasonDir {
                path: "tv/alf/Season 1".into(),
                files: vec![file("tv/alf/Season 1/e1.mkv", 1, 1)],
            }],
            files: vec![file("tv/alf/ignored.mkv", 1, 1)],
        },
    ];
    let shows = index_shows(&dirs);
    let names: Vec<&str> = shows.iter().map(|s| s.name.as_str()).collect();
    assert_eq!(names, vec!["alf", "Zoo"]);
    assert_eq!(shows[0].seasons[0].episodes.len(), 1);
    assert!(build_show(&dirs[1]).is_none());
    let lib = index(&vec![file("m/Up.mkv", 1, 1)], &dirs);
    assert_eq!(lib.movies.len(), 1);
    assert_eq!(lib.shows.len(), 2);
}

#[test]
fn flatten_show_lists_episodes_season_after_season() {
    let files = vec![
        file("show/S02E01.mkv", 1, 1),
        file("show/S01E02.mkv", 1, 1),
        file("show/S01E01.mkv", 1, 1),
    ];
    let dir = ShowDir { path: "show".into(), season_dirs: vec![], files };
    let tv = build_show(&dir).unwrap();
    let names: Vec<String> = tv.flatten_show().into_iter().map(|e| e.name).collect();
    assert_eq!(names, vec!["S01E01", "S01E02", "S02E01"]);
}
