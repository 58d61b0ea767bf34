use pmc::utils::{guess_episode, guess_name, guess_season, number_from_groups};

#[test]
fn test_guess_season() {
    assert_eq!(guess_season("S01E02"), 1);
    assert_eq!(guess_season("Season 2"), 2);
    assert_eq!(guess_season("S3"), 3);
    assert_eq!(guess_season("show.name.S10E05.1080p"), 10);
    assert_eq!(guess_season("some_folder/Season_12/"), 12);
    assert_eq!(guess_season("See - Season 1"), 1);
    assert_eq!(guess_season("The Pitt S01"), 1);
    assert_eq!(guess_season("Slow Horses SEASON 01 S01 COMPLETE"), 1);
}

#[test]
fn test_guess_episode() {
    assert_eq!(guess_episode("S01E02"), 2);
    assert_eq!(guess_episode("Episode 3"), 3);
    assert_eq!(guess_episode("E04"), 4);
    assert_eq!(guess_episode("series.S10E05.1080p"), 5);
    assert_eq!(guess_episode("E99_something_else"), 99);
    assert_eq!(guess_episode("no_episode_here"), 0);
}

#[test]
fn test_guess_name() {
    assert_eq!(
        guess_name("Breaking.Bad.S01E01.1080p.BluRay.x264"),
        "Breaking Bad"
    );
    assert_eq!(
        guess_name("The_Office_Season_3_Episode_2_HDTV"),
        "The Office Season 3 Episode 2 HDTV"
    );
    assert_eq!(guess_name("Friends.S05E10.720p.WEB-DL"), "Friends");
    assert_eq!(guess_name("Some.Movie.1999.1080p.BluRay.x265"), "Some Movie");
    assert_eq!(guess_name("No_Quality_Info_Here"), "No Quality Info Here");
}

#[test]
fn season_is_zero_without_marker() {
    assert_eq!(guess_season("nothing here"), 0);
    assert_eq!(guess_season(""), 0);
}

#[test]
fn season_prefers_the_first_pattern() {
    // `Season 4` matches the second pattern, but `S02E03` the first.
    assert_eq!(guess_season("Season 4 S02E03"), 2);
}

#[test]
fn episode_uses_case_insensitive_patterns() {
    assert_eq!(guess_episode("s02e07"), 7);
    assert_eq!(guess_episode("episode_12"), 12);
}

#[test]
fn name_keeps_everything_before_a_year_or_tag() {
    assert_eq!(guess_name("Alien (1979) [1080p]"), "Alien");
    assert_eq!(guess_name("Up.2009.mkv"), "Up");
    assert_eq!(guess_name("Movie 2100 Remastered"), "Movie 2100 Remastered");
    assert_eq!(guess_name("Movie 1899 Cut"), "Movie 1899 Cut");
    assert_eq!(guess_name("Show HEVC"), "Show");
    assert_eq!(guess_name("Show web-DL"), "Show");
    assert_eq!(guess_name("x264"), "");
}

#[test]
fn name_collapses_separators_and_whitespace() {
    assert_eq!(guess_name("  a..b__c  [d](e) "), "a b c d e");
    assert_eq!(guess_name(""), "");
    assert_eq!(guess_name("tab\tand\u{3000}ideographic space"), "tab and ideographic space");
}

#[test]
fn name_stops_at_episode_codes() {
    assert_eq!(guess_name("Show.s1e2.rest"), "Show");
    assert_eq!(guess_name("Show.S123E4"), "Show S123E4");
    assert_eq!(guess_name("Show.SE1"), "Show SE1");
}

#[test]
fn number_from_first_captured_group() {
    let groups = vec![None, Some("07".to_string()), Some("3".to_string())];
    assert_eq!(number_from_groups(&groups), 7);
    let groups = vec![Some("x".to_string()), Some("3".to_string())];
    assert_eq!(number_from_groups(&groups), 0);
    let groups: Vec<Option<String>> = vec![None, None];
    assert_eq!(number_from_groups(&groups), 0);
    let groups = vec![Some("99999999999".to_string())];
    assert_eq!(number_from_groups(&groups), 0);
    let groups = vec![Some("-12".to_string())];
    assert_eq!(number_from_groups(&groups), -12);
}

#[test]
fn guessing_a_guessed_title_changes_nothing() {
    for item in [
        "Breaking.Bad.S01E01.1080p.BluRay.x264",
        "The_Office_Season_3_Episode_2_HDTV",
        "  [Group]  Some..Movie (1999) ",
        "",
        "x264",
    ] {
        let once = guess_name(item);
        assert_eq!(guess_name(&once), once);
    }
}
