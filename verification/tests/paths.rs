use pmc::paths::{file_name, file_stem, valid_ext};

#[test]
fn file_names_follow_std_path() {
    for p in [
        "movies/Up.mkv",
        "/a/b/c.tar.gz",
        "a/b/",
        "a/b/.",
        "a/..",
        "..",
        ".",
        "/",
        "",
        "a//b",
        ".hidden",
        "dir/.hidden.mkv",
        "name.",
    ] {
        let expected = std::path::Path::new(p).file_name().map(|s| s.to_str().unwrap().to_string());
        assert_eq!(file_name(p), expected, "{}", p);
        let stem = std::path::Path::new(p).file_stem().map(|s| s.to_str().unwrap().to_string());
        assert_eq!(file_stem(p), stem, "{}", p);
    }
}

#[test]
fn media_extensions() {
    assert!(valid_ext("a/b/Movie.mkv"));
    assert!(valid_ext("Movie.2009.mp4"));
    assert!(valid_ext("x.avi"));
    assert!(!valid_ext("x.MKV"));
    assert!(!valid_ext(".mkv"));
    assert!(!valid_ext("mkv"));
    assert!(!valid_ext("notes.txt"));
    assert!(valid_ext("dir/movie.mkv/"));
}
