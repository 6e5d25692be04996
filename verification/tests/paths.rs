use playfs::error::FsError;
use playfs::listing::canonicalize_name;
use playfs::path::PlayPath;
use playfs::path::component_to_string;
use playfs::path::decompose_path;

#[test]
fn root_path_resolves() {
    assert!(matches!(decompose_path("/"), Ok(PlayPath::Root)));
}

#[test]
fn artist_path_resolves() {
    match decompose_path("/Artist") {
        Ok(PlayPath::Artist(a)) => assert_eq!(a, "Artist"),
        _ => panic!("expected an artist position"),
    }
}

#[test]
fn album_path_resolves() {
    match decompose_path("/Artist/Album") {
        Ok(PlayPath::Album { artist, album }) => {
            assert_eq!(artist, "Artist");
            assert_eq!(album, "Album");
        },
        _ => panic!("expected an album position"),
    }
}

#[test]
fn song_path_resolves() {
    match decompose_path("/Artist/Album/Song") {
        Ok(PlayPath::Song { artist, album, song }) => {
            assert_eq!(artist, "Artist");
            assert_eq!(album, "Album");
            assert_eq!(song, "Song");
        },
        _ => panic!("expected a song position"),
    }
}

#[test]
fn malformed_paths_are_rejected() {
    assert!(matches!(decompose_path(""), Err(FsError::MalformedPath)));
    assert!(matches!(decompose_path("relative"), Err(FsError::MalformedPath)));
    assert!(matches!(decompose_path("/a/b/c/d"), Err(FsError::MalformedPath)));
    assert!(matches!(decompose_path("/a//b"), Err(FsError::MalformedPath)));
    assert!(matches!(decompose_path("/a/"), Err(FsError::MalformedPath)));
    assert!(matches!(decompose_path("/."), Err(FsError::MalformedPath)));
    assert!(matches!(decompose_path("/a/.."), Err(FsError::MalformedPath)));
}

#[test]
fn components_are_validated() {
    assert_eq!(component_to_string("name").unwrap(), "name");
    assert!(matches!(component_to_string(""), Err(FsError::MalformedPath)));
    assert!(matches!(component_to_string("."), Err(FsError::MalformedPath)));
    assert!(matches!(component_to_string(".."), Err(FsError::MalformedPath)));
    assert_eq!(component_to_string("...").unwrap(), "...");
    assert_eq!(component_to_string(".hidden").unwrap(), ".hidden");
}

#[test]
fn positions_compare_by_names() {
    let a1 = PlayPath::Artist("A".to_string());
    let a2 = PlayPath::Artist("A".to_string());
    let b = PlayPath::Artist("B".to_string());
    assert!(a1.same_position(&a2));
    assert!(!a1.same_position(&b));
    assert!(!a1.same_position(&PlayPath::Root));
    let s1 = PlayPath::Song {
        artist: "A".to_string(),
        album: "X".to_string(),
        song: "s".to_string(),
    };
    let s2 = s1.clone();
    assert!(s1.same_position(&s2));
}

#[test]
fn canonicalization_replaces_every_separator() {
    assert_eq!(canonicalize_name("AC/DC"), "AC_DC");
    assert_eq!(canonicalize_name("//"), "__");
    assert_eq!(canonicalize_name("plain"), "plain");
    assert_eq!(canonicalize_name(""), "");
    assert_eq!(canonicalize_name("a/b/c"), "a_b_c");
}

#[test]
fn round_trip_of_canonical_listing_name() {
    let canon = canonicalize_name("AC/DC");
    let path = format!("/{}", canon);
    match decompose_path(&path) {
        Ok(PlayPath::Artist(a)) => assert_eq!(a, canon),
        _ => panic!("canonical listing name must resolve as a path component"),
    }
}
