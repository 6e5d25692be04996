use playfs::attr::EntryKind;
use playfs::error::FsError;
use playfs::fs::Filesystem;

fn db_uri(name: &str) -> String {
    format!("file:{}?mode=memory&cache=shared", name)
}

/// Opens (and keeps alive) a shared in-memory database with the two tables
/// the core queries, returning the keeper connection.
fn setup(name: &str) -> rusqlite::Connection {
    let conn = rusqlite::Connection::open(db_uri(name)).unwrap();
    conn.execute_batch(
        "CREATE TABLE albums (albumartist TEXT, album TEXT);
         CREATE TABLE items (albumartist TEXT, album TEXT, title TEXT);",
    )
    .unwrap();
    conn
}

fn add_album(conn: &rusqlite::Connection, artist: &str, album: &str) {
    conn.execute("INSERT INTO albums VALUES (?1, ?2)", [artist, album]).unwrap();
}

fn add_song(conn: &rusqlite::Connection, artist: &str, album: &str, title: &str) {
    conn.execute("INSERT INTO items VALUES (?1, ?2, ?3)", [artist, album, title]).unwrap();
}

#[test]
fn root_listing_and_artist_attributes() {
    let keeper = setup("t_root_listing");
    add_album(&keeper, "A", "X");
    add_album(&keeper, "B", "Y");
    let mut fs = Filesystem::new(&db_uri("t_root_listing")).unwrap();

    let entries = fs.readdir(0, 0).unwrap();
    assert_eq!(entries.len(), 2);
    let mut names: Vec<String> = entries.iter().map(|e| e.entry.name.clone()).collect();
    for e in &entries {
        assert_eq!(e.entry.kind, EntryKind::Directory);
    }
    names.sort();
    assert_eq!(names, vec!["A".to_string(), "B".to_string()]);

    // stable order within the mount: a second listing repeats the first
    let again = fs.readdir(0, 0).unwrap();
    let names_again: Vec<String> = again.iter().map(|e| e.entry.name.clone()).collect();
    let names_first: Vec<String> = entries.iter().map(|e| e.entry.name.clone()).collect();
    assert_eq!(names_first, names_again);

    let attrs = fs.getattr_path("/A").unwrap();
    assert_eq!(attrs.kind, EntryKind::Directory);
}

#[test]
fn album_listing_has_zero_size_files() {
    let keeper = setup("t_album_listing");
    add_album(&keeper, "A", "X");
    add_song(&keeper, "A", "X", "s1");
    add_song(&keeper, "A", "X", "s2");
    let mut fs = Filesystem::new(&db_uri("t_album_listing")).unwrap();

    let handle = fs.opendir("/A/X").unwrap();
    let entries = fs.readdir(handle, 0).unwrap();
    assert_eq!(entries.len(), 2);
    let mut names: Vec<String> = entries.iter().map(|e| e.entry.name.clone()).collect();
    names.sort();
    assert_eq!(names, vec!["s1".to_string(), "s2".to_string()]);
    for e in &entries {
        assert_eq!(e.entry.kind, EntryKind::RegularFile);
    }
    let attrs = fs.getattr_path("/A/X/s1").unwrap();
    assert_eq!(attrs.kind, EntryKind::RegularFile);
    assert_eq!(attrs.size, 0);
    // regular files are readable only; directories stay traversable
    assert_eq!(attrs.perm, 0o644);
    assert_eq!(fs.getattr_path("/A/X").unwrap().perm, 0o755);
}

#[test]
fn unknown_artist_is_not_found() {
    let keeper = setup("t_unknown_artist");
    add_album(&keeper, "A", "X");
    let mut fs = Filesystem::new(&db_uri("t_unknown_artist")).unwrap();
    assert_eq!(fs.getattr_path("/NoSuchArtist"), Err(FsError::NotFound));
}

#[test]
fn unknown_deeper_entries_are_not_found() {
    let keeper = setup("t_unknown_deep");
    add_album(&keeper, "A", "X");
    add_song(&keeper, "A", "X", "s1");
    let mut fs = Filesystem::new(&db_uri("t_unknown_deep")).unwrap();
    assert_eq!(fs.getattr_path("/A/NoSuchAlbum"), Err(FsError::NotFound));
    assert_eq!(fs.getattr_path("/A/X/nosong"), Err(FsError::NotFound));
    // the same answers once every listing on the walk is cached
    assert!(fs.getattr_path("/A/X/s1").is_ok());
    assert_eq!(fs.getattr_path("/A/NoSuchAlbum"), Err(FsError::NotFound));
    assert_eq!(fs.getattr_path("/A/X/nosong"), Err(FsError::NotFound));
}

#[test]
fn readdir_offset_resumes_mid_list() {
    let keeper = setup("t_offset");
    add_album(&keeper, "A", "X");
    add_album(&keeper, "B", "Y");
    let mut fs = Filesystem::new(&db_uri("t_offset")).unwrap();

    let full = fs.readdir(0, 0).unwrap();
    assert_eq!(full.len(), 2);
    let second = fs.readdir(0, 1).unwrap();
    assert_eq!(second.len(), 1);
    assert_eq!(second[0].entry.name, full[1].entry.name);
    assert_eq!(second[0].id, full[1].id);
    assert_ne!(second[0].entry.name, full[0].entry.name);
}

#[test]
fn paging_concatenates_to_full_listing() {
    let keeper = setup("t_paging");
    add_album(&keeper, "A", "X");
    add_album(&keeper, "B", "Y");
    add_album(&keeper, "C", "Z");
    let mut fs = Filesystem::new(&db_uri("t_paging")).unwrap();

    let full = fs.readdir(0, 0).unwrap();
    assert_eq!(full.len(), 3);
    let p0 = fs.readdir(0, 0).unwrap();
    let p1 = fs.readdir(0, 1).unwrap();
    let p2 = fs.readdir(0, 3).unwrap();
    let mut glued: Vec<String> = vec![p0[0].entry.name.clone()];
    glued.extend(p1.iter().map(|e| e.entry.name.clone()));
    glued.extend(p2.iter().map(|e| e.entry.name.clone()));
    let full_names: Vec<String> = full.iter().map(|e| e.entry.name.clone()).collect();
    assert_eq!(glued, full_names);
    // an offset at or beyond the end is an empty page, not an error
    assert_eq!(fs.readdir(0, 3).unwrap().len(), 0);
    assert_eq!(fs.readdir(0, 100).unwrap().len(), 0);
}

#[test]
fn separator_in_store_name_is_canonicalized() {
    let keeper = setup("t_separator");
    add_album(&keeper, "AC/DC", "Back in Black");
    let mut fs = Filesystem::new(&db_uri("t_separator")).unwrap();

    let entries = fs.readdir(0, 0).unwrap();
    assert_eq!(entries.len(), 1);
    assert_eq!(entries[0].entry.name, "AC_DC");

    let (id, attrs) = fs.lookup(0, "AC_DC").unwrap();
    assert_eq!(attrs.kind, EntryKind::Directory);
    assert_eq!(id, entries[0].id);
    assert_eq!(fs.getattr_path("/AC_DC").unwrap().kind, EntryKind::Directory);
    // the raw, uncanonicalized name is no path component
    assert_eq!(fs.lookup(0, "AC/DC"), Err(FsError::NotFound));
}

#[test]
fn repeated_lookup_of_unseen_artist_yields_one_identifier() {
    let keeper = setup("t_lookup_once");
    add_album(&keeper, "A", "X");
    let mut fs = Filesystem::new(&db_uri("t_lookup_once")).unwrap();

    let (id1, _) = fs.lookup(0, "A").unwrap();
    let (id2, _) = fs.lookup(0, "A").unwrap();
    assert_eq!(id1, id2);
    let again = fs.readdir(0, 0).unwrap();
    assert_eq!(again[0].id, id1);
}

#[test]
fn duplicate_canonical_names_are_deduplicated() {
    let keeper = setup("t_dedup");
    add_album(&keeper, "a/b", "X");
    add_album(&keeper, "a_b", "Y");
    let mut fs = Filesystem::new(&db_uri("t_dedup")).unwrap();

    let entries = fs.readdir(0, 0).unwrap();
    assert_eq!(entries.len(), 1);
    assert_eq!(entries[0].entry.name, "a_b");
}

#[test]
fn missing_schema_is_a_backing_store_error() {
    let keeper = rusqlite::Connection::open(db_uri("t_no_schema")).unwrap();
    let mut fs = Filesystem::new(&db_uri("t_no_schema")).unwrap();
    assert_eq!(fs.readdir(0, 0).unwrap_err(), FsError::BackingStore);
    drop(keeper);
}

#[test]
fn unknown_identifier_is_not_found() {
    let keeper = setup("t_unknown_id");
    add_album(&keeper, "A", "X");
    let mut fs = Filesystem::new(&db_uri("t_unknown_id")).unwrap();
    assert_eq!(fs.readdir(99, 0).unwrap_err(), FsError::NotFound);
    assert_eq!(fs.getattr_id(99), Err(FsError::NotFound));
    assert_eq!(fs.lookup(99, "A"), Err(FsError::NotFound));
}

#[test]
fn opendir_validates_against_the_store() {
    let keeper = setup("t_opendir");
    add_album(&keeper, "A", "X");
    let mut fs = Filesystem::new(&db_uri("t_opendir")).unwrap();

    assert_eq!(fs.opendir("/"), Ok(0));
    assert!(fs.opendir("/A").is_ok());
    assert!(fs.opendir("/A/X").is_ok());
    assert_eq!(fs.opendir("/B"), Err(FsError::NotFound));
    assert_eq!(fs.opendir("/A/Y"), Err(FsError::NotFound));
    // a song is not a directory
    assert_eq!(fs.opendir("/A/X/s"), Err(FsError::NotFound));
    assert_eq!(fs.opendir("a"), Err(FsError::MalformedPath));
}

#[test]
fn root_attributes_are_fixed() {
    let keeper = setup("t_root_attr");
    let fs = Filesystem::new(&db_uri("t_root_attr")).unwrap();
    let attrs = fs.getattr_id(0).unwrap();
    assert_eq!(attrs.kind, EntryKind::Directory);
    assert_eq!(attrs.size, 0);
    assert_eq!(attrs.perm, 0o755);
    assert_eq!(attrs.uid, 1000);
    assert_eq!(attrs.gid, 1000);
    assert_eq!(attrs.mtime_secs, 1);
    drop(keeper);
}
