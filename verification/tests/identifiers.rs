use playfs::ids::IdentifierTable;
use playfs::path::PlayPath;

fn artist(name: &str) -> PlayPath {
    PlayPath::Artist(name.to_string())
}

fn album(artist: &str, album: &str) -> PlayPath {
    PlayPath::Album { artist: artist.to_string(), album: album.to_string() }
}

#[test]
fn root_is_identifier_zero() {
    let table = IdentifierTable::new();
    let root = table.resolve(0).unwrap();
    assert!(root.same_position(&PlayPath::Root));
    assert_eq!(table.parent_of(0), None);
}

#[test]
fn resolve_returns_the_assigned_position() {
    let mut table = IdentifierTable::new();
    let id = table.assign(&artist("A"));
    let back = table.resolve(id).unwrap();
    assert!(back.same_position(&artist("A")));
}

#[test]
fn assigning_twice_yields_the_same_identifier() {
    let mut table = IdentifierTable::new();
    let id1 = table.assign(&artist("A"));
    let id2 = table.assign(&artist("A"));
    assert_eq!(id1, id2);
}

#[test]
fn distinct_positions_get_distinct_identifiers() {
    let mut table = IdentifierTable::new();
    let ida = table.assign(&artist("A"));
    let idb = table.assign(&artist("B"));
    let idx = table.assign(&album("A", "X"));
    assert_ne!(ida, idb);
    assert_ne!(ida, idx);
    assert_ne!(idb, idx);
    // names at different levels never collide either
    let id_same_name = table.assign(&album("A", "B"));
    assert_ne!(idb, id_same_name);
}

#[test]
fn identifiers_stay_stable_as_the_table_grows() {
    let mut table = IdentifierTable::new();
    let ida = table.assign(&artist("A"));
    for n in 0..20 {
        table.assign(&artist(&format!("other{}", n)));
    }
    assert_eq!(table.assign(&artist("A")), ida);
    assert!(table.resolve(ida).unwrap().same_position(&artist("A")));
}

#[test]
fn parents_are_recorded_up_the_hierarchy() {
    let mut table = IdentifierTable::new();
    let idx = table.assign(&album("A", "X"));
    let ida = table.assign(&artist("A"));
    assert_eq!(table.parent_of(idx), Some(ida));
    assert_eq!(table.parent_of(ida), Some(0));
    assert_eq!(table.parent_of(77), None);
}

#[test]
fn unknown_identifier_resolves_to_none() {
    let table = IdentifierTable::new();
    assert!(table.resolve(5).is_none());
}
