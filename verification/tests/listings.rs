use playfs::attr::EntryKind;
use playfs::cache::ChildEntry;
use playfs::cache::DirectoryCache;
use playfs::listing::DirectoryEntry;
use playfs::listing::materialize_children;

fn entry(name: &str, kind: EntryKind) -> DirectoryEntry {
    DirectoryEntry { name: name.to_string(), kind }
}

#[test]
fn materialization_keeps_first_seen_order() {
    let names = vec!["b".to_string(), "a".to_string(), "b".to_string()];
    let out = materialize_children(&names, EntryKind::Directory);
    let got: Vec<String> = out.iter().map(|e| e.name.clone()).collect();
    assert_eq!(got, vec!["b".to_string(), "a".to_string()]);
    for e in &out {
        assert_eq!(e.kind, EntryKind::Directory);
    }
}

#[test]
fn materialization_deduplicates_after_canonicalization() {
    let names = vec!["x/y".to_string(), "x_y".to_string(), "z".to_string()];
    let out = materialize_children(&names, EntryKind::RegularFile);
    let got: Vec<String> = out.iter().map(|e| e.name.clone()).collect();
    assert_eq!(got, vec!["x_y".to_string(), "z".to_string()]);
}

#[test]
fn cache_pages_resume_and_clamp() {
    let mut cache = DirectoryCache::new();
    assert!(!cache.contains_dir(7));
    assert!(cache.page(7, 0).is_none());

    let children = vec![
        ChildEntry { id: 1, entry: entry("a", EntryKind::Directory) },
        ChildEntry { id: 2, entry: entry("b", EntryKind::Directory) },
        ChildEntry { id: 3, entry: entry("c", EntryKind::Directory) },
    ];
    cache.insert(7, children);
    assert!(cache.contains_dir(7));

    let full = cache.page(7, 0).unwrap();
    assert_eq!(full.len(), 3);
    assert_eq!(full[0].entry.name, "a");

    let rest = cache.page(7, 1).unwrap();
    assert_eq!(rest.len(), 2);
    assert_eq!(rest[0].entry.name, "b");
    assert_eq!(rest[1].entry.name, "c");
    assert_eq!(rest[1].id, 3);

    // pages concatenate losslessly: first entry, then the page at offset 1
    let mut glued = vec![full[0].entry.name.clone()];
    glued.extend(rest.iter().map(|e| e.entry.name.clone()));
    let all: Vec<String> = full.iter().map(|e| e.entry.name.clone()).collect();
    assert_eq!(glued, all);

    // an offset at or beyond the count is the empty page, never an error
    assert_eq!(cache.page(7, 3).unwrap().len(), 0);
    assert_eq!(cache.page(7, 50).unwrap().len(), 0);
}
