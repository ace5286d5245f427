use apertium_stats::store::{Entry, ResultStore};

fn entry(name: &str, kind: &str, created: i64, value: &str) -> Entry {
    Entry {
        name: name.to_owned(),
        kind: kind.to_owned(),
        created,
        value: value.to_owned(),
    }
}

#[test]
fn find_latest_is_empty_for_an_unknown_package() {
    let mut store = ResultStore::new();
    assert!(store.find_latest("apertium-en-es").is_empty());
    store.insert(entry("apertium-fr-es", "size", 10, "{}"));
    assert!(store.find_latest("apertium-en-es").is_empty());
}

#[test]
fn find_latest_surfaces_the_earliest_entry() {
    let mut store = ResultStore::new();
    store.insert(entry("apertium-en-es", "size", 50, "late"));
    store.insert(entry("apertium-en-es", "coverage", 20, "early"));
    store.insert(entry("apertium-fr-es", "size", 1, "other"));
    let found = store.find_latest("apertium-en-es");
    assert_eq!(found.len(), 1);
    assert_eq!(found[0].kind, "coverage");
    assert_eq!(found[0].created, 20);
}

#[test]
fn find_latest_keeps_the_first_inserted_on_ties() {
    let mut store = ResultStore::new();
    store.insert(entry("apertium-en-es", "size", 20, "first"));
    store.insert(entry("apertium-en-es", "coverage", 20, "second"));
    let found = store.find_latest("apertium-en-es");
    assert_eq!(found.len(), 1);
    assert_eq!(found[0].value, "first");
}

#[test]
fn grouped_reads_surface_one_entry_per_kind() {
    let mut store = ResultStore::new();
    store.insert(entry("apertium-en-es", "size", 10, "s1"));
    store.insert(entry("apertium-en-es", "coverage", 11, "c1"));
    store.insert(entry("apertium-en-es", "size", 12, "s2"));
    store.insert(entry("apertium-fr-es", "quality", 13, "q1"));
    let found = store.find_all_by_kind_grouped("apertium-en-es");
    assert_eq!(found.len(), 2);
    assert_eq!(found[0].kind, "size");
    assert_eq!(found[0].value, "s1");
    assert_eq!(found[1].kind, "coverage");
    assert_eq!(found[1].value, "c1");
}

#[test]
fn grouped_reads_are_empty_for_an_unknown_package() {
    let store = ResultStore::new();
    assert!(store.find_all_by_kind_grouped("apertium-en-es").is_empty());
}
