use apertium_stats::registry::Registry;

#[test]
fn first_claim_wins_and_later_claims_fail() {
    let mut r = Registry::new();
    assert!(r.try_register("apertium-en-es", "size"));
    assert!(!r.try_register("apertium-en-es", "size"));
    assert!(!r.try_register("apertium-en-es", "size"));
}

#[test]
fn distinct_pairs_are_independent() {
    let mut r = Registry::new();
    assert!(r.try_register("apertium-en-es", "size"));
    assert!(r.try_register("apertium-en-es", "coverage"));
    assert!(r.try_register("apertium-fr-es", "size"));
    assert!(!r.try_register("apertium-en-es", "coverage"));
}

#[test]
fn unregister_is_idempotent() {
    let mut r = Registry::new();
    assert!(r.try_register("apertium-en-es", "size"));
    assert!(r.try_register("apertium-en-es", "coverage"));
    r.unregister("apertium-en-es", "size");
    r.unregister("apertium-en-es", "size");
    r.unregister("apertium-fr-es", "quality");
    let kinds = r.get_in_progress("apertium-en-es").unwrap();
    assert_eq!(kinds, vec!["coverage".to_owned()]);
}

#[test]
fn unregister_frees_the_pair_for_a_new_claim() {
    let mut r = Registry::new();
    assert!(r.try_register("apertium-en-es", "coverage"));
    r.unregister("apertium-en-es", "coverage");
    assert!(r.try_register("apertium-en-es", "coverage"));
}

#[test]
fn snapshot_is_none_exactly_when_nothing_is_registered() {
    let mut r = Registry::new();
    assert!(r.get_in_progress("apertium-en-es").is_none());
    assert!(r.try_register("apertium-en-es", "size"));
    assert_eq!(
        r.get_in_progress("apertium-en-es").unwrap(),
        vec!["size".to_owned()]
    );
    assert!(r.get_in_progress("apertium-fr-es").is_none());
    r.unregister("apertium-en-es", "size");
    assert!(r.get_in_progress("apertium-en-es").is_none());
}

#[test]
fn snapshot_reports_the_registered_kinds_once_each() {
    let mut r = Registry::new();
    assert!(r.try_register("apertium-en-es", "size"));
    assert!(r.try_register("apertium-en-es", "coverage"));
    assert!(!r.try_register("apertium-en-es", "coverage"));
    let kinds = r.get_in_progress("apertium-en-es").unwrap();
    assert_eq!(kinds, vec!["size".to_owned(), "coverage".to_owned()]);
}
