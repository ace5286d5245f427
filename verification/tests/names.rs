use apertium_stats::api::{calculate_specific_stats, calculate_stats, get_specific_stats, index};
use apertium_stats::names::{match_name, normalize_name, str_eq};

#[test]
fn normalize_adds_the_prefix() {
    assert_eq!(normalize_name("en-es"), "apertium-en-es");
    assert_eq!(normalize_name("eng"), "apertium-eng");
    assert_eq!(normalize_name(""), "apertium-");
}

#[test]
fn normalize_keeps_an_existing_prefix() {
    assert_eq!(normalize_name("apertium-en-es"), "apertium-en-es");
    assert_eq!(normalize_name("apertium-"), "apertium-");
}

#[test]
fn match_name_accepts_single_codes() {
    assert!(match_name("apertium-en"));
    assert!(match_name("apertium-eng"));
    assert!(match_name("apertium-en_US"));
    assert!(match_name("apertium-en_"));
    assert!(match_name("apertium-eng_Latn"));
}

#[test]
fn match_name_accepts_code_pairs() {
    assert!(match_name("apertium-en-es"));
    assert!(match_name("apertium-eng-spa"));
    assert!(match_name("apertium-en_US-es"));
    assert!(match_name("apertium-en-es_AR"));
}

#[test]
fn match_name_rejects_malformed_names() {
    assert!(!match_name("en-es"));
    assert!(!match_name("apertium-"));
    assert!(!match_name("apertium-e"));
    assert!(!match_name("apertium-abcd"));
    assert!(!match_name("apertium-en-es-fr"));
    assert!(!match_name("apertium-en!"));
    assert!(!match_name("apertium-en-"));
    assert!(!match_name("apertium-én"));
    assert!(!match_name(""));
}

#[test]
fn str_eq_compares_contents() {
    assert!(str_eq("size", "size"));
    assert!(!str_eq("size", "sizes"));
    assert!(!str_eq("size", "coverage"));
    assert!(str_eq("", ""));
}

#[test]
fn index_describes_the_usage() {
    assert!(index().contains("USAGE"));
    assert!(index().contains("GET /apertium-<code1>(-<code2>)"));
}

#[test]
fn specific_stats_join_name_and_kind() {
    assert_eq!(
        get_specific_stats("apertium-en-es".to_owned(), "size".to_owned()),
        "apertium-en-es: size"
    );
    assert_eq!(
        calculate_specific_stats("apertium-en-es".to_owned(), "coverage".to_owned()),
        "apertium-en-es: coverage"
    );
}

#[test]
fn calculate_stats_echoes_the_name() {
    assert_eq!(calculate_stats("apertium-en-es".to_owned()), "apertium-en-es");
}
