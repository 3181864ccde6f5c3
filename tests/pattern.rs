use jumpjump::pattern::{build_query_pattern, compile_query};
use jumpjump::{Database, IndexError};

#[test]
fn pattern_surrounds_and_joins_tokens() {
    assert_eq!(build_query_pattern(&["bar", "doo"]), "(?i).*bar.*doo.*");
}

#[test]
fn pattern_of_no_token() {
    assert_eq!(build_query_pattern(&[]), "(?i).*.*");
}

#[test]
fn pattern_escapes_meta_characters() {
    assert_eq!(build_query_pattern(&["a.b", "c(d)"]), "(?i).*a\\.b.*c\\(d\\).*");
}

#[test]
fn escaped_pattern_compiles() {
    assert!(compile_query(&["(", "[", "*"]).is_ok());
}

#[test]
fn oversized_pattern_is_refused() {
    // Ignoring case, each `k` also matches `K` and the Kelvin sign, which makes
    // the compiled pattern outgrow the regex crate's default size limit.
    let token = "k".repeat(500_000);
    assert!(compile_query(&[token.as_str()]).is_err());
    let mut db = Database::new();
    db.add_location("/k").unwrap();
    assert_eq!(db.get_matching_locations(&[token.as_str()]).err(), Some(IndexError::Pattern));
}
