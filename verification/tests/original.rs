use globlint::{parse, pretty_print};

fn matches(pattern: &str, path: &str) -> bool {
    parse(pattern).unwrap().matches(path)
}

#[test]
fn round_trips_plain_pattern() {
    assert_eq!(pretty_print("src/**/*.rs").unwrap(), "src/**/*.rs");
}

#[test]
fn sorts_and_dedups_alternation() {
    assert_eq!(pretty_print("{b,a,a}.txt").unwrap(), "{a,b}.txt");
}

#[test]
fn collapses_redundant_double_star() {
    assert_eq!(pretty_print("a/**/**/b").unwrap(), "a/**/b");
}

#[test]
fn rejects_unterminated_class() {
    assert!(pretty_print("[abc").is_err());
}

#[test]
fn rejects_unterminated_alt() {
    assert!(pretty_print("{a,b").is_err());
}

#[test]
fn rejects_double_star_mixed_with_text() {
    assert!(pretty_print("a**b").is_err());
}

#[test]
fn rejects_backwards_range() {
    assert!(pretty_print("[z-a]").is_err());
}

#[test]
fn rejects_empty_component() {
    assert!(pretty_print("a//b").is_err());
}

#[test]
fn allows_leading_bracket_literal() {
    assert_eq!(pretty_print("[]]").unwrap(), "[\\]]");
}

#[test]
fn matches_literal_path() {
    assert!(matches("src/lib.rs", "src/lib.rs"));
    assert!(!matches("src/lib.rs", "src/main.rs"));
}

#[test]
fn star_matches_within_one_component() {
    assert!(matches("src/*.rs", "src/lib.rs"));
    assert!(!matches("src/*.rs", "src/sub/lib.rs"));
}

#[test]
fn double_star_matches_any_depth_including_zero() {
    assert!(matches("src/**/*.rs", "src/lib.rs"));
    assert!(matches("src/**/*.rs", "src/a/b/c/lib.rs"));
    assert!(!matches("src/**/*.rs", "src/lib.txt"));
}

#[test]
fn question_matches_exactly_one_char() {
    assert!(matches("a?c", "abc"));
    assert!(!matches("a?c", "ac"));
    assert!(!matches("a?c", "abbc"));
}

#[test]
fn class_and_negated_class() {
    assert!(matches("[abc].txt", "b.txt"));
    assert!(!matches("[abc].txt", "d.txt"));
    assert!(matches("[!abc].txt", "d.txt"));
    assert!(!matches("[!abc].txt", "a.txt"));
}

#[test]
fn alternation_matches_any_branch() {
    assert!(matches("*.{rs,toml}", "Cargo.toml"));
    assert!(matches("*.{rs,toml}", "lib.rs"));
    assert!(!matches("*.{rs,toml}", "README.md"));
}

#[test]
fn star_does_not_special_case_leading_dot() {
    assert!(matches("*.rs", ".rs"));
}
