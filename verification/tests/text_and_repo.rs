use label_tracker::repo::GitHubRepo;
use label_tracker::string_set::StringSet;
use label_tracker::text::{split_first_str, split_on_str, split_ws_str, str_contains, str_eq,
    str_lex_le, trim_str};

#[test]
fn lexicographic_order_on_strings() {
    assert!(str_lex_le("abc", "abd"));
    assert!(!str_lex_le("abd", "abc"));
    assert!(str_lex_le("ab", "abc"));
    assert!(str_lex_le("", "a"));
    assert!(str_lex_le("same", "same"));
    assert!(str_eq("same", "same"));
    assert!(!str_eq("same", "sane"));
}

#[test]
fn substring_search() {
    assert!(str_contains("request timeout reached", "timeout"));
    assert!(!str_contains("all fine", "timeout"));
    assert!(str_contains("anything", ""));
    assert!(!str_contains("", "x"));
}

#[test]
fn splitting_and_trimming() {
    assert_eq!(split_on_str("a,b,,c", ','), vec!["a", "b", "", "c"]);
    assert_eq!(split_on_str("plain", ','), vec!["plain"]);
    assert_eq!(
        split_first_str("owner/repo/extra", '/'),
        Some(("owner".to_string(), "repo/extra".to_string()))
    );
    assert_eq!(split_first_str("nothing", '/'), None);
    assert_eq!(trim_str("  padded\t"), "padded".to_string());
    assert_eq!(trim_str("   "), "".to_string());
    assert_eq!(split_ws_str(" a  bb\tccc "), vec!["a", "bb", "ccc"]);
}

#[test]
fn string_set_is_sorted_and_deduplicated() {
    let mut s = StringSet::new();
    s.insert("beta".to_string());
    s.insert("alpha".to_string());
    s.insert("beta".to_string());
    assert_eq!(s.len(), 2);
    assert_eq!(s.at(0), "alpha");
    assert_eq!(s.at(1), "beta");
    assert!(s.contains("alpha"));
    assert!(!s.contains("gamma"));

    let mut other = StringSet::new();
    other.insert("alpha".to_string());
    assert_eq!(s.difference(&other), vec!["beta".to_string()]);
}

#[test]
fn repo_parsing_and_url() {
    let repo = GitHubRepo::from_str("molybdenumsoftware/label-tracker-test-fixture").unwrap();
    assert_eq!(repo.owner, "molybdenumsoftware".to_string());
    assert_eq!(repo.name, "label-tracker-test-fixture".to_string());
    assert_eq!(
        repo.url(),
        "https://github.com/molybdenumsoftware/label-tracker-test-fixture".to_string()
    );

    assert_eq!(
        GitHubRepo::from_str("no-slash").unwrap_err(),
        "GitHub repo must contain `/`".to_string()
    );
    assert_eq!(
        GitHubRepo::from_str("a/b/c").unwrap_err(),
        "GitHub repo must only contain one `/`".to_string()
    );
}
