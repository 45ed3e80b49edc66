use recall::search::{fuzzy_match, fuzzy_score};

#[test]
fn exact_match_scores_highest() {
    let exact = fuzzy_match("ls", "ls");
    let partial = fuzzy_match("ls", "list");
    assert!(exact > partial);
}

#[test]
fn no_match_returns_none() {
    assert!(fuzzy_match("xyz", "ls").is_none());
}

#[test]
fn empty_query_matches_everything() {
    assert!(fuzzy_match("", "anything").is_some());
}

#[test]
fn exact_and_partial_scores() {
    // l: 1 + word start 3 + prefix 2; s: 1 + consecutive 2 + prefix 2
    assert_eq!(fuzzy_match("ls", "ls"), Some(11));
    // s in "list" is neither consecutive, nor at a word start, nor a prefix
    assert_eq!(fuzzy_match("ls", "list"), Some(7));
}

#[test]
fn empty_query_scores_zero() {
    assert_eq!(fuzzy_match("", "anything"), Some(0));
    assert_eq!(fuzzy_match("", ""), Some(0));
}

#[test]
fn word_boundary_bonus_after_non_alphanumeric() {
    // g: 1 + 3 + 2; s after a space: 1 + 3
    assert_eq!(fuzzy_match("gs", "git status"), Some(10));
    // s after a letter earns no word bonus
    assert_eq!(fuzzy_match("gs", "gits"), Some(7));
}

#[test]
fn matching_ignores_case() {
    assert_eq!(fuzzy_match("LS", "ls"), Some(11));
    assert_eq!(fuzzy_match("ls", "LS"), Some(11));
}

#[test]
fn query_characters_must_keep_their_order() {
    assert_eq!(fuzzy_match("sl", "ls"), None);
    assert_eq!(fuzzy_match("lsx", "ls"), None);
    assert_eq!(fuzzy_match("ls", ""), None);
}

#[test]
fn exact_match_is_not_beaten_by_a_longer_target() {
    let exact = fuzzy_match("gst", "gst").unwrap();
    for t in ["git status", "gst-x", "g s t", "xgst", "gsst"] {
        if let Some(s) = fuzzy_match("gst", t) {
            assert!(s <= exact);
        }
    }
}

#[test]
fn fuzzy_score_on_prepared_characters() {
    let q: Vec<char> = "ab".chars().collect();
    let t: Vec<char> = "x-ab".chars().collect();
    let flags = vec![true, false, true, true];
    // a at 2 after '-': 1 + 3; b at 3: 1 + 2 (consecutive)
    assert_eq!(fuzzy_score(&q, &t, &flags), Some(7));
    let all_alnum = vec![true, true, true, true];
    assert_eq!(fuzzy_score(&q, &t, &all_alnum), Some(4));
    assert_eq!(fuzzy_score(&q, &t[..1], &flags[..1]), None);
}
