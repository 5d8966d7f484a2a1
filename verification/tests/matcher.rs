use edit_distance::find_best_match_for_name;
use edit_distance::find_best_match_for_name_impl;

#[test]
fn case_insensitive_exact_match() {
    let candidates = ["HELLO"];
    assert_eq!(find_best_match_for_name(&candidates, "hello", None), Some("HELLO"));
}

#[test]
fn case_insensitive_substring_match() {
    let candidates = ["abcdef"];
    assert_eq!(find_best_match_for_name(&candidates, "cde", None), Some("abcdef"));
    let candidates = ["cde"];
    assert_eq!(find_best_match_for_name(&candidates, "abcdef", None), Some("cde"));
}

#[test]
fn substring_tier_first_match_wins() {
    let candidates = ["xyz_cde", "cde"];
    assert_eq!(find_best_match_for_name(&candidates, "cde", None), Some("xyz_cde"));
}

#[test]
fn substring_tier_outranks_distance() {
    // the case-insensitive substring tier fires before any distance is
    // computed, so the contained candidate wins over the closer one
    let candidates = ["force_capture", "capture"];
    assert_eq!(find_best_match_for_name(&candidates, "forced_capture", None), Some("capture"));
}

#[test]
fn distance_tier_finds_close_candidate() {
    let candidates = ["kitten"];
    assert_eq!(find_best_match_for_name(&candidates, "sittin", Some(3)), Some("kitten"));
}

#[test]
fn distance_tier_respects_budget() {
    let candidates = ["abxx"];
    assert_eq!(find_best_match_for_name(&candidates, "abcd", Some(1)), None);
    assert_eq!(find_best_match_for_name(&candidates, "abcd", Some(2)), Some("abxx"));
}

#[test]
fn default_budget_is_a_third_of_the_lookup() {
    let candidates = ["abcd"];
    // two characters give a budget of one, and the distance is three
    assert_eq!(find_best_match_for_name(&candidates, "ax", None), None);
    assert_eq!(find_best_match_for_name(&candidates, "ax", Some(3)), Some("abcd"));
}

#[test]
fn shrinking_budget_keeps_first_best() {
    let candidates = ["abcx", "abxx"];
    assert_eq!(find_best_match_for_name(&candidates, "abcd", Some(3)), Some("abcx"));
    let candidates = ["abxx", "abcx"];
    assert_eq!(find_best_match_for_name(&candidates, "abcd", Some(3)), Some("abcx"));
}

#[test]
fn substring_mode_tie_break_prefers_first() {
    let candidates = ["abxd", "axcd"];
    assert_eq!(
        find_best_match_for_name_impl(true, &candidates, "abcd", None),
        Some("abxd")
    );
}

#[test]
fn substring_mode_better_score_clears_ties() {
    let candidates = ["abcdxx", "abcdex"];
    assert_eq!(
        find_best_match_for_name_impl(true, &candidates, "abcdef", None),
        Some("abcdex")
    );
}

#[test]
fn sorted_words_fallback() {
    let candidates = ["foo_bar"];
    assert_eq!(find_best_match_for_name(&candidates, "bar_foo", None), Some("foo_bar"));
}

#[test]
fn sorted_words_fallback_first_match_wins() {
    // both candidates hold the lookup's words; the first one is returned
    let candidates = ["cc_bb_aa", "bb_aa_cc"];
    assert_eq!(find_best_match_for_name(&candidates, "aa_bb_cc", None), Some("cc_bb_aa"));
}

#[test]
fn sorted_words_fallback_needs_equal_multisets() {
    let candidates = ["foo_foo_bar"];
    assert_eq!(find_best_match_for_name(&candidates, "bar_foo", None), None);
}

#[test]
fn default_budget_counts_characters_not_bytes() {
    // three two-byte characters give a budget of one, not two
    let candidates = ["üxx"];
    assert_eq!(find_best_match_for_name(&candidates, "üüü", None), None);
    assert_eq!(find_best_match_for_name(&candidates, "üüü", Some(2)), Some("üxx"));
}

#[test]
fn no_match_returns_none() {
    let candidates = ["zzz"];
    assert_eq!(find_best_match_for_name(&candidates, "abc", None), None);
    let empty: [&str; 0] = [];
    assert_eq!(find_best_match_for_name(&empty, "abc", None), None);
}
