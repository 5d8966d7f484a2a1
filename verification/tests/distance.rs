use quickcheck::quickcheck;

fn edit_distance_unchecked(a: &str, b: &str) -> usize {
    edit_distance::edit_distance(a, b, usize::MAX).unwrap()
}

#[test]
fn simple() {
    assert_eq!(edit_distance_unchecked("kitten", "sitting"), 3);
    assert_eq!(edit_distance_unchecked("Tier", "Tor"), 2);
}

#[test]
fn same() {
    assert_eq!(edit_distance_unchecked("kitten", "kitten"), 0);
}

#[test]
fn empty_a() {
    assert_eq!(edit_distance_unchecked("", "kitten"), 6);
}

#[test]
fn empty_b() {
    assert_eq!(edit_distance_unchecked("sitting", ""), 7);
}

#[test]
fn empty_both() {
    assert_eq!(edit_distance_unchecked("", ""), 0);
}

#[test]
fn unicode_misc() {
    assert_eq!(edit_distance_unchecked("üö", "uo"), 2);
}

#[test]
fn unicode_thai() {
    assert_eq!(edit_distance_unchecked("ฎ ฏ ฐ", "a b c"), 3);
}

#[test]
fn unicode_misc_equal() {
    assert_eq!(edit_distance_unchecked("☀☂☃☄", "☀☂☃☄"), 0);
}

fn at_least_size_difference(a: String, b: String) -> bool {
    let size_a = a.chars().count();
    let size_b = b.chars().count();
    let diff = size_a.abs_diff(size_b);
    edit_distance_unchecked(&a, &b) >= diff
}

#[test]
fn at_least_size_difference_property() {
    quickcheck(at_least_size_difference as fn(a: String, b: String) -> bool);
}

fn at_most_size_of_longer(a: String, b: String) -> bool {
    let upper_bound = *[a.chars().count(), b.chars().count()].iter().max().unwrap();
    edit_distance_unchecked(&a, &b) <= upper_bound
}

#[test]
fn at_most_length_of_longer_property() {
    quickcheck(at_most_size_of_longer as fn(a: String, b: String) -> bool);
}

fn zero_iff_a_equals_b(a: String, b: String) -> bool {
    let d = edit_distance_unchecked(&a, &b);

    if a == b {
        d == 0
    } else {
        d > 0
    }
}

#[test]
fn zero_iff_a_equals_b_property() {
    quickcheck(zero_iff_a_equals_b as fn(a: String, b: String) -> bool);
}

fn triangle_inequality(a: String, b: String, c: String) -> bool {
    edit_distance_unchecked(&a, &b)
        <= edit_distance_unchecked(&a, &c) + edit_distance_unchecked(&b, &c)
}

#[test]
fn triangle_inequality_property() {
    quickcheck(triangle_inequality as fn(a: String, b: String, c: String) -> bool);
}

#[test]
fn symmetry_examples() {
    assert_eq!(
        edit_distance_unchecked("kitten", "sitting"),
        edit_distance_unchecked("sitting", "kitten")
    );
    assert_eq!(
        edit_distance_unchecked("Tier", "Tor"),
        edit_distance_unchecked("Tor", "Tier")
    );
}

#[test]
fn transposition_counts_one() {
    assert_eq!(edit_distance_unchecked("ab", "ba"), 1);
    assert_eq!(edit_distance_unchecked("abcd", "acbd"), 1);
}

#[test]
fn limit_boundary() {
    // the limit is honoured exactly: the true distance is returned at or
    // above it, absence below it
    assert_eq!(edit_distance::edit_distance("kitten", "sitting", 3), Some(3));
    assert_eq!(edit_distance::edit_distance("kitten", "sitting", 4), Some(3));
    assert_eq!(edit_distance::edit_distance("kitten", "sitting", 2), None);
    assert_eq!(edit_distance::edit_distance("kitten", "sitting", 0), None);
}

#[test]
fn triangle_inequality_examples() {
    let triples = [
        ("kitten", "sitting", "sitten"),
        ("", "abc", "ab"),
        ("Tier", "Tor", "Tor"),
        ("abcd", "acbd", "abc"),
    ];
    for (a, b, c) in triples {
        assert!(triangle_inequality(a.to_string(), b.to_string(), c.to_string()));
    }
}

#[test]
fn bounds_examples() {
    // at least the length difference, at most the longer length
    assert!(edit_distance_unchecked("a", "abcdef") >= 5);
    assert!(edit_distance_unchecked("a", "abcdef") <= 6);
    assert_eq!(edit_distance_unchecked("", "abcdef"), 6);
    assert_eq!(edit_distance_unchecked("xyz", "abc"), 3);
}

#[test]
fn substring_score_exact_substring_is_one() {
    // an exact substring relation with a moderate length difference scores 1
    assert_eq!(edit_distance::edit_distance_with_substrings("a", "ab", 5), Some(1));
    assert_eq!(edit_distance::edit_distance_with_substrings("abcd", "abcdef", 5), Some(1));
}

#[test]
fn substring_score_big_length_difference() {
    // one string less than half the other's length pays the difference back
    assert_eq!(edit_distance::edit_distance_with_substrings("ab", "abcdef", 10), Some(4));
}

#[test]
fn substring_score_moderate_difference_discounts() {
    // distance 2, length gap 1: score = (2 - 1) + ceil(1 / 2) = 2
    assert_eq!(edit_distance::edit_distance_with_substrings("ax", "abc", 9), Some(2));
}

#[test]
fn substring_score_respects_limit() {
    assert_eq!(edit_distance::edit_distance_with_substrings("a", "ab", 0), None);
    assert_eq!(edit_distance::edit_distance_with_substrings("abcd", "abcd", 0), Some(0));
}
