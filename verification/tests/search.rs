use rcluster::buffered::matches_at;
use rcluster::buffered::search;

#[test]
fn search_finds_the_first_of_several() {
    assert_eq!(search(b"xxabxxabxx", b"ab"), Some(2));
    assert_eq!(search(b"abab", b"ab"), Some(0));
    assert_eq!(search(b"aaab", b"ab"), Some(2));
}

#[test]
fn search_finds_an_occurrence_at_the_very_end() {
    assert_eq!(search(b"0123456789", b"789"), Some(7));
    assert_eq!(search(b"789", b"789"), Some(0));
}

#[test]
fn search_finds_overlapping_occurrences_at_their_first_start() {
    assert_eq!(search(b"aaaaa", b"aaa"), Some(0));
    assert_eq!(search(b"xabababy", b"abab"), Some(1));
}

#[test]
fn search_gives_none_where_the_pattern_is_absent() {
    assert_eq!(search(b"0123456789", b"790"), None);
    assert_eq!(search(b"", b"a"), None);
    assert_eq!(search(b"ab", b"abc"), None);
}

#[test]
fn the_empty_pattern_stands_at_the_start() {
    assert_eq!(search(b"abc", b""), Some(0));
    assert_eq!(search(b"", b""), Some(0));
}

#[test]
fn matches_at_checks_one_place() {
    assert!(matches_at(b"xxabxx", b"ab", 2));
    assert!(!matches_at(b"xxabxx", b"ab", 1));
    assert!(!matches_at(b"xxabxx", b"ab", 3));
    assert!(matches_at(b"xxab", b"ab", 2));
    assert!(!matches_at(b"xxab", b"ab", 3));
    assert!(!matches_at(b"xxab", b"ab", 4));
    assert!(!matches_at(b"xxab", b"ab", 400));
    assert!(matches_at(b"xxab", b"", 4));
    assert!(!matches_at(b"xxab", b"", 5));
}
