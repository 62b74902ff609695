use flash_jump::matcher::{Entry, contains_query, find_matching_ids};

fn listing() -> Vec<Entry> {
    vec![
        Entry::new(0, String::from("foo.txt")),
        Entry::new(1, String::from("bar.txt")),
        Entry::new(2, String::from("foobar.txt")),
    ]
}

#[test]
fn test_contains_query_substring() {
    assert!(contains_query("foobar.txt", "oba"));
    assert!(contains_query("foobar.txt", "foobar.txt"));
    assert!(!contains_query("foobar.txt", "baz"));
}

#[test]
fn test_contains_query_empty_query_matches_everything() {
    assert!(contains_query("foo.txt", ""));
    assert!(contains_query("", ""));
}

#[test]
fn test_contains_query_longer_than_text() {
    assert!(!contains_query("fo", "foo"));
    assert!(!contains_query("", "a"));
}

#[test]
fn test_contains_query_is_case_sensitive() {
    assert!(!contains_query("foo.txt", "FOO"));
    assert!(!contains_query("FOO.TXT", "foo"));
    assert!(contains_query("Foo.txt", "Foo"));
}

#[test]
fn test_find_matching_ids_keeps_listing_order() {
    let entries = listing();
    assert_eq!(find_matching_ids(&entries, "foo"), vec![0, 2]);
    assert_eq!(find_matching_ids(&entries, "bar"), vec![1, 2]);
    assert_eq!(find_matching_ids(&entries, ".txt"), vec![0, 1, 2]);
    assert_eq!(find_matching_ids(&entries, "quux"), Vec::<usize>::new());
}
