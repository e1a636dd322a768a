use stale::{load_sum_entry, save_sum_entry};

#[test]
fn test_load_sum_entry_missing_file() {
    // A sum file that does not exist has no text.
    let result = load_sum_entry(None, "myname");
    assert!(result.is_none());
}

#[test]
fn test_save_and_load_sum_entry_roundtrip() {
    let contents = save_sum_entry(None, "myname", "deadbeef");
    let loaded = load_sum_entry(Some(&contents), "myname").unwrap();
    assert_eq!(loaded, "deadbeef");
}

#[test]
fn test_save_sum_entry_updates_existing() {
    let first = save_sum_entry(None, "myname", "aaa");
    let contents = save_sum_entry(Some(&first), "myname", "bbb");
    let loaded = load_sum_entry(Some(&contents), "myname").unwrap();
    assert_eq!(loaded, "bbb");
    // Only one entry should exist for this name.
    assert_eq!(contents.lines().count(), 1);
}

#[test]
fn test_sum_file_is_sorted() {
    // Insert in reverse alphabetical order.
    let a = save_sum_entry(None, "zebra", "hash-z");
    let b = save_sum_entry(Some(&a), "mango", "hash-m");
    let contents = save_sum_entry(Some(&b), "apple", "hash-a");
    let names: Vec<&str> = contents
        .lines()
        .filter_map(|l| l.split_once(' ').map(|(n, _)| n))
        .collect();
    assert_eq!(names, vec!["apple", "mango", "zebra"]);
}

#[test]
fn test_sum_file_multiple_entries() {
    let a = save_sum_entry(None, "alpha", "hash-a");
    let contents = save_sum_entry(Some(&a), "beta", "hash-b");
    assert_eq!(load_sum_entry(Some(&contents), "alpha").unwrap(), "hash-a");
    assert_eq!(load_sum_entry(Some(&contents), "beta").unwrap(), "hash-b");
}

#[test]
fn test_load_sum_entry_not_found() {
    let contents = save_sum_entry(None, "other", "hash-x");
    let result = load_sum_entry(Some(&contents), "missing");
    assert!(result.is_none());
}

#[test]
fn saved_file_text_is_exact() {
    let contents = save_sum_entry(None, "name", "hash");
    assert_eq!(contents, "name hash\n");
    let two = save_sum_entry(Some(&contents), "alpha", "h2");
    assert_eq!(two, "alpha h2\nname hash\n");
}

#[test]
fn load_skips_comments_and_blank_lines() {
    let text = "# name commented\n\n   \n  name   abc  extra\nname def\n";
    assert_eq!(load_sum_entry(Some(text), "name").unwrap(), "abc");
    assert!(load_sum_entry(Some(text), "#").is_none());
    assert!(load_sum_entry(Some(text), "extra").is_none());
}

#[test]
fn load_handles_crlf_and_tabs() {
    let text = "first\tone\r\nsecond two\r\n";
    assert_eq!(load_sum_entry(Some(text), "first").unwrap(), "one");
    assert_eq!(load_sum_entry(Some(text), "second").unwrap(), "two");
}

#[test]
fn load_ignores_lines_with_one_token() {
    let text = "lonely\nname hash";
    assert!(load_sum_entry(Some(text), "lonely").is_none());
    assert_eq!(load_sum_entry(Some(text), "name").unwrap(), "hash");
}

#[test]
fn save_drops_comments_and_keeps_other_entries() {
    let text = "# comment\nzeta z\nbeta b\nbroken\n";
    let contents = save_sum_entry(Some(text), "alpha", "a");
    assert_eq!(contents, "alpha a\nbeta b\nzeta z\n");
    assert_eq!(load_sum_entry(Some(&contents), "zeta").unwrap(), "z");
}

#[test]
fn save_keeps_order_of_repeated_names() {
    // Two entries for the same other name keep their order, so the first
    // one still wins on load.
    let text = "dup first\ndup second\n";
    let contents = save_sum_entry(Some(text), "aaa", "x");
    assert_eq!(contents, "aaa x\ndup first\ndup second\n");
    assert_eq!(load_sum_entry(Some(&contents), "dup").unwrap(), "first");
}

#[test]
fn save_sorts_by_bytes() {
    let a = save_sum_entry(None, "b", "1");
    let b = save_sum_entry(Some(&a), "B", "2");
    let c = save_sum_entry(Some(&b), "é", "3");
    assert_eq!(c, "B 2\nb 1\né 3\n");
}

#[test]
fn white_space_matches_std() {
    for u in 0u32..=0x10FFFF {
        if let Some(c) = char::from_u32(u) {
            assert_eq!(stale::text::white_space(c), c.is_whitespace(), "{u:#x}");
        }
    }
}

#[test]
fn other_entries_survive_any_spaceless_save() {
    let text = "a x\nb y\n";
    for (name, hash) in [("#c", "h"), ("", "h"), ("c", ""), ("", "")] {
        let contents = save_sum_entry(Some(text), name, hash);
        assert_eq!(load_sum_entry(Some(&contents), "a").unwrap(), "x");
        assert_eq!(load_sum_entry(Some(&contents), "b").unwrap(), "y");
    }
}
