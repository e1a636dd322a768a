use stale::{compute_hash, compute_hash_verbose, derive_name, FileInput};

fn file(path: &str, contents: &[u8]) -> FileInput {
    FileInput { path: path.to_string(), contents: contents.to_vec() }
}

#[test]
fn test_compute_hash_empty_list() {
    let hash = compute_hash(&[], &[]);
    assert_eq!(hash.len(), 64);
}

#[test]
fn test_compute_hash_deterministic() {
    let files = vec![file("/tmp/f1", b"hello"), file("/tmp/f2", b"world")];
    let h1 = compute_hash(&files, &[]);
    let h2 = compute_hash(&files, &[]);
    assert_eq!(h1, h2);
}

#[test]
fn test_compute_hash_changes_on_content_change() {
    let h1 = compute_hash(&[file("/tmp/f", b"v1")], &[]);
    let h2 = compute_hash(&[file("/tmp/f", b"v2")], &[]);
    assert_ne!(h1, h2);
}

#[test]
fn test_compute_hash_with_extra_strings() {
    let files = vec![file("/tmp/f", b"hello")];
    let h1 = compute_hash(&files, &[]);
    let h2 = compute_hash(&files, &["extra".to_string()]);
    assert_ne!(h1, h2, "extra strings should change the hash");
}

#[test]
fn test_compute_hash_extra_strings_deterministic() {
    let files = vec![file("/tmp/f", b"hello")];
    let strings = vec!["v1.0.0".to_string()];
    let h1 = compute_hash(&files, &strings);
    let h2 = compute_hash(&files, &strings);
    assert_eq!(h1, h2, "same strings should produce the same hash");
}

#[test]
fn test_compute_hash_different_strings_different_hash() {
    let files = vec![file("/tmp/f", b"hello")];
    let h1 = compute_hash(&files, &["v1".to_string()]);
    let h2 = compute_hash(&files, &["v2".to_string()]);
    assert_ne!(h1, h2, "different strings should produce different hashes");
}

#[test]
fn test_compute_hash_verbose_with_extra_strings() {
    let files = vec![file("/tmp/f", b"hello")];
    let (h1, _) = compute_hash_verbose(&files, &[]);
    let (h2, _) = compute_hash_verbose(&files, &["extra".to_string()]);
    assert_ne!(h1, h2, "extra strings should change the verbose hash");
}

#[test]
fn test_compute_hash_strings_only() {
    let h1 = compute_hash(&[], &["version=1.0".to_string()]);
    let h2 = compute_hash(&[], &["version=2.0".to_string()]);
    assert_ne!(h1, h2, "different strings-only hashes should differ");
    assert_eq!(h1.len(), 64);
}

#[test]
fn test_derive_name_stable() {
    let patterns = vec!["src/**/*.rs".to_string(), "tests/**".to_string()];
    let n1 = derive_name(&patterns, &[]);
    let n2 = derive_name(&patterns, &[]);
    assert_eq!(n1, n2);
    assert_eq!(n1.len(), 12);
}

#[test]
fn test_derive_name_order_independent() {
    let a = derive_name(&["src/**".to_string(), "tests/**".to_string()], &[]);
    let b = derive_name(&["tests/**".to_string(), "src/**".to_string()], &[]);
    assert_eq!(a, b);
}

#[test]
fn test_derive_name_with_strings() {
    let patterns = vec!["src/**".to_string()];
    let n1 = derive_name(&patterns, &[]);
    let n2 = derive_name(&patterns, &["v1.0.0".to_string()]);
    assert_ne!(n1, n2, "extra strings should change the derived name");
    assert_eq!(n2.len(), 12);
}

#[test]
fn empty_hash_is_digest_of_nothing() {
    assert_eq!(
        compute_hash(&[], &[]),
        "e3b0c44298fc1c149afbf4c8996fb92427ae41e4649b934ca495991b7852b855"
    );
}

#[test]
fn hash_feeds_path_contents_and_strings() {
    assert_eq!(
        compute_hash(&[file("a.txt", b"hello")], &[]),
        "3cb3fd4eec476f06fa7b3f636359420c227a672ebf7a17c6b735ac26aec394cb"
    );
    assert_eq!(
        compute_hash(&[file("a.txt", b"hello")], &["v1".to_string()]),
        "025559f9b897f61a98864a459e4123c86a17b5a5e3d4fdcd352f38bcbc65a8d7"
    );
    assert_eq!(
        compute_hash(&[], &["version=1.0".to_string()]),
        "711744663dfe6d401670c8d3538dad7822c15412f72e31f8abe8526ccddcd99a"
    );
}

#[test]
fn derived_names_have_exact_values() {
    assert_eq!(derive_name(&["src/**".to_string()], &[]), "8f85a5c9f62a");
    assert_eq!(
        derive_name(&["tests/**".to_string(), "src/**".to_string()], &[]),
        "5bc0fcff258b"
    );
    assert_eq!(derive_name(&["src/**".to_string()], &["v1.0.0".to_string()]), "2d432818c2ff");
}

#[test]
fn verbose_hash_matches_plain_hash_and_lists_digests() {
    let files = vec![file("b.txt", b"hello"), file("a.txt", b"x"), file("b.txt", b"hello")];
    let (combined, listing) = compute_hash_verbose(&files, &["s".to_string()]);
    assert_eq!(combined, compute_hash(&files, &["s".to_string()]));
    let paths: Vec<&str> = listing.iter().map(|(p, _)| p.as_str()).collect();
    assert_eq!(paths, vec!["a.txt", "b.txt"]);
    assert_eq!(
        listing[1].1,
        "2cf24dba5fb0a30e26e83b2ac5b9e29e1b161e5c1fa7425e73043362938b9824"
    );
}

#[test]
fn verbose_listing_keeps_last_digest_of_a_path() {
    let files = vec![file("f", b"hello"), file("f", b"")];
    let (_, listing) = compute_hash_verbose(&files, &[]);
    assert_eq!(listing.len(), 1);
    assert_eq!(
        listing[0].1,
        "e3b0c44298fc1c149afbf4c8996fb92427ae41e4649b934ca495991b7852b855"
    );
}

#[test]
fn renaming_a_file_changes_the_hash() {
    let h1 = compute_hash(&[file("a.txt", b"same"), file("c.txt", b"other")], &[]);
    let h2 = compute_hash(&[file("b.txt", b"same"), file("c.txt", b"other")], &[]);
    let h3 = compute_hash(&[file("a.txt.bak", b"same"), file("c.txt", b"other")], &[]);
    assert_ne!(h1, h2);
    assert_ne!(h1, h3);
}

#[test]
fn changing_any_file_changes_the_hash() {
    let h1 = compute_hash(&[file("a", b"1"), file("b", b"x")], &["s".to_string()]);
    let h2 = compute_hash(&[file("a", b"1"), file("b", b"xx")], &["s".to_string()]);
    let h3 = compute_hash(&[file("a", b"2"), file("b", b"x")], &["s".to_string()]);
    assert_ne!(h1, h2);
    assert_ne!(h1, h3);
}

#[test]
fn file_order_does_not_change_the_hash() {
    let a = || file("src/a.rs", b"fn a() {}");
    let b = || file("src/b.rs", b"fn b() {}");
    let c = || file("README", b"text");
    let h1 = compute_hash(&[a(), b(), c()], &["s".to_string()]);
    let h2 = compute_hash(&[c(), b(), a()], &["s".to_string()]);
    assert_eq!(h1, h2);
}

#[test]
fn files_are_hashed_in_path_order() {
    // "a/b" comes before "a-b" in path order though '-' is below '/'.
    let sorted = compute_hash(&[file("a/b", b"1"), file("a-b", b"2")], &[]);
    let reversed = compute_hash(&[file("a-b", b"2"), file("a/b", b"1")], &[]);
    assert_eq!(sorted, reversed);
    assert_eq!(sorted, "ac2cae8ac3fb6d9f9e3ff98d8b21c3f6a9a1a79c20e8b9e03d96c660332e3e65");
}
