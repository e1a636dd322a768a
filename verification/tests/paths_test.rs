use stale::{expand_globs, select_files, sort_unique_paths, GlobFailure};

fn strings(v: &[&str]) -> Vec<String> {
    v.iter().map(|s| s.to_string()).collect()
}

#[test]
fn paths_sort_by_components() {
    let sorted = sort_unique_paths(&strings(&["a-b", "a/b", "a", "/z", "./c"]));
    assert_eq!(sorted, strings(&["/z", "./c", "a", "a/b", "a-b"]));
}

#[test]
fn paths_with_same_components_appear_once() {
    let sorted = sort_unique_paths(&strings(&["x/y", "a", "x//y", "x/y/", "a"]));
    assert_eq!(sorted, strings(&["a", "x/y"]));
}

#[test]
fn invalid_pattern_is_reported() {
    match expand_globs(&strings(&["ok/*.txt", "bad[pattern"])) {
        Err(GlobFailure::InvalidPattern(p)) => assert_eq!(p, "bad[pattern"),
        _ => panic!("expected an invalid pattern"),
    }
}

#[test]
fn pattern_matching_nothing_gives_no_files() {
    let files = expand_globs(&strings(&["/nonexistent-dir-for-stale-tests/*.txt"])).ok().unwrap();
    assert!(files.is_empty());
}

// The system's own account files stand in for files written by the test.
#[test]
fn test_expand_globs_matches_files() {
    let files = expand_globs(&strings(&["/etc/passw[d]", "/etc/grou[p]"])).ok().unwrap();
    assert_eq!(files.len(), 2);
    assert_eq!(files, strings(&["/etc/group", "/etc/passwd"]));
}

#[test]
fn test_expand_globs_deduplicates() {
    let pattern = "/etc/passw[d]".to_string();
    let files = expand_globs(&[pattern.clone(), pattern]).ok().unwrap();
    assert_eq!(files.len(), 1);
}

#[test]
fn globs_keep_only_regular_files_in_path_order() {
    let files = expand_globs(&strings(&["/etc/passw[d]", "/et[c]", "/etc/grou[p]"])).ok().unwrap();
    assert_eq!(files, strings(&["/etc/group", "/etc/passwd"]));
}

fn walk(entries: &[(&str, bool)]) -> Vec<Option<(String, bool)>> {
    entries.iter().map(|(p, f)| Some((p.to_string(), *f))).collect()
}

#[test]
fn selection_keeps_regular_files_sorted_once() {
    let walks = vec![
        walk(&[("b.txt", true), ("dir", false), ("a.txt", true)]),
        walk(&[("a.txt", true), ("c/d", true), ("c", false)]),
    ];
    assert_eq!(select_files(&walks).ok().unwrap(), strings(&["a.txt", "b.txt", "c/d"]));
}

#[test]
fn selection_of_no_walks_is_empty() {
    assert!(select_files(&[]).ok().unwrap().is_empty());
    assert!(expand_globs(&[]).ok().unwrap().is_empty());
}

#[test]
fn selection_stops_at_first_unreadable_walk() {
    let mut second = walk(&[("x", true)]);
    second.push(None);
    let mut third = walk(&[]);
    third.push(None);
    let walks = vec![walk(&[("a", true)]), second, third];
    assert_eq!(select_files(&walks), Err(1));
}
