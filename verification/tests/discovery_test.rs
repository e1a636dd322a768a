use stale::git_root_level;

#[test]
fn nearest_git_directory_is_the_root() {
    assert_eq!(git_root_level(&[false, true, true], None), Some(1));
    assert_eq!(git_root_level(&[true, false], None), Some(0));
}

#[test]
fn no_git_directory_means_no_root() {
    assert_eq!(git_root_level(&[false, false, false], None), None);
    assert_eq!(git_root_level(&[], None), None);
}

#[test]
fn search_stops_at_home() {
    // home is two levels up: a repository above it is not used
    assert_eq!(git_root_level(&[false, false, false, true], Some(2)), None);
    // a repository at home itself is used
    assert_eq!(git_root_level(&[false, false, true, true], Some(2)), Some(2));
    assert_eq!(git_root_level(&[false, true, false, true], Some(2)), Some(1));
}
