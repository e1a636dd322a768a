use stale::{
    compute_hash, derive_name, expand_globs, finish_run, load_sum_entry, plan_exit_code, plan_run,
    save_sum_entry, FileInput, RunPlan,
};

fn file(path: &str, contents: &[u8]) -> FileInput {
    FileInput { path: path.to_string(), contents: contents.to_vec() }
}

fn patterns() -> Vec<String> {
    vec!["/tmp/guard/*.txt".to_string()]
}

#[test]
fn exits_1_when_files_changed_no_command() {
    let current = compute_hash(&[file("/tmp/guard/file.txt", b"hello")], &[]);
    let name = derive_name(&patterns(), &[]);
    let stored = load_sum_entry(None, &name);
    let plan = plan_run(&stored, &current, false, false);
    assert_eq!(plan, RunPlan::ReportChanged);
    assert_eq!(plan_exit_code(plan), Some(1), "should exit 1 (files changed, no stored state)");
}

#[test]
fn exits_0_after_state_is_saved_no_command() {
    let current = compute_hash(&[file("/tmp/guard/file.txt", b"hello")], &[]);
    let name = derive_name(&patterns(), &[]);
    // A first run with a succeeding command saves the hash.
    assert_eq!(plan_run(&None, &current, false, true), RunPlan::RunCommand);
    let (save, code) = finish_run(true, Some(0));
    assert!(save);
    assert_eq!(code, 0);
    let sum = save_sum_entry(None, &name, &current);
    let stored = load_sum_entry(Some(&sum), &name);
    let plan = plan_run(&stored, &current, false, false);
    assert_eq!(plan_exit_code(plan), Some(0), "should exit 0 (files unchanged)");
}

#[test]
fn runs_command_when_files_changed() {
    let current = compute_hash(&[file("/tmp/guard/input.txt", b"data")], &[]);
    assert_eq!(plan_run(&None, &current, false, true), RunPlan::RunCommand);
    assert_eq!(plan_exit_code(RunPlan::RunCommand), None);
}

#[test]
fn skips_command_when_files_unchanged() {
    let current = compute_hash(&[file("/tmp/guard/input.txt", b"data")], &[]);
    let name = derive_name(&patterns(), &[]);
    let sum = save_sum_entry(None, &name, &current);
    let stored = load_sum_entry(Some(&sum), &name);
    let plan = plan_run(&stored, &current, false, true);
    assert_eq!(plan, RunPlan::Skip, "command should have been skipped");
    assert_eq!(plan_exit_code(plan), Some(0));
}

#[test]
fn reruns_command_when_files_change() {
    let name = derive_name(&patterns(), &[]);
    let before = compute_hash(&[file("/tmp/guard/input.txt", b"v1")], &[]);
    let sum = save_sum_entry(None, &name, &before);
    let after = compute_hash(&[file("/tmp/guard/input.txt", b"v2")], &[]);
    let stored = load_sum_entry(Some(&sum), &name);
    assert_eq!(
        plan_run(&stored, &after, false, true),
        RunPlan::RunCommand,
        "command should have re-executed after file change"
    );
}

#[test]
fn does_not_save_state_when_command_fails() {
    let (save, code) = finish_run(false, Some(1));
    assert_ne!(code, 0, "expected non-zero exit from failing command");
    assert!(!save, "state should not be saved after failure");
    assert_eq!(finish_run(false, Some(3)), (false, 3));
    assert_eq!(finish_run(false, None), (false, 1));
    assert_eq!(finish_run(true, Some(0)), (true, 0));
}

#[test]
fn force_flag_runs_command_even_when_unchanged() {
    let current = compute_hash(&[file("/tmp/guard/input.txt", b"hello")], &[]);
    let name = derive_name(&patterns(), &[]);
    let sum = save_sum_entry(None, &name, &current);
    let stored = load_sum_entry(Some(&sum), &name);
    assert_eq!(plan_run(&stored, &current, false, true), RunPlan::Skip);
    assert_eq!(
        plan_run(&stored, &current, true, true),
        RunPlan::RunCommand,
        "--force should bypass the hash check"
    );
}

#[test]
fn warns_when_no_files_matched() {
    let files = expand_globs(&["/nonexistent-dir-for-stale-tests/*.rs".to_string()]).ok().unwrap();
    assert!(files.is_empty());
    let current = compute_hash(&[], &[]);
    let plan = plan_run(&None, &current, false, false);
    assert_eq!(
        plan_exit_code(plan),
        Some(1),
        "should exit 1 (effectively 'changed' with no prior state)"
    );
}
