//! The decisions of one run: whether to skip the command, report a change,
//! or run the command, and what a finished command leaves behind.
use vstd::prelude::*;
use crate::digest::is_hex_text;
use crate::sumfile::{is_entry, lookup_entry, render_entries, sum_entries, updated_entries};

verus! {

/// What a run does once the current hash is known.
#[derive(Clone, Copy, PartialEq, Eq, Structural, Debug)]
pub enum RunPlan {
    /// Files unchanged (and no `--force`): exit 0 without running anything.
    Skip,
    /// Files changed but no command was given: exit 1.
    ReportChanged,
    /// Run the command.
    RunCommand,
}

pub open spec fn planned(stored: Option<Seq<char>>, current: Seq<char>, force: bool, has_command: bool) -> RunPlan {
    if stored == Some(current) && !force {
        RunPlan::Skip
    } else if !has_command {
        RunPlan::ReportChanged
    } else {
        RunPlan::RunCommand
    }
}

pub open spec fn stored_view(stored: &Option<String>) -> Option<Seq<char>> {
    match stored {
        Some(s) => Some(s@),
        None => None,
    }
}

/// Decides a run from the stored hash (if any), the current hash, whether
/// `--force` was given and whether there is a command: unchanged files are
/// skipped unless forced; otherwise a command runs, or the change is
/// reported when there is none.
pub fn plan_run(stored: &Option<String>, current: &String, force: bool, has_command: bool) -> (r: RunPlan)
    ensures
        r == planned(stored_view(stored), current@, force, has_command),
        r == RunPlan::Skip <==> (stored_view(stored) == Some(current@) && !force),
        r == RunPlan::ReportChanged <==> (!has_command && (stored_view(stored) != Some(current@) || force)),
        r == RunPlan::RunCommand <==> (has_command && (stored_view(stored) != Some(current@) || force)),
{
    let unchanged = match stored {
        Some(s) => *s == *current,
        None => false,
    };
    if unchanged && !force {
        RunPlan::Skip
    } else if !has_command {
        RunPlan::ReportChanged
    } else {
        RunPlan::RunCommand
    }
}

/// The exit code of a run that ends without running a command: 0 when
/// skipped, 1 when a change is reported; none when the command is to run,
/// since the command's own code decides then.
pub fn plan_exit_code(plan: RunPlan) -> (r: Option<i32>)
    ensures
        plan == RunPlan::Skip ==> r == Some(0i32),
        plan == RunPlan::ReportChanged ==> r == Some(1i32),
        plan == RunPlan::RunCommand ==> r is None,
{
    match plan {
        RunPlan::Skip => Some(0),
        RunPlan::ReportChanged => Some(1),
        RunPlan::RunCommand => None,
    }
}

/// What a finished command leaves: the new hash is saved only when the
/// command succeeded, and the run exits with the command's code, or 1 when
/// the command ended without one (killed by a signal).
pub fn finish_run(success: bool, code: Option<i32>) -> (r: (bool, i32))
    ensures
        r.0 == success,
        r.1 == match code {
            Some(c) => c,
            None => 1,
        },
{
    let exit = match code {
        Some(c) => c,
        None => 1,
    };
    (success, exit)
}


/// Once a command has succeeded and its hash is saved under `name`, the next
/// run under that name is skipped exactly when the files and strings give the
/// same hash again (and `--force` is not given).
pub proof fn law_saved_hash_decides_next_run(
    existing: Option<Seq<char>>,
    name: Seq<char>,
    hash: Seq<char>,
    current: Seq<char>,
    has_command: bool,
)
    requires
        is_entry((name, hash)),
    ensures
        (planned(
            lookup_entry(sum_entries(render_entries(updated_entries(existing, name, hash))), name),
            current,
            false,
            has_command,
        ) == RunPlan::Skip) <==> current == hash,
{
    crate::sumfile::law_load_after_save(existing, name, hash);
}



/// Texts of lowercase hex digits, such as the derived names and the hashes
/// of runs, can be stored in a sum file as name and hash, so the laws of the
/// sum file hold for the entries that runs save by default.
pub proof fn law_hex_entries_can_be_stored(name: Seq<char>, hash: Seq<char>)
    requires
        name.len() > 0,
        hash.len() > 0,
        is_hex_text(name),
        is_hex_text(hash),
    ensures
        is_entry((name, hash)),
{
}


/// A run skips exactly when the stored hash is the current one and `--force`
/// is not given; otherwise it runs the command when there is one and reports
/// the change when there is none, whatever hash is stored.
pub proof fn law_plan_follows_hash_force_and_command(
    stored: Option<Seq<char>>,
    current: Seq<char>,
    force: bool,
    has_command: bool,
)
    ensures
        planned(stored, current, force, has_command) == RunPlan::Skip <==> (stored == Some(current) && !force),
        !has_command ==> planned(stored, current, force, has_command) != RunPlan::RunCommand,
        has_command ==> planned(stored, current, force, has_command) != RunPlan::ReportChanged,
        force ==> planned(stored, current, force, has_command) != RunPlan::Skip,
{
}

/// The exit code of a run without a command tells unchanged files (0) from
/// changed ones (1), whatever hash is stored.
pub proof fn law_exit_code_without_command(stored: Option<Seq<char>>, current: Seq<char>)
    ensures
        planned(stored, current, false, false) == RunPlan::Skip <==> stored == Some(current),
        planned(stored, current, false, false) != RunPlan::Skip ==> planned(stored, current, false, false)
            == RunPlan::ReportChanged,
{
}

} // verus!
