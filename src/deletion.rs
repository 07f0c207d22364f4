//! Deciding what happens to the selected files: nothing, a question, or deletion.

use vstd::prelude::*;

use crate::arguments::DeleteOptions;
use crate::text::{trim, trimmed};

verus! {

/// What to do with a set of selected files.
#[derive(Clone, Copy, Debug, PartialEq, Eq, Structural)]
pub enum DeletePlan {
    /// Nothing was selected: say so and stop.
    NothingToDelete,
    /// A dry run: stop without asking or deleting.
    DryRun,
    /// Ask whether to delete the given number of files.
    Confirm(usize),
    /// Delete the files, one after the other.
    Delete,
}

/// The plan for `n_files` selected files under `options`.
pub open spec fn plan_for(n_files: nat, options: DeleteOptions) -> DeletePlan {
    if n_files == 0 {
        DeletePlan::NothingToDelete
    } else if options.dry_run {
        DeletePlan::DryRun
    } else if !options.force {
        DeletePlan::Confirm(n_files as usize)
    } else {
        DeletePlan::Delete
    }
}

/// Decides how `n_files` selected files are handled: nothing happens to an empty
/// selection or in a dry run; otherwise the user is asked first unless `force` is set.
pub fn plan_deletion(n_files: usize, options: &DeleteOptions) -> (r: DeletePlan)
    ensures
        r == plan_for(n_files as nat, *options),
{
    if n_files == 0 {
        DeletePlan::NothingToDelete
    } else if options.dry_run {
        DeletePlan::DryRun
    } else if !options.force {
        DeletePlan::Confirm(n_files)
    } else {
        DeletePlan::Delete
    }
}

/// An answer, once trimmed, confirms when it is empty, `y` or `Y`.
pub open spec fn confirms(trimmed: Seq<char>) -> bool {
    trimmed.len() == 0 || trimmed == seq!['y'] || trimmed == seq!['Y']
}

/// Whether an already trimmed answer confirms the deletion.
pub fn answer_confirms(trimmed_answer: &str) -> (r: bool)
    ensures
        r == confirms(trimmed_answer@),
{
    let n = trimmed_answer.unicode_len();
    if n == 0 {
        return true;
    }
    if n > 1 {
        assert(trimmed_answer@ != seq!['y'] && trimmed_answer@ != seq!['Y']) by {
            assert(seq!['y'].len() == 1);
            assert(seq!['Y'].len() == 1);
        }
        return false;
    }
    let c = trimmed_answer.get_char(0);
    if c == 'y' || c == 'Y' {
        assert(trimmed_answer@ =~= seq![c]);
        true
    } else {
        assert(trimmed_answer@ != seq!['y'] && trimmed_answer@ != seq!['Y']) by {
            assert(seq!['y'][0] == 'y');
            assert(seq!['Y'][0] == 'Y');
        }
        false
    }
}

/// Whether a line typed at the confirmation prompt confirms the deletion.
pub fn is_confirmed(answer: &str) -> (r: bool)
    ensures
        r == confirms(trimmed(answer@)),
{
    answer_confirms(trim(answer))
}

/// An empty selection is never deleted, never asked about, and ends in success.
pub proof fn lemma_empty_selection_is_no_op(options: DeleteOptions)
    ensures
        plan_for(0, options) == DeletePlan::NothingToDelete,
{
}

/// A dry run neither asks nor deletes, whatever `force` says.
pub proof fn lemma_dry_run_never_deletes(n_files: nat, options: DeleteOptions)
    requires
        options.dry_run,
    ensures
        plan_for(n_files, options) != DeletePlan::Delete,
        !(plan_for(n_files, options) is Confirm),
{
}

/// With `force`, a non-empty selection outside a dry run is deleted without asking.
pub proof fn lemma_force_deletes_without_asking(n_files: nat, options: DeleteOptions)
    requires
        options.force,
        !options.dry_run,
        n_files > 0,
    ensures
        plan_for(n_files, options) == DeletePlan::Delete,
{
}

} // verus!
