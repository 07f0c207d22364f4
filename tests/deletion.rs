use rmx::deletion::{answer_confirms, is_confirmed, plan_deletion, DeletePlan};
use rmx::DeleteOptions;

#[test]
fn delete_one_file() {
    let options = DeleteOptions { dry_run: false, force: true };

    assert_eq!(plan_deletion(1, &options), DeletePlan::Delete);
}

#[test]
fn delete_multiple_files() {
    let options = DeleteOptions { dry_run: false, force: true };

    assert_eq!(plan_deletion(2, &options), DeletePlan::Delete);
}

#[test]
fn delete_dry_run() {
    let options = DeleteOptions { dry_run: true, force: true };

    assert_eq!(plan_deletion(2, &options), DeletePlan::DryRun);
}

#[test]
fn empty_selection_is_a_no_op() {
    for force in [false, true] {
        for dry_run in [false, true] {
            let options = DeleteOptions { dry_run, force };
            assert_eq!(plan_deletion(0, &options), DeletePlan::NothingToDelete);
        }
    }
}

#[test]
fn dry_run_never_asks_or_deletes() {
    let options = DeleteOptions { dry_run: true, force: false };

    assert_eq!(plan_deletion(3, &options), DeletePlan::DryRun);
}

#[test]
fn without_force_the_count_is_confirmed_first() {
    let options = DeleteOptions { dry_run: false, force: false };

    assert_eq!(plan_deletion(7, &options), DeletePlan::Confirm(7));
}

#[test]
fn confirmation_answers() {
    assert!(is_confirmed(""));
    assert!(is_confirmed("\n"));
    assert!(is_confirmed("y\n"));
    assert!(is_confirmed("  Y \r\n"));
    assert!(!is_confirmed("n\n"));
    assert!(!is_confirmed("yes\n"));
    assert!(!is_confirmed("x"));
}

#[test]
fn trimmed_answers() {
    assert!(answer_confirms(""));
    assert!(answer_confirms("y"));
    assert!(answer_confirms("Y"));
    assert!(!answer_confirms("y "));
    assert!(!answer_confirms("N"));
    assert!(!answer_confirms("yy"));
}
