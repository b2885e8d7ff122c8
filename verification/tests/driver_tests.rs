use rust_cli_quickstart::driver::{
    advance, cleanup_plan, CleanupAction, Customizer, RunError, RunState, StepOutcome,
};
use rust_cli_quickstart::logger::RustCliQuickStartLogger;
use rust_cli_quickstart::names::derive_forms;
use rust_cli_quickstart::render::manifest_metadata;
use rust_cli_quickstart::driver::{render_file, rewrite_scaffold, ScaffoldRole};

#[test]
fn run_advances_phase_by_phase_on_success() {
    let mut s = RunState::NotStarted;
    s = advance(s, StepOutcome::Success);
    assert_eq!(s, RunState::Renaming);
    s = advance(s, StepOutcome::Success);
    assert_eq!(s, RunState::Rendering);
    s = advance(s, StepOutcome::Success);
    assert_eq!(s, RunState::CleaningUp);
    s = advance(s, StepOutcome::Success);
    assert_eq!(s, RunState::Done);
    s = advance(s, StepOutcome::Failure(RunError::FileNotFound));
    assert_eq!(s, RunState::Done);
}

#[test]
fn any_failure_ends_the_run() {
    for s in [
        RunState::NotStarted,
        RunState::Renaming,
        RunState::Rendering,
        RunState::CleaningUp,
    ] {
        assert_eq!(
            advance(s, StepOutcome::Failure(RunError::FileWriteFailed)),
            RunState::Failed
        );
    }
    assert_eq!(
        advance(RunState::Failed, StepOutcome::Success),
        RunState::Failed
    );
}

#[test]
fn confirmed_cleanup_plans_one_commit_last() {
    let plan = cleanup_plan(true, true);
    assert_eq!(
        plan,
        vec![
            CleanupAction::RemoveScript,
            CleanupAction::RemoveVcsDir,
            CleanupAction::VcsInit,
            CleanupAction::VcsAddAll,
            CleanupAction::VcsCommit,
        ]
    );
    let commits = plan
        .iter()
        .filter(|a| **a == CleanupAction::VcsCommit)
        .count();
    assert_eq!(commits, 1);
    assert_eq!(plan.last(), Some(&CleanupAction::VcsCommit));
}

#[test]
fn script_deletion_precedes_the_vcs_reset() {
    let plan = cleanup_plan(true, true);
    let del = plan
        .iter()
        .position(|a| *a == CleanupAction::RemoveScript)
        .unwrap();
    let init = plan
        .iter()
        .position(|a| *a == CleanupAction::VcsInit)
        .unwrap();
    assert!(del < init);
}

#[test]
fn vcs_reset_alone_still_commits_once() {
    let plan = cleanup_plan(false, true);
    assert_eq!(
        plan,
        vec![
            CleanupAction::RemoveVcsDir,
            CleanupAction::VcsInit,
            CleanupAction::VcsAddAll,
            CleanupAction::VcsCommit,
        ]
    );
}

#[test]
fn declining_both_confirmations_plans_nothing() {
    assert_eq!(cleanup_plan(false, false), Vec::<CleanupAction>::new());
}

#[test]
fn declining_the_reset_keeps_history_untouched() {
    let plan = cleanup_plan(true, false);
    assert_eq!(plan, vec![CleanupAction::RemoveScript]);
    assert!(!plan.contains(&CleanupAction::RemoveVcsDir));
    assert!(!plan.contains(&CleanupAction::VcsInit));
}

#[test]
fn customizer_and_logger_construct() {
    let _c = Customizer::new();
    let logger = RustCliQuickStartLogger::new();
    assert_eq!(logger.output_line(b"done"), b"done".to_vec());
    assert_eq!(logger.warning_line(b"careful"), b"warning: careful".to_vec());
    assert_eq!(logger.error_line(b"broken"), b"error: broken".to_vec());
}

#[test]
fn end_to_end_scenario_for_one_name() {
    let forms = derive_forms(b"my-cool-tool");
    assert_eq!(forms.snake, b"my_cool_tool".to_vec());
    assert_eq!(forms.pascal, b"MyCoolTool".to_vec());
    assert_eq!(forms.title, b"My Cool Tool".to_vec());
    assert_eq!(forms.kebab, b"my-cool-tool".to_vec());

    let bin = rewrite_scaffold(
        b"use rust_cli_quickstart::RustCliQuickStart;",
        ScaffoldRole::BinaryEntrypoint,
        &forms,
    );
    assert_eq!(bin, b"use my_cool_tool::MyCoolTool;".to_vec());

    let manifest = rewrite_scaffold(
        b"name = \"rust-cli-quickstart\"\ndescription = \"{{description}}\"\n",
        ScaffoldRole::Manifest,
        &forms,
    );
    let meta = manifest_metadata(b"A tool", b"Ada", b"Lovelace", b"ada@example.com", b"ada");
    let rendered = render_file(&manifest, &meta).unwrap();
    assert_eq!(
        rendered,
        b"name = \"my-cool-tool\"\ndescription = \"A tool\"\n".to_vec()
    );
}
