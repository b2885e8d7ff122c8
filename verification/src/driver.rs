//! Customization Driver: the scaffold roles with their fixed tokens and
//! paths, the run state machine, and the cleanup plan.

use vstd::prelude::*;

use crate::names::{NamingForms, NamingFormsView};
use crate::render::{render, rendered, Metadata};
use crate::subst::{replace_all, replaced};

verus! {

// ---------------------------------------------------------------------------
// The fixed scaffold tokens and paths.
// ---------------------------------------------------------------------------

/// The default snake-case identifier the scaffold ships with.
pub open spec fn snake_token() -> Seq<u8> {
    seq![
        114u8, 117u8, 115u8, 116u8, 95u8, 99u8, 108u8, 105u8, 95u8, 113u8, 117u8, 105u8, 99u8, 107u8, 115u8,
        116u8, 97u8, 114u8, 116u8,
    ]
}

/// The default pascal-case type name the scaffold ships with.
pub open spec fn pascal_token() -> Seq<u8> {
    seq![
        82u8, 117u8, 115u8, 116u8, 67u8, 108u8, 105u8, 81u8, 117u8, 105u8, 99u8, 107u8, 83u8, 116u8, 97u8,
        114u8, 116u8,
    ]
}

/// The default kebab-case identifier the scaffold ships with.
pub open spec fn kebab_token() -> Seq<u8> {
    seq![
        114u8, 117u8, 115u8, 116u8, 45u8, 99u8, 108u8, 105u8, 45u8, 113u8, 117u8, 105u8, 99u8, 107u8, 115u8,
        116u8, 97u8, 114u8, 116u8,
    ]
}

/// The default snake-case identifier, as bytes.
pub fn snake_token_bytes() -> (r: Vec<u8>)
    ensures
        r@ == snake_token(),
{
    let r: Vec<u8> = vec![
        114u8, 117u8, 115u8, 116u8, 95u8, 99u8, 108u8, 105u8, 95u8, 113u8, 117u8, 105u8, 99u8, 107u8, 115u8,
        116u8, 97u8, 114u8, 116u8,
    ];
    proof {
        assert(r@ =~= snake_token());
    }
    r
}

/// The default pascal-case type name, as bytes.
pub fn pascal_token_bytes() -> (r: Vec<u8>)
    ensures
        r@ == pascal_token(),
{
    let r: Vec<u8> = vec![
        82u8, 117u8, 115u8, 116u8, 67u8, 108u8, 105u8, 81u8, 117u8, 105u8, 99u8, 107u8, 83u8, 116u8, 97u8,
        114u8, 116u8,
    ];
    proof {
        assert(r@ =~= pascal_token());
    }
    r
}

/// The default kebab-case identifier, as bytes.
pub fn kebab_token_bytes() -> (r: Vec<u8>)
    ensures
        r@ == kebab_token(),
{
    let r: Vec<u8> = vec![
        114u8, 117u8, 115u8, 116u8, 45u8, 99u8, 108u8, 105u8, 45u8, 113u8, 117u8, 105u8, 99u8, 107u8, 115u8,
        116u8, 97u8, 114u8, 116u8,
    ];
    proof {
        assert(r@ =~= kebab_token());
    }
    r
}

/// The directory that holds the binary entrypoint: `src/bin/`.
pub open spec fn bin_dir() -> Seq<u8> {
    seq![115u8, 114u8, 99u8, 47u8, 98u8, 105u8, 110u8, 47u8]
}

/// The Rust source extension: `.rs`.
pub open spec fn rs_ext() -> Seq<u8> {
    seq![46u8, 114u8, 115u8]
}

/// The path the binary entrypoint ships at.
pub open spec fn default_bin_path() -> Seq<u8> {
    bin_dir() + snake_token() + rs_ext()
}

/// The path the binary entrypoint moves to for a given snake-case name.
pub open spec fn bin_path_for(snake: Seq<u8>) -> Seq<u8> {
    bin_dir() + snake + rs_ext()
}

/// Build the relocation target of the binary entrypoint from the snake-case
/// name.
pub fn bin_target_path(snake: &[u8]) -> (r: Vec<u8>)
    ensures
        r@ == bin_path_for(snake@),
{
    let mut r: Vec<u8> = vec![115u8, 114u8, 99u8, 47u8, 98u8, 105u8, 110u8, 47u8];
    proof {
        assert(r@ =~= bin_dir());
    }
    crate::ascii::push_all(&mut r, snake);
    r.push(46u8);
    r.push(114u8);
    r.push(115u8);
    proof {
        assert(r@ =~= bin_dir() + snake@ + rs_ext());
    }
    r
}

/// A scaffold file, identified by its role.
#[derive(Clone, Copy, PartialEq, Eq, Structural, Debug)]
pub enum ScaffoldRole {
    BinaryEntrypoint,
    LibraryRoot,
    BenchmarkEntrypoint,
    Manifest,
    EditorConfig,
    Readme,
}

/// The path of each scaffold file, relative to the project root. The binary
/// entrypoint's path is its default, pre-relocation one.
pub open spec fn scaffold_path(role: ScaffoldRole) -> Seq<u8> {
    match role {
        ScaffoldRole::BinaryEntrypoint => default_bin_path(),
        ScaffoldRole::LibraryRoot => seq![
            115u8, 114u8, 99u8, 47u8, 108u8, 105u8, 98u8, 46u8, 114u8, 115u8,
        ],
        ScaffoldRole::BenchmarkEntrypoint => seq![
            98u8, 101u8, 110u8, 99u8, 104u8, 101u8, 115u8, 47u8, 98u8, 101u8, 110u8, 99u8, 104u8, 109u8,
            97u8, 114u8, 107u8, 115u8, 46u8, 114u8, 115u8,
        ],
        ScaffoldRole::Manifest => seq![
            67u8, 97u8, 114u8, 103u8, 111u8, 46u8, 116u8, 111u8, 109u8, 108u8,
        ],
        ScaffoldRole::EditorConfig => seq![
            46u8, 118u8, 115u8, 99u8, 111u8, 100u8, 101u8, 47u8, 108u8, 97u8, 117u8, 110u8, 99u8, 104u8,
            46u8, 106u8, 115u8, 111u8, 110u8,
        ],
        ScaffoldRole::Readme => seq![
            82u8, 69u8, 65u8, 68u8, 77u8, 69u8, 46u8, 109u8, 100u8,
        ],
    }
}

/// The path of one scaffold file, as bytes.
pub fn scaffold_path_bytes(role: ScaffoldRole) -> (r: Vec<u8>)
    ensures
        r@ == scaffold_path(role),
{
    match role {
        ScaffoldRole::BinaryEntrypoint => {
            let snake = snake_token_bytes();
            bin_target_path(snake.as_slice())
        },
        ScaffoldRole::LibraryRoot => {
            let r: Vec<u8> = vec![115u8, 114u8, 99u8, 47u8, 108u8, 105u8, 98u8, 46u8, 114u8, 115u8];
            proof {
                assert(r@ =~= scaffold_path(role));
            }
            r
        },
        ScaffoldRole::BenchmarkEntrypoint => {
            let r: Vec<u8> = vec![
                98u8, 101u8, 110u8, 99u8, 104u8, 101u8, 115u8, 47u8, 98u8, 101u8, 110u8, 99u8, 104u8, 109u8,
                97u8, 114u8, 107u8, 115u8, 46u8, 114u8, 115u8,
            ];
            proof {
                assert(r@ =~= scaffold_path(role));
            }
            r
        },
        ScaffoldRole::Manifest => {
            let r: Vec<u8> = vec![67u8, 97u8, 114u8, 103u8, 111u8, 46u8, 116u8, 111u8, 109u8, 108u8];
            proof {
                assert(r@ =~= scaffold_path(role));
            }
            r
        },
        ScaffoldRole::EditorConfig => {
            let r: Vec<u8> = vec![
                46u8, 118u8, 115u8, 99u8, 111u8, 100u8, 101u8, 47u8, 108u8, 97u8, 117u8, 110u8, 99u8, 104u8,
                46u8, 106u8, 115u8, 111u8, 110u8,
            ];
            proof {
                assert(r@ =~= scaffold_path(role));
            }
            r
        },
        ScaffoldRole::Readme => {
            let r: Vec<u8> = vec![82u8, 69u8, 65u8, 68u8, 77u8, 69u8, 46u8, 109u8, 100u8];
            proof {
                assert(r@ =~= scaffold_path(role));
            }
            r
        },
    }
}

/// The path of the customization tooling itself.
pub open spec fn script_path() -> Seq<u8> {
    seq![99u8, 117u8, 115u8, 116u8, 111u8, 109u8, 105u8, 122u8, 101u8, 46u8, 114u8, 115u8]
}

/// The path of the customization tooling, as bytes.
pub fn script_path_bytes() -> (r: Vec<u8>)
    ensures
        r@ == script_path(),
{
    let r: Vec<u8> = vec![
        99u8, 117u8, 115u8, 116u8, 111u8, 109u8, 105u8, 122u8, 101u8, 46u8, 114u8, 115u8,
    ];
    proof {
        assert(r@ =~= script_path());
    }
    r
}

/// The version-control metadata directory.
pub open spec fn vcs_dir_path() -> Seq<u8> {
    seq![46u8, 103u8, 105u8, 116u8]
}

/// The version-control metadata directory, as bytes.
pub fn vcs_dir_path_bytes() -> (r: Vec<u8>)
    ensures
        r@ == vcs_dir_path(),
{
    let r: Vec<u8> = vec![46u8, 103u8, 105u8, 116u8];
    proof {
        assert(r@ =~= vcs_dir_path());
    }
    r
}

// ---------------------------------------------------------------------------
// The substitution table: which token is rewritten to which naming form in
// which scaffold file.
// ---------------------------------------------------------------------------

/// The naming form a token is replaced with.
#[derive(Clone, Copy, PartialEq, Eq, Structural, Debug)]
pub enum FormField {
    Snake,
    Pascal,
    Kebab,
}

/// The value of one naming form.
pub open spec fn field_of(f: NamingFormsView, field: FormField) -> Seq<u8> {
    match field {
        FormField::Snake => f.snake,
        FormField::Pascal => f.pascal,
        FormField::Kebab => f.kebab,
    }
}

/// Read one naming form.
pub fn form_field<'a>(forms: &'a NamingForms, field: FormField) -> (r: &'a Vec<u8>)
    ensures
        r@ == field_of(forms@, field),
{
    match field {
        FormField::Snake => &forms.snake,
        FormField::Pascal => &forms.pascal,
        FormField::Kebab => &forms.kebab,
    }
}

/// The substitutions each scaffold file gets, in order: every file rewrites
/// the default snake and pascal tokens that occur in it, and the manifest
/// additionally rewrites the default kebab token.
pub open spec fn subst_table(role: ScaffoldRole) -> Seq<(Seq<u8>, FormField)> {
    match role {
        ScaffoldRole::BinaryEntrypoint => seq![
            (snake_token(), FormField::Snake),
            (pascal_token(), FormField::Pascal),
        ],
        ScaffoldRole::LibraryRoot => seq![(pascal_token(), FormField::Pascal)],
        ScaffoldRole::BenchmarkEntrypoint => seq![
            (snake_token(), FormField::Snake),
            (pascal_token(), FormField::Pascal),
        ],
        ScaffoldRole::Manifest => seq![
            (snake_token(), FormField::Snake),
            (kebab_token(), FormField::Kebab),
            (pascal_token(), FormField::Pascal),
        ],
        ScaffoldRole::EditorConfig => seq![
            (snake_token(), FormField::Snake),
            (pascal_token(), FormField::Pascal),
        ],
        ScaffoldRole::Readme => Seq::empty(),
    }
}

/// The substitutions of one scaffold file, as data.
pub fn substitutions_for(role: ScaffoldRole) -> (r: Vec<(Vec<u8>, FormField)>)
    ensures
        r@.map_values(|p: (Vec<u8>, FormField)| (p.0@, p.1)) == subst_table(role),
{
    let mut r: Vec<(Vec<u8>, FormField)> = Vec::new();
    match role {
        ScaffoldRole::BinaryEntrypoint => {
            r.push((snake_token_bytes(), FormField::Snake));
            r.push((pascal_token_bytes(), FormField::Pascal));
        },
        ScaffoldRole::LibraryRoot => {
            r.push((pascal_token_bytes(), FormField::Pascal));
        },
        ScaffoldRole::BenchmarkEntrypoint => {
            r.push((snake_token_bytes(), FormField::Snake));
            r.push((pascal_token_bytes(), FormField::Pascal));
        },
        ScaffoldRole::Manifest => {
            r.push((snake_token_bytes(), FormField::Snake));
            r.push((kebab_token_bytes(), FormField::Kebab));
            r.push((pascal_token_bytes(), FormField::Pascal));
        },
        ScaffoldRole::EditorConfig => {
            r.push((snake_token_bytes(), FormField::Snake));
            r.push((pascal_token_bytes(), FormField::Pascal));
        },
        ScaffoldRole::Readme => {},
    }
    proof {
        assert(r@.map_values(|p: (Vec<u8>, FormField)| (p.0@, p.1)) =~= subst_table(role));
    }
    r
}

/// The content of one scaffold file after its substitutions, applied in table
/// order.
pub open spec fn apply_table(c: Seq<u8>, tbl: Seq<(Seq<u8>, FormField)>, f: NamingFormsView) -> Seq<
    u8,
>
    decreases tbl.len(),
{
    if tbl.len() == 0 {
        c
    } else {
        apply_table(replaced(c, tbl[0].0, field_of(f, tbl[0].1)), tbl.skip(1), f)
    }
}

/// The content a scaffold file owes after token substitution.
pub open spec fn rewritten(c: Seq<u8>, role: ScaffoldRole, f: NamingFormsView) -> Seq<u8> {
    apply_table(c, subst_table(role), f)
}

/// Every token in every substitution table is non-empty.
pub proof fn lemma_table_tokens_nonempty(role: ScaffoldRole)
    ensures
        forall|k: int|
            0 <= k < subst_table(role).len() ==> (#[trigger] subst_table(role)[k]).0.len() > 0,
{
}

/// Rewrite the content of one scaffold file: replace every occurrence of each
/// of its default tokens with the matching derived naming form.
pub fn rewrite_scaffold(content: &[u8], role: ScaffoldRole, forms: &NamingForms) -> (r: Vec<u8>)
    ensures
        r@ == rewritten(content@, role, forms@),
{
    let tbl = substitutions_for(role);
    let ghost stbl = subst_table(role);
    let mut cur: Vec<u8> = crate::ascii::copy_bytes(content);
    let mut k: usize = 0;
    proof {
        assert(stbl.skip(0) =~= stbl);
        lemma_table_tokens_nonempty(role);
    }
    while k < tbl.len()
        invariant
            k <= tbl@.len(),
            stbl == subst_table(role),
            stbl.len() == tbl@.len(),
            forall|j: int| 0 <= j < stbl.len() ==> (#[trigger] stbl[j]).0.len() > 0,
            forall|j: int|
                0 <= j < tbl@.len() ==> (#[trigger] tbl@[j]).0@ == stbl[j].0 && tbl@[j].1
                    == stbl[j].1,
            rewritten(content@, role, forms@) == apply_table(cur@, stbl.skip(k as int), forms@),
        decreases tbl@.len() - k,
    {
        let ghost sub = stbl.skip(k as int);
        let rep = form_field(forms, tbl[k].1);
        let next = replace_all(cur.as_slice(), tbl[k].0.as_slice(), rep.as_slice());
        proof {
            assert(sub[0] == stbl[k as int]);
            assert(apply_table(cur@, sub, forms@) == apply_table(
                replaced(cur@, sub[0].0, field_of(forms@, sub[0].1)),
                sub.skip(1),
                forms@,
            ));
            assert(sub.skip(1) =~= stbl.skip(k as int + 1));
        }
        cur = next;
        k = k + 1;
    }
    proof {
        assert(stbl.skip(stbl.len() as int) =~= Seq::<(Seq<u8>, FormField)>::empty());
    }
    cur
}

// ---------------------------------------------------------------------------
// Errors, the run state machine, and the cleanup plan.
// ---------------------------------------------------------------------------

/// Everything that can go wrong during a run.
#[derive(Clone, Copy, PartialEq, Eq, Structural, Debug)]
pub enum RunError {
    FileNotFound,
    FileWriteFailed,
    RelocationFailed,
    MissingTemplateField,
    PromptInteractionFailed,
    ExternalCommandFailed,
}

/// The outcome of one phase of the run.
#[derive(Clone, Copy, PartialEq, Eq, Structural, Debug)]
pub enum StepOutcome {
    Success,
    Failure(RunError),
}

/// The state of the run.
#[derive(Clone, Copy, PartialEq, Eq, Structural, Debug)]
pub enum RunState {
    NotStarted,
    Renaming,
    Rendering,
    CleaningUp,
    Done,
    Failed,
}

/// The transition table of the run: each phase advances only on full success
/// of the step before it; any failure moves to `Failed`; `Done` and `Failed`
/// are terminal.
pub open spec fn next_state(s: RunState, o: StepOutcome) -> RunState {
    match s {
        RunState::Done => RunState::Done,
        RunState::Failed => RunState::Failed,
        _ => match o {
            StepOutcome::Failure(_) => RunState::Failed,
            StepOutcome::Success => match s {
                RunState::NotStarted => RunState::Renaming,
                RunState::Renaming => RunState::Rendering,
                RunState::Rendering => RunState::CleaningUp,
                RunState::CleaningUp => RunState::Done,
                _ => s,
            },
        },
    }
}

/// Advance the run by the outcome of its current phase.
pub fn advance(s: RunState, o: StepOutcome) -> (r: RunState)
    ensures
        r == next_state(s, o),
{
    match s {
        RunState::Done => RunState::Done,
        RunState::Failed => RunState::Failed,
        _ => match o {
            StepOutcome::Failure(_) => RunState::Failed,
            StepOutcome::Success => match s {
                RunState::NotStarted => RunState::Renaming,
                RunState::Renaming => RunState::Rendering,
                RunState::Rendering => RunState::CleaningUp,
                RunState::CleaningUp => RunState::Done,
                _ => s,
            },
        },
    }
}

/// Rendering is entered only from renaming, and only on success; cleanup only
/// from rendering, and only on success; a failure in any live phase moves to
/// `Failed`; the terminal states stay put.
pub proof fn lemma_phase_order(s: RunState, o: StepOutcome)
    ensures
        next_state(s, o) == RunState::Rendering ==> s == RunState::Renaming && o
            == StepOutcome::Success,
        next_state(s, o) == RunState::CleaningUp ==> s == RunState::Rendering && o
            == StepOutcome::Success,
        next_state(s, o) == RunState::Done ==> s == RunState::Done || (s == RunState::CleaningUp
            && o == StepOutcome::Success),
        (o is Failure && s != RunState::Done && s != RunState::Failed) ==> next_state(s, o)
            == RunState::Failed,
        next_state(RunState::Done, o) == RunState::Done,
        next_state(RunState::Failed, o) == RunState::Failed,
{
}

/// The state a run reaches after a sequence of phase outcomes.
pub open spec fn run_from(s: RunState, os: Seq<StepOutcome>) -> RunState
    decreases os.len(),
{
    if os.len() == 0 {
        s
    } else {
        run_from(next_state(s, os[0]), os.skip(1))
    }
}

/// The terminal states absorb every further outcome.
pub proof fn lemma_run_terminal(s: RunState, os: Seq<StepOutcome>)
    requires
        s == RunState::Done || s == RunState::Failed,
    ensures
        run_from(s, os) == s,
    decreases os.len(),
{
    if os.len() > 0 {
        lemma_run_terminal(s, os.skip(1));
    }
}

/// A run is `Done` exactly when each of its four phases succeeded, and any
/// failure within the four phases ends it in `Failed`.
pub proof fn lemma_done_means_full_success(os: Seq<StepOutcome>)
    ensures
        run_from(RunState::NotStarted, os) == RunState::Done <==> (os.len() >= 4 && forall|i: int|
            0 <= i < 4 ==> os[i] == StepOutcome::Success),
        (exists|i: int| 0 <= i < 4 && i < os.len() && os[i] is Failure) ==> run_from(
            RunState::NotStarted,
            os,
        ) == RunState::Failed,
{
    if os.len() == 0 {
        assert(run_from(RunState::NotStarted, os) == RunState::NotStarted);
    } else if os[0] is Failure {
        assert(run_from(RunState::NotStarted, os) == run_from(RunState::Failed, os.skip(1)));
        lemma_run_terminal(RunState::Failed, os.skip(1));
    } else {
        let os1 = os.skip(1);
        assert(forall|i: int| 0 <= i < os1.len() ==> #[trigger] os1[i] == os[i + 1]);
        assert(run_from(RunState::NotStarted, os) == run_from(RunState::Renaming, os1));
        if os1.len() == 0 {
            assert(run_from(RunState::Renaming, os1) == RunState::Renaming);
        } else if os1[0] is Failure {
            assert(run_from(RunState::Renaming, os1) == run_from(RunState::Failed, os1.skip(1)));
            lemma_run_terminal(RunState::Failed, os1.skip(1));
        } else {
            let os2 = os1.skip(1);
            assert(forall|i: int| 0 <= i < os2.len() ==> #[trigger] os2[i] == os[i + 2]);
            assert(run_from(RunState::Renaming, os1) == run_from(RunState::Rendering, os2));
            if os2.len() == 0 {
                assert(run_from(RunState::Rendering, os2) == RunState::Rendering);
            } else if os2[0] is Failure {
                assert(run_from(RunState::Rendering, os2) == run_from(
                    RunState::Failed,
                    os2.skip(1),
                ));
                lemma_run_terminal(RunState::Failed, os2.skip(1));
            } else {
                let os3 = os2.skip(1);
                assert(forall|i: int| 0 <= i < os3.len() ==> #[trigger] os3[i] == os[i + 3]);
                assert(run_from(RunState::Rendering, os2) == run_from(RunState::CleaningUp, os3));
                if os3.len() == 0 {
                    assert(run_from(RunState::CleaningUp, os3) == RunState::CleaningUp);
                } else if os3[0] is Failure {
                    assert(run_from(RunState::CleaningUp, os3) == run_from(
                        RunState::Failed,
                        os3.skip(1),
                    ));
                    lemma_run_terminal(RunState::Failed, os3.skip(1));
                } else {
                    assert(run_from(RunState::CleaningUp, os3) == run_from(
                        RunState::Done,
                        os3.skip(1),
                    ));
                    lemma_run_terminal(RunState::Done, os3.skip(1));
                    assert(os.len() >= 4);
                    assert(forall|i: int| 0 <= i < 4 ==> os[i] == StepOutcome::Success);
                }
            }
        }
    }
}

/// One confirmed, destructive cleanup action.
#[derive(Clone, Copy, PartialEq, Eq, Structural, Debug)]
pub enum CleanupAction {
    RemoveScript,
    RemoveVcsDir,
    VcsInit,
    VcsAddAll,
    VcsCommit,
}

/// The actions cleanup performs, given the two confirmations: script deletion
/// first, so that the deletion is part of the fresh initial commit, then the
/// version-control reset as delete, init, stage-all, commit.
pub open spec fn cleanup_plan_spec(delete_script: bool, reinit_vcs: bool) -> Seq<CleanupAction> {
    (if delete_script {
        seq![CleanupAction::RemoveScript]
    } else {
        Seq::empty()
    }) + (if reinit_vcs {
        seq![
            CleanupAction::RemoveVcsDir,
            CleanupAction::VcsInit,
            CleanupAction::VcsAddAll,
            CleanupAction::VcsCommit,
        ]
    } else {
        Seq::empty()
    })
}

/// Plan the cleanup from the two confirmations.
pub fn cleanup_plan(delete_script: bool, reinit_vcs: bool) -> (r: Vec<CleanupAction>)
    ensures
        r@ == cleanup_plan_spec(delete_script, reinit_vcs),
{
    let mut r: Vec<CleanupAction> = Vec::new();
    if delete_script {
        r.push(CleanupAction::RemoveScript);
    }
    if reinit_vcs {
        r.push(CleanupAction::RemoveVcsDir);
        r.push(CleanupAction::VcsInit);
        r.push(CleanupAction::VcsAddAll);
        r.push(CleanupAction::VcsCommit);
    }
    proof {
        assert(r@ =~= cleanup_plan_spec(delete_script, reinit_vcs));
    }
    r
}

/// A confirmed version-control reset plans exactly one commit, as the last
/// action, after exactly one init and one stage-all, in that order, and any
/// script deletion comes before the whole reset — so the deletion is part of
/// the fresh initial commit.
pub proof fn lemma_reinit_one_commit(delete_script: bool)
    ensures
        ({
            let plan = cleanup_plan_spec(delete_script, true);
            &&& plan.len() > 0
            &&& plan.last() == CleanupAction::VcsCommit
            &&& forall|i: int| 0 <= i < plan.len() - 1 ==> plan[i] != CleanupAction::VcsCommit
            &&& plan[plan.len() - 4] == CleanupAction::RemoveVcsDir
            &&& plan[plan.len() - 3] == CleanupAction::VcsInit
            &&& plan[plan.len() - 2] == CleanupAction::VcsAddAll
            &&& (delete_script ==> plan[0] == CleanupAction::RemoveScript)
        }),
{
    let plan = cleanup_plan_spec(delete_script, true);
    if delete_script {
        assert(plan =~= seq![
            CleanupAction::RemoveScript,
            CleanupAction::RemoveVcsDir,
            CleanupAction::VcsInit,
            CleanupAction::VcsAddAll,
            CleanupAction::VcsCommit,
        ]);
    } else {
        assert(plan =~= seq![
            CleanupAction::RemoveVcsDir,
            CleanupAction::VcsInit,
            CleanupAction::VcsAddAll,
            CleanupAction::VcsCommit,
        ]);
    }
}

/// Declining both confirmations plans nothing: the customization script stays
/// and version-control history is untouched.
pub proof fn lemma_decline_is_noop(delete_script: bool, reinit_vcs: bool)
    ensures
        cleanup_plan_spec(false, false) =~= Seq::<CleanupAction>::empty(),
        !delete_script ==> forall|i: int|
            0 <= i < cleanup_plan_spec(delete_script, reinit_vcs).len() ==> cleanup_plan_spec(
                delete_script,
                reinit_vcs,
            )[i] != CleanupAction::RemoveScript,
        !reinit_vcs ==> forall|i: int|
            0 <= i < cleanup_plan_spec(delete_script, reinit_vcs).len() ==> cleanup_plan_spec(
                delete_script,
                reinit_vcs,
            )[i] == CleanupAction::RemoveScript,
{
}

/// Render one scaffold file's content against metadata, failing with
/// `MissingTemplateField` exactly when the template references a name the
/// mapping lacks.
pub fn render_file(content: &[u8], m: &Metadata) -> (r: Result<Vec<u8>, RunError>)
    ensures
        match r {
            Ok(v) => rendered(content@, m@) == Some(v@),
            Err(e) => e == RunError::MissingTemplateField && rendered(content@, m@) is None,
        },
{
    match render(content, m) {
        Some(v) => Ok(v),
        None => Err(RunError::MissingTemplateField),
    }
}

/// The customizer: the component that drives one whole customization run.
pub struct Customizer {}

impl Customizer {
    /// A fresh customizer.
    pub fn new() -> (c: Customizer) {
        Customizer {  }
    }
}

} // verus!
