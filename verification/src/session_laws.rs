//! What holds of every session with the repository, whatever the commands answer.
use vstd::prelude::*;

use crate::backend;
use crate::backend::ActionView;
use crate::committing;
use crate::committing::{CommittingView, StepView};
use crate::diff::FileView;
use crate::model::{CommitView, PlanView};
use crate::reading;
use crate::reading::{ReadingView, Step};
use crate::text;

verus! {

// ---------------------------------------------------------------------------
// Making commits.

/// The session after the first `n` answers.
pub open spec fn run(v: CommittingView, answers: Seq<Option<Seq<u8>>>, n: int) -> CommittingView
    decreases n,
{
    if n <= 0 {
        v
    } else {
        committing::next(run(v, answers, n - 1), answers[n - 1])
    }
}

pub proof fn lemma_run(plan: PlanView, pid: u32, answers: Seq<Option<Seq<u8>>>, n: int)
    ensures
        committing::sound(run(committing::start(plan, pid), answers, n)),
        run(committing::start(plan, pid), answers, n).plan == plan,
        run(committing::start(plan, pid), answers, n).pid == pid,
    decreases n,
{
    committing::law_start_is_sound(plan, pid);
    if n > 0 {
        lemma_run(plan, pid, answers, n - 1);
        committing::law_answers_keep_sound(
            run(committing::start(plan, pid), answers, n - 1),
            answers[n - 1],
        );
    }
}

/// An upper bound on the answers that the commits from number `c` on take.
pub open spec fn work_from(commits: Seq<CommitView>, c: int) -> int
    decreases commits.len() - c,
{
    if c >= commits.len() || c < 0 {
        0
    } else {
        2 * commits[c].files.len() + 3 + work_from(commits, c + 1)
    }
}

/// An upper bound on the answers that the session still takes.
pub open spec fn left(v: CommittingView) -> int {
    let commits = v.plan.commits;
    let names = committing::new_branches(commits).len() as int;
    let ends = commits.len() + 4 * v.plan.updates.len();
    let refs = ends + names + 1;
    let begins = refs + work_from(commits, 0);
    match v.step {
        StepView::CheckName { b } => begins + 3 + 2 * (names - b),
        StepView::CheckNew { b } => begins + 2 + 2 * (names - b),
        StepView::GitDir => begins + 3,
        StepView::Head => begins + 2,
        StepView::Sign => begins + 1,
        StepView::ReadTree { c } => refs + work_from(commits, c + 1) + 2 * commits[c].files.len()
            + 3,
        StepView::Change { c, f } => refs + work_from(commits, c + 1) + 2 * (commits[c].files.len()
            - f) + 2,
        StepView::Enter { c, f, .. } => refs + work_from(commits, c + 1) + 2 * (
        commits[c].files.len() - f) + 1,
        StepView::WriteTree { c } => refs + work_from(commits, c + 1) + 2,
        StepView::CommitTree { c, .. } => refs + work_from(commits, c + 1) + 1,
        StepView::MoveHead => refs,
        StepView::MakeBranch { b } => ends + names - b,
        StepView::Restage { u } => ends - 4 * u,
        StepView::Reenter { u, .. } => ends - 4 * u - 1,
        StepView::ReadFile { u } => ends - 4 * u - 2,
        StepView::PutFile { u } => ends - 4 * u - 3,
        StepView::Cleanup { k } => v.opened - k,
        StepView::Finished => 0,
    }
}

proof fn lemma_work(commits: Seq<CommitView>, c: int)
    ensures
        work_from(commits, c) >= 0,
    decreases commits.len() - c,
{
    if 0 <= c < commits.len() {
        lemma_work(commits, c + 1);
    }
}

/// Each answer brings the session nearer to its end.
pub proof fn law_answers_progress(v: CommittingView, output: Option<Seq<u8>>)
    requires
        committing::sound(v),
        !(v.step is Finished),
    ensures
        0 <= left(committing::next(v, output)) < left(v),
{
    let commits = v.plan.commits;
    lemma_work(commits, 0);
    match v.step {
        StepView::ReadTree { c } => {
            lemma_work(commits, c + 1);
        },
        StepView::Change { c, .. } => {
            lemma_work(commits, c + 1);
        },
        StepView::Enter { c, .. } => {
            lemma_work(commits, c + 1);
        },
        StepView::WriteTree { c } => {
            lemma_work(commits, c + 1);
        },
        StepView::CommitTree { c, .. } => {
            lemma_work(commits, c + 1);
            lemma_work(commits, c + 2);
        },
        _ => {},
    }
}

/// The session comes to its end, whatever is answered.
pub proof fn law_commits_end(plan: PlanView, pid: u32, answers: Seq<Option<Seq<u8>>>, n: int)
    requires
        left(committing::start(plan, pid)) <= n <= answers.len(),
    ensures
        run(committing::start(plan, pid), answers, n).step is Finished,
{
    committing::law_start_is_sound(plan, pid);
    lemma_positive(committing::start(plan, pid));
    lemma_left(plan, pid, answers, n);
}

proof fn lemma_left(plan: PlanView, pid: u32, answers: Seq<Option<Seq<u8>>>, n: int)
    ensures
        run(committing::start(plan, pid), answers, n).step is Finished || 0 < left(
            run(committing::start(plan, pid), answers, n),
        ) <= left(committing::start(plan, pid)) - n || n < 0,
    decreases n,
{
    let v = committing::start(plan, pid);
    committing::law_start_is_sound(plan, pid);
    lemma_work(plan.commits, 0);
    if n > 0 {
        lemma_left(plan, pid, answers, n - 1);
        lemma_run(plan, pid, answers, n - 1);
        lemma_run(plan, pid, answers, n);
        let w = run(v, answers, n - 1);
        if !(w.step is Finished) {
            law_answers_progress(w, answers[n - 1]);
            lemma_positive(run(v, answers, n));
        }
    } else {
        lemma_positive(v);
    }
}

proof fn lemma_positive(v: CommittingView)
    requires
        committing::sound(v),
    ensures
        v.step is Finished || left(v) > 0,
{
    if !(v.step is Finished) {
        law_answers_progress(v, None);
    }
}

/// Whether an action changes a branch, the repository's own index or the
/// working tree.
pub open spec fn changes_repository(a: ActionView) -> bool {
    match a {
        ActionView::Git { args, index, .. } => index is None && (args[0] == "update-ref"@ || args[0]
            == "branch"@ || args[0] == "update-index"@),
        ActionView::WriteFile { .. } => true,
        ActionView::RemoveFile { .. } => true,
        _ => false,
    }
}

/// Branches, the index and the working tree are left as they are until all
/// commits are there.
pub proof fn law_commits_before_changes(v: CommittingView)
    requires
        committing::sound(v),
        changes_repository(committing::action(v)),
    ensures
        v.ids.len() == v.plan.commits.len(),
        v.failure is None,
{
    reveal_strlit("update-ref");
    reveal_strlit("branch");
    reveal_strlit("update-index");
    reveal_strlit("check-ref-format");
    reveal_strlit("rev-parse");
    reveal_strlit("config");
    reveal_strlit("commit-tree");
    reveal_strlit("hash-object");
    assert("rev-parse"@[0] != "update-ref"@[0]);
    assert("config"@.len() == 6 && "branch"@.len() == 6 && "config"@[0] != "branch"@[0]);
    assert("commit-tree"@[0] != "update-ref"@[0]);
    assert("hash-object"@[0] != "update-ref"@[0]);
    assert("check-ref-format"@[0] != "update-ref"@[0]);
    assert("update-ref"@[0] == "update-index"@[0]);
}

/// The commits that were made are not taken back.
proof fn lemma_ids_stay(v: CommittingView, output: Option<Seq<u8>>)
    ensures
        v.ids.is_prefix_of(committing::next(v, output).ids),
{
    let ids = committing::next(v, output).ids;
    assert(v.ids =~= ids.take(v.ids.len() as int));
}

pub proof fn lemma_ids_grow(v: CommittingView, answers: Seq<Option<Seq<u8>>>, k: int, n: int)
    requires
        0 <= k <= n,
    ensures
        run(v, answers, k).ids.is_prefix_of(run(v, answers, n).ids),
    decreases n - k,
{
    if k < n {
        lemma_ids_grow(v, answers, k, n - 1);
        lemma_ids_stay(run(v, answers, n - 1), answers[n - 1]);
        let a = run(v, answers, k).ids;
        let b = run(v, answers, n - 1).ids;
        let c = run(v, answers, n).ids;
        assert(a =~= c.take(a.len() as int)) by {
            assert(b.take(a.len() as int) =~= c.take(a.len() as int));
        }
    } else {
        let a = run(v, answers, n).ids;
        assert(a =~= a.take(a.len() as int));
    }
}

/// When a commit could not be made, nothing of the repository was changed.
pub proof fn law_failure_changes_nothing(
    plan: PlanView,
    pid: u32,
    answers: Seq<Option<Seq<u8>>>,
    n: int,
    k: int,
)
    requires
        0 <= k < n <= answers.len(),
        run(committing::start(plan, pid), answers, n).ids.len() < plan.commits.len(),
    ensures
        !changes_repository(committing::action(run(committing::start(plan, pid), answers, k))),
{
    let v = run(committing::start(plan, pid), answers, k);
    lemma_run(plan, pid, answers, k);
    lemma_ids_grow(committing::start(plan, pid), answers, k, n);
    if changes_repository(committing::action(v)) {
        law_commits_before_changes(v);
    }
}

/// Whether an answer lets the session go on.
pub open spec fn grants(v: CommittingView, output: Option<Seq<u8>>) -> bool {
    match v.step {
        StepView::CheckNew { .. } => output matches Some(o) ==> backend::printed(o).len() == 0,
        StepView::Head => true,
        StepView::Sign => true,
        StepView::ReadFile { .. } => true,
        StepView::PutFile { u } => v.plan.updates[u].content is Some ==> output is Some,
        StepView::Cleanup { .. } => true,
        StepView::Finished => true,
        _ => output is Some,
    }
}

/// A session fails at the first answer that does not let it go on, and at no
/// other.
pub proof fn law_fails_only_when_not_granted(v: CommittingView, output: Option<Seq<u8>>)
    requires
        committing::sound(v),
        v.failure is None,
    ensures
        committing::next(v, output).failure is None <==> grants(v, output),
{
}

/// A session whose answers all let it go on makes all commits of the plan.
pub proof fn law_granted_session_succeeds(
    plan: PlanView,
    pid: u32,
    answers: Seq<Option<Seq<u8>>>,
    n: int,
)
    requires
        plan.commits.len() > 0,
        left(committing::start(plan, pid)) <= n <= answers.len(),
        forall|k: int|
            0 <= k < n ==> grants(
                #[trigger] run(committing::start(plan, pid), answers, k),
                answers[k],
            ),
    ensures
        run(committing::start(plan, pid), answers, n).step is Finished,
        run(committing::start(plan, pid), answers, n).failure is None,
        run(committing::start(plan, pid), answers, n).ids.len() == plan.commits.len(),
{
    law_commits_end(plan, pid, answers, n);
    lemma_granted(plan, pid, answers, n);
    lemma_run(plan, pid, answers, n);
}

proof fn lemma_granted(plan: PlanView, pid: u32, answers: Seq<Option<Seq<u8>>>, n: int)
    requires
        plan.commits.len() > 0,
        forall|k: int|
            0 <= k < n ==> grants(
                #[trigger] run(committing::start(plan, pid), answers, k),
                answers[k],
            ),
    ensures
        run(committing::start(plan, pid), answers, n).failure is None,
    decreases n,
{
    if n > 0 {
        lemma_granted(plan, pid, answers, n - 1);
        lemma_run(plan, pid, answers, n - 1);
        law_fails_only_when_not_granted(
            run(committing::start(plan, pid), answers, n - 1),
            answers[n - 1],
        );
    }
}

/// Each commit was made with the message it has in the plan, on top of the
/// commit before it on the same branch, or else of the commit that was checked
/// out, and its id is the one that the command printed.
pub proof fn law_commits_follow_the_plan(
    plan: PlanView,
    pid: u32,
    answers: Seq<Option<Seq<u8>>>,
    n: int,
    c: int,
) -> (k: int)
    requires
        0 <= n <= answers.len(),
        0 <= c < run(committing::start(plan, pid), answers, n).ids.len(),
    ensures
        0 <= k < n,
        run(committing::start(plan, pid), answers, k).step matches StepView::CommitTree {
            c: d,
            tree,
        } && d == c && answers[k] is Some && backend::printed(answers[k].unwrap()) == run(
            committing::start(plan, pid),
            answers,
            n,
        ).ids[c] && committing::action(run(committing::start(plan, pid), answers, k))
            == backend::plain_git(
            committing::commit_args(
                tree,
                run(committing::start(plan, pid), answers, n).sign,
                committing::parent(
                    plan.commits,
                    run(committing::start(plan, pid), answers, n).ids,
                    run(committing::start(plan, pid), answers, n).head,
                    c,
                ),
                plan.commits[c].message,
            ),
        ),
    decreases n,
{
    let s = committing::start(plan, pid);
    lemma_run(plan, pid, answers, n);
    if n <= 0 {
        0
    } else {
        lemma_run(plan, pid, answers, n - 1);
        let v = run(s, answers, n - 1);
        let w = run(s, answers, n);
        committing::lemma_last_on(plan.commits, plan.commits[c].branch, c);
        lemma_ids_stay(v, answers[n - 1]);
        if c < v.ids.len() {
            let k = law_commits_follow_the_plan(plan, pid, answers, n - 1, c);
            assert(v.ids[c] == w.ids[c]);
            assert(committing::parent(plan.commits, v.ids, v.head, c) == committing::parent(
                plan.commits,
                w.ids,
                w.head,
                c,
            ));
            k
        } else {
            n - 1
        }
    }
}

/// The session has learnt where the repository is.
spec fn located(v: CommittingView) -> bool {
    !(v.step is CheckName || v.step is CheckNew || v.step is GitDir)
}

/// The session only tidies up.
spec fn tidying(v: CommittingView) -> bool {
    v.step is Cleanup || v.step is Finished
}

proof fn lemma_onward(v: CommittingView, answers: Seq<Option<Seq<u8>>>, k: int, n: int)
    requires
        0 <= k <= n,
    ensures
        run(v, answers, k).opened <= run(v, answers, n).opened,
        run(v, answers, k).pid == run(v, answers, n).pid,
        located(run(v, answers, k)) ==> located(run(v, answers, n)) && run(v, answers, k).git_dir
            == run(v, answers, n).git_dir,
        tidying(run(v, answers, k)) ==> tidying(run(v, answers, n)),
    decreases n - k,
{
    if k < n {
        lemma_onward(v, answers, k, n - 1);
    }
}

/// Where an index file is removed that was removed by now.
proof fn lemma_removed(
    plan: PlanView,
    pid: u32,
    answers: Seq<Option<Seq<u8>>>,
    n: int,
    s: int,
) -> (m: int)
    requires
        0 <= s,
        0 <= n,
        match run(committing::start(plan, pid), answers, n).step {
            StepView::Cleanup { k } => s < k,
            StepView::Finished => s < run(committing::start(plan, pid), answers, n).opened,
            _ => false,
        },
    ensures
        0 <= m < n,
        run(committing::start(plan, pid), answers, m).step == (StepView::Cleanup { k: s }),
    decreases n,
{
    let v = committing::start(plan, pid);
    if n <= 0 {
        0
    } else {
        match run(v, answers, n - 1).step {
            StepView::Cleanup { k } => if s < k {
                lemma_removed(plan, pid, answers, n - 1, s)
            } else {
                n - 1
            },
            StepView::Finished => lemma_removed(plan, pid, answers, n - 1, s),
            _ => n - 1,
        }
    }
}

/// Each index file that was filled for a destination is removed before the
/// session is over, whether the commits could be made or not.
pub proof fn law_index_files_are_removed(
    plan: PlanView,
    pid: u32,
    answers: Seq<Option<Seq<u8>>>,
    n: int,
    k: int,
    c: int,
) -> (m: int)
    requires
        0 <= k < n <= answers.len(),
        run(committing::start(plan, pid), answers, k).step == (StepView::ReadTree { c }),
        answers[k] is Some,
        run(committing::start(plan, pid), answers, n).step is Finished,
    ensures
        k < m < n,
        committing::action(run(committing::start(plan, pid), answers, k)) matches ActionView::Git {
            index: Some(index),
            ..
        } && committing::action(run(committing::start(plan, pid), answers, m))
            == ActionView::RemoveIndex(index),
{
    let v = committing::start(plan, pid);
    let w = run(v, answers, k);
    lemma_run(plan, pid, answers, k);
    lemma_run(plan, pid, answers, k + 1);
    let s = committing::slot(plan.commits, c);
    committing::lemma_last_on(plan.commits, plan.commits[c].branch, c);
    assert(s == w.opened);
    assert(run(v, answers, k + 1) == committing::next(w, answers[k]));
    lemma_onward(v, answers, k + 1, n);
    let m = lemma_removed(plan, pid, answers, n, s);
    if m <= k {
        lemma_onward(v, answers, m, k);
    }
    lemma_onward(v, answers, k, m);
    m
}

/// Different destinations have different index files.
pub proof fn law_destinations_have_their_own_files(v: CommittingView, c: int, d: int)
    requires
        0 <= c < v.plan.commits.len(),
        0 <= d < v.plan.commits.len(),
    ensures
        committing::index_of(v, c) == committing::index_of(v, d) <==> v.plan.commits[c].branch
            == v.plan.commits[d].branch,
{
    lemma_slots(v.plan.commits, c, d);
    let a = committing::slot(v.plan.commits, c);
    let b = committing::slot(v.plan.commits, d);
    committing::lemma_slot(v.plan.commits, c);
    committing::lemma_slot(v.plan.commits, d);
    if a != b {
        let front = "hunkle-index-"@ + text::decimal(v.pid as nat) + "-"@;
        let x = front + text::decimal(a as nat);
        let y = front + text::decimal(b as nat);
        if x == y {
            assert(text::decimal(a as nat) =~= x.skip(front.len() as int));
            assert(text::decimal(b as nat) =~= y.skip(front.len() as int));
            text::lemma_decimal_differs(a as nat, b as nat);
        }
    }
}

proof fn lemma_slots(commits: Seq<CommitView>, c: int, d: int)
    requires
        0 <= c < commits.len(),
        0 <= d < commits.len(),
    ensures
        committing::slot(commits, c) == committing::slot(commits, d) <==> commits[c].branch
            == commits[d].branch,
    decreases c + d,
{
    let e = committing::last_on(commits, commits[c].branch, c);
    let f = committing::last_on(commits, commits[d].branch, d);
    committing::lemma_last_on(commits, commits[c].branch, c);
    committing::lemma_last_on(commits, commits[d].branch, d);
    if e >= 0 {
        lemma_slots(commits, e, d);
    } else if f >= 0 {
        lemma_slots(commits, c, f);
    } else if c < d {
        committing::lemma_slot(commits, c);
        committing::lemma_destinations_grow(commits, c + 1, d);
    } else if d < c {
        committing::lemma_slot(commits, d);
        committing::lemma_destinations_grow(commits, d + 1, c);
    }
}

/// A file of the working tree is written or removed only right after it was read,
/// and only if it was what is staged: files that were edited are left alone.
pub proof fn law_edited_files_are_left_alone(
    plan: PlanView,
    pid: u32,
    answers: Seq<Option<Seq<u8>>>,
    k: int,
    u: int,
)
    requires
        0 <= k <= answers.len(),
        run(committing::start(plan, pid), answers, k).step == (StepView::PutFile { u }),
    ensures
        k > 0,
        run(committing::start(plan, pid), answers, k - 1).step == (StepView::ReadFile { u }),
        answers[k - 1] == plan.updates[u].staged,
{
    lemma_run(plan, pid, answers, k);
    if k > 0 {
        lemma_run(plan, pid, answers, k - 1);
    }
}

/// The files whose copy in the working tree was left as it is are files of which
/// lines went to other branches.
pub proof fn law_skipped_files_were_branched(
    plan: PlanView,
    pid: u32,
    answers: Seq<Option<Seq<u8>>>,
    n: int,
    i: int,
) -> (u: int)
    requires
        0 <= n <= answers.len(),
        0 <= i < run(committing::start(plan, pid), answers, n).skipped.len(),
    ensures
        0 <= u < plan.updates.len(),
        run(committing::start(plan, pid), answers, n).skipped[i] == plan.updates[u].path,
    decreases n,
{
    let v = run(committing::start(plan, pid), answers, n - 1);
    if n <= 0 {
        0
    } else {
        lemma_run(plan, pid, answers, n - 1);
        if i < v.skipped.len() {
            let w = run(committing::start(plan, pid), answers, n);
            assert(w.skipped[i] == v.skipped[i]);
            law_skipped_files_were_branched(plan, pid, answers, n - 1, i)
        } else {
            match v.step {
                StepView::ReadFile { u } => u,
                _ => 0,
            }
        }
    }
}

// ---------------------------------------------------------------------------
// Reading the staged changes.

/// The reading after the first `n` answers.
pub open spec fn read_run(answers: Seq<Option<Vec<u8>>>, n: int) -> ReadingView
    decreases n,
{
    if n <= 0 {
        reading::start()
    } else {
        reading::next(read_run(answers, n - 1), answers[n - 1])
    }
}

/// How many answers the reading still takes after this part of it, at most.
pub open spec fn read_left(v: ReadingView) -> int {
    match v.step {
        Step::Blob(i) => v.files.len() - i + 1,
        Step::Branch => 1,
        _ => 0,
    }
}

/// The part of the reading: the repository, the diff, and the rest.
pub open spec fn part(v: ReadingView) -> int {
    match v.step {
        Step::Repository => 0,
        Step::Diff => 1,
        _ => 2,
    }
}

proof fn lemma_at_blob(files: Seq<FileView>, i: int)
    requires
        0 <= i <= files.len() <= usize::MAX,
    ensures
        match reading::at_blob(files, i) {
            Step::Blob(j) => i <= j < files.len() && reading::needs_base(files[j as int]) && forall|
                k: int,
            |
                i <= k < j ==> !reading::needs_base(#[trigger] files[k]),
            Step::Branch => forall|k: int|
                i <= k < files.len() ==> !reading::needs_base(#[trigger] files[k]),
            _ => false,
        },
    decreases files.len() - i,
{
    if i < files.len() && !reading::needs_base(files[i]) {
        lemma_at_blob(files, i + 1);
        assert(reading::next_blob(files, i) == reading::next_blob(files, i + 1));
    }
}

/// Each answer takes the reading to a later part of it, or nearer to its end.
pub proof fn law_reading_progresses(v: ReadingView, output: Option<Vec<u8>>)
    requires
        reading::sound(v),
        v.files.len() <= usize::MAX,
        v.step != Step::Finished,
    ensures
        part(v) < part(reading::next(v, output)) || (part(v) == part(reading::next(v, output)) && 0
            <= read_left(reading::next(v, output)) < read_left(v)),
{
    if let Step::Blob(i) = v.step {
        lemma_at_blob(v.files, i + 1);
    }
}

/// The files whose old content was asked for.
pub open spec fn bases_read(v: ReadingView) -> int {
    match v.step {
        Step::Repository => 0,
        Step::Diff => 0,
        Step::Blob(i) => i as int,
        _ => v.files.len() as int,
    }
}

/// The old contents that are known are those of the files that were asked for.
pub open spec fn bases_match(v: ReadingView) -> bool {
    forall|p: Seq<char>| #[trigger]
        v.bases.contains_key(p) <==> exists|j: int|
            0 <= j < bases_read(v) && reading::needs_base(#[trigger] v.files[j]) && v.files[j].path
                == p
}

/// When the reading has succeeded, the old contents that are known are those of
/// the text files that are not new.
pub proof fn law_old_contents_are_read(answers: Seq<Option<Vec<u8>>>, n: int)
    requires
        0 <= n <= answers.len(),
        forall|k: int| 0 <= k <= n ==> (#[trigger] read_run(answers, k)).files.len() <= usize::MAX,
    ensures
        read_run(answers, n).failure is None ==> bases_match(read_run(answers, n)),
    decreases n,
{
    if n > 0 {
        law_old_contents_are_read(answers, n - 1);
        let v = read_run(answers, n - 1);
        let w = read_run(answers, n);
        assert(w == reading::next(v, answers[n - 1]));
        assert(w.files.len() <= usize::MAX);
        assert(v.files.len() <= usize::MAX);
        lemma_read_sound(answers, n - 1);
        if w.failure is None {
            match v.step {
                Step::Diff => {
                    lemma_at_blob(w.files, 0);
                    lemma_nothing_read(answers, n - 1);
                },
                Step::Blob(i) => {
                    lemma_at_blob(w.files, i + 1);
                    let path = v.files[i as int].path;
                    assert forall|p: Seq<char>| #[trigger] w.bases.contains_key(p) <==> exists|
                        j: int,
                    |
                        0 <= j < bases_read(w) && reading::needs_base(#[trigger] w.files[j])
                            && w.files[j].path == p by {
                        if w.bases.contains_key(p) {
                            if p == path {
                                assert(reading::needs_base(w.files[i as int]));
                            } else {
                                assert(v.bases.contains_key(p));
                            }
                        }
                        if exists|j: int|
                            0 <= j < bases_read(w) && reading::needs_base(#[trigger] w.files[j])
                                && w.files[j].path == p {
                            let j = choose|j: int|
                                0 <= j < bases_read(w) && reading::needs_base(
                                    #[trigger] w.files[j],
                                ) && w.files[j].path == p;
                            if j < i {
                                assert(reading::needs_base(v.files[j]));
                                assert(v.bases.contains_key(p));
                            }
                        }
                    }
                },
                _ => {},
            }
        }
    }
}

proof fn lemma_read_sound(answers: Seq<Option<Vec<u8>>>, n: int)
    requires
        forall|k: int| 0 <= k <= n ==> (#[trigger] read_run(answers, k)).files.len() <= usize::MAX,
    ensures
        reading::sound(read_run(answers, n)),
    decreases n,
{
    if n > 0 {
        lemma_read_sound(answers, n - 1);
        let v = read_run(answers, n - 1);
        let w = read_run(answers, n);
        assert(w == reading::next(v, answers[n - 1]));
        assert(w.files.len() <= usize::MAX && v.files.len() <= usize::MAX);
        match v.step {
            Step::Diff => {
                lemma_at_blob(w.files, 0);
            },
            Step::Blob(i) => {
                lemma_at_blob(w.files, i + 1);
            },
            _ => {},
        }
    }
}

proof fn lemma_nothing_read(answers: Seq<Option<Vec<u8>>>, n: int)
    ensures
        part(read_run(answers, n)) < 2 ==> read_run(answers, n).bases == Map::<
            Seq<char>,
            Vec<u8>,
        >::empty() && read_run(answers, n).files.len() == 0,
    decreases n,
{
    if n > 0 {
        lemma_nothing_read(answers, n - 1);
    }
}

} // verus!
