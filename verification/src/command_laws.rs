//! Which command a session gives when, for every plan, as long as nothing fails.
use vstd::prelude::*;

use crate::backend;
use crate::backend::{ActionView, IndexView};
use crate::committing;
use crate::committing::{CommittingView, StepView};
use crate::model::{ChangeView, CommitView, PlanView};
use crate::session_laws;
use crate::text;

verus! {

// ---------------------------------------------------------------------------
// When what is done.

/// Whether no commit before this one goes to the same branch.
pub open spec fn opens(commits: Seq<CommitView>, c: int) -> bool {
    forall|d: int| 0 <= d < c ==> (#[trigger] commits[d]).branch != commits[c].branch
}

/// Whether no commit after this one goes to the same branch.
pub open spec fn closes(commits: Seq<CommitView>, c: int) -> bool {
    forall|d: int|
        c < d < commits.len() ==> (#[trigger] commits[d]).branch != commits[c].branch
}

/// How many new branches the first `n` commits name.
pub open spec fn named(commits: Seq<CommitView>, n: int) -> int
    decreases n,
{
    if n <= 0 {
        0
    } else {
        named(commits, n - 1) + if commits[n - 1].branch is Some && opens(commits, n - 1) {
            1int
        } else {
            0int
        }
    }
}

/// How many branches the first `n` commits go to.
pub open spec fn opened(commits: Seq<CommitView>, n: int) -> int
    decreases n,
{
    if n <= 0 {
        0
    } else {
        opened(commits, n - 1) + if opens(commits, n - 1) {
            1int
        } else {
            0int
        }
    }
}

/// How many commands the first `n` files of a commit take: two to store and
/// enter a content, one to remove a file.
pub open spec fn file_commands(files: Seq<ChangeView>, n: int) -> int
    decreases n,
{
    if n <= 0 {
        0
    } else {
        file_commands(files, n - 1) + if files[n - 1].content is Some {
            2int
        } else {
            1int
        }
    }
}

/// How many commands a commit takes before those of its files.
pub open spec fn opening(commits: Seq<CommitView>, c: int) -> int {
    if opens(commits, c) {
        1
    } else {
        0
    }
}

/// How many commands were given before those of commit `c`.
pub open spec fn before_commit(commits: Seq<CommitView>, c: int) -> int
    decreases c,
{
    if c <= 0 {
        2 * named(commits, commits.len() as int) + 3
    } else {
        before_commit(commits, c - 1) + opening(commits, c - 1) + file_commands(
            commits[c - 1].files,
            commits[c - 1].files.len() as int,
        ) + 2
    }
}

/// How many commands were given before those of file `f` of commit `c`.
pub open spec fn before_file(commits: Seq<CommitView>, c: int, f: int) -> int {
    before_commit(commits, c) + opening(commits, c) + file_commands(commits[c].files, f)
}

/// Whether a commit goes to the branch that is checked out.
pub open spec fn moves_head(commits: Seq<CommitView>) -> bool {
    exists|c: int| 0 <= c < commits.len() && (#[trigger] commits[c]).branch is None
}

/// How many commands were given before the branches are made.
pub open spec fn before_branches(commits: Seq<CommitView>) -> int {
    before_commit(commits, commits.len() as int) + if moves_head(commits) {
        1int
    } else {
        0int
    }
}

/// How many commands were given before those of index update `u`, with these
/// answers to them: a file is stored and entered, or removed, then its copy in
/// the working tree is read, and written or removed if it is what was staged.
pub open spec fn before_update(plan: PlanView, answers: Seq<Option<Seq<u8>>>, u: int) -> int
    decreases u, 1int,
{
    if u <= 0 {
        before_branches(plan.commits) + named(plan.commits, plan.commits.len() as int)
    } else {
        before_copy(plan, answers, u - 1) + 1 + if answers[before_copy(plan, answers, u - 1)]
            == plan.updates[u - 1].staged {
            1int
        } else {
            0int
        }
    }
}

/// How many commands were given before the working tree copy is read.
pub open spec fn before_copy(plan: PlanView, answers: Seq<Option<Seq<u8>>>, u: int) -> int
    decreases u, 2int,
{
    if u < 0 {
        0
    } else {
        before_update(plan, answers, u) + if plan.updates[u].content is Some {
            2int
        } else {
            1int
        }
    }
}

/// The command or other action with number `k`.
pub open spec fn given(
    plan: PlanView,
    pid: u32,
    answers: Seq<Option<Seq<u8>>>,
    k: int,
) -> ActionView {
    committing::action(session_laws::run(committing::start(plan, pid), answers, k))
}

/// Whether nothing has failed in the first `n` answers.
pub open spec fn well(plan: PlanView, pid: u32, answers: Seq<Option<Seq<u8>>>, n: int) -> bool {
    0 <= n <= answers.len() && session_laws::run(
        committing::start(plan, pid),
        answers,
        n,
    ).failure is None
}

/// A git command without input on the repository's own index.
pub open spec fn command(args: Seq<Seq<char>>) -> ActionView {
    ActionView::Git { args, stdin: None, index: None }
}

// ---------------------------------------------------------------------------
// What was counted is what is done.

proof fn lemma_opens(commits: Seq<CommitView>, c: int)
    requires
        0 <= c < commits.len(),
    ensures
        opens(commits, c) <==> committing::last_on(commits, commits[c].branch, c) < 0,
{
    committing::lemma_last_on(commits, commits[c].branch, c);
    let d = committing::last_on(commits, commits[c].branch, c);
    if d >= 0 {
        assert(commits[d].branch == commits[c].branch);
    }
}

proof fn lemma_last(commits: Seq<CommitView>, c: int)
    requires
        0 <= c < commits.len(),
        closes(commits, c),
    ensures
        committing::last_on(commits, commits[c].branch, commits.len() as int) == c,
{
    let d = committing::last_on(commits, commits[c].branch, commits.len() as int);
    committing::lemma_last_on(commits, commits[c].branch, commits.len() as int);
    if d < c {
        assert(commits[c].branch == commits[c].branch);
    }
    if d > c {
        assert(commits[d].branch == commits[c].branch);
    }
}

proof fn lemma_moves_head(commits: Seq<CommitView>)
    ensures
        moves_head(commits) <==> committing::last_on(commits, None, commits.len() as int) >= 0,
{
    committing::lemma_last_on(commits, None, commits.len() as int);
    let d = committing::last_on(commits, None, commits.len() as int);
    if d >= 0 {
        assert(commits[d].branch is None);
    }
}

proof fn lemma_opened(commits: Seq<CommitView>, n: int)
    requires
        0 <= n <= commits.len(),
    ensures
        opened(commits, n) == committing::destinations(commits, n),
    decreases n,
{
    if n > 0 {
        lemma_opened(commits, n - 1);
        lemma_opens(commits, n - 1);
    }
}

proof fn lemma_slot_of(commits: Seq<CommitView>, e: int, c: int)
    requires
        0 <= e <= c < commits.len(),
        opens(commits, e),
        commits[e].branch == commits[c].branch,
    ensures
        committing::slot(commits, c) == opened(commits, e),
    decreases c,
{
    let d = committing::last_on(commits, commits[c].branch, c);
    committing::lemma_last_on(commits, commits[c].branch, c);
    lemma_opened(commits, e);
    if e == c {
        lemma_opens(commits, c);
    } else {
        if d < e {
            assert(commits[e].branch == commits[c].branch);
        }
        lemma_slot_of(commits, e, d);
    }
}

proof fn lemma_named(commits: Seq<CommitView>, n: int)
    requires
        0 <= n <= commits.len(),
    ensures
        committing::branch_names(commits, n).len() == named(commits, n),
        forall|b: Seq<char>| #[trigger]
            committing::branch_names(commits, n).contains(b) <==> exists|d: int|
                0 <= d < n && (#[trigger] commits[d]).branch == Some(b),
        forall|c: int|
            #![trigger named(commits, c)]
            0 <= c < n && commits[c].branch is Some && opens(commits, c) ==> 0 <= named(commits, c)
                < named(commits, n) && committing::branch_names(commits, n)[named(commits, c)]
                == commits[c].branch.unwrap(),
        named(commits, n) >= 0,
    decreases n,
{
    if n > 0 {
        lemma_named(commits, n - 1);
        let before = committing::branch_names(commits, n - 1);
        let after = committing::branch_names(commits, n);
        if let Some(b) = commits[n - 1].branch {
            if before.contains(b) {
                let d = choose|d: int|
                    0 <= d < n - 1 && (#[trigger] commits[d]).branch == Some(b);
                assert(!opens(commits, n - 1));
            } else {
                assert(opens(commits, n - 1));
                assert(after[after.len() - 1] == b);
            }
            assert forall|x: Seq<char>| #[trigger] after.contains(x) <==> exists|d: int|
                0 <= d < n && (#[trigger] commits[d]).branch == Some(x) by {
                if after.contains(x) {
                    if x == b {
                        assert(commits[n - 1].branch == Some(x));
                    } else {
                        assert(before.contains(x));
                    }
                }
                if exists|d: int| 0 <= d < n && (#[trigger] commits[d]).branch == Some(x) {
                    let d = choose|d: int| 0 <= d < n && (#[trigger] commits[d]).branch == Some(x);
                    if d < n - 1 {
                        assert(before.contains(x));
                        let i = choose|i: int| 0 <= i < before.len() && before[i] == x;
                        assert(after[i] == x);
                    } else if before.contains(b) {
                        assert(after == before);
                    } else {
                        assert(after[after.len() - 1] == x);
                    }
                }
            }
        }
    }
}

proof fn lemma_counts(commits: Seq<CommitView>, c: int)
    requires
        0 <= c <= commits.len(),
    ensures
        before_commit(commits, c) >= 2 * named(commits, commits.len() as int) + 3,
        named(commits, commits.len() as int) >= 0,
    decreases c,
{
    lemma_named(commits, commits.len() as int);
    if c > 0 {
        lemma_counts(commits, c - 1);
        lemma_file_counts(commits[c - 1].files, commits[c - 1].files.len() as int);
    }
}

proof fn lemma_file_counts(files: Seq<ChangeView>, n: int)
    ensures
        file_commands(files, n) >= 0,
    decreases n,
{
    if n > 0 {
        lemma_file_counts(files, n - 1);
    }
}

/// A session in which nothing has failed had nothing fail before.
proof fn lemma_well(plan: PlanView, pid: u32, answers: Seq<Option<Seq<u8>>>, k: int, n: int)
    requires
        0 <= k <= n,
        well(plan, pid, answers, n),
    ensures
        well(plan, pid, answers, k),
    decreases n - k,
{
    if k < n {
        let s = committing::start(plan, pid);
        let v = session_laws::run(s, answers, n - 1);
        assert(session_laws::run(s, answers, n) == committing::next(v, answers[n - 1]));
        assert(v.failure is None);
        lemma_well(plan, pid, answers, k, n - 1);
    }
}

spec fn state(plan: PlanView, pid: u32, answers: Seq<Option<Seq<u8>>>, k: int) -> CommittingView {
    session_laws::run(committing::start(plan, pid), answers, k)
}

/// One answer further.
proof fn lemma_step(plan: PlanView, pid: u32, answers: Seq<Option<Seq<u8>>>, k: int, n: int)
    requires
        0 <= k < n,
        well(plan, pid, answers, n),
    ensures
        well(plan, pid, answers, k),
        well(plan, pid, answers, k + 1),
        state(plan, pid, answers, k + 1) == committing::next(
            state(plan, pid, answers, k),
            answers[k],
        ),
        committing::sound(state(plan, pid, answers, k)),
        state(plan, pid, answers, k).plan == plan,
        state(plan, pid, answers, k).pid == pid,
{
    lemma_well(plan, pid, answers, k, n);
    lemma_well(plan, pid, answers, k + 1, n);
    session_laws::lemma_run(plan, pid, answers, k);
}

proof fn lemma_start(plan: PlanView, pid: u32, answers: Seq<Option<Seq<u8>>>, n: int)
    requires
        well(plan, pid, answers, n),
    ensures
        well(plan, pid, answers, 0),
        plan.commits.len() > 0,
        state(plan, pid, answers, 0) == committing::start(plan, pid),
{
    lemma_well(plan, pid, answers, 0, n);
}

proof fn lemma_at_name(
    plan: PlanView,
    pid: u32,
    answers: Seq<Option<Seq<u8>>>,
    n: int,
    b: int,
)
    requires
        well(plan, pid, answers, n),
        0 <= b <= named(plan.commits, plan.commits.len() as int),
        2 * b <= n,
    ensures
        state(plan, pid, answers, 2 * b).step == if b < named(
            plan.commits,
            plan.commits.len() as int,
        ) {
            StepView::CheckName { b }
        } else {
            StepView::GitDir
        },
        b > 0 ==> state(plan, pid, answers, 2 * b - 1).step == (StepView::CheckNew { b: b - 1 })
            && answers[2 * b - 2] is Some && (answers[2 * b - 1] matches Some(o) ==>
            backend::printed(o).len() == 0),
    decreases b,
{
    lemma_start(plan, pid, answers, n);
    lemma_named(plan.commits, plan.commits.len() as int);
    if b > 0 {
        lemma_at_name(plan, pid, answers, n, b - 1);
        lemma_step(plan, pid, answers, 2 * b - 2, n);
        lemma_step(plan, pid, answers, 2 * b - 1, n);
    }
}

/// What is known once the repository was asked.
spec fn asked(plan: PlanView, pid: u32, answers: Seq<Option<Seq<u8>>>, v: CommittingView) -> bool {
    &&& v.plan == plan
    &&& v.pid == pid
    &&& v.git_dir == git_dir(plan, answers)
    &&& v.head == head(plan, answers)
    &&& v.sign == signs(plan, answers)
}

/// The directory of the repository, as the answer gives it.
pub open spec fn git_dir(plan: PlanView, answers: Seq<Option<Seq<u8>>>) -> Seq<char> {
    match answers[2 * named(plan.commits, plan.commits.len() as int)] {
        Some(o) => backend::printed(o),
        None => Seq::<char>::empty(),
    }
}

/// The commit that is checked out, if the answer gives one.
pub open spec fn head(plan: PlanView, answers: Seq<Option<Seq<u8>>>) -> Option<Seq<char>> {
    match answers[2 * named(plan.commits, plan.commits.len() as int) + 1] {
        Some(o) => if backend::printed(o).len() > 0 {
            Some(backend::printed(o))
        } else {
            None
        },
        None => None,
    }
}

/// Whether the answer asks for signed commits.
pub open spec fn signs(plan: PlanView, answers: Seq<Option<Seq<u8>>>) -> bool {
    answers[2 * named(plan.commits, plan.commits.len() as int) + 2] matches Some(o)
        && backend::printed(o) == "true"@
}

/// The step that a commit begins with, or what follows the last one.
spec fn begins_with(commits: Seq<CommitView>, c: int, v: CommittingView) -> bool {
    if c < commits.len() {
        if opens(commits, c) {
            v.step == (StepView::ReadTree { c })
        } else {
            file_step(commits, c, 0, v)
        }
    } else {
        v == committing::to_commit(v, c)
    }
}

spec fn file_step(commits: Seq<CommitView>, c: int, f: int, v: CommittingView) -> bool {
    v.step == if f < commits[c].files.len() {
        StepView::Change { c, f }
    } else {
        StepView::WriteTree { c }
    }
}

proof fn lemma_at_asked(plan: PlanView, pid: u32, answers: Seq<Option<Seq<u8>>>, n: int)
    requires
        well(plan, pid, answers, n),
        before_commit(plan.commits, 0) <= n,
    ensures
        asked(plan, pid, answers, state(plan, pid, answers, before_commit(plan.commits, 0))),
        begins_with(
            plan.commits,
            0,
            state(plan, pid, answers, before_commit(plan.commits, 0)),
        ),
        ({
            let m = 2 * named(plan.commits, plan.commits.len() as int);
            &&& state(plan, pid, answers, m).step is GitDir
            &&& state(plan, pid, answers, m + 1).step is Head
            &&& state(plan, pid, answers, m + 2).step is Sign
            &&& answers[m] is Some
        }),
{
    let b = named(plan.commits, plan.commits.len() as int);
    lemma_start(plan, pid, answers, n);
    lemma_named(plan.commits, plan.commits.len() as int);
    lemma_at_name(plan, pid, answers, n, b);
    lemma_step(plan, pid, answers, 2 * b, n);
    lemma_step(plan, pid, answers, 2 * b + 1, n);
    lemma_step(plan, pid, answers, 2 * b + 2, n);
    lemma_opens(plan.commits, 0);
}

/// The second command of a file whose content is stored.
spec fn entered(
    plan: PlanView,
    pid: u32,
    answers: Seq<Option<Seq<u8>>>,
    c: int,
    f: int,
) -> bool {
    let t = before_file(plan.commits, c, f);
    let w = state(plan, pid, answers, t + 1);
    &&& answers[t] matches Some(o) && w.step == (StepView::Enter { c, f, sha: backend::word(o) })
    &&& asked(plan, pid, answers, w)
}

proof fn lemma_one_file(
    plan: PlanView,
    pid: u32,
    answers: Seq<Option<Seq<u8>>>,
    n: int,
    c: int,
    f: int,
)
    requires
        well(plan, pid, answers, n),
        0 <= c < plan.commits.len(),
        0 <= f < plan.commits[c].files.len(),
        0 <= before_file(plan.commits, c, f),
        before_file(plan.commits, c, f + 1) <= n,
        asked(plan, pid, answers, state(plan, pid, answers, before_file(plan.commits, c, f))),
        file_step(plan.commits, c, f, state(plan, pid, answers, before_file(plan.commits, c, f))),
    ensures
        asked(plan, pid, answers, state(plan, pid, answers, before_file(plan.commits, c, f + 1))),
        file_step(
            plan.commits,
            c,
            f + 1,
            state(plan, pid, answers, before_file(plan.commits, c, f + 1)),
        ),
        state(plan, pid, answers, before_file(plan.commits, c, f + 1)).ids == state(
            plan,
            pid,
            answers,
            before_file(plan.commits, c, f),
        ).ids,
        plan.commits[c].files[f].content is Some ==> entered(plan, pid, answers, c, f),
        answers[before_file(plan.commits, c, f)] is Some,
{
    let t = before_file(plan.commits, c, f);
    let u = before_file(plan.commits, c, f + 1);
    assert(file_commands(plan.commits[c].files, f + 1) == file_commands(plan.commits[c].files, f)
        + if plan.commits[c].files[f].content is Some {
        2int
    } else {
        1int
    });
    lemma_step(plan, pid, answers, t, n);
    if plan.commits[c].files[f].content is Some {
        assert(u == t + 2);
        lemma_step(plan, pid, answers, t + 1, n);
    } else {
        assert(u == t + 1);
    }
}

proof fn lemma_at_file(
    plan: PlanView,
    pid: u32,
    answers: Seq<Option<Seq<u8>>>,
    n: int,
    c: int,
    f: int,
)
    requires
        well(plan, pid, answers, n),
        0 <= c < plan.commits.len(),
        0 <= f <= plan.commits[c].files.len(),
        before_file(plan.commits, c, f) <= n,
        asked(plan, pid, answers, state(plan, pid, answers, before_commit(plan.commits, c))),
        begins_with(plan.commits, c, state(plan, pid, answers, before_commit(plan.commits, c))),
    ensures
        0 <= before_file(plan.commits, c, f),
        asked(plan, pid, answers, state(plan, pid, answers, before_file(plan.commits, c, f))),
        file_step(plan.commits, c, f, state(plan, pid, answers, before_file(plan.commits, c, f))),
        state(plan, pid, answers, before_file(plan.commits, c, f)).ids == state(
            plan,
            pid,
            answers,
            before_commit(plan.commits, c),
        ).ids,
    decreases f,
{
    let commits = plan.commits;
    lemma_counts(commits, c);
    lemma_file_counts(commits[c].files, f);
    if f > 0 {
        lemma_file_counts(commits[c].files, f - 1);
        lemma_at_file(plan, pid, answers, n, c, f - 1);
        lemma_one_file(plan, pid, answers, n, c, f - 1);
    } else {
        assert(file_commands(commits[c].files, 0) == 0);
        if opens(commits, c) {
            assert(before_file(commits, c, 0) == before_commit(commits, c) + 1);
            lemma_step(plan, pid, answers, before_commit(commits, c), n);
        }
    }
}

/// The last two commands of commit `c`.
spec fn made(plan: PlanView, pid: u32, answers: Seq<Option<Seq<u8>>>, c: int) -> bool {
    let t = before_commit(plan.commits, c + 1) - 2;
    let v = state(plan, pid, answers, t);
    let w = state(plan, pid, answers, t + 1);
    &&& v.step == (StepView::WriteTree { c })
    &&& asked(plan, pid, answers, v)
    &&& asked(plan, pid, answers, w)
    &&& w.ids == state(plan, pid, answers, before_commit(plan.commits, c)).ids
    &&& answers[t] matches Some(o) && w.step == (StepView::CommitTree {
        c,
        tree: backend::printed(o),
    })
}

proof fn lemma_made(plan: PlanView, pid: u32, answers: Seq<Option<Seq<u8>>>, n: int, c: int)
    requires
        well(plan, pid, answers, n),
        0 <= c < plan.commits.len(),
        before_commit(plan.commits, c + 1) <= n,
        asked(plan, pid, answers, state(plan, pid, answers, before_commit(plan.commits, c))),
        begins_with(plan.commits, c, state(plan, pid, answers, before_commit(plan.commits, c))),
    ensures
        made(plan, pid, answers, c),
        answers[before_commit(plan.commits, c + 1) - 1] is Some,
        asked(plan, pid, answers, state(plan, pid, answers, before_commit(plan.commits, c + 1))),
        begins_with(
            plan.commits,
            c + 1,
            state(plan, pid, answers, before_commit(plan.commits, c + 1)),
        ),
        state(plan, pid, answers, before_commit(plan.commits, c + 1)).ids == state(
            plan,
            pid,
            answers,
            before_commit(plan.commits, c),
        ).ids.push(id_of(plan, answers, c)),
{
    let commits = plan.commits;
    lemma_counts(commits, c);
    let m = commits[c].files.len() as int;
    lemma_file_counts(commits[c].files, m);
    let t = before_file(commits, c, m);
    assert(t + 2 == before_commit(commits, c + 1));
    lemma_at_file(plan, pid, answers, n, c, m);
    lemma_step(plan, pid, answers, t, n);
    lemma_step(plan, pid, answers, t + 1, n);
    if c + 1 < commits.len() {
        lemma_opens(commits, c + 1);
    }
}

proof fn lemma_at_commit(
    plan: PlanView,
    pid: u32,
    answers: Seq<Option<Seq<u8>>>,
    n: int,
    c: int,
)
    requires
        well(plan, pid, answers, n),
        0 <= c <= plan.commits.len(),
        before_commit(plan.commits, c) <= n,
    ensures
        asked(plan, pid, answers, state(plan, pid, answers, before_commit(plan.commits, c))),
        begins_with(plan.commits, c, state(plan, pid, answers, before_commit(plan.commits, c))),
        state(plan, pid, answers, before_commit(plan.commits, c)).ids =~= Seq::new(
            c as nat,
            |d: int| id_of(plan, answers, d),
        ),
    decreases c,
{
    let commits = plan.commits;
    lemma_counts(commits, c);
    if c <= 0 {
        lemma_at_asked(plan, pid, answers, n);
        lemma_start(plan, pid, answers, n);
        let t = before_commit(commits, 0);
        session_laws::lemma_run(plan, pid, answers, t);
        lemma_well(plan, pid, answers, t, n);
        lemma_opens(commits, 0);
        assert(state(plan, pid, answers, t).ids.len() == 0);
    } else {
        lemma_file_counts(commits[c - 1].files, commits[c - 1].files.len() as int);
        lemma_at_commit(plan, pid, answers, n, c - 1);
        lemma_made(plan, pid, answers, n, c - 1);
    }
}

/// The id of commit `c`: what the command printed that made it, which is the last
/// before those of the next commit.
pub open spec fn id_of(plan: PlanView, answers: Seq<Option<Seq<u8>>>, c: int) -> Seq<char> {
    match answers[before_commit(plan.commits, c + 1) - 1] {
        Some(o) => backend::printed(o),
        None => Seq::<char>::empty(),
    }
}

// ---------------------------------------------------------------------------
// The commands.

/// The index file that the commits on a branch are put together in: it is in the
/// directory of the repository, and numbered by how many branches come before the
/// one whose first commit is `e`.
pub open spec fn index_file(
    plan: PlanView,
    pid: u32,
    answers: Seq<Option<Seq<u8>>>,
    e: int,
) -> IndexView {
    IndexView {
        git_dir: git_dir(plan, answers),
        name: "hunkle-index-"@ + text::decimal(pid as nat) + "-"@ + text::decimal(
            opened(plan.commits, e) as nat,
        ),
    }
}

/// The name of each new branch is looked at first, in the order in which they are
/// named: whether it can be the name of a branch, and whether there is none.
pub proof fn law_branch_names_are_looked_at(
    plan: PlanView,
    pid: u32,
    answers: Seq<Option<Seq<u8>>>,
    n: int,
    c: int,
    name: Seq<char>,
)
    requires
        well(plan, pid, answers, n),
        0 <= c < plan.commits.len(),
        plan.commits[c].branch == Some(name),
        opens(plan.commits, c),
        2 * named(plan.commits, c) + 2 <= n,
    ensures
        ({
            let k = 2 * named(plan.commits, c);
            &&& k >= 0
            &&& given(plan, pid, answers, k) == command(
                seq!["check-ref-format"@, "--branch"@, name],
            )
            &&& answers[k] is Some
            &&& given(plan, pid, answers, k + 1) == command(
                seq!["rev-parse"@, "--verify"@, "--quiet"@, "refs/heads/"@ + name],
            )
            &&& answers[k + 1] matches Some(o) ==> backend::printed(o).len() == 0
        }),
{
    let b = named(plan.commits, c);
    lemma_named(plan.commits, plan.commits.len() as int);
    assert(committing::new_branches(plan.commits)[b] == name);
    lemma_at_name(plan, pid, answers, n, b);
    lemma_at_name(plan, pid, answers, n, b + 1);
    session_laws::lemma_run(plan, pid, answers, 2 * b);
    session_laws::lemma_run(plan, pid, answers, 2 * b + 1);
}

/// Then the repository is asked where it is, what is checked out, and whether
/// commits are to be signed.
pub proof fn law_repository_is_asked(
    plan: PlanView,
    pid: u32,
    answers: Seq<Option<Seq<u8>>>,
    n: int,
)
    requires
        well(plan, pid, answers, n),
        before_commit(plan.commits, 0) <= n,
    ensures
        ({
            let k = 2 * named(plan.commits, plan.commits.len() as int);
            &&& k >= 0
            &&& given(plan, pid, answers, k) == command(
                seq!["rev-parse"@, "--absolute-git-dir"@],
            )
            &&& answers[k] is Some
            &&& given(plan, pid, answers, k + 1) == command(
                seq!["rev-parse"@, "--verify"@, "--quiet"@, "HEAD"@],
            )
            &&& given(plan, pid, answers, k + 2) == command(
                seq!["config"@, "--bool"@, "--get"@, "commit.gpgsign"@],
            )
        }),
{
    lemma_named(plan.commits, plan.commits.len() as int);
    lemma_at_asked(plan, pid, answers, n);
}

/// What an index file is filled from: what is checked out, or nothing.
pub open spec fn filled_from(head: Option<Seq<char>>) -> Seq<char> {
    match head {
        Some(h) => h,
        None => "--empty"@,
    }
}

/// The first commit on each branch begins with the index file of this branch,
/// which is filled from what is checked out, and no other commit does.
pub proof fn law_index_file_is_filled(
    plan: PlanView,
    pid: u32,
    answers: Seq<Option<Seq<u8>>>,
    n: int,
    e: int,
)
    requires
        well(plan, pid, answers, n),
        0 <= e < plan.commits.len(),
        opens(plan.commits, e),
        before_commit(plan.commits, e) < n,
    ensures
        0 <= before_commit(plan.commits, e),
        given(plan, pid, answers, before_commit(plan.commits, e)) == (ActionView::Git {
            args: seq!["read-tree"@, filled_from(head(plan, answers))],
            stdin: None,
            index: Some(index_file(plan, pid, answers, e)),
        }),
        answers[before_commit(plan.commits, e)] is Some,
{
    let t = before_commit(plan.commits, e);
    lemma_counts(plan.commits, e);
    lemma_at_commit(plan, pid, answers, n, e);
    lemma_slot_of(plan.commits, e, e);
    lemma_step(plan, pid, answers, t, n);
    assert(committing::first_tree(state(plan, pid, answers, t).head) == filled_from(
        head(plan, answers),
    ));
    assert(committing::temp_index(state(plan, pid, answers, t), opened(plan.commits, e))
        == index_file(plan, pid, answers, e));
}

/// Each file of each commit is put into the index file of the branch of the
/// commit, one after the other: its content is stored and entered under its path
/// with its mode, or the file is removed.
pub proof fn law_files_are_put_into_the_index_file(
    plan: PlanView,
    pid: u32,
    answers: Seq<Option<Seq<u8>>>,
    n: int,
    e: int,
    c: int,
    f: int,
)
    requires
        well(plan, pid, answers, n),
        0 <= e <= c < plan.commits.len(),
        opens(plan.commits, e),
        plan.commits[e].branch == plan.commits[c].branch,
        0 <= f < plan.commits[c].files.len(),
        before_file(plan.commits, c, f + 1) <= n,
    ensures
        ({
            let k = before_file(plan.commits, c, f);
            let file = plan.commits[c].files[f];
            let index = Some(index_file(plan, pid, answers, e));
            &&& k >= 0
            &&& answers[k] is Some
            &&& match file.content {
                Some(content) => given(plan, pid, answers, k) == (ActionView::Git {
                    args: seq!["hash-object"@, "-w"@, "--stdin"@],
                    stdin: Some(content),
                    index: None,
                }) && given(plan, pid, answers, k + 1) == (ActionView::Git {
                    args: seq![
                        "update-index"@,
                        "--add"@,
                        "--cacheinfo"@,
                        file.mode + ","@ + backend::word(answers[k].unwrap()) + ","@ + file.path,
                    ],
                    stdin: None,
                    index,
                }),
                None => given(plan, pid, answers, k) == (ActionView::Git {
                    args: seq!["update-index"@, "--force-remove"@, "--"@, file.path],
                    stdin: None,
                    index,
                }),
            }
        }),
{
    let commits = plan.commits;
    lemma_counts(commits, c);
    lemma_file_counts(commits[c].files, f);
    assert(file_commands(commits[c].files, f + 1) > file_commands(commits[c].files, f));
    lemma_at_commit(plan, pid, answers, n, c);
    lemma_at_file(plan, pid, answers, n, c, f);
    lemma_one_file(plan, pid, answers, n, c, f);
    lemma_slot_of(commits, e, c);
}

/// The id of the commit that a commit is made on top of: the one before it on the
/// same branch, or else what is checked out. Here `d` is the commit before it on
/// the same branch, or -1.
pub open spec fn onto(
    plan: PlanView,
    answers: Seq<Option<Seq<u8>>>,
    d: int,
) -> Option<Seq<char>> {
    if d < 0 {
        head(plan, answers)
    } else {
        Some(id_of(plan, answers, d))
    }
}

/// The arguments that ask for a signature, and those that give the parent.
pub open spec fn signature(sign: bool) -> Seq<Seq<char>> {
    if sign {
        seq!["-S"@]
    } else {
        Seq::<Seq<char>>::empty()
    }
}

pub open spec fn parent(id: Option<Seq<char>>) -> Seq<Seq<char>> {
    match id {
        Some(p) => seq!["-p"@, p],
        None => Seq::<Seq<char>>::empty(),
    }
}

proof fn lemma_onto(plan: PlanView, answers: Seq<Option<Seq<u8>>>, v: CommittingView, d: int, c: int)
    requires
        0 <= c < plan.commits.len(),
        -1 <= d < c,
        d >= 0 ==> plan.commits[d].branch == plan.commits[c].branch,
        forall|i: int| d < i < c ==> (#[trigger] plan.commits[i]).branch != plan.commits[c].branch,
        v.ids =~= Seq::new(c as nat, |i: int| id_of(plan, answers, i)),
        v.head == head(plan, answers),
    ensures
        committing::parent(plan.commits, v.ids, v.head, c) == onto(plan, answers, d),
{
    let commits = plan.commits;
    committing::lemma_last_on(commits, commits[c].branch, c);
    let l = committing::last_on(commits, commits[c].branch, c);
    if l < d {
        assert(commits[d].branch == commits[c].branch);
    }
    if d < l {
        assert(commits[l].branch == commits[c].branch);
    }
}

proof fn lemma_commit_args(tree: Seq<char>, sign: bool, p: Option<Seq<char>>, message: Seq<char>)
    ensures
        committing::commit_args(tree, sign, p, message) == seq!["commit-tree"@, tree] + signature(
            sign,
        ) + parent(p) + seq!["-m"@, message],
{
}

/// Each commit ends with two commands: the tree is written from the index file of
/// its branch, and the commit is made of this tree, with its message, on top of
/// the commit before it on the same branch, or else of what is checked out.
pub proof fn law_commit_is_made_on_its_branch(
    plan: PlanView,
    pid: u32,
    answers: Seq<Option<Seq<u8>>>,
    n: int,
    e: int,
    d: int,
    c: int,
)
    requires
        well(plan, pid, answers, n),
        0 <= e <= c < plan.commits.len(),
        opens(plan.commits, e),
        plan.commits[e].branch == plan.commits[c].branch,
        -1 <= d < c,
        d >= 0 ==> plan.commits[d].branch == plan.commits[c].branch,
        forall|i: int| d < i < c ==> (#[trigger] plan.commits[i]).branch != plan.commits[c].branch,
        before_commit(plan.commits, c + 1) <= n,
    ensures
        ({
            let k = before_commit(plan.commits, c + 1) - 2;
            &&& k >= 0
            &&& given(plan, pid, answers, k) == (ActionView::Git {
                args: seq!["write-tree"@],
                stdin: None,
                index: Some(index_file(plan, pid, answers, e)),
            })
            &&& answers[k] is Some
            &&& given(plan, pid, answers, k + 1) == command(
                seq!["commit-tree"@, backend::printed(answers[k].unwrap())] + signature(
                    signs(plan, answers),
                ) + parent(onto(plan, answers, d)) + seq!["-m"@, plan.commits[c].message],
            )
            &&& answers[k + 1] is Some
        }),
{
    let commits = plan.commits;
    let k = before_commit(commits, c + 1) - 2;
    lemma_counts(commits, c);
    lemma_file_counts(commits[c].files, commits[c].files.len() as int);
    lemma_at_commit(plan, pid, answers, n, c);
    lemma_made(plan, pid, answers, n, c);
    lemma_slot_of(commits, e, c);
    let v = state(plan, pid, answers, k);
    let w = state(plan, pid, answers, k + 1);
    lemma_onto(plan, answers, w, d, c);
    let tree = backend::printed(answers[k].unwrap());
    lemma_commit_args(tree, w.sign, onto(plan, answers, d), commits[c].message);
    assert(committing::temp_index(v, opened(commits, e)) == index_file(plan, pid, answers, e));
}

// ---------------------------------------------------------------------------
// After the commits.

proof fn lemma_at_branch(
    plan: PlanView,
    pid: u32,
    answers: Seq<Option<Seq<u8>>>,
    n: int,
    b: int,
)
    requires
        well(plan, pid, answers, n),
        0 <= b <= named(plan.commits, plan.commits.len() as int),
        before_branches(plan.commits) + b <= n,
    ensures
        before_branches(plan.commits) >= 0,
        state(plan, pid, answers, before_branches(plan.commits) + b) == committing::to_branch(
            state(plan, pid, answers, before_branches(plan.commits) + b),
            b,
        ),
        asked(
            plan,
            pid,
            answers,
            state(plan, pid, answers, before_branches(plan.commits) + b),
        ),
        state(plan, pid, answers, before_branches(plan.commits) + b).ids =~= Seq::new(
            plan.commits.len(),
            |d: int| id_of(plan, answers, d),
        ),
        b > 0 ==> answers[before_branches(plan.commits) + b - 1] is Some,
        moves_head(plan.commits) ==> state(
            plan,
            pid,
            answers,
            before_commit(plan.commits, plan.commits.len() as int),
        ).step is MoveHead && answers[before_commit(
            plan.commits,
            plan.commits.len() as int,
        )] is Some,
    decreases b,
{
    let commits = plan.commits;
    let m = before_commit(commits, commits.len() as int);
    lemma_counts(commits, commits.len() as int);
    lemma_named(commits, commits.len() as int);
    lemma_moves_head(commits);
    if b > 0 {
        lemma_at_branch(plan, pid, answers, n, b - 1);
        lemma_step(plan, pid, answers, before_branches(commits) + b - 1, n);
    } else {
        lemma_at_commit(plan, pid, answers, n, commits.len() as int);
        if moves_head(commits) {
            lemma_step(plan, pid, answers, m, n);
        }
    }
}

/// When all commits are there, the branch that is checked out is moved to the
/// last commit that goes to it, from where it was. Nothing is moved when no
/// commit goes to it.
pub proof fn law_head_is_moved_to_its_last_commit(
    plan: PlanView,
    pid: u32,
    answers: Seq<Option<Seq<u8>>>,
    n: int,
    c: int,
)
    requires
        well(plan, pid, answers, n),
        0 <= c < plan.commits.len(),
        plan.commits[c].branch is None,
        closes(plan.commits, c),
        before_commit(plan.commits, plan.commits.len() as int) < n,
    ensures
        ({
            let k = before_commit(plan.commits, plan.commits.len() as int);
            let id = id_of(plan, answers, c);
            &&& k >= 0
            &&& given(plan, pid, answers, k) == command(
                match head(plan, answers) {
                    Some(h) => seq![
                        "update-ref"@,
                        "-m"@,
                        "hunkle: split staged changes"@,
                        "HEAD"@,
                        id,
                        h,
                    ],
                    None => seq!["update-ref"@, "HEAD"@, id],
                },
            )
            &&& answers[k] is Some
            &&& before_branches(plan.commits) == k + 1
        }),
{
    let k = before_commit(plan.commits, plan.commits.len() as int);
    assert(moves_head(plan.commits));
    lemma_counts(plan.commits, plan.commits.len() as int);
    lemma_at_branch(plan, pid, answers, n, 0);
    lemma_at_commit(plan, pid, answers, n, plan.commits.len() as int);
    lemma_last(plan.commits, c);
    let v = state(plan, pid, answers, k);
    assert(v.ids[c] == id_of(plan, answers, c));
}

/// Each new branch is made at the last commit that goes to it. Here `e` is the
/// first commit on the branch, and `c` the last.
pub proof fn law_branch_is_made_at_its_last_commit(
    plan: PlanView,
    pid: u32,
    answers: Seq<Option<Seq<u8>>>,
    n: int,
    e: int,
    c: int,
    name: Seq<char>,
)
    requires
        well(plan, pid, answers, n),
        0 <= e <= c < plan.commits.len(),
        plan.commits[e].branch == Some(name),
        plan.commits[c].branch == Some(name),
        opens(plan.commits, e),
        closes(plan.commits, c),
        before_branches(plan.commits) + named(plan.commits, e) < n,
    ensures
        ({
            let k = before_branches(plan.commits) + named(plan.commits, e);
            &&& 0 <= k
            &&& given(plan, pid, answers, k) == command(
                seq!["branch"@, name, id_of(plan, answers, c)],
            )
            &&& answers[k] is Some
        }),
{
    let b = named(plan.commits, e);
    let k = before_branches(plan.commits) + b;
    lemma_named(plan.commits, plan.commits.len() as int);
    assert(committing::new_branches(plan.commits)[b] == name);
    lemma_at_branch(plan, pid, answers, n, b);
    lemma_at_branch(plan, pid, answers, n, b + 1);
    lemma_last(plan.commits, c);
    let v = state(plan, pid, answers, k);
    assert(v.ids[c] == id_of(plan, answers, c));
}

/// The ids of the commits that were made are what the commands printed that made
/// them.
pub proof fn law_ids_are_those_of_the_commits(
    plan: PlanView,
    pid: u32,
    answers: Seq<Option<Seq<u8>>>,
    n: int,
    c: int,
)
    requires
        well(plan, pid, answers, n),
        0 <= c < plan.commits.len(),
        before_commit(plan.commits, c + 1) <= n,
    ensures
        c < session_laws::run(committing::start(plan, pid), answers, n).ids.len(),
        session_laws::run(committing::start(plan, pid), answers, n).ids[c] == id_of(
            plan,
            answers,
            c,
        ),
{
    let t = before_commit(plan.commits, c + 1);
    lemma_counts(plan.commits, c + 1);
    lemma_at_commit(plan, pid, answers, n, c + 1);
    session_laws::lemma_ids_grow(committing::start(plan, pid), answers, t, n);
    let a = state(plan, pid, answers, t).ids;
    let b = state(plan, pid, answers, n).ids;
    assert(a[c] == id_of(plan, answers, c));
    assert(a =~= b.take(a.len() as int));
    assert(b.take(a.len() as int)[c] == b[c]);
}

// ---------------------------------------------------------------------------
// Nothing else.

/// Which command a step is, by its number.
spec fn timely(plan: PlanView, answers: Seq<Option<Seq<u8>>>, k: int, v: CommittingView) -> bool {
    let commits = plan.commits;
    let m = named(commits, commits.len() as int);
    match v.step {
        StepView::CheckName { b } => k == 2 * b,
        StepView::CheckNew { b } => k == 2 * b + 1,
        StepView::GitDir => k == 2 * m,
        StepView::Head => k == 2 * m + 1,
        StepView::Sign => k == 2 * m + 2,
        StepView::ReadTree { c } => k == before_commit(commits, c),
        StepView::Change { c, f } => k == before_file(commits, c, f),
        StepView::Enter { c, f, .. } => k == before_file(commits, c, f) + 1
            && commits[c].files[f].content is Some,
        StepView::WriteTree { c } => k == before_commit(commits, c + 1) - 2,
        StepView::CommitTree { c, .. } => k == before_commit(commits, c + 1) - 1,
        StepView::MoveHead => k == before_commit(commits, commits.len() as int),
        StepView::MakeBranch { b } => k == before_branches(commits) + b,
        StepView::Restage { u } => k == before_update(plan, answers, u),
        StepView::Reenter { u, .. } => k == before_update(plan, answers, u) + 1
            && plan.updates[u].content is Some,
        StepView::ReadFile { u } => k == before_copy(plan, answers, u),
        StepView::PutFile { u } => k == before_copy(plan, answers, u) + 1 && answers[k - 1]
            == plan.updates[u].staged,
        _ => k >= before_update(plan, answers, plan.updates.len() as int),
    }
}

proof fn lemma_file_timely(commits: Seq<CommitView>, c: int, f: int)
    ensures
        f >= 0 ==> before_file(commits, c, f + 1) == before_file(commits, c, f) + if commits[c].files[f].content is Some {
            2int
        } else {
            1int
        },
        c >= 0 ==> before_commit(commits, c + 1) == before_file(
            commits,
            c,
            commits[c].files.len() as int,
        ) + 2,
        before_file(commits, c, 0) == before_commit(commits, c) + opening(commits, c),
{
}

proof fn lemma_timely_commit(
    plan: PlanView,
    answers: Seq<Option<Seq<u8>>>,
    v: CommittingView,
    c: int,
)
    requires
        v.plan == plan,
        0 <= c <= plan.commits.len(),
        v.failure is None,
    ensures
        timely(plan, answers, before_commit(plan.commits, c), committing::to_commit(v, c)),
{
    let commits = plan.commits;
    lemma_named(commits, commits.len() as int);
    if c < commits.len() {
        lemma_opens(commits, c);
        lemma_file_timely(commits, c, 0);
    } else {
        lemma_moves_head(commits);
    }
}

proof fn lemma_timely(plan: PlanView, pid: u32, answers: Seq<Option<Seq<u8>>>, n: int)
    requires
        well(plan, pid, answers, n),
    ensures
        timely(plan, answers, n, state(plan, pid, answers, n)),
    decreases n,
{
    let commits = plan.commits;
    lemma_start(plan, pid, answers, n);
    lemma_named(commits, commits.len() as int);
    if n > 0 {
        lemma_step(plan, pid, answers, n - 1, n);
        lemma_timely(plan, pid, answers, n - 1);
        let v = state(plan, pid, answers, n - 1);
        match v.step {
            StepView::Sign => {
                lemma_timely_commit(
                    plan,
                    answers,
                    CommittingView { sign: state(plan, pid, answers, n).sign, ..v },
                    0,
                );
            },
            StepView::ReadTree { c } => {
                lemma_file_timely(commits, c, 0);
                lemma_opens(commits, c);
            },
            StepView::Change { c, f } => {
                lemma_file_timely(commits, c, f);
            },
            StepView::Enter { c, f, .. } => {
                lemma_file_timely(commits, c, f);
            },
            StepView::CommitTree { c, .. } => {
                lemma_timely_commit(
                    plan,
                    answers,
                    CommittingView { ids: state(plan, pid, answers, n).ids, ..v },
                    c + 1,
                );
            },
            StepView::MoveHead => {
                lemma_moves_head(commits);
            },
            _ => {},
        }
    }
}

/// A session that is over, without failure, has given all its commands.
proof fn lemma_over(plan: PlanView, pid: u32, answers: Seq<Option<Seq<u8>>>, n: int)
    requires
        well(plan, pid, answers, n),
        state(plan, pid, answers, n).step is Finished,
    ensures
        before_update(plan, answers, plan.updates.len() as int) <= n,
        before_update(plan, answers, 0) <= before_update(
            plan,
            answers,
            plan.updates.len() as int,
        ),
{
    lemma_timely(plan, pid, answers, n);
    lemma_updates_take(plan, answers, 0, plan.updates.len() as int);
}

proof fn lemma_updates_take(plan: PlanView, answers: Seq<Option<Seq<u8>>>, a: int, b: int)
    requires
        0 <= a <= b,
    ensures
        before_update(plan, answers, a) <= before_update(plan, answers, b),
    decreases b - a,
{
    if a < b {
        lemma_updates_take(plan, answers, a, b - 1);
    }
}

proof fn lemma_only_branches_are_branched(v: CommittingView)
    requires
        committing::action(v) matches ActionView::Git { args, .. } && args.len() > 0 && args[0]
            == "branch"@,
    ensures
        v.step is MakeBranch,
{
    reveal_strlit("branch");
    reveal_strlit("check-ref-format");
    reveal_strlit("rev-parse");
    reveal_strlit("config");
    reveal_strlit("read-tree");
    reveal_strlit("hash-object");
    reveal_strlit("update-index");
    reveal_strlit("write-tree");
    reveal_strlit("commit-tree");
    reveal_strlit("update-ref");
    assert("config"@[0] != "branch"@[0]);
}

/// When a session has come to its end without failure, each new branch was made
/// by exactly one command, at the last commit that goes to it.
#[verifier::rlimit(40)]
pub proof fn law_each_branch_is_made_once(
    plan: PlanView,
    pid: u32,
    answers: Seq<Option<Seq<u8>>>,
    n: int,
    c: int,
    name: Seq<char>,
) -> (k: int)
    requires
        well(plan, pid, answers, n),
        session_laws::run(committing::start(plan, pid), answers, n).step is Finished,
        0 <= c < plan.commits.len(),
        plan.commits[c].branch == Some(name),
        closes(plan.commits, c),
    ensures
        0 <= k < n,
        given(plan, pid, answers, k) == command(
            seq![
                "branch"@,
                name,
                session_laws::run(committing::start(plan, pid), answers, n).ids[c],
            ],
        ),
        forall|j: int|
            0 <= j < n && (#[trigger] given(plan, pid, answers, j) matches ActionView::Git {
                args,
                ..
            } && args.len() > 1 && args[0] == "branch"@ && args[1] == name) ==> j == k,
{
    let commits = plan.commits;
    let e = lemma_first(commits, c);
    let b = named(commits, e);
    let k = before_branches(commits) + b;
    lemma_named(commits, commits.len() as int);
    lemma_over(plan, pid, answers, n);
    lemma_counts(commits, commits.len() as int);
    law_branch_is_made_at_its_last_commit(plan, pid, answers, n, e, c, name);
    lemma_commits_take(commits, c + 1, commits.len() as int);
    law_ids_are_those_of_the_commits(plan, pid, answers, n, c);
    assert forall|j: int|
        0 <= j < n && (#[trigger] given(plan, pid, answers, j) matches ActionView::Git {
            args,
            ..
        } && args.len() > 1 && args[0] == "branch"@ && args[1] == name) implies j == k by {
        lemma_branch_is_made_then(plan, pid, answers, n, j, b, name);
    }
    k
}

/// A command that makes a branch is given when its turn has come.
proof fn lemma_branch_is_made_then(
    plan: PlanView,
    pid: u32,
    answers: Seq<Option<Seq<u8>>>,
    n: int,
    j: int,
    b: int,
    name: Seq<char>,
)
    requires
        well(plan, pid, answers, n),
        0 <= j < n,
        0 <= b < committing::new_branches(plan.commits).len(),
        committing::new_branches(plan.commits)[b] == name,
        given(plan, pid, answers, j) matches ActionView::Git { args, .. } && args.len() > 1
            && args[0] == "branch"@ && args[1] == name,
    ensures
        j == before_branches(plan.commits) + b,
{
    let v = state(plan, pid, answers, j);
    lemma_only_branches_are_branched(v);
    lemma_well(plan, pid, answers, j, n);
    lemma_timely(plan, pid, answers, j);
    session_laws::lemma_run(plan, pid, answers, j);
    let i = v.step->MakeBranch_b;
    lemma_names_differ(plan.commits, plan.commits.len() as int, i, b);
}

proof fn lemma_names_differ(commits: Seq<CommitView>, n: int, a: int, b: int)
    requires
        0 <= n <= commits.len(),
        0 <= a < committing::branch_names(commits, n).len(),
        0 <= b < committing::branch_names(commits, n).len(),
        committing::branch_names(commits, n)[a] == committing::branch_names(commits, n)[b],
    ensures
        a == b,
    decreases n,
{
    if n > 0 {
        let before = committing::branch_names(commits, n - 1);
        if a < before.len() && b < before.len() {
            lemma_names_differ(commits, n - 1, a, b);
        } else if a < before.len() {
            assert(before.contains(before[a]));
        } else if b < before.len() {
            assert(before.contains(before[b]));
        }
    }
}

/// The first commit on the branch of a commit.
proof fn lemma_first(commits: Seq<CommitView>, c: int) -> (e: int)
    requires
        0 <= c < commits.len(),
    ensures
        0 <= e <= c,
        commits[e].branch == commits[c].branch,
        opens(commits, e),
    decreases c,
{
    if opens(commits, c) {
        c
    } else {
        let d = choose|d: int| 0 <= d < c && (#[trigger] commits[d]).branch == commits[c].branch;
        lemma_first(commits, d)
    }
}

proof fn lemma_commits_take(commits: Seq<CommitView>, a: int, b: int)
    requires
        0 <= a <= b,
    ensures
        before_commit(commits, a) <= before_commit(commits, b),
    decreases b - a,
{
    if a < b {
        lemma_commits_take(commits, a, b - 1);
        lemma_file_counts(commits[b - 1].files, commits[b - 1].files.len() as int);
    }
}

/// When a session has come to its end without failure, the branch that is checked
/// out was moved to the last commit that goes to it.
pub proof fn law_head_was_moved(
    plan: PlanView,
    pid: u32,
    answers: Seq<Option<Seq<u8>>>,
    n: int,
    c: int,
) -> (k: int)
    requires
        well(plan, pid, answers, n),
        session_laws::run(committing::start(plan, pid), answers, n).step is Finished,
        0 <= c < plan.commits.len(),
        plan.commits[c].branch is None,
        closes(plan.commits, c),
    ensures
        0 <= k < n,
        given(plan, pid, answers, k) == command(
            match head(plan, answers) {
                Some(h) => seq![
                    "update-ref"@,
                    "-m"@,
                    "hunkle: split staged changes"@,
                    "HEAD"@,
                    session_laws::run(committing::start(plan, pid), answers, n).ids[c],
                    h,
                ],
                None => seq![
                    "update-ref"@,
                    "HEAD"@,
                    session_laws::run(committing::start(plan, pid), answers, n).ids[c],
                ],
            },
        ),
{
    let commits = plan.commits;
    let k = before_commit(commits, commits.len() as int);
    lemma_named(commits, commits.len() as int);
    lemma_over(plan, pid, answers, n);
    assert(moves_head(commits));
    law_head_is_moved_to_its_last_commit(plan, pid, answers, n, c);
    lemma_commits_take(commits, c + 1, commits.len() as int);
    law_ids_are_those_of_the_commits(plan, pid, answers, n, c);
    k
}

proof fn lemma_only_head_is_moved(v: CommittingView)
    requires
        committing::action(v) matches ActionView::Git { args, .. } && args.len() > 0 && args[0]
            == "update-ref"@,
    ensures
        v.step is MoveHead,
{
    reveal_strlit("branch");
    reveal_strlit("check-ref-format");
    reveal_strlit("rev-parse");
    reveal_strlit("config");
    reveal_strlit("read-tree");
    reveal_strlit("hash-object");
    reveal_strlit("update-index");
    reveal_strlit("write-tree");
    reveal_strlit("commit-tree");
    reveal_strlit("update-ref");
    assert("write-tree"@ != "update-ref"@) by {
        assert("write-tree"@[0] == 'w');
        assert("update-ref"@[0] == 'u');
    }
    assert("rev-parse"@.len() == 9);
    assert("read-tree"@.len() == 9);
    assert("check-ref-format"@.len() == 16);
    assert("update-ref"@.len() == 10);
}

/// When no commit goes to the branch that is checked out, it is not moved.
pub proof fn law_head_stays_without_commits(
    plan: PlanView,
    pid: u32,
    answers: Seq<Option<Seq<u8>>>,
    k: int,
)
    requires
        0 <= k <= answers.len(),
        !moves_head(plan.commits),
    ensures
        !(given(plan, pid, answers, k) matches ActionView::Git { args, .. } && args.len() > 0
            && args[0] == "update-ref"@),
{
    session_laws::lemma_run(plan, pid, answers, k);
    lemma_moves_head(plan.commits);
    let v = state(plan, pid, answers, k);
    if committing::action(v) matches ActionView::Git { args, .. } && args.len() > 0 && args[0]
        == "update-ref"@ {
        lemma_only_head_is_moved(v);
    }
}

// ---------------------------------------------------------------------------
// The index and the working tree.

proof fn lemma_one_update(
    plan: PlanView,
    pid: u32,
    answers: Seq<Option<Seq<u8>>>,
    n: int,
    u: int,
)
    requires
        well(plan, pid, answers, n),
        0 <= u < plan.updates.len(),
        0 <= before_update(plan, answers, u),
        before_update(plan, answers, u + 1) <= n,
        state(plan, pid, answers, before_update(plan, answers, u)).step == (StepView::Restage { u }),
    ensures
        answers[before_update(plan, answers, u)] is Some,
        plan.updates[u].content is Some ==> state(
            plan,
            pid,
            answers,
            before_update(plan, answers, u) + 1,
        ).step == (StepView::Reenter {
            u,
            sha: backend::word(answers[before_update(plan, answers, u)].unwrap()),
        }) && answers[before_update(plan, answers, u) + 1] is Some,
        state(plan, pid, answers, before_copy(plan, answers, u)).step == (StepView::ReadFile { u }),
        state(plan, pid, answers, before_copy(plan, answers, u)).skipped == state(
            plan,
            pid,
            answers,
            before_update(plan, answers, u),
        ).skipped,
{
    let k = before_update(plan, answers, u);
    lemma_step(plan, pid, answers, k, n);
    if plan.updates[u].content is Some {
        lemma_step(plan, pid, answers, k + 1, n);
    }
}

/// What was skipped of the first `n` updates: the paths of the files whose
/// working tree copy is not what was staged.
pub open spec fn left_alone(plan: PlanView, answers: Seq<Option<Seq<u8>>>, n: int) -> Seq<
    Seq<char>,
>
    decreases n,
{
    if n <= 0 {
        Seq::<Seq<char>>::empty()
    } else if answers[before_copy(plan, answers, n - 1)] == plan.updates[n - 1].staged {
        left_alone(plan, answers, n - 1)
    } else {
        left_alone(plan, answers, n - 1).push(plan.updates[n - 1].path)
    }
}

proof fn lemma_at_update(
    plan: PlanView,
    pid: u32,
    answers: Seq<Option<Seq<u8>>>,
    n: int,
    u: int,
)
    requires
        well(plan, pid, answers, n),
        0 <= u <= plan.updates.len(),
        before_update(plan, answers, u) <= n,
    ensures
        before_update(plan, answers, u) >= 0,
        u < plan.updates.len() ==> state(
            plan,
            pid,
            answers,
            before_update(plan, answers, u),
        ).step == (StepView::Restage { u }),
        u == plan.updates.len() ==> tidies(
            state(plan, pid, answers, before_update(plan, answers, u)),
        ),
        state(plan, pid, answers, before_update(plan, answers, u)).skipped == left_alone(
            plan,
            answers,
            u,
        ),
        u > 0 && answers[before_copy(plan, answers, u - 1)] == plan.updates[u - 1].staged ==> state(
            plan,
            pid,
            answers,
            before_copy(plan, answers, u - 1) + 1,
        ).step == (StepView::PutFile { u: u - 1 }),
    decreases u,
{
    let k = before_update(plan, answers, u);
    if u <= 0 {
        let m = named(plan.commits, plan.commits.len() as int);
        lemma_named(plan.commits, plan.commits.len() as int);
        lemma_at_branch(plan, pid, answers, n, m);
        session_laws::lemma_run(plan, pid, answers, k);
        lemma_nothing_skipped(plan, pid, answers, n);
    } else {
        lemma_at_update(plan, pid, answers, n, u - 1);
        lemma_one_update(plan, pid, answers, n, u - 1);
        let r = before_copy(plan, answers, u - 1);
        lemma_step(plan, pid, answers, r, n);
        if answers[r] == plan.updates[u - 1].staged {
            lemma_step(plan, pid, answers, r + 1, n);
        }
    }
}

spec fn tidies(v: CommittingView) -> bool {
    v.step is Cleanup || v.step is Finished
}

/// Nothing is skipped before the updates.
proof fn lemma_nothing_skipped(plan: PlanView, pid: u32, answers: Seq<Option<Seq<u8>>>, n: int)
    requires
        well(plan, pid, answers, n),
        before_update(plan, answers, 0) <= n,
    ensures
        state(plan, pid, answers, before_update(plan, answers, 0)).skipped == Seq::<
            Seq<char>,
        >::empty(),
{
    let m = named(plan.commits, plan.commits.len() as int);
    lemma_named(plan.commits, plan.commits.len() as int);
    lemma_at_branch(plan, pid, answers, n, m);
    lemma_none_skipped(plan, pid, answers, n, m);
}

proof fn lemma_none_skipped(
    plan: PlanView,
    pid: u32,
    answers: Seq<Option<Seq<u8>>>,
    n: int,
    b: int,
)
    requires
        well(plan, pid, answers, n),
        0 <= b <= named(plan.commits, plan.commits.len() as int),
        before_branches(plan.commits) + b <= n,
    ensures
        state(plan, pid, answers, before_branches(plan.commits) + b).skipped == Seq::<
            Seq<char>,
        >::empty(),
    decreases b,
{
    let commits = plan.commits;
    lemma_named(commits, commits.len() as int);
    if b > 0 {
        lemma_none_skipped(plan, pid, answers, n, b - 1);
        lemma_at_branch(plan, pid, answers, n, b - 1);
        lemma_step(plan, pid, answers, before_branches(commits) + b - 1, n);
    } else {
        let last = commits.len() as int;
        lemma_start(plan, pid, answers, n);
        lemma_counts(commits, last);
        lemma_counts(commits, last - 1);
        lemma_file_counts(commits[last - 1].files, commits[last - 1].files.len() as int);
        let m = before_commit(commits, last);
        lemma_at_commit(plan, pid, answers, n, last - 1);
        lemma_made(plan, pid, answers, n, last - 1);
        lemma_step(plan, pid, answers, m - 1, n);
        assert(state(plan, pid, answers, m).skipped =~= Seq::<Seq<char>>::empty());
        lemma_moves_head(commits);
        if moves_head(commits) {
            lemma_at_branch(plan, pid, answers, n, 0);
            lemma_step(plan, pid, answers, m, n);
        }
    }
}

/// What stays staged of each updated file is put into the repository's own index:
/// its content is stored and entered under its path with its mode, or the file is
/// removed from the index. Then its copy in the working tree is read, and made what
/// stays staged exactly if it was what had been staged.
pub proof fn law_updates_are_put_into_the_index(
    plan: PlanView,
    pid: u32,
    answers: Seq<Option<Seq<u8>>>,
    n: int,
    u: int,
)
    requires
        well(plan, pid, answers, n),
        0 <= u < plan.updates.len(),
        before_update(plan, answers, u + 1) <= n,
    ensures
        ({
            let k = before_update(plan, answers, u);
            let r = before_copy(plan, answers, u);
            let update = plan.updates[u];
            &&& 0 <= k < r < n
            &&& answers[k] is Some
            &&& match update.content {
                Some(content) => given(plan, pid, answers, k) == (ActionView::Git {
                    args: seq!["hash-object"@, "-w"@, "--stdin"@],
                    stdin: Some(content),
                    index: None,
                }) && given(plan, pid, answers, k + 1) == command(
                    seq![
                        "update-index"@,
                        "--add"@,
                        "--cacheinfo"@,
                        update.mode + ","@ + backend::word(answers[k].unwrap()) + ","@
                            + update.path,
                    ],
                ) && answers[k + 1] is Some,
                None => given(plan, pid, answers, k) == command(
                    seq!["update-index"@, "--force-remove"@, "--"@, update.path],
                ),
            }
            &&& given(plan, pid, answers, r) == (ActionView::ReadFile { path: update.path })
            &&& answers[r] == update.staged ==> given(plan, pid, answers, r + 1) == (
            match update.content {
                Some(content) => ActionView::WriteFile { path: update.path, content },
                None => ActionView::RemoveFile { path: update.path },
            })
        }),
{
    let k = before_update(plan, answers, u);
    let r = before_copy(plan, answers, u);
    lemma_at_update(plan, pid, answers, n, u);
    lemma_one_update(plan, pid, answers, n, u);
    lemma_at_update(plan, pid, answers, n, u + 1);
    session_laws::lemma_run(plan, pid, answers, k);
    session_laws::lemma_run(plan, pid, answers, k + 1);
    session_laws::lemma_run(plan, pid, answers, r);
    session_laws::lemma_run(plan, pid, answers, r + 1);
}

/// When a session has come to its end without failure, it names the files whose
/// working tree copy was not what had been staged, and no others.
pub proof fn law_edited_files_are_named(
    plan: PlanView,
    pid: u32,
    answers: Seq<Option<Seq<u8>>>,
    n: int,
)
    requires
        well(plan, pid, answers, n),
        session_laws::run(committing::start(plan, pid), answers, n).step is Finished,
    ensures
        session_laws::run(committing::start(plan, pid), answers, n).skipped == left_alone(
            plan,
            answers,
            plan.updates.len() as int,
        ),
        session_laws::run(committing::start(plan, pid), answers, n).ids == Seq::new(
            plan.commits.len(),
            |c: int| id_of(plan, answers, c),
        ),
{
    let u = plan.updates.len() as int;
    lemma_over(plan, pid, answers, n);
    lemma_at_update(plan, pid, answers, n, u);
    lemma_tidying(plan, pid, answers, before_update(plan, answers, u), n);
    session_laws::lemma_run(plan, pid, answers, n);
    let ids = state(plan, pid, answers, n).ids;
    lemma_named(plan.commits, plan.commits.len() as int);
    assert forall|c: int| 0 <= c < plan.commits.len() implies ids[c] == #[trigger] id_of(
        plan,
        answers,
        c,
    ) by {
        lemma_commits_take(plan.commits, c + 1, plan.commits.len() as int);
        law_ids_are_those_of_the_commits(plan, pid, answers, n, c);
    }
    assert(ids =~= Seq::new(plan.commits.len(), |c: int| id_of(plan, answers, c)));
}

proof fn lemma_tidying(plan: PlanView, pid: u32, answers: Seq<Option<Seq<u8>>>, k: int, n: int)
    requires
        0 <= k <= n <= answers.len(),
        tidies(state(plan, pid, answers, k)),
    ensures
        tidies(state(plan, pid, answers, n)),
        state(plan, pid, answers, n).skipped == state(plan, pid, answers, k).skipped,
    decreases n - k,
{
    if k < n {
        lemma_tidying(plan, pid, answers, k, n - 1);
        assert(state(plan, pid, answers, n) == committing::next(
            state(plan, pid, answers, n - 1),
            answers[n - 1],
        ));
    }
}

// ---------------------------------------------------------------------------
// What fails.

/// What a session fails with: a plan without commits has nothing to commit; a name
/// that is no name for a branch, and one that a branch has, are given back; and
/// any other command that is not done is what failed.
pub proof fn law_what_fails_is_named(
    plan: PlanView,
    pid: u32,
    answers: Seq<Option<Seq<u8>>>,
    k: int,
)
    requires
        well(plan, pid, answers, k),
        k < answers.len(),
        !well(plan, pid, answers, k + 1),
    ensures
        ({
            let failure = session_laws::run(
                committing::start(plan, pid),
                answers,
                k + 1,
            ).failure;
            match given(plan, pid, answers, k) {
                ActionView::Git { args, .. } => if args[0] == "check-ref-format"@ {
                    failure == Some(committing::CommitErrorView::InvalidBranch(args[2]))
                } else if answers[k] is Some {
                    args.len() == 4 && (failure matches Some(
                        committing::CommitErrorView::BranchExists(name),
                    ) && args[3] == "refs/heads/"@ + name)
                } else {
                    failure == Some(committing::CommitErrorView::Command)
                },
                _ => failure == Some(committing::CommitErrorView::Command),
            }
        }),
{
    let v = state(plan, pid, answers, k);
    assert(state(plan, pid, answers, k + 1) == committing::next(v, answers[k]));
    session_laws::lemma_run(plan, pid, answers, k);
    session_laws::law_fails_only_when_not_granted(v, answers[k]);
    reveal_strlit("check-ref-format");
    reveal_strlit("rev-parse");
    reveal_strlit("config");
    reveal_strlit("branch");
    reveal_strlit("read-tree");
    reveal_strlit("hash-object");
    reveal_strlit("update-index");
    reveal_strlit("write-tree");
    reveal_strlit("commit-tree");
    reveal_strlit("update-ref");
    assert("check-ref-format"@.len() == 16);
    assert("rev-parse"@.len() == 9);
    assert("update-ref"@.len() == 10);
    assert("commit-tree"@.len() == 11);
    assert("hash-object"@.len() == 11);
    assert("update-index"@.len() == 12);
    assert("branch"@.len() == 6);
}

/// A plan without commits fails at once, with nothing to commit, and a plan with
/// commits does not.
pub proof fn law_nothing_to_commit(plan: PlanView, pid: u32)
    ensures
        plan.commits.len() == 0 ==> committing::start(plan, pid).failure == Some(
            committing::CommitErrorView::NothingToCommit,
        ) && committing::start(plan, pid).step is Finished,
        plan.commits.len() > 0 ==> committing::start(plan, pid).failure is None,
{
}

} // verus!
