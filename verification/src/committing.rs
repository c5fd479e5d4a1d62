//! Making the commits of a plan, one command after the other.
//!
//! Each destination, the branch that is checked out or a new one, has an index
//! file of its own while the commits are made. Only when all commits are there
//! are branches moved and created, and what stays staged is put right.
use vstd::prelude::*;

use crate::backend;
use crate::backend::{
    git, printed_text, printed_word, Action, ActionView, CreatedCommits, IndexView, TempIndex,
};
use crate::model;
use crate::model::{clone_branch, same_branch, CommitView, Plan, PlanView};
use crate::text;
use crate::text::{append, decimal_string, str_debug};

verus! {

/// Why commits could not be made.
#[derive(Debug)]
pub enum CommitError {
    NothingToCommit,
    InvalidBranch(String),
    BranchExists(String),
    /// The last command, or the last write to the working tree, failed.
    Command,
}

/// What a `CommitError` stands for.
pub enum CommitErrorView {
    NothingToCommit,
    InvalidBranch(Seq<char>),
    BranchExists(Seq<char>),
    Command,
}

impl DeepView for CommitError {
    type V = CommitErrorView;

    open spec fn deep_view(&self) -> CommitErrorView {
        match self {
            CommitError::NothingToCommit => CommitErrorView::NothingToCommit,
            CommitError::InvalidBranch(b) => CommitErrorView::InvalidBranch(b@),
            CommitError::BranchExists(b) => CommitErrorView::BranchExists(b@),
            CommitError::Command => CommitErrorView::Command,
        }
    }
}

impl CommitErrorView {
    /// The reason in words. What a command says is for the command to tell.
    pub open spec fn text(self) -> Option<Seq<char>> {
        match self {
            CommitErrorView::NothingToCommit => Some("nothing to commit"@),
            CommitErrorView::InvalidBranch(b) => Some(
                "invalid branch name "@ + text::debug_text(b),
            ),
            CommitErrorView::BranchExists(b) => Some(
                "branch "@ + text::debug_text(b) + " already exists"@,
            ),
            CommitErrorView::Command => None,
        }
    }
}

impl CommitError {
    /// The reason in words, where it is not a command's.
    pub fn message(&self) -> (r: Option<String>)
        ensures
            r.deep_view() == self.deep_view().text(),
    {
        match self {
            CommitError::NothingToCommit => Some("nothing to commit".to_string()),
            CommitError::InvalidBranch(b) => {
                let mut out = "invalid branch name ".to_string();
                append(&mut out, &str_debug(b));
                Some(out)
            },
            CommitError::BranchExists(b) => {
                let mut out = "branch ".to_string();
                append(&mut out, &str_debug(b));
                append(&mut out, " already exists");
                Some(out)
            },
            CommitError::Command => None,
        }
    }
}

// ---------------------------------------------------------------------------
// Where the commits go.

/// The new branches of the first `n` commits, in the order in which they are
/// first named.
pub open spec fn branch_names(commits: Seq<CommitView>, n: int) -> Seq<Seq<char>>
    decreases n,
{
    if n <= 0 {
        Seq::<Seq<char>>::empty()
    } else {
        let before = branch_names(commits, n - 1);
        match commits[n - 1].branch {
            Some(b) => if before.contains(b) {
                before
            } else {
                before.push(b)
            },
            None => before,
        }
    }
}

/// All new branches.
pub open spec fn new_branches(commits: Seq<CommitView>) -> Seq<Seq<char>> {
    branch_names(commits, commits.len() as int)
}

/// The last of the first `n` commits that goes to the given branch, or -1.
pub open spec fn last_on(commits: Seq<CommitView>, branch: Option<Seq<char>>, n: int) -> int
    decreases n,
{
    if n <= 0 {
        -1
    } else if commits[n - 1].branch == branch {
        n - 1
    } else {
        last_on(commits, branch, n - 1)
    }
}

/// The number of destinations of the first `n` commits.
pub open spec fn destinations(commits: Seq<CommitView>, n: int) -> int
    decreases n,
{
    if n <= 0 {
        0
    } else if last_on(commits, commits[n - 1].branch, n - 1) < 0 {
        destinations(commits, n - 1) + 1
    } else {
        destinations(commits, n - 1)
    }
}

/// The number of the destination of a commit: destinations are numbered in the
/// order in which they are first named.
pub open spec fn slot(commits: Seq<CommitView>, c: int) -> int
    decreases c,
{
    let before = last_on(commits, commits[c].branch, c);
    if c <= 0 || before < 0 || before >= c {
        destinations(commits, c)
    } else {
        slot(commits, before)
    }
}

/// The parent of a commit: the commit before it on the same branch, or else the
/// commit that was checked out.
pub open spec fn parent(
    commits: Seq<CommitView>,
    ids: Seq<Seq<char>>,
    head: Option<Seq<char>>,
    c: int,
) -> Option<Seq<char>> {
    let before = last_on(commits, commits[c].branch, c);
    if before < 0 {
        head
    } else {
        Some(ids[before])
    }
}

/// The last commit on a branch.
pub open spec fn tip(
    commits: Seq<CommitView>,
    ids: Seq<Seq<char>>,
    branch: Option<Seq<char>>,
) -> Seq<char> {
    ids[last_on(commits, branch, commits.len() as int)]
}

// ---------------------------------------------------------------------------
// The steps.

/// Where the making of commits stands. Commits (`c`), the files of a commit
/// (`f`), new branches (`b`) and index updates (`u`) are given by number.
pub enum StepView {
    /// Is this a name for a branch?
    CheckName { b: int },
    /// Is there no branch with this name yet?
    CheckNew { b: int },
    GitDir,
    /// What is checked out?
    Head,
    /// Are commits to be signed?
    Sign,
    /// Fill the index file of a new destination.
    ReadTree { c: int },
    /// Store the content of a file, or remove the file.
    Change { c: int, f: int },
    /// Enter the stored content.
    Enter { c: int, f: int, sha: Seq<char> },
    WriteTree { c: int },
    CommitTree { c: int, tree: Seq<char> },
    /// Move the branch that is checked out.
    MoveHead,
    MakeBranch { b: int },
    /// Store what stays staged of a file, or remove the file from the index.
    Restage { u: int },
    /// Enter the stored content.
    Reenter { u: int, sha: Seq<char> },
    /// Read the working tree copy.
    ReadFile { u: int },
    /// Make the working tree copy what stays staged.
    PutFile { u: int },
    /// Remove the index file with this number.
    Cleanup { k: int },
    Finished,
}

/// What a `CommitSession` stands for.
pub struct CommittingView {
    pub plan: PlanView,
    pub pid: u32,
    pub git_dir: Seq<char>,
    pub head: Option<Seq<char>>,
    pub sign: bool,
    /// The commits that were made.
    pub ids: Seq<Seq<char>>,
    /// The number of index files that were filled.
    pub opened: int,
    pub skipped: Seq<Seq<char>>,
    pub step: StepView,
    pub failure: Option<CommitErrorView>,
}

/// The index file with the given number.
pub open spec fn temp_index(v: CommittingView, k: int) -> IndexView {
    IndexView {
        git_dir: v.git_dir,
        name: "hunkle-index-"@ + text::decimal(v.pid as nat) + "-"@ + text::decimal(k as nat),
    }
}

/// The index file of the destination of a commit.
pub open spec fn index_of(v: CommittingView, c: int) -> Option<IndexView> {
    Some(temp_index(v, slot(v.plan.commits, c)))
}

/// Stores a content, or removes the file from the index.
pub open spec fn put_action(
    content: Option<Seq<u8>>,
    path: Seq<char>,
    index: Option<IndexView>,
) -> ActionView {
    match content {
        Some(b) => ActionView::Git {
            args: seq!["hash-object"@, "-w"@, "--stdin"@],
            stdin: Some(b),
            index: None,
        },
        None => ActionView::Git {
            args: seq!["update-index"@, "--force-remove"@, "--"@, path],
            stdin: None,
            index,
        },
    }
}

/// Enters a stored content into the index.
pub open spec fn enter_action(
    mode: Seq<char>,
    sha: Seq<char>,
    path: Seq<char>,
    index: Option<IndexView>,
) -> ActionView {
    ActionView::Git {
        args: seq![
            "update-index"@,
            "--add"@,
            "--cacheinfo"@,
            mode + ","@ + sha + ","@ + path,
        ],
        stdin: None,
        index,
    }
}

/// The command that makes a commit of a tree.
pub open spec fn commit_args(
    tree: Seq<char>,
    sign: bool,
    parent: Option<Seq<char>>,
    message: Seq<char>,
) -> Seq<Seq<char>> {
    let signed = if sign {
        seq!["-S"@]
    } else {
        Seq::<Seq<char>>::empty()
    };
    let onto = match parent {
        Some(p) => seq!["-p"@, p],
        None => Seq::<Seq<char>>::empty(),
    };
    seq!["commit-tree"@, tree] + signed + onto + seq!["-m"@, message]
}

/// The command that moves the branch that is checked out, if it still is where
/// it was.
pub open spec fn move_args(tip: Seq<char>, head: Option<Seq<char>>) -> Seq<Seq<char>> {
    match head {
        Some(h) => seq!["update-ref"@, "-m"@, "hunkle: split staged changes"@, "HEAD"@, tip, h],
        None => seq!["update-ref"@, "HEAD"@, tip],
    }
}

/// What an index file is filled from: the commit that is checked out, if there
/// is one.
pub open spec fn first_tree(head: Option<Seq<char>>) -> Seq<char> {
    match head {
        Some(h) => h,
        None => "--empty"@,
    }
}

/// What is to be done next.
pub open spec fn action(v: CommittingView) -> ActionView {
    let commits = v.plan.commits;
    let names = new_branches(commits);
    match v.step {
        StepView::CheckName { b } => backend::plain_git(
            seq!["check-ref-format"@, "--branch"@, names[b]],
        ),
        StepView::CheckNew { b } => backend::plain_git(
            seq!["rev-parse"@, "--verify"@, "--quiet"@, "refs/heads/"@ + names[b]],
        ),
        StepView::GitDir => backend::plain_git(seq!["rev-parse"@, "--absolute-git-dir"@]),
        StepView::Head => backend::plain_git(
            seq!["rev-parse"@, "--verify"@, "--quiet"@, "HEAD"@],
        ),
        StepView::Sign => backend::plain_git(
            seq!["config"@, "--bool"@, "--get"@, "commit.gpgsign"@],
        ),
        StepView::ReadTree { c } => ActionView::Git {
            args: seq!["read-tree"@, first_tree(v.head)],
            stdin: None,
            index: index_of(v, c),
        },
        StepView::Change { c, f } => put_action(
            commits[c].files[f].content,
            commits[c].files[f].path,
            index_of(v, c),
        ),
        StepView::Enter { c, f, sha } => enter_action(
            commits[c].files[f].mode,
            sha,
            commits[c].files[f].path,
            index_of(v, c),
        ),
        StepView::WriteTree { c } => ActionView::Git {
            args: seq!["write-tree"@],
            stdin: None,
            index: index_of(v, c),
        },
        StepView::CommitTree { c, tree } => backend::plain_git(
            commit_args(tree, v.sign, parent(commits, v.ids, v.head, c), commits[c].message),
        ),
        StepView::MoveHead => backend::plain_git(
            move_args(tip(commits, v.ids, None), v.head),
        ),
        StepView::MakeBranch { b } => backend::plain_git(
            seq!["branch"@, names[b], tip(commits, v.ids, Some(names[b]))],
        ),
        StepView::Restage { u } => put_action(
            v.plan.updates[u].content,
            v.plan.updates[u].path,
            None,
        ),
        StepView::Reenter { u, sha } => enter_action(
            v.plan.updates[u].mode,
            sha,
            v.plan.updates[u].path,
            None,
        ),
        StepView::ReadFile { u } => ActionView::ReadFile { path: v.plan.updates[u].path },
        StepView::PutFile { u } => match v.plan.updates[u].content {
            Some(content) => ActionView::WriteFile { path: v.plan.updates[u].path, content },
            None => ActionView::RemoveFile { path: v.plan.updates[u].path },
        },
        StepView::Cleanup { k } => ActionView::RemoveIndex(temp_index(v, k)),
        StepView::Finished => ActionView::Done,
    }
}

/// The same with another step to take.
pub open spec fn at(v: CommittingView, step: StepView) -> CommittingView {
    CommittingView { step, ..v }
}

/// On to removing the index files, from number `k` on.
pub open spec fn to_cleanup(v: CommittingView, k: int) -> CommittingView {
    if k < v.opened {
        at(v, StepView::Cleanup { k })
    } else {
        at(v, StepView::Finished)
    }
}

/// The making of commits has failed.
pub open spec fn failing(v: CommittingView, e: CommitErrorView) -> CommittingView {
    to_cleanup(CommittingView { failure: Some(e), ..v }, 0)
}

/// On to the name of the branch with number `b`.
pub open spec fn to_name(v: CommittingView, b: int) -> CommittingView {
    if b < new_branches(v.plan.commits).len() {
        at(v, StepView::CheckName { b })
    } else {
        at(v, StepView::GitDir)
    }
}

/// On to the index update with number `u`.
pub open spec fn to_update(v: CommittingView, u: int) -> CommittingView {
    if u < v.plan.updates.len() {
        at(v, StepView::Restage { u })
    } else {
        to_cleanup(v, 0)
    }
}

/// On to making the branch with number `b`.
pub open spec fn to_branch(v: CommittingView, b: int) -> CommittingView {
    if b < new_branches(v.plan.commits).len() {
        at(v, StepView::MakeBranch { b })
    } else {
        to_update(v, 0)
    }
}

/// On to the file with number `f` of a commit.
pub open spec fn to_file(v: CommittingView, c: int, f: int) -> CommittingView {
    if f < v.plan.commits[c].files.len() {
        at(v, StepView::Change { c, f })
    } else {
        at(v, StepView::WriteTree { c })
    }
}

/// On to the commit with number `c`.
pub open spec fn to_commit(v: CommittingView, c: int) -> CommittingView {
    let commits = v.plan.commits;
    if c < commits.len() {
        if last_on(commits, commits[c].branch, c) < 0 {
            at(v, StepView::ReadTree { c })
        } else {
            to_file(v, c, 0)
        }
    } else if last_on(commits, None, commits.len() as int) >= 0 {
        at(v, StepView::MoveHead)
    } else {
        to_branch(v, 0)
    }
}

/// The beginning.
pub open spec fn start(plan: PlanView, pid: u32) -> CommittingView {
    let v = CommittingView {
        plan,
        pid,
        git_dir: Seq::<char>::empty(),
        head: None,
        sign: false,
        ids: Seq::<Seq<char>>::empty(),
        opened: 0,
        skipped: Seq::<Seq<char>>::empty(),
        step: StepView::GitDir,
        failure: None,
    };
    if plan.commits.len() == 0 {
        failing(v, CommitErrorView::NothingToCommit)
    } else {
        to_name(v, 0)
    }
}

/// What follows when the last action was done, and gave this output.
pub open spec fn done(v: CommittingView, o: Seq<u8>) -> CommittingView {
    let commits = v.plan.commits;
    let names = new_branches(commits);
    let printed = backend::printed(o);
    match v.step {
        StepView::CheckName { b } => at(v, StepView::CheckNew { b }),
        StepView::CheckNew { b } => if printed.len() > 0 {
            failing(v, CommitErrorView::BranchExists(names[b]))
        } else {
            to_name(v, b + 1)
        },
        StepView::GitDir => CommittingView { git_dir: printed, step: StepView::Head, ..v },
        StepView::Head => CommittingView {
            head: if printed.len() > 0 {
                Some(printed)
            } else {
                None
            },
            step: StepView::Sign,
            ..v
        },
        StepView::Sign => to_commit(CommittingView { sign: printed == "true"@, ..v }, 0),
        StepView::ReadTree { c } => to_file(CommittingView { opened: v.opened + 1, ..v }, c, 0),
        StepView::Change { c, f } => match commits[c].files[f].content {
            Some(_) => at(v, StepView::Enter { c, f, sha: backend::word(o) }),
            None => to_file(v, c, f + 1),
        },
        StepView::Enter { c, f, .. } => to_file(v, c, f + 1),
        StepView::WriteTree { c } => at(v, StepView::CommitTree { c, tree: printed }),
        StepView::CommitTree { c, .. } => to_commit(
            CommittingView { ids: v.ids.push(printed), ..v },
            c + 1,
        ),
        StepView::MoveHead => to_branch(v, 0),
        StepView::MakeBranch { b } => to_branch(v, b + 1),
        StepView::Restage { u } => match v.plan.updates[u].content {
            Some(_) => at(v, StepView::Reenter { u, sha: backend::word(o) }),
            None => at(v, StepView::ReadFile { u }),
        },
        StepView::Reenter { u, .. } => at(v, StepView::ReadFile { u }),
        StepView::ReadFile { u } => seen(v, u, Some(o)),
        StepView::PutFile { u } => to_update(v, u + 1),
        StepView::Cleanup { k } => to_cleanup(v, k + 1),
        StepView::Finished => v,
    }
}

/// What follows when the working tree copy of a file was read, if it could be:
/// it is brought along only if it is what was staged.
pub open spec fn seen(v: CommittingView, u: int, copy: Option<Seq<u8>>) -> CommittingView {
    if copy == v.plan.updates[u].staged {
        at(v, StepView::PutFile { u })
    } else {
        to_update(
            CommittingView { skipped: v.skipped.push(v.plan.updates[u].path), ..v },
            u + 1,
        )
    }
}

/// What follows when the last action failed.
pub open spec fn not_done(v: CommittingView) -> CommittingView {
    let names = new_branches(v.plan.commits);
    match v.step {
        StepView::CheckName { b } => failing(v, CommitErrorView::InvalidBranch(names[b])),
        StepView::CheckNew { b } => to_name(v, b + 1),
        StepView::Head => CommittingView { head: None, step: StepView::Sign, ..v },
        StepView::Sign => to_commit(CommittingView { sign: false, ..v }, 0),
        StepView::ReadFile { u } => seen(v, u, None),
        StepView::PutFile { u } => match v.plan.updates[u].content {
            Some(_) => failing(v, CommitErrorView::Command),
            None => to_update(v, u + 1),
        },
        StepView::Cleanup { k } => to_cleanup(v, k + 1),
        StepView::Finished => v,
        _ => failing(v, CommitErrorView::Command),
    }
}

/// What follows the answer to the last action: what it gave, or `None` when it
/// failed.
pub open spec fn next(v: CommittingView, output: Option<Seq<u8>>) -> CommittingView {
    match output {
        Some(o) => done(v, o),
        None => not_done(v),
    }
}

// ---------------------------------------------------------------------------
// What holds at every step.

/// The commits come one after the other, and what comes after them comes when
/// all are there.
pub open spec fn sound(v: CommittingView) -> bool {
    let commits = v.plan.commits;
    let n = commits.len() as int;
    let names = new_branches(commits);
    let updates = v.plan.updates;
    &&& 0 <= v.opened <= n
    &&& v.ids.len() <= n
    &&& match v.step {
        StepView::CheckName { b } => 0 <= b < names.len() && v.before_commits(),
        StepView::CheckNew { b } => 0 <= b < names.len() && v.before_commits(),
        StepView::GitDir => v.before_commits(),
        StepView::Head => v.before_commits(),
        StepView::Sign => v.before_commits(),
        StepView::ReadTree { c } => v.in_commit(c, 0) && last_on(commits, commits[c].branch, c) < 0,
        StepView::Change { c, f } => v.in_commit(c, 1) && 0 <= f < commits[c].files.len(),
        StepView::Enter { c, f, .. } => v.in_commit(c, 1) && 0 <= f < commits[c].files.len(),
        StepView::WriteTree { c } => v.in_commit(c, 1),
        StepView::CommitTree { c, .. } => v.in_commit(c, 1),
        StepView::MoveHead => v.all_made() && last_on(commits, None, n) >= 0,
        StepView::MakeBranch { b } => v.all_made() && 0 <= b < names.len(),
        StepView::Restage { u } => v.all_made() && 0 <= u < updates.len(),
        StepView::Reenter { u, .. } => v.all_made() && 0 <= u < updates.len(),
        StepView::ReadFile { u } => v.all_made() && 0 <= u < updates.len(),
        StepView::PutFile { u } => v.all_made() && 0 <= u < updates.len(),
        StepView::Cleanup { k } => v.ending() && 0 <= k < v.opened,
        StepView::Finished => v.ending(),
    }
}

impl CommittingView {
    /// No commit was begun.
    pub open spec fn before_commits(self) -> bool {
        self.failure is None && self.ids.len() == 0 && self.opened == 0 && self.skipped.len() == 0
            && self.plan.commits.len() > 0
    }

    /// The commits before number `c` were made, and index files were filled for
    /// their destinations and those of the next `more` commits.
    pub open spec fn in_commit(self, c: int, more: int) -> bool {
        self.failure is None && 0 <= c < self.plan.commits.len() && self.ids.len() == c
            && self.opened == destinations(self.plan.commits, c + more) && self.skipped.len() == 0
    }

    /// All commits were made.
    pub open spec fn all_made(self) -> bool {
        self.failure is None && self.ids.len() == self.plan.commits.len() && self.ids.len() > 0
            && self.opened == destinations(self.plan.commits, self.plan.commits.len() as int)
    }

    /// All commits were made, or something failed.
    pub open spec fn ending(self) -> bool {
        self.failure is Some || (self.ids.len() == self.plan.commits.len()
            && self.plan.commits.len() > 0)
    }
}

/// What the search for the last commit on a branch finds.
pub proof fn lemma_last_on(commits: Seq<CommitView>, branch: Option<Seq<char>>, n: int)
    requires
        0 <= n <= commits.len(),
    ensures
        -1 <= last_on(commits, branch, n) < n || last_on(commits, branch, n) == -1,
        last_on(commits, branch, n) >= 0 ==> commits[last_on(commits, branch, n)].branch == branch,
        forall|j: int|
            last_on(commits, branch, n) < j < n ==> (#[trigger] commits[j]).branch != branch,
    decreases n,
{
    if n > 0 && commits[n - 1].branch != branch {
        lemma_last_on(commits, branch, n - 1);
    }
}

proof fn lemma_destinations(commits: Seq<CommitView>, n: int)
    requires
        0 <= n,
    ensures
        0 <= destinations(commits, n) <= n,
    decreases n,
{
    if n > 0 {
        lemma_destinations(commits, n - 1);
    }
}

/// More commits have as many destinations, or more.
pub proof fn lemma_destinations_grow(commits: Seq<CommitView>, m: int, n: int)
    requires
        0 <= m <= n,
    ensures
        destinations(commits, m) <= destinations(commits, n),
    decreases n - m,
{
    if m < n {
        lemma_destinations_grow(commits, m, n - 1);
    }
}

/// The number of a destination is below the number of destinations.
pub proof fn lemma_slot(commits: Seq<CommitView>, c: int)
    requires
        0 <= c < commits.len(),
    ensures
        0 <= slot(commits, c) < destinations(commits, c + 1),
    decreases c,
{
    let before = last_on(commits, commits[c].branch, c);
    lemma_last_on(commits, commits[c].branch, c);
    lemma_destinations(commits, c);
    if before >= 0 {
        lemma_slot(commits, before);
        lemma_destinations_grow(commits, before + 1, c + 1);
    }
}

/// Each new branch has a commit.
proof fn lemma_branch_used(commits: Seq<CommitView>, n: int, b: int)
    requires
        0 <= n <= commits.len(),
        0 <= b < branch_names(commits, n).len(),
    ensures
        last_on(commits, Some(branch_names(commits, n)[b]), n) >= 0,
    decreases n,
{
    let before = branch_names(commits, n - 1);
    if b < before.len() {
        lemma_branch_used(commits, n - 1, b);
        assert(branch_names(commits, n)[b] == before[b]);
    }
}

/// Whatever is answered, the making of commits goes on soundly.
pub proof fn law_answers_keep_sound(v: CommittingView, output: Option<Seq<u8>>)
    requires
        sound(v),
    ensures
        sound(next(v, output)),
{
    let commits = v.plan.commits;
    lemma_destinations(commits, commits.len() as int);
    match v.step {
        StepView::ReadTree { c } => {
            assert(destinations(commits, c + 1) == destinations(commits, c) + 1);
            lemma_destinations(commits, c + 1);
        },
        StepView::CommitTree { c, .. } => {
            if c + 1 < commits.len() && last_on(commits, commits[c + 1].branch, c + 1) >= 0 {
                assert(destinations(commits, c + 2) == destinations(commits, c + 1));
            }
        },
        _ => {},
    }
}

/// The beginning is sound.
pub proof fn law_start_is_sound(plan: PlanView, pid: u32)
    ensures
        sound(start(plan, pid)),
{
}

// ---------------------------------------------------------------------------
// The session.

/// Where the making of commits stands. Commits (`c`), the files of a commit
/// (`f`), new branches (`b`) and index updates (`u`) are given by number.
enum Step {
    CheckName { b: usize },
    CheckNew { b: usize },
    GitDir,
    Head,
    Sign,
    ReadTree { c: usize },
    Change { c: usize, f: usize },
    Enter { c: usize, f: usize, sha: String },
    WriteTree { c: usize },
    CommitTree { c: usize, tree: String },
    MoveHead,
    MakeBranch { b: usize },
    Restage { u: usize },
    Reenter { u: usize, sha: String },
    ReadFile { u: usize },
    PutFile { u: usize },
    Cleanup { k: usize },
    Finished,
}

impl View for Step {
    type V = StepView;

    closed spec fn view(&self) -> StepView {
        match self {
            Step::CheckName { b } => StepView::CheckName { b: *b as int },
            Step::CheckNew { b } => StepView::CheckNew { b: *b as int },
            Step::GitDir => StepView::GitDir,
            Step::Head => StepView::Head,
            Step::Sign => StepView::Sign,
            Step::ReadTree { c } => StepView::ReadTree { c: *c as int },
            Step::Change { c, f } => StepView::Change { c: *c as int, f: *f as int },
            Step::Enter { c, f, sha } => StepView::Enter {
                c: *c as int,
                f: *f as int,
                sha: sha@,
            },
            Step::WriteTree { c } => StepView::WriteTree { c: *c as int },
            Step::CommitTree { c, tree } => StepView::CommitTree { c: *c as int, tree: tree@ },
            Step::MoveHead => StepView::MoveHead,
            Step::MakeBranch { b } => StepView::MakeBranch { b: *b as int },
            Step::Restage { u } => StepView::Restage { u: *u as int },
            Step::Reenter { u, sha } => StepView::Reenter { u: *u as int, sha: sha@ },
            Step::ReadFile { u } => StepView::ReadFile { u: *u as int },
            Step::PutFile { u } => StepView::PutFile { u: *u as int },
            Step::Cleanup { k } => StepView::Cleanup { k: *k as int },
            Step::Finished => StepView::Finished,
        }
    }
}

/// The making of the commits of a plan.
pub struct CommitSession<'a> {
    plan: &'a Plan,
    pid: u32,
    branches: Vec<String>,
    git_dir: String,
    head: Option<String>,
    sign: bool,
    ids: Vec<String>,
    opened: usize,
    skipped: Vec<String>,
    step: Step,
    failure: Option<CommitError>,
}

impl<'a> View for CommitSession<'a> {
    type V = CommittingView;

    closed spec fn view(&self) -> CommittingView {
        CommittingView {
            plan: self.plan.deep_view(),
            pid: self.pid,
            git_dir: self.git_dir@,
            head: self.head.deep_view(),
            sign: self.sign,
            ids: self.ids.deep_view(),
            opened: self.opened as int,
            skipped: self.skipped.deep_view(),
            step: self.step@,
            failure: self.failure.deep_view(),
        }
    }
}

proof fn lemma_plan(plan: Plan)
    ensures
        plan.deep_view().commits.len() == plan.commits@.len() <= usize::MAX,
        plan.deep_view().updates.len() == plan.index_updates@.len() <= usize::MAX,
        forall|c: int|
            0 <= c < plan.commits@.len() ==> {
                let view = #[trigger] plan.deep_view().commits[c];
                let commit = plan.commits@[c];
                &&& view.message == commit.message@
                &&& view.branch == commit.branch.deep_view()
                &&& view.files.len() == commit.files@.len() <= usize::MAX
                &&& forall|f: int|
                    0 <= f < commit.files@.len() ==> #[trigger] view.files[f]
                        == commit.files@[f].deep_view()
            },
        forall|u: int|
            0 <= u < plan.index_updates@.len() ==> #[trigger] plan.deep_view().updates[u]
                == plan.index_updates@[u].deep_view(),
{
    assert(plan.commits.len() == plan.commits@.len());
    assert(plan.index_updates.len() == plan.index_updates@.len());
    assert forall|c: int| 0 <= c < plan.commits@.len() implies {
        let view = #[trigger] plan.deep_view().commits[c];
        let commit = plan.commits@[c];
        &&& view.message == commit.message@
        &&& view.branch == commit.branch.deep_view()
        &&& view.files.len() == commit.files@.len() <= usize::MAX
        &&& forall|f: int|
            0 <= f < commit.files@.len() ==> #[trigger] view.files[f]
                == commit.files@[f].deep_view()
    } by {
        assert(plan.commits@[c].files.len() == plan.commits@[c].files@.len());
    }
}

fn find_last(plan: &Plan, branch: &Option<String>, n: usize) -> (r: Option<usize>)
    requires
        n <= plan.commits@.len(),
    ensures
        match r {
            Some(i) => i == last_on(plan.deep_view().commits, branch.deep_view(), n as int) && i
                < n,
            None => last_on(plan.deep_view().commits, branch.deep_view(), n as int) < 0,
        },
{
    let ghost commits = plan.deep_view().commits;
    proof {
        lemma_plan(*plan);
    }
    let mut i: usize = n;
    while i > 0
        invariant
            i <= n <= plan.commits@.len(),
            commits == plan.deep_view().commits,
            last_on(commits, branch.deep_view(), n as int) == last_on(
                commits,
                branch.deep_view(),
                i as int,
            ),
        decreases i,
    {
        assert(commits[i - 1] == plan.commits@[i - 1].deep_view());
        if same_branch(&plan.commits[i - 1].branch, branch) {
            return Some(i - 1);
        }
        i -= 1;
    }
    None
}

fn count_destinations(plan: &Plan, n: usize) -> (r: usize)
    requires
        n <= plan.commits@.len(),
    ensures
        r == destinations(plan.deep_view().commits, n as int),
{
    let ghost commits = plan.deep_view().commits;
    let mut out: usize = 0;
    let mut i: usize = 0;
    while i < n
        invariant
            i <= n <= plan.commits@.len(),
            commits == plan.deep_view().commits,
            out == destinations(commits, i as int),
        decreases n - i,
    {
        proof {
            assert(commits[i as int] == plan.commits@[i as int].deep_view());
            lemma_destinations(commits, i as int);
        }
        if find_last(plan, &plan.commits[i].branch, i).is_none() {
            out += 1;
        }
        i += 1;
    }
    out
}

fn find_slot(plan: &Plan, c: usize) -> (r: usize)
    requires
        c < plan.commits@.len(),
    ensures
        r == slot(plan.deep_view().commits, c as int),
    decreases c,
{
    assert(plan.deep_view().commits[c as int] == plan.commits@[c as int].deep_view());
    match find_last(plan, &plan.commits[c].branch, c) {
        Some(before) => find_slot(plan, before),
        None => count_destinations(plan, c),
    }
}

fn find_branches(plan: &Plan) -> (r: Vec<String>)
    ensures
        r.deep_view() == new_branches(plan.deep_view().commits),
{
    let ghost commits = plan.deep_view().commits;
    let mut out: Vec<String> = Vec::new();
    let mut i: usize = 0;
    assert(out.deep_view() =~= Seq::<Seq<char>>::empty());
    while i < plan.commits.len()
        invariant
            i <= plan.commits@.len(),
            commits == plan.deep_view().commits,
            out.deep_view() == branch_names(commits, i as int),
        decreases plan.commits@.len() - i,
    {
        assert(commits[i as int] == plan.commits@[i as int].deep_view());
        if let Some(b) = &plan.commits[i].branch {
            if !has_name(&out, b) {
                let ghost before = out.deep_view();
                out.push(b.clone());
                assert(out.deep_view() =~= before.push(b@));
            }
        }
        i += 1;
    }
    out
}

fn has_name(names: &Vec<String>, b: &String) -> (r: bool)
    ensures
        r == names.deep_view().contains(b@),
{
    let ghost view = names.deep_view();
    let mut i: usize = 0;
    while i < names.len()
        invariant
            i <= names@.len(),
            view == names.deep_view(),
            forall|k: int| 0 <= k < i ==> view[k] != b@,
        decreases names@.len() - i,
    {
        assert(view[i as int] == names@[i as int]@);
        if names[i] == *b {
            return true;
        }
        i += 1;
    }
    false
}

fn put(content: &Option<Vec<u8>>, path: &String, index: Option<TempIndex>) -> (r: Action)
    ensures
        r@ == put_action(model::bytes_of(*content), path@, index.deep_view()),
{
    match content {
        Some(b) => {
            let args = vec!["hash-object".to_string(), "-w".to_string(), "--stdin".to_string()];
            assert(args.deep_view() =~= seq!["hash-object"@, "-w"@, "--stdin"@]);
            let stdin = b.clone();
            assert(stdin@ =~= b@);
            Action::Git { args, stdin: Some(stdin), index: None }
        },
        None => {
            let args = vec![
                "update-index".to_string(),
                "--force-remove".to_string(),
                "--".to_string(),
                path.clone(),
            ];
            assert(args.deep_view() =~= seq!["update-index"@, "--force-remove"@, "--"@, path@]);
            Action::Git { args, stdin: None, index }
        },
    }
}

fn enter(mode: &String, sha: &String, path: &String, index: Option<TempIndex>) -> (r: Action)
    ensures
        r@ == enter_action(mode@, sha@, path@, index.deep_view()),
{
    let mut entry = mode.clone();
    append(&mut entry, ",");
    append(&mut entry, sha);
    append(&mut entry, ",");
    append(&mut entry, path);
    let args = vec![
        "update-index".to_string(),
        "--add".to_string(),
        "--cacheinfo".to_string(),
        entry,
    ];
    assert(args.deep_view() =~= seq![
        "update-index"@,
        "--add"@,
        "--cacheinfo"@,
        mode@ + ","@ + sha@ + ","@ + path@,
    ]);
    Action::Git { args, stdin: None, index }
}

impl<'a> CommitSession<'a> {
    /// The session can go on.
    pub closed spec fn wf(self) -> bool {
        &&& sound(self@)
        &&& self.branches.deep_view() == new_branches(self.plan.deep_view().commits)
    }

    /// The beginning.
    pub fn start(plan: &'a Plan, pid: u32) -> (r: Self)
        ensures
            r.wf(),
            r@ == self::start(plan.deep_view(), pid),
    {
        let branches = find_branches(plan);
        let no_ids: Vec<String> = Vec::new();
        let none_skipped: Vec<String> = Vec::new();
        proof {
            lemma_plan(*plan);
            assert(no_ids.deep_view() =~= Seq::<Seq<char>>::empty());
            assert(none_skipped.deep_view() =~= Seq::<Seq<char>>::empty());
        }
        let mut r = CommitSession {
            plan,
            pid,
            branches,
            git_dir: String::new(),
            head: None,
            sign: false,
            ids: no_ids,
            opened: 0,
            skipped: none_skipped,
            step: Step::GitDir,
            failure: None,
        };
        assert(r.git_dir@ =~= Seq::<char>::empty());
        if plan.commits.len() == 0 {
            r.fail(CommitError::NothingToCommit);
        } else {
            r.go_to_name(0);
        }
        r
    }

    fn clean_up(&mut self, k: usize)
        ensures
            final(self)@ == to_cleanup(old(self)@, k as int),
            final(self).branches == old(self).branches,
    {
        self.step = if k < self.opened {
            Step::Cleanup { k }
        } else {
            Step::Finished
        };
    }

    fn fail(&mut self, e: CommitError)
        ensures
            final(self)@ == failing(old(self)@, e.deep_view()),
            final(self).branches == old(self).branches,
    {
        self.failure = Some(e);
        self.clean_up(0);
    }

    fn go_to_name(&mut self, b: usize)
        requires
            old(self).branches.deep_view() == new_branches(old(self)@.plan.commits),
        ensures
            final(self)@ == to_name(old(self)@, b as int),
            final(self).branches == old(self).branches,
    {
        self.step = if b < self.branches.len() {
            Step::CheckName { b }
        } else {
            Step::GitDir
        };
    }

    fn go_to_update(&mut self, u: usize)
        ensures
            final(self)@ == to_update(old(self)@, u as int),
            final(self).branches == old(self).branches,
    {
        if u < self.plan.index_updates.len() {
            self.step = Step::Restage { u };
        } else {
            self.clean_up(0);
        }
    }

    fn go_to_branch(&mut self, b: usize)
        requires
            old(self).branches.deep_view() == new_branches(old(self)@.plan.commits),
        ensures
            final(self)@ == to_branch(old(self)@, b as int),
            final(self).branches == old(self).branches,
    {
        if b < self.branches.len() {
            self.step = Step::MakeBranch { b };
        } else {
            self.go_to_update(0);
        }
    }

    fn go_to_file(&mut self, c: usize, f: usize)
        requires
            c < old(self)@.plan.commits.len(),
        ensures
            final(self)@ == to_file(old(self)@, c as int, f as int),
            final(self).branches == old(self).branches,
    {
        proof {
            lemma_plan(*self.plan);
            assert(self@.plan.commits[c as int].files.len()
                == self.plan.commits@[c as int].files@.len());
        }
        self.step = if f < self.plan.commits[c].files.len() {
            Step::Change { c, f }
        } else {
            Step::WriteTree { c }
        };
    }

    fn go_to_commit(&mut self, c: usize)
        requires
            old(self).branches.deep_view() == new_branches(old(self)@.plan.commits),
        ensures
            final(self)@ == to_commit(old(self)@, c as int),
            final(self).branches == old(self).branches,
    {
        proof {
            lemma_plan(*self.plan);
        }
        if c < self.plan.commits.len() {
            assert(self@.plan.commits[c as int] == self.plan.commits@[c as int].deep_view());
            if find_last(self.plan, &self.plan.commits[c].branch, c).is_none() {
                self.step = Step::ReadTree { c };
            } else {
                self.go_to_file(c, 0);
            }
        } else if find_last(self.plan, &None, self.plan.commits.len()).is_some() {
            self.step = Step::MoveHead;
        } else {
            self.go_to_branch(0);
        }
    }

    fn temp_file(&self, k: usize) -> (r: TempIndex)
        ensures
            r.deep_view() == temp_index(self@, k as int),
    {
        let mut name = "hunkle-index-".to_string();
        append(&mut name, &decimal_string(self.pid as usize));
        append(&mut name, "-");
        append(&mut name, &decimal_string(k));
        TempIndex { git_dir: self.git_dir.clone(), name }
    }

    fn index_file(&self, c: usize) -> (r: Option<TempIndex>)
        requires
            c < self@.plan.commits.len(),
        ensures
            r.deep_view() == index_of(self@, c as int),
    {
        Some(self.temp_file(find_slot(self.plan, c)))
    }

    fn commit_action(&self, c: usize, tree: &String) -> (r: Action)
        requires
            c < self@.plan.commits.len(),
            self@.ids.len() == c,
        ensures
            r@ == backend::plain_git(
                commit_args(
                    tree@,
                    self@.sign,
                    parent(self@.plan.commits, self@.ids, self@.head, c as int),
                    self@.plan.commits[c as int].message,
                ),
            ),
    {
        let commit = &self.plan.commits[c];
        assert(self@.plan.commits[c as int] == commit.deep_view());
        let parent = match find_last(self.plan, &commit.branch, c) {
            Some(i) => {
                assert(self@.ids[i as int] == self.ids@[i as int]@);
                Some(self.ids[i].clone())
            },
            None => clone_branch(&self.head),
        };
        let ghost onto = self::parent(self@.plan.commits, self@.ids, self@.head, c as int);
        assert(parent.deep_view() == onto);
        let mut args = vec!["commit-tree".to_string(), tree.clone()];
        assert(args.deep_view() =~= seq!["commit-tree"@, tree@]);
        if self.sign {
            let ghost before = args.deep_view();
            args.push("-S".to_string());
            assert(args.deep_view() =~= before + seq!["-S"@]);
        }
        if let Some(p) = parent {
            let ghost before = args.deep_view();
            args.push("-p".to_string());
            args.push(p);
            assert(args.deep_view() =~= before + seq!["-p"@, p@]);
        }
        let ghost before = args.deep_view();
        args.push("-m".to_string());
        args.push(commit.message.clone());
        assert(args.deep_view() =~= before + seq!["-m"@, commit.message@]);
        assert(args.deep_view() =~= commit_args(tree@, self@.sign, onto, commit.message@));
        git(args)
    }

    fn move_action(&self) -> (r: Action)
        requires
            self@.all_made(),
            last_on(self@.plan.commits, None, self@.plan.commits.len() as int) >= 0,
        ensures
            r@ == backend::plain_git(
                move_args(tip(self@.plan.commits, self@.ids, None), self@.head),
            ),
    {
        let tip = self.tip_of(&None);
        match &self.head {
            Some(h) => {
                let args = vec![
                    "update-ref".to_string(),
                    "-m".to_string(),
                    "hunkle: split staged changes".to_string(),
                    "HEAD".to_string(),
                    tip,
                    h.clone(),
                ];
                assert(args.deep_view() =~= move_args(tip@, Some(h@)));
                git(args)
            },
            None => {
                let args = vec!["update-ref".to_string(), "HEAD".to_string(), tip];
                assert(args.deep_view() =~= move_args(tip@, None));
                git(args)
            },
        }
    }

    fn tip_of(&self, branch: &Option<String>) -> (r: String)
        requires
            self@.all_made(),
            last_on(
                self@.plan.commits,
                branch.deep_view(),
                self@.plan.commits.len() as int,
            ) >= 0,
        ensures
            r@ == tip(self@.plan.commits, self@.ids, branch.deep_view()),
    {
        proof {
            lemma_plan(*self.plan);
        }
        match find_last(self.plan, branch, self.plan.commits.len()) {
            Some(i) => {
                assert(self@.ids[i as int] == self.ids@[i as int]@);
                self.ids[i].clone()
            },
            None => String::new(),
        }
    }

    /// What is to be done next.
    #[verifier::rlimit(50)]
    pub fn action(&self) -> (r: Action)
        requires
            self.wf(),
        ensures
            r@ == self::action(self@),
    {
        proof {
            lemma_plan(*self.plan);
        }
        let plan = self.plan;
        match &self.step {
            Step::CheckName { b } => {
                let name = &self.branches[*b];
                assert(new_branches(self@.plan.commits)[*b as int] == name@);
                let args = vec![
                    "check-ref-format".to_string(),
                    "--branch".to_string(),
                    name.clone(),
                ];
                assert(args.deep_view() =~= seq!["check-ref-format"@, "--branch"@, name@]);
                git(args)
            },
            Step::CheckNew { b } => {
                let name = &self.branches[*b];
                assert(new_branches(self@.plan.commits)[*b as int] == name@);
                let mut full = "refs/heads/".to_string();
                append(&mut full, name);
                let args = vec![
                    "rev-parse".to_string(),
                    "--verify".to_string(),
                    "--quiet".to_string(),
                    full,
                ];
                assert(args.deep_view() =~= seq![
                    "rev-parse"@,
                    "--verify"@,
                    "--quiet"@,
                    "refs/heads/"@ + name@,
                ]);
                git(args)
            },
            Step::GitDir => {
                let args = vec!["rev-parse".to_string(), "--absolute-git-dir".to_string()];
                assert(args.deep_view() =~= seq!["rev-parse"@, "--absolute-git-dir"@]);
                git(args)
            },
            Step::Head => {
                let args = vec![
                    "rev-parse".to_string(),
                    "--verify".to_string(),
                    "--quiet".to_string(),
                    "HEAD".to_string(),
                ];
                assert(args.deep_view() =~= seq!["rev-parse"@, "--verify"@, "--quiet"@, "HEAD"@]);
                git(args)
            },
            Step::Sign => {
                let args = vec![
                    "config".to_string(),
                    "--bool".to_string(),
                    "--get".to_string(),
                    "commit.gpgsign".to_string(),
                ];
                assert(args.deep_view() =~= seq![
                    "config"@,
                    "--bool"@,
                    "--get"@,
                    "commit.gpgsign"@,
                ]);
                git(args)
            },
            Step::ReadTree { c } => {
                let from = match &self.head {
                    Some(h) => h.clone(),
                    None => "--empty".to_string(),
                };
                let args = vec!["read-tree".to_string(), from];
                assert(args.deep_view() =~= seq!["read-tree"@, first_tree(self@.head)]);
                Action::Git { args, stdin: None, index: self.index_file(*c) }
            },
            Step::Change { c, f } => {
                let change = &plan.commits[*c].files[*f];
                assert(self@.plan.commits[*c as int].files[*f as int] == change.deep_view());
                put(&change.content, &change.path, self.index_file(*c))
            },
            Step::Enter { c, f, sha } => {
                let change = &plan.commits[*c].files[*f];
                assert(self@.plan.commits[*c as int].files[*f as int] == change.deep_view());
                enter(&change.mode, sha, &change.path, self.index_file(*c))
            },
            Step::WriteTree { c } => {
                let args = vec!["write-tree".to_string()];
                assert(args.deep_view() =~= seq!["write-tree"@]);
                Action::Git { args, stdin: None, index: self.index_file(*c) }
            },
            Step::CommitTree { c, tree } => self.commit_action(*c, tree),
            Step::MoveHead => self.move_action(),
            Step::MakeBranch { b } => {
                let name = &self.branches[*b];
                proof {
                    assert(new_branches(self@.plan.commits)[*b as int] == name@);
                    lemma_branch_used(
                        self@.plan.commits,
                        self@.plan.commits.len() as int,
                        *b as int,
                    );
                }
                let tip = self.tip_of(&Some(name.clone()));
                let args = vec!["branch".to_string(), name.clone(), tip];
                assert(args.deep_view() =~= seq!["branch"@, name@, tip@]);
                git(args)
            },
            Step::Restage { u } => {
                let update = &plan.index_updates[*u];
                assert(self@.plan.updates[*u as int] == update.deep_view());
                put(&update.content, &update.path, None)
            },
            Step::Reenter { u, sha } => {
                let update = &plan.index_updates[*u];
                assert(self@.plan.updates[*u as int] == update.deep_view());
                enter(&update.mode, sha, &update.path, None)
            },
            Step::ReadFile { u } => {
                assert(self@.plan.updates[*u as int]
                    == plan.index_updates@[*u as int].deep_view());
                Action::ReadFile { path: plan.index_updates[*u].path.clone() }
            },
            Step::PutFile { u } => {
                let update = &plan.index_updates[*u];
                assert(self@.plan.updates[*u as int] == update.deep_view());
                match &update.content {
                    Some(b) => {
                        let content = b.clone();
                        assert(content@ =~= b@);
                        Action::WriteFile { path: update.path.clone(), content }
                    },
                    None => Action::RemoveFile { path: update.path.clone() },
                }
            },
            Step::Cleanup { k } => Action::RemoveIndex(self.temp_file(*k)),
            Step::Finished => Action::Done,
        }
    }

    /// Goes on with the answer to the last action: what it gave, or `None` when
    /// it failed.
    pub fn reply(&mut self, output: Option<Vec<u8>>)
        requires
            old(self).wf(),
        ensures
            final(self).wf(),
            final(self)@ == self::next(old(self)@, model::bytes_of(output)),
    {
        proof {
            lemma_plan(*self.plan);
            law_answers_keep_sound(self@, model::bytes_of(output));
        }
        match &output {
            Some(o) => self.succeed(o),
            None => self.give_up(),
        }
    }

    fn see(&mut self, u: usize, copy: Option<&Vec<u8>>)
        requires
            u < old(self)@.plan.updates.len(),
        ensures
            final(self)@ == seen(
                old(self)@,
                u as int,
                match copy {
                    Some(b) => Some(b@),
                    None => None,
                },
            ),
            final(self).branches == old(self).branches,
    {
        let update = &self.plan.index_updates[u];
        proof {
            lemma_plan(*self.plan);
            assert(self@.plan.updates[u as int] == update.deep_view());
        }
        let same = match (copy, &update.staged) {
            (Some(a), Some(b)) => same_bytes(a, b),
            (None, None) => true,
            _ => false,
        };
        if same {
            self.step = Step::PutFile { u };
        } else {
            let ghost before = self.skipped.deep_view();
            self.skipped.push(update.path.clone());
            assert(self.skipped.deep_view() =~= before.push(update.path@));
            self.go_to_update(u + 1);
        }
    }

    #[verifier::rlimit(50)]
    fn succeed(&mut self, o: &Vec<u8>)
        requires
            old(self).wf(),
        ensures
            final(self)@ == done(old(self)@, o@),
            final(self).branches == old(self).branches,
    {
        proof {
            lemma_plan(*self.plan);
            assert(self.branches.len() == self.branches@.len());
        }
        match &self.step {
            Step::CheckName { b } => {
                self.step = Step::CheckNew { b: *b };
            },
            Step::CheckNew { b } => {
                let b: usize = *b;
                assert(new_branches(self@.plan.commits)[b as int] == self.branches@[b as int]@);
                if printed_text(o).as_str().is_empty() {
                    self.go_to_name(b + 1);
                } else {
                    let name = self.branches[b].clone();
                    self.fail(CommitError::BranchExists(name));
                }
            },
            Step::GitDir => {
                self.git_dir = printed_text(o);
                self.step = Step::Head;
            },
            Step::Head => {
                let id = printed_text(o);
                self.head = if id.as_str().is_empty() {
                    None
                } else {
                    Some(id)
                };
                self.step = Step::Sign;
            },
            Step::Sign => {
                self.sign = printed_text(o) == "true".to_string();
                self.go_to_commit(0);
            },
            Step::ReadTree { c } => {
                let c: usize = *c;
                proof {
                    lemma_destinations(self@.plan.commits, c as int);
                }
                self.opened = self.opened + 1;
                self.go_to_file(c, 0);
            },
            Step::Change { c, f } => {
                let c: usize = *c;
                let f: usize = *f;
                let change = &self.plan.commits[c].files[f];
                assert(self@.plan.commits[c as int].files[f as int] == change.deep_view());
                if change.content.is_some() {
                    self.step = Step::Enter { c, f, sha: printed_word(o) };
                } else {
                    self.go_to_file(c, f + 1);
                }
            },
            Step::Enter { c, f, .. } => {
                let c: usize = *c;
                let f: usize = *f;
                assert(self@.plan.commits[c as int].files.len() <= usize::MAX);
                self.go_to_file(c, f + 1);
            },
            Step::WriteTree { c } => {
                self.step = Step::CommitTree { c: *c, tree: printed_text(o) };
            },
            Step::CommitTree { c, .. } => {
                let c: usize = *c;
                let ghost before = self.ids.deep_view();
                let id = printed_text(o);
                self.ids.push(id);
                assert(self.ids.deep_view() =~= before.push(id@));
                self.go_to_commit(c + 1);
            },
            Step::MoveHead => {
                self.go_to_branch(0);
            },
            Step::MakeBranch { b } => {
                let b: usize = *b;
                self.go_to_branch(b + 1);
            },
            Step::Restage { u } => {
                let u: usize = *u;
                let update = &self.plan.index_updates[u];
                assert(self@.plan.updates[u as int] == update.deep_view());
                self.step = if update.content.is_some() {
                    Step::Reenter { u, sha: printed_word(o) }
                } else {
                    Step::ReadFile { u }
                };
            },
            Step::Reenter { u, .. } => {
                self.step = Step::ReadFile { u: *u };
            },
            Step::ReadFile { u } => {
                let u: usize = *u;
                self.see(u, Some(o));
            },
            Step::PutFile { u } => {
                let u: usize = *u;
                self.go_to_update(u + 1);
            },
            Step::Cleanup { k } => {
                let k: usize = *k;
                self.clean_up(k + 1);
            },
            Step::Finished => {},
        }
    }

    fn give_up(&mut self)
        requires
            old(self).wf(),
        ensures
            final(self)@ == not_done(old(self)@),
            final(self).branches == old(self).branches,
    {
        proof {
            lemma_plan(*self.plan);
            assert(self.branches.len() == self.branches@.len());
        }
        match &self.step {
            Step::CheckName { b } => {
                let b: usize = *b;
                assert(new_branches(self@.plan.commits)[b as int] == self.branches@[b as int]@);
                let name = self.branches[b].clone();
                self.fail(CommitError::InvalidBranch(name));
            },
            Step::CheckNew { b } => {
                let b: usize = *b;
                self.go_to_name(b + 1);
            },
            Step::Head => {
                self.head = None;
                self.step = Step::Sign;
            },
            Step::Sign => {
                self.sign = false;
                self.go_to_commit(0);
            },
            Step::ReadFile { u } => {
                let u: usize = *u;
                self.see(u, None);
            },
            Step::PutFile { u } => {
                let u: usize = *u;
                let update = &self.plan.index_updates[u];
                assert(self@.plan.updates[u as int] == update.deep_view());
                if update.content.is_some() {
                    self.fail(CommitError::Command);
                } else {
                    self.go_to_update(u + 1);
                }
            },
            Step::Cleanup { k } => {
                let k: usize = *k;
                self.clean_up(k + 1);
            },
            Step::Finished => {},
            _ => {
                self.fail(CommitError::Command);
            },
        }
    }

    /// The commits that were made, or why not; `None` as long as there is more
    /// to do.
    pub fn result(self) -> (r: Option<Result<CreatedCommits, CommitError>>)
        ensures
            r is Some <==> self@.step is Finished,
            r matches Some(Ok(created)) ==> self@.failure is None && created.ids.deep_view()
                == self@.ids && created.worktree_skipped.deep_view() == self@.skipped,
            r matches Some(Err(e)) ==> self@.failure == Some(e.deep_view()),
    {
        match self.step {
            Step::Finished => match self.failure {
                Some(e) => Some(Err(e)),
                None => Some(
                    Ok(CreatedCommits { ids: self.ids, worktree_skipped: self.skipped }),
                ),
            },
            _ => None,
        }
    }
}

fn same_bytes(a: &Vec<u8>, b: &Vec<u8>) -> (r: bool)
    ensures
        r == (a@ == b@),
{
    if a.len() != b.len() {
        return false;
    }
    let mut i: usize = 0;
    while i < a.len()
        invariant
            i <= a@.len() == b@.len(),
            forall|k: int| 0 <= k < i ==> a@[k] == b@[k],
        decreases a@.len() - i,
    {
        if a[i] != b[i] {
            return false;
        }
        i += 1;
    }
    assert(a@ =~= b@);
    true
}

} // verus!
