//! From a finished session to commits, and what is said at the end.
use vstd::prelude::*;

use crate::app::{App, AppView, Outcome, OutcomeView};
use crate::backend::CreatedCommits;
use crate::model;
use crate::model::{CommitView, Plan};
use crate::steps;
use crate::text;
use crate::text::{append, chars_of, decimal_string};

verus! {

// ---------------------------------------------------------------------------
// Asking for commits.

/// The commits of a session.
pub open spec fn planned(app: App) -> Seq<CommitView> {
    model::planned_commits(
        app.files@,
        app@.assign,
        app.bases@,
        steps::local_commits(app@.commits),
        app@.commits.len() as int,
    )
}

/// A session whose request for commits was taken: when there are none to make,
/// it says so.
pub open spec fn taken(app: App) -> AppView {
    if !app@.request_commit {
        app@
    } else if planned(app).len() == 0 {
        AppView {
            request_commit: false,
            status: Some("nothing assigned — no commits to create"@),
            ..app@
        }
    } else {
        AppView { request_commit: false, ..app@ }
    }
}

/// Takes the session's request for commits: the plan, when one was made and
/// there are commits to make.
pub fn take_request(app: &mut App) -> (r: Option<Plan>)
    requires
        old(app).wf(),
        old(app)@.request_commit ==> model::plannable(
            old(app).files@,
            old(app)@.assign,
            steps::local_commits(old(app)@.commits),
        ),
    ensures
        final(app).wf(),
        final(app).same_repo(*old(app)),
        final(app)@ == taken(*old(app)),
        match r {
            Some(plan) => old(app)@.request_commit && planned(*old(app)).len() > 0
                && plan.commits.deep_view() == planned(*old(app))
                && plan.index_updates.deep_view() == model::planned_updates(
                old(app).files@,
                old(app)@.assign,
                old(app).bases@,
                steps::local_commits(old(app)@.commits),
                old(app).files@.len() as int,
            ),
            None => !old(app)@.request_commit || planned(*old(app)).len() == 0,
        },
{
    if !app.request_commit {
        return None;
    }
    app.request_commit = false;
    assert(steps::sound(app.files@, app@));
    let plan = app.plan();
    assert(plan.commits.deep_view().len() == plan.commits@.len());
    if plan.commits.len() == 0 {
        app.status = Some("nothing assigned — no commits to create".to_string());
        assert(steps::sound(app.files@, app@));
        None
    } else {
        Some(plan)
    }
}

/// The commits that were made: their ids, messages and branches, as far as there
/// are ids.
pub open spec fn made(ids: Seq<Seq<char>>, commits: Seq<CommitView>) -> Seq<
    (Seq<char>, Seq<char>, Option<Seq<char>>),
> {
    Seq::new(
        if ids.len() <= commits.len() {
            ids.len()
        } else {
            commits.len()
        },
        |i: int| (ids[i], commits[i].message, commits[i].branch),
    )
}

/// Ends the session with the commits that were made.
pub fn set_committed(app: &mut App, created: CreatedCommits, plan: &Plan)
    requires
        old(app).wf(),
    ensures
        final(app).wf(),
        final(app).same_repo(*old(app)),
        final(app)@ == (AppView {
            outcome: Some(
                OutcomeView::Committed {
                    commits: made(created.ids.deep_view(), plan.commits.deep_view()),
                    worktree_skipped: created.worktree_skipped.deep_view(),
                },
            ),
            ..old(app)@
        }),
{
    let mut commits: Vec<(String, String, Option<String>)> = Vec::new();
    let mut i: usize = 0;
    while i < created.ids.len() && i < plan.commits.len()
        invariant
            i <= created.ids@.len(),
            i <= plan.commits@.len(),
            commits@.len() == i,
            forall|k: int|
                0 <= k < i ==> (#[trigger] commits@[k]).deep_view() == (
                    created.ids@[k]@,
                    plan.commits@[k].message@,
                    plan.commits@[k].branch.deep_view(),
                ),
        decreases created.ids@.len() - i,
    {
        let c = &plan.commits[i];
        let branch = match &c.branch {
            Some(b) => Some(b.clone()),
            None => None,
        };
        commits.push((created.ids[i].clone(), c.message.clone(), branch));
        i += 1;
    }
    assert(commits.deep_view() =~= made(created.ids.deep_view(), plan.commits.deep_view()));
    app.outcome = Some(
        Outcome::Committed { commits, worktree_skipped: created.worktree_skipped },
    );
    assert(steps::sound(app.files@, app@));
}

/// Goes on with the session after commits could not be made.
pub fn set_failed(app: &mut App, reason: &str)
    requires
        old(app).wf(),
    ensures
        final(app).wf(),
        final(app).same_repo(*old(app)),
        final(app)@ == (AppView { status: Some("commit failed: "@ + reason@), ..old(app)@ }),
{
    let mut status = "commit failed: ".to_string();
    append(&mut status, reason);
    app.status = Some(status);
    assert(steps::sound(app.files@, app@));
}

// ---------------------------------------------------------------------------
// The last words.

/// The number of bytes of a character.
pub open spec fn width(c: char) -> nat {
    let u = c as u32;
    if u < 0x80 {
        1
    } else if u < 0x800 {
        2
    } else if u < 0x1_0000 {
        3
    } else {
        4
    }
}

/// The characters in the first `n` bytes of a text, unless a character lies
/// across their end.
pub open spec fn first_bytes(s: Seq<char>, n: int) -> Option<Seq<char>>
    decreases s.len(),
{
    if s.len() == 0 || n == 0 {
        Some(Seq::<char>::empty())
    } else if width(s[0]) > n {
        None
    } else {
        match first_bytes(s.skip(1), n - width(s[0])) {
            Some(t) => Some(seq![s[0]] + t),
            None => None,
        }
    }
}

fn take_bytes(s: &String, n: usize) -> (r: String)
    requires
        first_bytes(s@, n as int) is Some,
    ensures
        r@ == first_bytes(s@, n as int).unwrap(),
{
    let chars = chars_of(s);
    let mut out = String::new();
    let mut left: usize = n;
    let mut i: usize = 0;
    proof {
        assert(chars@.skip(0) =~= chars@);
        assert(out@ + first_bytes(s@, n as int).unwrap() =~= first_bytes(s@, n as int).unwrap());
    }
    while i < chars.len() && left > 0
        invariant
            chars@ == s@,
            i <= chars@.len(),
            first_bytes(s@, n as int) is Some,
            first_bytes(s@.skip(i as int), left as int) is Some,
            out@ + first_bytes(s@.skip(i as int), left as int).unwrap() == first_bytes(
                s@,
                n as int,
            ).unwrap(),
        decreases chars@.len() - i,
    {
        let c = chars[i];
        let u = c as u32;
        let w: usize = if u < 0x80 {
            1
        } else if u < 0x800 {
            2
        } else if u < 0x1_0000 {
            3
        } else {
            4
        };
        let ghost before = out@;
        out.push(c);
        proof {
            assert(s@.skip(i as int)[0] == c);
            assert(s@.skip(i as int).skip(1) =~= s@.skip(i + 1));
            let t = first_bytes(s@.skip(i + 1), left - w).unwrap();
            assert(before + (seq![c] + t) =~= out@ + t);
        }
        left -= w;
        i += 1;
    }
    assert(out@ + Seq::<char>::empty() =~= out@);
    out
}

/// The line of a commit.
pub open spec fn commit_line(c: (Seq<char>, Seq<char>, Option<Seq<char>>)) -> Seq<char> {
    "  "@ + first_bytes(c.0, 10).unwrap() + " "@ + c.1 + (match c.2 {
        Some(b) => " (on new branch "@ + b + ")"@,
        None => ""@,
    })
}

/// The texts, separated by commas.
pub open spec fn listed(names: Seq<Seq<char>>, n: int) -> Seq<char>
    decreases n,
{
    if n <= 0 {
        Seq::<char>::empty()
    } else if n == 1 {
        names[0]
    } else {
        listed(names, n - 1) + ", "@ + names[n - 1]
    }
}

fn list(names: &Vec<String>) -> (r: String)
    ensures
        r@ == listed(names.deep_view(), names@.len() as int),
{
    let mut out = String::new();
    let mut i: usize = 0;
    while i < names.len()
        invariant
            i <= names@.len(),
            out@ == listed(names.deep_view(), i as int),
        decreases names@.len() - i,
    {
        if i > 0 {
            append(&mut out, ", ");
        }
        append(&mut out, &names[i]);
        assert(names.deep_view()[i as int] == names@[i as int]@);
        i += 1;
        assert(out@ =~= listed(names.deep_view(), i as int));
    }
    out
}

/// What is said of the first `n` commits.
pub open spec fn commit_lines(
    commits: Seq<(Seq<char>, Seq<char>, Option<Seq<char>>)>,
    n: nat,
) -> Seq<Seq<char>> {
    seq!["hunkle: created "@ + text::decimal(commits.len()) + " commit(s):"@] + Seq::new(
        n,
        |i: int| commit_line(commits[i]),
    )
}

/// What is said at the end, line by line: `left` changes were not assigned.
pub open spec fn last_words(outcome: OutcomeView, left: nat) -> Seq<Seq<char>> {
    match outcome {
        OutcomeView::Quit => seq![
            "hunkle: aborted — no commits created, staged changes untouched."@,
        ],
        OutcomeView::Committed { commits, worktree_skipped } => {
            let lines = commit_lines(commits, commits.len());
            let more = if left > 0 {
                lines.push(
                    text::decimal(left) + " change line(s) were not assigned and remain staged."@,
                )
            } else {
                lines
            };
            if worktree_skipped.len() > 0 {
                more.push(
                    "warning: kept branch-assigned lines in the working tree of "@ + listed(
                        worktree_skipped,
                        worktree_skipped.len() as int,
                    ) + " (unstaged edits present); remove them manually."@,
                )
            } else {
                more
            }
        },
    }
}

/// Ids can be cut to ten bytes.
pub open spec fn ids_can_be_cut(outcome: OutcomeView) -> bool {
    outcome matches OutcomeView::Committed { commits, .. } ==> forall|i: int|
        0 <= i < commits.len() ==> first_bytes((#[trigger] commits[i]).0, 10) is Some
}

fn push_line(lines: &mut Vec<String>, line: String)
    ensures
        final(lines).deep_view() == old(lines).deep_view().push(line@),
{
    let ghost before = lines.deep_view();
    lines.push(line);
    assert(lines.deep_view() =~= before.push(line@));
}

/// What is said at the end, line by line.
pub fn report(outcome: &Outcome, left: usize) -> (r: Vec<String>)
    requires
        ids_can_be_cut(outcome@),
    ensures
        r.deep_view() == last_words(outcome@, left as nat),
{
    let mut lines: Vec<String> = Vec::new();
    assert(lines.deep_view() =~= Seq::<Seq<char>>::empty());
    match outcome {
        Outcome::Quit => {
            push_line(
                &mut lines,
                "hunkle: aborted — no commits created, staged changes untouched.".to_string(),
            );
            assert(lines.deep_view() =~= last_words(outcome@, left as nat));
        },
        Outcome::Committed { commits, worktree_skipped } => {
            let ghost view = commits.deep_view();
            let mut first = "hunkle: created ".to_string();
            append(&mut first, &decimal_string(commits.len()));
            append(&mut first, " commit(s):");
            push_line(&mut lines, first);
            assert(lines.deep_view() =~= commit_lines(view, 0));
            let mut i: usize = 0;
            while i < commits.len()
                invariant
                    i <= commits@.len(),
                    view == commits.deep_view(),
                    forall|k: int|
                        0 <= k < view.len() ==> first_bytes((#[trigger] view[k]).0, 10) is Some,
                    lines.deep_view() == commit_lines(view, i as nat),
                decreases commits@.len() - i,
            {
                let (id, message, branch) = &commits[i];
                assert(view[i as int] == (id@, message@, branch.deep_view()));
                let mut line = "  ".to_string();
                append(&mut line, &take_bytes(id, 10));
                append(&mut line, " ");
                append(&mut line, message);
                let dest = match branch {
                    Some(b) => {
                        let mut dest = " (on new branch ".to_string();
                        append(&mut dest, b);
                        append(&mut dest, ")");
                        dest
                    },
                    None => "".to_string(),
                };
                append(&mut line, &dest);
                push_line(&mut lines, line);
                i += 1;
                assert(lines.deep_view() =~= commit_lines(view, i as nat));
            }
            if left > 0 {
                let mut line = decimal_string(left);
                append(&mut line, " change line(s) were not assigned and remain staged.");
                push_line(&mut lines, line);
            }
            if worktree_skipped.len() > 0 {
                let mut line =
                    "warning: kept branch-assigned lines in the working tree of ".to_string();
                append(&mut line, &list(worktree_skipped));
                append(&mut line, " (unstaged edits present); remove them manually.");
                push_line(&mut lines, line);
            }
        },
    }
    lines
}

} // verus!
