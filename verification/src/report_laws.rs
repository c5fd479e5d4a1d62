//! What is said at the end of a session, and what becomes of a request to commit.
use vstd::prelude::*;

use crate::app::{App, AppView, OutcomeView};
use crate::backend;
use crate::committing::CommitErrorView;
use crate::diff::{DiffErrorView, HeaderError};
use crate::model;
use crate::model::{CommitView, SpecView};
use crate::report;
use crate::steps;
use crate::text;
use crate::text::NumberError;

verus! {

/// The number of bytes of a text.
pub open spec fn size(s: Seq<char>) -> nat
    decreases s.len(),
{
    if s.len() == 0 {
        0
    } else {
        size_of(s[0]) + size(s.skip(1))
    }
}

/// The number of bytes of a character.
pub open spec fn size_of(c: char) -> nat {
    if (c as u32) <= 0x7F {
        1
    } else if (c as u32) <= 0x7FF {
        2
    } else if (c as u32) <= 0xFFFF {
        3
    } else {
        4
    }
}

/// The first bytes of a text are those of its first characters: as many bytes as
/// asked for, or all when there are not more; and no text when a character lies
/// across the end.
pub proof fn law_first_bytes(s: Seq<char>, n: int, k: int)
    requires
        n >= 0,
    ensures
        match report::first_bytes(s, n) {
            Some(t) => t.is_prefix_of(s) && (size(t) == n || t == s && size(s) <= n),
            None => size(s) > n && (0 <= k <= s.len() ==> size(s.take(k)) != n),
        },
    decreases s.len(),
{
    if s.len() == 0 {
        assert(Seq::<char>::empty() =~= s);
    } else if n == 0 {
        assert(Seq::<char>::empty() =~= s.take(0));
    } else {
        assert(size_of(s[0]) == report::width(s[0]));
        if k > 0 && k <= s.len() {
            assert(s.take(k)[0] == s[0]);
            assert(s.take(k).skip(1) =~= s.skip(1).take(k - 1));
        }
        if report::width(s[0]) <= n {
            law_first_bytes(s.skip(1), n - report::width(s[0]), k - 1);
            if let Some(t) = report::first_bytes(s.skip(1), n - report::width(s[0])) {
                let r = seq![s[0]] + t;
                assert(r.skip(1) =~= t);
                assert(r[0] == s[0]);
                assert(r =~= s.take(r.len() as int)) by {
                    assert(t =~= s.skip(1).take(t.len() as int));
                    assert forall|i: int| 0 <= i < r.len() implies r[i] == s[i] by {
                        if i > 0 {
                            assert(r[i] == t[i - 1]);
                            assert(t[i - 1] == s.skip(1).take(t.len() as int)[i - 1]);
                        }
                    }
                }
                if t == s.skip(1) {
                    assert(r =~= s);
                }
            } else if k == 0 {
                assert(size(s.take(0)) == 0);
            }
        } else if k == 0 {
            assert(size(s.take(0)) == 0);
        }
    }
}

/// The names, with commas between them.
pub open spec fn names_listed(names: Seq<Seq<char>>) -> Seq<char>
    decreases names.len(),
{
    if names.len() == 0 {
        Seq::<char>::empty()
    } else if names.len() == 1 {
        names[0]
    } else {
        names[0] + ", "@ + names_listed(names.skip(1))
    }
}

proof fn lemma_listed(names: Seq<Seq<char>>, n: int)
    requires
        0 <= n <= names.len(),
    ensures
        report::listed(names, n) == names_listed(names.take(n)),
    decreases n,
{
    if n > 1 {
        lemma_listed(names, n - 1);
        assert(names.take(n) =~= names.take(n - 1).push(names[n - 1]));
        lemma_listed_push(names.take(n - 1), names[n - 1]);
    }
}

proof fn lemma_listed_push(names: Seq<Seq<char>>, last: Seq<char>)
    requires
        names.len() > 0,
    ensures
        names_listed(names.push(last)) == names_listed(names) + ", "@ + last,
    decreases names.len(),
{
    let all = names.push(last);
    if names.len() == 1 {
        assert(all.skip(1) =~= seq![last]);
        assert(names_listed(seq![last]) == last);
        assert(names_listed(all) =~= names[0] + ", "@ + last);
    } else {
        assert(all.skip(1) =~= names.skip(1).push(last));
        lemma_listed_push(names.skip(1), last);
        assert(names_listed(all) =~= names_listed(names) + ", "@ + last);
    }
}

/// A session that ended with commits says how many there are, then each of them
/// with its id, message and branch, then how many changes are left, if any, and
/// then which files were left as they are, if any.
pub proof fn law_last_words_name_the_commits(
    commits: Seq<(Seq<char>, Seq<char>, Option<Seq<char>>)>,
    skipped: Seq<Seq<char>>,
    left: nat,
    i: int,
)
    ensures
        ({
            let words = report::last_words(
                OutcomeView::Committed { commits, worktree_skipped: skipped },
                left,
            );
            let n = commits.len() as int;
            let more = if left > 0 {
                1int
            } else {
                0int
            };
            let warned = if skipped.len() > 0 {
                1int
            } else {
                0int
            };
            &&& words.len() == 1 + n + more + warned
            &&& words[0] == "hunkle: created "@ + text::decimal(commits.len()) + " commit(s):"@
            &&& 0 <= i < n ==> words[1 + i] == "  "@ + report::first_bytes(
                commits[i].0,
                10,
            ).unwrap() + " "@ + commits[i].1 + match commits[i].2 {
                Some(b) => " (on new branch "@ + b + ")"@,
                None => ""@,
            }
            &&& left > 0 ==> words[1 + n] == text::decimal(left)
                + " change line(s) were not assigned and remain staged."@
            &&& skipped.len() > 0 ==> words[1 + n + more]
                == "warning: kept branch-assigned lines in the working tree of "@ + names_listed(
                skipped,
            ) + " (unstaged edits present); remove them manually."@
        }),
        report::last_words(OutcomeView::Quit, left) == seq![
            "hunkle: aborted — no commits created, staged changes untouched."@,
        ],
{
    lemma_listed(skipped, skipped.len() as int);
    assert(skipped.take(skipped.len() as int) =~= skipped);
}

/// A request to commit is answered once. It keeps all else as it is, and says so
/// when there is nothing to commit.
pub proof fn law_requests_are_taken_once(app: App)
    ensures
        ({
            let t = report::taken(app);
            &&& !t.request_commit
            &&& t == (AppView { request_commit: false, status: t.status, ..app@ })
            &&& !app@.request_commit || report::planned(app).len() > 0 ==> t.status == app@.status
            &&& app@.request_commit && report::planned(app).len() == 0 ==> t.status == Some(
                "nothing assigned — no commits to create"@,
            )
        }),
{
}

/// The plan of a session is for its commits, all on the branch that is checked out.
pub proof fn law_session_plans_for_one_branch(app: App, messages: Seq<Seq<char>>, i: int)
    requires
        0 <= i < messages.len(),
    ensures
        steps::local_commits(messages).len() == messages.len(),
        steps::local_commits(messages)[i] == (SpecView { message: messages[i], branch: None }),
        report::planned(app) == model::planned_commits(
            app.files@,
            app@.assign,
            app.bases@,
            steps::local_commits(app@.commits),
            app@.commits.len() as int,
        ),
{
}

/// The commits that were made are told with their ids, messages and branches.
pub proof fn law_made_commits_are_told(ids: Seq<Seq<char>>, commits: Seq<CommitView>, i: int)
    requires
        ids.len() == commits.len(),
        0 <= i < ids.len(),
    ensures
        report::made(ids, commits).len() == ids.len(),
        report::made(ids, commits)[i] == (ids[i], commits[i].message, commits[i].branch),
{
}

// ---------------------------------------------------------------------------
// What is said of failures.

/// The arguments of a command, with spaces between them.
pub open spec fn spaced(args: Seq<Seq<char>>) -> Seq<char>
    decreases args.len(),
{
    if args.len() == 0 {
        Seq::<char>::empty()
    } else if args.len() == 1 {
        args[0]
    } else {
        args[0] + " "@ + spaced(args.skip(1))
    }
}

/// A command is named by its arguments, with spaces between them.
pub proof fn law_commands_are_named(args: Seq<Seq<char>>)
    ensures
        backend::joined(args, args.len() as int) == spaced(args),
{
    lemma_spaced(args, args.len() as int);
    assert(args.take(args.len() as int) =~= args);
}

proof fn lemma_spaced(args: Seq<Seq<char>>, n: int)
    requires
        0 <= n <= args.len(),
    ensures
        backend::joined(args, n) == spaced(args.take(n)),
    decreases n,
{
    if n > 1 {
        lemma_spaced(args, n - 1);
        assert(args.take(n) =~= args.take(n - 1).push(args[n - 1]));
        lemma_spaced_push(args.take(n - 1), args[n - 1]);
    }
}

proof fn lemma_spaced_push(args: Seq<Seq<char>>, last: Seq<char>)
    requires
        args.len() > 0,
    ensures
        spaced(args.push(last)) == spaced(args) + " "@ + last,
    decreases args.len(),
{
    let all = args.push(last);
    if args.len() == 1 {
        assert(all.skip(1) =~= seq![last]);
        assert(spaced(seq![last]) == last);
        assert(spaced(all) =~= args[0] + " "@ + last);
    } else {
        assert(all.skip(1) =~= args.skip(1).push(last));
        lemma_spaced_push(args.skip(1), last);
        assert(spaced(all) =~= spaced(args) + " "@ + last);
    }
}

/// What is said of commits that could not be made, and of diffs that could not be
/// read, names the branch or the line that is wrong.
pub proof fn law_failures_in_words(
    name: Seq<char>,
    line: Seq<char>,
    start: char,
    cause: HeaderError,
)
    ensures
        CommitErrorView::NothingToCommit.text() == Some("nothing to commit"@),
        CommitErrorView::InvalidBranch(name).text() == Some(
            "invalid branch name "@ + text::debug_text(name),
        ),
        CommitErrorView::BranchExists(name).text() == Some(
            "branch "@ + text::debug_text(name) + " already exists"@,
        ),
        CommitErrorView::Command.text() is None,
        (DiffErrorView::BadHunkHeader { line, cause }).text() == "bad hunk header: "@ + line,
        DiffErrorView::Truncated.text() == "diff ended in the middle of a hunk"@,
        (DiffErrorView::UnexpectedLine { start, line }).text()
            == "unexpected line in hunk (starts with "@ + text::debug_char(start) + "): "@ + line,
        HeaderError::NotAHeader.text() == "not a hunk header"@,
        HeaderError::MissingRange.text() == "missing range"@,
        HeaderError::BadOldRange.text() == "bad old range"@,
        HeaderError::BadNewRange.text() == "bad new range"@,
        HeaderError::BadNumber(NumberError::Empty).text()
            == "cannot parse integer from empty string"@,
        HeaderError::BadNumber(NumberError::InvalidDigit).text()
            == "invalid digit found in string"@,
        HeaderError::BadNumber(NumberError::Overflow).text()
            == "number too large to fit in target type"@,
{
}

} // verus!
