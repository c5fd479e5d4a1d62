//! What each key does to a session, as a function on its state.
use vstd::prelude::*;

use crate::app;
use crate::app::{AppView, KeyCode, KeyEvent, ModeView, OutcomeView};
use crate::diff::FileDiff;
use crate::model;
use crate::model::SpecView;
use crate::text;

verus! {

/// The key that a commit is assigned with: `1` to `9` for the first nine, and
/// its number after a zero for the others.
pub open spec fn label(ci: int) -> Seq<char> {
    if ci < 9 {
        text::decimal((ci + 1) as nat)
    } else {
        "0"@ + text::decimal((ci + 1) as nat)
    }
}

/// The members of a set below `n`, in ascending order.
pub open spec fn members_below(s: Set<usize>, n: int) -> Seq<usize>
    decreases n,
{
    if n <= 0 {
        Seq::<usize>::empty()
    } else if s.contains((n - 1) as usize) {
        members_below(s, n - 1).push((n - 1) as usize)
    } else {
        members_below(s, n - 1)
    }
}

/// The members of a set in ascending order.
pub open spec fn ascending(s: Set<usize>) -> Seq<usize> {
    members_below(s, usize::MAX + 1)
}

/// The next position in a list of length `n`, staying at its end.
pub open spec fn next_in(i: usize, n: int) -> usize {
    if i + 1 <= n - 1 {
        (i + 1) as usize
    } else if n > 0 {
        (n - 1) as usize
    } else {
        0
    }
}

/// The position before, staying at the start.
pub open spec fn prev_in(i: usize) -> usize {
    if i > 0 {
        (i - 1) as usize
    } else {
        0
    }
}

/// The current hunk of a session.
pub open spec fn current(files: Seq<FileDiff>, s: AppView) -> Option<(usize, usize)> {
    app::current_hunk(files, s.assign, s.pos as int)
}

/// The session with a message.
pub open spec fn said(s: AppView, message: Seq<char>) -> AppView {
    AppView { status: Some(message), ..s }
}

// ---------------------------------------------------------------------------
// Assigning.

/// The lines of a hunk with the given ones assigned to a commit.
pub open spec fn assigned_row(
    row: Seq<Option<usize>>,
    lines: Seq<usize>,
    commit: usize,
) -> Seq<Option<usize>> {
    Seq::new(
        row.len(),
        |l: int|
            if lines.contains(l as usize) {
                Some(commit)
            } else {
                row[l]
            },
    )
}

/// The assignments with those of one hunk replaced.
pub open spec fn with_row(
    assign: Seq<Seq<Seq<Option<usize>>>>,
    f: int,
    h: int,
    row: Seq<Option<usize>>,
) -> Seq<Seq<Seq<Option<usize>>>> {
    assign.update(f, assign[f].update(h, row))
}

/// Where the session goes once lines were assigned: to the review when no hunk
/// is left, else on to the hunk that is now at the position.
pub open spec fn after_assign(files: Seq<FileDiff>, s: AppView) -> AppView {
    let n = app::pending_hunks(files, s.assign).len();
    if n == 0 {
        AppView { scroll: 0, mode: ModeView::Review { sel: 0, edit: None }, ..s }
    } else {
        AppView {
            scroll: 0,
            pos: if s.pos <= n - 1 {
                s.pos
            } else {
                (n - 1) as usize
            },
            mode: ModeView::Browse,
            ..s
        }
    }
}

/// Assigns the given lines of the current hunk, or all its open lines, to a
/// commit.
pub open spec fn assign_current(
    files: Seq<FileDiff>,
    s: AppView,
    commit: usize,
    lines: Option<Seq<usize>>,
) -> AppView {
    match current(files, s) {
        None => s,
        Some((fi, hi)) => {
            let f = fi as int;
            let h = hi as int;
            let targets = match lines {
                Some(t) => t,
                None => app::open_lines_of(files, s.assign, f, h),
            };
            let done = AppView {
                assign: with_row(
                    s.assign,
                    f,
                    h,
                    assigned_row(s.assign[f][h], targets, commit),
                ),
                ..s
            };
            after_assign(
                files,
                said(
                    done,
                    text::decimal(targets.len()) + " line(s) -> ["@ + label(commit as int) + "] "@
                        + s.commits[commit as int],
                ),
            )
        },
    }
}

/// Assigns to a commit by its number, from the selection when lines are being
/// picked, else the whole hunk.
pub open spec fn assign_via_key(files: Seq<FileDiff>, s: AppView, ci: usize) -> AppView {
    if ci >= s.commits.len() {
        said(s, "no commit ["@ + label(ci as int) + "] yet — press n to create one"@)
    } else {
        match s.mode {
            ModeView::Select { selected, .. } => if selected.is_empty() {
                said(s, "no lines selected (space toggles)"@)
            } else {
                assign_current(files, s, ci, Some(ascending(selected)))
            },
            _ => assign_current(files, s, ci, None),
        }
    }
}

/// Begins the input of a commit number.
pub open spec fn start_ext(s: AppView) -> AppView {
    if s.commits.len() == 0 {
        said(s, "no commits yet — press n to create one"@)
    } else {
        AppView { ext_input: Some(Seq::empty()), ..s }
    }
}

/// The number that digits stand for, or `other` when they stand for none.
pub open spec fn number_or(digits: Seq<char>, other: usize) -> usize {
    match text::number(digits) {
        Ok(n) => n,
        Err(_) => other,
    }
}

/// A key while a commit number is being typed. A number is taken as soon as no
/// longer one can name a commit.
pub open spec fn key_ext(files: Seq<FileDiff>, s: AppView, code: KeyCode) -> AppView {
    let n = s.commits.len();
    let closed = AppView { ext_input: None, ..s };
    match s.ext_input {
        None => s,
        Some(digits) => match code {
            KeyCode::Esc => closed,
            KeyCode::Backspace => if digits.len() == 0 {
                closed
            } else {
                AppView { ext_input: Some(digits.drop_last()), ..s }
            },
            KeyCode::Enter => {
                let id = number_or(digits, 0);
                if 1 <= id <= n {
                    assign_via_key(files, closed, (id - 1) as usize)
                } else {
                    said(closed, "invalid commit id"@)
                }
            },
            KeyCode::Char(c) => if text::is_digit(c) {
                let longer = digits.push(c);
                let id = number_or(longer, usize::MAX);
                if id > n {
                    said(
                        closed,
                        "no commit [0"@ + longer + "] (highest is ["@ + label(n - 1) + "])"@,
                    )
                } else if id >= 1 && id * 10 > n {
                    assign_via_key(files, closed, (id - 1) as usize)
                } else {
                    AppView { ext_input: Some(longer), ..s }
                }
            } else {
                s
            },
            _ => s,
        },
    }
}

// ---------------------------------------------------------------------------
// Browsing.

/// How many of the first `n` lines are assigned.
pub open spec fn assigned_count(row: Seq<Option<usize>>, n: int) -> nat
    decreases n,
{
    if n <= 0 {
        0
    } else {
        assigned_count(row, n - 1) + if row[n - 1] is Some {
            1nat
        } else {
            0nat
        }
    }
}

/// Takes the assignments of the current hunk back.
pub open spec fn unassign(files: Seq<FileDiff>, s: AppView) -> AppView {
    match current(files, s) {
        None => s,
        Some((fi, hi)) => {
            let row = s.assign[fi as int][hi as int];
            let n = assigned_count(row, row.len() as int);
            let done = AppView {
                assign: with_row(
                    s.assign,
                    fi as int,
                    hi as int,
                    Seq::new(row.len(), |l: int| None),
                ),
                ..s
            };
            said(
                done,
                if n > 0 {
                    "unassigned "@ + text::decimal(n) + " line(s) of this hunk"@
                } else {
                    "nothing assigned in this hunk"@
                },
            )
        },
    }
}

/// Goes to the pending hunk `by` further on, around the end.
pub open spec fn skip_by(files: Seq<FileDiff>, s: AppView, by: int) -> AppView {
    let n = app::pending_hunks(files, s.assign).len() as int;
    if n > 0 {
        AppView { pos: ((s.pos + by) % n) as usize, scroll: 0, ..s }
    } else {
        s
    }
}

/// A key while hunks are being browsed.
pub open spec fn key_browse(files: Seq<FileDiff>, s: AppView, code: KeyCode) -> AppView {
    match code {
        KeyCode::Esc => AppView { outcome: Some(OutcomeView::Quit), ..s },
        KeyCode::Right | KeyCode::Tab => skip_by(files, s, 1),
        KeyCode::Left => skip_by(files, s, -1),
        KeyCode::Down => AppView { scroll: down(s.scroll), ..s },
        KeyCode::Up => AppView { scroll: up(s.scroll), ..s },
        KeyCode::Enter => to_review(s),
        KeyCode::Char(c) => if '1' <= c <= '9' {
            assign_via_key(files, s, (c as int - '1' as int) as usize)
        } else if c == 'q' {
            AppView { outcome: Some(OutcomeView::Quit), ..s }
        } else if c == '0' {
            start_ext(s)
        } else if c == 'n' {
            AppView { mode: ModeView::Name { input: Seq::empty(), lines: None }, ..s }
        } else if c == 'v' || c == ' ' {
            AppView { mode: ModeView::Select { cursor: 0, selected: Set::empty() }, ..s }
        } else if c == 's' || c == 'l' {
            skip_by(files, s, 1)
        } else if c == 'h' {
            skip_by(files, s, -1)
        } else if c == 'j' {
            AppView { scroll: down(s.scroll), ..s }
        } else if c == 'k' {
            AppView { scroll: up(s.scroll), ..s }
        } else if c == 'u' {
            unassign(files, s)
        } else if c == 'm' {
            if s.commits.len() == 0 {
                said(s, "no commits to manage yet"@)
            } else {
                AppView { mode: ModeView::Manage { cursor: 0, mark: None, back: None }, ..s }
            }
        } else if c == 'd' {
            to_review(s)
        } else {
            s
        },
        _ => s,
    }
}

/// One line further down.
pub open spec fn down(scroll: u16) -> u16 {
    if scroll < u16::MAX {
        (scroll + 1) as u16
    } else {
        scroll
    }
}

/// One line further up.
pub open spec fn up(scroll: u16) -> u16 {
    if scroll > 0 {
        (scroll - 1) as u16
    } else {
        0
    }
}

/// Goes to the review, if there is something to review.
pub open spec fn to_review(s: AppView) -> AppView {
    if app::any_assigned(s.assign) {
        AppView { mode: ModeView::Review { sel: 0, edit: None }, ..s }
    } else {
        said(s, "nothing assigned yet"@)
    }
}

// ---------------------------------------------------------------------------
// Picking lines.

/// A key while lines are being picked.
pub open spec fn key_select(files: Seq<FileDiff>, s: AppView, code: KeyCode) -> AppView {
    match current(files, s) {
        None => AppView { mode: ModeView::Browse, ..s },
        Some((fi, hi)) => match s.mode {
            ModeView::Select { cursor, selected } => {
                let lines = app::open_lines_of(files, s.assign, fi as int, hi as int);
                let n = lines.len() as int;
                match code {
                    KeyCode::Esc => AppView { mode: ModeView::Browse, ..s },
                    KeyCode::Down => AppView {
                        mode: ModeView::Select { cursor: next_in(cursor, n), selected },
                        ..s
                    },
                    KeyCode::Up => AppView {
                        mode: ModeView::Select { cursor: prev_in(cursor), selected },
                        ..s
                    },
                    KeyCode::Char(c) => if '1' <= c <= '9' {
                        assign_via_key(files, s, (c as int - '1' as int) as usize)
                    } else if c == 'v' || c == 'q' {
                        AppView { mode: ModeView::Browse, ..s }
                    } else if c == 'j' {
                        AppView {
                            mode: ModeView::Select { cursor: next_in(cursor, n), selected },
                            ..s
                        }
                    } else if c == 'k' {
                        AppView {
                            mode: ModeView::Select { cursor: prev_in(cursor), selected },
                            ..s
                        }
                    } else if c == ' ' {
                        if cursor < n {
                            let li = lines[cursor as int];
                            AppView {
                                mode: ModeView::Select {
                                    cursor: next_in(cursor, n),
                                    selected: if selected.contains(li) {
                                        selected.remove(li)
                                    } else {
                                        selected.insert(li)
                                    },
                                },
                                ..s
                            }
                        } else {
                            s
                        }
                    } else if c == 'a' {
                        AppView {
                            mode: ModeView::Select {
                                cursor,
                                selected: if selected.len() == n {
                                    Set::empty()
                                } else {
                                    selected.union(lines.to_set())
                                },
                            },
                            ..s
                        }
                    } else if c == '0' {
                        start_ext(s)
                    } else if c == 'n' {
                        if selected.is_empty() {
                            said(s, "no lines selected (space toggles)"@)
                        } else {
                            AppView {
                                mode: ModeView::Name {
                                    input: Seq::empty(),
                                    lines: Some(ascending(selected)),
                                },
                                ..s
                            }
                        }
                    } else {
                        s
                    },
                    _ => s,
                }
            },
            _ => s,
        },
    }
}

// ---------------------------------------------------------------------------
// Naming a commit.

/// A key while the message of a new commit is being typed.
pub open spec fn key_name(files: Seq<FileDiff>, s: AppView, code: KeyCode) -> AppView {
    match s.mode {
        ModeView::Name { input, lines } => match code {
            KeyCode::Esc => AppView {
                mode: match lines {
                    Some(l) => ModeView::Select { cursor: 0, selected: l.to_set() },
                    None => ModeView::Browse,
                },
                ..s
            },
            KeyCode::Enter => {
                let message = text::trimmed(input);
                if message.len() == 0 {
                    said(s, "commit message cannot be empty"@)
                } else {
                    assign_current(
                        files,
                        AppView {
                            commits: s.commits.push(message),
                            mode: ModeView::Name { input, lines: None },
                            ..s
                        },
                        s.commits.len() as usize,
                        lines,
                    )
                }
            },
            KeyCode::Backspace => AppView {
                mode: ModeView::Name { input: without_last(input), lines },
                ..s
            },
            KeyCode::Char(c) => AppView {
                mode: ModeView::Name { input: input.push(c), lines },
                ..s
            },
            _ => s,
        },
        _ => s,
    }
}

/// A text without its last character.
pub open spec fn without_last(t: Seq<char>) -> Seq<char> {
    if t.len() == 0 {
        t
    } else {
        t.drop_last()
    }
}

// ---------------------------------------------------------------------------
// Reviewing.

/// A key while the message of commit `sel` is being edited.
pub open spec fn key_edit(s: AppView, sel: usize, buf: Seq<char>, code: KeyCode) -> AppView {
    match code {
        KeyCode::Esc => AppView { mode: ModeView::Review { sel, edit: None }, ..s },
        KeyCode::Enter => {
            let message = text::trimmed(buf);
            if message.len() == 0 {
                said(s, "commit message cannot be empty"@)
            } else {
                AppView {
                    commits: s.commits.update(sel as int, message),
                    mode: ModeView::Review { sel, edit: None },
                    ..s
                }
            }
        },
        KeyCode::Backspace => AppView {
            mode: ModeView::Review { sel, edit: Some(without_last(buf)) },
            ..s
        },
        KeyCode::Char(c) => AppView {
            mode: ModeView::Review { sel, edit: Some(buf.push(c)) },
            ..s
        },
        _ => s,
    }
}

/// Goes back to the hunks, if any is left.
pub open spec fn to_browse(files: Seq<FileDiff>, s: AppView) -> AppView {
    if app::pending_hunks(files, s.assign).len() > 0 {
        AppView { mode: ModeView::Browse, ..s }
    } else {
        said(s, "all hunks assigned (u on review is not supported; q to quit)"@)
    }
}

/// A key in the review.
pub open spec fn key_review(files: Seq<FileDiff>, s: AppView, code: KeyCode) -> AppView {
    let n = s.commits.len() as int;
    match s.mode {
        ModeView::Review { sel, edit: Some(buf) } => key_edit(s, sel, buf, code),
        ModeView::Review { sel, edit: None } => match code {
            KeyCode::Down => AppView {
                mode: ModeView::Review { sel: next_in(sel, n), edit: None },
                ..s
            },
            KeyCode::Up => AppView {
                mode: ModeView::Review { sel: prev_in(sel), edit: None },
                ..s
            },
            KeyCode::Esc => to_browse(files, s),
            KeyCode::Enter => AppView { request_commit: true, ..s },
            KeyCode::Char(c) => if c == 'q' {
                AppView { outcome: Some(OutcomeView::Quit), ..s }
            } else if c == 'j' {
                AppView { mode: ModeView::Review { sel: next_in(sel, n), edit: None }, ..s }
            } else if c == 'k' {
                AppView { mode: ModeView::Review { sel: prev_in(sel), edit: None }, ..s }
            } else if c == 'e' {
                if n > 0 {
                    AppView {
                        mode: ModeView::Review { sel, edit: Some(s.commits[sel as int]) },
                        ..s
                    }
                } else {
                    s
                }
            } else if c == 'm' {
                if n > 0 {
                    AppView {
                        mode: ModeView::Manage { cursor: 0, mark: None, back: Some(sel) },
                        ..s
                    }
                } else {
                    s
                }
            } else if c == 'b' {
                to_browse(files, s)
            } else if c == 'y' {
                AppView { request_commit: true, ..s }
            } else {
                s
            },
            _ => s,
        },
        _ => s,
    }
}

// ---------------------------------------------------------------------------
// Reordering the commits.

/// The commit that takes the place of another when `a` and `b` change places.
pub open spec fn swapped(x: Option<usize>, a: usize, b: usize) -> Option<usize> {
    if x == Some(a) {
        Some(b)
    } else if x == Some(b) {
        Some(a)
    } else {
        x
    }
}

/// The lines of a hunk after `a` and `b` changed places.
pub open spec fn swapped_row(row: Seq<Option<usize>>, a: usize, b: usize) -> Seq<Option<usize>> {
    Seq::new(row.len(), |l: int| swapped(row[l], a, b))
}

/// The assignments of a file after `a` and `b` changed places.
pub open spec fn swapped_rows(rows: Seq<Seq<Option<usize>>>, a: usize, b: usize) -> Seq<
    Seq<Option<usize>>,
> {
    Seq::new(rows.len(), |h: int| swapped_row(rows[h], a, b))
}

/// The assignments after `a` and `b` changed places.
pub open spec fn swapped_grid(assign: Seq<Seq<Seq<Option<usize>>>>, a: usize, b: usize) -> Seq<
    Seq<Seq<Option<usize>>>,
> {
    Seq::new(assign.len(), |f: int| swapped_rows(assign[f], a, b))
}

/// Two commits change places, and their lines go with them.
pub open spec fn swap_commits(s: AppView, a: usize, b: usize) -> AppView {
    AppView {
        commits: s.commits.update(a as int, s.commits[b as int]).update(
            b as int,
            s.commits[a as int],
        ),
        assign: swapped_grid(s.assign, a, b),
        ..s
    }
}

/// Leaves the management of the commits.
pub open spec fn leave_manage(s: AppView, back: Option<usize>) -> AppView {
    AppView {
        mode: match back {
            Some(sel) => ModeView::Review { sel, edit: None },
            None => ModeView::Browse,
        },
        ..s
    }
}

/// Marks the commit under the cursor, takes its mark away, or lets it change
/// places with the marked one.
pub open spec fn mark_or_swap(
    s: AppView,
    cursor: usize,
    mark: Option<usize>,
    back: Option<usize>,
) -> AppView {
    match mark {
        None => AppView { mode: ModeView::Manage { cursor, mark: Some(cursor), back }, ..s },
        Some(m) => {
            let unmarked = AppView { mode: ModeView::Manage { cursor, mark: None, back }, ..s };
            if m == cursor {
                unmarked
            } else {
                said(
                    swap_commits(unmarked, m, cursor),
                    "swapped ["@ + label(m as int) + "] <-> ["@ + label(cursor as int) + "]"@,
                )
            }
        },
    }
}

/// A key while the commits are being managed.
pub open spec fn key_manage(s: AppView, code: KeyCode) -> AppView {
    let n = s.commits.len() as int;
    match s.mode {
        ModeView::Manage { cursor, mark, back } => match code {
            KeyCode::Esc => leave_manage(s, back),
            KeyCode::Down => AppView {
                mode: ModeView::Manage { cursor: next_in(cursor, n), mark, back },
                ..s
            },
            KeyCode::Up => AppView {
                mode: ModeView::Manage { cursor: prev_in(cursor), mark, back },
                ..s
            },
            KeyCode::Enter => mark_or_swap(s, cursor, mark, back),
            KeyCode::Char(c) => if c == 'q' || c == 'm' {
                leave_manage(s, back)
            } else if c == 'j' {
                AppView { mode: ModeView::Manage { cursor: next_in(cursor, n), mark, back }, ..s }
            } else if c == 'k' {
                AppView { mode: ModeView::Manage { cursor: prev_in(cursor), mark, back }, ..s }
            } else if c == ' ' {
                mark_or_swap(s, cursor, mark, back)
            } else {
                s
            },
            _ => s,
        },
        _ => s,
    }
}

// ---------------------------------------------------------------------------
// Any key.

/// What a key does to a session.
pub open spec fn pressed(files: Seq<FileDiff>, before: AppView, key: KeyEvent) -> AppView {
    let s = AppView { status: None, ..before };
    if key.code == KeyCode::Char('c') && key.control {
        AppView { outcome: Some(OutcomeView::Quit), ..s }
    } else if s.ext_input is Some {
        key_ext(files, s, key.code)
    } else {
        match s.mode {
            ModeView::Browse => key_browse(files, s, key.code),
            ModeView::Select { .. } => key_select(files, s, key.code),
            ModeView::Name { .. } => key_name(files, s, key.code),
            ModeView::Review { .. } => key_review(files, s, key.code),
            ModeView::Manage { .. } => key_manage(s, key.code),
        }
    }
}

// ---------------------------------------------------------------------------
// The first state.

/// How many of the first `n` files are binary.
pub open spec fn binary_count(files: Seq<FileDiff>, n: int) -> nat
    decreases n,
{
    if n <= 0 {
        0
    } else {
        binary_count(files, n - 1) + if files[n - 1].binary {
            1nat
        } else {
            0nat
        }
    }
}

/// A session that begins.
pub open spec fn fresh(files: Seq<FileDiff>) -> AppView {
    let n = binary_count(files, files.len() as int);
    AppView {
        assign: model::no_grid(files),
        commits: Seq::empty(),
        pos: 0,
        scroll: 0,
        mode: ModeView::Browse,
        status: if n > 0 {
            Some("skipped "@ + text::decimal(n) + " binary file(s); they stay staged"@)
        } else {
            None
        },
        request_commit: false,
        outcome: None,
        ext_input: None,
    }
}

/// Commits with the given messages, all for the branch that is checked out.
pub open spec fn local_commits(messages: Seq<Seq<char>>) -> Seq<SpecView> {
    Seq::new(messages.len(), |i: int| SpecView { message: messages[i], branch: None })
}

// ---------------------------------------------------------------------------
// What holds of every session.

/// The assignments have an entry for every line of the file, and no others.
pub open spec fn shaped_file(
    hunks: Seq<crate::diff::Hunk>,
    rows: Seq<Seq<Option<usize>>>,
) -> bool {
    &&& rows.len() == hunks.len()
    &&& forall|h: int| 0 <= h < hunks.len() ==> (#[trigger] rows[h]).len() == hunks[h].lines@.len()
}

/// The assignments have an entry for every line of every file, and no others.
pub open spec fn shaped(files: Seq<FileDiff>, assign: Seq<Seq<Seq<Option<usize>>>>) -> bool {
    &&& assign.len() == files.len()
    &&& forall|f: int| 0 <= f < files.len() ==> shaped_file(files[f].hunks@, #[trigger] assign[f])
}

/// Only changes are assigned, and only to commits that there are.
pub open spec fn assigns_changes(
    files: Seq<FileDiff>,
    assign: Seq<Seq<Seq<Option<usize>>>>,
    n_commits: nat,
) -> bool {
    forall|f: int, h: int, l: int|
        0 <= f < files.len() && 0 <= h < files[f].hunks@.len() && 0 <= l
            < files[f].hunks@[h].lines@.len() ==> (#[trigger] assign[f][h][l] matches Some(k) ==> k
            < n_commits && files[f].hunks@[h].lines@[l].change())
}

/// The line is an open line of the current hunk.
pub open spec fn pickable(files: Seq<FileDiff>, s: AppView, l: usize) -> bool {
    match current(files, s) {
        Some((fi, hi)) => l < files[fi as int].hunks@[hi as int].lines@.len() && app::open_line(
            files[fi as int].hunks@[hi as int].lines@[l as int],
            s.assign[fi as int][hi as int][l as int],
        ),
        None => false,
    }
}

/// What a mode refers to is there.
pub open spec fn sound_mode(files: Seq<FileDiff>, s: AppView) -> bool {
    let n = s.commits.len();
    match s.mode {
        ModeView::Browse => true,
        ModeView::Select { cursor, selected } => cursor < usize::MAX && selected.finite() && (
        forall|l: usize| #[trigger] selected.contains(l) ==> pickable(files, s, l)),
        ModeView::Name { lines, .. } => match lines {
            Some(ls) => forall|i: int|
                0 <= i < ls.len() ==> pickable(files, s, #[trigger] ls[i]),
            None => true,
        },
        ModeView::Review { sel, edit } => (sel < n || n == 0 && sel == 0) && (edit is Some ==> sel
            < n),
        ModeView::Manage { cursor, mark, back } => cursor < n && (mark matches Some(m) ==> m < n)
            && (back matches Some(sel) ==> sel < n),
    }
}

/// What holds of every session: the assignments fit the files, only changes are
/// assigned, the position is that of a pending hunk, and the mode refers only to
/// lines and commits that there are.
pub open spec fn sound(files: Seq<FileDiff>, s: AppView) -> bool {
    &&& shaped(files, s.assign)
    &&& assigns_changes(files, s.assign, s.commits.len())
    &&& app::pending_hunks(files, s.assign).len() > 0 ==> s.pos < app::pending_hunks(
        files,
        s.assign,
    ).len()
    &&& sound_mode(files, s)
    &&& s.ext_input is Some ==> s.commits.len() > 0
}

/// A session that begins is sound.
pub proof fn lemma_fresh_sound(files: Seq<FileDiff>)
    ensures
        sound(files, fresh(files)),
{
    let s = fresh(files);
    assert forall|f: int| 0 <= f < files.len() implies shaped_file(
        files[f].hunks@,
        #[trigger] s.assign[f],
    ) by {
        assert(s.assign[f] == model::no_rows(files[f].hunks@));
    }
}

/// Assignments that fit the files reach over all their lines.
pub proof fn lemma_shaped_covered(
    files: Seq<FileDiff>,
    assign: Seq<Seq<Seq<Option<usize>>>>,
)
    requires
        shaped(files, assign),
    ensures
        app::covered(files, assign),
{
    assert forall|f: int| 0 <= f < files.len() implies model::covers(
        #[trigger] assign[f],
        files[f].hunks@,
    ) by {
        assert(shaped_file(files[f].hunks@, assign[f]));
    }
}

/// Replacing a row by one of the same length keeps the shape.
pub proof fn lemma_with_row_shaped(
    files: Seq<FileDiff>,
    assign: Seq<Seq<Seq<Option<usize>>>>,
    f: int,
    h: int,
    row: Seq<Option<usize>>,
)
    requires
        shaped(files, assign),
        0 <= f < files.len(),
        0 <= h < files[f].hunks@.len(),
        row.len() == assign[f][h].len(),
    ensures
        shaped(files, with_row(assign, f, h, row)),
{
    let after = with_row(assign, f, h, row);
    assert(shaped_file(files[f].hunks@, assign[f]));
    assert forall|i: int| 0 <= i < files.len() implies shaped_file(
        files[i].hunks@,
        #[trigger] after[i],
    ) by {
        assert(shaped_file(files[i].hunks@, assign[i]));
        if i == f {
            assert forall|j: int| 0 <= j < files[f].hunks@.len() implies (
            #[trigger] after[f][j]).len() == files[f].hunks@[j].lines@.len() by {
                assert(assign[f][j].len() == files[f].hunks@[j].lines@.len());
            }
        }
    }
}

/// A bound above all members does not change their list.
pub proof fn lemma_members_below(s: Set<usize>, n: int, m: int)
    requires
        0 <= n <= m <= usize::MAX + 1,
        forall|l: usize| #[trigger] s.contains(l) ==> l < n,
    ensures
        members_below(s, m) == members_below(s, n),
    decreases m,
{
    if n < m {
        lemma_members_below(s, n, m - 1);
        assert(!s.contains((m - 1) as usize));
    }
}

proof fn lemma_members_belong(s: Set<usize>, n: int)
    requires
        n <= usize::MAX + 1,
    ensures
        forall|i: int|
            0 <= i < members_below(s, n).len() ==> s.contains(#[trigger] members_below(s, n)[i])
                && members_below(s, n)[i] < n,
        forall|l: usize| s.contains(l) && l < n ==> #[trigger] members_below(s, n).contains(l),
    decreases n,
{
    if n > 0 {
        lemma_members_belong(s, n - 1);
        let a = members_below(s, n - 1);
        let b = members_below(s, n);
        assert forall|l: usize| s.contains(l) && l < n implies #[trigger] b.contains(l) by {
            if l == n - 1 {
                assert(b[b.len() - 1] == l);
            } else {
                assert(a.contains(l));
                let i = choose|i: int| 0 <= i < a.len() && a[i] == l;
                assert(b[i] == l);
            }
        }
    }
}

/// The ascending list of a set has its members, and no others.
pub proof fn lemma_ascending_members(s: Set<usize>)
    ensures
        forall|i: int| 0 <= i < ascending(s).len() ==> s.contains(#[trigger] ascending(s)[i]),
        forall|l: usize| s.contains(l) ==> #[trigger] ascending(s).contains(l),
{
    lemma_members_belong(s, usize::MAX + 1);
}

// ---------------------------------------------------------------------------
// Every key keeps a session sound.

proof fn lemma_pending_in_same(
    files: Seq<FileDiff>,
    a: Seq<Seq<Seq<Option<usize>>>>,
    b: Seq<Seq<Seq<Option<usize>>>>,
    f: int,
    n: int,
)
    requires
        forall|h: int|
            0 <= h < n ==> app::open_hunk(#[trigger] files[f].hunks@[h], a[f][h])
                == app::open_hunk(files[f].hunks@[h], b[f][h]),
    ensures
        app::pending_in(files, a, f, n) == app::pending_in(files, b, f, n),
    decreases n,
{
    if n > 0 {
        lemma_pending_in_same(files, a, b, f, n - 1);
        let hunk = files[f].hunks@[n - 1];
    }
}

proof fn lemma_pending_upto_same(
    files: Seq<FileDiff>,
    a: Seq<Seq<Seq<Option<usize>>>>,
    b: Seq<Seq<Seq<Option<usize>>>>,
    n: int,
)
    requires
        n <= files.len(),
        forall|f: int, h: int|
            0 <= f < files.len() && 0 <= h < files[f].hunks@.len() ==> app::open_hunk(
                #[trigger] files[f].hunks@[h],
                a[f][h],
            ) == app::open_hunk(files[f].hunks@[h], b[f][h]),
    ensures
        app::pending_upto(files, a, n) == app::pending_upto(files, b, n),
    decreases n,
{
    if n > 0 {
        lemma_pending_upto_same(files, a, b, n - 1);
        lemma_pending_in_same(files, a, b, n - 1, files[n - 1].hunks@.len() as int);
    }
}

/// Assignments under which the same hunks have open lines have the same pending
/// hunks.
pub proof fn lemma_pending_same(
    files: Seq<FileDiff>,
    a: Seq<Seq<Seq<Option<usize>>>>,
    b: Seq<Seq<Seq<Option<usize>>>>,
)
    requires
        forall|f: int, h: int|
            0 <= f < files.len() && 0 <= h < files[f].hunks@.len() ==> app::open_hunk(
                #[trigger] files[f].hunks@[h],
                a[f][h],
            ) == app::open_hunk(files[f].hunks@[h], b[f][h]),
    ensures
        app::pending_hunks(files, a) == app::pending_hunks(files, b),
{
    lemma_pending_upto_same(files, a, b, files.len() as int);
}

proof fn lemma_assign_current_sound(
    files: Seq<FileDiff>,
    s: AppView,
    commit: usize,
    lines: Option<Seq<usize>>,
)
    requires
        files.len() <= usize::MAX,
        sound(files, s),
        commit < s.commits.len(),
        lines matches Some(ls) ==> forall|i: int|
            0 <= i < ls.len() ==> pickable(files, s, #[trigger] ls[i]),
    ensures
        sound(files, assign_current(files, s, commit, lines)),
{
    app::lemma_current(files, s.assign, s.pos as int);
    if let Some((fi, hi)) = current(files, s) {
        let f = fi as int;
        let h = hi as int;
        let hunk = files[f].hunks@[h];
        let row = s.assign[f][h];
        assert(shaped_file(files[f].hunks@, s.assign[f]));
        assert(row.len() == hunk.lines@.len());
        assert(hunk.lines.len() == hunk.lines@.len());
        app::lemma_open_lines(hunk.lines@, row, hunk.lines@.len() as int);
        let targets = match lines {
            Some(t) => t,
            None => app::open_lines_of(files, s.assign, f, h),
        };
        let new_row = assigned_row(row, targets, commit);
        let after = with_row(s.assign, f, h, new_row);
        lemma_with_row_shaped(files, s.assign, f, h, new_row);
        assert(assigns_changes(files, after, s.commits.len())) by {
            assert forall|i: int, j: int, l: int|
                0 <= i < files.len() && 0 <= j < files[i].hunks@.len() && 0 <= l
                    < files[i].hunks@[j].lines@.len() implies (
            #[trigger] after[i][j][l] matches Some(k) ==> k < s.commits.len()
                && files[i].hunks@[j].lines@[l].change()) by {
                assert(shaped_file(files[i].hunks@, s.assign[i]));
                assert(s.assign[i][j].len() == files[i].hunks@[j].lines@.len());
                assert(s.assign[i][j][l] matches Some(k) ==> k < s.commits.len()
                    && files[i].hunks@[j].lines@[l].change());
                if i == f && j == h && targets.contains(l as usize) {
                    let k = choose|k: int| 0 <= k < targets.len() && targets[k] == l as usize;
                    if lines is Some {
                        assert(pickable(files, s, targets[k]));
                    }
                    assert(app::open_line(hunk.lines@[l], row[l]));
                }
            }
        }
    }
}

proof fn lemma_assign_via_key_sound(files: Seq<FileDiff>, s: AppView, ci: usize)
    requires
        files.len() <= usize::MAX,
        sound(files, s),
    ensures
        sound(files, assign_via_key(files, s, ci)),
{
    if ci < s.commits.len() {
        if let ModeView::Select { selected, .. } = s.mode {
            if !selected.is_empty() {
                lemma_ascending_members(selected);
                assert forall|i: int| 0 <= i < ascending(selected).len() implies pickable(
                    files,
                    s,
                    #[trigger] ascending(selected)[i],
                ) by {
                    assert(selected.contains(ascending(selected)[i]));
                }
                lemma_assign_current_sound(files, s, ci, Some(ascending(selected)));
            }
        } else {
            lemma_assign_current_sound(files, s, ci, None);
        }
    }
}

proof fn lemma_key_ext_sound(files: Seq<FileDiff>, s: AppView, code: KeyCode)
    requires
        files.len() <= usize::MAX,
        sound(files, s),
    ensures
        sound(files, key_ext(files, s, code)),
{
    let closed = AppView { ext_input: None, ..s };
    assert(sound(files, closed));
    if let Some(digits) = s.ext_input {
        match code {
            KeyCode::Enter => {
                let id = number_or(digits, 0);
                if 1 <= id <= s.commits.len() {
                    lemma_assign_via_key_sound(files, closed, (id - 1) as usize);
                }
            },
            KeyCode::Char(c) => {
                let id = number_or(digits.push(c), usize::MAX);
                if id >= 1 {
                    lemma_assign_via_key_sound(files, closed, (id - 1) as usize);
                }
            },
            _ => {},
        }
    }
}

proof fn lemma_unassign_sound(files: Seq<FileDiff>, s: AppView)
    requires
        files.len() <= usize::MAX,
        sound(files, s),
        s.mode is Browse,
    ensures
        sound(files, unassign(files, s)),
        app::pending_hunks(files, unassign(files, s).assign) == app::pending_hunks(
            files,
            s.assign,
        ),
{
    app::lemma_current(files, s.assign, s.pos as int);
    if let Some((fi, hi)) = current(files, s) {
        let f = fi as int;
        let h = hi as int;
        let row = s.assign[f][h];
        let none: Seq<Option<usize>> = Seq::new(row.len(), |l: int| None);
        let after = with_row(s.assign, f, h, none);
        assert(shaped_file(files[f].hunks@, s.assign[f]));
        lemma_with_row_shaped(files, s.assign, f, h, none);
        assert forall|i: int, j: int|
            0 <= i < files.len() && 0 <= j < files[i].hunks@.len() implies app::open_hunk(
            #[trigger] files[i].hunks@[j],
            s.assign[i][j],
        ) == app::open_hunk(files[i].hunks@[j], after[i][j]) by {
            if i == f && j == h {
                let lines = files[f].hunks@[h].lines@;
                let l = choose|l: int|
                    0 <= l < lines.len() && app::open_line(lines[l], #[trigger] row[l]);
                assert(row.len() == lines.len());
                assert(app::open_line(lines[l], none[l]));
            }
        }
        lemma_pending_same(files, s.assign, after);
        assert(assigns_changes(files, after, s.commits.len())) by {
            assert forall|i: int, j: int, l: int|
                0 <= i < files.len() && 0 <= j < files[i].hunks@.len() && 0 <= l
                    < files[i].hunks@[j].lines@.len() implies (
            #[trigger] after[i][j][l] matches Some(k) ==> k < s.commits.len()
                && files[i].hunks@[j].lines@[l].change()) by {
                assert(shaped_file(files[i].hunks@, s.assign[i]));
                assert(s.assign[i][j].len() == files[i].hunks@[j].lines@.len());
                assert(s.assign[i][j][l] matches Some(k) ==> k < s.commits.len()
                    && files[i].hunks@[j].lines@[l].change());
            }
        }
    }
}

proof fn lemma_swap_sound(files: Seq<FileDiff>, s: AppView, a: usize, b: usize)
    requires
        sound(files, s),
        s.mode is Manage,
        a < s.commits.len(),
        b < s.commits.len(),
    ensures
        sound(files, swap_commits(s, a, b)),
        app::pending_hunks(files, swap_commits(s, a, b).assign) == app::pending_hunks(
            files,
            s.assign,
        ),
{
    let after = swapped_grid(s.assign, a, b);
    assert forall|i: int| 0 <= i < files.len() implies shaped_file(
        files[i].hunks@,
        #[trigger] after[i],
    ) by {
        assert(shaped_file(files[i].hunks@, s.assign[i]));
        assert forall|j: int| 0 <= j < files[i].hunks@.len() implies (#[trigger] after[i][j]).len()
            == files[i].hunks@[j].lines@.len() by {
            assert(s.assign[i][j].len() == files[i].hunks@[j].lines@.len());
        }
    }
    assert forall|i: int, j: int|
        0 <= i < files.len() && 0 <= j < files[i].hunks@.len() implies app::open_hunk(
        #[trigger] files[i].hunks@[j],
        s.assign[i][j],
    ) == app::open_hunk(files[i].hunks@[j], after[i][j]) by {
        assert(shaped_file(files[i].hunks@, s.assign[i]));
        let lines = files[i].hunks@[j].lines@;
        assert(s.assign[i][j].len() == lines.len());
        assert forall|l: int| 0 <= l < lines.len() implies app::open_line(
            lines[l],
            #[trigger] s.assign[i][j][l],
        ) == app::open_line(lines[l], after[i][j][l]) by {}
        if app::open_hunk(files[i].hunks@[j], s.assign[i][j]) {
            let l = choose|l: int|
                0 <= l < lines.len() && app::open_line(lines[l], #[trigger] s.assign[i][j][l]);
            assert(app::open_line(lines[l], after[i][j][l]));
        }
        if app::open_hunk(files[i].hunks@[j], after[i][j]) {
            let l = choose|l: int|
                0 <= l < lines.len() && app::open_line(lines[l], #[trigger] after[i][j][l]);
            assert(app::open_line(lines[l], s.assign[i][j][l]));
        }
    }
    lemma_pending_same(files, s.assign, after);
    assert(assigns_changes(files, after, s.commits.len())) by {
        assert forall|i: int, j: int, l: int|
            0 <= i < files.len() && 0 <= j < files[i].hunks@.len() && 0 <= l
                < files[i].hunks@[j].lines@.len() implies (
        #[trigger] after[i][j][l] matches Some(k) ==> k < s.commits.len()
            && files[i].hunks@[j].lines@[l].change()) by {
            assert(shaped_file(files[i].hunks@, s.assign[i]));
            assert(s.assign[i][j].len() == files[i].hunks@[j].lines@.len());
            assert(s.assign[i][j][l] matches Some(k) ==> k < s.commits.len()
                && files[i].hunks@[j].lines@[l].change());
        }
    }
}

proof fn lemma_key_browse_sound(files: Seq<FileDiff>, s: AppView, code: KeyCode)
    requires
        files.len() <= usize::MAX,
        sound(files, s),
        s.mode is Browse,
        app::pending_hunks(files, s.assign).len() <= usize::MAX,
    ensures
        sound(files, key_browse(files, s, code)),
{
    let n = app::pending_hunks(files, s.assign).len() as int;
    if n > 0 {
        vstd::arithmetic::div_mod::lemma_mod_bound(s.pos + 1, n);
        vstd::arithmetic::div_mod::lemma_mod_bound(s.pos - 1, n);
    }
    lemma_unassign_sound(files, s);
    if app::any_assigned(s.assign) {
        let (f, h, l) = choose|f: int, h: int, l: int|
            0 <= f < s.assign.len() && 0 <= h < s.assign[f].len() && 0 <= l
                < s.assign[f][h].len() && #[trigger] s.assign[f][h][l] is Some;
        assert(shaped_file(files[f].hunks@, s.assign[f]));
        assert(s.assign[f][h].len() == files[f].hunks@[h].lines@.len());
        assert(s.assign[f][h][l] matches Some(k) ==> k < s.commits.len());
    }
    if let KeyCode::Char(c) = code {
        if '1' <= c <= '9' {
            lemma_assign_via_key_sound(files, s, (c as int - '1' as int) as usize);
        }
    }
}

proof fn lemma_key_select_sound(files: Seq<FileDiff>, s: AppView, code: KeyCode)
    requires
        files.len() <= usize::MAX,
        sound(files, s),
        s.mode is Select,
    ensures
        sound(files, key_select(files, s, code)),
{
    app::lemma_current(files, s.assign, s.pos as int);
    if let Some((fi, hi)) = current(files, s) {
        let hunk = files[fi as int].hunks@[hi as int];
        let row = s.assign[fi as int][hi as int];
        assert(hunk.lines.len() == hunk.lines@.len());
        app::lemma_open_lines(hunk.lines@, row, hunk.lines@.len() as int);
        let lines = app::open_lines_of(files, s.assign, fi as int, hi as int);
        assert forall|i: int| 0 <= i < lines.len() implies pickable(
            files,
            s,
            #[trigger] lines[i],
        ) by {}
        if let ModeView::Select { cursor, selected } = s.mode {
            vstd::seq_lib::seq_to_set_is_finite(lines);
            let all = selected.union(lines.to_set());
            assert forall|l: usize| #[trigger] all.contains(l) implies pickable(files, s, l) by {
                if !selected.contains(l) {
                    let i = choose|i: int| 0 <= i < lines.len() && lines[i] == l;
                    assert(pickable(files, s, lines[i]));
                }
            }
            lemma_ascending_members(selected);
            assert forall|i: int| 0 <= i < ascending(selected).len() implies pickable(
                files,
                s,
                #[trigger] ascending(selected)[i],
            ) by {
                assert(selected.contains(ascending(selected)[i]));
            }
            if cursor < lines.len() {
                assert(pickable(files, s, lines[cursor as int]));
            }
        }
        if let KeyCode::Char(c) = code {
            if '1' <= c <= '9' {
                lemma_assign_via_key_sound(files, s, (c as int - '1' as int) as usize);
            }
        }
    }
}

proof fn lemma_key_name_sound(files: Seq<FileDiff>, s: AppView, code: KeyCode)
    requires
        files.len() <= usize::MAX,
        s.commits.len() <= usize::MAX,
        sound(files, s),
        s.mode is Name,
    ensures
        sound(files, key_name(files, s, code)),
{
    if let ModeView::Name { input, lines } = s.mode {
        if code == KeyCode::Esc {
            if let Some(ls) = lines {
                vstd::seq_lib::seq_to_set_is_finite(ls);
                assert forall|l: usize| #[trigger] ls.to_set().contains(l) implies pickable(
                    files,
                    s,
                    l,
                ) by {
                    let i = choose|i: int| 0 <= i < ls.len() && ls[i] == l;
                    assert(pickable(files, s, ls[i]));
                }
            }
        } else if code == KeyCode::Enter {
            let message = text::trimmed(input);
            if message.len() > 0 {
                let s1 = AppView {
                    commits: s.commits.push(message),
                    mode: ModeView::Name { input, lines: None },
                    ..s
                };
                assert(assigns_changes(files, s1.assign, s1.commits.len())) by {
                    assert forall|i: int, j: int, l: int|
                        0 <= i < files.len() && 0 <= j < files[i].hunks@.len() && 0 <= l
                            < files[i].hunks@[j].lines@.len() implies (
                    #[trigger] s1.assign[i][j][l] matches Some(k) ==> k < s1.commits.len()
                        && files[i].hunks@[j].lines@[l].change()) by {
                        assert(s.assign[i][j][l] matches Some(k) ==> k < s.commits.len());
                    }
                }
                if let Some(ls) = lines {
                    assert forall|i: int| 0 <= i < ls.len() implies pickable(
                        files,
                        s1,
                        #[trigger] ls[i],
                    ) by {
                        assert(pickable(files, s, ls[i]));
                    }
                }
                lemma_assign_current_sound(files, s1, s.commits.len() as usize, lines);
            }
        }
    }
}

/// A session that is sound stays so, whatever key is pressed.
pub proof fn law_keys_keep_sound(files: Seq<FileDiff>, s: AppView, key: KeyEvent)
    requires
        files.len() <= usize::MAX,
        s.commits.len() <= usize::MAX,
        s.mode is Browse && s.ext_input is None ==> app::pending_hunks(files, s.assign).len()
            <= usize::MAX,
        sound(files, s),
    ensures
        sound(files, pressed(files, s, key)),
{
    let quiet = AppView { status: None, ..s };
    assert(sound(files, quiet));
    if quiet.ext_input is Some {
        lemma_key_ext_sound(files, quiet, key.code);
    } else {
        match quiet.mode {
            ModeView::Browse => lemma_key_browse_sound(files, quiet, key.code),
            ModeView::Select { .. } => lemma_key_select_sound(files, quiet, key.code),
            ModeView::Name { .. } => lemma_key_name_sound(files, quiet, key.code),
            ModeView::Review { .. } => {},
            ModeView::Manage { cursor, mark, back } => {
                if let Some(m) = mark {
                    let unmarked = AppView {
                        mode: ModeView::Manage { cursor, mark: None, back },
                        ..quiet
                    };
                    assert(sound(files, unmarked));
                    lemma_swap_sound(files, unmarked, m, cursor);
                }
            },
        }
    }
}

} // verus!
