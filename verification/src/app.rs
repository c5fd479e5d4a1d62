//! The interactive session: its state, and what each key does to it.
use std::collections::HashSet;

use vstd::prelude::*;

use crate::backend::RepoState;
use crate::diff::{DiffLine, FileDiff, Hunk, LineKind};
use crate::model;
use crate::steps;
use crate::model::{build_plan, empty_assignments, Assignments, Bases, CommitSpec, Plan};
use crate::text::{append, chars_of, decimal_string, parse_number, trim};

verus! {

/// A key of the keyboard.
#[derive(Debug, Clone, Copy, PartialEq, Eq, Structural)]
pub enum KeyCode {
    Char(char),
    Enter,
    Esc,
    Backspace,
    Tab,
    Up,
    Down,
    Left,
    Right,
    Other,
}

/// A key that was pressed, and whether the control key was held.
#[derive(Debug, Clone, Copy, PartialEq, Eq, Structural)]
pub struct KeyEvent {
    pub code: KeyCode,
    pub control: bool,
}

impl vstd::std_specs::convert::FromSpecImpl<KeyCode> for KeyEvent {
    open spec fn obeys_from_spec() -> bool {
        true
    }

    open spec fn from_spec(code: KeyCode) -> KeyEvent {
        KeyEvent { code, control: false }
    }
}

impl From<KeyCode> for KeyEvent {
    fn from(code: KeyCode) -> (r: KeyEvent) {
        KeyEvent { code, control: false }
    }
}

/// What the session shows and what keys mean in it.
#[derive(Debug)]
pub enum Mode {
    Browse,
    Select { cursor: usize, selected: HashSet<usize> },
    Name { input: String, lines: Option<Vec<usize>> },
    Review { sel: usize, edit: Option<String> },
    Manage { cursor: usize, mark: Option<usize>, back: Option<usize> },
}

/// How a session ended.
pub enum Outcome {
    Quit,
    Committed { commits: Vec<(String, String, Option<String>)>, worktree_skipped: Vec<String> },
}

/// The session.
pub struct App {
    pub files: Vec<FileDiff>,
    pub bases: Bases,
    pub branch: String,
    pub assign: Assignments,
    pub commits: Vec<String>,
    pub pos: usize,
    pub scroll: u16,
    pub mode: Mode,
    pub status: Option<String>,
    pub request_commit: bool,
    pub outcome: Option<Outcome>,
    pub ext_input: Option<String>,
}

// ---------------------------------------------------------------------------
// What these types stand for.

/// What a `Mode` stands for.
pub enum ModeView {
    Browse,
    Select { cursor: usize, selected: Set<usize> },
    Name { input: Seq<char>, lines: Option<Seq<usize>> },
    Review { sel: usize, edit: Option<Seq<char>> },
    Manage { cursor: usize, mark: Option<usize>, back: Option<usize> },
}

/// What an `Outcome` stands for.
pub enum OutcomeView {
    Quit,
    Committed {
        commits: Seq<(Seq<char>, Seq<char>, Option<Seq<char>>)>,
        worktree_skipped: Seq<Seq<char>>,
    },
}

/// The part of an `App` that keys change.
pub struct AppView {
    pub assign: Seq<Seq<Seq<Option<usize>>>>,
    pub commits: Seq<Seq<char>>,
    pub pos: usize,
    pub scroll: u16,
    pub mode: ModeView,
    pub status: Option<Seq<char>>,
    pub request_commit: bool,
    pub outcome: Option<OutcomeView>,
    pub ext_input: Option<Seq<char>>,
}

impl View for Mode {
    type V = ModeView;

    open spec fn view(&self) -> ModeView {
        match self {
            Mode::Browse => ModeView::Browse,
            Mode::Select { cursor, selected } => ModeView::Select {
                cursor: *cursor,
                selected: selected@,
            },
            Mode::Name { input, lines } => ModeView::Name {
                input: input@,
                lines: match lines {
                    Some(v) => Some(v@),
                    None => None,
                },
            },
            Mode::Review { sel, edit } => ModeView::Review { sel: *sel, edit: edit.deep_view() },
            Mode::Manage { cursor, mark, back } => ModeView::Manage {
                cursor: *cursor,
                mark: *mark,
                back: *back,
            },
        }
    }
}

impl View for Outcome {
    type V = OutcomeView;

    open spec fn view(&self) -> OutcomeView {
        match self {
            Outcome::Quit => OutcomeView::Quit,
            Outcome::Committed { commits, worktree_skipped } => OutcomeView::Committed {
                commits: commits.deep_view(),
                worktree_skipped: worktree_skipped.deep_view(),
            },
        }
    }
}

impl View for App {
    type V = AppView;

    open spec fn view(&self) -> AppView {
        AppView {
            assign: model::grid(self.assign@),
            commits: self.commits.deep_view(),
            pos: self.pos,
            scroll: self.scroll,
            mode: self.mode@,
            status: self.status.deep_view(),
            request_commit: self.request_commit,
            outcome: match self.outcome {
                Some(o) => Some(o@),
                None => None,
            },
            ext_input: self.ext_input.deep_view(),
        }
    }
}

// ---------------------------------------------------------------------------
// What is still to be assigned.

/// A change that is not assigned.
pub open spec fn open_line(line: DiffLine, a: Option<usize>) -> bool {
    line.change() && a is None
}

/// Whether a hunk has a change that is not assigned.
pub open spec fn open_hunk(hunk: Hunk, row: Seq<Option<usize>>) -> bool {
    exists|l: int| 0 <= l < hunk.lines@.len() && open_line(hunk.lines@[l], #[trigger] row[l])
}

/// Those of the first `n` hunks of file `f` that have such a change.
pub open spec fn pending_in(
    files: Seq<FileDiff>,
    assign: Seq<Seq<Seq<Option<usize>>>>,
    f: int,
    n: int,
) -> Seq<(usize, usize)>
    decreases n,
{
    if n <= 0 {
        Seq::<(usize, usize)>::empty()
    } else {
        let before = pending_in(files, assign, f, n - 1);
        if open_hunk(files[f].hunks@[n - 1], assign[f][n - 1]) {
            before.push((f as usize, (n - 1) as usize))
        } else {
            before
        }
    }
}

/// The hunks of the first `n` files that have such a change.
pub open spec fn pending_upto(
    files: Seq<FileDiff>,
    assign: Seq<Seq<Seq<Option<usize>>>>,
    n: int,
) -> Seq<(usize, usize)>
    decreases n,
{
    if n <= 0 {
        Seq::<(usize, usize)>::empty()
    } else {
        pending_upto(files, assign, n - 1) + pending_in(
            files,
            assign,
            n - 1,
            files[n - 1].hunks@.len() as int,
        )
    }
}

/// The hunks that have a change that is not assigned, in order: the number of
/// the file and the number of the hunk in it.
pub open spec fn pending_hunks(
    files: Seq<FileDiff>,
    assign: Seq<Seq<Seq<Option<usize>>>>,
) -> Seq<(usize, usize)> {
    pending_upto(files, assign, files.len() as int)
}

/// The pending hunk at a position, or the last one when there are fewer.
pub open spec fn current_hunk(
    files: Seq<FileDiff>,
    assign: Seq<Seq<Seq<Option<usize>>>>,
    pos: int,
) -> Option<(usize, usize)> {
    let pending = pending_hunks(files, assign);
    if pending.len() == 0 {
        None
    } else if pos < pending.len() {
        Some(pending[pos])
    } else {
        Some(pending.last())
    }
}

/// The numbers of those of the first `n` lines that are changes and not
/// assigned.
pub open spec fn open_lines(lines: Seq<DiffLine>, row: Seq<Option<usize>>, n: int) -> Seq<usize>
    decreases n,
{
    if n <= 0 {
        Seq::<usize>::empty()
    } else if open_line(lines[n - 1], row[n - 1]) {
        open_lines(lines, row, n - 1).push((n - 1) as usize)
    } else {
        open_lines(lines, row, n - 1)
    }
}

/// The changes of a hunk that are not assigned.
pub open spec fn open_lines_of(
    files: Seq<FileDiff>,
    assign: Seq<Seq<Seq<Option<usize>>>>,
    f: int,
    h: int,
) -> Seq<usize> {
    open_lines(
        files[f].hunks@[h].lines@,
        assign[f][h],
        files[f].hunks@[h].lines@.len() as int,
    )
}

/// Whether any line is assigned.
pub open spec fn any_assigned(assign: Seq<Seq<Seq<Option<usize>>>>) -> bool {
    exists|f: int, h: int, l: int|
        0 <= f < assign.len() && 0 <= h < assign[f].len() && 0 <= l < assign[f][h].len()
            && #[trigger] assign[f][h][l] is Some
}

/// The assignments reach over all lines of the files.
pub open spec fn covered(
    files: Seq<FileDiff>,
    assign: Seq<Seq<Seq<Option<usize>>>>,
) -> bool {
    &&& assign.len() >= files.len()
    &&& forall|f: int|
        0 <= f < files.len() ==> model::covers(#[trigger] assign[f], files[f].hunks@)
}

// ---------------------------------------------------------------------------
// Counting lines.

/// What a line counts for.
pub enum Tally {
    /// An addition assigned to the commit.
    AddedIn(usize),
    /// A removal assigned to the commit.
    RemovedIn(usize),
    /// A change that is not assigned.
    Open,
    /// A change.
    Change,
    /// Any line.
    Any,
}

/// Whether a line counts.
pub open spec fn tallied(what: Tally, line: DiffLine, a: Option<usize>) -> bool {
    match what {
        Tally::AddedIn(c) => a == Some(c) && line.kind == LineKind::Add,
        Tally::RemovedIn(c) => a == Some(c) && line.kind == LineKind::Del,
        Tally::Open => open_line(line, a),
        Tally::Change => line.change(),
        Tally::Any => true,
    }
}

/// How many of the first `n` lines of a hunk count.
pub open spec fn tally_lines(
    what: Tally,
    lines: Seq<DiffLine>,
    row: Seq<Option<usize>>,
    n: int,
) -> nat
    decreases n,
{
    if n <= 0 {
        0
    } else {
        tally_lines(what, lines, row, n - 1) + if tallied(what, lines[n - 1], row[n - 1]) {
            1nat
        } else {
            0nat
        }
    }
}

/// How many lines of the first `n` hunks of a file count.
pub open spec fn tally_hunks(
    what: Tally,
    hunks: Seq<Hunk>,
    rows: Seq<Seq<Option<usize>>>,
    n: int,
) -> nat
    decreases n,
{
    if n <= 0 {
        0
    } else {
        tally_hunks(what, hunks, rows, n - 1) + tally_lines(
            what,
            hunks[n - 1].lines@,
            rows[n - 1],
            hunks[n - 1].lines@.len() as int,
        )
    }
}

/// How many lines of the first `n` files count.
pub open spec fn tally_files(
    what: Tally,
    files: Seq<FileDiff>,
    assign: Seq<Seq<Seq<Option<usize>>>>,
    n: int,
) -> nat
    decreases n,
{
    if n <= 0 {
        0
    } else {
        tally_files(what, files, assign, n - 1) + tally_hunks(
            what,
            files[n - 1].hunks@,
            assign[n - 1],
            files[n - 1].hunks@.len() as int,
        )
    }
}

/// How many lines count.
pub open spec fn tally(
    what: Tally,
    files: Seq<FileDiff>,
    assign: Seq<Seq<Seq<Option<usize>>>>,
) -> nat {
    tally_files(what, files, assign, files.len() as int)
}

/// The lines of all files can be counted in a machine word.
pub open spec fn countable(files: Seq<FileDiff>) -> bool {
    tally(Tally::Any, files, model::no_grid(files)) <= usize::MAX
}

// ---------------------------------------------------------------------------
// Facts about pending hunks and open lines.

proof fn lemma_pending_in(
    files: Seq<FileDiff>,
    assign: Seq<Seq<Seq<Option<usize>>>>,
    f: int,
    n: int,
)
    requires
        0 <= f < files.len() <= usize::MAX,
        n <= files[f].hunks@.len(),
    ensures
        forall|i: int|
            0 <= i < pending_in(files, assign, f, n).len() ==> {
                let (fi, hi) = #[trigger] pending_in(files, assign, f, n)[i];
                fi == f && hi < files[f].hunks@.len() && open_hunk(
                    files[f].hunks@[hi as int],
                    assign[f][hi as int],
                )
            },
    decreases n,
{
    if n > 0 {
        lemma_pending_in(files, assign, f, n - 1);
        assert(files[f].hunks.len() == files[f].hunks@.len());
        let a = pending_in(files, assign, f, n - 1);
        let b = pending_in(files, assign, f, n);
        assert forall|i: int| 0 <= i < b.len() implies {
            let (fi, hi) = #[trigger] b[i];
            fi == f && hi < files[f].hunks@.len() && open_hunk(
                files[f].hunks@[hi as int],
                assign[f][hi as int],
            )
        } by {
            if i < a.len() {
                assert(b[i] == a[i]);
            }
        }
    }
}

proof fn lemma_pending_upto(
    files: Seq<FileDiff>,
    assign: Seq<Seq<Seq<Option<usize>>>>,
    n: int,
)
    requires
        n <= files.len() <= usize::MAX,
    ensures
        forall|i: int|
            0 <= i < pending_upto(files, assign, n).len() ==> {
                let (fi, hi) = #[trigger] pending_upto(files, assign, n)[i];
                fi < files.len() && hi < files[fi as int].hunks@.len() && open_hunk(
                    files[fi as int].hunks@[hi as int],
                    assign[fi as int][hi as int],
                )
            },
    decreases n,
{
    if n > 0 {
        lemma_pending_upto(files, assign, n - 1);
        let len = files[n - 1].hunks@.len() as int;
        lemma_pending_in(files, assign, n - 1, len);
        let a = pending_upto(files, assign, n - 1);
        let b = pending_in(files, assign, n - 1, len);
        assert forall|i: int| 0 <= i < (a + b).len() implies {
            let (fi, hi) = #[trigger] (a + b)[i];
            fi < files.len() && hi < files[fi as int].hunks@.len() && open_hunk(
                files[fi as int].hunks@[hi as int],
                assign[fi as int][hi as int],
            )
        } by {
            if i < a.len() {
                assert((a + b)[i] == a[i]);
            } else {
                assert((a + b)[i] == b[i - a.len()]);
            }
        }
    }
}

/// The current hunk is a hunk of the files, and has an open line.
pub proof fn lemma_current(files: Seq<FileDiff>, assign: Seq<Seq<Seq<Option<usize>>>>, pos: int)
    requires
        files.len() <= usize::MAX,
        pos >= 0,
    ensures
        current_hunk(files, assign, pos) matches Some((fi, hi)) ==> fi < files.len() && hi
            < files[fi as int].hunks@.len() && open_hunk(
            files[fi as int].hunks@[hi as int],
            assign[fi as int][hi as int],
        ),
{
    lemma_pending_upto(files, assign, files.len() as int);
    let pending = pending_hunks(files, assign);
    if pending.len() > 0 {
        if pos < pending.len() {
            let (fi, hi) = pending[pos];
        } else {
            let (fi, hi) = pending[pending.len() - 1];
        }
    }
}

/// The open lines are listed in ascending order, each once, and no others.
pub proof fn lemma_open_lines(lines: Seq<DiffLine>, row: Seq<Option<usize>>, n: int)
    requires
        n <= lines.len() <= usize::MAX,
    ensures
        forall|i: int|
            0 <= i < open_lines(lines, row, n).len() ==> (#[trigger] open_lines(lines, row, n)[i])
                < n && open_line(
                lines[open_lines(lines, row, n)[i] as int],
                row[open_lines(lines, row, n)[i] as int],
            ),
        forall|l: int|
            0 <= l < n && open_line(lines[l], row[l]) ==> #[trigger] open_lines(
                lines,
                row,
                n,
            ).contains(l as usize),
        forall|i: int, j: int|
            0 <= i < j < open_lines(lines, row, n).len() ==> open_lines(lines, row, n)[i]
                < open_lines(lines, row, n)[j],
        open_lines(lines, row, n).len() <= if n < 0 {
            0
        } else {
            n
        },
    decreases n,
{
    if n > 0 {
        lemma_open_lines(lines, row, n - 1);
        let a = open_lines(lines, row, n - 1);
        let b = open_lines(lines, row, n);
        if open_line(lines[n - 1], row[n - 1]) {
            assert(b == a.push((n - 1) as usize));
            assert forall|l: int| 0 <= l < n && open_line(lines[l], row[l]) implies #[trigger] b.contains(
            l as usize) by {
                if l == n - 1 {
                    assert(b[b.len() - 1] == l as usize);
                } else {
                    assert(a.contains(l as usize));
                    let i = choose|i: int| 0 <= i < a.len() && a[i] == l as usize;
                    assert(b[i] == l as usize);
                }
            }
        }
    }
}

proof fn lemma_tally_lines_bound(
    what: Tally,
    lines: Seq<DiffLine>,
    row: Seq<Option<usize>>,
    none: Seq<Option<usize>>,
    n: int,
)
    ensures
        tally_lines(what, lines, row, n) <= tally_lines(Tally::Any, lines, none, n),
    decreases n,
{
    if n > 0 {
        lemma_tally_lines_bound(what, lines, row, none, n - 1);
    }
}

proof fn lemma_tally_hunks_bound(
    what: Tally,
    hunks: Seq<Hunk>,
    rows: Seq<Seq<Option<usize>>>,
    none: Seq<Seq<Option<usize>>>,
    n: int,
)
    ensures
        tally_hunks(what, hunks, rows, n) <= tally_hunks(Tally::Any, hunks, none, n),
    decreases n,
{
    if n > 0 {
        lemma_tally_hunks_bound(what, hunks, rows, none, n - 1);
        lemma_tally_lines_bound(
            what,
            hunks[n - 1].lines@,
            rows[n - 1],
            none[n - 1],
            hunks[n - 1].lines@.len() as int,
        );
    }
}

proof fn lemma_tally_files_bound(
    what: Tally,
    files: Seq<FileDiff>,
    assign: Seq<Seq<Seq<Option<usize>>>>,
    none: Seq<Seq<Seq<Option<usize>>>>,
    n: int,
)
    ensures
        tally_files(what, files, assign, n) <= tally_files(Tally::Any, files, none, n),
    decreases n,
{
    if n > 0 {
        lemma_tally_files_bound(what, files, assign, none, n - 1);
        lemma_tally_hunks_bound(
            what,
            files[n - 1].hunks@,
            assign[n - 1],
            none[n - 1],
            files[n - 1].hunks@.len() as int,
        );
    }
}

proof fn lemma_tally_monotone(
    what: Tally,
    files: Seq<FileDiff>,
    assign: Seq<Seq<Seq<Option<usize>>>>,
    i: int,
    j: int,
)
    requires
        i <= j,
    ensures
        tally_files(what, files, assign, i) <= tally_files(what, files, assign, j),
    decreases j,
{
    if j > 0 && i < j {
        lemma_tally_monotone(what, files, assign, i, j - 1);
    }
}

proof fn lemma_tally_hunks_monotone(
    what: Tally,
    hunks: Seq<Hunk>,
    rows: Seq<Seq<Option<usize>>>,
    i: int,
    j: int,
)
    requires
        i <= j,
    ensures
        tally_hunks(what, hunks, rows, i) <= tally_hunks(what, hunks, rows, j),
    decreases j,
{
    if j > 0 && i < j {
        lemma_tally_hunks_monotone(what, hunks, rows, i, j - 1);
    }
}

proof fn lemma_tally_lines_monotone(
    what: Tally,
    lines: Seq<DiffLine>,
    row: Seq<Option<usize>>,
    i: int,
    j: int,
)
    requires
        i <= j,
    ensures
        tally_lines(what, lines, row, i) <= tally_lines(what, lines, row, j),
    decreases j,
{
    if j > 0 && i < j {
        lemma_tally_lines_monotone(what, lines, row, i, j - 1);
    }
}

/// What was counted when line `l` of hunk `h` of file `f` counts too still fits
/// a machine word.
proof fn lemma_tally_fits(
    what: Tally,
    files: Seq<FileDiff>,
    assign: Seq<Seq<Seq<Option<usize>>>>,
    f: int,
    h: int,
    l: int,
)
    requires
        countable(files),
        0 <= f < files.len(),
        0 <= h < files[f].hunks@.len(),
        0 <= l < files[f].hunks@[h].lines@.len(),
    ensures
        tally_files(what, files, assign, f) + tally_hunks(what, files[f].hunks@, assign[f], h)
            + tally_lines(what, files[f].hunks@[h].lines@, assign[f][h], l + 1) <= usize::MAX,
{
    let hunks = files[f].hunks@;
    lemma_tally_lines_monotone(
        what,
        hunks[h].lines@,
        assign[f][h],
        l + 1,
        hunks[h].lines@.len() as int,
    );
    lemma_tally_hunks_monotone(what, hunks, assign[f], h + 1, hunks.len() as int);
    lemma_tally_monotone(what, files, assign, f + 1, files.len() as int);
    lemma_tally_files_bound(
        what,
        files,
        assign,
        model::no_grid(files),
        files.len() as int,
    );
}

proof fn lemma_tally_any(lines: Seq<DiffLine>, row: Seq<Option<usize>>, n: int)
    requires
        0 <= n,
    ensures
        tally_lines(Tally::Any, lines, row, n) == n,
    decreases n,
{
    if n > 0 {
        lemma_tally_any(lines, row, n - 1);
    }
}

/// Whether the lines of all files can be counted in a machine word.
pub fn can_count(files: &[FileDiff]) -> (r: bool)
    ensures
        r == countable(files@),
{
    let ghost none = model::no_grid(files@);
    let mut n: usize = 0;
    let mut fi: usize = 0;
    while fi < files.len()
        invariant
            fi <= files@.len(),
            none == model::no_grid(files@),
            n == tally_files(Tally::Any, files@, none, fi as int),
        decreases files@.len() - fi,
    {
        let hunks = &files[fi].hunks;
        let ghost before = n;
        let mut hi: usize = 0;
        while hi < hunks.len()
            invariant
                fi < files@.len(),
                none == model::no_grid(files@),
                hunks == &files@[fi as int].hunks,
                hi <= hunks@.len(),
                before == tally_files(Tally::Any, files@, none, fi as int),
                n == before + tally_hunks(Tally::Any, hunks@, none[fi as int], hi as int),
            decreases hunks@.len() - hi,
        {
            proof {
                lemma_tally_any(
                    hunks@[hi as int].lines@,
                    none[fi as int][hi as int],
                    hunks@[hi as int].lines@.len() as int,
                );
            }
            n = match n.checked_add(hunks[hi].lines.len()) {
                Some(m) => m,
                None => {
                    proof {
                        lemma_tally_hunks_monotone(
                            Tally::Any,
                            hunks@,
                            none[fi as int],
                            hi + 1,
                            hunks@.len() as int,
                        );
                        lemma_tally_monotone(
                            Tally::Any,
                            files@,
                            none,
                            fi + 1,
                            files@.len() as int,
                        );
                    }
                    return false;
                },
            };
            hi += 1;
        }
        fi += 1;
    }
    true
}

// ---------------------------------------------------------------------------
// The session.

impl App {
    /// The session is as a session can be.
    pub open spec fn wf(self) -> bool {
        steps::sound(self.files@, self@)
    }

    /// Begins a session. Nothing is assigned, and the first hunk is shown.
    pub fn new(state: RepoState) -> (r: App)
        ensures
            r.wf(),
            r.files == state.files,
            r.bases == state.bases,
            r.branch == state.branch,
            r@ == steps::fresh(state.files@),
    {
        let mut binary: usize = 0;
        let mut i: usize = 0;
        while i < state.files.len()
            invariant
                i <= state.files@.len(),
                binary == steps::binary_count(state.files@, i as int),
                binary <= i,
            decreases state.files@.len() - i,
        {
            if state.files[i].binary {
                binary += 1;
            }
            i += 1;
        }
        let assign = empty_assignments(&state.files);
        let status: Option<String> = if binary > 0 {
            let mut out = "skipped ".to_string();
            append(&mut out, &decimal_string(binary));
            append(&mut out, " binary file(s); they stay staged");
            Some(out)
        } else {
            None
        };
        let r = App {
            files: state.files,
            bases: state.bases,
            branch: state.branch,
            assign,
            commits: Vec::new(),
            pos: 0,
            scroll: 0,
            mode: Mode::Browse,
            status,
            request_commit: false,
            outcome: None,
            ext_input: None,
        };
        proof {
            assert(r.commits.deep_view() =~= Seq::<Seq<char>>::empty());
            steps::lemma_fresh_sound(r.files@);
        }
        r
    }

    /// The key that a commit is assigned with.
    pub fn key_label(ci: usize) -> (r: String)
        requires
            ci < usize::MAX,
        ensures
            r@ == steps::label(ci as int),
    {
        if ci < 9 {
            decimal_string(ci + 1)
        } else {
            let mut out = "0".to_string();
            append(&mut out, &decimal_string(ci + 1));
            out
        }
    }

    /// The hunks that have a change that is not assigned.
    pub fn pending(&self) -> (r: Vec<(usize, usize)>)
        requires
            covered(self.files@, self@.assign),
        ensures
            r@ == pending_hunks(self.files@, self@.assign),
    {
        let ghost files = self.files@;
        let ghost assign = self@.assign;
        let mut out: Vec<(usize, usize)> = Vec::new();
        let mut fi: usize = 0;
        while fi < self.files.len()
            invariant
                fi <= self.files@.len(),
                files == self.files@,
                assign == model::grid(self.assign@),
                covered(files, assign),
                out@ == pending_upto(files, assign, fi as int),
            decreases self.files@.len() - fi,
        {
            let hunks = &self.files[fi].hunks;
            assert(model::covers(assign[fi as int], files[fi as int].hunks@));
            let rows = &self.assign[fi];
            let ghost before = out@;
            assert(before + pending_in(files, assign, fi as int, 0) =~= before);
            let mut hi: usize = 0;
            while hi < hunks.len()
                invariant
                    fi < files.len(),
                    hi <= hunks@.len(),
                    hunks@ == files[fi as int].hunks@,
                    model::rows(rows@) == assign[fi as int],
                    model::covers(assign[fi as int], hunks@),
                    out@ == before + pending_in(files, assign, fi as int, hi as int),
                decreases hunks@.len() - hi,
            {
                assert(assign[fi as int][hi as int].len() >= hunks@[hi as int].lines@.len());
                if is_open(&hunks[hi], &rows[hi]) {
                    let ghost part = pending_in(files, assign, fi as int, hi as int);
                    out.push((fi, hi));
                    assert(out@ =~= before + part.push((fi, hi)));
                }
                hi += 1;
            }
            fi += 1;
        }
        out
    }

    /// The hunk that is shown.
    pub fn current(&self) -> (r: Option<(usize, usize)>)
        requires
            covered(self.files@, self@.assign),
        ensures
            r == steps::current(self.files@, self@),
    {
        let pending = self.pending();
        if pending.len() == 0 {
            None
        } else if self.pos < pending.len() {
            Some(pending[self.pos])
        } else {
            Some(pending[pending.len() - 1])
        }
    }

    /// The changes of a hunk that are not assigned.
    pub fn unassigned_lines(&self, fi: usize, hi: usize) -> (r: Vec<usize>)
        requires
            fi < self.files@.len(),
            hi < self.files@[fi as int].hunks@.len(),
            covered(self.files@, self@.assign),
        ensures
            r@ == open_lines_of(self.files@, self@.assign, fi as int, hi as int),
    {
        let ghost assign = self@.assign;
        assert(model::covers(assign[fi as int], self.files@[fi as int].hunks@));
        assert(assign[fi as int][hi as int].len()
            >= self.files@[fi as int].hunks@[hi as int].lines@.len());
        let lines = &self.files[fi].hunks[hi].lines;
        let row = &self.assign[fi][hi];
        let mut out: Vec<usize> = Vec::new();
        let mut li: usize = 0;
        while li < lines.len()
            invariant
                li <= lines@.len() <= row@.len(),
                out@ == open_lines(lines@, row@, li as int),
            decreases lines@.len() - li,
        {
            if lines[li].is_change() && row[li].is_none() {
                out.push(li);
            }
            li += 1;
        }
        out
    }

    /// Whether any line is assigned.
    pub fn has_assignments(&self) -> (r: bool)
        ensures
            r == any_assigned(self@.assign),
    {
        let ghost assign = self@.assign;
        let mut fi: usize = 0;
        while fi < self.assign.len()
            invariant
                fi <= self.assign@.len(),
                assign == model::grid(self.assign@),
                forall|f: int, h: int, l: int|
                    0 <= f < fi && 0 <= h < assign[f].len() && 0 <= l < assign[f][h].len()
                        ==> #[trigger] assign[f][h][l] is None,
            decreases self.assign@.len() - fi,
        {
            let rows = &self.assign[fi];
            let mut hi: usize = 0;
            while hi < rows.len()
                invariant
                    fi < self.assign@.len(),
                    hi <= rows@.len(),
                    assign == model::grid(self.assign@),
                    rows == &self.assign@[fi as int],
                    forall|h: int, l: int|
                        0 <= h < hi && 0 <= l < assign[fi as int][h].len()
                            ==> #[trigger] assign[fi as int][h][l] is None,
                decreases rows@.len() - hi,
            {
                let row = &rows[hi];
                let mut li: usize = 0;
                while li < row.len()
                    invariant
                        fi < self.assign@.len(),
                        hi < rows@.len(),
                        li <= row@.len(),
                        assign == model::grid(self.assign@),
                        rows == &self.assign@[fi as int],
                        row == &rows@[hi as int],
                        forall|l: int|
                            0 <= l < li ==> #[trigger] assign[fi as int][hi as int][l] is None,
                    decreases row@.len() - li,
                {
                    if row[li].is_some() {
                        assert(assign[fi as int][hi as int][li as int] is Some);
                        return true;
                    }
                    li += 1;
                }
                hi += 1;
            }
            fi += 1;
        }
        false
    }

    /// How many added and how many removed lines are assigned to a commit.
    pub fn commit_stats(&self, ci: usize) -> (r: (usize, usize))
        requires
            covered(self.files@, self@.assign),
            countable(self.files@),
        ensures
            r.0 == tally(Tally::AddedIn(ci), self.files@, self@.assign),
            r.1 == tally(Tally::RemovedIn(ci), self.files@, self@.assign),
    {
        let ghost files = self.files@;
        let ghost assign = self@.assign;
        let ghost adds = Tally::AddedIn(ci);
        let ghost dels = Tally::RemovedIn(ci);
        let mut add: usize = 0;
        let mut del: usize = 0;
        let mut fi: usize = 0;
        while fi < self.files.len()
            invariant
                fi <= self.files@.len(),
                files == self.files@,
                assign == model::grid(self.assign@),
                covered(files, assign),
                countable(files),
                adds == Tally::AddedIn(ci),
                dels == Tally::RemovedIn(ci),
                add == tally_files(adds, files, assign, fi as int),
                del == tally_files(dels, files, assign, fi as int),
            decreases self.files@.len() - fi,
        {
            let hunks = &self.files[fi].hunks;
            assert(model::covers(assign[fi as int], files[fi as int].hunks@));
            let rows = &self.assign[fi];
            let mut hi: usize = 0;
            while hi < hunks.len()
                invariant
                    fi < files.len(),
                    hi <= hunks@.len(),
                    countable(files),
                    hunks@ == files[fi as int].hunks@,
                    model::rows(rows@) == assign[fi as int],
                    model::covers(assign[fi as int], hunks@),
                    adds == Tally::AddedIn(ci),
                    dels == Tally::RemovedIn(ci),
                    add == tally_files(adds, files, assign, fi as int) + tally_hunks(
                        adds,
                        hunks@,
                        assign[fi as int],
                        hi as int,
                    ),
                    del == tally_files(dels, files, assign, fi as int) + tally_hunks(
                        dels,
                        hunks@,
                        assign[fi as int],
                        hi as int,
                    ),
                decreases hunks@.len() - hi,
            {
                let lines = &hunks[hi].lines;
                let row = &rows[hi];
                assert(assign[fi as int][hi as int].len() >= lines@.len());
                let mut li: usize = 0;
                while li < lines.len()
                    invariant
                        fi < files.len(),
                        hi < hunks@.len(),
                        li <= lines@.len() <= row@.len(),
                        countable(files),
                        hunks@ == files[fi as int].hunks@,
                        lines@ == hunks@[hi as int].lines@,
                        row@ == assign[fi as int][hi as int],
                        adds == Tally::AddedIn(ci),
                        dels == Tally::RemovedIn(ci),
                        add == tally_files(adds, files, assign, fi as int) + tally_hunks(
                            adds,
                            hunks@,
                            assign[fi as int],
                            hi as int,
                        ) + tally_lines(adds, lines@, row@, li as int),
                        del == tally_files(dels, files, assign, fi as int) + tally_hunks(
                            dels,
                            hunks@,
                            assign[fi as int],
                            hi as int,
                        ) + tally_lines(dels, lines@, row@, li as int),
                    decreases lines@.len() - li,
                {
                    proof {
                        lemma_tally_fits(adds, files, assign, fi as int, hi as int, li as int);
                        lemma_tally_fits(dels, files, assign, fi as int, hi as int, li as int);
                    }
                    if let Some(k) = row[li] {
                        if k == ci {
                            match lines[li].kind {
                                LineKind::Add => add += 1,
                                LineKind::Del => del += 1,
                                LineKind::Context => {},
                            }
                        }
                    }
                    li += 1;
                }
                hi += 1;
            }
            fi += 1;
        }
        (add, del)
    }

    /// How many changes are not assigned.
    pub fn unassigned_count(&self) -> (r: usize)
        requires
            covered(self.files@, self@.assign),
            countable(self.files@),
        ensures
            r == tally(Tally::Open, self.files@, self@.assign),
    {
        let ghost files = self.files@;
        let ghost assign = self@.assign;
        let ghost what = Tally::Open;
        let mut n: usize = 0;
        let mut fi: usize = 0;
        while fi < self.files.len()
            invariant
                fi <= self.files@.len(),
                files == self.files@,
                assign == model::grid(self.assign@),
                covered(files, assign),
                countable(files),
                what == Tally::Open,
                n == tally_files(what, files, assign, fi as int),
            decreases self.files@.len() - fi,
        {
            let hunks = &self.files[fi].hunks;
            assert(model::covers(assign[fi as int], files[fi as int].hunks@));
            let rows = &self.assign[fi];
            let mut hi: usize = 0;
            while hi < hunks.len()
                invariant
                    fi < files.len(),
                    hi <= hunks@.len(),
                    countable(files),
                    hunks@ == files[fi as int].hunks@,
                    model::rows(rows@) == assign[fi as int],
                    model::covers(assign[fi as int], hunks@),
                    what == Tally::Open,
                    n == tally_files(what, files, assign, fi as int) + tally_hunks(
                        what,
                        hunks@,
                        assign[fi as int],
                        hi as int,
                    ),
                decreases hunks@.len() - hi,
            {
                let lines = &hunks[hi].lines;
                let row = &rows[hi];
                assert(assign[fi as int][hi as int].len() >= lines@.len());
                let mut li: usize = 0;
                while li < lines.len()
                    invariant
                        fi < files.len(),
                        hi < hunks@.len(),
                        li <= lines@.len() <= row@.len(),
                        countable(files),
                        hunks@ == files[fi as int].hunks@,
                        lines@ == hunks@[hi as int].lines@,
                        row@ == assign[fi as int][hi as int],
                        what == Tally::Open,
                        n == tally_files(what, files, assign, fi as int) + tally_hunks(
                            what,
                            hunks@,
                            assign[fi as int],
                            hi as int,
                        ) + tally_lines(what, lines@, row@, li as int),
                    decreases lines@.len() - li,
                {
                    proof {
                        lemma_tally_fits(what, files, assign, fi as int, hi as int, li as int);
                    }
                    if lines[li].is_change() && row[li].is_none() {
                        n += 1;
                    }
                    li += 1;
                }
                hi += 1;
            }
            fi += 1;
        }
        n
    }

    fn specs(&self) -> (r: Vec<CommitSpec>)
        ensures
            r.deep_view() == steps::local_commits(self@.commits),
    {
        let mut specs: Vec<CommitSpec> = Vec::new();
        let mut i: usize = 0;
        while i < self.commits.len()
            invariant
                i <= self.commits@.len(),
                specs@.len() == i,
                forall|k: int|
                    0 <= k < i ==> (#[trigger] specs@[k]).message@ == self.commits@[k]@
                        && specs@[k].branch is None,
            decreases self.commits@.len() - i,
        {
            specs.push(CommitSpec { message: self.commits[i].clone(), branch: None });
            i += 1;
        }
        assert(specs.deep_view() =~= steps::local_commits(self@.commits));
        specs
    }

    /// Whether the commits that the session describes can be planned.
    pub fn can_plan(&self) -> (r: bool)
        ensures
            r == model::plannable(
                self.files@,
                self@.assign,
                steps::local_commits(self@.commits),
            ),
    {
        let specs = self.specs();
        let slice: &[CommitSpec] = specs.as_slice();
        assert(slice.deep_view() =~= specs.deep_view());
        model::can_plan(&self.files, &self.assign, slice)
    }

    /// The commits that the session describes; they all go onto the branch that
    /// is checked out.
    pub fn plan(&self) -> (r: Plan)
        requires
            model::plannable(self.files@, self@.assign, steps::local_commits(self@.commits)),
        ensures
            r.commits.deep_view() == model::planned_commits(
                self.files@,
                self@.assign,
                self.bases@,
                steps::local_commits(self@.commits),
                self.commits@.len() as int,
            ),
            r.index_updates.deep_view() == model::planned_updates(
                self.files@,
                self@.assign,
                self.bases@,
                steps::local_commits(self@.commits),
                self.files@.len() as int,
            ),
    {
        let specs = self.specs();
        let slice: &[CommitSpec] = specs.as_slice();
        assert(slice.deep_view() =~= specs.deep_view());
        build_plan(&self.files, &self.assign, &self.bases, slice)
    }
}

/// Whether a hunk has a change that is not assigned.
fn is_open(hunk: &Hunk, row: &Vec<Option<usize>>) -> (r: bool)
    requires
        row@.len() >= hunk.lines@.len(),
    ensures
        r == open_hunk(*hunk, row@),
{
    let lines = &hunk.lines;
    let mut li: usize = 0;
    while li < lines.len()
        invariant
            li <= lines@.len() <= row@.len(),
            lines == &hunk.lines,
            forall|l: int| 0 <= l < li ==> !open_line(lines@[l], #[trigger] row@[l]),
        decreases lines@.len() - li,
    {
        if lines[li].is_change() && row[li].is_none() {
            assert(open_line(lines@[li as int], row@[li as int]));
            return true;
        }
        li += 1;
    }
    false
}

// ---------------------------------------------------------------------------
// The keys.

/// The numbers in an optional list.
pub open spec fn numbers_of(v: Option<Vec<usize>>) -> Option<Seq<usize>> {
    match v {
        Some(l) => Some(l@),
        None => None,
    }
}

/// Assigns the given lines of a hunk to a commit.
fn set_lines(row: &mut Vec<Option<usize>>, lines: &Vec<usize>, commit: usize)
    requires
        forall|i: int| 0 <= i < lines@.len() ==> #[trigger] lines@[i] < old(row)@.len(),
    ensures
        final(row)@ == steps::assigned_row(old(row)@, lines@, commit),
{
    let ghost before = row@;
    let n: usize = row.len();
    let mut i: usize = 0;
    assert(row@ =~= steps::assigned_row(before, lines@.take(0), commit));
    while i < lines.len()
        invariant
            i <= lines@.len(),
            before.len() == n,
            forall|k: int| 0 <= k < lines@.len() ==> #[trigger] lines@[k] < before.len(),
            row@ == steps::assigned_row(before, lines@.take(i as int), commit),
        decreases lines@.len() - i,
    {
        let li = lines[i];
        let ghost a = lines@.take(i as int);
        let ghost b = lines@.take(i + 1);
        row[li] = Some(commit);
        proof {
            assert(b =~= a.push(li));
            assert forall|l: int| 0 <= l < before.len() implies row@[l]
                == steps::assigned_row(before, b, commit)[l] by {
                if l == li {
                    assert(b[i as int] == l as usize);
                } else if a.contains(l as usize) {
                    let k = choose|k: int| 0 <= k < a.len() && a[k] == l as usize;
                    assert(b[k] == l as usize);
                } else if b.contains(l as usize) {
                    let k = choose|k: int| 0 <= k < b.len() && b[k] == l as usize;
                    assert(a[k] == l as usize);
                }
            }
            assert(row@ =~= steps::assigned_row(before, b, commit));
        }
        i += 1;
    }
    assert(lines@.take(i as int) =~= lines@);
}

/// Takes the assignments of a hunk back; returns how many there were.
fn clear_row(row: &mut Vec<Option<usize>>) -> (n: usize)
    ensures
        n == steps::assigned_count(old(row)@, old(row)@.len() as int),
        final(row)@ == Seq::new(old(row)@.len(), |l: int| None::<usize>),
{
    let ghost before = row@;
    let mut n: usize = 0;
    let mut i: usize = 0;
    while i < row.len()
        invariant
            i <= row@.len() == before.len(),
            n <= i,
            n == steps::assigned_count(before, i as int),
            forall|l: int| 0 <= l < i ==> row@[l] is None,
            forall|l: int| i <= l < row@.len() ==> row@[l] == before[l],
        decreases row@.len() - i,
    {
        if row[i].is_some() {
            row[i] = None;
            n += 1;
        }
        i += 1;
    }
    assert(row@ =~= Seq::new(before.len(), |l: int| None::<usize>));
    n
}

fn swap_row(row: &mut Vec<Option<usize>>, a: usize, b: usize)
    ensures
        final(row)@ == steps::swapped_row(old(row)@, a, b),
{
    let ghost before = row@;
    let mut i: usize = 0;
    while i < row.len()
        invariant
            i <= row@.len() == before.len(),
            forall|l: int| 0 <= l < i ==> row@[l] == steps::swapped(before[l], a, b),
            forall|l: int| i <= l < row@.len() ==> row@[l] == before[l],
        decreases row@.len() - i,
    {
        if let Some(k) = row[i] {
            if k == a {
                row[i] = Some(b);
            } else if k == b {
                row[i] = Some(a);
            }
        }
        i += 1;
    }
    assert(row@ =~= steps::swapped_row(before, a, b));
}

fn swap_rows(rows: &mut Vec<Vec<Option<usize>>>, a: usize, b: usize)
    ensures
        model::rows(final(rows)@) == steps::swapped_rows(model::rows(old(rows)@), a, b),
{
    let ghost before = rows@;
    let mut i: usize = 0;
    while i < rows.len()
        invariant
            i <= rows@.len() == before.len(),
            forall|h: int|
                0 <= h < i ==> (#[trigger] rows@[h])@ == steps::swapped_row(before[h]@, a, b),
            forall|h: int| i <= h < rows@.len() ==> rows@[h] == before[h],
        decreases rows@.len() - i,
    {
        swap_row(&mut rows[i], a, b);
        i += 1;
    }
    assert(model::rows(rows@) =~= steps::swapped_rows(model::rows(before), a, b));
}

fn swap_grid(assign: &mut Assignments, a: usize, b: usize)
    ensures
        model::grid(final(assign)@) == steps::swapped_grid(model::grid(old(assign)@), a, b),
{
    let ghost before = assign@;
    let mut i: usize = 0;
    while i < assign.len()
        invariant
            i <= assign@.len() == before.len(),
            forall|f: int|
                0 <= f < i ==> model::rows((#[trigger] assign@[f])@) == steps::swapped_rows(
                    model::rows(before[f]@),
                    a,
                    b,
                ),
            forall|f: int| i <= f < assign@.len() ==> assign@[f] == before[f],
        decreases assign@.len() - i,
    {
        swap_rows(&mut assign[i], a, b);
        i += 1;
    }
    assert(model::grid(assign@) =~= steps::swapped_grid(model::grid(before), a, b));
}

/// The members of a set, all of which are below `n`, in ascending order.
fn sorted_members(s: &HashSet<usize>, n: usize) -> (r: Vec<usize>)
    requires
        forall|l: usize| #[trigger] s@.contains(l) ==> l < n,
    ensures
        r@ == steps::ascending(s@),
{
    let mut out: Vec<usize> = Vec::new();
    let mut i: usize = 0;
    while i < n
        invariant
            i <= n,
            out@ == steps::members_below(s@, i as int),
        decreases n - i,
    {
        if s.contains(&i) {
            out.push(i);
        }
        i += 1;
    }
    proof {
        steps::lemma_members_below(s@, n as int, usize::MAX + 1);
    }
    out
}

impl App {
    /// The repository that a session is about.
    pub open spec fn same_repo(self, other: App) -> bool {
        &&& self.files == other.files
        &&& self.bases == other.bases
        &&& self.branch == other.branch
    }

    fn after_assign(&mut self)
        requires
            covered(old(self).files@, old(self)@.assign),
        ensures
            final(self)@ == steps::after_assign(old(self).files@, old(self)@),
            final(self).same_repo(*old(self)),
    {
        self.scroll = 0;
        let n = self.pending().len();
        if n == 0 {
            self.mode = Mode::Review { sel: 0, edit: None };
        } else {
            if self.pos > n - 1 {
                self.pos = n - 1;
            }
            self.mode = Mode::Browse;
        }
    }

    fn assign_current(&mut self, commit: usize, lines: Option<Vec<usize>>)
        requires
            commit < old(self).commits@.len(),
            steps::shaped(old(self).files@, old(self)@.assign),
            lines matches Some(v) ==> forall|i: int|
                0 <= i < v@.len() ==> steps::pickable(
                    old(self).files@,
                    old(self)@,
                    #[trigger] v@[i],
                ),
        ensures
            final(self)@ == steps::assign_current(
                old(self).files@,
                old(self)@,
                commit,
                numbers_of(lines),
            ),
            final(self).same_repo(*old(self)),
    {
        let ghost files = self.files@;
        let ghost s = self@;
        proof {
            steps::lemma_shaped_covered(files, s.assign);
            assert(self.files.len() == self.files@.len());
            lemma_current(files, s.assign, s.pos as int);
        }
        let (fi, hi) = match self.current() {
            Some(pair) => pair,
            None => return ,
        };
        let ghost f = fi as int;
        let ghost h = hi as int;
        let ghost hunk_lines = files[f].hunks@[h].lines;
        proof {
            assert(steps::shaped_file(files[f].hunks@, s.assign[f]));
            assert(s.assign[f][h].len() == hunk_lines@.len());
            assert(hunk_lines.len() == hunk_lines@.len());
            lemma_open_lines(hunk_lines@, s.assign[f][h], hunk_lines@.len() as int);
        }
        let targets: Vec<usize> = match lines {
            Some(t) => t,
            None => self.unassigned_lines(fi, hi),
        };
        let count = targets.len();
        let ghost before = self.assign;
        set_lines(&mut self.assign[fi][hi], &targets, commit);
        proof {
            let row = steps::assigned_row(s.assign[f][h], targets@, commit);
            lemma_grid_row(before, self.assign, f, h, row);
        }
        assert(self.commits.len() == self.commits@.len());
        let mut message = decimal_string(count);
        append(&mut message, " line(s) -> [");
        append(&mut message, &Self::key_label(commit));
        append(&mut message, "] ");
        append(&mut message, &self.commits[commit]);
        self.status = Some(message);
        proof {
            steps::lemma_with_row_shaped(
                files,
                s.assign,
                f,
                h,
                steps::assigned_row(s.assign[f][h], targets@, commit),
            );
            steps::lemma_shaped_covered(files, self@.assign);
        }
        self.after_assign();
    }

    fn assign_via_key(&mut self, ci: usize)
        requires
            ci < usize::MAX,
            steps::sound(old(self).files@, old(self)@),
        ensures
            final(self)@ == steps::assign_via_key(old(self).files@, old(self)@, ci),
            final(self).same_repo(*old(self)),
    {
        let ghost files = self.files@;
        if ci >= self.commits.len() {
            let mut message = "no commit [".to_string();
            append(&mut message, &Self::key_label(ci));
            append(&mut message, "] yet — press n to create one");
            self.status = Some(message);
            return;
        }
        let lines: Option<Vec<usize>> = match &self.mode {
            Mode::Select { selected, .. } => {
                if selected.is_empty() {
                    self.status = Some("no lines selected (space toggles)".to_string());
                    return;
                }
                proof {
                    steps::lemma_shaped_covered(files, self@.assign);
                    assert(self.files.len() == self.files@.len());
                    lemma_current(files, self@.assign, self@.pos as int);
                    let l = selected@.choose();
                    assert(selected@.contains(l));
                    assert(steps::pickable(files, self@, l));
                }
                let n: usize = match self.current() {
                    Some((fi, hi)) => self.files[fi].hunks[hi].lines.len(),
                    None => 0,
                };
                let lines = sorted_members(selected, n);
                proof {
                    steps::lemma_ascending_members(selected@);
                }
                Some(lines)
            },
            _ => None,
        };
        self.assign_current(ci, lines);
    }

    fn start_ext(&mut self)
        ensures
            final(self)@ == steps::start_ext(old(self)@),
            final(self).same_repo(*old(self)),
    {
        if self.commits.is_empty() {
            self.status = Some("no commits yet — press n to create one".to_string());
        } else {
            self.ext_input = Some(String::new());
        }
    }

    fn swap_commits(&mut self, a: usize, b: usize)
        requires
            a < old(self).commits@.len(),
            b < old(self).commits@.len(),
        ensures
            final(self)@ == steps::swap_commits(old(self)@, a, b),
            final(self).same_repo(*old(self)),
    {
        let ghost before = self.commits;
        let x = self.commits[a].clone();
        let y = self.commits[b].clone();
        self.commits[a] = y;
        self.commits[b] = x;
        assert(self.commits.deep_view() =~= before.deep_view().update(
            a as int,
            before.deep_view()[b as int],
        ).update(b as int, before.deep_view()[a as int]));
        swap_grid(&mut self.assign, a, b);
    }
}

/// Replacing one row of the assignments.
proof fn lemma_grid_row(
    before: Assignments,
    after: Assignments,
    f: int,
    h: int,
    row: Seq<Option<usize>>,
)
    requires
        0 <= f < before@.len(),
        0 <= h < before@[f]@.len(),
        after@.len() == before@.len(),
        forall|i: int| 0 <= i < before@.len() && i != f ==> after@[i] == before@[i],
        after@[f]@.len() == before@[f]@.len(),
        forall|j: int|
            0 <= j < before@[f]@.len() && j != h ==> after@[f]@[j] == before@[f]@[j],
        after@[f]@[h]@ == row,
    ensures
        model::grid(after@) == steps::with_row(model::grid(before@), f, h, row),
{
    assert(model::rows(after@[f]@) =~= model::rows(before@[f]@).update(h, row));
    assert(model::grid(after@) =~= steps::with_row(model::grid(before@), f, h, row));
}

/// The next position in a list of length `n`, staying at its end.
fn next_of(i: usize, n: usize) -> (r: usize)
    requires
        i < usize::MAX,
    ensures
        r == steps::next_in(i, n as int),
{
    let last = n.saturating_sub(1);
    if i + 1 < last {
        i + 1
    } else {
        last
    }
}

/// The number of a digit key.
fn quick_key(c: char) -> (r: usize)
    requires
        '1' <= c <= '9',
    ensures
        r == c as int - '1' as int,
        r < 9,
{
    (c as u32 - 49) as usize
}

impl App {
    fn key_ext(&mut self, code: KeyCode)
        requires
            steps::sound(old(self).files@, old(self)@),
            old(self).ext_input is Some,
        ensures
            final(self)@ == steps::key_ext(old(self).files@, old(self)@, code),
            final(self).same_repo(*old(self)),
    {
        let max_id = self.commits.len();
        match code {
            KeyCode::Esc => {
                self.ext_input = None;
            },
            KeyCode::Backspace => {
                let empty: bool = match &mut self.ext_input {
                    Some(digits) => digits.pop().is_none(),
                    None => false,
                };
                if empty {
                    self.ext_input = None;
                }
            },
            KeyCode::Char(c) => {
                if '0' <= c && c <= '9' {
                    let mut digits = match self.ext_input.take() {
                        Some(d) => d,
                        None => return ,
                    };
                    digits.push(c);
                    let id: usize = match parse_number(&chars_of(&digits)) {
                        Ok(n) => n,
                        Err(_) => usize::MAX,
                    };
                    if id > max_id {
                        let mut message = "no commit [0".to_string();
                        append(&mut message, &digits);
                        append(&mut message, "] (highest is [");
                        append(&mut message, &Self::key_label(max_id - 1));
                        append(&mut message, "])");
                        self.status = Some(message);
                    } else if id >= 1 && id > max_id / 10 {
                        self.assign_via_key(id - 1);
                    } else {
                        self.ext_input = Some(digits);
                    }
                }
            },
            KeyCode::Enter => {
                let digits = match self.ext_input.take() {
                    Some(d) => d,
                    None => return ,
                };
                let id: usize = match parse_number(&chars_of(&digits)) {
                    Ok(n) => n,
                    Err(_) => 0,
                };
                if 1 <= id && id <= max_id {
                    self.assign_via_key(id - 1);
                } else {
                    self.status = Some("invalid commit id".to_string());
                }
            },
            _ => {},
        }
    }

    fn leave_manage(&mut self)
        requires
            old(self).mode is Manage,
        ensures
            final(self)@ == steps::leave_manage(old(self)@, old(self).mode->back),
            final(self).same_repo(*old(self)),
    {
        let back: Option<usize> = match &self.mode {
            Mode::Manage { back, .. } => *back,
            _ => None,
        };
        self.mode = match back {
            Some(sel) => Mode::Review { sel, edit: None },
            None => Mode::Browse,
        };
    }

    fn mark_or_swap(&mut self)
        requires
            steps::sound(old(self).files@, old(self)@),
            old(self).mode is Manage,
        ensures
            final(self)@ == steps::mark_or_swap(
                old(self)@,
                old(self).mode->Manage_cursor,
                old(self).mode->mark,
                old(self).mode->back,
            ),
            final(self).same_repo(*old(self)),
    {
        let (cur, marked): (usize, Option<usize>) = match &self.mode {
            Mode::Manage { cursor, mark, .. } => (*cursor, *mark),
            _ => return ,
        };
        match marked {
            None => {
                if let Mode::Manage { mark, .. } = &mut self.mode {
                    *mark = Some(cur);
                }
            },
            Some(m) => {
                if let Mode::Manage { mark, .. } = &mut self.mode {
                    *mark = None;
                }
                if m != cur {
                    assert(self.commits.len() == self.commits@.len());
                    self.swap_commits(m, cur);
                    let mut message = "swapped [".to_string();
                    append(&mut message, &Self::key_label(m));
                    append(&mut message, "] <-> [");
                    append(&mut message, &Self::key_label(cur));
                    append(&mut message, "]");
                    self.status = Some(message);
                }
            },
        }
    }

    fn key_manage(&mut self, code: KeyCode)
        requires
            steps::sound(old(self).files@, old(self)@),
            old(self).mode is Manage,
        ensures
            final(self)@ == steps::key_manage(old(self)@, code),
            final(self).same_repo(*old(self)),
    {
        let n = self.commits.len();
        match code {
            KeyCode::Esc | KeyCode::Char('q') | KeyCode::Char('m') => self.leave_manage(),
            KeyCode::Char('j') | KeyCode::Down => {
                if let Mode::Manage { cursor, .. } = &mut self.mode {
                    *cursor = next_of(*cursor, n);
                }
            },
            KeyCode::Char('k') | KeyCode::Up => {
                if let Mode::Manage { cursor, .. } = &mut self.mode {
                    *cursor = cursor.saturating_sub(1);
                }
            },
            KeyCode::Enter | KeyCode::Char(' ') => self.mark_or_swap(),
            _ => {},
        }
    }

    fn skip_forward(&mut self, n: usize)
        requires
            n == pending_hunks(old(self).files@, old(self)@.assign).len(),
            steps::sound(old(self).files@, old(self)@),
        ensures
            final(self)@ == steps::skip_by(old(self).files@, old(self)@, 1),
            final(self).same_repo(*old(self)),
    {
        if n > 0 {
            let ghost pos = self.pos as int;
            self.pos = if self.pos == n - 1 {
                0
            } else {
                self.pos + 1
            };
            self.scroll = 0;
            proof {
                if pos == n - 1 {
                    assert((pos + 1) % (n as int) == 0) by (nonlinear_arith)
                        requires
                            pos + 1 == n,
                            n > 0,
                    ;
                } else {
                    vstd::arithmetic::div_mod::lemma_small_mod((pos + 1) as nat, n as nat);
                }
            }
        }
    }

    fn skip_back(&mut self, n: usize)
        requires
            n == pending_hunks(old(self).files@, old(self)@.assign).len(),
            steps::sound(old(self).files@, old(self)@),
        ensures
            final(self)@ == steps::skip_by(old(self).files@, old(self)@, -1),
            final(self).same_repo(*old(self)),
    {
        if n > 0 {
            let ghost pos = self.pos as int;
            self.pos = if self.pos == 0 {
                n - 1
            } else {
                self.pos - 1
            };
            self.scroll = 0;
            proof {
                if pos == 0 {
                    vstd::arithmetic::div_mod::lemma_mod_add_multiples_vanish(-1, n as int);
                    vstd::arithmetic::div_mod::lemma_small_mod((n - 1) as nat, n as nat);
                } else {
                    vstd::arithmetic::div_mod::lemma_small_mod((pos - 1) as nat, n as nat);
                }
            }
        }
    }

    fn unassign(&mut self)
        requires
            steps::shaped(old(self).files@, old(self)@.assign),
        ensures
            final(self)@ == steps::unassign(old(self).files@, old(self)@),
            final(self).same_repo(*old(self)),
    {
        let ghost files = self.files@;
        let ghost s = self@;
        proof {
            steps::lemma_shaped_covered(files, s.assign);
            assert(self.files.len() == self.files@.len());
            lemma_current(files, s.assign, s.pos as int);
        }
        if let Some((fi, hi)) = self.current() {
            let ghost f = fi as int;
            let ghost h = hi as int;
            assert(steps::shaped_file(files[f].hunks@, s.assign[f]));
            let ghost before = self.assign;
            let n = clear_row(&mut self.assign[fi][hi]);
            proof {
                lemma_grid_row(before, self.assign, f, h, self.assign@[f]@[h]@);
            }
            self.status = Some(
                if n > 0 {
                    let mut message = "unassigned ".to_string();
                    append(&mut message, &decimal_string(n));
                    append(&mut message, " line(s) of this hunk");
                    message
                } else {
                    "nothing assigned in this hunk".to_string()
                },
            );
        }
    }

    fn to_review(&mut self)
        ensures
            final(self)@ == steps::to_review(old(self)@),
            final(self).same_repo(*old(self)),
    {
        if self.has_assignments() {
            self.mode = Mode::Review { sel: 0, edit: None };
        } else {
            self.status = Some("nothing assigned yet".to_string());
        }
    }

    fn key_browse(&mut self, code: KeyCode)
        requires
            steps::sound(old(self).files@, old(self)@),
        ensures
            pending_hunks(old(self).files@, old(self)@.assign).len() <= usize::MAX,
            final(self)@ == steps::key_browse(old(self).files@, old(self)@, code),
            final(self).same_repo(*old(self)),
    {
        proof {
            steps::lemma_shaped_covered(self.files@, self@.assign);
        }
        let pending_len = self.pending().len();
        match code {
            KeyCode::Char('q') | KeyCode::Esc => {
                self.outcome = Some(Outcome::Quit);
            },
            KeyCode::Char('0') => self.start_ext(),
            KeyCode::Char('n') => {
                self.mode = Mode::Name { input: String::new(), lines: None };
            },
            KeyCode::Char('v') | KeyCode::Char(' ') => {
                self.mode = Mode::Select { cursor: 0, selected: HashSet::new() };
            },
            KeyCode::Char('s') | KeyCode::Char('l') | KeyCode::Right | KeyCode::Tab => {
                self.skip_forward(pending_len)
            },
            KeyCode::Char('h') | KeyCode::Left => self.skip_back(pending_len),
            KeyCode::Char('j') | KeyCode::Down => {
                self.scroll = self.scroll.saturating_add(1);
            },
            KeyCode::Char('k') | KeyCode::Up => {
                self.scroll = self.scroll.saturating_sub(1);
            },
            KeyCode::Char('u') => self.unassign(),
            KeyCode::Char('m') => {
                if self.commits.is_empty() {
                    self.status = Some("no commits to manage yet".to_string());
                } else {
                    self.mode = Mode::Manage { cursor: 0, mark: None, back: None };
                }
            },
            KeyCode::Char('d') | KeyCode::Enter => self.to_review(),
            KeyCode::Char(c) => {
                if '1' <= c && c <= '9' {
                    self.assign_via_key(quick_key(c));
                }
            },
            _ => {},
        }
    }

    fn key_select(&mut self, code: KeyCode)
        requires
            steps::sound(old(self).files@, old(self)@),
            old(self).mode is Select,
        ensures
            final(self)@ == steps::key_select(old(self).files@, old(self)@, code),
            final(self).same_repo(*old(self)),
    {
        let ghost files = self.files@;
        let ghost s = self@;
        proof {
            steps::lemma_shaped_covered(files, s.assign);
            assert(self.files.len() == self.files@.len());
            lemma_current(files, s.assign, s.pos as int);
        }
        let (fi, hi) = match self.current() {
            Some(pair) => pair,
            None => {
                self.mode = Mode::Browse;
                return;
            },
        };
        let toggleable = self.unassigned_lines(fi, hi);
        let n = toggleable.len();
        match code {
            KeyCode::Esc | KeyCode::Char('v') | KeyCode::Char('q') => {
                self.mode = Mode::Browse;
            },
            KeyCode::Char('j') | KeyCode::Down => {
                if let Mode::Select { cursor, .. } = &mut self.mode {
                    *cursor = next_of(*cursor, n);
                }
            },
            KeyCode::Char('k') | KeyCode::Up => {
                if let Mode::Select { cursor, .. } = &mut self.mode {
                    *cursor = cursor.saturating_sub(1);
                }
            },
            KeyCode::Char(' ') => {
                if let Mode::Select { cursor, selected } = &mut self.mode {
                    if *cursor < n {
                        let li = toggleable[*cursor];
                        let ghost before = selected@;
                        if !selected.remove(&li) {
                            selected.insert(li);
                            assert(selected@ =~= before.insert(li));
                        }
                        *cursor = next_of(*cursor, n);
                    }
                }
            },
            KeyCode::Char('a') => {
                if let Mode::Select { selected, .. } = &mut self.mode {
                    if selected.len() == n {
                        selected.clear();
                    } else {
                        insert_all(selected, &toggleable);
                    }
                }
            },
            KeyCode::Char('0') => self.start_ext(),
            KeyCode::Char('n') => {
                let lines: Option<Vec<usize>> = match &self.mode {
                    Mode::Select { selected, .. } => {
                        if selected.is_empty() {
                            None
                        } else {
                            proof {
                                assert forall|l: usize| #[trigger] selected@.contains(l) implies l
                                    < files[fi as int].hunks@[hi as int].lines@.len() by {
                                    assert(steps::pickable(files, s, l));
                                }
                            }
                            Some(sorted_members(selected, self.files[fi].hunks[hi].lines.len()))
                        }
                    },
                    _ => None,
                };
                match lines {
                    None => {
                        self.status = Some("no lines selected (space toggles)".to_string());
                    },
                    Some(lines) => {
                        self.mode = Mode::Name { input: String::new(), lines: Some(lines) };
                    },
                }
            },
            KeyCode::Char(c) => {
                if '1' <= c && c <= '9' {
                    self.assign_via_key(quick_key(c));
                }
            },
            _ => {},
        }
    }

    fn key_name(&mut self, code: KeyCode)
        requires
            steps::sound(old(self).files@, old(self)@),
            old(self).mode is Name,
        ensures
            final(self)@ == steps::key_name(old(self).files@, old(self)@, code),
            final(self).same_repo(*old(self)),
    {
        match code {
            KeyCode::Esc => {
                let lines: Option<Vec<usize>> = match &mut self.mode {
                    Mode::Name { lines, .. } => lines.take(),
                    _ => None,
                };
                self.mode = match lines {
                    Some(lines) => {
                        let mut selected: HashSet<usize> = HashSet::new();
                        insert_all(&mut selected, &lines);
                        assert(selected@ =~= lines@.to_set());
                        Mode::Select { cursor: 0, selected }
                    },
                    None => Mode::Browse,
                };
            },
            KeyCode::Enter => {
                let msg = match &self.mode {
                    Mode::Name { input, .. } => trim(input),
                    _ => return ,
                };
                if msg.as_str().is_empty() {
                    self.status = Some("commit message cannot be empty".to_string());
                    return;
                }
                let lines: Option<Vec<usize>> = match &mut self.mode {
                    Mode::Name { lines, .. } => lines.take(),
                    _ => None,
                };
                let ghost before = self.commits;
                self.commits.push(msg);
                proof {
                    assert(self.commits.deep_view() =~= before.deep_view().push(msg@));
                    assert(self.commits.len() == self.commits@.len());
                }
                let last = self.commits.len() - 1;
                self.assign_current(last, lines);
            },
            KeyCode::Backspace => {
                if let Mode::Name { input, .. } = &mut self.mode {
                    input.pop();
                }
            },
            KeyCode::Char(c) => {
                if let Mode::Name { input, .. } = &mut self.mode {
                    input.push(c);
                }
            },
            _ => {},
        }
    }

    fn key_edit(&mut self, code: KeyCode)
        requires
            steps::sound(old(self).files@, old(self)@),
            old(self)@.mode matches ModeView::Review { edit, .. } && edit is Some,
        ensures
            final(self)@ == steps::key_edit(
                old(self)@,
                old(self)@.mode->sel,
                old(self)@.mode->edit.unwrap(),
                code,
            ),
            final(self).same_repo(*old(self)),
    {
        match code {
            KeyCode::Esc => {
                if let Mode::Review { edit, .. } = &mut self.mode {
                    *edit = None;
                }
            },
            KeyCode::Enter => {
                let (at, msg): (usize, String) = match &self.mode {
                    Mode::Review { sel, edit: Some(buf) } => (*sel, trim(buf)),
                    _ => return ,
                };
                if msg.as_str().is_empty() {
                    self.status = Some("commit message cannot be empty".to_string());
                    return;
                }
                let ghost before = self.commits;
                let ghost text = msg@;
                self.commits[at] = msg;
                assert(self.commits.deep_view() =~= before.deep_view().update(at as int, text));
                if let Mode::Review { edit, .. } = &mut self.mode {
                    *edit = None;
                }
            },
            KeyCode::Backspace => {
                if let Mode::Review { edit: Some(buf), .. } = &mut self.mode {
                    buf.pop();
                }
            },
            KeyCode::Char(c) => {
                if let Mode::Review { edit: Some(buf), .. } = &mut self.mode {
                    buf.push(c);
                }
            },
            _ => {},
        }
    }

    fn key_review(&mut self, code: KeyCode)
        requires
            steps::sound(old(self).files@, old(self)@),
            old(self).mode is Review,
        ensures
            final(self)@ == steps::key_review(old(self).files@, old(self)@, code),
            final(self).same_repo(*old(self)),
    {
        let n_commits = self.commits.len();
        let (at, editing): (usize, bool) = match &self.mode {
            Mode::Review { sel, edit } => (*sel, edit.is_some()),
            _ => return ,
        };
        if editing {
            self.key_edit(code);
            return;
        }
        match code {
            KeyCode::Char('q') => {
                self.outcome = Some(Outcome::Quit);
            },
            KeyCode::Char('j') | KeyCode::Down => {
                if let Mode::Review { sel, .. } = &mut self.mode {
                    *sel = next_of(*sel, n_commits);
                }
            },
            KeyCode::Char('k') | KeyCode::Up => {
                if let Mode::Review { sel, .. } = &mut self.mode {
                    *sel = sel.saturating_sub(1);
                }
            },
            KeyCode::Char('e') => {
                if n_commits > 0 {
                    let text = self.commits[at].clone();
                    if let Mode::Review { edit, .. } = &mut self.mode {
                        *edit = Some(text);
                    }
                }
            },
            KeyCode::Char('m') => {
                if n_commits > 0 {
                    self.mode = Mode::Manage { cursor: 0, mark: None, back: Some(at) };
                }
            },
            KeyCode::Esc | KeyCode::Char('b') => {
                proof {
                    steps::lemma_shaped_covered(self.files@, self@.assign);
                }
                if self.pending().len() > 0 {
                    self.mode = Mode::Browse;
                } else {
                    self.status = Some(
                        "all hunks assigned (u on review is not supported; q to quit)".to_string(),
                    );
                }
            },
            KeyCode::Enter | KeyCode::Char('y') => {
                self.request_commit = true;
            },
            _ => {},
        }
    }

    /// Does what a key asks for.
    pub fn handle_key(&mut self, key: KeyEvent)
        requires
            old(self).wf(),
        ensures
            final(self).wf(),
            final(self)@ == steps::pressed(old(self).files@, old(self)@, key),
            final(self).same_repo(*old(self)),
    {
        let ghost files = self.files@;
        let ghost s = self@;
        proof {
            assert(self.files.len() == self.files@.len());
            assert(self.commits.len() == self.commits@.len());
        }
        self.status = None;
        if key.code == KeyCode::Char('c') && key.control {
            self.outcome = Some(Outcome::Quit);
            return;
        }
        if self.ext_input.is_some() {
            self.key_ext(key.code);
        } else {
            match &self.mode {
                Mode::Browse => self.key_browse(key.code),
                Mode::Select { .. } => self.key_select(key.code),
                Mode::Name { .. } => self.key_name(key.code),
                Mode::Review { .. } => self.key_review(key.code),
                Mode::Manage { .. } => self.key_manage(key.code),
            }
        }
        proof {
            steps::law_keys_keep_sound(files, s, key);
        }
    }
}

/// Adds the members of a list to a set.
fn insert_all(s: &mut HashSet<usize>, lines: &Vec<usize>)
    ensures
        final(s)@ == old(s)@.union(lines@.to_set()),
{
    let ghost before = s@;
    let mut i: usize = 0;
    assert(s@ =~= before.union(lines@.take(0).to_set()));
    while i < lines.len()
        invariant
            i <= lines@.len(),
            s@ == before.union(lines@.take(i as int).to_set()),
        decreases lines@.len() - i,
    {
        s.insert(lines[i]);
        proof {
            let a = lines@.take(i as int);
            let b = lines@.take(i + 1);
            assert(b =~= a.push(lines@[i as int]));
            assert forall|l: usize| b.to_set().contains(l) == (a.to_set().contains(l) || l
                == lines@[i as int]) by {
                if a.contains(l) {
                    let k = choose|k: int| 0 <= k < a.len() && a[k] == l;
                    assert(b[k] == l);
                }
                if l == lines@[i as int] {
                    assert(b[i as int] == l);
                }
                if b.contains(l) {
                    let k = choose|k: int| 0 <= k < b.len() && b[k] == l;
                    if k < i {
                        assert(a[k] == l);
                    }
                }
            }
            assert(s@ =~= before.union(b.to_set()));
        }
        i += 1;
    }
    assert(lines@.take(i as int) =~= lines@);
}

} // verus!
