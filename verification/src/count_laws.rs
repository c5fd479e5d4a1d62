//! What holds of the numbers of lines that a session shows.
use vstd::prelude::*;

use crate::app;
use crate::app::{AppView, Tally};
use crate::diff::{DiffLine, FileDiff, Hunk, LineKind};
use crate::model;
use crate::model::{CommitView, SpecView};
use crate::plan_laws;
use crate::steps;

verus! {

// ---------------------------------------------------------------------------
// The sums over all commits.

/// The changes of the first `n` lines that the first `commits` commits have.
pub open spec fn assigned_lines(
    commits: int,
    lines: Seq<DiffLine>,
    row: Seq<Option<usize>>,
    n: int,
) -> nat
    decreases commits,
{
    if commits <= 0 {
        0
    } else {
        let c = (commits - 1) as usize;
        assigned_lines(commits - 1, lines, row, n) + app::tally_lines(
            Tally::AddedIn(c),
            lines,
            row,
            n,
        ) + app::tally_lines(Tally::RemovedIn(c), lines, row, n)
    }
}

/// The changes of the first `n` hunks that the first `commits` commits have.
pub open spec fn assigned_hunks(
    commits: int,
    hunks: Seq<Hunk>,
    rows: Seq<Seq<Option<usize>>>,
    n: int,
) -> nat
    decreases commits,
{
    if commits <= 0 {
        0
    } else {
        let c = (commits - 1) as usize;
        assigned_hunks(commits - 1, hunks, rows, n) + app::tally_hunks(
            Tally::AddedIn(c),
            hunks,
            rows,
            n,
        ) + app::tally_hunks(Tally::RemovedIn(c), hunks, rows, n)
    }
}

/// The changes of the first `n` files that the first `commits` commits have.
pub open spec fn assigned_files(
    commits: int,
    files: Seq<FileDiff>,
    assign: Seq<Seq<Seq<Option<usize>>>>,
    n: int,
) -> nat
    decreases commits,
{
    if commits <= 0 {
        0
    } else {
        let c = (commits - 1) as usize;
        assigned_files(commits - 1, files, assign, n) + app::tally_files(
            Tally::AddedIn(c),
            files,
            assign,
            n,
        ) + app::tally_files(Tally::RemovedIn(c), files, assign, n)
    }
}

/// The lines that the first `commits` commits add and remove, all together.
pub open spec fn all_stats(
    commits: int,
    files: Seq<FileDiff>,
    assign: Seq<Seq<Seq<Option<usize>>>>,
) -> nat
    decreases commits,
{
    if commits <= 0 {
        0
    } else {
        let c = (commits - 1) as usize;
        all_stats(commits - 1, files, assign) + app::tally(Tally::AddedIn(c), files, assign)
            + app::tally(Tally::RemovedIn(c), files, assign)
    }
}

/// Whether a line is a change that one of the first `commits` commits has.
spec fn has_commit(commits: int, line: DiffLine, a: Option<usize>) -> bool {
    line.change() && (a matches Some(k) && k < commits)
}

proof fn lemma_one_line(
    commits: int,
    lines: Seq<DiffLine>,
    row: Seq<Option<usize>>,
    n: int,
)
    requires
        0 < n,
        commits <= usize::MAX,
    ensures
        assigned_lines(commits, lines, row, n) == assigned_lines(commits, lines, row, n - 1) + if (
        has_commit(commits, lines[n - 1], row[n - 1])) {
            1nat
        } else {
            0nat
        },
    decreases commits,
{
    if commits > 0 {
        lemma_one_line(commits - 1, lines, row, n);
        let c = (commits - 1) as usize;
        let line = lines[n - 1];
        let a = row[n - 1];
        assert(line.kind == LineKind::Context || line.kind == LineKind::Add || line.kind
            == LineKind::Del);
        assert(app::tallied(Tally::AddedIn(c), line, a) <==> a == Some(c) && line.kind
            == LineKind::Add);
        assert(app::tallied(Tally::RemovedIn(c), line, a) <==> a == Some(c) && line.kind
            == LineKind::Del);
    }
}

proof fn lemma_lines_add_up(
    commits: int,
    lines: Seq<DiffLine>,
    row: Seq<Option<usize>>,
    n: int,
)
    requires
        0 <= n <= lines.len(),
        0 <= commits <= usize::MAX,
        forall|l: int|
            0 <= l < lines.len() && lines[l].change() ==> (#[trigger] row[l] matches Some(k) ==> k
                < commits),
    ensures
        app::tally_lines(Tally::Open, lines, row, n) + assigned_lines(commits, lines, row, n)
            == app::tally_lines(Tally::Change, lines, row, n),
    decreases n,
{
    if n > 0 {
        lemma_lines_add_up(commits, lines, row, n - 1);
        lemma_one_line(commits, lines, row, n);
        assert(lines[n - 1].change() ==> (row[n - 1] matches Some(k) ==> k < commits));
    } else {
        lemma_no_lines(commits, lines, row);
    }
}

proof fn lemma_no_lines(commits: int, lines: Seq<DiffLine>, row: Seq<Option<usize>>)
    ensures
        assigned_lines(commits, lines, row, 0) == 0,
    decreases commits,
{
    if commits > 0 {
        lemma_no_lines(commits - 1, lines, row);
    }
}

proof fn lemma_one_hunk(
    commits: int,
    hunks: Seq<Hunk>,
    rows: Seq<Seq<Option<usize>>>,
    n: int,
)
    requires
        0 < n,
    ensures
        assigned_hunks(commits, hunks, rows, n) == assigned_hunks(commits, hunks, rows, n - 1)
            + assigned_lines(
            commits,
            hunks[n - 1].lines@,
            rows[n - 1],
            hunks[n - 1].lines@.len() as int,
        ),
    decreases commits,
{
    if commits > 0 {
        lemma_one_hunk(commits - 1, hunks, rows, n);
    }
}

proof fn lemma_no_hunks(commits: int, hunks: Seq<Hunk>, rows: Seq<Seq<Option<usize>>>)
    ensures
        assigned_hunks(commits, hunks, rows, 0) == 0,
    decreases commits,
{
    if commits > 0 {
        lemma_no_hunks(commits - 1, hunks, rows);
    }
}

proof fn lemma_hunks_add_up(
    commits: int,
    hunks: Seq<Hunk>,
    rows: Seq<Seq<Option<usize>>>,
    n: int,
)
    requires
        0 <= n <= hunks.len(),
        0 <= commits <= usize::MAX,
        forall|h: int, l: int|
            0 <= h < hunks.len() && 0 <= l < hunks[h].lines@.len() && hunks[h].lines@[l].change()
                ==> (#[trigger] rows[h][l] matches Some(k) ==> k < commits),
    ensures
        app::tally_hunks(Tally::Open, hunks, rows, n) + assigned_hunks(commits, hunks, rows, n)
            == app::tally_hunks(Tally::Change, hunks, rows, n),
    decreases n,
{
    if n > 0 {
        lemma_hunks_add_up(commits, hunks, rows, n - 1);
        lemma_one_hunk(commits, hunks, rows, n);
        lemma_lines_add_up(
            commits,
            hunks[n - 1].lines@,
            rows[n - 1],
            hunks[n - 1].lines@.len() as int,
        );
    } else {
        lemma_no_hunks(commits, hunks, rows);
    }
}

proof fn lemma_one_file(
    commits: int,
    files: Seq<FileDiff>,
    assign: Seq<Seq<Seq<Option<usize>>>>,
    n: int,
)
    requires
        0 < n,
    ensures
        assigned_files(commits, files, assign, n) == assigned_files(commits, files, assign, n - 1)
            + assigned_hunks(
            commits,
            files[n - 1].hunks@,
            assign[n - 1],
            files[n - 1].hunks@.len() as int,
        ),
    decreases commits,
{
    if commits > 0 {
        lemma_one_file(commits - 1, files, assign, n);
    }
}

proof fn lemma_no_files(
    commits: int,
    files: Seq<FileDiff>,
    assign: Seq<Seq<Seq<Option<usize>>>>,
)
    ensures
        assigned_files(commits, files, assign, 0) == 0,
    decreases commits,
{
    if commits > 0 {
        lemma_no_files(commits - 1, files, assign);
    }
}

/// Only commits that there are have changes.
pub open spec fn changes_named(
    files: Seq<FileDiff>,
    assign: Seq<Seq<Seq<Option<usize>>>>,
    commits: int,
) -> bool {
    forall|f: int, h: int, l: int|
        0 <= f < files.len() && 0 <= h < files[f].hunks@.len() && 0 <= l
            < files[f].hunks@[h].lines@.len() && files[f].hunks@[h].lines@[l].change() ==> (
        #[trigger] assign[f][h][l] matches Some(k) ==> k < commits)
}

proof fn lemma_files_add_up(
    commits: int,
    files: Seq<FileDiff>,
    assign: Seq<Seq<Seq<Option<usize>>>>,
    n: int,
)
    requires
        0 <= n <= files.len(),
        0 <= commits <= usize::MAX,
        changes_named(files, assign, commits),
    ensures
        app::tally_files(Tally::Open, files, assign, n) + assigned_files(commits, files, assign, n)
            == app::tally_files(Tally::Change, files, assign, n),
    decreases n,
{
    if n > 0 {
        lemma_files_add_up(commits, files, assign, n - 1);
        lemma_one_file(commits, files, assign, n);
        lemma_hunks_add_up(
            commits,
            files[n - 1].hunks@,
            assign[n - 1],
            files[n - 1].hunks@.len() as int,
        );
    } else {
        lemma_no_files(commits, files, assign);
    }
}

proof fn lemma_stats_are_sums(
    commits: int,
    files: Seq<FileDiff>,
    assign: Seq<Seq<Seq<Option<usize>>>>,
)
    ensures
        all_stats(commits, files, assign) == assigned_files(
            commits,
            files,
            assign,
            files.len() as int,
        ),
    decreases commits,
{
    if commits > 0 {
        lemma_stats_are_sums(commits - 1, files, assign);
    }
}

/// Every change is counted once: the changes that are not assigned, and those
/// that the commits add and remove, are all the changes.
pub proof fn law_counts_add_up(
    files: Seq<FileDiff>,
    assign: Seq<Seq<Seq<Option<usize>>>>,
    commits: int,
)
    requires
        0 <= commits <= usize::MAX,
        changes_named(files, assign, commits),
    ensures
        app::tally(Tally::Open, files, assign) + all_stats(commits, files, assign) == app::tally(
            Tally::Change,
            files,
            assign,
        ),
{
    lemma_files_add_up(commits, files, assign, files.len() as int);
    lemma_stats_are_sums(commits, files, assign);
}

// ---------------------------------------------------------------------------
// The sum over the pending hunks.

/// The open lines of the first `n` hunks of a list.
pub open spec fn open_in(
    files: Seq<FileDiff>,
    assign: Seq<Seq<Seq<Option<usize>>>>,
    list: Seq<(usize, usize)>,
    n: int,
) -> nat
    decreases n,
{
    if n <= 0 {
        0
    } else {
        open_in(files, assign, list, n - 1) + app::open_lines_of(
            files,
            assign,
            list[n - 1].0 as int,
            list[n - 1].1 as int,
        ).len()
    }
}

proof fn lemma_open_in_joined(
    files: Seq<FileDiff>,
    assign: Seq<Seq<Seq<Option<usize>>>>,
    a: Seq<(usize, usize)>,
    b: Seq<(usize, usize)>,
    n: int,
)
    requires
        0 <= n <= a.len() + b.len(),
    ensures
        open_in(files, assign, a + b, n) == if n <= a.len() {
            open_in(files, assign, a, n)
        } else {
            open_in(files, assign, a, a.len() as int) + open_in(files, assign, b, n - a.len())
        },
    decreases n,
{
    if n > 0 {
        lemma_open_in_joined(files, assign, a, b, n - 1);
        if n <= a.len() {
            assert((a + b)[n - 1] == a[n - 1]);
        } else {
            assert((a + b)[n - 1] == b[n - 1 - a.len()]);
        }
    }
}

proof fn lemma_open_lines_counted(lines: Seq<DiffLine>, row: Seq<Option<usize>>, n: int)
    ensures
        app::tally_lines(Tally::Open, lines, row, n) == app::open_lines(lines, row, n).len(),
    decreases n,
{
    if n > 0 {
        lemma_open_lines_counted(lines, row, n - 1);
    }
}

/// A hunk has open lines if and only if it is open.
proof fn lemma_open_hunk_counted(hunk: Hunk, row: Seq<Option<usize>>, n: int)
    requires
        0 <= n <= hunk.lines@.len(),
    ensures
        app::tally_lines(Tally::Open, hunk.lines@, row, n) > 0 <==> exists|l: int|
            0 <= l < n && app::open_line(hunk.lines@[l], #[trigger] row[l]),
    decreases n,
{
    if n > 0 {
        lemma_open_hunk_counted(hunk, row, n - 1);
        let lines = hunk.lines@;
        if app::open_line(lines[n - 1], row[n - 1]) {
            assert(app::tallied(Tally::Open, lines[n - 1], row[n - 1]));
        }
    }
}

proof fn lemma_pending_in_counted(
    files: Seq<FileDiff>,
    assign: Seq<Seq<Seq<Option<usize>>>>,
    f: int,
    n: int,
)
    requires
        0 <= f < files.len() <= usize::MAX,
        0 <= n <= files[f].hunks@.len(),
    ensures
        ({
            let list = app::pending_in(files, assign, f, n);
            let count = app::tally_hunks(Tally::Open, files[f].hunks@, assign[f], n);
            &&& open_in(files, assign, list, list.len() as int) == count
            &&& count == 0 <==> list.len() == 0
        }),
    decreases n,
{
    if n > 0 {
        let hunk = files[f].hunks@[n - 1];
        let row = assign[f][n - 1];
        let m = hunk.lines@.len() as int;
        let before = app::pending_in(files, assign, f, n - 1);
        assert(files[f].hunks.len() == files[f].hunks@.len());
        lemma_pending_in_counted(files, assign, f, n - 1);
        lemma_open_lines_counted(hunk.lines@, row, m);
        lemma_open_hunk_counted(hunk, row, m);
        if app::open_hunk(hunk, row) {
            let one = seq![(f as usize, (n - 1) as usize)];
            assert(before.push((f as usize, (n - 1) as usize)) =~= before + one);
            lemma_open_in_joined(files, assign, before, one, before.len() as int + 1);
            lemma_open_one(files, assign, one);
        }
    }
}

proof fn lemma_open_one(
    files: Seq<FileDiff>,
    assign: Seq<Seq<Seq<Option<usize>>>>,
    one: Seq<(usize, usize)>,
)
    requires
        one.len() == 1,
    ensures
        open_in(files, assign, one, 1) == app::open_lines_of(
            files,
            assign,
            one[0].0 as int,
            one[0].1 as int,
        ).len(),
{
    assert(open_in(files, assign, one, 0) == 0);
}

proof fn lemma_pending_counted(
    files: Seq<FileDiff>,
    assign: Seq<Seq<Seq<Option<usize>>>>,
    n: int,
)
    requires
        0 <= n <= files.len() <= usize::MAX,
    ensures
        ({
            let list = app::pending_upto(files, assign, n);
            let count = app::tally_files(Tally::Open, files, assign, n);
            &&& open_in(files, assign, list, list.len() as int) == count
            &&& count == 0 <==> list.len() == 0
        }),
    decreases n,
{
    if n > 0 {
        let m = files[n - 1].hunks@.len() as int;
        let before = app::pending_upto(files, assign, n - 1);
        let here = app::pending_in(files, assign, n - 1, m);
        lemma_pending_counted(files, assign, n - 1);
        lemma_pending_in_counted(files, assign, n - 1, m);
        lemma_open_in_joined(files, assign, before, here, (before.len() + here.len()) as int);
        if here.len() == 0 {
            assert(before + here =~= before);
        }
    }
}

/// The changes that are not assigned are the open lines of the pending hunks,
/// and there are none exactly when no hunk is pending.
pub proof fn law_open_lines_are_pending(
    files: Seq<FileDiff>,
    assign: Seq<Seq<Seq<Option<usize>>>>,
)
    requires
        files.len() <= usize::MAX,
    ensures
        app::tally(Tally::Open, files, assign) == open_in(
            files,
            assign,
            app::pending_hunks(files, assign),
            app::pending_hunks(files, assign).len() as int,
        ),
        app::tally(Tally::Open, files, assign) == 0 <==> app::pending_hunks(files, assign).len()
            == 0,
{
    lemma_pending_counted(files, assign, files.len() as int);
}

// ---------------------------------------------------------------------------
// Commits with lines.

proof fn lemma_lines_counted(
    what: Tally,
    lines: Seq<DiffLine>,
    row: Seq<Option<usize>>,
    n: int,
)
    ensures
        app::tally_lines(what, lines, row, n) > 0 <==> exists|l: int|
            0 <= l < n && app::tallied(what, lines[l], #[trigger] row[l]),
    decreases n,
{
    if n > 0 {
        lemma_lines_counted(what, lines, row, n - 1);
        if app::tallied(what, lines[n - 1], row[n - 1]) {
        } else if app::tally_lines(what, lines, row, n) > 0 {
            let l = choose|l: int|
                0 <= l < n - 1 && app::tallied(what, lines[l], #[trigger] row[l]);
            assert(app::tallied(what, lines[l], row[l]));
        }
    }
}

proof fn lemma_hunks_counted(
    what: Tally,
    hunks: Seq<Hunk>,
    rows: Seq<Seq<Option<usize>>>,
    n: int,
)
    ensures
        app::tally_hunks(what, hunks, rows, n) > 0 <==> exists|h: int, l: int|
            0 <= h < n && 0 <= l < hunks[h].lines@.len() && app::tallied(
                what,
                hunks[h].lines@[l],
                #[trigger] rows[h][l],
            ),
    decreases n,
{
    if n > 0 {
        lemma_hunks_counted(what, hunks, rows, n - 1);
        let lines = hunks[n - 1].lines@;
        let row = rows[n - 1];
        let m = lines.len() as int;
        lemma_lines_counted(what, lines, row, m);
        if app::tally_lines(what, lines, row, m) > 0 {
            let l = choose|l: int| 0 <= l < m && app::tallied(what, lines[l], #[trigger] row[l]);
            assert(app::tallied(what, hunks[n - 1].lines@[l], rows[n - 1][l]));
        } else if exists|h: int, l: int|
            0 <= h < n && 0 <= l < hunks[h].lines@.len() && app::tallied(
                what,
                hunks[h].lines@[l],
                #[trigger] rows[h][l],
            ) {
            let (h, l) = choose|h: int, l: int|
                0 <= h < n && 0 <= l < hunks[h].lines@.len() && app::tallied(
                    what,
                    hunks[h].lines@[l],
                    #[trigger] rows[h][l],
                );
            if h == n - 1 {
                assert(app::tallied(what, lines[l], row[l]));
            }
        }
    }
}

/// Whether a line of the first `n` files counts.
spec fn some_counted(
    what: Tally,
    files: Seq<FileDiff>,
    assign: Seq<Seq<Seq<Option<usize>>>>,
    n: int,
) -> bool {
    exists|f: int, h: int, l: int|
        0 <= f < n && 0 <= h < files[f].hunks@.len() && 0 <= l < files[f].hunks@[h].lines@.len()
            && app::tallied(what, files[f].hunks@[h].lines@[l], #[trigger] assign[f][h][l])
}

proof fn lemma_files_counted(
    what: Tally,
    files: Seq<FileDiff>,
    assign: Seq<Seq<Seq<Option<usize>>>>,
    n: int,
)
    ensures
        app::tally_files(what, files, assign, n) > 0 <==> some_counted(what, files, assign, n),
    decreases n,
{
    if n > 0 {
        lemma_files_counted(what, files, assign, n - 1);
        let hunks = files[n - 1].hunks@;
        let rows = assign[n - 1];
        let m = hunks.len() as int;
        lemma_hunks_counted(what, hunks, rows, m);
        if app::tally_hunks(what, hunks, rows, m) > 0 {
            let (h, l) = choose|h: int, l: int|
                0 <= h < m && 0 <= l < hunks[h].lines@.len() && app::tallied(
                    what,
                    hunks[h].lines@[l],
                    #[trigger] rows[h][l],
                );
            assert(app::tallied(what, files[n - 1].hunks@[h].lines@[l], assign[n - 1][h][l]));
        } else if some_counted(what, files, assign, n) {
            let (f, h, l) = choose|f: int, h: int, l: int|
                0 <= f < n && 0 <= h < files[f].hunks@.len() && 0 <= l
                    < files[f].hunks@[h].lines@.len() && app::tallied(
                    what,
                    files[f].hunks@[h].lines@[l],
                    #[trigger] assign[f][h][l],
                );
            if f == n - 1 {
                assert(app::tallied(what, hunks[h].lines@[l], rows[h][l]));
            } else {
                assert(app::tallied(what, files[f].hunks@[h].lines@[l], assign[f][h][l]));
            }
        }
        if some_counted(what, files, assign, n - 1) {
            let (f, h, l) = choose|f: int, h: int, l: int|
                0 <= f < n - 1 && 0 <= h < files[f].hunks@.len() && 0 <= l
                    < files[f].hunks@[h].lines@.len() && app::tallied(
                    what,
                    files[f].hunks@[h].lines@[l],
                    #[trigger] assign[f][h][l],
                );
            assert(app::tallied(what, files[f].hunks@[h].lines@[l], assign[f][h][l]));
        }
    }
}

/// Whether a commit adds or removes a line.
pub open spec fn has_stats(files: Seq<FileDiff>, s: AppView, ci: int) -> bool {
    app::tally(Tally::AddedIn(ci as usize), files, s.assign) > 0 || app::tally(
        Tally::RemovedIn(ci as usize),
        files,
        s.assign,
    ) > 0
}

/// In a session, a commit has a line exactly when it adds or removes one.
pub proof fn law_used_commits_have_stats(files: Seq<FileDiff>, s: AppView, ci: int)
    requires
        steps::sound(files, s),
    ensures
        plan_laws::used(s.assign, files.len() as int, ci) <==> has_stats(files, s, ci),
{
    let n = files.len() as int;
    let c = ci as usize;
    let adds = Tally::AddedIn(c);
    let dels = Tally::RemovedIn(c);
    lemma_files_counted(adds, files, s.assign, n);
    lemma_files_counted(dels, files, s.assign, n);
    if plan_laws::used(s.assign, n, ci) {
        let f = choose|f: int| 0 <= f < n && model::touched(#[trigger] s.assign[f], ci);
        let rows = s.assign[f];
        assert(steps::shaped_file(files[f].hunks@, rows));
        let (h, l) = choose|h: int, l: int|
            0 <= h < rows.len() && 0 <= l < rows[h].len() && #[trigger] rows[h][l] == Some(c);
        let line = files[f].hunks@[h].lines@[l];
        assert(s.assign[f][h][l] == Some(c));
        assert(line.change());
        if line.kind == LineKind::Add {
            assert(app::tallied(adds, line, s.assign[f][h][l]));
        } else {
            assert(app::tallied(dels, line, s.assign[f][h][l]));
        }
    }
    if some_counted(adds, files, s.assign, n) {
        lemma_counted_is_used(adds, files, s, ci);
    }
    if some_counted(dels, files, s.assign, n) {
        lemma_counted_is_used(dels, files, s, ci);
    }
}

proof fn lemma_counted_is_used(what: Tally, files: Seq<FileDiff>, s: AppView, ci: int)
    requires
        steps::sound(files, s),
        what == Tally::AddedIn(ci as usize) || what == Tally::RemovedIn(ci as usize),
        some_counted(what, files, s.assign, files.len() as int),
    ensures
        plan_laws::used(s.assign, files.len() as int, ci),
{
    let (f, h, l) = choose|f: int, h: int, l: int|
        0 <= f < files.len() && 0 <= h < files[f].hunks@.len() && 0 <= l
            < files[f].hunks@[h].lines@.len() && app::tallied(
            what,
            files[f].hunks@[h].lines@[l],
            #[trigger] s.assign[f][h][l],
        );
    let rows = s.assign[f];
    assert(steps::shaped_file(files[f].hunks@, rows));
    assert(rows[h].len() == files[f].hunks@[h].lines@.len());
    assert(rows[h][l] == Some(ci as usize));
    assert(model::touched(rows, ci));
}

/// The messages of those of the first `n` commits that add or remove a line.
pub open spec fn messages_with_stats(files: Seq<FileDiff>, s: AppView, n: int) -> Seq<Seq<char>>
    decreases n,
{
    if n <= 0 {
        Seq::<Seq<char>>::empty()
    } else if has_stats(files, s, n - 1) {
        messages_with_stats(files, s, n - 1).push(s.commits[n - 1])
    } else {
        messages_with_stats(files, s, n - 1)
    }
}

/// The messages of planned commits.
pub open spec fn messages(plan: Seq<CommitView>) -> Seq<Seq<char>> {
    Seq::new(plan.len(), |i: int| plan[i].message)
}

proof fn lemma_messages(
    files: Seq<FileDiff>,
    bases: Map<Seq<char>, Vec<u8>>,
    s: AppView,
    n: int,
)
    requires
        steps::sound(files, s),
        0 <= n <= s.commits.len(),
    ensures
        messages(
            model::planned_commits(files, s.assign, bases, steps::local_commits(s.commits), n),
        ) == messages_with_stats(files, s, n),
        forall|i: int|
            0 <= i < model::planned_commits(
                files,
                s.assign,
                bases,
                steps::local_commits(s.commits),
                n,
            ).len() ==> (#[trigger] model::planned_commits(
                files,
                s.assign,
                bases,
                steps::local_commits(s.commits),
                n,
            )[i]).branch is None,
    decreases n,
{
    let specs: Seq<SpecView> = steps::local_commits(s.commits);
    let plan = model::planned_commits(files, s.assign, bases, specs, n);
    if n > 0 {
        let before = model::planned_commits(files, s.assign, bases, specs, n - 1);
        lemma_messages(files, bases, s, n - 1);
        law_used_commits_have_stats(files, s, n - 1);
        plan_laws::lemma_changes_of_used(
            files,
            s.assign,
            bases,
            specs,
            n - 1,
            files.len() as int,
        );
        if has_stats(files, s, n - 1) {
            assert(messages(plan) =~= messages(before).push(s.commits[n - 1]));
        }
    } else {
        assert(messages(plan) =~= Seq::<Seq<char>>::empty());
    }
}

/// The plan of a session has the commits that add or remove a line, in the order
/// of the list, and skips the others; all go onto the branch that is checked out.
pub proof fn law_plan_has_the_commits_with_stats(
    files: Seq<FileDiff>,
    bases: Map<Seq<char>, Vec<u8>>,
    s: AppView,
)
    requires
        steps::sound(files, s),
    ensures
        ({
            let plan = model::planned_commits(
                files,
                s.assign,
                bases,
                steps::local_commits(s.commits),
                s.commits.len() as int,
            );
            &&& messages(plan) == messages_with_stats(files, s, s.commits.len() as int)
            &&& forall|i: int| 0 <= i < plan.len() ==> (#[trigger] plan[i]).branch is None
        }),
{
    lemma_messages(files, bases, s, s.commits.len() as int);
}

/// In a session, every change is counted once.
pub proof fn law_session_counts_add_up(files: Seq<FileDiff>, s: AppView)
    requires
        steps::sound(files, s),
        s.commits.len() <= usize::MAX,
    ensures
        app::tally(Tally::Open, files, s.assign) + all_stats(
            s.commits.len() as int,
            files,
            s.assign,
        ) == app::tally(Tally::Change, files, s.assign),
{
    law_counts_add_up(files, s.assign, s.commits.len() as int);
}

} // verus!
