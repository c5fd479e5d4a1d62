//! Which lines a key assigns to which commit, and what it leads to.
use vstd::prelude::*;

use crate::app;
use crate::app::{AppView, KeyCode, KeyEvent, ModeView, OutcomeView};
use crate::diff::{DiffLine, FileDiff, LineKind};
use crate::key_laws;
use crate::steps;
use crate::text;

verus! {

// ---------------------------------------------------------------------------
// The hunk that is shown.

/// Whether a line is a change that no commit has.
pub open spec fn free(line: DiffLine, a: Option<usize>) -> bool {
    line.kind != LineKind::Context && a is None
}

/// Whether a hunk has a change that no commit has.
pub open spec fn waits(lines: Seq<DiffLine>, row: Seq<Option<usize>>) -> bool {
    exists|l: int| 0 <= l < lines.len() && free(lines[l], #[trigger] row[l])
}

/// How many of the first `n` hunks of a file have such a change.
pub open spec fn waiting_in(
    file: FileDiff,
    rows: Seq<Seq<Option<usize>>>,
    n: int,
) -> int
    decreases n,
{
    if n <= 0 {
        0
    } else {
        waiting_in(file, rows, n - 1) + if waits(file.hunks@[n - 1].lines@, rows[n - 1]) {
            1int
        } else {
            0int
        }
    }
}

/// How many hunks of the first `n` files have such a change.
pub open spec fn waiting(
    files: Seq<FileDiff>,
    assign: Seq<Seq<Seq<Option<usize>>>>,
    n: int,
) -> int
    decreases n,
{
    if n <= 0 {
        0
    } else {
        waiting(files, assign, n - 1) + waiting_in(
            files[n - 1],
            assign[n - 1],
            files[n - 1].hunks@.len() as int,
        )
    }
}

/// Whether hunk `h` of file `f` is the one that is shown: it has a change that no
/// commit has, and the position says how many such hunks come before it.
pub open spec fn shown(files: Seq<FileDiff>, s: AppView, f: int, h: int) -> bool {
    &&& 0 <= f < files.len()
    &&& 0 <= h < files[f].hunks@.len()
    &&& waits(files[f].hunks@[h].lines@, s.assign[f][h])
    &&& waiting(files, s.assign, f) + waiting_in(files[f], s.assign[f], h) == s.pos
}

proof fn lemma_waits(lines: Seq<DiffLine>, row: Seq<Option<usize>>, hunk: crate::diff::Hunk)
    requires
        hunk.lines@ == lines,
    ensures
        waits(lines, row) == app::open_hunk(hunk, row),
{
    if waits(lines, row) {
        let l = choose|l: int| 0 <= l < lines.len() && free(lines[l], #[trigger] row[l]);
        assert(app::open_line(hunk.lines@[l], row[l]));
    }
    if app::open_hunk(hunk, row) {
        let l = choose|l: int|
            0 <= l < hunk.lines@.len() && app::open_line(hunk.lines@[l], #[trigger] row[l]);
        assert(free(lines[l], row[l]));
    }
}

proof fn lemma_waiting_in(
    files: Seq<FileDiff>,
    assign: Seq<Seq<Seq<Option<usize>>>>,
    f: int,
    n: int,
    h: int,
)
    requires
        0 <= n,
    ensures
        app::pending_in(files, assign, f, n).len() == waiting_in(files[f], assign[f], n),
        waiting_in(files[f], assign[f], n) >= 0,
        0 <= h < n && waits(files[f].hunks@[h].lines@, assign[f][h]) ==> 0 <= waiting_in(
            files[f],
            assign[f],
            h,
        ) < waiting_in(files[f], assign[f], n) && app::pending_in(files, assign, f, n)[waiting_in(
            files[f],
            assign[f],
            h,
        )] == (f as usize, h as usize),
    decreases n,
{
    if n > 0 {
        lemma_waiting_in(files, assign, f, n - 1, h);
        lemma_waits(files[f].hunks@[n - 1].lines@, assign[f][n - 1], files[f].hunks@[n - 1]);
    }
}

pub proof fn lemma_waiting(
    files: Seq<FileDiff>,
    assign: Seq<Seq<Seq<Option<usize>>>>,
    n: int,
    f: int,
    h: int,
)
    requires
        0 <= n <= files.len(),
    ensures
        app::pending_upto(files, assign, n).len() == waiting(files, assign, n),
        waiting(files, assign, n) >= 0,
        0 <= f < n && 0 <= h < files[f].hunks@.len() && waits(
            files[f].hunks@[h].lines@,
            assign[f][h],
        ) ==> ({
            let i = waiting(files, assign, f) + waiting_in(files[f], assign[f], h);
            0 <= i < waiting(files, assign, n) && app::pending_upto(files, assign, n)[i] == (
                f as usize,
                h as usize,
            )
        }),
    decreases n,
{
    if n > 0 {
        lemma_waiting(files, assign, n - 1, f, h);
        lemma_waiting_in(files, assign, n - 1, files[n - 1].hunks@.len() as int, h);
    }
}

/// The hunk that is shown is the one that keys speak of, and there is one as long
/// as a change is assigned to no commit.
pub proof fn law_current_hunk_is_shown(files: Seq<FileDiff>, s: AppView, f: int, h: int)
    requires
        shown(files, s, f, h),
    ensures
        steps::current(files, s) == Some((f as usize, h as usize)),
        s.pos < waiting(files, s.assign, files.len() as int),
{
    lemma_waiting(files, s.assign, files.len() as int, f, h);
}

/// The hunks that have a change that no commit has are listed in the order of the
/// files and of their hunks, each at the place that says how many come before it,
/// and no others.
pub proof fn law_waiting_hunks_are_listed(
    files: Seq<FileDiff>,
    assign: Seq<Seq<Seq<Option<usize>>>>,
    f: int,
    h: int,
)
    requires
        0 <= f < files.len(),
        0 <= h < files[f].hunks@.len(),
    ensures
        app::pending_hunks(files, assign).len() == waiting(files, assign, files.len() as int),
        waits(files[f].hunks@[h].lines@, assign[f][h]) ==> ({
            let i = waiting(files, assign, f) + waiting_in(files[f], assign[f], h);
            0 <= i < app::pending_hunks(files, assign).len() && app::pending_hunks(files, assign)[i]
                == (f as usize, h as usize)
        }),
{
    lemma_waiting(files, assign, files.len() as int, f, h);
}

/// A position beyond the last such hunk stands for the last one, and there is no
/// hunk to show when there is none.
pub proof fn law_positions_beyond_the_last(files: Seq<FileDiff>, s: AppView, f: int, h: int)
    requires
        0 <= f < files.len(),
        0 <= h < files[f].hunks@.len(),
        s.pos >= waiting(files, s.assign, files.len() as int),
    ensures
        waits(files[f].hunks@[h].lines@, s.assign[f][h]) && waiting(files, s.assign, f)
            + waiting_in(files[f], s.assign[f], h) + 1 == waiting(
            files,
            s.assign,
            files.len() as int,
        ) ==> steps::current(files, s) == Some((f as usize, h as usize)),
        waiting(files, s.assign, files.len() as int) == 0 ==> steps::current(files, s) is None,
{
    lemma_waiting(files, s.assign, files.len() as int, f, h);
}

/// The changes of a hunk that no commit has are listed by their numbers, in
/// ascending order, and no other lines are.
pub proof fn law_free_lines_are_listed(
    files: Seq<FileDiff>,
    assign: Seq<Seq<Seq<Option<usize>>>>,
    f: int,
    h: int,
    l: int,
    i: int,
    j: int,
)
    requires
        0 <= f < files.len(),
        0 <= h < files[f].hunks@.len(),
        0 <= l < files[f].hunks@[h].lines@.len(),
    ensures
        ({
            let list = app::open_lines_of(files, assign, f, h);
            &&& list.contains(l as usize) <==> free(files[f].hunks@[h].lines@[l], assign[f][h][l])
            &&& 0 <= i < j < list.len() ==> list[i] < list[j]
            &&& 0 <= i < list.len() ==> list[i] < files[f].hunks@[h].lines@.len()
        }),
{
    let lines = files[f].hunks@[h].lines@;
    let row = assign[f][h];
    assert(files[f].hunks@[h].lines.len() == lines.len());
    app::lemma_open_lines(lines, row, lines.len() as int);
    let list = app::open_lines(lines, row, lines.len() as int);
    if list.contains(l as usize) {
        let k = choose|k: int| 0 <= k < list.len() && list[k] == l as usize;
        assert(app::open_line(lines[list[k] as int], row[list[k] as int]));
    }
    if free(lines[l], row[l]) {
        assert(app::open_line(lines[l], row[l]));
    }
}

/// The key that is shown for a commit is its key.
pub proof fn law_keys_of_commits(ci: int)
    requires
        0 <= ci,
    ensures
        steps::label(ci) == key_of(ci),
{
}

// ---------------------------------------------------------------------------
// Assigning.

/// The assignments `after` are those before with the lines chosen of hunk `h` of
/// file `f` given to commit `ci`, and nothing else.
pub open spec fn given_to(
    files: Seq<FileDiff>,
    before: Seq<Seq<Seq<Option<usize>>>>,
    after: Seq<Seq<Seq<Option<usize>>>>,
    f: int,
    h: int,
    ci: int,
    chosen: spec_fn(int) -> bool,
) -> bool {
    &&& after.len() == before.len()
    &&& forall|g: int| 0 <= g < files.len() ==> (#[trigger] after[g]).len() == before[g].len()
    &&& forall|g: int, i: int|
        0 <= g < files.len() && 0 <= i < files[g].hunks@.len() ==> (#[trigger] after[g][i]).len()
            == before[g][i].len()
    &&& forall|g: int, i: int, l: int|
        0 <= g < files.len() && 0 <= i < files[g].hunks@.len() && 0 <= l
            < files[g].hunks@[i].lines@.len() ==> #[trigger] after[g][i][l] == if g == f && i == h
            && chosen(l) {
            Some(ci as usize)
        } else {
            before[g][i][l]
        }
}

/// Where a session goes from an assignment: to the review when no change is left,
/// else on browsing, at the same position as far as there are so many hunks.
pub open spec fn goes_on(files: Seq<FileDiff>, s: AppView, t: AppView) -> bool {
    let n = waiting(files, t.assign, files.len() as int);
    &&& t.scroll == 0
    &&& n == 0 ==> t.mode == (ModeView::Review { sel: 0, edit: None }) && t.pos == s.pos
    &&& n > 0 ==> t.mode is Browse && t.pos == if s.pos < n {
        s.pos as int
    } else {
        n - 1
    }
    &&& t.request_commit == s.request_commit
    &&& t.outcome == s.outcome
    &&& t.ext_input is None
}

/// How many of the first `n` numbers are chosen.
pub open spec fn how_many(chosen: spec_fn(int) -> bool, n: int) -> nat
    decreases n,
{
    if n <= 0 {
        0
    } else {
        how_many(chosen, n - 1) + if chosen(n - 1) {
            1nat
        } else {
            0nat
        }
    }
}

/// What is said of lines that were given to a commit.
pub open spec fn told(n: nat, ci: int, message: Seq<char>) -> Seq<char> {
    text::decimal(n) + " line(s) -> ["@ + key_of(ci) + "] "@ + message
}

/// The key of a commit: its number, counted from one, after a zero if it has more
/// than one digit.
pub open spec fn key_of(ci: int) -> Seq<char> {
    if ci + 1 < 10 {
        text::decimal((ci + 1) as nat)
    } else {
        "0"@ + text::decimal((ci + 1) as nat)
    }
}

proof fn lemma_assigned(
    files: Seq<FileDiff>,
    s: AppView,
    f: int,
    h: int,
    ci: usize,
    lines: Option<Seq<usize>>,
    chosen: spec_fn(int) -> bool,
)
    requires
        files.len() <= usize::MAX,
        steps::shaped(files, s.assign),
        shown(files, s, f, h),
        s.ext_input is None,
        lines matches Some(t) ==> forall|l: int|
            0 <= l < files[f].hunks@[h].lines@.len() ==> #[trigger] chosen(l) == t.contains(
                l as usize,
            ),
        lines is None ==> forall|l: int|
            0 <= l < files[f].hunks@[h].lines@.len() ==> #[trigger] chosen(l) == free(
                files[f].hunks@[h].lines@[l],
                s.assign[f][h][l],
            ),
    ensures
        ({
            let t = steps::assign_current(files, s, ci, lines);
            &&& given_to(files, s.assign, t.assign, f, h, ci as int, chosen)
            &&& goes_on(files, s, t)
            &&& t.commits == s.commits
            &&& t.status == Some(
                told(
                    match lines {
                        Some(x) => x.len(),
                        None => how_many(chosen, files[f].hunks@[h].lines@.len() as int),
                    },
                    ci as int,
                    s.commits[ci as int],
                ),
            )
        }),
{
    law_current_hunk_is_shown(files, s, f, h);
    assert(files[f].hunks.len() == files[f].hunks@.len());
    assert(files[f].hunks@[h].lines.len() == files[f].hunks@[h].lines@.len());
    assert(steps::shaped_file(files[f].hunks@, s.assign[f]));
    let ls = files[f].hunks@[h].lines@;
    let row = s.assign[f][h];
    app::lemma_open_lines(ls, row, ls.len() as int);
    let targets = match lines {
        Some(t) => t,
        None => app::open_lines_of(files, s.assign, f, h),
    };
    assert forall|l: int| 0 <= l < ls.len() implies #[trigger] chosen(l) == targets.contains(
        l as usize,
    ) by {
        if lines is None {
            if free(ls[l], row[l]) {
                assert(app::open_line(ls[l], row[l]));
            }
        }
    }
    if lines is None {
        lemma_open_count(ls, row, chosen, ls.len() as int);
    }
    let t = steps::assign_current(files, s, ci, lines);
    lemma_waiting(files, t.assign, files.len() as int, 0, 0);
    let new = steps::assigned_row(row, targets, ci);
    assert(t.assign == steps::with_row(s.assign, f, h, new));
    assert forall|g: int, i: int|
        0 <= g < files.len() && 0 <= i < files[g].hunks@.len() implies (
    #[trigger] t.assign[g][i]).len() == s.assign[g][i].len() by {
        assert(steps::shaped_file(files[g].hunks@, s.assign[g]));
    }
    assert forall|g: int, i: int, l: int|
        0 <= g < files.len() && 0 <= i < files[g].hunks@.len() && 0 <= l
            < files[g].hunks@[i].lines@.len() implies #[trigger] t.assign[g][i][l] == if g == f
        && i == h && chosen(l) {
        Some(ci)
    } else {
        s.assign[g][i][l]
    } by {
        assert(steps::shaped_file(files[g].hunks@, s.assign[g]));
    }
}

proof fn lemma_open_count(
    lines: Seq<DiffLine>,
    row: Seq<Option<usize>>,
    chosen: spec_fn(int) -> bool,
    n: int,
)
    requires
        n <= lines.len(),
        forall|l: int| 0 <= l < lines.len() ==> #[trigger] chosen(l) == free(lines[l], row[l]),
    ensures
        app::open_lines(lines, row, n).len() == how_many(chosen, n),
    decreases n,
{
    if n > 0 {
        lemma_open_count(lines, row, chosen, n - 1);
        assert(chosen(n - 1) == free(lines[n - 1], row[n - 1]));
    }
}

/// A set is as large as the list of its members.
proof fn lemma_ascending_len(s: Set<usize>, n: int)
    requires
        0 <= n <= usize::MAX + 1,
        s.finite(),
        forall|x: usize| #[trigger] s.contains(x) ==> x < n,
    ensures
        steps::members_below(s, n).len() == s.len(),
    decreases n,
{
    if n > 0 {
        let x = (n - 1) as usize;
        if s.contains(x) {
            let r = s.remove(x);
            lemma_ascending_len(r, n - 1);
            lemma_members_without(s, x, n - 1);
        } else {
            lemma_ascending_len(s, n - 1);
        }
    } else {
        assert(s =~= Set::<usize>::empty());
    }
}

proof fn lemma_members_without(s: Set<usize>, x: usize, n: int)
    requires
        n <= x,
    ensures
        steps::members_below(s.remove(x), n) == steps::members_below(s, n),
    decreases n,
{
    if n > 0 {
        lemma_members_without(s, x, n - 1);
    }
}

/// What the key of commit `ci` leads to: its digit, or a zero and its number, with
/// the enter key where a longer number could be meant.
pub open spec fn keyed(files: Seq<FileDiff>, s: AppView, ci: int) -> AppView {
    let t = key_laws::typed(files, s, key_of(ci));
    if ci + 1 < 10 || (ci + 1) * 10 > s.commits.len() {
        t
    } else {
        steps::pressed(files, t, key_laws::key(KeyCode::Enter))
    }
}

/// While browsing, the key of a commit gives it each change of the hunk that is
/// shown that no commit has, and nothing else.
pub proof fn law_commit_key_takes_the_hunk(
    files: Seq<FileDiff>,
    s: AppView,
    f: int,
    h: int,
    ci: int,
)
    requires
        files.len() <= usize::MAX,
        steps::sound(files, s),
        s.mode is Browse,
        s.ext_input is None,
        shown(files, s, f, h),
        0 <= ci < s.commits.len() <= usize::MAX,
    ensures
        ({
            let t = keyed(files, s, ci);
            let lines = files[f].hunks@[h].lines@;
            let chosen = |l: int| free(lines[l], s.assign[f][h][l]);
            &&& given_to(files, s.assign, t.assign, f, h, ci, chosen)
            &&& goes_on(files, s, t)
            &&& t.commits == s.commits
            &&& t.status == Some(
                told(how_many(chosen, lines.len() as int), ci, s.commits[ci]),
            )
        }),
{
    law_current_hunk_is_shown(files, s, f, h);
    key_laws::law_typed_label_assigns(files, s, ci);
    assert(steps::label(ci) == key_of(ci));
    let lines = files[f].hunks@[h].lines@;
    let chosen = |l: int| free(lines[l], s.assign[f][h][l]);
    lemma_assigned(files, key_laws::quiet(s), f, h, ci as usize, None, chosen);
}

/// While lines are picked, the key of a commit gives it each line that is picked,
/// and nothing else.
pub proof fn law_commit_key_takes_the_picked_lines(
    files: Seq<FileDiff>,
    s: AppView,
    f: int,
    h: int,
    ci: int,
    cursor: usize,
    selected: Set<usize>,
)
    requires
        files.len() <= usize::MAX,
        steps::sound(files, s),
        s.mode == (ModeView::Select { cursor, selected }),
        !selected.is_empty(),
        s.ext_input is None,
        shown(files, s, f, h),
        0 <= ci < s.commits.len() <= usize::MAX,
    ensures
        ({
            let t = keyed(files, s, ci);
            let chosen = |l: int| selected.contains(l as usize);
            &&& given_to(files, s.assign, t.assign, f, h, ci, chosen)
            &&& goes_on(files, s, t)
            &&& t.commits == s.commits
            &&& t.status == Some(told(selected.len(), ci, s.commits[ci]))
        }),
{
    law_current_hunk_is_shown(files, s, f, h);
    key_laws::law_typed_label_assigns(files, s, ci);
    assert(steps::label(ci) == key_of(ci));
    let chosen = |l: int| selected.contains(l as usize);
    steps::lemma_ascending_members(selected);
    lemma_ascending_len(selected, usize::MAX + 1);
    let t = steps::ascending(selected);
    assert(files[f].hunks@[h].lines.len() == files[f].hunks@[h].lines@.len());
    assert forall|l: int|
        0 <= l < files[f].hunks@[h].lines@.len() implies #[trigger] chosen(l) == t.contains(
        l as usize,
    ) by {
        if t.contains(l as usize) {
            let i = choose|i: int| 0 <= i < t.len() && t[i] == l as usize;
            assert(selected.contains(t[i]));
        }
    }
    lemma_assigned(files, key_laws::quiet(s), f, h, ci as usize, Some(t), chosen);
}

/// A message that is entered becomes the last commit, without the white space
/// around it. It gets each change of the hunk that is shown that no commit has.
pub proof fn law_new_commit_takes_the_hunk(
    files: Seq<FileDiff>,
    s: AppView,
    f: int,
    h: int,
    input: Seq<char>,
)
    requires
        files.len() <= usize::MAX,
        steps::sound(files, s),
        s.mode == (ModeView::Name { input, lines: None }),
        s.ext_input is None,
        shown(files, s, f, h),
        s.commits.len() < usize::MAX,
        text::trimmed(input).len() > 0,
    ensures
        ({
            let t = steps::pressed(files, s, key_laws::key(KeyCode::Enter));
            let lines = files[f].hunks@[h].lines@;
            let chosen = |l: int| free(lines[l], s.assign[f][h][l]);
            &&& given_to(files, s.assign, t.assign, f, h, s.commits.len() as int, chosen)
            &&& goes_on(files, s, t)
            &&& t.commits == s.commits.push(text::trimmed(input))
            &&& t.status == Some(
                told(
                    how_many(chosen, lines.len() as int),
                    s.commits.len() as int,
                    text::trimmed(input),
                ),
            )
        }),
{
    let lines = files[f].hunks@[h].lines@;
    let chosen = |l: int| free(lines[l], s.assign[f][h][l]);
    let with = AppView {
        commits: s.commits.push(text::trimmed(input)),
        mode: ModeView::Name { input, lines: None },
        ..key_laws::quiet(s)
    };
    lemma_assigned(files, with, f, h, s.commits.len() as usize, None, chosen);
}

/// A message that is entered for picked lines becomes the last commit, and gets
/// these lines.
pub proof fn law_new_commit_takes_the_picked_lines(
    files: Seq<FileDiff>,
    s: AppView,
    f: int,
    h: int,
    input: Seq<char>,
    picked: Seq<usize>,
)
    requires
        files.len() <= usize::MAX,
        steps::sound(files, s),
        s.mode == (ModeView::Name { input, lines: Some(picked) }),
        s.ext_input is None,
        shown(files, s, f, h),
        s.commits.len() < usize::MAX,
        text::trimmed(input).len() > 0,
    ensures
        ({
            let t = steps::pressed(files, s, key_laws::key(KeyCode::Enter));
            let chosen = |l: int| picked.contains(l as usize);
            &&& given_to(files, s.assign, t.assign, f, h, s.commits.len() as int, chosen)
            &&& goes_on(files, s, t)
            &&& t.commits == s.commits.push(text::trimmed(input))
            &&& t.status == Some(
                told(picked.len(), s.commits.len() as int, text::trimmed(input)),
            )
        }),
{
    let chosen = |l: int| picked.contains(l as usize);
    let with = AppView {
        commits: s.commits.push(text::trimmed(input)),
        mode: ModeView::Name { input, lines: None },
        ..key_laws::quiet(s)
    };
    lemma_assigned(files, with, f, h, s.commits.len() as usize, Some(picked), chosen);
}

// ---------------------------------------------------------------------------
// The other keys.

/// What a key that is pressed leads to.
pub open spec fn after(files: Seq<FileDiff>, s: AppView, code: KeyCode) -> AppView {
    steps::pressed(files, s, key_laws::key(code))
}

/// The same, with something said.
pub open spec fn saying(s: AppView, message: Seq<char>) -> AppView {
    AppView { status: Some(message), ..s }
}

/// One further, as long as it is below `n`.
pub open spec fn further(i: usize, n: int) -> int {
    if i + 1 < n {
        i + 1
    } else if n > 0 {
        n - 1
    } else {
        0
    }
}

/// One back, down to zero.
pub open spec fn back_one(i: usize) -> int {
    if i == 0 {
        0
    } else {
        i - 1
    }
}

/// While browsing, the keys for the next hunk and the one before go round the
/// hunks that have a change that no commit has.
pub proof fn law_browsing_goes_round(files: Seq<FileDiff>, s: AppView)
    requires
        steps::sound(files, s),
        s.mode is Browse,
        s.ext_input is None,
        waiting(files, s.assign, files.len() as int) <= usize::MAX,
    ensures
        ({
            let n = waiting(files, s.assign, files.len() as int);
            let q = key_laws::quiet(s);
            let on = if n == 0 {
                q
            } else {
                AppView {
                    pos: (if s.pos + 1 == n {
                        0
                    } else {
                        s.pos + 1
                    }) as usize,
                    scroll: 0,
                    ..q
                }
            };
            let back = if n == 0 {
                q
            } else {
                AppView {
                    pos: (if s.pos == 0 {
                        n - 1
                    } else {
                        s.pos - 1
                    }) as usize,
                    scroll: 0,
                    ..q
                }
            };
            &&& after(files, s, KeyCode::Right) == on
            &&& after(files, s, KeyCode::Tab) == on
            &&& after(files, s, KeyCode::Char('s')) == on
            &&& after(files, s, KeyCode::Char('l')) == on
            &&& after(files, s, KeyCode::Left) == back
            &&& after(files, s, KeyCode::Char('h')) == back
        }),
{
    let n = waiting(files, s.assign, files.len() as int);
    lemma_waiting(files, s.assign, files.len() as int, 0, 0);
    let p = s.pos as int;
    if n > 0 {
        if p + 1 < n {
            vstd::arithmetic::div_mod::lemma_small_mod((p + 1) as nat, n as nat);
        } else {
            assert((p + 1) % n == 0) by (nonlinear_arith)
                requires
                    p + 1 == n,
                    n > 0,
            ;
        }
        key_laws::lemma_before(p, n);
    }
}

/// While browsing, the other keys scroll, quit, ask for a message, let lines be
/// picked, let commits change places or lead to the review.
pub proof fn law_browsing_keys(files: Seq<FileDiff>, s: AppView, c: char)
    requires
        s.mode is Browse,
        s.ext_input is None,
    ensures
        ({
            let q = key_laws::quiet(s);
            let quit = AppView { outcome: Some(OutcomeView::Quit), ..q };
            let down = AppView {
                scroll: (if s.scroll == u16::MAX {
                    s.scroll as int
                } else {
                    s.scroll + 1
                }) as u16,
                ..q
            };
            let up = AppView {
                scroll: (if s.scroll == 0 {
                    0
                } else {
                    s.scroll - 1
                }) as u16,
                ..q
            };
            let picking = AppView {
                mode: ModeView::Select { cursor: 0, selected: Set::empty() },
                ..q
            };
            let review = if exists|f: int, h: int, l: int|
                0 <= f < s.assign.len() && 0 <= h < s.assign[f].len() && 0 <= l
                    < s.assign[f][h].len() && #[trigger] s.assign[f][h][l] is Some {
                AppView { mode: ModeView::Review { sel: 0, edit: None }, ..q }
            } else {
                saying(q, "nothing assigned yet"@)
            };
            &&& after(files, s, KeyCode::Esc) == quit
            &&& after(files, s, KeyCode::Char('q')) == quit
            &&& after(files, s, KeyCode::Down) == down
            &&& after(files, s, KeyCode::Char('j')) == down
            &&& after(files, s, KeyCode::Up) == up
            &&& after(files, s, KeyCode::Char('k')) == up
            &&& after(files, s, KeyCode::Char('v')) == picking
            &&& after(files, s, KeyCode::Char(' ')) == picking
            &&& after(files, s, KeyCode::Enter) == review
            &&& after(files, s, KeyCode::Char('d')) == review
            &&& after(files, s, KeyCode::Char('n')) == (AppView {
                mode: ModeView::Name { input: Seq::empty(), lines: None },
                ..q
            })
            &&& after(files, s, KeyCode::Char('m')) == if s.commits.len() == 0 {
                saying(q, "no commits to manage yet"@)
            } else {
                AppView { mode: ModeView::Manage { cursor: 0, mark: None, back: None }, ..q }
            }
            &&& after(files, s, KeyCode::Char('0')) == if s.commits.len() == 0 {
                saying(q, "no commits yet — press n to create one"@)
            } else {
                AppView { ext_input: Some(Seq::empty()), ..q }
            }
            &&& after(files, s, KeyCode::Backspace) == q
            &&& !('0' <= c <= '9') && !seq![
                'q',
                'j',
                'k',
                'v',
                ' ',
                'd',
                'n',
                'm',
                's',
                'l',
                'h',
                'u',
            ].contains(c) ==> after(files, s, KeyCode::Char(c)) == q
        }),
{
    let other = seq!['q', 'j', 'k', 'v', ' ', 'd', 'n', 'm', 's', 'l', 'h', 'u'];
    assert(other[0] == 'q' && other[1] == 'j' && other[2] == 'k' && other[3] == 'v' && other[4]
        == ' ' && other[5] == 'd' && other[6] == 'n' && other[7] == 'm' && other[8] == 's'
        && other[9] == 'l' && other[10] == 'h' && other[11] == 'u');
}

/// The key of a commit that is not there assigns nothing, and says so.
pub proof fn law_unknown_commit_takes_nothing(files: Seq<FileDiff>, s: AppView, d: char)
    requires
        key_laws::takes_numbers(files, s),
        '1' <= d <= '9',
        s.commits.len() <= d as int - '1' as int,
    ensures
        after(files, s, KeyCode::Char(d)) == saying(
            key_laws::quiet(s),
            "no commit ["@ + key_of(d as int - '1' as int) + "] yet — press n to create one"@,
        ),
{
    assert(steps::current(files, key_laws::quiet(s)) == steps::current(files, s));
}

/// Nothing is assigned while no line is picked, and this is said.
pub proof fn law_no_picked_lines_take_nothing(
    files: Seq<FileDiff>,
    s: AppView,
    d: char,
    cursor: usize,
)
    requires
        s.mode == (ModeView::Select { cursor, selected: Set::empty() }),
        s.ext_input is None,
        steps::current(files, s) is Some,
        '1' <= d <= '9',
        s.commits.len() > d as int - '1' as int,
    ensures
        after(files, s, KeyCode::Char(d)) == saying(
            key_laws::quiet(s),
            "no lines selected (space toggles)"@,
        ),
        after(files, s, KeyCode::Char('n')) == saying(
            key_laws::quiet(s),
            "no lines selected (space toggles)"@,
        ),
{
    assert(steps::current(files, key_laws::quiet(s)) == steps::current(files, s));
    assert(Set::<usize>::empty().is_empty());
}

/// What the keys do to a number that is being typed.
pub proof fn law_number_keys(files: Seq<FileDiff>, s: AppView, digits: Seq<char>, c: char)
    requires
        s.ext_input == Some(digits),
    ensures
        ({
            let q = key_laws::quiet(s);
            let closed = AppView { ext_input: None, ..q };
            &&& after(files, s, KeyCode::Esc) == closed
            &&& after(files, s, KeyCode::Backspace) == if digits.len() == 0 {
                closed
            } else {
                AppView { ext_input: Some(digits.take(digits.len() - 1)), ..q }
            }
            &&& !('0' <= c <= '9') ==> after(files, s, KeyCode::Char(c)) == q
            &&& after(files, s, KeyCode::Down) == q
            &&& after(files, s, KeyCode::Up) == q
            &&& after(files, s, KeyCode::Left) == q
            &&& after(files, s, KeyCode::Right) == q
            &&& after(files, s, KeyCode::Tab) == q
            &&& !(text::number(digits) matches Ok(n) && 1 <= n <= s.commits.len()) ==> after(
                files,
                s,
                KeyCode::Enter,
            ) == saying(closed, "invalid commit id"@)
            &&& '0' <= c <= '9' && !(text::number(digits.push(c)) matches Ok(n) && n
                <= s.commits.len()) && s.commits.len() < usize::MAX ==> after(
                files,
                s,
                KeyCode::Char(c),
            ) == saying(
                closed,
                "no commit [0"@ + digits.push(c) + "] (highest is ["@ + key_of(
                    s.commits.len() - 1,
                ) + "])"@,
            )
            &&& '0' <= c <= '9' && (text::number(digits.push(c)) matches Ok(n) && (n == 0 || n * 10
                <= s.commits.len())) ==> after(files, s, KeyCode::Char(c)) == (AppView {
                ext_input: Some(digits.push(c)),
                ..q
            })
        }),
{
    assert(digits.len() > 0 ==> digits.drop_last() =~= digits.take(digits.len() - 1));
}

/// Whether a line is the one under the cursor: a change that no commit has, with as
/// many of them before it as the cursor says.
pub open spec fn under_cursor(
    lines: Seq<DiffLine>,
    row: Seq<Option<usize>>,
    cursor: int,
    l: int,
) -> bool {
    &&& 0 <= l < lines.len()
    &&& free(lines[l], row[l])
    &&& how_many(|i: int| free(lines[i], row[i]), l) == cursor
}

pub proof fn lemma_under_cursor(
    lines: Seq<DiffLine>,
    row: Seq<Option<usize>>,
    n: int,
    l: int,
)
    requires
        0 <= l < n <= lines.len() <= usize::MAX,
        free(lines[l], row[l]),
    ensures
        ({
            let p = |i: int| free(lines[i], row[i]);
            &&& how_many(p, l) < how_many(p, n)
            &&& app::open_lines(lines, row, n).len() == how_many(p, n)
            &&& app::open_lines(lines, row, n)[how_many(p, l) as int] == l as usize
        }),
    decreases n,
{
    let p = |i: int| free(lines[i], row[i]);
    lemma_open_count(lines, row, p, n);
    lemma_open_count(lines, row, p, n - 1);
    assert(p(n - 1) == free(lines[n - 1], row[n - 1]));
    if l < n - 1 {
        lemma_under_cursor(lines, row, n - 1, l);
    } else {
        lemma_open_count(lines, row, p, l);
    }
}

/// The line at a place of the list of open lines is the one under that cursor.
pub proof fn lemma_at_cursor(lines: Seq<DiffLine>, row: Seq<Option<usize>>, n: int, cursor: int)
    requires
        0 <= n <= lines.len() <= usize::MAX,
        0 <= cursor < app::open_lines(lines, row, n).len(),
    ensures
        under_cursor(lines, row, cursor, app::open_lines(lines, row, n)[cursor] as int),
    decreases n,
{
    let p = |i: int| free(lines[i], row[i]);
    lemma_open_count(lines, row, p, n - 1);
    app::lemma_open_lines(lines, row, n);
    if cursor < app::open_lines(lines, row, n - 1).len() {
        lemma_at_cursor(lines, row, n - 1, cursor);
    }
}

/// While lines are picked, the keys move the cursor over the changes of the hunk
/// that no commit has, pick them or drop them, or leave.
pub proof fn law_picking_keys(
    files: Seq<FileDiff>,
    s: AppView,
    f: int,
    h: int,
    cursor: usize,
    selected: Set<usize>,
    x: usize,
)
    requires
        s.mode == (ModeView::Select { cursor, selected }),
        s.ext_input is None,
        shown(files, s, f, h),
        files.len() <= usize::MAX,
    ensures
        ({
            let q = key_laws::quiet(s);
            let lines = files[f].hunks@[h].lines@;
            let row = s.assign[f][h];
            let n = how_many(|i: int| free(lines[i], row[i]), lines.len() as int) as int;
            let browse = AppView { mode: ModeView::Browse, ..q };
            let down = AppView {
                mode: ModeView::Select { cursor: further(cursor, n) as usize, selected },
                ..q
            };
            let up = AppView {
                mode: ModeView::Select { cursor: back_one(cursor) as usize, selected },
                ..q
            };
            let space = after(files, s, KeyCode::Char(' '));
            let all = after(files, s, KeyCode::Char('a'));
            &&& after(files, s, KeyCode::Esc) == browse
            &&& after(files, s, KeyCode::Char('v')) == browse
            &&& after(files, s, KeyCode::Char('q')) == browse
            &&& after(files, s, KeyCode::Down) == down
            &&& after(files, s, KeyCode::Char('j')) == down
            &&& after(files, s, KeyCode::Up) == up
            &&& after(files, s, KeyCode::Char('k')) == up
            &&& under_cursor(lines, row, cursor as int, x as int) ==> space.mode
                == (ModeView::Select {
                cursor: further(cursor, n) as usize,
                selected: if selected.contains(x) {
                    selected.remove(x)
                } else {
                    selected.insert(x)
                },
            })
            &&& cursor >= n ==> space == q
            &&& all.mode matches ModeView::Select { cursor: c, selected: a } && c == cursor && (
            selected.len() == n ==> a == Set::<usize>::empty()) && (selected.len() != n ==> (
            a.contains(x) <==> selected.contains(x) || (x < lines.len() && free(
                lines[x as int],
                row[x as int],
            ))))
            &&& (AppView { mode: s.mode, ..space }) == q
            &&& (AppView { mode: s.mode, ..all }) == q
            &&& after(files, s, KeyCode::Enter) == q
            &&& after(files, s, KeyCode::Left) == q
            &&& after(files, s, KeyCode::Right) == q
            &&& after(files, s, KeyCode::Tab) == q
            &&& after(files, s, KeyCode::Backspace) == q
        }),
{
    let q = key_laws::quiet(s);
    law_current_hunk_is_shown(files, s, f, h);
    assert(steps::current(files, q) == steps::current(files, s));
    assert(files[f].hunks.len() == files[f].hunks@.len());
    assert(files[f].hunks@[h].lines.len() == files[f].hunks@[h].lines@.len());
    let lines = files[f].hunks@[h].lines@;
    let row = s.assign[f][h];
    let p = |i: int| free(lines[i], row[i]);
    let n = lines.len() as int;
    lemma_open_count(lines, row, p, n);
    let open = app::open_lines(lines, row, n);
    assert(app::open_lines_of(files, s.assign, f, h) == open);
    app::lemma_open_lines(lines, row, n);
    if under_cursor(lines, row, cursor as int, x as int) {
        lemma_under_cursor(lines, row, n, x as int);
    }
    assert(open.to_set().contains(x) <==> x < n && free(lines[x as int], row[x as int])) by {
        if open.contains(x) {
            let i = choose|i: int| 0 <= i < open.len() && open[i] == x;
            assert(app::open_line(lines[open[i] as int], row[open[i] as int]));
        }
        if x < n && free(lines[x as int], row[x as int]) {
            assert(app::open_line(lines[x as int], row[x as int]));
            assert(open.contains(x as int as usize));
        }
    }
}

/// While lines are picked, a message that is asked for is for these lines, in their
/// order, each once.
pub proof fn law_message_for_picked_lines(
    files: Seq<FileDiff>,
    s: AppView,
    cursor: usize,
    selected: Set<usize>,
    x: usize,
)
    requires
        s.mode == (ModeView::Select { cursor, selected }),
        s.ext_input is None,
        steps::current(files, s) is Some,
        !selected.is_empty(),
        selected.finite(),
    ensures
        after(files, s, KeyCode::Char('n')).mode matches ModeView::Name {
            input,
            lines: Some(lines),
        } && input.len() == 0 && lines.len() == selected.len() && (lines.contains(x)
            <==> selected.contains(x)),
        (AppView { mode: s.mode, ..after(files, s, KeyCode::Char('n')) }) == key_laws::quiet(s),
{
    let q = key_laws::quiet(s);
    assert(steps::current(files, q) == steps::current(files, s));
    steps::lemma_ascending_members(selected);
    lemma_ascending_len(selected, usize::MAX + 1);
    let t = steps::ascending(selected);
    if t.contains(x) {
        let i = choose|i: int| 0 <= i < t.len() && t[i] == x;
        assert(selected.contains(t[i]));
    }
}

/// While a message is typed, keys add to it and take back, an empty one is
/// refused, and the escape key leads back to where it was asked for.
pub proof fn law_message_keys(
    files: Seq<FileDiff>,
    s: AppView,
    input: Seq<char>,
    lines: Option<Seq<usize>>,
    c: char,
)
    requires
        s.mode == (ModeView::Name { input, lines }),
        s.ext_input is None,
    ensures
        ({
            let q = key_laws::quiet(s);
            &&& after(files, s, KeyCode::Char(c)) == (AppView {
                mode: ModeView::Name { input: input.push(c), lines },
                ..q
            })
            &&& after(files, s, KeyCode::Backspace) == (AppView {
                mode: ModeView::Name {
                    input: if input.len() == 0 {
                        input
                    } else {
                        input.take(input.len() - 1)
                    },
                    lines,
                },
                ..q
            })
            &&& after(files, s, KeyCode::Esc) == (AppView {
                mode: match lines {
                    Some(l) => ModeView::Select { cursor: 0, selected: l.to_set() },
                    None => ModeView::Browse,
                },
                ..q
            })
            &&& (forall|i: int| 0 <= i < input.len() ==> text::white(#[trigger] input[i]))
                ==> after(files, s, KeyCode::Enter) == saying(
                q,
                "commit message cannot be empty"@,
            )
            &&& after(files, s, KeyCode::Down) == q
            &&& after(files, s, KeyCode::Up) == q
            &&& after(files, s, KeyCode::Left) == q
            &&& after(files, s, KeyCode::Right) == q
            &&& after(files, s, KeyCode::Tab) == q
        }),
{
    assert(input.len() > 0 ==> input.drop_last() =~= input.take(input.len() - 1));
    if forall|i: int| 0 <= i < input.len() ==> text::white(#[trigger] input[i]) {
        lemma_all_white(input);
    }
}

proof fn lemma_all_white(s: Seq<char>)
    requires
        forall|i: int| 0 <= i < s.len() ==> text::white(#[trigger] s[i]),
    ensures
        text::trimmed(s).len() == 0,
    decreases s.len(),
{
    if s.len() > 0 {
        assert forall|i: int| 0 <= i < s.skip(1).len() implies text::white(
            #[trigger] s.skip(1)[i],
        ) by {
            assert(s.skip(1)[i] == s[i + 1]);
        }
        assert(text::white(s[0]));
        lemma_all_white(s.skip(1));
        assert(text::trimmed_start(s) == text::trimmed_start(s.skip(1)));
    }
}

/// In the review, keys move over the commits, ask for the commits to be made,
/// edit a message, lead on to changing places or back, or quit.
pub proof fn law_review_keys(files: Seq<FileDiff>, s: AppView, sel: usize)
    requires
        s.mode == (ModeView::Review { sel, edit: None }),
        s.ext_input is None,
    ensures
        ({
            let q = key_laws::quiet(s);
            let n = s.commits.len() as int;
            let down = AppView {
                mode: ModeView::Review { sel: further(sel, n) as usize, edit: None },
                ..q
            };
            let up = AppView {
                mode: ModeView::Review { sel: back_one(sel) as usize, edit: None },
                ..q
            };
            let go = AppView { request_commit: true, ..q };
            let back = if waiting(files, s.assign, files.len() as int) > 0 {
                AppView { mode: ModeView::Browse, ..q }
            } else {
                saying(q, "all hunks assigned (u on review is not supported; q to quit)"@)
            };
            &&& after(files, s, KeyCode::Down) == down
            &&& after(files, s, KeyCode::Char('j')) == down
            &&& after(files, s, KeyCode::Up) == up
            &&& after(files, s, KeyCode::Char('k')) == up
            &&& after(files, s, KeyCode::Enter) == go
            &&& after(files, s, KeyCode::Char('y')) == go
            &&& after(files, s, KeyCode::Esc) == back
            &&& after(files, s, KeyCode::Char('b')) == back
            &&& after(files, s, KeyCode::Char('q')) == (AppView {
                outcome: Some(OutcomeView::Quit),
                ..q
            })
            &&& after(files, s, KeyCode::Char('e')) == if n > 0 {
                AppView {
                    mode: ModeView::Review { sel, edit: Some(s.commits[sel as int]) },
                    ..q
                }
            } else {
                q
            }
            &&& after(files, s, KeyCode::Char('m')) == if n > 0 {
                AppView {
                    mode: ModeView::Manage { cursor: 0, mark: None, back: Some(sel) },
                    ..q
                }
            } else {
                q
            }
            &&& after(files, s, KeyCode::Left) == q
            &&& after(files, s, KeyCode::Right) == q
            &&& after(files, s, KeyCode::Tab) == q
            &&& after(files, s, KeyCode::Backspace) == q
        }),
{
    lemma_waiting(files, s.assign, files.len() as int, 0, 0);
}

/// While a message is edited, keys add to it and take back; entering it changes the
/// message of this commit only, and an empty one is refused.
pub proof fn law_edit_keys(
    files: Seq<FileDiff>,
    s: AppView,
    sel: usize,
    buf: Seq<char>,
    c: char,
    i: int,
)
    requires
        s.mode == (ModeView::Review { sel, edit: Some(buf) }),
        s.ext_input is None,
        sel < s.commits.len(),
        0 <= i < s.commits.len(),
    ensures
        ({
            let q = key_laws::quiet(s);
            let left = ModeView::Review { sel, edit: None };
            let t = after(files, s, KeyCode::Enter);
            &&& after(files, s, KeyCode::Char(c)) == (AppView {
                mode: ModeView::Review { sel, edit: Some(buf.push(c)) },
                ..q
            })
            &&& after(files, s, KeyCode::Backspace) == (AppView {
                mode: ModeView::Review {
                    sel,
                    edit: Some(
                        if buf.len() == 0 {
                            buf
                        } else {
                            buf.take(buf.len() - 1)
                        },
                    ),
                },
                ..q
            })
            &&& after(files, s, KeyCode::Esc) == (AppView { mode: left, ..q })
            &&& text::trimmed(buf).len() == 0 ==> t == saying(
                q,
                "commit message cannot be empty"@,
            )
            &&& text::trimmed(buf).len() > 0 ==> t == (AppView {
                commits: t.commits,
                mode: left,
                ..q
            }) && t.commits.len() == s.commits.len() && t.commits[i] == if i == sel {
                text::trimmed(buf)
            } else {
                s.commits[i]
            }
        }),
{
    assert(buf.len() > 0 ==> buf.drop_last() =~= buf.take(buf.len() - 1));
}

/// While commits change places, keys move the cursor and mark a commit, and a
/// second mark swaps the two: their messages change places, and each line goes
/// with its message.
pub proof fn law_manage_keys(
    files: Seq<FileDiff>,
    s: AppView,
    cursor: usize,
    mark: Option<usize>,
    back: Option<usize>,
    i: int,
    f: int,
    h: int,
    l: int,
)
    requires
        steps::sound(files, s),
        s.mode == (ModeView::Manage { cursor, mark, back }),
        s.ext_input is None,
        0 <= i < s.commits.len(),
        0 <= f < files.len(),
        0 <= h < files[f].hunks@.len(),
        0 <= l < files[f].hunks@[h].lines@.len(),
    ensures
        ({
            let q = key_laws::quiet(s);
            let n = s.commits.len() as int;
            let down = AppView {
                mode: ModeView::Manage { cursor: further(cursor, n) as usize, mark, back },
                ..q
            };
            let up = AppView {
                mode: ModeView::Manage { cursor: back_one(cursor) as usize, mark, back },
                ..q
            };
            let left = AppView {
                mode: match back {
                    Some(sel) => ModeView::Review { sel, edit: None },
                    None => ModeView::Browse,
                },
                ..q
            };
            let t = after(files, s, KeyCode::Enter);
            &&& after(files, s, KeyCode::Down) == down
            &&& after(files, s, KeyCode::Char('j')) == down
            &&& after(files, s, KeyCode::Up) == up
            &&& after(files, s, KeyCode::Char('k')) == up
            &&& after(files, s, KeyCode::Esc) == left
            &&& after(files, s, KeyCode::Char('q')) == left
            &&& after(files, s, KeyCode::Char('m')) == left
            &&& after(files, s, KeyCode::Char(' ')) == t
            &&& mark is None ==> t == (AppView {
                mode: ModeView::Manage { cursor, mark: Some(cursor), back },
                ..q
            })
            &&& mark == Some(cursor) ==> t == (AppView {
                mode: ModeView::Manage { cursor, mark: None, back },
                ..q
            })
            &&& (mark matches Some(m) && m != cursor) ==> {
                let m = mark.unwrap();
                &&& t == (AppView {
                    mode: ModeView::Manage { cursor, mark: None, back },
                    commits: t.commits,
                    assign: t.assign,
                    status: Some(
                        "swapped ["@ + key_of(m as int) + "] <-> ["@ + key_of(cursor as int)
                            + "]"@,
                    ),
                    ..q
                })
                &&& t.commits.len() == s.commits.len()
                &&& t.commits[i] == if i == m {
                    s.commits[cursor as int]
                } else if i == cursor {
                    s.commits[m as int]
                } else {
                    s.commits[i]
                }
                &&& t.assign[f][h][l] == match s.assign[f][h][l] {
                    Some(k) => Some(
                        if k == m {
                            cursor
                        } else if k == cursor {
                            m
                        } else {
                            k
                        },
                    ),
                    None => None,
                }
            }
        }),
{
    assert(steps::shaped_file(files[f].hunks@, s.assign[f]));
}

/// Taking back the assignments of the hunk that is shown says how many there were,
/// and changes nothing but them.
pub proof fn law_taking_back(files: Seq<FileDiff>, s: AppView, f: int, h: int, l: int)
    requires
        files.len() <= usize::MAX,
        steps::sound(files, s),
        s.mode is Browse,
        s.ext_input is None,
        shown(files, s, f, h),
        0 <= l < files[f].hunks@[h].lines@.len(),
    ensures
        ({
            let t = after(files, s, KeyCode::Char('u'));
            let row = s.assign[f][h];
            let n = how_many(|i: int| row[i] is Some, row.len() as int);
            &&& t == (AppView {
                assign: t.assign,
                status: Some(
                    if n > 0 {
                        "unassigned "@ + text::decimal(n) + " line(s) of this hunk"@
                    } else {
                        "nothing assigned in this hunk"@
                    },
                ),
                ..key_laws::quiet(s)
            })
            &&& t.assign[f][h][l] is None
        }),
{
    law_current_hunk_is_shown(files, s, f, h);
    assert(files[f].hunks.len() == files[f].hunks@.len());
    assert(steps::shaped_file(files[f].hunks@, s.assign[f]));
    assert(steps::current(files, key_laws::quiet(s)) == steps::current(files, s));
    let row = s.assign[f][h];
    lemma_assigned_count(row, row.len() as int);
    key_laws::law_unassign_clears_the_hunk(files, s, f, h, l);
}

proof fn lemma_assigned_count(row: Seq<Option<usize>>, n: int)
    ensures
        steps::assigned_count(row, n) == how_many(|i: int| row[i] is Some, n),
    decreases n,
{
    if n > 0 {
        lemma_assigned_count(row, n - 1);
    }
}

/// A session begins browsing at the first hunk, with no commits and no line
/// assigned, and says how many binary files it leaves alone.
pub proof fn law_session_begins(files: Seq<FileDiff>, f: int, h: int, l: int)
    requires
        0 <= f < files.len(),
        0 <= h < files[f].hunks@.len(),
        0 <= l < files[f].hunks@[h].lines@.len(),
    ensures
        ({
            let s = steps::fresh(files);
            let n = how_many(|i: int| files[i].binary, files.len() as int);
            &&& s.assign[f][h][l] is None
            &&& s == (AppView {
                assign: s.assign,
                commits: Seq::empty(),
                pos: 0,
                scroll: 0,
                mode: ModeView::Browse,
                status: if n == 0 {
                    None
                } else {
                    Some("skipped "@ + text::decimal(n) + " binary file(s); they stay staged"@)
                },
                request_commit: false,
                outcome: None,
                ext_input: None,
            })
        }),
{
    lemma_binaries(files, files.len() as int);
}

proof fn lemma_binaries(files: Seq<FileDiff>, n: int)
    ensures
        steps::binary_count(files, n) == how_many(|i: int| files[i].binary, n),
    decreases n,
{
    if n > 0 {
        lemma_binaries(files, n - 1);
    }
}

// ---------------------------------------------------------------------------
// Keys that do nothing, and the rest.

/// The control key changes nothing, but for the interrupt key.
pub proof fn law_control_is_ignored(files: Seq<FileDiff>, s: AppView, code: KeyCode)
    requires
        code != KeyCode::Char('c'),
    ensures
        steps::pressed(files, s, KeyEvent { code, control: true }) == after(files, s, code),
{
}

/// A number that is typed, with zeros before it or without, assigns as the key of
/// its commit does: at once when no longer number can name a commit, and with the
/// enter key.
pub proof fn law_typed_numbers_assign(
    files: Seq<FileDiff>,
    s: AppView,
    digits: Seq<char>,
    c: char,
    n: usize,
)
    requires
        s.ext_input == Some(digits),
        key_laws::takes_numbers(files, AppView { ext_input: None, ..s }),
        1 <= n <= s.commits.len() <= usize::MAX,
    ensures
        text::number(digits) == Ok::<usize, text::NumberError>(n) ==> after(
            files,
            s,
            KeyCode::Enter,
        ) == keyed(files, AppView { ext_input: None, ..s }, n - 1),
        '0' <= c <= '9' && text::number(digits.push(c)) == Ok::<usize, text::NumberError>(n) && n
            * 10 > s.commits.len() ==> after(files, s, KeyCode::Char(c)) == keyed(
            files,
            AppView { ext_input: None, ..s },
            n - 1,
        ),
{
    let closed = AppView { ext_input: None, ..s };
    key_laws::law_typed_label_assigns(files, closed, n - 1);
    assert(steps::label(n - 1) == key_of(n - 1));
    assert(key_laws::quiet(closed) == AppView { ext_input: None, ..key_laws::quiet(s) });
}

/// While no change is left to be assigned, keys assign nothing and take back
/// nothing, and picking lines ends.
pub proof fn law_nothing_left_to_assign(files: Seq<FileDiff>, s: AppView, d: char, code: KeyCode)
    requires
        waiting(files, s.assign, files.len() as int) == 0,
        s.ext_input is None,
        '1' <= d <= '9',
        s.commits.len() > d as int - '1' as int,
    ensures
        s.mode is Browse ==> after(files, s, KeyCode::Char(d)) == key_laws::quiet(s) && after(
            files,
            s,
            KeyCode::Char('u'),
        ) == key_laws::quiet(s),
        s.mode is Select && code != KeyCode::Char('c') ==> after(files, s, code) == (AppView {
            mode: ModeView::Browse,
            ..key_laws::quiet(s)
        }),
{
    let q = key_laws::quiet(s);
    lemma_waiting(files, s.assign, files.len() as int, 0, 0);
    assert(steps::current(files, q) is None);
}

/// A message that is entered while no change is left becomes the last commit, and
/// nothing is assigned to it.
pub proof fn law_new_commit_without_lines(
    files: Seq<FileDiff>,
    s: AppView,
    input: Seq<char>,
    lines: Option<Seq<usize>>,
)
    requires
        waiting(files, s.assign, files.len() as int) == 0,
        s.ext_input is None,
        s.mode == (ModeView::Name { input, lines }),
        text::trimmed(input).len() > 0,
    ensures
        after(files, s, KeyCode::Enter) == (AppView {
            commits: s.commits.push(text::trimmed(input)),
            mode: ModeView::Name { input, lines: None },
            ..key_laws::quiet(s)
        }),
{
    let with = AppView {
        commits: s.commits.push(text::trimmed(input)),
        mode: ModeView::Name { input, lines: None },
        ..key_laws::quiet(s)
    };
    lemma_waiting(files, s.assign, files.len() as int, 0, 0);
    assert(steps::current(files, with) is None);
}

/// While lines are picked, a number can be typed, and characters without a meaning
/// do nothing.
pub proof fn law_other_keys_while_picking(files: Seq<FileDiff>, s: AppView, c: char)
    requires
        s.mode is Select,
        s.ext_input is None,
        steps::current(files, s) is Some,
    ensures
        after(files, s, KeyCode::Char('0')) == if s.commits.len() == 0 {
            saying(key_laws::quiet(s), "no commits yet — press n to create one"@)
        } else {
            AppView { ext_input: Some(Seq::empty()), ..key_laws::quiet(s) }
        },
        !('0' <= c <= '9') && c != 'v' && c != 'q' && c != 'j' && c != 'k' && c != ' ' && c != 'a'
            && c != 'n' ==> after(files, s, KeyCode::Char(c)) == key_laws::quiet(s),
{
    assert(steps::current(files, key_laws::quiet(s)) == steps::current(files, s));
}

/// In the review, and while commits change places, keys without a meaning do
/// nothing.
pub proof fn law_other_keys_do_nothing(files: Seq<FileDiff>, s: AppView, c: char)
    requires
        s.ext_input is None,
    ensures
        ({
            let q = key_laws::quiet(s);
            &&& (s.mode matches ModeView::Review { edit: None, .. }) && c != 'q' && c != 'j' && c
                != 'k' && c != 'e' && c != 'm' && c != 'b' && c != 'y' ==> after(
                files,
                s,
                KeyCode::Char(c),
            ) == q
            &&& s.mode matches ModeView::Review { edit: Some(_), .. } ==> after(
                files,
                s,
                KeyCode::Down,
            ) == q && after(files, s, KeyCode::Up) == q && after(files, s, KeyCode::Left) == q
                && after(files, s, KeyCode::Right) == q && after(files, s, KeyCode::Tab) == q
            &&& s.mode is Manage ==> after(files, s, KeyCode::Left) == q && after(
                files,
                s,
                KeyCode::Right,
            ) == q && after(files, s, KeyCode::Tab) == q && after(files, s, KeyCode::Backspace)
                == q
            &&& s.mode is Manage && c != 'q' && c != 'm' && c != 'j' && c != 'k' && c != ' '
                ==> after(files, s, KeyCode::Char(c)) == q
        }),
{
}

/// A key that is not known does nothing, in any mode.
pub proof fn law_unknown_keys_do_nothing(files: Seq<FileDiff>, s: AppView)
    requires
        s.mode is Select && s.ext_input is None ==> steps::current(files, s) is Some,
    ensures
        after(files, s, KeyCode::Other) == key_laws::quiet(s),
{
    assert(steps::current(files, key_laws::quiet(s)) == steps::current(files, s));
}

} // verus!
