//! What holds of the keys of a session.
use vstd::prelude::*;

use crate::app;
use crate::app::{AppView, KeyCode, KeyEvent, ModeView};
use crate::diff::FileDiff;
use crate::steps;
use crate::text;

verus! {

/// A key without the control key.
pub open spec fn key(code: KeyCode) -> KeyEvent {
    KeyEvent { code, control: false }
}

/// A session after a text was typed.
pub open spec fn typed(files: Seq<FileDiff>, s: AppView, t: Seq<char>) -> AppView
    decreases t.len(),
{
    if t.len() == 0 {
        s
    } else {
        steps::pressed(files, typed(files, s, t.drop_last()), key(KeyCode::Char(t.last())))
    }
}

/// A session without a message.
pub open spec fn quiet(s: AppView) -> AppView {
    AppView { status: None, ..s }
}

/// Whether a commit number can be typed: hunks are browsed or lines of a hunk
/// are picked, and no number is being typed.
pub open spec fn takes_numbers(files: Seq<FileDiff>, s: AppView) -> bool {
    &&& s.ext_input is None
    &&& s.mode is Browse || (s.mode is Select && steps::current(files, s) is Some)
}

// ---------------------------------------------------------------------------
// Commit numbers.

/// What typing a zero and a commit number leads to.
proof fn lemma_number_typed(files: Seq<FileDiff>, s: AppView, id: nat)
    requires
        takes_numbers(files, s),
        1 <= id <= s.commits.len() <= usize::MAX,
    ensures
        typed(files, s, seq!['0'] + text::decimal(id)) == if id * 10 > s.commits.len() {
            steps::assign_via_key(files, quiet(s), (id - 1) as usize)
        } else {
            AppView { ext_input: Some(text::decimal(id)), ..quiet(s) }
        },
    decreases id,
{
    let before = if id < 10 {
        Seq::<char>::empty()
    } else {
        text::decimal(id / 10)
    };
    let c = text::digit((id % 10) as int);
    let t = seq!['0'] + text::decimal(id);
    assert(text::decimal(id) =~= before.push(c));
    assert(t.drop_last() =~= seq!['0'] + before);
    assert(t.last() == c);
    let open = AppView { ext_input: Some(before), ..quiet(s) };
    assert(typed(files, s, t.drop_last()) == open) by {
        if id < 10 {
            assert(t.drop_last() =~= seq!['0']);
            assert(seq!['0'].drop_last() =~= Seq::<char>::empty());
            assert(typed(files, s, Seq::<char>::empty()) == s);
            assert(typed(files, s, seq!['0']) == steps::pressed(
                files,
                s,
                key(KeyCode::Char('0')),
            ));
        } else {
            lemma_number_typed(files, s, id / 10);
        }
    }
    text::law_numbers_are_read_back(id);
    assert(text::is_digit(c));
    assert(open.ext_input == Some(before));
    assert(before.push(c) == text::decimal(id));
    assert(steps::number_or(before.push(c), usize::MAX) == id);
    assert(quiet(open) == open);
    assert(AppView { ext_input: None, ..open } == quiet(s));
    assert(steps::pressed(files, open, key(KeyCode::Char(c))) == steps::key_ext(
        files,
        open,
        KeyCode::Char(c),
    ));
}

/// A commit number that is typed after a zero assigns to that commit: at once
/// when no longer number can name a commit, else with the enter key.
pub proof fn law_typed_number_assigns(files: Seq<FileDiff>, s: AppView, id: nat)
    requires
        takes_numbers(files, s),
        1 <= id <= s.commits.len() <= usize::MAX,
    ensures
        (if id * 10 > s.commits.len() {
            typed(files, s, seq!['0'] + text::decimal(id))
        } else {
            steps::pressed(
                files,
                typed(files, s, seq!['0'] + text::decimal(id)),
                key(KeyCode::Enter),
            )
        }) == steps::assign_via_key(files, quiet(s), (id - 1) as usize),
{
    lemma_number_typed(files, s, id);
    if id * 10 <= s.commits.len() {
        let open = AppView { ext_input: Some(text::decimal(id)), ..quiet(s) };
        text::law_numbers_are_read_back(id);
        assert(quiet(open) == open);
        assert(steps::number_or(text::decimal(id), 0) == id);
        assert(AppView { ext_input: None, ..open } == quiet(s));
        assert(steps::pressed(files, open, key(KeyCode::Enter)) == steps::key_ext(
            files,
            open,
            KeyCode::Enter,
        ));
    }
}

/// A digit assigns to the commit with that number: `1` is the same as `01`.
pub proof fn law_digit_assigns(files: Seq<FileDiff>, s: AppView, id: nat)
    requires
        takes_numbers(files, s),
        1 <= id <= 9,
    ensures
        typed(files, s, text::decimal(id)) == steps::assign_via_key(
            files,
            quiet(s),
            (id - 1) as usize,
        ),
{
    let c = text::digit(id as int);
    assert(text::decimal(id) =~= seq![c]);
    assert(seq![c].drop_last() =~= Seq::<char>::empty());
    assert(typed(files, s, Seq::<char>::empty()) == s);
    assert(seq![c].last() == c);
    assert('1' <= c <= '9');
    assert(c as int - '1' as int == id - 1);
    assert(steps::current(files, quiet(s)) == steps::current(files, s));
}

/// Different commits have different keys.
pub proof fn law_labels_differ(a: int, b: int)
    requires
        0 <= a,
        0 <= b,
        a != b,
    ensures
        steps::label(a) != steps::label(b),
{
    reveal_strlit("0");
    text::lemma_decimal_differs((a + 1) as nat, (b + 1) as nat);
    text::lemma_decimal_digits((a + 1) as nat);
    text::lemma_decimal_digits((b + 1) as nat);
    let x = text::decimal((a + 1) as nat);
    let y = text::decimal((b + 1) as nat);
    if a >= 9 && b >= 9 {
        assert(("0"@ + x).skip(1) =~= x);
        assert(("0"@ + y).skip(1) =~= y);
    } else if a < 9 && b >= 9 {
        assert(("0"@ + y).len() == 1 + y.len());
    } else if a >= 9 && b < 9 {
        assert(("0"@ + x).len() == 1 + x.len());
    }
}

// ---------------------------------------------------------------------------
// Assigning and taking back.

/// A hunk whose open lines are all assigned is pending no more.
pub proof fn law_assigned_hunk_is_done(
    lines: Seq<crate::diff::DiffLine>,
    row: Seq<Option<usize>>,
    commit: usize,
    l: int,
)
    requires
        row.len() == lines.len() <= usize::MAX,
        0 <= l < lines.len(),
    ensures
        !app::open_line(
            lines[l],
            steps::assigned_row(
                row,
                app::open_lines(lines, row, lines.len() as int),
                commit,
            )[l],
        ),
{
    app::lemma_open_lines(lines, row, lines.len() as int);
    let open = app::open_lines(lines, row, lines.len() as int);
    if app::open_line(lines[l], row[l]) {
        assert(open.contains(l as usize));
    }
}

/// Taking back the assignments of the current hunk leaves none of its lines
/// assigned, and no other hunk changed.
pub proof fn law_unassign_clears_the_hunk(files: Seq<FileDiff>, s: AppView, f: int, h: int, l: int)
    requires
        files.len() <= usize::MAX,
        steps::sound(files, s),
        s.mode is Browse,
        s.ext_input is None,
        0 <= f < files.len(),
        0 <= h < files[f].hunks@.len(),
        0 <= l < files[f].hunks@[h].lines@.len(),
    ensures
        steps::pressed(files, s, key(KeyCode::Char('u'))).assign[f][h][l] == if steps::current(
            files,
            s,
        ) == Some((f as usize, h as usize)) {
            None
        } else {
            s.assign[f][h][l]
        },
{
    assert(steps::shaped_file(files[f].hunks@, s.assign[f]));
    steps::lemma_shaped_covered(files, s.assign);
    assert(steps::current(files, quiet(s)) == steps::current(files, s));
    app::lemma_current(files, s.assign, s.pos as int);
    assert(files[f].hunks.len() == files[f].hunks@.len());
    if let Some((fi, hi)) = steps::current(files, s) {
        assert(steps::shaped_file(files[fi as int].hunks@, s.assign[fi as int]));
    }
}

/// The same commits, and the same lines in them.
pub open spec fn same_assignments(s: AppView, t: AppView) -> bool {
    s.commits == t.commits && s.assign == t.assign
}

/// Skipping to the next hunk and back, or back and on, leads to the same hunk.
pub proof fn law_skip_and_back(files: Seq<FileDiff>, s: AppView)
    requires
        steps::sound(files, s),
        s.mode is Browse,
        s.ext_input is None,
        0 < app::pending_hunks(files, s.assign).len() <= usize::MAX,
    ensures
        typed(files, s, seq!['s', 'h']).pos == s.pos,
        typed(files, s, seq!['h', 's']).pos == s.pos,
        same_assignments(typed(files, s, seq!['s', 'h']), s),
        same_assignments(typed(files, s, seq!['h', 's']), s),
{
    let n = app::pending_hunks(files, s.assign).len() as int;
    let a = lemma_typed_one(files, s, 's');
    let b = lemma_typed_one(files, s, 'h');
    lemma_typed_two(files, s, 's', 'h');
    lemma_typed_two(files, s, 'h', 's');
    let p = s.pos as int;
    if p + 1 < n {
        vstd::arithmetic::div_mod::lemma_small_mod((p + 1) as nat, n as nat);
    } else {
        assert((p + 1) % n == 0) by (nonlinear_arith)
            requires
                p + 1 == n,
                n > 0,
        ;
    }
    lemma_before(p, n);
    assert(0 <= (p + 1) % n < n) by (nonlinear_arith)
        requires
            n > 0,
    ;
    assert(0 <= (p - 1) % n < n) by (nonlinear_arith)
        requires
            n > 0,
    ;
    lemma_before((p + 1) % n, n);
    if (p - 1) % n + 1 < n {
        vstd::arithmetic::div_mod::lemma_small_mod(((p - 1) % n + 1) as nat, n as nat);
    } else {
        assert(((p - 1) % n + 1) % n == 0) by (nonlinear_arith)
            requires
                (p - 1) % n + 1 == n,
                n > 0,
        ;
    }
}

pub proof fn lemma_before(p: int, n: int)
    requires
        0 <= p < n,
    ensures
        (p - 1) % n == if p > 0 {
            p - 1
        } else {
            n - 1
        },
{
    if p > 0 {
        vstd::arithmetic::div_mod::lemma_small_mod((p - 1) as nat, n as nat);
    } else {
        vstd::arithmetic::div_mod::lemma_mod_add_multiples_vanish(-1, n);
        vstd::arithmetic::div_mod::lemma_small_mod((n - 1) as nat, n as nat);
    }
}

proof fn lemma_typed_one(files: Seq<FileDiff>, s: AppView, c: char) -> (r: AppView)
    ensures
        r == typed(files, s, seq![c]),
        r == steps::pressed(files, s, key(KeyCode::Char(c))),
{
    assert(seq![c].drop_last() =~= Seq::<char>::empty());
    assert(typed(files, s, Seq::<char>::empty()) == s);
    assert(seq![c].last() == c);
    typed(files, s, seq![c])
}

proof fn lemma_typed_two(files: Seq<FileDiff>, s: AppView, c: char, d: char)
    ensures
        typed(files, s, seq![c, d]) == steps::pressed(
            files,
            typed(files, s, seq![c]),
            key(KeyCode::Char(d)),
        ),
{
    assert(seq![c, d].drop_last() =~= seq![c]);
    assert(seq![c, d].last() == d);
}

/// A key changes at most the current hunk, unless commits change places.
pub proof fn law_keys_assign_only_the_current_hunk(
    files: Seq<FileDiff>,
    s: AppView,
    k: KeyEvent,
    f: int,
    h: int,
)
    requires
        files.len() <= usize::MAX,
        steps::sound(files, s),
        !(s.mode is Manage) || s.ext_input is Some,
        0 <= f < files.len(),
        0 <= h < files[f].hunks@.len(),
        steps::current(files, s) != Some((f as usize, h as usize)),
    ensures
        steps::pressed(files, s, k).assign[f][h] == s.assign[f][h],
{
    steps::lemma_shaped_covered(files, s.assign);
    app::lemma_current(files, s.assign, s.pos as int);
    assert(steps::shaped_file(files[f].hunks@, s.assign[f]));
    assert(files[f].hunks.len() == files[f].hunks@.len());
    if let Some((fi, hi)) = steps::current(files, s) {
        assert(steps::shaped_file(files[fi as int].hunks@, s.assign[fi as int]));
    }
}

/// A line that is assigned stays with its commit, unless its hunk is taken back
/// or commits change places.
pub proof fn law_assigned_lines_stay(
    files: Seq<FileDiff>,
    s: AppView,
    k: KeyEvent,
    f: int,
    h: int,
    l: int,
)
    requires
        files.len() <= usize::MAX,
        steps::sound(files, s),
        !(s.mode is Manage) || s.ext_input is Some,
        !(s.mode is Browse && s.ext_input is None && k.code == KeyCode::Char('u')),
        0 <= f < files.len(),
        0 <= h < files[f].hunks@.len(),
        0 <= l < files[f].hunks@[h].lines@.len(),
        s.assign[f][h][l] is Some,
    ensures
        steps::pressed(files, s, k).assign[f][h][l] == s.assign[f][h][l],
{
    steps::lemma_shaped_covered(files, s.assign);
    app::lemma_current(files, s.assign, s.pos as int);
    assert(steps::shaped_file(files[f].hunks@, s.assign[f]));
    assert(files[f].hunks.len() == files[f].hunks@.len());
    assert(files[f].hunks@[h].lines.len() == files[f].hunks@[h].lines@.len());
    if steps::current(files, s) != Some((f as usize, h as usize)) {
        law_keys_assign_only_the_current_hunk(files, s, k, f, h);
    } else {
        let lines = files[f].hunks@[h].lines@;
        app::lemma_open_lines(lines, s.assign[f][h], lines.len() as int);
        assert(!app::open_line(lines[l], s.assign[f][h][l]));
        if let ModeView::Select { selected, .. } = s.mode {
            steps::lemma_ascending_members(selected);
        }
    }
}

// ---------------------------------------------------------------------------
// Commits.

/// No key takes a commit away, and a key adds at most one.
pub proof fn law_commits_are_kept(files: Seq<FileDiff>, s: AppView, k: KeyEvent)
    requires
        steps::sound(files, s),
    ensures
        s.commits.len() <= steps::pressed(files, s, k).commits.len() <= s.commits.len() + 1,
{
}

/// Commits that change places twice are where they were, with their lines.
pub proof fn law_swapping_twice_changes_nothing(s: AppView, a: usize, b: usize)
    requires
        a < s.commits.len(),
        b < s.commits.len(),
    ensures
        steps::swap_commits(steps::swap_commits(s, a, b), a, b) == s,
{
    let t = steps::swap_commits(steps::swap_commits(s, a, b), a, b);
    assert(t.commits =~= s.commits);
    assert forall|f: int| 0 <= f < s.assign.len() implies #[trigger] t.assign[f] == s.assign[f] by {
        assert forall|h: int| 0 <= h < s.assign[f].len() implies #[trigger] t.assign[f][h]
            == s.assign[f][h] by {
            assert(t.assign[f][h] =~= s.assign[f][h]);
        }
        assert(t.assign[f] =~= s.assign[f]);
    }
    assert(t.assign =~= s.assign);
}

/// When commits change places, each line stays with its message.
pub proof fn law_swapping_keeps_lines_with_messages(
    files: Seq<FileDiff>,
    s: AppView,
    a: usize,
    b: usize,
    f: int,
    h: int,
    l: int,
)
    requires
        a < s.commits.len(),
        b < s.commits.len(),
        steps::sound(files, s),
        0 <= f < files.len(),
        0 <= h < files[f].hunks@.len(),
        0 <= l < files[f].hunks@[h].lines@.len(),
    ensures
        match (s.assign[f][h][l], steps::swap_commits(s, a, b).assign[f][h][l]) {
            (Some(i), Some(j)) => steps::swap_commits(s, a, b).commits[j as int]
                == s.commits[i as int],
            (None, None) => true,
            _ => false,
        },
{
    assert(steps::shaped_file(files[f].hunks@, s.assign[f]));
}

/// Only the review asks for commits to be made, with `enter` or `y`, and not
/// while a message is edited.
pub proof fn law_only_the_review_asks_for_commits(files: Seq<FileDiff>, s: AppView, k: KeyEvent)
    requires
        !s.request_commit,
        steps::pressed(files, s, k).request_commit,
    ensures
        s.mode matches ModeView::Review { edit: None, .. } && s.ext_input is None && (k.code
            == KeyCode::Enter || k.code == KeyCode::Char('y')),
        same_assignments(steps::pressed(files, s, k), s),
{
}

/// A key that ends the session asks for no commits and assigns nothing.
pub proof fn law_quitting_changes_nothing(files: Seq<FileDiff>, s: AppView, k: KeyEvent)
    requires
        s.outcome is None,
        steps::pressed(files, s, k).outcome is Some,
    ensures
        steps::pressed(files, s, k).outcome == Some(app::OutcomeView::Quit),
        steps::pressed(files, s, k).request_commit == s.request_commit,
        same_assignments(steps::pressed(files, s, k), s),
{
}

// ---------------------------------------------------------------------------
// Typing, picking and leaving.

/// Typing the key that a commit is labelled with assigns to that commit, with
/// the enter key where a longer number could name another one.
pub proof fn law_typed_label_assigns(files: Seq<FileDiff>, s: AppView, ci: int)
    requires
        takes_numbers(files, s),
        0 <= ci < s.commits.len() <= usize::MAX,
    ensures
        (if ci < 9 || (ci + 1) * 10 > s.commits.len() {
            typed(files, s, steps::label(ci))
        } else {
            steps::pressed(files, typed(files, s, steps::label(ci)), key(KeyCode::Enter))
        }) == steps::assign_via_key(files, quiet(s), ci as usize),
{
    let id = (ci + 1) as nat;
    if ci < 9 {
        law_digit_assigns(files, s, id);
    } else {
        reveal_strlit("0");
        assert("0"@ =~= seq!['0']);
        law_typed_number_assigns(files, s, id);
    }
}

/// The interrupt key ends the session in every mode, and changes nothing else.
pub proof fn law_interrupt_quits(files: Seq<FileDiff>, s: AppView)
    ensures
        steps::pressed(files, s, KeyEvent { code: KeyCode::Char('c'), control: true }) == (AppView {
            outcome: Some(app::OutcomeView::Quit),
            ..quiet(s)
        }),
{
}

/// The escape key changes no commit and no assignment, in any mode.
pub proof fn law_escape_assigns_nothing(files: Seq<FileDiff>, s: AppView)
    ensures
        same_assignments(steps::pressed(files, s, key(KeyCode::Esc)), s),
        steps::pressed(files, s, key(KeyCode::Esc)).request_commit == s.request_commit,
{
}

/// A character that is typed into a message is taken back by the backspace key.
pub proof fn law_backspace_takes_back(files: Seq<FileDiff>, s: AppView, c: char)
    requires
        s.ext_input is None,
        s.mode is Name || (s.mode matches app::ModeView::Review { edit: Some(_), .. }),
    ensures
        steps::pressed(
            files,
            steps::pressed(files, s, key(KeyCode::Char(c))),
            key(KeyCode::Backspace),
        ) == quiet(s),
{
    match s.mode {
        ModeView::Name { input, .. } => {
            assert(input.push(c).drop_last() =~= input);
        },
        ModeView::Review { edit: Some(buf), .. } => {
            assert(buf.push(c).drop_last() =~= buf);
        },
        _ => {},
    }
}

/// While lines are picked, the space key picks the line under the cursor, or
/// drops it, and no other.
pub proof fn law_space_toggles_one_line(
    files: Seq<FileDiff>,
    s: AppView,
    cursor: usize,
    selected: Set<usize>,
    l: usize,
)
    requires
        s.ext_input is None,
        s.mode == (ModeView::Select { cursor, selected }),
        steps::current(files, s) matches Some((fi, hi)) && cursor < app::open_lines_of(
            files,
            s.assign,
            fi as int,
            hi as int,
        ).len(),
    ensures
        ({
            let (fi, hi) = steps::current(files, s).unwrap();
            let line = app::open_lines_of(files, s.assign, fi as int, hi as int)[cursor as int];
            steps::pressed(files, s, key(KeyCode::Char(' '))).mode matches ModeView::Select {
                selected: after,
                ..
            } && (after.contains(l) <==> (selected.contains(l) != (l == line)))
        }),
        same_assignments(steps::pressed(files, s, key(KeyCode::Char(' '))), s),
{
    assert(steps::current(files, quiet(s)) == steps::current(files, s));
}

/// What is said belongs to the last key: each key takes back what was said
/// before it.
pub proof fn law_what_was_said_is_taken_back(
    files: Seq<FileDiff>,
    s: AppView,
    t: AppView,
    k: KeyEvent,
)
    requires
        quiet(s) == quiet(t),
    ensures
        steps::pressed(files, s, k) == steps::pressed(files, t, k),
{
}

} // verus!
