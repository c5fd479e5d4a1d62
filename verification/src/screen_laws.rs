//! What each row of each panel shows.
use vstd::prelude::*;

use crate::app;
use crate::app::{AppView, ModeView, Tally};
use crate::assign_laws;
use crate::diff::{DiffLine, FileDiff, LineKind};
use crate::steps;
use crate::text;
use crate::ui;
use crate::ui::{Color, RowView, Screen, SpanView, Style};

verus! {

// ---------------------------------------------------------------------------
// Counts.

/// How many of the first `n` lines are of a kind and assigned as given.
pub open spec fn lines_with(
    kind: LineKind,
    a: Option<usize>,
    lines: Seq<DiffLine>,
    row: Seq<Option<usize>>,
    n: int,
) -> nat
    decreases n,
{
    if n <= 0 {
        0
    } else {
        lines_with(kind, a, lines, row, n - 1) + if lines[n - 1].kind == kind && row[n - 1] == a {
            1nat
        } else {
            0nat
        }
    }
}

/// The same, of the first `n` hunks of a file.
pub open spec fn in_hunks(
    kind: LineKind,
    a: Option<usize>,
    file: FileDiff,
    rows: Seq<Seq<Option<usize>>>,
    n: int,
) -> nat
    decreases n,
{
    if n <= 0 {
        0
    } else {
        in_hunks(kind, a, file, rows, n - 1) + lines_with(
            kind,
            a,
            file.hunks@[n - 1].lines@,
            rows[n - 1],
            file.hunks@[n - 1].lines@.len() as int,
        )
    }
}

/// The same, of the first `n` files.
pub open spec fn in_files(
    kind: LineKind,
    a: Option<usize>,
    files: Seq<FileDiff>,
    assign: Seq<Seq<Seq<Option<usize>>>>,
    n: int,
) -> nat
    decreases n,
{
    if n <= 0 {
        0
    } else {
        in_files(kind, a, files, assign, n - 1) + in_hunks(
            kind,
            a,
            files[n - 1],
            assign[n - 1],
            files[n - 1].hunks@.len() as int,
        )
    }
}

proof fn lemma_lines(c: usize, lines: Seq<DiffLine>, row: Seq<Option<usize>>, n: int)
    ensures
        app::tally_lines(Tally::AddedIn(c), lines, row, n) == lines_with(
            LineKind::Add,
            Some(c),
            lines,
            row,
            n,
        ),
        app::tally_lines(Tally::RemovedIn(c), lines, row, n) == lines_with(
            LineKind::Del,
            Some(c),
            lines,
            row,
            n,
        ),
        app::tally_lines(Tally::Open, lines, row, n) == lines_with(
            LineKind::Add,
            None,
            lines,
            row,
            n,
        ) + lines_with(LineKind::Del, None, lines, row, n),
    decreases n,
{
    if n > 0 {
        lemma_lines(c, lines, row, n - 1);
    }
}

proof fn lemma_hunks(c: usize, file: FileDiff, rows: Seq<Seq<Option<usize>>>, n: int)
    ensures
        app::tally_hunks(Tally::AddedIn(c), file.hunks@, rows, n) == in_hunks(
            LineKind::Add,
            Some(c),
            file,
            rows,
            n,
        ),
        app::tally_hunks(Tally::RemovedIn(c), file.hunks@, rows, n) == in_hunks(
            LineKind::Del,
            Some(c),
            file,
            rows,
            n,
        ),
        app::tally_hunks(Tally::Open, file.hunks@, rows, n) == in_hunks(
            LineKind::Add,
            None,
            file,
            rows,
            n,
        ) + in_hunks(LineKind::Del, None, file, rows, n),
    decreases n,
{
    if n > 0 {
        lemma_hunks(c, file, rows, n - 1);
        lemma_lines(
            c,
            file.hunks@[n - 1].lines@,
            rows[n - 1],
            file.hunks@[n - 1].lines@.len() as int,
        );
    }
}

proof fn lemma_files(
    c: usize,
    files: Seq<FileDiff>,
    assign: Seq<Seq<Seq<Option<usize>>>>,
    n: int,
)
    ensures
        app::tally_files(Tally::AddedIn(c), files, assign, n) == in_files(
            LineKind::Add,
            Some(c),
            files,
            assign,
            n,
        ),
        app::tally_files(Tally::RemovedIn(c), files, assign, n) == in_files(
            LineKind::Del,
            Some(c),
            files,
            assign,
            n,
        ),
        app::tally_files(Tally::Open, files, assign, n) == in_files(
            LineKind::Add,
            None,
            files,
            assign,
            n,
        ) + in_files(LineKind::Del, None, files, assign, n),
    decreases n,
{
    if n > 0 {
        lemma_files(c, files, assign, n - 1);
        lemma_hunks(c, files[n - 1], assign[n - 1], files[n - 1].hunks@.len() as int);
    }
}

/// How many lines of a kind are assigned as given, in all files.
pub open spec fn count(
    kind: LineKind,
    a: Option<usize>,
    files: Seq<FileDiff>,
    assign: Seq<Seq<Seq<Option<usize>>>>,
) -> nat {
    in_files(kind, a, files, assign, files.len() as int)
}

/// The counts of a commit are those of the additions and of the removals that it
/// has, and what is open are the additions and removals that no commit has.
pub proof fn law_counts_are_those_of_the_lines(
    files: Seq<FileDiff>,
    assign: Seq<Seq<Seq<Option<usize>>>>,
    c: usize,
)
    ensures
        app::tally(Tally::AddedIn(c), files, assign) == count(
            LineKind::Add,
            Some(c),
            files,
            assign,
        ),
        app::tally(Tally::RemovedIn(c), files, assign) == count(
            LineKind::Del,
            Some(c),
            files,
            assign,
        ),
        app::tally(Tally::Open, files, assign) == count(LineKind::Add, None, files, assign) + count(
            LineKind::Del,
            None,
            files,
            assign,
        ),
{
    lemma_files(c, files, assign, files.len() as int);
}

// ---------------------------------------------------------------------------
// Rows.

/// A plain text.
pub open spec fn plain() -> Style {
    Style { fg: None, bold: false, dim: false, reversed: false, blink: false }
}

/// A text in a colour.
pub open spec fn in_color(c: Color) -> Style {
    Style { fg: Some(c), bold: false, dim: false, reversed: false, blink: false }
}

/// A row of one text.
pub open spec fn one(text: Seq<char>, style: Style) -> RowView {
    RowView::Styled(SpanView { text, style })
}

/// A row of two texts.
pub open spec fn two(a: Seq<char>, s: Style, b: Seq<char>, t: Style) -> RowView {
    RowView::Parts(seq![SpanView { text: a, style: s }, SpanView { text: b, style: t }])
}

/// The counts of a commit.
pub open spec fn counts(files: Seq<FileDiff>, s: AppView, ci: int) -> Seq<char> {
    "+"@ + text::decimal(count(LineKind::Add, Some(ci as usize), files, s.assign)) + " -"@
        + text::decimal(count(LineKind::Del, Some(ci as usize), files, s.assign))
}

/// The number of changes that no commit has.
pub open spec fn open(files: Seq<FileDiff>, s: AppView) -> nat {
    count(LineKind::Add, None, files, s.assign) + count(LineKind::Del, None, files, s.assign)
}

proof fn lemma_counts(files: Seq<FileDiff>, s: AppView, ci: int)
    ensures
        ui::stats(files, s, ci) == counts(files, s, ci),
        ui::open_count(files, s) == open(files, s),
        ui::key_tag(ci) == "["@ + assign_laws::key_of(ci) + "] "@,
{
    law_counts_are_those_of_the_lines(files, s.assign, ci as usize);
}

proof fn lemma_two(x: SpanView, y: SpanView)
    ensures
        RowView::Parts(seq![x, y]) == two(x.text, x.style, y.text, y.style),
{
    assert(seq![x, y] =~= seq![
        SpanView { text: x.text, style: x.style },
        SpanView { text: y.text, style: y.style },
    ]);
}

/// A text is padded with spaces up to a width, and longer ones stay as they are.
pub proof fn law_padding(s: Seq<char>, width: nat, i: int)
    ensures
        s.is_prefix_of(ui::padded(s, width)),
        ui::padded(s, width).len() == if s.len() < width {
            width
        } else {
            s.len()
        },
        s.len() <= i < ui::padded(s, width).len() ==> ui::padded(s, width)[i] == ' ',
    decreases width - s.len(),
{
    if s.len() < width {
        law_padding(s.push(' '), width, i);
        let p = ui::padded(s, width);
        assert(s =~= p.take(s.len() as int)) by {
            assert(s.push(' ') =~= p.take(s.len() as int + 1));
            assert forall|k: int| 0 <= k < s.len() implies s[k] == p[k] by {
                assert(s.push(' ')[k] == p.take(s.len() as int + 1)[k]);
            }
        }
        if i == s.len() {
            assert(s.push(' ') =~= p.take(s.len() as int + 1));
            assert(s.push(' ')[i] == p.take(s.len() as int + 1)[i]);
        }
    } else {
        assert(s =~= s.take(s.len() as int));
    }
}

/// The panel of the hunk that is shown names its file, its place among the hunks
/// that have a change that no commit has, and whether lines are picked; its first
/// row is the header, and each other one a line with its mark, the commit that has
/// it, and whether it is picked or under the cursor.
pub proof fn law_hunk_panel(
    files: Seq<FileDiff>,
    s: AppView,
    height: u16,
    f: int,
    h: int,
    l: int,
)
    requires
        files.len() <= usize::MAX,
        assign_laws::shown(files, s, f, h),
        0 <= l < files[f].hunks@[h].lines@.len(),
    ensures
        ui::hunk_panel(files, s, height) matches Some(p) && ({
            let lines = files[f].hunks@[h].lines@;
            let row = s.assign[f][h];
            let line = lines[l];
            let under = s.mode matches ModeView::Select { cursor, .. }
                && assign_laws::under_cursor(lines, row, cursor as int, l);
            let picked = s.mode matches ModeView::Select { selected, .. } && selected.contains(
                l as usize,
            );
            &&& p.title == " "@ + files[f].path@ + " — hunk "@ + text::decimal(
                (s.pos + 1) as nat,
            ) + "/"@ + text::decimal(
                assign_laws::waiting(files, s.assign, files.len() as int) as nat,
            ) + (if s.mode is Select {
                " [picking lines]"@
            } else {
                ""@
            }) + " "@
            &&& p.rows.len() == lines.len() + 1
            &&& p.rows[0] == one(files[f].hunks@[h].header@, in_color(Color::Cyan))
            &&& p.rows[1 + l] == two(
                seq![
                    if under {
                        '>'
                    } else {
                        ' '
                    },
                    if picked {
                        '*'
                    } else {
                        ' '
                    },
                ] + ui::padded(
                    match row[l] {
                        Some(ci) => "["@ + assign_laws::key_of(ci as int) + "]"@,
                        None => Seq::<char>::empty(),
                    },
                    5,
                ) + " "@,
                in_color(Color::Yellow),
                seq![
                    match line.kind {
                        LineKind::Add => '+',
                        LineKind::Del => '-',
                        LineKind::Context => ' ',
                    },
                ] + line.content@,
                Style {
                    fg: Some(
                        match line.kind {
                            LineKind::Add => Color::Green,
                            LineKind::Del => Color::Red,
                            LineKind::Context => Color::DarkGray,
                        },
                    ),
                    bold: picked,
                    dim: row[l] is Some,
                    reversed: under,
                    blink: false,
                },
            )
        }),
{
    assign_laws::law_current_hunk_is_shown(files, s, f, h);
    assign_laws::lemma_waiting(files, s.assign, files.len() as int, f, h);
    assert(files[f].hunks.len() == files[f].hunks@.len());
    assert(files[f].hunks@[h].lines.len() == files[f].hunks@[h].lines@.len());
    let lines = files[f].hunks@[h].lines@;
    let row = s.assign[f][h];
    let n = lines.len() as int;
    if let ModeView::Select { cursor, .. } = s.mode {
        app::lemma_open_lines(lines, row, n);
        let open = app::open_lines(lines, row, n);
        if assign_laws::under_cursor(lines, row, cursor as int, l) {
            assign_laws::lemma_under_cursor(lines, row, n, l);
        } else if ui::cursor_line(files, s, f, h) == Some(l as usize) {
            let x = open[cursor as int] as int;
            assert(assign_laws::free(lines[x], row[x]));
            assign_laws::lemma_under_cursor(lines, row, n, x);
            assign_laws::lemma_at_cursor(lines, row, n, cursor as int);
        }
    }
}

/// The rows of a hunk are scrolled as before, unless the line under the cursor would
/// not be seen: then as little as is needed. They are never scrolled beyond the last.
pub proof fn law_scrolling(scroll: int, picking: bool, at: int, height: int, rows: int)
    requires
        0 <= scroll,
        0 <= at < rows <= u16::MAX,
        0 < height,
    ensures
        ({
            let most = if rows > height {
                rows - height
            } else {
                0
            };
            let wanted = if !picking || scroll <= at < scroll + height {
                scroll
            } else if at < scroll {
                at
            } else {
                at - height + 1
            };
            ui::scrolled(scroll, picking, at, height, rows) == if wanted <= most {
                wanted
            } else {
                most
            }
        }),
{
    vstd::arithmetic::div_mod::lemma_small_mod(rows as nat, 0x1_0000);
}

/// The panel of the hunk is scrolled as before while hunks are browsed, and so that
/// the line under the cursor is seen while lines are picked, but never beyond its
/// last row.
pub proof fn law_hunk_panel_is_scrolled(
    files: Seq<FileDiff>,
    s: AppView,
    height: u16,
    f: int,
    h: int,
    l: int,
)
    requires
        files.len() <= usize::MAX,
        assign_laws::shown(files, s, f, h),
        height > 2,
        files[f].hunks@[h].lines@.len() < u16::MAX,
        s.mode matches ModeView::Select { cursor, .. } ==> assign_laws::under_cursor(
            files[f].hunks@[h].lines@,
            s.assign[f][h],
            cursor as int,
            l,
        ),
    ensures
        ui::hunk_panel(files, s, height) matches Some(p) && ({
            let seen = height - 2;
            let rows = files[f].hunks@[h].lines@.len() + 1;
            let most = if rows > seen {
                rows - seen
            } else {
                0
            };
            let wanted = if !(s.mode is Select) || s.scroll <= l + 1 < s.scroll + seen {
                s.scroll as int
            } else if l + 1 < s.scroll {
                l + 1
            } else {
                l + 2 - seen
            };
            p.scroll == if wanted <= most {
                wanted
            } else {
                most
            }
        }),
{
    assign_laws::law_current_hunk_is_shown(files, s, f, h);
    assert(files[f].hunks.len() == files[f].hunks@.len());
    assert(files[f].hunks@[h].lines.len() == files[f].hunks@[h].lines@.len());
    let lines = files[f].hunks@[h].lines@;
    let rows = lines.len() + 1;
    if s.mode is Select {
        assign_laws::lemma_under_cursor(lines, s.assign[f][h], lines.len() as int, l);
        vstd::arithmetic::div_mod::lemma_small_mod((l + 1) as nat, 0x1_0000);
        assert(ui::cursor_line(files, s, f, h) == Some(l as usize));
        law_scrolling(s.scroll as int, true, l + 1, height - 2, rows as int);
    } else {
        law_scrolling(s.scroll as int, false, 0, height - 2, rows as int);
    }
}

/// The rows of a hunk can be scrolled unless lines are picked, the cursor is at or
/// below the first row that is shown, and the last one that fits has too large a
/// number.
pub proof fn law_scrolling_is_possible(
    files: Seq<FileDiff>,
    s: AppView,
    height: u16,
    f: int,
    h: int,
    l: int,
)
    requires
        files.len() <= usize::MAX,
        assign_laws::shown(files, s, f, h),
        0 <= l < u16::MAX,
    ensures
        !(s.mode is Select) || height <= 2 || s.scroll + height - 2 <= u16::MAX ==> ui::scrollable(
            files,
            s,
            height,
        ),
        (s.mode matches ModeView::Select { cursor, .. } && assign_laws::under_cursor(
            files[f].hunks@[h].lines@,
            s.assign[f][h],
            cursor as int,
            l,
        )) && height > 2 && s.scroll + height - 2 > u16::MAX ==> (ui::scrollable(files, s, height)
            <==> l + 1 < s.scroll),
{
    assign_laws::law_current_hunk_is_shown(files, s, f, h);
    assert(files[f].hunks.len() == files[f].hunks@.len());
    assert(files[f].hunks@[h].lines.len() == files[f].hunks@[h].lines@.len());
    let lines = files[f].hunks@[h].lines@;
    if let ModeView::Select { cursor, .. } = s.mode {
        if assign_laws::under_cursor(lines, s.assign[f][h], cursor as int, l) {
            assign_laws::lemma_under_cursor(lines, s.assign[f][h], lines.len() as int, l);
            vstd::arithmetic::div_mod::lemma_small_mod((l + 1) as nat, 0x1_0000);
            assert(ui::cursor_line(files, s, f, h) == Some(l as usize));
        }
    }
}

/// No hunk is shown when no change is left.
pub proof fn law_no_hunk_panel(files: Seq<FileDiff>, s: AppView, height: u16)
    requires
        assign_laws::waiting(files, s.assign, files.len() as int) == 0,
    ensures
        ui::hunk_panel(files, s, height) is None,
{
    assign_laws::lemma_waiting(files, s.assign, files.len() as int, 0, 0);
}

proof fn lemma_side_rows(files: Seq<FileDiff>, s: AppView, n: int, ci: int)
    requires
        s.commits.len() > 0,
        0 <= n,
    ensures
        ui::side_rows(files, s, n).len() == 2 * n,
        0 <= ci < n ==> ui::side_rows(files, s, n)[2 * ci] == two(
            "["@ + assign_laws::key_of(ci) + "] "@,
            Style { bold: true, ..in_color(Color::Cyan) },
            s.commits[ci],
            plain(),
        ) && ui::side_rows(files, s, n)[2 * ci + 1] == one(
            "      "@ + counts(files, s, ci),
            in_color(Color::DarkGray),
        ),
    decreases n,
{
    if n > 0 {
        lemma_side_rows(files, s, n - 1, ci);
        lemma_counts(files, s, n - 1);
        let x = ui::span(ui::key_tag(n - 1), Style { bold: true, ..ui::colored(Color::Cyan) });
        let y = ui::span(s.commits[n - 1], ui::no_style());
        lemma_two(x, y);
        let r = ui::side_rows(files, s, n)[2 * n - 2];
        assert(r is Parts);
        assert(r->Parts_0 =~= seq![x, y]);
    }
}

/// Beside the hunk stand the commits with their keys, messages and counts, in
/// their order, then an empty row and the number of changes that no commit has.
pub proof fn law_side_panel(files: Seq<FileDiff>, s: AppView, branch: Seq<char>, ci: int)
    ensures
        ({
            let p = ui::side_panel(files, s, branch);
            let n = s.commits.len() as int;
            let m = if n == 0 {
                2int
            } else {
                2 * n
            };
            &&& p.title == " commits — "@ + branch + " "@
            &&& p.scroll == 0
            &&& p.rows.len() == m + 2
            &&& n == 0 ==> p.rows[0] == one("no commits yet"@, in_color(Color::DarkGray))
                && p.rows[1] == one("press n to create one"@, in_color(Color::DarkGray))
            &&& 0 <= ci < n ==> p.rows[2 * ci] == two(
                "["@ + assign_laws::key_of(ci) + "] "@,
                Style { bold: true, ..in_color(Color::Cyan) },
                s.commits[ci],
                plain(),
            ) && p.rows[2 * ci + 1] == one(
                "      "@ + counts(files, s, ci),
                in_color(Color::DarkGray),
            )
            &&& p.rows[m] == one(""@, plain())
            &&& p.rows[m + 1] == one(
                text::decimal(open(files, s)) + " line(s) unassigned"@,
                in_color(Color::DarkGray),
            )
        }),
{
    lemma_counts(files, s, 0);
    if s.commits.len() > 0 {
        lemma_side_rows(files, s, s.commits.len() as int, ci);
    }
}

/// How a commit is shown in the review: with its key, the message or what is being
/// typed for it, and its counts, or that it is skipped when it has no line.
pub open spec fn reviewed(
    files: Seq<FileDiff>,
    s: AppView,
    sel: usize,
    edit: Option<Seq<char>>,
    ci: int,
) -> RowView {
    let message = if edit is Some && ci == sel {
        edit.unwrap() + "_"@
    } else {
        s.commits[ci]
    };
    let none = count(LineKind::Add, Some(ci as usize), files, s.assign) == 0 && count(
        LineKind::Del,
        Some(ci as usize),
        files,
        s.assign,
    ) == 0;
    two(
        "["@ + assign_laws::key_of(ci) + "] "@ + message,
        Style { reversed: ci == sel, ..plain() },
        if none {
            "  (empty — skipped)"@
        } else {
            "  ("@ + counts(files, s, ci) + ")"@
        },
        in_color(Color::DarkGray),
    )
}

proof fn lemma_review_rows(
    files: Seq<FileDiff>,
    s: AppView,
    sel: usize,
    edit: Option<Seq<char>>,
    n: int,
    ci: int,
)
    requires
        0 <= n,
    ensures
        ui::review_rows(files, s, sel, edit, n).len() == 2 + n,
        ui::review_rows(files, s, sel, edit, n)[0] == one(
            "the following commits will be created (in this order):"@,
            in_color(Color::DarkGray),
        ),
        ui::review_rows(files, s, sel, edit, n)[1] == one(""@, plain()),
        0 <= ci < n ==> ui::review_rows(files, s, sel, edit, n)[2 + ci] == reviewed(
            files,
            s,
            sel,
            edit,
            ci,
        ),
    decreases n,
{
    if n > 0 {
        lemma_review_rows(files, s, sel, edit, n - 1, ci);
        lemma_counts(files, s, n - 1);
        law_counts_are_those_of_the_lines(files, s.assign, (n - 1) as usize);
        lemma_review_row(files, s, sel, edit, n - 1);
        assert(ui::review_rows(files, s, sel, edit, n)[1 + n] == ui::review_row(
            files,
            s,
            n - 1,
            sel,
            edit,
        ));
    }
}

proof fn lemma_review_row(
    files: Seq<FileDiff>,
    s: AppView,
    sel: usize,
    edit: Option<Seq<char>>,
    ci: int,
)
    ensures
        ui::review_row(files, s, ci, sel, edit) == reviewed(files, s, sel, edit, ci),
{
    lemma_counts(files, s, ci);
    law_counts_are_those_of_the_lines(files, s.assign, ci as usize);
    let a = ui::review_row(files, s, ci, sel, edit);
    let b = reviewed(files, s, sel, edit, ci);
    assert(a->Parts_0[0] == b->Parts_0[0]);
    assert(a->Parts_0[1] == b->Parts_0[1]);
    assert(a->Parts_0 =~= b->Parts_0);
}

/// The review shows the commits in their order, a warning when changes are left,
/// and the branch.
pub proof fn law_review_panel(
    files: Seq<FileDiff>,
    s: AppView,
    branch: Seq<char>,
    sel: usize,
    edit: Option<Seq<char>>,
    ci: int,
)
    requires
        s.mode == (ModeView::Review { sel, edit }),
    ensures
        ui::review_panel(files, s, branch) matches Some(p) && ({
            let n = s.commits.len() as int;
            let warned = if open(files, s) > 0 {
                1int
            } else {
                0int
            };
            &&& p.title == " review "@
            &&& p.scroll == 0
            &&& p.rows.len() == 2 + n + 1 + warned + 1
            &&& p.rows[0] == one(
                "the following commits will be created (in this order):"@,
                in_color(Color::DarkGray),
            )
            &&& p.rows[1] == one(""@, plain())
            &&& 0 <= ci < n ==> p.rows[2 + ci] == reviewed(files, s, sel, edit, ci)
            &&& p.rows[2 + n] == one(""@, plain())
            &&& open(files, s) > 0 ==> p.rows[2 + n + 1] == one(
                text::decimal(open(files, s))
                    + " change line(s) unassigned — they will remain staged."@,
                in_color(Color::Yellow),
            )
            &&& p.rows[2 + n + 1 + warned] == one(
                "committing onto: "@ + branch,
                in_color(Color::DarkGray),
            )
        }),
{
    lemma_counts(files, s, 0);
    lemma_review_rows(files, s, sel, edit, s.commits.len() as int, ci);
}

proof fn lemma_manage_rows(
    files: Seq<FileDiff>,
    s: AppView,
    cursor: usize,
    mark: Option<usize>,
    n: int,
    ci: int,
)
    requires
        0 <= n <= usize::MAX,
    ensures
        ui::manage_rows(files, s, cursor, mark, n).len() == 2 + n,
        ui::manage_rows(files, s, cursor, mark, n)[0] == one(
            "swap two commits' keys (this also swaps their creation order):"@,
            in_color(Color::DarkGray),
        ),
        ui::manage_rows(files, s, cursor, mark, n)[1] == one(""@, plain()),
        0 <= ci < n ==> ui::manage_rows(files, s, cursor, mark, n)[2 + ci] == managed(
            files,
            s,
            cursor,
            mark,
            ci,
        ),
    decreases n,
{
    if n > 0 {
        lemma_manage_rows(files, s, cursor, mark, n - 1, ci);
        lemma_counts(files, s, n - 1);
    }
}

/// How a commit is shown while commits change places.
pub open spec fn managed(
    files: Seq<FileDiff>,
    s: AppView,
    cursor: usize,
    mark: Option<usize>,
    ci: int,
) -> RowView {
    let marked = mark == Some(ci as usize);
    two(
        seq![
            if marked {
                '*'
            } else {
                ' '
            },
        ] + ("["@ + assign_laws::key_of(ci) + "] "@) + s.commits[ci],
        Style {
            fg: if marked {
                Some(Color::Yellow)
            } else {
                None
            },
            bold: marked,
            dim: false,
            reversed: ci == cursor,
            blink: false,
        },
        "  ("@ + counts(files, s, ci) + ")"@,
        in_color(Color::DarkGray),
    )
}

/// While commits change places, they are shown in their order, with the one under
/// the cursor and the one that is marked.
pub proof fn law_manage_panel(
    files: Seq<FileDiff>,
    s: AppView,
    cursor: usize,
    mark: Option<usize>,
    back: Option<usize>,
    ci: int,
)
    requires
        s.mode == (ModeView::Manage { cursor, mark, back }),
        s.commits.len() <= usize::MAX,
    ensures
        ui::manage_panel(files, s) matches Some(p) && ({
            &&& p.title == " manage commits "@
            &&& p.scroll == 0
            &&& p.rows.len() == 2 + s.commits.len()
            &&& p.rows[0] == one(
                "swap two commits' keys (this also swaps their creation order):"@,
                in_color(Color::DarkGray),
            )
            &&& p.rows[1] == one(""@, plain())
            &&& 0 <= ci < s.commits.len() ==> p.rows[2 + ci] == managed(
                files,
                s,
                cursor,
                mark,
                ci,
            )
        }),
{
    lemma_manage_rows(files, s, cursor, mark, s.commits.len() as int, ci);
}

/// What fills the screen goes by the mode, and each panel is there in its own.
pub proof fn law_screens(files: Seq<FileDiff>, s: AppView, branch: Seq<char>)
    ensures
        ui::screen_of(s.mode) == Screen::Review <==> s.mode is Review,
        ui::screen_of(s.mode) == Screen::Manage <==> s.mode is Manage,
        ui::review_panel(files, s, branch) is Some <==> s.mode is Review,
        ui::manage_panel(files, s) is Some <==> s.mode is Manage,
{
}

/// A row for what is being typed.
pub open spec fn typing(what: Seq<char>, typed: Seq<char>, hint: Seq<char>) -> RowView {
    RowView::Parts(
        seq![
            SpanView { text: what, style: in_color(Color::Cyan) },
            SpanView { text: typed, style: plain() },
            SpanView { text: "_"@, style: Style { blink: true, ..plain() } },
            SpanView { text: hint, style: in_color(Color::DarkGray) },
        ],
    )
}

/// The footer shows the number or the message that is being typed, or else what
/// was said last, or else the keys of the mode.
pub proof fn law_footer(s: AppView)
    ensures
        s.ext_input matches Some(digits) ==> ui::footer_row(s) == typing(
            "assign to commit: 0"@,
            digits,
            "   (digits, enter: confirm, esc: cancel)"@,
        ),
        s.ext_input is None ==> (s.mode matches ModeView::Name { input, .. } ==> ui::footer_row(s)
            == typing(
            "new commit message: "@,
            input,
            "   (enter: confirm, esc: cancel)"@,
        )),
        s.ext_input is None && !(s.mode is Name) ==> match s.status {
            Some(said) => ui::footer_row(s) == one(said, in_color(Color::Yellow)),
            None => ui::footer_row(s) == one(ui::hints(s.mode), in_color(Color::DarkGray)),
        },
        s.mode is Browse ==> ui::hints(s.mode)
            == "1-9/0<id> assign hunk | n new commit | v pick lines | s/h skip/back | j/k scroll | u unassign | m manage | d review | q quit"@,
        s.mode is Select ==> ui::hints(s.mode)
            == "space toggle | a all | 1-9/0<id> assign selection | n new commit | j/k move | esc cancel"@,
        s.mode matches ModeView::Review { edit, .. } ==> ui::hints(s.mode) == if edit is Some {
            "enter: save message, esc: cancel"@
        } else {
            "enter create commits | e edit message | m manage | j/k move | esc back | q quit"@
        },
        s.mode matches ModeView::Manage { mark, .. } ==> ui::hints(s.mode) == if mark is Some {
            "enter/space swap with marked | j/k move | esc back"@
        } else {
            "enter/space mark commit | j/k move | esc back"@
        },
{
    let row = ui::footer_row(s);
    if let Some(digits) = s.ext_input {
        let b = typing(
            "assign to commit: 0"@,
            digits,
            "   (digits, enter: confirm, esc: cancel)"@,
        );
        assert(row->Parts_0 =~= b->Parts_0);
    } else if let ModeView::Name { input, .. } = s.mode {
        let b = typing("new commit message: "@, input, "   (enter: confirm, esc: cancel)"@);
        assert(row->Parts_0 =~= b->Parts_0);
    }
}

} // verus!
