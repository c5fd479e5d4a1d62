//! What the screen shows: the texts and their styles, panel by panel.
use vstd::prelude::*;

use crate::app;
use crate::app::{App, AppView, Mode, ModeView, Tally};
use crate::diff::{DiffLine, FileDiff, LineKind};
use crate::steps;
use crate::text;
use crate::text::{append, decimal_string};

verus! {

/// A colour of the terminal.
#[derive(Debug, Clone, Copy, PartialEq, Eq, Structural)]
pub enum Color {
    Cyan,
    Green,
    Red,
    DarkGray,
    Yellow,
}

/// How a text is shown.
#[derive(Debug, Clone, Copy, PartialEq, Eq, Structural)]
pub struct Style {
    pub fg: Option<Color>,
    pub bold: bool,
    pub dim: bool,
    pub reversed: bool,
    pub blink: bool,
}

/// A text in one style.
#[derive(Debug)]
pub struct Span {
    pub text: String,
    pub style: Style,
}

/// A row of a panel: a text in one style, or texts side by side.
#[derive(Debug)]
pub enum Row {
    Styled(Span),
    Parts(Vec<Span>),
}

/// A panel with a border.
#[derive(Debug)]
pub struct Panel {
    pub title: String,
    pub rows: Vec<Row>,
    /// The number of rows that are scrolled out at the top.
    pub scroll: u16,
}

/// What fills the screen above the footer.
#[derive(Debug, Clone, Copy, PartialEq, Eq, Structural)]
pub enum Screen {
    Review,
    Manage,
    /// A hunk, with the commits beside it.
    Hunk,
}

/// What a `Span` stands for.
pub struct SpanView {
    pub text: Seq<char>,
    pub style: Style,
}

/// What a `Row` stands for.
pub enum RowView {
    Styled(SpanView),
    Parts(Seq<SpanView>),
}

/// What a `Panel` stands for.
pub struct PanelView {
    pub title: Seq<char>,
    pub rows: Seq<RowView>,
    pub scroll: u16,
}

impl DeepView for Span {
    type V = SpanView;

    open spec fn deep_view(&self) -> SpanView {
        SpanView { text: self.text@, style: self.style }
    }
}

impl DeepView for Row {
    type V = RowView;

    open spec fn deep_view(&self) -> RowView {
        match self {
            Row::Styled(span) => RowView::Styled(span.deep_view()),
            Row::Parts(spans) => RowView::Parts(spans.deep_view()),
        }
    }
}

impl DeepView for Panel {
    type V = PanelView;

    open spec fn deep_view(&self) -> PanelView {
        PanelView { title: self.title@, rows: self.rows.deep_view(), scroll: self.scroll }
    }
}

// ---------------------------------------------------------------------------
// Styles and rows.

/// The terminal's own style.
pub open spec fn no_style() -> Style {
    Style { fg: None, bold: false, dim: false, reversed: false, blink: false }
}

/// A colour, and nothing else.
pub open spec fn colored(color: Color) -> Style {
    Style { fg: Some(color), ..no_style() }
}

/// A text in one style.
pub open spec fn span(text: Seq<char>, style: Style) -> SpanView {
    SpanView { text, style }
}

/// A row in one style.
pub open spec fn row(text: Seq<char>, style: Style) -> RowView {
    RowView::Styled(span(text, style))
}

fn plain_style() -> (r: Style)
    ensures
        r == no_style(),
{
    Style { fg: None, bold: false, dim: false, reversed: false, blink: false }
}

fn style_of(color: Color) -> (r: Style)
    ensures
        r == colored(color),
{
    Style { fg: Some(color), bold: false, dim: false, reversed: false, blink: false }
}

fn make_span(text: String, style: Style) -> (r: Span)
    ensures
        r.deep_view() == span(text@, style),
{
    Span { text, style }
}

fn make_row(text: String, style: Style) -> (r: Row)
    ensures
        r.deep_view() == row(text@, style),
{
    Row::Styled(Span { text, style })
}

fn make_parts(a: Span, b: Span) -> (r: Row)
    ensures
        r.deep_view() == RowView::Parts(seq![a.deep_view(), b.deep_view()]),
{
    let spans = vec![a, b];
    assert(spans.deep_view() =~= seq![a.deep_view(), b.deep_view()]);
    Row::Parts(spans)
}

fn push_row(rows: &mut Vec<Row>, r: Row)
    ensures
        final(rows).deep_view() == old(rows).deep_view().push(r.deep_view()),
        final(rows)@.len() == old(rows)@.len() + 1,
{
    let ghost before = rows.deep_view();
    rows.push(r);
    assert(rows.deep_view() =~= before.push(r.deep_view()));
}

/// What fills the screen above the footer.
pub open spec fn screen_of(mode: ModeView) -> Screen {
    match mode {
        ModeView::Review { .. } => Screen::Review,
        ModeView::Manage { .. } => Screen::Manage,
        _ => Screen::Hunk,
    }
}

/// What fills the screen above the footer.
pub fn screen(app: &App) -> (r: Screen)
    ensures
        r == screen_of(app@.mode),
{
    match &app.mode {
        Mode::Review { .. } => Screen::Review,
        Mode::Manage { .. } => Screen::Manage,
        _ => Screen::Hunk,
    }
}

// ---------------------------------------------------------------------------
// The hunk.

/// A text with spaces after it, up to the given width.
pub open spec fn padded(s: Seq<char>, width: nat) -> Seq<char>
    decreases width - s.len(),
{
    if s.len() < width {
        padded(s.push(' '), width)
    } else {
        s
    }
}

fn pad(s: String, width: usize) -> (r: String)
    ensures
        r@ == padded(s@, width as nat),
{
    let mut out = s;
    let mut n: usize = text::chars_of(&out).len();
    while n < width
        invariant
            n == out@.len(),
            padded(out@, width as nat) == padded(s@, width as nat),
        decreases width - n,
    {
        out.push(' ');
        n += 1;
    }
    out
}

/// The mark and the colour of a kind of line.
pub open spec fn kind_mark(kind: LineKind) -> (char, Color) {
    match kind {
        LineKind::Add => ('+', Color::Green),
        LineKind::Del => ('-', Color::Red),
        LineKind::Context => (' ', Color::DarkGray),
    }
}

/// The row of a line of a hunk: whether it is under the cursor and whether it is
/// picked, the key of its commit, and the line itself.
pub open spec fn line_row(line: DiffLine, a: Option<usize>, under: bool, picked: bool) -> RowView {
    let (mark, color) = kind_mark(line.kind);
    let tag = match a {
        Some(ci) => "["@ + steps::label(ci as int) + "]"@,
        None => Seq::<char>::empty(),
    };
    let head = seq![
        if under {
            '>'
        } else {
            ' '
        },
        if picked {
            '*'
        } else {
            ' '
        },
    ];
    RowView::Parts(
        seq![
            span(head + padded(tag, 5) + " "@, colored(Color::Yellow)),
            span(
                seq![mark] + line.content@,
                Style {
                    fg: Some(color),
                    bold: picked,
                    dim: a is Some,
                    reversed: under,
                    blink: false,
                },
            ),
        ],
    )
}

/// The line under the cursor, while lines are picked.
pub open spec fn cursor_line(files: Seq<FileDiff>, s: AppView, f: int, h: int) -> Option<usize> {
    match s.mode {
        ModeView::Select { cursor, .. } => {
            let open = app::open_lines_of(files, s.assign, f, h);
            if cursor < open.len() {
                Some(open[cursor as int])
            } else {
                None
            }
        },
        _ => None,
    }
}

/// The lines that are picked.
pub open spec fn picked_lines(mode: ModeView) -> Set<usize> {
    match mode {
        ModeView::Select { selected, .. } => selected,
        _ => Set::<usize>::empty(),
    }
}

/// The rows of the first `n` lines of a hunk, below its header.
pub open spec fn hunk_rows(files: Seq<FileDiff>, s: AppView, f: int, h: int, n: nat) -> Seq<
    RowView,
> {
    let hunk = files[f].hunks@[h];
    Seq::new(
        n + 1,
        |i: int|
            if i == 0 {
                row(hunk.header@, colored(Color::Cyan))
            } else {
                line_row(
                    hunk.lines@[i - 1],
                    s.assign[f][h][i - 1],
                    cursor_line(files, s, f, h) == Some((i - 1) as usize),
                    picked_lines(s.mode).contains((i - 1) as usize),
                )
            },
    )
}

/// The height of a panel without its border.
pub open spec fn inner_height(height: u16) -> int {
    if height >= 2 {
        height - 2
    } else {
        0
    }
}

/// A number of rows in sixteen bits.
pub open spec fn short(n: int) -> int {
    n % 0x1_0000
}

/// The row of the line under the cursor.
pub open spec fn cursor_row(cursor: Option<usize>) -> int {
    match cursor {
        Some(l) => short(l + 1),
        None => 0,
    }
}

/// Where the hunk is scrolled to, so that the line under the cursor is seen
/// while lines are picked, and no empty rows are shown without need.
pub open spec fn scrolled(scroll: int, picking: bool, at: int, height: int, rows: int) -> int {
    let seen = if picking && height > 0 {
        if at < scroll {
            at
        } else if at >= scroll + height {
            at - height + 1
        } else {
            scroll
        }
    } else {
        scroll
    };
    let shown = if height > 1 {
        height
    } else {
        1
    };
    let most = if short(rows) > shown {
        short(rows) - shown
    } else {
        0
    };
    if seen < most {
        seen
    } else {
        most
    }
}

/// While lines are picked, the line under the cursor is among the rows that are
/// shown.
pub proof fn law_cursor_is_seen(scroll: int, at: int, height: int, rows: int)
    requires
        0 <= scroll,
        0 <= at < rows <= u16::MAX,
        0 < height,
    ensures
        scrolled(scroll, true, at, height, rows) <= at < scrolled(scroll, true, at, height, rows)
            + height,
{
    vstd::arithmetic::div_mod::lemma_small_mod(rows as nat, 0x1_0000);
}

/// No empty rows are shown while rows are scrolled out.
pub proof fn law_no_empty_rows(scroll: int, picking: bool, at: int, height: int, rows: int)
    requires
        0 <= scroll,
        0 <= at < rows <= u16::MAX,
        0 < height,
    ensures
        0 <= scrolled(scroll, picking, at, height, rows),
        scrolled(scroll, picking, at, height, rows) > 0 ==> scrolled(
            scroll,
            picking,
            at,
            height,
            rows,
        ) + height <= rows,
{
    vstd::arithmetic::div_mod::lemma_small_mod(rows as nat, 0x1_0000);
}

/// The panel of the current hunk, in the given height.
pub open spec fn hunk_panel(files: Seq<FileDiff>, s: AppView, height: u16) -> Option<PanelView> {
    match steps::current(files, s) {
        None => None,
        Some((f, h)) => {
            let f = f as int;
            let h = h as int;
            let pending = app::pending_hunks(files, s.assign);
            let pos = if s.pos < pending.len() {
                s.pos as int
            } else {
                pending.len() - 1
            };
            let n = files[f].hunks@[h].lines@.len();
            Some(
                PanelView {
                    title: " "@ + files[f].path@ + " — hunk "@ + text::decimal((pos + 1) as nat)
                        + "/"@ + text::decimal(pending.len()) + (if s.mode is Select {
                        " [picking lines]"@
                    } else {
                        ""@
                    }) + " "@,
                    rows: hunk_rows(files, s, f, h, n),
                    scroll: scrolled(
                        s.scroll as int,
                        s.mode is Select,
                        cursor_row(cursor_line(files, s, f, h)),
                        inner_height(height),
                        (n + 1) as int,
                    ) as u16,
                },
            )
        },
    }
}

/// The scroll position and the height can be added where the line under the
/// cursor is looked for.
pub open spec fn scrollable(files: Seq<FileDiff>, s: AppView, height: u16) -> bool {
    match steps::current(files, s) {
        Some((f, h)) => s.mode is Select && inner_height(height) > 0 && cursor_row(
            cursor_line(files, s, f as int, h as int),
        ) >= s.scroll ==> s.scroll + inner_height(height) <= u16::MAX,
        None => true,
    }
}

fn find_cursor(app: &App, fi: usize, hi: usize) -> (r: Option<usize>)
    requires
        fi < app.files@.len(),
        hi < app.files@[fi as int].hunks@.len(),
        app::covered(app.files@, app@.assign),
    ensures
        r == cursor_line(app.files@, app@, fi as int, hi as int),
{
    match &app.mode {
        Mode::Select { cursor, .. } => {
            let open = app.unassigned_lines(fi, hi);
            if *cursor < open.len() {
                Some(open[*cursor])
            } else {
                None
            }
        },
        _ => None,
    }
}

fn is_picked(mode: &Mode, li: usize) -> (r: bool)
    ensures
        r == picked_lines(mode@).contains(li),
{
    match mode {
        Mode::Select { selected, .. } => selected.contains(&li),
        _ => false,
    }
}

fn make_line_row(line: &DiffLine, a: Option<usize>, under: bool, picked: bool) -> (r: Row)
    requires
        a matches Some(ci) ==> ci < usize::MAX,
    ensures
        r.deep_view() == line_row(*line, a, under, picked),
{
    let (mark, color) = match line.kind {
        LineKind::Add => ('+', Color::Green),
        LineKind::Del => ('-', Color::Red),
        LineKind::Context => (' ', Color::DarkGray),
    };
    let tag = match a {
        Some(ci) => {
            let mut tag = "[".to_string();
            append(&mut tag, &App::key_label(ci));
            append(&mut tag, "]");
            tag
        },
        None => String::new(),
    };
    let ghost tag_text = match a {
        Some(ci) => "["@ + steps::label(ci as int) + "]"@,
        None => Seq::<char>::empty(),
    };
    assert(tag@ =~= tag_text);
    let mut head = String::new();
    head.push(
        if under {
            '>'
        } else {
            ' '
        },
    );
    head.push(
        if picked {
            '*'
        } else {
            ' '
        },
    );
    assert(head@ =~= seq![
        if under {
            '>'
        } else {
            ' '
        },
        if picked {
            '*'
        } else {
            ' '
        },
    ]);
    append(&mut head, &pad(tag, 5));
    append(&mut head, " ");
    let mut body = String::new();
    body.push(mark);
    append(&mut body, &line.content);
    assert(body@ =~= seq![mark] + line.content@);
    let style = Style {
        fg: Some(color),
        bold: picked,
        dim: a.is_some(),
        reversed: under,
        blink: false,
    };
    make_parts(make_span(head, style_of(Color::Yellow)), make_span(body, style))
}

fn make_hunk_rows(app: &App, fi: usize, hi: usize) -> (r: Vec<Row>)
    requires
        app.wf(),
        fi < app.files@.len(),
        hi < app.files@[fi as int].hunks@.len(),
    ensures
        r.deep_view() == hunk_rows(
            app.files@,
            app@,
            fi as int,
            hi as int,
            app.files@[fi as int].hunks@[hi as int].lines@.len(),
        ),
{
    proof {
        steps::lemma_shaped_covered(app.files@, app@.assign);
    }
    let ghost f = fi as int;
    let ghost h = hi as int;
    let cursor = find_cursor(app, fi, hi);
    let hunk = &app.files[fi].hunks[hi];
    let ghost files = app.files@;
    let ghost s = app@;
    proof {
        assert(steps::shaped_file(files[f].hunks@, s.assign[f]));
        assert(s.assign[f][h].len() == hunk.lines@.len());
        assert(app.commits.len() == app.commits@.len());
    }
    let mut rows: Vec<Row> = Vec::new();
    assert(rows.deep_view() =~= Seq::<RowView>::empty());
    push_row(&mut rows, make_row(hunk.header.clone(), style_of(Color::Cyan)));
    assert(rows.deep_view() =~= hunk_rows(files, s, f, h, 0));
    let mut li: usize = 0;
    while li < hunk.lines.len()
        invariant
            li <= hunk.lines@.len(),
            f == fi,
            h == hi,
            files == app.files@,
            s == app@,
            app.wf(),
            s.commits.len() <= usize::MAX,
            0 <= f < files.len(),
            0 <= h < files[f].hunks@.len(),
            s.assign.len() == files.len(),
            s.assign[f].len() == files[f].hunks@.len(),
            *hunk == files[f].hunks@[h],
            s.assign[f][h].len() == hunk.lines@.len(),
            cursor == cursor_line(files, s, f, h),
            rows.deep_view() == hunk_rows(files, s, f, h, li as nat),
        decreases hunk.lines@.len() - li,
    {
        assert(app.assign@[f]@[h]@ == s.assign[f][h]);
        let a = app.assign[fi][hi][li];
        assert(a == s.assign[f][h][li as int]);
        let under = match cursor {
            Some(l) => l == li,
            None => false,
        };
        let picked = is_picked(&app.mode, li);
        let ghost before = rows.deep_view();
        push_row(&mut rows, make_line_row(&hunk.lines[li], a, under, picked));
        assert(rows.deep_view() =~= hunk_rows(files, s, f, h, (li + 1) as nat));
        li += 1;
    }
    rows
}

/// A number of rows in sixteen bits.
fn short_of(n: usize) -> (r: u16)
    ensures
        r == short(n as int),
{
    assert(n as u16 == n % 0x1_0000) by (bit_vector);
    n as u16
}

fn find_row(cursor: Option<usize>) -> (r: u16)
    requires
        cursor matches Some(l) ==> l < usize::MAX,
    ensures
        r == cursor_row(cursor),
{
    match cursor {
        Some(l) => short_of(l + 1),
        None => 0,
    }
}

fn find_height(height: u16) -> (r: u16)
    ensures
        r == inner_height(height),
{
    if height >= 2 {
        height - 2
    } else {
        0
    }
}

fn find_scroll(scroll: u16, picking: bool, at: u16, height: u16, rows: usize) -> (r: u16)
    requires
        picking && height > 0 && at >= scroll ==> scroll + height <= u16::MAX,
    ensures
        r == scrolled(scroll as int, picking, at as int, height as int, rows as int),
{
    let seen: u16 = if picking && height > 0 {
        if at < scroll {
            at
        } else if at >= scroll + height {
            at - height + 1
        } else {
            scroll
        }
    } else {
        scroll
    };
    let shown: u16 = if height > 1 {
        height
    } else {
        1
    };
    let all = short_of(rows);
    let most: u16 = if all > shown {
        all - shown
    } else {
        0
    };
    if seen < most {
        seen
    } else {
        most
    }
}

fn is_picking(app: &App) -> (r: bool)
    ensures
        r == (app@.mode is Select),
{
    match &app.mode {
        Mode::Select { .. } => true,
        _ => false,
    }
}

/// Whether the current hunk can be drawn in the given height.
pub fn can_scroll(app: &App, height: u16) -> (r: bool)
    requires
        app.wf(),
    ensures
        r == scrollable(app.files@, app@, height),
{
    proof {
        assert(app.files.len() == app.files@.len());
        steps::lemma_shaped_covered(app.files@, app@.assign);
        app::lemma_current(app.files@, app@.assign, app@.pos as int);
    }
    match app.current() {
        Some((fi, hi)) => {
            let cursor = find_cursor(app, fi, hi);
            let h = find_height(height);
            proof {
                lemma_cursor(app.files@, app@, fi as int, hi as int);
                assert(app.files@[fi as int].hunks@[hi as int].lines.len()
                    == app.files@[fi as int].hunks@[hi as int].lines@.len());
            }
            if is_picking(app) && h > 0 && find_row(cursor) >= app.scroll {
                app.scroll <= u16::MAX - h
            } else {
                true
            }
        },
        None => true,
    }
}

proof fn lemma_cursor(files: Seq<FileDiff>, s: AppView, f: int, h: int)
    ensures
        cursor_line(files, s, f, h) matches Some(l) ==> l < files[f].hunks@[h].lines@.len(),
{
    assert(files[f].hunks@[h].lines.len() == files[f].hunks@[h].lines@.len());
    app::lemma_open_lines(
        files[f].hunks@[h].lines@,
        s.assign[f][h],
        files[f].hunks@[h].lines@.len() as int,
    );
    if let ModeView::Select { cursor, .. } = s.mode {
        let open = app::open_lines_of(files, s.assign, f, h);
        if cursor < open.len() {
            assert(open.contains(open[cursor as int]));
        }
    }
}

/// The current hunk in a panel of the given height, or nothing when no change is
/// left. Scrolls so that the line under the cursor is seen.
pub fn draw_hunk(app: &mut App, height: u16) -> (r: Option<Panel>)
    requires
        old(app).wf(),
        scrollable(old(app).files@, old(app)@, height),
    ensures
        final(app).wf(),
        final(app).same_repo(*old(app)),
        match hunk_panel(old(app).files@, old(app)@, height) {
            Some(panel) => r matches Some(p) && p.deep_view() == panel && final(app)@ == (AppView {
                scroll: panel.scroll,
                ..old(app)@
            }),
            None => r is None && final(app)@ == old(app)@,
        },
{
    let ghost files = app.files@;
    let ghost s = app@;
    proof {
        assert(app.files.len() == app.files@.len());
        steps::lemma_shaped_covered(files, s.assign);
        app::lemma_current(files, s.assign, s.pos as int);
    }
    let pending = app.pending();
    let (fi, hi) = match app.current() {
        Some(at) => at,
        None => return None,
    };
    assert(pending.len() == pending@.len());
    let pos: usize = if app.pos < pending.len() {
        app.pos
    } else {
        pending.len() - 1
    };
    let rows = make_hunk_rows(app, fi, hi);
    let cursor = find_cursor(app, fi, hi);
    let n = app.files[fi].hunks[hi].lines.len();
    proof {
        lemma_cursor(files, s, fi as int, hi as int);
        assert(rows.len() == rows@.len());
        assert(rows.deep_view().len() == n + 1);
    }
    let picking = is_picking(app);
    let scroll = find_scroll(app.scroll, picking, find_row(cursor), find_height(height), n + 1);
    app.scroll = scroll;
    let mut title = " ".to_string();
    append(&mut title, &app.files[fi].path);
    append(&mut title, " — hunk ");
    append(&mut title, &decimal_string(pos + 1));
    append(&mut title, "/");
    append(&mut title, &decimal_string(pending.len()));
    append(
        &mut title,
        if picking {
            " [picking lines]"
        } else {
            ""
        },
    );
    append(&mut title, " ");
    assert(steps::sound(app.files@, app@));
    Some(Panel { title, rows, scroll })
}

// ---------------------------------------------------------------------------
// The commits beside the hunk.

/// How many lines a commit adds.
pub open spec fn adds(files: Seq<FileDiff>, s: AppView, ci: int) -> nat {
    app::tally(Tally::AddedIn(ci as usize), files, s.assign)
}

/// How many lines a commit removes.
pub open spec fn dels(files: Seq<FileDiff>, s: AppView, ci: int) -> nat {
    app::tally(Tally::RemovedIn(ci as usize), files, s.assign)
}

/// How many changes are not assigned.
pub open spec fn open_count(files: Seq<FileDiff>, s: AppView) -> nat {
    app::tally(Tally::Open, files, s.assign)
}

/// What a commit adds and removes.
pub open spec fn stats(files: Seq<FileDiff>, s: AppView, ci: int) -> Seq<char> {
    "+"@ + text::decimal(adds(files, s, ci)) + " -"@ + text::decimal(dels(files, s, ci))
}

fn make_stats(add: usize, del: usize) -> (r: String)
    ensures
        r@ == "+"@ + text::decimal(add as nat) + " -"@ + text::decimal(del as nat),
{
    let mut out = "+".to_string();
    append(&mut out, &decimal_string(add));
    append(&mut out, " -");
    append(&mut out, &decimal_string(del));
    out
}

/// The key of a commit in brackets.
pub open spec fn key_tag(ci: int) -> Seq<char> {
    "["@ + steps::label(ci) + "] "@
}

fn make_key_tag(ci: usize) -> (r: String)
    requires
        ci < usize::MAX,
    ensures
        r@ == key_tag(ci as int),
{
    let mut out = "[".to_string();
    append(&mut out, &App::key_label(ci));
    append(&mut out, "] ");
    out
}

/// The rows of the first `n` commits.
pub open spec fn side_rows(files: Seq<FileDiff>, s: AppView, n: int) -> Seq<RowView>
    decreases n,
{
    if n <= 0 {
        if s.commits.len() == 0 {
            seq![
                row("no commits yet"@, colored(Color::DarkGray)),
                row("press n to create one"@, colored(Color::DarkGray)),
            ]
        } else {
            Seq::<RowView>::empty()
        }
    } else {
        side_rows(files, s, n - 1).push(
            RowView::Parts(
                seq![
                    span(key_tag(n - 1), Style { bold: true, ..colored(Color::Cyan) }),
                    span(s.commits[n - 1], no_style()),
                ],
            ),
        ).push(row("      "@ + stats(files, s, n - 1), colored(Color::DarkGray)))
    }
}

/// The panel of the commits.
pub open spec fn side_panel(files: Seq<FileDiff>, s: AppView, branch: Seq<char>) -> PanelView {
    PanelView {
        title: " commits — "@ + branch + " "@,
        rows: side_rows(files, s, s.commits.len() as int).push(row(""@, no_style())).push(
            row(
                text::decimal(open_count(files, s)) + " line(s) unassigned"@,
                colored(Color::DarkGray),
            ),
        ),
        scroll: 0,
    }
}

/// The commits, beside the hunk.
pub fn draw_sidebar(app: &App) -> (r: Panel)
    requires
        app.wf(),
        app::countable(app.files@),
    ensures
        r.deep_view() == side_panel(app.files@, app@, app.branch@),
{
    let ghost files = app.files@;
    let ghost s = app@;
    proof {
        steps::lemma_shaped_covered(files, s.assign);
        assert(app.commits.len() == app.commits@.len());
    }
    let mut rows: Vec<Row> = Vec::new();
    assert(rows.deep_view() =~= Seq::<RowView>::empty());
    if app.commits.len() == 0 {
        push_row(&mut rows, make_row("no commits yet".to_string(), style_of(Color::DarkGray)));
        push_row(
            &mut rows,
            make_row("press n to create one".to_string(), style_of(Color::DarkGray)),
        );
        assert(rows.deep_view() =~= side_rows(files, s, 0));
    }
    let mut ci: usize = 0;
    while ci < app.commits.len()
        invariant
            ci <= app.commits@.len() <= usize::MAX,
            files == app.files@,
            s == app@,
            app::covered(files, s.assign),
            app::countable(files),
            rows.deep_view() == side_rows(files, s, ci as int),
        decreases app.commits@.len() - ci,
    {
        assert(s.commits[ci as int] == app.commits@[ci as int]@);
        let (add, del) = app.commit_stats(ci);
        let style = Style {
            fg: Some(Color::Cyan),
            bold: true,
            dim: false,
            reversed: false,
            blink: false,
        };
        let first = make_parts(
            make_span(make_key_tag(ci), style),
            make_span(app.commits[ci].clone(), plain_style()),
        );
        assert(first.deep_view()->Parts_0 =~= seq![
            span(key_tag(ci as int), Style { bold: true, ..colored(Color::Cyan) }),
            span(s.commits[ci as int], no_style()),
        ]);
        push_row(&mut rows, first);
        let mut line = "      ".to_string();
        append(&mut line, &make_stats(add, del));
        push_row(&mut rows, make_row(line, style_of(Color::DarkGray)));
        ci += 1;
    }
    push_row(&mut rows, make_row("".to_string(), plain_style()));
    let mut count = decimal_string(app.unassigned_count());
    append(&mut count, " line(s) unassigned");
    push_row(&mut rows, make_row(count, style_of(Color::DarkGray)));
    let mut title = " commits — ".to_string();
    append(&mut title, &app.branch);
    append(&mut title, " ");
    Panel { title, rows, scroll: 0 }
}

// ---------------------------------------------------------------------------
// The review.

/// The row of a commit in the review. The selected commit is reversed, and its
/// message may be edited.
pub open spec fn review_row(
    files: Seq<FileDiff>,
    s: AppView,
    ci: int,
    sel: usize,
    edit: Option<Seq<char>>,
) -> RowView {
    let shown = match edit {
        Some(buf) if ci == sel => buf + "_"@,
        _ => s.commits[ci],
    };
    let note = if adds(files, s, ci) + dels(files, s, ci) == 0 {
        "  (empty — skipped)"@
    } else {
        "  ("@ + stats(files, s, ci) + ")"@
    };
    RowView::Parts(
        seq![
            span(key_tag(ci) + shown, Style { reversed: ci == sel, ..no_style() }),
            span(note, colored(Color::DarkGray)),
        ],
    )
}

/// The rows of the review down to the first `n` commits.
pub open spec fn review_rows(
    files: Seq<FileDiff>,
    s: AppView,
    sel: usize,
    edit: Option<Seq<char>>,
    n: int,
) -> Seq<RowView>
    decreases n,
{
    if n <= 0 {
        seq![
            row(
                "the following commits will be created (in this order):"@,
                colored(Color::DarkGray),
            ),
            row(""@, no_style()),
        ]
    } else {
        review_rows(files, s, sel, edit, n - 1).push(review_row(files, s, n - 1, sel, edit))
    }
}

/// The panel of the review.
pub open spec fn review_panel(
    files: Seq<FileDiff>,
    s: AppView,
    branch: Seq<char>,
) -> Option<PanelView> {
    match s.mode {
        ModeView::Review { sel, edit } => {
            let commits = review_rows(files, s, sel, edit, s.commits.len() as int).push(
                row(""@, no_style()),
            );
            let left = open_count(files, s);
            let warned = if left > 0 {
                commits.push(
                    row(
                        text::decimal(left)
                            + " change line(s) unassigned — they will remain staged."@,
                        colored(Color::Yellow),
                    ),
                )
            } else {
                commits
            };
            Some(
                PanelView {
                    title: " review "@,
                    rows: warned.push(
                        row("committing onto: "@ + branch, colored(Color::DarkGray)),
                    ),
                    scroll: 0,
                },
            )
        },
        _ => None,
    }
}

fn make_review_row(app: &App, ci: usize, sel: usize, edit: &Option<String>) -> (r: Row)
    requires
        ci < app.commits@.len() <= usize::MAX,
        app::covered(app.files@, app@.assign),
        app::countable(app.files@),
    ensures
        r.deep_view() == review_row(app.files@, app@, ci as int, sel, edit.deep_view()),
{
    assert(app@.commits[ci as int] == app.commits@[ci as int]@);
    let (add, del) = app.commit_stats(ci);
    let mut shown = make_key_tag(ci);
    match edit {
        Some(buf) if ci == sel => {
            append(&mut shown, buf);
            append(&mut shown, "_");
            assert(shown@ =~= key_tag(ci as int) + (buf@ + "_"@));
        },
        _ => {
            append(&mut shown, &app.commits[ci]);
        },
    }
    let note = if add == 0 && del == 0 {
        "  (empty — skipped)".to_string()
    } else {
        let mut note = "  (".to_string();
        append(&mut note, &make_stats(add, del));
        append(&mut note, ")");
        note
    };
    let style = Style { fg: None, bold: false, dim: false, reversed: ci == sel, blink: false };
    let r = make_parts(make_span(shown, style), make_span(note, style_of(Color::DarkGray)));
    proof {
        let want = review_row(app.files@, app@, ci as int, sel, edit.deep_view());
        assert(r.deep_view()->Parts_0 =~= want->Parts_0);
    }
    r
}

/// The commits before they are made, or nothing when they are not reviewed.
pub fn draw_review(app: &App) -> (r: Option<Panel>)
    requires
        app.wf(),
        app::countable(app.files@),
    ensures
        match review_panel(app.files@, app@, app.branch@) {
            Some(panel) => r matches Some(p) && p.deep_view() == panel,
            None => r is None,
        },
{
    let ghost files = app.files@;
    let ghost s = app@;
    proof {
        steps::lemma_shaped_covered(files, s.assign);
        assert(app.commits.len() == app.commits@.len());
    }
    let (sel, edit) = match &app.mode {
        Mode::Review { sel, edit } => (*sel, edit),
        _ => return None,
    };
    let mut rows: Vec<Row> = Vec::new();
    assert(rows.deep_view() =~= Seq::<RowView>::empty());
    push_row(
        &mut rows,
        make_row(
            "the following commits will be created (in this order):".to_string(),
            style_of(Color::DarkGray),
        ),
    );
    push_row(&mut rows, make_row("".to_string(), plain_style()));
    assert(rows.deep_view() =~= review_rows(files, s, sel, edit.deep_view(), 0));
    let mut ci: usize = 0;
    while ci < app.commits.len()
        invariant
            ci <= app.commits@.len() <= usize::MAX,
            files == app.files@,
            s == app@,
            app::covered(files, s.assign),
            app::countable(files),
            rows.deep_view() == review_rows(files, s, sel, edit.deep_view(), ci as int),
        decreases app.commits@.len() - ci,
    {
        push_row(&mut rows, make_review_row(app, ci, sel, edit));
        ci += 1;
    }
    push_row(&mut rows, make_row("".to_string(), plain_style()));
    let left = app.unassigned_count();
    if left > 0 {
        let mut line = decimal_string(left);
        append(&mut line, " change line(s) unassigned — they will remain staged.");
        push_row(&mut rows, make_row(line, style_of(Color::Yellow)));
    }
    let mut onto = "committing onto: ".to_string();
    append(&mut onto, &app.branch);
    push_row(&mut rows, make_row(onto, style_of(Color::DarkGray)));
    Some(Panel { title: " review ".to_string(), rows, scroll: 0 })
}

// ---------------------------------------------------------------------------
// Swapping commits.

/// The row of a commit while commits are swapped.
pub open spec fn manage_row(
    files: Seq<FileDiff>,
    s: AppView,
    ci: int,
    cursor: usize,
    mark: Option<usize>,
) -> RowView {
    let marked = mark matches Some(m) && m == ci;
    let base = if marked {
        Style { bold: true, ..colored(Color::Yellow) }
    } else {
        no_style()
    };
    RowView::Parts(
        seq![
            span(
                seq![
                    if marked {
                        '*'
                    } else {
                        ' '
                    },
                ] + key_tag(ci) + s.commits[ci],
                Style { reversed: ci == cursor, ..base },
            ),
            span("  ("@ + stats(files, s, ci) + ")"@, colored(Color::DarkGray)),
        ],
    )
}

/// The rows down to the first `n` commits while commits are swapped.
pub open spec fn manage_rows(
    files: Seq<FileDiff>,
    s: AppView,
    cursor: usize,
    mark: Option<usize>,
    n: int,
) -> Seq<RowView>
    decreases n,
{
    if n <= 0 {
        seq![
            row(
                "swap two commits' keys (this also swaps their creation order):"@,
                colored(Color::DarkGray),
            ),
            row(""@, no_style()),
        ]
    } else {
        manage_rows(files, s, cursor, mark, n - 1).push(
            manage_row(files, s, n - 1, cursor, mark),
        )
    }
}

/// The panel while commits are swapped.
pub open spec fn manage_panel(files: Seq<FileDiff>, s: AppView) -> Option<PanelView> {
    match s.mode {
        ModeView::Manage { cursor, mark, .. } => Some(
            PanelView {
                title: " manage commits "@,
                rows: manage_rows(files, s, cursor, mark, s.commits.len() as int),
                scroll: 0,
            },
        ),
        _ => None,
    }
}

fn make_manage_row(app: &App, ci: usize, cursor: usize, mark: Option<usize>) -> (r: Row)
    requires
        ci < app.commits@.len() <= usize::MAX,
        app::covered(app.files@, app@.assign),
        app::countable(app.files@),
    ensures
        r.deep_view() == manage_row(app.files@, app@, ci as int, cursor, mark),
{
    assert(app@.commits[ci as int] == app.commits@[ci as int]@);
    let (add, del) = app.commit_stats(ci);
    let marked = match mark {
        Some(m) => m == ci,
        None => false,
    };
    let style = Style {
        fg: if marked {
            Some(Color::Yellow)
        } else {
            None
        },
        bold: marked,
        dim: false,
        reversed: ci == cursor,
        blink: false,
    };
    let mut shown = String::new();
    let marker = if marked {
        '*'
    } else {
        ' '
    };
    shown.push(marker);
    assert(shown@ =~= seq![marker]);
    append(&mut shown, &make_key_tag(ci));
    append(&mut shown, &app.commits[ci]);
    let mut note = "  (".to_string();
    append(&mut note, &make_stats(add, del));
    append(&mut note, ")");
    make_parts(make_span(shown, style), make_span(note, style_of(Color::DarkGray)))
}

/// The commits while they are swapped, or nothing when they are not.
pub fn draw_manage(app: &App) -> (r: Option<Panel>)
    requires
        app.wf(),
        app::countable(app.files@),
    ensures
        match manage_panel(app.files@, app@) {
            Some(panel) => r matches Some(p) && p.deep_view() == panel,
            None => r is None,
        },
{
    let ghost files = app.files@;
    let ghost s = app@;
    proof {
        steps::lemma_shaped_covered(files, s.assign);
        assert(app.commits.len() == app.commits@.len());
    }
    let (cursor, mark) = match &app.mode {
        Mode::Manage { cursor, mark, .. } => (*cursor, *mark),
        _ => return None,
    };
    let mut rows: Vec<Row> = Vec::new();
    assert(rows.deep_view() =~= Seq::<RowView>::empty());
    push_row(
        &mut rows,
        make_row(
            "swap two commits' keys (this also swaps their creation order):".to_string(),
            style_of(Color::DarkGray),
        ),
    );
    push_row(&mut rows, make_row("".to_string(), plain_style()));
    assert(rows.deep_view() =~= manage_rows(files, s, cursor, mark, 0));
    let mut ci: usize = 0;
    while ci < app.commits.len()
        invariant
            ci <= app.commits@.len() <= usize::MAX,
            files == app.files@,
            s == app@,
            app::covered(files, s.assign),
            app::countable(files),
            rows.deep_view() == manage_rows(files, s, cursor, mark, ci as int),
        decreases app.commits@.len() - ci,
    {
        push_row(&mut rows, make_manage_row(app, ci, cursor, mark));
        ci += 1;
    }
    Some(Panel { title: " manage commits ".to_string(), rows, scroll: 0 })
}

// ---------------------------------------------------------------------------
// The footer.

/// The row of a text that is typed: what it is for, the text, and how to go on.
pub open spec fn typing_row(what: Seq<char>, typed: Seq<char>, hint: Seq<char>) -> RowView {
    RowView::Parts(
        seq![
            span(what, colored(Color::Cyan)),
            span(typed, no_style()),
            span("_"@, Style { blink: true, ..no_style() }),
            span(hint, colored(Color::DarkGray)),
        ],
    )
}

/// The keys of a mode.
pub open spec fn hints(mode: ModeView) -> Seq<char> {
    match mode {
        ModeView::Browse =>
            "1-9/0<id> assign hunk | n new commit | v pick lines | s/h skip/back | j/k scroll | u unassign | m manage | d review | q quit"@,
        ModeView::Select { .. } =>
            "space toggle | a all | 1-9/0<id> assign selection | n new commit | j/k move | esc cancel"@,
        ModeView::Review { edit: Some(_), .. } => "enter: save message, esc: cancel"@,
        ModeView::Review { .. } =>
            "enter create commits | e edit message | m manage | j/k move | esc back | q quit"@,
        ModeView::Manage { mark: Some(_), .. } =>
            "enter/space swap with marked | j/k move | esc back"@,
        ModeView::Manage { .. } => "enter/space mark commit | j/k move | esc back"@,
        ModeView::Name { .. } => Seq::<char>::empty(),
    }
}

/// The footer: what is typed, or else what was said last, or else the keys.
pub open spec fn footer_row(s: AppView) -> RowView {
    match (s.ext_input, s.mode, s.status) {
        (Some(digits), _, _) => typing_row(
            "assign to commit: 0"@,
            digits,
            "   (digits, enter: confirm, esc: cancel)"@,
        ),
        (None, ModeView::Name { input, .. }, _) => typing_row(
            "new commit message: "@,
            input,
            "   (enter: confirm, esc: cancel)"@,
        ),
        (None, _, Some(status)) => row(status, colored(Color::Yellow)),
        _ => row(hints(s.mode), colored(Color::DarkGray)),
    }
}

fn make_typing_row(what: &str, typed: &String, hint: &str) -> (r: Row)
    ensures
        r.deep_view() == typing_row(what@, typed@, hint@),
{
    let blink = Style { fg: None, bold: false, dim: false, reversed: false, blink: true };
    let spans = vec![
        make_span(what.to_string(), style_of(Color::Cyan)),
        make_span(typed.clone(), plain_style()),
        make_span("_".to_string(), blink),
        make_span(hint.to_string(), style_of(Color::DarkGray)),
    ];
    assert(spans.deep_view() =~= seq![
        span(what@, colored(Color::Cyan)),
        span(typed@, no_style()),
        span("_"@, Style { blink: true, ..no_style() }),
        span(hint@, colored(Color::DarkGray)),
    ]);
    Row::Parts(spans)
}

fn hint_text(mode: &Mode) -> (r: String)
    requires
        !(mode@ is Name),
    ensures
        r@ == hints(mode@),
{
    match mode {
        Mode::Browse =>
            "1-9/0<id> assign hunk | n new commit | v pick lines | s/h skip/back | j/k scroll | u unassign | m manage | d review | q quit".to_string(),
        Mode::Select { .. } =>
            "space toggle | a all | 1-9/0<id> assign selection | n new commit | j/k move | esc cancel".to_string(),
        Mode::Review { edit, .. } => if edit.is_some() {
            "enter: save message, esc: cancel".to_string()
        } else {
            "enter create commits | e edit message | m manage | j/k move | esc back | q quit".to_string()
        },
        Mode::Manage { mark, .. } => if mark.is_some() {
            "enter/space swap with marked | j/k move | esc back".to_string()
        } else {
            "enter/space mark commit | j/k move | esc back".to_string()
        },
        Mode::Name { .. } => String::new(),
    }
}

/// The footer.
pub fn draw_footer(app: &App) -> (r: Row)
    ensures
        r.deep_view() == footer_row(app@),
{
    if let Some(digits) = &app.ext_input {
        return make_typing_row(
            "assign to commit: 0",
            digits,
            "   (digits, enter: confirm, esc: cancel)",
        );
    }
    if let Mode::Name { input, .. } = &app.mode {
        return make_typing_row("new commit message: ", input, "   (enter: confirm, esc: cancel)");
    }
    match &app.status {
        Some(status) => make_row(status.clone(), style_of(Color::Yellow)),
        None => make_row(hint_text(&app.mode), style_of(Color::DarkGray)),
    }
}

} // verus!
