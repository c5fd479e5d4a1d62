//! What the screen shows, and what is said at the end.
use hunkle::app::{App, KeyCode, KeyEvent, Mode, Outcome};
use hunkle::backend::{CreatedCommits, RepoState};
use hunkle::diff;
use hunkle::model::Bases;
use hunkle::report::{report, set_committed, set_failed, take_request};
use hunkle::ui::{
    can_scroll, draw_footer, draw_hunk, draw_manage, draw_review, draw_sidebar, screen, Color,
    Panel, Row, Screen, Style,
};

const PLAIN: Style = Style {
    fg: None,
    bold: false,
    dim: false,
    reversed: false,
    blink: false,
};

fn colored(color: Color) -> Style {
    Style {
        fg: Some(color),
        ..PLAIN
    }
}

fn app_of(text: &str) -> App {
    App::new(RepoState {
        files: diff::parse(text).unwrap(),
        bases: Bases::new(),
        branch: "main".to_string(),
    })
}

fn two_hunks() -> App {
    app_of("diff --git a/f b/f\n@@ -1,2 +1,2 @@ x\n-a\n+b\n c\n@@ -9 +9 @@\n-d\n+e\n")
}

fn type_text(app: &mut App, text: &str) {
    for c in text.chars() {
        let code = if c == '\n' {
            KeyCode::Enter
        } else {
            KeyCode::Char(c)
        };
        app.handle_key(KeyEvent::from(code));
    }
}

fn parts(row: &Row) -> Vec<(&str, Style)> {
    match row {
        Row::Styled(s) => vec![(s.text.as_str(), s.style)],
        Row::Parts(v) => v.iter().map(|s| (s.text.as_str(), s.style)).collect(),
    }
}

fn text_of(panel: &Panel) -> Vec<String> {
    panel
        .rows
        .iter()
        .map(|r| parts(r).iter().map(|p| p.0).collect::<String>())
        .collect()
}

#[test]
fn the_mode_decides_the_screen() {
    let mut app = two_hunks();
    assert_eq!(screen(&app), Screen::Hunk);
    type_text(&mut app, "none\n");
    type_text(&mut app, "m");
    assert_eq!(screen(&app), Screen::Manage);
    type_text(&mut app, "md");
    assert_eq!(screen(&app), Screen::Review);
    assert!(draw_manage(&app).is_none());
    type_text(&mut app, "b");
    assert!(draw_review(&app).is_none());
    assert_eq!(screen(&app), Screen::Hunk);
}

#[test]
fn a_hunk_is_shown() {
    let mut app = two_hunks();
    assert!(can_scroll(&app, 10));
    let panel = draw_hunk(&mut app, 10).unwrap();
    assert_eq!(panel.title, " f — hunk 1/2 ");
    assert_eq!(panel.scroll, 0);
    assert_eq!(
        text_of(&panel),
        vec![
            "@@ -1,2 +1,2 @@ x",
            "        -a",
            "        +b",
            "         c",
        ]
    );
    assert_eq!(parts(&panel.rows[0])[0].1, colored(Color::Cyan));
    assert_eq!(parts(&panel.rows[1])[0], ("        ", colored(Color::Yellow)));
    assert_eq!(parts(&panel.rows[1])[1], ("-a", colored(Color::Red)));
    assert_eq!(parts(&panel.rows[2])[1], ("+b", colored(Color::Green)));
    assert_eq!(parts(&panel.rows[3])[1], (" c", colored(Color::DarkGray)));
}

#[test]
fn picked_and_assigned_lines_are_marked() {
    let mut app = two_hunks();
    type_text(&mut app, "v none\nv ");
    let panel = draw_hunk(&mut app, 10).unwrap();
    assert_eq!(panel.title, " f — hunk 1/2 [picking lines] ");
    assert_eq!(
        text_of(&panel)[1..3],
        ["  [1]   -a".to_string(), ">*      +b".to_string()]
    );
    assert_eq!(
        parts(&panel.rows[1])[1].1,
        Style {
            dim: true,
            ..colored(Color::Red)
        }
    );
    assert_eq!(
        parts(&panel.rows[2])[1].1,
        Style {
            bold: true,
            reversed: true,
            ..colored(Color::Green)
        }
    );
}

#[test]
fn the_cursor_is_scrolled_into_view() {
    let mut text = String::from("diff --git a/f b/f\n@@ -0,0 +1,30 @@\n");
    for i in 0..30 {
        text.push_str(&format!("+{i}\n"));
    }
    let mut app = app_of(&text);
    type_text(&mut app, "v");
    for _ in 0..20 {
        type_text(&mut app, "j");
    }
    let panel = draw_hunk(&mut app, 7).unwrap();
    assert_eq!(panel.scroll, 17);
    assert_eq!(app.scroll, 17);
    for _ in 0..10 {
        type_text(&mut app, "k");
    }
    assert_eq!(draw_hunk(&mut app, 7).unwrap().scroll, 11);
    type_text(&mut app, "v");
    app.scroll = 500;
    assert_eq!(draw_hunk(&mut app, 7).unwrap().scroll, 26);
    assert_eq!(draw_hunk(&mut app, 1).unwrap().scroll, 26);
    app.scroll = 500;
    assert_eq!(draw_hunk(&mut app, 1).unwrap().scroll, 30);
}

#[test]
fn a_scroll_position_may_be_too_far_down() {
    let mut app = two_hunks();
    app.scroll = u16::MAX;
    assert!(can_scroll(&app, 10));
    type_text(&mut app, "v");
    assert!(can_scroll(&app, 10));
    app.scroll = 0;
    assert!(can_scroll(&app, u16::MAX));
    app.scroll = 1;
    assert!(can_scroll(&app, u16::MAX));
    let mut app = app_of("diff --git a/f b/f\n@@ -0,0 +1,4 @@\n+a\n+b\n+c\n+d\n");
    type_text(&mut app, "vjjj");
    app.scroll = 2;
    assert!(can_scroll(&app, u16::MAX));
    app.scroll = 3;
    assert!(!can_scroll(&app, u16::MAX));
    assert!(can_scroll(&app, u16::MAX - 1));
    app.mode = Mode::Browse;
    assert!(can_scroll(&app, u16::MAX));
}

#[test]
fn nothing_is_shown_when_nothing_is_left() {
    let mut app = two_hunks();
    type_text(&mut app, "none\n1");
    assert!(draw_hunk(&mut app, 10).is_none());
}

#[test]
fn commits_stand_beside_the_hunk() {
    let mut app = two_hunks();
    let panel = draw_sidebar(&app);
    assert_eq!(panel.title, " commits — main ");
    assert_eq!(
        text_of(&panel),
        vec![
            "no commits yet",
            "press n to create one",
            "",
            "4 line(s) unassigned",
        ]
    );
    type_text(&mut app, "nfix\n");
    let panel = draw_sidebar(&app);
    assert_eq!(
        text_of(&panel),
        vec!["[1] fix", "      +1 -1", "", "2 line(s) unassigned"]
    );
    assert_eq!(
        parts(&panel.rows[0]),
        vec![
            (
                "[1] ",
                Style {
                    bold: true,
                    ..colored(Color::Cyan)
                }
            ),
            ("fix", PLAIN),
        ]
    );
}

#[test]
fn the_review_lists_the_commits() {
    let mut app = two_hunks();
    type_text(&mut app, "nfix\n");
    app.commits.push("unused".to_string());
    type_text(&mut app, "d");
    let panel = draw_review(&app).unwrap();
    assert_eq!(panel.title, " review ");
    assert_eq!(
        text_of(&panel),
        vec![
            "the following commits will be created (in this order):",
            "",
            "[1] fix  (+1 -1)",
            "[2] unused  (empty — skipped)",
            "",
            "2 change line(s) unassigned — they will remain staged.",
            "committing onto: main",
        ]
    );
    assert_eq!(
        parts(&panel.rows[2])[0].1,
        Style {
            reversed: true,
            ..PLAIN
        }
    );
    type_text(&mut app, "ex");
    assert_eq!(text_of(&draw_review(&app).unwrap())[2], "[1] fixx_  (+1 -1)");
}

#[test]
fn commits_are_swapped_on_their_own_screen() {
    let mut app = two_hunks();
    type_text(&mut app, "na\nnb\nm");
    type_text(&mut app, " j");
    let panel = draw_manage(&app).unwrap();
    assert_eq!(panel.title, " manage commits ");
    assert_eq!(
        text_of(&panel),
        vec![
            "swap two commits' keys (this also swaps their creation order):",
            "",
            "*[1] a  (+1 -1)",
            " [2] b  (+1 -1)",
        ]
    );
    assert_eq!(
        parts(&panel.rows[2])[0].1,
        Style {
            bold: true,
            ..colored(Color::Yellow)
        }
    );
    assert_eq!(
        parts(&panel.rows[3])[0].1,
        Style {
            reversed: true,
            ..PLAIN
        }
    );
}

fn footer(app: &App) -> String {
    parts(&draw_footer(app)).iter().map(|p| p.0).collect()
}

#[test]
fn the_footer_tells_the_keys() {
    let mut app = two_hunks();
    assert!(footer(&app).starts_with("1-9/0<id> assign hunk | n new commit"));
    type_text(&mut app, "v");
    assert!(footer(&app).starts_with("space toggle | a all"));
    type_text(&mut app, "vnab");
    assert_eq!(
        footer(&app),
        "new commit message: ab_   (enter: confirm, esc: cancel)"
    );
    type_text(&mut app, "\n");
    assert_eq!(footer(&app), "2 line(s) -> [1] ab");
    assert_eq!(parts(&draw_footer(&app))[0].1, colored(Color::Yellow));
    for i in 0..10 {
        app.commits.push(format!("c{i}"));
    }
    type_text(&mut app, "01");
    assert_eq!(
        footer(&app),
        "assign to commit: 01_   (digits, enter: confirm, esc: cancel)"
    );
    assert!(parts(&draw_footer(&app))[2].1.blink);
    app.handle_key(KeyEvent::from(KeyCode::Esc));
    type_text(&mut app, "d");
    assert!(footer(&app).starts_with("enter create commits"));
    type_text(&mut app, "e");
    assert_eq!(footer(&app), "enter: save message, esc: cancel");
    app.handle_key(KeyEvent::from(KeyCode::Esc));
    type_text(&mut app, "m");
    assert_eq!(footer(&app), "enter/space mark commit | j/k move | esc back");
    type_text(&mut app, " ");
    assert_eq!(
        footer(&app),
        "enter/space swap with marked | j/k move | esc back"
    );
}

#[test]
fn a_request_gives_a_plan_once() {
    let mut app = two_hunks();
    assert!(take_request(&mut app).is_none());
    type_text(&mut app, "nfix\nd\n");
    assert!(app.request_commit);
    let plan = take_request(&mut app).unwrap();
    assert_eq!(plan.commits.len(), 1);
    assert!(!app.request_commit);
    assert!(take_request(&mut app).is_none());
    app.request_commit = true;
    for row in app.assign[0].iter_mut() {
        for a in row.iter_mut() {
            *a = None;
        }
    }
    assert!(take_request(&mut app).is_none());
    assert_eq!(
        app.status.as_deref(),
        Some("nothing assigned — no commits to create")
    );
    assert!(!app.request_commit);
}

#[test]
fn outcomes_are_reported() {
    let mut app = two_hunks();
    type_text(&mut app, "nfix\nd\n");
    let mut plan = take_request(&mut app).unwrap();
    plan.commits[0].branch = Some("topic".to_string());
    set_failed(&mut app, "no reason");
    assert_eq!(app.status.as_deref(), Some("commit failed: no reason"));
    assert!(app.outcome.is_none());
    set_committed(
        &mut app,
        CreatedCommits {
            ids: vec!["0123456789abcdef".to_string()],
            worktree_skipped: vec!["f".to_string(), "g".to_string()],
        },
        &plan,
    );
    let outcome = app.outcome.take().unwrap();
    assert_eq!(
        report(&outcome, 2),
        vec![
            "hunkle: created 1 commit(s):",
            "  0123456789 fix (on new branch topic)",
            "2 change line(s) were not assigned and remain staged.",
            "warning: kept branch-assigned lines in the working tree of f, g (unstaged edits present); remove them manually.",
        ]
    );
    let outcome = Outcome::Committed {
        commits: vec![("abc\u{e9}".to_string(), "m".to_string(), None)],
        worktree_skipped: vec![],
    };
    assert_eq!(
        report(&outcome, 0),
        vec!["hunkle: created 1 commit(s):", "  abc\u{e9} m"]
    );
    assert_eq!(
        report(&Outcome::Quit, 5),
        vec!["hunkle: aborted — no commits created, staged changes untouched."]
    );
}
