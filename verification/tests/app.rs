//! The keys of a session.
use hunkle::app::{can_count, App, KeyCode, KeyEvent, Mode, Outcome};
use hunkle::backend::RepoState;
use hunkle::diff;
use hunkle::model::Bases;

fn app_of(text: &str) -> App {
    App::new(RepoState {
        files: diff::parse(text).unwrap(),
        bases: Bases::new(),
        branch: "main".to_string(),
    })
}

fn app_with_hunks(n: usize) -> App {
    let mut text = String::from(
        "diff --git a/f.txt b/f.txt\nindex 1111..2222 100644\n--- a/f.txt\n+++ b/f.txt\n",
    );
    for i in 0..n {
        text.push_str(&format!(
            "@@ -{0},1 +{0},1 @@\n-a{1}\n+b{1}\n",
            i * 10 + 1,
            i
        ));
    }
    app_of(&text)
}

fn press(app: &mut App, code: KeyCode) {
    app.handle_key(KeyEvent::from(code));
}

fn type_text(app: &mut App, text: &str) {
    for c in text.chars() {
        press(app, KeyCode::Char(c));
    }
}

fn name_commit(app: &mut App, name: &str) {
    press(app, KeyCode::Char('n'));
    for c in name.chars() {
        press(app, KeyCode::Char(c));
    }
    press(app, KeyCode::Enter);
}

#[test]
fn key_labels() {
    assert_eq!(App::key_label(0), "1");
    assert_eq!(App::key_label(8), "9");
    assert_eq!(App::key_label(9), "010");
    assert_eq!(App::key_label(10), "011");
    assert_eq!(App::key_label(18), "019");
}

#[test]
fn extended_ids_address_commits_by_number() {
    let mut app = app_with_hunks(25);
    for i in 0..19 {
        name_commit(&mut app, &format!("c{i}"));
    }
    assert_eq!(app.commits.len(), 19);

    let (fi, hi) = app.current().unwrap();
    press(&mut app, KeyCode::Char('0'));
    press(&mut app, KeyCode::Char('1'));
    assert!(app.ext_input.is_some());
    press(&mut app, KeyCode::Enter);
    assert_eq!(app.assign[fi][hi][0], Some(0));

    let (fi, hi) = app.current().unwrap();
    press(&mut app, KeyCode::Char('0'));
    press(&mut app, KeyCode::Char('1'));
    press(&mut app, KeyCode::Char('0'));
    assert!(app.ext_input.is_none());
    assert_eq!(app.assign[fi][hi][0], Some(9));

    let (fi, hi) = app.current().unwrap();
    press(&mut app, KeyCode::Char('0'));
    press(&mut app, KeyCode::Char('2'));
    assert!(app.ext_input.is_none());
    assert_eq!(app.assign[fi][hi][0], Some(1));

    let (fi, hi) = app.current().unwrap();
    press(&mut app, KeyCode::Char('0'));
    press(&mut app, KeyCode::Char('1'));
    press(&mut app, KeyCode::Char('9'));
    assert!(app.ext_input.is_none());
    assert_eq!(app.assign[fi][hi][0], Some(18));

    let (fi, hi) = app.current().unwrap();
    press(&mut app, KeyCode::Char('0'));
    press(&mut app, KeyCode::Enter);
    assert_eq!(app.assign[fi][hi][0], None);
    assert!(app.status.is_some());
}

#[test]
fn zero_without_commits_is_an_error() {
    let mut app = app_with_hunks(3);
    press(&mut app, KeyCode::Char('0'));
    assert!(app.ext_input.is_none());
    assert!(app.status.is_some());
}

#[test]
fn manage_swaps_commit_positions_and_assignments() {
    let mut app = app_with_hunks(4);
    name_commit(&mut app, "c0");
    name_commit(&mut app, "c1");
    name_commit(&mut app, "c2");
    assert_eq!(app.assign[0][1][0], Some(1));
    assert_eq!(app.assign[0][2][0], Some(2));

    press(&mut app, KeyCode::Char('m'));
    assert!(matches!(app.mode, Mode::Manage { .. }));
    press(&mut app, KeyCode::Char('j'));
    press(&mut app, KeyCode::Enter);
    press(&mut app, KeyCode::Char('j'));
    press(&mut app, KeyCode::Enter);

    assert_eq!(app.commits, vec!["c0", "c2", "c1"]);
    assert_eq!(app.assign[0][1][0], Some(2));
    assert_eq!(app.assign[0][2][0], Some(1));

    press(&mut app, KeyCode::Esc);
    assert!(matches!(app.mode, Mode::Browse));
}

#[test]
fn swapping_twice_changes_nothing() {
    let mut app = app_with_hunks(3);
    name_commit(&mut app, "c0");
    name_commit(&mut app, "c1");
    let before = app.assign.clone();
    for _ in 0..2 {
        press(&mut app, KeyCode::Char('m'));
        press(&mut app, KeyCode::Char(' '));
        press(&mut app, KeyCode::Down);
        press(&mut app, KeyCode::Char(' '));
        assert_eq!(app.status.as_deref(), Some("swapped [1] <-> [2]"));
        press(&mut app, KeyCode::Char('q'));
    }
    assert_eq!(app.commits, vec!["c0", "c1"]);
    assert_eq!(app.assign, before);
}

#[test]
fn digit_and_zero_digit_are_the_same() {
    let mut a = app_with_hunks(3);
    let mut b = app_with_hunks(3);
    name_commit(&mut a, "c0");
    name_commit(&mut b, "c0");
    type_text(&mut a, "1");
    type_text(&mut b, "01");
    assert_eq!(a.assign, b.assign);
    assert_eq!(a.status, b.status);
    assert_eq!(a.status.as_deref(), Some("2 line(s) -> [1] c0"));
    assert_eq!(a.pos, b.pos);
}

#[test]
fn numbers_that_name_no_commit_are_refused() {
    let mut app = app_with_hunks(3);
    type_text(&mut app, "0");
    assert_eq!(
        app.status.as_deref(),
        Some("no commits yet — press n to create one")
    );
    type_text(&mut app, "3");
    assert_eq!(
        app.status.as_deref(),
        Some("no commit [3] yet — press n to create one")
    );
    name_commit(&mut app, "c0");
    type_text(&mut app, "07");
    assert_eq!(
        app.status.as_deref(),
        Some("no commit [07] (highest is [1])")
    );
    assert!(app.ext_input.is_none());
    type_text(&mut app, "0");
    press(&mut app, KeyCode::Enter);
    assert_eq!(app.status.as_deref(), Some("invalid commit id"));
    type_text(&mut app, "00");
    assert_eq!(app.ext_input.as_deref(), Some("0"));
    press(&mut app, KeyCode::Backspace);
    assert_eq!(app.ext_input.as_deref(), Some(""));
    press(&mut app, KeyCode::Backspace);
    assert!(app.ext_input.is_none());
    type_text(&mut app, "0");
    press(&mut app, KeyCode::Esc);
    assert!(app.ext_input.is_none());
    assert!(app.outcome.is_none());
}

#[test]
fn skipping_goes_round_and_back() {
    let mut app = app_with_hunks(3);
    assert_eq!(app.pending(), vec![(0, 0), (0, 1), (0, 2)]);
    type_text(&mut app, "sh");
    assert_eq!(app.pos, 0);
    type_text(&mut app, "h");
    assert_eq!(app.pos, 2);
    type_text(&mut app, "s");
    assert_eq!(app.pos, 0);
    press(&mut app, KeyCode::Tab);
    assert_eq!(app.current(), Some((0, 1)));
    press(&mut app, KeyCode::Left);
    press(&mut app, KeyCode::Right);
    assert_eq!(app.pos, 1);
}

#[test]
fn unassigning_clears_the_hunk_and_no_other() {
    let mut app = app_with_hunks(2);
    type_text(&mut app, "v nfirst");
    press(&mut app, KeyCode::Enter);
    assert_eq!(app.assign[0][0], vec![Some(0), None]);
    type_text(&mut app, "s1h");
    assert_eq!(app.assign[0][1], vec![Some(0), Some(0)]);
    assert_eq!(app.current(), Some((0, 0)));
    type_text(&mut app, "u");
    assert_eq!(app.assign[0][0], vec![None, None]);
    assert_eq!(app.assign[0][1], vec![Some(0), Some(0)]);
    assert_eq!(
        app.status.as_deref(),
        Some("unassigned 1 line(s) of this hunk")
    );
    type_text(&mut app, "u");
    assert_eq!(app.status.as_deref(), Some("nothing assigned in this hunk"));
}

#[test]
fn lines_can_be_picked() {
    let mut app = app_with_hunks(1);
    type_text(&mut app, "v");
    type_text(&mut app, "n");
    assert_eq!(
        app.status.as_deref(),
        Some("no lines selected (space toggles)")
    );
    type_text(&mut app, "j ");
    match &app.mode {
        Mode::Select { cursor, selected } => {
            assert_eq!(*cursor, 1);
            assert!(selected.contains(&1) && selected.len() == 1);
        }
        _ => panic!("not picking"),
    }
    assert_eq!(app.unassigned_lines(0, 0), vec![0, 1]);
    type_text(&mut app, "a");
    assert!(matches!(&app.mode, Mode::Select { selected, .. } if selected.len() == 2));
    type_text(&mut app, "a");
    assert!(matches!(&app.mode, Mode::Select { selected, .. } if selected.is_empty()));
    press(&mut app, KeyCode::Esc);
    assert!(matches!(app.mode, Mode::Browse));
}

#[test]
fn messages_are_typed_and_trimmed() {
    let mut app = app_with_hunks(2);
    type_text(&mut app, "n  ");
    press(&mut app, KeyCode::Enter);
    assert_eq!(app.status.as_deref(), Some("commit message cannot be empty"));
    type_text(&mut app, "fixx");
    press(&mut app, KeyCode::Backspace);
    type_text(&mut app, " ");
    press(&mut app, KeyCode::Enter);
    assert_eq!(app.commits, vec!["fix"]);
    assert_eq!(app.status.as_deref(), Some("2 line(s) -> [1] fix"));
    assert!(app.has_assignments());
    assert_eq!(app.commit_stats(0), (1, 1));
    assert_eq!(app.commit_stats(1), (0, 0));
    assert_eq!(app.unassigned_count(), 2);
}

#[test]
fn the_last_hunk_leads_to_the_review() {
    let mut app = app_with_hunks(1);
    press(&mut app, KeyCode::Enter);
    assert_eq!(app.status.as_deref(), Some("nothing assigned yet"));
    name_commit(&mut app, "all");
    assert!(matches!(app.mode, Mode::Review { sel: 0, edit: None }));
    assert!(app.pending().is_empty());
    assert_eq!(app.current(), None);
    press(&mut app, KeyCode::Esc);
    assert_eq!(
        app.status.as_deref(),
        Some("all hunks assigned (u on review is not supported; q to quit)")
    );
    type_text(&mut app, "e!");
    press(&mut app, KeyCode::Enter);
    assert_eq!(app.commits, vec!["all!"]);
    assert!(!app.request_commit);
    press(&mut app, KeyCode::Enter);
    assert!(app.request_commit);
}

#[test]
fn only_the_review_asks_for_commits() {
    let mut app = app_with_hunks(2);
    name_commit(&mut app, "one");
    for key in "yjkvqnx".chars() {
        press(&mut app, KeyCode::Char(key));
        assert!(!app.request_commit);
    }
    let mut app = app_with_hunks(2);
    name_commit(&mut app, "one");
    type_text(&mut app, "d");
    assert!(!app.request_commit);
    type_text(&mut app, "y");
    assert!(app.request_commit);
}

#[test]
fn quitting_changes_nothing() {
    let mut app = app_with_hunks(2);
    name_commit(&mut app, "one");
    let before = app.assign.clone();
    app.handle_key(KeyEvent {
        code: KeyCode::Char('c'),
        control: true,
    });
    assert!(matches!(app.outcome, Some(Outcome::Quit)));
    assert_eq!(app.assign, before);
    assert!(!app.request_commit);
    let mut app = app_with_hunks(2);
    type_text(&mut app, "q");
    assert!(matches!(app.outcome, Some(Outcome::Quit)));
}

#[test]
fn binary_files_are_counted_and_passed_over() {
    let app = app_of(
        "diff --git a/i b/i\nBinary files a/i and b/i differ\ndiff --git a/f b/f\n@@ -0,0 +1 @@\n+x\n",
    );
    assert_eq!(
        app.status.as_deref(),
        Some("skipped 1 binary file(s); they stay staged")
    );
    assert_eq!(app.pending(), vec![(1, 0)]);
    assert!(can_count(&app.files));
}

#[test]
fn scrolling_stays_in_range() {
    let mut app = app_with_hunks(1);
    type_text(&mut app, "k");
    assert_eq!(app.scroll, 0);
    type_text(&mut app, "jj");
    press(&mut app, KeyCode::Up);
    assert_eq!(app.scroll, 1);
    app.scroll = u16::MAX;
    press(&mut app, KeyCode::Down);
    assert_eq!(app.scroll, u16::MAX);
}

#[test]
fn a_session_plans_its_commits() {
    let mut app = app_with_hunks(2);
    app.bases.insert(
        "f.txt".to_string(),
        b"a0\n2\n3\n4\n5\n6\n7\n8\n9\n10\na1\n".to_vec(),
    );
    name_commit(&mut app, "one");
    name_commit(&mut app, "two");
    assert!(app.can_plan());
    let plan = app.plan();
    assert_eq!(plan.commits.len(), 2);
    assert!(plan.commits.iter().all(|c| c.branch.is_none()));
    assert_eq!(plan.commits[0].message, "one");
    assert_eq!(
        plan.commits[0].files[0].content.as_deref(),
        Some(b"b0\n2\n3\n4\n5\n6\n7\n8\n9\n10\na1\n".as_slice())
    );
    assert_eq!(
        plan.commits[1].files[0].content.as_deref(),
        Some(b"b0\n2\n3\n4\n5\n6\n7\n8\n9\n10\nb1\n".as_slice())
    );
    assert!(plan.index_updates.is_empty());
}

#[test]
fn labels_differ() {
    let labels: Vec<String> = (0..300).map(App::key_label).collect();
    for (i, a) in labels.iter().enumerate() {
        assert!(!labels[..i].contains(a));
    }
}

#[test]
fn assigned_lines_stay_with_their_commit() {
    let mut app = app_with_hunks(3);
    type_text(&mut app, "v nfirst");
    press(&mut app, KeyCode::Enter);
    name_commit(&mut app, "second");
    assert_eq!(app.assign[0][0], vec![Some(0), Some(1)]);
    for key in "sshjk1vak2d".chars() {
        press(&mut app, KeyCode::Char(key));
        assert_eq!(app.assign[0][0], vec![Some(0), Some(1)]);
        assert_eq!(app.commits.len(), 2);
    }
}

#[test]
fn a_key_changes_only_the_current_hunk() {
    let mut app = app_with_hunks(3);
    type_text(&mut app, "s");
    name_commit(&mut app, "second hunk");
    assert_eq!(app.assign[0][0], vec![None, None]);
    assert_eq!(app.assign[0][1], vec![Some(0), Some(0)]);
    assert_eq!(app.assign[0][2], vec![None, None]);
    assert_eq!(app.pending(), vec![(0, 0), (0, 2)]);
}

#[test]
fn counts_add_up() {
    let mut app = app_with_hunks(4);
    let changes = 8;
    type_text(&mut app, "v nfirst");
    press(&mut app, KeyCode::Enter);
    type_text(&mut app, "s");
    name_commit(&mut app, "second");
    for _ in 0..3 {
        let stats: usize = (0..app.commits.len())
            .map(|c| app.commit_stats(c).0 + app.commit_stats(c).1)
            .sum();
        let open: usize = app
            .pending()
            .iter()
            .map(|&(f, h)| app.unassigned_lines(f, h).len())
            .sum();
        assert_eq!(app.unassigned_count() + stats, changes);
        assert_eq!(app.unassigned_count(), open);
        assert_eq!(open == 0, app.pending().is_empty());
        type_text(&mut app, "1");
    }
    assert!(app.pending().is_empty());
    assert_eq!(app.unassigned_count(), 0);
}

#[test]
fn commits_without_stats_are_not_planned() {
    let mut app = app_with_hunks(3);
    type_text(&mut app, "v nfirst");
    press(&mut app, KeyCode::Enter);
    type_text(&mut app, "s");
    name_commit(&mut app, "second");
    name_commit(&mut app, "third");
    type_text(&mut app, "u");
    let current = app.current();
    assert_eq!(current, Some((0, 0)));
    assert_eq!(app.commit_stats(0), (0, 0));
    let planned: Vec<String> = app.plan().commits.into_iter().map(|c| c.message).collect();
    let counted: Vec<String> = (0..app.commits.len())
        .filter(|&c| app.commit_stats(c) != (0, 0))
        .map(|c| app.commits[c].clone())
        .collect();
    assert_eq!(planned, counted);
    assert_eq!(planned, vec!["second", "third"]);
}

#[test]
fn typing_a_label_assigns() {
    let mut app = app_with_hunks(30);
    for i in 0..12 {
        name_commit(&mut app, &format!("c{i}"));
    }
    for ci in [0, 8, 9, 11] {
        let (fi, hi) = app.current().unwrap();
        type_text(&mut app, &App::key_label(ci));
        assert_eq!(app.assign[fi][hi], vec![Some(ci), Some(ci)]);
    }
}

#[test]
fn escape_and_interrupt_assign_nothing() {
    for keys in ["", "v ", "nmessage", "d", "de", "m ", "0"] {
        let mut app = app_with_hunks(3);
        name_commit(&mut app, "one");
        type_text(&mut app, keys);
        let before = (app.assign.clone(), app.commits.clone());
        press(&mut app, KeyCode::Esc);
        assert_eq!((app.assign.clone(), app.commits.clone()), before);
        app.handle_key(KeyEvent {
            code: KeyCode::Char('c'),
            control: true,
        });
        assert!(matches!(app.outcome, Some(Outcome::Quit)));
        assert_eq!((app.assign.clone(), app.commits.clone()), before);
    }
}

#[test]
fn space_toggles_the_line_under_the_cursor() {
    let mut app = app_with_hunks(1);
    type_text(&mut app, "v k ");
    assert!(matches!(&app.mode, Mode::Select { selected, .. } if selected.is_empty()));
    type_text(&mut app, " ");
    assert!(matches!(&app.mode, Mode::Select { selected, .. } if selected.contains(&1)));
}

#[test]
fn backspace_takes_a_character_back() {
    let mut app = app_with_hunks(1);
    type_text(&mut app, "nab");
    press(&mut app, KeyCode::Backspace);
    assert!(matches!(&app.mode, Mode::Name { input, .. } if input == "a"));
    press(&mut app, KeyCode::Enter);
    type_text(&mut app, "ex");
    press(&mut app, KeyCode::Backspace);
    assert!(matches!(&app.mode, Mode::Review { edit: Some(b), .. } if b == "a"));
}
