//! Splitting without a terminal.
use hunkle::backend::{CreatedCommits, RepoState};
use hunkle::diff;
use hunkle::headless::{
    applied, apply, can_apply, dump, files_json, files_out, fnv1a, state_token, ApplyError, ApplyIn,
    CommitIn, PROTOCOL_VERSION,
};
use hunkle::model::Bases;
use serde_json::Value;

const DIFF: &str = "\
diff --git a/a \"b\".txt b/a \"b\".txt
index 11..22 100644
--- a/a \"b\".txt
+++ b/a \"b\".txt
@@ -1,2 +1,2 @@ fn \\x
-one\ttab
+ONE \u{1}\u{7f}\u{e9}
 two
diff --git a/new b/new
new file mode 100644
--- /dev/null
+++ b/new
@@ -0,0 +1 @@
+x
diff --git a/gone b/gone
deleted file mode 100644
--- a/gone
+++ /dev/null
@@ -1 +0,0 @@
-y
diff --git a/i.png b/i.png
Binary files a/i.png and b/i.png differ
";

fn state_of(text: &str) -> RepoState {
    let mut bases = Bases::new();
    bases.insert("a \"b\".txt".to_string(), b"one\ttab\ntwo\n".to_vec());
    bases.insert("gone".to_string(), b"y\n".to_vec());
    RepoState {
        files: diff::parse(text).unwrap(),
        bases,
        branch: "main".to_string(),
    }
}

fn message(text: &str) -> CommitIn {
    CommitIn::Message(text.to_string())
}

fn on_branch(text: &str, branch: &str) -> CommitIn {
    CommitIn::Spec {
        message: text.to_string(),
        branch: Some(branch.to_string()),
    }
}

fn request(
    state: &RepoState,
    commits: Vec<CommitIn>,
    assignments: Vec<(usize, usize, usize, usize)>,
) -> ApplyIn {
    ApplyIn {
        token: state_token(state),
        commits,
        assignments,
    }
}

#[test]
fn hashes_are_the_known_ones() {
    assert_eq!(fnv1a(b""), 0xcbf29ce484222325);
    assert_eq!(fnv1a(b"a"), 0xaf63dc4c8601ec8c);
    assert_eq!(fnv1a(b"foobar"), 0x85944171f73967e8);
}

#[test]
fn shown_files_are_json() {
    let state = state_of(DIFF);
    let text = files_json(&files_out(&state.files));
    let value: Value = serde_json::from_str(&text).unwrap();
    assert_eq!(serde_json::to_string(&value).unwrap(), text);
    let files = value.as_array().unwrap();
    assert_eq!(files.len(), 4);
    assert_eq!(files[0]["path"], "a \"b\".txt");
    assert_eq!(files[0]["kind"], "modified");
    assert_eq!(files[0]["binary"], false);
    assert_eq!(files[0]["hunks"][0]["header"], "@@ -1,2 +1,2 @@ fn \\x");
    assert_eq!(files[0]["hunks"][0]["lines"][0]["kind"], "del");
    assert_eq!(files[0]["hunks"][0]["lines"][0]["content"], "one\ttab");
    assert_eq!(
        files[0]["hunks"][0]["lines"][1]["content"],
        "ONE \u{1}\u{7f}\u{e9}"
    );
    assert_eq!(files[0]["hunks"][0]["lines"][2]["kind"], "context");
    assert_eq!(files[1]["kind"], "added");
    assert_eq!(files[1]["hunks"][0]["lines"][0]["kind"], "add");
    assert_eq!(files[2]["kind"], "deleted");
    assert_eq!(files[3]["binary"], true);
    assert_eq!(files[3]["hunks"].as_array().unwrap().len(), 0);
}

#[test]
fn shown_text_is_exact() {
    let state = state_of("diff --git a/f b/f\n@@ -0,0 +1 @@\n+a\"\\\u{1f}\n");
    assert_eq!(
        files_json(&files_out(&state.files)),
        "[{\"path\":\"f\",\"kind\":\"modified\",\"binary\":false,\"hunks\":[{\"header\":\"@@ -0,0 +1 @@\",\"lines\":[{\"kind\":\"add\",\"content\":\"a\\\"\\\\\\u001f\"}]}]}]"
    );
    assert_eq!(files_json(&files_out(&[])), "[]");
}

#[test]
fn tokens_stand_for_the_changes() {
    let state = state_of(DIFF);
    let token = state_token(&state);
    let json = files_json(&files_out(&state.files));
    assert_eq!(token, format!("{:016x}", fnv1a(json.as_bytes())));
    assert_eq!(token.len(), 16);
    assert_ne!(
        state_token(&state_of("diff --git a/f b/f\n")),
        state_token(&state_of("diff --git a/g b/g\n"))
    );
    let none = state_of("");
    assert_eq!(state_token(&none), format!("{:016x}", fnv1a(b"[]")));
}

#[test]
fn dump_shows_the_state() {
    let state = state_of(DIFF);
    let out = dump(&state);
    assert_eq!(out.version, PROTOCOL_VERSION);
    assert_eq!(out.version, 2);
    assert_eq!(out.branch, "main");
    assert_eq!(out.token, state_token(&state));
    assert_eq!(out.files.len(), 4);
    assert_eq!(out.files[3].path, "i.png");
}

#[test]
fn plans_are_applied() {
    let state = state_of(DIFF);
    let plan = apply(
        &state,
        &request(
            &state,
            vec![message("first"), on_branch("side", "topic")],
            vec![(0, 0, 0, 0), (0, 0, 1, 0), (1, 0, 0, 1), (2, 0, 0, 0)],
        ),
    )
    .unwrap();
    assert_eq!(plan.commits.len(), 2);
    assert_eq!(plan.commits[0].message, "first");
    assert_eq!(plan.commits[0].files.len(), 2);
    assert_eq!(
        plan.commits[0].files[0].content.as_deref(),
        Some("ONE \u{1}\u{7f}\u{e9}\ntwo\n".as_bytes())
    );
    assert!(plan.commits[0].files[1].content.is_none());
    assert_eq!(plan.commits[1].branch.as_deref(), Some("topic"));
    assert_eq!(plan.index_updates.len(), 1);
    assert_eq!(plan.index_updates[0].path, "new");
    assert!(plan.index_updates[0].content.is_none());
}

#[test]
fn the_last_entry_for_a_line_counts() {
    let state = state_of(DIFF);
    let plan = apply(
        &state,
        &request(
            &state,
            vec![message("a"), message("b")],
            vec![(1, 0, 0, 0), (1, 0, 0, 1)],
        ),
    )
    .unwrap();
    assert_eq!(plan.commits.len(), 1);
    assert_eq!(plan.commits[0].message, "b");
}

fn refused(
    commits: Vec<CommitIn>,
    assignments: Vec<(usize, usize, usize, usize)>,
) -> ApplyError {
    let state = state_of(DIFF);
    apply(&state, &request(&state, commits, assignments)).unwrap_err()
}

#[test]
fn stale_plans_are_refused() {
    let state = state_of(DIFF);
    let mut plan = request(&state, vec![message("a")], vec![(1, 0, 0, 0)]);
    plan.token = state_token(&state_of(""));
    let e = apply(&state, &plan).unwrap_err();
    assert_eq!(e, ApplyError::Stale);
    assert_eq!(
        e.message(),
        "staged changes have changed since the plan was created; re-run dump"
    );
}

#[test]
fn empty_messages_and_branches_are_refused() {
    let e = refused(vec![message("a"), message(" \t")], vec![]);
    assert_eq!(e, ApplyError::EmptyMessage);
    assert_eq!(e.message(), "commit messages cannot be empty");
    let e = refused(vec![on_branch("a", "\u{3000}")], vec![]);
    assert_eq!(e, ApplyError::EmptyBranch);
    assert_eq!(e.message(), "branch names cannot be empty");
}

#[test]
fn entries_that_miss_are_refused() {
    for entry in [(4, 0, 0, 0), (0, 1, 0, 0), (0, 0, 3, 0), (3, 0, 0, 0)] {
        let (fi, hi, li, _) = entry;
        let e = refused(vec![message("a")], vec![(1, 0, 0, 0), entry]);
        assert_eq!(e, ApplyError::OutOfRange { fi, hi, li });
    }
    let e = refused(vec![message("a")], vec![(12, 3, 4, 0)]);
    assert_eq!(e.message(), "assignment (12,3,4) out of range");
    let e = refused(vec![message("a")], vec![(0, 0, 2, 7)]);
    assert_eq!(e, ApplyError::ContextLine { fi: 0, hi: 0, li: 2 });
    assert_eq!(e.message(), "assignment (0,0,2) targets a context line");
    let e = refused(vec![message("a")], vec![(0, 0, 1, 1)]);
    assert_eq!(
        e,
        ApplyError::UnknownCommit {
            fi: 0,
            hi: 0,
            li: 1,
            ci: 1
        }
    );
    assert_eq!(e.message(), "assignment (0,0,1) targets unknown commit 1");
}

#[test]
fn plans_without_entries_are_refused() {
    let e = refused(vec![message("a")], vec![]);
    assert_eq!(e, ApplyError::NothingAssigned);
    assert_eq!(e.message(), "no lines assigned; nothing to commit");
    assert_eq!(refused(vec![], vec![]), ApplyError::NothingAssigned);
}

#[test]
fn ids_go_with_the_commits() {
    let state = state_of(DIFF);
    let plan = apply(
        &state,
        &request(
            &state,
            vec![message("a"), message("unused"), on_branch("b", "topic")],
            vec![(1, 0, 0, 0), (2, 0, 0, 2)],
        ),
    )
    .unwrap();
    let out = applied(
        CreatedCommits {
            ids: vec!["id1".to_string(), "id2".to_string()],
            worktree_skipped: vec!["gone".to_string()],
        },
        &plan,
    );
    assert_eq!(out.commits.len(), 2);
    assert_eq!(out.commits[0].id, "id1");
    assert_eq!(out.commits[0].message, "a");
    assert_eq!(out.commits[0].branch, None);
    assert_eq!(out.commits[1].id, "id2");
    assert_eq!(out.commits[1].message, "b");
    assert_eq!(out.commits[1].branch.as_deref(), Some("topic"));
    assert_eq!(out.worktree_skipped, vec!["gone"]);
}

#[test]
fn hunks_without_a_place_cannot_be_applied() {
    let state = state_of(
        "diff --git a/f b/f\n@@ -0,1 +1,0 @@\n-a\ndiff --git a/g b/g\n@@ -0,0 +1 @@\n+a\n",
    );
    let bad = request(&state, vec![message("m")], vec![(0, 0, 0, 0)]);
    assert!(!can_apply(&state, &bad));
    let good = request(&state, vec![message("m")], vec![(1, 0, 0, 0)]);
    assert!(can_apply(&state, &good));
    assert_eq!(apply(&state, &good).unwrap().commits.len(), 1);
    let refused = request(&state, vec![message("")], vec![(0, 0, 0, 0)]);
    assert!(can_apply(&state, &refused));
    assert!(apply(&state, &refused).is_err());
}

#[test]
fn the_order_of_entries_does_not_matter() {
    let state = state_of(DIFF);
    let forward = vec![(0, 0, 0, 0), (0, 0, 1, 1), (1, 0, 0, 1)];
    let backward: Vec<(usize, usize, usize, usize)> = forward.iter().rev().copied().collect();
    let commits = || vec![message("a"), message("b")];
    let x = apply(&state, &request(&state, commits(), forward)).unwrap();
    let y = apply(&state, &request(&state, commits(), backward)).unwrap();
    assert_eq!(format!("{x:?}"), format!("{y:?}"));
}
