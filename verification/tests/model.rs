//! Assigning lines, and the plans that follow.
use hunkle::diff::{self, FileDiff};
use hunkle::model::{
    apply_file, build_plan, can_plan, empty_assignments, Bases, CommitSpec,
};

fn modified_file() -> Vec<FileDiff> {
    diff::parse(
        "\
diff --git a/f.txt b/f.txt
index 1111111111111111111111111111111111111111..2222222222222222222222222222222222222222 100644
--- a/f.txt
+++ b/f.txt
@@ -1,4 +1,5 @@
 one
-two
+TWO
+two-and-a-half
 three
 four
",
    )
    .unwrap()
}

const BASE: &str = "one\ntwo\nthree\nfour\n";

fn spec(message: &str) -> CommitSpec {
    CommitSpec {
        message: message.to_string(),
        branch: None,
    }
}

fn branch_spec(message: &str, branch: &str) -> CommitSpec {
    CommitSpec {
        message: message.to_string(),
        branch: Some(branch.to_string()),
    }
}

fn base(path: &str, content: &str) -> Bases {
    let mut bases = Bases::new();
    bases.insert(path.to_string(), content.as_bytes().to_vec());
    bases
}

#[test]
fn apply_full_hunk() {
    let files = modified_file();
    let mut assign = empty_assignments(&files);
    assign[0][0][1] = Some(0);
    assign[0][0][2] = Some(0);
    assign[0][0][3] = Some(0);
    let out = apply_file(BASE.as_bytes(), &files[0], &assign[0], |a| a == 0);
    assert_eq!(out, b"one\nTWO\ntwo-and-a-half\nthree\nfour\n");
}

#[test]
fn apply_subset_of_lines() {
    let files = modified_file();
    let mut assign = empty_assignments(&files);
    assign[0][0][2] = Some(0);
    let out = apply_file(BASE.as_bytes(), &files[0], &assign[0], |a| a == 0);
    assert_eq!(out, b"one\ntwo\nTWO\nthree\nfour\n");
}

#[test]
fn apply_is_cumulative_across_commits() {
    let files = modified_file();
    let mut assign = empty_assignments(&files);
    assign[0][0][1] = Some(0);
    assign[0][0][2] = Some(0);
    assign[0][0][3] = Some(1);
    let first = apply_file(BASE.as_bytes(), &files[0], &assign[0], |a| a == 0);
    assert_eq!(first, b"one\nTWO\nthree\nfour\n");
    let second = apply_file(BASE.as_bytes(), &files[0], &assign[0], |a| a <= 1);
    assert_eq!(second, b"one\nTWO\ntwo-and-a-half\nthree\nfour\n");
}

#[test]
fn plan_deletes_file_only_when_fully_assigned() {
    let files = diff::parse(
        "\
diff --git a/gone.txt b/gone.txt
deleted file mode 100644
index 1111111111111111111111111111111111111111..0000000000000000000000000000000000000000
--- a/gone.txt
+++ /dev/null
@@ -1,2 +0,0 @@
-bye
-now
",
    )
    .unwrap();
    let mut assign = empty_assignments(&files);
    assign[0][0][0] = Some(0);
    assign[0][0][1] = Some(1);
    let bases = base("gone.txt", "bye\nnow\n");
    let specs = vec![spec("first"), spec("second")];
    let plan = build_plan(&files, &assign, &bases, &specs);
    assert_eq!(plan.commits.len(), 2);
    assert_eq!(
        plan.commits[0].files[0].content.as_deref(),
        Some(b"now\n".as_slice())
    );
    assert!(plan.commits[1].files[0].content.is_none());
    assert!(plan.index_updates.is_empty());
}

#[test]
fn plan_skips_empty_commits() {
    let files = modified_file();
    let mut assign = empty_assignments(&files);
    assign[0][0][1] = Some(1);
    let bases = base("f.txt", BASE);
    let specs = vec![spec("empty"), spec("used")];
    let plan = build_plan(&files, &assign, &bases, &specs);
    assert_eq!(plan.commits.len(), 1);
    assert_eq!(plan.commits[0].message, "used");
}

#[test]
fn branch_commits_are_independent_and_unstaged() {
    let files = modified_file();
    let mut assign = empty_assignments(&files);
    assign[0][0][1] = Some(0);
    assign[0][0][2] = Some(0);
    assign[0][0][3] = Some(1);
    let bases = base("f.txt", BASE);
    let specs = vec![spec("here"), branch_spec("side", "topic")];
    let plan = build_plan(&files, &assign, &bases, &specs);

    assert_eq!(plan.commits.len(), 2);
    assert_eq!(plan.commits[1].branch.as_deref(), Some("topic"));
    assert_eq!(
        plan.commits[0].files[0].content.as_deref(),
        Some(b"one\nTWO\nthree\nfour\n".as_slice())
    );
    assert_eq!(
        plan.commits[1].files[0].content.as_deref(),
        Some(b"one\ntwo\ntwo-and-a-half\nthree\nfour\n".as_slice())
    );

    assert_eq!(plan.index_updates.len(), 1);
    let up = &plan.index_updates[0];
    assert_eq!(
        up.content.as_deref(),
        Some(b"one\nTWO\nthree\nfour\n".as_slice())
    );
    assert_eq!(
        up.staged.as_deref(),
        Some(b"one\nTWO\ntwo-and-a-half\nthree\nfour\n".as_slice())
    );
}

const NEW_FILE: &str = "\
diff --git a/new.txt b/new.txt
new file mode 100644
index 0000000000000000000000000000000000000000..3333333333333333333333333333333333333333
--- /dev/null
+++ b/new.txt
@@ -0,0 +1,2 @@
+hello
+world
";

#[test]
fn added_file_fully_branched_is_removed_from_index() {
    let files = diff::parse(NEW_FILE).unwrap();
    let mut assign = empty_assignments(&files);
    assign[0][0][0] = Some(0);
    assign[0][0][1] = Some(0);
    let plan = build_plan(
        &files,
        &assign,
        &Bases::new(),
        &[branch_spec("side", "topic")],
    );
    assert_eq!(plan.commits.len(), 1);
    assert_eq!(plan.index_updates.len(), 1);
    assert!(plan.index_updates[0].content.is_none());
    assert_eq!(
        plan.index_updates[0].staged.as_deref(),
        Some(b"hello\nworld\n".as_slice())
    );
}

#[test]
fn apply_new_file() {
    let files = diff::parse(NEW_FILE).unwrap();
    let mut assign = empty_assignments(&files);
    assign[0][0][0] = Some(0);
    let out = apply_file(b"", &files[0], &assign[0], |a| a == 0);
    assert_eq!(out, b"hello\n");
}

#[test]
fn no_changes_give_the_base() {
    let files = modified_file();
    let mut assign = empty_assignments(&files);
    let odd: &[u8] = b"one\ntwo\n\nfour without an end";
    assert_eq!(apply_file(odd, &files[0], &assign[0], |_| true), odd);
    assign[0][0][0] = Some(0);
    assert_eq!(apply_file(odd, &files[0], &assign[0], |_| true), odd);
    assert_eq!(apply_file(b"", &files[0], &assign[0], |_| true), b"");
}

#[test]
fn the_last_commit_has_what_is_staged() {
    let files = modified_file();
    let mut assign = empty_assignments(&files);
    assign[0][0][1] = Some(1);
    assign[0][0][2] = Some(0);
    assign[0][0][3] = Some(2);
    let bases = base("f.txt", BASE);
    let specs = vec![spec("a"), spec("b"), spec("c")];
    let plan = build_plan(&files, &assign, &bases, &specs);
    assert_eq!(plan.commits.len(), 3);
    assert_eq!(
        plan.commits[2].files[0].content.as_deref(),
        Some(b"one\nTWO\ntwo-and-a-half\nthree\nfour\n".as_slice())
    );
    assert_eq!(
        plan.commits[0].files[0].content.as_deref(),
        Some(b"one\ntwo\nTWO\nthree\nfour\n".as_slice())
    );
    assert!(plan.index_updates.is_empty());
}

#[test]
fn lines_without_a_line_feed_keep_it_away() {
    let files = diff::parse(
        "diff --git a/f b/f\n--- a/f\n+++ b/f\n@@ -1,2 +1,2 @@\n a\n-b\n\\ No newline at end of file\n+B\n\\ No newline at end of file\n",
    )
    .unwrap();
    let mut assign = empty_assignments(&files);
    assign[0][0][1] = Some(0);
    assign[0][0][2] = Some(0);
    let out = apply_file(b"a\nb", &files[0], &assign[0], |_| true);
    assert_eq!(out, b"a\nB");
}

#[test]
fn hunks_stand_where_they_say() {
    let files = diff::parse(
        "diff --git a/f b/f\n@@ -2,0 +3,1 @@\n+x\n@@ -4,1 +6,0 @@\n-d\n",
    )
    .unwrap();
    let mut assign = empty_assignments(&files);
    assign[0][0][0] = Some(0);
    assign[0][1][0] = Some(0);
    let out = apply_file(b"a\nb\nc\nd\ne\n", &files[0], &assign[0], |_| true);
    assert_eq!(out, b"a\nb\nx\nc\ne\n");
}

#[test]
fn files_without_hunks_are_in_no_plan() {
    let files = diff::parse(
        "diff --git a/i.png b/i.png\nindex 55..66 100644\nBinary files a/i.png and b/i.png differ\n",
    )
    .unwrap();
    let assign = empty_assignments(&files);
    let plan = build_plan(&files, &assign, &Bases::new(), &[spec("x")]);
    assert!(plan.commits.is_empty());
    assert!(plan.index_updates.is_empty());
}

#[test]
fn modified_file_fully_branched_gets_its_base_back() {
    let files = modified_file();
    let mut assign = empty_assignments(&files);
    for l in 1..4 {
        assign[0][0][l] = Some(0);
    }
    let plan = build_plan(
        &files,
        &assign,
        &base("f.txt", BASE),
        &[branch_spec("side", "topic")],
    );
    assert_eq!(
        plan.index_updates[0].content.as_deref(),
        Some(BASE.as_bytes())
    );
    assert_eq!(plan.index_updates[0].path, "f.txt");
    assert_eq!(plan.index_updates[0].mode, "100644");
}

#[test]
fn what_cannot_be_planned_is_told() {
    let files = modified_file();
    let mut assign = empty_assignments(&files);
    assert!(can_plan(&files, &assign, &[]));
    assign[0][0][1] = Some(0);
    assert!(can_plan(&files, &assign, &[spec("a")]));
    assert!(!can_plan(&files, &assign, &[]));
    assign[0][0].pop();
    assert!(!can_plan(&files, &assign, &[spec("a")]));
    assign[0][0][1] = None;
    assert!(can_plan(&files, &assign, &[spec("a")]));
    assert!(!can_plan(&files, &vec![], &[spec("a")]));

    let files = diff::parse("diff --git a/f b/f\n@@ -0,1 +1,0 @@\n-a\n").unwrap();
    let mut assign = empty_assignments(&files);
    assert!(can_plan(&files, &assign, &[spec("a")]));
    assign[0][0][0] = Some(0);
    assert!(!can_plan(&files, &assign, &[spec("a")]));
    let files =
        diff::parse("diff --git a/f b/f\ndeleted file mode 100644\n@@ -0,1 +1,0 @@\n-a\n")
            .unwrap();
    assert!(can_plan(&files, &assign, &[spec("a")]));
    assert!(!can_plan(&files, &assign, &[branch_spec("a", "t")]));
}

#[test]
fn splitting_a_file_loses_nothing() {
    let mut files = modified_file();
    files.extend(diff::parse(NEW_FILE).unwrap());
    let bases = base("f.txt", BASE);
    for branch in [None, Some("topic".to_string())] {
        let specs: Vec<CommitSpec> = ["a", "b", "c", "d"]
            .iter()
            .map(|m| CommitSpec {
                message: m.to_string(),
                branch: branch.clone(),
            })
            .collect();
        let mut assign = empty_assignments(&files);
        assign[0][0][1] = Some(2);
        assign[0][0][2] = Some(0);
        assign[0][0][3] = Some(1);
        assign[1][0][0] = Some(3);
        let plan = build_plan(&files, &assign, &bases, &specs);
        let last = plan
            .commits
            .iter()
            .flat_map(|c| c.files.iter())
            .filter(|f| f.path == "f.txt")
            .last()
            .unwrap();
        assert_eq!(
            last.content.as_deref(),
            Some(b"one\nTWO\ntwo-and-a-half\nthree\nfour\n".as_slice())
        );
        assert_eq!(plan.commits.len(), 4);
        assert_eq!(plan.commits[3].files.len(), 1);
    }
}
