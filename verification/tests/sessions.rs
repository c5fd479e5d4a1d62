//! Sessions with a repository, against answers made up here.
use std::path::PathBuf;

use hunkle::backend::{self, Action, Backend, CreatedCommits, GitBackend, RepoState};
use hunkle::committing::CommitError;
use hunkle::diff;
use hunkle::model::{build_plan, empty_assignments, Bases, CommitSpec, Plan};
use hunkle::reading::ReadError;

fn git_backend() -> GitBackend {
    backend::create("git", PathBuf::from("/work")).unwrap()
}

/// What was asked for, in words.
fn words(action: &Action) -> String {
    match action {
        Action::Git { args, stdin, index } => {
            let mut out = args.join(" ");
            if let Some(b) = stdin {
                out.push_str(&format!(" < {}", String::from_utf8_lossy(b)));
            }
            if let Some(i) = index {
                out.push_str(&format!(" @ {} {}", i.git_dir, i.name));
            }
            out
        }
        Action::ReadFile { path } => format!("read {path}"),
        Action::WriteFile { path, content } => {
            format!("write {path} {}", String::from_utf8_lossy(content))
        }
        Action::RemoveFile { path } => format!("remove {path}"),
        Action::RemoveIndex(i) => format!("drop {} {}", i.git_dir, i.name),
        Action::Done => "done".to_string(),
    }
}

type Answers<'a> = &'a dyn Fn(&str) -> Option<Vec<u8>>;

fn read(answers: Answers) -> (Vec<String>, Result<RepoState, ReadError>) {
    let mut session = git_backend().read_state();
    let mut asked = Vec::new();
    loop {
        let action = session.action();
        if matches!(action, Action::Done) {
            return (asked, session.result().unwrap());
        }
        let w = words(&action);
        session.reply(answers(&w));
        asked.push(w);
    }
}

fn commit(plan: &Plan, answers: Answers) -> (Vec<String>, Result<CreatedCommits, CommitError>) {
    let backend = git_backend();
    let mut session = backend.create_commits(plan, 77);
    let mut asked = Vec::new();
    loop {
        let action = session.action();
        if matches!(action, Action::Done) {
            return (asked, session.result().unwrap());
        }
        let w = words(&action);
        session.reply(answers(&w));
        asked.push(w);
    }
}

fn some(text: &str) -> Option<Vec<u8>> {
    Some(text.as_bytes().to_vec())
}

const DIFF: &str = "\
diff --git a/f b/f
index 1a..2b 100644
--- a/f
+++ b/f
@@ -1,2 +1,2 @@
-one
+ONE
 two
diff --git a/gone b/gone
deleted file mode 100644
index 3c..00
--- a/gone
+++ /dev/null
@@ -1 +0,0 @@
-y
diff --git a/new b/new
new file mode 100755
index 00..4d
--- /dev/null
+++ b/new
@@ -0,0 +1 @@
+x
";

fn plan_of(commits: &[(&str, Option<&str>)], lines: &[(usize, usize, usize)]) -> Plan {
    let files = diff::parse(DIFF).unwrap();
    let mut assign = empty_assignments(&files);
    for &(f, l, c) in lines {
        assign[f][0][l] = Some(c);
    }
    let mut bases = Bases::new();
    bases.insert("f".to_string(), b"one\ntwo\n".to_vec());
    bases.insert("gone".to_string(), b"y\n".to_vec());
    let specs: Vec<CommitSpec> = commits
        .iter()
        .map(|(m, b)| CommitSpec {
            message: m.to_string(),
            branch: b.map(|b| b.to_string()),
        })
        .collect();
    build_plan(&files, &assign, &bases, &specs)
}

/// Answers of a repository with a commit, in which everything works.
fn works(asked: &str) -> Option<Vec<u8>> {
    if asked.starts_with("rev-parse --verify --quiet refs/heads/") {
        None
    } else if asked == "rev-parse --absolute-git-dir" {
        some("/work/.git\n")
    } else if asked == "rev-parse --verify --quiet HEAD" {
        some("h0\n")
    } else if asked.starts_with("config") {
        some("false\n")
    } else if asked.starts_with("hash-object") {
        some(" blob\n")
    } else if asked.starts_with("write-tree") {
        some(&format!("tree{}\n", asked.chars().last().unwrap()))
    } else if let Some((_, message)) = asked.split_once(" -m ") {
        if asked.starts_with("commit-tree") {
            some(&format!("id-{message}\n"))
        } else {
            some("")
        }
    } else if asked == "read f" {
        some("ONE\ntwo\n")
    } else if asked == "read new" {
        some("x\n")
    } else if asked == "read gone" {
        None
    } else {
        some("")
    }
}

#[test]
fn only_git_is_known() {
    let e = backend::create("h\"g", PathBuf::from(".")).unwrap_err();
    assert_eq!(e.name, "h\"g");
    assert_eq!(e.message(), "unknown backend \"h\\\"g\" (available: git)");
    assert_eq!(git_backend().dir, PathBuf::from("/work"));
}

#[test]
fn failing_commands_are_named() {
    let args = vec!["a".to_string(), "b c".to_string()];
    assert_eq!(backend::not_started(&args), "failed to run git a b c");
    assert_eq!(
        backend::failed(&args, &b" no\xff way \n".to_vec()),
        "git a b c failed: no\u{fffd} way"
    );
    assert_eq!(backend::failed(&vec![], &vec![]), "git  failed: ");
}

#[test]
fn the_state_is_read() {
    let (asked, state) = read(&|w| match w {
        "rev-parse --git-dir" => some(".git\n"),
        "cat-file blob 1a" => some("one\ntwo\n"),
        "cat-file blob 3c" => some("y\n"),
        "rev-parse --abbrev-ref HEAD" => some("main\n"),
        _ => some(DIFF),
    });
    assert_eq!(
        asked,
        vec![
            "rev-parse --git-dir",
            "-c core.quotePath=false diff --cached --no-color --no-ext-diff --no-renames --full-index -U3",
            "cat-file blob 1a",
            "cat-file blob 3c",
            "rev-parse --abbrev-ref HEAD",
        ]
    );
    let state = state.unwrap();
    assert_eq!(state.branch, "main");
    assert_eq!(state.files.len(), 3);
    assert_eq!(
        state.bases.get("f").map(|b| b.as_slice()),
        Some(b"one\ntwo\n".as_slice())
    );
    assert_eq!(
        state.bases.get("gone").map(|b| b.as_slice()),
        Some(b"y\n".as_slice())
    );
    assert!(state.bases.get("new").is_none());
}

#[test]
fn text_that_is_not_utf8_is_replaced() {
    let (_, state) = read(&|w| {
        if w.starts_with("-c") {
            Some(b"diff --git a/f b/f\n@@ -0,0 +1 @@\n+\xff\xc3\xa9\n".to_vec())
        } else if w.contains("abbrev-ref") {
            None
        } else {
            some("")
        }
    });
    let state = state.unwrap();
    assert_eq!(state.files[0].hunks[0].lines[0].content, "\u{fffd}\u{e9}");
    assert_eq!(state.branch, "HEAD");
}

#[test]
fn reading_fails_as_its_commands_do() {
    let (asked, r) = read(&|_| None);
    assert_eq!(asked.len(), 1);
    assert!(matches!(r, Err(ReadError::NotRepository)));
    let (asked, r) = read(&|w| if w.starts_with("-c") { None } else { some("") });
    assert_eq!(asked.len(), 2);
    assert!(matches!(r, Err(ReadError::Command)));
    let (_, r) = read(&|w| {
        if w.starts_with("cat-file") {
            None
        } else {
            some(DIFF)
        }
    });
    assert!(matches!(r, Err(ReadError::Command)));
    let (_, r) = read(&|w| {
        if w.starts_with("-c") {
            some("diff --git a/f b/f\n@@ -1 +1 @@\n")
        } else {
            some("")
        }
    });
    assert!(matches!(r, Err(ReadError::Diff(diff::DiffError::Truncated))));
}

#[test]
fn commits_are_made_one_after_the_other() {
    let plan = plan_of(
        &[("a", None), ("b", None)],
        &[(0, 0, 0), (0, 1, 1), (1, 0, 1)],
    );
    let (asked, created) = commit(&plan, &works);
    assert_eq!(
        asked,
        vec![
            "rev-parse --absolute-git-dir",
            "rev-parse --verify --quiet HEAD",
            "config --bool --get commit.gpgsign",
            "read-tree h0 @ /work/.git hunkle-index-77-0",
            "hash-object -w --stdin < two\n",
            "update-index --add --cacheinfo 100644,blob,f @ /work/.git hunkle-index-77-0",
            "write-tree @ /work/.git hunkle-index-77-0",
            "commit-tree tree0 -p h0 -m a",
            "hash-object -w --stdin < ONE\ntwo\n",
            "update-index --add --cacheinfo 100644,blob,f @ /work/.git hunkle-index-77-0",
            "update-index --force-remove -- gone @ /work/.git hunkle-index-77-0",
            "write-tree @ /work/.git hunkle-index-77-0",
            "commit-tree tree0 -p id-a -m b",
            "update-ref -m hunkle: split staged changes HEAD id-b h0",
            "drop /work/.git hunkle-index-77-0",
        ]
    );
    let created = created.unwrap();
    assert_eq!(created.ids, vec!["id-a", "id-b"]);
    assert!(created.worktree_skipped.is_empty());
}

#[test]
fn branches_have_their_own_index_and_parent() {
    let plan = plan_of(
        &[("a", Some("t")), ("b", None), ("c", Some("t"))],
        &[(0, 0, 0), (1, 0, 1), (0, 1, 2), (2, 0, 2)],
    );
    let (asked, created) = commit(&plan, &works);
    assert_eq!(created.unwrap().ids, vec!["id-a", "id-b", "id-c"]);
    assert_eq!(asked[0], "check-ref-format --branch t");
    assert_eq!(asked[1], "rev-parse --verify --quiet refs/heads/t");
    let trees: Vec<&str> = asked
        .iter()
        .filter(|w| w.starts_with("read-tree") || w.starts_with("commit-tree"))
        .map(|w| w.as_str())
        .collect();
    assert_eq!(
        trees,
        vec![
            "read-tree h0 @ /work/.git hunkle-index-77-0",
            "commit-tree tree0 -p h0 -m a",
            "read-tree h0 @ /work/.git hunkle-index-77-1",
            "commit-tree tree1 -p h0 -m b",
            "commit-tree tree0 -p id-a -m c",
        ]
    );
    let tail: Vec<&str> = asked
        .iter()
        .skip_while(|w| !w.starts_with("update-ref"))
        .map(|w| w.as_str())
        .collect();
    assert_eq!(
        tail,
        vec![
            "update-ref -m hunkle: split staged changes HEAD id-b h0",
            "branch t id-c",
            "hash-object -w --stdin < one\ntwo\n",
            "update-index --add --cacheinfo 100644,blob,f",
            "read f",
            "write f one\ntwo\n",
            "update-index --force-remove -- new",
            "read new",
            "remove new",
            "drop /work/.git hunkle-index-77-0",
            "drop /work/.git hunkle-index-77-1",
        ]
    );
}

#[test]
fn edited_files_are_left_alone() {
    let plan = plan_of(&[("a", Some("t"))], &[(0, 0, 0), (0, 1, 0), (2, 0, 0)]);
    let (asked, created) = commit(&plan, &|w| {
        if w == "read f" {
            some("ONE\ntwo\nthree\n")
        } else if w == "read new" {
            None
        } else {
            works(w)
        }
    });
    assert_eq!(created.unwrap().worktree_skipped, vec!["f", "new"]);
    assert!(!asked.iter().any(|w| w.starts_with("write ") || w.starts_with("remove ")));
    assert!(!asked.iter().any(|w| w.starts_with("update-ref")));
}

#[test]
fn the_first_commit_has_no_parent() {
    let plan = plan_of(&[("a", None)], &[(2, 0, 0)]);
    let (asked, created) = commit(&plan, &|w| {
        if w == "rev-parse --verify --quiet HEAD" {
            None
        } else {
            works(w)
        }
    });
    assert_eq!(created.unwrap().ids, vec!["id-a"]);
    assert!(asked.contains(&"read-tree --empty @ /work/.git hunkle-index-77-0".to_string()));
    assert!(asked.contains(&"commit-tree tree0 -m a".to_string()));
    assert!(asked.contains(&"update-ref HEAD id-a".to_string()));
}

#[test]
fn commits_are_signed_when_configured() {
    let plan = plan_of(&[("a", None)], &[(2, 0, 0)]);
    let (asked, _) = commit(&plan, &|w| {
        if w.starts_with("config") {
            some("true\n")
        } else {
            works(w)
        }
    });
    assert!(asked.contains(&"commit-tree tree0 -S -p h0 -m a".to_string()));
}

#[test]
fn nothing_is_committed_without_commits() {
    let plan = plan_of(&[("a", None)], &[]);
    let (asked, created) = commit(&plan, &works);
    assert!(asked.is_empty());
    let e = created.unwrap_err();
    assert!(matches!(e, CommitError::NothingToCommit));
    assert_eq!(e.message().as_deref(), Some("nothing to commit"));
}

#[test]
fn branch_names_are_checked_first() {
    let plan = plan_of(&[("a", Some("b d"))], &[(2, 0, 0)]);
    let (asked, created) = commit(&plan, &|_| None);
    assert_eq!(asked, vec!["check-ref-format --branch b d"]);
    let e = created.unwrap_err();
    assert!(matches!(&e, CommitError::InvalidBranch(b) if b == "b d"));
    assert_eq!(
        e.message().as_deref(),
        Some("invalid branch name \"b d\"")
    );
    let (asked, created) = commit(&plan, &|_| some("x\n"));
    assert_eq!(asked.len(), 2);
    let e = created.unwrap_err();
    assert!(matches!(&e, CommitError::BranchExists(b) if b == "b d"));
    assert_eq!(
        e.message().as_deref(),
        Some("branch \"b d\" already exists")
    );
}

#[test]
fn failures_change_nothing_and_leave_nothing_behind() {
    let plan = plan_of(
        &[("a", None), ("b", Some("t"))],
        &[(0, 0, 0), (1, 0, 1), (0, 1, 1)],
    );
    for bad in ["read-tree h0 @ /work/.git hunkle-index-77-1", "hash-object", "write-tree", "commit-tree tree1"] {
        let (asked, created) = commit(&plan, &|w| {
            if w.starts_with(bad) {
                None
            } else {
                works(w)
            }
        });
        let e = created.unwrap_err();
        assert!(matches!(e, CommitError::Command));
        assert!(e.message().is_none());
        for w in &asked {
            assert!(!w.starts_with("update-ref"));
            assert!(!w.starts_with("branch"));
            assert!(!w.starts_with("write ") && !w.starts_with("remove "));
            assert!(!w.starts_with("update-index") || w.contains(" @ "));
        }
        for k in 0..2 {
            let file = format!("/work/.git hunkle-index-77-{k}");
            let filled = asked.iter().any(|w| {
                *w == format!("read-tree h0 @ {file}") && !w.starts_with(bad)
            });
            let dropped = asked.iter().any(|w| *w == format!("drop {file}"));
            assert_eq!(filled, dropped);
        }
    }
}

#[test]
fn a_failed_write_is_an_error_and_a_failed_removal_is_not() {
    let plan = plan_of(&[("a", Some("t"))], &[(0, 0, 0), (0, 1, 0), (2, 0, 0)]);
    let (_, created) = commit(&plan, &|w| {
        if w.starts_with("write f") {
            None
        } else {
            works(w)
        }
    });
    assert!(matches!(created, Err(CommitError::Command)));
    let (_, created) = commit(&plan, &|w| {
        if w.starts_with("remove new") {
            None
        } else {
            works(w)
        }
    });
    assert_eq!(created.unwrap().ids, vec!["id-a"]);
}

#[test]
fn an_unfinished_session_has_no_result() {
    let plan = plan_of(&[("a", None)], &[(2, 0, 0)]);
    let session = git_backend().create_commits(&plan, 1);
    assert!(session.result().is_none());
    assert!(git_backend().read_state().result().is_none());
}
