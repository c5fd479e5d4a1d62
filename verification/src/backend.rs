//! The repository: what is read from it, and how the commits are made.
use std::path::PathBuf;

use vstd::prelude::*;

use crate::committing::CommitSession;
use crate::committing;
use crate::diff::FileDiff;
use crate::model;
use crate::model::{Bases, Plan};
use crate::reading::ReadSession;
use crate::reading;
use crate::text;
use crate::text::{append, chars_of, lossy, same_text, str_debug, trim};

verus! {

/// `std::path::PathBuf`: a path, carried from the caller to the commands.
#[verifier::external_type_specification]
#[verifier::external_body]
pub struct ExPathBuf(std::path::PathBuf);

/// What is known of a repository: the staged changes, the contents before them,
/// and the branch that is checked out.
pub struct RepoState {
    pub files: Vec<FileDiff>,
    pub bases: Bases,
    pub branch: String,
}

/// The commits that were made, by their ids, and the files whose working tree
/// copy was left as it is.
#[derive(Debug)]
pub struct CreatedCommits {
    pub ids: Vec<String>,
    pub worktree_skipped: Vec<String>,
}

// ---------------------------------------------------------------------------
// What a session asks for.

/// An index file beside the repository's own, in the repository's directory.
#[derive(Debug)]
pub struct TempIndex {
    pub git_dir: String,
    pub name: String,
}

/// What a session wants to have done next.
#[derive(Debug)]
pub enum Action {
    /// Run git with these arguments, these bytes on its standard input, and
    /// this index in place of the repository's own.
    Git { args: Vec<String>, stdin: Option<Vec<u8>>, index: Option<TempIndex> },
    /// Read a file of the working tree.
    ReadFile { path: String },
    /// Write a file of the working tree, with the directories above it.
    WriteFile { path: String, content: Vec<u8> },
    /// Remove a file of the working tree, if it is there.
    RemoveFile { path: String },
    /// Remove an index file, if it is there.
    RemoveIndex(TempIndex),
    /// Nothing more: the session is over.
    Done,
}

/// What a `TempIndex` stands for.
pub struct IndexView {
    pub git_dir: Seq<char>,
    pub name: Seq<char>,
}

/// What an `Action` stands for.
pub enum ActionView {
    Git { args: Seq<Seq<char>>, stdin: Option<Seq<u8>>, index: Option<IndexView> },
    ReadFile { path: Seq<char> },
    WriteFile { path: Seq<char>, content: Seq<u8> },
    RemoveFile { path: Seq<char> },
    RemoveIndex(IndexView),
    Done,
}

impl DeepView for TempIndex {
    type V = IndexView;

    open spec fn deep_view(&self) -> IndexView {
        IndexView { git_dir: self.git_dir@, name: self.name@ }
    }
}

impl View for Action {
    type V = ActionView;

    open spec fn view(&self) -> ActionView {
        match self {
            Action::Git { args, stdin, index } => ActionView::Git {
                args: args.deep_view(),
                stdin: model::bytes_of(*stdin),
                index: index.deep_view(),
            },
            Action::ReadFile { path } => ActionView::ReadFile { path: path@ },
            Action::WriteFile { path, content } => ActionView::WriteFile {
                path: path@,
                content: content@,
            },
            Action::RemoveFile { path } => ActionView::RemoveFile { path: path@ },
            Action::RemoveIndex(index) => ActionView::RemoveIndex(index.deep_view()),
            Action::Done => ActionView::Done,
        }
    }
}

/// A git command on the repository's own index, without input.
pub open spec fn plain_git(args: Seq<Seq<char>>) -> ActionView {
    ActionView::Git { args, stdin: None, index: None }
}

/// What a command printed, without the white space at its end.
pub open spec fn printed(output: Seq<u8>) -> Seq<char> {
    text::trimmed_end(text::lossy_text(output))
}

/// What a command printed, without the white space around it.
pub open spec fn word(output: Seq<u8>) -> Seq<char> {
    text::trimmed(text::lossy_text(output))
}

/// Makes the command.
pub(crate) fn git(args: Vec<String>) -> (r: Action)
    ensures
        r@ == plain_git(args.deep_view()),
{
    Action::Git { args, stdin: None, index: None }
}

/// What a command printed, without the white space at its end.
pub(crate) fn printed_text(output: &Vec<u8>) -> (r: String)
    ensures
        r@ == printed(output@),
{
    text::trim_end(&lossy(output))
}

/// What a command printed, without the white space around it.
pub(crate) fn printed_word(output: &Vec<u8>) -> (r: String)
    ensures
        r@ == word(output@),
{
    trim(&lossy(output))
}

// ---------------------------------------------------------------------------
// Commands that fail.

/// The arguments, separated by spaces.
pub open spec fn joined(args: Seq<Seq<char>>, n: int) -> Seq<char>
    decreases n,
{
    if n <= 0 {
        Seq::<char>::empty()
    } else if n == 1 {
        args[0]
    } else {
        joined(args, n - 1) + " "@ + args[n - 1]
    }
}

fn join(args: &Vec<String>) -> (r: String)
    ensures
        r@ == joined(args.deep_view(), args@.len() as int),
{
    let mut out = String::new();
    let mut i: usize = 0;
    while i < args.len()
        invariant
            i <= args@.len(),
            out@ == joined(args.deep_view(), i as int),
        decreases args@.len() - i,
    {
        if i > 0 {
            append(&mut out, " ");
        }
        append(&mut out, &args[i]);
        assert(args.deep_view()[i as int] == args@[i as int]@);
        i += 1;
        assert(out@ =~= joined(args.deep_view(), i as int));
    }
    out
}

/// What is said of a git command that could not be started.
pub fn not_started(args: &Vec<String>) -> (r: String)
    ensures
        r@ == "failed to run git "@ + joined(args.deep_view(), args@.len() as int),
{
    let mut out = "failed to run git ".to_string();
    append(&mut out, &join(args));
    out
}

/// What is said of a git command that failed, with what it wrote to its
/// standard error.
pub fn failed(args: &Vec<String>, stderr: &Vec<u8>) -> (r: String)
    ensures
        r@ == "git "@ + joined(args.deep_view(), args@.len() as int) + " failed: "@ + word(stderr@),
{
    let mut out = "git ".to_string();
    append(&mut out, &join(args));
    append(&mut out, " failed: ");
    append(&mut out, &printed_word(stderr));
    out
}

// ---------------------------------------------------------------------------
// Backends.

/// A way to a repository: the sessions that read it and that make commits in it.
pub trait Backend {
    /// The session that reads the staged changes.
    fn read_state(&self) -> (r: ReadSession)
        ensures
            r.wf(),
            r@ == reading::start(),
    ;

    /// The session that makes the commits of a plan. The process id keeps the
    /// names of the index files apart.
    fn create_commits<'a>(&self, plan: &'a Plan, pid: u32) -> (r: CommitSession<'a>)
        ensures
            r.wf(),
            r@ == committing::start(plan.deep_view(), pid),
    ;
}

/// A repository that git works on, by its directory.
#[derive(Debug)]
pub struct GitBackend {
    pub dir: PathBuf,
}

impl Backend for GitBackend {
    fn read_state(&self) -> (r: ReadSession) {
        ReadSession::start()
    }

    fn create_commits<'a>(&self, plan: &'a Plan, pid: u32) -> (r: CommitSession<'a>) {
        CommitSession::start(plan, pid)
    }
}

/// A backend was asked for that there is not.
#[derive(Debug)]
pub struct UnknownBackend {
    pub name: String,
}

impl UnknownBackend {
    /// The reason in words.
    pub fn message(&self) -> (r: String)
        ensures
            r@ == "unknown backend "@ + text::debug_text(self.name@) + " (available: git)"@,
    {
        let mut out = "unknown backend ".to_string();
        append(&mut out, &str_debug(&self.name));
        append(&mut out, " (available: git)");
        out
    }
}

/// The backend with the given name, for the repository in the given directory.
pub fn create(name: &str, dir: PathBuf) -> (r: Result<GitBackend, UnknownBackend>)
    ensures
        name@ == "git"@ ==> (r matches Ok(b) && b.dir == dir),
        name@ != "git"@ ==> (r matches Err(e) && e.name@ == name@),
{
    if same_text(&chars_of(name), "git") {
        Ok(GitBackend { dir })
    } else {
        Err(UnknownBackend { name: name.to_string() })
    }
}

} // verus!
