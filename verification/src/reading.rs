//! Reading the staged changes, one command after the other.
use vstd::prelude::*;

use crate::backend;
use crate::backend::{git, printed_text, Action, ActionView, RepoState};
use crate::diff;
use crate::diff::{DiffError, DiffErrorView, FileDiff, FileKind, FileView};
use crate::model::Bases;
use crate::text;
use crate::text::lossy;

verus! {

/// Why the staged changes could not be read.
#[derive(Debug)]
pub enum ReadError {
    /// The directory is not in a repository.
    NotRepository,
    /// A command failed.
    Command,
    /// The diff was not understood.
    Diff(DiffError),
}

/// What a `ReadError` stands for.
pub enum ReadErrorView {
    NotRepository,
    Command,
    Diff(DiffErrorView),
}

impl DeepView for ReadError {
    type V = ReadErrorView;

    open spec fn deep_view(&self) -> ReadErrorView {
        match self {
            ReadError::NotRepository => ReadErrorView::NotRepository,
            ReadError::Command => ReadErrorView::Command,
            ReadError::Diff(e) => ReadErrorView::Diff(e.deep_view()),
        }
    }
}

/// Where the reading stands.
pub enum Step {
    /// Is the directory in a repository?
    Repository,
    /// What is staged?
    Diff,
    /// What was in the file with this number before?
    Blob(usize),
    /// Which branch is checked out?
    Branch,
    Finished,
}

/// The reading of the staged changes.
pub struct ReadSession {
    step: Step,
    files: Vec<FileDiff>,
    bases: Bases,
    branch: String,
    failure: Option<ReadError>,
}

/// What a `ReadSession` stands for.
pub struct ReadingView {
    pub step: Step,
    pub files: Seq<FileView>,
    pub bases: Map<Seq<char>, Vec<u8>>,
    pub branch: Seq<char>,
    pub failure: Option<ReadErrorView>,
}

impl View for ReadSession {
    type V = ReadingView;

    closed spec fn view(&self) -> ReadingView {
        ReadingView {
            step: self.step,
            files: self.files.deep_view(),
            bases: self.bases@,
            branch: self.branch@,
            failure: self.failure.deep_view(),
        }
    }
}

/// The beginning.
pub open spec fn start() -> ReadingView {
    ReadingView {
        step: Step::Repository,
        files: Seq::<FileView>::empty(),
        bases: Map::<Seq<char>, Vec<u8>>::empty(),
        branch: Seq::<char>::empty(),
        failure: None,
    }
}

/// The command that prints the staged changes.
pub open spec fn diff_args() -> Seq<Seq<char>> {
    seq![
        "-c"@,
        "core.quotePath=false"@,
        "diff"@,
        "--cached"@,
        "--no-color"@,
        "--no-ext-diff"@,
        "--no-renames"@,
        "--full-index"@,
        "-U3"@,
    ]
}

/// Whether the content before the changes has to be read: there is one, and it
/// is text.
pub open spec fn needs_base(f: FileView) -> bool {
    !f.binary && f.kind != FileKind::Added && f.old_blob is Some
}

/// The first file from number `i` on whose old content has to be read, or the
/// number of files.
pub open spec fn next_blob(files: Seq<FileView>, i: int) -> int
    decreases files.len() - i,
{
    if i >= files.len() || needs_base(files[i]) {
        i
    } else {
        next_blob(files, i + 1)
    }
}

/// The step that reads the next old content, or the one after those.
pub open spec fn at_blob(files: Seq<FileView>, i: int) -> Step {
    let j = next_blob(files, i);
    if j < files.len() {
        Step::Blob(j as usize)
    } else {
        Step::Branch
    }
}

/// What is to be done next.
pub open spec fn action(v: ReadingView) -> ActionView {
    match v.step {
        Step::Repository => backend::plain_git(seq!["rev-parse"@, "--git-dir"@]),
        Step::Diff => backend::plain_git(diff_args()),
        Step::Blob(i) => backend::plain_git(
            seq!["cat-file"@, "blob"@, v.files[i as int].old_blob.unwrap()],
        ),
        Step::Branch => backend::plain_git(seq!["rev-parse"@, "--abbrev-ref"@, "HEAD"@]),
        Step::Finished => ActionView::Done,
    }
}

/// The reading has failed.
pub open spec fn failing(v: ReadingView, e: ReadErrorView) -> ReadingView {
    ReadingView { step: Step::Finished, failure: Some(e), ..v }
}

/// What follows the answer to a command: what it printed, or `None` when it
/// failed.
pub open spec fn next(v: ReadingView, output: Option<Vec<u8>>) -> ReadingView {
    match v.step {
        Step::Repository => match output {
            None => failing(v, ReadErrorView::NotRepository),
            Some(_) => ReadingView { step: Step::Diff, ..v },
        },
        Step::Diff => match output {
            None => failing(v, ReadErrorView::Command),
            Some(o) => match diff::parsed(text::lossy_text(o@)) {
                Err(e) => failing(v, ReadErrorView::Diff(e)),
                Ok(files) => ReadingView { step: at_blob(files, 0), files, ..v },
            },
        },
        Step::Blob(i) => match output {
            None => failing(v, ReadErrorView::Command),
            Some(o) => ReadingView {
                step: at_blob(v.files, i + 1),
                bases: v.bases.insert(v.files[i as int].path, o),
                ..v
            },
        },
        Step::Branch => ReadingView {
            step: Step::Finished,
            branch: match output {
                None => "HEAD"@,
                Some(o) => backend::printed(o@),
            },
            ..v
        },
        Step::Finished => v,
    }
}

/// A file number is one of a file whose old content has to be read.
pub open spec fn sound(v: ReadingView) -> bool {
    v.step matches Step::Blob(i) ==> i < v.files.len() && needs_base(v.files[i as int])
}

proof fn lemma_next_blob(files: Seq<FileView>, i: int)
    requires
        0 <= i <= files.len(),
    ensures
        i <= next_blob(files, i) <= files.len(),
        next_blob(files, i) < files.len() ==> needs_base(files[next_blob(files, i)]),
    decreases files.len() - i,
{
    if i < files.len() && !needs_base(files[i]) {
        lemma_next_blob(files, i + 1);
    }
}

fn find_blob(files: &Vec<FileDiff>, i: usize) -> (r: Step)
    requires
        i <= files@.len(),
    ensures
        r == at_blob(files.deep_view(), i as int),
{
    let ghost view = files.deep_view();
    let mut j: usize = i;
    while j < files.len()
        invariant
            j <= files@.len(),
            view == files.deep_view(),
            next_blob(view, i as int) == next_blob(view, j as int),
        decreases files@.len() - j,
    {
        let f = &files[j];
        assert(view[j as int] == f.deep_view());
        if !f.binary && f.kind != FileKind::Added && f.old_blob.is_some() {
            return Step::Blob(j);
        }
        j += 1;
    }
    Step::Branch
}

impl ReadSession {
    /// The session can go on.
    pub open spec fn wf(self) -> bool {
        sound(self@)
    }

    /// The beginning.
    pub fn start() -> (r: Self)
        ensures
            r.wf(),
            r@ == self::start(),
    {
        let files: Vec<FileDiff> = Vec::new();
        assert(files.deep_view() =~= Seq::<FileView>::empty());
        let r = ReadSession {
            step: Step::Repository,
            files,
            bases: Bases::new(),
            branch: String::new(),
            failure: None,
        };
        assert(r.bases@ =~= Map::<Seq<char>, Vec<u8>>::empty());
        assert(r.branch@ =~= Seq::<char>::empty());
        r
    }

    /// What is to be done next.
    pub fn action(&self) -> (r: Action)
        requires
            self.wf(),
        ensures
            r@ == self::action(self@),
    {
        match &self.step {
            Step::Repository => {
                let args = vec!["rev-parse".to_string(), "--git-dir".to_string()];
                assert(args.deep_view() =~= seq!["rev-parse"@, "--git-dir"@]);
                git(args)
            },
            Step::Diff => {
                let args = vec![
                    "-c".to_string(),
                    "core.quotePath=false".to_string(),
                    "diff".to_string(),
                    "--cached".to_string(),
                    "--no-color".to_string(),
                    "--no-ext-diff".to_string(),
                    "--no-renames".to_string(),
                    "--full-index".to_string(),
                    "-U3".to_string(),
                ];
                assert(args.deep_view() =~= diff_args());
                git(args)
            },
            Step::Blob(i) => {
                assert(self@.files[*i as int] == self.files@[*i as int].deep_view());
                match &self.files[*i].old_blob {
                    Some(blob) => {
                        let args = vec!["cat-file".to_string(), "blob".to_string(), blob.clone()];
                        assert(args.deep_view() =~= seq!["cat-file"@, "blob"@, blob@]);
                        git(args)
                    },
                    None => Action::Done,
                }
            },
            Step::Branch => {
                let args = vec![
                    "rev-parse".to_string(),
                    "--abbrev-ref".to_string(),
                    "HEAD".to_string(),
                ];
                assert(args.deep_view() =~= seq!["rev-parse"@, "--abbrev-ref"@, "HEAD"@]);
                git(args)
            },
            Step::Finished => Action::Done,
        }
    }

    /// Goes on with the answer to the last action.
    pub fn reply(&mut self, output: Option<Vec<u8>>)
        requires
            old(self).wf(),
        ensures
            final(self).wf(),
            final(self)@ == self::next(old(self)@, output),
    {
        match self.step {
            Step::Repository => match output {
                None => {
                    self.failure = Some(ReadError::NotRepository);
                    self.step = Step::Finished;
                },
                Some(_) => {
                    self.step = Step::Diff;
                },
            },
            Step::Diff => match output {
                None => {
                    self.failure = Some(ReadError::Command);
                    self.step = Step::Finished;
                },
                Some(o) => match diff::parse(&lossy(&o)) {
                    Err(e) => {
                        self.failure = Some(ReadError::Diff(e));
                        self.step = Step::Finished;
                    },
                    Ok(files) => {
                        self.step = find_blob(&files, 0);
                        proof {
                            assert(files.len() == files@.len());
                            lemma_next_blob(files.deep_view(), 0);
                        }
                        self.files = files;
                    },
                },
            },
            Step::Blob(i) => match output {
                None => {
                    self.failure = Some(ReadError::Command);
                    self.step = Step::Finished;
                },
                Some(o) => {
                    assert(self@.files[i as int] == self.files@[i as int].deep_view());
                    assert(self.files.len() == self.files@.len());
                    self.bases.insert(self.files[i].path.clone(), o);
                    self.step = find_blob(&self.files, i + 1);
                    proof {
                        lemma_next_blob(self.files.deep_view(), i + 1);
                    }
                },
            },
            Step::Branch => {
                self.branch = match &output {
                    None => "HEAD".to_string(),
                    Some(o) => printed_text(o),
                };
                self.step = Step::Finished;
            },
            Step::Finished => {},
        }
    }

    /// What was read, or why not; `None` as long as there is more to do.
    pub fn result(self) -> (r: Option<Result<RepoState, ReadError>>)
        ensures
            r is Some <==> self@.step == Step::Finished,
            r matches Some(Ok(state)) ==> self@.failure is None && state.files.deep_view()
                == self@.files && state.bases@ == self@.bases && state.branch@ == self@.branch,
            r matches Some(Err(e)) ==> self@.failure == Some(e.deep_view()),
    {
        match self.step {
            Step::Finished => match self.failure {
                Some(e) => Some(Err(e)),
                None => Some(
                    Ok(RepoState { files: self.files, bases: self.bases, branch: self.branch }),
                ),
            },
            _ => None,
        }
    }
}

} // verus!
