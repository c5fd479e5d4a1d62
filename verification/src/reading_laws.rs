//! Which command the reading of the staged changes gives when, and what its
//! answers are read as.
use vstd::prelude::*;

use crate::backend;
use crate::backend::ActionView;
use crate::diff;
use crate::diff::{FileKind, FileView};
use crate::reading;
use crate::reading::{ReadErrorView, ReadingView, Step};
use crate::session_laws;
use crate::text;
use crate::text_laws;

verus! {

/// Whether the old content of a file is read: of a text file that is not new and
/// whose old content has a name.
pub open spec fn has_old_content(f: FileView) -> bool {
    !f.binary && f.old_blob is Some && match f.kind {
        FileKind::Added => false,
        FileKind::Modified => true,
        FileKind::Deleted => true,
    }
}

/// How many of the first `n` files have an old content that is read.
pub open spec fn contents_before(files: Seq<FileView>, n: int) -> int
    decreases n,
{
    if n <= 0 {
        0
    } else {
        contents_before(files, n - 1) + if has_old_content(files[n - 1]) {
            1int
        } else {
            0int
        }
    }
}

/// The command with number `k`.
pub open spec fn asked(answers: Seq<Option<Vec<u8>>>, k: int) -> ActionView {
    reading::action(session_laws::read_run(answers, k))
}

/// A git command without input on the repository's own index.
pub open spec fn command(args: Seq<Seq<char>>) -> ActionView {
    ActionView::Git { args, stdin: None, index: None }
}

/// Whether the repository is there, and its diff could be read as these files.
pub open spec fn reads(answers: Seq<Option<Vec<u8>>>, files: Seq<FileView>) -> bool {
    &&& answers.len() >= 2
    &&& answers[0] is Some
    &&& answers[1] matches Some(o) && diff::parsed(text::lossy_text(o@)) == Ok::<
        Seq<FileView>,
        diff::DiffErrorView,
    >(files)
    &&& files.len() <= usize::MAX
}

proof fn lemma_two_answers(answers: Seq<Option<Vec<u8>>>)
    requires
        answers.len() >= 2,
    ensures
        session_laws::read_run(answers, 1) == reading::next(reading::start(), answers[0]),
        session_laws::read_run(answers, 2) == reading::next(
            session_laws::read_run(answers, 1),
            answers[1],
        ),
{
    assert(session_laws::read_run(answers, 0) == reading::start());
}

/// First the repository is asked for, and then its staged changes; a directory
/// without a repository, a diff that is not given and one that cannot be read are
/// told apart.
pub proof fn law_changes_are_asked_for(answers: Seq<Option<Vec<u8>>>)
    requires
        answers.len() >= 2,
    ensures
        asked(answers, 0) == command(seq!["rev-parse"@, "--git-dir"@]),
        answers[0] is None ==> session_laws::read_run(answers, 1).failure == Some(
            ReadErrorView::NotRepository,
        ) && session_laws::read_run(answers, 1).step == Step::Finished,
        answers[0] is Some ==> {
            &&& asked(answers, 1) == command(
                seq![
                    "-c"@,
                    "core.quotePath=false"@,
                    "diff"@,
                    "--cached"@,
                    "--no-color"@,
                    "--no-ext-diff"@,
                    "--no-renames"@,
                    "--full-index"@,
                    "-U3"@,
                ],
            )
            &&& session_laws::read_run(answers, 1).failure is None
            &&& answers[1] is None ==> session_laws::read_run(answers, 2).failure == Some(
                ReadErrorView::Command,
            )
            &&& answers[1] matches Some(o) ==> match diff::parsed(text::lossy_text(o@)) {
                Ok(files) => session_laws::read_run(answers, 2).failure is None
                    && session_laws::read_run(answers, 2).files == files,
                Err(e) => session_laws::read_run(answers, 2).failure == Some(
                    ReadErrorView::Diff(e),
                ),
            }
        },
{
    lemma_two_answers(answers);
    assert(session_laws::read_run(answers, 0) == reading::start());
}

proof fn lemma_next_blob_of(files: Seq<FileView>, i: int)
    requires
        0 <= i < files.len() <= usize::MAX,
    ensures
        has_old_content(files[i]) ==> reading::at_blob(files, i) == Step::Blob(i as usize),
        !has_old_content(files[i]) ==> reading::at_blob(files, i) == reading::at_blob(
            files,
            i + 1,
        ),
        has_old_content(files[i]) == reading::needs_base(files[i]),
{
}

proof fn lemma_failure_stays(answers: Seq<Option<Vec<u8>>>, k: int, n: int)
    requires
        0 <= k <= n,
        session_laws::read_run(answers, n).failure is None,
    ensures
        session_laws::read_run(answers, k).failure is None,
    decreases n - k,
{
    if k < n {
        assert(session_laws::read_run(answers, n) == reading::next(
            session_laws::read_run(answers, n - 1),
            answers[n - 1],
        ));
        lemma_failure_stays(answers, k, n - 1);
    }
}

proof fn lemma_contents(files: Seq<FileView>, n: int)
    ensures
        contents_before(files, n) >= 0,
    decreases n,
{
    if n > 0 {
        lemma_contents(files, n - 1);
    }
}

proof fn lemma_at(
    answers: Seq<Option<Vec<u8>>>,
    files: Seq<FileView>,
    n: int,
    i: int,
)
    requires
        reads(answers, files),
        n <= answers.len(),
        session_laws::read_run(answers, n).failure is None,
        0 <= i <= files.len(),
        2 + contents_before(files, i) <= n,
    ensures
        ({
            let v = session_laws::read_run(answers, 2 + contents_before(files, i));
            &&& v.files == files
            &&& v.step == reading::at_blob(files, i)
        }),
    decreases i,
{
    lemma_contents(files, i);
    lemma_two_answers(answers);
    if i > 0 {
        lemma_contents(files, i - 1);
        lemma_at(answers, files, n, i - 1);
        lemma_next_blob_of(files, i - 1);
        if has_old_content(files[i - 1]) {
            let k = 2 + contents_before(files, i - 1);
            lemma_failure_stays(answers, k + 1, n);
            assert(session_laws::read_run(answers, k + 1) == reading::next(
                session_laws::read_run(answers, k),
                answers[k],
            ));
        }
    }
}

/// Then the old content of each text file that is not new is asked for by its
/// name, in the order of the files.
pub proof fn law_old_contents_are_asked_for(
    answers: Seq<Option<Vec<u8>>>,
    files: Seq<FileView>,
    n: int,
    i: int,
)
    requires
        reads(answers, files),
        n <= answers.len(),
        session_laws::read_run(answers, n).failure is None,
        0 <= i < files.len(),
        has_old_content(files[i]),
        2 + contents_before(files, i) < n,
    ensures
        contents_before(files, i) >= 0,
        asked(answers, 2 + contents_before(files, i)) == command(
            seq!["cat-file"@, "blob"@, files[i].old_blob.unwrap()],
        ),
        answers[2 + contents_before(files, i)] is Some,
{
    let k = 2 + contents_before(files, i);
    lemma_contents(files, i);
    lemma_at(answers, files, n, i);
    lemma_next_blob_of(files, i);
    lemma_failure_stays(answers, k + 1, n);
    assert(session_laws::read_run(answers, k + 1) == reading::next(
        session_laws::read_run(answers, k),
        answers[k],
    ));
}

proof fn lemma_base(
    answers: Seq<Option<Vec<u8>>>,
    files: Seq<FileView>,
    n: int,
    i: int,
    j: int,
)
    requires
        reads(answers, files),
        n <= answers.len(),
        session_laws::read_run(answers, n).failure is None,
        0 <= j < i <= files.len(),
        2 + contents_before(files, i) <= n,
        has_old_content(files[j]),
        forall|k: int|
            j < k < i && has_old_content(#[trigger] files[k]) ==> files[k].path != files[j].path,
    ensures
        ({
            let v = session_laws::read_run(answers, 2 + contents_before(files, i));
            &&& v.bases.dom().contains(files[j].path)
            &&& answers[2 + contents_before(files, j)] == Some(v.bases[files[j].path])
        }),
    decreases i,
{
    let k = 2 + contents_before(files, i - 1);
    lemma_contents(files, i - 1);
    lemma_at(answers, files, n, i - 1);
    lemma_next_blob_of(files, i - 1);
    if has_old_content(files[i - 1]) {
        law_old_contents_are_asked_for(answers, files, n, i - 1);
        assert(session_laws::read_run(answers, k + 1) == reading::next(
            session_laws::read_run(answers, k),
            answers[k],
        ));
    }
    if j < i - 1 {
        lemma_base(answers, files, n, i - 1, j);
    }
}

/// Last, the branch is asked for. When the reading has come to its end, it has the
/// files of the diff, the old content of each that the answer to its command gave,
/// and the branch that was printed, or else none.
pub proof fn law_reading_has_what_was_answered(
    answers: Seq<Option<Vec<u8>>>,
    files: Seq<FileView>,
    j: int,
)
    requires
        reads(answers, files),
        2 + contents_before(files, files.len() as int) < answers.len(),
        session_laws::read_run(
            answers,
            2 + contents_before(files, files.len() as int),
        ).failure is None,
    ensures
        ({
            let n = 2 + contents_before(files, files.len() as int);
            let v = session_laws::read_run(answers, n + 1);
            &&& n >= 2
            &&& asked(answers, n) == command(seq!["rev-parse"@, "--abbrev-ref"@, "HEAD"@])
            &&& v.step == Step::Finished
            &&& v.failure is None
            &&& v.files == files
            &&& v.branch == match answers[n] {
                Some(o) => backend::printed(o@),
                None => "HEAD"@,
            }
            &&& 0 <= j < files.len() && has_old_content(files[j]) && (forall|k: int|
                j < k < files.len() && has_old_content(#[trigger] files[k]) ==> files[k].path
                    != files[j].path) ==> v.bases.dom().contains(files[j].path)
                && answers[2 + contents_before(files, j)] == Some(v.bases[files[j].path])
        }),
{
    let n = 2 + contents_before(files, files.len() as int);
    lemma_contents(files, files.len() as int);
    lemma_at(answers, files, n, files.len() as int);
    assert(session_laws::read_run(answers, n + 1) == reading::next(
        session_laws::read_run(answers, n),
        answers[n],
    ));
    if 0 <= j < files.len() && has_old_content(files[j]) && (forall|k: int|
        j < k < files.len() && has_old_content(#[trigger] files[k]) ==> files[k].path
            != files[j].path) {
        lemma_base(answers, files, n, files.len() as int, j);
    }
}

/// An old content that is not given is what fails the reading.
pub proof fn law_missing_content_fails(v: ReadingView, i: usize)
    requires
        v.step == Step::Blob(i),
    ensures
        reading::next(v, None).failure == Some(ReadErrorView::Command),
        reading::next(v, None).step == Step::Finished,
{
}

/// What a command printed is its output without the white space at its end, and
/// the name that a command gives is its output without the white space around it.
pub proof fn law_output_is_trimmed(o: Seq<u8>) -> (parts: (Seq<char>, Seq<char>, Seq<char>))
    ensures
        text::lossy_text(o) == backend::printed(o) + parts.0,
        text_laws::all_white(parts.0),
        backend::printed(o).len() > 0 ==> !text::white(backend::printed(o).last()),
        text::lossy_text(o) == parts.1 + backend::word(o) + parts.2,
        text_laws::all_white(parts.1),
        text_laws::all_white(parts.2),
        backend::word(o).len() > 0 ==> !text::white(backend::word(o)[0]) && !text::white(
            backend::word(o).last(),
        ),
{
    let a = text_laws::law_end_is_trimmed(text::lossy_text(o));
    let (b, c) = text_laws::law_both_ends_are_trimmed(text::lossy_text(o));
    (a, b, c)
}

} // verus!
