//! Splitting staged changes without a terminal: what is shown of them, the
//! token that stands for them, and the plans that are accepted.
use vstd::prelude::*;

use crate::backend::{CreatedCommits, RepoState};
use crate::diff::{DiffLine, FileDiff, FileKind, Hunk, LineKind};
use crate::model;
use crate::model::{build_plan, empty_assignments, Assignments, CommitSpec, Plan, SpecView};
use crate::text;
use crate::text::{append, decimal_string, hex_string, trim};

verus! {

/// The version of the exchange.
pub const PROTOCOL_VERSION: u32 = 2;

/// What is shown of a repository.
pub struct DumpOut<'a> {
    pub version: u32,
    pub branch: &'a str,
    pub token: String,
    pub files: Vec<FileOut<'a>>,
}

/// What is shown of a file.
pub struct FileOut<'a> {
    pub path: &'a str,
    pub kind: &'static str,
    pub binary: bool,
    pub hunks: Vec<HunkOut<'a>>,
}

/// What is shown of a hunk.
pub struct HunkOut<'a> {
    pub header: &'a str,
    pub lines: Vec<LineOut<'a>>,
}

/// What is shown of a line.
pub struct LineOut<'a> {
    pub kind: &'static str,
    pub content: &'a str,
}

/// A plan as it is handed in: the token of the changes it was made for, the
/// commits, and which line goes to which commit, as the numbers of the file, the
/// hunk, the line and the commit.
pub struct ApplyIn {
    pub token: String,
    pub commits: Vec<CommitIn>,
    pub assignments: Vec<(usize, usize, usize, usize)>,
}

/// A commit of a plan: its message alone, or with the new branch it goes to.
pub enum CommitIn {
    Message(String),
    Spec { message: String, branch: Option<String> },
}

/// What is answered to a plan that was carried out.
pub struct ApplyOut {
    pub commits: Vec<CommitOut>,
    pub worktree_skipped: Vec<String>,
}

/// A commit that was made.
pub struct CommitOut {
    pub id: String,
    pub message: String,
    pub branch: Option<String>,
}

/// Why a plan is refused.
#[derive(Debug, Clone, Copy, PartialEq, Eq, Structural)]
pub enum ApplyError {
    Stale,
    EmptyMessage,
    EmptyBranch,
    OutOfRange { fi: usize, hi: usize, li: usize },
    ContextLine { fi: usize, hi: usize, li: usize },
    UnknownCommit { fi: usize, hi: usize, li: usize, ci: usize },
    NothingAssigned,
}

// ---------------------------------------------------------------------------
// What is shown.

/// What a `LineOut` stands for.
pub struct LineOutView {
    pub kind: Seq<char>,
    pub content: Seq<char>,
}

/// What a `HunkOut` stands for.
pub struct HunkOutView {
    pub header: Seq<char>,
    pub lines: Seq<LineOutView>,
}

/// What a `FileOut` stands for.
pub struct FileOutView {
    pub path: Seq<char>,
    pub kind: Seq<char>,
    pub binary: bool,
    pub hunks: Seq<HunkOutView>,
}

impl<'a> DeepView for LineOut<'a> {
    type V = LineOutView;

    open spec fn deep_view(&self) -> LineOutView {
        LineOutView { kind: self.kind@, content: self.content@ }
    }
}

impl<'a> DeepView for HunkOut<'a> {
    type V = HunkOutView;

    open spec fn deep_view(&self) -> HunkOutView {
        HunkOutView { header: self.header@, lines: self.lines.deep_view() }
    }
}

impl<'a> DeepView for FileOut<'a> {
    type V = FileOutView;

    open spec fn deep_view(&self) -> FileOutView {
        FileOutView {
            path: self.path@,
            kind: self.kind@,
            binary: self.binary,
            hunks: self.hunks.deep_view(),
        }
    }
}

/// The word for the kind of a line.
pub open spec fn line_word(kind: LineKind) -> Seq<char> {
    match kind {
        LineKind::Context => "context"@,
        LineKind::Add => "add"@,
        LineKind::Del => "del"@,
    }
}

/// The word for the kind of a file.
pub open spec fn file_word(kind: FileKind) -> Seq<char> {
    match kind {
        FileKind::Modified => "modified"@,
        FileKind::Added => "added"@,
        FileKind::Deleted => "deleted"@,
    }
}

/// What is shown of a line.
pub open spec fn shown_line(line: DiffLine) -> LineOutView {
    LineOutView { kind: line_word(line.kind), content: line.content@ }
}

/// What is shown of a hunk.
pub open spec fn shown_hunk(hunk: Hunk) -> HunkOutView {
    HunkOutView {
        header: hunk.header@,
        lines: Seq::new(hunk.lines@.len(), |l: int| shown_line(hunk.lines@[l])),
    }
}

/// What is shown of a file.
pub open spec fn shown_file(file: FileDiff) -> FileOutView {
    FileOutView {
        path: file.path@,
        kind: file_word(file.kind),
        binary: file.binary,
        hunks: Seq::new(file.hunks@.len(), |h: int| shown_hunk(file.hunks@[h])),
    }
}

/// What is shown of the files.
pub open spec fn shown(files: Seq<FileDiff>) -> Seq<FileOutView> {
    Seq::new(files.len(), |f: int| shown_file(files[f]))
}

fn lines_out<'a>(lines: &'a Vec<DiffLine>) -> (r: Vec<LineOut<'a>>)
    ensures
        r.deep_view() == Seq::new(lines@.len(), |l: int| shown_line(lines@[l])),
{
    let mut out: Vec<LineOut<'a>> = Vec::new();
    let mut i: usize = 0;
    while i < lines.len()
        invariant
            i <= lines@.len(),
            out@.len() == i,
            forall|k: int| 0 <= k < i ==> (#[trigger] out@[k]).deep_view() == shown_line(lines@[k]),
        decreases lines@.len() - i,
    {
        let l = &lines[i];
        out.push(
            LineOut {
                kind: match l.kind {
                    LineKind::Context => "context",
                    LineKind::Add => "add",
                    LineKind::Del => "del",
                },
                content: l.content.as_str(),
            },
        );
        i += 1;
    }
    assert(out.deep_view() =~= Seq::new(lines@.len(), |l: int| shown_line(lines@[l])));
    out
}

fn hunks_out<'a>(hunks: &'a Vec<Hunk>) -> (r: Vec<HunkOut<'a>>)
    ensures
        r.deep_view() == Seq::new(hunks@.len(), |h: int| shown_hunk(hunks@[h])),
{
    let mut out: Vec<HunkOut<'a>> = Vec::new();
    let mut i: usize = 0;
    while i < hunks.len()
        invariant
            i <= hunks@.len(),
            out@.len() == i,
            forall|k: int| 0 <= k < i ==> (#[trigger] out@[k]).deep_view() == shown_hunk(hunks@[k]),
        decreases hunks@.len() - i,
    {
        let h = &hunks[i];
        out.push(HunkOut { header: h.header.as_str(), lines: lines_out(&h.lines) });
        i += 1;
    }
    assert(out.deep_view() =~= Seq::new(hunks@.len(), |h: int| shown_hunk(hunks@[h])));
    out
}

/// What is shown of the files.
pub fn files_out<'a>(files: &'a [FileDiff]) -> (r: Vec<FileOut<'a>>)
    ensures
        r.deep_view() == shown(files@),
{
    let mut out: Vec<FileOut<'a>> = Vec::new();
    let mut i: usize = 0;
    while i < files.len()
        invariant
            i <= files@.len(),
            out@.len() == i,
            forall|k: int| 0 <= k < i ==> (#[trigger] out@[k]).deep_view() == shown_file(files@[k]),
        decreases files@.len() - i,
    {
        let f = &files[i];
        out.push(
            FileOut {
                path: f.path.as_str(),
                kind: match f.kind {
                    FileKind::Modified => "modified",
                    FileKind::Added => "added",
                    FileKind::Deleted => "deleted",
                },
                binary: f.binary,
                hunks: hunks_out(&f.hunks),
            },
        );
        i += 1;
    }
    assert(out.deep_view() =~= shown(files@));
    out
}

// ---------------------------------------------------------------------------
// The token.

/// How a character stands in a JSON string.
pub open spec fn json_char(c: char) -> Seq<char> {
    if c == '"' {
        seq!['\\', '"']
    } else if c == '\\' {
        seq!['\\', '\\']
    } else if c as int == 8 {
        seq!['\\', 'b']
    } else if c as int == 9 {
        seq!['\\', 't']
    } else if c as int == 10 {
        seq!['\\', 'n']
    } else if c as int == 12 {
        seq!['\\', 'f']
    } else if c as int == 13 {
        seq!['\\', 'r']
    } else if (c as int) < 32 {
        seq!['\\', 'u', '0', '0'] + text::hex(c as nat, 2)
    } else {
        seq![c]
    }
}

/// The characters of a text as they stand in a JSON string.
pub open spec fn json_chars(s: Seq<char>) -> Seq<char>
    decreases s.len(),
{
    if s.len() == 0 {
        Seq::<char>::empty()
    } else {
        json_chars(s.drop_last()) + json_char(s.last())
    }
}

/// A text as a JSON string.
pub open spec fn json_string(s: Seq<char>) -> Seq<char> {
    seq!['"'] + json_chars(s) + seq!['"']
}

/// `serde_json::to_string` of a `str`: the text in double quotes, in which a
/// quote, a backslash and the control characters below the blank are escaped,
/// with the short escapes where JSON has them. It writes into memory, and does
/// not fail.
#[verifier::external_body]
fn json_quote(s: &str) -> (r: String)
    ensures
        r@ == json_string(s@),
{
    serde_json::to_string(s).expect("writing a string into memory does not fail")
}

/// A line as JSON.
pub open spec fn json_line(l: LineOutView) -> Seq<char> {
    "{\"kind\":"@ + json_string(l.kind) + ",\"content\":"@ + json_string(l.content) + "}"@
}

/// The first `n` lines as JSON, with commas between them.
pub open spec fn json_lines(lines: Seq<LineOutView>, n: int) -> Seq<char>
    decreases n,
{
    if n <= 0 {
        Seq::<char>::empty()
    } else if n == 1 {
        json_line(lines[0])
    } else {
        json_lines(lines, n - 1) + ","@ + json_line(lines[n - 1])
    }
}

/// A hunk as JSON.
pub open spec fn json_hunk(h: HunkOutView) -> Seq<char> {
    "{\"header\":"@ + json_string(h.header) + ",\"lines\":["@ + json_lines(
        h.lines,
        h.lines.len() as int,
    ) + "]}"@
}

/// The first `n` hunks as JSON, with commas between them.
pub open spec fn json_hunks(hunks: Seq<HunkOutView>, n: int) -> Seq<char>
    decreases n,
{
    if n <= 0 {
        Seq::<char>::empty()
    } else if n == 1 {
        json_hunk(hunks[0])
    } else {
        json_hunks(hunks, n - 1) + ","@ + json_hunk(hunks[n - 1])
    }
}

/// A truth value as JSON.
pub open spec fn json_bool(b: bool) -> Seq<char> {
    if b {
        "true"@
    } else {
        "false"@
    }
}

/// A file as JSON.
pub open spec fn json_file(f: FileOutView) -> Seq<char> {
    "{\"path\":"@ + json_string(f.path) + ",\"kind\":"@ + json_string(f.kind) + ",\"binary\":"@
        + json_bool(f.binary) + ",\"hunks\":["@ + json_hunks(f.hunks, f.hunks.len() as int) + "]}"@
}

/// The first `n` files as JSON, with commas between them.
pub open spec fn json_files(files: Seq<FileOutView>, n: int) -> Seq<char>
    decreases n,
{
    if n <= 0 {
        Seq::<char>::empty()
    } else if n == 1 {
        json_file(files[0])
    } else {
        json_files(files, n - 1) + ","@ + json_file(files[n - 1])
    }
}

/// What is shown of the files, as JSON without blanks.
pub open spec fn json_text(files: Seq<FileOutView>) -> Seq<char> {
    "["@ + json_files(files, files.len() as int) + "]"@
}

fn write_line(out: &mut String, l: &LineOut<'_>)
    ensures
        final(out)@ == old(out)@ + json_line(l.deep_view()),
{
    let ghost before = out@;
    append(out, "{\"kind\":");
    append(out, &json_quote(l.kind));
    append(out, ",\"content\":");
    append(out, &json_quote(l.content));
    append(out, "}");
    assert(out@ =~= before + json_line(l.deep_view()));
}

fn write_hunk(out: &mut String, h: &HunkOut<'_>)
    ensures
        final(out)@ == old(out)@ + json_hunk(h.deep_view()),
{
    let ghost before = out@;
    let ghost view = h.lines.deep_view();
    append(out, "{\"header\":");
    append(out, &json_quote(h.header));
    append(out, ",\"lines\":[");
    let ghost start = out@;
    let lines = &h.lines;
    let mut i: usize = 0;
    assert(start + json_lines(view, 0) =~= start);
    while i < lines.len()
        invariant
            i <= lines@.len(),
            view == lines.deep_view(),
            out@ == start + json_lines(view, i as int),
        decreases lines@.len() - i,
    {
        let ghost part = out@;
        if i > 0 {
            append(out, ",");
        }
        write_line(out, &lines[i]);
        assert(view[i as int] == lines@[i as int].deep_view());
        assert(out@ =~= start + json_lines(view, i + 1));
        i += 1;
    }
    append(out, "]}");
    assert(out@ =~= before + json_hunk(h.deep_view()));
}

fn write_file(out: &mut String, f: &FileOut<'_>)
    ensures
        final(out)@ == old(out)@ + json_file(f.deep_view()),
{
    let ghost before = out@;
    let ghost view = f.hunks.deep_view();
    append(out, "{\"path\":");
    append(out, &json_quote(f.path));
    append(out, ",\"kind\":");
    append(out, &json_quote(f.kind));
    append(out, ",\"binary\":");
    append(
        out,
        if f.binary {
            "true"
        } else {
            "false"
        },
    );
    append(out, ",\"hunks\":[");
    let ghost start = out@;
    let hunks = &f.hunks;
    let mut i: usize = 0;
    assert(start + json_hunks(view, 0) =~= start);
    while i < hunks.len()
        invariant
            i <= hunks@.len(),
            view == hunks.deep_view(),
            out@ == start + json_hunks(view, i as int),
        decreases hunks@.len() - i,
    {
        if i > 0 {
            append(out, ",");
        }
        write_hunk(out, &hunks[i]);
        assert(view[i as int] == hunks@[i as int].deep_view());
        assert(out@ =~= start + json_hunks(view, i + 1));
        i += 1;
    }
    append(out, "]}");
    assert(out@ =~= before + json_file(f.deep_view()));
}

/// What is shown of the files, as JSON without blanks.
pub fn files_json(files: &Vec<FileOut<'_>>) -> (r: String)
    ensures
        r@ == json_text(files.deep_view()),
{
    let ghost view = files.deep_view();
    let mut out = "[".to_string();
    let ghost start = out@;
    let mut i: usize = 0;
    assert(start + json_files(view, 0) =~= start);
    while i < files.len()
        invariant
            i <= files@.len(),
            view == files.deep_view(),
            out@ == start + json_files(view, i as int),
        decreases files@.len() - i,
    {
        if i > 0 {
            append(&mut out, ",");
        }
        write_file(&mut out, &files[i]);
        assert(view[i as int] == files@[i as int].deep_view());
        assert(out@ =~= start + json_files(view, i + 1));
        i += 1;
    }
    append(&mut out, "]");
    out
}

/// The 64-bit FNV-1a hash.
pub open spec fn fnv1a_hash(data: Seq<u8>) -> u64
    decreases data.len(),
{
    if data.len() == 0 {
        0xcbf2_9ce4_8422_2325
    } else {
        (fnv1a_hash(data.drop_last()) ^ (data.last() as u64)).wrapping_mul(0x0100_0000_01b3)
    }
}

/// The 64-bit FNV-1a hash.
pub fn fnv1a(data: &[u8]) -> (r: u64)
    ensures
        r == fnv1a_hash(data@),
{
    let mut h: u64 = 0xcbf2_9ce4_8422_2325;
    let mut i: usize = 0;
    while i < data.len()
        invariant
            i <= data@.len(),
            h == fnv1a_hash(data@.take(i as int)),
        decreases data@.len() - i,
    {
        assert(data@.take(i + 1).drop_last() =~= data@.take(i as int));
        h = h ^ (data[i] as u64);
        h = h.wrapping_mul(0x0100_0000_01b3);
        i += 1;
    }
    assert(data@.take(i as int) =~= data@);
    h
}

/// The token that stands for the staged changes: the hash of what is shown of
/// them.
pub open spec fn token_of(files: Seq<FileDiff>) -> Seq<char> {
    text::hex(fnv1a_hash(vstd::utf8::encode_utf8(json_text(shown(files)))) as nat, 16)
}

/// The token that stands for the staged changes.
pub fn state_token(state: &RepoState) -> (r: String)
    ensures
        r@ == token_of(state.files@),
{
    let json = files_json(&files_out(&state.files));
    hex_string(fnv1a(json.as_str().as_bytes()), 16)
}

/// Shows the staged changes.
pub fn dump<'a>(state: &'a RepoState) -> (r: DumpOut<'a>)
    ensures
        r.version == PROTOCOL_VERSION,
        r.branch@ == state.branch@,
        r.token@ == token_of(state.files@),
        r.files.deep_view() == shown(state.files@),
{
    DumpOut {
        version: PROTOCOL_VERSION,
        branch: state.branch.as_str(),
        token: state_token(state),
        files: files_out(&state.files),
    }
}

// ---------------------------------------------------------------------------
// Plans.

/// The commit that a plan asks for.
pub open spec fn asked(c: CommitIn) -> SpecView {
    match c {
        CommitIn::Message(message) => SpecView { message: message@, branch: None },
        CommitIn::Spec { message, branch } => SpecView {
            message: message@,
            branch: branch.deep_view(),
        },
    }
}

/// The commits that a plan asks for.
pub open spec fn asked_commits(commits: Seq<CommitIn>) -> Seq<SpecView> {
    Seq::new(commits.len(), |i: int| asked(commits[i]))
}

/// Whether a text is empty or white space.
pub open spec fn blank(s: Seq<char>) -> bool {
    text::trimmed(s).len() == 0
}

/// Whether a commit lacks a message.
pub open spec fn some_blank_message(specs: Seq<SpecView>) -> bool {
    exists|i: int| 0 <= i < specs.len() && blank((#[trigger] specs[i]).message)
}

/// Whether a commit asks for a branch without a name.
pub open spec fn some_blank_branch(specs: Seq<SpecView>) -> bool {
    exists|i: int|
        0 <= i < specs.len() && ((#[trigger] specs[i]).branch matches Some(b) && blank(b))
}

/// Why a line cannot be assigned, or `None` when it can.
pub open spec fn unassignable(
    files: Seq<FileDiff>,
    n_commits: nat,
    a: (usize, usize, usize, usize),
) -> Option<ApplyError> {
    let (fi, hi, li, ci) = a;
    if fi >= files.len() || hi >= files[fi as int].hunks@.len() || li
        >= files[fi as int].hunks@[hi as int].lines@.len() {
        Some(ApplyError::OutOfRange { fi, hi, li })
    } else if !files[fi as int].hunks@[hi as int].lines@[li as int].change() {
        Some(ApplyError::ContextLine { fi, hi, li })
    } else if ci >= n_commits {
        Some(ApplyError::UnknownCommit { fi, hi, li, ci })
    } else {
        None
    }
}

/// The assignments with one more line assigned.
pub open spec fn with_line(
    assign: Seq<Seq<Seq<Option<usize>>>>,
    a: (usize, usize, usize, usize),
) -> Seq<Seq<Seq<Option<usize>>>> {
    let (fi, hi, li, ci) = a;
    let f = fi as int;
    let h = hi as int;
    assign.update(f, assign[f].update(h, assign[f][h].update(li as int, Some(ci))))
}

/// The first `n` assignments of a plan, one after the other, or the first
/// reason against one.
pub open spec fn assigned(
    files: Seq<FileDiff>,
    n_commits: nat,
    list: Seq<(usize, usize, usize, usize)>,
    n: int,
) -> Result<Seq<Seq<Seq<Option<usize>>>>, ApplyError>
    decreases n,
{
    if n <= 0 {
        Ok(model::no_grid(files))
    } else {
        match assigned(files, n_commits, list, n - 1) {
            Err(e) => Err(e),
            Ok(assign) => match unassignable(files, n_commits, list[n - 1]) {
                Some(e) => Err(e),
                None => Ok(with_line(assign, list[n - 1])),
            },
        }
    }
}

/// The assignments of a plan, if they are in order: the plan was made for the
/// given changes, its commits have messages and its branches names, and it
/// assigns only changes, to commits that it has.
pub open spec fn checked(files: Seq<FileDiff>, request: ApplyIn) -> Result<
    Seq<Seq<Seq<Option<usize>>>>,
    ApplyError,
> {
    let specs = asked_commits(request.commits@);
    if request.token@ != token_of(files) {
        Err(ApplyError::Stale)
    } else if some_blank_message(specs) {
        Err(ApplyError::EmptyMessage)
    } else if some_blank_branch(specs) {
        Err(ApplyError::EmptyBranch)
    } else {
        assigned(files, specs.len(), request.assignments@, request.assignments@.len() as int)
    }
}

/// The assignments of a plan, if it is accepted for the given changes: they are
/// in order, and there is at least one.
pub open spec fn accepted(
    files: Seq<FileDiff>,
    bases: Map<Seq<char>, Vec<u8>>,
    request: ApplyIn,
) -> Result<Seq<Seq<Seq<Option<usize>>>>, ApplyError> {
    let specs = asked_commits(request.commits@);
    match checked(files, request) {
        Err(e) => Err(e),
        Ok(assign) => if model::planned_commits(
            files,
            assign,
            bases,
            specs,
            specs.len() as int,
        ).len() == 0 {
            Err(ApplyError::NothingAssigned)
        } else {
            Ok(assign)
        },
    }
}

impl ApplyError {
    /// The place of a line in a message.
    pub open spec fn place(fi: usize, hi: usize, li: usize) -> Seq<char> {
        "assignment ("@ + text::decimal(fi as nat) + ","@ + text::decimal(hi as nat) + ","@
            + text::decimal(li as nat) + ")"@
    }

    /// The reason in words.
    pub open spec fn text(self) -> Seq<char> {
        match self {
            ApplyError::Stale =>
                "staged changes have changed since the plan was created; re-run dump"@,
            ApplyError::EmptyMessage => "commit messages cannot be empty"@,
            ApplyError::EmptyBranch => "branch names cannot be empty"@,
            ApplyError::OutOfRange { fi, hi, li } => Self::place(fi, hi, li) + " out of range"@,
            ApplyError::ContextLine { fi, hi, li } => Self::place(fi, hi, li)
                + " targets a context line"@,
            ApplyError::UnknownCommit { fi, hi, li, ci } => Self::place(fi, hi, li)
                + " targets unknown commit "@ + text::decimal(ci as nat),
            ApplyError::NothingAssigned => "no lines assigned; nothing to commit"@,
        }
    }

    fn place_text(fi: usize, hi: usize, li: usize) -> (r: String)
        ensures
            r@ == Self::place(fi, hi, li),
    {
        let mut out = "assignment (".to_string();
        append(&mut out, &decimal_string(fi));
        append(&mut out, ",");
        append(&mut out, &decimal_string(hi));
        append(&mut out, ",");
        append(&mut out, &decimal_string(li));
        append(&mut out, ")");
        out
    }

    /// The reason in words.
    pub fn message(self) -> (r: String)
        ensures
            r@ == self.text(),
    {
        match self {
            ApplyError::Stale => {
                "staged changes have changed since the plan was created; re-run dump".to_string()
            },
            ApplyError::EmptyMessage => "commit messages cannot be empty".to_string(),
            ApplyError::EmptyBranch => "branch names cannot be empty".to_string(),
            ApplyError::OutOfRange { fi, hi, li } => {
                let mut out = Self::place_text(fi, hi, li);
                append(&mut out, " out of range");
                out
            },
            ApplyError::ContextLine { fi, hi, li } => {
                let mut out = Self::place_text(fi, hi, li);
                append(&mut out, " targets a context line");
                out
            },
            ApplyError::UnknownCommit { fi, hi, li, ci } => {
                let mut out = Self::place_text(fi, hi, li);
                append(&mut out, " targets unknown commit ");
                append(&mut out, &decimal_string(ci));
                out
            },
            ApplyError::NothingAssigned => "no lines assigned; nothing to commit".to_string(),
        }
    }
}

fn specs_of(commits: &Vec<CommitIn>) -> (r: Vec<CommitSpec>)
    ensures
        r@.len() == commits@.len(),
        r.deep_view() == asked_commits(commits@),
{
    let mut out: Vec<CommitSpec> = Vec::new();
    let mut i: usize = 0;
    while i < commits.len()
        invariant
            i <= commits@.len(),
            out@.len() == i,
            forall|k: int| 0 <= k < i ==> (#[trigger] out@[k]).deep_view() == asked(commits@[k]),
        decreases commits@.len() - i,
    {
        out.push(
            match &commits[i] {
                CommitIn::Message(message) => CommitSpec {
                    message: message.clone(),
                    branch: None,
                },
                CommitIn::Spec { message, branch } => CommitSpec {
                    message: message.clone(),
                    branch: match branch {
                        Some(b) => Some(b.clone()),
                        None => None,
                    },
                },
            },
        );
        i += 1;
    }
    assert(out.deep_view() =~= asked_commits(commits@));
    out
}

fn is_blank(s: &str) -> (r: bool)
    ensures
        r == blank(s@),
{
    trim(s).as_str().is_empty()
}

fn has_blank_message(specs: &Vec<CommitSpec>) -> (r: bool)
    ensures
        r == some_blank_message(specs.deep_view()),
{
    let ghost view = specs.deep_view();
    let mut i: usize = 0;
    while i < specs.len()
        invariant
            i <= specs@.len(),
            view == specs.deep_view(),
            forall|k: int| 0 <= k < i ==> !blank((#[trigger] view[k]).message),
        decreases specs@.len() - i,
    {
        assert(view[i as int] == specs@[i as int].deep_view());
        if is_blank(&specs[i].message) {
            return true;
        }
        i += 1;
    }
    false
}

fn has_blank_branch(specs: &Vec<CommitSpec>) -> (r: bool)
    ensures
        r == some_blank_branch(specs.deep_view()),
{
    let ghost view = specs.deep_view();
    let mut i: usize = 0;
    while i < specs.len()
        invariant
            i <= specs@.len(),
            view == specs.deep_view(),
            forall|k: int|
                0 <= k < i ==> !((#[trigger] view[k]).branch matches Some(b) && blank(b)),
        decreases specs@.len() - i,
    {
        assert(view[i as int] == specs@[i as int].deep_view());
        if let Some(b) = &specs[i].branch {
            if is_blank(b) {
                return true;
            }
        }
        i += 1;
    }
    false
}

/// Checks one assignment of a plan.
fn check_line(files: &[FileDiff], n_commits: usize, a: (usize, usize, usize, usize)) -> (r: Result<
    (),
    ApplyError,
>)
    ensures
        match unassignable(files@, n_commits as nat, a) {
            None => r is Ok,
            Some(e) => r == Err::<(), ApplyError>(e),
        },
{
    let (fi, hi, li, ci) = a;
    if fi >= files.len() || hi >= files[fi].hunks.len() || li >= files[fi].hunks[hi].lines.len() {
        return Err(ApplyError::OutOfRange { fi, hi, li });
    }
    if !files[fi].hunks[hi].lines[li].is_change() {
        return Err(ApplyError::ContextLine { fi, hi, li });
    }
    if ci >= n_commits {
        return Err(ApplyError::UnknownCommit { fi, hi, li, ci });
    }
    Ok(())
}

/// What was assigned so far fits the files, and names only commits there are.
pub open spec fn fits(
    files: Seq<FileDiff>,
    assign: Seq<Seq<Seq<Option<usize>>>>,
    n_commits: nat,
) -> bool {
    &&& assign.len() == files.len()
    &&& forall|f: int|
        0 <= f < files.len() ==> (#[trigger] assign[f]).len() == files[f].hunks@.len()
    &&& forall|f: int, h: int|
        0 <= f < files.len() && 0 <= h < files[f].hunks@.len() ==> (
        #[trigger] assign[f][h]).len() == files[f].hunks@[h].lines@.len()
    &&& forall|f: int, h: int, l: int|
        0 <= f < files.len() && 0 <= h < files[f].hunks@.len() && 0 <= l
            < files[f].hunks@[h].lines@.len() ==> (#[trigger] assign[f][h][l] matches Some(k) ==> k
            < n_commits)
}

/// The assignments of a plan fit the files.
pub proof fn lemma_assigned_fits(
    files: Seq<FileDiff>,
    n_commits: nat,
    list: Seq<(usize, usize, usize, usize)>,
    n: int,
)
    ensures
        assigned(files, n_commits, list, n) matches Ok(assign) ==> fits(files, assign, n_commits),
    decreases n,
{
    if n <= 0 {
        let none = model::no_grid(files);
        assert forall|f: int| 0 <= f < files.len() implies (#[trigger] none[f]).len()
            == files[f].hunks@.len() by {
            assert(none[f] == model::no_rows(files[f].hunks@));
        }
    } else {
        lemma_assigned_fits(files, n_commits, list, n - 1);
        if let Ok(assign) = assigned(files, n_commits, list, n - 1) {
            if unassignable(files, n_commits, list[n - 1]) is None {
                let after = with_line(assign, list[n - 1]);
                let (fi, hi, li, ci) = list[n - 1];
                assert forall|f: int, h: int, l: int|
                    0 <= f < files.len() && 0 <= h < files[f].hunks@.len() && 0 <= l
                        < files[f].hunks@[h].lines@.len() implies (
                #[trigger] after[f][h][l] matches Some(k) ==> k < n_commits) by {
                    assert(assign[f][h].len() == files[f].hunks@[h].lines@.len());
                    assert(assign[f][h][l] matches Some(k) ==> k < n_commits);
                }
                assert forall|f: int, h: int|
                    0 <= f < files.len() && 0 <= h < files[f].hunks@.len() implies (
                #[trigger] after[f][h]).len() == files[f].hunks@[h].lines@.len() by {
                    assert(assign[f][h].len() == files[f].hunks@[h].lines@.len());
                }
            }
        }
    }
}

/// Assigns the lines of a plan, one after the other.
fn assign_lines(
    files: &[FileDiff],
    n_commits: usize,
    list: &Vec<(usize, usize, usize, usize)>,
) -> (r: Result<Assignments, ApplyError>)
    ensures
        match assigned(files@, n_commits as nat, list@, list@.len() as int) {
            Ok(assign) => r matches Ok(a) && model::grid(a@) == assign,
            Err(e) => r matches Err(f) && f == e,
        },
{
    let mut assign = empty_assignments(files);
    let mut i: usize = 0;
    while i < list.len()
        invariant
            i <= list@.len(),
            assigned(files@, n_commits as nat, list@, i as int) == Ok::<
                Seq<Seq<Seq<Option<usize>>>>,
                ApplyError,
            >(model::grid(assign@)),
        decreases list@.len() - i,
    {
        let a = list[i];
        let ghost before = assign;
        if let Err(e) = check_line(files, n_commits, a) {
            proof {
                lemma_assigned_error(
                    files@,
                    n_commits as nat,
                    list@,
                    i + 1,
                    list@.len() as int,
                );
            }
            return Err(e);
        }
        let (fi, hi, li, ci) = a;
        proof {
            lemma_assigned_fits(files@, n_commits as nat, list@, i as int);
            let g = model::grid(before@);
            assert(g[fi as int].len() == files@[fi as int].hunks@.len());
            assert(g[fi as int][hi as int].len()
                == files@[fi as int].hunks@[hi as int].lines@.len());
        }
        assign[fi][hi][li] = Some(ci);
        proof {
            let g = model::grid(before@);
            let f = fi as int;
            let h = hi as int;
            assert(model::rows(assign@[f]@) =~= model::rows(before@[f]@).update(
                h,
                g[f][h].update(li as int, Some(ci)),
            ));
            assert(model::grid(assign@) =~= with_line(g, a));
        }
        i += 1;
    }
    Ok(assign)
}

proof fn lemma_assigned_error(
    files: Seq<FileDiff>,
    n_commits: nat,
    list: Seq<(usize, usize, usize, usize)>,
    i: int,
    n: int,
)
    requires
        i <= n,
        assigned(files, n_commits, list, i) is Err,
    ensures
        assigned(files, n_commits, list, n) == assigned(files, n_commits, list, i),
    decreases n - i,
{
    if i < n {
        lemma_assigned_error(files, n_commits, list, i, n - 1);
        assert(n > 0);
    }
}

/// The assignments and the commits of a request, or why it is refused.
fn check(state: &RepoState, request: &ApplyIn) -> (r: Result<
    (Assignments, Vec<CommitSpec>),
    ApplyError,
>)
    ensures
        match checked(state.files@, *request) {
            Err(e) => r matches Err(f) && f == e,
            Ok(assign) => r matches Ok((a, specs)) && model::grid(a@) == assign
                && specs.deep_view() == asked_commits(request.commits@),
        },
{
    let now = state_token(state);
    if now != request.token {
        return Err(ApplyError::Stale);
    }
    let specs = specs_of(&request.commits);
    if has_blank_message(&specs) {
        return Err(ApplyError::EmptyMessage);
    }
    if has_blank_branch(&specs) {
        return Err(ApplyError::EmptyBranch);
    }
    match assign_lines(&state.files, specs.len(), &request.assignments) {
        Ok(assign) => Ok((assign, specs)),
        Err(e) => Err(e),
    }
}

/// Whether the request can be planned, unless it is refused.
pub open spec fn plannable_request(files: Seq<FileDiff>, request: ApplyIn) -> bool {
    checked(files, request) matches Ok(assign) ==> model::plannable(
        files,
        assign,
        asked_commits(request.commits@),
    )
}

/// Whether the request can be planned, unless it is refused.
pub fn can_apply(state: &RepoState, request: &ApplyIn) -> (r: bool)
    ensures
        r == plannable_request(state.files@, *request),
{
    match check(state, request) {
        Err(_) => true,
        Ok((assign, specs)) => {
            let slice: &[CommitSpec] = specs.as_slice();
            assert(slice.deep_view() =~= specs.deep_view());
            model::can_plan(&state.files, &assign, slice)
        },
    }
}

/// The plan of the commits that a request asks for, or why it is refused.
pub fn apply(state: &RepoState, request: &ApplyIn) -> (r: Result<Plan, ApplyError>)
    requires
        plannable_request(state.files@, *request),
    ensures
        match accepted(state.files@, state.bases@, *request) {
            Err(e) => r matches Err(f) && f == e,
            Ok(assign) => r matches Ok(plan) && plan.commits.deep_view()
                == model::planned_commits(
                state.files@,
                assign,
                state.bases@,
                asked_commits(request.commits@),
                request.commits@.len() as int,
            ) && plan.index_updates.deep_view() == model::planned_updates(
                state.files@,
                assign,
                state.bases@,
                asked_commits(request.commits@),
                state.files@.len() as int,
            ),
        },
{
    let (assign, specs) = match check(state, request) {
        Ok(checked) => checked,
        Err(e) => return Err(e),
    };
    let slice: &[CommitSpec] = specs.as_slice();
    assert(slice.deep_view() =~= asked_commits(request.commits@));
    let plan = build_plan(&state.files, &assign, &state.bases, slice);
    assert(plan.commits.deep_view().len() == plan.commits@.len());
    if plan.commits.is_empty() {
        return Err(ApplyError::NothingAssigned);
    }
    Ok(plan)
}

/// What a `CommitOut` stands for.
pub struct CommitOutView {
    pub id: Seq<char>,
    pub message: Seq<char>,
    pub branch: Option<Seq<char>>,
}

impl DeepView for CommitOut {
    type V = CommitOutView;

    open spec fn deep_view(&self) -> CommitOutView {
        CommitOutView {
            id: self.id@,
            message: self.message@,
            branch: self.branch.deep_view(),
        }
    }
}

/// The commits of a plan with the ids they got, as far as both go.
pub open spec fn made(ids: Seq<Seq<char>>, commits: Seq<model::CommitView>) -> Seq<CommitOutView> {
    Seq::new(
        if ids.len() <= commits.len() {
            ids.len()
        } else {
            commits.len()
        },
        |i: int|
            CommitOutView { id: ids[i], message: commits[i].message, branch: commits[i].branch },
    )
}

/// What is answered once a plan was carried out.
pub fn applied(created: CreatedCommits, plan: &Plan) -> (r: ApplyOut)
    ensures
        r.commits.deep_view() == made(created.ids.deep_view(), plan.commits.deep_view()),
        r.worktree_skipped == created.worktree_skipped,
{
    let mut commits: Vec<CommitOut> = Vec::new();
    let mut i: usize = 0;
    while i < created.ids.len() && i < plan.commits.len()
        invariant
            i <= created.ids@.len(),
            i <= plan.commits@.len(),
            commits@.len() == i,
            forall|k: int|
                0 <= k < i ==> (#[trigger] commits@[k]).deep_view() == (CommitOutView {
                    id: created.ids@[k]@,
                    message: plan.commits@[k].message@,
                    branch: plan.commits@[k].branch.deep_view(),
                }),
        decreases created.ids@.len() - i,
    {
        let c = &plan.commits[i];
        commits.push(
            CommitOut {
                id: created.ids[i].clone(),
                message: c.message.clone(),
                branch: match &c.branch {
                    Some(b) => Some(b.clone()),
                    None => None,
                },
            },
        );
        i += 1;
    }
    assert(commits.deep_view() =~= made(created.ids.deep_view(), plan.commits.deep_view()));
    ApplyOut { commits, worktree_skipped: created.worktree_skipped }
}

} // verus!
