//! The staged changes as git prints them: files, hunks and lines.
use vstd::prelude::*;
use vstd::slice::slice_subrange;

use crate::text;
use crate::text::{
    append, char_debug, chars_of, lines_of, parse_number, same_text, split_once, starts_with,
    string_of, strip_prefix, NumberError,
};

verus! {

/// Whether a line stands in both versions, only in the new one or only in the
/// old one.
#[derive(Debug, Clone, Copy, PartialEq, Eq, Structural)]
pub enum LineKind {
    Context,
    Add,
    Del,
}

/// A line of a hunk, without its line feed.
#[derive(Debug, Clone)]
pub struct DiffLine {
    pub kind: LineKind,
    pub content: String,
    pub no_newline: bool,
}

impl DiffLine {
    /// Whether the line is a change.
    pub open spec fn change(self) -> bool {
        self.kind != LineKind::Context
    }

    /// Whether the line is a change.
    pub fn is_change(&self) -> (r: bool)
        ensures
            r == self.change(),
    {
        self.kind != LineKind::Context
    }
}

/// A run of changed lines with the context around it.
#[derive(Debug, Clone)]
pub struct Hunk {
    pub old_start: usize,
    pub old_count: usize,
    pub new_start: usize,
    pub new_count: usize,
    pub header: String,
    pub lines: Vec<DiffLine>,
}

/// What happened to a file.
#[derive(Debug, Clone, Copy, PartialEq, Eq, Structural)]
pub enum FileKind {
    Modified,
    Added,
    Deleted,
}

/// The changes of one file.
#[derive(Debug, Clone)]
pub struct FileDiff {
    pub path: String,
    pub kind: FileKind,
    pub mode: String,
    pub old_blob: Option<String>,
    pub binary: bool,
    pub hunks: Vec<Hunk>,
}

/// Why a hunk header cannot be read.
#[derive(Debug, Clone, Copy, PartialEq, Eq, Structural)]
pub enum HeaderError {
    NotAHeader,
    MissingRange,
    BadOldRange,
    BadNewRange,
    BadNumber(NumberError),
}

/// Why a diff cannot be read.
#[derive(Debug)]
pub enum DiffError {
    BadHunkHeader { line: String, cause: HeaderError },
    Truncated,
    UnexpectedLine { start: char, line: String },
}

// ---------------------------------------------------------------------------
// What these types stand for.

/// What a `DiffLine` stands for.
pub struct LineView {
    pub kind: LineKind,
    pub content: Seq<char>,
    pub no_newline: bool,
}

/// What a `Hunk` stands for.
pub struct HunkView {
    pub old_start: usize,
    pub old_count: usize,
    pub new_start: usize,
    pub new_count: usize,
    pub header: Seq<char>,
    pub lines: Seq<LineView>,
}

/// What a `FileDiff` stands for.
pub struct FileView {
    pub path: Seq<char>,
    pub kind: FileKind,
    pub mode: Seq<char>,
    pub old_blob: Option<Seq<char>>,
    pub binary: bool,
    pub hunks: Seq<HunkView>,
}

/// What a `DiffError` stands for.
pub enum DiffErrorView {
    BadHunkHeader { line: Seq<char>, cause: HeaderError },
    Truncated,
    UnexpectedLine { start: char, line: Seq<char> },
}

impl DeepView for DiffLine {
    type V = LineView;

    open spec fn deep_view(&self) -> LineView {
        LineView { kind: self.kind, content: self.content@, no_newline: self.no_newline }
    }
}

impl DeepView for Hunk {
    type V = HunkView;

    open spec fn deep_view(&self) -> HunkView {
        HunkView {
            old_start: self.old_start,
            old_count: self.old_count,
            new_start: self.new_start,
            new_count: self.new_count,
            header: self.header@,
            lines: self.lines.deep_view(),
        }
    }
}

impl DeepView for FileDiff {
    type V = FileView;

    open spec fn deep_view(&self) -> FileView {
        FileView {
            path: self.path@,
            kind: self.kind,
            mode: self.mode@,
            old_blob: self.old_blob.deep_view(),
            binary: self.binary,
            hunks: self.hunks.deep_view(),
        }
    }
}

impl DeepView for DiffError {
    type V = DiffErrorView;

    open spec fn deep_view(&self) -> DiffErrorView {
        match self {
            DiffError::BadHunkHeader { line, cause } => DiffErrorView::BadHunkHeader {
                line: line@,
                cause: *cause,
            },
            DiffError::Truncated => DiffErrorView::Truncated,
            DiffError::UnexpectedLine { start, line } => DiffErrorView::UnexpectedLine {
                start: *start,
                line: line@,
            },
        }
    }
}

// ---------------------------------------------------------------------------
// The messages.

impl HeaderError {
    /// The reason in words.
    pub open spec fn text(self) -> Seq<char> {
        match self {
            HeaderError::NotAHeader => "not a hunk header"@,
            HeaderError::MissingRange => "missing range"@,
            HeaderError::BadOldRange => "bad old range"@,
            HeaderError::BadNewRange => "bad new range"@,
            HeaderError::BadNumber(e) => e.text(),
        }
    }

    /// The reason in words.
    pub fn message(self) -> (r: String)
        ensures
            r@ == self.text(),
    {
        match self {
            HeaderError::NotAHeader => "not a hunk header".to_string(),
            HeaderError::MissingRange => "missing range".to_string(),
            HeaderError::BadOldRange => "bad old range".to_string(),
            HeaderError::BadNewRange => "bad new range".to_string(),
            HeaderError::BadNumber(e) => e.message(),
        }
    }
}

impl DiffErrorView {
    /// The reason in words.
    pub open spec fn text(self) -> Seq<char> {
        match self {
            DiffErrorView::BadHunkHeader { line, .. } => "bad hunk header: "@ + line,
            DiffErrorView::Truncated => "diff ended in the middle of a hunk"@,
            DiffErrorView::UnexpectedLine { start, line } => "unexpected line in hunk (starts with "@
                + text::debug_char(start) + "): "@ + line,
        }
    }
}

impl DiffError {
    /// The reason in words.
    pub fn message(&self) -> (r: String)
        ensures
            r@ == self.deep_view().text(),
    {
        match self {
            DiffError::BadHunkHeader { line, .. } => {
                let mut out = "bad hunk header: ".to_string();
                append(&mut out, line);
                out
            },
            DiffError::Truncated => "diff ended in the middle of a hunk".to_string(),
            DiffError::UnexpectedLine { start, line } => {
                let mut out = "unexpected line in hunk (starts with ".to_string();
                append(&mut out, &char_debug(*start));
                append(&mut out, "): ");
                append(&mut out, line);
                out
            },
        }
    }
}

// ---------------------------------------------------------------------------
// The lines before the hunks.

/// The path in the line `diff --git a/<path> b/<path>`.
pub open spec fn git_line_path(rest: Seq<char>) -> Seq<char> {
    match text::cut(rest, " b/"@) {
        Some((_, b)) => b,
        None => rest,
    }
}

/// A path without the directory `a/` or `b/` that git puts before it.
pub open spec fn bare_path(p: Seq<char>) -> Seq<char> {
    match text::after_prefix(p, "a/"@) {
        Some(r) => r,
        None => match text::after_prefix(p, "b/"@) {
            Some(r) => r,
            None => p,
        },
    }
}

/// A file of which only the line `diff --git` was read.
pub open spec fn new_file(rest: Seq<char>) -> FileView {
    FileView {
        path: git_line_path(rest),
        kind: FileKind::Modified,
        mode: "100644"@,
        old_blob: None,
        binary: false,
        hunks: Seq::<HunkView>::empty(),
    }
}

/// Whether every character is a zero: the name of no blob.
pub open spec fn all_zeros(s: Seq<char>) -> bool {
    forall|i: int| 0 <= i < s.len() ==> s[i] == '0'
}

/// The file after the line `index <old>..<new>[ <mode>]`.
pub open spec fn with_index_line(f: FileView, rest: Seq<char>) -> FileView {
    match text::cut(rest, ".."@) {
        None => f,
        Some((old, tail)) => FileView {
            old_blob: if all_zeros(old) {
                f.old_blob
            } else {
                Some(old)
            },
            mode: match text::cut(tail, " "@) {
                Some((_, mode)) => mode,
                None => f.mode,
            },
            ..f
        },
    }
}

/// The file after a line `--- <path>` or `+++ <path>`.
pub open spec fn with_path_line(f: FileView, p: Seq<char>) -> FileView {
    if p == "/dev/null"@ {
        f
    } else {
        FileView { path: bare_path(p), ..f }
    }
}

/// The file after one of the lines that describe it, or `None` when the line is
/// not one of them.
pub open spec fn described(f: FileView, line: Seq<char>) -> Option<FileView> {
    if let Some(mode) = text::after_prefix(line, "new file mode "@) {
        Some(FileView { kind: FileKind::Added, mode, ..f })
    } else if let Some(mode) = text::after_prefix(line, "deleted file mode "@) {
        Some(FileView { kind: FileKind::Deleted, mode, ..f })
    } else if let Some(mode) = text::after_prefix(line, "new mode "@) {
        Some(FileView { mode, ..f })
    } else if let Some(rest) = text::after_prefix(line, "index "@) {
        Some(with_index_line(f, rest))
    } else if let Some(p) = text::after_prefix(line, "--- "@) {
        Some(with_path_line(f, p))
    } else if let Some(p) = text::after_prefix(line, "+++ "@) {
        Some(with_path_line(f, p))
    } else if "Binary files "@.is_prefix_of(line) || line == "GIT binary patch"@ {
        Some(FileView { binary: true, ..f })
    } else {
        None
    }
}

fn path_from_git_line(rest: &[char]) -> (r: String)
    ensures
        r@ == git_line_path(rest@),
{
    if let Some((_, b)) = split_once(rest, " b/") {
        return string_of(b);
    }
    string_of(rest)
}

fn strip_prefix_dir(p: &[char]) -> (r: String)
    ensures
        r@ == bare_path(p@),
{
    match strip_prefix(p, "a/") {
        Some(r) => string_of(r),
        None => match strip_prefix(p, "b/") {
            Some(r) => string_of(r),
            None => string_of(p),
        },
    }
}

fn zeros_only(s: &[char]) -> (r: bool)
    ensures
        r == all_zeros(s@),
{
    let mut i: usize = 0;
    while i < s.len()
        invariant
            i <= s@.len(),
            forall|k: int| 0 <= k < i ==> s@[k] == '0',
        decreases s@.len() - i,
    {
        if s[i] != '0' {
            return false;
        }
        i += 1;
    }
    true
}

fn read_index_line(file: &mut FileDiff, rest: &[char])
    ensures
        final(file).deep_view() == with_index_line(old(file).deep_view(), rest@),
{
    if let Some((old, tail)) = split_once(rest, "..") {
        if !zeros_only(old) {
            file.old_blob = Some(string_of(old));
        }
        if let Some((_, mode)) = split_once(tail, " ") {
            file.mode = string_of(mode);
        }
    }
}

fn read_path_line(file: &mut FileDiff, p: &[char])
    ensures
        final(file).deep_view() == with_path_line(old(file).deep_view(), p@),
{
    if !same_text(p, "/dev/null") {
        file.path = strip_prefix_dir(p);
    }
}

/// Takes one of the lines that describe a file into account; returns whether it
/// was one.
fn describe(file: &mut FileDiff, line: &[char]) -> (r: bool)
    ensures
        r == (described(old(file).deep_view(), line@) is Some),
        final(file).deep_view() == (match described(old(file).deep_view(), line@) {
            Some(f) => f,
            None => old(file).deep_view(),
        }),
{
    if let Some(mode) = strip_prefix(line, "new file mode ") {
        file.kind = FileKind::Added;
        file.mode = string_of(mode);
        true
    } else if let Some(mode) = strip_prefix(line, "deleted file mode ") {
        file.kind = FileKind::Deleted;
        file.mode = string_of(mode);
        true
    } else if let Some(mode) = strip_prefix(line, "new mode ") {
        file.mode = string_of(mode);
        true
    } else if let Some(rest) = strip_prefix(line, "index ") {
        read_index_line(file, rest);
        true
    } else if let Some(p) = strip_prefix(line, "--- ") {
        read_path_line(file, p);
        true
    } else if let Some(p) = strip_prefix(line, "+++ ") {
        read_path_line(file, p);
        true
    } else if starts_with(line, "Binary files ") || same_text(line, "GIT binary patch") {
        file.binary = true;
        true
    } else {
        false
    }
}

// ---------------------------------------------------------------------------
// The hunk headers.

/// A range `<start>[,<count>]`; the count is 1 when it is left out.
pub open spec fn range(r: Seq<char>) -> Result<(usize, usize), NumberError> {
    match text::cut(r, ","@) {
        Some((s, c)) => match text::number(s) {
            Err(e) => Err(e),
            Ok(start) => match text::number(c) {
                Err(e) => Err(e),
                Ok(count) => Ok((start, count)),
            },
        },
        None => match text::number(r) {
            Err(e) => Err(e),
            Ok(start) => Ok((start, 1)),
        },
    }
}

/// The ranges between `@@ ` and ` @@`.
pub open spec fn header_ranges(line: Seq<char>) -> Option<Seq<char>> {
    match text::after_prefix(line, "@@ "@) {
        None => None,
        Some(r) => match text::cut(r, " @@"@) {
            None => None,
            Some((ranges, _)) => Some(ranges),
        },
    }
}

/// The hunk, without lines, that the header
/// `@@ -<start>[,<count>] +<start>[,<count>] @@...` announces.
pub open spec fn announced(line: Seq<char>) -> Result<HunkView, HeaderError> {
    match header_ranges(line) {
        None => Err(HeaderError::NotAHeader),
        Some(inner) => match text::cut(inner, " "@) {
            None => Err(HeaderError::MissingRange),
            Some((old, new)) => match text::after_prefix(old, "-"@) {
                None => Err(HeaderError::BadOldRange),
                Some(old) => match range(old) {
                    Err(e) => Err(HeaderError::BadNumber(e)),
                    Ok((old_start, old_count)) => match text::after_prefix(new, "+"@) {
                        None => Err(HeaderError::BadNewRange),
                        Some(new) => match range(new) {
                            Err(e) => Err(HeaderError::BadNumber(e)),
                            Ok((new_start, new_count)) => Ok(
                                HunkView {
                                    old_start,
                                    old_count,
                                    new_start,
                                    new_count,
                                    header: line,
                                    lines: Seq::<LineView>::empty(),
                                },
                            ),
                        },
                    },
                },
            },
        },
    }
}

fn parse_range(r: &[char]) -> (res: Result<(usize, usize), NumberError>)
    ensures
        res == range(r@),
{
    match split_once(r, ",") {
        Some((s, c)) => match parse_number(s) {
            Err(e) => Err(e),
            Ok(start) => match parse_number(c) {
                Err(e) => Err(e),
                Ok(count) => Ok((start, count)),
            },
        },
        None => match parse_number(r) {
            Err(e) => Err(e),
            Ok(start) => Ok((start, 1)),
        },
    }
}

fn parse_hunk_header(line: &[char]) -> (r: Result<Hunk, HeaderError>)
    ensures
        r is Ok <==> announced(line@) is Ok,
        r matches Ok(h) ==> announced(line@) == Ok::<HunkView, HeaderError>(h.deep_view()),
        r matches Err(e) ==> announced(line@) == Err::<HunkView, HeaderError>(e),
{
    let inner = match strip_prefix(line, "@@ ") {
        None => return Err(HeaderError::NotAHeader),
        Some(r) => match split_once(r, " @@") {
            None => return Err(HeaderError::NotAHeader),
            Some((ranges, _)) => ranges,
        },
    };
    let (old, new) = match split_once(inner, " ") {
        None => return Err(HeaderError::MissingRange),
        Some(pair) => pair,
    };
    let (old_start, old_count) = match strip_prefix(old, "-") {
        None => return Err(HeaderError::BadOldRange),
        Some(old) => match parse_range(old) {
            Err(e) => return Err(HeaderError::BadNumber(e)),
            Ok(pair) => pair,
        },
    };
    let (new_start, new_count) = match strip_prefix(new, "+") {
        None => return Err(HeaderError::BadNewRange),
        Some(new) => match parse_range(new) {
            Err(e) => return Err(HeaderError::BadNumber(e)),
            Ok(pair) => pair,
        },
    };
    let hunk = Hunk {
        old_start,
        old_count,
        new_start,
        new_count,
        header: string_of(line),
        lines: Vec::new(),
    };
    assert(hunk.lines.deep_view() =~= Seq::<LineView>::empty());
    Ok(hunk)
}

// ---------------------------------------------------------------------------
// The hunk bodies.

/// The lines with the last one marked as lacking its line feed.
pub open spec fn last_unterminated(lines: Seq<LineView>) -> Seq<LineView> {
    if lines.len() == 0 {
        lines
    } else {
        lines.update(lines.len() - 1, LineView { no_newline: true, ..lines.last() })
    }
}

/// The count after one more line of a side.
pub open spec fn one_less(n: nat) -> nat {
    if n == 0 {
        0
    } else {
        (n - 1) as nat
    }
}

/// Whether the line is the note that the line before it lacks its line feed.
pub open spec fn is_note(line: Seq<char>) -> bool {
    line.len() > 0 && line[0] == '\\'
}

/// The kind and the content of a hunk line, unless it cannot stand in a hunk.
/// An empty line is a context line whose blank was lost.
pub open spec fn body_line(line: Seq<char>) -> Option<LineView> {
    if line.len() == 0 {
        Some(LineView { kind: LineKind::Context, content: line, no_newline: false })
    } else {
        let content = line.skip(1);
        match line[0] {
            '+' => Some(LineView { kind: LineKind::Add, content, no_newline: false }),
            '-' => Some(LineView { kind: LineKind::Del, content, no_newline: false }),
            ' ' => Some(LineView { kind: LineKind::Context, content, no_newline: false }),
            _ => None,
        }
    }
}

/// Reads the body of a hunk that still lacks `old_left` lines of the old side
/// and `new_left` lines of the new one, after the lines `done`: the lines of the
/// hunk, and the text lines that follow it.
pub open spec fn hunk_body(
    lines: Seq<Seq<char>>,
    old_left: nat,
    new_left: nat,
    done: Seq<LineView>,
) -> Result<(Seq<LineView>, Seq<Seq<char>>), DiffErrorView>
    decreases lines.len(),
{
    if old_left == 0 && new_left == 0 {
        if lines.len() > 0 && is_note(lines[0]) {
            Ok((last_unterminated(done), lines.skip(1)))
        } else {
            Ok((done, lines))
        }
    } else if lines.len() == 0 {
        Err(DiffErrorView::Truncated)
    } else if is_note(lines[0]) {
        hunk_body(lines.skip(1), old_left, new_left, last_unterminated(done))
    } else {
        match body_line(lines[0]) {
            None => Err(DiffErrorView::UnexpectedLine { start: lines[0][0], line: lines[0] }),
            Some(l) => hunk_body(
                lines.skip(1),
                if l.kind == LineKind::Add {
                    old_left
                } else {
                    one_less(old_left)
                },
                if l.kind == LineKind::Del {
                    new_left
                } else {
                    one_less(new_left)
                },
                done.push(l),
            ),
        }
    }
}

/// Reading a hunk body never leaves more text lines than there were.
pub proof fn lemma_body_shortens(
    lines: Seq<Seq<char>>,
    old_left: nat,
    new_left: nat,
    done: Seq<LineView>,
)
    ensures
        hunk_body(lines, old_left, new_left, done) matches Ok((_, rest)) ==> rest.len()
            <= lines.len(),
    decreases lines.len(),
{
    if (old_left != 0 || new_left != 0) && lines.len() > 0 {
        if is_note(lines[0]) {
            lemma_body_shortens(lines.skip(1), old_left, new_left, last_unterminated(done));
        } else if let Some(l) = body_line(lines[0]) {
            lemma_body_shortens(
                lines.skip(1),
                if l.kind == LineKind::Add {
                    old_left
                } else {
                    one_less(old_left)
                },
                if l.kind == LineKind::Del {
                    new_left
                } else {
                    one_less(new_left)
                },
                done.push(l),
            );
        }
    }
}

/// Reads the rest of a diff after the files `done`. Lines before the first file,
/// and lines that say nothing of interest, are passed over.
pub open spec fn parsed_lines(lines: Seq<Seq<char>>, done: Seq<FileView>) -> Result<
    Seq<FileView>,
    DiffErrorView,
>
    decreases lines.len(),
{
    if lines.len() == 0 {
        Ok(done)
    } else if let Some(rest) = text::after_prefix(lines[0], "diff --git "@) {
        parsed_lines(lines.skip(1), done.push(new_file(rest)))
    } else if done.len() == 0 {
        parsed_lines(lines.skip(1), done)
    } else if let Some(f) = described(done.last(), lines[0]) {
        parsed_lines(lines.skip(1), done.drop_last().push(f))
    } else if "@@ "@.is_prefix_of(lines[0]) {
        match announced(lines[0]) {
            Err(cause) => Err(DiffErrorView::BadHunkHeader { line: lines[0], cause }),
            Ok(h) => {
                proof {
                    lemma_body_shortens(
                        lines.skip(1),
                        h.old_count as nat,
                        h.new_count as nat,
                        Seq::empty(),
                    );
                }
                match hunk_body(
                    lines.skip(1),
                    h.old_count as nat,
                    h.new_count as nat,
                    Seq::empty(),
                ) {
                    Err(e) => Err(e),
                    Ok((body, rest)) => parsed_lines(
                        rest,
                        done.drop_last().push(
                            FileView {
                                hunks: done.last().hunks.push(HunkView { lines: body, ..h }),
                                ..done.last()
                            },
                        ),
                    ),
                }
            },
        }
    } else {
        parsed_lines(lines.skip(1), done)
    }
}

/// The files of a diff.
pub open spec fn parsed(diff: Seq<char>) -> Result<Seq<FileView>, DiffErrorView> {
    parsed_lines(text::text_lines(diff), Seq::empty())
}

/// What a list stands for after a value was appended.
pub proof fn lemma_deep_push<T: DeepView>(v: Vec<T>, w: Vec<T>, x: T)
    requires
        w@ == v@.push(x),
    ensures
        w.deep_view() == v.deep_view().push(x.deep_view()),
{
    assert(w.deep_view() =~= v.deep_view().push(x.deep_view()));
}

/// Marks the last line as lacking its line feed.
fn mark_last(lines: &mut Vec<DiffLine>)
    ensures
        final(lines).deep_view() == last_unterminated(old(lines).deep_view()),
{
    let ghost before = *lines;
    let n = lines.len();
    if n > 0 {
        lines[n - 1].no_newline = true;
    }
    assert(lines.deep_view() =~= last_unterminated(before.deep_view()));
}

/// Reads the body of a hunk from line `at` on; returns its lines and where the
/// text goes on.
fn parse_body(lines: &Vec<&[char]>, at: usize, old_count: usize, new_count: usize) -> (r: Result<
    (Vec<DiffLine>, usize),
    DiffError,
>)
    requires
        at <= lines@.len(),
    ensures
        match hunk_body(
            text::contents(lines@).skip(at as int),
            old_count as nat,
            new_count as nat,
            Seq::empty(),
        ) {
            Ok((body, rest)) => r matches Ok((v, to)) && v.deep_view() == body && at <= to
                <= lines@.len() && rest == text::contents(lines@).skip(to as int),
            Err(e) => r matches Err(f) && f.deep_view() == e,
        },
{
    let ghost all = text::contents(lines@);
    let ghost goal = hunk_body(
        all.skip(at as int),
        old_count as nat,
        new_count as nat,
        Seq::empty(),
    );
    let mut out: Vec<DiffLine> = Vec::new();
    let mut i: usize = at;
    let mut old_left: usize = old_count;
    let mut new_left: usize = new_count;
    assert(out.deep_view() =~= Seq::<LineView>::empty());
    while old_left > 0 || new_left > 0
        invariant
            at <= i <= lines@.len(),
            all == text::contents(lines@),
            goal == hunk_body(
                all.skip(at as int),
                old_count as nat,
                new_count as nat,
                Seq::empty(),
            ),
            goal == hunk_body(
                all.skip(i as int),
                old_left as nat,
                new_left as nat,
                out.deep_view(),
            ),
        decreases lines@.len() - i,
    {
        if i == lines.len() {
            return Err(DiffError::Truncated);
        }
        let l = lines[i];
        assert(all.skip(i as int)[0] == l@);
        assert(all.skip(i as int).skip(1) =~= all.skip(i + 1));
        i += 1;
        let (kind, from): (LineKind, usize) = if l.len() == 0 {
            (LineKind::Context, 0)
        } else if l[0] == '+' {
            (LineKind::Add, 1)
        } else if l[0] == '-' {
            (LineKind::Del, 1)
        } else if l[0] == ' ' {
            (LineKind::Context, 1)
        } else if l[0] == '\\' {
            mark_last(&mut out);
            continue;
        } else {
            return Err(DiffError::UnexpectedLine { start: l[0], line: string_of(l) });
        };
        let ghost before = out;
        if kind != LineKind::Add {
            old_left = old_left.saturating_sub(1);
        }
        if kind != LineKind::Del {
            new_left = new_left.saturating_sub(1);
        }
        let content = string_of(slice_subrange(l, from, l.len()));
        let line = DiffLine { kind, content, no_newline: false };
        assert(content@ =~= body_line(l@).unwrap().content);
        out.push(line);
        proof {
            lemma_deep_push(before, out, line);
            assert(line.deep_view() == body_line(l@).unwrap());
        }
    }
    if i < lines.len() && lines[i].len() > 0 && lines[i][0] == '\\' {
        assert(all.skip(i as int)[0] == lines@[i as int]@);
        assert(all.skip(i as int).skip(1) =~= all.skip(i + 1));
        mark_last(&mut out);
        i += 1;
    } else {
        assert(i < lines@.len() ==> all.skip(i as int)[0] == lines@[i as int]@);
    }
    Ok((out, i))
}

/// Reads the files, hunks and lines of a diff as `git diff` prints it.
pub fn parse(diff: &str) -> (r: Result<Vec<FileDiff>, DiffError>)
    ensures
        match parsed(diff@) {
            Ok(files) => r matches Ok(v) && v.deep_view() == files,
            Err(e) => r matches Err(f) && f.deep_view() == e,
        },
{
    let chars = chars_of(diff);
    let lines = lines_of(&chars);
    let ghost all = text::contents(lines@);
    let mut files: Vec<FileDiff> = Vec::new();
    let mut i: usize = 0;
    assert(files.deep_view() =~= Seq::<FileView>::empty());
    assert(all.skip(0) =~= all);
    while i < lines.len()
        invariant
            i <= lines@.len(),
            all == text::contents(lines@),
            parsed_lines(all.skip(i as int), files.deep_view()) == parsed(diff@),
        decreases lines@.len() - i,
    {
        let line = lines[i];
        let ghost before = files;
        assert(all.skip(i as int)[0] == line@);
        assert(all.skip(i as int).skip(1) =~= all.skip(i + 1));
        i += 1;
        if let Some(rest) = strip_prefix(line, "diff --git ") {
            let file = FileDiff {
                path: path_from_git_line(rest),
                kind: FileKind::Modified,
                mode: "100644".to_string(),
                old_blob: None,
                binary: false,
                hunks: Vec::new(),
            };
            assert(file.hunks.deep_view() =~= Seq::<HunkView>::empty());
            files.push(file);
            proof {
                lemma_deep_push(before, files, file);
            }
            continue;
        }
        let mut file = match files.pop() {
            Some(f) => f,
            None => continue,
        };
        let ghost was = file;
        let ghost others = files;
        proof {
            assert(before.deep_view().last() == file.deep_view());
            assert(files.deep_view() =~= before.deep_view().drop_last());
        }
        if describe(&mut file, line) {
            files.push(file);
            proof {
                lemma_deep_push(others, files, file);
            }
        } else if starts_with(line, "@@ ") {
            let mut hunk = match parse_hunk_header(line) {
                Ok(h) => h,
                Err(cause) => {
                    return Err(DiffError::BadHunkHeader { line: string_of(line), cause });
                },
            };
            let ghost h = hunk;
            let (body, next) = match parse_body(&lines, i, hunk.old_count, hunk.new_count) {
                Ok(pair) => pair,
                Err(e) => {
                    return Err(e);
                },
            };
            hunk.lines = body;
            i = next;
            let ghost hunks = file.hunks;
            file.hunks.push(hunk);
            files.push(file);
            proof {
                lemma_deep_push(hunks, file.hunks, hunk);
                lemma_deep_push(others, files, file);
            }
        } else {
            files.push(file);
            proof {
                lemma_deep_push(others, files, file);
                assert(files.deep_view() =~= before.deep_view());
            }
        }
    }
    assert(all.skip(i as int) =~= Seq::<Seq<char>>::empty());
    Ok(files)
}

} // verus!
