//! What each line of a diff says.
use vstd::prelude::*;

use crate::diff;
use crate::diff::{DiffErrorView, FileKind, FileView, HeaderError, HunkView, LineKind, LineView};
use crate::text;
use crate::text::NumberError;
use crate::text_laws;

verus! {

/// What is read of the lines from `line` on, after the files `done`.
pub open spec fn read(line: Seq<char>, rest: Seq<Seq<char>>, done: Seq<FileView>) -> Result<
    Seq<FileView>,
    DiffErrorView,
> {
    diff::parsed_lines(seq![line] + rest, done)
}

/// What is read of the lines `rest`, after the files `done` with the last one
/// replaced.
pub open spec fn go_on(rest: Seq<Seq<char>>, done: Seq<FileView>, last: FileView) -> Result<
    Seq<FileView>,
    DiffErrorView,
> {
    diff::parsed_lines(rest, done.drop_last().push(last))
}

proof fn lemma_parts(line: Seq<char>, rest: Seq<Seq<char>>)
    ensures
        (seq![line] + rest)[0] == line,
        (seq![line] + rest).skip(1) == rest,
        (seq![line] + rest).len() > 0,
{
    assert((seq![line] + rest).skip(1) =~= rest);
}

proof fn lemma_not_prefix(line: Seq<char>, p: Seq<char>, i: int)
    requires
        0 <= i < p.len(),
        i >= line.len() || line[i] != p[i],
    ensures
        !p.is_prefix_of(line),
        text::after_prefix(line, p) is None,
{
    if p.is_prefix_of(line) {
        assert(p =~= line.take(p.len() as int));
        assert(line.take(p.len() as int)[i] == line[i]);
    }
}

proof fn lemma_prefix(p: Seq<char>, r: Seq<char>)
    ensures
        text::after_prefix(p + r, p) == Some(r),
        p.is_prefix_of(p + r),
        forall|i: int| 0 <= i < p.len() ==> #[trigger] (p + r)[i] == p[i],
{
    text_laws::law_prefix_is_taken_off(p + r, p, r);
    assert(p =~= (p + r).take(p.len() as int));
}

/// The beginnings of the lines that say something.
proof fn lemma_beginnings()
    ensures
        "diff --git "@.len() == 11 && "diff --git "@[0] == 'd' && "diff --git "@[1] == 'i',
        "new file mode "@.len() == 14 && "new file mode "@[0] == 'n' && "new file mode "@[4] == 'f',
        "deleted file mode "@.len() == 18 && "deleted file mode "@[0] == 'd'
            && "deleted file mode "@[1] == 'e',
        "new mode "@.len() == 9 && "new mode "@[0] == 'n' && "new mode "@[4] == 'm',
        "index "@.len() == 6 && "index "@[0] == 'i',
        "--- "@.len() == 4 && "--- "@[0] == '-',
        "+++ "@.len() == 4 && "+++ "@[0] == '+',
        "Binary files "@.len() == 13 && "Binary files "@[0] == 'B',
        "GIT binary patch"@.len() == 16 && "GIT binary patch"@[0] == 'G',
        "@@ "@.len() == 3 && "@@ "@[0] == '@',
{
    reveal_strlit("diff --git ");
    reveal_strlit("new file mode ");
    reveal_strlit("deleted file mode ");
    reveal_strlit("new mode ");
    reveal_strlit("index ");
    reveal_strlit("--- ");
    reveal_strlit("+++ ");
    reveal_strlit("Binary files ");
    reveal_strlit("GIT binary patch");
    reveal_strlit("@@ ");
}

// ---------------------------------------------------------------------------
// Files.

/// A line that begins a file: its path is what follows the first ` b/`, or all of
/// the line where there is none. Nothing else is known of it yet.
pub proof fn law_file_begins(
    a: Seq<char>,
    path: Seq<char>,
    rest: Seq<Seq<char>>,
    done: Seq<FileView>,
)
    requires
        forall|i: int| 0 <= i < a.len() ==> !text_laws::stands_at(a + " b/"@ + path, " b/"@, i),
    ensures
        read("diff --git "@ + (a + " b/"@ + path), rest, done) == diff::parsed_lines(
            rest,
            done.push(
                FileView {
                    path,
                    kind: FileKind::Modified,
                    mode: "100644"@,
                    old_blob: None,
                    binary: false,
                    hunks: Seq::<HunkView>::empty(),
                },
            ),
        ),
{
    let s = a + " b/"@ + path;
    lemma_parts("diff --git "@ + s, rest);
    lemma_prefix("diff --git "@, s);
    lemma_cut_there(a, " b/"@, path);
}

/// A text is cut at the separator when it does not stand before that.
proof fn lemma_cut_there(a: Seq<char>, p: Seq<char>, b: Seq<char>)
    requires
        forall|i: int| 0 <= i < a.len() ==> !text_laws::stands_at(a + p + b, p, i),
    ensures
        text::cut(a + p + b, p) == Some((a, b)),
{
    let s = a + p + b;
    let m = a.len() as int;
    assert(s.skip(m) =~= p + b);
    lemma_prefix(p, b);
    assert(text_laws::stands_at(s, p, m));
    text_laws::law_cut_at_the_first(s, p, m);
    let (x, y) = text::cut(s, p).unwrap();
    assert(text_laws::stands_at(s, p, x.len() as int)) by {
        assert(s.skip(x.len() as int) =~= p + y);
        lemma_prefix(p, y);
    }
    assert(x.len() == a.len());
    assert(x =~= s.take(m));
    assert(a =~= s.take(m));
    assert(y =~= s.skip(m + p.len()));
    assert(b =~= s.skip(m + p.len()));
}

/// Lines before the first file say nothing.
pub proof fn law_lines_before_the_first_file(line: Seq<char>, rest: Seq<Seq<char>>)
    requires
        !"diff --git "@.is_prefix_of(line),
    ensures
        read(line, rest, Seq::empty()) == diff::parsed_lines(rest, Seq::empty()),
{
    lemma_parts(line, rest);
}

/// The lines that describe a file say whether it is new or deleted, and its mode.
pub proof fn law_mode_lines(mode: Seq<char>, rest: Seq<Seq<char>>, done: Seq<FileView>)
    requires
        done.len() > 0,
    ensures
        read("new file mode "@ + mode, rest, done) == go_on(
            rest,
            done,
            FileView { kind: FileKind::Added, mode, ..done.last() },
        ),
        read("deleted file mode "@ + mode, rest, done) == go_on(
            rest,
            done,
            FileView { kind: FileKind::Deleted, mode, ..done.last() },
        ),
        read("new mode "@ + mode, rest, done) == go_on(
            rest,
            done,
            FileView { mode, ..done.last() },
        ),
{
    lemma_beginnings();
    let x = "new file mode "@ + mode;
    let y = "deleted file mode "@ + mode;
    let z = "new mode "@ + mode;
    lemma_parts(x, rest);
    lemma_parts(y, rest);
    lemma_parts(z, rest);
    lemma_prefix("new file mode "@, mode);
    lemma_prefix("deleted file mode "@, mode);
    lemma_prefix("new mode "@, mode);
    assert(x[0] == 'n' && y[0] == 'd' && y[1] == 'e' && z[0] == 'n' && z[4] == 'm');
    lemma_not_prefix(x, "diff --git "@, 0);
    lemma_not_prefix(y, "diff --git "@, 1);
    lemma_not_prefix(y, "new file mode "@, 0);
    lemma_not_prefix(z, "diff --git "@, 0);
    lemma_not_prefix(z, "new file mode "@, 4);
    lemma_not_prefix(z, "deleted file mode "@, 0);
}

/// The line with the names of the contents gives the name of the old one, unless
/// it is all zeros, and the mode where there is one.
pub proof fn law_index_line(
    old: Seq<char>,
    new: Seq<char>,
    mode: Seq<char>,
    rest: Seq<Seq<char>>,
    done: Seq<FileView>,
)
    requires
        done.len() > 0,
        !old.contains('.'),
        !new.contains(' '),
    ensures
        ({
            let blob = if forall|i: int| 0 <= i < old.len() ==> old[i] == '0' {
                done.last().old_blob
            } else {
                Some(old)
            };
            &&& read("index "@ + (old + ".."@ + (new + " "@ + mode)), rest, done) == go_on(
                rest,
                done,
                FileView { old_blob: blob, mode, ..done.last() },
            )
            &&& read("index "@ + (old + ".."@ + new), rest, done) == go_on(
                rest,
                done,
                FileView { old_blob: blob, ..done.last() },
            )
        }),
{
    reveal_strlit("..");
    reveal_strlit(" ");
    let tail = new + " "@ + mode;
    lemma_cut(old, ".."@, tail);
    lemma_cut(old, ".."@, new);
    lemma_cut(new, " "@, mode);
    lemma_no_cut(new, " "@);
    lemma_index_line(old + ".."@ + tail, rest, done);
    lemma_index_line(old + ".."@ + new, rest, done);
}

proof fn lemma_index_line(s: Seq<char>, rest: Seq<Seq<char>>, done: Seq<FileView>)
    requires
        done.len() > 0,
    ensures
        read("index "@ + s, rest, done) == go_on(rest, done, diff::with_index_line(done.last(), s)),
{
    lemma_beginnings();
    let x = "index "@ + s;
    lemma_parts(x, rest);
    lemma_prefix("index "@, s);
    assert(x[0] == 'i');
    lemma_not_prefix(x, "diff --git "@, 0);
    lemma_not_prefix(x, "new file mode "@, 0);
    lemma_not_prefix(x, "deleted file mode "@, 0);
    lemma_not_prefix(x, "new mode "@, 0);
}

/// A text is cut at the separator when what is before it has no character of it.
proof fn lemma_cut(a: Seq<char>, p: Seq<char>, b: Seq<char>)
    requires
        p.len() > 0,
        !a.contains(p[0]),
    ensures
        text::cut(a + p + b, p) == Some((a, b)),
    decreases a.len(),
{
    let s = a + p + b;
    if a.len() == 0 {
        assert(s =~= p + b);
        lemma_prefix(p, b);
        assert(s.skip(p.len() as int) =~= b);
        assert(a =~= Seq::<char>::empty());
    } else {
        assert(s[0] == a[0]);
        assert(a.contains(a[0]));
        lemma_not_prefix(s, p, 0);
        assert(s.skip(1) =~= a.skip(1) + p + b);
        assert forall|i: int| 0 <= i < a.skip(1).len() implies a.skip(1)[i] != p[0] by {
            assert(a.skip(1)[i] == a[i + 1]);
            assert(a.contains(a[i + 1]));
        }
        lemma_cut(a.skip(1), p, b);
        assert(seq![s[0]] + a.skip(1) =~= a);
    }
}

proof fn lemma_no_cut(a: Seq<char>, p: Seq<char>)
    requires
        p.len() > 0,
        !a.contains(p[0]),
    ensures
        text::cut(a, p) is None,
{
    if let Some((x, y)) = text::cut(a, p) {
        text_laws::law_cut_at_the_first(a, p, 0);
        assert(a[x.len() as int] == p[0]);
        assert(a.contains(p[0]));
    }
}

/// The lines with the paths give the path, without the `a/` or `b/` before it,
/// unless there is no file on that side.
pub proof fn law_path_lines(path: Seq<char>, rest: Seq<Seq<char>>, done: Seq<FileView>)
    requires
        done.len() > 0,
    ensures
        read("--- "@ + ("a/"@ + path), rest, done) == go_on(
            rest,
            done,
            FileView { path, ..done.last() },
        ),
        read("+++ "@ + ("b/"@ + path), rest, done) == go_on(
            rest,
            done,
            FileView { path, ..done.last() },
        ),
        read("--- "@ + "/dev/null"@, rest, done) == go_on(rest, done, done.last()),
        read("+++ "@ + "/dev/null"@, rest, done) == go_on(rest, done, done.last()),
        !"a/"@.is_prefix_of(path) && !"b/"@.is_prefix_of(path) && path != "/dev/null"@ ==> read(
            "+++ "@ + path,
            rest,
            done,
        ) == go_on(rest, done, FileView { path, ..done.last() }) && read(
            "--- "@ + path,
            rest,
            done,
        ) == go_on(rest, done, FileView { path, ..done.last() }),
{
    reveal_strlit("a/");
    reveal_strlit("b/");
    reveal_strlit("/dev/null");
    lemma_path_line("a/"@ + path, rest, done);
    lemma_path_line("b/"@ + path, rest, done);
    lemma_path_line("/dev/null"@, rest, done);
    lemma_path_line(path, rest, done);
    lemma_prefix("a/"@, path);
    lemma_prefix("b/"@, path);
    assert(("a/"@ + path)[0] == 'a');
    assert(("b/"@ + path)[0] == 'b');
    assert("/dev/null"@[0] == '/');
    lemma_not_prefix("b/"@ + path, "a/"@, 0);
}

proof fn lemma_path_line(p: Seq<char>, rest: Seq<Seq<char>>, done: Seq<FileView>)
    requires
        done.len() > 0,
    ensures
        read("--- "@ + p, rest, done) == go_on(rest, done, diff::with_path_line(done.last(), p)),
        read("+++ "@ + p, rest, done) == go_on(rest, done, diff::with_path_line(done.last(), p)),
{
    lemma_beginnings();
    let x = "--- "@ + p;
    let y = "+++ "@ + p;
    lemma_parts(x, rest);
    lemma_parts(y, rest);
    lemma_prefix("--- "@, p);
    lemma_prefix("+++ "@, p);
    assert(x[0] == '-' && y[0] == '+');
    lemma_not_prefix(x, "diff --git "@, 0);
    lemma_not_prefix(x, "new file mode "@, 0);
    lemma_not_prefix(x, "deleted file mode "@, 0);
    lemma_not_prefix(x, "new mode "@, 0);
    lemma_not_prefix(x, "index "@, 0);
    lemma_not_prefix(y, "diff --git "@, 0);
    lemma_not_prefix(y, "new file mode "@, 0);
    lemma_not_prefix(y, "deleted file mode "@, 0);
    lemma_not_prefix(y, "new mode "@, 0);
    lemma_not_prefix(y, "index "@, 0);
    lemma_not_prefix(y, "--- "@, 0);
}

/// The lines that say that a file is binary.
pub proof fn law_binary_lines(which: Seq<char>, rest: Seq<Seq<char>>, done: Seq<FileView>)
    requires
        done.len() > 0,
    ensures
        read("Binary files "@ + which, rest, done) == go_on(
            rest,
            done,
            FileView { binary: true, ..done.last() },
        ),
        read("GIT binary patch"@, rest, done) == go_on(
            rest,
            done,
            FileView { binary: true, ..done.last() },
        ),
{
    lemma_beginnings();
    let x = "Binary files "@ + which;
    let y = "GIT binary patch"@;
    lemma_parts(x, rest);
    lemma_parts(y, rest);
    lemma_prefix("Binary files "@, which);
    assert(x[0] == 'B' && y[0] == 'G');
    lemma_not_prefix(x, "diff --git "@, 0);
    lemma_not_prefix(x, "new file mode "@, 0);
    lemma_not_prefix(x, "deleted file mode "@, 0);
    lemma_not_prefix(x, "new mode "@, 0);
    lemma_not_prefix(x, "index "@, 0);
    lemma_not_prefix(x, "--- "@, 0);
    lemma_not_prefix(x, "+++ "@, 0);
    lemma_not_prefix(y, "diff --git "@, 0);
    lemma_not_prefix(y, "new file mode "@, 0);
    lemma_not_prefix(y, "deleted file mode "@, 0);
    lemma_not_prefix(y, "new mode "@, 0);
    lemma_not_prefix(y, "index "@, 0);
    lemma_not_prefix(y, "--- "@, 0);
    lemma_not_prefix(y, "+++ "@, 0);
}

/// Any other line outside of a hunk says nothing.
pub proof fn law_other_lines_say_nothing(
    line: Seq<char>,
    rest: Seq<Seq<char>>,
    done: Seq<FileView>,
)
    requires
        !"diff --git "@.is_prefix_of(line),
        !"new file mode "@.is_prefix_of(line),
        !"deleted file mode "@.is_prefix_of(line),
        !"new mode "@.is_prefix_of(line),
        !"index "@.is_prefix_of(line),
        !"--- "@.is_prefix_of(line),
        !"+++ "@.is_prefix_of(line),
        !"Binary files "@.is_prefix_of(line),
        line != "GIT binary patch"@,
        !"@@ "@.is_prefix_of(line),
    ensures
        read(line, rest, done) == diff::parsed_lines(rest, done),
{
    lemma_parts(line, rest);
}

// ---------------------------------------------------------------------------
// Hunks.

/// What a range says: where it starts, and how many lines it has, which is one
/// where no count is given.
pub open spec fn range_says(r: Seq<char>, start: usize, count: usize) -> bool {
    (text::number(r) == Ok::<usize, NumberError>(start) && count == 1 && !r.contains(',')) || (
    exists|a: Seq<char>, b: Seq<char>|
        r == #[trigger] (a + ","@ + b) && !a.contains(',') && text::number(a) == Ok::<
            usize,
            NumberError,
        >(start) && text::number(b) == Ok::<usize, NumberError>(count))
}

proof fn lemma_range_says(r: Seq<char>, start: usize, count: usize)
    requires
        range_says(r, start, count),
    ensures
        diff::range(r) == Ok::<(usize, usize), NumberError>((start, count)),
{
    reveal_strlit(",");
    if text::number(r) == Ok::<usize, NumberError>(start) && count == 1 && !r.contains(',') {
        lemma_no_cut(r, ","@);
    } else {
        let (a, b) = choose|a: Seq<char>, b: Seq<char>|
            r == #[trigger] (a + ","@ + b) && !a.contains(',') && text::number(a) == Ok::<
                usize,
                NumberError,
            >(start) && text::number(b) == Ok::<usize, NumberError>(count);
        lemma_cut(a, ","@, b);
    }
}

/// A header gives the ranges of its hunk; what follows the second `@@` says
/// nothing, but is kept with the header.
pub proof fn law_header_gives_the_ranges(
    old: Seq<char>,
    new: Seq<char>,
    tail: Seq<char>,
    old_start: usize,
    old_count: usize,
    new_start: usize,
    new_count: usize,
)
    requires
        !old.contains(' '),
        !new.contains(' '),
        range_says(old, old_start, old_count),
        range_says(new, new_start, new_count),
    ensures
        ({
            let line = "@@ "@ + (("-"@ + old + " "@ + ("+"@ + new)) + " @@"@ + tail);
            diff::announced(line) == Ok::<HunkView, HeaderError>(
                HunkView {
                    old_start,
                    old_count,
                    new_start,
                    new_count,
                    header: line,
                    lines: Seq::<LineView>::empty(),
                },
            )
        }),
{
    reveal_strlit(" ");
    reveal_strlit("-");
    reveal_strlit("+");
    reveal_strlit(" @@");
    let inner = "-"@ + old + " "@ + ("+"@ + new);
    let rest = inner + " @@"@ + tail;
    lemma_prefix("@@ "@, rest);
    lemma_ranges_end(old, new, tail);
    assert(!("-"@ + old).contains(' ')) by {
        if ("-"@ + old).contains(' ') {
            let i = choose|i: int| 0 <= i < ("-"@ + old).len() && ("-"@ + old)[i] == ' ';
            assert(i > 0);
            assert(old[i - 1] == ' ');
        }
    }
    lemma_cut("-"@ + old, " "@, "+"@ + new);
    lemma_prefix("-"@, old);
    lemma_prefix("+"@, new);
    lemma_range_says(old, old_start, old_count);
    lemma_range_says(new, new_start, new_count);
}

proof fn lemma_ranges_end(old: Seq<char>, new: Seq<char>, tail: Seq<char>)
    requires
        !old.contains(' '),
        !new.contains(' '),
    ensures
        ({
            let inner = "-"@ + old + " "@ + ("+"@ + new);
            text::cut(inner + " @@"@ + tail, " @@"@) == Some((inner, tail))
        }),
{
    reveal_strlit(" ");
    reveal_strlit("-");
    reveal_strlit("+");
    reveal_strlit(" @@");
    let inner = "-"@ + old + " "@ + ("+"@ + new);
    let s = inner + " @@"@ + tail;
    let m = inner.len() as int;
    assert(s.skip(m) =~= " @@"@ + tail);
    lemma_prefix(" @@"@, tail);
    assert(text_laws::stands_at(s, " @@"@, m));
    text_laws::law_cut_at_the_first(s, " @@"@, m);
    if let Some((a, b)) = text::cut(s, " @@"@) {
        let k = a.len() as int;
        assert(s[k] == " @@"@[0]);
        assert(s[k + 1] == " @@"@[1]);
        if k < m {
            assert(s[k] == inner[k]);
            let sp = 1 + old.len() as int;
            if k != sp {
                if k == 0 {
                    assert(inner[0] == '-');
                } else if k < sp {
                    assert(inner[k] == old[k - 1]);
                } else if k == sp + 1 {
                    assert(inner[k] == '+');
                } else {
                    assert(inner[k] == new[k - sp - 2]);
                }
            } else {
                assert(s[k + 1] == '+');
            }
            assert(false);
        }
        assert(a =~= s.take(m));
        assert(inner =~= s.take(m));
        assert(b =~= s.skip(m + 3));
        assert(tail =~= s.skip(m + 3));
    }
}

/// A header without a second `@@`, or without two ranges, is refused.
pub proof fn law_bad_headers(line: Seq<char>, inner: Seq<char>)
    ensures
        (forall|k: int| !#[trigger] text_laws::stands_at(line, " @@"@, k)) ==> diff::announced(line)
            == Err::<HunkView, HeaderError>(HeaderError::NotAHeader),
        !inner.contains(' ') && !inner.contains('@') ==> diff::announced(
            "@@ "@ + (inner + " @@"@),
        ) == Err::<HunkView, HeaderError>(HeaderError::MissingRange),
{
    reveal_strlit(" ");
    reveal_strlit(" @@");
    if forall|k: int| !#[trigger] text_laws::stands_at(line, " @@"@, k) {
        if let Some(r) = text::after_prefix(line, "@@ "@) {
            if let Some((a, b)) = text::cut(r, " @@"@) {
                text_laws::law_cut_at_the_first(r, " @@"@, 0);
                let k = "@@ "@.len() + a.len() as int;
                assert(line =~= "@@ "@ + r) by {
                    text_laws::law_prefix_is_taken_off(line, "@@ "@, r);
                }
                assert(line.skip(k) =~= " @@"@ + b);
                lemma_prefix(" @@"@, b);
                assert(text_laws::stands_at(line, " @@"@, k));
            }
        }
    }
    if !inner.contains(' ') && !inner.contains('@') {
        lemma_prefix("@@ "@, inner + " @@"@);
        lemma_cut(inner, " @@"@, Seq::<char>::empty());
        assert(inner + " @@"@ + Seq::<char>::empty() =~= inner + " @@"@);
        lemma_no_cut(inner, " "@);
    }
}

/// What is wrong with a range: its only number, or else the first of its two
/// numbers that is none.
pub proof fn law_bad_ranges(a: Seq<char>, b: Seq<char>)
    requires
        !a.contains(','),
    ensures
        text::number(a) matches Err(e) ==> diff::range(a) == Err::<(usize, usize), NumberError>(e)
            && diff::range(a + ","@ + b) == Err::<(usize, usize), NumberError>(e),
        text::number(a) is Ok ==> (text::number(b) matches Err(e) ==> diff::range(a + ","@ + b)
            == Err::<(usize, usize), NumberError>(e)),
{
    reveal_strlit(",");
    lemma_cut(a, ","@, b);
    lemma_no_cut(a, ","@);
}

/// What is wrong with a header: an old range without its sign, or a number in it,
/// and then the same of the new range.
pub proof fn law_headers_with_bad_ranges(x: Seq<char>, y: Seq<char>, tail: Seq<char>)
    requires
        !x.contains(' '),
        !y.contains(' '),
        y.len() > 0,
        y[0] != '@',
    ensures
        ({
            let r = diff::announced("@@ "@ + ((x + " "@ + y) + " @@"@ + tail));
            if !(x.len() > 0 && x[0] == '-') {
                r == Err::<HunkView, HeaderError>(HeaderError::BadOldRange)
            } else if diff::range(x.skip(1)) is Err {
                r == Err::<HunkView, HeaderError>(
                    HeaderError::BadNumber(diff::range(x.skip(1))->Err_0),
                )
            } else if y[0] != '+' {
                r == Err::<HunkView, HeaderError>(HeaderError::BadNewRange)
            } else if diff::range(y.skip(1)) is Err {
                r == Err::<HunkView, HeaderError>(
                    HeaderError::BadNumber(diff::range(y.skip(1))->Err_0),
                )
            } else {
                r is Ok
            }
        }),
{
    reveal_strlit(" ");
    reveal_strlit("-");
    reveal_strlit("+");
    reveal_strlit(" @@");
    let inner = x + " "@ + y;
    lemma_prefix("@@ "@, inner + " @@"@ + tail);
    assert forall|i: int| 0 <= i < inner.len() implies !text_laws::stands_at(
        inner + " @@"@ + tail,
        " @@"@,
        i,
    ) by {
        let s = inner + " @@"@ + tail;
        if text_laws::stands_at(s, " @@"@, i) {
            assert(" @@"@ =~= s.skip(i).take(3));
            assert(s.skip(i).take(3)[0] == s[i]);
            assert(s.skip(i).take(3)[1] == s[i + 1]);
            if i < x.len() {
                assert(s[i] == x[i]);
            } else if i == x.len() {
                assert(s[i + 1] == y[0]);
            } else {
                assert(s[i] == y[i - x.len() - 1]);
            }
        }
    }
    lemma_cut_there(inner, " @@"@, tail);
    lemma_cut(x, " "@, y);
    if x.len() > 0 && x[0] == '-' {
        assert(x =~= "-"@ + x.skip(1));
        lemma_prefix("-"@, x.skip(1));
    } else {
        lemma_not_prefix(x, "-"@, 0);
    }
    if y[0] == '+' {
        assert(y =~= "+"@ + y.skip(1));
        lemma_prefix("+"@, y.skip(1));
    } else {
        lemma_not_prefix(y, "+"@, 0);
    }
}

/// A header begins a hunk of the last file: it is read on after the lines of the
/// hunk, and what is wrong with the header or with these lines is what is wrong
/// with the diff.
pub proof fn law_hunk_is_read(
    tail: Seq<char>,
    rest: Seq<Seq<char>>,
    done: Seq<FileView>,
)
    requires
        done.len() > 0,
    ensures
        ({
            let line = "@@ "@ + tail;
            match diff::announced(line) {
                Err(cause) => read(line, rest, done) == Err::<Seq<FileView>, DiffErrorView>(
                    DiffErrorView::BadHunkHeader { line, cause },
                ),
                Ok(h) => match diff::hunk_body(
                    rest,
                    h.old_count as nat,
                    h.new_count as nat,
                    Seq::empty(),
                ) {
                    Err(e) => read(line, rest, done) == Err::<Seq<FileView>, DiffErrorView>(e),
                    Ok((body, after)) => read(line, rest, done) == go_on(
                        after,
                        done,
                        FileView {
                            hunks: done.last().hunks.push(HunkView { lines: body, ..h }),
                            ..done.last()
                        },
                    ),
                },
            }
        }),
{
    lemma_beginnings();
    let x = "@@ "@ + tail;
    lemma_parts(x, rest);
    lemma_prefix("@@ "@, tail);
    assert(x[0] == '@');
    lemma_not_prefix(x, "diff --git "@, 0);
    lemma_not_prefix(x, "new file mode "@, 0);
    lemma_not_prefix(x, "deleted file mode "@, 0);
    lemma_not_prefix(x, "new mode "@, 0);
    lemma_not_prefix(x, "index "@, 0);
    lemma_not_prefix(x, "--- "@, 0);
    lemma_not_prefix(x, "+++ "@, 0);
    lemma_not_prefix(x, "Binary files "@, 0);
}

/// The rest of a count.
pub open spec fn less(n: nat) -> nat {
    if n > 0 {
        (n - 1) as nat
    } else {
        0
    }
}

/// Each line of a hunk is what its first character says, and the rest of it is its
/// text; an empty one is an empty line that stays. It counts for the old lines, the
/// new ones, or both.
pub proof fn law_lines_of_a_hunk(
    content: Seq<char>,
    rest: Seq<Seq<char>>,
    old: nat,
    new: nat,
    done: Seq<LineView>,
)
    requires
        old > 0 || new > 0,
    ensures
        diff::hunk_body(seq![seq!['+'] + content] + rest, old, new, done) == diff::hunk_body(
            rest,
            old,
            less(new),
            done.push(LineView { kind: LineKind::Add, content, no_newline: false }),
        ),
        diff::hunk_body(seq![seq!['-'] + content] + rest, old, new, done) == diff::hunk_body(
            rest,
            less(old),
            new,
            done.push(LineView { kind: LineKind::Del, content, no_newline: false }),
        ),
        diff::hunk_body(seq![seq![' '] + content] + rest, old, new, done) == diff::hunk_body(
            rest,
            less(old),
            less(new),
            done.push(LineView { kind: LineKind::Context, content, no_newline: false }),
        ),
        diff::hunk_body(seq![Seq::<char>::empty()] + rest, old, new, done) == diff::hunk_body(
            rest,
            less(old),
            less(new),
            done.push(
                LineView {
                    kind: LineKind::Context,
                    content: Seq::<char>::empty(),
                    no_newline: false,
                },
            ),
        ),
{
    lemma_parts(seq!['+'] + content, rest);
    lemma_parts(seq!['-'] + content, rest);
    lemma_parts(seq![' '] + content, rest);
    lemma_parts(Seq::<char>::empty(), rest);
    assert((seq!['+'] + content).skip(1) =~= content);
    assert((seq!['-'] + content).skip(1) =~= content);
    assert((seq![' '] + content).skip(1) =~= content);
}

/// A note says that the line before it has no line feed, inside of a hunk and
/// right after it.
pub proof fn law_notes_of_a_hunk(
    note: Seq<char>,
    rest: Seq<Seq<char>>,
    old: nat,
    new: nat,
    done: Seq<LineView>,
    last: LineView,
)
    ensures
        ({
            let marked = done.push(LineView { no_newline: true, ..last });
            let line = seq!['\\'] + note;
            &&& diff::hunk_body(seq![line] + rest, 0, 0, done.push(last)) == Ok::<
                (Seq<LineView>, Seq<Seq<char>>),
                DiffErrorView,
            >((marked, rest))
            &&& old > 0 || new > 0 ==> diff::hunk_body(
                seq![line] + rest,
                old,
                new,
                done.push(last),
            ) == diff::hunk_body(rest, old, new, marked)
        }),
{
    lemma_parts(seq!['\\'] + note, rest);
    let all = done.push(last);
    assert(diff::last_unterminated(all) =~= done.push(LineView { no_newline: true, ..last }));
}

/// A hunk ends when its lines are counted out; it is refused when the diff ends
/// before that, or at a line that cannot be one of a hunk.
pub proof fn law_end_of_a_hunk(
    line: Seq<char>,
    rest: Seq<Seq<char>>,
    old: nat,
    new: nat,
    done: Seq<LineView>,
)
    ensures
        !(line.len() > 0 && line[0] == '\\') ==> diff::hunk_body(seq![line] + rest, 0, 0, done)
            == Ok::<(Seq<LineView>, Seq<Seq<char>>), DiffErrorView>((done, seq![line] + rest)),
        diff::hunk_body(Seq::empty(), 0, 0, done) == Ok::<
            (Seq<LineView>, Seq<Seq<char>>),
            DiffErrorView,
        >((done, Seq::empty())),
        old > 0 || new > 0 ==> diff::hunk_body(Seq::empty(), old, new, done) == Err::<
            (Seq<LineView>, Seq<Seq<char>>),
            DiffErrorView,
        >(DiffErrorView::Truncated),
        (old > 0 || new > 0) && line.len() > 0 && line[0] != '+' && line[0] != '-' && line[0] != ' '
            && line[0] != '\\' ==> diff::hunk_body(seq![line] + rest, old, new, done) == Err::<
            (Seq<LineView>, Seq<Seq<char>>),
            DiffErrorView,
        >(DiffErrorView::UnexpectedLine { start: line[0], line }),
{
    lemma_parts(line, rest);
}

/// A diff is read line by line, from its first one on, without a file before it.
pub proof fn law_diff_is_read_by_lines(line: Seq<char>, more: Seq<char>)
    requires
        !line.contains('\n'),
        line.len() > 0 ==> line.last() != '\r',
    ensures
        diff::parsed(line + seq!['\n'] + more) == read(line, text::text_lines(more), Seq::empty()),
        diff::parsed(Seq::<char>::empty()) == Ok::<Seq<FileView>, DiffErrorView>(Seq::empty()),
{
    text_laws::law_first_line_of_a_text(line, more);
}

} // verus!
