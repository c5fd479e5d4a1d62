//! What holds of the diffs that are read: what git prints is read back.
use vstd::prelude::*;

use crate::diff;
use crate::diff::{FileKind, FileView, HunkView, LineKind, LineView};
use crate::text;

verus! {

// ---------------------------------------------------------------------------
// Hunk bodies.

/// The mark of a kind of line.
pub open spec fn mark(kind: LineKind) -> char {
    match kind {
        LineKind::Context => ' ',
        LineKind::Add => '+',
        LineKind::Del => '-',
    }
}

/// A line as a diff shows it, with the note that it lacks its line feed.
pub open spec fn shown_line(l: LineView) -> Seq<Seq<char>> {
    if l.no_newline {
        seq![seq![mark(l.kind)] + l.content, "\\ No newline at end of file"@]
    } else {
        seq![seq![mark(l.kind)] + l.content]
    }
}

/// The lines of a hunk as a diff shows them.
pub open spec fn shown_lines(lines: Seq<LineView>) -> Seq<Seq<char>>
    decreases lines.len(),
{
    if lines.len() == 0 {
        Seq::<Seq<char>>::empty()
    } else {
        shown_line(lines[0]) + shown_lines(lines.skip(1))
    }
}

/// How many lines stand in the old version.
pub open spec fn old_side(lines: Seq<LineView>) -> nat
    decreases lines.len(),
{
    if lines.len() == 0 {
        0
    } else if lines[0].kind == LineKind::Add {
        old_side(lines.skip(1))
    } else {
        old_side(lines.skip(1)) + 1
    }
}

/// How many lines stand in the new version.
pub open spec fn new_side(lines: Seq<LineView>) -> nat
    decreases lines.len(),
{
    if lines.len() == 0 {
        0
    } else if lines[0].kind == LineKind::Del {
        new_side(lines.skip(1))
    } else {
        new_side(lines.skip(1)) + 1
    }
}

proof fn lemma_sides(lines: Seq<LineView>)
    ensures
        old_side(lines) == 0 && new_side(lines) == 0 <==> lines.len() == 0,
{
}

/// The lines make up a hunk that lacks `old_left` lines of the old version and
/// `new_left` lines of the new one: the last of them, and none before it, leaves
/// nothing lacking.
pub open spec fn fills(lines: Seq<LineView>, old_left: nat, new_left: nat) -> bool
    decreases lines.len(),
{
    if old_left == 0 && new_left == 0 {
        lines.len() == 0
    } else if lines.len() == 0 {
        false
    } else {
        fills(
            lines.skip(1),
            if lines[0].kind == LineKind::Add {
                old_left
            } else {
                diff::one_less(old_left)
            },
            if lines[0].kind == LineKind::Del {
                new_left
            } else {
                diff::one_less(new_left)
            },
        )
    }
}

/// Lines make up a hunk of as many lines as they are.
proof fn lemma_sides_fill(lines: Seq<LineView>)
    ensures
        fills(lines, old_side(lines), new_side(lines)),
    decreases lines.len(),
{
    lemma_sides(lines);
    if lines.len() > 0 {
        lemma_sides_fill(lines.skip(1));
    }
}

/// The lines of a hunk are read back, after the lines `done`.
proof fn lemma_body_read(
    lines: Seq<LineView>,
    old_left: nat,
    new_left: nat,
    done: Seq<LineView>,
    rest: Seq<Seq<char>>,
)
    requires
        fills(lines, old_left, new_left),
        rest.len() > 0 ==> !diff::is_note(rest[0]),
    ensures
        diff::hunk_body(shown_lines(lines) + rest, old_left, new_left, done) == Ok::<
            (Seq<LineView>, Seq<Seq<char>>),
            diff::DiffErrorView,
        >((done + lines, rest)),
    decreases lines.len(),
{
    let all = shown_lines(lines) + rest;
    if lines.len() == 0 {
        assert(all =~= rest);
        assert(done + lines =~= done);
    } else {
        let l = lines[0];
        let more = lines.skip(1);
        let tail = shown_lines(more) + rest;
        let o = if l.kind == LineKind::Add {
            old_left
        } else {
            diff::one_less(old_left)
        };
        let n = if l.kind == LineKind::Del {
            new_left
        } else {
            diff::one_less(new_left)
        };
        lemma_body_read(more, o, n, done.push(l), rest);
        assert(done.push(l) + more =~= done + lines);
        let first = seq![mark(l.kind)] + l.content;
        assert(all[0] == first);
        assert(first.skip(1) =~= l.content);
        assert(first[0] == mark(l.kind));
        let plain = LineView { no_newline: false, ..l };
        assert(diff::body_line(first) == Some(plain));
        assert(!diff::is_note(first));
        assert(diff::hunk_body(all, old_left, new_left, done) == diff::hunk_body(
            all.skip(1),
            o,
            n,
            done.push(plain),
        ));
        if l.no_newline {
            reveal_strlit("\\ No newline at end of file");
            let note = "\\ No newline at end of file"@;
            assert(note[0] == '\\');
            let then = all.skip(1);
            assert(then[0] == note);
            assert(diff::is_note(then[0]));
            assert(then.skip(1) =~= tail);
            assert(diff::last_unterminated(done.push(plain)) =~= done.push(l));
            if o == 0 && n == 0 {
                assert(tail =~= rest);
                assert(done.push(l) =~= done + lines);
            } else {
                assert(diff::hunk_body(then, o, n, done.push(plain)) == diff::hunk_body(
                    tail,
                    o,
                    n,
                    done.push(l),
                ));
            }
        } else {
            assert(all.skip(1) =~= tail);
            assert(plain == l);
        }
    }
}

/// The lines of a hunk are read back as they are, up to what follows the hunk.
pub proof fn law_body_is_read_back(
    lines: Seq<LineView>,
    old_count: nat,
    new_count: nat,
    rest: Seq<Seq<char>>,
)
    requires
        fills(lines, old_count, new_count),
        rest.len() > 0 ==> !diff::is_note(rest[0]),
    ensures
        diff::hunk_body(
            shown_lines(lines) + rest,
            old_count,
            new_count,
            Seq::<LineView>::empty(),
        ) == Ok::<(Seq<LineView>, Seq<Seq<char>>), diff::DiffErrorView>((lines, rest)),
{
    lemma_body_read(lines, old_count, new_count, Seq::<LineView>::empty(), rest);
    assert(Seq::<LineView>::empty() + lines =~= lines);
}

/// A hunk that was read has the lines of both versions that its header
/// announced, or more.
pub proof fn law_body_is_complete(
    text: Seq<Seq<char>>,
    old_left: nat,
    new_left: nat,
    done: Seq<LineView>,
)
    ensures
        diff::hunk_body(text, old_left, new_left, done) matches Ok((lines, _)) ==> old_side(lines)
            >= old_side(done) + old_left && new_side(lines) >= new_side(done) + new_left,
    decreases text.len(),
{
    lemma_unterminated(done);
    if (old_left != 0 || new_left != 0) && text.len() > 0 {
        if diff::is_note(text[0]) {
            law_body_is_complete(
                text.skip(1),
                old_left,
                new_left,
                diff::last_unterminated(done),
            );
        } else if let Some(l) = diff::body_line(text[0]) {
            lemma_sides_push(done, l);
            law_body_is_complete(
                text.skip(1),
                if l.kind == LineKind::Add {
                    old_left
                } else {
                    diff::one_less(old_left)
                },
                if l.kind == LineKind::Del {
                    new_left
                } else {
                    diff::one_less(new_left)
                },
                done.push(l),
            );
        }
    }
}

proof fn lemma_sides_push(lines: Seq<LineView>, l: LineView)
    ensures
        old_side(lines.push(l)) == old_side(lines) + if l.kind == LineKind::Add {
            0nat
        } else {
            1nat
        },
        new_side(lines.push(l)) == new_side(lines) + if l.kind == LineKind::Del {
            0nat
        } else {
            1nat
        },
    decreases lines.len(),
{
    let all = lines.push(l);
    if lines.len() == 0 {
        assert(all.skip(1) =~= Seq::<LineView>::empty());
        assert(old_side(all.skip(1)) == 0 && new_side(all.skip(1)) == 0);
    } else {
        lemma_sides_push(lines.skip(1), l);
        assert(all.skip(1) =~= lines.skip(1).push(l));
        assert(all[0] == lines[0]);
    }
}

proof fn lemma_unterminated(lines: Seq<LineView>)
    ensures
        old_side(diff::last_unterminated(lines)) == old_side(lines),
        new_side(diff::last_unterminated(lines)) == new_side(lines),
{
    if lines.len() > 0 {
        let front = lines.drop_last();
        let last = lines.last();
        let marked = LineView { no_newline: true, ..last };
        assert(front.push(last) =~= lines);
        assert(front.push(marked) =~= diff::last_unterminated(lines));
        lemma_sides_push(front, last);
        lemma_sides_push(front, marked);
    }
}

// ---------------------------------------------------------------------------
// Hunk headers.

/// A range as a diff shows it; the count may be left out when it is 1.
pub open spec fn shown_range(start: usize, count: usize, short: bool) -> Seq<char> {
    if short {
        text::decimal(start as nat)
    } else {
        text::decimal(start as nat) + ","@ + text::decimal(count as nat)
    }
}

/// The header of a hunk as a diff shows it.
pub open spec fn shown_header(
    h: HunkView,
    short_old: bool,
    short_new: bool,
    tail: Seq<char>,
) -> Seq<char> {
    "@@ "@ + ("-"@ + shown_range(h.old_start, h.old_count, short_old) + " +"@ + shown_range(
        h.new_start,
        h.new_count,
        short_new,
    ) + (" @@"@ + tail))
}

proof fn lemma_range_chars(start: usize, count: usize, short: bool)
    ensures
        forall|i: int|
            0 <= i < shown_range(start, count, short).len() ==> text::is_digit(
                #[trigger] shown_range(start, count, short)[i],
            ) || shown_range(start, count, short)[i] == ',',
{
    reveal_strlit(",");
    text::lemma_decimal_digits(start as nat);
    text::lemma_decimal_digits(count as nat);
    let a = text::decimal(start as nat);
    let b = text::decimal(count as nat);
    let r = shown_range(start, count, short);
    assert forall|i: int| 0 <= i < r.len() implies text::is_digit(#[trigger] r[i]) || r[i]
        == ',' by {
        if !short && i > a.len() {
            assert(r[i] == b[i - a.len() - 1]);
        } else if i < a.len() {
            assert(r[i] == a[i]);
        }
    }
}

/// A range is read back.
pub proof fn law_range_is_read_back(start: usize, count: usize, short: bool)
    requires
        short ==> count == 1,
    ensures
        diff::range(shown_range(start, count, short)) == Ok::<(usize, usize), text::NumberError>(
            (start, count),
        ),
{
    reveal_strlit(",");
    let a = text::decimal(start as nat);
    let b = text::decimal(count as nat);
    text::law_numbers_are_read_back(start as nat);
    text::law_numbers_are_read_back(count as nat);
    text::lemma_decimal_digits(start as nat);
    let r = shown_range(start, count, short);
    if short {
        assert forall|i: int| 0 <= i < r.len() implies r[i] != ","@[0] by {
            assert(text::is_digit(a[i]));
        }
        text::lemma_cut_nowhere(r, ","@);
    } else {
        let k = a.len() as int;
        assert(r.skip(k).subrange(0, 1) =~= ","@);
        assert forall|i: int| 0 <= i < k implies !","@.is_prefix_of(#[trigger] r.skip(i)) by {
            assert(text::is_digit(a[i]));
            assert(r.skip(i)[0] == a[i]);
            if ","@.is_prefix_of(r.skip(i)) {
                assert(r.skip(i).subrange(0, 1)[0] == ","@[0]);
            }
        }
        text::lemma_cut_first(r, ","@, k);
        assert(r.take(k) =~= a);
        assert(r.skip(k + 1) =~= b);
    }
}

/// The header of a hunk is read back.
pub proof fn law_header_is_read_back(
    h: HunkView,
    short_old: bool,
    short_new: bool,
    tail: Seq<char>,
)
    requires
        short_old ==> h.old_count == 1,
        short_new ==> h.new_count == 1,
    ensures
        diff::announced(shown_header(h, short_old, short_new, tail)) == Ok::<
            HunkView,
            diff::HeaderError,
        >(
            HunkView {
                header: shown_header(h, short_old, short_new, tail),
                lines: Seq::<LineView>::empty(),
                ..h
            },
        ),
{
    let a = shown_range(h.old_start, h.old_count, short_old);
    let b = shown_range(h.new_start, h.new_count, short_new);
    lemma_range_chars(h.old_start, h.old_count, short_old);
    lemma_range_chars(h.new_start, h.new_count, short_new);
    law_range_is_read_back(h.old_start, h.old_count, short_old);
    law_range_is_read_back(h.new_start, h.new_count, short_new);
    lemma_header_ranges(a, b, tail);
    lemma_two_ranges(a, b);
    lemma_signs(a, b);
}

/// Whether a text is one of digits and commas.
spec fn range_like(s: Seq<char>) -> bool {
    forall|i: int| 0 <= i < s.len() ==> text::is_digit(#[trigger] s[i]) || s[i] == ','
}

/// The only space between the ranges stands before the plus sign.
proof fn lemma_gap(a: Seq<char>, b: Seq<char>)
    requires
        range_like(a),
        range_like(b),
    ensures
        ({
            let inner = "-"@ + a + " +"@ + b;
            let gap = 1 + a.len() as int;
            &&& inner.len() == gap + 2 + b.len()
            &&& inner[gap] == ' '
            &&& inner[gap + 1] == '+'
            &&& forall|i: int| 0 <= i < inner.len() && i != gap ==> #[trigger] inner[i] != ' '
        }),
{
    reveal_strlit("-");
    reveal_strlit(" +");
    let inner = "-"@ + a + " +"@ + b;
    let gap = 1 + a.len() as int;
    assert forall|i: int| 0 <= i < inner.len() && i != gap implies #[trigger] inner[i] != ' ' by {
        if 1 <= i < gap {
            assert(inner[i] == a[i - 1]);
        } else if i >= gap + 2 {
            assert(inner[i] == b[i - gap - 2]);
        }
    }
}

proof fn lemma_header_ranges(a: Seq<char>, b: Seq<char>, tail: Seq<char>)
    requires
        range_like(a),
        range_like(b),
    ensures
        diff::header_ranges("@@ "@ + ("-"@ + a + " +"@ + b + (" @@"@ + tail))) == Some(
            "-"@ + a + " +"@ + b,
        ),
{
    reveal_strlit("@@ ");
    reveal_strlit(" @@");
    let inner = "-"@ + a + " +"@ + b;
    let gap = 1 + a.len() as int;
    lemma_gap(a, b);
    let r = inner + (" @@"@ + tail);
    let line = "@@ "@ + r;
    assert(line.subrange(0, 3) =~= "@@ "@);
    assert(line.skip(3) =~= r);
    let k = inner.len() as int;
    assert(r.skip(k).subrange(0, 3) =~= " @@"@);
    assert forall|i: int| 0 <= i < k implies !" @@"@.is_prefix_of(#[trigger] r.skip(i)) by {
        if " @@"@.is_prefix_of(r.skip(i)) {
            let p = r.skip(i).subrange(0, 3);
            assert(p == " @@"@);
            assert(r[i] == p[0]);
            assert(r[i] == inner[i]);
            assert(i == gap);
            assert(r[i + 1] == p[1]);
            assert(r[i + 1] == inner[gap + 1]);
        }
    }
    text::lemma_cut_first(r, " @@"@, k);
    assert(r.take(k) =~= inner);
}

proof fn lemma_two_ranges(a: Seq<char>, b: Seq<char>)
    requires
        range_like(a),
        range_like(b),
    ensures
        text::cut("-"@ + a + " +"@ + b, " "@) == Some(("-"@ + a, "+"@ + b)),
{
    reveal_strlit("-");
    reveal_strlit(" +");
    reveal_strlit(" ");
    reveal_strlit("+");
    let inner = "-"@ + a + " +"@ + b;
    let gap = 1 + a.len() as int;
    lemma_gap(a, b);
    assert(inner.skip(gap).subrange(0, 1) =~= " "@);
    assert forall|i: int| 0 <= i < gap implies !" "@.is_prefix_of(#[trigger] inner.skip(i)) by {
        if " "@.is_prefix_of(inner.skip(i)) {
            assert(inner.skip(i).subrange(0, 1)[0] == ' ');
            assert(inner[i] == ' ');
        }
    }
    text::lemma_cut_first(inner, " "@, gap);
    assert(inner.take(gap) =~= "-"@ + a);
    assert(inner.skip(gap + 1) =~= "+"@ + b);
}

proof fn lemma_signs(a: Seq<char>, b: Seq<char>)
    ensures
        text::after_prefix("-"@ + a, "-"@) == Some(a),
        text::after_prefix("+"@ + b, "+"@) == Some(b),
{
    reveal_strlit("-");
    reveal_strlit("+");
    assert(("-"@ + a).subrange(0, 1) =~= "-"@);
    assert(("-"@ + a).skip(1) =~= a);
    assert(("+"@ + b).subrange(0, 1) =~= "+"@);
    assert(("+"@ + b).skip(1) =~= b);
}

// ---------------------------------------------------------------------------
// Files.

/// A hunk as git makes it: its header says where it stands and how many lines
/// it has.
pub open spec fn true_hunk(h: HunkView) -> bool {
    &&& h.old_count == old_side(h.lines)
    &&& h.new_count == new_side(h.lines)
    &&& exists|short_old: bool, short_new: bool, tail: Seq<char>|
        (short_old ==> h.old_count == 1) && (short_new ==> h.new_count == 1) && h.header
            == #[trigger] shown_header(h, short_old, short_new, tail)
}

/// A hunk that can be read back: its header announces it, and its lines make it
/// up.
pub open spec fn readable(h: HunkView) -> bool {
    &&& fills(h.lines, h.old_count as nat, h.new_count as nat)
    &&& "@@ "@.is_prefix_of(h.header)
    &&& diff::announced(h.header) == Ok::<HunkView, diff::HeaderError>(
        HunkView { lines: Seq::<LineView>::empty(), ..h },
    )
}

/// A hunk as git makes it can be read back.
pub proof fn law_true_hunks_are_readable(h: HunkView)
    requires
        true_hunk(h),
    ensures
        readable(h),
{
    let (short_old, short_new, tail) = choose|short_old: bool, short_new: bool, tail: Seq<char>|
        (short_old ==> h.old_count == 1) && (short_new ==> h.new_count == 1) && h.header
            == #[trigger] shown_header(h, short_old, short_new, tail);
    law_header_is_read_back(h, short_old, short_new, tail);
    lemma_sides_fill(h.lines);
    reveal_strlit("@@ ");
    assert(h.header == shown_header(h, short_old, short_new, tail));
    assert(h.header.subrange(0, 3) =~= "@@ "@);
}

/// Hunks as a diff shows them.
pub open spec fn shown_hunks(hunks: Seq<HunkView>) -> Seq<Seq<char>>
    decreases hunks.len(),
{
    if hunks.len() == 0 {
        Seq::<Seq<char>>::empty()
    } else {
        seq![hunks[0].header] + shown_lines(hunks[0].lines) + shown_hunks(hunks.skip(1))
    }
}

/// The lines that a diff shows before the hunks of a file, with the names of its
/// old and its new blob.
pub open spec fn shown_preamble(f: FileView, old: Seq<char>, new: Seq<char>) -> Seq<Seq<char>> {
    let git = "diff --git a/"@ + f.path + " b/"@ + f.path;
    match f.kind {
        FileKind::Modified => seq![
            git,
            "index "@ + (old + ".."@ + (new + " "@ + f.mode)),
            "--- "@ + ("a/"@ + f.path),
            "+++ "@ + ("b/"@ + f.path),
        ],
        FileKind::Added => seq![
            git,
            "new file mode "@ + f.mode,
            "index "@ + (old + ".."@ + new),
            "--- "@ + "/dev/null"@,
            "+++ "@ + ("b/"@ + f.path),
        ],
        FileKind::Deleted => seq![
            git,
            "deleted file mode "@ + f.mode,
            "index "@ + (old + ".."@ + new),
            "--- "@ + ("a/"@ + f.path),
            "+++ "@ + "/dev/null"@,
        ],
    }
}

/// A text file as git shows it: its old blob has a name unless the file is new,
/// blob names hold no dot and no space, and its hunks can be read back.
pub open spec fn true_file(f: FileView, old: Seq<char>, new: Seq<char>) -> bool {
    &&& !f.binary
    &&& !old.contains('.')
    &&& !new.contains(' ')
    &&& if f.kind == FileKind::Added {
        diff::all_zeros(old) && f.old_blob is None
    } else {
        !diff::all_zeros(old) && f.old_blob == Some(old)
    }
    &&& forall|h: int| 0 <= h < f.hunks.len() ==> readable(#[trigger] f.hunks[h])
}

/// A line that begins with an at sign begins a hunk, and nothing else.
proof fn lemma_at_line(f: FileView, line: Seq<char>)
    requires
        line.len() > 0,
        line[0] == '@',
    ensures
        text::after_prefix(line, "diff --git "@) is None,
        diff::described(f, line) is None,
        !diff::is_note(line),
{
    reveal_strlit("diff --git ");
    reveal_strlit("new file mode ");
    reveal_strlit("deleted file mode ");
    reveal_strlit("new mode ");
    reveal_strlit("index ");
    reveal_strlit("--- ");
    reveal_strlit("+++ ");
    reveal_strlit("Binary files ");
    reveal_strlit("GIT binary patch");
    lemma_not_prefix(line, "diff --git "@);
    lemma_not_prefix(line, "new file mode "@);
    lemma_not_prefix(line, "deleted file mode "@);
    lemma_not_prefix(line, "new mode "@);
    lemma_not_prefix(line, "index "@);
    lemma_not_prefix(line, "--- "@);
    lemma_not_prefix(line, "+++ "@);
    lemma_not_prefix(line, "Binary files "@);
    lemma_not_prefix(line, "GIT binary patch"@);
    assert(line != "GIT binary patch"@);
}

proof fn lemma_not_prefix(s: Seq<char>, p: Seq<char>)
    requires
        s.len() > 0,
        p.len() > 0,
        s[0] != p[0],
    ensures
        !p.is_prefix_of(s),
{
    if p.is_prefix_of(s) {
        assert(s.subrange(0, p.len() as int)[0] == p[0]);
    }
}

proof fn lemma_prefix(p: Seq<char>, t: Seq<char>)
    ensures
        p.is_prefix_of(p + t),
        text::after_prefix(p + t, p) == Some(t),
{
    assert((p + t).subrange(0, p.len() as int) =~= p);
    assert((p + t).skip(p.len() as int) =~= t);
}

/// The header of a hunk begins with an at sign.
proof fn lemma_header_start(h: HunkView)
    requires
        readable(h),
    ensures
        h.header.len() > 0,
        h.header[0] == '@',
{
    reveal_strlit("@@ ");
    assert(h.header.subrange(0, 3)[0] == "@@ "@[0]);
}

/// A hunk of the last file is read back.
proof fn lemma_hunk_read(h: HunkView, done: Seq<FileView>, rest: Seq<Seq<char>>)
    requires
        done.len() > 0,
        rest.len() > 0 ==> !diff::is_note(rest[0]),
        readable(h),
    ensures
        diff::parsed_lines(seq![h.header] + shown_lines(h.lines) + rest, done)
            == diff::parsed_lines(
            rest,
            done.drop_last().push(
                FileView { hunks: done.last().hunks.push(h), ..done.last() },
            ),
        ),
{
    let all = seq![h.header] + shown_lines(h.lines) + rest;
    lemma_header_start(h);
    lemma_at_line(done.last(), h.header);
    assert(all[0] == h.header);
    assert(all.skip(1) =~= shown_lines(h.lines) + rest);
    law_body_is_read_back(h.lines, h.old_count as nat, h.new_count as nat, rest);
    let bare = HunkView { lines: Seq::<LineView>::empty(), ..h };
    assert(HunkView { lines: h.lines, ..bare } == h);
}

/// The hunks of the last file are read back.
proof fn lemma_hunks_read(hunks: Seq<HunkView>, done: Seq<FileView>, rest: Seq<Seq<char>>)
    requires
        done.len() > 0,
        rest.len() > 0 ==> !diff::is_note(rest[0]),
        forall|h: int| 0 <= h < hunks.len() ==> readable(#[trigger] hunks[h]),
    ensures
        diff::parsed_lines(shown_hunks(hunks) + rest, done) == diff::parsed_lines(
            rest,
            done.drop_last().push(
                FileView { hunks: done.last().hunks + hunks, ..done.last() },
            ),
        ),
    decreases hunks.len(),
{
    let f = done.last();
    let all = shown_hunks(hunks) + rest;
    if hunks.len() == 0 {
        assert(all =~= rest);
        assert(f.hunks + hunks =~= f.hunks);
        assert(done.drop_last().push(f) =~= done);
    } else {
        let h = hunks[0];
        let more = hunks.skip(1);
        let tail = shown_hunks(more) + rest;
        assert(readable(hunks[0]));
        if more.len() > 0 {
            assert(readable(hunks[1]));
            assert(tail[0] == hunks[1].header);
            lemma_header_start(hunks[1]);
            lemma_at_line(f, hunks[1].header);
        } else {
            assert(tail =~= rest);
        }
        assert(all =~= seq![h.header] + shown_lines(h.lines) + tail);
        lemma_hunk_read(h, done, tail);
        let then = done.drop_last().push(FileView { hunks: f.hunks.push(h), ..f });
        assert forall|k: int| 0 <= k < more.len() implies readable(#[trigger] more[k]) by {
            assert(more[k] == hunks[k + 1]);
        }
        lemma_hunks_read(more, then, rest);
        assert(then.drop_last() =~= done.drop_last());
        assert(f.hunks.push(h) + more =~= f.hunks + hunks);
    }
}

/// A text is not the start of another that differs from it in a place.
proof fn lemma_not_prefix_at(s: Seq<char>, p: Seq<char>, i: int)
    requires
        0 <= i < s.len(),
        i < p.len(),
        s[i] != p[i],
    ensures
        !p.is_prefix_of(s),
{
    if p.is_prefix_of(s) {
        assert(s.subrange(0, p.len() as int)[i] == p[i]);
    }
}

proof fn lemma_mode_lines(f: FileView, mode: Seq<char>)
    ensures
        diff::described(f, "new file mode "@ + mode) == Some(
            FileView { kind: FileKind::Added, mode, ..f },
        ),
        text::after_prefix("new file mode "@ + mode, "diff --git "@) is None,
        diff::described(f, "deleted file mode "@ + mode) == Some(
            FileView { kind: FileKind::Deleted, mode, ..f },
        ),
        text::after_prefix("deleted file mode "@ + mode, "diff --git "@) is None,
{
    reveal_strlit("diff --git ");
    reveal_strlit("new file mode ");
    reveal_strlit("deleted file mode ");
    lemma_prefix("new file mode "@, mode);
    lemma_prefix("deleted file mode "@, mode);
    lemma_not_prefix_at("new file mode "@ + mode, "diff --git "@, 0);
    lemma_not_prefix_at("deleted file mode "@ + mode, "diff --git "@, 1);
    lemma_not_prefix_at("deleted file mode "@ + mode, "new file mode "@, 0);
}

proof fn lemma_index_line(f: FileView, rest: Seq<char>)
    ensures
        diff::described(f, "index "@ + rest) == Some(diff::with_index_line(f, rest)),
        text::after_prefix("index "@ + rest, "diff --git "@) is None,
{
    reveal_strlit("diff --git ");
    reveal_strlit("new file mode ");
    reveal_strlit("deleted file mode ");
    reveal_strlit("new mode ");
    reveal_strlit("index ");
    let line = "index "@ + rest;
    lemma_prefix("index "@, rest);
    lemma_not_prefix_at(line, "diff --git "@, 0);
    lemma_not_prefix_at(line, "new file mode "@, 0);
    lemma_not_prefix_at(line, "deleted file mode "@, 0);
    lemma_not_prefix_at(line, "new mode "@, 0);
}

proof fn lemma_path_lines(f: FileView, p: Seq<char>)
    ensures
        diff::described(f, "--- "@ + p) == Some(diff::with_path_line(f, p)),
        text::after_prefix("--- "@ + p, "diff --git "@) is None,
        diff::described(f, "+++ "@ + p) == Some(diff::with_path_line(f, p)),
        text::after_prefix("+++ "@ + p, "diff --git "@) is None,
{
    reveal_strlit("diff --git ");
    reveal_strlit("new file mode ");
    reveal_strlit("deleted file mode ");
    reveal_strlit("new mode ");
    reveal_strlit("index ");
    reveal_strlit("--- ");
    reveal_strlit("+++ ");
    let minus = "--- "@ + p;
    let plus = "+++ "@ + p;
    lemma_prefix("--- "@, p);
    lemma_prefix("+++ "@, p);
    lemma_not_prefix_at(minus, "diff --git "@, 0);
    lemma_not_prefix_at(minus, "new file mode "@, 0);
    lemma_not_prefix_at(minus, "deleted file mode "@, 0);
    lemma_not_prefix_at(minus, "new mode "@, 0);
    lemma_not_prefix_at(minus, "index "@, 0);
    lemma_not_prefix_at(plus, "diff --git "@, 0);
    lemma_not_prefix_at(plus, "new file mode "@, 0);
    lemma_not_prefix_at(plus, "deleted file mode "@, 0);
    lemma_not_prefix_at(plus, "new mode "@, 0);
    lemma_not_prefix_at(plus, "index "@, 0);
    lemma_not_prefix_at(plus, "--- "@, 0);
}

proof fn lemma_paths(f: FileView, path: Seq<char>)
    ensures
        diff::with_path_line(f, "a/"@ + path) == (FileView { path, ..f }),
        diff::with_path_line(f, "b/"@ + path) == (FileView { path, ..f }),
        diff::with_path_line(f, "/dev/null"@) == f,
{
    reveal_strlit("a/");
    reveal_strlit("b/");
    reveal_strlit("/dev/null");
    lemma_prefix("a/"@, path);
    lemma_prefix("b/"@, path);
    lemma_not_prefix_at("b/"@ + path, "a/"@, 0);
    assert(("a/"@ + path)[0] != "/dev/null"@[0]);
    assert(("b/"@ + path)[0] != "/dev/null"@[0]);
}

/// What stands around the dots of an index line, and around the space after
/// them.
proof fn lemma_index_cuts(old: Seq<char>, new: Seq<char>, mode: Seq<char>)
    requires
        !old.contains('.'),
        !new.contains(' '),
    ensures
        text::cut(old + ".."@ + (new + " "@ + mode), ".."@) == Some((old, new + " "@ + mode)),
        text::cut(old + ".."@ + new, ".."@) == Some((old, new)),
        text::cut(new + " "@ + mode, " "@) == Some((new, mode)),
        text::cut(new, " "@) is None,
{
    reveal_strlit("..");
    reveal_strlit(" ");
    lemma_dots(old, new + " "@ + mode);
    lemma_dots(old, new);
    let s = new + " "@ + mode;
    let k = new.len() as int;
    assert(s.skip(k).subrange(0, 1) =~= " "@);
    assert forall|i: int| 0 <= i < k implies !" "@.is_prefix_of(#[trigger] s.skip(i)) by {
        assert(new[i] != ' ');
        assert(s.skip(i)[0] == new[i]);
        lemma_not_prefix_at(s.skip(i), " "@, 0);
    }
    text::lemma_cut_first(s, " "@, k);
    assert(s.take(k) =~= new);
    assert(s.skip(k + 1) =~= mode);
    assert forall|i: int| 0 <= i < new.len() implies new[i] != " "@[0] by {
        assert(new.contains(new[i]));
    }
    text::lemma_cut_nowhere(new, " "@);
}

proof fn lemma_dots(old: Seq<char>, tail: Seq<char>)
    requires
        !old.contains('.'),
    ensures
        text::cut(old + ".."@ + tail, ".."@) == Some((old, tail)),
{
    reveal_strlit("..");
    let s = old + ".."@ + tail;
    let k = old.len() as int;
    assert(s.skip(k).subrange(0, 2) =~= ".."@);
    assert forall|i: int| 0 <= i < k implies !".."@.is_prefix_of(#[trigger] s.skip(i)) by {
        assert(old.contains(old[i]));
        assert(s.skip(i)[0] == old[i]);
        lemma_not_prefix_at(s.skip(i), ".."@, 0);
    }
    text::lemma_cut_first(s, ".."@, k);
    assert(s.take(k) =~= old);
    assert(s.skip(k + 2) =~= tail);
}

/// A line that describes the last file is read.
proof fn lemma_described(
    line: Seq<char>,
    rest: Seq<Seq<char>>,
    done: Seq<FileView>,
    f: FileView,
    g: FileView,
)
    requires
        text::after_prefix(line, "diff --git "@) is None,
        diff::described(f, line) == Some(g),
    ensures
        diff::parsed_lines(seq![line] + rest, done.push(f)) == diff::parsed_lines(
            rest,
            done.push(g),
        ),
{
    let all = seq![line] + rest;
    assert(all[0] == line);
    assert(all.skip(1) =~= rest);
    assert(done.push(f).drop_last() =~= done);
    assert(done.push(f).last() == f);
}

/// The line that begins a file is read.
proof fn lemma_git_line(path: Seq<char>, rest: Seq<Seq<char>>, done: Seq<FileView>)
    ensures
        diff::parsed_lines(
            seq!["diff --git a/"@ + path + " b/"@ + path] + rest,
            done,
        ) == diff::parsed_lines(
            rest,
            done.push(diff::new_file("a/"@ + path + " b/"@ + path)),
        ),
{
    let names = "a/"@ + path + " b/"@ + path;
    let git = "diff --git a/"@ + path + " b/"@ + path;
    assert(git =~= "diff --git "@ + names) by {
        reveal_strlit("diff --git a/");
        reveal_strlit("diff --git ");
        reveal_strlit("a/");
        assert("diff --git a/"@ =~= "diff --git "@ + "a/"@);
    }
    lemma_prefix("diff --git "@, names);
    let all = seq![git] + rest;
    assert(all[0] == git);
    assert(all.skip(1) =~= rest);
}

/// The index line of a file is read.
proof fn lemma_index_read(
    f: FileView,
    old: Seq<char>,
    new: Seq<char>,
    mode: Option<Seq<char>>,
    rest: Seq<Seq<char>>,
    done: Seq<FileView>,
)
    requires
        !old.contains('.'),
        !new.contains(' '),
    ensures
        ({
            let x = match mode {
                Some(m) => old + ".."@ + (new + " "@ + m),
                None => old + ".."@ + new,
            };
            let g = FileView {
                old_blob: if diff::all_zeros(old) {
                    f.old_blob
                } else {
                    Some(old)
                },
                mode: match mode {
                    Some(m) => m,
                    None => f.mode,
                },
                ..f
            };
            diff::parsed_lines(seq!["index "@ + x] + rest, done.push(f)) == diff::parsed_lines(
                rest,
                done.push(g),
            )
        }),
{
    let m = match mode {
        Some(m) => m,
        None => Seq::<char>::empty(),
    };
    lemma_index_cuts(old, new, m);
    let x = match mode {
        Some(m) => old + ".."@ + (new + " "@ + m),
        None => old + ".."@ + new,
    };
    lemma_index_line(f, x);
    lemma_described("index "@ + x, rest, done, f, diff::with_index_line(f, x));
}

/// The lines with the paths of a file are read.
proof fn lemma_paths_read(
    f: FileView,
    path: Seq<char>,
    rest: Seq<Seq<char>>,
    done: Seq<FileView>,
)
    ensures
        ({
            let g = FileView { path, ..f };
            let was = seq!["--- "@ + ("a/"@ + path)];
            let is = seq!["+++ "@ + ("b/"@ + path)];
            &&& diff::parsed_lines(was + rest, done.push(f)) == diff::parsed_lines(
                rest,
                done.push(g),
            )
            &&& diff::parsed_lines(is + rest, done.push(f)) == diff::parsed_lines(
                rest,
                done.push(g),
            )
            &&& diff::parsed_lines(seq!["--- "@ + "/dev/null"@] + rest, done.push(f))
                == diff::parsed_lines(rest, done.push(f))
            &&& diff::parsed_lines(seq!["+++ "@ + "/dev/null"@] + rest, done.push(f))
                == diff::parsed_lines(rest, done.push(f))
        }),
{
    let g = FileView { path, ..f };
    lemma_paths(f, path);
    lemma_path_lines(f, "a/"@ + path);
    lemma_path_lines(f, "b/"@ + path);
    lemma_path_lines(f, "/dev/null"@);
    lemma_described("--- "@ + ("a/"@ + path), rest, done, f, g);
    lemma_described("+++ "@ + ("b/"@ + path), rest, done, f, g);
    lemma_described("--- "@ + "/dev/null"@, rest, done, f, f);
    lemma_described("+++ "@ + "/dev/null"@, rest, done, f, f);
}

/// The lines before the hunks of a file are read.
proof fn lemma_preamble_read(
    f: FileView,
    old: Seq<char>,
    new: Seq<char>,
    done: Seq<FileView>,
    rest: Seq<Seq<char>>,
)
    requires
        true_file(f, old, new),
    ensures
        diff::parsed_lines(shown_preamble(f, old, new) + rest, done) == diff::parsed_lines(
            rest,
            done.push(FileView { hunks: Seq::<HunkView>::empty(), ..f }),
        ),
{
    match f.kind {
        FileKind::Modified => lemma_modified_read(f, old, new, done, rest),
        FileKind::Added => lemma_added_read(f, old, new, done, rest),
        FileKind::Deleted => lemma_deleted_read(f, old, new, done, rest),
    }
}

proof fn lemma_modified_read(
    f: FileView,
    old: Seq<char>,
    new: Seq<char>,
    done: Seq<FileView>,
    rest: Seq<Seq<char>>,
)
    requires
        true_file(f, old, new),
        f.kind == FileKind::Modified,
    ensures
        diff::parsed_lines(shown_preamble(f, old, new) + rest, done) == diff::parsed_lines(
            rest,
            done.push(FileView { hunks: Seq::<HunkView>::empty(), ..f }),
        ),
{
    let git = "diff --git a/"@ + f.path + " b/"@ + f.path;
    let index = "index "@ + (old + ".."@ + (new + " "@ + f.mode));
    let r3 = seq!["+++ "@ + ("b/"@ + f.path)] + rest;
    let r2 = seq!["--- "@ + ("a/"@ + f.path)] + r3;
    let r1 = seq![index] + r2;
    assert(shown_preamble(f, old, new) + rest =~= seq![git] + r1);
    let a = diff::new_file("a/"@ + f.path + " b/"@ + f.path);
    let b = FileView { old_blob: Some(old), mode: f.mode, ..a };
    let c = FileView { path: f.path, ..b };
    lemma_git_line(f.path, r1, done);
    lemma_index_read(a, old, new, Some(f.mode), r2, done);
    lemma_paths_read(b, f.path, r3, done);
    lemma_paths_read(c, f.path, rest, done);
    assert(c == FileView { hunks: Seq::<HunkView>::empty(), ..f });
}

proof fn lemma_added_read(
    f: FileView,
    old: Seq<char>,
    new: Seq<char>,
    done: Seq<FileView>,
    rest: Seq<Seq<char>>,
)
    requires
        true_file(f, old, new),
        f.kind == FileKind::Added,
    ensures
        diff::parsed_lines(shown_preamble(f, old, new) + rest, done) == diff::parsed_lines(
            rest,
            done.push(FileView { hunks: Seq::<HunkView>::empty(), ..f }),
        ),
{
    let git = "diff --git a/"@ + f.path + " b/"@ + f.path;
    let index = "index "@ + (old + ".."@ + new);
    let r4 = seq!["+++ "@ + ("b/"@ + f.path)] + rest;
    let r3 = seq!["--- "@ + "/dev/null"@] + r4;
    let r2 = seq![index] + r3;
    let r1 = seq!["new file mode "@ + f.mode] + r2;
    assert(shown_preamble(f, old, new) + rest =~= seq![git] + r1);
    let a = diff::new_file("a/"@ + f.path + " b/"@ + f.path);
    let b = FileView { kind: FileKind::Added, mode: f.mode, ..a };
    lemma_git_line(f.path, r1, done);
    lemma_mode_lines(a, f.mode);
    lemma_described("new file mode "@ + f.mode, r2, done, a, b);
    lemma_index_read(b, old, new, None, r3, done);
    lemma_paths_read(b, f.path, r4, done);
    lemma_paths_read(b, f.path, rest, done);
    assert(FileView { path: f.path, ..b } == FileView { hunks: Seq::<HunkView>::empty(), ..f });
}

proof fn lemma_deleted_read(
    f: FileView,
    old: Seq<char>,
    new: Seq<char>,
    done: Seq<FileView>,
    rest: Seq<Seq<char>>,
)
    requires
        true_file(f, old, new),
        f.kind == FileKind::Deleted,
    ensures
        diff::parsed_lines(shown_preamble(f, old, new) + rest, done) == diff::parsed_lines(
            rest,
            done.push(FileView { hunks: Seq::<HunkView>::empty(), ..f }),
        ),
{
    let git = "diff --git a/"@ + f.path + " b/"@ + f.path;
    let index = "index "@ + (old + ".."@ + new);
    let r4 = seq!["+++ "@ + "/dev/null"@] + rest;
    let r3 = seq!["--- "@ + ("a/"@ + f.path)] + r4;
    let r2 = seq![index] + r3;
    let r1 = seq!["deleted file mode "@ + f.mode] + r2;
    assert(shown_preamble(f, old, new) + rest =~= seq![git] + r1);
    let a = diff::new_file("a/"@ + f.path + " b/"@ + f.path);
    let b = FileView { kind: FileKind::Deleted, mode: f.mode, ..a };
    let c = FileView { old_blob: Some(old), ..b };
    let d = FileView { path: f.path, ..c };
    lemma_git_line(f.path, r1, done);
    lemma_mode_lines(a, f.mode);
    lemma_described("deleted file mode "@ + f.mode, r2, done, a, b);
    lemma_index_read(b, old, new, None, r3, done);
    lemma_paths_read(c, f.path, r4, done);
    lemma_paths_read(d, f.path, rest, done);
    assert(d == FileView { hunks: Seq::<HunkView>::empty(), ..f });
}

/// Text files as a diff shows them, with the names of their old and new blobs.
pub open spec fn shown_files(
    files: Seq<FileView>,
    blobs: Seq<(Seq<char>, Seq<char>)>,
) -> Seq<Seq<char>>
    decreases files.len(),
{
    if files.len() == 0 {
        Seq::<Seq<char>>::empty()
    } else {
        shown_preamble(files[0], blobs[0].0, blobs[0].1) + shown_hunks(files[0].hunks)
            + shown_files(files.skip(1), blobs.skip(1))
    }
}

/// All files are as git shows them.
pub open spec fn true_files(
    files: Seq<FileView>,
    blobs: Seq<(Seq<char>, Seq<char>)>,
) -> bool {
    &&& blobs.len() == files.len()
    &&& forall|f: int|
        0 <= f < files.len() ==> true_file(#[trigger] files[f], blobs[f].0, blobs[f].1)
}

proof fn lemma_files_read(
    files: Seq<FileView>,
    blobs: Seq<(Seq<char>, Seq<char>)>,
    done: Seq<FileView>,
)
    requires
        true_files(files, blobs),
    ensures
        diff::parsed_lines(shown_files(files, blobs), done) == Ok::<
            Seq<FileView>,
            diff::DiffErrorView,
        >(done + files),
    decreases files.len(),
{
    if files.len() == 0 {
        assert(done + files =~= done);
    } else {
        let f = files[0];
        let (old, new) = blobs[0];
        let more = files.skip(1);
        let names = blobs.skip(1);
        let rest = shown_files(more, names);
        let all = shown_files(files, blobs);
        assert(true_file(files[0], blobs[0].0, blobs[0].1));
        assert(all =~= shown_preamble(f, old, new) + (shown_hunks(f.hunks) + rest));
        lemma_preamble_read(f, old, new, done, shown_hunks(f.hunks) + rest);
        let g = FileView { hunks: Seq::<HunkView>::empty(), ..f };
        if more.len() > 0 {
            reveal_strlit("diff --git a/");
            assert(rest[0] == "diff --git a/"@ + more[0].path + " b/"@ + more[0].path);
            assert(rest[0][0] == 'd');
        }
        lemma_hunks_read(f.hunks, done.push(g), rest);
        assert(done.push(g).drop_last() =~= done);
        assert(g.hunks + f.hunks =~= f.hunks);
        assert forall|k: int| 0 <= k < more.len() implies true_file(
            #[trigger] more[k],
            names[k].0,
            names[k].1,
        ) by {
            assert(true_file(files[k + 1], blobs[k + 1].0, blobs[k + 1].1));
        }
        lemma_files_read(more, names, done.push(f));
        assert(done.push(f) + more =~= done + files);
    }
}

/// The diff that git prints of text files is read back as it is, if no line of
/// it has a line feed in it or a carriage return at its end.
pub proof fn law_diff_is_read_back(files: Seq<FileView>, blobs: Seq<(Seq<char>, Seq<char>)>)
    requires
        true_files(files, blobs),
        forall|i: int|
            0 <= i < shown_files(files, blobs).len() ==> !(#[trigger] shown_files(
                files,
                blobs,
            )[i]).contains('\n') && text::without_cr(shown_files(files, blobs)[i]) == shown_files(
                files,
                blobs,
            )[i],
    ensures
        diff::parsed(text::lines_text(shown_files(files, blobs))) == Ok::<
            Seq<FileView>,
            diff::DiffErrorView,
        >(files),
{
    text::law_lines_are_read_back(shown_files(files, blobs));
    lemma_files_read(files, blobs, Seq::<FileView>::empty());
    assert(Seq::<FileView>::empty() + files =~= files);
}

// ---------------------------------------------------------------------------
// Whatever was read.

/// A text that fits on a line: it has no line feed and no carriage return.
pub open spec fn on_a_line(s: Seq<char>) -> bool {
    forall|i: int| 0 <= i < s.len() ==> #[trigger] s[i] != '\n' && s[i] != '\r'
}

/// The texts all fit on a line.
spec fn all_on_lines(lines: Seq<Seq<char>>) -> bool {
    forall|i: int| 0 <= i < lines.len() ==> on_a_line(#[trigger] lines[i])
}

/// The contents of the lines of a hunk fit on a line.
spec fn body_on_lines(lines: Seq<LineView>) -> bool {
    forall|i: int| 0 <= i < lines.len() ==> on_a_line((#[trigger] lines[i]).content)
}

/// A hunk that can be read back from a text.
spec fn written_hunk(h: HunkView) -> bool {
    readable(h) && on_a_line(h.header) && body_on_lines(h.lines)
}

/// A file whose path and hunks can be read back from a text.
spec fn written_file(f: FileView) -> bool {
    on_a_line(f.path) && forall|h: int|
        0 <= h < f.hunks.len() ==> written_hunk(#[trigger] f.hunks[h])
}

spec fn written_files(files: Seq<FileView>) -> bool {
    forall|f: int| 0 <= f < files.len() ==> written_file(#[trigger] files[f])
}

proof fn lemma_text_lines(s: Seq<char>)
    requires
        !s.contains('\r'),
    ensures
        all_on_lines(text::text_lines(s)),
    decreases s.len(),
{
    if s.len() > 0 {
        let k = text::line_end(s);
        text::lemma_before_line_end(s);
        let lines = text::text_lines(s);
        assert forall|i: int| 0 <= i < s.len() implies s[i] != '\r' by {
            assert(s.contains(s[i]));
        }
        if k < s.len() {
            let rest = s.skip(k + 1);
            assert(!rest.contains('\r'));
            lemma_text_lines(rest);
            let first = text::without_cr(s.take(k));
            assert(on_a_line(first));
            assert forall|i: int| 0 <= i < lines.len() implies on_a_line(#[trigger] lines[i]) by {
                if i > 0 {
                    assert(lines[i] == text::text_lines(rest)[i - 1]);
                }
            }
        } else {
            assert(on_a_line(s));
        }
    }
}

/// What follows the place where a text is cut fits on a line if the text does.
proof fn lemma_cut_on_a_line(s: Seq<char>, p: Seq<char>)
    requires
        on_a_line(s),
    ensures
        text::cut(s, p) matches Some((_, b)) ==> on_a_line(b),
    decreases s.len(),
{
    if !p.is_prefix_of(s) && s.len() > 0 {
        lemma_cut_on_a_line(s.skip(1), p);
    }
}

proof fn lemma_after_prefix_on_a_line(s: Seq<char>, p: Seq<char>)
    requires
        on_a_line(s),
    ensures
        text::after_prefix(s, p) matches Some(t) ==> on_a_line(t),
{
}

/// A hunk that was read is made up by its lines.
proof fn lemma_read_body(
    lines: Seq<Seq<char>>,
    old_left: nat,
    new_left: nat,
    done: Seq<LineView>,
)
    requires
        all_on_lines(lines),
        body_on_lines(done),
    ensures
        diff::hunk_body(lines, old_left, new_left, done) matches Ok((body, rest)) ==> {
            &&& all_on_lines(rest)
            &&& body_on_lines(body)
            &&& body.len() >= done.len()
            &&& forall|i: int| 0 <= i < done.len() ==> (#[trigger] body[i]).kind == done[i].kind
            &&& fills(body.skip(done.len() as int), old_left, new_left)
        },
    decreases lines.len(),
{
    let n = done.len() as int;
    let marked = diff::last_unterminated(done);
    assert(done.skip(n) =~= Seq::<LineView>::empty());
    assert(marked.skip(n) =~= Seq::<LineView>::empty());
    assert forall|i: int| 0 <= i < marked.len() implies on_a_line((#[trigger] marked[i]).content)
        && marked[i].kind == done[i].kind by {
        assert(on_a_line(done[i].content));
    }
    if lines.len() > 0 {
        let more = lines.skip(1);
        assert forall|i: int| 0 <= i < more.len() implies on_a_line(#[trigger] more[i]) by {
            assert(more[i] == lines[i + 1]);
        }
        if old_left == 0 && new_left == 0 {
        } else if diff::is_note(lines[0]) {
            lemma_read_body(more, old_left, new_left, marked);
        } else if let Some(l) = diff::body_line(lines[0]) {
            assert(on_a_line(lines[0]));
            assert(on_a_line(l.content));
            let o = if l.kind == LineKind::Add {
                old_left
            } else {
                diff::one_less(old_left)
            };
            let m = if l.kind == LineKind::Del {
                new_left
            } else {
                diff::one_less(new_left)
            };
            lemma_read_body(more, o, m, done.push(l));
            if let Ok((body, rest)) = diff::hunk_body(lines, old_left, new_left, done) {
                assert(body[n].kind == done.push(l)[n].kind);
                assert forall|i: int| 0 <= i < n implies (#[trigger] body[i]).kind
                    == done[i].kind by {
                    assert(body[i].kind == done.push(l)[i].kind);
                }
                assert(body.skip(n).skip(1) =~= body.skip(n + 1));
                assert(body.skip(n)[0] == body[n]);
            }
        }
    }
}

/// A line that describes a file leaves its hunks alone.
proof fn lemma_described_written(f: FileView, line: Seq<char>)
    requires
        written_file(f),
        on_a_line(line),
    ensures
        diff::described(f, line) matches Some(g) ==> written_file(g),
{
    lemma_after_prefix_on_a_line(line, "--- "@);
    lemma_after_prefix_on_a_line(line, "+++ "@);
    lemma_bare_path_on_a_line(line.skip("--- "@.len() as int));
    lemma_bare_path_on_a_line(line.skip("+++ "@.len() as int));
    if let Some(g) = diff::described(f, line) {
        assert(g.hunks == f.hunks);
    }
}

proof fn lemma_bare_path_on_a_line(p: Seq<char>)
    ensures
        on_a_line(p) ==> on_a_line(diff::bare_path(p)),
{
    if on_a_line(p) {
        lemma_after_prefix_on_a_line(p, "a/"@);
        lemma_after_prefix_on_a_line(p, "b/"@);
    }
}

/// A file that begins is one that can be read back.
proof fn lemma_new_file_written(line: Seq<char>)
    requires
        on_a_line(line),
    ensures
        text::after_prefix(line, "diff --git "@) matches Some(rest) ==> written_file(
            diff::new_file(rest),
        ),
{
    lemma_after_prefix_on_a_line(line, "diff --git "@);
    if let Some(rest) = text::after_prefix(line, "diff --git "@) {
        lemma_cut_on_a_line(rest, " b/"@);
    }
}

/// A hunk that was read can be read back.
proof fn lemma_hunk_written(lines: Seq<Seq<char>>)
    requires
        lines.len() > 0,
        all_on_lines(lines),
        "@@ "@.is_prefix_of(lines[0]),
    ensures
        diff::announced(lines[0]) matches Ok(h) ==> (diff::hunk_body(
            lines.skip(1),
            h.old_count as nat,
            h.new_count as nat,
            Seq::empty(),
        ) matches Ok((body, rest)) ==> written_hunk(HunkView { lines: body, ..h }) && all_on_lines(
            rest,
        )),
{
    let more = lines.skip(1);
    assert forall|i: int| 0 <= i < more.len() implies on_a_line(#[trigger] more[i]) by {
        assert(more[i] == lines[i + 1]);
    }
    if let Ok(h) = diff::announced(lines[0]) {
        let o = h.old_count as nat;
        let n = h.new_count as nat;
        lemma_announced(lines[0]);
        lemma_read_body(more, o, n, Seq::empty());
        if let Ok((body, rest)) = diff::hunk_body(more, o, n, Seq::empty()) {
            assert(body.skip(0) =~= body);
            let whole = HunkView { lines: body, ..h };
            assert(HunkView { lines: Seq::<LineView>::empty(), ..whole } == h);
            assert(on_a_line(lines[0]));
        }
    }
}

/// A header is kept with what it announces.
proof fn lemma_announced(line: Seq<char>)
    ensures
        diff::announced(line) matches Ok(h) ==> h.header == line && h.lines == Seq::<
            LineView,
        >::empty(),
{
}

/// Every file that was read can be read back.
proof fn lemma_read_files(lines: Seq<Seq<char>>, done: Seq<FileView>)
    requires
        all_on_lines(lines),
        written_files(done),
    ensures
        diff::parsed_lines(lines, done) matches Ok(files) ==> written_files(files),
    decreases lines.len(),
{
    if lines.len() > 0 {
        let more = lines.skip(1);
        assert forall|i: int| 0 <= i < more.len() implies on_a_line(#[trigger] more[i]) by {
            assert(more[i] == lines[i + 1]);
        }
        assert(on_a_line(lines[0]));
        let begun = text::after_prefix(lines[0], "diff --git "@);
        if begun is Some {
            let f = diff::new_file(begun.unwrap());
            lemma_new_file_written(lines[0]);
            lemma_read_files(more, done.push(f));
        } else if done.len() == 0 {
            lemma_read_files(more, done);
        } else {
            let last = done.last();
            assert(written_file(done[done.len() - 1]));
            if let Some(g) = diff::described(last, lines[0]) {
                lemma_described_written(last, lines[0]);
                lemma_read_files(more, done.drop_last().push(g));
            } else if "@@ "@.is_prefix_of(lines[0]) {
                lemma_hunk_written(lines);
                if let Ok(h) = diff::announced(lines[0]) {
                    let o = h.old_count as nat;
                    let n = h.new_count as nat;
                    diff::lemma_body_shortens(more, o, n, Seq::empty());
                    if let Ok((body, rest)) = diff::hunk_body(more, o, n, Seq::empty()) {
                        let whole = HunkView { lines: body, ..h };
                        let g = FileView { hunks: last.hunks.push(whole), ..last };
                        assert(written_file(g));
                        lemma_read_files(rest, done.drop_last().push(g));
                    }
                }
            } else {
                lemma_read_files(more, done);
            }
        }
    }
}

/// A file with its path and its hunks alone.
pub open spec fn plain_file(f: FileView) -> FileView {
    FileView {
        path: f.path,
        hunks: f.hunks,
        ..diff::new_file("a/"@ + f.path + " b/"@ + f.path)
    }
}

/// A file as its path and its hunks alone show it.
pub open spec fn shown_plain(f: FileView) -> Seq<Seq<char>> {
    seq![
        "diff --git a/"@ + f.path + " b/"@ + f.path,
        "--- "@ + ("a/"@ + f.path),
        "+++ "@ + ("b/"@ + f.path),
    ] + shown_hunks(f.hunks)
}

/// Files as their paths and their hunks alone show them.
pub open spec fn shown_plainly(files: Seq<FileView>) -> Seq<Seq<char>>
    decreases files.len(),
{
    if files.len() == 0 {
        Seq::<Seq<char>>::empty()
    } else {
        shown_plain(files[0]) + shown_plainly(files.skip(1))
    }
}

proof fn lemma_plain_read(f: FileView, done: Seq<FileView>, rest: Seq<Seq<char>>)
    requires
        written_file(f),
        rest.len() > 0 ==> !diff::is_note(rest[0]),
    ensures
        diff::parsed_lines(shown_plain(f) + rest, done) == diff::parsed_lines(
            rest,
            done.push(plain_file(f)),
        ),
{
    let git = "diff --git a/"@ + f.path + " b/"@ + f.path;
    let r3 = shown_hunks(f.hunks) + rest;
    let r2 = seq!["+++ "@ + ("b/"@ + f.path)] + r3;
    let r1 = seq!["--- "@ + ("a/"@ + f.path)] + r2;
    assert(shown_plain(f) + rest =~= seq![git] + r1);
    let a = diff::new_file("a/"@ + f.path + " b/"@ + f.path);
    let b = FileView { path: f.path, ..a };
    lemma_git_line(f.path, r1, done);
    lemma_paths_read(a, f.path, r2, done);
    lemma_paths_read(b, f.path, r3, done);
    assert forall|h: int| 0 <= h < f.hunks.len() implies readable(#[trigger] f.hunks[h]) by {
        assert(written_hunk(f.hunks[h]));
    }
    lemma_hunks_read(f.hunks, done.push(b), rest);
    assert(done.push(b).drop_last() =~= done);
    assert(done.push(b).last() == b);
    assert(b.hunks + f.hunks =~= f.hunks);
}

proof fn lemma_plainly_read(files: Seq<FileView>, done: Seq<FileView>)
    requires
        written_files(files),
    ensures
        diff::parsed_lines(shown_plainly(files), done) == Ok::<
            Seq<FileView>,
            diff::DiffErrorView,
        >(done + files.map_values(|f: FileView| plain_file(f))),
    decreases files.len(),
{
    let plain = files.map_values(|f: FileView| plain_file(f));
    if files.len() == 0 {
        assert(done + plain =~= done);
    } else {
        let f = files[0];
        let more = files.skip(1);
        let rest = shown_plainly(more);
        assert(written_file(files[0]));
        assert forall|k: int| 0 <= k < more.len() implies written_file(#[trigger] more[k]) by {
            assert(more[k] == files[k + 1]);
        }
        if more.len() > 0 {
            reveal_strlit("diff --git a/");
            assert(rest[0] == "diff --git a/"@ + more[0].path + " b/"@ + more[0].path);
            assert(rest[0][0] == 'd');
        }
        lemma_plain_read(f, done, rest);
        lemma_plainly_read(more, done.push(plain_file(f)));
        assert(done.push(plain_file(f)) + more.map_values(|f: FileView| plain_file(f)) =~= done
            + plain);
    }
}

proof fn lemma_joined_on_a_line(s: Seq<char>, t: Seq<char>)
    requires
        on_a_line(s),
        on_a_line(t),
    ensures
        on_a_line(s + t),
{
}

proof fn lemma_shown_lines_fit(lines: Seq<LineView>)
    requires
        body_on_lines(lines),
    ensures
        all_on_lines(shown_lines(lines)),
    decreases lines.len(),
{
    if lines.len() > 0 {
        let l = lines[0];
        let more = lines.skip(1);
        assert(on_a_line(lines[0].content));
        assert forall|k: int| 0 <= k < more.len() implies on_a_line(
            (#[trigger] more[k]).content,
        ) by {
            assert(more[k] == lines[k + 1]);
        }
        lemma_shown_lines_fit(more);
        reveal_strlit("\\ No newline at end of file");
        assert(on_a_line("\\ No newline at end of file"@));
        assert(on_a_line(seq![mark(l.kind)]));
        lemma_joined_on_a_line(seq![mark(l.kind)], l.content);
        lemma_joined_lists(shown_line(l), shown_lines(more));
    }
}

proof fn lemma_joined_lists(a: Seq<Seq<char>>, b: Seq<Seq<char>>)
    requires
        all_on_lines(a),
        all_on_lines(b),
    ensures
        all_on_lines(a + b),
{
    let c = a + b;
    assert forall|i: int| 0 <= i < c.len() implies on_a_line(#[trigger] c[i]) by {
        if i < a.len() {
            assert(c[i] == a[i]);
        } else {
            assert(c[i] == b[i - a.len()]);
        }
    }
}

proof fn lemma_shown_hunks_fit(hunks: Seq<HunkView>)
    requires
        forall|h: int| 0 <= h < hunks.len() ==> written_hunk(#[trigger] hunks[h]),
    ensures
        all_on_lines(shown_hunks(hunks)),
    decreases hunks.len(),
{
    if hunks.len() > 0 {
        let more = hunks.skip(1);
        assert(written_hunk(hunks[0]));
        assert forall|k: int| 0 <= k < more.len() implies written_hunk(#[trigger] more[k]) by {
            assert(more[k] == hunks[k + 1]);
        }
        lemma_shown_hunks_fit(more);
        lemma_shown_lines_fit(hunks[0].lines);
        lemma_joined_lists(seq![hunks[0].header], shown_lines(hunks[0].lines));
        lemma_joined_lists(
            seq![hunks[0].header] + shown_lines(hunks[0].lines),
            shown_hunks(more),
        );
    }
}

proof fn lemma_shown_plain_fits(f: FileView)
    requires
        written_file(f),
    ensures
        all_on_lines(shown_plain(f)),
{
    reveal_strlit("diff --git a/");
    reveal_strlit(" b/");
    reveal_strlit("--- ");
    reveal_strlit("+++ ");
    reveal_strlit("a/");
    reveal_strlit("b/");
    lemma_joined_on_a_line("diff --git a/"@, f.path);
    lemma_joined_on_a_line("diff --git a/"@ + f.path, " b/"@);
    lemma_joined_on_a_line("diff --git a/"@ + f.path + " b/"@, f.path);
    lemma_joined_on_a_line("a/"@, f.path);
    lemma_joined_on_a_line("--- "@, "a/"@ + f.path);
    lemma_joined_on_a_line("b/"@, f.path);
    lemma_joined_on_a_line("+++ "@, "b/"@ + f.path);
    lemma_shown_hunks_fit(f.hunks);
    lemma_joined_lists(
        seq![
            "diff --git a/"@ + f.path + " b/"@ + f.path,
            "--- "@ + ("a/"@ + f.path),
            "+++ "@ + ("b/"@ + f.path),
        ],
        shown_hunks(f.hunks),
    );
}

proof fn lemma_shown_plainly_fits(files: Seq<FileView>)
    requires
        written_files(files),
    ensures
        all_on_lines(shown_plainly(files)),
    decreases files.len(),
{
    if files.len() > 0 {
        let more = files.skip(1);
        assert(written_file(files[0]));
        assert forall|k: int| 0 <= k < more.len() implies written_file(#[trigger] more[k]) by {
            assert(more[k] == files[k + 1]);
        }
        lemma_shown_plainly_fits(more);
        lemma_shown_plain_fits(files[0]);
        lemma_joined_lists(shown_plain(files[0]), shown_plainly(more));
    }
}

/// Whatever was read of a diff without carriage returns can be shown again by
/// its paths and hunks, and is then read with the same paths and the same hunks.
pub proof fn law_what_was_read_is_read_again(d: Seq<char>)
    requires
        !d.contains('\r'),
    ensures
        diff::parsed(d) matches Ok(files) ==> {
            &&& diff::parsed(text::lines_text(shown_plainly(files))) matches Ok(again)
            &&& again.len() == files.len()
            &&& forall|i: int|
                0 <= i < files.len() ==> (#[trigger] again[i]).path == files[i].path
                    && again[i].hunks == files[i].hunks
        },
{
    if let Ok(files) = diff::parsed(d) {
        lemma_text_lines(d);
        lemma_read_files(text::text_lines(d), Seq::empty());
        let shown = shown_plainly(files);
        lemma_shown_plainly_fits(files);
        assert forall|i: int| 0 <= i < shown.len() implies !(#[trigger] shown[i]).contains('\n')
            && text::without_cr(shown[i]) == shown[i] by {
            assert(on_a_line(shown[i]));
        }
        text::law_lines_are_read_back(shown);
        lemma_plainly_read(files, Seq::empty());
        let plain = files.map_values(|f: FileView| plain_file(f));
        assert(Seq::<FileView>::empty() + plain =~= plain);
    }
}

// ---------------------------------------------------------------------------
// One diff after another.

/// The lines of two texts are those of the first and those of the second, if a
/// line ends where they meet.
proof fn lemma_lines_joined(a: Seq<char>, b: Seq<char>)
    requires
        a.len() > 0 ==> a.last() == '\n',
    ensures
        text::text_lines(a + b) == text::text_lines(a) + text::text_lines(b),
    decreases a.len(),
{
    if a.len() == 0 {
        assert(a + b =~= b);
        assert(text::text_lines(a) + text::text_lines(b) =~= text::text_lines(b));
    } else {
        let s = a + b;
        let k = text::line_end(a);
        text::lemma_before_line_end(a);
        if k == a.len() {
            assert(a[k - 1] == '\n');
        }
        lemma_line_end_at(a);
        text::lemma_line_end(s, k);
        assert(s.take(k) =~= a.take(k));
        let rest = a.skip(k + 1);
        assert(s.skip(k + 1) =~= rest + b);
        if rest.len() > 0 {
            assert(rest.last() == a.last());
        }
        lemma_lines_joined(rest, b);
        let first = seq![text::without_cr(a.take(k))];
        assert(first + (text::text_lines(rest) + text::text_lines(b)) =~= (first
            + text::text_lines(rest)) + text::text_lines(b));
    }
}

/// A first line that ends before the text does ends at a line feed.
proof fn lemma_line_end_at(s: Seq<char>)
    ensures
        text::line_end(s) < s.len() ==> s[text::line_end(s)] == '\n',
    decreases s.len(),
{
    if s.len() > 0 && s[0] != '\n' {
        text::lemma_before_line_end(s.skip(1));
        lemma_line_end_at(s.skip(1));
    }
}

/// A text that begins with the words of a file has a first line that does.
proof fn lemma_first_line(b: Seq<char>)
    requires
        "diff --git "@.is_prefix_of(b),
    ensures
        text::text_lines(b).len() > 0,
        "diff --git "@.is_prefix_of(text::text_lines(b)[0]),
{
    reveal_strlit("diff --git ");
    let p = "diff --git "@;
    let k = text::line_end(b);
    text::lemma_before_line_end(b);
    lemma_line_end_at(b);
    assert(b.subrange(0, 11) == p);
    assert forall|i: int| 0 <= i < 11 implies b[i] == p[i] by {
        assert(b.subrange(0, 11)[i] == b[i]);
    }
    if k < 11 {
        assert(p[k] == '\n');
    }
    if k < b.len() {
        let first = text::without_cr(b.take(k));
        if k == 11 {
            assert(b.take(k).last() == b[10]);
        }
        assert(first.subrange(0, 11) =~= p);
        assert(text::text_lines(b)[0] == first);
    } else {
        assert(text::text_lines(b)[0] == b);
    }
}

/// A hunk body that was read is read the same when more lines follow.
proof fn lemma_body_then(
    lines: Seq<Seq<char>>,
    more: Seq<Seq<char>>,
    old_left: nat,
    new_left: nat,
    done: Seq<LineView>,
)
    requires
        more.len() > 0 ==> !diff::is_note(more[0]),
    ensures
        diff::hunk_body(lines, old_left, new_left, done) matches Ok((body, rest))
            ==> diff::hunk_body(lines + more, old_left, new_left, done) == Ok::<
            (Seq<LineView>, Seq<Seq<char>>),
            diff::DiffErrorView,
        >((body, rest + more)),
    decreases lines.len(),
{
    let all = lines + more;
    if lines.len() == 0 {
        assert(all =~= more);
    } else {
        assert(all[0] == lines[0]);
        assert(all.skip(1) =~= lines.skip(1) + more);
        if old_left == 0 && new_left == 0 {
        } else if diff::is_note(lines[0]) {
            lemma_body_then(
                lines.skip(1),
                more,
                old_left,
                new_left,
                diff::last_unterminated(done),
            );
        } else if let Some(l) = diff::body_line(lines[0]) {
            lemma_body_then(
                lines.skip(1),
                more,
                if l.kind == LineKind::Add {
                    old_left
                } else {
                    diff::one_less(old_left)
                },
                if l.kind == LineKind::Del {
                    new_left
                } else {
                    diff::one_less(new_left)
                },
                done.push(l),
            );
        }
    }
}

/// Lines that were read are read the same when those of another file follow.
proof fn lemma_lines_then(
    lines: Seq<Seq<char>>,
    more: Seq<Seq<char>>,
    done: Seq<FileView>,
)
    requires
        more.len() > 0 ==> !diff::is_note(more[0]),
    ensures
        diff::parsed_lines(lines, done) matches Ok(files) ==> diff::parsed_lines(
            lines + more,
            done,
        ) == diff::parsed_lines(more, files),
    decreases lines.len(),
{
    let all = lines + more;
    if lines.len() == 0 {
        assert(all =~= more);
    } else {
        assert(all[0] == lines[0]);
        assert(all.skip(1) =~= lines.skip(1) + more);
        let rest = lines.skip(1);
        let begun = text::after_prefix(lines[0], "diff --git "@);
        if begun is Some {
            lemma_lines_then(rest, more, done.push(diff::new_file(begun.unwrap())));
        } else if done.len() == 0 {
            lemma_lines_then(rest, more, done);
        } else {
            let last = done.last();
            if let Some(g) = diff::described(last, lines[0]) {
                lemma_lines_then(rest, more, done.drop_last().push(g));
            } else if "@@ "@.is_prefix_of(lines[0]) {
                if let Ok(h) = diff::announced(lines[0]) {
                    let o = h.old_count as nat;
                    let n = h.new_count as nat;
                    diff::lemma_body_shortens(rest, o, n, Seq::empty());
                    lemma_body_then(rest, more, o, n, Seq::empty());
                    if let Ok((body, after)) = diff::hunk_body(rest, o, n, Seq::empty()) {
                        let g = FileView {
                            hunks: last.hunks.push(HunkView { lines: body, ..h }),
                            ..last
                        };
                        lemma_lines_then(after, more, done.drop_last().push(g));
                    }
                }
            } else {
                lemma_lines_then(rest, more, done);
            }
        }
    }
}

/// Files that are already there do not change how the next ones are read.
proof fn lemma_lines_after(
    lines: Seq<Seq<char>>,
    before: Seq<FileView>,
    done: Seq<FileView>,
)
    requires
        done.len() > 0,
    ensures
        diff::parsed_lines(lines, before + done) == (match diff::parsed_lines(lines, done) {
            Ok(files) => Ok::<Seq<FileView>, diff::DiffErrorView>(before + files),
            Err(e) => Err::<Seq<FileView>, diff::DiffErrorView>(e),
        }),
    decreases lines.len(),
{
    if lines.len() > 0 {
        let rest = lines.skip(1);
        let all = before + done;
        let last = done.last();
        assert(all.last() == last);
        assert(all.drop_last() =~= before + done.drop_last());
        let begun = text::after_prefix(lines[0], "diff --git "@);
        if begun is Some {
            let f = diff::new_file(begun.unwrap());
            assert(all.push(f) =~= before + done.push(f));
            lemma_lines_after(rest, before, done.push(f));
        } else if let Some(g) = diff::described(last, lines[0]) {
            assert(all.drop_last().push(g) =~= before + done.drop_last().push(g));
            lemma_lines_after(rest, before, done.drop_last().push(g));
        } else if "@@ "@.is_prefix_of(lines[0]) {
            if let Ok(h) = diff::announced(lines[0]) {
                let o = h.old_count as nat;
                let n = h.new_count as nat;
                diff::lemma_body_shortens(rest, o, n, Seq::empty());
                if let Ok((body, after)) = diff::hunk_body(rest, o, n, Seq::empty()) {
                    let g = FileView {
                        hunks: last.hunks.push(HunkView { lines: body, ..h }),
                        ..last
                    };
                    assert(all.drop_last().push(g) =~= before + done.drop_last().push(g));
                    lemma_lines_after(after, before, done.drop_last().push(g));
                }
            }
        } else {
            lemma_lines_after(rest, before, done);
        }
    }
}

/// Two diffs, one after the other, are read as the files of the first and then
/// those of the second; when the second cannot be read, neither can both, for
/// the same reason.
pub proof fn law_diffs_are_read_one_after_another(a: Seq<char>, b: Seq<char>)
    requires
        diff::parsed(a) is Ok,
        a.len() > 0 ==> a.last() == '\n',
        "diff --git "@.is_prefix_of(b),
    ensures
        diff::parsed(a + b) == (match diff::parsed(b) {
            Ok(files) => Ok::<Seq<FileView>, diff::DiffErrorView>(diff::parsed(a)->Ok_0 + files),
            Err(e) => Err::<Seq<FileView>, diff::DiffErrorView>(e),
        }),
{
    let first = diff::parsed(a)->Ok_0;
    let la = text::text_lines(a);
    let lb = text::text_lines(b);
    lemma_lines_joined(a, b);
    lemma_first_line(b);
    reveal_strlit("diff --git ");
    assert(lb[0].subrange(0, 11)[0] == 'd');
    assert(lb[0][0] == 'd');
    lemma_lines_then(la, lb, Seq::empty());
    let f = diff::new_file(lb[0].skip(11));
    let none = Seq::<FileView>::empty();
    assert(text::after_prefix(lb[0], "diff --git "@) == Some(lb[0].skip(11)));
    assert(first.push(f) =~= first + none.push(f));
    lemma_lines_after(lb.skip(1), first, none.push(f));
}

} // verus!
