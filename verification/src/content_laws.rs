//! What the contents of files are made of, line by line, for every choice of
//! lines, in commits and in the index.
use vstd::prelude::*;

use crate::diff::{DiffLine, FileDiff, FileKind, Hunk, LineKind};
use crate::model;
use crate::model::{PatchState, SpecView};

verus! {

// ---------------------------------------------------------------------------
// Any choice of lines.

/// An old line, or nothing past the end of the old content.
pub open spec fn old_at(old: Seq<Seq<u8>>, i: int) -> Seq<u8> {
    if 0 <= i < old.len() {
        old[i]
    } else {
        Seq::<u8>::empty()
    }
}

/// The bytes of a line that is added: its text, and a line feed unless it lacks
/// one.
pub open spec fn added_bytes(line: DiffLine) -> Seq<u8> {
    vstd::utf8::encode_utf8(line.content@) + if line.no_newline {
        Seq::<u8>::empty()
    } else {
        seq![10u8]
    }
}

/// What a line of a hunk gives to the new content, where `i` is the number of
/// old lines before it: a context line and a removal that is not picked give the
/// old line, a picked addition gives its text, and nothing else gives anything.
pub open spec fn piece(old: Seq<Seq<u8>>, line: DiffLine, i: int, picked: bool) -> Seq<u8> {
    match (line.kind, picked) {
        (LineKind::Context, _) => old_at(old, i),
        (LineKind::Del, false) => old_at(old, i),
        (LineKind::Del, true) => Seq::<u8>::empty(),
        (LineKind::Add, true) => added_bytes(line),
        (LineKind::Add, false) => Seq::<u8>::empty(),
    }
}

/// How many of the first `n` lines of a hunk stand for old lines.
pub open spec fn old_lines(lines: Seq<DiffLine>, n: int) -> int
    decreases n,
{
    if n <= 0 {
        0
    } else {
        old_lines(lines, n - 1) + if lines[n - 1].kind == LineKind::Add {
            0int
        } else {
            1int
        }
    }
}

/// The number of old lines that a hunk says stand before it, as far as there are
/// so many.
pub open spec fn place(old: Seq<Seq<u8>>, hunk: Hunk) -> int {
    let said = hunk.old_start - if hunk.old_count == 0 {
        0int
    } else {
        1int
    };
    if said < old.len() {
        said
    } else {
        old.len() as int
    }
}

/// The number of old lines that are done with after the first `n` hunks.
pub open spec fn old_done(old: Seq<Seq<u8>>, hunks: Seq<Hunk>, n: int) -> int
    decreases n, 0int,
{
    if n <= 0 {
        0
    } else {
        begins(old, hunks, n - 1) + old_lines(
            hunks[n - 1].lines@,
            hunks[n - 1].lines@.len() as int,
        )
    }
}

/// The number of old lines before the lines of hunk `h`.
pub open spec fn begins(old: Seq<Seq<u8>>, hunks: Seq<Hunk>, h: int) -> int
    decreases h, 1int,
{
    if h < 0 {
        0
    } else if old_done(old, hunks, h) < place(old, hunks[h]) {
        place(old, hunks[h])
    } else {
        old_done(old, hunks, h)
    }
}

/// The old lines from `i` up to `j`.
pub open spec fn copied(old: Seq<Seq<u8>>, i: int, j: int) -> Seq<u8>
    decreases j - i,
{
    if i >= j {
        Seq::<u8>::empty()
    } else {
        copied(old, i, j - 1) + old_at(old, j - 1)
    }
}

/// What the first `n` lines of a hunk give, one after the other, with `i` old
/// lines before them.
pub open spec fn hunk_text(
    old: Seq<Seq<u8>>,
    lines: Seq<DiffLine>,
    i: int,
    picked: spec_fn(int) -> bool,
    n: int,
) -> Seq<u8>
    decreases n,
{
    if n <= 0 {
        Seq::<u8>::empty()
    } else {
        hunk_text(old, lines, i, picked, n - 1) + piece(
            old,
            lines[n - 1],
            i + old_lines(lines, n - 1),
            picked(n - 1),
        )
    }
}

/// What the first `n` hunks give, with the old lines before and between them.
pub open spec fn hunks_text(
    old: Seq<Seq<u8>>,
    hunks: Seq<Hunk>,
    picked: spec_fn(int, int) -> bool,
    n: int,
) -> Seq<u8>
    decreases n,
{
    if n <= 0 {
        Seq::<u8>::empty()
    } else {
        hunks_text(old, hunks, picked, n - 1) + copied(
            old,
            old_done(old, hunks, n - 1),
            begins(old, hunks, n - 1),
        ) + hunk_text(
            old,
            hunks[n - 1].lines@,
            begins(old, hunks, n - 1),
            |l: int| picked(n - 1, l),
            hunks[n - 1].lines@.len() as int,
        )
    }
}

/// The content that a choice of lines makes of an old one: the old lines between
/// the hunks as they are, and in each hunk what each of its lines gives.
pub open spec fn content_of(
    old: Seq<Seq<u8>>,
    hunks: Seq<Hunk>,
    picked: spec_fn(int, int) -> bool,
) -> Seq<u8> {
    let n = hunks.len() as int;
    hunks_text(old, hunks, picked, n) + copied(old, old_done(old, hunks, n), old.len() as int)
}

proof fn lemma_flatten_push(parts: Seq<Seq<u8>>, last: Seq<u8>)
    ensures
        parts.push(last).flatten() == parts.flatten() + last,
{
    parts.lemma_flatten_push(last);
}

proof fn lemma_copied(old: Seq<Seq<u8>>, i: int, j: int)
    requires
        0 <= i <= j <= old.len(),
    ensures
        copied(old, i, j) == old.subrange(i, j).flatten(),
    decreases j - i,
{
    if i == j {
        assert(old.subrange(i, j) =~= Seq::<Seq<u8>>::empty());
        assert(old.subrange(i, j).flatten() =~= Seq::<u8>::empty());
    } else {
        lemma_copied(old, i, j - 1);
        assert(old.subrange(i, j) =~= old.subrange(i, j - 1).push(old[j - 1]));
        lemma_flatten_push(old.subrange(i, j - 1), old[j - 1]);
    }
}

proof fn lemma_line_bytes(line: DiffLine)
    ensures
        model::line_bytes(line) == added_bytes(line),
{
    assert(model::line_bytes(line) =~= added_bytes(line));
}

proof fn lemma_lines_patched(
    old: Seq<Seq<u8>>,
    st: PatchState,
    lines: Seq<DiffLine>,
    picked: Seq<bool>,
    choice: spec_fn(int) -> bool,
    n: int,
)
    requires
        0 <= st.cursor,
        0 <= n <= lines.len(),
        forall|l: int| 0 <= l < lines.len() ==> #[trigger] picked[l] == choice(l),
    ensures
        model::patch_lines(old, st, lines, picked, n).cursor == st.cursor + old_lines(lines, n),
        model::patch_lines(old, st, lines, picked, n).out == st.out + hunk_text(
            old,
            lines,
            st.cursor,
            choice,
            n,
        ),
        old_lines(lines, n) >= 0,
    decreases n,
{
    if n <= 0 {
        assert(st.out + Seq::<u8>::empty() =~= st.out);
    } else {
        lemma_lines_patched(old, st, lines, picked, choice, n - 1);
        let before = model::patch_lines(old, st, lines, picked, n - 1);
        let after = model::patch_lines(old, st, lines, picked, n);
        let line = lines[n - 1];
        lemma_line_bytes(line);
        assert(picked[n - 1] == choice(n - 1));
        let p = piece(old, line, st.cursor + old_lines(lines, n - 1), choice(n - 1));
        assert(after.out =~= before.out + p);
        let head = hunk_text(old, lines, st.cursor, choice, n - 1);
        assert(st.out + head + p =~= st.out + (head + p));
    }
}

proof fn lemma_kept_until(old: Seq<Seq<u8>>, st: PatchState, hunk: Hunk)
    requires
        0 <= st.cursor,
    ensures
        ({
            let after = model::kept_until(old, st, model::hunk_start(hunk));
            let at = if st.cursor < place(old, hunk) {
                place(old, hunk)
            } else {
                st.cursor
            };
            after.cursor == at && after.out == st.out + copied(old, st.cursor, at)
        }),
{
    let at = if st.cursor < place(old, hunk) {
        place(old, hunk)
    } else {
        st.cursor
    };
    if st.cursor < at {
        lemma_copied(old, st.cursor, at);
    } else {
        assert(st.out + copied(old, st.cursor, at) =~= st.out);
    }
}

proof fn lemma_hunks_patched(
    old: Seq<Seq<u8>>,
    hunks: Seq<Hunk>,
    picked: Seq<Seq<bool>>,
    choice: spec_fn(int, int) -> bool,
    n: int,
)
    requires
        0 <= n <= hunks.len(),
        forall|h: int, l: int|
            0 <= h < hunks.len() && 0 <= l < hunks[h].lines@.len() ==> #[trigger] picked[h][l]
                == choice(h, l),
    ensures
        model::patch_hunks(old, hunks, picked, n).cursor == old_done(old, hunks, n),
        model::patch_hunks(old, hunks, picked, n).out == hunks_text(old, hunks, choice, n),
        0 <= old_done(old, hunks, n),
    decreases n,
{
    if n > 0 {
        lemma_hunks_patched(old, hunks, picked, choice, n - 1);
        let st = model::patch_hunks(old, hunks, picked, n - 1);
        let hunk = hunks[n - 1];
        lemma_kept_until(old, st, hunk);
        let at = model::kept_until(old, st, model::hunk_start(hunk));
        let mine = |l: int| choice(n - 1, l);
        assert forall|l: int| 0 <= l < hunk.lines@.len() implies #[trigger] picked[n - 1][l]
            == mine(l) by {}
        lemma_lines_patched(
            old,
            at,
            hunk.lines@,
            picked[n - 1],
            mine,
            hunk.lines@.len() as int,
        );
    }
}

/// For every old content, all hunks and every choice of their lines, the content
/// is made of the old lines between the hunks and of what each line gives: each
/// line is decided on its own.
pub proof fn law_content_of_any_choice(
    base: Seq<u8>,
    hunks: Seq<Hunk>,
    picked: Seq<Seq<bool>>,
    choice: spec_fn(int, int) -> bool,
)
    requires
        forall|h: int, l: int|
            0 <= h < hunks.len() && 0 <= l < hunks[h].lines@.len() ==> #[trigger] picked[h][l]
                == choice(h, l),
    ensures
        model::patched(base, hunks, picked) == content_of(model::byte_lines(base), hunks, choice),
{
    let old = model::byte_lines(base);
    let n = hunks.len() as int;
    lemma_hunks_patched(old, hunks, picked, choice, n);
    let st = model::patch_hunks(old, hunks, picked, n);
    if st.cursor < old.len() {
        lemma_copied(old, st.cursor, old.len() as int);
    } else {
        assert(st.out + copied(old, st.cursor, old.len() as int) =~= st.out);
    }
}

/// The lines of a text are what its line feeds make of it: none is empty, a line
/// feed stands only at the end of a line, and only the last line may lack it.
pub proof fn law_lines_end_at_line_feeds(b: Seq<u8>, i: int, j: int)
    requires
        0 <= i < model::byte_lines(b).len(),
        0 <= j < model::byte_lines(b)[i].len(),
    ensures
        model::byte_lines(b)[i][j] == 10 ==> j == model::byte_lines(b)[i].len() - 1,
        i < model::byte_lines(b).len() - 1 ==> model::byte_lines(b)[i].last() == 10,
    decreases b.len(),
{
    let n = model::first_line_len(b) as int;
    model::lemma_first_line_len(b);
    lemma_first_line(b);
    let rest = model::byte_lines(b.skip(n));
    if i > 0 {
        assert(model::byte_lines(b)[i] == rest[i - 1]);
        law_lines_end_at_line_feeds(b.skip(n), i - 1, j);
    } else {
        assert(model::byte_lines(b)[0] == b.take(n));
        if rest.len() > 0 && n == b.len() {
            assert(b.skip(n) =~= Seq::<u8>::empty());
        }
    }
}

/// No line of a text is empty.
pub proof fn law_lines_are_not_empty(b: Seq<u8>, i: int)
    requires
        0 <= i < model::byte_lines(b).len(),
    ensures
        model::byte_lines(b)[i].len() > 0,
    decreases b.len(),
{
    let n = model::first_line_len(b) as int;
    model::lemma_first_line_len(b);
    if i > 0 {
        assert(model::byte_lines(b)[i] == model::byte_lines(b.skip(n))[i - 1]);
        law_lines_are_not_empty(b.skip(n), i - 1);
    }
}

proof fn lemma_first_line(b: Seq<u8>)
    ensures
        forall|j: int| 0 <= j < model::first_line_len(b) - 1 ==> b[j] != 10,
        0 < model::first_line_len(b) < b.len() ==> b[model::first_line_len(b) - 1] == 10,
    decreases b.len(),
{
    if b.len() > 0 && b[0] != 10 {
        lemma_first_line(b.skip(1));
        let n = model::first_line_len(b.skip(1));
        model::lemma_first_line_len(b.skip(1));
        assert forall|j: int| 0 <= j < n implies b[j] != 10 by {
            if j > 0 {
                assert(b[j] == b.skip(1)[j - 1]);
            }
        }
        if n > 0 {
            assert(b[n as int] == b.skip(1)[n - 1]);
        }
    }
}

proof fn lemma_same_hunk_text(
    old: Seq<Seq<u8>>,
    lines: Seq<DiffLine>,
    i: int,
    p: spec_fn(int) -> bool,
    q: spec_fn(int) -> bool,
    n: int,
)
    requires
        forall|l: int| 0 <= l < n ==> #[trigger] p(l) == q(l),
    ensures
        hunk_text(old, lines, i, p, n) == hunk_text(old, lines, i, q, n),
    decreases n,
{
    if n > 0 {
        lemma_same_hunk_text(old, lines, i, p, q, n - 1);
        assert(p(n - 1) == q(n - 1));
    }
}

proof fn lemma_same_hunks_text(
    old: Seq<Seq<u8>>,
    hunks: Seq<Hunk>,
    p: spec_fn(int, int) -> bool,
    q: spec_fn(int, int) -> bool,
    n: int,
)
    requires
        0 <= n <= hunks.len(),
        forall|i: int, j: int|
            0 <= i < n && 0 <= j < hunks[i].lines@.len() ==> #[trigger] p(i, j) == q(i, j),
    ensures
        hunks_text(old, hunks, p, n) == hunks_text(old, hunks, q, n),
    decreases n,
{
    if n > 0 {
        lemma_same_hunks_text(old, hunks, p, q, n - 1);
        let a = |l: int| p(n - 1, l);
        let b = |l: int| q(n - 1, l);
        assert forall|l: int| 0 <= l < hunks[n - 1].lines@.len() implies #[trigger] a(l)
            == b(l) by {
            assert(p(n - 1, l) == q(n - 1, l));
        }
        lemma_same_hunk_text(
            old,
            hunks[n - 1].lines@,
            begins(old, hunks, n - 1),
            a,
            b,
            hunks[n - 1].lines@.len() as int,
        );
    }
}

/// Choices that agree on all lines make the same content.
pub proof fn lemma_same_content(
    old: Seq<Seq<u8>>,
    hunks: Seq<Hunk>,
    p: spec_fn(int, int) -> bool,
    q: spec_fn(int, int) -> bool,
)
    requires
        forall|i: int, j: int|
            0 <= i < hunks.len() && 0 <= j < hunks[i].lines@.len() ==> #[trigger] p(i, j) == q(
                i,
                j,
            ),
    ensures
        content_of(old, hunks, p) == content_of(old, hunks, q),
{
    lemma_same_hunks_text(old, hunks, p, q, hunks.len() as int);
}

/// What follows line `l` of a hunk in what its first `n` lines give.
spec fn hunk_rest(
    old: Seq<Seq<u8>>,
    lines: Seq<DiffLine>,
    i: int,
    picked: spec_fn(int) -> bool,
    l: int,
    n: int,
) -> Seq<u8>
    decreases n - l,
{
    if n <= l + 1 {
        Seq::<u8>::empty()
    } else {
        hunk_rest(old, lines, i, picked, l, n - 1) + piece(
            old,
            lines[n - 1],
            i + old_lines(lines, n - 1),
            picked(n - 1),
        )
    }
}

proof fn lemma_around_line(
    old: Seq<Seq<u8>>,
    lines: Seq<DiffLine>,
    i: int,
    picked: spec_fn(int) -> bool,
    l: int,
    n: int,
)
    requires
        0 <= l < n,
    ensures
        hunk_text(old, lines, i, picked, n) == hunk_text(old, lines, i, picked, l) + piece(
            old,
            lines[l],
            i + old_lines(lines, l),
            picked(l),
        ) + hunk_rest(old, lines, i, picked, l, n),
    decreases n,
{
    let head = hunk_text(old, lines, i, picked, l) + piece(
        old,
        lines[l],
        i + old_lines(lines, l),
        picked(l),
    );
    if n == l + 1 {
        assert(head + Seq::<u8>::empty() =~= head);
    } else {
        lemma_around_line(old, lines, i, picked, l, n - 1);
        let rest = hunk_rest(old, lines, i, picked, l, n - 1);
        let p = piece(old, lines[n - 1], i + old_lines(lines, n - 1), picked(n - 1));
        assert(head + rest + p =~= head + (rest + p));
    }
}

proof fn lemma_same_rest(
    old: Seq<Seq<u8>>,
    lines: Seq<DiffLine>,
    i: int,
    p: spec_fn(int) -> bool,
    q: spec_fn(int) -> bool,
    l: int,
    n: int,
)
    requires
        forall|k: int| l < k < n ==> #[trigger] p(k) == q(k),
    ensures
        hunk_rest(old, lines, i, p, l, n) == hunk_rest(old, lines, i, q, l, n),
    decreases n - l,
{
    if n > l + 1 {
        lemma_same_rest(old, lines, i, p, q, l, n - 1);
        assert(p(n - 1) == q(n - 1));
    }
}

/// What follows hunk `h` in what the first `n` hunks give.
spec fn hunks_rest(
    old: Seq<Seq<u8>>,
    hunks: Seq<Hunk>,
    picked: spec_fn(int, int) -> bool,
    h: int,
    n: int,
) -> Seq<u8>
    decreases n - h,
{
    if n <= h + 1 {
        Seq::<u8>::empty()
    } else {
        hunks_rest(old, hunks, picked, h, n - 1) + copied(
            old,
            old_done(old, hunks, n - 1),
            begins(old, hunks, n - 1),
        ) + hunk_text(
            old,
            hunks[n - 1].lines@,
            begins(old, hunks, n - 1),
            |l: int| picked(n - 1, l),
            hunks[n - 1].lines@.len() as int,
        )
    }
}

proof fn lemma_around_hunk(
    old: Seq<Seq<u8>>,
    hunks: Seq<Hunk>,
    picked: spec_fn(int, int) -> bool,
    h: int,
    n: int,
)
    requires
        0 <= h < n,
    ensures
        hunks_text(old, hunks, picked, n) == hunks_text(old, hunks, picked, h + 1) + hunks_rest(
            old,
            hunks,
            picked,
            h,
            n,
        ),
    decreases n,
{
    let head = hunks_text(old, hunks, picked, h + 1);
    if n == h + 1 {
        assert(head + Seq::<u8>::empty() =~= head);
    } else {
        lemma_around_hunk(old, hunks, picked, h, n - 1);
        let rest = hunks_rest(old, hunks, picked, h, n - 1);
        let c = copied(old, old_done(old, hunks, n - 1), begins(old, hunks, n - 1));
        let t = hunk_text(
            old,
            hunks[n - 1].lines@,
            begins(old, hunks, n - 1),
            |l: int| picked(n - 1, l),
            hunks[n - 1].lines@.len() as int,
        );
        assert(head + rest + c + t =~= head + (rest + c + t));
    }
}

proof fn lemma_same_hunks_rest(
    old: Seq<Seq<u8>>,
    hunks: Seq<Hunk>,
    p: spec_fn(int, int) -> bool,
    q: spec_fn(int, int) -> bool,
    h: int,
    n: int,
)
    requires
        forall|i: int, j: int|
            h < i < n && 0 <= j < hunks[i].lines@.len() ==> #[trigger] p(i, j) == q(i, j),
    ensures
        hunks_rest(old, hunks, p, h, n) == hunks_rest(old, hunks, q, h, n),
    decreases n - h,
{
    if n > h + 1 {
        lemma_same_hunks_rest(old, hunks, p, q, h, n - 1);
        let a = |l: int| p(n - 1, l);
        let b = |l: int| q(n - 1, l);
        assert forall|l: int| 0 <= l < hunks[n - 1].lines@.len() implies #[trigger] a(l)
            == b(l) by {
            assert(p(n - 1, l) == q(n - 1, l));
        }
        lemma_same_hunk_text(
            old,
            hunks[n - 1].lines@,
            begins(old, hunks, n - 1),
            a,
            b,
            hunks[n - 1].lines@.len() as int,
        );
    }
}

/// What stands before line `l` of hunk `h` in the content of a choice.
spec fn before_line(
    old: Seq<Seq<u8>>,
    hunks: Seq<Hunk>,
    picked: spec_fn(int, int) -> bool,
    h: int,
    l: int,
) -> Seq<u8> {
    hunks_text(old, hunks, picked, h) + copied(
        old,
        old_done(old, hunks, h),
        begins(old, hunks, h),
    ) + hunk_text(old, hunks[h].lines@, begins(old, hunks, h), |l: int| picked(h, l), l)
}

/// What stands after line `l` of hunk `h` in the content of a choice.
spec fn after_line(
    old: Seq<Seq<u8>>,
    hunks: Seq<Hunk>,
    picked: spec_fn(int, int) -> bool,
    h: int,
    l: int,
) -> Seq<u8> {
    hunk_rest(
        old,
        hunks[h].lines@,
        begins(old, hunks, h),
        |l: int| picked(h, l),
        l,
        hunks[h].lines@.len() as int,
    ) + hunks_rest(old, hunks, picked, h, hunks.len() as int) + copied(
        old,
        old_done(old, hunks, hunks.len() as int),
        old.len() as int,
    )
}

proof fn lemma_around(
    old: Seq<Seq<u8>>,
    hunks: Seq<Hunk>,
    picked: spec_fn(int, int) -> bool,
    h: int,
    l: int,
)
    requires
        0 <= h < hunks.len(),
        0 <= l < hunks[h].lines@.len(),
    ensures
        content_of(old, hunks, picked) == before_line(old, hunks, picked, h, l) + piece(
            old,
            hunks[h].lines@[l],
            begins(old, hunks, h) + old_lines(hunks[h].lines@, l),
            picked(h, l),
        ) + after_line(old, hunks, picked, h, l),
{
    let n = hunks.len() as int;
    let lines = hunks[h].lines@;
    let start = begins(old, hunks, h);
    let a = |l: int| picked(h, l);
    lemma_around_hunk(old, hunks, picked, h, n);
    lemma_around_line(old, lines, start, a, l, lines.len() as int);
    let front = hunks_text(old, hunks, picked, h) + copied(old, old_done(old, hunks, h), start);
    let head = hunk_text(old, lines, start, a, l);
    let p = piece(old, lines[l], start + old_lines(lines, l), picked(h, l));
    let rest = hunk_rest(old, lines, start, a, l, lines.len() as int);
    let back = hunks_rest(old, hunks, picked, h, n);
    let end = copied(old, old_done(old, hunks, n), old.len() as int);
    assert(hunks_text(old, hunks, picked, h + 1) == front + (head + p + rest));
    assert(front + (head + p + rest) + back + end =~= (front + head) + p + (rest + back + end));
}

proof fn lemma_same_around(
    old: Seq<Seq<u8>>,
    hunks: Seq<Hunk>,
    p: spec_fn(int, int) -> bool,
    q: spec_fn(int, int) -> bool,
    h: int,
    l: int,
)
    requires
        0 <= h < hunks.len(),
        0 <= l < hunks[h].lines@.len(),
        forall|i: int, j: int|
            0 <= i < hunks.len() && 0 <= j < hunks[i].lines@.len() && (i != h || j != l)
                ==> #[trigger] p(i, j) == q(i, j),
    ensures
        before_line(old, hunks, p, h, l) == before_line(old, hunks, q, h, l),
        after_line(old, hunks, p, h, l) == after_line(old, hunks, q, h, l),
{
    let n = hunks.len() as int;
    let lines = hunks[h].lines@;
    let m = lines.len() as int;
    let start = begins(old, hunks, h);
    let a = |l: int| p(h, l);
    let b = |l: int| q(h, l);
    lemma_same_hunks_text(old, hunks, p, q, h);
    lemma_same_hunks_rest(old, hunks, p, q, h, n);
    assert forall|k: int| 0 <= k < m && k != l implies #[trigger] a(k) == b(k) by {
        assert(p(h, k) == q(h, k));
    }
    lemma_same_hunk_text(old, lines, start, a, b, l);
    lemma_same_rest(old, lines, start, a, b, l, m);
}

/// Picking one line more, or one less, changes the content by exactly that line:
/// a removal takes its old line out, an addition puts its text in, a context
/// line changes nothing, and everything before and after it stays as it is.
pub proof fn law_one_line_changes_one_line(
    base: Seq<u8>,
    hunks: Seq<Hunk>,
    without: Seq<Seq<bool>>,
    with: Seq<Seq<bool>>,
    h: int,
    l: int,
) -> (around: (Seq<u8>, Seq<u8>))
    requires
        0 <= h < hunks.len(),
        0 <= l < hunks[h].lines@.len(),
        !without[h][l],
        with[h][l],
        forall|i: int, j: int|
            #![trigger without[i][j]]
            #![trigger with[i][j]]
            0 <= i < hunks.len() && 0 <= j < hunks[i].lines@.len() && (i != h || j != l)
                ==> without[i][j] == with[i][j],
    ensures
        ({
            let old = model::byte_lines(base);
            let line = hunks[h].lines@[l];
            let i = begins(old, hunks, h) + old_lines(hunks[h].lines@, l);
            let (x, y) = around;
            match line.kind {
                LineKind::Add => {
                    &&& model::patched(base, hunks, without) == x + y
                    &&& model::patched(base, hunks, with) == x + added_bytes(line) + y
                },
                LineKind::Del => {
                    &&& model::patched(base, hunks, without) == x + old_at(old, i) + y
                    &&& model::patched(base, hunks, with) == x + y
                },
                LineKind::Context => model::patched(base, hunks, without) == model::patched(
                    base,
                    hunks,
                    with,
                ),
            }
        }),
{
    let old = model::byte_lines(base);
    let p = |i: int, j: int| without[i][j];
    let q = |i: int, j: int| with[i][j];
    law_content_of_any_choice(base, hunks, without, p);
    law_content_of_any_choice(base, hunks, with, q);
    assert forall|i: int, j: int|
        0 <= i < hunks.len() && 0 <= j < hunks[i].lines@.len() && (i != h || j
            != l) implies #[trigger] p(i, j) == q(i, j) by {
        assert(without[i][j] == with[i][j]);
    }
    lemma_around(old, hunks, p, h, l);
    lemma_around(old, hunks, q, h, l);
    lemma_same_around(old, hunks, p, q, h, l);
    let x = before_line(old, hunks, p, h, l);
    let y = after_line(old, hunks, p, h, l);
    assert(x + Seq::<u8>::empty() + y =~= x + y);
    (x, y)
}

// ---------------------------------------------------------------------------
// The commits of a plan.

/// Whether a commit has a line of a file.
pub open spec fn has_line(rows: Seq<Seq<Option<usize>>>, ci: int) -> bool {
    exists|h: int, l: int|
        0 <= h < rows.len() && 0 <= l < rows[h].len() && #[trigger] rows[h][l] == Some(ci as usize)
}

/// How many of the first `n` files a commit has lines of.
pub open spec fn files_with(assign: Seq<Seq<Seq<Option<usize>>>>, ci: int, n: int) -> int
    decreases n,
{
    if n <= 0 {
        0
    } else {
        files_with(assign, ci, n - 1) + if has_line(assign[n - 1], ci) {
            1int
        } else {
            0int
        }
    }
}

/// How many of the first `n` commits have lines of the first `m` files.
pub open spec fn commits_with(assign: Seq<Seq<Seq<Option<usize>>>>, m: int, n: int) -> int
    decreases n,
{
    if n <= 0 {
        0
    } else {
        commits_with(assign, m, n - 1) + if files_with(assign, n - 1, m) > 0 {
            1int
        } else {
            0int
        }
    }
}

/// Whether a line is in the content of commit `ci`: it is assigned to this commit
/// or to an earlier one on the same branch.
pub open spec fn made_by(commits: Seq<SpecView>, ci: int, a: Option<usize>) -> bool {
    a matches Some(k) && k <= ci && commits[k as int].branch == commits[ci].branch
}

/// The old content of a file, empty when none is known.
pub open spec fn old_content(bases: Map<Seq<char>, Vec<u8>>, path: Seq<char>) -> Seq<Seq<u8>> {
    model::byte_lines(
        if bases.dom().contains(path) {
            bases[path]@
        } else {
            Seq::<u8>::empty()
        },
    )
}

/// What commit `ci` leaves of a file: nothing of a deleted file all of whose
/// changes are made by then, else the old content with exactly the changes that
/// are made by then.
pub open spec fn content_in_commit(
    file: FileDiff,
    rows: Seq<Seq<Option<usize>>>,
    bases: Map<Seq<char>, Vec<u8>>,
    commits: Seq<SpecView>,
    ci: int,
) -> Option<Seq<u8>> {
    if file.kind == FileKind::Deleted && (forall|h: int, l: int|
        0 <= h < file.hunks@.len() && 0 <= l < file.hunks@[h].lines@.len()
            && file.hunks@[h].lines@[l].kind != LineKind::Context ==> made_by(
            commits,
            ci,
            #[trigger] rows[h][l],
        )) {
        None
    } else {
        Some(
            content_of(
                old_content(bases, file.path@),
                file.hunks@,
                |h: int, l: int| made_by(commits, ci, rows[h][l]),
            ),
        )
    }
}

proof fn lemma_change_content(
    file: FileDiff,
    rows: Seq<Seq<Option<usize>>>,
    bases: Map<Seq<char>, Vec<u8>>,
    commits: Seq<SpecView>,
    ci: int,
)
    ensures
        ({
            let c = model::planned_change(file, rows, bases, commits, ci);
            &&& c.path == file.path@
            &&& c.mode == file.mode@
            &&& c.content == content_in_commit(file, rows, bases, commits, ci)
        }),
{
    let hunks = file.hunks@;
    let picked = model::belonging(commits, ci, hunks, rows);
    let choice = |h: int, l: int| made_by(commits, ci, rows[h][l]);
    assert forall|h: int, l: int|
        0 <= h < hunks.len() && 0 <= l < hunks[h].lines@.len() implies #[trigger] picked[h][l]
        == choice(h, l) by {}
    law_content_of_any_choice(model::base_of(bases, file.path@), hunks, picked, choice);
    assert(model::all_changes(hunks, picked) <==> forall|h: int, l: int|
        0 <= h < hunks.len() && 0 <= l < hunks[h].lines@.len() && hunks[h].lines@[l].kind
            != LineKind::Context ==> made_by(commits, ci, #[trigger] rows[h][l])) by {
        if model::all_changes(hunks, picked) {
            assert forall|h: int, l: int|
                0 <= h < hunks.len() && 0 <= l < hunks[h].lines@.len()
                    && hunks[h].lines@[l].kind != LineKind::Context implies made_by(
                commits,
                ci,
                #[trigger] rows[h][l],
            ) by {
                assert(hunks[h].lines@[l].change());
                assert(picked[h][l]);
            }
        } else {
            let (h, l) = choose|h: int, l: int|
                0 <= h < hunks.len() && 0 <= l < hunks[h].lines@.len()
                    && hunks[h].lines@[l].change() && !(#[trigger] picked[h][l]);
            assert(!made_by(commits, ci, rows[h][l]));
        }
    }
}

proof fn lemma_changes_counted(
    files: Seq<FileDiff>,
    assign: Seq<Seq<Seq<Option<usize>>>>,
    bases: Map<Seq<char>, Vec<u8>>,
    commits: Seq<SpecView>,
    ci: int,
    n: int,
)
    ensures
        model::planned_changes(files, assign, bases, commits, ci, n).len() == files_with(
            assign,
            ci,
            n,
        ),
        files_with(assign, ci, n) >= 0,
        forall|f: int|
            0 <= f < n && #[trigger] has_line(assign[f], ci) ==> 0 <= files_with(assign, ci, f)
                < files_with(assign, ci, n) && model::planned_changes(
                files,
                assign,
                bases,
                commits,
                ci,
                n,
            )[files_with(assign, ci, f)] == model::planned_change(
                files[f],
                assign[f],
                bases,
                commits,
                ci,
            ),
    decreases n,
{
    if n > 0 {
        lemma_changes_counted(files, assign, bases, commits, ci, n - 1);
        assert(model::touched(assign[n - 1], ci) == has_line(assign[n - 1], ci));
    }
}

proof fn lemma_commits_counted(
    files: Seq<FileDiff>,
    assign: Seq<Seq<Seq<Option<usize>>>>,
    bases: Map<Seq<char>, Vec<u8>>,
    commits: Seq<SpecView>,
    n: int,
    ci: int,
)
    ensures
        model::planned_commits(files, assign, bases, commits, n).len() == commits_with(
            assign,
            files.len() as int,
            n,
        ),
        commits_with(assign, files.len() as int, n) >= 0,
        0 <= ci < n && files_with(assign, ci, files.len() as int) > 0 ==> {
            let p = commits_with(assign, files.len() as int, ci);
            let plan = model::planned_commits(files, assign, bases, commits, n);
            &&& 0 <= p < plan.len()
            &&& plan[p].message == commits[ci].message
            &&& plan[p].branch == commits[ci].branch
            &&& plan[p].files == model::planned_changes(
                files,
                assign,
                bases,
                commits,
                ci,
                files.len() as int,
            )
        },
    decreases n,
{
    if n > 0 {
        lemma_commits_counted(files, assign, bases, commits, n - 1, ci);
        lemma_changes_counted(files, assign, bases, commits, n - 1, files.len() as int);
    }
}

/// The plan has one commit for each commit that has lines, in their order, with
/// its message and branch; it lists the files that the commit has lines of, in
/// their order, and gives each of them, whatever its kind, the old content with
/// exactly the changes that were made on the branch by then.
pub proof fn law_commit_has_the_changes_made_by_then(
    files: Seq<FileDiff>,
    assign: Seq<Seq<Seq<Option<usize>>>>,
    bases: Map<Seq<char>, Vec<u8>>,
    commits: Seq<SpecView>,
    ci: int,
    f: int,
)
    requires
        0 <= ci < commits.len(),
        0 <= f < files.len(),
        has_line(assign[f], ci),
    ensures
        ({
            let m = files.len() as int;
            let plan = model::planned_commits(
                files,
                assign,
                bases,
                commits,
                commits.len() as int,
            );
            let p = commits_with(assign, m, ci);
            let k = files_with(assign, ci, f);
            &&& plan.len() == commits_with(assign, m, commits.len() as int)
            &&& 0 <= p < plan.len()
            &&& plan[p].message == commits[ci].message
            &&& plan[p].branch == commits[ci].branch
            &&& plan[p].files.len() == files_with(assign, ci, m)
            &&& 0 <= k < plan[p].files.len()
            &&& plan[p].files[k].path == files[f].path@
            &&& plan[p].files[k].mode == files[f].mode@
            &&& plan[p].files[k].content == content_in_commit(
                files[f],
                assign[f],
                bases,
                commits,
                ci,
            )
        }),
{
    let m = files.len() as int;
    lemma_changes_counted(files, assign, bases, commits, ci, m);
    lemma_commits_counted(files, assign, bases, commits, commits.len() as int, ci);
    lemma_change_content(files[f], assign[f], bases, commits, ci);
}

/// Lines of later commits, of other branches, and lines that are not assigned do
/// not change what a commit does to a file: assignments that agree on the lines
/// of this commit and of those before it on its branch give the same content.
pub proof fn law_other_lines_do_not_matter(
    files: Seq<FileDiff>,
    a: Seq<Seq<Seq<Option<usize>>>>,
    b: Seq<Seq<Seq<Option<usize>>>>,
    bases: Map<Seq<char>, Vec<u8>>,
    commits: Seq<SpecView>,
    ci: int,
    f: int,
)
    requires
        0 <= ci < commits.len(),
        0 <= f < files.len(),
        has_line(a[f], ci),
        has_line(b[f], ci),
        forall|h: int, l: int|
            #![trigger a[f][h][l]]
            #![trigger b[f][h][l]]
            0 <= h < files[f].hunks@.len() && 0 <= l < files[f].hunks@[h].lines@.len() ==> made_by(
                commits,
                ci,
                a[f][h][l],
            ) == made_by(commits, ci, b[f][h][l]),
    ensures
        ({
            let m = files.len() as int;
            let n = commits.len() as int;
            let x = model::planned_commits(files, a, bases, commits, n);
            let y = model::planned_commits(files, b, bases, commits, n);
            x[commits_with(a, m, ci)].files[files_with(a, ci, f)].content == y[commits_with(
                b,
                m,
                ci,
            )].files[files_with(b, ci, f)].content
        }),
{
    law_commit_has_the_changes_made_by_then(files, a, bases, commits, ci, f);
    law_commit_has_the_changes_made_by_then(files, b, bases, commits, ci, f);
    let hunks = files[f].hunks@;
    let x = a[f];
    let y = b[f];
    assert forall|h: int, l: int|
        0 <= h < hunks.len() && 0 <= l < hunks[h].lines@.len() implies made_by(
        commits,
        ci,
        #[trigger] x[h][l],
    ) == made_by(commits, ci, y[h][l]) by {
        assert(made_by(commits, ci, a[f][h][l]) == made_by(commits, ci, b[f][h][l]));
    }
    assert forall|h: int, l: int|
        0 <= h < hunks.len() && 0 <= l < hunks[h].lines@.len() implies made_by(
        commits,
        ci,
        x[h][l],
    ) == made_by(commits, ci, #[trigger] y[h][l]) by {
        assert(made_by(commits, ci, a[f][h][l]) == made_by(commits, ci, b[f][h][l]));
    }
    let p = |h: int, l: int| made_by(commits, ci, x[h][l]);
    let q = |h: int, l: int| made_by(commits, ci, y[h][l]);
    lemma_same_content(old_content(bases, files[f].path@), hunks, p, q);
}

/// The bytes of the picked lines of the first `n` lines of a hunk.
pub open spec fn picked_bytes(lines: Seq<DiffLine>, picked: spec_fn(int) -> bool, n: int) -> Seq<
    u8,
>
    decreases n,
{
    if n <= 0 {
        Seq::<u8>::empty()
    } else {
        picked_bytes(lines, picked, n - 1) + if picked(n - 1) {
            added_bytes(lines[n - 1])
        } else {
            Seq::<u8>::empty()
        }
    }
}

proof fn lemma_added_text(
    lines: Seq<DiffLine>,
    i: int,
    picked: spec_fn(int) -> bool,
    n: int,
)
    requires
        0 <= n <= lines.len(),
        forall|l: int| 0 <= l < lines.len() ==> (#[trigger] lines[l]).kind == LineKind::Add,
    ensures
        hunk_text(Seq::<Seq<u8>>::empty(), lines, i, picked, n) == picked_bytes(lines, picked, n),
        old_lines(lines, n) == 0,
    decreases n,
{
    if n > 0 {
        lemma_added_text(lines, i, picked, n - 1);
        assert(lines[n - 1].kind == LineKind::Add);
    }
}

/// The content of a new file is nothing but the text of its lines that are
/// picked, one after the other.
pub proof fn law_new_file_has_its_picked_lines(
    lines: Seq<DiffLine>,
    hunk: Hunk,
    picked: spec_fn(int, int) -> bool,
)
    requires
        hunk.lines@ == lines,
        forall|l: int| 0 <= l < lines.len() ==> (#[trigger] lines[l]).kind == LineKind::Add,
    ensures
        content_of(Seq::<Seq<u8>>::empty(), seq![hunk], picked) == picked_bytes(
            lines,
            |l: int| picked(0, l),
            lines.len() as int,
        ),
{
    let old = Seq::<Seq<u8>>::empty();
    let hunks = seq![hunk];
    let n = lines.len() as int;
    let a = |l: int| picked(0, l);
    assert(old_done(old, hunks, 0) == 0);
    let s = begins(old, hunks, 0);
    assert(s == 0);
    lemma_added_text(lines, s, a, n);
    assert(hunks_text(old, hunks, picked, 0) =~= Seq::<u8>::empty());
    assert(old_done(old, hunks, 1) == 0);
    assert(copied(old, 0, 0) =~= Seq::<u8>::empty());
    assert(content_of(old, hunks, picked) =~= picked_bytes(lines, a, n));
}

// ---------------------------------------------------------------------------
// What stays in the index.

/// Whether a line goes to another branch.
pub open spec fn goes_elsewhere(commits: Seq<SpecView>, a: Option<usize>) -> bool {
    a matches Some(k) && commits[k as int].branch is Some
}

/// Whether a line of a file goes to another branch.
pub open spec fn some_go(commits: Seq<SpecView>, rows: Seq<Seq<Option<usize>>>) -> bool {
    exists|h: int, l: int|
        0 <= h < rows.len() && 0 <= l < rows[h].len() && goes_elsewhere(
            commits,
            #[trigger] rows[h][l],
        )
}

/// How many of the first `n` files have lines that go to other branches.
pub open spec fn files_going(
    commits: Seq<SpecView>,
    assign: Seq<Seq<Seq<Option<usize>>>>,
    n: int,
) -> int
    decreases n,
{
    if n <= 0 {
        0
    } else {
        files_going(commits, assign, n - 1) + if some_go(commits, assign[n - 1]) {
            1int
        } else {
            0int
        }
    }
}

/// What stays staged of a file: nothing of a new file all of whose changes go to
/// other branches, else the old content with exactly the changes that do not.
pub open spec fn content_in_index(
    file: FileDiff,
    rows: Seq<Seq<Option<usize>>>,
    bases: Map<Seq<char>, Vec<u8>>,
    commits: Seq<SpecView>,
) -> Option<Seq<u8>> {
    if file.kind == FileKind::Added && (forall|h: int, l: int|
        0 <= h < file.hunks@.len() && 0 <= l < file.hunks@[h].lines@.len()
            && file.hunks@[h].lines@[l].kind != LineKind::Context ==> goes_elsewhere(
            commits,
            #[trigger] rows[h][l],
        )) {
        None
    } else {
        Some(
            content_of(
                old_content(bases, file.path@),
                file.hunks@,
                |h: int, l: int| !goes_elsewhere(commits, rows[h][l]),
            ),
        )
    }
}

/// What is staged of a file: nothing of a deleted one, else the old content with
/// all changes.
pub open spec fn content_staged(file: FileDiff, bases: Map<Seq<char>, Vec<u8>>) -> Option<
    Seq<u8>,
> {
    if file.kind == FileKind::Deleted {
        None
    } else {
        Some(
            content_of(
                old_content(bases, file.path@),
                file.hunks@,
                |h: int, l: int| true,
            ),
        )
    }
}

proof fn lemma_update_content(
    file: FileDiff,
    rows: Seq<Seq<Option<usize>>>,
    bases: Map<Seq<char>, Vec<u8>>,
    commits: Seq<SpecView>,
)
    ensures
        ({
            let u = model::index_update(file, rows, bases, commits);
            &&& u.path == file.path@
            &&& u.mode == file.mode@
            &&& u.content == content_in_index(file, rows, bases, commits)
            &&& u.staged == content_staged(file, bases)
        }),
{
    let hunks = file.hunks@;
    let base = model::base_of(bases, file.path@);
    let stay = model::staying(commits, hunks, rows);
    let choice = |h: int, l: int| !goes_elsewhere(commits, rows[h][l]);
    assert forall|h: int, l: int|
        0 <= h < hunks.len() && 0 <= l < hunks[h].lines@.len() implies #[trigger] stay[h][l]
        == choice(h, l) by {}
    law_content_of_any_choice(base, hunks, stay, choice);
    let all = model::all_lines(hunks);
    let always = |h: int, l: int| true;
    assert forall|h: int, l: int|
        0 <= h < hunks.len() && 0 <= l < hunks[h].lines@.len() implies #[trigger] all[h][l]
        == always(h, l) by {}
    law_content_of_any_choice(base, hunks, all, always);
    assert(!model::change_stays(commits, hunks, rows) <==> forall|h: int, l: int|
        0 <= h < hunks.len() && 0 <= l < hunks[h].lines@.len() && hunks[h].lines@[l].kind
            != LineKind::Context ==> goes_elsewhere(commits, #[trigger] rows[h][l])) by {
        if !model::change_stays(commits, hunks, rows) {
            assert forall|h: int, l: int|
                0 <= h < hunks.len() && 0 <= l < hunks[h].lines@.len()
                    && hunks[h].lines@[l].kind != LineKind::Context implies goes_elsewhere(
                commits,
                #[trigger] rows[h][l],
            ) by {
                assert(hunks[h].lines@[l].change());
                assert(!model::stays(commits, rows[h][l]));
            }
        } else {
            let (h, l) = choose|h: int, l: int|
                0 <= h < hunks.len() && 0 <= l < hunks[h].lines@.len()
                    && hunks[h].lines@[l].change() && model::stays(
                    commits,
                    #[trigger] rows[h][l],
                );
            assert(!goes_elsewhere(commits, rows[h][l]));
        }
    }
}

proof fn lemma_updates_counted(
    files: Seq<FileDiff>,
    assign: Seq<Seq<Seq<Option<usize>>>>,
    bases: Map<Seq<char>, Vec<u8>>,
    commits: Seq<SpecView>,
    n: int,
)
    ensures
        model::planned_updates(files, assign, bases, commits, n).len() == files_going(
            commits,
            assign,
            n,
        ),
        files_going(commits, assign, n) >= 0,
        forall|f: int|
            0 <= f < n && #[trigger] some_go(commits, assign[f]) ==> 0 <= files_going(
                commits,
                assign,
                f,
            ) < files_going(commits, assign, n) && model::planned_updates(
                files,
                assign,
                bases,
                commits,
                n,
            )[files_going(commits, assign, f)] == model::index_update(
                files[f],
                assign[f],
                bases,
                commits,
            ),
    decreases n,
{
    if n > 0 {
        lemma_updates_counted(files, assign, bases, commits, n - 1);
        let rows = assign[n - 1];
        if model::branched(commits, rows) {
            let (h, l) = choose|h: int, l: int|
                0 <= h < rows.len() && 0 <= l < rows[h].len() && !model::stays(
                    commits,
                    #[trigger] rows[h][l],
                );
            assert(goes_elsewhere(commits, rows[h][l]));
        }
        if some_go(commits, rows) {
            let (h, l) = choose|h: int, l: int|
                0 <= h < rows.len() && 0 <= l < rows[h].len() && goes_elsewhere(
                    commits,
                    #[trigger] rows[h][l],
                );
            assert(!model::stays(commits, rows[h][l]));
        }
    }
}

/// The index is updated for exactly the files of which lines go to other
/// branches, in their order: what stays staged of each, whatever its kind, is the
/// old content with exactly the changes that do not go elsewhere.
pub proof fn law_index_keeps_the_other_changes(
    files: Seq<FileDiff>,
    assign: Seq<Seq<Seq<Option<usize>>>>,
    bases: Map<Seq<char>, Vec<u8>>,
    commits: Seq<SpecView>,
    f: int,
)
    requires
        0 <= f < files.len(),
        some_go(commits, assign[f]),
    ensures
        ({
            let m = files.len() as int;
            let updates = model::planned_updates(files, assign, bases, commits, m);
            let k = files_going(commits, assign, f);
            &&& updates.len() == files_going(commits, assign, m)
            &&& 0 <= k < updates.len()
            &&& updates[k].path == files[f].path@
            &&& updates[k].mode == files[f].mode@
            &&& updates[k].content == content_in_index(files[f], assign[f], bases, commits)
            &&& updates[k].staged == content_staged(files[f], bases)
        }),
{
    lemma_updates_counted(files, assign, bases, commits, files.len() as int);
    lemma_update_content(files[f], assign[f], bases, commits);
}

/// The index is not updated for other files: there are as many updates as files
/// of which lines go to other branches.
pub proof fn law_index_is_updated_once_for_each_file(
    files: Seq<FileDiff>,
    assign: Seq<Seq<Seq<Option<usize>>>>,
    bases: Map<Seq<char>, Vec<u8>>,
    commits: Seq<SpecView>,
)
    ensures
        model::planned_updates(files, assign, bases, commits, files.len() as int).len()
            == files_going(commits, assign, files.len() as int),
        model::planned_commits(files, assign, bases, commits, commits.len() as int).len()
            == commits_with(assign, files.len() as int, commits.len() as int),
{
    lemma_updates_counted(files, assign, bases, commits, files.len() as int);
    lemma_commits_counted(files, assign, bases, commits, commits.len() as int, 0);
}

// ---------------------------------------------------------------------------
// New files.

/// Whether a file is new and consists of one hunk of added lines.
pub open spec fn all_new(file: FileDiff, bases: Map<Seq<char>, Vec<u8>>, hunk: Hunk) -> bool {
    &&& file.kind == FileKind::Added
    &&& file.hunks@ == seq![hunk]
    &&& !bases.dom().contains(file.path@)
    &&& forall|l: int|
        0 <= l < hunk.lines@.len() ==> (#[trigger] hunk.lines@[l]).kind == LineKind::Add
}

/// The content of a new file in a commit is the text of those of its lines that
/// the commit has, or a commit before it on the same branch: one after the other,
/// and nothing else.
pub proof fn law_new_file_in_a_commit(
    files: Seq<FileDiff>,
    assign: Seq<Seq<Seq<Option<usize>>>>,
    bases: Map<Seq<char>, Vec<u8>>,
    commits: Seq<SpecView>,
    ci: int,
    f: int,
    hunk: Hunk,
)
    requires
        0 <= ci < commits.len(),
        0 <= f < files.len(),
        has_line(assign[f], ci),
        all_new(files[f], bases, hunk),
    ensures
        model::planned_commits(files, assign, bases, commits, commits.len() as int)[commits_with(
            assign,
            files.len() as int,
            ci,
        )].files[files_with(assign, ci, f)].content == Some(
            picked_bytes(
                hunk.lines@,
                |l: int| made_by(commits, ci, assign[f][0][l]),
                hunk.lines@.len() as int,
            ),
        ),
{
    law_commit_has_the_changes_made_by_then(files, assign, bases, commits, ci, f);
    let rows = assign[f];
    let picked = |h: int, l: int| made_by(commits, ci, rows[h][l]);
    assert(model::byte_lines(Seq::<u8>::empty()) =~= Seq::<Seq<u8>>::empty());
    law_new_file_has_its_picked_lines(hunk.lines@, hunk, picked);
    lemma_same_bytes(
        hunk.lines@,
        |l: int| picked(0, l),
        |l: int| made_by(commits, ci, assign[f][0][l]),
        hunk.lines@.len() as int,
    );
}

/// What stays staged of a new file of which lines go to other branches, and some
/// do not, is the text of those that do not: one after the other, and nothing else.
pub proof fn law_new_file_in_the_index(
    files: Seq<FileDiff>,
    assign: Seq<Seq<Seq<Option<usize>>>>,
    bases: Map<Seq<char>, Vec<u8>>,
    commits: Seq<SpecView>,
    f: int,
    hunk: Hunk,
    stays: int,
)
    requires
        0 <= f < files.len(),
        some_go(commits, assign[f]),
        all_new(files[f], bases, hunk),
        0 <= stays < hunk.lines@.len(),
        !goes_elsewhere(commits, assign[f][0][stays]),
    ensures
        model::planned_updates(files, assign, bases, commits, files.len() as int)[files_going(
            commits,
            assign,
            f,
        )].content == Some(
            picked_bytes(
                hunk.lines@,
                |l: int| !goes_elsewhere(commits, assign[f][0][l]),
                hunk.lines@.len() as int,
            ),
        ),
{
    law_index_keeps_the_other_changes(files, assign, bases, commits, f);
    let rows = assign[f];
    let picked = |h: int, l: int| !goes_elsewhere(commits, rows[h][l]);
    assert(files[f].hunks@[0].lines@[stays].kind != LineKind::Context);
    assert(!goes_elsewhere(commits, rows[0][stays]));
    assert(model::byte_lines(Seq::<u8>::empty()) =~= Seq::<Seq<u8>>::empty());
    law_new_file_has_its_picked_lines(hunk.lines@, hunk, picked);
    lemma_same_bytes(
        hunk.lines@,
        |l: int| picked(0, l),
        |l: int| !goes_elsewhere(commits, assign[f][0][l]),
        hunk.lines@.len() as int,
    );
}

proof fn lemma_same_bytes(
    lines: Seq<DiffLine>,
    p: spec_fn(int) -> bool,
    q: spec_fn(int) -> bool,
    n: int,
)
    requires
        forall|l: int| #[trigger] p(l) == q(l),
    ensures
        picked_bytes(lines, p, n) == picked_bytes(lines, q, n),
    decreases n,
{
    if n > 0 {
        lemma_same_bytes(lines, p, q, n - 1);
        assert(p(n - 1) == q(n - 1));
    }
}

// ---------------------------------------------------------------------------
// Lines that are wanted by their commit.

/// When it is asked of each commit whether its lines are wanted, and the answer is
/// always the same, the content is the old one with exactly the changes of the
/// commits that are wanted: a line without a commit is not.
pub proof fn law_wanted_commits_decide<F: Fn(usize) -> bool>(
    base: Seq<u8>,
    hunks: Seq<Hunk>,
    rows: Seq<Seq<Option<usize>>>,
    wanted: F,
    answer: spec_fn(usize) -> bool,
    picked: Seq<Seq<bool>>,
)
    requires
        model::decided(wanted, rows, hunks, picked),
        forall|k: usize, b: bool| #[trigger]
            call_ensures(wanted, (k,), b) ==> b == answer(k),
    ensures
        model::patched(base, hunks, picked) == content_of(
            model::byte_lines(base),
            hunks,
            |h: int, l: int| rows[h][l] matches Some(k) && answer(k),
        ),
{
    let choice = |h: int, l: int| rows[h][l] matches Some(k) && answer(k);
    assert forall|h: int, l: int|
        0 <= h < hunks.len() && 0 <= l < hunks[h].lines@.len() implies #[trigger] picked[h][l]
        == choice(h, l) by {
        assert(model::decided_row(wanted, rows[h], hunks[h].lines@.len() as int, picked[h]));
    }
    law_content_of_any_choice(base, hunks, picked, choice);
}

/// Whether a content of a file has to be made: for the index, when lines go to
/// other branches, or for a commit that has lines of it and leaves something.
pub open spec fn needs_content(
    file: FileDiff,
    rows: Seq<Seq<Option<usize>>>,
    bases: Map<Seq<char>, Vec<u8>>,
    commits: Seq<SpecView>,
) -> bool {
    ||| some_go(commits, rows)
    ||| exists|ci: int|
        0 <= ci < commits.len() && #[trigger] has_line(rows, ci) && content_in_commit(
            file,
            rows,
            bases,
            commits,
            ci,
        ) is Some
}

/// Assignments can be planned with exactly if they are there for all files, name
/// no commit that there is not, reach over all lines of each file with an assigned
/// line, and each hunk says where it stands of a file whose content has to be made.
pub proof fn law_what_can_be_planned(
    files: Seq<FileDiff>,
    assign: Seq<Seq<Seq<Option<usize>>>>,
    bases: Map<Seq<char>, Vec<u8>>,
    commits: Seq<SpecView>,
)
    ensures
        model::plannable(files, assign, commits) <==> assign.len() >= files.len() && (forall|f: int|
            0 <= f < files.len() ==> can_be_planned(
                files[f],
                #[trigger] assign[f],
                bases,
                commits,
            )),
{
    assert forall|f: int| 0 <= f < files.len() implies model::plannable_file(
        files[f],
        #[trigger] assign[f],
        commits,
    ) == can_be_planned(files[f], assign[f], bases, commits) by {
        lemma_can_be_planned(files[f], assign[f], bases, commits);
    }
    if model::plannable(files, assign, commits) {
        assert forall|f: int| 0 <= f < files.len() implies can_be_planned(
            files[f],
            #[trigger] assign[f],
            bases,
            commits,
        ) by {
            assert(model::plannable_file(files[f], assign[f], commits));
        }
    }
}

/// The same of one file.
pub open spec fn can_be_planned(
    file: FileDiff,
    rows: Seq<Seq<Option<usize>>>,
    bases: Map<Seq<char>, Vec<u8>>,
    commits: Seq<SpecView>,
) -> bool {
    &&& forall|h: int, l: int|
        0 <= h < rows.len() && 0 <= l < rows[h].len() ==> (#[trigger] rows[h][l] matches Some(k)
            ==> k < commits.len())
    &&& (exists|h: int, l: int|
        0 <= h < rows.len() && 0 <= l < rows[h].len() && #[trigger] rows[h][l] is Some) ==> (
    rows.len() >= file.hunks@.len() && forall|h: int|
        0 <= h < file.hunks@.len() ==> (#[trigger] rows[h]).len() >= file.hunks@[h].lines@.len())
    &&& needs_content(file, rows, bases, commits) ==> forall|h: int|
        0 <= h < file.hunks@.len() ==> (#[trigger] file.hunks@[h]).old_count == 0
            || file.hunks@[h].old_start > 0
}

proof fn lemma_can_be_planned(
    file: FileDiff,
    rows: Seq<Seq<Option<usize>>>,
    bases: Map<Seq<char>, Vec<u8>>,
    commits: Seq<SpecView>,
)
    ensures
        model::plannable_file(file, rows, commits) == can_be_planned(file, rows, bases, commits),
{
    assert(model::branched(commits, rows) == some_go(commits, rows)) by {
        if model::branched(commits, rows) {
            let (h, l) = choose|h: int, l: int|
                0 <= h < rows.len() && 0 <= l < rows[h].len() && !model::stays(
                    commits,
                    #[trigger] rows[h][l],
                );
            assert(goes_elsewhere(commits, rows[h][l]));
        }
        if some_go(commits, rows) {
            let (h, l) = choose|h: int, l: int|
                0 <= h < rows.len() && 0 <= l < rows[h].len() && goes_elsewhere(
                    commits,
                    #[trigger] rows[h][l],
                );
            assert(!model::stays(commits, rows[h][l]));
        }
    }
    assert forall|ci: int| 0 <= ci < commits.len() implies model::removed(
        file,
        rows,
        commits,
        ci,
    ) == (content_in_commit(file, rows, bases, commits, ci) is None) by {
        lemma_change_content(file, rows, bases, commits, ci);
    }
    if model::rebuilt(file, rows, commits) && !some_go(commits, rows) {
        let ci = choose|ci: int|
            0 <= ci < commits.len() && #[trigger] model::touched(rows, ci) && !model::removed(
                file,
                rows,
                commits,
                ci,
            );
        assert(has_line(rows, ci));
    }
    if needs_content(file, rows, bases, commits) && !some_go(commits, rows) {
        let ci = choose|ci: int|
            0 <= ci < commits.len() && #[trigger] has_line(rows, ci) && content_in_commit(
                file,
                rows,
                bases,
                commits,
                ci,
            ) is Some;
        assert(model::touched(rows, ci));
    }
    assert(model::rebuilt(file, rows, commits) == needs_content(file, rows, bases, commits));
    assert(model::placed(file.hunks@) <==> forall|h: int|
        0 <= h < file.hunks@.len() ==> (#[trigger] file.hunks@[h]).old_count == 0
            || file.hunks@[h].old_start > 0);
}

} // verus!
