//! Assigning changed lines to commits, and the file contents that follow.
use vstd::hash_map::StringHashMap;
use vstd::prelude::*;
use vstd::slice::slice_subrange;

use crate::diff;
use crate::diff::{DiffLine, FileDiff, FileKind, Hunk, LineKind};

verus! {

/// A commit to be made: its message, and the new branch it goes to. Without a
/// branch it goes onto the branch that is checked out.
#[derive(Debug, Clone, PartialEq, Eq)]
pub struct CommitSpec {
    pub message: String,
    pub branch: Option<String>,
}

/// The content a commit gives to a file; `None` removes the file.
#[derive(Debug)]
pub struct FileChange {
    pub path: String,
    pub mode: String,
    pub content: Option<Vec<u8>>,
}

/// A commit with the files it changes.
#[derive(Debug)]
pub struct PlannedCommit {
    pub message: String,
    pub branch: Option<String>,
    pub files: Vec<FileChange>,
}

/// What stays staged of a file of which lines go to another branch.
#[derive(Debug)]
pub struct IndexUpdate {
    pub path: String,
    pub mode: String,
    pub content: Option<Vec<u8>>,
    pub staged: Option<Vec<u8>>,
}

/// The commits to make, and the index entries to change after them.
#[derive(Debug)]
pub struct Plan {
    pub commits: Vec<PlannedCommit>,
    pub index_updates: Vec<IndexUpdate>,
}

/// For each line of each hunk of each file, the commit it is assigned to.
pub type Assignments = Vec<Vec<Vec<Option<usize>>>>;

/// The contents of the files before the staged changes, by path.
pub type Bases = StringHashMap<Vec<u8>>;

// ---------------------------------------------------------------------------
// Assignments.

/// The assignments of one file.
pub open spec fn rows(v: Seq<Vec<Option<usize>>>) -> Seq<Seq<Option<usize>>> {
    Seq::new(v.len(), |h: int| v[h]@)
}

/// The assignments of all files.
pub open spec fn grid(v: Seq<Vec<Vec<Option<usize>>>>) -> Seq<Seq<Seq<Option<usize>>>> {
    Seq::new(v.len(), |f: int| rows(v[f]@))
}

/// No line of the hunk is assigned.
pub open spec fn no_row(hunk: Hunk) -> Seq<Option<usize>> {
    Seq::new(hunk.lines@.len(), |l: int| None)
}

/// No line of the file is assigned.
pub open spec fn no_rows(hunks: Seq<Hunk>) -> Seq<Seq<Option<usize>>> {
    Seq::new(hunks.len(), |h: int| no_row(hunks[h]))
}

/// No line is assigned.
pub open spec fn no_grid(files: Seq<FileDiff>) -> Seq<Seq<Seq<Option<usize>>>> {
    Seq::new(files.len(), |f: int| no_rows(files[f].hunks@))
}

/// Assigns no line of the given files.
pub fn empty_assignments(files: &[FileDiff]) -> (r: Assignments)
    ensures
        grid(r@) == no_grid(files@),
{
    let mut out: Assignments = Vec::new();
    let mut fi: usize = 0;
    while fi < files.len()
        invariant
            fi <= files@.len(),
            grid(out@) == no_grid(files@.take(fi as int)),
        decreases files@.len() - fi,
    {
        let hunks = &files[fi].hunks;
        let mut file: Vec<Vec<Option<usize>>> = Vec::new();
        let mut hi: usize = 0;
        while hi < hunks.len()
            invariant
                hi <= hunks@.len(),
                rows(file@) == no_rows(hunks@.take(hi as int)),
            decreases hunks@.len() - hi,
        {
            let mut row: Vec<Option<usize>> = Vec::new();
            let n = hunks[hi].lines.len();
            while row.len() < n
                invariant
                    row@.len() <= n,
                    forall|l: int| 0 <= l < row@.len() ==> row@[l] is None,
                decreases n - row@.len(),
            {
                row.push(None);
            }
            let ghost before = file@;
            assert(row@ =~= no_row(hunks@[hi as int]));
            file.push(row);
            assert(rows(file@) =~= rows(before).push(row@));
            assert(no_rows(hunks@.take(hi + 1)) =~= no_rows(hunks@.take(hi as int)).push(
                no_row(hunks@[hi as int]),
            ));
            hi += 1;
        }
        assert(hunks@.take(hi as int) =~= hunks@);
        let ghost before = out@;
        out.push(file);
        assert(grid(out@) =~= grid(before).push(rows(file@)));
        assert(no_grid(files@.take(fi + 1)) =~= no_grid(files@.take(fi as int)).push(
            no_rows(files@[fi as int].hunks@),
        ));
        fi += 1;
    }
    assert(files@.take(fi as int) =~= files@);
    out
}

// ---------------------------------------------------------------------------
// The lines of a file.

/// The length of the first line, with its line feed.
pub open spec fn first_line_len(b: Seq<u8>) -> nat
    decreases b.len(),
{
    if b.len() == 0 {
        0
    } else if b[0] == 10 {
        1
    } else {
        1 + first_line_len(b.skip(1))
    }
}

/// The first line is not longer than the text, and is not empty unless the text is.
pub proof fn lemma_first_line_len(b: Seq<u8>)
    ensures
        first_line_len(b) <= b.len(),
        b.len() > 0 ==> first_line_len(b) > 0,
    decreases b.len(),
{
    if b.len() > 0 && b[0] != 10 {
        lemma_first_line_len(b.skip(1));
    }
}

/// The lines of a text, each with its line feed; the last one may lack it.
pub open spec fn byte_lines(b: Seq<u8>) -> Seq<Seq<u8>>
    decreases b.len(),
{
    if b.len() == 0 {
        Seq::<Seq<u8>>::empty()
    } else {
        let n = first_line_len(b) as int;
        proof {
            lemma_first_line_len(b);
        }
        seq![b.take(n)] + byte_lines(b.skip(n))
    }
}

/// The contents of a list of slices.
pub open spec fn parts(v: Seq<&[u8]>) -> Seq<Seq<u8>> {
    Seq::new(v.len(), |i: int| v[i]@)
}

proof fn lemma_first_line(b: Seq<u8>, n: int)
    requires
        0 < n <= b.len(),
        forall|i: int| 0 <= i < n - 1 ==> b[i] != 10,
        n < b.len() ==> b[n - 1] == 10,
    ensures
        first_line_len(b) == n,
    decreases b.len(),
{
    if b[0] != 10 && n > 1 {
        lemma_first_line(b.skip(1), n - 1);
    } else if b[0] != 10 {
        assert(first_line_len(b.skip(1)) == 0);
    }
}

fn split_inclusive_newlines<'a>(b: &'a [u8]) -> (r: Vec<&'a [u8]>)
    ensures
        parts(r@) == byte_lines(b@),
{
    let mut lines: Vec<&'a [u8]> = Vec::new();
    let mut start: usize = 0;
    assert(b@.skip(0) =~= b@);
    assert(parts(lines@) + byte_lines(b@) =~= byte_lines(b@));
    while start < b.len()
        invariant
            start <= b@.len(),
            parts(lines@) + byte_lines(b@.skip(start as int)) == byte_lines(b@),
        decreases b@.len() - start,
    {
        let ghost rest = b@.skip(start as int);
        let ghost before = lines@;
        let mut end: usize = start;
        while end < b.len() && b[end] != 10
            invariant
                start <= end <= b@.len(),
                forall|i: int| start <= i < end ==> b@[i] != 10,
            decreases b@.len() - end,
        {
            end += 1;
        }
        if end < b.len() {
            end += 1;
        }
        let line = slice_subrange(b, start, end);
        lines.push(line);
        proof {
            lemma_first_line(rest, end - start);
            assert(line@ =~= rest.take(end - start));
            assert(rest.skip(end - start) =~= b@.skip(end as int));
            assert(parts(lines@) =~= parts(before).push(line@));
            assert(parts(lines@) + byte_lines(b@.skip(end as int)) =~= parts(before) + (seq![line@]
                + byte_lines(b@.skip(end as int))));
        }
        start = end;
    }
    assert(parts(lines@) + byte_lines(b@.skip(start as int)) =~= parts(lines@));
    lines
}

// ---------------------------------------------------------------------------
// Applying a choice of lines to a file.

/// How far a file has been rebuilt: the new content so far, and the number of
/// lines of the old content that are done with.
pub struct PatchState {
    pub out: Seq<u8>,
    pub cursor: int,
}

/// The bytes of an added line.
pub open spec fn line_bytes(line: DiffLine) -> Seq<u8> {
    if line.no_newline {
        vstd::utf8::encode_utf8(line.content@)
    } else {
        vstd::utf8::encode_utf8(line.content@).push(10)
    }
}

/// The next old line is kept.
pub open spec fn kept(old: Seq<Seq<u8>>, st: PatchState) -> PatchState {
    PatchState {
        out: if st.cursor < old.len() {
            st.out + old[st.cursor]
        } else {
            st.out
        },
        cursor: st.cursor + 1,
    }
}

/// One line of a hunk: a context line is kept; a removal that is picked drops
/// the old line, one that is not keeps it; an addition that is picked adds its
/// text.
pub open spec fn patch_line(
    old: Seq<Seq<u8>>,
    st: PatchState,
    line: DiffLine,
    picked: bool,
) -> PatchState {
    match line.kind {
        LineKind::Context => kept(old, st),
        LineKind::Del => if picked {
            PatchState { cursor: st.cursor + 1, ..st }
        } else {
            kept(old, st)
        },
        LineKind::Add => if picked {
            PatchState { out: st.out + line_bytes(line), ..st }
        } else {
            st
        },
    }
}

/// The first `n` lines of a hunk.
pub open spec fn patch_lines(
    old: Seq<Seq<u8>>,
    st: PatchState,
    lines: Seq<DiffLine>,
    picked: Seq<bool>,
    n: int,
) -> PatchState
    decreases n,
{
    if n <= 0 {
        st
    } else {
        patch_line(old, patch_lines(old, st, lines, picked, n - 1), lines[n - 1], picked[n - 1])
    }
}

/// The number of old lines before a hunk.
pub open spec fn hunk_start(hunk: Hunk) -> int {
    if hunk.old_count == 0 {
        hunk.old_start as int
    } else {
        hunk.old_start - 1
    }
}

/// The old lines up to the hunk are kept.
pub open spec fn kept_until(old: Seq<Seq<u8>>, st: PatchState, until: int) -> PatchState {
    let stop = if until < old.len() {
        until
    } else {
        old.len() as int
    };
    if st.cursor < stop {
        PatchState { out: st.out + old.subrange(st.cursor, stop).flatten(), cursor: stop }
    } else {
        st
    }
}

/// The first `n` hunks of a file.
pub open spec fn patch_hunks(
    old: Seq<Seq<u8>>,
    hunks: Seq<Hunk>,
    picked: Seq<Seq<bool>>,
    n: int,
) -> PatchState
    decreases n,
{
    if n <= 0 {
        PatchState { out: Seq::<u8>::empty(), cursor: 0 }
    } else {
        patch_lines(
            old,
            kept_until(old, patch_hunks(old, hunks, picked, n - 1), hunk_start(hunks[n - 1])),
            hunks[n - 1].lines@,
            picked[n - 1],
            hunks[n - 1].lines@.len() as int,
        )
    }
}

/// The content of a file with the picked lines of its hunks applied.
pub open spec fn patched(base: Seq<u8>, hunks: Seq<Hunk>, picked: Seq<Seq<bool>>) -> Seq<u8> {
    let old = byte_lines(base);
    let st = patch_hunks(old, hunks, picked, hunks.len() as int);
    kept_until(old, st, old.len() as int).out
}

/// The hunks say where they stand: one that covers old lines starts at a line
/// number, and these count from 1.
pub open spec fn placed(hunks: Seq<Hunk>) -> bool {
    forall|h: int|
        0 <= h < hunks.len() ==> (#[trigger] hunks[h]).old_count > 0 ==> hunks[h].old_start > 0
}

/// The assignments reach over all lines of the hunks.
pub open spec fn covers(assign: Seq<Seq<Option<usize>>>, hunks: Seq<Hunk>) -> bool {
    &&& assign.len() >= hunks.len()
    &&& forall|h: int|
        0 <= h < hunks.len() ==> (#[trigger] assign[h]).len() >= hunks[h].lines@.len()
}

/// The choice `picked` is what `wanted` says of each assigned line; a line that
/// is not assigned is not picked.
pub open spec fn decided<F: Fn(usize) -> bool>(
    wanted: F,
    assign: Seq<Seq<Option<usize>>>,
    hunks: Seq<Hunk>,
    picked: Seq<Seq<bool>>,
) -> bool {
    &&& picked.len() == hunks.len()
    &&& forall|h: int|
        0 <= h < hunks.len() ==> decided_row(
            wanted,
            assign[h],
            hunks[h].lines@.len() as int,
            #[trigger] picked[h],
        )
}

/// As `decided`, of the first `n` lines of one hunk.
pub open spec fn decided_row<F: Fn(usize) -> bool>(
    wanted: F,
    assign: Seq<Option<usize>>,
    n: int,
    picked: Seq<bool>,
) -> bool {
    &&& picked.len() == n
    &&& forall|l: int|
        0 <= l < n ==> match assign[l] {
            Some(a) => call_ensures(wanted, (a,), #[trigger] picked[l]),
            None => !picked[l],
        }
}

fn push_bytes(out: &mut Vec<u8>, b: &[u8])
    ensures
        final(out)@ == old(out)@ + b@,
{
    let ghost before = out@;
    out.extend_from_slice(b);
    assert(out@ =~= before + b@);
}

/// The content of a file with those of its lines applied whose commit is
/// wanted.
pub fn apply_file(
    base: &[u8],
    file: &FileDiff,
    assign: &[Vec<Option<usize>>],
    wanted: impl Fn(usize) -> bool,
) -> (out: Vec<u8>)
    requires
        placed(file.hunks@),
        covers(rows(assign@), file.hunks@),
        forall|h: int, l: int|
            #![trigger assign@[h]@[l]]
            0 <= h < file.hunks@.len() && 0 <= l < file.hunks@[h].lines@.len() ==> (
            assign@[h]@[l] matches Some(a) ==> call_requires(wanted, (a,))),
    ensures
        exists|picked: Seq<Seq<bool>>|
            decided(wanted, rows(assign@), file.hunks@, picked) && out@ == #[trigger] patched(
                base@,
                file.hunks@,
                picked,
            ),
{
    let base_lines = split_inclusive_newlines(base);
    let ghost old_lines = byte_lines(base@);
    let hunks = &file.hunks;
    let ghost mut picked: Seq<Seq<bool>> = Seq::empty();
    let mut out: Vec<u8> = Vec::new();
    let mut cursor: usize = 0;
    let mut h: usize = 0;
    while h < hunks.len()
        invariant
            h <= hunks@.len(),
            hunks == &file.hunks,
            old_lines == byte_lines(base@),
            parts(base_lines@) == old_lines,
            cursor <= base_lines@.len(),
            placed(file.hunks@),
            covers(rows(assign@), file.hunks@),
            forall|h: int, l: int|
                #![trigger assign@[h]@[l]]
                0 <= h < file.hunks@.len() && 0 <= l < file.hunks@[h].lines@.len() ==> (
                assign@[h]@[l] matches Some(a) ==> call_requires(wanted, (a,))),
            picked.len() == h,
            decided(wanted, rows(assign@), hunks@.take(h as int), picked),
            ({
                let st = patch_hunks(old_lines, hunks@, picked, h as int);
                &&& out@ == st.out
                &&& cursor == if st.cursor < old_lines.len() {
                    st.cursor
                } else {
                    old_lines.len() as int
                }
            }),
        decreases hunks@.len() - h,
    {
        let hunk = &hunks[h];
        assert(rows(assign@)[h as int].len() >= hunk.lines@.len());
        let copy_until: usize = if hunk.old_count == 0 {
            hunk.old_start
        } else {
            hunk.old_start - 1
        };
        let ghost st0 = patch_hunks(old_lines, hunks@, picked, h as int);
        let ghost from = cursor as int;
        let ghost out0 = out@;
        assert(old_lines.subrange(from, from).flatten() =~= Seq::<u8>::empty());
        while cursor < copy_until && cursor < base_lines.len()
            invariant
                0 <= from <= cursor <= base_lines@.len(),
                cursor <= copy_until || cursor == from,
                parts(base_lines@) == old_lines,
                out@ == out0 + old_lines.subrange(from, cursor as int).flatten(),
            decreases base_lines@.len() - cursor,
        {
            push_bytes(&mut out, base_lines[cursor]);
            proof {
                let part = old_lines.subrange(from, cursor as int);
                part.lemma_flatten_push(old_lines[cursor as int]);
                assert(old_lines.subrange(from, cursor + 1) =~= part.push(
                    old_lines[cursor as int],
                ));
            }
            cursor += 1;
        }
        let ghost st1 = kept_until(old_lines, st0, hunk_start(*hunk));
        let ghost mut row: Seq<bool> = Seq::empty();
        assert(out@ =~= st1.out);
        let lines = &hunk.lines;
        let marks = &assign[h];
        let mut l: usize = 0;
        while l < lines.len()
            invariant
                l <= lines@.len() <= marks@.len(),
                h < hunks@.len(),
                hunks == &file.hunks,
                hunk == hunks@[h as int],
                lines == &hunk.lines,
                marks == &assign@[h as int],
                parts(base_lines@) == old_lines,
                cursor <= base_lines@.len(),
                forall|h: int, l: int|
                    #![trigger assign@[h]@[l]]
                    0 <= h < file.hunks@.len() && 0 <= l < file.hunks@[h].lines@.len() ==> (
                    assign@[h]@[l] matches Some(a) ==> call_requires(wanted, (a,))),
                decided_row(wanted, marks@, l as int, row),
                ({
                    let st = patch_lines(old_lines, st1, lines@, row, l as int);
                    &&& out@ == st.out
                    &&& cursor == if st.cursor < old_lines.len() {
                        st.cursor
                    } else {
                        old_lines.len() as int
                    }
                }),
            decreases lines@.len() - l,
        {
            let line = &lines[l];
            let picks: bool = match marks[l] {
                Some(a) => {
                    assert(assign@[h as int]@[l as int] == Some(a));
                    wanted(a)
                },
                None => false,
            };
            proof {
                let longer = row.push(picks);
                lemma_patch_lines_same(old_lines, st1, lines@, row, longer, l as int);
                row = longer;
            }
            match line.kind {
                LineKind::Context => {
                    if cursor < base_lines.len() {
                        push_bytes(&mut out, base_lines[cursor]);
                        cursor += 1;
                    }
                },
                LineKind::Del => {
                    if cursor < base_lines.len() {
                        if !picks {
                            push_bytes(&mut out, base_lines[cursor]);
                        }
                        cursor += 1;
                    }
                },
                LineKind::Add => {
                    if picks {
                        let ghost before = out@;
                        push_bytes(&mut out, line.content.as_str().as_bytes());
                        if !line.no_newline {
                            out.push(10);
                        }
                        assert(out@ =~= before + line_bytes(*line));
                    }
                },
            }
            l += 1;
        }
        proof {
            let longer = picked.push(row);
            lemma_patch_hunks_same(old_lines, hunks@, picked, longer, h as int);
            assert forall|k: int| 0 <= k < h + 1 implies decided_row(
                wanted,
                rows(assign@)[k],
                hunks@.take(h + 1)[k].lines@.len() as int,
                #[trigger] longer[k],
            ) by {
                if k < h {
                    assert(longer[k] == picked[k]);
                    assert(hunks@.take(h + 1)[k] == hunks@.take(h as int)[k]);
                }
            }
            picked = longer;
        }
        h += 1;
    }
    let ghost st0 = patch_hunks(old_lines, hunks@, picked, h as int);
    let ghost from = cursor as int;
    let ghost out0 = out@;
    assert(old_lines.subrange(from, from).flatten() =~= Seq::<u8>::empty());
    while cursor < base_lines.len()
        invariant
            0 <= from <= cursor <= base_lines@.len(),
            parts(base_lines@) == old_lines,
            out@ == out0 + old_lines.subrange(from, cursor as int).flatten(),
        decreases base_lines@.len() - cursor,
    {
        push_bytes(&mut out, base_lines[cursor]);
        proof {
            let part = old_lines.subrange(from, cursor as int);
            part.lemma_flatten_push(old_lines[cursor as int]);
            assert(old_lines.subrange(from, cursor + 1) =~= part.push(old_lines[cursor as int]));
        }
        cursor += 1;
    }
    proof {
        assert(hunks@.take(h as int) =~= hunks@);
        assert(out@ =~= patched(base@, file.hunks@, picked));
    }
    out
}

proof fn lemma_patch_lines_same(
    old: Seq<Seq<u8>>,
    st: PatchState,
    lines: Seq<DiffLine>,
    p: Seq<bool>,
    q: Seq<bool>,
    n: int,
)
    requires
        n <= p.len(),
        n <= q.len(),
        forall|l: int| 0 <= l < n ==> p[l] == q[l],
    ensures
        patch_lines(old, st, lines, p, n) == patch_lines(old, st, lines, q, n),
    decreases n,
{
    if n > 0 {
        lemma_patch_lines_same(old, st, lines, p, q, n - 1);
    }
}

proof fn lemma_patch_hunks_same(
    old: Seq<Seq<u8>>,
    hunks: Seq<Hunk>,
    p: Seq<Seq<bool>>,
    q: Seq<Seq<bool>>,
    n: int,
)
    requires
        n <= p.len(),
        n <= q.len(),
        forall|h: int| 0 <= h < n ==> p[h] == q[h],
    ensures
        patch_hunks(old, hunks, p, n) == patch_hunks(old, hunks, q, n),
    decreases n,
{
    if n > 0 {
        lemma_patch_hunks_same(old, hunks, p, q, n - 1);
    }
}

// ---------------------------------------------------------------------------
// The plan.

/// What a `CommitSpec` stands for.
pub struct SpecView {
    pub message: Seq<char>,
    pub branch: Option<Seq<char>>,
}

/// What a `FileChange` stands for.
pub struct ChangeView {
    pub path: Seq<char>,
    pub mode: Seq<char>,
    pub content: Option<Seq<u8>>,
}

/// What a `PlannedCommit` stands for.
pub struct CommitView {
    pub message: Seq<char>,
    pub branch: Option<Seq<char>>,
    pub files: Seq<ChangeView>,
}

/// What an `IndexUpdate` stands for.
pub struct UpdateView {
    pub path: Seq<char>,
    pub mode: Seq<char>,
    pub content: Option<Seq<u8>>,
    pub staged: Option<Seq<u8>>,
}

/// What a `Plan` stands for.
pub struct PlanView {
    pub commits: Seq<CommitView>,
    pub updates: Seq<UpdateView>,
}

/// The bytes of an optional content.
pub open spec fn bytes_of(v: Option<Vec<u8>>) -> Option<Seq<u8>> {
    match v {
        Some(b) => Some(b@),
        None => None,
    }
}

impl DeepView for CommitSpec {
    type V = SpecView;

    open spec fn deep_view(&self) -> SpecView {
        SpecView { message: self.message@, branch: self.branch.deep_view() }
    }
}

impl DeepView for FileChange {
    type V = ChangeView;

    open spec fn deep_view(&self) -> ChangeView {
        ChangeView { path: self.path@, mode: self.mode@, content: bytes_of(self.content) }
    }
}

impl DeepView for PlannedCommit {
    type V = CommitView;

    open spec fn deep_view(&self) -> CommitView {
        CommitView {
            message: self.message@,
            branch: self.branch.deep_view(),
            files: self.files.deep_view(),
        }
    }
}

impl DeepView for IndexUpdate {
    type V = UpdateView;

    open spec fn deep_view(&self) -> UpdateView {
        UpdateView {
            path: self.path@,
            mode: self.mode@,
            content: bytes_of(self.content),
            staged: bytes_of(self.staged),
        }
    }
}

impl DeepView for Plan {
    type V = PlanView;

    open spec fn deep_view(&self) -> PlanView {
        PlanView { commits: self.commits.deep_view(), updates: self.index_updates.deep_view() }
    }
}

/// The content of a file before the staged changes; empty when it is not known.
pub open spec fn base_of(bases: Map<Seq<char>, Vec<u8>>, path: Seq<char>) -> Seq<u8> {
    if bases.contains_key(path) {
        bases[path]@
    } else {
        Seq::<u8>::empty()
    }
}

/// The content of commit `ci` has the lines of that commit, and those of the
/// earlier commits that go to the same branch.
pub open spec fn belongs(commits: Seq<SpecView>, ci: int, a: Option<usize>) -> bool {
    match a {
        Some(k) => k <= ci && commits[k as int].branch == commits[ci].branch,
        None => false,
    }
}

/// The lines of a file that belong to the content of commit `ci`.
pub open spec fn belonging(
    commits: Seq<SpecView>,
    ci: int,
    hunks: Seq<Hunk>,
    assign: Seq<Seq<Option<usize>>>,
) -> Seq<Seq<bool>> {
    Seq::new(
        hunks.len(),
        |h: int| Seq::new(hunks[h].lines@.len(), |l: int| belongs(commits, ci, assign[h][l])),
    )
}

/// All lines of a file.
pub open spec fn all_lines(hunks: Seq<Hunk>) -> Seq<Seq<bool>> {
    Seq::new(hunks.len(), |h: int| Seq::new(hunks[h].lines@.len(), |l: int| true))
}

/// Whether a line of the file is assigned to commit `ci`.
pub open spec fn touched(assign: Seq<Seq<Option<usize>>>, ci: int) -> bool {
    exists|h: int, l: int|
        0 <= h < assign.len() && 0 <= l < assign[h].len() && #[trigger] assign[h][l] == Some(
            ci as usize,
        )
}

/// Whether all changes of a file are among the picked lines.
pub open spec fn all_changes(hunks: Seq<Hunk>, picked: Seq<Seq<bool>>) -> bool {
    forall|h: int, l: int|
        0 <= h < hunks.len() && 0 <= l < hunks[h].lines@.len()
            && hunks[h].lines@[l].change() ==> #[trigger] picked[h][l]
}

/// Whether commit `ci` removes a file that it touches: the file was deleted, and
/// with this commit all its changes are made.
pub open spec fn removed(
    file: FileDiff,
    assign: Seq<Seq<Option<usize>>>,
    commits: Seq<SpecView>,
    ci: int,
) -> bool {
    file.kind == FileKind::Deleted && all_changes(
        file.hunks@,
        belonging(commits, ci, file.hunks@, assign),
    )
}

/// What commit `ci` does to a file that it touches: it gives the file the
/// content with the lines that belong to it, but removes a deleted file once
/// all its lines are gone.
pub open spec fn planned_change(
    file: FileDiff,
    assign: Seq<Seq<Option<usize>>>,
    bases: Map<Seq<char>, Vec<u8>>,
    commits: Seq<SpecView>,
    ci: int,
) -> ChangeView {
    ChangeView {
        path: file.path@,
        mode: file.mode@,
        content: if removed(file, assign, commits, ci) {
            None
        } else {
            Some(
                patched(
                    base_of(bases, file.path@),
                    file.hunks@,
                    belonging(commits, ci, file.hunks@, assign),
                ),
            )
        },
    }
}

/// What commit `ci` does to the first `n` files.
pub open spec fn planned_changes(
    files: Seq<FileDiff>,
    assign: Seq<Seq<Seq<Option<usize>>>>,
    bases: Map<Seq<char>, Vec<u8>>,
    commits: Seq<SpecView>,
    ci: int,
    n: int,
) -> Seq<ChangeView>
    decreases n,
{
    if n <= 0 {
        Seq::<ChangeView>::empty()
    } else {
        let before = planned_changes(files, assign, bases, commits, ci, n - 1);
        if touched(assign[n - 1], ci) {
            before.push(planned_change(files[n - 1], assign[n - 1], bases, commits, ci))
        } else {
            before
        }
    }
}

/// The first `n` commits, without those that touch no file.
pub open spec fn planned_commits(
    files: Seq<FileDiff>,
    assign: Seq<Seq<Seq<Option<usize>>>>,
    bases: Map<Seq<char>, Vec<u8>>,
    commits: Seq<SpecView>,
    n: int,
) -> Seq<CommitView>
    decreases n,
{
    if n <= 0 {
        Seq::<CommitView>::empty()
    } else {
        let before = planned_commits(files, assign, bases, commits, n - 1);
        let changes = planned_changes(
            files,
            assign,
            bases,
            commits,
            n - 1,
            files.len() as int,
        );
        if changes.len() > 0 {
            before.push(
                CommitView {
                    message: commits[n - 1].message,
                    branch: commits[n - 1].branch,
                    files: changes,
                },
            )
        } else {
            before
        }
    }
}

/// Whether a line stays staged when the commits for other branches are made: it
/// is not assigned, or its commit goes onto the current branch.
pub open spec fn stays(commits: Seq<SpecView>, a: Option<usize>) -> bool {
    match a {
        Some(k) => commits[k as int].branch is None,
        None => true,
    }
}

/// The lines of a file that stay.
pub open spec fn staying(
    commits: Seq<SpecView>,
    hunks: Seq<Hunk>,
    assign: Seq<Seq<Option<usize>>>,
) -> Seq<Seq<bool>> {
    Seq::new(
        hunks.len(),
        |h: int| Seq::new(hunks[h].lines@.len(), |l: int| stays(commits, assign[h][l])),
    )
}

/// Whether a line of the file goes to another branch.
pub open spec fn branched(commits: Seq<SpecView>, assign: Seq<Seq<Option<usize>>>) -> bool {
    exists|h: int, l: int|
        0 <= h < assign.len() && 0 <= l < assign[h].len() && !stays(
            commits,
            #[trigger] assign[h][l],
        )
}

/// Whether a change of the file stays.
pub open spec fn change_stays(
    commits: Seq<SpecView>,
    hunks: Seq<Hunk>,
    assign: Seq<Seq<Option<usize>>>,
) -> bool {
    exists|h: int, l: int|
        0 <= h < hunks.len() && 0 <= l < hunks[h].lines@.len() && hunks[h].lines@[l].change()
            && stays(commits, #[trigger] assign[h][l])
}

/// What stays staged of a file: the content with the lines that stay, but
/// nothing of an added file of which all changes go to other branches; and what
/// was staged before.
pub open spec fn index_update(
    file: FileDiff,
    assign: Seq<Seq<Option<usize>>>,
    bases: Map<Seq<char>, Vec<u8>>,
    commits: Seq<SpecView>,
) -> UpdateView {
    let base = base_of(bases, file.path@);
    UpdateView {
        path: file.path@,
        mode: file.mode@,
        content: if file.kind == FileKind::Added && !change_stays(commits, file.hunks@, assign) {
            None
        } else {
            Some(patched(base, file.hunks@, staying(commits, file.hunks@, assign)))
        },
        staged: if file.kind == FileKind::Deleted {
            None
        } else {
            Some(patched(base, file.hunks@, all_lines(file.hunks@)))
        },
    }
}

/// The index updates of those of the first `n` files of which lines go to other
/// branches.
pub open spec fn planned_updates(
    files: Seq<FileDiff>,
    assign: Seq<Seq<Seq<Option<usize>>>>,
    bases: Map<Seq<char>, Vec<u8>>,
    commits: Seq<SpecView>,
    n: int,
) -> Seq<UpdateView>
    decreases n,
{
    if n <= 0 {
        Seq::<UpdateView>::empty()
    } else {
        let before = planned_updates(files, assign, bases, commits, n - 1);
        if branched(commits, assign[n - 1]) {
            before.push(index_update(files[n - 1], assign[n - 1], bases, commits))
        } else {
            before
        }
    }
}

/// Only commits that there are get lines.
pub open spec fn names_commits(assign: Seq<Seq<Option<usize>>>, n_commits: nat) -> bool {
    forall|h: int, l: int|
        0 <= h < assign.len() && 0 <= l < assign[h].len() ==> (
        #[trigger] assign[h][l] matches Some(k) ==> k < n_commits)
}

/// Whether a line of the file is assigned.
pub open spec fn worked_on(assign: Seq<Seq<Option<usize>>>) -> bool {
    exists|h: int, l: int|
        0 <= h < assign.len() && 0 <= l < assign[h].len() && #[trigger] assign[h][l] is Some
}

/// Whether a content of the file has to be made, for a commit or for the index.
pub open spec fn rebuilt(
    file: FileDiff,
    assign: Seq<Seq<Option<usize>>>,
    commits: Seq<SpecView>,
) -> bool {
    ||| branched(commits, assign)
    ||| exists|ci: int|
        0 <= ci < commits.len() && #[trigger] touched(assign, ci) && !removed(
            file,
            assign,
            commits,
            ci,
        )
}

/// The assignments of a file can be planned with: they name commits that there
/// are, they reach over all lines if there are any, and the hunks say where they
/// stand if a content has to be made.
pub open spec fn plannable_file(
    file: FileDiff,
    assign: Seq<Seq<Option<usize>>>,
    commits: Seq<SpecView>,
) -> bool {
    &&& names_commits(assign, commits.len())
    &&& worked_on(assign) ==> covers(assign, file.hunks@)
    &&& rebuilt(file, assign, commits) ==> placed(file.hunks@)
}

/// The assignments can be planned with.
pub open spec fn plannable(
    files: Seq<FileDiff>,
    assign: Seq<Seq<Seq<Option<usize>>>>,
    commits: Seq<SpecView>,
) -> bool {
    &&& assign.len() >= files.len()
    &&& forall|f: int|
        0 <= f < files.len() ==> plannable_file(files[f], #[trigger] assign[f], commits)
}

/// Whether two commits go to the same branch.
pub(crate) fn same_branch(a: &Option<String>, b: &Option<String>) -> (r: bool)
    ensures
        r == (a.deep_view() == b.deep_view()),
{
    match (a, b) {
        (Some(x), Some(y)) => *x == *y,
        (None, None) => true,
        _ => false,
    }
}

/// The same branch.
pub(crate) fn clone_branch(a: &Option<String>) -> (r: Option<String>)
    ensures
        r.deep_view() == a.deep_view(),
{
    match a {
        Some(s) => Some(s.clone()),
        None => None,
    }
}

fn is_touched(assign: &Vec<Vec<Option<usize>>>, ci: usize) -> (r: bool)
    ensures
        r == touched(rows(assign@), ci as int),
{
    let ghost all = rows(assign@);
    let mut h: usize = 0;
    while h < assign.len()
        invariant
            h <= assign@.len(),
            all == rows(assign@),
            forall|i: int, j: int|
                0 <= i < h && 0 <= j < all[i].len() ==> #[trigger] all[i][j] != Some(ci),
        decreases assign@.len() - h,
    {
        let row = &assign[h];
        let mut l: usize = 0;
        while l < row.len()
            invariant
                h < assign@.len(),
                l <= row@.len(),
                all == rows(assign@),
                row == &assign@[h as int],
                forall|j: int| 0 <= j < l ==> #[trigger] all[h as int][j] != Some(ci),
            decreases row@.len() - l,
        {
            if let Some(k) = row[l] {
                if k == ci {
                    assert(all[h as int][l as int] == Some(ci));
                    return true;
                }
            }
            l += 1;
        }
        h += 1;
    }
    false
}

fn all_belong(
    file: &FileDiff,
    assign: &Vec<Vec<Option<usize>>>,
    commits: &[CommitSpec],
    ci: usize,
) -> (r: bool)
    requires
        ci < commits@.len(),
        covers(rows(assign@), file.hunks@),
    ensures
        r == all_changes(
            file.hunks@,
            belonging(commits.deep_view(), ci as int, file.hunks@, rows(assign@)),
        ),
{
    let ghost picked = belonging(commits.deep_view(), ci as int, file.hunks@, rows(assign@));
    let hunks = &file.hunks;
    let mut h: usize = 0;
    while h < hunks.len()
        invariant
            h <= hunks@.len(),
            hunks == &file.hunks,
            ci < commits@.len(),
            covers(rows(assign@), file.hunks@),
            picked == belonging(commits.deep_view(), ci as int, file.hunks@, rows(assign@)),
            forall|i: int, j: int|
                0 <= i < h && 0 <= j < hunks@[i].lines@.len() && hunks@[i].lines@[j].change()
                    ==> #[trigger] picked[i][j],
        decreases hunks@.len() - h,
    {
        let lines = &hunks[h].lines;
        assert(rows(assign@)[h as int].len() >= lines@.len());
        let row = &assign[h];
        let mut l: usize = 0;
        while l < lines.len()
            invariant
                h < hunks@.len(),
                hunks == &file.hunks,
                l <= lines@.len() <= row@.len(),
                lines == &hunks@[h as int].lines,
                row@ == rows(assign@)[h as int],
                ci < commits@.len(),
                picked == belonging(commits.deep_view(), ci as int, file.hunks@, rows(assign@)),
                forall|j: int|
                    0 <= j < l && lines@[j].change() ==> #[trigger] picked[h as int][j],
            decreases lines@.len() - l,
        {
            if lines[l].is_change() {
                let ok: bool = match row[l] {
                    Some(a) => a <= ci && same_branch(&commits[a].branch, &commits[ci].branch),
                    None => false,
                };
                assert(ok == picked[h as int][l as int]);
                if !ok {
                    return false;
                }
            }
            l += 1;
        }
        h += 1;
    }
    true
}

/// The content that commit `ci` gives to a file.
fn commit_content(
    base: &Vec<u8>,
    file: &FileDiff,
    assign: &Vec<Vec<Option<usize>>>,
    commits: &[CommitSpec],
    ci: usize,
) -> (r: Vec<u8>)
    requires
        ci < commits@.len(),
        placed(file.hunks@),
        covers(rows(assign@), file.hunks@),
    ensures
        r@ == patched(
            base@,
            file.hunks@,
            belonging(commits.deep_view(), ci as int, file.hunks@, rows(assign@)),
        ),
{
    let same_dest_upto = |a: usize| -> (r: bool)
        requires
            ci < commits@.len(),
        ensures
            r == belongs(commits.deep_view(), ci as int, Some(a)),
        { a <= ci && same_branch(&commits[a].branch, &commits[ci].branch) };
    let out = apply_file(base, file, assign, same_dest_upto);
    proof {
        let picked = choose|p: Seq<Seq<bool>>|
            decided(same_dest_upto, rows(assign@), file.hunks@, p) && out@ == #[trigger] patched(
                base@,
                file.hunks@,
                p,
            );
        let want = belonging(commits.deep_view(), ci as int, file.hunks@, rows(assign@));
        assert forall|h: int| 0 <= h < picked.len() implies picked[h] == want[h] by {
            assert(decided_row(
                same_dest_upto,
                rows(assign@)[h],
                file.hunks@[h].lines@.len() as int,
                picked[h],
            ));
            assert(picked[h] =~= want[h]);
        }
        assert(picked =~= want);
    }
    out
}

proof fn lemma_touched(assign: Seq<Seq<Option<usize>>>, ci: int)
    requires
        touched(assign, ci),
    ensures
        worked_on(assign),
{
    let (h, l) = choose|h: int, l: int|
        0 <= h < assign.len() && 0 <= l < assign[h].len() && #[trigger] assign[h][l] == Some(
            ci as usize,
        );
    assert(assign[h][l] is Some);
}

proof fn lemma_branched(commits: Seq<SpecView>, assign: Seq<Seq<Option<usize>>>)
    requires
        branched(commits, assign),
    ensures
        worked_on(assign),
{
    let (h, l) = choose|h: int, l: int|
        0 <= h < assign.len() && 0 <= l < assign[h].len() && !stays(
            commits,
            #[trigger] assign[h][l],
        );
    assert(assign[h][l] is Some);
}

/// The content of a file before the staged changes.
fn base_content<'a>(bases: &'a Bases, path: &String, empty: &'a Vec<u8>) -> (r: &'a Vec<u8>)
    requires
        empty@.len() == 0,
    ensures
        r@ == base_of(bases@, path@),
{
    match bases.get(path.as_str()) {
        Some(b) => b,
        None => {
            assert(empty@ =~= Seq::<u8>::empty());
            empty
        },
    }
}

fn commit_changes(
    files: &[FileDiff],
    assign: &Assignments,
    bases: &Bases,
    commits: &[CommitSpec],
    ci: usize,
) -> (r: Vec<FileChange>)
    requires
        ci < commits@.len(),
        plannable(files@, grid(assign@), commits.deep_view()),
    ensures
        r.deep_view() == planned_changes(
            files@,
            grid(assign@),
            bases@,
            commits.deep_view(),
            ci as int,
            files@.len() as int,
        ),
{
    let empty: Vec<u8> = Vec::new();
    let mut changes: Vec<FileChange> = Vec::new();
    let mut fi: usize = 0;
    assert(changes.deep_view() =~= Seq::<ChangeView>::empty());
    while fi < files.len()
        invariant
            fi <= files@.len(),
            empty@.len() == 0,
            ci < commits@.len(),
            plannable(files@, grid(assign@), commits.deep_view()),
            changes.deep_view() == planned_changes(
                files@,
                grid(assign@),
                bases@,
                commits.deep_view(),
                ci as int,
                fi as int,
            ),
        decreases files@.len() - fi,
    {
        let file = &files[fi];
        let ghost before = changes;
        let ghost all = grid(assign@)[fi as int];
        assert(plannable_file(*file, all, commits.deep_view()));
        if is_touched(&assign[fi], ci) {
            proof {
                lemma_touched(all, ci as int);
            }
            let gone: bool = file.kind == FileKind::Deleted && all_belong(
                file,
                &assign[fi],
                commits,
                ci,
            );
            let content: Option<Vec<u8>> = if gone {
                None
            } else {
                let base = base_content(bases, &file.path, &empty);
                Some(commit_content(base, file, &assign[fi], commits, ci))
            };
            let change = FileChange { path: file.path.clone(), mode: file.mode.clone(), content };
            changes.push(change);
            proof {
                diff::lemma_deep_push(before, changes, change);
                assert(change.deep_view() == planned_change(
                    *file,
                    grid(assign@)[fi as int],
                    bases@,
                    commits.deep_view(),
                    ci as int,
                ));
            }
        }
        fi += 1;
    }
    changes
}

/// The commits that the assignments describe, and what stays staged.
pub fn build_plan(
    files: &[FileDiff],
    assign: &Assignments,
    bases: &Bases,
    commits: &[CommitSpec],
) -> (r: Plan)
    requires
        plannable(files@, grid(assign@), commits.deep_view()),
    ensures
        r.commits.deep_view() == planned_commits(
            files@,
            grid(assign@),
            bases@,
            commits.deep_view(),
            commits@.len() as int,
        ),
        r.index_updates.deep_view() == planned_updates(
            files@,
            grid(assign@),
            bases@,
            commits.deep_view(),
            files@.len() as int,
        ),
{
    let mut planned: Vec<PlannedCommit> = Vec::new();
    let mut ci: usize = 0;
    assert(planned.deep_view() =~= Seq::<CommitView>::empty());
    while ci < commits.len()
        invariant
            ci <= commits@.len(),
            plannable(files@, grid(assign@), commits.deep_view()),
            planned.deep_view() == planned_commits(
                files@,
                grid(assign@),
                bases@,
                commits.deep_view(),
                ci as int,
            ),
        decreases commits@.len() - ci,
    {
        let changes = commit_changes(files, assign, bases, commits, ci);
        let ghost before = planned;
        if changes.len() > 0 {
            let commit = PlannedCommit {
                message: commits[ci].message.clone(),
                branch: clone_branch(&commits[ci].branch),
                files: changes,
            };
            planned.push(commit);
            proof {
                diff::lemma_deep_push(before, planned, commit);
            }
        }
        ci += 1;
    }
    Plan { commits: planned, index_updates: index_updates(files, assign, bases, commits) }
}

/// Marks a line that is not assigned.
const KEEP: usize = usize::MAX;

fn is_branched(assign: &Vec<Vec<Option<usize>>>, commits: &[CommitSpec]) -> (r: bool)
    requires
        names_commits(rows(assign@), commits@.len()),
    ensures
        r == branched(commits.deep_view(), rows(assign@)),
{
    let ghost all = rows(assign@);
    let mut h: usize = 0;
    while h < assign.len()
        invariant
            h <= assign@.len(),
            all == rows(assign@),
            names_commits(all, commits@.len()),
            forall|i: int, j: int|
                0 <= i < h && 0 <= j < all[i].len() ==> stays(commits.deep_view(), #[trigger] all[i][j]),
        decreases assign@.len() - h,
    {
        let row = &assign[h];
        let mut l: usize = 0;
        while l < row.len()
            invariant
                h < assign@.len(),
                l <= row@.len(),
                all == rows(assign@),
                row == &assign@[h as int],
                names_commits(all, commits@.len()),
                forall|j: int| 0 <= j < l ==> stays(commits.deep_view(), #[trigger] all[h as int][j]),
            decreases row@.len() - l,
        {
            assert(all[h as int][l as int] == row@[l as int]);
            if let Some(k) = row[l] {
                if commits[k].branch.is_some() {
                    assert(!stays(commits.deep_view(), all[h as int][l as int]));
                    return true;
                }
            }
            l += 1;
        }
        h += 1;
    }
    false
}

fn has_staying_change(
    file: &FileDiff,
    assign: &Vec<Vec<Option<usize>>>,
    commits: &[CommitSpec],
) -> (r: bool)
    requires
        covers(rows(assign@), file.hunks@),
        names_commits(rows(assign@), commits@.len()),
    ensures
        r == change_stays(commits.deep_view(), file.hunks@, rows(assign@)),
{
    let ghost all = rows(assign@);
    let hunks = &file.hunks;
    let mut h: usize = 0;
    while h < hunks.len()
        invariant
            h <= hunks@.len(),
            hunks == &file.hunks,
            all == rows(assign@),
            covers(all, file.hunks@),
            names_commits(all, commits@.len()),
            forall|i: int, j: int|
                0 <= i < h && 0 <= j < hunks@[i].lines@.len() && hunks@[i].lines@[j].change()
                    ==> !stays(commits.deep_view(), #[trigger] all[i][j]),
        decreases hunks@.len() - h,
    {
        let lines = &hunks[h].lines;
        assert(all[h as int].len() >= lines@.len());
        let row = &assign[h];
        let mut l: usize = 0;
        while l < lines.len()
            invariant
                h < hunks@.len() <= assign@.len(),
                hunks == &file.hunks,
                l <= lines@.len() <= row@.len(),
                lines == &hunks@[h as int].lines,
                all == rows(assign@),
                row == &assign@[h as int],
                names_commits(all, commits@.len()),
                forall|j: int|
                    0 <= j < l && lines@[j].change() ==> !stays(
                        commits.deep_view(),
                        #[trigger] all[h as int][j],
                    ),
            decreases lines@.len() - l,
        {
            assert(all[h as int][l as int] == row@[l as int]);
            if lines[l].is_change() {
                let keeps: bool = match row[l] {
                    Some(k) => commits[k].branch.is_none(),
                    None => true,
                };
                if keeps {
                    assert(stays(commits.deep_view(), all[h as int][l as int]));
                    return true;
                }
            }
            l += 1;
        }
        h += 1;
    }
    false
}

/// The assignments with `KEEP` for the lines that are not assigned.
pub open spec fn marked_row(row: Seq<Option<usize>>) -> Seq<Option<usize>> {
    row.map_values(
        |a: Option<usize>|
            match a {
                Some(k) => Some(k),
                None => Some(usize::MAX),
            },
    )
}

fn mark_kept(assign: &Vec<Vec<Option<usize>>>) -> (r: Vec<Vec<Option<usize>>>)
    ensures
        r@.len() == assign@.len(),
        forall|h: int| 0 <= h < r@.len() ==> (#[trigger] r@[h])@ == marked_row(assign@[h]@),
{
    let mut out: Vec<Vec<Option<usize>>> = Vec::new();
    let mut h: usize = 0;
    while h < assign.len()
        invariant
            h <= assign@.len(),
            out@.len() == h,
            forall|i: int| 0 <= i < h ==> (#[trigger] out@[i])@ == marked_row(assign@[i]@),
        decreases assign@.len() - h,
    {
        let row = &assign[h];
        let mut marks: Vec<Option<usize>> = Vec::new();
        let mut l: usize = 0;
        while l < row.len()
            invariant
                l <= row@.len(),
                marks@ == marked_row(row@).take(l as int),
            decreases row@.len() - l,
        {
            marks.push(
                Some(
                    match row[l] {
                        Some(k) => k,
                        None => KEEP,
                    },
                ),
            );
            assert(marked_row(row@).take(l + 1) =~= marked_row(row@).take(l as int).push(
                marked_row(row@)[l as int],
            ));
            l += 1;
        }
        assert(marks@ =~= marked_row(row@));
        out.push(marks);
        h += 1;
    }
    out
}

/// The content of a file with all its lines applied.
fn staged_content(base: &Vec<u8>, file: &FileDiff, marked: &Vec<Vec<Option<usize>>>) -> (r: Vec<
    u8,
>)
    requires
        placed(file.hunks@),
        covers(rows(marked@), file.hunks@),
        forall|h: int, l: int|
            0 <= h < file.hunks@.len() && 0 <= l < file.hunks@[h].lines@.len()
                ==> #[trigger] marked@[h]@[l] is Some,
    ensures
        r@ == patched(base@, file.hunks@, all_lines(file.hunks@)),
{
    let any = |a: usize| -> (r: bool)
        ensures
            r,
        { true };
    let out = apply_file(base, file, marked, any);
    proof {
        let picked = choose|p: Seq<Seq<bool>>|
            decided(any, rows(marked@), file.hunks@, p) && out@ == #[trigger] patched(
                base@,
                file.hunks@,
                p,
            );
        let want = all_lines(file.hunks@);
        assert forall|h: int| 0 <= h < picked.len() implies picked[h] == want[h] by {
            assert(decided_row(
                any,
                rows(marked@)[h],
                file.hunks@[h].lines@.len() as int,
                picked[h],
            ));
            assert forall|l: int| 0 <= l < picked[h].len() implies picked[h][l] by {
                assert(marked@[h]@[l] is Some);
            }
            assert(picked[h] =~= want[h]);
        }
        assert(picked =~= want);
    }
    out
}

/// The content of a file with those of its lines applied that stay.
fn staying_content(
    base: &Vec<u8>,
    file: &FileDiff,
    assign: &Vec<Vec<Option<usize>>>,
    marked: &Vec<Vec<Option<usize>>>,
    commits: &[CommitSpec],
) -> (r: Vec<u8>)
    requires
        placed(file.hunks@),
        covers(rows(assign@), file.hunks@),
        marked@.len() == assign@.len(),
        forall|h: int|
            0 <= h < marked@.len() ==> (#[trigger] marked@[h])@ == marked_row(assign@[h]@),
        names_commits(rows(assign@), commits@.len()),
    ensures
        r@ == patched(base@, file.hunks@, staying(commits.deep_view(), file.hunks@, rows(assign@))),
{
    let keeps = |a: usize| -> (r: bool)
        requires
            a == usize::MAX || a < commits@.len(),
        ensures
            r == (a == usize::MAX || commits@[a as int].branch is None),
        { a == KEEP || commits[a].branch.is_none() };
    let ghost hunks = file.hunks@;
    proof {
        assert forall|h: int| 0 <= h < hunks.len() implies (#[trigger] rows(marked@)[h]).len()
            >= hunks[h].lines@.len() by {
            assert(rows(assign@)[h].len() >= hunks[h].lines@.len());
            assert(marked@[h]@ == marked_row(assign@[h]@));
        }
        assert forall|h: int, l: int|
            #![trigger marked@[h]@[l]]
            0 <= h < hunks.len() && 0 <= l < hunks[h].lines@.len() implies (
        marked@[h]@[l] matches Some(a) ==> call_requires(keeps, (a,))) by {
            assert(rows(assign@)[h].len() >= hunks[h].lines@.len());
            assert(marked@[h]@ == marked_row(assign@[h]@));
            assert(rows(assign@)[h][l] == assign@[h]@[l]);
        }
    }
    let out = apply_file(base, file, marked, keeps);
    proof {
        let picked = choose|p: Seq<Seq<bool>>|
            decided(keeps, rows(marked@), hunks, p) && out@ == #[trigger] patched(
                base@,
                hunks,
                p,
            );
        let want = staying(commits.deep_view(), hunks, rows(assign@));
        assert forall|h: int| 0 <= h < picked.len() implies picked[h] == want[h] by {
            assert(decided_row(
                keeps,
                rows(marked@)[h],
                hunks[h].lines@.len() as int,
                picked[h],
            ));
            assert(rows(assign@)[h].len() >= hunks[h].lines@.len());
            assert(marked@[h]@ == marked_row(assign@[h]@));
            assert forall|l: int| 0 <= l < picked[h].len() implies picked[h][l] == want[h][l] by {
                assert(rows(assign@)[h][l] == assign@[h]@[l]);
                assert(commits.len() == commits@.len());
                assert(marked@[h]@[l] == rows(marked@)[h][l]);
            }
            assert(picked[h] =~= want[h]);
        }
        assert(picked =~= want);
    }
    out
}

fn index_updates(
    files: &[FileDiff],
    assign: &Assignments,
    bases: &Bases,
    commits: &[CommitSpec],
) -> (r: Vec<IndexUpdate>)
    requires
        plannable(files@, grid(assign@), commits.deep_view()),
    ensures
        r.deep_view() == planned_updates(
            files@,
            grid(assign@),
            bases@,
            commits.deep_view(),
            files@.len() as int,
        ),
{
    let empty: Vec<u8> = Vec::new();
    let mut out: Vec<IndexUpdate> = Vec::new();
    let mut fi: usize = 0;
    assert(out.deep_view() =~= Seq::<UpdateView>::empty());
    while fi < files.len()
        invariant
            fi <= files@.len(),
            empty@.len() == 0,
            plannable(files@, grid(assign@), commits.deep_view()),
            out.deep_view() == planned_updates(
                files@,
                grid(assign@),
                bases@,
                commits.deep_view(),
                fi as int,
            ),
        decreases files@.len() - fi,
    {
        let file = &files[fi];
        let ghost before = out;
        let ghost all = grid(assign@)[fi as int];
        assert(plannable_file(*file, all, commits.deep_view()));
        if is_branched(&assign[fi], commits) {
            proof {
                lemma_branched(commits.deep_view(), all);
            }
            let base = base_content(bases, &file.path, &empty);
            let marked = mark_kept(&assign[fi]);
            proof {
                assert forall|h: int| 0 <= h < file.hunks@.len() implies (#[trigger] rows(
                    marked@,
                )[h]).len() >= file.hunks@[h].lines@.len() by {
                    assert(all[h].len() >= file.hunks@[h].lines@.len());
                    assert(marked@[h]@ == marked_row(assign@[fi as int]@[h]@));
                }
                assert forall|h: int, l: int|
                    0 <= h < file.hunks@.len() && 0 <= l < file.hunks@[h].lines@.len()
                    implies #[trigger] marked@[h]@[l] is Some by {
                    assert(all[h].len() >= file.hunks@[h].lines@.len());
                    assert(marked@[h]@ == marked_row(assign@[fi as int]@[h]@));
                }
            }
            let staged: Option<Vec<u8>> = if file.kind != FileKind::Deleted {
                Some(staged_content(base, file, &marked))
            } else {
                None
            };
            let kept_change = has_staying_change(file, &assign[fi], commits);
            let content: Option<Vec<u8>> = if file.kind == FileKind::Added && !kept_change {
                None
            } else {
                Some(staying_content(base, file, &assign[fi], &marked, commits))
            };
            let update = IndexUpdate {
                path: file.path.clone(),
                mode: file.mode.clone(),
                content,
                staged,
            };
            out.push(update);
            proof {
                diff::lemma_deep_push(before, out, update);
                assert(update.deep_view() == index_update(*file, all, bases@, commits.deep_view()));
            }
        }
        fi += 1;
    }
    out
}

// ---------------------------------------------------------------------------
// Whether a plan can be made.

fn are_placed(hunks: &Vec<Hunk>) -> (r: bool)
    ensures
        r == placed(hunks@),
{
    let mut h: usize = 0;
    while h < hunks.len()
        invariant
            h <= hunks@.len(),
            forall|i: int|
                0 <= i < h ==> (#[trigger] hunks@[i]).old_count > 0 ==> hunks@[i].old_start > 0,
        decreases hunks@.len() - h,
    {
        if hunks[h].old_count > 0 && hunks[h].old_start == 0 {
            return false;
        }
        h += 1;
    }
    true
}

fn is_covered(assign: &Vec<Vec<Option<usize>>>, hunks: &Vec<Hunk>) -> (r: bool)
    ensures
        r == covers(rows(assign@), hunks@),
{
    let ghost all = rows(assign@);
    if assign.len() < hunks.len() {
        return false;
    }
    let mut h: usize = 0;
    while h < hunks.len()
        invariant
            h <= hunks@.len() <= assign@.len(),
            all == rows(assign@),
            forall|i: int| 0 <= i < h ==> (#[trigger] all[i]).len() >= hunks@[i].lines@.len(),
        decreases hunks@.len() - h,
    {
        assert(all[h as int] == assign@[h as int]@);
        if assign[h].len() < hunks[h].lines.len() {
            return false;
        }
        h += 1;
    }
    true
}

/// Whether a line is assigned, and whether only commits that there are get lines.
fn scan_names(assign: &Vec<Vec<Option<usize>>>, n_commits: usize) -> (r: (bool, bool))
    ensures
        r.0 == worked_on(rows(assign@)),
        r.1 == names_commits(rows(assign@), n_commits as nat),
{
    let ghost all = rows(assign@);
    let mut any = false;
    let mut named = true;
    let mut h: usize = 0;
    while h < assign.len()
        invariant
            h <= assign@.len(),
            all == rows(assign@),
            any ==> worked_on(all),
            !any ==> forall|i: int, j: int|
                0 <= i < h && 0 <= j < all[i].len() ==> #[trigger] all[i][j] is None,
            !named ==> !names_commits(all, n_commits as nat),
            named ==> forall|i: int, j: int|
                0 <= i < h && 0 <= j < all[i].len() ==> (#[trigger] all[i][j] matches Some(k) ==> k
                    < n_commits),
        decreases assign@.len() - h,
    {
        let row = &assign[h];
        let mut l: usize = 0;
        while l < row.len()
            invariant
                h < assign@.len(),
                l <= row@.len(),
                all == rows(assign@),
                row == &assign@[h as int],
                any ==> worked_on(all),
                !any ==> forall|i: int, j: int|
                    0 <= i < h && 0 <= j < all[i].len() ==> #[trigger] all[i][j] is None,
                !any ==> forall|j: int| 0 <= j < l ==> #[trigger] all[h as int][j] is None,
                !named ==> !names_commits(all, n_commits as nat),
                named ==> forall|i: int, j: int|
                    0 <= i < h && 0 <= j < all[i].len() ==> (
                    #[trigger] all[i][j] matches Some(k) ==> k < n_commits),
                named ==> forall|j: int|
                    0 <= j < l ==> (#[trigger] all[h as int][j] matches Some(k) ==> k < n_commits),
            decreases row@.len() - l,
        {
            assert(all[h as int][l as int] == row@[l as int]);
            if let Some(k) = row[l] {
                any = true;
                assert(all[h as int][l as int] is Some);
                if k >= n_commits {
                    named = false;
                }
            }
            l += 1;
        }
        h += 1;
    }
    (any, named)
}

fn is_rebuilt(file: &FileDiff, assign: &Vec<Vec<Option<usize>>>, commits: &[CommitSpec]) -> (r:
    bool)
    requires
        names_commits(rows(assign@), commits@.len()),
        covers(rows(assign@), file.hunks@),
    ensures
        r == rebuilt(*file, rows(assign@), commits.deep_view()),
{
    let ghost all = rows(assign@);
    let ghost view = commits.deep_view();
    if is_branched(assign, commits) {
        return true;
    }
    let mut ci: usize = 0;
    while ci < commits.len()
        invariant
            ci <= commits@.len(),
            all == rows(assign@),
            view == commits.deep_view(),
            covers(all, file.hunks@),
            forall|c: int|
                0 <= c < ci && #[trigger] touched(all, c) ==> removed(*file, all, view, c),
        decreases commits@.len() - ci,
    {
        if is_touched(assign, ci) && !(file.kind == FileKind::Deleted && all_belong(
            file,
            assign,
            commits,
            ci,
        )) {
            assert(touched(all, ci as int) && !removed(*file, all, view, ci as int));
            return true;
        }
        ci += 1;
    }
    false
}

/// Whether the assignments can be planned with.
pub fn can_plan(files: &[FileDiff], assign: &Assignments, commits: &[CommitSpec]) -> (r: bool)
    ensures
        r == plannable(files@, grid(assign@), commits.deep_view()),
{
    let ghost all = grid(assign@);
    let ghost view = commits.deep_view();
    if assign.len() < files.len() {
        return false;
    }
    let mut fi: usize = 0;
    while fi < files.len()
        invariant
            fi <= files@.len() <= assign@.len(),
            all == grid(assign@),
            view == commits.deep_view(),
            forall|f: int| 0 <= f < fi ==> plannable_file(files@[f], #[trigger] all[f], view),
        decreases files@.len() - fi,
    {
        let file = &files[fi];
        assert(all[fi as int] == rows(assign@[fi as int]@));
        let (any, named) = scan_names(&assign[fi], commits.len());
        if !named {
            assert(!plannable_file(*file, all[fi as int], view));
            return false;
        }
        if any {
            if !is_covered(&assign[fi], &file.hunks) || (is_rebuilt(file, &assign[fi], commits)
                && !are_placed(&file.hunks)) {
                assert(!plannable_file(*file, all[fi as int], view));
                return false;
            }
        } else {
            proof {
                lemma_nothing_rebuilt(*file, all[fi as int], view);
            }
        }
        fi += 1;
    }
    true
}

proof fn lemma_nothing_rebuilt(
    file: FileDiff,
    assign: Seq<Seq<Option<usize>>>,
    commits: Seq<SpecView>,
)
    requires
        !worked_on(assign),
    ensures
        !rebuilt(file, assign, commits),
{
    if branched(commits, assign) {
        lemma_branched(commits, assign);
    }
    assert forall|ci: int| 0 <= ci < commits.len() implies !(#[trigger] touched(assign, ci)) by {
        if touched(assign, ci) {
            lemma_touched(assign, ci);
        }
    }
}

} // verus!
