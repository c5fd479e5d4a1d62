//! What holds of every plan: which lines end up where.
use vstd::prelude::*;

use crate::app::AppView;
use crate::diff::{DiffLine, FileDiff, FileKind, Hunk, LineKind};
use crate::headless;
use crate::headless::{ApplyError, ApplyIn};
use crate::model;
use crate::model::{CommitView, PatchState, SpecView};
use crate::steps;

verus! {

// ---------------------------------------------------------------------------
// Contents.

/// The lines of a text make up the text.
pub proof fn law_lines_make_up_the_text(b: Seq<u8>)
    ensures
        model::byte_lines(b).flatten() == b,
    decreases b.len(),
{
    if b.len() == 0 {
        assert(model::byte_lines(b).flatten() =~= b);
    } else {
        let n = model::first_line_len(b) as int;
        model::lemma_first_line_len(b);
        law_lines_make_up_the_text(b.skip(n));
        let rest = model::byte_lines(b.skip(n));
        lemma_flatten_front(b.take(n), rest);
        assert(b.take(n) + b.skip(n) =~= b);
    }
}

proof fn lemma_flatten_front(first: Seq<u8>, rest: Seq<Seq<u8>>)
    ensures
        (seq![first] + rest).flatten() == first + rest.flatten(),
{
    let all = seq![first] + rest;
    assert(all.drop_first() =~= rest);
    assert(all.first() == first);
}

proof fn lemma_flatten_push(parts: Seq<Seq<u8>>, last: Seq<u8>)
    ensures
        parts.push(last).flatten() == parts.flatten() + last,
{
    parts.lemma_flatten_push(last);
}

proof fn lemma_flatten_more(parts: Seq<Seq<u8>>, i: int, j: int)
    requires
        0 <= i <= j <= parts.len(),
    ensures
        parts.take(j).flatten() == parts.take(i).flatten() + parts.subrange(i, j).flatten(),
    decreases j - i,
{
    if i == j {
        assert(parts.subrange(i, j) =~= Seq::<Seq<u8>>::empty());
        assert(parts.take(i).flatten() + Seq::<u8>::empty() =~= parts.take(i).flatten());
    } else {
        lemma_flatten_more(parts, i, j - 1);
        assert(parts.take(j) =~= parts.take(j - 1).push(parts[j - 1]));
        assert(parts.subrange(i, j) =~= parts.subrange(i, j - 1).push(parts[j - 1]));
        lemma_flatten_push(parts.take(j - 1), parts[j - 1]);
        lemma_flatten_push(parts.subrange(i, j - 1), parts[j - 1]);
        assert(parts.take(i).flatten() + (parts.subrange(i, j - 1).flatten() + parts[j - 1]) =~= (
        parts.take(i).flatten() + parts.subrange(i, j - 1).flatten()) + parts[j - 1]);
    }
}

/// So far the old lines were copied, and nothing else.
spec fn untouched(old: Seq<Seq<u8>>, st: PatchState) -> bool {
    &&& 0 <= st.cursor
    &&& st.out == old.take(
        if st.cursor < old.len() {
            st.cursor
        } else {
            old.len() as int
        },
    ).flatten()
}

proof fn lemma_kept_untouched(old: Seq<Seq<u8>>, st: PatchState)
    requires
        untouched(old, st),
    ensures
        untouched(old, model::kept(old, st)),
{
    if st.cursor < old.len() {
        assert(old.take(st.cursor + 1) =~= old.take(st.cursor).push(old[st.cursor]));
        lemma_flatten_push(old.take(st.cursor), old[st.cursor]);
    }
}

proof fn lemma_kept_until_untouched(old: Seq<Seq<u8>>, st: PatchState, until: int)
    requires
        untouched(old, st),
    ensures
        untouched(old, model::kept_until(old, st, until)),
{
    let stop = if until < old.len() {
        until
    } else {
        old.len() as int
    };
    if st.cursor < stop {
        lemma_flatten_more(old, st.cursor, stop);
    }
}

/// No change is among the picked lines.
pub open spec fn no_changes(hunks: Seq<Hunk>, picked: Seq<Seq<bool>>) -> bool {
    forall|h: int, l: int|
        0 <= h < hunks.len() && 0 <= l < hunks[h].lines@.len()
            && hunks[h].lines@[l].change() ==> !(#[trigger] picked[h][l])
}

proof fn lemma_lines_untouched(
    old: Seq<Seq<u8>>,
    st: PatchState,
    lines: Seq<DiffLine>,
    picked: Seq<bool>,
    n: int,
)
    requires
        untouched(old, st),
        0 <= n <= lines.len(),
        forall|l: int| 0 <= l < lines.len() && lines[l].change() ==> !(#[trigger] picked[l]),
    ensures
        untouched(old, model::patch_lines(old, st, lines, picked, n)),
    decreases n,
{
    if n > 0 {
        lemma_lines_untouched(old, st, lines, picked, n - 1);
        let before = model::patch_lines(old, st, lines, picked, n - 1);
        lemma_kept_untouched(old, before);
        let line = lines[n - 1];
        if line.kind != LineKind::Context {
            assert(line.change());
            assert(!picked[n - 1]);
        }
    }
}

proof fn lemma_hunks_untouched(
    old: Seq<Seq<u8>>,
    hunks: Seq<Hunk>,
    picked: Seq<Seq<bool>>,
    n: int,
)
    requires
        0 <= n <= hunks.len(),
        no_changes(hunks, picked),
    ensures
        untouched(old, model::patch_hunks(old, hunks, picked, n)),
    decreases n,
{
    if n <= 0 {
        assert(old.take(0) =~= Seq::<Seq<u8>>::empty());
        assert(old.take(0).flatten() =~= Seq::<u8>::empty());
    } else {
        lemma_hunks_untouched(old, hunks, picked, n - 1);
        let st = model::patch_hunks(old, hunks, picked, n - 1);
        let at = model::kept_until(old, st, model::hunk_start(hunks[n - 1]));
        lemma_kept_until_untouched(old, st, model::hunk_start(hunks[n - 1]));
        assert forall|l: int|
            0 <= l < hunks[n - 1].lines@.len() && hunks[n - 1].lines@[l].change() implies !(
        #[trigger] picked[n - 1][l]) by {}
        lemma_lines_untouched(
            old,
            at,
            hunks[n - 1].lines@,
            picked[n - 1],
            hunks[n - 1].lines@.len() as int,
        );
    }
}

/// A file of which no change is picked keeps its content.
pub proof fn law_no_changes_keep_the_base(
    base: Seq<u8>,
    hunks: Seq<Hunk>,
    picked: Seq<Seq<bool>>,
)
    requires
        no_changes(hunks, picked),
    ensures
        model::patched(base, hunks, picked) == base,
{
    let old = model::byte_lines(base);
    let st = model::patch_hunks(old, hunks, picked, hunks.len() as int);
    lemma_hunks_untouched(old, hunks, picked, hunks.len() as int);
    lemma_kept_until_untouched(old, st, old.len() as int);
    law_lines_make_up_the_text(base);
    assert(old.take(old.len() as int) =~= old);
}

/// The same changes are among the picked lines.
pub open spec fn same_changes(
    hunks: Seq<Hunk>,
    p: Seq<Seq<bool>>,
    q: Seq<Seq<bool>>,
) -> bool {
    forall|h: int, l: int|
        #![trigger p[h][l]]
        #![trigger q[h][l]]
        0 <= h < hunks.len() && 0 <= l < hunks[h].lines@.len() && hunks[h].lines@[l].change()
            ==> p[h][l] == q[h][l]
}

proof fn lemma_same_lines(
    old: Seq<Seq<u8>>,
    st: PatchState,
    lines: Seq<DiffLine>,
    p: Seq<bool>,
    q: Seq<bool>,
    n: int,
)
    requires
        0 <= n <= lines.len(),
        forall|l: int| 0 <= l < lines.len() && lines[l].change() ==> #[trigger] p[l] == q[l],
    ensures
        model::patch_lines(old, st, lines, p, n) == model::patch_lines(old, st, lines, q, n),
    decreases n,
{
    if n > 0 {
        lemma_same_lines(old, st, lines, p, q, n - 1);
        if lines[n - 1].kind != LineKind::Context {
            assert(lines[n - 1].change());
            assert(p[n - 1] == q[n - 1]);
        }
    }
}

proof fn lemma_same_hunks(
    old: Seq<Seq<u8>>,
    hunks: Seq<Hunk>,
    p: Seq<Seq<bool>>,
    q: Seq<Seq<bool>>,
    n: int,
)
    requires
        0 <= n <= hunks.len(),
        same_changes(hunks, p, q),
    ensures
        model::patch_hunks(old, hunks, p, n) == model::patch_hunks(old, hunks, q, n),
    decreases n,
{
    if n > 0 {
        lemma_same_hunks(old, hunks, p, q, n - 1);
        let st = model::kept_until(
            old,
            model::patch_hunks(old, hunks, p, n - 1),
            model::hunk_start(hunks[n - 1]),
        );
        lemma_same_lines(
            old,
            st,
            hunks[n - 1].lines@,
            p[n - 1],
            q[n - 1],
            hunks[n - 1].lines@.len() as int,
        );
    }
}

/// The content of a file depends only on the changes that are picked.
pub proof fn law_content_follows_the_changes(
    base: Seq<u8>,
    hunks: Seq<Hunk>,
    p: Seq<Seq<bool>>,
    q: Seq<Seq<bool>>,
)
    requires
        same_changes(hunks, p, q),
    ensures
        model::patched(base, hunks, p) == model::patched(base, hunks, q),
{
    lemma_same_hunks(model::byte_lines(base), hunks, p, q, hunks.len() as int);
}

/// When all changes of a file are among the lines of a commit and those before
/// it on the same branch, the commit gives the file the content that is staged.
pub proof fn law_last_commit_has_what_is_staged(
    file: FileDiff,
    assign: Seq<Seq<Option<usize>>>,
    bases: Map<Seq<char>, Vec<u8>>,
    commits: Seq<SpecView>,
    ci: int,
)
    requires
        model::all_changes(
            file.hunks@,
            model::belonging(commits, ci, file.hunks@, assign),
        ),
    ensures
        model::planned_change(file, assign, bases, commits, ci).content == model::index_update(
            file,
            assign,
            bases,
            commits,
        ).staged,
{
    let hunks = file.hunks@;
    let p = model::belonging(commits, ci, hunks, assign);
    let q = model::all_lines(hunks);
    assert(same_changes(hunks, p, q));
    law_content_follows_the_changes(model::base_of(bases, file.path@), hunks, p, q);
}

/// A commit on another branch has none of the lines of this one: changing what
/// is assigned to other branches does not change what a commit does to a file.
pub proof fn law_branches_are_independent(
    file: FileDiff,
    a: Seq<Seq<Option<usize>>>,
    b: Seq<Seq<Option<usize>>>,
    bases: Map<Seq<char>, Vec<u8>>,
    commits: Seq<SpecView>,
    ci: int,
)
    requires
        forall|h: int, l: int|
            #![trigger a[h][l]]
            #![trigger b[h][l]]
            0 <= h < file.hunks@.len() && 0 <= l < file.hunks@[h].lines@.len() ==> a[h][l]
                == b[h][l] || (!on_branch(commits, commits[ci].branch, a[h][l]) && !on_branch(
                commits,
                commits[ci].branch,
                b[h][l],
            )),
    ensures
        model::planned_change(file, a, bases, commits, ci) == model::planned_change(
            file,
            b,
            bases,
            commits,
            ci,
        ),
{
    let p = model::belonging(commits, ci, file.hunks@, a);
    let q = model::belonging(commits, ci, file.hunks@, b);
    assert forall|h: int| 0 <= h < file.hunks@.len() implies #[trigger] p[h] == q[h] by {
        assert forall|l: int| 0 <= l < file.hunks@[h].lines@.len() implies #[trigger] p[h][l]
            == q[h][l] by {
            assert(a[h][l] == b[h][l] || (!on_branch(commits, commits[ci].branch, a[h][l])
                && !on_branch(commits, commits[ci].branch, b[h][l])));
        }
        assert(p[h] =~= q[h]);
    }
    assert(p =~= q);
}

/// Whether a line is assigned to a commit on the given branch.
pub open spec fn on_branch(
    commits: Seq<SpecView>,
    branch: Option<Seq<char>>,
    a: Option<usize>,
) -> bool {
    a matches Some(k) && commits[k as int].branch == branch
}

/// On one branch, the lines of a later commit include those of an earlier one:
/// contents build up.
pub proof fn law_contents_build_up(commits: Seq<SpecView>, ci: int, cj: int, a: Option<usize>)
    requires
        ci <= cj,
        commits[ci].branch == commits[cj].branch,
        model::belongs(commits, ci, a),
    ensures
        model::belongs(commits, cj, a),
{
}

/// A deleted file is removed by the commit that has, with those before it, all
/// its changes; until then it has the lines that are left. Other files are
/// never removed.
pub proof fn law_removed_when_all_is_assigned(
    file: FileDiff,
    assign: Seq<Seq<Option<usize>>>,
    bases: Map<Seq<char>, Vec<u8>>,
    commits: Seq<SpecView>,
    ci: int,
)
    ensures
        model::planned_change(file, assign, bases, commits, ci).content is None <==> (file.kind
            == FileKind::Deleted && model::all_changes(
            file.hunks@,
            model::belonging(commits, ci, file.hunks@, assign),
        )),
{
}

/// When all changes of a file go to other branches, nothing of them stays
/// staged: an added file leaves the index, any other file gets its old content
/// back.
pub proof fn law_branched_changes_leave_the_index(
    file: FileDiff,
    assign: Seq<Seq<Option<usize>>>,
    bases: Map<Seq<char>, Vec<u8>>,
    commits: Seq<SpecView>,
)
    requires
        !model::change_stays(commits, file.hunks@, assign),
    ensures
        model::index_update(file, assign, bases, commits).content == (if file.kind
            == FileKind::Added {
            None
        } else {
            Some(model::base_of(bases, file.path@))
        }),
{
    let hunks = file.hunks@;
    let p = model::staying(commits, hunks, assign);
    assert forall|h: int, l: int|
        0 <= h < hunks.len() && 0 <= l < hunks[h].lines@.len()
            && hunks[h].lines@[l].change() implies !(#[trigger] p[h][l]) by {
        assert(!model::stays(commits, assign[h][l]));
    }
    law_no_changes_keep_the_base(model::base_of(bases, file.path@), hunks, p);
}

/// When no change of a file goes to another branch, what stays staged is what
/// was staged.
pub proof fn law_staying_changes_stay(
    file: FileDiff,
    assign: Seq<Seq<Option<usize>>>,
    bases: Map<Seq<char>, Vec<u8>>,
    commits: Seq<SpecView>,
)
    requires
        file.kind == FileKind::Modified,
        model::all_changes(file.hunks@, model::staying(commits, file.hunks@, assign)),
    ensures
        model::index_update(file, assign, bases, commits).content == model::index_update(
            file,
            assign,
            bases,
            commits,
        ).staged,
{
    let hunks = file.hunks@;
    let p = model::staying(commits, hunks, assign);
    let q = model::all_lines(hunks);
    assert(same_changes(hunks, p, q));
    law_content_follows_the_changes(model::base_of(bases, file.path@), hunks, p, q);
}

// ---------------------------------------------------------------------------
// Hunks that tell two texts apart.

/// How many of the first `n` lines of a hunk stand in the old text.
pub open spec fn old_lines(lines: Seq<DiffLine>, n: int) -> int
    decreases n,
{
    if n <= 0 {
        0
    } else if lines[n - 1].kind == LineKind::Add {
        old_lines(lines, n - 1)
    } else {
        old_lines(lines, n - 1) + 1
    }
}

/// How many of the first `n` lines of a hunk stand in the new text.
pub open spec fn new_lines(lines: Seq<DiffLine>, n: int) -> int
    decreases n,
{
    if n <= 0 {
        0
    } else if lines[n - 1].kind == LineKind::Del {
        new_lines(lines, n - 1)
    } else {
        new_lines(lines, n - 1) + 1
    }
}

/// The number of new lines before a hunk.
pub open spec fn new_hunk_start(hunk: Hunk) -> int {
    if hunk.new_count == 0 {
        hunk.new_start as int
    } else {
        hunk.new_start - 1
    }
}

/// The number of old lines up to the end of the first `n` hunks.
pub open spec fn old_end(hunks: Seq<Hunk>, n: int) -> int {
    if n <= 0 {
        0
    } else {
        model::hunk_start(hunks[n - 1]) + old_lines(
            hunks[n - 1].lines@,
            hunks[n - 1].lines@.len() as int,
        )
    }
}

/// The number of new lines up to the end of the first `n` hunks.
pub open spec fn new_end(hunks: Seq<Hunk>, n: int) -> int {
    if n <= 0 {
        0
    } else {
        new_hunk_start(hunks[n - 1]) + new_lines(
            hunks[n - 1].lines@,
            hunks[n - 1].lines@.len() as int,
        )
    }
}

/// The old lines from `i` to `s` are the new lines from `j` to `t`.
pub open spec fn same_between(
    old: Seq<Seq<u8>>,
    new: Seq<Seq<u8>>,
    i: int,
    s: int,
    j: int,
    t: int,
) -> bool {
    &&& 0 <= i <= s <= old.len()
    &&& 0 <= j <= t <= new.len()
    &&& old.subrange(i, s) == new.subrange(j, t)
}

/// A line of a hunk is true of the old text at line `i` and the new text at
/// line `j`.
pub open spec fn line_is_true(
    old: Seq<Seq<u8>>,
    new: Seq<Seq<u8>>,
    line: DiffLine,
    i: int,
    j: int,
) -> bool {
    match line.kind {
        LineKind::Context => 0 <= i < old.len() && 0 <= j < new.len() && old[i] == new[j],
        LineKind::Del => 0 <= i < old.len(),
        LineKind::Add => 0 <= j < new.len() && new[j] == model::line_bytes(line),
    }
}

/// The hunks tell the two texts apart: each line is true where its hunk says it
/// stands, and what lies between the hunks is the same in both.
pub open spec fn tell_apart(old: Seq<Seq<u8>>, new: Seq<Seq<u8>>, hunks: Seq<Hunk>) -> bool {
    &&& forall|h: int|
        0 <= h < hunks.len() ==> same_between(
            old,
            new,
            old_end(hunks, h),
            model::hunk_start(#[trigger] hunks[h]),
            new_end(hunks, h),
            new_hunk_start(hunks[h]),
        )
    &&& forall|h: int, l: int|
        0 <= h < hunks.len() && 0 <= l < hunks[h].lines@.len() ==> line_is_true(
            old,
            new,
            #[trigger] hunks[h].lines@[l],
            model::hunk_start(hunks[h]) + old_lines(hunks[h].lines@, l),
            new_hunk_start(hunks[h]) + new_lines(hunks[h].lines@, l),
        )
    &&& same_between(
        old,
        new,
        old_end(hunks, hunks.len() as int),
        old.len() as int,
        new_end(hunks, hunks.len() as int),
        new.len() as int,
    )
}

/// So far the new text was built up to line `j`, and the old one is done with up
/// to line `i`.
spec fn built(new: Seq<Seq<u8>>, st: PatchState, i: int, j: int) -> bool {
    &&& 0 <= j <= new.len()
    &&& st.cursor == i
    &&& st.out == new.take(j).flatten()
}

proof fn lemma_gap(
    old: Seq<Seq<u8>>,
    new: Seq<Seq<u8>>,
    st: PatchState,
    i: int,
    s: int,
    j: int,
    t: int,
)
    requires
        built(new, st, i, j),
        same_between(old, new, i, s, j, t),
    ensures
        built(new, model::kept_until(old, st, s), s, t),
{
    lemma_flatten_more(new, j, t);
    assert(old.subrange(i, s).len() == new.subrange(j, t).len());
    if i == s {
        assert(new.subrange(j, t) =~= Seq::<Seq<u8>>::empty());
        assert(new.take(j).flatten() + Seq::<u8>::empty() =~= new.take(j).flatten());
    }
}

proof fn lemma_true_lines(
    old: Seq<Seq<u8>>,
    new: Seq<Seq<u8>>,
    st: PatchState,
    hunk: Hunk,
    picked: Seq<bool>,
    n: int,
)
    requires
        0 <= n <= hunk.lines@.len(),
        built(new, st, model::hunk_start(hunk), new_hunk_start(hunk)),
        forall|l: int| 0 <= l < hunk.lines@.len() ==> #[trigger] picked[l],
        forall|l: int|
            0 <= l < hunk.lines@.len() ==> line_is_true(
                old,
                new,
                #[trigger] hunk.lines@[l],
                model::hunk_start(hunk) + old_lines(hunk.lines@, l),
                new_hunk_start(hunk) + new_lines(hunk.lines@, l),
            ),
    ensures
        built(
            new,
            model::patch_lines(old, st, hunk.lines@, picked, n),
            model::hunk_start(hunk) + old_lines(hunk.lines@, n),
            new_hunk_start(hunk) + new_lines(hunk.lines@, n),
        ),
    decreases n,
{
    if n > 0 {
        lemma_true_lines(old, new, st, hunk, picked, n - 1);
        let j = new_hunk_start(hunk) + new_lines(hunk.lines@, n - 1);
        let line = hunk.lines@[n - 1];
        assert(picked[n - 1]);
        if line.kind != LineKind::Del {
            assert(new.take(j + 1) =~= new.take(j).push(new[j]));
            lemma_flatten_push(new.take(j), new[j]);
        }
    }
}

proof fn lemma_true_hunks(
    old: Seq<Seq<u8>>,
    new: Seq<Seq<u8>>,
    hunks: Seq<Hunk>,
    picked: Seq<Seq<bool>>,
    n: int,
)
    requires
        0 <= n <= hunks.len(),
        tell_apart(old, new, hunks),
        picked == model::all_lines(hunks),
    ensures
        built(
            new,
            model::patch_hunks(old, hunks, picked, n),
            old_end(hunks, n),
            new_end(hunks, n),
        ),
    decreases n,
{
    if n <= 0 {
        assert(new.take(0) =~= Seq::<Seq<u8>>::empty());
        assert(new.take(0).flatten() =~= Seq::<u8>::empty());
    } else {
        lemma_true_hunks(old, new, hunks, picked, n - 1);
        let hunk = hunks[n - 1];
        let st = model::patch_hunks(old, hunks, picked, n - 1);
        lemma_gap(
            old,
            new,
            st,
            old_end(hunks, n - 1),
            model::hunk_start(hunk),
            new_end(hunks, n - 1),
            new_hunk_start(hunk),
        );
        assert forall|l: int| 0 <= l < hunk.lines@.len() implies line_is_true(
            old,
            new,
            #[trigger] hunk.lines@[l],
            model::hunk_start(hunk) + old_lines(hunk.lines@, l),
            new_hunk_start(hunk) + new_lines(hunk.lines@, l),
        ) by {
            assert(hunks[n - 1].lines@[l] == hunk.lines@[l]);
        }
        lemma_true_lines(
            old,
            new,
            model::kept_until(old, st, model::hunk_start(hunk)),
            hunk,
            picked[n - 1],
            hunk.lines@.len() as int,
        );
    }
}

/// When the hunks tell the old content from the new one, all of them together
/// make the new one of the old one.
pub proof fn law_all_lines_make_the_new_content(
    base: Seq<u8>,
    target: Seq<u8>,
    hunks: Seq<Hunk>,
)
    requires
        tell_apart(model::byte_lines(base), model::byte_lines(target), hunks),
    ensures
        model::patched(base, hunks, model::all_lines(hunks)) == target,
{
    let old = model::byte_lines(base);
    let new = model::byte_lines(target);
    let n = hunks.len() as int;
    let st = model::patch_hunks(old, hunks, model::all_lines(hunks), n);
    lemma_true_hunks(old, new, hunks, model::all_lines(hunks), n);
    lemma_gap(
        old,
        new,
        st,
        old_end(hunks, n),
        old.len() as int,
        new_end(hunks, n),
        new.len() as int,
    );
    assert(new.take(new.len() as int) =~= new);
    law_lines_make_up_the_text(target);
}

// ---------------------------------------------------------------------------
// Which commits and which files.

/// Whether a commit has a line of one of the first `n` files.
pub open spec fn used(assign: Seq<Seq<Seq<Option<usize>>>>, n: int, ci: int) -> bool {
    exists|f: int| 0 <= f < n && model::touched(#[trigger] assign[f], ci)
}

/// How many of the first `n` commits have a line.
pub open spec fn used_before(
    assign: Seq<Seq<Seq<Option<usize>>>>,
    n_files: int,
    n: int,
) -> nat
    decreases n,
{
    if n <= 0 {
        0
    } else {
        used_before(assign, n_files, n - 1) + if used(assign, n_files, n - 1) {
            1nat
        } else {
            0nat
        }
    }
}

/// A commit changes a file exactly when it has a line.
pub proof fn lemma_changes_of_used(
    files: Seq<FileDiff>,
    assign: Seq<Seq<Seq<Option<usize>>>>,
    bases: Map<Seq<char>, Vec<u8>>,
    commits: Seq<SpecView>,
    ci: int,
    n: int,
)
    ensures
        model::planned_changes(files, assign, bases, commits, ci, n).len() > 0 <==> used(
            assign,
            n,
            ci,
        ),
    decreases n,
{
    if n > 0 {
        lemma_changes_of_used(files, assign, bases, commits, ci, n - 1);
        if used(assign, n - 1, ci) {
            let f = choose|f: int| 0 <= f < n - 1 && model::touched(#[trigger] assign[f], ci);
            assert(model::touched(assign[f], ci));
        }
        if model::touched(assign[n - 1], ci) {
            assert(used(assign, n, ci));
        }
        if used(assign, n, ci) && !model::touched(assign[n - 1], ci) {
            let f = choose|f: int| 0 <= f < n && model::touched(#[trigger] assign[f], ci);
            assert(f < n - 1);
            assert(used(assign, n - 1, ci));
        }
    }
}

/// The plan has exactly the commits that have a line, in their order, each with
/// its message and branch; the others are skipped.
pub proof fn law_plan_has_the_used_commits(
    files: Seq<FileDiff>,
    assign: Seq<Seq<Seq<Option<usize>>>>,
    bases: Map<Seq<char>, Vec<u8>>,
    commits: Seq<SpecView>,
    n: int,
)
    requires
        0 <= n,
    ensures
        model::planned_commits(files, assign, bases, commits, n).len() == used_before(
            assign,
            files.len() as int,
            n,
        ),
        forall|ci: int|
            0 <= ci < n && #[trigger] used(assign, files.len() as int, ci) ==> {
                let i = used_before(assign, files.len() as int, ci) as int;
                &&& i < model::planned_commits(files, assign, bases, commits, n).len()
                &&& model::planned_commits(files, assign, bases, commits, n)[i] == (CommitView {
                    message: commits[ci].message,
                    branch: commits[ci].branch,
                    files: model::planned_changes(
                        files,
                        assign,
                        bases,
                        commits,
                        ci,
                        files.len() as int,
                    ),
                })
            },
    decreases n,
{
    if n > 0 {
        let m = files.len() as int;
        law_plan_has_the_used_commits(files, assign, bases, commits, n - 1);
        lemma_changes_of_used(files, assign, bases, commits, n - 1, m);
        assert forall|ci: int| 0 <= ci < n && #[trigger] used(assign, m, ci) implies {
            let i = used_before(assign, m, ci) as int;
            &&& i < model::planned_commits(files, assign, bases, commits, n).len()
            &&& model::planned_commits(files, assign, bases, commits, n)[i] == (CommitView {
                message: commits[ci].message,
                branch: commits[ci].branch,
                files: model::planned_changes(files, assign, bases, commits, ci, m),
            })
        } by {
            if ci < n - 1 {
                assert(used(assign, m, ci));
            }
        }
    }
}

/// Every commit of a plan changes a file.
pub proof fn law_no_planned_commit_is_empty(
    files: Seq<FileDiff>,
    assign: Seq<Seq<Seq<Option<usize>>>>,
    bases: Map<Seq<char>, Vec<u8>>,
    commits: Seq<SpecView>,
    n: int,
    i: int,
)
    requires
        0 <= i < model::planned_commits(files, assign, bases, commits, n).len(),
    ensures
        model::planned_commits(files, assign, bases, commits, n)[i].files.len() > 0,
    decreases n,
{
    if n > 0 {
        let before = model::planned_commits(files, assign, bases, commits, n - 1);
        if i < before.len() {
            law_no_planned_commit_is_empty(files, assign, bases, commits, n - 1, i);
        }
    }
}

/// A file without hunks, such as a binary file, is in no commit, and its staged
/// state is left alone.
pub proof fn law_files_without_hunks_are_left_alone(
    file: FileDiff,
    commits: Seq<SpecView>,
    assign: Seq<Seq<Option<usize>>>,
    ci: int,
)
    requires
        file.hunks@.len() == 0,
        steps::shaped_file(file.hunks@, assign),
    ensures
        !model::touched(assign, ci),
        !model::branched(commits, assign),
{
}

/// Without commits for other branches nothing of the index is changed: what is
/// not assigned stays staged.
pub proof fn law_without_branches_the_index_stays(
    files: Seq<FileDiff>,
    assign: Seq<Seq<Seq<Option<usize>>>>,
    bases: Map<Seq<char>, Vec<u8>>,
    commits: Seq<SpecView>,
    n: int,
)
    requires
        n <= files.len(),
        forall|f: int|
            0 <= f < files.len() ==> model::names_commits(#[trigger] assign[f], commits.len()),
        forall|c: int| 0 <= c < commits.len() ==> (#[trigger] commits[c]).branch is None,
    ensures
        model::planned_updates(files, assign, bases, commits, n).len() == 0,
    decreases n,
{
    if n > 0 {
        law_without_branches_the_index_stays(files, assign, bases, commits, n - 1);
        if model::branched(commits, assign[n - 1]) {
            let (h, l) = choose|h: int, l: int|
                0 <= h < assign[n - 1].len() && 0 <= l < assign[n - 1][h].len() && !model::stays(
                    commits,
                    #[trigger] assign[n - 1][h][l],
                );
            assert(model::names_commits(assign[n - 1], commits.len()));
            assert(assign[n - 1][h][l] matches Some(k) ==> k < commits.len());
        }
    }
}

// ---------------------------------------------------------------------------
// Requests.

/// The last of the first `n` entries for a line says which commit it goes to.
pub open spec fn last_entry(
    list: Seq<(usize, usize, usize, usize)>,
    f: int,
    h: int,
    l: int,
    n: int,
) -> Option<usize>
    decreases n,
{
    if n <= 0 {
        None
    } else if list[n - 1].0 == f && list[n - 1].1 == h && list[n - 1].2 == l {
        Some(list[n - 1].3)
    } else {
        last_entry(list, f, h, l, n - 1)
    }
}

/// A line goes to the commit that the last entry for it names; a line without
/// an entry goes to none.
pub proof fn law_last_entry_counts(
    files: Seq<FileDiff>,
    n_commits: nat,
    list: Seq<(usize, usize, usize, usize)>,
    n: int,
    f: int,
    h: int,
    l: int,
)
    requires
        0 <= n <= list.len(),
        0 <= f < files.len(),
        0 <= h < files[f].hunks@.len(),
        0 <= l < files[f].hunks@[h].lines@.len(),
    ensures
        headless::assigned(files, n_commits, list, n) matches Ok(assign) ==> assign[f][h][l]
            == last_entry(list, f, h, l, n),
    decreases n,
{
    if n > 0 {
        law_last_entry_counts(files, n_commits, list, n - 1, f, h, l);
        headless::lemma_assigned_fits(files, n_commits, list, n - 1);
        if let Ok(before) = headless::assigned(files, n_commits, list, n - 1) {
            if headless::unassignable(files, n_commits, list[n - 1]) is None {
                let (fi, hi, li, ci) = list[n - 1];
                assert(before[fi as int].len() == files[fi as int].hunks@.len());
                assert(before[fi as int][hi as int].len()
                    == files[fi as int].hunks@[hi as int].lines@.len());
            }
        }
    } else {
        assert(model::no_grid(files)[f] == model::no_rows(files[f].hunks@));
        assert(model::no_grid(files)[f][h] == model::no_row(files[f].hunks@[h]));
    }
}

/// A request whose token, messages, branches and entries are in order is
/// refused for having nothing to commit exactly when it has no entries.
pub proof fn law_nothing_assigned_means_no_entries(
    files: Seq<FileDiff>,
    bases: Map<Seq<char>, Vec<u8>>,
    request: ApplyIn,
)
    requires
        headless::accepted(files, bases, request) matches Err(e) ==> e
            == ApplyError::NothingAssigned,
    ensures
        headless::accepted(files, bases, request) is Err <==> request.assignments@.len() == 0,
{
    let specs = headless::asked_commits(request.commits@);
    let list = request.assignments@;
    let m = files.len() as int;
    let assign = headless::assigned(files, specs.len(), list, list.len() as int)->Ok_0;
    law_plan_has_the_used_commits(files, assign, bases, specs, specs.len() as int);
    lemma_entries_are_used(files, specs.len(), list);
    lemma_entry_errors(files, specs.len(), list, list.len() as int);
    assert(model::planned_commits(files, assign, bases, specs, specs.len() as int).len()
        == used_before(assign, m, specs.len() as int));
}

/// Some commit has a line if and only if there are entries.
proof fn lemma_entries_are_used(
    files: Seq<FileDiff>,
    n_commits: nat,
    list: Seq<(usize, usize, usize, usize)>,
)
    ensures
        headless::assigned(files, n_commits, list, list.len() as int) matches Ok(assign) ==> (
        used_before(assign, files.len() as int, n_commits as int) > 0 <==> list.len() > 0),
{
    let n = list.len() as int;
    let m = files.len() as int;
    if let Ok(assign) = headless::assigned(files, n_commits, list, n) {
        headless::lemma_assigned_fits(files, n_commits, list, n);
        if n > 0 {
            let (fi, hi, li, ci) = list[n - 1];
            let f = fi as int;
            assert(headless::assigned(files, n_commits, list, n - 1) is Ok);
            assert(headless::unassignable(files, n_commits, list[n - 1]) is None);
            law_last_entry_counts(files, n_commits, list, n, f, hi as int, li as int);
            assert(assign[f].len() == files[f].hunks@.len());
            assert(assign[f][hi as int].len() == files[f].hunks@[hi as int].lines@.len());
            assert(assign[f][hi as int][li as int] == Some(ci));
            assert(model::touched(assign[f], ci as int));
            assert(used(assign, m, ci as int));
            lemma_one_used(assign, m, ci as int, n_commits as int);
        } else {
            assert forall|c: int| 0 <= c < n_commits implies !used(assign, m, c) by {
                if used(assign, m, c) {
                    let f = choose|f: int| 0 <= f < m && model::touched(#[trigger] assign[f], c);
                    assert(assign[f] == model::no_rows(files[f].hunks@));
                }
            }
            lemma_none_used(assign, m, n_commits as int);
        }
    }
}

proof fn lemma_one_used(assign: Seq<Seq<Seq<Option<usize>>>>, m: int, c: int, n: int)
    requires
        0 <= c < n,
        used(assign, m, c),
    ensures
        used_before(assign, m, n) > 0,
    decreases n,
{
    if c < n - 1 {
        lemma_one_used(assign, m, c, n - 1);
    }
}

proof fn lemma_none_used(assign: Seq<Seq<Seq<Option<usize>>>>, m: int, n: int)
    requires
        forall|c: int| 0 <= c < n ==> !used(assign, m, c),
    ensures
        used_before(assign, m, n) == 0,
    decreases n,
{
    if n > 0 {
        lemma_none_used(assign, m, n - 1);
    }
}

/// A request with the token that was shown for the same changes is never
/// refused as stale, and one with another token always is.
pub proof fn law_stale_means_another_token(
    files: Seq<FileDiff>,
    bases: Map<Seq<char>, Vec<u8>>,
    request: ApplyIn,
)
    ensures
        headless::accepted(files, bases, request) == Err::<
            Seq<Seq<Seq<Option<usize>>>>,
            ApplyError,
        >(ApplyError::Stale) <==> request.token@ != headless::token_of(files),
{
    let n_commits = headless::asked_commits(request.commits@).len();
    lemma_entry_errors(files, n_commits, request.assignments@, request.assignments@.len() as int);
}

proof fn lemma_entry_errors(
    files: Seq<FileDiff>,
    n_commits: nat,
    list: Seq<(usize, usize, usize, usize)>,
    n: int,
)
    ensures
        headless::assigned(files, n_commits, list, n) matches Err(e) ==> e is OutOfRange
            || e is ContextLine || e is UnknownCommit,
    decreases n,
{
    if n > 0 {
        lemma_entry_errors(files, n_commits, list, n - 1);
    }
}

/// Every hunk of every file says where it stands.
pub open spec fn all_placed(files: Seq<FileDiff>) -> bool {
    forall|f: int| 0 <= f < files.len() ==> model::placed((#[trigger] files[f]).hunks@)
}

/// A request can be planned when the hunks say where they stand.
pub proof fn law_placed_hunks_can_be_requested(files: Seq<FileDiff>, request: ApplyIn)
    requires
        all_placed(files),
    ensures
        headless::plannable_request(files, request),
{
    let specs = headless::asked_commits(request.commits@);
    let list = request.assignments@;
    headless::lemma_assigned_fits(files, specs.len(), list, list.len() as int);
    if let Ok(assign) = headless::checked(files, request) {
        assert(headless::fits(files, assign, specs.len()));
        assert forall|f: int| 0 <= f < files.len() implies model::plannable_file(
            files[f],
            #[trigger] assign[f],
            specs,
        ) by {
            assert(assign[f].len() == files[f].hunks@.len());
            assert forall|h: int| 0 <= h < files[f].hunks@.len() implies (
            #[trigger] assign[f][h]).len() == files[f].hunks@[h].lines@.len() by {}
            assert forall|h: int, l: int|
                0 <= h < assign[f].len() && 0 <= l < assign[f][h].len() implies (
            #[trigger] assign[f][h][l] matches Some(k) ==> k < specs.len()) by {
                assert(assign[f][h].len() == files[f].hunks@[h].lines@.len());
            }
        }
    }
}

/// The commits of a session can be planned when the hunks say where they stand.
pub proof fn law_placed_hunks_can_be_planned(files: Seq<FileDiff>, s: AppView)
    requires
        all_placed(files),
        steps::sound(files, s),
    ensures
        model::plannable(files, s.assign, steps::local_commits(s.commits)),
{
    assert forall|f: int| 0 <= f < files.len() implies model::plannable_file(
        files[f],
        #[trigger] s.assign[f],
        steps::local_commits(s.commits),
    ) by {
        assert(steps::shaped_file(files[f].hunks@, s.assign[f]));
        assert forall|h: int, l: int|
            0 <= h < s.assign[f].len() && 0 <= l < s.assign[f][h].len() implies (
        #[trigger] s.assign[f][h][l] matches Some(k) ==> k < s.commits.len()) by {
            assert(s.assign[f][h].len() == files[f].hunks@[h].lines@.len());
        }
    }
}

// ---------------------------------------------------------------------------
// A file in the whole plan.

/// The last of the first `n` commits that has a line of the file, or -1.
pub open spec fn last_touching(assign: Seq<Seq<Option<usize>>>, n: int) -> int
    decreases n,
{
    if n <= 0 {
        -1
    } else if model::touched(assign, n - 1) {
        n - 1
    } else {
        last_touching(assign, n - 1)
    }
}

proof fn lemma_last_touching(assign: Seq<Seq<Option<usize>>>, n: int, c: int)
    requires
        0 <= c < n,
        model::touched(assign, c),
    ensures
        c <= last_touching(assign, n) < n,
        model::touched(assign, last_touching(assign, n)),
    decreases n,
{
    if c < n - 1 && !model::touched(assign, n - 1) {
        lemma_last_touching(assign, n - 1, c);
    }
}

/// What a commit does to the files comes from the files it touches.
proof fn lemma_change_comes_from(
    files: Seq<FileDiff>,
    assign: Seq<Seq<Seq<Option<usize>>>>,
    bases: Map<Seq<char>, Vec<u8>>,
    commits: Seq<SpecView>,
    ci: int,
    n: int,
    k: int,
) -> (f: int)
    requires
        0 <= k < model::planned_changes(files, assign, bases, commits, ci, n).len(),
    ensures
        0 <= f < n,
        model::touched(assign[f], ci),
        model::planned_changes(files, assign, bases, commits, ci, n)[k] == model::planned_change(
            files[f],
            assign[f],
            bases,
            commits,
            ci,
        ),
    decreases n,
{
    let before = model::planned_changes(files, assign, bases, commits, ci, n - 1);
    if k < before.len() {
        lemma_change_comes_from(files, assign, bases, commits, ci, n - 1, k)
    } else {
        n - 1
    }
}

/// A file that a commit touches is among those it changes.
proof fn lemma_change_is_there(
    files: Seq<FileDiff>,
    assign: Seq<Seq<Seq<Option<usize>>>>,
    bases: Map<Seq<char>, Vec<u8>>,
    commits: Seq<SpecView>,
    ci: int,
    n: int,
    f: int,
) -> (k: int)
    requires
        0 <= f < n,
        model::touched(assign[f], ci),
    ensures
        0 <= k < model::planned_changes(files, assign, bases, commits, ci, n).len(),
        model::planned_changes(files, assign, bases, commits, ci, n)[k] == model::planned_change(
            files[f],
            assign[f],
            bases,
            commits,
            ci,
        ),
    decreases n,
{
    let before = model::planned_changes(files, assign, bases, commits, ci, n - 1);
    if f < n - 1 {
        lemma_change_is_there(files, assign, bases, commits, ci, n - 1, f)
    } else {
        before.len() as int
    }
}

proof fn lemma_used_grows(assign: Seq<Seq<Seq<Option<usize>>>>, m: int, i: int, j: int)
    requires
        i <= j,
    ensures
        used_before(assign, m, i) <= used_before(assign, m, j),
    decreases j - i,
{
    if i < j {
        lemma_used_grows(assign, m, i, j - 1);
    }
}

/// A planned commit comes from one that has a line.
proof fn lemma_commit_comes_from(
    files: Seq<FileDiff>,
    assign: Seq<Seq<Seq<Option<usize>>>>,
    bases: Map<Seq<char>, Vec<u8>>,
    commits: Seq<SpecView>,
    n: int,
    j: int,
) -> (ci: int)
    requires
        0 <= j < model::planned_commits(files, assign, bases, commits, n).len(),
    ensures
        0 <= ci < n,
        used_before(assign, files.len() as int, ci) == j,
        model::planned_commits(files, assign, bases, commits, n)[j].files
            == model::planned_changes(files, assign, bases, commits, ci, files.len() as int),
    decreases n,
{
    let before = model::planned_commits(files, assign, bases, commits, n - 1);
    if j < before.len() {
        lemma_commit_comes_from(files, assign, bases, commits, n - 1, j)
    } else {
        law_plan_has_the_used_commits(files, assign, bases, commits, n - 1);
        n - 1
    }
}

/// No two files have the same path.
pub open spec fn distinct_paths(files: Seq<FileDiff>) -> bool {
    forall|f: int, g: int|
        0 <= f < files.len() && 0 <= g < files.len() && f != g ==> (#[trigger] files[f]).path@ != (
        #[trigger] files[g]).path@
}

/// All changes of a file are assigned, and there is one.
pub open spec fn all_assigned(file: FileDiff, assign: Seq<Seq<Option<usize>>>) -> bool {
    &&& model::covers(assign, file.hunks@)
    &&& forall|h: int, l: int|
        0 <= h < file.hunks@.len() && 0 <= l < file.hunks@[h].lines@.len()
            && file.hunks@[h].lines@[l].change() ==> #[trigger] assign[h][l] is Some
    &&& exists|h: int, l: int|
        0 <= h < file.hunks@.len() && 0 <= l < file.hunks@[h].lines@.len()
            && file.hunks@[h].lines@[l].change() && #[trigger] assign[h][l] is Some
}

/// The lines of a file that are assigned go to commits on one branch.
pub open spec fn on_one_branch(
    commits: Seq<SpecView>,
    branch: Option<Seq<char>>,
    assign: Seq<Seq<Option<usize>>>,
) -> bool {
    forall|h: int, l: int|
        0 <= h < assign.len() && 0 <= l < assign[h].len() ==> (
        #[trigger] assign[h][l] matches Some(k) ==> k < commits.len() && commits[k as int].branch
            == branch)
}

/// Splitting a file over commits of one branch loses nothing: the last planned
/// commit that lists the path gives it the content that is staged, or removes a
/// deleted file, and no later commit of the plan lists it.
pub proof fn law_splitting_loses_nothing(
    files: Seq<FileDiff>,
    assign: Seq<Seq<Seq<Option<usize>>>>,
    bases: Map<Seq<char>, Vec<u8>>,
    commits: Seq<SpecView>,
    branch: Option<Seq<char>>,
    i: int,
) -> (p: int)
    requires
        commits.len() <= usize::MAX,
        0 <= i < files.len(),
        distinct_paths(files),
        all_assigned(files[i], assign[i]),
        on_one_branch(commits, branch, assign[i]),
    ensures
        ({
            let plan = model::planned_commits(
                files,
                assign,
                bases,
                commits,
                commits.len() as int,
            );
            let path = files[i].path@;
            &&& 0 <= p < plan.len()
            &&& plan[p].branch == branch
            &&& exists|k: int|
                0 <= k < plan[p].files.len() && (#[trigger] plan[p].files[k]).path == path
            &&& forall|k: int|
                0 <= k < plan[p].files.len() && (#[trigger] plan[p].files[k]).path == path
                    ==> plan[p].files[k].content == model::index_update(
                    files[i],
                    assign[i],
                    bases,
                    commits,
                ).staged
            &&& forall|j: int, k: int|
                p < j < plan.len() && 0 <= k < plan[j].files.len() ==> (
                #[trigger] plan[j].files[k]).path != path
        }),
{
    let n = commits.len() as int;
    let m = files.len() as int;
    let plan = model::planned_commits(files, assign, bases, commits, n);
    let path = files[i].path@;
    let hunks = files[i].hunks@;
    let row = assign[i];
    let (h0, l0) = choose|h: int, l: int|
        0 <= h < hunks.len() && 0 <= l < hunks[h].lines@.len() && hunks[h].lines@[l].change()
            && #[trigger] row[h][l] is Some;
    assert(row[h0].len() >= hunks[h0].lines@.len());
    let c0 = row[h0][l0]->Some_0 as int;
    assert(row[h0][l0] == Some(c0 as usize));
    assert(model::touched(row, c0));
    lemma_last_touching(row, n, c0);
    let ci = last_touching(row, n);
    let (h1, l1) = choose|h: int, l: int|
        0 <= h < row.len() && 0 <= l < row[h].len() && #[trigger] row[h][l] == Some(ci as usize);
    assert(row[h1][l1] == Some(ci as usize));
    assert(commits[ci].branch == branch);
    let picked = model::belonging(commits, ci, hunks, row);
    assert forall|h: int, l: int|
        0 <= h < hunks.len() && 0 <= l < hunks[h].lines@.len()
            && hunks[h].lines@[l].change() implies #[trigger] picked[h][l] by {
        assert(row[h].len() >= hunks[h].lines@.len());
        assert(row[h][l] is Some);
        let c = row[h][l]->Some_0 as int;
        assert(row[h][l] == Some(c as usize));
        assert(model::touched(row, c));
        lemma_last_touching(row, n, c);
    }
    law_last_commit_has_what_is_staged(files[i], row, bases, commits, ci);
    assert(used(assign, m, ci));
    law_plan_has_the_used_commits(files, assign, bases, commits, n);
    let p = used_before(assign, m, ci) as int;
    let k0 = lemma_change_is_there(files, assign, bases, commits, ci, m, i);
    assert(plan[p].files[k0].path == path);
    assert forall|k: int|
        0 <= k < plan[p].files.len() && (#[trigger] plan[p].files[k]).path == path implies
        plan[p].files[k].content == model::index_update(files[i], row, bases, commits).staged by {
        let f = lemma_change_comes_from(files, assign, bases, commits, ci, m, k);
        if f != i {
            assert(files[f].path@ != files[i].path@);
        }
    }
    assert forall|j: int, k: int|
        p < j < plan.len() && 0 <= k < plan[j].files.len() implies (
    #[trigger] plan[j].files[k]).path != path by {
        let cj = lemma_commit_comes_from(files, assign, bases, commits, n, j);
        if cj <= ci {
            lemma_used_grows(assign, m, cj, ci);
        }
        let f = lemma_change_comes_from(files, assign, bases, commits, cj, m, k);
        if f == i {
            lemma_last_touching(row, n, cj);
        } else {
            assert(files[f].path@ != files[i].path@);
        }
    }
    p
}

/// Two lists of entries that are in order, and whose last entry for each line is
/// the same, assign the same: the order of entries for different lines does not
/// matter.
pub proof fn law_order_of_entries_does_not_matter(
    files: Seq<FileDiff>,
    n_commits: nat,
    a: Seq<(usize, usize, usize, usize)>,
    b: Seq<(usize, usize, usize, usize)>,
)
    requires
        headless::assigned(files, n_commits, a, a.len() as int) is Ok,
        headless::assigned(files, n_commits, b, b.len() as int) is Ok,
        forall|f: int, h: int, l: int|
            0 <= f < files.len() && 0 <= h < files[f].hunks@.len() && 0 <= l
                < files[f].hunks@[h].lines@.len() ==> #[trigger] last_entry(
                a,
                f,
                h,
                l,
                a.len() as int,
            ) == last_entry(b, f, h, l, b.len() as int),
    ensures
        headless::assigned(files, n_commits, a, a.len() as int) == headless::assigned(
            files,
            n_commits,
            b,
            b.len() as int,
        ),
{
    let x = headless::assigned(files, n_commits, a, a.len() as int)->Ok_0;
    let y = headless::assigned(files, n_commits, b, b.len() as int)->Ok_0;
    headless::lemma_assigned_fits(files, n_commits, a, a.len() as int);
    headless::lemma_assigned_fits(files, n_commits, b, b.len() as int);
    assert forall|f: int| 0 <= f < files.len() implies #[trigger] x[f] == y[f] by {
        assert(x[f].len() == y[f].len());
        assert forall|h: int| 0 <= h < files[f].hunks@.len() implies #[trigger] x[f][h]
            == y[f][h] by {
            assert(x[f][h].len() == files[f].hunks@[h].lines@.len());
            assert(y[f][h].len() == files[f].hunks@[h].lines@.len());
            assert forall|l: int| 0 <= l < x[f][h].len() implies #[trigger] x[f][h][l]
                == y[f][h][l] by {
                law_last_entry_counts(files, n_commits, a, a.len() as int, f, h, l);
                law_last_entry_counts(files, n_commits, b, b.len() as int, f, h, l);
                assert(last_entry(a, f, h, l, a.len() as int) == last_entry(
                    b,
                    f,
                    h,
                    l,
                    b.len() as int,
                ));
            }
            assert(x[f][h] =~= y[f][h]);
        }
        assert(x[f] =~= y[f]);
    }
    assert(x =~= y);
}

} // verus!
