//! What is shown of the staged changes, and which requests are refused for what.
use vstd::prelude::*;

use crate::diff::{FileDiff, FileKind, LineKind};
use crate::headless;
use crate::headless::{ApplyError, ApplyIn, CommitIn, FileOutView, HunkOutView, LineOutView};
use crate::model;
use crate::plan_laws;
use crate::text;
use crate::text_laws;

verus! {

// ---------------------------------------------------------------------------
// What is shown.

/// Every file, hunk and line is shown, in order, as it is.
pub proof fn law_all_is_shown(files: Seq<FileDiff>, f: int, h: int, l: int)
    ensures
        headless::shown(files).len() == files.len(),
        0 <= f < files.len() ==> {
            let file = headless::shown(files)[f];
            &&& file.path == files[f].path@
            &&& file.binary == files[f].binary
            &&& file.kind == match files[f].kind {
                FileKind::Modified => "modified"@,
                FileKind::Added => "added"@,
                FileKind::Deleted => "deleted"@,
            }
            &&& file.hunks.len() == files[f].hunks@.len()
            &&& 0 <= h < files[f].hunks@.len() ==> {
                let hunk = file.hunks[h];
                &&& hunk.header == files[f].hunks@[h].header@
                &&& hunk.lines.len() == files[f].hunks@[h].lines@.len()
                &&& 0 <= l < files[f].hunks@[h].lines@.len() ==> hunk.lines[l].content
                    == files[f].hunks@[h].lines@[l].content@ && hunk.lines[l].kind == match files[f].hunks@[h].lines@[l].kind {
                    LineKind::Context => "context"@,
                    LineKind::Add => "add"@,
                    LineKind::Del => "del"@,
                }
            }
        },
{
}

/// The parts, with commas between them.
pub open spec fn commas(parts: Seq<Seq<char>>) -> Seq<char>
    decreases parts.len(),
{
    if parts.len() == 0 {
        Seq::<char>::empty()
    } else if parts.len() == 1 {
        parts[0]
    } else {
        parts[0] + ","@ + commas(parts.skip(1))
    }
}

/// A character inside of double quotes.
pub open spec fn escaped(c: char) -> Seq<char> {
    match c {
        '"' => seq!['\\', '"'],
        '\\' => seq!['\\', '\\'],
        '\u{8}' => seq!['\\', 'b'],
        '\t' => seq!['\\', 't'],
        '\n' => seq!['\\', 'n'],
        '\u{c}' => seq!['\\', 'f'],
        '\r' => seq!['\\', 'r'],
        _ => if ' ' > c {
            seq!['\\', 'u', '0', '0'] + text::hex(c as nat, 2)
        } else {
            seq![c]
        },
    }
}

/// The characters of a text inside of double quotes.
pub open spec fn all_escaped(s: Seq<char>) -> Seq<char>
    decreases s.len(),
{
    if s.len() == 0 {
        Seq::<char>::empty()
    } else {
        escaped(s[0]) + all_escaped(s.skip(1))
    }
}

/// A text in double quotes.
pub open spec fn quoted(s: Seq<char>) -> Seq<char> {
    "\""@ + all_escaped(s) + "\""@
}

/// A name and the value it has.
pub open spec fn member(name: Seq<char>, of: Seq<char>) -> Seq<char> {
    "\""@ + name + "\":"@ + of
}

pub open spec fn line_object(l: LineOutView) -> Seq<char> {
    "{"@ + commas(
        seq![member("kind"@, quoted(l.kind)), member("content"@, quoted(l.content))],
    ) + "}"@
}

pub open spec fn hunk_object(h: HunkOutView) -> Seq<char> {
    "{"@ + commas(
        seq![
            member("header"@, quoted(h.header)),
            member(
                "lines"@,
                "["@ + commas(Seq::new(h.lines.len(), |l: int| line_object(h.lines[l]))) + "]"@,
            ),
        ],
    ) + "}"@
}

pub open spec fn file_object(f: FileOutView) -> Seq<char> {
    "{"@ + commas(
        seq![
            member("path"@, quoted(f.path)),
            member("kind"@, quoted(f.kind)),
            member(
                "binary"@,
                if f.binary {
                    "true"@
                } else {
                    "false"@
                },
            ),
            member(
                "hunks"@,
                "["@ + commas(Seq::new(f.hunks.len(), |h: int| hunk_object(f.hunks[h]))) + "]"@,
            ),
        ],
    ) + "}"@
}

proof fn lemma_commas_push(parts: Seq<Seq<char>>, last: Seq<char>)
    ensures
        commas(parts.push(last)) == if parts.len() == 0 {
            last
        } else {
            commas(parts) + ","@ + last
        },
    decreases parts.len(),
{
    let all = parts.push(last);
    if parts.len() == 1 {
        assert(all.skip(1) =~= seq![last]);
        assert(commas(seq![last]) == last);
        assert(commas(all) =~= parts[0] + ","@ + last);
    } else if parts.len() > 1 {
        assert(all.skip(1) =~= parts.skip(1).push(last));
        lemma_commas_push(parts.skip(1), last);
        assert(commas(all) =~= commas(parts) + ","@ + last);
    }
}

proof fn lemma_escaped(s: Seq<char>)
    ensures
        headless::json_chars(s) == all_escaped(s),
    decreases s.len(),
{
    if s.len() > 0 {
        lemma_escaped(s.drop_last());
        lemma_escaped_push(s.drop_last(), s.last());
        assert(s.drop_last().push(s.last()) =~= s);
    }
}

proof fn lemma_escaped_push(s: Seq<char>, c: char)
    ensures
        all_escaped(s.push(c)) == all_escaped(s) + headless::json_char(c),
    decreases s.len(),
{
    let t = s.push(c);
    assert(escaped(c) == headless::json_char(c));
    if s.len() == 0 {
        assert(t.skip(1) =~= Seq::<char>::empty());
        assert(all_escaped(Seq::<char>::empty()) == Seq::<char>::empty());
        assert(all_escaped(t) =~= all_escaped(s) + headless::json_char(c));
    } else {
        assert(t.skip(1) =~= s.skip(1).push(c));
        lemma_escaped_push(s.skip(1), c);
        assert(all_escaped(t) =~= all_escaped(s) + headless::json_char(c));
    }
}

/// The text of the shown characters is in double quotes, each character escaped
/// that cannot stand there.
pub proof fn law_texts_are_quoted(s: Seq<char>)
    ensures
        headless::json_string(s) == quoted(s),
{
    lemma_escaped(s);
    reveal_strlit("\"");
    assert("\""@ =~= seq!['"']);
}

proof fn lemma_line_object(l: LineOutView)
    ensures
        headless::json_line(l) == line_object(l),
{
    law_texts_are_quoted(l.kind);
    law_texts_are_quoted(l.content);
    let a = member("kind"@, quoted(l.kind));
    let b = member("content"@, quoted(l.content));
    lemma_two(a, b);
    reveal_strlit("{\"kind\":");
    reveal_strlit(",\"content\":");
    reveal_strlit("{");
    reveal_strlit("\"");
    reveal_strlit("kind");
    reveal_strlit("content");
    reveal_strlit("\":");
    reveal_strlit(",");
    assert("{\"kind\":"@ =~= "{"@ + ("\""@ + "kind"@ + "\":"@));
    assert(",\"content\":"@ =~= ","@ + ("\""@ + "content"@ + "\":"@));
    assert(headless::json_line(l) =~= line_object(l));
}

proof fn lemma_line_objects(lines: Seq<LineOutView>, n: int)
    requires
        0 <= n <= lines.len(),
    ensures
        headless::json_lines(lines, n) == commas(
            Seq::new(n as nat, |l: int| line_object(lines[l])),
        ),
    decreases n,
{
    if n > 0 {
        lemma_line_objects(lines, n - 1);
        lemma_line_object(lines[n - 1]);
        let a = Seq::new((n - 1) as nat, |l: int| line_object(lines[l]));
        let b = Seq::new(n as nat, |l: int| line_object(lines[l]));
        assert(b =~= a.push(line_object(lines[n - 1])));
        lemma_commas_push(a, line_object(lines[n - 1]));
    }
}

proof fn lemma_hunk_object(h: HunkOutView)
    ensures
        headless::json_hunk(h) == hunk_object(h),
{
    law_texts_are_quoted(h.header);
    lemma_line_objects(h.lines, h.lines.len() as int);
    let lines = commas(Seq::new(h.lines.len(), |l: int| line_object(h.lines[l])));
    let a = member("header"@, quoted(h.header));
    let b = member("lines"@, "["@ + lines + "]"@);
    lemma_two(a, b);
    reveal_strlit("{\"header\":");
    reveal_strlit(",\"lines\":[");
    reveal_strlit("]}");
    reveal_strlit("{");
    reveal_strlit("}");
    reveal_strlit("[");
    reveal_strlit("]");
    reveal_strlit("\"");
    reveal_strlit("header");
    reveal_strlit("lines");
    reveal_strlit("\":");
    reveal_strlit(",");
    assert("{\"header\":"@ =~= "{"@ + ("\""@ + "header"@ + "\":"@));
    assert(",\"lines\":["@ =~= ","@ + ("\""@ + "lines"@ + "\":"@) + "["@);
    assert("]}"@ =~= "]"@ + "}"@);
    assert(headless::json_hunk(h) =~= hunk_object(h));
}

proof fn lemma_hunk_objects(hunks: Seq<HunkOutView>, n: int)
    requires
        0 <= n <= hunks.len(),
    ensures
        headless::json_hunks(hunks, n) == commas(
            Seq::new(n as nat, |h: int| hunk_object(hunks[h])),
        ),
    decreases n,
{
    if n > 0 {
        lemma_hunk_objects(hunks, n - 1);
        lemma_hunk_object(hunks[n - 1]);
        let a = Seq::new((n - 1) as nat, |h: int| hunk_object(hunks[h]));
        let b = Seq::new(n as nat, |h: int| hunk_object(hunks[h]));
        assert(b =~= a.push(hunk_object(hunks[n - 1])));
        lemma_commas_push(a, hunk_object(hunks[n - 1]));
    }
}

proof fn lemma_file_object(f: FileOutView)
    ensures
        headless::json_file(f) == file_object(f),
{
    law_texts_are_quoted(f.path);
    law_texts_are_quoted(f.kind);
    lemma_hunk_objects(f.hunks, f.hunks.len() as int);
    let hunks = commas(Seq::new(f.hunks.len(), |h: int| hunk_object(f.hunks[h])));
    let flag = if f.binary {
        "true"@
    } else {
        "false"@
    };
    let a = member("path"@, quoted(f.path));
    let b = member("kind"@, quoted(f.kind));
    let c = member("binary"@, flag);
    let d = member("hunks"@, "["@ + hunks + "]"@);
    lemma_two(a, b);
    lemma_commas_push(seq![a, b], c);
    lemma_commas_push(seq![a, b, c], d);
    assert(seq![a, b].push(c) =~= seq![a, b, c]);
    assert(seq![a, b, c].push(d) =~= seq![a, b, c, d]);
    lemma_file_literals();
    lemma_four(
        "{"@,
        ","@,
        "\""@ + "path"@ + "\":"@,
        quoted(f.path),
        "\""@ + "kind"@ + "\":"@,
        quoted(f.kind),
        "\""@ + "binary"@ + "\":"@,
        flag,
        "\""@ + "hunks"@ + "\":"@,
        "["@,
        hunks,
        "]"@,
        "}"@,
    );
}

/// Pieces of a text, put together in another order.
proof fn lemma_four(
    open: Seq<char>,
    comma: Seq<char>,
    a: Seq<char>,
    av: Seq<char>,
    b: Seq<char>,
    bv: Seq<char>,
    c: Seq<char>,
    cv: Seq<char>,
    d: Seq<char>,
    left: Seq<char>,
    dv: Seq<char>,
    right: Seq<char>,
    close: Seq<char>,
)
    ensures
        (open + a) + av + (comma + b) + bv + (comma + c) + cv + (comma + d + left) + dv + (right
            + close) == open + ((a + av) + comma + (b + bv) + comma + (c + cv) + comma + (d + (left
            + dv + right))) + close,
{
    let x = open + ((a + av) + comma + (b + bv) + comma + (c + cv));
    assert((open + a) + av + (comma + b) + bv + (comma + c) + cv =~= x);
    let y = comma + (d + (left + dv + right));
    assert(x + (comma + d + left) + dv + (right + close) =~= x + y + close);
    assert(x + y =~= open + ((a + av) + comma + (b + bv) + comma + (c + cv) + comma + (d + (left
        + dv + right))));
}

proof fn lemma_two(a: Seq<char>, b: Seq<char>)
    ensures
        commas(seq![a, b]) == a + ","@ + b,
{
    lemma_commas_push(seq![a], b);
    assert(seq![a].push(b) =~= seq![a, b]);
    assert(commas(seq![a]) == a);
}

/// The texts between the values of a file.
proof fn lemma_file_literals()
    ensures
        "{\"path\":"@ == "{"@ + ("\""@ + "path"@ + "\":"@),
        ",\"kind\":"@ == ","@ + ("\""@ + "kind"@ + "\":"@),
        ",\"binary\":"@ == ","@ + ("\""@ + "binary"@ + "\":"@),
        ",\"hunks\":["@ == ","@ + ("\""@ + "hunks"@ + "\":"@) + "["@,
        "]}"@ == "]"@ + "}"@,
{
    reveal_strlit("{\"path\":");
    reveal_strlit(",\"kind\":");
    reveal_strlit(",\"binary\":");
    reveal_strlit(",\"hunks\":[");
    reveal_strlit("]}");
    reveal_strlit("{");
    reveal_strlit("}");
    reveal_strlit("[");
    reveal_strlit("]");
    reveal_strlit("\"");
    reveal_strlit("path");
    reveal_strlit("kind");
    reveal_strlit("binary");
    reveal_strlit("hunks");
    reveal_strlit("\":");
    reveal_strlit(",");
    assert("{\"path\":"@ =~= "{"@ + ("\""@ + "path"@ + "\":"@));
    assert(",\"kind\":"@ =~= ","@ + ("\""@ + "kind"@ + "\":"@));
    assert(",\"binary\":"@ =~= ","@ + ("\""@ + "binary"@ + "\":"@));
    assert(",\"hunks\":["@ =~= ","@ + ("\""@ + "hunks"@ + "\":"@) + "["@);
    assert("]}"@ =~= "]"@ + "}"@);
}

proof fn lemma_file_objects(files: Seq<FileOutView>, n: int)
    requires
        0 <= n <= files.len(),
    ensures
        headless::json_files(files, n) == commas(
            Seq::new(n as nat, |f: int| file_object(files[f])),
        ),
    decreases n,
{
    if n > 0 {
        lemma_file_objects(files, n - 1);
        lemma_file_object(files[n - 1]);
        let a = Seq::new((n - 1) as nat, |f: int| file_object(files[f]));
        let b = Seq::new(n as nat, |f: int| file_object(files[f]));
        assert(b =~= a.push(file_object(files[n - 1])));
        lemma_commas_push(a, file_object(files[n - 1]));
    }
}

/// The shown files are written as a list of objects, each with all that is shown
/// of the file.
pub proof fn law_files_are_written_as_objects(files: Seq<FileOutView>)
    ensures
        headless::json_text(files) == "["@ + commas(
            Seq::new(files.len(), |f: int| file_object(files[f])),
        ) + "]"@,
{
    lemma_file_objects(files, files.len() as int);
}

/// The hash takes in one byte after the other: each is mixed in, and the result is
/// multiplied, as far as it fits.
pub proof fn law_hash_takes_in_each_byte(data: Seq<u8>, b: u8)
    ensures
        headless::fnv1a_hash(Seq::<u8>::empty()) == 0xcbf2_9ce4_8422_2325,
        headless::fnv1a_hash(data.push(b)) == ((headless::fnv1a_hash(data) ^ (b as u64))
            * 0x0100_0000_01b3) % 0x1_0000_0000_0000_0000,
{
    assert(data.push(b).drop_last() =~= data);
    let x = headless::fnv1a_hash(data) ^ (b as u64);
    assert(x.wrapping_mul(0x0100_0000_01b3) == (x * 0x0100_0000_01b3) % 0x1_0000_0000_0000_0000);
}

/// The token is the hash of what is shown, in sixteen digits.
pub proof fn law_token_is_the_hash_of_what_is_shown(files: Seq<FileDiff>)
    ensures
        headless::token_of(files).len() == 16,
        text_laws::value(headless::token_of(files), 16) == headless::fnv1a_hash(
            vstd::utf8::encode_utf8(headless::json_text(headless::shown(files))),
        ),
{
    let h = headless::fnv1a_hash(
        vstd::utf8::encode_utf8(headless::json_text(headless::shown(files))),
    );
    assert(text_laws::power(16, 16) == 0x1_0000_0000_0000_0000) by {
        reveal_with_fuel(text_laws::power, 17);
    }
    text_laws::law_hex_stands_for_the_number(h as nat, 16, 0);
}

// ---------------------------------------------------------------------------
// Requests.

/// The message of a commit that is asked for.
pub open spec fn message_of(c: CommitIn) -> Seq<char> {
    match c {
        CommitIn::Message(message) => message@,
        CommitIn::Spec { message, .. } => message@,
    }
}

/// The new branch of a commit that is asked for, if it names one.
pub open spec fn branch_of(c: CommitIn) -> Option<Seq<char>> {
    match c {
        CommitIn::Message(_) => None,
        CommitIn::Spec { branch, .. } => match branch {
            Some(b) => Some(b@),
            None => None,
        },
    }
}

/// The commits that are asked for are those of the plan, with their messages and
/// branches.
pub proof fn law_commits_are_as_asked(commits: Seq<CommitIn>, i: int)
    requires
        0 <= i < commits.len(),
    ensures
        headless::asked_commits(commits).len() == commits.len(),
        headless::asked_commits(commits)[i].message == message_of(commits[i]),
        headless::asked_commits(commits)[i].branch == branch_of(commits[i]),
{
}

/// Whether the message of a commit is nothing but white space.
pub open spec fn says_nothing(c: CommitIn) -> bool {
    text_laws::all_white(message_of(c))
}

/// Whether the name of the branch of a commit is nothing but white space.
pub open spec fn names_nothing(c: CommitIn) -> bool {
    branch_of(c) matches Some(b) && text_laws::all_white(b)
}

/// What is wrong with an entry, if anything: it is for a line that is not there,
/// for one that is no change, or for a commit that is not asked for.
pub open spec fn wrong(
    files: Seq<FileDiff>,
    n_commits: nat,
    fi: usize,
    hi: usize,
    li: usize,
    ci: usize,
) -> Option<ApplyError> {
    if !(fi < files.len() && hi < files[fi as int].hunks@.len() && li
        < files[fi as int].hunks@[hi as int].lines@.len()) {
        Some(ApplyError::OutOfRange { fi, hi, li })
    } else if files[fi as int].hunks@[hi as int].lines@[li as int].kind == LineKind::Context {
        Some(ApplyError::ContextLine { fi, hi, li })
    } else if !(ci < n_commits) {
        Some(ApplyError::UnknownCommit { fi, hi, li, ci })
    } else {
        None
    }
}

pub open spec fn wrong_entry(files: Seq<FileDiff>, request: ApplyIn, k: int) -> Option<
    ApplyError,
> {
    let e = request.assignments@[k];
    wrong(files, request.commits@.len(), e.0, e.1, e.2, e.3)
}

/// Whether the commits of a request are in order, and it is made for what is
/// staged.
pub open spec fn commits_in_order(files: Seq<FileDiff>, request: ApplyIn) -> bool {
    &&& request.token@ == headless::token_of(files)
    &&& forall|i: int|
        0 <= i < request.commits@.len() ==> !says_nothing(#[trigger] request.commits@[i])
            && !names_nothing(request.commits@[i])
}

/// A request is refused first if it was made for other changes, then if a message
/// is nothing but white space, and then if a branch is.
pub proof fn law_commits_are_looked_at_first(files: Seq<FileDiff>, request: ApplyIn, i: int)
    requires
        0 <= i < request.commits@.len(),
    ensures
        request.token@ != headless::token_of(files) ==> headless::checked(files, request) == Err::<
            Seq<Seq<Seq<Option<usize>>>>,
            ApplyError,
        >(ApplyError::Stale),
        request.token@ == headless::token_of(files) && says_nothing(request.commits@[i])
            ==> headless::checked(files, request) == Err::<
            Seq<Seq<Seq<Option<usize>>>>,
            ApplyError,
        >(ApplyError::EmptyMessage),
        request.token@ == headless::token_of(files) && names_nothing(request.commits@[i]) && (
        forall|j: int|
            0 <= j < request.commits@.len() ==> !says_nothing(#[trigger] request.commits@[j]))
            ==> headless::checked(files, request) == Err::<
            Seq<Seq<Seq<Option<usize>>>>,
            ApplyError,
        >(ApplyError::EmptyBranch),
{
    let specs = headless::asked_commits(request.commits@);
    lemma_blanks(request.commits@);
    if says_nothing(request.commits@[i]) {
        text_laws::law_white_space_is_trimmed(specs[i].message);
        assert(headless::blank(specs[i].message));
    }
    if names_nothing(request.commits@[i]) {
        text_laws::law_white_space_is_trimmed(specs[i].branch.unwrap());
        assert(specs[i].branch matches Some(b) && headless::blank(b));
    }
}

proof fn lemma_blanks(commits: Seq<CommitIn>)
    ensures
        headless::some_blank_message(headless::asked_commits(commits)) ==> exists|i: int|
            0 <= i < commits.len() && says_nothing(#[trigger] commits[i]),
        headless::some_blank_branch(headless::asked_commits(commits)) ==> exists|i: int|
            0 <= i < commits.len() && names_nothing(#[trigger] commits[i]),
{
    let specs = headless::asked_commits(commits);
    if headless::some_blank_message(specs) {
        let i = choose|i: int|
            0 <= i < specs.len() && headless::blank((#[trigger] specs[i]).message);
        text_laws::law_white_space_is_trimmed(specs[i].message);
        assert(says_nothing(commits[i]));
    }
    if headless::some_blank_branch(specs) {
        let i = choose|i: int|
            0 <= i < specs.len() && ((#[trigger] specs[i]).branch matches Some(b)
                && headless::blank(b));
        text_laws::law_white_space_is_trimmed(specs[i].branch.unwrap());
        assert(names_nothing(commits[i]));
    }
}

proof fn lemma_first_wrong(
    files: Seq<FileDiff>,
    n_commits: nat,
    list: Seq<(usize, usize, usize, usize)>,
    k: int,
    n: int,
)
    requires
        0 <= k < n <= list.len(),
        forall|j: int|
            0 <= j < k ==> wrong(
                files,
                n_commits,
                (#[trigger] list[j]).0,
                list[j].1,
                list[j].2,
                list[j].3,
            ) is None,
    ensures
        headless::assigned(files, n_commits, list, k) is Ok,
        wrong(files, n_commits, list[k].0, list[k].1, list[k].2, list[k].3) matches Some(e)
            ==> headless::assigned(files, n_commits, list, n) == Err::<
            Seq<Seq<Seq<Option<usize>>>>,
            ApplyError,
        >(e),
    decreases n,
{
    if k > 0 {
        lemma_first_wrong(files, n_commits, list, k - 1, k);
        assert(wrong(
            files,
            n_commits,
            list[k - 1].0,
            list[k - 1].1,
            list[k - 1].2,
            list[k - 1].3,
        ) is None);
        assert(headless::unassignable(files, n_commits, list[k - 1]) is None);
    }
    if k < n - 1 {
        lemma_first_wrong(files, n_commits, list, k, n - 1);
    }
}

/// A request whose commits are in order is refused for the first entry that is
/// wrong, and for what is wrong with it.
pub proof fn law_first_wrong_entry_is_named(files: Seq<FileDiff>, request: ApplyIn, k: int)
    requires
        commits_in_order(files, request),
        0 <= k < request.assignments@.len(),
        forall|j: int| 0 <= j < k ==> #[trigger] wrong_entry(files, request, j) is None,
        wrong_entry(files, request, k) is Some,
    ensures
        headless::checked(files, request) == Err::<Seq<Seq<Seq<Option<usize>>>>, ApplyError>(
            wrong_entry(files, request, k).unwrap(),
        ),
{
    let list = request.assignments@;
    lemma_blanks(request.commits@);
    assert forall|j: int| 0 <= j < k implies wrong(
        files,
        request.commits@.len(),
        (#[trigger] list[j]).0,
        list[j].1,
        list[j].2,
        list[j].3,
    ) is None by {
        assert(wrong_entry(files, request, j) is None);
    }
    lemma_first_wrong(files, request.commits@.len(), list, k, list.len() as int);
}

/// A request that is in order is accepted if it has an entry, and gives each line
/// to the commit of the last entry for it. Here `k` is that entry, or -1.
pub proof fn law_lines_go_where_the_request_says(
    files: Seq<FileDiff>,
    bases: Map<Seq<char>, Vec<u8>>,
    request: ApplyIn,
    f: int,
    h: int,
    l: int,
    k: int,
)
    requires
        commits_in_order(files, request),
        request.assignments@.len() > 0,
        forall|j: int|
            0 <= j < request.assignments@.len() ==> #[trigger] wrong_entry(
                files,
                request,
                j,
            ) is None,
        0 <= f < files.len(),
        0 <= h < files[f].hunks@.len(),
        0 <= l < files[f].hunks@[h].lines@.len(),
        -1 <= k < request.assignments@.len(),
        k >= 0 ==> request.assignments@[k].0 == f && request.assignments@[k].1 == h
            && request.assignments@[k].2 == l,
        forall|j: int|
            k < j < request.assignments@.len() ==> !((#[trigger] request.assignments@[j]).0 == f
                && request.assignments@[j].1 == h && request.assignments@[j].2 == l),
    ensures
        headless::accepted(files, bases, request) matches Ok(assign) && assign[f][h][l] == if k
            < 0 {
            None
        } else {
            Some(request.assignments@[k].3)
        },
{
    let list = request.assignments@;
    let n = list.len() as int;
    let m = request.commits@.len();
    lemma_blanks(request.commits@);
    assert forall|j: int| 0 <= j < n - 1 implies wrong(
        files,
        m,
        (#[trigger] list[j]).0,
        list[j].1,
        list[j].2,
        list[j].3,
    ) is None by {
        assert(wrong_entry(files, request, j) is None);
    }
    lemma_first_wrong(files, m, list, n - 1, n);
    assert(wrong_entry(files, request, n - 1) is None);
    assert(headless::unassignable(files, m, list[n - 1]) is None);
    assert(headless::assigned(files, m, list, n) is Ok);
    plan_laws::law_last_entry_counts(files, m, list, n, f, h, l);
    lemma_last_entry(list, f, h, l, k, n);
    assert(headless::checked(files, request) is Ok);
    plan_laws::law_nothing_assigned_means_no_entries(files, bases, request);
}

proof fn lemma_last_entry(
    list: Seq<(usize, usize, usize, usize)>,
    f: int,
    h: int,
    l: int,
    k: int,
    n: int,
)
    requires
        -1 <= k < n <= list.len(),
        k >= 0 ==> list[k].0 == f && list[k].1 == h && list[k].2 == l,
        forall|j: int|
            k < j < n ==> !((#[trigger] list[j]).0 == f && list[j].1 == h && list[j].2 == l),
    ensures
        plan_laws::last_entry(list, f, h, l, n) == if k < 0 {
            None
        } else {
            Some(list[k].3)
        },
    decreases n,
{
    if k < n - 1 {
        lemma_last_entry(list, f, h, l, k, n - 1);
    }
}

/// A request that is in order but has no entries has nothing to commit.
pub proof fn law_no_entries_have_nothing_to_commit(
    files: Seq<FileDiff>,
    bases: Map<Seq<char>, Vec<u8>>,
    request: ApplyIn,
)
    requires
        commits_in_order(files, request),
        request.assignments@.len() == 0,
    ensures
        headless::accepted(files, bases, request) == Err::<
            Seq<Seq<Seq<Option<usize>>>>,
            ApplyError,
        >(ApplyError::NothingAssigned),
{
    lemma_blanks(request.commits@);
    plan_laws::law_nothing_assigned_means_no_entries(files, bases, request);
}

/// What was refused before the plan is made is refused, for the same reason.
pub proof fn law_refused_requests_are_not_accepted(
    files: Seq<FileDiff>,
    bases: Map<Seq<char>, Vec<u8>>,
    request: ApplyIn,
)
    ensures
        headless::checked(files, request) is Err ==> headless::accepted(files, bases, request)
            == headless::checked(files, request),
{
}

/// What is said of a refused entry names its file, hunk and line, and the commit
/// where that is what is wrong.
pub proof fn law_refused_entries_in_words(fi: usize, hi: usize, li: usize, ci: usize)
    ensures
        ({
            let place = "assignment ("@ + text::decimal(fi as nat) + ","@ + text::decimal(
                hi as nat,
            ) + ","@ + text::decimal(li as nat) + ")"@;
            &&& (ApplyError::OutOfRange { fi, hi, li }).text() == place + " out of range"@
            &&& (ApplyError::ContextLine { fi, hi, li }).text() == place
                + " targets a context line"@
            &&& (ApplyError::UnknownCommit { fi, hi, li, ci }).text() == place
                + " targets unknown commit "@ + text::decimal(ci as nat)
        }),
{
}

/// What is given back of the commits that were made: the id, message and branch of
/// each, in order.
pub proof fn law_made_commits_are_given_back(
    ids: Seq<Seq<char>>,
    commits: Seq<model::CommitView>,
    i: int,
)
    requires
        ids.len() == commits.len(),
        0 <= i < ids.len(),
    ensures
        headless::made(ids, commits).len() == ids.len(),
        headless::made(ids, commits)[i].id == ids[i],
        headless::made(ids, commits)[i].message == commits[i].message,
        headless::made(ids, commits)[i].branch == commits[i].branch,
{
}

} // verus!
