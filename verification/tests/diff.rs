//! Reading diffs.
use hunkle::diff::{parse, DiffError, FileDiff, FileKind, HeaderError, LineKind};
use hunkle::text::NumberError;

const SAMPLE: &str = "\
diff --git a/src/lib.rs b/src/lib.rs
index 1111111111111111111111111111111111111111..2222222222222222222222222222222222222222 100644
--- a/src/lib.rs
+++ b/src/lib.rs
@@ -1,4 +1,5 @@
 fn main() {
-    println!(\"old\");
+    println!(\"new\");
+    println!(\"extra\");
 }
 // end
@@ -10,2 +11,2 @@ fn helper() {
-    let a = 1;
+    let a = 2;

diff --git a/new.txt b/new.txt
new file mode 100644
index 0000000000000000000000000000000000000000..3333333333333333333333333333333333333333
--- /dev/null
+++ b/new.txt
@@ -0,0 +1,2 @@
+hello
+world
\\ No newline at end of file
diff --git a/gone.txt b/gone.txt
deleted file mode 100755
index 4444444444444444444444444444444444444444..0000000000000000000000000000000000000000
--- a/gone.txt
+++ /dev/null
@@ -1,1 +0,0 @@
-bye
diff --git a/img.png b/img.png
index 5555555555555555555555555555555555555555..6666666666666666666666666666666666666666 100644
Binary files a/img.png and b/img.png differ
";

#[test]
fn parses_files_and_hunks() {
    let files = parse(SAMPLE).unwrap();
    assert_eq!(files.len(), 4);

    let f = &files[0];
    assert_eq!(f.path, "src/lib.rs");
    assert_eq!(f.kind, FileKind::Modified);
    assert_eq!(
        f.old_blob.as_deref(),
        Some("1111111111111111111111111111111111111111")
    );
    assert_eq!(f.hunks.len(), 2);
    assert_eq!(f.hunks[0].old_start, 1);
    assert_eq!(f.hunks[0].lines.len(), 6);
    assert_eq!(f.hunks[0].lines[1].kind, LineKind::Del);
    assert_eq!(f.hunks[0].lines[2].kind, LineKind::Add);
    assert_eq!(f.hunks[1].lines.last().unwrap().kind, LineKind::Context);
    assert_eq!(f.hunks[1].lines.last().unwrap().content, "");

    let f = &files[1];
    assert_eq!(f.kind, FileKind::Added);
    assert!(f.old_blob.is_none());
    assert!(f.hunks[0].lines[1].no_newline);

    let f = &files[2];
    assert_eq!(f.kind, FileKind::Deleted);
    assert_eq!(f.mode, "100755");

    let f = &files[3];
    assert!(f.binary);
    assert!(f.hunks.is_empty());
}

#[test]
fn headers_say_where_hunks_stand() {
    let files = parse(SAMPLE).unwrap();
    let h = &files[0].hunks[1];
    assert_eq!((h.old_start, h.old_count), (10, 2));
    assert_eq!((h.new_start, h.new_count), (11, 2));
    assert_eq!(h.header, "@@ -10,2 +11,2 @@ fn helper() {");
    assert_eq!(h.lines[0].content, "    let a = 1;");
}

#[test]
fn a_count_of_one_may_be_left_out() {
    let files = parse("diff --git a/f b/f\n@@ -3 +7 @@\n-a\n+b\n").unwrap();
    let h = &files[0].hunks[0];
    assert_eq!((h.old_start, h.old_count), (3, 1));
    assert_eq!((h.new_start, h.new_count), (7, 1));
    assert_eq!(h.lines.len(), 2);
}

#[test]
fn an_empty_diff_has_no_files() {
    assert!(parse("").unwrap().is_empty());
    assert!(parse("warning: something\n@@ nonsense\n").unwrap().is_empty());
}

#[test]
fn mode_changes_and_binary_patches_are_seen() {
    let files = parse("diff --git a/f b/f\nold mode 100644\nnew mode 100755\n").unwrap();
    assert_eq!(files[0].mode, "100755");
    assert_eq!(files[0].path, "f");
    let files = parse("diff --git a/f b/f\nGIT binary patch\n").unwrap();
    assert!(files[0].binary);
    let files = parse("diff --git a/f b/f\nGIT binary patch \n").unwrap();
    assert!(!files[0].binary);
}

#[test]
fn carriage_returns_before_line_feeds_are_dropped() {
    let files = parse("diff --git a/f b/f\r\n@@ -0,0 +1 @@\r\n+x\r\n").unwrap();
    assert_eq!(files[0].path, "f");
    assert_eq!(files[0].hunks[0].lines[0].content, "x");
}

#[test]
fn a_hunk_that_ends_early_is_truncated() {
    let e = parse("diff --git a/f b/f\n@@ -1,2 +1,2 @@\n a\n").unwrap_err();
    assert!(matches!(e, DiffError::Truncated));
    assert_eq!(e.message(), "diff ended in the middle of a hunk");
}

#[test]
fn a_line_that_is_none_is_refused() {
    let e = parse("diff --git a/f b/f\n@@ -1,2 +1,2 @@\n?a\n").unwrap_err();
    assert!(matches!(&e, DiffError::UnexpectedLine { start: '?', line } if line == "?a"));
    assert_eq!(e.message(), "unexpected line in hunk (starts with '?'): ?a");
    let e = parse("diff --git a/f b/f\n@@ -1,2 +1,2 @@\n'a\n").unwrap_err();
    assert_eq!(e.message(), "unexpected line in hunk (starts with '\\''): 'a");
}

fn header_error(header: &str) -> HeaderError {
    match parse(&format!("diff --git a/f b/f\n{header}\n")) {
        Err(DiffError::BadHunkHeader { line, cause }) => {
            assert_eq!(line, header);
            cause
        }
        _ => panic!("the header was read"),
    }
}

#[test]
fn bad_headers_are_refused() {
    assert_eq!(header_error("@@ -1 +1"), HeaderError::NotAHeader);
    assert_eq!(header_error("@@ -1 @@"), HeaderError::MissingRange);
    assert_eq!(header_error("@@ 1 +1 @@"), HeaderError::BadOldRange);
    assert_eq!(header_error("@@ -1 1 @@"), HeaderError::BadNewRange);
    assert_eq!(
        header_error("@@ -x +1 @@"),
        HeaderError::BadNumber(NumberError::InvalidDigit)
    );
    assert_eq!(
        header_error("@@ -1, +1 @@"),
        HeaderError::BadNumber(NumberError::Empty)
    );
    assert_eq!(
        header_error("@@ -1 +99999999999999999999999 @@"),
        HeaderError::BadNumber(NumberError::Overflow)
    );
}

#[test]
fn header_errors_say_why() {
    assert_eq!(HeaderError::NotAHeader.message(), "not a hunk header");
    assert_eq!(HeaderError::MissingRange.message(), "missing range");
    assert_eq!(HeaderError::BadOldRange.message(), "bad old range");
    assert_eq!(HeaderError::BadNewRange.message(), "bad new range");
    assert_eq!(
        HeaderError::BadNumber(NumberError::Empty).message(),
        "cannot parse integer from empty string"
    );
    assert_eq!(
        NumberError::InvalidDigit.message(),
        "invalid digit found in string"
    );
    assert_eq!(
        NumberError::Overflow.message(),
        "number too large to fit in target type"
    );
}

#[test]
fn bad_headers_are_named() {
    let e = parse("diff --git a/f b/f\n@@ -1 +1\n").unwrap_err();
    assert_eq!(e.message(), "bad hunk header: @@ -1 +1");
}

#[test]
fn what_is_printed_is_read_back() {
    let text = "diff --git a/p q.txt b/p q.txt\nindex abc..def 100755\n--- a/p q.txt\n+++ b/p q.txt\n@@ -2,3 +2,3 @@ fn\n one\n-two\n\\ No newline at end of file\n+TWO\n three\n";
    let files = parse(text).unwrap();
    assert_eq!(files.len(), 1);
    let f = &files[0];
    assert_eq!(f.path, "p q.txt");
    assert_eq!(f.mode, "100755");
    assert_eq!(f.old_blob.as_deref(), Some("abc"));
    let shown: Vec<(LineKind, &str, bool)> = f.hunks[0]
        .lines
        .iter()
        .map(|l| (l.kind, l.content.as_str(), l.no_newline))
        .collect();
    assert_eq!(
        shown,
        vec![
            (LineKind::Context, "one", false),
            (LineKind::Del, "two", true),
            (LineKind::Add, "TWO", false),
            (LineKind::Context, "three", false),
        ]
    );
}

/// The files by their paths and hunks alone.
fn shown_plainly(files: &[FileDiff]) -> String {
    let mut out = String::new();
    for f in files {
        out.push_str(&format!("diff --git a/{0} b/{0}\n--- a/{0}\n+++ b/{0}\n", f.path));
        for h in &f.hunks {
            out.push_str(&format!("{}\n", h.header));
            for l in &h.lines {
                let mark = match l.kind {
                    LineKind::Context => ' ',
                    LineKind::Add => '+',
                    LineKind::Del => '-',
                };
                out.push_str(&format!("{mark}{}\n", l.content));
                if l.no_newline {
                    out.push_str("\\ No newline at end of file\n");
                }
            }
        }
    }
    out
}

#[test]
fn what_was_read_is_read_again() {
    let more_than_announced = "diff --git a/x b/y b/z\n@@ -1,0 +1,2 @@ tail\n-a\n\\ odd note\n-b\n+c\n+d\n\\\n@@ -9,0 +9,0 @@\n@@ -3 +3 @@\n\nnoise\n";
    for text in [SAMPLE, more_than_announced, "", "diff --git nothing\n"] {
        let files = parse(text).unwrap();
        let again = parse(&shown_plainly(&files)).unwrap();
        assert_eq!(again.len(), files.len());
        for (a, f) in again.iter().zip(&files) {
            assert_eq!(a.path, f.path);
            assert_eq!(format!("{:?}", a.hunks), format!("{:?}", f.hunks));
        }
    }
    let files = parse(more_than_announced).unwrap();
    assert_eq!(files[0].hunks.len(), 3);
    assert_eq!(files[0].hunks[0].lines.len(), 4);
    assert!(files[0].hunks[0].lines[0].no_newline);
    assert!(files[0].hunks[0].lines[3].no_newline);
    assert_eq!(files[0].path, "y b/z");
}

#[test]
fn diffs_are_read_one_after_another() {
    let second = "diff --git a/z b/z\n@@ -0,0 +1 @@\n+z\n";
    for first in ["", "noise\n", SAMPLE, second] {
        let mut want = parse(first).unwrap();
        want.extend(parse(second).unwrap());
        let both = parse(&format!("{first}{second}")).unwrap();
        assert_eq!(format!("{both:?}"), format!("{want:?}"));
    }
    let bad = "diff --git a/z b/z\n@@ -1 +1 @@\n";
    assert_eq!(
        parse(&format!("{SAMPLE}{bad}")).unwrap_err().message(),
        parse(bad).unwrap_err().message()
    );
}
