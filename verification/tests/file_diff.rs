use diff_fuse::file_diff::FileDiff;
use diff_fuse::lines::Lines;

fn parse(text: &str) -> Result<FileDiff, diff_fuse::error::ParseErr> {
    FileDiff::from_lines(&mut Lines::from_text(text).unwrap())
}

fn test(lhs: &str, rhs: &str, expected: &str) {
    let ldiff = match parse(lhs) {
        Ok(diff) => diff,
        Err(err) => {
            panic!("{err:?}");
        }
    };

    let rdiff = match parse(rhs) {
        Ok(diff) => diff,
        Err(err) => {
            panic!("{err:?}");
        }
    };

    let fused = match ldiff.fuse(rdiff) {
        Ok(diff) => diff,
        Err(err) => {
            panic!("{err:?}");
        }
    };

    assert_eq!(fused.to_string().as_str(), expected);
}

#[test]
fn file_diff_case_1() {
    test(
        "\
Index: test.txt
===================================================================
--- test.txt
+++ test.txt
@@ -1 +1 @@
-a
+b
",
        "\
    Index: test.txt
===================================================================
--- test.txt
+++ test.txt
@@ -1 +1 @@
-b
+c
",
        "\
    Index: test.txt
===================================================================
--- test.txt
+++ test.txt
@@ -1 +1 @@
-a
+c
",
    );
}

#[test]
fn file_diff_case_2() {
    test(
        "\
Index: test.txt
===================================================================
--- test.txt
+++ test.txt
@@ -1 +1 @@
-a
+1
@@ -2 +2 @@
-b
+2
@@ -3 +3 @@
-c
+3
",
        "\
Index: test.txt
===================================================================
--- test.txt
+++ test.txt
@@ -1,3 +1,3 @@
-1
-2
-3
+i
+ii
+iii
",
        "\
Index: test.txt
===================================================================
--- test.txt
+++ test.txt
@@ -1,3 +1,3 @@
-a
-b
-c
+i
+ii
+iii
",
    );
}

#[test]
fn file_diff_case_3() {
    test(
        "\
Index: test.txt
===================================================================
--- test.txt
+++ test.txt
@@ -1,3 +1,3 @@
-1
-2
-3
+i
+ii
+iii
",
        "\
Index: test.txt
===================================================================
--- test.txt
+++ test.txt
@@ -1 +1 @@
-i
+a
@@ -2 +2 @@
-ii
+b
@@ -3 +3 @@
-iii
+c
",
        "\
Index: test.txt
===================================================================
--- test.txt
+++ test.txt
@@ -1,3 +1,3 @@
-1
-2
-3
+a
+b
+c
",
    );
}

#[test]
fn file_diff_case_4() {
    test(
        "\
Index: test.txt
===================================================================
--- test.txt
+++ test.txt
@@ -1 +1 @@
-1
+i
@@ -2,2 +2,2 @@
-2
-3
+ii
+iii
",
        "\
Index: test.txt
===================================================================
--- test.txt
+++ test.txt
@@ -1,2 +1,2 @@
-i
-ii
+a
+b
@@ -3 +3 @@
-iii
+c
",
        "\
Index: test.txt
===================================================================
--- test.txt
+++ test.txt
@@ -1,3 +1,3 @@
-1
-2
-3
+a
+b
+c
",
    );
}

#[test]
fn file_diff_case_5() {
    test(
        "\
Index: text.txt
===================================================================
--- text.txt
+++ text.txt
@@ -6 +6 @@
-5
+e
",
        "\
Index: text.txt
===================================================================
--- text.txt
+++ text.txt
@@ -1 +0,0 @@
-0
@@ -9 +8 @@
-8
+viii
",
        "\
Index: text.txt
===================================================================
--- text.txt
+++ text.txt
@@ -1 +0,0 @@
-0
@@ -6 +5 @@
-5
+e
@@ -9 +8 @@
-8
+viii
",
    );
}

const HEAD: &str =
    "Index: t\n===================================================================\n--- t\n+++ t\n";

fn block(hunks: &str) -> String {
    format!("{HEAD}{hunks}")
}

#[test]
fn file_diff_substitutions_compose() {
    test(
        &block("@@ -1 +1 @@\n-a\n+b\n"),
        &block("@@ -1 +1 @@\n-b\n+c\n"),
        &block("@@ -1 +1 @@\n-a\n+c\n"),
    );
}

#[test]
fn file_diff_insert_then_delete_leaves_an_empty_hunk() {
    test(
        &block("@@ -2,0 +3,2 @@\n+3\n+4\n"),
        &block("@@ -3,2 +2,0 @@\n-3\n-4\n"),
        &block("@@ -0,0 +0,0 @@\n"),
    );
}

#[test]
fn file_diff_disjoint_hunks_are_kept_and_moved() {
    // the left hunk adds two lines, so the right hunk has its pre-image
    // start moved by two
    test(
        &block("@@ -0,0 +1,2 @@\n+x\n+y\n"),
        &block("@@ -12 +12 @@\n-j\n+J\n"),
        &block("@@ -0,0 +1,2 @@\n+x\n+y\n@@ -14 +12 @@\n-j\n+J\n"),
    );
    // the right hunk removes a line before the left hunk, whose post-image
    // start moves back by one
    test(
        &block("@@ -6 +6 @@\n-5\n+e\n"),
        &block("@@ -1 +0,0 @@\n-0\n"),
        &block("@@ -1 +0,0 @@\n-0\n@@ -6 +5 @@\n-5\n+e\n"),
    );
}

#[test]
fn file_diff_fuse_with_no_hunks_rewrites_headers() {
    test(&block("@@ -1,1 +1,1 @@\n-a\n+b\n"), HEAD, &block("@@ -1 +1 @@\n-a\n+b\n"));
    test(HEAD, &block("@@ -1,1 +1,1 @@\n-a\n+b\n"), &block("@@ -1 +1 @@\n-a\n+b\n"));
}

#[test]
fn file_diff_fuse_conserves_offset() {
    let l = parse(&block("@@ -1 +1,2 @@\n-a\n+1\n+2\n@@ -5 +6 @@\n x\n")).unwrap();
    let r = parse(&block("@@ -1,2 +1 @@\n-1\n-2\n+i\n@@ -9 +8,3 @@\n y\n+z\n+w\n")).unwrap();
    let delta = |d: &FileDiff| d.hunks().iter().map(|h| h.offset()).sum::<i64>();
    let sum = delta(&l) + delta(&r);
    assert_eq!(delta(&l.fuse(r).unwrap()), sum);
}

#[test]
fn file_diff_fuse_rejects_other_file() {
    let l = parse(&block("@@ -1 +1 @@\n-a\n+b\n")).unwrap();
    let r = parse("Index: u\n=\n--- u\n+++ u\n@@ -1 +1 @@\n-b\n+c\n").unwrap();
    assert!(l.fuse(r).is_err());
}

#[test]
fn file_diff_fuse_rejects_header_underflow() {
    // the left diff removed five lines, which moves the right hunk's
    // pre-image before the first line
    let l = parse(&block("@@ -1,5 +0,0 @@\n-1\n-2\n-3\n-4\n-5\n")).unwrap();
    let r = parse(&block("@@ -3 +3 @@\n-x\n+y\n")).unwrap();
    assert!(l.fuse(r).is_err());
}

#[test]
fn file_diff_parse_rejects_overlapping_hunks() {
    assert!(parse(&block("@@ -1,2 +1,2 @@\n a\n b\n@@ -2,1 +2,1 @@\n b\n")).is_err());
    assert!(parse(&block("@@ -1,2 +1,2 @@\n a\n b\n@@ -3,1 +3,1 @@\n c\n")).is_ok());
}

#[test]
fn file_diff_parse_needs_the_four_header_lines() {
    assert!(parse("Index: t\n=\n--- t\n").is_err());
    assert!(parse("index: t\n=\n--- t\n+++ t\n").is_err());
    assert!(parse("Index:t\n=\n--- t\n+++ t\n").is_err());
    let diff = parse("Index: a b\nanything\nat\nall\n").unwrap();
    assert_eq!(diff.header().file_name(), "a b");
    assert_eq!(diff.num_lines(), 4);
}

#[test]
fn file_diff_parse_skips_blank_lines_between_hunks() {
    let text = block("\n@@ -1 +1 @@\n-a\n+b\n\n\t \n@@ -5 +5 @@\n-c\n+d\n\n");
    let diff = parse(&text).unwrap();
    assert_eq!(diff.hunks().len(), 2);
    assert_eq!(diff.num_lines(), 10);
    assert_eq!(diff.to_string(), block("@@ -1 +1 @@\n-a\n+b\n@@ -5 +5 @@\n-c\n+d\n"));
}

#[test]
fn file_diff_parse_reads_a_line_of_spaces_as_context() {
    // a line that starts with a space belongs to the hunk before it
    assert!(parse(&block("@@ -1 +1 @@\n-a\n+b\n  \n@@ -5 +5 @@\n-c\n+d\n")).is_err());
    let diff = parse(&block("@@ -1,2 +1,2 @@\n-a\n+b\n  \n@@ -5 +5 @@\n-c\n+d\n")).unwrap();
    assert_eq!(diff.hunks()[0].lines().len(), 4);
}

#[test]
fn file_diff_parse_stops_at_next_block() {
    let mut lines = Lines::from_text(&block("@@ -1 +1 @@\n-a\n+b\nIndex: next\n")).unwrap();
    let diff = FileDiff::from_lines(&mut lines).unwrap();
    assert_eq!(diff.hunks().len(), 1);
    assert_eq!(lines.next().unwrap(), "Index: next");
}

#[test]
fn file_diff_line_iter_lists_every_line() {
    let diff = parse(&block("@@ -1 +1 @@\n-a\n+b\n")).unwrap();
    let mut it = diff.line_iter();
    let mut seen = Vec::new();
    while let Some(line) = it.next() {
        seen.push(line.clone());
    }
    assert_eq!(seen.len(), diff.num_lines());
    assert_eq!(seen[0], "Index: t");
    assert_eq!(seen[4], "@@ -1 +1 @@");
    assert_eq!(seen[6], "+b");
    assert!(diff_fuse::file_diff::LineIter::default().next().is_none());
}

fn counts(lines: &[String]) -> (i64, i64) {
    let mut before = 0;
    let mut after = 0;
    for line in lines {
        match line.chars().next() {
            Some('-') => before += 1,
            Some('+') => after += 1,
            Some(' ') => {
                before += 1;
                after += 1;
            }
            other => panic!("unexpected tag {other:?}"),
        }
    }
    (before, after)
}

#[test]
fn file_diff_headers_count_their_bodies() {
    let l = parse(&block("@@ -1 +1 @@\n-a\n+1\n@@ -2 +2 @@\n-b\n+2\n@@ -9 +9,2 @@\n z\n+y\n")).unwrap();
    let r = parse(&block("@@ -1,2 +1,2 @@\n-1\n-2\n+i\n+ii\n@@ -5 +5,0 @@\n-q\n")).unwrap();
    let check = |diff: &FileDiff| {
        for hunk in diff.hunks() {
            let (before, after) = counts(&hunk.lines()[1..]);
            assert_eq!(hunk.header().fields[1], before);
            assert_eq!(hunk.header().fields[3], after);
        }
    };
    check(&l);
    check(&r);
    check(&l.fuse(r).unwrap());
}

#[test]
fn file_diff_parsed_hunks_do_not_overlap() {
    let diff =
        parse(&block("@@ -1,2 +1 @@\n a\n-b\n@@ -3 +2,2 @@\n c\n+d\n@@ -9,0 +9 @@\n+e\n")).unwrap();
    let hunks = diff.hunks();
    for i in 0..hunks.len() {
        for j in i + 1..hunks.len() {
            assert!(!hunks[i].overlaps(&hunks[j]));
        }
    }
}

#[test]
fn file_diff_removals_side_by_side_stay_apart() {
    // the first diff removes the second line, the second diff the line
    // that has become the second; the two hunks do not meet
    test(
        &block("@@ -2 +1,0 @@\n-l1\n"),
        &block("@@ -2 +1,0 @@\n-l2\n"),
        &block("@@ -2 +1,0 @@\n-l2\n@@ -2 +0,0 @@\n-l1\n"),
    );
}
