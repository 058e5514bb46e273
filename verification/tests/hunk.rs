use std::cmp::Ordering;
use diff_fuse::hunk::header::Header;
use diff_fuse::hunk::Hunk;
use diff_fuse::lines::Lines;

fn parse(text: &str) -> Result<Hunk, diff_fuse::error::ParseErr> {
    Hunk::from_lines(&mut Lines::from_text(text).unwrap())
}

fn test(left: &str, right: &str, expected: &str) {
    let lhs = parse(left);
    let rhs = parse(right);
    match (lhs, rhs) {
        (Ok(lhunk), Ok(rhunk)) => match lhunk.fuse(rhunk) {
            Ok(hunk) => {
                let actual: Vec<_> = hunk.lines().iter().map(|s| s.as_str()).collect();
                assert_eq!(actual, expected.lines().collect::<Vec<&str>>());
            }
            Err(err) => panic!("Error: {:?}", err),
        },
        (left, right) => panic!("Unexpected case: {:?}", (left, right)),
    }
}

#[test]
fn hunk_case_1() {
    test(
        "\
@@ -1 +1 @@
-a
+b
",
        "\
@@ -1 +1,2 @@
-b
+c
+d
",
        "\
@@ -1 +1,2 @@
-a
+c
+d
",
    );
}

#[test]
fn hunk_case_2() {
    test(
        "\
@@ -2,4 +2,5 @@
 3
 4
 5
+6
 7
",
        "\
@@ -1,5 +1,6 @@
 1
+2
 3
 4
 5
 6
",
        "\
@@ -1,5 +1,7 @@
 1
+2
 3
 4
 5
+6
 7
",
    );
}

#[test]
fn hunk_case_3() {
    test(
        "\
@@ -3 +3 @@
-c
+C
",
        "\
@@ -1,3 +0,0 @@
-a
-b
-C
",
        "\
@@ -1,3 +0,0 @@
-a
-b
-c
",
    );
}

#[test]
fn hunk_case_4() {
    test(
        "\
@@ -1,0 +3,1 @@
+d
",
        "\
@@ -1,3 +1,4 @@
+a
 b
 c
 d
",
        "\
@@ -1,2 +1,4 @@
+a
 b
 c
+d
",
    );
}

#[test]
fn hunk_case_5() {
    test(
        "\
@@ -9 +6,2 @@
 9
+x
",
        "\
@@ -6 +5,0 @@
-9
",
        "\
@@ -9 +6 @@
-9
+x
",
    );
}

#[test]
fn hunk_case_6() {
    test(
        "\
@@ -9 +6,2 @@
 9
+x
",
        "\
@@ -5,2 +5,1 @@
 8
-9
",
        "\
@@ -8,2 +5,2 @@
 8
-9
+x
",
    );
}

#[test]
fn hunk_case_7() {
    test(
        "\
@@ -2,0 +3,2 @@
+3
+4
",
        "\
@@ -3,2 +2,0 @@
-3
-4
",
        "\
@@ -0,0 +0,0 @@
",
    );
}

#[test]
fn hunk_parse_stops_at_first_line_without_tag() {
    let mut lines = Lines::from_text("@@ -1,2 +1 @@\n a\n-b\nIndex: x\n").unwrap();
    let hunk = Hunk::from_lines(&mut lines).unwrap();
    assert_eq!(hunk.lines().len(), 3);
    assert_eq!(hunk.header().fields, [1, 2, 1, 1]);
    assert_eq!(lines.next().unwrap(), "Index: x");
    assert!(lines.next().is_none());
}

#[test]
fn hunk_parse_rejects_count_mismatch() {
    assert!(parse("@@ -1,2 +1 @@\n a\n").is_err());
    assert!(parse("@@ -1 +1 @@\n a\n a\n").is_err());
    assert!(parse("@@ -1 +1 @@\n-a\n").is_err());
    assert!(parse("@@ -1 +1 @@\n").is_err());
    assert!(parse("@@ -1,0 +1,0 @@\n").is_ok());
}

#[test]
fn hunk_parse_rejects_missing_header() {
    assert!(parse("").is_err());
    assert!(parse(" a\n").is_err());
    assert!(parse("@@ nonsense @@\n").is_err());
    assert!(parse("@@ -9223372036854775807,2 +1,2 @@\n a\n a\n").is_err());
}

#[test]
fn hunk_offset_is_added_minus_removed() {
    assert_eq!(parse("@@ -1,2 +1,4 @@\n a\n+b\n+c\n+d\n-e\n").unwrap().offset(), 2);
    assert_eq!(parse("@@ -1,3 +1 @@\n-a\n b\n-c\n").unwrap().offset(), -2);
    assert_eq!(parse("@@ -1 +1 @@\n a\n").unwrap().offset(), 0);
}

#[test]
fn hunk_with_offset_rewrites_header_only() {
    let hunk = parse("@@ -3,1 +7,2 @@\n a\n+b\n").unwrap();
    let moved = hunk.with_offset(2, -3).unwrap();
    assert_eq!(moved.header().fields, [5, 1, 4, 2]);
    assert_eq!(moved.lines(), &vec!["@@ -5 +4,2 @@".to_string(), " a".to_string(),
        "+b".to_string()]);
    assert!(parse("@@ -3 +7 @@\n a\n").unwrap().with_offset(-4, 0).is_err());
    assert!(parse("@@ -3 +7 @@\n a\n").unwrap().with_offset(0, i64::MAX - 7).is_err());
}

#[test]
fn hunk_new_writes_the_header_line() {
    let hunk = Hunk::new(Header::from([4, 1, 4, 2]), vec![" a".to_string(), "+b".to_string()]);
    assert_eq!(hunk.lines(), &vec!["@@ -4 +4,2 @@".to_string(), " a".to_string(),
        "+b".to_string()]);
    let (header, body) = hunk.unpack();
    assert_eq!(header.fields, [4, 1, 4, 2]);
    assert_eq!(body, vec![" a".to_string(), "+b".to_string()]);
}

#[test]
fn hunk_fuse_needs_the_boundary_to_meet() {
    let left = parse("@@ -1 +1 @@\n-a\n+b\n").unwrap();
    let right = parse("@@ -5 +5 @@\n-x\n+y\n").unwrap();
    assert!(left.fuse(right).is_err());
}

#[test]
fn hunk_fuse_rejects_context_mismatch() {
    let left = parse("@@ -1 +1 @@\n a\n").unwrap();
    let right = parse("@@ -1 +1 @@\n b\n").unwrap();
    assert!(left.fuse(right).is_err());
    let left = parse("@@ -1 +1 @@\n-a\n+b\n").unwrap();
    let right = parse("@@ -1 +1 @@\n-c\n+d\n").unwrap();
    assert!(left.fuse(right).is_err());
}

#[test]
fn hunk_fuse_replacement_keeps_both_lines() {
    // the left hunk removes `a` where the right hunk adds `b`
    test(
        "@@ -1,2 +1 @@\n-a\n c\n",
        "@@ -1 +1,2 @@\n+b\n c\n",
        "@@ -1,2 +1,2 @@\n-a\n+b\n c\n",
    );
}

#[test]
fn hunk_fuse_drops_a_line_taken_out_and_put_back() {
    // the left hunk removes `a` where the right hunk adds `a` again
    test("@@ -1,2 +1 @@\n-a\n c\n", "@@ -1 +1,2 @@\n+a\n c\n", "@@ -1 +1 @@\n c\n");
}

#[test]
fn hunk_fuse_substitution_then_revert_keeps_both() {
    test("@@ -1 +1 @@\n-a\n+b\n", "@@ -1 +1 @@\n-b\n+a\n", "@@ -1 +1 @@\n-a\n+a\n");
}

#[test]
fn hunk_fuse_conserves_offset() {
    let left = parse("@@ -2,4 +2,5 @@\n 3\n 4\n 5\n+6\n 7\n").unwrap();
    let right = parse("@@ -1,5 +1,6 @@\n 1\n+2\n 3\n 4\n 5\n 6\n").unwrap();
    let sum = left.offset() + right.offset();
    assert_eq!(left.fuse(right).unwrap().offset(), sum);
}

#[test]
fn hunk_cmp_and_overlaps_follow_the_header() {
    let a = parse("@@ -1 +1 @@\n a\n").unwrap();
    let b = parse("@@ -1,2 +1,2 @@\n a\n b\n").unwrap();
    let c = parse("@@ -7 +9 @@\n a\n").unwrap();
    assert_eq!(a.cmp(&c), Ordering::Less);
    assert_eq!(c.cmp(&a), Ordering::Greater);
    assert_eq!(a.cmp(&b), Ordering::Equal);
    assert!(a.overlaps(&b));
    assert!(!a.overlaps(&c));
    assert_eq!(c.to_string(), "@@ -7 +9 @@");
}

#[test]
fn hunk_body_iter_lists_the_body() {
    let hunk = parse("@@ -3,2 +3,2 @@\n a\n-b\n+c\n").unwrap();
    let body: Vec<&str> = hunk.body_iter().into_iter().map(|s| s.as_str()).collect();
    assert_eq!(body, vec![" a", "-b", "+c"]);
    assert!(parse("@@ -3,0 +3,0 @@\n").unwrap().body_iter().is_empty());
}

#[test]
fn hunk_fuse_mismatch_names_both_lines() {
    let left = parse("@@ -1 +1 @@\n a\n").unwrap();
    let right = parse("@@ -1 +1 @@\n b\n").unwrap();
    let message = left.fuse(right).unwrap_err().to_string();
    assert_eq!(message, "MergeError: skip_take: Mismatch between lines -- ' a' and ' b'");
}
