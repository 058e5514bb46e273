use diff_fuse::file_diff::FileDiff;
use diff_fuse::lines::Lines;

const HEAD: &str =
    "Index: f\n===================================================================\n--- f\n+++ f\n";

fn parse(hunks: &str) -> FileDiff {
    let text = format!("{HEAD}{hunks}");
    FileDiff::from_lines(&mut Lines::from_text(&text).unwrap()).unwrap()
}

fn check(left: &str, right: &str, expected: Option<&str>) {
    let fused = parse(left).fuse(parse(right)).ok().map(|diff| diff.to_string());
    assert_eq!(fused, expected.map(|hunks| format!("{HEAD}{hunks}")));
}

#[test]
fn fuse_streams_case_01() {
    check(
        "\
@@ -2,5 +2,4 @@
 l1
 l2
-l3
 l4
 l5
@@ -8,3 +7,3 @@
 l7
 l8
-l9
+s1
",
        "\
@@ -2,8 +2,7 @@
 l1
 l2
-l4
-l5
+s3
+s2
 l6
-l7
-l8
+s4
 s1
",
        Some(
            "\
@@ -2,9 +2,7 @@
 l1
 l2
-l3
-l4
-l5
+s3
+s2
 l6
-l7
-l8
-l9
+s4
+s1
",
        ),
    );
}

#[test]
fn fuse_streams_case_02() {
    check(
        "\
@@ -4,8 +4,7 @@
 l3
 l4
-l5
+s1
 l6
 l7
-l8
 l9
 l10
",
        "\
@@ -2,5 +2,5 @@
 l1
 l2
-l3
+s2
 l4
 s1
",
        Some(
            "\
@@ -2,10 +2,9 @@
 l1
 l2
-l3
+s2
 l4
-l5
+s1
 l6
 l7
-l8
 l9
 l10
",
        ),
    );
}

#[test]
fn fuse_streams_case_03() {
    check(
        "\
@@ -1,5 +1,4 @@
-l0
 l1
 l2
-l3
+s1
 l4
",
        "\
@@ -1,8 +1,7 @@
 l1
-l2
 s1
-l4
+s3
 l5
 l6
-l7
+s2
 l8
",
        Some(
            "\
@@ -1,9 +1,7 @@
-l0
 l1
-l2
-l3
-l4
+s1
+s3
 l5
 l6
-l7
+s2
 l8
",
        ),
    );
}

#[test]
fn fuse_streams_case_04() {
    check(
        "\
@@ -1,9 +1,6 @@
 l0
 l1
-l2
-l3
 l4
 l5
 l6
-l7
 l8
",
        "\
@@ -1,4 +1,4 @@
+n1
 l0
-l1
 l4
 l5
",
        Some(
            "\
@@ -1,9 +1,6 @@
+n1
 l0
-l1
-l2
-l3
 l4
 l5
 l6
-l7
 l8
",
        ),
    );
}

#[test]
fn fuse_streams_case_05() {
    check(
        "\
@@ -5 +4,0 @@
-l4
",
        "\
@@ -1 +1 @@
-l0
+s2
@@ -4,2 +4 @@
-l3
-l5
+s1
",
        Some(
            "\
@@ -1 +1 @@
-l0
+s2
@@ -4,2 +4 @@
-l3
-l5
+s1
@@ -5 +3,0 @@
-l4
",
        ),
    );
}

#[test]
fn fuse_streams_case_06() {
    check(
        "\
@@ -2,2 +2 @@
-l1
-l2
+s1
",
        "\
@@ -1,2 +1 @@
-l0
-s1
+s3
@@ -5 +4 @@
-l5
+s2
",
        Some(
            "\
@@ -1,3 +1 @@
-l0
-l1
-l2
+s3
@@ -3 +4 @@
-l5
+s2
",
        ),
    );
}

#[test]
fn fuse_streams_case_07() {
    check(
        "\
@@ -2 +2,2 @@
-l1
+n3
+s2
@@ -4,2 +5 @@
-l3
-l4
+s1
",
        "\
@@ -2 +1,0 @@
-n3
@@ -3,0 +3 @@
+n4
@@ -6 +5,0 @@
-l5
",
        Some(
            "\
@@ -2 +2 @@
-l1
+s2
@@ -3,0 +3 @@
+n4
@@ -4,2 +6 @@
-l3
-l4
+s1
@@ -5 +5,0 @@
-l5
",
        ),
    );
}

#[test]
fn fuse_streams_case_08() {
    check(
        "\
@@ -1,2 +1,3 @@
 l0
+n1
 l1
@@ -4,2 +5,3 @@
 l3
+n2
 l4
",
        "\
@@ -1,4 +1,3 @@
-l0
-n1
-l1
+s4
+s3
 l2
@@ -10 +9,2 @@
 l7
+n5
",
        Some(
            "\
@@ -1,3 +1,3 @@
-l0
-l1
+s4
+s3
 l2
@@ -4,2 +5,3 @@
 l3
+n2
 l4
@@ -11 +9,2 @@
 l7
+n5
",
        ),
    );
}

#[test]
fn fuse_streams_case_09() {
    check(
        "\
@@ -4,3 +4,2 @@
 l3
-l4
 l5
",
        "\
@@ -1,2 +1,2 @@
-l0
+s2
 l1
@@ -4,2 +4,3 @@
 l3
+n1
 l5
",
        Some(
            "\
@@ -1,2 +1,2 @@
-l0
+s2
 l1
@@ -4,3 +4,3 @@
 l3
-l4
+n1
 l5
",
        ),
    );
}

#[test]
fn fuse_streams_case_10() {
    check(
        "\
@@ -1 +1 @@
-l0
+s1
@@ -4,2 +3,0 @@
-l3
-l4
",
        "\
@@ -1 +1,2 @@
-s1
+s2
+n3
@@ -3,2 +3,0 @@
-l2
-l5
",
        Some(
            "\
@@ -1 +1,2 @@
-l0
+s2
+n3
@@ -4,2 +3,0 @@
-l2
-l5
@@ -4,2 +2,0 @@
-l3
-l4
",
        ),
    );
}

#[test]
fn fuse_streams_case_11() {
    check(
        "\
@@ -3 +3 @@
-l2
+s1
@@ -7,0 +8 @@
+n3
@@ -8,0 +10 @@
+n2
",
        "\
@@ -4 +3,0 @@
-l3
@@ -6 +4,0 @@
-l5
@@ -10 +8 @@
-n2
+s4
",
        Some(
            "\
@@ -4 +3,0 @@
-l3
@@ -3 +2 @@
-l2
+s1
@@ -6 +4,0 @@
-l5
@@ -7,0 +6 @@
+n3
@@ -7,0 +8 @@
+s4
",
        ),
    );
}

#[test]
fn fuse_streams_case_12() {
    check(
        "\
@@ -1,5 +1,4 @@
 l0
 l1
-l2
 l3
 l4
@@ -9,4 +8,4 @@
 l8
 l9
-l10
+n2
 l11
",
        "\
@@ -1,11 +1,11 @@
 l0
 l1
-l3
 l4
 l5
-l6
+s3
 l7
-l8
+s4
 l9
+n5
 n2
 l11
",
        Some(
            "\
@@ -1,12 +1,11 @@
 l0
 l1
-l2
-l3
 l4
 l5
-l6
+s3
 l7
-l8
+s4
 l9
-l10
+n5
+n2
 l11
",
        ),
    );
}

#[test]
fn fuse_streams_case_13() {
    check(
        "\
@@ -2,2 +2,3 @@
 l1
+n1
 l2
@@ -6,6 +7,4 @@
 l5
-l6
 l7
 l8
-l9
 l10
",
        "\
@@ -1,2 +1,3 @@
 l0
+n2
 l1
",
        Some(
            "\
@@ -1,3 +1,5 @@
 l0
+n2
 l1
+n1
 l2
@@ -6,6 +9,4 @@
 l5
-l6
 l7
 l8
-l9
 l10
",
        ),
    );
}

#[test]
fn fuse_streams_case_14() {
    check(
        "\
@@ -1,2 +1,2 @@
-l0
+n1
 l1
@@ -5,4 +5,3 @@
 l4
-l5
-l6
+s2
 l7
",
        "\
@@ -1,3 +1,2 @@
 n1
-l1
 l2
@@ -5,3 +4,5 @@
 l4
-s2
+s3
 l7
+n5
+n4
",
        Some(
            "\
@@ -1,3 +1,2 @@
-l0
-l1
+n1
 l2
@@ -5,4 +4,5 @@
 l4
-l5
-l6
+s3
 l7
+n5
+n4
",
        ),
    );
}

#[test]
fn fuse_streams_case_15() {
    check(
        "\
@@ -3,4 +3,4 @@
 l2
-l3
 l4
+n3
 l5
@@ -8,2 +8,3 @@
 l7
-l8
+n1
+s2
",
        "\
@@ -8,3 +8,2 @@
 l7
-n1
 s2
",
        Some(
            "\
@@ -3,4 +3,4 @@
 l2
-l3
 l4
+n3
 l5
@@ -8,2 +8,2 @@
 l7
-l8
+s2
",
        ),
    );
}

#[test]
fn fuse_streams_case_16() {
    check(
        "\
@@ -1 +1,3 @@
+n2
+n1
 l0
@@ -4 +6,3 @@
 l3
+n3
+n4
",
        "\
@@ -3,3 +3,3 @@
 l0
-l1
+s5
 l2
@@ -7,2 +7,3 @@
 n3
+n6
 n4
",
        Some(
            "\
@@ -1,3 +1,5 @@
+n2
+n1
 l0
-l1
+s5
 l2
@@ -4 +6,4 @@
 l3
+n3
+n6
+n4
",
        ),
    );
}

#[test]
fn fuse_streams_case_17() {
    check(
        "\
@@ -1 +0,0 @@
-l0
@@ -4 +3 @@
-l3
+s1
",
        "\
@@ -1 +0,0 @@
-l1
@@ -2,0 +2 @@
+n2
@@ -7 +6,0 @@
-l7
",
        None,
    );
}

#[test]
fn fuse_streams_case_18() {
    check(
        "\
@@ -1,2 +0,0 @@
-l0
-l1
",
        "\
@@ -1,2 +0,0 @@
-l2
-l3
",
        None,
    );
}

#[test]
fn fuse_streams_case_19() {
    check(
        "\
@@ -2 +1,0 @@
-l1
@@ -5 +4 @@
-l4
+s1
",
        "\
@@ -1 +0,0 @@
-l0
@@ -3 +1,0 @@
-l3
",
        None,
    );
}

#[test]
fn fuse_streams_case_20() {
    check(
        "\
@@ -1 +0,0 @@
-l0
@@ -3 +1,0 @@
-l2
@@ -6 +4 @@
-l5
+s1
",
        "\
@@ -1 +0,0 @@
-l1
@@ -6 +5 @@
-l7
+n3
",
        None,
    );
}
