use std::cmp::Ordering;
use diff_fuse::hunk::header::Header;

fn success(string: &str, expected: [i64; 4]) {
    assert_eq!(expected, Header::parse(string).unwrap().fields);
}

fn failure(string: &str) {
    assert_eq!(true, Header::parse(string).is_err());
}

#[test]
fn header_case_1() {
    success("@@ 2 2 @@", [2, 1, 2, 1]);
}

#[test]
fn header_case_2() {
    success("@@ 1,2 3 @@", [1, 2, 3, 1]);
}

#[test]
fn header_case_3() {
    success("@@ 1 2,3 @@", [1, 1, 2, 3]);
}

#[test]
fn header_case_4() {
    success("@@ 1,2 3,4 @@", [1, 2, 3, 4]);
}

#[test]
fn header_case_5() {
    failure("@@ @@");
}

#[test]
fn header_case_6() {
    failure("@@ 123123 @@");
}

#[test]
fn header_case_7() {
    failure("@@ 123:123 @@");
}

#[test]
fn header_case_8() {
    failure("@@ 123 : 123 @@");
}

#[test]
fn header_case_9() {
    failure("@@ 1 2 3 4 5 @@");
}

#[test]
fn case_10() {
    failure("@@ 1,2,3,4 @@");
}

#[test]
fn case_11() {
    failure("@@ 1 2 3 4 @@");
}

#[test]
fn header_accepts_signs() {
    success("@@ -12,3 +14,5 @@", [12, 3, 14, 5]);
    success("@@ -0,0 +1 @@", [0, 0, 1, 1]);
    success("@@ -007 +9223372036854775807 @@", [7, 1, i64::MAX, 1]);
}

#[test]
fn header_rejects_malformed_fields() {
    failure("@@ -1 +9223372036854775808 @@");
    failure("@@ --1 +1 @@");
    failure("@@ -1,-2 +1 @@");
    failure("@@ -1,2,3 +4 @@");
    failure("@@ -1  +1 @@");
    failure("@@ -1, +1 @@");
    failure("@@ - +1 @@");
    failure("@@ -1 +1 @");
    failure("@ -1 +1 @@");
    failure("");
    failure("@@  @@");
}

#[test]
fn header_text_omits_count_of_one() {
    assert_eq!(Header::from([1, 1, 1, 1]).to_string(), "@@ -1 +1 @@");
    assert_eq!(Header::from([1, 2, 3, 1]).to_string(), "@@ -1,2 +3 @@");
    assert_eq!(Header::from([1, 1, 2, 3]).to_string(), "@@ -1 +2,3 @@");
    assert_eq!(Header::from([10, 20, 30, 40]).to_string(), "@@ -10,20 +30,40 @@");
    assert_eq!(Header::from([0, 0, 0, 0]).to_string(), "@@ -0,0 +0,0 @@");
    assert_eq!(Header::from([9, 1, 8, 0]).to_string(), "@@ -9 +8,0 @@");
    assert_eq!(
        Header::from([i64::MAX, 0, i64::MIN, 0]).to_string(),
        "@@ -9223372036854775807,0 +-9223372036854775808,0 @@"
    );
}

#[test]
fn header_text_reads_back() {
    for fields in [[1, 1, 1, 1], [0, 0, 5, 2], [12, 0, 11, 9], [7, 3, 0, 0], [100, 10, 1000, 1]] {
        let text = Header::from(fields).to_string();
        assert_eq!(Header::parse(&text).unwrap().fields, fields);
    }
}

#[test]
fn header_overlaps_on_either_side() {
    let h = |f: [i64; 4]| Header::from(f);
    assert!(h([1, 2, 1, 2]).overlaps(&h([2, 1, 2, 1])));
    assert!(h([1, 2, 10, 2]).overlaps(&h([2, 1, 20, 1])));
    assert!(h([1, 2, 10, 2]).overlaps(&h([5, 1, 11, 1])));
    assert!(!h([1, 2, 1, 2]).overlaps(&h([3, 1, 3, 1])));
    assert!(!h([1, 0, 1, 0]).overlaps(&h([1, 0, 1, 0])));
}

#[test]
fn header_should_fuse_looks_at_the_boundary_only() {
    let h = |f: [i64; 4]| Header::from(f);
    // left post-image [5, 7) against right pre-image [6, 7)
    assert!(h([1, 2, 5, 2]).should_fuse(&h([6, 1, 20, 1])));
    // pre-images overlap, the boundary does not
    assert!(!h([1, 2, 5, 2]).should_fuse(&h([1, 2, 20, 1])));
    // an empty range meets nothing
    assert!(!h([1, 2, 5, 0]).should_fuse(&h([5, 1, 5, 1])));
    assert!(!h([1, 2, 5, 2]).should_fuse(&h([5, 0, 5, 1])));
}

#[test]
fn header_cmp_orders_by_smaller_start() {
    let h = |f: [i64; 4]| Header::from(f);
    assert_eq!(h([3, 1, 9, 1]).cmp(&h([8, 1, 4, 1])), Ordering::Less);
    assert_eq!(h([8, 1, 4, 1]).cmp(&h([3, 1, 9, 1])), Ordering::Greater);
    assert_eq!(h([3, 1, 9, 1]).cmp(&h([7, 1, 3, 5])), Ordering::Equal);
}

#[test]
fn header_with_offset_moves_starts() {
    let h = Header::from([3, 1, 9, 2]);
    assert_eq!(h.with_offset(2, -4).unwrap().fields, [5, 1, 5, 2]);
    assert_eq!(h.with_offset(-3, -9).unwrap().fields, [0, 1, 0, 2]);
    assert!(h.with_offset(-4, 0).is_err());
    assert!(h.with_offset(0, -10).is_err());
    assert!(h.with_offset(i64::MAX, 0).is_err());
}

#[test]
fn header_fuse_takes_the_earlier_start() {
    let h = |f: [i64; 4]| Header::from(f);
    // both sides non-empty: min(l.a, r.a - shift(l)), min(l.c + shift(r), r.c)
    assert_eq!(h([9, 1, 6, 2]).fuse(&h([5, 2, 5, 1])).fields, [8, 0, 5, 0]);
    // right pre-image empty: left start stands
    assert_eq!(h([3, 1, 3, 1]).fuse(&h([3, 0, 4, 2])).fields, [3, 0, 3, 0]);
    // left pre-image empty: right start stands
    assert_eq!(h([1, 0, 3, 1]).fuse(&h([1, 3, 1, 4])).fields, [1, 0, 1, 0]);
    // left post-image non-empty, right post-image empty: left start stands
    assert_eq!(h([9, 1, 6, 2]).fuse(&h([6, 1, 5, 0])).fields, [9, 0, 6, 0]);
}

#[test]
fn header_is_empty_when_both_counts_are_zero() {
    assert!(Header::from([0, 0, 0, 0]).is_empty());
    assert!(Header::from([4, 0, 5, 0]).is_empty());
    assert!(!Header::from([4, 1, 5, 0]).is_empty());
    assert!(Header::default().is_empty());
}
