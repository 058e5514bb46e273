use diff_fuse::file_diff::flagged_hunk::{FlaggedHunk, HunkAdapter};
use diff_fuse::file_diff::merge_iter::{merge_iter, merge_overlapping};
use diff_fuse::fuse::info::Info;
use diff_fuse::hand::Hand;
use diff_fuse::hunk::handed::{HandedHunk, Mergeable};
use diff_fuse::hunk::Hunk;
use diff_fuse::lines::Lines;
use diff_fuse::merge::Merge;

fn hunk(text: &str) -> Hunk {
    Hunk::from_lines(&mut Lines::from_text(text).unwrap()).unwrap()
}

fn handed(hunk: Hunk, hand: Hand) -> ([usize; 4], Vec<(Hand, String)>) {
    let (header, lines) = hunk.into_data();
    (header, lines.into_iter().map(|line| (hand, line)).collect())
}

fn test(left: &str, right: &str, expected: &str) {
    let (lheader, llines) = handed(hunk(left), Hand::Left);
    let (rheader, rlines) = handed(hunk(right), Hand::Right);
    match Merge::new(&lheader, llines, &rheader, rlines) {
        Ok(merge) => {
            let (header, data) = merge.into_data();
            let mut actual = vec![format!("{header:?}")];
            actual.extend(data.into_iter().map(|(_, line)| line));
            assert_eq!(actual, expected.lines().collect::<Vec<&str>>());
        }
        Err(err) => panic!("Error: {:?}", err),
    }
}

#[test]
fn merge_of_hunks_case_1() {
    test(
        "\
@@ -1 +1 @@
-a
+b
",
        "\
@@ -1 +1,2 @@
-b
+c
+d
",
        "\
[1, 1, 1, 2]
-a
+c
+d
",
    );
}

#[test]
fn merge_of_hunks_case_2() {
    test(
        "\
@@ -2,4 +2,5 @@
 3
 4
 5
+6
 7
",
        "\
@@ -1,5 +1,6 @@
 1
+2
 3
 4
 5
 6
",
        "\
[1, 5, 1, 7]
 1
+2
 3
 4
 5
+6
 7
",
    );
}

#[test]
fn merge_takes_a_further_hunk() {
    let (lheader, llines) = handed(hunk("@@ -1 +1 @@\n-a\n+b\n"), Hand::Left);
    let (rheader, rlines) = handed(hunk("@@ -1 +1 @@\n-b\n+c\n"), Hand::Right);
    let merge = Merge::new(&lheader, llines, &rheader, rlines).unwrap();
    assert_eq!(merge.header(), &[1, 1, 1, 1]);
    let merge = merge.merge(Hand::Left, hunk("@@ -2,0 +2 @@\n+x\n")).unwrap();
    let (header, data) = merge.into_data();
    assert_eq!(header, [1, 1, 1, 2]);
    assert_eq!(
        data,
        vec![
            (Hand::Left, "-a".to_string()),
            (Hand::Right, "+c".to_string()),
            (Hand::Left, "+x".to_string()),
        ]
    );
}

#[test]
fn merge_fails_on_contradiction() {
    let (lheader, llines) = handed(hunk("@@ -1 +1 @@\n a\n"), Hand::Left);
    let (rheader, rlines) = handed(hunk("@@ -1 +1 @@\n b\n"), Hand::Right);
    assert!(Merge::new(&lheader, llines, &rheader, rlines).is_err());
}

#[test]
fn flagged_hunks_fuse_left_then_right() {
    let a = hunk("@@ -1 +1 @@\n-a\n+b\n");
    let b = hunk("@@ -1 +1 @@\n-b\n+c\n");
    let expected = vec!["@@ -1 +1 @@", "-a", "+c"];
    let fused = FlaggedHunk::Left(&a).merge(&FlaggedHunk::Right(&b)).unwrap();
    assert_eq!(fused.lines(), &expected);
    let fused = FlaggedHunk::Right(&b).merge(&FlaggedHunk::Left(&a)).unwrap();
    assert_eq!(fused.lines(), &expected);
    let fused = FlaggedHunk::Left(&a).merge(&b).unwrap();
    assert_eq!(fused.lines(), &expected);
    let fused = FlaggedHunk::Right(&b).merge(&a).unwrap();
    assert_eq!(fused.lines(), &expected);
    assert!(FlaggedHunk::Left(&a).merge(&FlaggedHunk::Left(&b)).is_err());
    assert!(FlaggedHunk::Right(&a).merge(&FlaggedHunk::Right(&b)).is_err());
}

#[test]
fn flagged_hunks_overlap_as_their_hunks_do() {
    let a = hunk("@@ -1,2 +1,2 @@\n a\n b\n");
    let b = hunk("@@ -2 +2 @@\n b\n");
    let c = hunk("@@ -9 +9 @@\n z\n");
    assert!(FlaggedHunk::Left(&a).overlaps(&FlaggedHunk::Right(&b)));
    assert!(!FlaggedHunk::Left(&a).overlaps(&FlaggedHunk::Left(&c)));
    assert!(FlaggedHunk::Right(&b).overlaps(&a));
    assert!(!FlaggedHunk::Right(&b).overlaps(&c));
    assert_eq!(FlaggedHunk::Left(&a).hunk().header().fields, [1, 2, 1, 2]);
    assert_eq!(FlaggedHunk::Right(&c).to_string(), "@@ -9 +9 @@");
}

#[test]
fn fuse_info_prefix_is_first_character() {
    assert_eq!(Info::from(("+abc", 1)).prefix(), '+');
    assert_eq!(Info::from(("".to_string(), 1)).prefix(), '!');
    assert_eq!(Info::from(("-x", 4)), Info { line: "-x".to_string(), rank: 4 });
}

fn texts(hunks: &[Hunk]) -> Vec<Vec<String>> {
    hunks.iter().map(|h| h.lines().clone()).collect()
}

#[test]
fn merge_iter_lets_hunks_that_do_not_overlap_pass() {
    let left = vec![hunk("@@ -1,1 +1,1 @@\n a\n"), hunk("@@ -9 +9 @@\n-y\n+z\n")];
    let right = vec![hunk("@@ -5 +5 @@\n b\n")];
    let merged = merge_iter(left, right).unwrap();
    assert_eq!(
        texts(&merged),
        vec![vec!["@@ -1,1 +1,1 @@", " a"], vec!["@@ -5 +5 @@", " b"], vec!["@@ -9 +9 @@", "-y",
            "+z"]]
    );
    assert!(merge_iter(Vec::new(), Vec::new()).unwrap().is_empty());
}

#[test]
fn merge_iter_merges_hunks_that_overlap() {
    let left = vec![hunk("@@ -1 +1 @@\n-a\n+b\n")];
    let right = vec![hunk("@@ -1 +1,2 @@\n-b\n+c\n+d\n")];
    let merged = merge_iter(left, right).unwrap();
    assert_eq!(texts(&merged), vec![vec!["@@ -1 +1,2 @@", "-a", "+c", "+d"]]);
}

#[test]
fn merge_iter_takes_in_the_hunks_that_join() {
    let left = vec![
        hunk("@@ -1 +1 @@\n-a\n+1\n"),
        hunk("@@ -2 +2 @@\n-b\n+2\n"),
        hunk("@@ -7 +7 @@\n x\n"),
    ];
    let right = vec![hunk("@@ -1,2 +1,2 @@\n-1\n-2\n+i\n+ii\n")];
    let merged = merge_iter(left, right).unwrap();
    assert_eq!(
        texts(&merged),
        vec![vec!["@@ -1,2 +1,2 @@", "-a", "-b", "+i", "+ii"], vec!["@@ -7 +7 @@", " x"]]
    );
}

#[test]
fn merge_iter_fails_where_lines_contradict() {
    let left = vec![hunk("@@ -1 +1 @@\n a\n")];
    let right = vec![hunk("@@ -1 +1 @@\n b\n")];
    assert!(merge_iter(left, right).is_err());
}

#[test]
fn merge_overlapping_takes_its_hunks_off_the_stacks() {
    // the next hunk of each stack is its last
    let mut left = vec![hunk("@@ -7 +7 @@\n x\n"), hunk("@@ -1 +1 @@\n-a\n+b\n")];
    let mut right = vec![hunk("@@ -1 +1 @@\n-b\n+c\n")];
    let merged = merge_overlapping(&mut left, &mut right).unwrap();
    assert_eq!(merged.lines(), &vec!["@@ -1 +1 @@", "-a", "+c"]);
    assert_eq!(left.len(), 1);
    assert!(right.is_empty());
    assert!(merge_overlapping(&mut left, &mut right).is_err());
}

#[test]
fn handed_hunks_merge_whichever_comes_first() {
    let a = || HandedHunk::from((Hand::Left, hunk("@@ -1 +1 @@\n-a\n+b\n")));
    let b = || HandedHunk::from((Hand::Right, hunk("@@ -1 +1,2 @@\n-b\n+c\n+d\n")));
    let expected = vec![
        (Hand::Left, "-a".to_string()),
        (Hand::Right, "+c".to_string()),
        (Hand::Right, "+d".to_string()),
    ];
    let (header, data) = a().merge(b()).unwrap().into_data();
    assert_eq!(header, [1, 1, 1, 2]);
    assert_eq!(data, expected);
    let (header, data) = b().merge(a()).unwrap().into_data();
    assert_eq!(header, [1, 1, 1, 2]);
    assert_eq!(data, expected);
    assert!(a().merge(a()).is_err());
    assert!(a().overlaps(&b()));
    assert!(b().overlaps(&a()));
    assert!(!a().overlaps(&a()));
    let back: Hunk = a().into();
    assert_eq!(back.lines(), &vec!["@@ -1 +1 @@", "-a", "+b"]);
}

#[test]
fn handed_hunk_merges_into_a_merge() {
    let a = HandedHunk::from((Hand::Left, hunk("@@ -1 +1 @@\n-a\n+b\n")));
    let b = HandedHunk::from((Hand::Right, hunk("@@ -1 +1,2 @@\n-b\n+c\n+d\n")));
    let merge = a.merge(b).unwrap();
    let more = HandedHunk::from((Hand::Left, hunk("@@ -2,0 +2 @@\n+x\n")));
    assert!(more.overlaps(&merge));
    let (header, data) = more.merge(merge).unwrap().into_data();
    assert_eq!(header, [1, 1, 1, 3]);
    assert_eq!(
        data,
        vec![
            (Hand::Left, "-a".to_string()),
            (Hand::Right, "+c".to_string()),
            (Hand::Right, "+d".to_string()),
            (Hand::Left, "+x".to_string()),
        ]
    );
    let far = HandedHunk::from((Hand::Left, hunk("@@ -9 +9 @@\n z\n")));
    let other = Merge::new(&[1, 1, 1, 1], vec![(Hand::Left, " a".to_string())], &[1, 1, 1, 1],
        vec![])
        .unwrap();
    assert!(!far.overlaps(&other));
}

#[test]
fn merge_turns_into_a_hunk() {
    let a = HandedHunk::from((Hand::Left, hunk("@@ -1 +1 @@\n-a\n+b\n")));
    let b = HandedHunk::from((Hand::Right, hunk("@@ -1 +1,2 @@\n-b\n+c\n+d\n")));
    let merged = a.merge(b).unwrap().into_hunk().unwrap();
    assert_eq!(merged.lines(), &vec!["@@ -1 +1,2 @@", "-a", "+c", "+d"]);
    assert_eq!(merged.header().fields, [1, 1, 1, 2]);
    let wide = Merge::new(&[usize::MAX, 1, 1, 1], vec![], &[usize::MAX, 1, 1, 1], vec![]);
    if let Ok(merge) = wide {
        assert!(merge.into_hunk().is_none());
    }
}

#[test]
fn handed_hunk_prints_its_header() {
    let a = HandedHunk::from((Hand::Right, hunk("@@ -3,2 +4 @@\n-a\n-b\n+c\n")));
    assert_eq!(a.to_string(), "@@ -3,2 +4 @@");
}
