use diff_fuse::fuse::fuse_iter::fuse_iter;
use diff_fuse::fuse::info_chain::InfoChain;
use diff_fuse::fuse::info_iter::InfoIter;
use diff_fuse::fuse::info_source::InfoSource;
use diff_fuse::fuse::kernel::{fuse, sort, Drain};
use diff_fuse::fuse::line::Line;
use diff_fuse::fuse::line_counter::LineCounter;
use diff_fuse::hunk::header::Header;
use diff_fuse::hunk::Hunk;
use diff_fuse::lines::Lines;

fn hunk(text: &str) -> Hunk {
    Hunk::from_lines(&mut Lines::from_text(text).unwrap()).unwrap()
}

#[test]
fn fuse_case_1() {
    let mut left: Vec<_> = vec![
        "\
@@ -1,1 +1,1 @@
-1
+2",
        "\
@@ -2,1 +2,1 @@
-2
+3",
    ]
    .into_iter()
    .map(hunk)
    .collect();

    let mut right: Vec<_> = vec![
        "\
@@ -1,3 +1,3 @@
 1
 2
 3",
    ]
    .into_iter()
    .map(hunk)
    .collect();

    // the chain takes its hunks from the end
    left.reverse();
    right.reverse();

    let mut chain = InfoChain::new(left, right).unwrap();

    loop {
        let done = matches!(chain.peek(), [None, None]);
        if done {
            break;
        }
        println!("{:?}", [chain.next_left(), chain.next_right()]);
    }
}

fn split(line: &str) -> Vec<String> {
    line.chars().map(|c| c.to_string()).collect()
}

fn test(mut actual: InfoIter, expected: Vec<(&str, i64)>) {
    for exp in expected.into_iter() {
        match actual.next() {
            Some(act) => assert_eq!(act, Line::from(exp)),
            None => break,
        }
    }
}

fn test_left(header: [i64; 4], lines: Vec<String>, expected: Vec<(&str, i64)>) {
    test(InfoIter::left(lines, &header.into()), expected);
}

fn test_right(header: [i64; 4], lines: Vec<String>, expected: Vec<(&str, i64)>) {
    test(InfoIter::right(lines, &header.into()), expected);
}

#[test]
fn info_iter_case_1() {
    test_left(
        [1, 0, 1, 0],
        split("+ -+ +- -"),
        vec![
            ("+", 1),
            (" ", 2),
            ("-", 3),
            ("+", 3),
            (" ", 4),
            ("+", 5),
            ("-", 6),
            (" ", 6),
            ("-", 7),
        ],
    );
}

#[test]
fn info_iter_case_2() {
    test_right(
        [3, 0, 3, 0],
        split("+++- "),
        vec![("+", 3), ("+", 3), ("+", 3), ("-", 3), (" ", 4)],
    );
}

#[test]
fn info_iter_gives_every_line_once() {
    let mut it = InfoIter::right(split("- +"), &Header::from([7, 2, 7, 2]));
    assert_eq!(it.peek(), Some(&Line::from(("-", 7))));
    assert_eq!(it.next(), Some(Line::from(("-", 7))));
    assert_eq!(it.next(), Some(Line::from((" ", 8))));
    assert_eq!(it.next(), Some(Line::from(("+", 9))));
    assert_eq!(it.next(), None);
    assert_eq!(it.peek(), None);
    assert_eq!(InfoIter::default().next(), None);
}

#[test]
fn line_prefix_is_first_character() {
    assert_eq!(Line::from(("+abc", 1)).prefix(), '+');
    assert_eq!(Line::from((" ", 1)).prefix(), ' ');
    assert_eq!(Line::from(("", 1)).prefix(), '!');
    assert_eq!(Line::from(("\u{e9}t\u{e9}".to_string(), 1)).prefix(), '\u{e9}');
    assert_eq!(Line::new("-x".to_string(), 4), Line::from(("-x", 4)));
}

#[test]
fn line_counter_counts_and_keys() {
    let mut counter = LineCounter::default();
    let mut keys = Vec::new();
    for text in ["-a", "+b", "+c", " d", "-e", "-f", "+g", " h"] {
        keys.push(counter.update(&Line::from((text, 0))).unwrap());
    }
    assert_eq!(keys, vec![(0, 1), (0, 1), (0, 2), (1, 1), (1, 1), (1, 2), (1, 1), (2, 1)]);
    assert!(counter.update(&Line::from(("?x", 0))).is_err());
    assert!(counter.update(&Line::from(("", 0))).is_err());
    let mut header = Header::from([5, 0, 7, 0]);
    counter.update_header(&mut header);
    // three removed, three added, two unchanged
    assert_eq!(header.fields, [5, 5, 7, 5]);
}

#[test]
fn line_counter_settles_empty_sides() {
    let close = |lines: &[&str], start: [i64; 4]| {
        let mut counter = LineCounter::default();
        for text in lines {
            counter.update(&Line::from((*text, 0))).unwrap();
        }
        let mut header = Header::from(start);
        counter.update_header(&mut header);
        header.fields
    };
    assert_eq!(close(&[], [5, 0, 7, 0]), [0, 0, 0, 0]);
    assert_eq!(close(&["-a", "-b"], [5, 0, 7, 0]), [5, 2, 4, 0]);
    assert_eq!(close(&["+a"], [5, 0, 7, 0]), [6, 0, 7, 1]);
    assert_eq!(close(&[" a"], [5, 0, 7, 0]), [5, 1, 7, 1]);
}

#[test]
fn sort_orders_each_group() {
    let data: Vec<String> =
        ["+1", "-a", "+2", "-b", " c", "+3", "-d", " e", " f",
            "+4"].iter().map(|s| s.to_string()).collect();
    let sorted = sort(data).unwrap();
    assert_eq!(sorted, vec!["-a", "-b", "+1", "+2", " c", "-d", "+3", " e", " f", "+4"]);
    assert_eq!(sort(Vec::new()).unwrap(), Vec::<String>::new());
    assert!(sort(vec!["-a".to_string(), "x".to_string()]).is_err());
    assert!(sort(vec!["".to_string()]).is_err());
}

fn steps(left: &str, right: &str) -> Vec<Result<Vec<String>, ()>> {
    let source = diff_fuse::hunk::info_source::InfoSource::new(hunk(left), hunk(right));
    let mut drain = Drain { source };
    let mut out = Vec::new();
    while let Some(item) = drain.next() {
        out.push(match item {
            Ok(diff_fuse::fuse::kernel::FuseItem::Skip) => Ok(vec![]),
            Ok(diff_fuse::fuse::kernel::FuseItem::Single(l)) => Ok(vec![l.line]),
            Ok(diff_fuse::fuse::kernel::FuseItem::Pair(l, r)) => Ok(vec![l.line, r.line]),
            Err(_) => Err(()),
        });
    }
    out
}

fn emitted(lines: &[&str]) -> Result<Vec<String>, ()> {
    Ok(lines.iter().map(|s| s.to_string()).collect())
}

#[test]
fn drain_settles_equal_ranks_by_tag() {
    // context against context, removal and addition
    assert_eq!(steps("@@ -1 +1 @@\n a\n", "@@ -1 +1 @@\n a\n"), vec![emitted(&[" a"])]);
    assert_eq!(steps("@@ -1 +1 @@\n a\n", "@@ -1 +0,0 @@\n-a\n"), vec![emitted(&["-a"])]);
    assert_eq!(
        steps("@@ -1 +1 @@\n a\n", "@@ -1 +1,2 @@\n+b\n a\n"),
        vec![emitted(&["+b"]), emitted(&[" a"])]
    );
    // removal against context, removal and addition
    assert_eq!(
        steps("@@ -1,2 +1 @@\n-a\n b\n", "@@ -1 +1 @@\n b\n"),
        vec![emitted(&["-a"]), emitted(&[" b"])]
    );
    assert_eq!(
        steps("@@ -1,2 +1 @@\n-a\n b\n", "@@ -1 +0,0 @@\n-b\n"),
        vec![emitted(&["-a"]), emitted(&["-b"])]
    );
    assert_eq!(
        steps("@@ -1,2 +1 @@\n-a\n b\n", "@@ -1 +1,2 @@\n+x\n b\n"),
        vec![emitted(&["-a", "+x"]), emitted(&[" b"])]
    );
    assert_eq!(
        steps("@@ -1,2 +1 @@\n-a\n b\n", "@@ -1 +1,2 @@\n+a\n b\n"),
        vec![emitted(&[]), emitted(&[" b"])]
    );
    // addition against context, removal and addition
    assert_eq!(steps("@@ -1,0 +1 @@\n+a\n", "@@ -1 +1 @@\n a\n"), vec![emitted(&["+a"])]);
    assert_eq!(steps("@@ -1,0 +1 @@\n+a\n", "@@ -1 +0,0 @@\n-a\n"), vec![emitted(&[])]);
    assert_eq!(
        steps("@@ -1,0 +1 @@\n+a\n", "@@ -1 +1,2 @@\n+b\n a\n"),
        vec![emitted(&["+b"]), emitted(&["+a"])]
    );
}

#[test]
fn drain_reports_mismatch() {
    assert_eq!(steps("@@ -1 +1 @@\n a\n", "@@ -1 +1 @@\n b\n"), vec![Err(())]);
    assert_eq!(steps("@@ -1 +1 @@\n a\n", "@@ -1 +0,0 @@\n-b\n"), vec![Err(())]);
    assert_eq!(steps("@@ -1,0 +1 @@\n+a\n", "@@ -1 +1 @@\n b\n"), vec![Err(())]);
    assert_eq!(steps("@@ -1,0 +1 @@\n+a\n", "@@ -1 +0,0 @@\n-b\n"), vec![Err(())]);
}

#[test]
fn drain_takes_lower_rank_first() {
    assert_eq!(
        steps("@@ -3 +3 @@\n c\n", "@@ -1,3 +1,3 @@\n a\n b\n c\n"),
        vec![emitted(&[" a"]), emitted(&[" b"]), emitted(&[" c"])]
    );
    assert_eq!(
        steps("@@ -1,3 +1,3 @@\n a\n b\n c\n", "@@ -3 +3 @@\n c\n"),
        vec![emitted(&[" a"]), emitted(&[" b"]), emitted(&[" c"])]
    );
}

#[test]
fn kernel_fuses_a_pair() {
    let source = diff_fuse::hunk::info_source::InfoSource::new(
        hunk("@@ -9 +6,2 @@\n 9\n+x\n"),
        hunk("@@ -5,2 +5,1 @@\n 8\n-9\n"),
    );
    let start = Header::from([9, 1, 6, 2]).fuse(&Header::from([5, 2, 5, 1]));
    let (fused, _) = fuse(start, source).unwrap();
    assert_eq!(fused.lines(), &vec!["@@ -8,2 +5,2 @@", " 8", "-9", "+x"]);
}

#[test]
fn kernel_rejects_negative_start() {
    let source = diff_fuse::hunk::info_source::InfoSource::new(
        hunk("@@ -1 +1 @@\n-a\n+b\n"),
        hunk("@@ -1 +1 @@\n-b\n+c\n"),
    );
    assert!(fuse(Header::from([-1, 0, 1, 0]), source).is_err());
}

#[test]
fn fuse_iter_interleaves_and_fuses() {
    let left = vec![hunk("@@ -1 +1 @@\n-a\n+1\n"), hunk("@@ -2 +2 @@\n-b\n+2\n"),
        hunk("@@ -9 +9,2 @@\n z\n+y\n")];
    let right = vec![hunk("@@ -1,2 +1,2 @@\n-1\n-2\n+i\n+ii\n"), hunk("@@ -5 +5,0 @@\n-q\n")];
    let fused = fuse_iter(left, right).unwrap();
    let lines: Vec<Vec<String>> = fused.iter().map(|h| h.lines().clone()).collect();
    assert_eq!(
        lines,
        vec![
            vec!["@@ -1,2 +1,2 @@", "-a", "-b", "+i", "+ii"],
            vec!["@@ -5 +5,0 @@", "-q"],
            vec!["@@ -9 +8,2 @@", " z", "+y"],
        ]
    );
}

#[test]
fn fuse_iter_of_nothing_is_nothing() {
    assert!(fuse_iter(Vec::new(), Vec::new()).unwrap().is_empty());
}

#[test]
fn info_chain_needs_a_hunk_on_each_side() {
    assert!(InfoChain::new(Vec::new(), vec![hunk("@@ -1 +1 @@\n a\n")]).is_err());
    assert!(InfoChain::new(vec![hunk("@@ -1 +1 @@\n a\n")], Vec::new()).is_err());
    let chain = InfoChain::new(
        vec![hunk("@@ -7 +7 @@\n b\n"), hunk("@@ -1 +1 @@\n a\n")],
        vec![hunk("@@ -1 +1 @@\n a\n")],
    )
    .unwrap();
    let (hunk, chain) = fuse(Header::from([1, 0, 1, 0]), chain).unwrap();
    assert_eq!(hunk.lines(), &vec!["@@ -1 +1 @@", " a"]);
    let (left, right) = chain.into_hunks();
    assert_eq!(left.len(), 1);
    assert_eq!(left[0].header().fields, [7, 1, 7, 1]);
    assert!(right.is_empty());
}
