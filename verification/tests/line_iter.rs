use diff_fuse::hunk::line_iter::{iter_info, LineInfo};
use diff_fuse::line_no::LineNo;

fn li<'a>(s: &'a str, i: usize, n: usize) -> Option<LineInfo<'a>> {
    Some(LineInfo { line: s, index: i, num: n })
}

#[test]
fn test_iter_info() {
    let string = "+ -+ +- -";
    let data: Vec<String> = string.chars().map(|c| c.to_string()).collect();

    let header: [usize; 4] = [1, 0, 1, 0];

    let expected = [
        (li("+", 0, 1), None),
        (li(" ", 1, 2), li(" ", 1, 1)),
        (li("+", 3, 3), li("-", 2, 2)),
        (li(" ", 4, 4), li(" ", 4, 3)),
        (li("+", 5, 5), li("-", 6, 4)),
        (li(" ", 7, 6), li(" ", 7, 5)),
        (None, li("-", 8, 6)),
    ];

    let mut actual = iter_info(&data, &header);
    for exp in expected.iter() {
        match actual.next() {
            Some(act) => assert_eq!(act, *exp),
            None => break,
        }
    }
}

#[test]
fn line_iter_gives_every_pair() {
    let data: Vec<String> = ["-a", "+b", "", "?x", " c"].iter().map(|s| s.to_string()).collect();
    let mut pairs = iter_info(&data, &[7, 0, 3, 0]);
    let mut seen = Vec::new();
    while let Some(pair) = pairs.next() {
        seen.push(pair);
    }
    assert_eq!(
        seen,
        vec![
            (li("+b", 1, 3), li("-a", 0, 7)),
            (li("", 2, 4), li("", 2, 8)),
            (li(" c", 4, 5), li(" c", 4, 9)),
        ]
    );
    let none: Vec<String> = Vec::new();
    assert!(iter_info(&none, &[1, 0, 1, 0]).next().is_none());
}

#[test]
fn line_iter_lets_a_removed_line_pass_a_context_line() {
    let data: Vec<String> = [" a", "-b"].iter().map(|s| s.to_string()).collect();
    let mut pairs = iter_info(&data, &[1, 0, 1, 0]);
    assert_eq!(pairs.next(), Some((li(" a", 0, 1), li(" a", 0, 1))));
    assert_eq!(pairs.next(), Some((None, li("-b", 1, 2))));
    assert_eq!(pairs.next(), None);
    let data: Vec<String> = ["-b", "+c", "+d", " a"].iter().map(|s| s.to_string()).collect();
    let mut pairs = iter_info(&data, &[1, 0, 1, 0]);
    assert_eq!(pairs.next(), Some((li("+c", 1, 1), li("-b", 0, 1))));
    assert_eq!(pairs.next(), Some((li("+d", 2, 2), None)));
    assert_eq!(pairs.next(), Some((li(" a", 3, 3), li(" a", 3, 2))));
    assert_eq!(pairs.next(), None);
}

#[test]
fn line_no_bumps_by_tag() {
    let mut n = LineNo::new(3, 7);
    n.bump('-');
    assert_eq!(n.nums, [4, 7]);
    n.bump('+');
    assert_eq!(n.nums, [4, 8]);
    n.bump(' ');
    assert_eq!(n.nums, [5, 9]);
    n.bump('@');
    assert_eq!(n.nums, [5, 9]);
    assert_eq!(LineNo::from(&[1, 2, 3, 4]), LineNo::new(1, 3));
    assert_eq!(LineNo::from([6, 5]), LineNo::new(6, 5));
    assert_eq!(LineNo::default(), LineNo::new(0, 0));
}
