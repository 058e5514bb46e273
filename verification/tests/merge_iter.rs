use diff_fuse::hunk::info_iter::{Info, InfoIter};
use diff_fuse::hunk::merge_iter::{process, MergeIter};
use std::cmp::Ordering;

struct Case<'a> {
    lines: (Vec<&'a str>, Vec<&'a str>),
    headers: ([usize; 4], [usize; 4]),
    expected: ([usize; 4], Vec<&'a str>),
}

impl<'a> Case<'a> {
    fn merge_iter(&'a self) -> MergeIter<'a> {
        MergeIter::new(self.headers, (self.lines.0.clone(), self.lines.1.clone()))
    }

    pub fn run(&'a self) {
        match process(self.merge_iter()) {
            Ok((header, lines)) => {
                assert_eq!(header, self.expected.0);
                assert_eq!(lines, self.expected.1);
            }
            Err(err) => panic!("{:?}", err),
        }
    }
}

#[test]
fn merge_iter_case_1() {
    Case {
        headers: ([1, 6, 1, 8], [1, 8, 1, 8]),
        lines: (
            vec!["+1", "+2", " a", "-b", " c", "-d", "+D", " e", " f", "+3"],
            vec!["+0", " 1", "-2", "-a", "+A", " c", "-D", " e", " f", "+2", " 3"],
        ),
        expected: (
            [1, 6, 1, 8],
            vec!["-a", "-b", "+0", "+1", "+A", " c", "-d", " e", " f", "+2", "+3"],
        ),
    }
    .run()
}

#[test]
fn merge_iter_case_2() {
    Case {
        headers: ([1, 3, 1, 1], [1, 1, 1, 2]),
        lines: (vec!["-1", "-2", " a"], vec!["+1", " a"]),
        expected: ([1, 3, 1, 2], vec![" 1", "-2", " a"]),
    }
    .run()
}

#[test]
fn merge_iter_case_3() {
    Case {
        headers: ([5, 3, 5, 1], [3, 3, 3, 1]),
        lines: (vec!["-5", "-6", " 7"], vec!["-3", "-4", " 7"]),
        expected: ([3, 5, 3, 1], vec!["-3", "-4", "-5", "-6", " 7"]),
    }
    .run()
}

#[test]
fn merge_iter_case_4() {
    Case {
        headers: ([3, 3, 3, 1], [1, 3, 1, 1]),
        lines: (vec!["-3", "-4", " 5"], vec!["-1", "-2", " 5"]),
        expected: ([1, 5, 1, 1], vec!["-1", "-2", "-3", "-4", " 5"]),
    }
    .run()
}

#[test]
fn merge_iter_case_5() {
    Case {
        headers: ([5, 1, 5, 3], [5, 1, 3, 3]),
        lines: (vec!["+5", "+6", " 7"], vec!["+3", "+4", " 5"]),
        expected: ([5, 1, 3, 5], vec!["+3", "+4", "+5", "+6", " 7"]),
    }
    .run()
}

#[test]
fn merge_iter_case_6() {
    Case {
        headers: ([1, 1, 1, 3], [3, 1, 3, 3]),
        lines: (vec!["+1", "+2", " 5"], vec!["+3", "+4", " 5"]),
        expected: ([1, 1, 1, 5], vec!["+1", "+2", "+3", "+4", " 5"]),
    }
    .run()
}

#[test]
fn merge_iter_case_7() {
    Case {
        headers: ([2, 3, 2, 3], [3, 3, 3, 3]),
        lines: (vec![" 2", " 3", " 4"], vec![" 3", " 4", " 5"]),
        expected: ([2, 4, 2, 4], vec![" 2", " 3", " 4", " 5"]),
    }
    .run()
}

#[test]
fn merge_iter_case_8() {
    Case {
        headers: ([1, 3, 1, 3], [3, 1, 3, 3]),
        lines: (vec![" 1", " 2", " 5"], vec!["+3", "+4", " 5"]),
        expected: ([1, 3, 1, 5], vec![" 1", " 2", "+3", "+4", " 5"]),
    }
    .run()
}

#[test]
fn merge_iter_case_9() {
    Case {
        headers: ([1, 0, 1, 1], [1, 1, 1, 0]),
        lines: (vec!["+1"], vec!["-1"]),
        expected: ([1, 0, 1, 0], vec![]),
    }
    .run()
}

#[test]
fn merge_iter_gives_lines_one_by_one() {
    let mut iter = MergeIter::new(([1, 2, 1, 1], [1, 1, 1, 2]), (vec!["-a", " b"], vec!["+a",
        " b"]));
    assert_eq!(iter.next().unwrap().unwrap(), " a");
    assert_eq!(iter.next().unwrap().unwrap(), " b");
    assert!(iter.next().is_none());
}

#[test]
fn merge_iter_fails_on_unknown_tags() {
    let mut iter = MergeIter::new(([1, 1, 1, 1], [1, 1, 1, 1]), (vec!["?a"], vec![" a"]));
    assert!(iter.next().unwrap().is_err());
    assert!(process(MergeIter::new(([1, 1, 1, 1], [1, 1, 1, 1]), (vec!["?a"],
        vec![" a"]))).is_err());
    assert!(process(MergeIter::new(([1, 1, 1, 1], [1, 1, 1, 1]), (vec!["?a"], vec![]))).is_err());
}

type MockInfo<'a> = (&'a str, usize, usize);

fn split(line: &str) -> Vec<&str> {
    line.char_indices().map(|(i, c)| &line[i..i + c.len_utf8()]).collect()
}

fn numbers(header: [usize; 4], lines: Vec<&str>, expected: Vec<MockInfo>) {
    let mut actual = InfoIter::new(&header, lines);
    for exp in expected.iter() {
        let (line, minus_num, plus_num) = *exp;
        assert_eq!(actual.peek(), Some(Info { line, minus_num, plus_num }));
        assert_eq!(actual.next(), Some(Info { line, minus_num, plus_num }));
    }
    assert_eq!(actual.next(), None);
}

#[test]
fn numbered_lines_case_1() {
    let header: [usize; 4] = [1, 0, 1, 0];
    let line = "+ -+ +- -";
    let expected: Vec<MockInfo> = vec![
        ("+", 0, 1),
        (" ", 1, 2),
        ("-", 2, 2),
        ("+", 2, 3),
        (" ", 3, 4),
        ("+", 3, 5),
        ("-", 4, 5),
        (" ", 5, 6),
        ("-", 6, 6),
    ];
    numbers(header, split(line), expected);
}

#[test]
fn numbered_lines_case_2() {
    let header: [usize; 4] = [3, 0, 1, 0];
    let line = "+++- ";
    let expected: Vec<MockInfo> =
        vec![("+", 2, 1), ("+", 2, 2), ("+", 2, 3), ("-", 3, 3), (" ", 4, 4)];
    numbers(header, split(line), expected);
}

#[test]
fn numbered_lines_order_by_their_tags() {
    let info = |line, minus_num, plus_num| Info { line, minus_num, plus_num };
    assert_eq!(info("-a", 9, 1).cmp(&info(" b", 1, 9)), Ordering::Equal);
    assert_eq!(info("-a", 2, 9).cmp(&info("-b", 3, 1)), Ordering::Less);
    assert_eq!(info("-a", 4, 1).cmp(&info("+b", 9, 3)), Ordering::Greater);
    assert_eq!(info("+a", 9, 2).cmp(&info(" b", 3, 1)), Ordering::Less);
    assert_eq!(info("+a", 1, 3).cmp(&info("-b", 3, 9)), Ordering::Equal);
    assert_eq!(info("+a", 1, 4).cmp(&info("+b", 9, 3)), Ordering::Greater);
    assert_eq!(info(" a", 9, 2).cmp(&info("-b", 3, 1)), Ordering::Less);
    assert_eq!(info(" a", 1, 4).cmp(&info("+b", 9, 3)), Ordering::Greater);
    assert_eq!(info(" a", 9, 3).cmp(&info(" b", 3, 1)), Ordering::Equal);
    assert_eq!(info("", 9, 3).cmp(&info("?", 4, 1)), Ordering::Less);
    assert_eq!(info("-a", 1, 1).prefix(), '-');
    assert_eq!(info("", 1, 1).prefix(), ' ');
}

#[test]
fn pre_increment_adds_one() {
    let mut n = 4usize;
    assert_eq!(diff_fuse::hunk::info_iter::pre_increment(&mut n), 5);
    assert_eq!(n, 5);
}
