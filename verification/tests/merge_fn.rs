use diff_fuse::hand::Hand;
use diff_fuse::info::{iter_info, Info};
use diff_fuse::merge::merge_fn::merge_fn;

struct Case<'a> {
    lines: (Vec<&'a str>, Vec<&'a str>),
    headers: ([usize; 4], [usize; 4]),
    expected: ([usize; 4], Vec<&'a str>),
}

fn handed(lines: &[&str], hand: Hand) -> Vec<(Hand, String)> {
    lines.iter().map(|s| (hand, s.to_string())).collect()
}

impl<'a> Case<'a> {
    pub fn run(&'a mut self) {
        let result = merge_fn(
            &self.headers.0,
            iter_info(&self.headers.0, handed(&self.lines.0, Hand::Left)),
            &self.headers.1,
            iter_info(&self.headers.1, handed(&self.lines.1, Hand::Right)),
        );

        match result {
            Ok((header, data)) => {
                let lines: Vec<_> = data.into_iter().map(|(_, s)| s).collect();
                assert_eq!(header, self.expected.0);
                assert_eq!(lines, self.expected.1);
            }
            Err(err) => panic!("{:?}", err),
        }
    }
}

#[test]
fn merge_fn_case_1() {
    Case {
        headers: ([1, 6, 1, 8], [1, 8, 1, 8]),
        lines: (
            vec!["+1", "+2", " a", "-b", " c", "-d", "+D", " e", " f", "+3"],
            vec!["+0", " 1", "-2", "-a", "+A", " c", "-D", " e", " f", "+2", " 3"],
        ),
        expected: (
            [1, 6, 1, 8],
            vec!["-a", "-b", "+0", "+1", "+A", " c", "-d", " e", " f", "+2", "+3"],
        ),
    }
    .run()
}

#[test]
fn merge_fn_case_2() {
    Case {
        headers: ([1, 3, 1, 1], [1, 1, 1, 2]),
        lines: (vec!["-1", "-2", " a"], vec!["+1", " a"]),
        expected: ([1, 3, 1, 2], vec![" 1", "-2", " a"]),
    }
    .run()
}

#[test]
fn merge_fn_case_3() {
    Case {
        headers: ([5, 3, 5, 1], [3, 3, 3, 1]),
        lines: (vec!["-5", "-6", " 7"], vec!["-3", "-4", " 7"]),
        expected: ([3, 5, 3, 1], vec!["-3", "-4", "-5", "-6", " 7"]),
    }
    .run()
}

#[test]
fn merge_fn_case_4() {
    Case {
        headers: ([3, 3, 3, 1], [1, 3, 1, 1]),
        lines: (vec!["-3", "-4", " 5"], vec!["-1", "-2", " 5"]),
        expected: ([1, 5, 1, 1], vec!["-1", "-2", "-3", "-4", " 5"]),
    }
    .run()
}

#[test]
fn merge_fn_case_5() {
    Case {
        headers: ([5, 1, 5, 3], [5, 1, 3, 3]),
        lines: (vec!["+5", "+6", " 7"], vec!["+3", "+4", " 5"]),
        expected: ([5, 1, 3, 5], vec!["+3", "+4", "+5", "+6", " 7"]),
    }
    .run()
}

#[test]
fn merge_fn_case_6() {
    Case {
        headers: ([1, 1, 1, 3], [3, 1, 3, 3]),
        lines: (vec!["+1", "+2", " 5"], vec!["+3", "+4", " 5"]),
        expected: ([1, 1, 1, 5], vec!["+1", "+2", "+3", "+4", " 5"]),
    }
    .run()
}

#[test]
fn merge_fn_case_7() {
    Case {
        headers: ([2, 3, 2, 3], [3, 3, 3, 3]),
        lines: (vec![" 2", " 3", " 4"], vec![" 3", " 4", " 5"]),
        expected: ([2, 4, 2, 4], vec![" 2", " 3", " 4", " 5"]),
    }
    .run()
}

#[test]
fn merge_fn_case_8() {
    Case {
        headers: ([1, 3, 1, 3], [3, 1, 3, 3]),
        lines: (vec![" 1", " 2", " 5"], vec!["+3", "+4", " 5"]),
        expected: ([1, 3, 1, 5], vec![" 1", " 2", "+3", "+4", " 5"]),
    }
    .run()
}

#[test]
fn merge_fn_case_9() {
    Case {
        headers: ([1, 0, 1, 1], [1, 1, 1, 0]),
        lines: (vec!["+1"], vec!["-1"]),
        expected: ([1, 0, 1, 0], vec![]),
    }
    .run()
}

fn info(text: &str, rank: usize, hand: Hand) -> Info {
    Info::from((text, rank, hand))
}

#[test]
fn merge_fn_keeps_hands() {
    let (header, data) = merge_fn(
        &[4, 1, 4, 2],
        vec![info(" a", 4, Hand::Left), info("+b", 5, Hand::Left)],
        &[4, 2, 4, 1],
        vec![info(" a", 4, Hand::Right), info("-b", 5, Hand::Right), info("+c", 6, Hand::Right)],
    )
    .unwrap();
    assert_eq!(header, [4, 1, 4, 2]);
    assert_eq!(data, vec![(Hand::Right, " a".to_string()), (Hand::Right, "+c".to_string())]);
}

#[test]
fn merge_fn_settles_swapped_hands() {
    // the stream given first holds the lines of the right hand
    let (_, data) = merge_fn(
        &[1, 1, 1, 0],
        vec![info("-a", 1, Hand::Right)],
        &[1, 0, 1, 1],
        vec![info("+a", 1, Hand::Left)],
    )
    .unwrap();
    assert!(data.is_empty());
}

#[test]
fn merge_fn_rejects_contradictions() {
    let run = |l: Vec<Info>, r: Vec<Info>| merge_fn(&[1, 1, 1, 1], l, &[1, 1, 1, 1], r);
    // context that differs
    assert!(run(vec![info(" a", 1, Hand::Left)], vec![info(" b", 1, Hand::Right)]).is_err());
    // equal rank from one hand
    assert!(run(vec![info(" a", 1, Hand::Left)], vec![info(" a", 1, Hand::Left)]).is_err());
    // a tag that is none
    assert!(run(vec![info("?a", 1, Hand::Left)], vec![info(" a", 1, Hand::Right)]).is_err());
    assert!(run(vec![info("?a", 1, Hand::Left)], vec![]).is_err());
}
