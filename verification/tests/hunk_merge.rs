use diff_fuse::hunk::merge::merge;

struct Case<'a> {
    lines: (Vec<&'a str>, Vec<&'a str>),
    headers: ([usize; 4], [usize; 4]),
    expected: ([usize; 4], Vec<&'a str>),
}

fn owned(lines: &[&str]) -> Vec<String> {
    lines.iter().map(|s| s.to_string()).collect()
}

impl<'a> Case<'a> {
    pub fn run(&'a mut self) {
        let result =
            merge(&self.headers.0, owned(&self.lines.0), &self.headers.1, owned(&self.lines.1));

        match result {
            Ok((header, lines)) => {
                assert_eq!(header, self.expected.0);
                assert_eq!(lines, self.expected.1);
            }
            Err(err) => panic!("{:?}", err),
        }
    }
}

#[test]
fn merge_case_1() {
    Case {
        headers: ([1, 6, 1, 8], [1, 8, 1, 8]),
        lines: (
            vec!["+1", "+2", " a", "-b", " c", "-d", "+D", " e", " f", "+3"],
            vec!["+0", " 1", "-2", "-a", "+A", " c", "-D", " e", " f", "+2", " 3"],
        ),
        expected: (
            [1, 6, 1, 8],
            vec!["-a", "-b", "+0", "+1", "+A", " c", "-d", " e", " f", "+2", "+3"],
        ),
    }
    .run()
}

#[test]
fn merge_case_2() {
    Case {
        headers: ([1, 3, 1, 1], [1, 1, 1, 2]),
        lines: (vec!["-1", "-2", " a"], vec!["+1", " a"]),
        expected: ([1, 3, 1, 2], vec![" 1", "-2", " a"]),
    }
    .run()
}

#[test]
fn merge_case_3() {
    Case {
        headers: ([5, 3, 5, 1], [3, 3, 3, 1]),
        lines: (vec!["-5", "-6", " 7"], vec!["-3", "-4", " 7"]),
        expected: ([3, 5, 3, 1], vec!["-3", "-4", "-5", "-6", " 7"]),
    }
    .run()
}

#[test]
fn merge_case_4() {
    Case {
        headers: ([3, 3, 3, 1], [1, 3, 1, 1]),
        lines: (vec!["-3", "-4", " 5"], vec!["-1", "-2", " 5"]),
        expected: ([1, 5, 1, 1], vec!["-1", "-2", "-3", "-4", " 5"]),
    }
    .run()
}

#[test]
fn merge_case_5() {
    Case {
        headers: ([5, 1, 5, 3], [5, 1, 3, 3]),
        lines: (vec!["+5", "+6", " 7"], vec!["+3", "+4", " 5"]),
        expected: ([5, 1, 3, 5], vec!["+3", "+4", "+5", "+6", " 7"]),
    }
    .run()
}

#[test]
fn merge_case_6() {
    Case {
        headers: ([1, 1, 1, 3], [3, 1, 3, 3]),
        lines: (vec!["+1", "+2", " 5"], vec!["+3", "+4", " 5"]),
        expected: ([1, 1, 1, 5], vec!["+1", "+2", "+3", "+4", " 5"]),
    }
    .run()
}

#[test]
fn merge_case_7() {
    Case {
        headers: ([2, 3, 2, 3], [3, 3, 3, 3]),
        lines: (vec![" 2", " 3", " 4"], vec![" 3", " 4", " 5"]),
        expected: ([2, 4, 2, 4], vec![" 2", " 3", " 4", " 5"]),
    }
    .run()
}

#[test]
fn merge_case_8() {
    Case {
        headers: ([1, 3, 1, 3], [3, 1, 3, 3]),
        lines: (vec![" 1", " 2", " 5"], vec!["+3", "+4", " 5"]),
        expected: ([1, 3, 1, 5], vec![" 1", " 2", "+3", "+4", " 5"]),
    }
    .run()
}

#[test]
fn merge_case_9() {
    Case {
        headers: ([1, 0, 1, 1], [1, 1, 1, 0]),
        lines: (vec!["+1"], vec!["-1"]),
        expected: ([1, 0, 1, 0], vec![]),
    }
    .run()
}

#[test]
fn merge_rejects_contradictions() {
    let run = |l: &[&str], r: &[&str]| merge(&[1, 1, 1, 1], owned(l), &[1, 1, 1, 1], owned(r));
    assert!(run(&[" a"], &[" b"]).is_err());
    assert!(run(&["+a"], &["-b"]).is_err());
    assert!(run(&["+a"], &[" b"]).is_err());
    assert!(run(&[" a"], &["-b"]).is_err());
    assert!(run(&["?a"], &[" a"]).is_err());
    assert!(run(&["?a"], &[]).is_err());
    assert!(run(&[], &[""]).is_err());
}

#[test]
fn merge_keeps_a_replacement() {
    let (header, lines) = merge(&[4, 1, 4, 0], owned(&["-a"]), &[4, 0, 4, 1],
        owned(&["+b"])).unwrap();
    assert_eq!(header, [4, 1, 4, 1]);
    assert_eq!(lines, vec!["-a", "+b"]);
}

#[test]
fn merge_takes_left_context_before_right_removal_of_other_rank() {
    let (header, lines) =
        merge(&[1, 1, 5, 1], owned(&[" a"]), &[3, 1, 3, 0], owned(&["-b"])).unwrap();
    assert_eq!(header, [1, 2, 3, 1]);
    assert_eq!(lines, vec![" a", "-b"]);
}
