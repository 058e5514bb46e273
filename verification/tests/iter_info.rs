use diff_fuse::hunk::iter_info::{iter_info, Info, InfoType};

fn split(line: &str) -> Vec<String> {
    line.chars().map(|c| c.to_string()).collect()
}

fn test(header: [usize; 4], data: &str, info_type: InfoType, expected: Vec<(&str, usize)>) {
    let actual = iter_info(&header, split(data), info_type);
    for (act, exp) in actual.into_iter().zip(expected.into_iter()) {
        assert_eq!(act, Info::from(exp));
    }
}

#[test]
fn iter_info_case_1() {
    test(
        [1, 0, 1, 0],
        "+ -+ +- -",
        InfoType::Minus(),
        vec![
            ("+", 1),
            (" ", 2),
            ("-", 3),
            ("+", 3),
            (" ", 4),
            ("+", 5),
            ("-", 6),
            (" ", 6),
            ("-", 7),
        ],
    );
}

#[test]
fn iter_info_case_2() {
    test(
        [3, 0, 1, 0],
        "+++- ",
        InfoType::Plus(),
        vec![("+", 3), ("+", 3), ("+", 3), ("-", 3), (" ", 4)],
    );
}

#[test]
fn iter_info_ranks_every_line() {
    let infos = iter_info(&[10, 0, 20, 0], split(" -+x"), InfoType::Minus());
    let ranks: Vec<usize> = infos.iter().map(|i| i.rank).collect();
    assert_eq!(ranks, vec![20, 21, 21, 22]);
    let infos = iter_info(&[10, 0, 20, 0], split(" -+x"), InfoType::Plus());
    let ranks: Vec<usize> = infos.iter().map(|i| i.rank).collect();
    assert_eq!(ranks, vec![10, 11, 12, 12]);
    assert!(iter_info(&[1, 0, 1, 0], Vec::new(), InfoType::Plus()).is_empty());
}

#[test]
fn iter_info_prefix_and_order() {
    assert_eq!(Info::from(("-x", 1)).prefix(), '-');
    assert_eq!(Info::from(("", 1)).prefix(), ' ');
    let a = Info::from(("-x", 9));
    let b = Info::from(("+y", 1));
    assert_eq!(a.cmp(&b), std::cmp::Ordering::Less);
    assert_eq!(b.cmp(&a), std::cmp::Ordering::Less);
}
