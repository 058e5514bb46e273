use diff_fuse::hand::Hand;
use diff_fuse::info::{iter_info, iter_info_X, Info};

fn split(line: &str, hand: Hand) -> Vec<(Hand, String)> {
    line.chars().map(|c| (hand, c.to_string())).collect()
}

fn test(header: [usize; 4], data: &str, hand: Hand, expected: Vec<(&str, usize, Hand)>) {
    let actual = iter_info(&header, split(data, hand));
    for (act, exp) in actual.into_iter().zip(expected.into_iter()) {
        assert_eq!(act, Info::from(exp));
    }
}

#[test]
fn info_case_1() {
    test(
        [1, 0, 1, 0],
        "+ -+ +- -",
        Hand::Left,
        vec![
            ("+", 1, Hand::Left),
            (" ", 2, Hand::Left),
            ("-", 3, Hand::Left),
            ("+", 3, Hand::Left),
            (" ", 4, Hand::Left),
            ("+", 5, Hand::Left),
            ("-", 6, Hand::Left),
            (" ", 6, Hand::Left),
            ("-", 7, Hand::Left),
        ],
    );
}

#[test]
fn info_case_2() {
    test(
        [3, 0, 1, 0],
        "+++- ",
        Hand::Right,
        vec![
            ("+", 3, Hand::Right),
            ("+", 3, Hand::Right),
            ("+", 3, Hand::Right),
            ("-", 3, Hand::Right),
            (" ", 4, Hand::Right),
        ],
    );
}

#[test]
fn info_ranks_every_line() {
    let infos = iter_info(&[10, 0, 20, 0], split("-+ ", Hand::Left));
    assert_eq!(infos.len(), 3);
    let ranks: Vec<usize> = infos.iter().map(|i| i.rank).collect();
    assert_eq!(ranks, vec![20, 20, 21]);
    let infos = iter_info(&[10, 0, 20, 0], split("-+ ", Hand::Right));
    let ranks: Vec<usize> = infos.iter().map(|i| i.rank).collect();
    assert_eq!(ranks, vec![10, 11, 11]);
}

#[test]
fn info_cross_ranks_by_the_other_hand() {
    let infos = iter_info_X(&[10, 0, 20, 0], Hand::Right, split("-+ ", Hand::Right));
    let ranks: Vec<usize> = infos.iter().map(|i| i.rank).collect();
    assert_eq!(ranks, vec![20, 20, 21]);
    assert!(infos.iter().all(|i| i.hand == Hand::Right));
    let infos = iter_info_X(&[10, 0, 20, 0], Hand::Left, split("-+ ", Hand::Right));
    let ranks: Vec<usize> = infos.iter().map(|i| i.rank).collect();
    assert_eq!(ranks, vec![10, 11, 11]);
}

#[test]
fn info_prefix_and_data() {
    assert_eq!(Info::from(("+a", 1, Hand::Left)).prefix(), '+');
    assert_eq!(Info::from(("", 1, Hand::Left)).prefix(), ' ');
    assert_eq!(Info::from(("-x", 3, Hand::Right)).data(), (Hand::Right, "-x".to_string()));
}
