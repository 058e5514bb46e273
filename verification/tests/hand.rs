use core::cmp::Ordering;
use diff_fuse::hand::Hand;

#[test]
fn test_order() {
    assert_eq!(Ordering::Less, Hand::Left.cmp(&Hand::Right));
    assert_eq!(Ordering::Greater, Hand::Right.cmp(&Hand::Left));
}

#[test]
fn hand_equals_itself() {
    assert_eq!(Ordering::Equal, Hand::Left.cmp(&Hand::Left));
    assert_eq!(Ordering::Equal, Hand::Right.cmp(&Hand::Right));
}
