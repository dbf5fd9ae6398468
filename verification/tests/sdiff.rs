use lince::sdiff::{sorted_difference, x1};

#[test]
fn x1_sorts_and_removes_common() {
    assert_eq!(x1(vec![3, 1], vec![4, 3, 2, 1, 2]), vec![2, 2, 4]);
}

#[test]
fn x1_with_empty_lists() {
    assert_eq!(x1(vec![], vec![2, 1]), vec![1, 2]);
    assert_eq!(x1(vec![1, 2], vec![]), Vec::<usize>::new());
}

#[test]
fn sorted_difference_yields_lazily() {
    let mut d = sorted_difference(vec![1, 2, 2, 5, 7], vec![2, 3, 7]);
    assert_eq!(d.next(), Some(1));
    assert_eq!(d.next(), Some(5));
    assert_eq!(d.next(), None);
    assert_eq!(d.next(), None);
}
