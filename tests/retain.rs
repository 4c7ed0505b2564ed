use farkle::RetainIndexed;

#[test]
fn test_retain_indexed() {
    let mut v = vec![1, 2, 3, 4, 5, 6, 7, 8, 9, 10];
    v.retain_indexed(|index, _| index % 2 == 0);
    assert_eq!(v, vec![1, 3, 5, 7, 9]);
}

#[test]
fn retain_indexed_by_value_and_position() {
    let mut v = vec![10, 20, 30, 40];
    v.retain_indexed(|index, x| index == 0 || *x > 25);
    assert_eq!(v, vec![10, 30, 40]);
    let mut e: Vec<u8> = vec![];
    e.retain_indexed(|_, _| false);
    assert!(e.is_empty());
}
