use farkle::{face_from_byte, get_score, RollResult};

fn f(v: &[u8]) -> Result<u32, Vec<u8>> {
    get_score(v.iter().map(|&x| RollResult::new(x).unwrap()).collect())
        .map_err(|v| v.into_iter().map(|r| r.value()).collect())
}

#[test]
fn test_get_score() {
    assert_eq!(f(&[]), Err(vec![]));
    assert_eq!(f(&[1, 1, 1, 5, 5, 5]), Ok(1500));
    assert_eq!(f(&[1, 1, 1, 5, 5, 6]), Err(vec![6]));
    assert_eq!(f(&[1]), Ok(100));
    assert_eq!(f(&[1, 1]), Ok(200));
    assert_eq!(f(&[1, 1, 1]), Ok(1000));
    assert_eq!(f(&[1, 1, 1, 1]), Ok(1100));
    assert_eq!(f(&[1, 1, 1, 1, 1]), Ok(1200));
    assert_eq!(f(&[1, 1, 1, 1, 1, 1]), Ok(2000));
    assert_eq!(f(&[4]), Err(vec![4]));
    assert_eq!(f(&[4, 4]), Err(vec![4, 4]));
    assert_eq!(f(&[4, 4, 4]), Ok(400));
    assert_eq!(f(&[4, 4, 4, 4]), Err(vec![4]));
    assert_eq!(f(&[4, 4, 4, 5]), Ok(450));
}

#[test]
fn score_does_not_depend_on_order() {
    assert_eq!(f(&[5, 1, 5, 1, 5, 1]), Ok(1500));
    assert_eq!(f(&[3, 1, 3, 5, 3]), Ok(450));
    assert_eq!(f(&[5, 3, 1, 3, 3]), Ok(450));
    assert_eq!(f(&[6, 5, 5, 1, 1, 1]), Err(vec![6]));
}

#[test]
fn six_of_a_kind_scores_two_triplets() {
    assert_eq!(f(&[2, 2, 2, 2, 2, 2]), Ok(400));
    assert_eq!(f(&[6, 6, 6, 6, 6, 6]), Ok(1200));
    assert_eq!(f(&[5, 5, 5, 5, 5, 5]), Ok(1000));
}

#[test]
fn mixed_triplets_and_singles() {
    assert_eq!(f(&[2, 2, 2, 3, 3, 3]), Ok(500));
    assert_eq!(f(&[5, 5, 5, 5, 1]), Ok(650));
    assert_eq!(f(&[2, 3, 4, 6]), Err(vec![2, 3, 4, 6]));
    assert_eq!(f(&[2, 3]), Err(vec![2, 3]));
}

#[test]
fn faces_are_checked_on_construction() {
    assert!(RollResult::new(0).is_none());
    assert!(RollResult::new(7).is_none());
    assert_eq!(RollResult::new(6).unwrap().value(), 6);
    let all: Vec<u8> = RollResult::iter().into_iter().map(|r| r.value()).collect();
    assert_eq!(all, vec![1, 2, 3, 4, 5, 6]);
}

#[test]
fn leftover_keeps_the_order_of_the_dice() {
    assert_eq!(f(&[2, 2, 2, 2, 3]), Err(vec![2, 3]));
    assert_eq!(f(&[3, 2, 2, 2, 2]), Err(vec![3, 2]));
    assert_eq!(f(&[6, 1, 4, 5, 6]), Err(vec![6, 4, 6]));
    assert_eq!(f(&[1, 1, 1, 1, 2, 5, 5]), Err(vec![2]));
}

#[test]
fn byte_to_face() {
    assert_eq!(face_from_byte(0).value(), 1);
    assert_eq!(face_from_byte(5).value(), 6);
    assert_eq!(face_from_byte(6).value(), 1);
    assert_eq!(face_from_byte(255).value(), 4);
}
