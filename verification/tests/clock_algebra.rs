use wait_free_queue::compare_ts::compare_ts;
use wait_free_queue::compare_ts::compare_ts_ord;
use wait_free_queue::compare_ts::contains_all_zeros;
use wait_free_queue::compare_ts::ComparisonResult;
use wait_free_queue::numeric_encodings::req_encoding_to_string;
use wait_free_queue::update_ts::update_ts;

#[test]
fn compare_strictly_less_when_every_slot_is_below() {
    let a = vec![0, 1, 2];
    let b = vec![1, 2, 3];
    assert_eq!(compare_ts(&a, &b), ComparisonResult::StrictlyLess);
}

#[test]
fn compare_less_when_below_with_some_equal_slot() {
    let a = vec![0, 1, 0];
    let b = vec![1, 1, 0];
    assert_eq!(compare_ts(&a, &b), ComparisonResult::Less);
}

#[test]
fn compare_greater_on_equal_clocks() {
    let a = vec![2, 2];
    let b = vec![2, 2];
    assert_eq!(compare_ts(&a, &b), ComparisonResult::Greater);
}

#[test]
fn compare_greater_on_incomparable_clocks() {
    let a = vec![1, 0];
    let b = vec![0, 1];
    assert_eq!(compare_ts(&a, &b), ComparisonResult::Greater);
    assert_eq!(compare_ts(&b, &a), ComparisonResult::Greater);
}

#[test]
fn lexicographic_order_decides_at_first_difference() {
    let a = vec![1, 9, 9];
    let b = vec![2, 0, 0];
    assert_eq!(compare_ts_ord(&a, &b), std::cmp::Ordering::Less);
    assert_eq!(compare_ts_ord(&b, &a), std::cmp::Ordering::Greater);
    let c = vec![1, 9, 9];
    assert_eq!(compare_ts_ord(&a, &c), std::cmp::Ordering::Equal);
}

#[test]
fn all_zeros_detection() {
    assert!(contains_all_zeros(&vec![0, 0, 0]));
    assert!(!contains_all_zeros(&vec![0, 1, 0]));
    assert!(contains_all_zeros(&Vec::new()));
}

#[test]
fn merge_takes_the_slotwise_maximum() {
    let mut a = vec![3, 0, 5, 2];
    let b = vec![1, 4, 5, 0];
    update_ts(&mut a, &b);
    assert_eq!(a, vec![3, 4, 5, 2]);
    assert_eq!(b, vec![1, 4, 5, 0]);
}

#[test]
fn encoding_names_match_the_wire_table() {
    assert_eq!(req_encoding_to_string(0), "ENQ_REQ");
    assert_eq!(req_encoding_to_string(1), "DEQ_REQ");
    assert_eq!(req_encoding_to_string(2), "ENQ_ACK");
    assert_eq!(req_encoding_to_string(3), "UNSAFE");
    assert_eq!(req_encoding_to_string(4), "SAFE");
    assert_eq!(req_encoding_to_string(9), "");
}
