use fuzzy_psi::sub_protocol::insecure::{sub_protocol_1, sub_protocol_2, sub_protocol_3};

#[test]
fn step_one_hands_the_point_out_twice() {
    assert_eq!(sub_protocol_1(42), (42, 42));
    assert_eq!(sub_protocol_1(0), (0, 0));
}

#[test]
fn step_two_answers_with_the_own_point() {
    assert_eq!(sub_protocol_2(7, 9), 9);
    assert_eq!(sub_protocol_2(u64::MAX, 0), 0);
}

#[test]
fn step_three_accepts_within_the_threshold() {
    assert_eq!(sub_protocol_3(10, 12, 2), Some(12));
    assert_eq!(sub_protocol_3(10, 8, 2), Some(8));
    assert_eq!(sub_protocol_3(10, 10, 0), Some(10));
    assert_eq!(sub_protocol_3(10, 13, 2), None);
    assert_eq!(sub_protocol_3(10, 7, 2), None);
}

#[test]
fn step_three_at_the_ends_of_the_range() {
    assert_eq!(sub_protocol_3(1, 0, 2), Some(0));
    assert_eq!(sub_protocol_3(0, 3, 2), None);
    assert_eq!(sub_protocol_3(u64::MAX, u64::MAX - 1, 5), Some(u64::MAX - 1));
    assert_eq!(sub_protocol_3(u64::MAX - 1, u64::MAX, u64::MAX), Some(u64::MAX));
    assert_eq!(sub_protocol_3(0, u64::MAX, u64::MAX - 1), None);
}
