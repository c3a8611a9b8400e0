use gcs_node::codec::encode;
use gcs_node::node::{Mode, Node, DELTA, KAPPA, MU, S};

const L: u128 = 1_000_000;

#[test]
fn new_node_starts_normal_at_now() {
    let n = Node::new(4, L);
    assert_eq!(n.id(), 4);
    assert_eq!(n.logical_clock(), L);
    assert_eq!(n.hardware_anchor(), L);
    assert_eq!(n.rate(), 1);
}

#[test]
fn empty_table_is_in_sync() {
    let mut n = Node::new(1, L);
    assert_eq!(n.fastest_node_ahead(), L);
    assert_eq!(n.slowest_node_behind(), L);
    assert!(!n.check_fast_mode_trigger(5, 1000, 500));
    assert!(!n.check_slowest_mode_trigger(5, 1000));
    assert_eq!(n.gcs_tick(L), Some(Mode::InSync));
    assert_eq!(n.rate(), 1);
}

#[test]
fn neighbour_far_ahead_fires_fast_mode() {
    let mut n = Node::new(1, L);
    n.update_neighbours(2, L + 12_000);
    assert_eq!(n.fastest_node_ahead(), L + 12_000);
    assert_eq!(n.slowest_node_behind(), L);
    assert!(n.check_fast_mode_trigger(S, KAPPA, DELTA));
    assert_eq!(n.gcs_tick(L), Some(Mode::Fast));
    assert_eq!(n.rate(), 1);
}

#[test]
fn fast_mode_threshold_is_strict() {
    let mut n = Node::new(1, L);
    n.update_neighbours(2, L + 9_500);
    assert!(!n.check_fast_mode_trigger(5, 1000, 500));
    n.update_neighbours(2, L + 9_501);
    assert!(n.check_fast_mode_trigger(5, 1000, 500));
    // a neighbour far behind blocks the trigger
    n.update_neighbours(3, L - 10_500);
    assert!(!n.check_fast_mode_trigger(5, 1000, 500));
    n.update_neighbours(3, L - 10_499);
    assert!(n.check_fast_mode_trigger(5, 1000, 500));
}

#[test]
fn fast_mode_with_negative_threshold() {
    let n = Node::new(1, L);
    // 2*s*kappa - delta = -500: a zero lead exceeds it
    assert!(n.check_fast_mode_trigger(0, 1000, 500));
    assert!(!n.check_fast_mode_trigger(0, 1000, 0));
}

#[test]
fn clock_ahead_of_everyone_by_threshold() {
    // Own clock 9000 above the only neighbour. That neighbour is behind, not
    // ahead: the fastest node ahead is the clock itself, so the lead over it
    // is 0 and the slow-mode trigger with s = 5 does not hold.
    let mut n = Node::new(1, L);
    n.update_neighbours(2, L - 9_000);
    assert_eq!(n.fastest_node_ahead(), L);
    assert_eq!(n.slowest_node_behind(), L - 9_000);
    assert!(!n.check_slowest_mode_trigger(S, KAPPA));
    assert_eq!(n.gcs_tick(L), Some(Mode::InSync));
    assert_eq!(n.rate(), 1);
}

#[test]
fn slow_mode_with_nonpositive_threshold() {
    let mut n = Node::new(1, L);
    n.update_neighbours(2, L - 9_000);
    // s = 0: threshold -kappa
    assert!(n.check_slowest_mode_trigger(0, 1000));
    assert!(!n.check_slowest_mode_trigger(0, 9_001));
    // kappa = 0: threshold 0
    assert!(n.check_slowest_mode_trigger(5, 0));
    n.update_neighbours(3, L + 1);
    assert!(!n.check_slowest_mode_trigger(5, 0));
}

#[test]
fn fastest_and_slowest_pick_extremes() {
    let mut n = Node::new(1, L);
    n.update_neighbours(2, L - 5);
    n.update_neighbours(3, L + 3);
    n.update_neighbours(4, L + 10);
    n.update_neighbours(5, L - 20);
    n.update_neighbours(6, L);
    assert_eq!(n.fastest_node_ahead(), L + 10);
    assert_eq!(n.slowest_node_behind(), L - 20);
}

#[test]
fn record_overwrites_earlier_value() {
    let mut n = Node::new(1, L);
    n.update_neighbours(2, L + 50);
    n.update_neighbours(2, L - 7);
    assert_eq!(n.fastest_node_ahead(), L);
    assert_eq!(n.slowest_node_behind(), L - 7);
}

#[test]
fn update_clock_advances_by_rate_times_elapsed() {
    let mut n = Node::new(1, 1_000);
    n.update_clock(1_500);
    assert_eq!(n.logical_clock(), 1_500);
    assert_eq!(n.hardware_anchor(), 1_500);
    n.update_clock(2_000);
    assert_eq!(n.logical_clock(), 2_000);
    n.update_clock(2_000);
    assert_eq!(n.logical_clock(), 2_000);
}

#[test]
fn tick_advances_clock() {
    let mut n = Node::new(1, 1_000);
    assert_eq!(n.gcs_tick(4_000), Some(Mode::InSync));
    assert_eq!(n.logical_clock(), 4_000);
    assert_eq!(n.hardware_anchor(), 4_000);
    assert_eq!(n.rate(), 1);
    assert_eq!(1 + MU, 2);
}

#[test]
fn tick_refuses_time_going_back() {
    let mut n = Node::new(1, 1_000);
    assert_eq!(n.gcs_tick(999), None);
    assert_eq!(n.logical_clock(), 1_000);
    assert_eq!(n.hardware_anchor(), 1_000);
}

#[test]
fn tick_reaches_largest_clock() {
    let mut n = Node::new(1, u128::MAX - 10);
    assert_eq!(n.gcs_tick(u128::MAX - 1), Some(Mode::InSync));
    assert_eq!(n.logical_clock(), u128::MAX - 1);
    assert_eq!(n.gcs_tick(u128::MAX), Some(Mode::InSync));
    assert_eq!(n.logical_clock(), u128::MAX);
}

#[test]
fn connecting_twice_keeps_one_per_port() {
    let mut n = Node::new(1, L);
    let targets = vec![8001u16, 8002, 8001, 8003];
    assert_eq!(n.pending_ports(&targets), vec![8001, 8002, 8003]);
    assert_eq!(n.connect_to_neighbours(&targets), vec![8001, 8002, 8003]);
    assert_eq!(n.pending_ports(&targets), Vec::<u16>::new());
    assert_eq!(n.connect_to_neighbours(&targets), Vec::<u16>::new());
}

#[test]
fn failed_connections_are_retried() {
    let mut n = Node::new(1, L);
    let targets = vec![9001u16, 9002, 9003];
    // only 9002 could be reached this round
    assert_eq!(n.connect_to_neighbours(&vec![9002]), vec![9002]);
    assert_eq!(n.pending_ports(&targets), vec![9001, 9003]);
}

#[test]
fn broadcast_message_carries_id_and_clock() {
    let mut n = Node::new(42, 5_000);
    assert_eq!(n.broadcast_message(), encode(42, 5_000));
    n.update_clock(6_000);
    assert_eq!(n.broadcast_message(), encode(42, 6_000));
}

#[test]
fn receive_records_well_formed_messages_only() {
    let mut n = Node::new(1, L);
    assert!(n.receive_message(&encode(9, L + 20_000)));
    assert_eq!(n.fastest_node_ahead(), L + 20_000);
    // a broken read leaves the last value in place
    assert!(!n.receive_message(&encode(9, L + 1)[..10]));
    assert_eq!(n.fastest_node_ahead(), L + 20_000);
    assert!(n.receive_message(&encode(9, L + 1)));
    assert_eq!(n.fastest_node_ahead(), L + 1);
}
