use match_engine_rust::clock::{duration_millis, duration_nanos, millis_at, nanos_at};
use match_engine_rust::level::PriceLevel;
use match_engine_rust::order::Order;
use match_engine_rust::types::{OrderStatus, OrderType, Side};

#[test]
fn test_order_creation() {
    let order = Order::new(1, Side::Buy, OrderType::Limit, 10_000, 100);
    assert_eq!(order.order_id, 1);
    assert_eq!(order.side, Side::Buy);
    assert_eq!(order.order_type, OrderType::Limit);
    assert_eq!(order.price, 10_000);
    assert_eq!(order.original_quantity, 100);
    assert_eq!(order.get_remaining_quantity(), 100);
    assert_eq!(order.get_status(), OrderStatus::Active);
}

#[test]
fn test_order_fill() {
    let mut order = Order::new(1, Side::Buy, OrderType::Limit, 10_000, 100);

    // Partial Fill
    let filled = order.fill(30);
    assert_eq!(filled, 30);
    assert_eq!(order.get_remaining_quantity(), 70);
    assert_eq!(order.get_status(), OrderStatus::PartiallyFilled);

    // Complete fill
    let filled = order.fill(70);
    assert_eq!(filled, 70);
    assert_eq!(order.get_remaining_quantity(), 0);
    assert_eq!(order.get_status(), OrderStatus::Filled);

    // Try to fill already filled order
    let filled = order.fill(10);
    assert_eq!(filled, 0);
}

#[test]
fn test_order_cancel() {
    let mut order = Order::new(1, Side::Buy, OrderType::Limit, 10000, 100);

    // Cancel active order
    assert!(order.cancel());
    assert_eq!(order.get_status(), OrderStatus::Cancelled);

    // Try to cancel again
    assert!(!order.cancel());
}

#[test]
fn overfill_takes_what_is_left() {
    let mut order = Order::new(1, Side::Sell, OrderType::Limit, 5, 40);
    assert_eq!(order.fill(100), 40);
    assert_eq!(order.get_remaining_quantity(), 0);
    assert_eq!(order.original_quantity, 40);
    assert!(!order.is_active());
    assert!(!order.cancel());
    assert_eq!(order.get_status(), OrderStatus::Filled);
}

#[test]
fn empty_fill_counts_as_a_fill() {
    let mut order = Order::new(1, Side::Sell, OrderType::Limit, 5, 40);
    assert!(order.is_active());
    assert_eq!(order.fill(0), 0);
    assert_eq!(order.get_remaining_quantity(), 40);
    assert_eq!(order.get_status(), OrderStatus::PartiallyFilled);
    assert!(order.is_active());
}

#[test]
fn two_fills_are_one() {
    let mut a = Order::created_at(1, Side::Buy, OrderType::Limit, 5, 40, 0);
    let mut b = Order::created_at(1, Side::Buy, OrderType::Limit, 5, 40, 0);
    assert_eq!(a.fill(15) + a.fill(10), b.fill(25));
    assert_eq!(a.get_remaining_quantity(), 15);
    assert_eq!(a.get_remaining_quantity(), b.get_remaining_quantity());
    assert_eq!(a.get_status(), b.get_status());
}

#[test]
fn given_timestamp_is_kept() {
    let order = Order::created_at(7, Side::Buy, OrderType::Limit, 5, 40, 1234);
    assert_eq!(order.timestamp, 1234);
}

#[test]
fn new_order_is_stamped_in_nanoseconds() {
    let before = match std::time::UNIX_EPOCH.elapsed() {
        Ok(elapsed) => elapsed.as_nanos() as u64,
        Err(_) => panic!("the clock stands before the epoch"),
    };
    let order = Order::new(1, Side::Buy, OrderType::Limit, 5, 40);
    let after = match std::time::UNIX_EPOCH.elapsed() {
        Ok(elapsed) => elapsed.as_nanos() as u64,
        Err(_) => panic!("the clock stands before the epoch"),
    };
    assert!(before <= order.timestamp && order.timestamp <= after);
}

#[test]
fn durations_convert() {
    assert_eq!(duration_nanos(2, 5), 2_000_000_005);
    assert_eq!(duration_millis(2, 5_999_999), 2_005);
    // 2^64 seconds less one are 10^9 nanoseconds short of a multiple of 2^64.
    assert_eq!(duration_nanos(u64::MAX, 0), u64::MAX - 999_999_999);
    assert_eq!(duration_millis(u64::MAX, 1_000_000), u64::MAX - 998);
}

#[test]
fn readings_of_the_clock_convert() {
    assert_eq!(nanos_at(Some((2, 5))), 2_000_000_005);
    assert_eq!(millis_at(Some((2, 5_999_999))), 2_005);
    // A clock that stands before the epoch.
    assert_eq!(nanos_at(None), 0);
    assert_eq!(millis_at(None), 0);
}

#[test]
fn level_is_first_in_first_out() {
    let mut level = PriceLevel::new(50);
    assert!(level.is_empty());
    assert!(level.pop_front().is_none());
    level.push_order(Order::new(1, Side::Buy, OrderType::Limit, 50, 10));
    level.push_order(Order::new(2, Side::Buy, OrderType::Limit, 50, 20));
    assert_eq!(level.price, 50);
    assert_eq!(level.get_total_quantity(), 30);
    assert_eq!(level.pop_front().map(|order| order.order_id), Some(1));
    // The cached total keeps its value.
    assert_eq!(level.get_total_quantity(), 30);
    assert_eq!(level.pop_front().map(|order| order.order_id), Some(2));
    assert!(level.is_empty());
}

#[test]
fn level_removes_by_identifier() {
    let mut level = PriceLevel::new(50);
    level.push_order(Order::new(1, Side::Buy, OrderType::Limit, 50, 10));
    level.push_order(Order::new(2, Side::Buy, OrderType::Limit, 50, 20));
    level.push_order(Order::new(3, Side::Buy, OrderType::Limit, 50, 30));
    assert_eq!(level.remove_order(2), Some(20));
    assert_eq!(level.get_total_quantity(), 40);
    assert_eq!(level.remove_order(2), None);
    assert_eq!(level.get_total_quantity(), 40);
    assert_eq!(level.pop_front().map(|order| order.order_id), Some(1));
    assert_eq!(level.pop_front().map(|order| order.order_id), Some(3));
}

#[test]
fn level_removes_the_oldest_of_two() {
    let mut level = PriceLevel::new(50);
    level.push_order(Order::new(1, Side::Buy, OrderType::Limit, 50, 10));
    level.push_order(Order::new(1, Side::Buy, OrderType::Limit, 50, 20));
    assert_eq!(level.remove_order(1), Some(10));
    assert_eq!(level.remove_order(1), Some(20));
    assert_eq!(level.get_total_quantity(), 0);
}

#[test]
fn level_total_wraps() {
    let mut level = PriceLevel::new(50);
    level.push_order(Order::new(1, Side::Buy, OrderType::Limit, 50, u64::MAX));
    level.push_order(Order::new(2, Side::Buy, OrderType::Limit, 50, 3));
    assert_eq!(level.get_total_quantity(), 2);
    assert_eq!(level.remove_order(1), Some(u64::MAX));
    assert_eq!(level.get_total_quantity(), 3);
}
