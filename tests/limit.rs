use matcher_rs::{Limit, Order, OrderType, Side};

#[test]
fn test_remove_by_id() {
    let mut limit = Limit::new(10);
    let order = Order::new(1, OrderType::GoodTilCancel, Side::Buy, 10, 1, 0);
    limit.orders.push_back(order.clone());
    let order = Order::new(2, OrderType::GoodTilCancel, Side::Buy, 10, 1, 0);
    limit.orders.push_back(order.clone());
    let order = Order::new(3, OrderType::GoodTilCancel, Side::Buy, 10, 1, 0);
    limit.orders.push_back(order.clone());
    let order1 = Order::new(4, OrderType::GoodTilCancel, Side::Buy, 10, 1, 0);
    limit.orders.push_back(order1.clone());

    let removed = limit.remove_order_by_id(order1.id);
    assert_eq!(removed, true)
}

#[test]
fn test_find_by_id() {
    let mut limit = Limit::new(10);
    let order = Order::new(1, OrderType::GoodTilCancel, Side::Buy, 10, 1, 0);
    limit.orders.push_back(order.clone());
    let order = Order::new(2, OrderType::GoodTilCancel, Side::Buy, 10, 1, 0);
    limit.orders.push_back(order.clone());
    let order = Order::new(3, OrderType::GoodTilCancel, Side::Buy, 10, 1, 0);
    limit.orders.push_back(order.clone());
    let order = Order::new(4, OrderType::GoodTilCancel, Side::Buy, 10, 1, 0);
    limit.orders.push_back(order.clone());

    let pos = limit.find_by_id(order.id);
    assert_eq!(pos, Some(3usize))
}

#[test]
fn find_by_id_absent_and_first_of_duplicates() {
    let mut limit = Limit::new(7);
    assert_eq!(limit.find_by_id(1), None);
    limit.orders.push_back(Order::new(5, OrderType::GoodTilCancel, Side::Sell, 7, 2, 0));
    limit.orders.push_back(Order::new(9, OrderType::GoodTilCancel, Side::Sell, 7, 3, 0));
    limit.orders.push_back(Order::new(9, OrderType::GoodTilCancel, Side::Sell, 7, 4, 0));
    assert_eq!(limit.find_by_id(9), Some(1));
    assert_eq!(limit.find_by_id(6), None);
}

#[test]
fn remove_by_id_keeps_the_others_in_order() {
    let mut limit = Limit::new(7);
    for id in 1..=4usize {
        limit.orders.push_back(Order::new(id, OrderType::GoodTilCancel, Side::Sell, 7, 1, 0));
    }
    assert!(limit.remove_order_by_id(2));
    let ids: Vec<usize> = limit.orders.iter().map(|o| o.id).collect();
    assert_eq!(ids, vec![1, 3, 4]);
    assert!(!limit.remove_order_by_id(2));
    assert_eq!(limit.orders.len(), 3);
    assert_eq!(limit.price, 7);
}

#[test]
fn fill_takes_quantity_and_refreshes_time() {
    let mut order = Order::new(1, OrderType::GoodTilCancel, Side::Buy, 10, 5, 3);
    let r = order.fill(2, 8);
    assert_eq!(order.remaining_qty, 3);
    assert_eq!(order.initial_qty, 5);
    assert_eq!(order.updated_at, 8);
    assert_eq!(order.created_at, 3);
    assert_eq!(r, Ok(order));
    let r = order.fill(3, 9);
    assert_eq!(r.map(|o| o.remaining_qty), Ok(0));
}

#[test]
fn fill_refuses_more_than_remaining() {
    let mut order = Order::new(1, OrderType::GoodTilCancel, Side::Sell, 10, 2, 4);
    let before = order;
    assert_eq!(order.fill(3, 9), Err(matcher_rs::FillError::InsufficientQuantity));
    assert_eq!(order, before);
}

#[test]
fn fill_never_moves_time_backwards() {
    let mut order = Order::new(1, OrderType::GoodTilCancel, Side::Sell, 10, 2, 6);
    let _ = order.fill(1, 2);
    assert_eq!(order.updated_at, 6);
    assert_eq!(order.remaining_qty, 1);
}

#[test]
fn new_level_is_empty() {
    let level = matcher_rs::Level::new(42);
    assert_eq!(level.price, 42);
    assert!(level.orders.is_empty());
}
