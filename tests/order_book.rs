use matcher_rs::{Order, OrderBook, OrderCommand, OrderEvent, OrderType, Side};

fn new_cmd(order_type: OrderType, side: Side, price: i32, qty: u32) -> OrderCommand {
    OrderCommand::New { order_type, side, price, qty }
}

fn gtc(side: Side, price: i32, qty: u32) -> OrderCommand {
    new_cmd(OrderType::GoodTilCancel, side, price, qty)
}

fn fills(book: &OrderBook) -> Vec<OrderEvent> {
    book.events()
        .iter()
        .filter(|e| !matches!(e, OrderEvent::Placed { .. }))
        .cloned()
        .collect()
}

fn not_crossed(book: &OrderBook) -> bool {
    match (book.bids.first(), book.asks.first()) {
        (Some(b), Some(a)) => b.price < a.price,
        _ => true,
    }
}

#[test]
fn test_match_multiple_orders() {
    let order_price = 122;
    let mut order_book = OrderBook::new();
    for _ in 0..5 {
        let order = OrderCommand::New {
            order_type: OrderType::GoodTilCancel,
            side: Side::Sell,
            price: order_price,
            qty: 1,
        };
        order_book.process_command(order);
    }
    let order = OrderCommand::New {
        order_type: OrderType::GoodTilCancel,
        side: Side::Buy,
        price: order_price,
        qty: 5,
    };
    order_book.process_command(order);

    assert_eq!(order_book.bids.len(), 0);
    assert_eq!(order_book.asks.len(), 0);
}

#[test]
fn match_orders_diff_prices() {
    let mut order_book = OrderBook::new();
    let order = OrderCommand::New {
        order_type: OrderType::GoodTilCancel,
        side: Side::Buy,
        price: 123,
        qty: 1,
    };
    let order1 = OrderCommand::New {
        order_type: OrderType::GoodTilCancel,
        side: Side::Buy,
        price: 124,
        qty: 1,
    };
    let order2 = OrderCommand::New {
        order_type: OrderType::GoodTilCancel,
        side: Side::Sell,
        price: 122,
        qty: 1,
    };
    let order3 = OrderCommand::New {
        order_type: OrderType::GoodTilCancel,
        side: Side::Sell,
        price: 122,
        qty: 1,
    };
    order_book.process_command(order);
    order_book.process_command(order1);
    order_book.process_command(order2);
    order_book.process_command(order3);
    assert_eq!(order_book.bids.len(), 0);
    assert_eq!(order_book.asks.len(), 0);
}

#[test]
fn test_match_orders() {
    let order_price = 122;
    let mut order_book = OrderBook::new();
    let order = OrderCommand::New {
        order_type: OrderType::GoodTilCancel,
        side: Side::Sell,
        price: order_price,
        qty: 1,
    };
    order_book.process_command(order);
    let order = OrderCommand::New {
        order_type: OrderType::GoodTilCancel,
        side: Side::Buy,
        price: order_price,
        qty: 1,
    };
    order_book.process_command(order);

    assert_eq!(order_book.bids.len(), 0);
    assert_eq!(order_book.asks.len(), 0);
}

#[test]
fn add_bid_order() {
    let order_price = 122;
    let mut order_book = OrderBook::new();
    let order = OrderCommand::New {
        order_type: OrderType::GoodTilCancel,
        side: Side::Buy,
        price: order_price,
        qty: 1,
    };
    order_book.process_command(order);
    assert_eq!(order_book.bids.len(), 1);
}

#[test]
fn add_ask_order() {
    let order_price = 122;
    let mut order_book = OrderBook::new();
    let order = OrderCommand::New {
        order_type: OrderType::GoodTilCancel,
        side: Side::Sell,
        price: order_price,
        qty: 1,
    };
    order_book.process_command(order);
    assert_eq!(order_book.asks.len(), 1);
}

#[test]
fn fills_follow_arrival_order_at_one_price() {
    let mut book = OrderBook::new();
    for _ in 0..5 {
        book.process_command(gtc(Side::Sell, 122, 1));
    }
    book.process_command(gtc(Side::Buy, 122, 5));
    let buy_id = 6;
    let now = 6;
    let mut expected = Vec::new();
    for sell_id in 1..=4usize {
        expected.push(OrderEvent::PartiallyFilled { id: buy_id, price: 122, qty: 1, timestamp: now });
        expected.push(OrderEvent::Filled { id: sell_id, price: 122, timestamp: now });
    }
    expected.push(OrderEvent::Filled { id: 5, price: 122, timestamp: now });
    expected.push(OrderEvent::Filled { id: buy_id, price: 122, timestamp: now });
    assert_eq!(fills(&book), expected);
    assert!(book.bids.is_empty() && book.asks.is_empty());
}

#[test]
fn best_bid_trades_first_at_its_own_price() {
    let mut book = OrderBook::new();
    book.process_command(gtc(Side::Buy, 123, 1));
    book.process_command(gtc(Side::Buy, 124, 1));
    assert_eq!(book.bids[0].price, 124);
    assert_eq!(book.bids[1].price, 123);
    book.process_command(gtc(Side::Sell, 122, 1));
    book.process_command(gtc(Side::Sell, 122, 1));
    assert_eq!(
        fills(&book),
        vec![
            OrderEvent::Filled { id: 2, price: 124, timestamp: 3 },
            OrderEvent::Filled { id: 3, price: 124, timestamp: 3 },
            OrderEvent::Filled { id: 1, price: 123, timestamp: 4 },
            OrderEvent::Filled { id: 4, price: 123, timestamp: 4 },
        ]
    );
    assert!(book.bids.is_empty() && book.asks.is_empty());
}

#[test]
fn one_sell_one_buy_make_one_filled_pair() {
    let mut book = OrderBook::new();
    book.process_command(gtc(Side::Sell, 122, 1));
    book.process_command(gtc(Side::Buy, 122, 1));
    assert_eq!(
        fills(&book),
        vec![
            OrderEvent::Filled { id: 1, price: 122, timestamp: 2 },
            OrderEvent::Filled { id: 2, price: 122, timestamp: 2 },
        ]
    );
    assert!(book.bids.is_empty() && book.asks.is_empty());
}

#[test]
fn lone_buy_rests_in_one_level() {
    let mut book = OrderBook::new();
    book.process_command(gtc(Side::Buy, 122, 1));
    assert_eq!(book.bids.len(), 1);
    assert_eq!(book.bids[0].price, 122);
    assert_eq!(book.bids[0].orders.len(), 1);
    assert!(book.asks.is_empty());
    assert_eq!(
        *book.events(),
        vec![OrderEvent::Placed {
            id: 1,
            side: Side::Buy,
            order_type: OrderType::GoodTilCancel,
            price: 122,
            timestamp: 1,
        }]
    );
}

#[test]
fn cancel_removes_order_and_empty_level() {
    let mut book = OrderBook::new();
    book.process_command(gtc(Side::Sell, 122, 1));
    book.process_command(OrderCommand::Cancel { id: 1, side: Side::Sell, price: 122 });
    assert!(book.asks.is_empty());
    assert_eq!(book.events().last(), Some(&OrderEvent::Canceled { id: 1 }));
    assert_eq!(book.events().len(), 2);
}

#[test]
fn cancel_keeps_level_with_other_orders() {
    let mut book = OrderBook::new();
    book.process_command(gtc(Side::Buy, 100, 1));
    book.process_command(gtc(Side::Buy, 100, 2));
    book.process_command(OrderCommand::Cancel { id: 1, side: Side::Buy, price: 100 });
    assert_eq!(book.bids.len(), 1);
    assert_eq!(book.bids[0].orders.len(), 1);
    assert_eq!(book.bids[0].orders[0].id, 2);
}

#[test]
fn cancel_of_unknown_order_is_a_no_op() {
    let mut book = OrderBook::new();
    book.process_command(gtc(Side::Buy, 100, 1));
    let events = book.events().clone();
    book.process_command(OrderCommand::Cancel { id: 7, side: Side::Buy, price: 100 });
    book.process_command(OrderCommand::Cancel { id: 1, side: Side::Sell, price: 100 });
    book.process_command(OrderCommand::Cancel { id: 1, side: Side::Buy, price: 101 });
    assert_eq!(*book.events(), events);
    assert_eq!(book.bids.len(), 1);
}

#[test]
fn partial_fill_records_the_smaller_quantity() {
    let mut book = OrderBook::new();
    book.process_command(gtc(Side::Sell, 100, 5));
    book.process_command(gtc(Side::Buy, 101, 3));
    assert_eq!(
        fills(&book),
        vec![
            OrderEvent::PartiallyFilled { id: 1, price: 100, qty: 3, timestamp: 2 },
            OrderEvent::Filled { id: 2, price: 100, timestamp: 2 },
        ]
    );
    let resting = book.asks[0].orders[0];
    assert_eq!(resting.remaining_qty, 2);
    assert_eq!(resting.initial_qty, 5);
    assert_eq!(resting.updated_at, 2);
    assert!(book.bids.is_empty());
}

#[test]
fn larger_incoming_order_rests_its_remainder() {
    let mut book = OrderBook::new();
    book.process_command(gtc(Side::Buy, 100, 2));
    book.process_command(gtc(Side::Sell, 99, 5));
    assert_eq!(
        fills(&book),
        vec![
            OrderEvent::PartiallyFilled { id: 2, price: 100, qty: 2, timestamp: 2 },
            OrderEvent::Filled { id: 1, price: 100, timestamp: 2 },
        ]
    );
    assert!(book.bids.is_empty());
    assert_eq!(book.asks.len(), 1);
    assert_eq!(book.asks[0].price, 99);
    let rest = book.asks[0].orders[0];
    assert_eq!((rest.id, rest.remaining_qty, rest.initial_qty), (2, 3, 5));
}

#[test]
fn non_crossing_orders_rest_on_both_sides() {
    let mut book = OrderBook::new();
    book.process_command(gtc(Side::Buy, 99, 1));
    book.process_command(gtc(Side::Sell, 101, 1));
    book.process_command(gtc(Side::Sell, 100, 1));
    book.process_command(gtc(Side::Buy, 98, 1));
    assert_eq!(book.bids.iter().map(|l| l.price).collect::<Vec<_>>(), vec![99, 98]);
    assert_eq!(book.asks.iter().map(|l| l.price).collect::<Vec<_>>(), vec![100, 101]);
    assert!(fills(&book).is_empty());
    assert!(not_crossed(&book));
}

#[test]
fn book_never_rests_crossed() {
    let mut book = OrderBook::new();
    let prices = [100, 103, 97, 101, 99, 102, 98, 100, 104, 96];
    for (i, p) in prices.iter().enumerate() {
        let side = if i % 2 == 0 { Side::Buy } else { Side::Sell };
        book.process_command(gtc(side, *p, (i as u32 % 3) + 1));
        assert!(not_crossed(&book));
        for level in book.bids.iter().chain(book.asks.iter()) {
            assert!(!level.orders.is_empty());
            for o in level.orders.iter() {
                assert!(0 < o.remaining_qty && o.remaining_qty <= o.initial_qty);
                assert_eq!(o.price, level.price);
            }
        }
    }
}

#[test]
fn fill_and_kill_without_liquidity_leaves_no_trace() {
    let mut book = OrderBook::new();
    book.process_command(gtc(Side::Sell, 105, 1));
    book.process_command(new_cmd(OrderType::FillAndKill, Side::Buy, 100, 3));
    assert!(book.bids.is_empty());
    assert_eq!(book.asks.len(), 1);
    assert_eq!(
        book.events().last(),
        Some(&OrderEvent::Placed {
            id: 2,
            side: Side::Buy,
            order_type: OrderType::FillAndKill,
            price: 100,
            timestamp: 2,
        })
    );
    assert_eq!(book.events().len(), 2);
}

#[test]
fn fill_and_kill_remainder_is_discarded() {
    let mut book = OrderBook::new();
    book.process_command(gtc(Side::Buy, 100, 1));
    book.process_command(new_cmd(OrderType::FillAndKill, Side::Sell, 100, 4));
    assert!(book.bids.is_empty());
    assert!(book.asks.is_empty());
    assert_eq!(
        fills(&book),
        vec![
            OrderEvent::PartiallyFilled { id: 2, price: 100, qty: 1, timestamp: 2 },
            OrderEvent::Filled { id: 1, price: 100, timestamp: 2 },
        ]
    );
}

#[test]
fn zero_quantity_and_negative_price_are_rejected() {
    let mut book = OrderBook::new();
    book.process_command(gtc(Side::Buy, 100, 0));
    book.process_command(gtc(Side::Sell, -1, 3));
    assert!(book.events().is_empty());
    assert!(book.bids.is_empty() && book.asks.is_empty());
    assert_eq!(book.next_id(), 1);
    book.process_command(gtc(Side::Sell, 0, 3));
    assert_eq!(book.asks.len(), 1);
}

#[test]
fn modify_cancels_then_places_anew() {
    let mut book = OrderBook::new();
    book.process_command(gtc(Side::Buy, 100, 1));
    book.process_command(gtc(Side::Buy, 100, 2));
    book.process_command(OrderCommand::Modify {
        id: 1,
        side: Side::Buy,
        price: 100,
        qty: 7,
        order_type: OrderType::GoodTilCancel,
    });
    assert_eq!(book.events()[2], OrderEvent::Canceled { id: 1 });
    assert_eq!(
        book.events()[3],
        OrderEvent::Placed {
            id: 3,
            side: Side::Buy,
            order_type: OrderType::GoodTilCancel,
            price: 100,
            timestamp: 3,
        }
    );
    let ids: Vec<usize> = book.bids[0].orders.iter().map(|o| o.id).collect();
    assert_eq!(ids, vec![2, 3]);
    assert_eq!(book.bids[0].orders[1].remaining_qty, 7);
}

#[test]
fn modify_of_unknown_order_is_a_no_op() {
    let mut book = OrderBook::new();
    book.process_command(gtc(Side::Buy, 100, 1));
    book.process_command(OrderCommand::Modify {
        id: 1,
        side: Side::Buy,
        price: 101,
        qty: 7,
        order_type: OrderType::GoodTilCancel,
    });
    assert_eq!(book.events().len(), 1);
    assert_eq!(book.bids[0].orders[0].remaining_qty, 1);
    assert_eq!(book.next_id(), 2);
}

#[test]
fn place_order_matches_and_rests_directly() {
    let mut book = OrderBook::new();
    book.place_order(Order::new(10, OrderType::GoodTilCancel, Side::Sell, 50, 4, 0));
    book.place_order(Order::new(11, OrderType::GoodTilCancel, Side::Buy, 50, 1, 0));
    assert_eq!(book.asks[0].orders[0].remaining_qty, 3);
    assert_eq!(
        *book.events(),
        vec![
            OrderEvent::PartiallyFilled { id: 10, price: 50, qty: 1, timestamp: 2 },
            OrderEvent::Filled { id: 11, price: 50, timestamp: 2 },
        ]
    );
    let mut empty = Order::new(12, OrderType::GoodTilCancel, Side::Buy, 60, 1, 0);
    let _ = empty.fill(1, 0);
    book.place_order(empty);
    assert!(book.bids.is_empty());
    assert_eq!(book.events().len(), 2);
}

#[test]
fn new_order_never_reuses_a_placed_id() {
    let mut book = OrderBook::new();
    book.place_order(Order::new(1, OrderType::GoodTilCancel, Side::Buy, 100, 1, 0));
    assert_eq!(book.next_id(), 2);
    book.process_command(gtc(Side::Sell, 200, 1));
    assert_eq!(
        book.events().last(),
        Some(&OrderEvent::Placed {
            id: 2,
            side: Side::Sell,
            order_type: OrderType::GoodTilCancel,
            price: 200,
            timestamp: 2,
        })
    );
    book.place_order(Order::new(40, OrderType::GoodTilCancel, Side::Buy, 90, 1, 0));
    book.process_command(gtc(Side::Buy, 80, 1));
    assert_eq!(book.bids[2].orders[0].id, 41);
}

#[test]
fn match_takes_only_the_crossable_quantity() {
    let mut book = OrderBook::new();
    book.process_command(gtc(Side::Sell, 100, 2));
    book.process_command(gtc(Side::Sell, 101, 3));
    book.process_command(gtc(Side::Sell, 105, 4));
    book.process_command(new_cmd(OrderType::FillAndKill, Side::Buy, 102, 10));
    assert_eq!(book.asks.len(), 1);
    assert_eq!(book.asks[0].price, 105);
    assert_eq!(book.asks[0].orders[0].remaining_qty, 4);
    assert!(book.bids.is_empty());
    assert_eq!(
        fills(&book),
        vec![
            OrderEvent::PartiallyFilled { id: 4, price: 100, qty: 2, timestamp: 4 },
            OrderEvent::Filled { id: 1, price: 100, timestamp: 4 },
            OrderEvent::PartiallyFilled { id: 4, price: 101, qty: 3, timestamp: 4 },
            OrderEvent::Filled { id: 2, price: 101, timestamp: 4 },
        ]
    );
}

#[test]
fn cancel_leaves_no_order_with_that_id() {
    let mut book = OrderBook::new();
    book.process_command(gtc(Side::Buy, 100, 1));
    book.process_command(gtc(Side::Buy, 99, 1));
    book.process_command(gtc(Side::Sell, 110, 1));
    book.process_command(OrderCommand::Cancel { id: 2, side: Side::Buy, price: 99 });
    let all: Vec<usize> = book
        .bids
        .iter()
        .chain(book.asks.iter())
        .flat_map(|l| l.orders.iter().map(|o| o.id))
        .collect();
    assert_eq!(all, vec![1, 3]);
}
