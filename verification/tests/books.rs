use crossbeam_channel::{bounded, unbounded, Receiver};
use match_engine_rust::book::OrderBook;
use match_engine_rust::events::{answered, Fill, Trade, TradeFeed};
use match_engine_rust::level::PriceLevel;
use match_engine_rust::order::Order;
use match_engine_rust::types::{OrderBookError, OrderStatus, OrderType, Side};
use std::collections::VecDeque;

fn listening_book() -> (OrderBook, Receiver<Trade>) {
    let (tx, rx) = unbounded();
    (OrderBook::with_trade_feed(TradeFeed::to(tx)), rx)
}

/// Taker, maker, price and quantity of each trade so far.
fn trades(rx: &Receiver<Trade>) -> Vec<(u64, u64, u64, u64)> {
    rx.try_iter()
        .map(|t| (t.taker_order_id, t.maker_order_id, t.price, t.quantity))
        .collect()
}

#[test]
fn test_order_book_creation() {
    let book = OrderBook::new();
    assert_eq!(book.best_bid(), None);
    assert_eq!(book.best_ask(), None);
    assert_eq!(book.spread(), None);
}

#[test]
fn test_order_id_generation() {
    let mut book = OrderBook::new();
    let id1 = book.generate_order_id();
    let id2 = book.generate_order_id();
    let id3 = book.generate_order_id();

    assert_eq!(id1, 1);
    assert_eq!(id2, 2);
    assert_eq!(id3, 3);
}

#[test]
fn test_end_to_end_orderbook() {
    let mut orderbook = OrderBook::new();
    let _order = Order::new(1, Side::Buy, OrderType::Limit, 10_000, 100);
    assert_eq!(orderbook.submit_limit_order(Side::Buy, 10_000, 100), Ok(1));

    let _buy_order = Order::new(2, Side::Buy, OrderType::Limit, 10_000, 100);
    let _sell_order = Order::new(3, Side::Sell, OrderType::Limit, 10_000, 100);

    assert_eq!(orderbook.submit_limit_order(Side::Buy, 10_000, 100), Ok(2));
    assert_eq!(orderbook.submit_limit_order(Side::Sell, 10_000, 100), Ok(3));

    assert_eq!(orderbook.spread(), None);
    assert_eq!(orderbook.best_bid(), Some(10_000));
    assert_eq!(orderbook.best_ask(), None);
    assert_eq!(orderbook.total_bid_quantity(), 100);
}

#[test]
fn limit_against_limit() {
    let (mut book, rx) = listening_book();

    // Maker adds resting ask
    assert_eq!(book.submit_limit_order(Side::Sell, 2000, 5), Ok(1));

    // Taker crosses with a buy limit >= best ask
    assert_eq!(book.submit_limit_order(Side::Buy, 2100, 3), Ok(2));

    assert_eq!(trades(&rx), vec![(2, 1, 2000, 3)]);

    // Remaining maker quantity
    assert_eq!(book.total_ask_quantity(), 2);
    assert_eq!(book.cancel_order(1), Ok(2));
}

#[test]
fn zero_price_is_refused() {
    let mut book = OrderBook::new();
    assert_eq!(
        book.submit_limit_order(Side::Buy, 0, 0),
        Err(OrderBookError::InvalidPrice(0))
    );
    // No identifier is used up.
    assert_eq!(book.generate_order_id(), 1);
}

#[test]
fn zero_quantity_is_refused() {
    let mut book = OrderBook::new();
    assert_eq!(
        book.submit_limit_order(Side::Sell, 10, 0),
        Err(OrderBookError::InvalidQuantity(0))
    );
    assert_eq!(
        book.submit_market_order(Side::Sell, 0),
        Err(OrderBookError::InvalidQuantity(0))
    );
    assert_eq!(book.generate_order_id(), 1);
}

#[test]
fn buyer_walks_asks_upwards() {
    let (mut book, rx) = listening_book();
    assert_eq!(book.submit_limit_order(Side::Sell, 103, 10), Ok(1));
    assert_eq!(book.submit_limit_order(Side::Sell, 101, 10), Ok(2));
    assert_eq!(book.submit_limit_order(Side::Sell, 102, 10), Ok(3));
    assert_eq!(book.submit_limit_order(Side::Buy, 102, 25), Ok(4));
    assert_eq!(trades(&rx), vec![(4, 2, 101, 10), (4, 3, 102, 10)]);
    assert_eq!(book.best_bid(), Some(102));
    assert_eq!(book.best_ask(), Some(103));
    assert_eq!(book.spread(), Some(1));
    assert_eq!(book.total_bid_quantity(), 5);
    assert_eq!(book.total_ask_quantity(), 10);
    assert_eq!(book.total_quantity(), 15);
}

#[test]
fn seller_walks_bids_downwards() {
    let (mut book, rx) = listening_book();
    assert_eq!(book.submit_limit_order(Side::Buy, 97, 10), Ok(1));
    assert_eq!(book.submit_limit_order(Side::Buy, 99, 10), Ok(2));
    assert_eq!(book.submit_limit_order(Side::Buy, 98, 10), Ok(3));
    assert_eq!(book.submit_limit_order(Side::Sell, 98, 25), Ok(4));
    assert_eq!(trades(&rx), vec![(4, 2, 99, 10), (4, 3, 98, 10)]);
    assert_eq!(book.best_bid(), Some(97));
    assert_eq!(book.best_ask(), Some(98));
    assert_eq!(book.total_ask_quantity(), 5);
}

#[test]
fn seller_never_goes_below_its_limit() {
    let (mut book, rx) = listening_book();
    assert_eq!(book.submit_limit_order(Side::Buy, 90, 10), Ok(1));
    assert_eq!(book.submit_limit_order(Side::Sell, 100, 10), Ok(2));
    assert_eq!(trades(&rx), vec![]);
    assert_eq!(book.best_bid(), Some(90));
    assert_eq!(book.best_ask(), Some(100));
    assert_eq!(book.spread(), Some(10));
}

#[test]
fn older_orders_trade_first() {
    let (mut book, rx) = listening_book();
    assert_eq!(book.submit_limit_order(Side::Sell, 100, 4), Ok(1));
    assert_eq!(book.submit_limit_order(Side::Sell, 100, 4), Ok(2));
    assert_eq!(book.submit_limit_order(Side::Sell, 100, 4), Ok(3));
    assert_eq!(book.submit_limit_order(Side::Buy, 100, 6), Ok(4));
    assert_eq!(trades(&rx), vec![(4, 1, 100, 4), (4, 2, 100, 2)]);
    // A partly filled order keeps its place.
    assert_eq!(book.submit_market_order(Side::Buy, 3), Ok((5, 3)));
    assert_eq!(trades(&rx), vec![(5, 2, 100, 2), (5, 3, 100, 1)]);
    assert_eq!(book.cancel_order(3), Ok(3));
}

#[test]
fn limit_order_clears_away_what_it_empties() {
    let mut book = OrderBook::new();
    assert_eq!(book.submit_limit_order(Side::Sell, 100, 4), Ok(1));
    assert_eq!(book.submit_limit_order(Side::Buy, 100, 4), Ok(2));
    assert_eq!(book.best_ask(), None);
    assert_eq!(book.best_bid(), None);
    // The filled maker is remembered, but its level is gone.
    assert_eq!(book.cancel_order(1), Err("Price level not found".to_string()));
    // The filled taker never rested.
    assert_eq!(book.cancel_order(2), Err("Order not found".to_string()));
}

#[test]
fn market_order_takes_any_price_and_never_rests() {
    let (mut book, rx) = listening_book();
    assert_eq!(book.submit_limit_order(Side::Sell, 100, 4), Ok(1));
    assert_eq!(book.submit_limit_order(Side::Sell, 900, 4), Ok(2));
    assert_eq!(book.submit_market_order(Side::Buy, 10), Ok((3, 8)));
    assert_eq!(trades(&rx), vec![(3, 1, 100, 4), (3, 2, 900, 4)]);
    assert_eq!(book.best_bid(), None);
    assert_eq!(book.total_quantity(), 0);
    assert_eq!(book.cancel_order(3), Err("Order not found".to_string()));
}

#[test]
fn level_emptied_by_a_market_order_does_not_count() {
    let mut book = OrderBook::new();
    assert_eq!(book.submit_limit_order(Side::Buy, 100, 4), Ok(1));
    assert_eq!(book.submit_market_order(Side::Sell, 4), Ok((2, 4)));
    assert_eq!(book.best_bid(), None);
    assert_eq!(book.total_bid_quantity(), 0);
    assert_eq!(
        book.cancel_order(1),
        Err("Order not found in price level queue (maybe already matched)".to_string())
    );
    // Nothing is left for a limit order to trade with.
    assert_eq!(book.submit_limit_order(Side::Sell, 100, 1), Ok(3));
    assert_eq!(book.best_bid(), None);
    assert_eq!(book.best_ask(), Some(100));
}

#[test]
fn best_prices_are_those_of_resting_orders() {
    let mut book = OrderBook::new();
    assert_eq!(book.submit_limit_order(Side::Sell, 100, 5), Ok(1));
    assert_eq!(book.submit_limit_order(Side::Sell, 101, 5), Ok(2));
    assert_eq!(book.submit_market_order(Side::Buy, 5), Ok((3, 5)));
    assert_eq!(book.best_ask(), Some(101));
    assert_eq!(book.submit_limit_order(Side::Buy, 98, 5), Ok(4));
    assert_eq!(book.submit_limit_order(Side::Buy, 99, 5), Ok(5));
    assert_eq!(book.spread(), Some(2));
    assert_eq!(book.cancel_order(5), Ok(5));
    assert_eq!(book.best_bid(), Some(98));
    assert_eq!(book.spread(), Some(3));
    assert_eq!(book.submit_market_order(Side::Sell, 5), Ok((6, 5)));
    assert_eq!(book.best_bid(), None);
    assert_eq!(book.spread(), None);
}

#[test]
fn market_order_trades_as_a_limit_order_without_a_limit() {
    for (side, price) in [(Side::Buy, u64::MAX), (Side::Sell, 1)] {
        for quantity in [3, 5, 8, 12] {
            let (mut first, rx1) = listening_book();
            let (mut second, rx2) = listening_book();
            for book in [&mut first, &mut second] {
                assert_eq!(book.submit_limit_order(Side::Sell, 100, 5), Ok(1));
                assert_eq!(book.submit_limit_order(Side::Sell, 101, 5), Ok(2));
                assert_eq!(book.submit_limit_order(Side::Buy, 98, 5), Ok(3));
                assert_eq!(book.submit_limit_order(Side::Buy, 97, 5), Ok(4));
            }
            assert_eq!(first.submit_limit_order(side, price, quantity), Ok(5));
            let filled = quantity.min(10);
            assert_eq!(second.submit_market_order(side, quantity), Ok((5, filled)));
            assert_eq!(trades(&rx1), trades(&rx2));
            // What is left of the limit order is all that the books differ in.
            if quantity > filled {
                assert_eq!(first.cancel_order(5), Ok(quantity - filled));
            }
            assert_eq!(first.best_bid(), second.best_bid());
            assert_eq!(first.best_ask(), second.best_ask());
            assert_eq!(first.spread(), second.spread());
            assert_eq!(first.depth(Side::Buy), second.depth(Side::Buy));
            assert_eq!(first.depth(Side::Sell), second.depth(Side::Sell));
        }
    }
}

#[test]
fn market_order_on_an_empty_book() {
    let mut book = OrderBook::new();
    assert_eq!(book.submit_market_order(Side::Buy, 10), Ok((1, 0)));
    assert_eq!(book.submit_market_order(Side::Sell, 10), Ok((2, 0)));
}

#[test]
fn cancel_gives_back_what_is_left() {
    let mut book = OrderBook::new();
    assert_eq!(book.submit_limit_order(Side::Buy, 100, 10), Ok(1));
    assert_eq!(book.submit_limit_order(Side::Buy, 100, 20), Ok(2));
    assert_eq!(book.submit_limit_order(Side::Sell, 100, 3), Ok(3));
    assert_eq!(book.cancel_order(1), Ok(7));
    assert_eq!(book.total_bid_quantity(), 20);
    // Only once.
    assert_eq!(book.cancel_order(1), Err("Order not found".to_string()));
    // The other order is still there.
    assert_eq!(book.cancel_order(2), Ok(20));
    // Nothing rests any more.
    assert_eq!(book.best_bid(), None);
    assert_eq!(book.cancel_order(77), Err("Order not found".to_string()));
}

#[test]
fn cancelled_order_does_not_trade() {
    let (mut book, rx) = listening_book();
    assert_eq!(book.submit_limit_order(Side::Sell, 100, 10), Ok(1));
    assert_eq!(book.cancel_order(1), Ok(10));
    assert_eq!(book.submit_limit_order(Side::Buy, 100, 10), Ok(2));
    assert_eq!(trades(&rx), vec![]);
    assert_eq!(book.best_ask(), None);
    assert_eq!(book.total_bid_quantity(), 10);
}

#[test]
fn replay_gives_the_same_trades() {
    let (mut first, rx1) = listening_book();
    let (mut second, rx2) = listening_book();
    for i in 0..40 {
        let side = if i % 3 == 0 { Side::Buy } else { Side::Sell };
        let price = 100 + (i * 7) % 5;
        let quantity = 1 + (i * 11) % 13;
        assert_eq!(
            first.submit_limit_order_at(side, price, quantity, i),
            second.submit_limit_order_at(side, price, quantity, 1_000_000 - i)
        );
        if i % 4 == 0 {
            assert_eq!(first.cancel_order(i), second.cancel_order(i));
        }
        if i % 5 == 0 {
            assert_eq!(
                first.submit_market_order(Side::Buy, quantity),
                second.submit_market_order(Side::Buy, quantity)
            );
        }
    }
    let happened = trades(&rx1);
    assert!(!happened.is_empty());
    assert_eq!(happened, trades(&rx2));
    assert_eq!(first.best_bid(), second.best_bid());
    assert_eq!(first.best_ask(), second.best_ask());
    assert_eq!(first.total_quantity(), second.total_quantity());
}

#[test]
fn depth_can_exceed_a_quantity() {
    let mut book = OrderBook::new();
    assert_eq!(book.submit_limit_order(Side::Buy, 10, u64::MAX), Ok(1));
    assert_eq!(book.submit_limit_order(Side::Buy, 11, 5), Ok(2));
    assert_eq!(book.depth(Side::Buy), u64::MAX as u128 + 5);
    assert_eq!(book.depth(Side::Sell), 0);
}

#[test]
fn bounded_channel_with_room_gets_every_trade() {
    let (tx, rx) = bounded(3);
    let mut book = OrderBook::with_trade_feed(TradeFeed::to(tx));
    assert_eq!(book.submit_limit_order(Side::Sell, 100, 1), Ok(1));
    assert_eq!(book.submit_limit_order(Side::Sell, 101, 1), Ok(2));
    assert_eq!(book.submit_limit_order(Side::Buy, 101, 3), Ok(3));
    assert_eq!(trades(&rx), vec![(3, 1, 100, 1), (3, 2, 101, 1)]);
    assert_eq!(book.submit_market_order(Side::Sell, 1), Ok((4, 1)));
    assert_eq!(trades(&rx), vec![(4, 3, 101, 1)]);
    assert!(book.take_waiting_trades().is_empty());
}

#[test]
fn trades_wait_for_room_in_order() {
    let (tx, rx) = bounded(1);
    let mut book = OrderBook::with_trade_feed(TradeFeed::to(tx));
    for price in 100..104 {
        assert_eq!(book.submit_limit_order(Side::Sell, price, 1), Ok(price - 99));
    }
    assert_eq!(book.submit_market_order(Side::Buy, 3), Ok((5, 3)));
    assert!(!book.deliver_trades());
    assert_eq!(trades(&rx), vec![(5, 1, 100, 1)]);
    // The next trade goes behind those that wait.
    assert_eq!(book.submit_market_order(Side::Buy, 1), Ok((6, 1)));
    assert_eq!(trades(&rx), vec![(5, 2, 101, 1)]);
    assert!(!book.deliver_trades());
    assert_eq!(trades(&rx), vec![(5, 3, 102, 1)]);
    let waiting = book.take_waiting_trades();
    assert_eq!(waiting.len(), 1);
    assert_eq!(waiting[0].taker_order_id, 6);
    assert_eq!(waiting[0].maker_order_id, 4);
    assert!(book.deliver_trades());
    assert_eq!(trades(&rx), vec![]);
}

#[test]
fn nothing_waits_once_nobody_listens() {
    let (tx, rx) = bounded(1);
    let mut book = OrderBook::with_trade_feed(TradeFeed::to(tx));
    assert_eq!(book.submit_limit_order(Side::Sell, 100, 2), Ok(1));
    assert_eq!(book.submit_market_order(Side::Buy, 1), Ok((2, 1)));
    drop(rx);
    assert_eq!(book.submit_market_order(Side::Buy, 1), Ok((3, 1)));
    assert!(book.take_waiting_trades().is_empty());
}

#[test]
fn unbounded_channel_keeps_nothing_waiting() {
    let (mut book, rx) = listening_book();
    assert_eq!(book.submit_limit_order(Side::Sell, 100, 50), Ok(1));
    for i in 0..50 {
        assert_eq!(book.submit_market_order(Side::Buy, 1), Ok((i + 2, 1)));
    }
    assert!(book.take_waiting_trades().is_empty());
    assert_eq!(trades(&rx).len(), 50);
}

#[test]
fn answers_of_a_channel() {
    let fill = Fill { taker_order_id: 1, maker_order_id: 2, price: 3, quantity: 4 };
    let mut waiting = VecDeque::new();
    waiting.push_back(Trade::at(fill, 5));
    waiting.push_back(Trade::at(fill, 6));
    assert!(!answered(&mut waiting, true));
    assert_eq!(waiting.len(), 2);
    assert!(answered(&mut waiting, false));
    assert_eq!(waiting.len(), 1);
    assert_eq!(waiting[0].timestamp, 6);
}

#[test]
fn fills_go_down_the_line() {
    let (mut book, rx) = listening_book();
    assert_eq!(book.submit_limit_order(Side::Sell, 101, 2), Ok(1));
    assert_eq!(book.submit_limit_order(Side::Sell, 100, 3), Ok(2));
    assert_eq!(book.submit_limit_order(Side::Sell, 101, 4), Ok(3));
    assert_eq!(book.submit_limit_order(Side::Sell, 100, 5), Ok(4));
    // In line: 2, 4, 1, 3. All but the last that trades are taken whole.
    assert_eq!(book.submit_limit_order(Side::Buy, 101, 11), Ok(5));
    assert_eq!(
        trades(&rx),
        vec![(5, 2, 100, 3), (5, 4, 100, 5), (5, 1, 101, 2), (5, 3, 101, 1)]
    );
}

#[test]
fn quantity_is_conserved_over_many_commands() {
    let (mut book, rx) = listening_book();
    let mut submitted: u64 = 0;
    let mut limit_traded: u64 = 0;
    let mut market_traded: u64 = 0;
    let mut withdrawn: u64 = 0;
    let mut accepted: u64 = 0;
    for i in 0..90 {
        let side = if i % 2 == 0 { Side::Buy } else { Side::Sell };
        let quantity = (i * 5) % 17;
        match i % 3 {
            0 => {
                if book.submit_market_order(side, quantity / 4).is_ok() {
                    accepted += 1;
                }
                market_traded += trades(&rx).iter().map(|trade| trade.3).sum::<u64>();
            }
            1 => {
                if book.submit_limit_order(side, 100 + (i * 7) % 11, quantity).is_ok() {
                    accepted += 1;
                    submitted += quantity;
                }
                limit_traded += trades(&rx).iter().map(|trade| trade.3).sum::<u64>();
            }
            _ => withdrawn += book.cancel_order(i / 3).unwrap_or(0),
        }
        assert_eq!(
            submitted,
            book.total_quantity() + 2 * limit_traded + market_traded + withdrawn
        );
    }
    assert!(limit_traded > 0 && market_traded > 0 && withdrawn > 0);
    // One identifier per accepted submission.
    assert_eq!(book.generate_order_id(), 1 + accepted);
}

#[test]
fn unheard_trades_are_dropped() {
    let (mut book, rx) = listening_book();
    drop(rx);
    assert_eq!(book.submit_limit_order(Side::Sell, 100, 1), Ok(1));
    assert_eq!(book.submit_limit_order(Side::Buy, 100, 1), Ok(2));
    assert_eq!(book.best_ask(), None);
}

#[test]
fn trades_are_stamped_in_milliseconds() {
    let millis = || match std::time::UNIX_EPOCH.elapsed() {
        Ok(elapsed) => elapsed.as_millis() as u64,
        Err(_) => panic!("the clock stands before the epoch"),
    };
    let (mut book, rx) = listening_book();
    assert_eq!(book.submit_limit_order(Side::Sell, 100, 1), Ok(1));
    let before = millis();
    assert_eq!(book.submit_limit_order(Side::Buy, 100, 1), Ok(2));
    let after = millis();
    match rx.try_recv() {
        Ok(trade) => assert!(before <= trade.timestamp && trade.timestamp <= after),
        Err(_) => panic!("no trade is reported"),
    }
}

#[test]
fn trade_reports_its_fill() {
    let fill = Fill { taker_order_id: 1, maker_order_id: 2, price: 3, quantity: 4 };
    let trade = Trade::at(fill, 5);
    assert_eq!(
        trade,
        Trade { taker_order_id: 1, maker_order_id: 2, price: 3, quantity: 4, timestamp: 5 }
    );
}

#[test]
fn dead_orders_are_cleared_away() {
    let mut level = PriceLevel::new(100);
    let mut cancelled = Order::new(1, Side::Sell, OrderType::Limit, 100, 10);
    assert!(cancelled.cancel());
    level.push_order(cancelled);
    level.push_order(Order::new(2, Side::Sell, OrderType::Limit, 100, 0));
    level.push_order(Order::new(3, Side::Sell, OrderType::Limit, 100, 10));
    assert_eq!(level.get_total_quantity(), 20);

    let (tx, rx) = unbounded();
    let mut feed = TradeFeed::to(tx);
    let mut taker = Order::new(4, Side::Buy, OrderType::Limit, 100, 6);
    level.match_order(&mut taker, &mut feed);
    assert_eq!(trades(&rx), vec![(4, 3, 100, 6)]);
    assert_eq!(taker.get_status(), OrderStatus::Filled);
    assert_eq!(level.get_total_quantity(), 4);
    match level.pop_front() {
        Some(order) => {
            assert_eq!(order.order_id, 3);
            assert_eq!(order.get_remaining_quantity(), 4);
            assert_eq!(order.get_status(), OrderStatus::PartiallyFilled);
        }
        None => panic!("the partly filled order is gone"),
    }
    assert!(level.is_empty());
}

#[test]
fn price_comes_before_time() {
    let (mut book, rx) = listening_book();
    assert_eq!(book.submit_limit_order(Side::Buy, 99, 5), Ok(1));
    assert_eq!(book.submit_limit_order(Side::Buy, 100, 5), Ok(2));
    assert_eq!(book.submit_limit_order(Side::Buy, 100, 5), Ok(3));
    assert_eq!(book.submit_market_order(Side::Sell, 12), Ok((4, 12)));
    assert_eq!(trades(&rx), vec![(4, 2, 100, 5), (4, 3, 100, 5), (4, 1, 99, 2)]);
    assert_eq!(book.cancel_order(1), Ok(3));
}

#[test]
fn submit_then_cancel_leaves_only_the_trade() {
    let (mut book, rx) = listening_book();
    assert_eq!(book.submit_limit_order(Side::Sell, 100, 4), Ok(1));
    assert_eq!(book.submit_limit_order(Side::Buy, 90, 6), Ok(2));
    assert_eq!(book.submit_limit_order(Side::Buy, 100, 9), Ok(3));
    assert_eq!(trades(&rx), vec![(3, 1, 100, 4)]);
    assert_eq!(book.total_bid_quantity(), 11);
    assert_eq!(book.cancel_order(3), Ok(5));
    assert_eq!(book.total_bid_quantity(), 6);
    assert_eq!(book.total_ask_quantity(), 0);
}

#[test]
fn quantity_is_conserved_and_the_book_never_crossed() {
    let (mut book, rx) = listening_book();
    let mut submitted: u64 = 0;
    let mut traded: u64 = 0;
    for i in 0..60 {
        let side = if i % 2 == 0 { Side::Buy } else { Side::Sell };
        let price = 100 + (i * 7) % 11;
        let quantity = 1 + (i * 5) % 17;
        assert_eq!(book.submit_limit_order(side, price, quantity), Ok(i + 1));
        submitted += quantity;
        traded += trades(&rx).iter().map(|trade| trade.3).sum::<u64>();
        // Each trade takes its quantity off both sides.
        assert_eq!(book.total_quantity() + 2 * traded, submitted);
        assert_ne!(book.spread(), Some(0));
        if let (Some(bid), Some(ask)) = (book.best_bid(), book.best_ask()) {
            assert!(bid < ask);
        }
    }
    assert!(traded > 0);
}
