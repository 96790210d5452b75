use matching_engine::{Limit, Order, OrderBook, OrderType, Price};

#[test]
fn limit_order_fill() {
    let price = Price::new(10000, 0);
    let mut limit = Limit::new(price);

    let buy_limit_order = Order::new(100, OrderType::Bid);
    limit.add_order(buy_limit_order);

    let mut sell_market_order = Order::new(99, OrderType::Ask);
    limit.fill_order(&mut sell_market_order);

    assert_eq!(sell_market_order.is_filled(), true);
    assert_eq!(limit.get_size_by_order_id(0), Some(1));
}

#[test]
fn limit_order_multi_fill() {
    let price = Price::new(10000, 0);
    let mut limit = Limit::new(price);
    let buy_limit_order_a = Order::new(100, OrderType::Bid);
    let buy_limit_order_b = Order::new(100, OrderType::Bid);
    limit.add_order(buy_limit_order_a);
    limit.add_order(buy_limit_order_b);

    let mut market_sell_order = Order::new(199, OrderType::Ask);
    limit.fill_order(&mut market_sell_order);

    assert_eq!(market_sell_order.is_filled(), true);
    assert_eq!(limit.is_filled_by_order_id(0), Some(true));
    assert_eq!(limit.is_filled_by_order_id(1), Some(false));
    assert_eq!(limit.get_size_by_order_id(1), Some(1));
}

#[test]
fn limit_total_volume() {
    let price = Price::new(10000, 0);
    let mut limit = Limit::new(price);
    let buy_limit_order_a = Order::new(100, OrderType::Bid);
    let buy_limit_order_b = Order::new(100, OrderType::Bid);

    limit.add_order(buy_limit_order_a);
    limit.add_order(buy_limit_order_b);

    assert_eq!(limit.volume(), 200)
}

#[test]
fn fill_market_order_ask() {
    let mut order_book = OrderBook::new();
    order_book.add_order(Price::new(10000, 0), Order::new(100, OrderType::Ask));
    order_book.add_order(Price::new(100, 0), Order::new(100, OrderType::Ask));
    order_book.add_order(Price::new(500, 0), Order::new(100, OrderType::Ask));
    order_book.add_order(Price::new(200, 0), Order::new(100, OrderType::Ask));

    let mut market_order = Order::new(300, OrderType::Bid);
    order_book.fill_market_order(&mut market_order);

    assert_eq!(market_order.is_filled(), true);
}

#[test]
fn market_bid_consumes_lowest_asks_in_order() {
    let mut book = OrderBook::new();
    book.add_order(Price::new(10000, 0), Order::new(100, OrderType::Ask));
    book.add_order(Price::new(100, 0), Order::new(100, OrderType::Ask));
    book.add_order(Price::new(500, 0), Order::new(100, OrderType::Ask));
    book.add_order(Price::new(200, 0), Order::new(100, OrderType::Ask));

    let mut incoming = Order::new(300, OrderType::Bid);
    book.fill_market_order(&mut incoming);

    assert!(incoming.is_filled());
    let asks = book.ask_limits();
    let prices: Vec<u64> = asks.iter().map(|l| l.price().integer()).collect();
    assert_eq!(prices, vec![100, 200, 500, 10000]);
    let volumes: Vec<u128> = asks.iter().map(|l| l.volume()).collect();
    assert_eq!(volumes, vec![0, 0, 0, 100]);
    assert!(book.bid_limits().is_empty());
}

#[test]
fn market_ask_consumes_highest_bids_first() {
    let mut book = OrderBook::new();
    book.add_order(Price::new(100, 0), Order::new(100, OrderType::Bid));
    book.add_order(Price::new(300, 0), Order::new(100, OrderType::Bid));
    book.add_order(Price::new(200, 50000), Order::new(100, OrderType::Bid));

    let mut incoming = Order::new(150, OrderType::Ask);
    book.fill_market_order(&mut incoming);

    assert!(incoming.is_filled());
    let bids = book.bid_limits();
    let prices: Vec<(u64, u64)> = bids.iter().map(|l| (l.price().integer(), l.price().fraction())).collect();
    assert_eq!(prices, vec![(300, 0), (200, 50000), (100, 0)]);
    let volumes: Vec<u128> = bids.iter().map(|l| l.volume()).collect();
    assert_eq!(volumes, vec![0, 50, 100]);
}

#[test]
fn single_resting_order_exact_fill() {
    let mut limit = Limit::new(Price::new(5, 0));
    limit.add_order(Order::new(50, OrderType::Bid));
    let mut incoming = Order::new(50, OrderType::Ask);
    limit.fill_order(&mut incoming);
    assert!(incoming.is_filled());
    assert_eq!(incoming.size(), 0);
    assert_eq!(limit.get_size_by_order_id(0), Some(0));
    assert_eq!(limit.is_filled_by_order_id(0), Some(true));
}

#[test]
fn zero_incoming_changes_nothing() {
    let mut limit = Limit::new(Price::new(5, 0));
    limit.add_order(Order::new(40, OrderType::Bid));
    let mut incoming = Order::new(0, OrderType::Ask);
    limit.fill_order(&mut incoming);
    assert_eq!(limit.get_size_by_order_id(0), Some(40));
    assert_eq!(incoming.size(), 0);
}

#[test]
fn volume_independent_of_arrival_order() {
    let mut a = Limit::new(Price::new(7, 0));
    a.add_order(Order::new(30, OrderType::Ask));
    a.add_order(Order::new(70, OrderType::Ask));
    let mut b = Limit::new(Price::new(7, 0));
    b.add_order(Order::new(70, OrderType::Ask));
    b.add_order(Order::new(30, OrderType::Ask));
    assert_eq!(a.volume(), 100);
    assert_eq!(a.volume(), b.volume());
}

#[test]
fn volume_of_empty_limit_is_zero() {
    let limit = Limit::new(Price::new(1, 0));
    assert_eq!(limit.volume(), 0);
    assert_eq!(limit.len(), 0);
}

#[test]
fn volume_of_largest_sizes_does_not_overflow() {
    let mut limit = Limit::new(Price::new(1, 0));
    limit.add_order(Order::new(u64::MAX, OrderType::Bid));
    limit.add_order(Order::new(u64::MAX, OrderType::Bid));
    assert_eq!(limit.volume(), 2 * (u64::MAX as u128));
}

#[test]
fn order_lookup_out_of_range_is_none() {
    let mut limit = Limit::new(Price::new(1, 0));
    limit.add_order(Order::new(10, OrderType::Bid));
    assert_eq!(limit.get_size_by_order_id(1), None);
    assert_eq!(limit.is_filled_by_order_id(5), None);
}

#[test]
fn price_built_twice_is_equal() {
    let a = Price::new(1, 23000);
    let b = Price::new(1, 23000);
    assert_eq!(a, b);
    assert_eq!(a.cmp(&b), std::cmp::Ordering::Equal);
    assert_eq!(a.integer(), 1);
    assert_eq!(a.fraction(), 23000);
}

#[test]
fn price_orders_by_whole_part_then_fraction() {
    let low = Price::new(1, 99999);
    let high = Price::new(2, 0);
    let higher = Price::new(2, 1);
    assert_eq!(low.cmp(&high), std::cmp::Ordering::Less);
    assert_eq!(high.cmp(&low), std::cmp::Ordering::Greater);
    assert_eq!(high.cmp(&higher), std::cmp::Ordering::Less);
    assert_eq!(higher.cmp(&high), std::cmp::Ordering::Greater);
}

#[test]
fn incoming_beyond_liquidity_stays_unfilled() {
    let mut book = OrderBook::new();
    book.add_order(Price::new(100, 0), Order::new(100, OrderType::Ask));
    book.add_order(Price::new(101, 0), Order::new(50, OrderType::Ask));
    let mut incoming = Order::new(200, OrderType::Bid);
    book.fill_market_order(&mut incoming);
    assert_eq!(incoming.is_filled(), false);
    assert_eq!(incoming.size(), 50);
    let volumes: Vec<u128> = book.ask_limits().iter().map(|l| l.volume()).collect();
    assert_eq!(volumes, vec![0, 0]);
}

#[test]
fn market_order_against_empty_side_is_untouched() {
    let mut book = OrderBook::new();
    book.add_order(Price::new(100, 0), Order::new(100, OrderType::Bid));
    let mut incoming = Order::new(10, OrderType::Bid);
    book.fill_market_order(&mut incoming);
    assert_eq!(incoming.size(), 10);
    assert_eq!(book.bid_limits()[0].volume(), 100);
}

#[test]
fn orders_at_same_price_share_a_limit() {
    let mut book = OrderBook::new();
    book.add_order(Price::new(100, 0), Order::new(10, OrderType::Ask));
    book.add_order(Price::new(100, 0), Order::new(20, OrderType::Ask));
    book.add_order(Price::new(100, 0), Order::new(30, OrderType::Bid));
    assert_eq!(book.ask_limits().len(), 1);
    assert_eq!(book.ask_limits()[0].len(), 2);
    assert_eq!(book.ask_limits()[0].get_size_by_order_id(1), Some(20));
    assert_eq!(book.bid_limits().len(), 1);
    assert_eq!(book.bid_limits()[0].volume(), 30);
}

#[test]
fn order_keeps_its_side() {
    let o = Order::new(5, OrderType::Ask);
    assert_eq!(o.order_type(), OrderType::Ask);
    assert_eq!(o.size(), 5);
    assert!(!o.is_filled());
}
