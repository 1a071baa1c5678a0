use matching_engine::orderbook::BidOrAsk;
use matching_engine::orderbook::Limit;
use matching_engine::orderbook::Order;
use matching_engine::orderbook::OrderBook;
use matching_engine::orderbook::Price;
use matching_engine::orderbook::PRICE_SCALAR;

#[test]
fn limit_order_single_fill() {
    let price = Price::new(10_000, 0);
    let mut limit = Limit::new(price);
    assert_eq!(limit.total_volume(), None);

    let buy_limit_order = Order::new(BidOrAsk::Bid, 100);
    limit.add_order(buy_limit_order);

    assert_eq!(limit.total_volume(), Some(100));

    let mut market_sell_order = Order::new(BidOrAsk::Ask, 99);
    limit.fill_order(&mut market_sell_order);

    assert_eq!(market_sell_order.is_filled(), true);
    assert!(limit.orders.len() > 0);
    assert_eq!(limit.orders.get(0).unwrap().size, 1);
}

#[test]
fn limit_order_multi_fill() {
    let price = Price::new(10_000, 0);
    let mut limit = Limit::new(price);
    assert_eq!(limit.total_volume(), None);

    let buy_limit_order_a = Order::new(BidOrAsk::Bid, 100);
    let buy_limit_order_b = Order::new(BidOrAsk::Bid, 100);
    limit.add_order(buy_limit_order_a);
    limit.add_order(buy_limit_order_b);

    assert_eq!(limit.total_volume(), Some(200));

    let mut market_sell_order = Order::new(BidOrAsk::Ask, 199);
    limit.fill_order(&mut market_sell_order);

    assert_eq!(market_sell_order.is_filled(), true);
    assert!(limit.orders.len() > 0);
    assert_eq!(limit.orders.get(0).unwrap().is_filled(), true);
    assert_eq!(limit.orders.get(1).unwrap().is_filled(), false);
    assert_eq!(limit.orders.get(1).unwrap().size, 1);
}

#[test]
fn price_exact_roundtrip() {
    let value: f64 = 10_000.0;
    let integral = value as u64;
    let fractional = ((value % 1.0) * PRICE_SCALAR as f64) as u64;
    assert_eq!(integral, 10_000);
    assert_eq!(fractional, 0);

    let price = Price::new(integral, fractional);
    assert_eq!(price.get_price(), 10_000 * PRICE_SCALAR as u128);

    let reconstructed =
        price.integral as f64 + price.fractional as f64 / price.scalar as f64;
    assert_eq!(reconstructed, 10_000.0);
}

#[test]
fn price_fractional_part_kept_exactly() {
    let value: f64 = 123.25;
    let integral = value as u64;
    let fractional = ((value % 1.0) * PRICE_SCALAR as f64) as u64;
    assert_eq!(integral, 123);
    assert_eq!(fractional, 25_000);

    let price = Price::new(integral, fractional);
    assert_eq!(price.get_price(), 123 * PRICE_SCALAR as u128 + 25_000);
}

#[test]
fn volume_is_sum_of_added_sizes() {
    let mut limit = Limit::new(Price::new(42, 0));
    assert_eq!(limit.total_volume(), None);

    limit.add_order(Order::new(BidOrAsk::Bid, 5));
    limit.add_order(Order::new(BidOrAsk::Bid, 0));
    limit.add_order(Order::new(BidOrAsk::Bid, 7));

    assert_eq!(limit.total_volume(), Some(12));
}

#[test]
fn empty_level_distinguishable_from_zero_volume() {
    let mut limit = Limit::new(Price::new(42, 0));
    assert_eq!(limit.total_volume(), None);

    limit.add_order(Order::new(BidOrAsk::Bid, 0));
    assert_eq!(limit.total_volume(), Some(0));
}

#[test]
fn fill_exhausts_level_when_incoming_is_larger() {
    let mut limit = Limit::new(Price::new(10_000, 0));
    limit.add_order(Order::new(BidOrAsk::Bid, 10));
    limit.add_order(Order::new(BidOrAsk::Bid, 20));

    let mut incoming = Order::new(BidOrAsk::Ask, 50);
    limit.fill_order(&mut incoming);

    assert!(!incoming.is_filled());
    assert_eq!(incoming.size, 20);
    assert!(limit.orders.iter().all(|resting| resting.size == 0));
}

#[test]
fn fill_respects_arrival_order() {
    let mut limit = Limit::new(Price::new(10_000, 0));
    limit.add_order(Order::new(BidOrAsk::Bid, 10));
    limit.add_order(Order::new(BidOrAsk::Bid, 20));
    limit.add_order(Order::new(BidOrAsk::Bid, 30));

    let mut incoming = Order::new(BidOrAsk::Ask, 15);
    limit.fill_order(&mut incoming);

    assert!(incoming.is_filled());
    assert_eq!(limit.orders[0].size, 0);
    assert_eq!(limit.orders[1].size, 15);
    assert_eq!(limit.orders[2].size, 30);
}

#[test]
fn book_routes_orders_by_side() {
    let mut book = OrderBook::new();
    let price = Price::new(4, 40_000);

    book.add_order(price, Order::new(BidOrAsk::Bid, 55));
    book.add_order(price, Order::new(BidOrAsk::Bid, 24));
    book.add_order(price, Order::new(BidOrAsk::Ask, 7));

    assert_eq!(book.bids.len(), 1);
    assert_eq!(book.bids[0].orders.len(), 2);
    assert_eq!(book.bids[0].orders[0].size, 55);
    assert_eq!(book.bids[0].orders[1].size, 24);
    assert_eq!(book.asks.len(), 1);
    assert_eq!(book.asks[0].orders.len(), 1);
    assert_eq!(book.asks[0].orders[0].size, 7);
}

#[test]
fn book_keeps_one_level_per_price() {
    let mut book = OrderBook::new();

    book.add_order(Price::new(10, 0), Order::new(BidOrAsk::Bid, 1));
    book.add_order(Price::new(11, 0), Order::new(BidOrAsk::Bid, 2));
    book.add_order(Price::new(10, 0), Order::new(BidOrAsk::Bid, 3));

    assert_eq!(book.bids.len(), 2);
    assert_eq!(book.bids[0].price, Price::new(10, 0));
    assert_eq!(book.bids[0].orders.len(), 2);
    assert_eq!(book.bids[1].price, Price::new(11, 0));
    assert_eq!(book.bids[1].orders.len(), 1);
    assert_eq!(book.asks.len(), 0);
}
