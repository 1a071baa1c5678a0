use matching_engine::engine::MatchingEngine;
use matching_engine::engine::PlaceLimitOrderParams;
use matching_engine::engine::TradingPair;
use matching_engine::orderbook::BidOrAsk;
use matching_engine::orderbook::Order;
use matching_engine::orderbook::Price;

fn btc_usd() -> TradingPair {
    TradingPair::new("BTC".to_string(), "USD".to_string())
}

#[test]
fn pair_display_form_joins_with_underscore() {
    assert_eq!(btc_usd().to_string(), "BTC_USD");
}

#[test]
fn place_limit_order_without_market_fails() {
    let mut engine = MatchingEngine::new();
    let params =
        PlaceLimitOrderParams::new(btc_usd(), Price::new(10_000, 0), Order::new(BidOrAsk::Bid, 5));

    let placed = engine.place_limit_order(params);

    assert_eq!(
        placed,
        Err("the orderbook for the given trading pair (BTC_USD) does not exist".to_string())
    );
    assert_eq!(engine.orderbooks.len(), 0);
}

#[test]
fn add_new_market_is_idempotent() {
    let mut engine = MatchingEngine::new();

    assert!(engine.add_new_market(btc_usd()));
    assert!(!engine.add_new_market(btc_usd()));

    assert_eq!(engine.orderbooks.len(), 1);
    assert_eq!(engine.orderbooks[0].0, btc_usd());
}

#[test]
fn place_limit_order_rests_on_the_right_book() {
    let mut engine = MatchingEngine::new();
    engine.add_new_market(btc_usd());
    engine.add_new_market(TradingPair::new("ETH".to_string(), "USD".to_string()));

    let params =
        PlaceLimitOrderParams::new(btc_usd(), Price::new(10_000, 0), Order::new(BidOrAsk::Bid, 5));
    let placed = engine.place_limit_order(params);

    assert_eq!(placed, Ok(()));
    assert_eq!(engine.orderbooks.len(), 2);
    let book = &engine.orderbooks[0].1;
    assert_eq!(book.bids.len(), 1);
    assert_eq!(book.bids[0].price, Price::new(10_000, 0));
    assert_eq!(book.bids[0].orders.len(), 1);
    assert_eq!(book.bids[0].orders[0].size, 5);
    let other = &engine.orderbooks[1].1;
    assert_eq!(other.bids.len(), 0);
    assert_eq!(other.asks.len(), 0);
}
