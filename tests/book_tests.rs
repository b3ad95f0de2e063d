//! Order entry, matching, single cancels and the cache.

use orderbook::book::{OrderBook, OrderError, STPMode};
use orderbook::cache::PriceLevelCache;
use orderbook::mass_cancel::MassCancelResult;
use orderbook::matching::{stp_action, StpAction};
use orderbook::types::{OrderId, Side, TimeInForce, UserId};

fn book() -> OrderBook {
    OrderBook::new("TEST".to_string())
}

fn oid(n: u128) -> OrderId {
    OrderId::new(n)
}

#[test]
fn zero_price_or_quantity_is_invalid() {
    let mut b = book();
    assert_eq!(
        b.add_limit_order(oid(1), 0, 10, Side::Buy, TimeInForce::Gtc, None).unwrap_err(),
        OrderError::InvalidInput
    );
    assert_eq!(
        b.add_limit_order(oid(1), 100, 0, Side::Buy, TimeInForce::Gtc, None).unwrap_err(),
        OrderError::InvalidInput
    );
    assert!(b.is_empty());
}

#[test]
fn duplicate_id_is_refused() {
    let mut b = book();
    b.add_limit_order(oid(1), 100, 10, Side::Buy, TimeInForce::Gtc, None).unwrap();
    let err = b.add_limit_order(oid(1), 90, 5, Side::Buy, TimeInForce::Gtc, None).unwrap_err();
    assert_eq!(err, OrderError::DuplicateOrderId);
    assert_eq!(b.best_bid(), Some(100));
}

#[test]
fn add_then_cancel_restores_book() {
    let mut b = book();
    b.add_limit_order(oid(1), 100, 10, Side::Buy, TimeInForce::Gtc, None).unwrap();
    b.add_limit_order(oid(2), 110, 10, Side::Sell, TimeInForce::Gtc, None).unwrap();
    b.add_limit_order(oid(3), 105, 7, Side::Buy, TimeInForce::Gtc, None).unwrap();
    assert_eq!(b.best_bid(), Some(105));
    let o = b.cancel_order(oid(3)).unwrap();
    assert_eq!(o.price, 105);
    assert_eq!(o.remaining_quantity, 7);
    assert_eq!(b.best_bid(), Some(100));
    assert_eq!(b.bids.depth(), 1);
    assert_eq!(b.asks.depth(), 1);
    assert_eq!(b.order_location(oid(3)), None);
    assert_eq!(b.order_location(oid(1)), Some((Side::Buy, 100)));
}

#[test]
fn cancel_unknown_id_is_not_found() {
    let mut b = book();
    assert_eq!(b.cancel_order(oid(9)).unwrap_err(), OrderError::NotFound);
}

#[test]
fn cancel_keeps_fifo_of_survivors() {
    let mut b = book();
    for n in 1..=3 {
        b.add_limit_order(oid(n), 100, 10, Side::Buy, TimeInForce::Gtc, None).unwrap();
    }
    b.cancel_order(oid(2)).unwrap();
    let ids: Vec<u128> = b.bids.levels[0].orders.iter().map(|o| o.id.value).collect();
    assert_eq!(ids, vec![1, 3]);
    let seqs: Vec<u64> = b.bids.levels[0].orders.iter().map(|o| o.arrival_seq).collect();
    assert!(seqs[0] < seqs[1]);
}

#[test]
fn crossing_limit_order_fills_in_price_time_order() {
    let mut b = book();
    b.add_limit_order(oid(1), 101, 5, Side::Sell, TimeInForce::Gtc, None).unwrap();
    b.add_limit_order(oid(2), 100, 5, Side::Sell, TimeInForce::Gtc, None).unwrap();
    b.add_limit_order(oid(3), 100, 5, Side::Sell, TimeInForce::Gtc, None).unwrap();
    let out = b.add_limit_order(oid(4), 101, 12, Side::Buy, TimeInForce::Gtc, None).unwrap();
    let makers: Vec<u128> = out.fills.iter().map(|f| f.maker_id.value).collect();
    assert_eq!(makers, vec![2, 3, 1]);
    let qty: Vec<u64> = out.fills.iter().map(|f| f.quantity).collect();
    assert_eq!(qty, vec![5, 5, 2]);
    assert_eq!(out.remaining, 0);
    assert!(!out.rested);
    assert_eq!(b.best_ask(), Some(101));
    assert_eq!(b.best_bid(), None);
}

#[test]
fn residual_rests_for_gtc_and_is_dropped_for_ioc() {
    let mut b = book();
    b.add_limit_order(oid(1), 100, 5, Side::Sell, TimeInForce::Gtc, None).unwrap();
    let out = b.add_limit_order(oid(2), 100, 8, Side::Buy, TimeInForce::Gtc, None).unwrap();
    assert_eq!(out.remaining, 3);
    assert!(out.rested);
    assert_eq!(b.best_bid(), Some(100));
    assert_eq!(b.best_ask(), None);

    let mut c = book();
    c.add_limit_order(oid(1), 100, 5, Side::Sell, TimeInForce::Gtc, None).unwrap();
    let out = c.add_limit_order(oid(2), 100, 8, Side::Buy, TimeInForce::Ioc, None).unwrap();
    assert_eq!(out.remaining, 3);
    assert!(!out.rested);
    assert!(c.is_empty());
}

#[test]
fn fok_without_enough_liquidity_is_refused() {
    let mut b = book();
    b.add_limit_order(oid(1), 100, 5, Side::Sell, TimeInForce::Gtc, None).unwrap();
    let err = b.add_limit_order(oid(2), 100, 6, Side::Buy, TimeInForce::Fok, None).unwrap_err();
    assert_eq!(err, OrderError::FokUnfillable);
    assert_eq!(b.best_ask(), Some(100));
    assert!(b.fillable(Side::Buy, 100, 5));
    assert!(!b.fillable(Side::Buy, 99, 1));
    let out = b.add_limit_order(oid(3), 100, 5, Side::Buy, TimeInForce::Fok, None).unwrap();
    assert_eq!(out.remaining, 0);
    assert!(b.is_empty());
}

#[test]
fn post_only_that_would_cross_is_refused() {
    let mut b = book();
    b.add_limit_order(oid(1), 100, 5, Side::Sell, TimeInForce::Gtc, None).unwrap();
    let err = b.add_post_only_order(oid(2), 100, 5, Side::Buy, TimeInForce::Gtc, None).unwrap_err();
    assert_eq!(err, OrderError::WouldCross);
    b.add_post_only_order(oid(3), 99, 5, Side::Buy, TimeInForce::Gtc, None).unwrap();
    assert_eq!(b.best_bid(), Some(99));
}

#[test]
fn iceberg_refills_display_and_goes_to_the_back() {
    let mut b = book();
    b.add_iceberg_order(oid(1), 100, 5, 10, Side::Sell, TimeInForce::Gtc, None).unwrap();
    b.add_limit_order(oid(2), 100, 5, Side::Sell, TimeInForce::Gtc, None).unwrap();
    let out = b.add_limit_order(oid(3), 100, 5, Side::Buy, TimeInForce::Ioc, None).unwrap();
    assert_eq!(out.fills.len(), 1);
    assert_eq!(out.fills[0].maker_id, oid(1));
    let level = &b.asks.levels[0];
    let ids: Vec<u128> = level.orders.iter().map(|o| o.id.value).collect();
    assert_eq!(ids, vec![2, 1]);
    assert_eq!(level.orders[1].remaining_quantity, 5);
    assert_eq!(level.orders[1].hidden_quantity, 5);
}

#[test]
fn stp_cancel_taker_stops_matching() {
    let mut b = book();
    b.set_stp_mode(STPMode::CancelTaker);
    let u = UserId::new(1, 1);
    b.add_limit_order_with_user(oid(1), 100, 5, Side::Sell, TimeInForce::Gtc, u).unwrap();
    let out = b.add_limit_order_with_user(oid(2), 100, 5, Side::Buy, TimeInForce::Gtc, u).unwrap();
    assert!(out.taker_cancelled);
    assert!(out.fills.is_empty());
    assert!(!out.rested);
    assert_eq!(b.best_ask(), Some(100));
}

#[test]
fn stp_decisions() {
    let a = Some(UserId::new(0, 1));
    let c = Some(UserId::new(0, 2));
    assert_eq!(stp_action(STPMode::CancelBoth, a, a), StpAction::CancelBoth);
    assert_eq!(stp_action(STPMode::CancelMaker, a, a), StpAction::CancelMaker);
    assert_eq!(stp_action(STPMode::CancelBoth, a, c), StpAction::Allow);
    assert_eq!(stp_action(STPMode::Disabled, a, a), StpAction::Allow);
    assert_eq!(stp_action(STPMode::CancelTaker, None, None), StpAction::Allow);
}

#[test]
fn cache_reports_stored_prices_only_when_valid() {
    let mut c = PriceLevelCache::new();
    assert_eq!(c.get_cached_best_bid(), None);
    c.update_best_prices(Some(100), None);
    assert_eq!(c.get_cached_best_bid(), Some(100));
    assert_eq!(c.get_cached_best_ask(), None);
    assert_eq!(c.best_ask_price, 0);
    c.invalidate();
    assert_eq!(c.get_cached_best_bid(), None);
}

#[test]
fn cache_follows_the_book() {
    let mut b = book();
    b.add_limit_order(oid(1), 100, 5, Side::Buy, TimeInForce::Gtc, None).unwrap();
    b.add_limit_order(oid(2), 120, 5, Side::Sell, TimeInForce::Gtc, None).unwrap();
    assert_eq!(b.cache.get_cached_best_bid(), Some(100));
    assert_eq!(b.cache.get_cached_best_ask(), Some(120));
    b.cancel_all_orders();
    assert_eq!(b.cache.get_cached_best_bid(), None);
    assert!(b.cache.cache_valid);
}

#[test]
fn display_renders_the_count() {
    let mut b = book();
    for n in 1..=12 {
        b.add_limit_order(oid(n), 100 + n, 1, Side::Buy, TimeInForce::Gtc, None).unwrap();
    }
    let r = b.cancel_all_orders();
    assert_eq!(r.to_display_string(), "12 orders cancelled");
    assert_eq!(MassCancelResult::default().to_display_string(), "0 orders cancelled");
}

#[test]
fn cancel_by_user_twice_second_is_empty() {
    let mut b = book();
    let u = UserId::new(3, 3);
    b.add_limit_order_with_user(oid(1), 100, 5, Side::Buy, TimeInForce::Gtc, u).unwrap();
    b.add_limit_order_with_user(oid(2), 200, 5, Side::Sell, TimeInForce::Gtc, u).unwrap();
    assert_eq!(b.cancel_orders_by_user(u).cancelled_count(), 2);
    assert!(b.cancel_orders_by_user(u).is_empty());
    assert!(b.is_empty());
}

#[test]
fn range_on_empty_side_is_empty() {
    let mut b = book();
    b.add_limit_order(oid(1), 100, 5, Side::Buy, TimeInForce::Gtc, None).unwrap();
    assert!(b.cancel_orders_by_price_range(Side::Sell, 1, 1000).is_empty());
    assert_eq!(b.best_bid(), Some(100));
}

#[test]
fn largest_price_rests() {
    let mut b = book();
    b.add_limit_order(oid(1), u128::MAX, u64::MAX, Side::Sell, TimeInForce::Gtc, None).unwrap();
    assert_eq!(b.best_ask(), Some(u128::MAX));
    let r = b.cancel_orders_by_price_range(Side::Sell, u128::MAX, u128::MAX);
    assert_eq!(r.cancelled_count(), 1);
}

#[test]
fn expired_gtd_is_refused() {
    let mut b = book();
    b.set_time(50);
    let err = b.add_limit_order(oid(1), 100, 5, Side::Buy, TimeInForce::Gtd(49), None).unwrap_err();
    assert_eq!(err, OrderError::Expired);
    let err = b.add_post_only_order(oid(1), 100, 5, Side::Buy, TimeInForce::Gtd(10), None).unwrap_err();
    assert_eq!(err, OrderError::Expired);
    let out = b.add_limit_order(oid(1), 100, 5, Side::Buy, TimeInForce::Gtd(50), None).unwrap();
    assert!(out.rested);
    assert_eq!(b.best_bid(), Some(100));
}

#[test]
fn non_crossing_order_rests_whole() {
    let mut b = book();
    b.add_limit_order(oid(1), 110, 5, Side::Sell, TimeInForce::Gtc, None).unwrap();
    let out = b.add_limit_order(oid(2), 100, 7, Side::Buy, TimeInForce::Gtc, None).unwrap();
    assert!(out.fills.is_empty());
    assert_eq!(out.remaining, 7);
    assert!(out.rested);
    assert!(!out.taker_cancelled);
    assert_eq!(b.bids.levels[0].orders[0].remaining_quantity, 7);
}

#[test]
fn partial_fill_reduces_the_head_in_place() {
    let mut b = book();
    b.add_limit_order(oid(1), 100, 10, Side::Sell, TimeInForce::Gtc, None).unwrap();
    b.add_limit_order(oid(2), 100, 4, Side::Sell, TimeInForce::Gtc, None).unwrap();
    let out = b.add_limit_order(oid(3), 100, 3, Side::Buy, TimeInForce::Gtc, None).unwrap();
    assert_eq!(out.fills.len(), 1);
    assert_eq!(out.fills[0].maker_id, oid(1));
    let ids: Vec<u128> = b.asks.levels[0].orders.iter().map(|o| o.id.value).collect();
    assert_eq!(ids, vec![1, 2]);
    assert_eq!(b.asks.levels[0].orders[0].remaining_quantity, 7);
}

#[test]
fn inverted_range_leaves_cache_alone() {
    let mut b = book();
    b.add_limit_order(oid(1), 100, 5, Side::Buy, TimeInForce::Gtc, None).unwrap();
    let before = (b.cache.best_bid_price, b.cache.best_ask_price, b.cache.cache_valid);
    assert!(b.cancel_orders_by_price_range(Side::Buy, 101, 100).is_empty());
    assert_eq!((b.cache.best_bid_price, b.cache.best_ask_price, b.cache.cache_valid), before);
}
