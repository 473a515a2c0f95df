use order_matcher::{Matcher, MatchingResult, Request, RequestType, Side};

fn request(side: Side, price: u64, size: u64, request_type: RequestType) -> Request {
    Request { side, price, size, user_id: 0, request_type }
}

fn ask_ids(m: &Matcher) -> Vec<u64> {
    m.asks().iter().map(|o| o.0.id).collect()
}

fn bid_ids(m: &Matcher) -> Vec<u64> {
    m.bids().iter().map(|o| o.0.id).collect()
}

#[test]
fn books_stay_sorted_by_price_then_id() {
    let mut m = Matcher::new();
    for price in [12u64, 10, 11, 10] {
        assert_eq!(m.try_match(request(Side::Ask, price, 1, RequestType::Limit)), MatchingResult::Queued);
    }
    for price in [7u64, 9, 8, 9] {
        assert_eq!(m.try_match(request(Side::Bid, price, 1, RequestType::Limit)), MatchingResult::Queued);
    }
    assert_eq!(ask_ids(&m), vec![1, 3, 2, 0]);
    let ask_prices: Vec<u64> = m.asks().iter().map(|o| o.0.request.price).collect();
    assert_eq!(ask_prices, vec![10, 10, 11, 12]);
    assert_eq!(bid_ids(&m), vec![5, 7, 6, 4]);
    let bid_prices: Vec<u64> = m.bids().iter().map(|o| o.0.request.price).collect();
    assert_eq!(bid_prices, vec![9, 9, 8, 7]);
}

#[test]
fn equal_price_drains_in_arrival_order() {
    let mut m = Matcher::new();
    m.try_match(request(Side::Bid, 10, 3, RequestType::Limit));
    m.try_match(request(Side::Bid, 10, 4, RequestType::Limit));
    m.try_match(request(Side::Bid, 10, 5, RequestType::Limit));
    let r = m.try_match(request(Side::Ask, 10, 7, RequestType::FillOrKill));
    assert_eq!(r, MatchingResult::Executed(vec![0, 1]));
    assert_eq!(bid_ids(&m), vec![2]);
}

#[test]
fn fill_or_kill_short_of_liquidity_changes_nothing() {
    let mut m = Matcher::new();
    m.try_match(request(Side::Ask, 10, 4, RequestType::Limit));
    m.try_match(request(Side::Ask, 11, 4, RequestType::Limit));
    let r = m.try_match(request(Side::Bid, 10, 5, RequestType::FillOrKill));
    assert_eq!(r, MatchingResult::Cancelled);
    assert_eq!(ask_ids(&m), vec![0, 1]);
    assert_eq!(m.current_request_id(), 2);
    let r = m.try_match(request(Side::Bid, 11, 8, RequestType::FillOrKill));
    assert_eq!(r, MatchingResult::Executed(vec![0, 1]));
}

#[test]
fn fill_or_kill_skips_unacceptable_prices() {
    let mut m = Matcher::new();
    m.try_match(request(Side::Bid, 8, 10, RequestType::Limit));
    let r = m.try_match(request(Side::Ask, 9, 5, RequestType::FillOrKill));
    assert_eq!(r, MatchingResult::Cancelled);
    assert_eq!(bid_ids(&m), vec![0]);
    let r = m.try_match(request(Side::Ask, 8, 10, RequestType::FillOrKill));
    assert_eq!(r, MatchingResult::Executed(vec![0]));
}

#[test]
fn overshooting_order_stays_in_the_book() {
    let mut m = Matcher::new();
    for _ in 0..3 {
        m.try_match(request(Side::Ask, 10, 5, RequestType::Limit));
    }
    // Coverage needs two orders (5 + 5 >= 7); the second overshoots, so only
    // the first is drained and the second keeps its full size.
    let r = m.try_match(request(Side::Bid, 10, 7, RequestType::FillOrKill));
    assert_eq!(r, MatchingResult::Executed(vec![0]));
    assert_eq!(ask_ids(&m), vec![1, 2]);
    assert_eq!(m.asks().index(0).0.request.size, 5);
}

#[test]
fn single_overshooting_order_drains_nothing() {
    let mut m = Matcher::new();
    m.try_match(request(Side::Ask, 10, 9, RequestType::Limit));
    let r = m.try_match(request(Side::Bid, 10, 4, RequestType::FillOrKill));
    assert_eq!(r, MatchingResult::Executed(vec![]));
    assert_eq!(ask_ids(&m), vec![0]);
}

#[test]
fn exact_coverage_drains_every_order() {
    let mut m = Matcher::new();
    for size in [2u64, 3, 5] {
        m.try_match(request(Side::Bid, 20, size, RequestType::Limit));
    }
    let r = m.try_match(request(Side::Ask, 20, 10, RequestType::FillOrKill));
    assert_eq!(r, MatchingResult::Executed(vec![0, 1, 2]));
    assert!(bid_ids(&m).is_empty());
}

#[test]
fn sizes_near_the_limit_saturate() {
    let mut m = Matcher::new();
    m.try_match(request(Side::Ask, 1, u64::MAX, RequestType::Limit));
    m.try_match(request(Side::Ask, 1, u64::MAX, RequestType::Limit));
    let r = m.try_match(request(Side::Bid, 1, u64::MAX, RequestType::FillOrKill));
    assert_eq!(r, MatchingResult::Executed(vec![0]));
    let mut m = Matcher::new();
    m.try_match(request(Side::Ask, 1, 1, RequestType::Limit));
    m.try_match(request(Side::Ask, 1, u64::MAX, RequestType::Limit));
    let r = m.try_match(request(Side::Bid, 1, u64::MAX, RequestType::FillOrKill));
    assert_eq!(r, MatchingResult::Executed(vec![0]));
    assert_eq!(ask_ids(&m), vec![1]);
}

#[test]
fn ids_are_never_reused() {
    let mut m = Matcher::new();
    m.try_match(request(Side::Ask, 10, 5, RequestType::Limit));
    m.try_match(request(Side::Bid, 9, 5, RequestType::Limit));
    let r = m.try_match(request(Side::Bid, 10, 5, RequestType::FillOrKill));
    assert_eq!(r, MatchingResult::Executed(vec![0]));
    m.try_match(request(Side::Ask, 10, 5, RequestType::Limit));
    assert_eq!(ask_ids(&m), vec![2]);
    assert_eq!(bid_ids(&m), vec![1]);
    assert_eq!(m.current_request_id(), 3);
}

#[test]
fn same_limit_twice_rests_twice() {
    let mut m = Matcher::new();
    let req = request(Side::Bid, 10, 5, RequestType::Limit);
    assert_eq!(m.try_match(req), MatchingResult::Queued);
    assert_eq!(m.try_match(req), MatchingResult::Queued);
    assert_eq!(bid_ids(&m), vec![0, 1]);
    assert_eq!(m.bids().len(), 2);
}

#[test]
fn immediate_or_cancel_is_unsupported() {
    let mut m = Matcher::new();
    m.try_match(request(Side::Ask, 10, 5, RequestType::Limit));
    let r = m.try_match(request(Side::Bid, 10, 5, RequestType::ImmediateOrCancel));
    assert_eq!(r, MatchingResult::UnsupportedRequestType);
    assert_eq!(ask_ids(&m), vec![0]);
    assert_eq!(m.current_request_id(), 1);
}

#[test]
fn fill_or_kill_on_empty_books() {
    let mut m = Matcher::new();
    let r = m.try_match(request(Side::Ask, 10, 10, RequestType::FillOrKill));
    assert_eq!(r, MatchingResult::Cancelled);
    assert_eq!(m.asks().len(), 0);
    assert_eq!(m.bids().len(), 0);
}

#[test]
fn fill_or_kill_takes_one_bid() {
    let mut m = Matcher::new();
    assert_eq!(m.try_match(request(Side::Bid, 10, 10, RequestType::Limit)), MatchingResult::Queued);
    let r = m.try_match(request(Side::Ask, 10, 10, RequestType::FillOrKill));
    assert_eq!(r, MatchingResult::Executed(vec![0]));
    assert_eq!(m.bids().len(), 0);
}

#[test]
fn fill_or_kill_takes_two_asks() {
    let mut m = Matcher::new();
    assert_eq!(m.try_match(request(Side::Ask, 10, 5, RequestType::Limit)), MatchingResult::Queued);
    assert_eq!(m.try_match(request(Side::Ask, 10, 5, RequestType::Limit)), MatchingResult::Queued);
    let r = m.try_match(request(Side::Bid, 10, 10, RequestType::FillOrKill));
    assert_eq!(r, MatchingResult::Executed(vec![0, 1]));
    assert_eq!(m.asks().len(), 0);
}

#[test]
fn fill_or_kill_with_too_little() {
    let mut m = Matcher::new();
    m.try_match(request(Side::Ask, 10, 5, RequestType::Limit));
    let r = m.try_match(request(Side::Bid, 10, 10, RequestType::FillOrKill));
    assert_eq!(r, MatchingResult::Cancelled);
    assert_eq!(ask_ids(&m), vec![0]);
    assert_eq!(m.asks().index(0).0.request.size, 5);
}

#[test]
fn limit_bids_do_not_cross() {
    let mut m = Matcher::new();
    for _ in 0..3 {
        assert_eq!(m.try_match(request(Side::Ask, 10, 10, RequestType::Limit)), MatchingResult::Queued);
    }
    assert_eq!(ask_ids(&m), vec![0, 1, 2]);
    assert_eq!(m.try_match(request(Side::Bid, 10, 15, RequestType::Limit)), MatchingResult::Queued);
    assert_eq!(m.try_match(request(Side::Bid, 10, 15, RequestType::Limit)), MatchingResult::Queued);
    assert_eq!(bid_ids(&m), vec![3, 4]);
    assert_eq!(ask_ids(&m), vec![0, 1, 2]);
}

#[test]
fn order_new_keeps_its_fields() {
    let req = request(Side::Ask, 3, 4, RequestType::Limit);
    let o = order_matcher::Order::new(9, req);
    assert_eq!(o.id, 9);
    assert_eq!(o.request, req);
}
