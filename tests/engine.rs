use exchange_engine::exchange::Exchange;
use exchange_engine::types::{OrderStatus, Request, Side, Update};

fn s(x: &str) -> String {
    x.to_string()
}

fn funded(users: &[(&str, i64)]) -> Exchange {
    let mut ex = Exchange::new();
    for (name, amount) in users {
        ex.create_user(s(name));
        ex.deposit(s(name), *amount);
    }
    ex
}

fn order_update(user: &str, id: usize, status: OrderStatus) -> Update {
    Update::Order { user_name: s(user), order_id: id, status }
}

#[test]
fn full_match_settles_both_sides() {
    let mut ex = funded(&[("A", 1000), ("B", 1000)]);
    let a = ex.place_order(s("A"), 10, 50, Side::Bid);
    assert_eq!(a, vec![order_update("A", 0, OrderStatus::Pending), order_update("A", 0, OrderStatus::Pending)]);
    assert_eq!(ex.balance(&s("A")), 500);
    let b = ex.place_order(s("B"), 10, 50, Side::Ask);
    assert_eq!(
        b,
        vec![
            order_update("B", 1, OrderStatus::Pending),
            Update::Trade { price: 10, size: 50 },
            order_update("A", 0, OrderStatus::Filled),
            order_update("B", 1, OrderStatus::Filled),
        ]
    );
    assert_eq!(ex.orders[0].status, OrderStatus::Filled);
    assert_eq!(ex.orders[1].status, OrderStatus::Filled);
    assert_eq!(ex.orders[0].size, 0);
    assert_eq!(ex.orders[1].size, 0);
    assert_eq!(ex.balance(&s("A")), 500);
    assert_eq!(ex.balance(&s("B")), 1500);
    assert!(ex.bids.is_empty());
    assert!(ex.asks.is_empty());
}

#[test]
fn unmatched_bid_rests_with_reservation() {
    let mut ex = funded(&[("A", 1000)]);
    let u = ex.place_order(s("A"), 12, 10, Side::Bid);
    assert_eq!(u, vec![order_update("A", 0, OrderStatus::Pending), order_update("A", 0, OrderStatus::Pending)]);
    assert_eq!(ex.orders[0].status, OrderStatus::Pending);
    assert_eq!(ex.orders[0].size, 10);
    assert_eq!(ex.bids, vec![0]);
    assert!(ex.asks.is_empty());
    assert_eq!(ex.balance(&s("A")), 880);
}

#[test]
fn underfunded_order_fails() {
    let mut ex = funded(&[("A", 500)]);
    let u = ex.place_order(s("A"), 10, 1000, Side::Bid);
    assert_eq!(u, vec![order_update("A", 0, OrderStatus::Failed)]);
    assert_eq!(ex.orders[0].status, OrderStatus::Failed);
    assert_eq!(ex.balance(&s("A")), 500);
    assert!(ex.bids.is_empty());
}

#[test]
fn cancel_refunds_resting_bid() {
    let mut ex = funded(&[("A", 1000)]);
    ex.place_order(s("A"), 10, 20, Side::Bid);
    assert_eq!(ex.balance(&s("A")), 800);
    let u = ex.cancel_order(0);
    assert_eq!(u, vec![order_update("A", 0, OrderStatus::Cancelled)]);
    assert_eq!(ex.orders[0].status, OrderStatus::Cancelled);
    assert_eq!(ex.balance(&s("A")), 1000);
    assert!(ex.bids.is_empty());
}

#[test]
fn cancel_of_unknown_or_closed_order_changes_nothing() {
    let mut ex = funded(&[("A", 1000)]);
    assert!(ex.cancel_order(7).is_empty());
    ex.place_order(s("A"), 10, 20, Side::Bid);
    ex.cancel_order(0);
    let u = ex.cancel_order(0);
    assert!(u.is_empty());
    assert_eq!(ex.orders[0].status, OrderStatus::Cancelled);
    assert_eq!(ex.balance(&s("A")), 1000);
}

#[test]
fn filled_order_gets_no_more_updates() {
    let mut ex = funded(&[("A", 1000), ("B", 1000)]);
    ex.place_order(s("A"), 10, 5, Side::Bid);
    ex.place_order(s("B"), 10, 5, Side::Ask);
    assert_eq!(ex.orders[0].status, OrderStatus::Filled);
    assert!(ex.cancel_order(0).is_empty());
    let u = ex.place_order(s("B"), 9, 5, Side::Ask);
    assert!(u.iter().all(|x| !matches!(x, Update::Order { order_id: 0, .. })));
    assert_eq!(ex.orders[0].size, 0);
}

#[test]
fn trade_at_resting_price_refunds_buyer() {
    let mut ex = funded(&[("A", 1000), ("B", 1000)]);
    ex.place_order(s("B"), 10, 5, Side::Ask);
    assert_eq!(ex.balance(&s("B")), 950);
    let u = ex.place_order(s("A"), 12, 5, Side::Bid);
    assert_eq!(u[1], Update::Trade { price: 10, size: 5 });
    assert_eq!(ex.balance(&s("A")), 950);
    assert_eq!(ex.balance(&s("B")), 1050);
}

#[test]
fn partial_fill_leaves_rest_on_book() {
    let mut ex = funded(&[("A", 1000), ("B", 1000)]);
    ex.place_order(s("A"), 10, 5, Side::Bid);
    let u = ex.place_order(s("B"), 10, 3, Side::Ask);
    assert_eq!(
        u,
        vec![
            order_update("B", 1, OrderStatus::Pending),
            Update::Trade { price: 10, size: 3 },
            order_update("B", 1, OrderStatus::Filled),
        ]
    );
    assert_eq!(ex.orders[0].status, OrderStatus::Pending);
    assert_eq!(ex.orders[0].size, 2);
    assert_eq!(ex.bids, vec![0]);
    assert_eq!(ex.balance(&s("A")), 950);
    assert_eq!(ex.balance(&s("B")), 1030);
    assert_eq!(ex.balance(&s("A")) + ex.balance(&s("B")) + 10 * 2, 2000);
}

#[test]
fn incoming_order_sweeps_several_levels() {
    let mut ex = funded(&[("A", 1000), ("B", 1000)]);
    ex.place_order(s("B"), 11, 2, Side::Ask);
    ex.place_order(s("B"), 10, 2, Side::Ask);
    let u = ex.place_order(s("A"), 12, 5, Side::Bid);
    assert_eq!(
        u,
        vec![
            order_update("A", 2, OrderStatus::Pending),
            Update::Trade { price: 10, size: 2 },
            order_update("B", 1, OrderStatus::Filled),
            Update::Trade { price: 11, size: 2 },
            order_update("B", 0, OrderStatus::Filled),
            order_update("A", 2, OrderStatus::Pending),
        ]
    );
    assert_eq!(ex.orders[2].size, 1);
    assert_eq!(ex.bids, vec![2]);
    assert!(ex.asks.is_empty());
    // A: 1000 - 60 reserved + (12-10)*2 + (12-11)*2 = 946, with 12 still reserved.
    assert_eq!(ex.balance(&s("A")), 946);
    // B: 1000 - 22 - 20 + (10+10)*2 + (11+11)*2 = 1042.
    assert_eq!(ex.balance(&s("B")), 1042);
    assert_eq!(ex.balance(&s("A")) + ex.balance(&s("B")) + 12, 2000);
}

#[test]
fn book_keeps_price_then_arrival_order() {
    let mut ex = funded(&[("A", 10000)]);
    ex.place_order(s("A"), 10, 1, Side::Bid);
    ex.place_order(s("A"), 12, 1, Side::Bid);
    ex.place_order(s("A"), 10, 1, Side::Bid);
    ex.place_order(s("A"), 11, 1, Side::Bid);
    assert_eq!(ex.bids, vec![1, 3, 0, 2]);
    ex.place_order(s("A"), 20, 1, Side::Ask);
    ex.place_order(s("A"), 15, 1, Side::Ask);
    ex.place_order(s("A"), 20, 1, Side::Ask);
    assert_eq!(ex.asks, vec![5, 4, 6]);
}

#[test]
fn equal_price_fills_in_arrival_order() {
    let mut ex = funded(&[("A", 1000), ("B", 1000), ("C", 1000)]);
    ex.place_order(s("A"), 10, 1, Side::Bid);
    ex.place_order(s("B"), 10, 1, Side::Bid);
    let u = ex.place_order(s("C"), 10, 1, Side::Ask);
    assert_eq!(u[2], order_update("A", 0, OrderStatus::Filled));
    assert_eq!(ex.bids, vec![1]);
}

#[test]
fn zero_price_or_size_is_refused() {
    let mut ex = funded(&[("A", 1000)]);
    assert_eq!(ex.place_order(s("A"), 0, 5, Side::Bid), vec![order_update("A", 0, OrderStatus::Failed)]);
    assert_eq!(ex.place_order(s("A"), 5, 0, Side::Ask), vec![order_update("A", 1, OrderStatus::Failed)]);
    assert_eq!(ex.balance(&s("A")), 1000);
    assert!(ex.bids.is_empty() && ex.asks.is_empty());
    assert_eq!(ex.orders.len(), 2);
}

#[test]
fn notional_beyond_u64_fails() {
    let mut ex = funded(&[("A", 1000)]);
    let u = ex.place_order(s("A"), u64::MAX, 2, Side::Bid);
    assert_eq!(u, vec![order_update("A", 0, OrderStatus::Failed)]);
    assert_eq!(ex.balance(&s("A")), 1000);
}

#[test]
fn create_user_twice_reports_failure_and_keeps_balance() {
    let mut ex = Exchange::new();
    assert_eq!(ex.create_user(s("A")), vec![Update::CreateUser { user_name: s("A"), success: true }]);
    ex.deposit(s("A"), 40);
    assert_eq!(ex.create_user(s("A")), vec![Update::CreateUser { user_name: s("A"), success: false }]);
    assert_eq!(ex.balance(&s("A")), 40);
}

#[test]
fn negative_deposit_is_refused() {
    let mut ex = Exchange::new();
    let u = ex.deposit(s("A"), -5);
    assert_eq!(u, vec![Update::Deposit { user_name: s("A"), amount: -5, success: false }]);
    assert_eq!(ex.balance(&s("A")), 0);
    assert_eq!(ex.total_deposited, 0);
    assert!(ex.accounts.is_empty());
}

#[test]
fn deposit_opens_account_lazily() {
    let mut ex = Exchange::new();
    let u = ex.deposit(s("Z"), 0);
    assert_eq!(u, vec![Update::Deposit { user_name: s("Z"), amount: 0, success: true }]);
    assert_eq!(ex.accounts.len(), 1);
    ex.deposit(s("Z"), 7);
    ex.deposit(s("Z"), 8);
    assert_eq!(ex.balance(&s("Z")), 15);
    assert_eq!(ex.total_deposited, 15);
}

#[test]
fn deposits_beyond_u64_are_refused() {
    let mut ex = Exchange::new();
    ex.deposit(s("A"), i64::MAX);
    ex.deposit(s("B"), i64::MAX);
    let u = ex.deposit(s("C"), 2);
    assert_eq!(u, vec![Update::Deposit { user_name: s("C"), amount: 2, success: false }]);
    assert_eq!(ex.balance(&s("C")), 0);
}

#[test]
fn order_on_unknown_user_fails_and_opens_account() {
    let mut ex = Exchange::new();
    let u = ex.place_order(s("N"), 1, 1, Side::Ask);
    assert_eq!(u, vec![order_update("N", 0, OrderStatus::Failed)]);
    assert_eq!(ex.balance(&s("N")), 0);
}

#[test]
fn handle_dispatches_requests() {
    let mut ex = Exchange::new();
    ex.handle(Request::CreateUser { name: s("A") });
    ex.handle(Request::Deposit { user: s("A"), amount: 100 });
    let u = ex.handle(Request::PlaceOrder { user_name: s("A"), price: 5, size: 4, side: Side::Ask });
    assert_eq!(u.len(), 2);
    assert_eq!(ex.balance(&s("A")), 80);
    let c = ex.handle(Request::CancelOrder { order_id: 0 });
    assert_eq!(c, vec![order_update("A", 0, OrderStatus::Cancelled)]);
    assert_eq!(ex.balance(&s("A")), 100);
}

#[test]
fn funds_are_conserved_over_a_session() {
    let mut ex = funded(&[("A", 300), ("B", 400), ("C", 500)]);
    ex.place_order(s("A"), 7, 10, Side::Bid);
    ex.place_order(s("B"), 6, 4, Side::Ask);
    ex.place_order(s("C"), 9, 20, Side::Bid);
    ex.place_order(s("B"), 8, 30, Side::Ask);
    ex.cancel_order(2);
    let mut reserved: u64 = 0;
    for o in &ex.orders {
        if o.status == OrderStatus::Pending {
            reserved += o.price * o.size;
        }
    }
    let free = ex.balance(&s("A")) + ex.balance(&s("B")) + ex.balance(&s("C"));
    assert_eq!(free + reserved, 1200);
    assert_eq!(ex.total_deposited, 1200);
}

#[test]
fn precedes_follows_side_priority() {
    let mut ex = funded(&[("A", 1000)]);
    ex.place_order(s("A"), 10, 1, Side::Bid);
    ex.place_order(s("A"), 11, 1, Side::Bid);
    assert!(ex.orders[1].precedes(&ex.orders[0]));
    assert!(!ex.orders[0].precedes(&ex.orders[1]));
    assert!(ex.orders[0] != ex.orders[1]);
    assert!(ex.orders[0] == ex.orders[0].duplicate());
}

#[test]
fn order_lookup_and_best() {
    let mut ex = funded(&[("A", 1000)]);
    assert!(ex.order(0).is_none());
    ex.place_order(s("A"), 10, 1, Side::Bid);
    ex.place_order(s("A"), 11, 1, Side::Bid);
    assert_eq!(ex.order(1).map(|o| o.price), Some(11));
    assert_eq!(ex.best(Side::Bid), Some(1));
    assert_eq!(ex.best(Side::Ask), None);
}

#[test]
fn equal_price_asks_fill_in_creation_order() {
    let mut ex = funded(&[("A", 1000), ("B", 1000), ("C", 1000)]);
    ex.place_order(s("C"), 10, 5, Side::Ask);
    ex.place_order(s("B"), 10, 5, Side::Ask);
    let u = ex.place_order(s("A"), 10, 5, Side::Bid);
    assert_eq!(
        u,
        vec![
            order_update("A", 2, OrderStatus::Pending),
            Update::Trade { price: 10, size: 5 },
            order_update("C", 0, OrderStatus::Filled),
            order_update("A", 2, OrderStatus::Filled),
        ]
    );
    assert_eq!(ex.orders[1].status, OrderStatus::Pending);
    assert_eq!(ex.orders[1].size, 5);
    assert_eq!(ex.asks, vec![1]);
}

#[test]
fn cancel_removes_only_that_order() {
    let mut ex = funded(&[("A", 1000)]);
    ex.place_order(s("A"), 10, 1, Side::Bid);
    ex.place_order(s("A"), 11, 1, Side::Bid);
    ex.place_order(s("A"), 9, 1, Side::Bid);
    ex.place_order(s("A"), 20, 1, Side::Ask);
    ex.cancel_order(0);
    assert_eq!(ex.bids, vec![1, 2]);
    assert_eq!(ex.asks, vec![3]);
    assert_eq!(ex.orders[1].status, OrderStatus::Pending);
}

#[test]
fn book_stays_uncrossed() {
    let mut ex = funded(&[("A", 1000), ("B", 1000)]);
    ex.place_order(s("A"), 10, 3, Side::Bid);
    ex.place_order(s("B"), 9, 5, Side::Ask);
    let best_bid = ex.best(Side::Bid);
    let best_ask = ex.best(Side::Ask).unwrap();
    assert!(best_bid.is_none());
    assert_eq!(ex.orders[best_ask].price, 9);
    assert_eq!(ex.orders[best_ask].size, 2);
}
