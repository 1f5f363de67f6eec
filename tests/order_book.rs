use exchange_lab::order_book::{Order, OrderBook, OrderId, Quantity, Side, Trade};

fn mk_order(id: u64, side: Side, price: i64, qty: Quantity) -> Order {
    Order {
        id: OrderId(id),
        side,
        price,
        quantity: qty,
    }
}

#[test]
fn add_buy_without_match_creates_bid() {
    let mut book = OrderBook::new();
    let buy = mk_order(1, Side::Buy, 100, 10);

    let trades = book.add_order(buy);

    assert!(trades.is_empty());
    assert_eq!(book.bids.len(), 1);
    assert_eq!(book.asks.len(), 0);
    assert_eq!(book.bids[0].price, 100);
}

#[test]
fn exact_match_clears_book() {
    let mut book = OrderBook::new();

    let ask = mk_order(1, Side::Sell, 100, 10);
    book.add_order(ask);

    let buy = mk_order(2, Side::Buy, 100, 10);
    let trades = book.add_order(buy);

    assert_eq!(trades.len(), 1);
    let t = &trades[0];
    assert_eq!(t.price, 100);
    assert_eq!(t.quantity, 10);

    assert!(book.bids.is_empty());
    assert!(book.asks.is_empty());
}

#[test]
fn partial_fill_leaves_rest_in_book() {
    let mut book = OrderBook::new();

    let ask = mk_order(1, Side::Sell, 100, 10);
    book.add_order(ask);

    let buy = mk_order(2, Side::Buy, 100, 5);
    let trades = book.add_order(buy);

    assert_eq!(trades.len(), 1);
    let t = &trades[0];
    assert_eq!(t.quantity, 5);

    assert!(book.bids.is_empty());
    assert_eq!(book.asks.len(), 1);
    assert_eq!(book.asks[0].quantity, 5);
}

#[test]
fn best_price_priority_for_asks() {
    let mut book = OrderBook::new();

    book.add_order(mk_order(1, Side::Sell, 95, 5));
    book.add_order(mk_order(2, Side::Sell, 100, 5));

    let buy = mk_order(3, Side::Buy, 100, 7);
    let trades = book.add_order(buy);

    assert_eq!(trades.len(), 2);
    assert_eq!(trades[0].price, 95);
    assert_eq!(trades[0].quantity, 5);
    assert_eq!(trades[1].price, 100);
    assert_eq!(trades[1].quantity, 2);

    assert_eq!(book.asks.len(), 1);
    assert_eq!(book.asks[0].price, 100);
    assert_eq!(book.asks[0].quantity, 3);
}

#[test]
fn resting_buy_keeps_whole_order() {
    let mut book = OrderBook::new();
    let trades = book.add_order(mk_order(1, Side::Buy, 100, 10));
    assert!(trades.is_empty());
    assert_eq!(book.bids.len(), 1);
    assert_eq!(book.bids[0].id, OrderId(1));
    assert_eq!(book.bids[0].side, Side::Buy);
    assert_eq!(book.bids[0].quantity, 10);
}

#[test]
fn exact_match_reports_both_ids() {
    let mut book = OrderBook::new();
    book.add_order(mk_order(1, Side::Sell, 100, 10));
    let trades = book.add_order(mk_order(2, Side::Buy, 100, 10));
    assert_eq!(
        trades,
        vec![Trade { buy_id: OrderId(2), sell_id: OrderId(1), price: 100, quantity: 10 }]
    );
}

#[test]
fn partial_fill_keeps_resting_id_and_price() {
    let mut book = OrderBook::new();
    book.add_order(mk_order(1, Side::Sell, 100, 10));
    book.add_order(mk_order(2, Side::Buy, 100, 5));
    assert_eq!(book.asks[0].id, OrderId(1));
    assert_eq!(book.asks[0].price, 100);
}

#[test]
fn sweep_reports_trades_best_price_first() {
    let mut book = OrderBook::new();
    book.add_order(mk_order(1, Side::Sell, 95, 5));
    book.add_order(mk_order(2, Side::Sell, 100, 5));
    let trades = book.add_order(mk_order(3, Side::Buy, 100, 7));
    assert_eq!(
        trades,
        vec![
            Trade { buy_id: OrderId(3), sell_id: OrderId(1), price: 95, quantity: 5 },
            Trade { buy_id: OrderId(3), sell_id: OrderId(2), price: 100, quantity: 2 },
        ]
    );
    assert_eq!(book.asks[0].id, OrderId(2));
    assert!(book.bids.is_empty());
}

#[test]
fn no_cross_leaves_both_resting() {
    let mut book = OrderBook::new();
    book.add_order(mk_order(1, Side::Buy, 90, 5));
    let trades = book.add_order(mk_order(2, Side::Sell, 95, 5));
    assert!(trades.is_empty());
    assert_eq!(book.bids.len(), 1);
    assert_eq!(book.bids[0].id, OrderId(1));
    assert_eq!(book.bids[0].quantity, 5);
    assert_eq!(book.asks.len(), 1);
    assert_eq!(book.asks[0].id, OrderId(2));
    assert_eq!(book.asks[0].quantity, 5);
}

#[test]
fn incoming_sell_trades_at_bid_price() {
    let mut book = OrderBook::new();
    book.add_order(mk_order(1, Side::Buy, 105, 4));
    let trades = book.add_order(mk_order(2, Side::Sell, 100, 6));
    assert_eq!(
        trades,
        vec![Trade { buy_id: OrderId(1), sell_id: OrderId(2), price: 105, quantity: 4 }]
    );
    assert!(book.bids.is_empty());
    assert_eq!(book.asks.len(), 1);
    assert_eq!(book.asks[0].price, 100);
    assert_eq!(book.asks[0].quantity, 2);
}

#[test]
fn equal_prices_keep_arrival_order() {
    let mut book = OrderBook::new();
    book.add_order(mk_order(1, Side::Buy, 100, 1));
    book.add_order(mk_order(2, Side::Buy, 101, 1));
    book.add_order(mk_order(3, Side::Buy, 100, 1));
    book.add_order(mk_order(4, Side::Buy, 99, 1));
    let ids: Vec<u64> = book.bids.iter().map(|o| o.id.0).collect();
    assert_eq!(ids, vec![2, 1, 3, 4]);

    book.add_order(mk_order(5, Side::Sell, 100, 1));
    book.add_order(mk_order(6, Side::Sell, 102, 1));
    book.add_order(mk_order(7, Side::Sell, 102, 1));
    book.add_order(mk_order(8, Side::Sell, 101, 1));
    let ids: Vec<u64> = book.asks.iter().map(|o| o.id.0).collect();
    assert_eq!(ids, vec![8, 6, 7]);
    let ids: Vec<u64> = book.bids.iter().map(|o| o.id.0).collect();
    assert_eq!(ids, vec![1, 3, 4]);
}

#[test]
fn time_priority_decides_who_fills_first() {
    let mut book = OrderBook::new();
    book.add_order(mk_order(1, Side::Sell, 100, 3));
    book.add_order(mk_order(2, Side::Sell, 100, 3));
    let trades = book.add_order(mk_order(3, Side::Buy, 100, 4));
    assert_eq!(trades.len(), 2);
    assert_eq!(trades[0].sell_id, OrderId(1));
    assert_eq!(trades[0].quantity, 3);
    assert_eq!(trades[1].sell_id, OrderId(2));
    assert_eq!(trades[1].quantity, 1);
    assert_eq!(book.asks[0].id, OrderId(2));
    assert_eq!(book.asks[0].quantity, 2);
}

#[test]
fn traded_plus_left_equals_original_quantity() {
    let mut book = OrderBook::new();
    book.add_order(mk_order(1, Side::Buy, 100, 3));
    book.add_order(mk_order(2, Side::Buy, 98, 4));
    book.add_order(mk_order(3, Side::Buy, 90, 4));
    let trades = book.add_order(mk_order(4, Side::Sell, 97, 10));
    let traded: i64 = trades.iter().map(|t| t.quantity).sum();
    assert_eq!(traded, 7);
    assert_eq!(trades[0].price, 100);
    assert_eq!(trades[1].price, 98);
    assert_eq!(book.asks.len(), 1);
    assert_eq!(book.asks[0].quantity, 3);
    assert_eq!(traded + book.asks[0].quantity, 10);
    assert!(book.bids[0].price < book.asks[0].price);
}

#[test]
fn non_positive_quantity_changes_nothing() {
    let mut book = OrderBook::new();
    book.add_order(mk_order(1, Side::Sell, 100, 5));
    let trades = book.add_order(mk_order(2, Side::Buy, 100, 0));
    assert!(trades.is_empty());
    let trades = book.add_order(mk_order(3, Side::Buy, 100, -4));
    assert!(trades.is_empty());
    assert!(book.bids.is_empty());
    assert_eq!(book.asks.len(), 1);
    assert_eq!(book.asks[0].quantity, 5);
}
