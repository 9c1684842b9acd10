use lobster::{BookLevel, FillMetadata, OrderBook, OrderEvent, OrderType, Side};

fn filled_of(ev: &OrderEvent) -> u64 {
    match ev {
        OrderEvent::Filled { filled_qty, .. } => *filled_qty,
        OrderEvent::PartiallyFilled { filled_qty, .. } => *filled_qty,
        _ => 0,
    }
}

fn fills_of(ev: &OrderEvent) -> Vec<FillMetadata> {
    match ev {
        OrderEvent::Filled { fills, .. } => fills.clone(),
        OrderEvent::PartiallyFilled { fills, .. } => fills.clone(),
        _ => Vec::new(),
    }
}

// An empty book leaves a market order unfilled and the book untouched.
#[test]
fn empty_book_market() {
    let mut ob = OrderBook::new(16, 4, true);
    let ev = ob.execute(OrderType::Market { id: 0, side: Side::Bid, qty: 1 });
    assert_eq!(ev, OrderEvent::Unfilled { id: 0 });
    assert_eq!(ob.ask_levels(), Vec::new());
    assert_eq!(ob.bid_levels(), Vec::new());
    assert_eq!(ob.traded_volume(), 0);
}

// A resting limit is swept by a larger market order; the book empties and
// the statistics record the trade.
#[test]
fn place_and_sweep() {
    let mut ob = OrderBook::default();
    ob.track_stats(true);
    let ev = ob.execute(OrderType::Limit { id: 1, side: Side::Ask, qty: 3, price: 120 });
    assert_eq!(ev, OrderEvent::Placed { id: 1 });
    let ev = ob.execute(OrderType::Market { id: 2, side: Side::Bid, qty: 4 });
    assert_eq!(
        ev,
        OrderEvent::PartiallyFilled {
            id: 2,
            filled_qty: 3,
            fills: vec![FillMetadata {
                order_1: 2,
                order_2: 1,
                qty: 3,
                price: 120,
                taker_side: Side::Bid,
                total_fill: true,
            }],
        }
    );
    assert_eq!(ob.min_ask(), None);
    assert_eq!(ob.max_bid(), None);
    assert_eq!(ob.traded_volume(), 3);
    let t = ob.last_trade().unwrap();
    assert_eq!(t.total_qty, 3);
    assert_eq!(t.quote_volume, 3 * 120);
    assert_eq!(t.last_qty, 3);
    assert_eq!(t.last_price, 120);
}

// A crossing sell takes the best bid first and leaves the maker's residue.
#[test]
fn crossing_limit_partial_fill() {
    let mut ob = OrderBook::default();
    ob.execute(OrderType::Limit { id: 0, side: Side::Bid, qty: 12, price: 395 });
    ob.execute(OrderType::Limit { id: 2, side: Side::Bid, qty: 2, price: 398 });
    ob.execute(OrderType::Limit { id: 1, side: Side::Ask, qty: 2, price: 399 });
    let ev = ob.execute(OrderType::Limit { id: 3, side: Side::Ask, qty: 1, price: 397 });
    assert_eq!(
        ev,
        OrderEvent::Filled {
            id: 3,
            filled_qty: 1,
            fills: vec![FillMetadata {
                order_1: 3,
                order_2: 2,
                qty: 1,
                price: 398,
                taker_side: Side::Ask,
                total_fill: false,
            }],
        }
    );
    assert_eq!(ob.max_bid(), Some(398));
    assert_eq!(ob.min_ask(), Some(399));
    assert_eq!(ob.spread(), Some(1));
}

// A crossing sell that sweeps the best bid rests its residue below.
#[test]
fn crossing_limit_sweeps_and_rests() {
    let mut ob = OrderBook::default();
    ob.execute(OrderType::Limit { id: 0, side: Side::Bid, qty: 12, price: 395 });
    ob.execute(OrderType::Limit { id: 2, side: Side::Bid, qty: 2, price: 398 });
    ob.execute(OrderType::Limit { id: 1, side: Side::Ask, qty: 2, price: 399 });
    let ev = ob.execute(OrderType::Limit { id: 3, side: Side::Ask, qty: 5, price: 397 });
    assert_eq!(
        ev,
        OrderEvent::PartiallyFilled {
            id: 3,
            filled_qty: 2,
            fills: vec![FillMetadata {
                order_1: 3,
                order_2: 2,
                qty: 2,
                price: 398,
                taker_side: Side::Ask,
                total_fill: true,
            }],
        }
    );
    assert_eq!(ob.min_ask(), Some(397));
    assert_eq!(ob.max_bid(), Some(395));
    assert_eq!(ob.spread(), Some(2));
}

// Time priority within a price level: the earlier maker fills first and
// fully, the later one partially.
#[test]
fn time_priority_within_price() {
    let mut ob = OrderBook::default();
    ob.execute(OrderType::Limit { id: 10, side: Side::Ask, qty: 5, price: 100 });
    ob.execute(OrderType::Limit { id: 11, side: Side::Ask, qty: 5, price: 100 });
    let ev = ob.execute(OrderType::Market { id: 12, side: Side::Bid, qty: 7 });
    assert_eq!(
        ev,
        OrderEvent::Filled {
            id: 12,
            filled_qty: 7,
            fills: vec![
                FillMetadata {
                    order_1: 12,
                    order_2: 10,
                    qty: 5,
                    price: 100,
                    taker_side: Side::Bid,
                    total_fill: true,
                },
                FillMetadata {
                    order_1: 12,
                    order_2: 11,
                    qty: 2,
                    price: 100,
                    taker_side: Side::Bid,
                    total_fill: false,
                },
            ],
        }
    );
    assert_eq!(
        ob.depth(1),
        lobster::BookDepth {
            levels: 1,
            asks: vec![BookLevel { price: 100, qty: 3 }],
            bids: Vec::new()
        }
    );
}

// Cancelling the top bid uncovers the next one; a second cancel of the
// same id is a harmless no-op.
#[test]
fn cancel_top_is_idempotent() {
    let mut ob = OrderBook::default();
    ob.execute(OrderType::Limit { id: 20, side: Side::Bid, qty: 1, price: 500 });
    ob.execute(OrderType::Limit { id: 21, side: Side::Bid, qty: 1, price: 499 });
    let ev = ob.execute(OrderType::Cancel { id: 20 });
    assert_eq!(ev, OrderEvent::Canceled { id: 20 });
    assert_eq!(ob.min_ask(), None);
    assert_eq!(ob.max_bid(), Some(499));
    let before_asks = ob.ask_levels();
    let before_bids = ob.bid_levels();
    let ev = ob.execute(OrderType::Cancel { id: 20 });
    assert_eq!(ev, OrderEvent::Canceled { id: 20 });
    assert_eq!(ob.ask_levels(), before_asks);
    assert_eq!(ob.bid_levels(), before_bids);
    assert_eq!(ob.max_bid(), Some(499));
}

// The best bid always stays strictly below the best ask, over a command
// stream that matches, rests and cancels on both sides.
#[test]
fn book_stays_uncrossed() {
    let mut ob = OrderBook::default();
    let cmds = vec![
        OrderType::Limit { id: 1, side: Side::Bid, qty: 5, price: 100 },
        OrderType::Limit { id: 2, side: Side::Ask, qty: 5, price: 105 },
        OrderType::Limit { id: 3, side: Side::Bid, qty: 3, price: 104 },
        OrderType::Limit { id: 4, side: Side::Ask, qty: 4, price: 104 },
        OrderType::Market { id: 5, side: Side::Bid, qty: 2 },
        OrderType::Cancel { id: 1 },
        OrderType::Limit { id: 6, side: Side::Ask, qty: 1, price: 99 },
        OrderType::Cancel { id: 2 },
    ];
    for c in cmds {
        ob.execute(c);
        match (ob.max_bid(), ob.min_ask()) {
            (Some(b), Some(a)) => assert!(b < a),
            _ => {},
        }
    }
}

// With tracking on, the traded volume is the running sum of the filled
// quantities of every fill-bearing event.
#[test]
fn volume_accumulates() {
    let mut ob = OrderBook::default();
    ob.track_stats(true);
    let cmds = vec![
        OrderType::Limit { id: 1, side: Side::Ask, qty: 5, price: 100 },
        OrderType::Limit { id: 2, side: Side::Ask, qty: 5, price: 101 },
        OrderType::Market { id: 3, side: Side::Bid, qty: 7 },
        OrderType::Limit { id: 4, side: Side::Bid, qty: 2, price: 101 },
        OrderType::Market { id: 5, side: Side::Bid, qty: 10 },
        OrderType::Cancel { id: 4 },
    ];
    let mut total = 0;
    for c in cmds {
        let ev = ob.execute(c);
        total += filled_of(&ev);
    }
    assert_eq!(ob.traded_volume(), total);
    assert_eq!(total, 7 + 2 + 1);
}

// Toggling stats tracking off freezes the accumulators and toggling it
// back on does not clear them.
#[test]
fn toggling_stats_keeps_accumulators() {
    let mut ob = OrderBook::default();
    ob.track_stats(true);
    ob.execute(OrderType::Limit { id: 1, side: Side::Ask, qty: 5, price: 100 });
    ob.execute(OrderType::Market { id: 2, side: Side::Bid, qty: 2 });
    assert_eq!(ob.traded_volume(), 2);
    ob.track_stats(false);
    ob.execute(OrderType::Market { id: 3, side: Side::Bid, qty: 1 });
    assert_eq!(ob.traded_volume(), 2);
    assert_eq!(ob.last_trade().unwrap().total_qty, 2);
    ob.track_stats(true);
    ob.execute(OrderType::Market { id: 4, side: Side::Bid, qty: 1 });
    assert_eq!(ob.traded_volume(), 3);
    assert_eq!(ob.last_trade().unwrap().total_qty, 1);
}

// Within one taker's fills, prices never improve: a buyer pays
// non-decreasing prices, and ties follow insertion order.
#[test]
fn fill_prices_non_improving() {
    let mut ob = OrderBook::default();
    ob.execute(OrderType::Limit { id: 1, side: Side::Ask, qty: 2, price: 103 });
    ob.execute(OrderType::Limit { id: 2, side: Side::Ask, qty: 2, price: 101 });
    ob.execute(OrderType::Limit { id: 3, side: Side::Ask, qty: 2, price: 101 });
    ob.execute(OrderType::Limit { id: 4, side: Side::Ask, qty: 2, price: 102 });
    let ev = ob.execute(OrderType::Market { id: 9, side: Side::Bid, qty: 7 });
    let fills = fills_of(&ev);
    assert_eq!(fills.len(), 4);
    for w in fills.windows(2) {
        assert!(w[0].price <= w[1].price);
    }
    // Equal prices fill in insertion order.
    assert_eq!(fills[0].order_2, 2);
    assert_eq!(fills[1].order_2, 3);
    assert_eq!(fills[2].order_2, 4);
    assert_eq!(fills[3].order_2, 1);
    assert_eq!(fills[3].price, 103);
}

// The filled quantity reported by an event equals the sum of its fills.
#[test]
fn filled_qty_matches_fill_sum() {
    let mut ob = OrderBook::default();
    ob.execute(OrderType::Limit { id: 1, side: Side::Bid, qty: 4, price: 90 });
    ob.execute(OrderType::Limit { id: 2, side: Side::Bid, qty: 6, price: 91 });
    let ev = ob.execute(OrderType::Limit { id: 3, side: Side::Ask, qty: 8, price: 90 });
    let fills = fills_of(&ev);
    let sum: u64 = fills.iter().map(|f| f.qty).sum();
    assert_eq!(filled_of(&ev), sum);
    assert_eq!(sum, 8);
}

// A zero-quantity market order is unfilled and a zero-quantity limit
// order reports `Placed` without resting anything.
#[test]
fn zero_quantity_commands() {
    let mut ob = OrderBook::default();
    ob.execute(OrderType::Limit { id: 1, side: Side::Ask, qty: 5, price: 100 });
    let ev = ob.execute(OrderType::Market { id: 2, side: Side::Bid, qty: 0 });
    assert_eq!(ev, OrderEvent::Unfilled { id: 2 });
    let ev = ob.execute(OrderType::Limit { id: 3, side: Side::Bid, qty: 0, price: 99 });
    assert_eq!(ev, OrderEvent::Placed { id: 3 });
    assert_eq!(ob.bid_levels(), Vec::new());
    assert_eq!(ob.min_ask(), Some(100));
}

// Depth sums the live residues per price and skips holes on both sides.
#[test]
fn depth_merges_levels_and_skips_holes() {
    let mut ob = OrderBook::default();
    ob.execute(OrderType::Limit { id: 1, side: Side::Bid, qty: 3, price: 95 });
    ob.execute(OrderType::Limit { id: 2, side: Side::Bid, qty: 4, price: 95 });
    ob.execute(OrderType::Limit { id: 3, side: Side::Bid, qty: 1, price: 97 });
    ob.execute(OrderType::Limit { id: 4, side: Side::Ask, qty: 2, price: 99 });
    ob.execute(OrderType::Cancel { id: 3 });
    let d = ob.depth(5);
    assert_eq!(d.levels, 5);
    assert_eq!(d.asks, vec![BookLevel { price: 99, qty: 2 }]);
    assert_eq!(d.bids, vec![BookLevel { price: 95, qty: 7 }]);
}

// Depth reports both sides best price first: ask levels ascending and bid
// levels descending.
#[test]
fn depth_orders_levels_best_first() {
    let mut ob = OrderBook::default();
    ob.execute(OrderType::Limit { id: 1, side: Side::Bid, qty: 2, price: 95 });
    ob.execute(OrderType::Limit { id: 2, side: Side::Bid, qty: 3, price: 97 });
    ob.execute(OrderType::Limit { id: 3, side: Side::Ask, qty: 4, price: 99 });
    ob.execute(OrderType::Limit { id: 4, side: Side::Ask, qty: 5, price: 98 });
    let d = ob.depth(4);
    assert_eq!(
        d.asks,
        vec![BookLevel { price: 98, qty: 5 }, BookLevel { price: 99, qty: 4 }]
    );
    assert_eq!(
        d.bids,
        vec![BookLevel { price: 97, qty: 3 }, BookLevel { price: 95, qty: 2 }]
    );
}

// The spread is the difference of the best prices, defined only when both
// sides carry a live order.
#[test]
fn spread_is_defined_when_both_sides_rest() {
    let mut ob = OrderBook::default();
    assert_eq!(ob.spread(), None);
    ob.execute(OrderType::Limit { id: 1, side: Side::Bid, qty: 1, price: 390 });
    assert_eq!(ob.spread(), None);
    ob.execute(OrderType::Limit { id: 2, side: Side::Ask, qty: 1, price: 400 });
    assert_eq!(ob.spread(), Some(10));
}
