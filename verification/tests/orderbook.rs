use lobster::{BookDepth, BookLevel, FillMetadata, OrderBook, OrderEvent, OrderType, Side, Trade};

fn init_ob(events: Vec<OrderType>) -> (OrderBook, Vec<OrderEvent>) {
    let mut ob = OrderBook::default();
    ob.track_stats(true);
    let mut results = Vec::new();
    for e in events {
        results.push(ob.execute(e));
    }
    (ob, results)
}

fn init_book(orders: Vec<(u64, usize)>) -> Vec<(u64, Vec<usize>)> {
    let mut bk: Vec<(u64, Vec<usize>)> = Vec::new();
    for (p, i) in orders {
        match bk.iter().position(|l| l.0 == p) {
            Some(j) => bk[j].1.push(i),
            None => {
                let pos = bk.iter().position(|l| l.0 > p).unwrap_or(bk.len());
                bk.insert(pos, (p, vec![i]));
            }
        }
    }
    bk
}

fn init_book_holes(orders: Vec<(u64, usize)>, holes: Vec<u64>) -> Vec<(u64, Vec<usize>)> {
    let mut bk = init_book(orders);
    for h in holes {
        let pos = bk.iter().position(|l| l.0 > h).unwrap_or(bk.len());
        bk.insert(pos, (h, Vec::new()));
    }
    bk
}

// In general, floating point values cannot be compared for equality; the
// book keeps the quote volume instead of the average price, so the
// volume-weighted average is recomputed here and compared with a tolerance.
fn assert_trade(trade: Option<Trade>, total_qty: u64, avg_price: f64, last_qty: u64, last_price: u64) {
    let t = trade.expect("expected a last trade");
    assert_eq!(t.total_qty, total_qty);
    assert!((t.quote_volume as f64 / t.total_qty as f64 - avg_price).abs() < 1.0e-6);
    assert_eq!(t.last_qty, last_qty);
    assert_eq!(t.last_price, last_price);
}

#[test]
fn empty_book() {
    let (ob, results) = init_ob(Vec::new());
    assert_eq!(results, Vec::new());
    assert_eq!(ob.min_ask(), None);
    assert_eq!(ob.max_bid(), None);
    assert_eq!(ob.ask_levels(), Vec::new());
    assert_eq!(ob.bid_levels(), Vec::new());
    assert_eq!(ob.spread(), None);
    assert_eq!(ob.traded_volume(), 0);
    assert_eq!(
        ob.depth(2),
        BookDepth { levels: 2, asks: Vec::new(), bids: Vec::new() }
    );
    assert_eq!(ob.last_trade(), None);
}

#[test]
fn one_resting_order() {
    for (bid_ask, _) in &[(Side::Bid, Side::Ask), (Side::Ask, Side::Bid)] {
        let (ob, results) = init_ob(vec![OrderType::Limit {
            id: 0,
            side: *bid_ask,
            qty: 12,
            price: 395,
        }]);
        assert_eq!(results, vec![OrderEvent::Placed { id: 0 }]);
        if *bid_ask == Side::Bid {
            assert_eq!(ob.min_ask(), None);
            assert_eq!(ob.max_bid(), Some(395));
            assert_eq!(ob.ask_levels(), Vec::new());
            assert_eq!(ob.bid_levels(), init_book(vec![(395, 9999)]));
            assert_eq!(ob.spread(), None);
            assert_eq!(ob.traded_volume(), 0);
            assert_eq!(
                ob.depth(3),
                BookDepth {
                    levels: 3,
                    asks: Vec::new(),
                    bids: vec![BookLevel { price: 395, qty: 12 }],
                }
            );
            assert_eq!(ob.last_trade(), None);
        } else {
            assert_eq!(ob.min_ask(), Some(395));
            assert_eq!(ob.max_bid(), None);
            assert_eq!(ob.ask_levels(), init_book(vec![(395, 9999)]));
            assert_eq!(ob.bid_levels(), Vec::new());
            assert_eq!(ob.spread(), None);
            assert_eq!(ob.traded_volume(), 0);
            assert_eq!(
                ob.depth(4),
                BookDepth {
                    levels: 4,
                    asks: vec![BookLevel { price: 395, qty: 12 }],
                    bids: Vec::new()
                }
            );
            assert_eq!(ob.last_trade(), None);
        }
    }
}

#[test]
fn two_resting_orders() {
    for (bid_ask, ask_bid) in &[(Side::Bid, Side::Ask), (Side::Ask, Side::Bid)] {
        let (ob, results) = init_ob(vec![
            OrderType::Limit { id: 0, side: *bid_ask, qty: 12, price: 395 },
            OrderType::Limit { id: 1, side: *ask_bid, qty: 2, price: 398 },
        ]);
        if *bid_ask == Side::Bid {
            assert_eq!(
                results,
                vec![OrderEvent::Placed { id: 0 }, OrderEvent::Placed { id: 1 }]
            );
            assert_eq!(ob.min_ask(), Some(398));
            assert_eq!(ob.max_bid(), Some(395));
            assert_eq!(ob.ask_levels(), init_book(vec![(398, 9998)]));
            assert_eq!(ob.bid_levels(), init_book(vec![(395, 9999)]));
            assert_eq!(ob.spread(), Some(3));
            assert_eq!(ob.traded_volume(), 0);
            assert_eq!(
                ob.depth(4),
                BookDepth {
                    levels: 4,
                    asks: vec![BookLevel { price: 398, qty: 2 }],
                    bids: vec![BookLevel { price: 395, qty: 12 }],
                }
            );
            assert_eq!(ob.last_trade(), None);
        } else {
            assert_eq!(
                results,
                vec![
                    OrderEvent::Placed { id: 0 },
                    OrderEvent::Filled {
                        id: 1,
                        filled_qty: 2,
                        fills: vec![FillMetadata {
                            order_1: 1,
                            order_2: 0,
                            qty: 2,
                            price: 395,
                            taker_side: *ask_bid,
                            total_fill: false,
                        }],
                    }
                ]
            );
            assert_eq!(ob.min_ask(), Some(395));
            assert_eq!(ob.max_bid(), None);
            assert_eq!(ob.ask_levels(), init_book(vec![(395, 9999)]));
            assert_eq!(ob.bid_levels(), init_book(vec![]));
            assert_eq!(ob.spread(), None);
            assert_eq!(ob.traded_volume(), 2);
            assert_eq!(
                ob.depth(4),
                BookDepth {
                    levels: 4,
                    asks: vec![BookLevel { price: 395, qty: 10 }],
                    bids: Vec::new(),
                }
            );
            assert_trade(ob.last_trade(), 2, 395.0, 2, 395);
        }
    }
}

#[test]
fn two_resting_orders_merged() {
    for (bid_ask, _) in &[(Side::Bid, Side::Ask), (Side::Ask, Side::Bid)] {
        let (ob, results) = init_ob(vec![
            OrderType::Limit { id: 0, side: *bid_ask, qty: 12, price: 395 },
            OrderType::Limit { id: 1, side: *bid_ask, qty: 2, price: 395 },
        ]);
        assert_eq!(
            results,
            vec![OrderEvent::Placed { id: 0 }, OrderEvent::Placed { id: 1 }]
        );
        if *bid_ask == Side::Bid {
            assert_eq!(ob.min_ask(), None);
            assert_eq!(ob.max_bid(), Some(395));
            assert_eq!(ob.ask_levels(), Vec::new());
            assert_eq!(ob.bid_levels(), init_book(vec![(395, 9999), (395, 9998)]));
            assert_eq!(ob.spread(), None);
            assert_eq!(ob.traded_volume(), 0);
            assert_eq!(
                ob.depth(3),
                BookDepth {
                    levels: 3,
                    asks: Vec::new(),
                    bids: vec![BookLevel { price: 395, qty: 14 }],
                }
            );
            assert_eq!(ob.last_trade(), None);
        } else {
            assert_eq!(ob.min_ask(), Some(395));
            assert_eq!(ob.max_bid(), None);
            assert_eq!(ob.ask_levels(), init_book(vec![(395, 9999), (395, 9998)]));
            assert_eq!(ob.bid_levels(), Vec::new());
            assert_eq!(ob.spread(), None);
            assert_eq!(ob.traded_volume(), 0);
            assert_eq!(
                ob.depth(3),
                BookDepth {
                    levels: 3,
                    asks: vec![BookLevel { price: 395, qty: 14 }],
                    bids: Vec::new(),
                }
            );
            assert_eq!(ob.last_trade(), None);
        }
    }
}

#[test]
fn two_resting_orders_stacked() {
    for (bid_ask, _) in &[(Side::Bid, Side::Ask), (Side::Ask, Side::Bid)] {
        let (ob, results) = init_ob(vec![
            OrderType::Limit { id: 0, side: *bid_ask, qty: 12, price: 395 },
            OrderType::Limit { id: 1, side: *bid_ask, qty: 2, price: 398 },
        ]);
        assert_eq!(
            results,
            vec![OrderEvent::Placed { id: 0 }, OrderEvent::Placed { id: 1 }]
        );
        if *bid_ask == Side::Bid {
            assert_eq!(ob.min_ask(), None);
            assert_eq!(ob.max_bid(), Some(398));
            assert_eq!(ob.ask_levels(), Vec::new());
            assert_eq!(ob.bid_levels(), init_book(vec![(398, 9998), (395, 9999)]));
            assert_eq!(ob.spread(), None);
        } else {
            assert_eq!(ob.min_ask(), Some(395));
            assert_eq!(ob.max_bid(), None);
            assert_eq!(ob.ask_levels(), init_book(vec![(398, 9998), (395, 9999)]));
            assert_eq!(ob.bid_levels(), Vec::new());
            assert_eq!(ob.spread(), None);
        }
    }
}

#[test]
fn three_resting_orders_stacked() {
    for (bid_ask, ask_bid) in &[(Side::Bid, Side::Ask), (Side::Ask, Side::Bid)] {
        let (ob, results) = init_ob(vec![
            OrderType::Limit { id: 0, side: *bid_ask, qty: 12, price: 395 },
            OrderType::Limit { id: 1, side: *ask_bid, qty: 2, price: 399 },
            OrderType::Limit { id: 2, side: *bid_ask, qty: 2, price: 398 },
        ]);
        if *bid_ask == Side::Bid {
            assert_eq!(
                results,
                vec![
                    OrderEvent::Placed { id: 0 },
                    OrderEvent::Placed { id: 1 },
                    OrderEvent::Placed { id: 2 }
                ]
            );
            assert_eq!(ob.min_ask(), Some(399));
            assert_eq!(ob.max_bid(), Some(398));
            assert_eq!(ob.ask_levels(), init_book(vec![(399, 9998)]));
            assert_eq!(ob.bid_levels(), init_book(vec![(398, 9997), (395, 9999)]));
            assert_eq!(ob.spread(), Some(1));
        } else {
            assert_eq!(
                results,
                vec![
                    OrderEvent::Placed { id: 0 },
                    OrderEvent::Filled {
                        id: 1,
                        filled_qty: 2,
                        fills: vec![FillMetadata {
                            order_1: 1,
                            order_2: 0,
                            qty: 2,
                            price: 395,
                            taker_side: *ask_bid,
                            total_fill: false,
                        }],
                    },
                    OrderEvent::Placed { id: 2 }
                ]
            );
            assert_eq!(ob.min_ask(), Some(395));
            assert_eq!(ob.max_bid(), None);
            assert_eq!(ob.ask_levels(), init_book(vec![(398, 9998), (395, 9999)]));
            assert_eq!(ob.bid_levels(), init_book(vec![]));
            assert_eq!(ob.spread(), None);
        }
    }
}

#[test]
fn crossing_limit_order_partial() {
    for (bid_ask, ask_bid) in &[(Side::Bid, Side::Ask), (Side::Ask, Side::Bid)] {
        let (mut ob, results) = init_ob(vec![
            OrderType::Limit { id: 0, side: *bid_ask, qty: 12, price: 395 },
            OrderType::Limit { id: 1, side: *ask_bid, qty: 2, price: 399 },
            OrderType::Limit { id: 2, side: *bid_ask, qty: 2, price: 398 },
        ]);
        let result = ob.execute(OrderType::Limit { id: 3, side: *ask_bid, qty: 1, price: 397 });

        if *bid_ask == Side::Bid {
            assert_eq!(
                results,
                vec![
                    OrderEvent::Placed { id: 0 },
                    OrderEvent::Placed { id: 1 },
                    OrderEvent::Placed { id: 2 }
                ]
            );
            assert_eq!(
                result,
                OrderEvent::Filled {
                    id: 3,
                    filled_qty: 1,
                    fills: vec![FillMetadata {
                        order_1: 3,
                        order_2: 2,
                        qty: 1,
                        price: 398,
                        taker_side: *ask_bid,
                        total_fill: false,
                    }]
                }
            );
            assert_eq!(ob.min_ask(), Some(399));
            assert_eq!(ob.max_bid(), Some(398));
            assert_eq!(ob.ask_levels(), init_book(vec![(399, 9998)]));
            assert_eq!(ob.bid_levels(), init_book(vec![(398, 9997), (395, 9999)]));
            assert_eq!(ob.spread(), Some(1));
        } else {
            assert_eq!(
                results,
                vec![
                    OrderEvent::Placed { id: 0 },
                    OrderEvent::Filled {
                        id: 1,
                        filled_qty: 2,
                        fills: vec![FillMetadata {
                            order_1: 1,
                            order_2: 0,
                            qty: 2,
                            price: 395,
                            taker_side: *ask_bid,
                            total_fill: false,
                        }],
                    },
                    OrderEvent::Placed { id: 2 }
                ]
            );
            assert_eq!(
                result,
                OrderEvent::Filled {
                    id: 3,
                    filled_qty: 1,
                    fills: vec![FillMetadata {
                        order_1: 3,
                        order_2: 0,
                        qty: 1,
                        price: 395,
                        taker_side: *ask_bid,
                        total_fill: false,
                    }]
                }
            );
            assert_eq!(ob.min_ask(), Some(395));
            assert_eq!(ob.max_bid(), None);
            assert_eq!(ob.ask_levels(), init_book(vec![(398, 9998), (395, 9999)]));
            assert_eq!(ob.bid_levels(), init_book(vec![]));
            assert_eq!(ob.spread(), None);
        }
    }
}

#[test]
fn crossing_limit_order_matching() {
    for (bid_ask, ask_bid) in &[(Side::Bid, Side::Ask), (Side::Ask, Side::Bid)] {
        let (mut ob, results) = init_ob(vec![
            OrderType::Limit { id: 0, side: *bid_ask, qty: 12, price: 395 },
            OrderType::Limit { id: 1, side: *ask_bid, qty: 2, price: 399 },
            OrderType::Limit { id: 2, side: *bid_ask, qty: 2, price: 398 },
        ]);
        let result = ob.execute(OrderType::Limit { id: 3, side: *ask_bid, qty: 2, price: 397 });

        if *bid_ask == Side::Bid {
            assert_eq!(
                results,
                vec![
                    OrderEvent::Placed { id: 0 },
                    OrderEvent::Placed { id: 1 },
                    OrderEvent::Placed { id: 2 }
                ]
            );
            assert_eq!(
                result,
                OrderEvent::Filled {
                    id: 3,
                    filled_qty: 2,
                    fills: vec![FillMetadata {
                        order_1: 3,
                        order_2: 2,
                        qty: 2,
                        price: 398,
                        taker_side: *ask_bid,
                        total_fill: true,
                    }]
                }
            );
            assert_eq!(ob.min_ask(), Some(399));
            assert_eq!(ob.max_bid(), Some(395));
            assert_eq!(ob.ask_levels(), init_book(vec![(399, 9998)]));
            assert_eq!(ob.bid_levels(), init_book_holes(vec![(395, 9999)], vec![398]));
            assert_eq!(ob.spread(), Some(4));
        } else {
            assert_eq!(
                results,
                vec![
                    OrderEvent::Placed { id: 0 },
                    OrderEvent::Filled {
                        id: 1,
                        filled_qty: 2,
                        fills: vec![FillMetadata {
                            order_1: 1,
                            order_2: 0,
                            qty: 2,
                            price: 395,
                            taker_side: *ask_bid,
                            total_fill: false,
                        }],
                    },
                    OrderEvent::Placed { id: 2 }
                ]
            );
            assert_eq!(
                result,
                OrderEvent::Filled {
                    id: 3,
                    filled_qty: 2,
                    fills: vec![FillMetadata {
                        order_1: 3,
                        order_2: 0,
                        qty: 2,
                        price: 395,
                        taker_side: *ask_bid,
                        total_fill: false,
                    }]
                }
            );
            assert_eq!(ob.min_ask(), Some(395));
            assert_eq!(ob.max_bid(), None);
            assert_eq!(ob.ask_levels(), init_book(vec![(395, 9999), (398, 9998)]));
            assert_eq!(ob.bid_levels(), init_book(vec![]));
            assert_eq!(ob.spread(), None);
        }
    }
}

#[test]
fn crossing_limit_order_over() {
    for (bid_ask, ask_bid) in &[(Side::Bid, Side::Ask), (Side::Ask, Side::Bid)] {
        let (mut ob, results) = init_ob(vec![
            OrderType::Limit { id: 0, side: *bid_ask, qty: 12, price: 395 },
            OrderType::Limit { id: 1, side: *ask_bid, qty: 2, price: 399 },
            OrderType::Limit { id: 2, side: *bid_ask, qty: 2, price: 398 },
        ]);
        let result = ob.execute(OrderType::Limit { id: 3, side: *ask_bid, qty: 5, price: 397 });

        if *bid_ask == Side::Bid {
            assert_eq!(
                results,
                vec![
                    OrderEvent::Placed { id: 0 },
                    OrderEvent::Placed { id: 1 },
                    OrderEvent::Placed { id: 2 }
                ]
            );
            assert_eq!(
                result,
                OrderEvent::PartiallyFilled {
                    id: 3,
                    filled_qty: 2,
                    fills: vec![FillMetadata {
                        order_1: 3,
                        order_2: 2,
                        qty: 2,
                        price: 398,
                        taker_side: *ask_bid,
                        total_fill: true,
                    }]
                }
            );
            assert_eq!(ob.min_ask(), Some(397));
            assert_eq!(ob.max_bid(), Some(395));
            assert_eq!(ob.ask_levels(), init_book(vec![(399, 9998), (397, 9996)]));
            assert_eq!(ob.bid_levels(), init_book_holes(vec![(395, 9999)], vec![398]));
            assert_eq!(ob.spread(), Some(2));
        } else {
            assert_eq!(
                results,
                vec![
                    OrderEvent::Placed { id: 0 },
                    OrderEvent::Filled {
                        id: 1,
                        filled_qty: 2,
                        fills: vec![FillMetadata {
                            order_1: 1,
                            order_2: 0,
                            qty: 2,
                            price: 395,
                            taker_side: *ask_bid,
                            total_fill: false,
                        }],
                    },
                    OrderEvent::Placed { id: 2 }
                ]
            );
            assert_eq!(
                result,
                OrderEvent::Filled {
                    id: 3,
                    filled_qty: 5,
                    fills: vec![FillMetadata {
                        order_1: 3,
                        order_2: 0,
                        qty: 5,
                        price: 395,
                        taker_side: *ask_bid,
                        total_fill: false,
                    }]
                }
            );
            assert_eq!(ob.min_ask(), Some(395));
            assert_eq!(ob.max_bid(), None);
            assert_eq!(ob.ask_levels(), init_book(vec![(395, 9999), (398, 9998)]));
            assert_eq!(ob.bid_levels(), init_book(vec![]));
            assert_eq!(ob.spread(), None);
        }
    }
}

#[test]
fn market_order_unfilled() {
    for (_, ask_bid) in &[(Side::Bid, Side::Ask), (Side::Ask, Side::Bid)] {
        let (mut ob, _) = init_ob(vec![]);
        let result = ob.execute(OrderType::Market { id: 0, side: *ask_bid, qty: 5 });

        assert_eq!(result, OrderEvent::Unfilled { id: 0 });
    }
}

#[test]
fn market_order_partially_filled() {
    for (bid_ask, ask_bid) in &[(Side::Bid, Side::Ask), (Side::Ask, Side::Bid)] {
        let (mut ob, results) = init_ob(vec![
            OrderType::Limit { id: 0, side: *bid_ask, qty: 12, price: 395 },
            OrderType::Limit { id: 1, side: *ask_bid, qty: 2, price: 399 },
            OrderType::Limit { id: 2, side: *bid_ask, qty: 2, price: 398 },
        ]);
        let result = ob.execute(OrderType::Market { id: 3, side: *ask_bid, qty: 15 });

        if *bid_ask == Side::Bid {
            assert_eq!(
                results,
                vec![
                    OrderEvent::Placed { id: 0 },
                    OrderEvent::Placed { id: 1 },
                    OrderEvent::Placed { id: 2 }
                ]
            );
            assert_eq!(
                result,
                OrderEvent::PartiallyFilled {
                    id: 3,
                    filled_qty: 14,
                    fills: vec![
                        FillMetadata {
                            order_1: 3,
                            order_2: 2,
                            qty: 2,
                            price: 398,
                            taker_side: *ask_bid,
                            total_fill: true,
                        },
                        FillMetadata {
                            order_1: 3,
                            order_2: 0,
                            qty: 12,
                            price: 395,
                            taker_side: *ask_bid,
                            total_fill: true,
                        }
                    ]
                }
            );
            assert_eq!(ob.min_ask(), Some(399));
            assert_eq!(ob.max_bid(), None);
            assert_eq!(ob.ask_levels(), init_book(vec![(399, 9998)]));
            assert_eq!(ob.bid_levels(), init_book_holes(vec![], vec![395, 398]));
            assert_eq!(ob.spread(), None);
        } else {
            assert_eq!(
                results,
                vec![
                    OrderEvent::Placed { id: 0 },
                    OrderEvent::Filled {
                        id: 1,
                        filled_qty: 2,
                        fills: vec![FillMetadata {
                            order_1: 1,
                            order_2: 0,
                            qty: 2,
                            price: 395,
                            taker_side: *ask_bid,
                            total_fill: false,
                        }],
                    },
                    OrderEvent::Placed { id: 2 }
                ]
            );
            assert_eq!(
                result,
                OrderEvent::PartiallyFilled {
                    id: 3,
                    filled_qty: 12,
                    fills: vec![
                        FillMetadata {
                            order_1: 3,
                            order_2: 0,
                            qty: 10,
                            price: 395,
                            taker_side: *ask_bid,
                            total_fill: true,
                        },
                        FillMetadata {
                            order_1: 3,
                            order_2: 2,
                            qty: 2,
                            price: 398,
                            taker_side: *ask_bid,
                            total_fill: true,
                        }
                    ]
                }
            );
            assert_eq!(ob.min_ask(), None);
            assert_eq!(ob.max_bid(), None);
            assert_eq!(ob.ask_levels(), init_book_holes(vec![], vec![395, 398]));
            assert_eq!(ob.bid_levels(), init_book(vec![]));
            assert_eq!(ob.spread(), None);
        }
    }
}

#[test]
fn market_order_filled() {
    for (bid_ask, ask_bid) in &[(Side::Bid, Side::Ask), (Side::Ask, Side::Bid)] {
        let (mut ob, results) = init_ob(vec![
            OrderType::Limit { id: 0, side: *bid_ask, qty: 12, price: 395 },
            OrderType::Limit { id: 1, side: *ask_bid, qty: 2, price: 399 },
            OrderType::Limit { id: 2, side: *bid_ask, qty: 2, price: 398 },
        ]);
        let result = ob.execute(OrderType::Market { id: 3, side: *ask_bid, qty: 7 });

        if *bid_ask == Side::Bid {
            assert_eq!(
                results,
                vec![
                    OrderEvent::Placed { id: 0 },
                    OrderEvent::Placed { id: 1 },
                    OrderEvent::Placed { id: 2 }
                ]
            );
            assert_eq!(
                result,
                OrderEvent::Filled {
                    id: 3,
                    filled_qty: 7,
                    fills: vec![
                        FillMetadata {
                            order_1: 3,
                            order_2: 2,
                            qty: 2,
                            price: 398,
                            taker_side: *ask_bid,
                            total_fill: true,
                        },
                        FillMetadata {
                            order_1: 3,
                            order_2: 0,
                            qty: 5,
                            price: 395,
                            taker_side: *ask_bid,
                            total_fill: false,
                        }
                    ]
                }
            );
            assert_eq!(ob.min_ask(), Some(399));
            assert_eq!(ob.max_bid(), Some(395));
            assert_eq!(ob.ask_levels(), init_book(vec![(399, 9998)]));
            assert_eq!(ob.bid_levels(), init_book_holes(vec![(395, 9999)], vec![398]));
            assert_eq!(ob.spread(), Some(4));
        } else {
            assert_eq!(
                results,
                vec![
                    OrderEvent::Placed { id: 0 },
                    OrderEvent::Filled {
                        id: 1,
                        filled_qty: 2,
                        fills: vec![FillMetadata {
                            order_1: 1,
                            order_2: 0,
                            qty: 2,
                            price: 395,
                            taker_side: *ask_bid,
                            total_fill: false,
                        }],
                    },
                    OrderEvent::Placed { id: 2 }
                ]
            );
            assert_eq!(
                result,
                OrderEvent::Filled {
                    id: 3,
                    filled_qty: 7,
                    fills: vec![FillMetadata {
                        order_1: 3,
                        order_2: 0,
                        qty: 7,
                        price: 395,
                        taker_side: *ask_bid,
                        total_fill: false,
                    }]
                }
            );
            assert_eq!(ob.min_ask(), Some(395));
            assert_eq!(ob.max_bid(), None);
            assert_eq!(ob.ask_levels(), init_book(vec![(395, 9999), (398, 9998)]));
            assert_eq!(ob.bid_levels(), init_book(vec![]));
            assert_eq!(ob.spread(), None);
        }
    }
}

#[test]
fn cancel_non_existing_order() {
    let (mut ob, _) = init_ob(vec![]);
    let result = ob.execute(OrderType::Cancel { id: 0 });
    assert_eq!(result, OrderEvent::Canceled { id: 0 });
    assert_eq!(ob.min_ask(), None);
    assert_eq!(ob.max_bid(), None);
    assert_eq!(ob.ask_levels(), Vec::new());
    assert_eq!(ob.bid_levels(), Vec::new());
    assert_eq!(ob.spread(), None);
}

#[test]
fn cancel_resting_order() {
    for (bid_ask, _) in &[(Side::Bid, Side::Ask), (Side::Ask, Side::Bid)] {
        let (mut ob, results) = init_ob(vec![OrderType::Limit {
            id: 0,
            side: *bid_ask,
            qty: 12,
            price: 395,
        }]);
        let result = ob.execute(OrderType::Cancel { id: 0 });
        assert_eq!(results, vec![OrderEvent::Placed { id: 0 }]);
        assert_eq!(result, OrderEvent::Canceled { id: 0 });
        assert_eq!(ob.min_ask(), None);
        assert_eq!(ob.max_bid(), None);
        if *bid_ask == Side::Bid {
            assert_eq!(ob.ask_levels(), Vec::new());
            assert_eq!(ob.bid_levels(), init_book_holes(vec![], vec![395]));
        } else {
            assert_eq!(ob.ask_levels(), init_book_holes(vec![], vec![395]));
            assert_eq!(ob.bid_levels(), Vec::new());
        }
        assert_eq!(ob.spread(), None);
    }
}

#[test]
fn cancel_resting_order_of_many() {
    for (bid_ask, ask_bid) in &[(Side::Bid, Side::Ask), (Side::Ask, Side::Bid)] {
        let (mut ob, results) = init_ob(vec![
            OrderType::Limit { id: 0, side: *bid_ask, qty: 12, price: 395 },
            OrderType::Limit { id: 1, side: *ask_bid, qty: 2, price: 399 },
            OrderType::Limit { id: 2, side: *bid_ask, qty: 2, price: 398 },
        ]);
        let result = ob.execute(OrderType::Cancel { id: 0 });
        if *bid_ask == Side::Bid {
            assert_eq!(
                results,
                vec![
                    OrderEvent::Placed { id: 0 },
                    OrderEvent::Placed { id: 1 },
                    OrderEvent::Placed { id: 2 }
                ]
            );
            assert_eq!(result, OrderEvent::Canceled { id: 0 });
            assert_eq!(ob.min_ask(), Some(399));
            assert_eq!(ob.max_bid(), Some(398));
            assert_eq!(ob.ask_levels(), init_book(vec![(399, 9998)]));
            assert_eq!(ob.bid_levels(), init_book_holes(vec![(398, 9997)], vec![395]));
            assert_eq!(ob.spread(), Some(1));
        } else {
            assert_eq!(
                results,
                vec![
                    OrderEvent::Placed { id: 0 },
                    OrderEvent::Filled {
                        id: 1,
                        filled_qty: 2,
                        fills: vec![FillMetadata {
                            order_1: 1,
                            order_2: 0,
                            qty: 2,
                            price: 395,
                            taker_side: *ask_bid,
                            total_fill: false,
                        }],
                    },
                    OrderEvent::Placed { id: 2 }
                ]
            );
            assert_eq!(result, OrderEvent::Canceled { id: 0 });
            assert_eq!(ob.min_ask(), Some(398));
            assert_eq!(ob.max_bid(), None);
            assert_eq!(ob.ask_levels(), init_book_holes(vec![(398, 9998)], vec![395]));
            assert_eq!(ob.bid_levels(), init_book(vec![]));
            assert_eq!(ob.spread(), None);
        }
    }
}
