//! The order book itself: per-side price levels holding FIFO queues of
//! arena handles, cached top-of-book prices, the matching engine and the
//! command-to-event facade.
//!
//! The behaviour of every operation is specified against an abstract model
//! of the book: the two sequences [`OrderBook::ask_orders`] and
//! [`OrderBook::bid_orders`] list the resting orders of each side in
//! matching priority (best price first, FIFO within a price). Matching is
//! described by the recursive functions [`match_fills`], [`consume_orders`]
//! and [`remaining_after`], which walk such a sequence from the front.

use vstd::prelude::*;

use crate::arena::OrderArena;
use crate::models::{
    fills_qty_sum, fills_quote_sum, BookDepth, BookLevel, FillMetadata, LimitOrder, OrderEvent,
    OrderType, Side, Trade,
};

verus! {

/// The number of orders that an order book pre-allocates by default.
pub const DEFAULT_ARENA_CAPACITY: usize = 10_000;

/// The capacity that a freshly created price-level queue reserves by
/// default.
pub const DEFAULT_QUEUE_CAPACITY: usize = 10;

/// One price level of a side: the FIFO queue of arena handles resting at
/// that price. A level whose queue is empty is a hole left behind by
/// matching or cancellation; it has no effect on the book's behaviour.
#[derive(Debug, Clone)]
struct PriceLevel {
    price: u64,
    queue: Vec<usize>,
}

// ---------------------------------------------------------------------------
// The abstract matching model.
// ---------------------------------------------------------------------------

/// Whether a maker at `maker_price` is an acceptable counterparty for a
/// taker on side `taker_side` with the given limit price. Market orders
/// (`limit == None`) accept any price; limit orders accept equal or better
/// prices.
pub open spec fn price_crosses(taker_side: Side, limit: Option<u64>, maker_price: u64) -> bool {
    match limit {
        Option::None => true,
        Option::Some(lp) => match taker_side {
            Side::Bid => maker_price <= lp,
            Side::Ask => maker_price >= lp,
        },
    }
}

/// The fills produced by matching a taker of `qty` against the maker
/// sequence `makers` (in priority order): each maker in turn trades
/// `min(remaining, maker.qty)` until the taker is exhausted, the sequence
/// ends, or the front maker's price no longer crosses. Dead makers
/// (`qty == 0`) are skipped.
pub open spec fn match_fills(
    makers: Seq<LimitOrder>,
    taker_id: u128,
    taker_side: Side,
    limit: Option<u64>,
    qty: u64,
) -> Seq<FillMetadata>
    decreases makers.len(),
{
    if qty == 0 || makers.len() == 0 {
        Seq::empty()
    } else {
        let m = makers[0];
        if !price_crosses(taker_side, limit, m.price) {
            Seq::empty()
        } else if m.qty == 0 {
            match_fills(makers.drop_first(), taker_id, taker_side, limit, qty)
        } else {
            let traded = if qty >= m.qty {
                m.qty
            } else {
                qty
            };
            seq![
                FillMetadata {
                    order_1: taker_id,
                    order_2: m.id,
                    qty: traded,
                    price: m.price,
                    taker_side,
                    total_fill: traded == m.qty,
                },
            ] + match_fills(
                makers.drop_first(),
                taker_id,
                taker_side,
                limit,
                (qty - traded) as u64,
            )
        }
    }
}

/// The maker sequence left over after the matching described by
/// [`match_fills`]: fully consumed and dead makers are dropped, a partially
/// consumed front maker remains with its quantity reduced, and everything
/// from the first non-crossing maker on is untouched.
pub open spec fn consume_orders(
    makers: Seq<LimitOrder>,
    taker_side: Side,
    limit: Option<u64>,
    qty: u64,
) -> Seq<LimitOrder>
    decreases makers.len(),
{
    if qty == 0 || makers.len() == 0 {
        makers
    } else {
        let m = makers[0];
        if !price_crosses(taker_side, limit, m.price) {
            makers
        } else if m.qty == 0 {
            consume_orders(makers.drop_first(), taker_side, limit, qty)
        } else if qty >= m.qty {
            consume_orders(makers.drop_first(), taker_side, limit, (qty - m.qty) as u64)
        } else {
            seq![LimitOrder { id: m.id, qty: (m.qty - qty) as u64, price: m.price }]
                + makers.drop_first()
        }
    }
}

/// The taker quantity still unfilled after the matching described by
/// [`match_fills`].
pub open spec fn remaining_after(
    makers: Seq<LimitOrder>,
    taker_side: Side,
    limit: Option<u64>,
    qty: u64,
) -> u64
    decreases makers.len(),
{
    if qty == 0 || makers.len() == 0 {
        qty
    } else {
        let m = makers[0];
        if !price_crosses(taker_side, limit, m.price) {
            qty
        } else if m.qty == 0 {
            remaining_after(makers.drop_first(), taker_side, limit, qty)
        } else if qty >= m.qty {
            remaining_after(makers.drop_first(), taker_side, limit, (qty - m.qty) as u64)
        } else {
            0
        }
    }
}

/// A resting order inserted into a priority-ordered maker sequence: it goes
/// behind every maker whose price is equal or better, and in front of the
/// rest, so FIFO order within a price is preserved.
pub open spec fn insert_order(orders: Seq<LimitOrder>, side: Side, o: LimitOrder) -> Seq<LimitOrder>
    decreases orders.len(),
{
    if orders.len() == 0 {
        seq![o]
    } else if (match side {
        Side::Ask => orders[0].price <= o.price,
        Side::Bid => orders[0].price >= o.price,
    }) {
        seq![orders[0]] + insert_order(orders.drop_first(), side, o)
    } else {
        seq![o] + orders
    }
}

/// The sequence with the first order of the given id removed, and the
/// sequence itself where no order has that id.
pub open spec fn remove_id(orders: Seq<LimitOrder>, id: u128) -> Seq<LimitOrder>
    decreases orders.len(),
{
    if orders.len() == 0 {
        orders
    } else if orders[0].id == id {
        orders.drop_first()
    } else {
        seq![orders[0]] + remove_id(orders.drop_first(), id)
    }
}

/// Whether some order in the sequence has the given id.
pub open spec fn contains_id(orders: Seq<LimitOrder>, id: u128) -> bool {
    exists|k: int| 0 <= k < orders.len() && (#[trigger] orders[k]).id == id
}

/// The price of the best (front) order of a priority-ordered sequence.
pub open spec fn best_price(orders: Seq<LimitOrder>) -> Option<u64> {
    if orders.len() == 0 {
        Option::None
    } else {
        Option::Some(orders[0].price)
    }
}

/// A well-formed maker sequence for one side: every order is live and the
/// prices never improve along the sequence (they are non-decreasing for
/// asks and non-increasing for bids, best first).
pub open spec fn side_ok(orders: Seq<LimitOrder>, side: Side) -> bool {
    &&& forall|k: int| 0 <= k < orders.len() ==> (#[trigger] orders[k]).qty > 0
    &&& forall|i: int, j: int|
        0 <= i <= j < orders.len() ==> match side {
            Side::Ask => (#[trigger] orders[i]).price <= (#[trigger] orders[j]).price,
            Side::Bid => (#[trigger] orders[i]).price >= (#[trigger] orders[j]).price,
        }
}

/// No two orders of the sequence share an id.
pub open spec fn ids_unique(orders: Seq<LimitOrder>) -> bool {
    forall|i: int, j: int|
        0 <= i < j < orders.len() ==> (#[trigger] orders[i]).id != (#[trigger] orders[j]).id
}

/// The book is uncrossed: whenever both top-of-book prices are set, the
/// best bid is strictly below the best ask.
pub open spec fn uncrossed(max_bid: Option<u64>, min_ask: Option<u64>) -> bool {
    match (max_bid, min_ask) {
        (Option::Some(b), Option::Some(a)) => b < a,
        _ => true,
    }
}

/// The event that a taker command with the given fills must produce: the
/// no-fill event when nothing matched, `PartiallyFilled` when some taker
/// quantity is left, and `Filled` when all of it traded; the reported
/// filled quantity is always the sum of the fill quantities.
pub open spec fn taker_event_ok(
    ev: OrderEvent,
    id: u128,
    qty: u64,
    fills_s: Seq<FillMetadata>,
    none_event: OrderEvent,
) -> bool {
    if fills_s.len() == 0 {
        ev == none_event
    } else if fills_qty_sum(fills_s) < qty {
        ev matches OrderEvent::PartiallyFilled { id: eid, filled_qty, fills }
            && eid == id && filled_qty == fills_qty_sum(fills_s) && fills@ == fills_s
    } else {
        ev matches OrderEvent::Filled { id: eid, filled_qty, fills }
            && eid == id && filled_qty == fills_qty_sum(fills_s) && fills@ == fills_s
    }
}

/// How the running statistics react to a command: when tracking is on and
/// the command produced fills, the traded volume grows by the filled
/// quantity (saturating), and the last trade records the filled quantity,
/// the quote volume moved, and the final fill; otherwise nothing changes.
pub open spec fn stats_after(
    pre_volume: u64,
    pre_last: Option<Trade>,
    track: bool,
    fills_s: Seq<FillMetadata>,
    post_volume: u64,
    post_last: Option<Trade>,
) -> bool {
    if track && fills_s.len() > 0 {
        &&& post_volume == (if pre_volume + fills_qty_sum(fills_s) <= u64::MAX {
            (pre_volume + fills_qty_sum(fills_s)) as u64
        } else {
            u64::MAX
        })
        &&& post_last == Option::Some(
            Trade {
                total_qty: fills_qty_sum(fills_s) as u64,
                quote_volume: fills_quote_sum(fills_s) as u128,
                last_price: fills_s.last().price,
                last_qty: fills_s.last().qty,
            },
        )
    } else {
        &&& post_volume == pre_volume
        &&& post_last == pre_last
    }
}

/// The full effect of one command on the book model: which events may be
/// returned, how both sides change, and that a limit residue rests with
/// exactly the unfilled quantity.
pub open spec fn command_ok(pre: OrderBook, post: OrderBook, cmd: OrderType, ev: OrderEvent) -> bool {
    match cmd {
        OrderType::Market { id, side, qty } => {
            let makers = pre.opposite_orders(side);
            let fills_s = match_fills(makers, id, side, Option::<u64>::None, qty);
            &&& taker_event_ok(ev, id, qty, fills_s, OrderEvent::Unfilled { id })
            &&& post.opposite_orders(side) == consume_orders(
                makers,
                side,
                Option::<u64>::None,
                qty,
            )
            &&& post.same_orders(side) == pre.same_orders(side)
        },
        OrderType::Limit { id, side, qty, price } => {
            let makers = pre.opposite_orders(side);
            let fills_s = match_fills(makers, id, side, Option::Some(price), qty);
            let rem = remaining_after(makers, side, Option::Some(price), qty);
            &&& taker_event_ok(ev, id, qty, fills_s, OrderEvent::Placed { id })
            &&& post.opposite_orders(side) == consume_orders(makers, side, Option::Some(price), qty)
            &&& post.same_orders(side) == (if rem > 0 {
                insert_order(pre.same_orders(side), side, LimitOrder { id, qty: rem, price })
            } else {
                pre.same_orders(side)
            })
        },
        OrderType::Cancel { id } => {
            &&& ev == OrderEvent::Canceled { id }
            &&& post.ask_orders() == remove_id(pre.ask_orders(), id)
            &&& post.bid_orders() == remove_id(pre.bid_orders(), id)
        },
    }
}

/// How many orders at the front of the sequence rest at price `p`.
pub open spec fn price_run(orders: Seq<LimitOrder>, p: u64) -> int
    decreases orders.len(),
{
    if orders.len() == 0 || orders[0].price != p {
        0
    } else {
        1 + price_run(orders.drop_first(), p)
    }
}

/// The total quantity resting in a sequence of orders.
pub open spec fn orders_qty_sum(orders: Seq<LimitOrder>) -> int
    decreases orders.len(),
{
    if orders.len() == 0 {
        0
    } else {
        orders_qty_sum(orders.drop_last()) + orders.last().qty
    }
}

/// Saturating conversion of a non-negative amount into a `u64`.
pub open spec fn sat_u64(x: int) -> u64 {
    if x > u64::MAX {
        u64::MAX
    } else {
        x as u64
    }
}

/// The price run is between zero and the sequence's length, and positive
/// exactly when the front order rests at `p`.
pub proof fn lemma_price_run_bounds(orders: Seq<LimitOrder>, p: u64)
    ensures
        0 <= price_run(orders, p) <= orders.len(),
        orders.len() > 0 && orders[0].price == p ==> price_run(orders, p) >= 1,
        forall|k: int| 0 <= k < price_run(orders, p) ==> (#[trigger] orders[k]).price == p,
    decreases orders.len(),
{
    if orders.len() == 0 || orders[0].price != p {
    } else {
        lemma_price_run_bounds(orders.drop_first(), p);
        let n = price_run(orders, p);
        assert forall|k: int| 0 <= k < n implies (#[trigger] orders[k]).price == p by {
            if k > 0 {
                assert(orders.drop_first()[k - 1].price == p);
            }
        }
    }
}

/// The book depth of a priority-ordered sequence: one level per run of
/// equal prices, carrying the saturated total quantity of the run.
pub open spec fn depth_of(orders: Seq<LimitOrder>) -> Seq<BookLevel>
    decreases orders.len(),
    via depth_of_decreases
{
    if orders.len() == 0 {
        Seq::empty()
    } else {
        let p = orders[0].price;
        let n = price_run(orders, p);
        seq![BookLevel { price: p, qty: sat_u64(orders_qty_sum(orders.take(n))) }] + depth_of(
            orders.skip(n),
        )
    }
}

#[via_fn]
proof fn depth_of_decreases(orders: Seq<LimitOrder>) {
    if orders.len() > 0 {
        lemma_price_run_bounds(orders, orders[0].price);
    }
}

/// The price run of a same-priced block followed by a different price is
/// the block.
proof fn lemma_price_run_concat(a: Seq<LimitOrder>, b: Seq<LimitOrder>, p: u64)
    requires
        forall|k: int| 0 <= k < a.len() ==> (#[trigger] a[k]).price == p,
        b.len() > 0 ==> b[0].price != p,
    ensures
        price_run(a + b, p) == a.len(),
    decreases a.len(),
{
    if a.len() == 0 {
        assert(a + b =~= b);
    } else {
        let resta = a.drop_first();
        assert forall|k: int| 0 <= k < resta.len() implies (#[trigger] resta[k]).price == p by {
            assert(a[k + 1].price == p);
        }
        lemma_price_run_concat(resta, b, p);
        assert((a + b)[0] == a[0]);
        assert((a + b).drop_first() =~= resta + b);
    }
}

/// Depth grouping: a non-empty block of orders at one price followed by
/// worse-priced orders contributes exactly one level.
proof fn lemma_depth_of_group(a: Seq<LimitOrder>, b: Seq<LimitOrder>, p: u64)
    requires
        a.len() > 0,
        forall|k: int| 0 <= k < a.len() ==> (#[trigger] a[k]).price == p,
        b.len() > 0 ==> b[0].price != p,
    ensures
        depth_of(a + b) == seq![BookLevel { price: p, qty: sat_u64(orders_qty_sum(a)) }]
            + depth_of(b),
{
    lemma_price_run_concat(a, b, p);
    lemma_price_run_bounds(a + b, p);
    assert((a + b)[0] == a[0]);
    assert((a + b).take(a.len() as int) =~= a);
    assert((a + b).skip(a.len() as int) =~= b);
    if b.len() > 0 {
        lemma_price_run_bounds(b, b[0].price);
    }
}

/// The per-level depth of a side, in level (ascending) order, skipping
/// empty queues.
spec fn side_depth(slots: Seq<LimitOrder>, levels: Seq<PriceLevel>) -> Seq<BookLevel>
    decreases levels.len(),
{
    if levels.len() == 0 {
        Seq::empty()
    } else {
        let head: Seq<BookLevel> = if levels[0].queue@.len() > 0 {
            seq![
                BookLevel {
                    price: levels[0].price,
                    qty: sat_u64(orders_qty_sum(level_orders(slots, levels[0].queue@))),
                },
            ]
        } else {
            Seq::empty()
        };
        head + side_depth(slots, levels.drop_first())
    }
}

/// The per-level depth also satisfies a last-level recursion.
proof fn lemma_side_depth_snoc(slots: Seq<LimitOrder>, levels: Seq<PriceLevel>)
    requires
        levels.len() > 0,
    ensures
        side_depth(slots, levels) == side_depth(slots, levels.drop_last()) + (if levels.last().queue@.len()
            > 0 {
            seq![
                BookLevel {
                    price: levels.last().price,
                    qty: sat_u64(orders_qty_sum(level_orders(slots, levels.last().queue@))),
                },
            ]
        } else {
            Seq::<BookLevel>::empty()
        }),
    decreases levels.len(),
{
    if levels.len() == 1 {
        assert(levels.drop_last() =~= Seq::<PriceLevel>::empty());
        assert(levels.drop_first() =~= Seq::<PriceLevel>::empty());
        assert(levels[0] == levels.last());
        assert(side_depth(slots, levels) =~= side_depth(slots, levels.drop_last()) + (if levels.last().queue@.len()
            > 0 {
            seq![
                BookLevel {
                    price: levels.last().price,
                    qty: sat_u64(orders_qty_sum(level_orders(slots, levels.last().queue@))),
                },
            ]
        } else {
            Seq::<BookLevel>::empty()
        }));
    } else {
        let rest = levels.drop_first();
        lemma_side_depth_snoc(slots, rest);
        assert(rest.last() == levels.last());
        assert(levels.drop_last()[0] == levels[0]);
        assert(levels.drop_last().drop_first() =~= rest.drop_last());
        assert(side_depth(slots, levels) =~= side_depth(slots, levels.drop_last()) + (if levels.last().queue@.len()
            > 0 {
            seq![
                BookLevel {
                    price: levels.last().price,
                    qty: sat_u64(orders_qty_sum(level_orders(slots, levels.last().queue@))),
                },
            ]
        } else {
            Seq::<BookLevel>::empty()
        }));
    }
}

/// On a well-formed side, the per-level depth in ascending order is the
/// depth of the ascending model sequence.
proof fn lemma_side_depth_up(slots: Seq<LimitOrder>, idx: Map<u128, usize>, levels: Seq<PriceLevel>)
    requires
        side_wf(slots, idx, levels),
    ensures
        side_depth(slots, levels) == depth_of(level_orders(slots, side_handles(levels))),
    decreases levels.len(),
{
    if levels.len() == 0 {
        assert(side_depth(slots, levels) =~= depth_of(level_orders(slots, side_handles(levels))));
    } else {
        let rest = levels.drop_first();
        assert forall|i: int, j: int| 0 <= i < j < rest.len() implies (#[trigger] rest[i]).price
            < (#[trigger] rest[j]).price by {
            assert(levels[i + 1].price < levels[j + 1].price);
        }
        assert forall|i: int| 0 <= i < rest.len() implies level_wf(slots, idx, #[trigger] rest[i]) by {
            assert(level_wf(slots, idx, levels[i + 1]));
        }
        lemma_side_depth_up(slots, idx, rest);
        let a = level_orders(slots, levels[0].queue@);
        let b = level_orders(slots, side_handles(rest));
        lemma_level_orders_split(slots, levels[0].queue@, side_handles(rest));
        assert(level_orders(slots, side_handles(levels)) == a + b);
        assert(level_wf(slots, idx, levels[0]));
        if levels[0].queue@.len() == 0 {
            assert(a =~= Seq::<LimitOrder>::empty());
            assert(a + b =~= b);
            assert(side_depth(slots, levels) =~= side_depth(slots, rest));
        } else {
            let p = levels[0].price;
            assert forall|k: int| 0 <= k < a.len() implies (#[trigger] a[k]).price == p by {
                assert(a[k] == slots[levels[0].queue@[k] as int]);
            }
            if b.len() > 0 {
                lemma_flat_up_ok(slots, idx, rest);
                assert(b[0].price >= rest[0].price);
                assert(rest[0] == levels[1]);
                assert(p < levels[1].price);
            }
            lemma_depth_of_group(a, b, p);
            assert(side_depth(slots, levels) =~= seq![
                BookLevel { price: p, qty: sat_u64(orders_qty_sum(a)) },
            ] + side_depth(slots, rest));
        }
    }
}

/// The per-level depth of a side, in descending level order (best bid
/// first), skipping empty queues.
spec fn side_depth_down(slots: Seq<LimitOrder>, levels: Seq<PriceLevel>) -> Seq<BookLevel>
    decreases levels.len(),
{
    if levels.len() == 0 {
        Seq::empty()
    } else {
        let head: Seq<BookLevel> = if levels.last().queue@.len() > 0 {
            seq![
                BookLevel {
                    price: levels.last().price,
                    qty: sat_u64(orders_qty_sum(level_orders(slots, levels.last().queue@))),
                },
            ]
        } else {
            Seq::empty()
        };
        head + side_depth_down(slots, levels.drop_last())
    }
}

/// The descending per-level depth also satisfies a first-level recursion:
/// the lowest level's entry comes last.
proof fn lemma_side_depth_down_cons(slots: Seq<LimitOrder>, levels: Seq<PriceLevel>)
    requires
        levels.len() > 0,
    ensures
        side_depth_down(slots, levels) == side_depth_down(slots, levels.drop_first()) + (if levels[0].queue@.len()
            > 0 {
            seq![
                BookLevel {
                    price: levels[0].price,
                    qty: sat_u64(orders_qty_sum(level_orders(slots, levels[0].queue@))),
                },
            ]
        } else {
            Seq::<BookLevel>::empty()
        }),
    decreases levels.len(),
{
    let tail: Seq<BookLevel> = if levels[0].queue@.len() > 0 {
        seq![
            BookLevel {
                price: levels[0].price,
                qty: sat_u64(orders_qty_sum(level_orders(slots, levels[0].queue@))),
            },
        ]
    } else {
        Seq::<BookLevel>::empty()
    };
    if levels.len() == 1 {
        assert(levels.drop_last() =~= Seq::<PriceLevel>::empty());
        assert(levels.drop_first() =~= Seq::<PriceLevel>::empty());
        assert(levels[0] == levels.last());
        assert(side_depth_down(slots, levels) =~= side_depth_down(slots, levels.drop_first())
            + tail);
    } else {
        let rest = levels.drop_last();
        lemma_side_depth_down_cons(slots, rest);
        assert(rest[0] == levels[0]);
        assert(levels.drop_first().last() == levels.last());
        assert(levels.drop_first().drop_last() =~= rest.drop_first());
        assert(side_depth_down(slots, levels) =~= side_depth_down(slots, levels.drop_first())
            + tail);
    }
}

/// On a well-formed side, the per-level depth in descending order is the
/// depth of the descending model sequence.
proof fn lemma_side_depth_down(
    slots: Seq<LimitOrder>,
    idx: Map<u128, usize>,
    levels: Seq<PriceLevel>,
)
    requires
        side_wf(slots, idx, levels),
    ensures
        side_depth_down(slots, levels) == depth_of(level_orders(slots, side_handles_down(levels))),
    decreases levels.len(),
{
    if levels.len() == 0 {
        assert(side_depth_down(slots, levels) =~= depth_of(
            level_orders(slots, side_handles_down(levels)),
        ));
    } else {
        let rest = levels.drop_last();
        assert forall|i: int| 0 <= i < rest.len() implies level_wf(slots, idx, #[trigger] rest[i]) by {
            assert(level_wf(slots, idx, levels[i]));
        }
        lemma_side_depth_down(slots, idx, rest);
        let a = level_orders(slots, levels.last().queue@);
        let b = level_orders(slots, side_handles_down(rest));
        lemma_level_orders_split(slots, levels.last().queue@, side_handles_down(rest));
        assert(level_orders(slots, side_handles_down(levels)) == a + b);
        assert(level_wf(slots, idx, levels[levels.len() - 1]));
        if levels.last().queue@.len() == 0 {
            assert(a =~= Seq::<LimitOrder>::empty());
            assert(a + b =~= b);
            assert(side_depth_down(slots, levels) =~= side_depth_down(slots, rest));
        } else {
            let p = levels.last().price;
            assert forall|k: int| 0 <= k < a.len() implies (#[trigger] a[k]).price == p by {
                assert(a[k] == slots[levels.last().queue@[k] as int]);
            }
            if b.len() > 0 {
                lemma_flat_down_ok(slots, idx, rest);
                assert(b[0].price <= rest.last().price);
                assert(rest.last() == levels[levels.len() - 2]);
                assert(levels[levels.len() - 2].price < p);
            }
            lemma_depth_of_group(a, b, p);
            let lvl = BookLevel { price: p, qty: sat_u64(orders_qty_sum(a)) };
            assert(depth_of(a + b) == seq![lvl] + depth_of(b));
            assert(side_depth_down(slots, levels) =~= seq![lvl] + side_depth_down(slots, rest));
        }
    }
}

/// The fills that a command produces, as the model describes them.
pub open spec fn command_fills(pre: OrderBook, cmd: OrderType) -> Seq<FillMetadata> {
    match cmd {
        OrderType::Market { id, side, qty } => match_fills(
            pre.opposite_orders(side),
            id,
            side,
            Option::<u64>::None,
            qty,
        ),
        OrderType::Limit { id, side, qty, price } => match_fills(
            pre.opposite_orders(side),
            id,
            side,
            Option::Some(price),
            qty,
        ),
        OrderType::Cancel { id } => Seq::empty(),
    }
}

// ---------------------------------------------------------------------------
// Lemmas about the abstract matching model.
// ---------------------------------------------------------------------------

/// Dropping the front order keeps a maker sequence well-formed.
proof fn lemma_side_ok_drop_first(orders: Seq<LimitOrder>, side: Side)
    requires
        side_ok(orders, side),
        orders.len() > 0,
    ensures
        side_ok(orders.drop_first(), side),
{
    let rest = orders.drop_first();
    assert forall|k: int| 0 <= k < rest.len() implies (#[trigger] rest[k]).qty > 0 by {
        assert(orders[k + 1].qty > 0);
    }
    assert forall|i: int, j: int| 0 <= i <= j < rest.len() implies match side {
        Side::Ask => (#[trigger] rest[i]).price <= (#[trigger] rest[j]).price,
        Side::Bid => (#[trigger] rest[i]).price >= (#[trigger] rest[j]).price,
    } by {
        assert(match side {
            Side::Ask => orders[i + 1].price <= orders[j + 1].price,
            Side::Bid => orders[i + 1].price >= orders[j + 1].price,
        });
    }
}

/// Matching accounting: the taker quantity never grows, the fills sum to
/// exactly the consumed quantity, every fill moves a positive quantity on
/// behalf of the taker at a crossing price, and there are no fills exactly
/// when nothing was consumed.
pub proof fn lemma_match_accounting(
    makers: Seq<LimitOrder>,
    taker_id: u128,
    taker_side: Side,
    limit: Option<u64>,
    qty: u64,
)
    ensures
        remaining_after(makers, taker_side, limit, qty) <= qty,
        fills_qty_sum(match_fills(makers, taker_id, taker_side, limit, qty)) == qty
            - remaining_after(makers, taker_side, limit, qty),
        match_fills(makers, taker_id, taker_side, limit, qty).len() == 0 <==> remaining_after(
            makers,
            taker_side,
            limit,
            qty,
        ) == qty,
        forall|j: int|
            0 <= j < match_fills(makers, taker_id, taker_side, limit, qty).len() ==> {
                let f = #[trigger] match_fills(makers, taker_id, taker_side, limit, qty)[j];
                &&& f.qty > 0
                &&& f.order_1 == taker_id
                &&& f.taker_side == taker_side
                &&& price_crosses(taker_side, limit, f.price)
            },
    decreases makers.len(),
{
    let fills = match_fills(makers, taker_id, taker_side, limit, qty);
    if qty == 0 || makers.len() == 0 {
    } else {
        let m = makers[0];
        let rest = makers.drop_first();
        if !price_crosses(taker_side, limit, m.price) {
        } else if m.qty == 0 {
            lemma_match_accounting(rest, taker_id, taker_side, limit, qty);
        } else {
            let traded = if qty >= m.qty {
                m.qty
            } else {
                qty
            };
            let f = FillMetadata {
                order_1: taker_id,
                order_2: m.id,
                qty: traded,
                price: m.price,
                taker_side,
                total_fill: traded == m.qty,
            };
            let next = (qty - traded) as u64;
            lemma_match_accounting(rest, taker_id, taker_side, limit, next);
            crate::models::lemma_fills_qty_sum_cons(
                f,
                match_fills(rest, taker_id, taker_side, limit, next),
            );
            if qty >= m.qty {
            } else {
                assert(remaining_after(makers, taker_side, limit, qty) == 0);
            }
        }
    }
}

/// Matching a concatenation whose first part crosses entirely works part by
/// part: first everything in `a` is consumed, then matching continues into
/// `b` with what remains of the taker.
proof fn lemma_match_append(
    a: Seq<LimitOrder>,
    b: Seq<LimitOrder>,
    taker_id: u128,
    taker_side: Side,
    limit: Option<u64>,
    qty: u64,
)
    requires
        forall|k: int| 0 <= k < a.len() ==> price_crosses(taker_side, limit, (#[trigger] a[k]).price),
    ensures
        match_fills(a + b, taker_id, taker_side, limit, qty) == match_fills(
            a,
            taker_id,
            taker_side,
            limit,
            qty,
        ) + match_fills(b, taker_id, taker_side, limit, remaining_after(a, taker_side, limit, qty)),
        consume_orders(a + b, taker_side, limit, qty) == consume_orders(a, taker_side, limit, qty)
            + consume_orders(b, taker_side, limit, remaining_after(a, taker_side, limit, qty)),
        remaining_after(a + b, taker_side, limit, qty) == remaining_after(
            b,
            taker_side,
            limit,
            remaining_after(a, taker_side, limit, qty),
        ),
    decreases a.len(),
{
    if a.len() == 0 {
        assert(a + b =~= b);
        assert(match_fills(a, taker_id, taker_side, limit, qty) =~= Seq::<FillMetadata>::empty());
        assert(consume_orders(a, taker_side, limit, qty) =~= Seq::<LimitOrder>::empty());
        assert(match_fills(a, taker_id, taker_side, limit, qty) + match_fills(
            b,
            taker_id,
            taker_side,
            limit,
            qty,
        ) =~= match_fills(b, taker_id, taker_side, limit, qty));
        assert(consume_orders(a, taker_side, limit, qty) + consume_orders(b, taker_side, limit, qty)
            =~= consume_orders(b, taker_side, limit, qty));
    } else if qty == 0 {
        assert((a + b)[0] == a[0]);
        assert(match_fills(a + b, taker_id, taker_side, limit, qty) =~= match_fills(
            a,
            taker_id,
            taker_side,
            limit,
            qty,
        ) + match_fills(b, taker_id, taker_side, limit, 0));
        assert(consume_orders(a + b, taker_side, limit, qty) =~= consume_orders(
            a,
            taker_side,
            limit,
            qty,
        ) + consume_orders(b, taker_side, limit, 0));
    } else {
        let m = a[0];
        assert((a + b)[0] == m);
        assert(price_crosses(taker_side, limit, m.price));
        let resta = a.drop_first();
        assert((a + b).drop_first() =~= resta + b);
        if m.qty == 0 {
            lemma_match_append(resta, b, taker_id, taker_side, limit, qty);
        } else if qty >= m.qty {
            let next = (qty - m.qty) as u64;
            lemma_match_append(resta, b, taker_id, taker_side, limit, next);
            let f = FillMetadata {
                order_1: taker_id,
                order_2: m.id,
                qty: m.qty,
                price: m.price,
                taker_side,
                total_fill: true,
            };
            assert(match_fills(a + b, taker_id, taker_side, limit, qty) =~= (seq![f] + match_fills(
                resta,
                taker_id,
                taker_side,
                limit,
                next,
            )) + match_fills(b, taker_id, taker_side, limit, remaining_after(a, taker_side, limit, qty)));
        } else {
            let f = FillMetadata {
                order_1: taker_id,
                order_2: m.id,
                qty,
                price: m.price,
                taker_side,
                total_fill: false,
            };
            let reduced = LimitOrder { id: m.id, qty: (m.qty - qty) as u64, price: m.price };
            assert(remaining_after(a, taker_side, limit, qty) == 0);
            assert((qty - qty) as u64 == 0);
            assert(match_fills((a + b).drop_first(), taker_id, taker_side, limit, 0)
                == Seq::<FillMetadata>::empty());
            assert(match_fills(resta, taker_id, taker_side, limit, 0)
                == Seq::<FillMetadata>::empty());
            assert(match_fills(b, taker_id, taker_side, limit, 0) == Seq::<FillMetadata>::empty());
            assert(match_fills(a + b, taker_id, taker_side, limit, qty) == seq![f] + match_fills(
                (a + b).drop_first(),
                taker_id,
                taker_side,
                limit,
                0,
            ));
            assert(match_fills(a, taker_id, taker_side, limit, qty) == seq![f] + match_fills(
                resta,
                taker_id,
                taker_side,
                limit,
                0,
            ));
            assert(match_fills(a + b, taker_id, taker_side, limit, qty) =~= match_fills(
                a,
                taker_id,
                taker_side,
                limit,
                qty,
            ) + match_fills(b, taker_id, taker_side, limit, 0));
            assert(consume_orders(b, taker_side, limit, 0) == b);
            assert(consume_orders(a + b, taker_side, limit, qty) == seq![reduced] + (a
                + b).drop_first());
            assert(consume_orders(a, taker_side, limit, qty) == seq![reduced] + resta);
            assert(consume_orders(a + b, taker_side, limit, qty) =~= consume_orders(
                a,
                taker_side,
                limit,
                qty,
            ) + consume_orders(b, taker_side, limit, 0));
        }
    }
}

/// When every maker crosses the limit price, matching with the limit and
/// matching without one agree.
proof fn lemma_match_limit_none(
    makers: Seq<LimitOrder>,
    taker_id: u128,
    taker_side: Side,
    limit: Option<u64>,
    qty: u64,
)
    requires
        forall|k: int|
            0 <= k < makers.len() ==> price_crosses(taker_side, limit, (#[trigger] makers[k]).price),
    ensures
        match_fills(makers, taker_id, taker_side, limit, qty) == match_fills(
            makers,
            taker_id,
            taker_side,
            Option::<u64>::None,
            qty,
        ),
        consume_orders(makers, taker_side, limit, qty) == consume_orders(
            makers,
            taker_side,
            Option::<u64>::None,
            qty,
        ),
        remaining_after(makers, taker_side, limit, qty) == remaining_after(
            makers,
            taker_side,
            Option::<u64>::None,
            qty,
        ),
    decreases makers.len(),
{
    if qty == 0 || makers.len() == 0 {
    } else {
        let rest = makers.drop_first();
        assert forall|k: int| 0 <= k < rest.len() implies price_crosses(
            taker_side,
            limit,
            (#[trigger] rest[k]).price,
        ) by {
            assert(makers[k + 1] == rest[k]);
        }
        let m = makers[0];
        assert(price_crosses(taker_side, limit, m.price));
        if m.qty == 0 {
            lemma_match_limit_none(rest, taker_id, taker_side, limit, qty);
            assert(match_fills(makers, taker_id, taker_side, limit, qty) == match_fills(
                rest,
                taker_id,
                taker_side,
                limit,
                qty,
            ));
            assert(match_fills(makers, taker_id, taker_side, Option::<u64>::None, qty)
                == match_fills(rest, taker_id, taker_side, Option::<u64>::None, qty));
            assert(consume_orders(makers, taker_side, limit, qty) == consume_orders(
                rest,
                taker_side,
                limit,
                qty,
            ));
            assert(consume_orders(makers, taker_side, Option::<u64>::None, qty) == consume_orders(
                rest,
                taker_side,
                Option::<u64>::None,
                qty,
            ));
        } else if qty >= m.qty {
            let next = (qty - m.qty) as u64;
            lemma_match_limit_none(rest, taker_id, taker_side, limit, next);
            let f = FillMetadata {
                order_1: taker_id,
                order_2: m.id,
                qty: m.qty,
                price: m.price,
                taker_side,
                total_fill: true,
            };
            assert(match_fills(makers, taker_id, taker_side, limit, qty) == seq![f] + match_fills(
                rest,
                taker_id,
                taker_side,
                limit,
                next,
            ));
            assert(match_fills(makers, taker_id, taker_side, Option::<u64>::None, qty) == seq![f]
                + match_fills(rest, taker_id, taker_side, Option::<u64>::None, next));
            assert(consume_orders(makers, taker_side, limit, qty) == consume_orders(
                rest,
                taker_side,
                limit,
                next,
            ));
            assert(consume_orders(makers, taker_side, Option::<u64>::None, qty) == consume_orders(
                rest,
                taker_side,
                Option::<u64>::None,
                next,
            ));
        } else {
            let f = FillMetadata {
                order_1: taker_id,
                order_2: m.id,
                qty,
                price: m.price,
                taker_side,
                total_fill: false,
            };
            lemma_match_limit_none(rest, taker_id, taker_side, limit, 0);
            assert((qty - qty) as u64 == 0);
            assert(match_fills(makers, taker_id, taker_side, limit, qty) == seq![f] + match_fills(
                rest,
                taker_id,
                taker_side,
                limit,
                0,
            ));
            assert(match_fills(makers, taker_id, taker_side, Option::<u64>::None, qty) == seq![f]
                + match_fills(rest, taker_id, taker_side, Option::<u64>::None, 0));
            let reduced = LimitOrder { id: m.id, qty: (m.qty - qty) as u64, price: m.price };
            assert(consume_orders(makers, taker_side, limit, qty) == seq![reduced] + rest);
            assert(consume_orders(makers, taker_side, Option::<u64>::None, qty) == seq![reduced]
                + rest);
        }
    }
}

/// What matching leaves of a priced side never beats the side's old best
/// price.
proof fn lemma_consume_price_bound(
    makers: Seq<LimitOrder>,
    maker_side: Side,
    taker_side: Side,
    limit: Option<u64>,
    qty: u64,
)
    requires
        side_ok(makers, maker_side),
        makers.len() > 0,
    ensures
        forall|j: int|
            0 <= j < consume_orders(makers, taker_side, limit, qty).len() ==> match maker_side {
                Side::Ask => (#[trigger] consume_orders(makers, taker_side, limit, qty)[j]).price
                    >= makers[0].price,
                Side::Bid => (#[trigger] consume_orders(makers, taker_side, limit, qty)[j]).price
                    <= makers[0].price,
            },
    decreases makers.len(),
{
    let c = consume_orders(makers, taker_side, limit, qty);
    let m = makers[0];
    let rest = makers.drop_first();
    if qty == 0 || !price_crosses(taker_side, limit, m.price) {
        assert(c == makers);
    } else if qty >= m.qty {
        if rest.len() > 0 {
            lemma_side_ok_drop_first(makers, maker_side);
            lemma_consume_price_bound(rest, maker_side, taker_side, limit, (qty - m.qty) as u64);
            assert(rest[0] == makers[1]);
        } else {
            assert(consume_orders(rest, taker_side, limit, (qty - m.qty) as u64).len() == 0);
        }
    } else {
        assert(c[0].price == m.price);
        assert forall|j: int| 1 <= j < c.len() implies c[j] == makers[j] by {
            assert(c[j] == rest[j - 1]);
        }
    }
}

/// If a taker still has unfilled quantity after matching, nothing that is
/// left on the opposite side crosses its limit price.
proof fn lemma_consume_noncrossing(
    makers: Seq<LimitOrder>,
    taker_side: Side,
    limit: Option<u64>,
    qty: u64,
)
    requires
        side_ok(makers, taker_side.spec_opposite()),
        remaining_after(makers, taker_side, limit, qty) > 0,
    ensures
        forall|j: int|
            0 <= j < consume_orders(makers, taker_side, limit, qty).len() ==> !price_crosses(
                taker_side,
                limit,
                (#[trigger] consume_orders(makers, taker_side, limit, qty)[j]).price,
            ),
    decreases makers.len(),
{
    let c = consume_orders(makers, taker_side, limit, qty);
    if makers.len() == 0 {
    } else {
        let m = makers[0];
        let rest = makers.drop_first();
        if !price_crosses(taker_side, limit, m.price) {
            assert(c == makers);
            assert forall|j: int| 0 <= j < c.len() implies !price_crosses(
                taker_side,
                limit,
                (#[trigger] c[j]).price,
            ) by {
                assert(match taker_side.spec_opposite() {
                    Side::Ask => makers[0].price <= makers[j].price,
                    Side::Bid => makers[0].price >= makers[j].price,
                });
            }
        } else {
            assert(m.qty > 0);
            if qty >= m.qty {
                lemma_side_ok_drop_first(makers, taker_side.spec_opposite());
                let next = (qty - m.qty) as u64;
                lemma_consume_noncrossing(rest, taker_side, limit, next);
                assert(c == consume_orders(rest, taker_side, limit, next));
                assert forall|j: int| 0 <= j < c.len() implies !price_crosses(
                    taker_side,
                    limit,
                    (#[trigger] c[j]).price,
                ) by {
                    assert(c[j] == consume_orders(rest, taker_side, limit, next)[j]);
                }
            } else {
                assert(remaining_after(makers, taker_side, limit, qty) == 0);
            }
        }
    }
}

/// In a fill sequence produced against a well-formed side, prices are
/// non-improving from the taker's perspective: non-decreasing for a buyer,
/// non-increasing for a seller.
pub proof fn lemma_match_price_monotone(
    makers: Seq<LimitOrder>,
    taker_id: u128,
    taker_side: Side,
    limit: Option<u64>,
    qty: u64,
)
    requires
        side_ok(makers, taker_side.spec_opposite()),
    ensures
        forall|i: int, j: int|
            0 <= i <= j < match_fills(makers, taker_id, taker_side, limit, qty).len()
                ==> match taker_side {
                Side::Bid => (#[trigger] match_fills(makers, taker_id, taker_side, limit, qty)[i]).price
                    <= (#[trigger] match_fills(makers, taker_id, taker_side, limit, qty)[j]).price,
                Side::Ask => (#[trigger] match_fills(makers, taker_id, taker_side, limit, qty)[i]).price
                    >= (#[trigger] match_fills(makers, taker_id, taker_side, limit, qty)[j]).price,
            },
        makers.len() > 0 ==> forall|j: int|
            0 <= j < match_fills(makers, taker_id, taker_side, limit, qty).len() ==> match taker_side {
                Side::Bid => (#[trigger] match_fills(makers, taker_id, taker_side, limit, qty)[j]).price
                    >= makers[0].price,
                Side::Ask => (#[trigger] match_fills(makers, taker_id, taker_side, limit, qty)[j]).price
                    <= makers[0].price,
            },
    decreases makers.len(),
{
    let fills = match_fills(makers, taker_id, taker_side, limit, qty);
    if qty == 0 || makers.len() == 0 {
    } else {
        let m = makers[0];
        let rest = makers.drop_first();
        if !price_crosses(taker_side, limit, m.price) {
        } else {
            assert(m.qty > 0);
            lemma_side_ok_drop_first(makers, taker_side.spec_opposite());
            let traded = if qty >= m.qty {
                m.qty
            } else {
                qty
            };
            let next = (qty - traded) as u64;
            lemma_match_price_monotone(rest, taker_id, taker_side, limit, next);
            let fr = match_fills(rest, taker_id, taker_side, limit, next);
            assert(fills[0].price == m.price);
            assert forall|j: int| 1 <= j < fills.len() implies fills[j] == fr[j - 1] by {}
            assert forall|j: int| 0 <= j < fills.len() implies match taker_side {
                Side::Bid => (#[trigger] fills[j]).price >= makers[0].price,
                Side::Ask => (#[trigger] fills[j]).price <= makers[0].price,
            } by {
                if j >= 1 && rest.len() > 0 {
                    assert(fr[j - 1].price == fills[j].price);
                    assert(match taker_side.spec_opposite() {
                        Side::Ask => makers[0].price <= makers[1].price,
                        Side::Bid => makers[0].price >= makers[1].price,
                    });
                }
            }
        }
    }
}

/// Matching keeps the leftover side well-formed.
proof fn lemma_consume_side_ok(
    makers: Seq<LimitOrder>,
    maker_side: Side,
    taker_side: Side,
    limit: Option<u64>,
    qty: u64,
)
    requires
        side_ok(makers, maker_side),
    ensures
        side_ok(consume_orders(makers, taker_side, limit, qty), maker_side),
    decreases makers.len(),
{
    let c = consume_orders(makers, taker_side, limit, qty);
    if qty == 0 || makers.len() == 0 {
    } else {
        let m = makers[0];
        let rest = makers.drop_first();
        if !price_crosses(taker_side, limit, m.price) {
        } else {
            assert(m.qty > 0);
            lemma_side_ok_drop_first(makers, maker_side);
            if qty >= m.qty {
                lemma_consume_side_ok(rest, maker_side, taker_side, limit, (qty - m.qty) as u64);
            } else {
                assert forall|i: int, j: int| 0 <= i <= j < c.len() implies match maker_side {
                    Side::Ask => (#[trigger] c[i]).price <= (#[trigger] c[j]).price,
                    Side::Bid => (#[trigger] c[i]).price >= (#[trigger] c[j]).price,
                } by {
                    assert(c[i] == if i == 0 {
                        LimitOrder { id: m.id, qty: (m.qty - qty) as u64, price: m.price }
                    } else {
                        rest[i - 1]
                    });
                    assert(c[j] == if j == 0 {
                        LimitOrder { id: m.id, qty: (m.qty - qty) as u64, price: m.price }
                    } else {
                        rest[j - 1]
                    });
                    assert(match maker_side {
                        Side::Ask => makers[if i == 0 { 0 } else { i }].price <= makers[j].price,
                        Side::Bid => makers[if i == 0 { 0 } else { i }].price >= makers[j].price,
                    });
                }
                assert forall|k: int| 0 <= k < c.len() implies (#[trigger] c[k]).qty > 0 by {
                    if k > 0 {
                        assert(c[k] == rest[k - 1]);
                    }
                }
            }
        }
    }
}

/// Inserting an order between the makers that have priority over it and
/// those that do not splices it at that point.
proof fn lemma_insert_order_split(a: Seq<LimitOrder>, b: Seq<LimitOrder>, side: Side, o: LimitOrder)
    requires
        forall|k: int|
            0 <= k < a.len() ==> match side {
                Side::Ask => (#[trigger] a[k]).price <= o.price,
                Side::Bid => (#[trigger] a[k]).price >= o.price,
            },
        forall|k: int|
            0 <= k < b.len() ==> match side {
                Side::Ask => (#[trigger] b[k]).price > o.price,
                Side::Bid => (#[trigger] b[k]).price < o.price,
            },
    ensures
        insert_order(a + b, side, o) == a + seq![o] + b,
    decreases a.len(),
{
    if a.len() == 0 {
        assert(a + b =~= b);
        if b.len() == 0 {
            assert(insert_order(b, side, o) == seq![o]);
            assert(a + seq![o] + b =~= seq![o]);
        } else {
            assert(insert_order(b, side, o) == seq![o] + b);
            assert(a + seq![o] + b =~= seq![o] + b);
        }
    } else {
        let resta = a.drop_first();
        assert forall|k: int| 0 <= k < resta.len() implies match side {
            Side::Ask => (#[trigger] resta[k]).price <= o.price,
            Side::Bid => (#[trigger] resta[k]).price >= o.price,
        } by {
            assert(resta[k] == a[k + 1]);
        }
        lemma_insert_order_split(resta, b, side, o);
        assert((a + b)[0] == a[0]);
        assert((a + b).drop_first() =~= resta + b);
        assert(insert_order(a + b, side, o) == seq![a[0]] + (resta + seq![o] + b));
        assert(seq![a[0]] + (resta + seq![o] + b) =~= a + seq![o] + b);
    }
}

/// Matching introduces no new order ids: an id absent from the makers is
/// absent from what is left of them.
proof fn lemma_consume_not_contains(
    makers: Seq<LimitOrder>,
    taker_side: Side,
    limit: Option<u64>,
    qty: u64,
    id: u128,
)
    requires
        !contains_id(makers, id),
    ensures
        !contains_id(consume_orders(makers, taker_side, limit, qty), id),
    decreases makers.len(),
{
    let c = consume_orders(makers, taker_side, limit, qty);
    if qty == 0 || makers.len() == 0 {
    } else {
        let m = makers[0];
        let rest = makers.drop_first();
        assert(!contains_id(rest, id)) by {
            if contains_id(rest, id) {
                let k = choose|k: int| 0 <= k < rest.len() && (#[trigger] rest[k]).id == id;
                assert(makers[k + 1].id == id);
            }
        }
        if !price_crosses(taker_side, limit, m.price) {
        } else if m.qty == 0 || qty >= m.qty {
            lemma_consume_not_contains(rest, taker_side, limit, if m.qty == 0 {
                qty
            } else {
                (qty - m.qty) as u64
            }, id);
        } else {
            assert(m.id != id) by {
                assert(makers[0].id == m.id);
            }
            assert forall|k: int| 0 <= k < c.len() implies (#[trigger] c[k]).id != id by {
                if k > 0 {
                    assert(c[k] == rest[k - 1]);
                }
            }
            if contains_id(c, id) {
                let k = choose|k: int| 0 <= k < c.len() && (#[trigger] c[k]).id == id;
                assert(false);
            }
        }
    }
}

/// Removing an id that no order has changes nothing.
proof fn lemma_remove_id_absent(orders: Seq<LimitOrder>, id: u128)
    requires
        !contains_id(orders, id),
    ensures
        remove_id(orders, id) == orders,
    decreases orders.len(),
{
    if orders.len() == 0 {
    } else {
        assert(orders[0].id != id);
        assert(!contains_id(orders.drop_first(), id)) by {
            if contains_id(orders.drop_first(), id) {
                let k = choose|k: int|
                    0 <= k < orders.drop_first().len() && (#[trigger] orders.drop_first()[k]).id == id;
                assert(orders[k + 1].id == id);
            }
        }
        lemma_remove_id_absent(orders.drop_first(), id);
        assert(remove_id(orders, id) =~= orders);
    }
}

/// Removing the id of the first order that carries it cuts that order out.
proof fn lemma_remove_id_at(orders: Seq<LimitOrder>, id: u128, p: int)
    requires
        0 <= p < orders.len(),
        orders[p].id == id,
        forall|k: int| 0 <= k < p ==> (#[trigger] orders[k]).id != id,
    ensures
        remove_id(orders, id) == orders.take(p) + orders.skip(p + 1),
    decreases p,
{
    if p == 0 {
        assert(orders.take(0) + orders.skip(1) =~= orders.drop_first());
    } else {
        let rest = orders.drop_first();
        assert(rest[p - 1].id == id);
        assert forall|k: int| 0 <= k < p - 1 implies (#[trigger] rest[k]).id != id by {
            assert(orders[k + 1].id != id);
        }
        lemma_remove_id_at(rest, id, p - 1);
        assert(remove_id(orders, id) == seq![orders[0]] + (rest.take(p - 1) + rest.skip(p)));
        assert(seq![orders[0]] + (rest.take(p - 1) + rest.skip(p)) =~= orders.take(p) + orders.skip(
            p + 1,
        ));
    }
}

// ---------------------------------------------------------------------------
// Representation-level specification helpers.
// ---------------------------------------------------------------------------

/// The orders that a sequence of handles denotes.
spec fn level_orders(slots: Seq<LimitOrder>, q: Seq<usize>) -> Seq<LimitOrder> {
    q.map(|k: int, h: usize| slots[h as int])
}

/// The handles of a side concatenated in ascending level order.
spec fn side_handles(levels: Seq<PriceLevel>) -> Seq<usize>
    decreases levels.len(),
{
    if levels.len() == 0 {
        Seq::empty()
    } else {
        levels[0].queue@ + side_handles(levels.drop_first())
    }
}

/// The handles of a side concatenated in descending level order.
spec fn side_handles_down(levels: Seq<PriceLevel>) -> Seq<usize>
    decreases levels.len(),
{
    if levels.len() == 0 {
        Seq::empty()
    } else {
        levels.last().queue@ + side_handles_down(levels.drop_last())
    }
}

/// Splitting a side at level `i` splits its ascending handle sequence.
proof fn lemma_side_handles_split(levels: Seq<PriceLevel>, i: int)
    requires
        0 <= i <= levels.len(),
    ensures
        side_handles(levels) == side_handles(levels.take(i)) + side_handles(levels.skip(i)),
    decreases i,
{
    if i == 0 {
        assert(levels.take(0) =~= Seq::<PriceLevel>::empty());
        assert(levels.skip(0) =~= levels);
        assert(side_handles(levels.take(0)) =~= Seq::<usize>::empty());
        assert(side_handles(levels) =~= side_handles(levels.take(0)) + side_handles(levels.skip(0)));
    } else {
        let rest = levels.drop_first();
        lemma_side_handles_split(rest, i - 1);
        assert(levels.take(i).drop_first() =~= rest.take(i - 1));
        assert(levels.take(i)[0] == levels[0]);
        assert(levels.skip(i) =~= rest.skip(i - 1));
        assert(side_handles(levels) =~= levels[0].queue@ + (side_handles(rest.take(i - 1))
            + side_handles(rest.skip(i - 1))));
        assert(side_handles(levels.take(i)) =~= levels[0].queue@ + side_handles(rest.take(i - 1)));
        assert(side_handles(levels) =~= side_handles(levels.take(i)) + side_handles(levels.skip(i)));
    }
}

/// Splitting a side at level `i` splits its descending handle sequence.
proof fn lemma_side_handles_down_split(levels: Seq<PriceLevel>, i: int)
    requires
        0 <= i <= levels.len(),
    ensures
        side_handles_down(levels) == side_handles_down(levels.skip(i)) + side_handles_down(
            levels.take(i),
        ),
    decreases levels.len() - i,
{
    if i == levels.len() {
        assert(levels.skip(i) =~= Seq::<PriceLevel>::empty());
        assert(levels.take(i) =~= levels);
        assert(side_handles_down(levels.skip(i)) =~= Seq::<usize>::empty());
        assert(side_handles_down(levels) =~= side_handles_down(levels.skip(i)) + side_handles_down(
            levels.take(i),
        ));
    } else {
        let rest = levels.drop_last();
        lemma_side_handles_down_split(rest, i);
        assert(levels.skip(i).drop_last() =~= rest.skip(i));
        assert(levels.skip(i).last() == levels.last());
        assert(levels.take(i) =~= rest.take(i));
        assert(side_handles_down(levels) =~= levels.last().queue@ + (side_handles_down(rest.skip(i))
            + side_handles_down(rest.take(i))));
        assert(side_handles_down(levels.skip(i)) =~= levels.last().queue@ + side_handles_down(
            rest.skip(i),
        ));
        assert(side_handles_down(levels) =~= side_handles_down(levels.skip(i)) + side_handles_down(
            levels.take(i),
        ));
    }
}

/// A handle occurs in a side's ascending handle sequence exactly when some
/// level's queue holds it.
proof fn lemma_side_handles_member(levels: Seq<PriceLevel>, h: usize)
    ensures
        side_handles(levels).contains(h) <==> exists|i: int, k: int|
            0 <= i < levels.len() && 0 <= k < levels[i].queue@.len()
                && #[trigger] levels[i].queue@[k] == h,
    decreases levels.len(),
{
    if levels.len() == 0 {
    } else {
        let rest = levels.drop_first();
        lemma_side_handles_member(rest, h);
        if side_handles(levels).contains(h) {
            let j = choose|j: int| 0 <= j < side_handles(levels).len() && side_handles(levels)[j] == h;
            if j < levels[0].queue@.len() {
                assert(levels[0].queue@[j] == h);
            } else {
                assert(side_handles(rest)[j - levels[0].queue@.len()] == h);
                assert(side_handles(rest).contains(h));
                let (i2, k2) = choose|i2: int, k2: int|
                    0 <= i2 < rest.len() && 0 <= k2 < rest[i2].queue@.len()
                        && #[trigger] rest[i2].queue@[k2] == h;
                assert(levels[i2 + 1].queue@[k2] == h);
            }
        }
        if exists|i: int, k: int|
            0 <= i < levels.len() && 0 <= k < levels[i].queue@.len()
                && #[trigger] levels[i].queue@[k] == h {
            let (i, k) = choose|i: int, k: int|
                0 <= i < levels.len() && 0 <= k < levels[i].queue@.len()
                    && #[trigger] levels[i].queue@[k] == h;
            if i == 0 {
                assert(side_handles(levels)[k] == h);
            } else {
                assert(rest[i - 1].queue@[k] == h);
                assert(side_handles(rest).contains(h));
                let j = choose|j: int| 0 <= j < side_handles(rest).len() && side_handles(rest)[j] == h;
                assert(side_handles(levels)[levels[0].queue@.len() + j] == h);
            }
        }
    }
}

/// The descending handle sequence is a permutation of the ascending one;
/// membership carries over.
proof fn lemma_side_handles_down_member(levels: Seq<PriceLevel>, h: usize)
    ensures
        side_handles_down(levels).contains(h) <==> side_handles(levels).contains(h),
    decreases levels.len(),
{
    lemma_side_handles_member(levels, h);
    if levels.len() > 0 {
        let rest = levels.drop_last();
        lemma_side_handles_down_member(rest, h);
        lemma_side_handles_member(rest, h);
        if side_handles_down(levels).contains(h) {
            let j = choose|j: int|
                0 <= j < side_handles_down(levels).len() && side_handles_down(levels)[j] == h;
            if j < levels.last().queue@.len() {
                assert(levels[levels.len() - 1].queue@[j] == h);
            } else {
                assert(side_handles_down(rest)[j - levels.last().queue@.len()] == h);
                assert(side_handles_down(rest).contains(h));
            }
        }
        if side_handles(levels).contains(h) {
            let (i, k) = choose|i: int, k: int|
                0 <= i < levels.len() && 0 <= k < levels[i].queue@.len()
                    && #[trigger] levels[i].queue@[k] == h;
            if i == levels.len() - 1 {
                assert(side_handles_down(levels)[k] == h);
            } else {
                assert(rest[i].queue@[k] == h);
                assert(side_handles_down(rest).contains(h));
                let j = choose|j: int|
                    0 <= j < side_handles_down(rest).len() && side_handles_down(rest)[j] == h;
                assert(side_handles_down(levels)[levels.last().queue@.len() + j] == h);
            }
        }
    }
}

/// Every handle of the level's queue is in bounds, denotes a live order
/// whose price is the level's price, and is the handle that the arena's id
/// index records for that order's id.
spec fn level_wf(slots: Seq<LimitOrder>, idx: Map<u128, usize>, level: PriceLevel) -> bool {
    forall|k: int|
        0 <= k < level.queue@.len() ==> {
            let h = (#[trigger] level.queue@[k]) as int;
            &&& h < slots.len()
            &&& slots[h].qty > 0
            &&& slots[h].price == level.price
            &&& idx.contains_key(slots[h].id)
            &&& idx[slots[h].id] == level.queue@[k]
        }
}

/// A side's levels are strictly sorted by price and each level is
/// well-formed.
spec fn side_wf(slots: Seq<LimitOrder>, idx: Map<u128, usize>, levels: Seq<PriceLevel>) -> bool {
    &&& forall|i: int, j: int|
        0 <= i < j < levels.len() ==> (#[trigger] levels[i]).price < (#[trigger] levels[j]).price
    &&& forall|i: int| 0 <= i < levels.len() ==> level_wf(slots, idx, #[trigger] levels[i])
}

/// A duplicate-free concatenation has duplicate-free, disjoint parts.
proof fn lemma_no_dup_parts(x: Seq<usize>, y: Seq<usize>)
    requires
        (x + y).no_duplicates(),
    ensures
        x.no_duplicates(),
        y.no_duplicates(),
        forall|m: int, n: int|
            0 <= m < x.len() && 0 <= n < y.len() ==> (#[trigger] x[m]) != (#[trigger] y[n]),
{
    assert forall|m: int, n: int| 0 <= m < x.len() && 0 <= n < x.len() && m != n implies x[m]
        != x[n] by {
        assert((x + y)[m] != (x + y)[n]);
    }
    assert forall|m: int, n: int| 0 <= m < y.len() && 0 <= n < y.len() && m != n implies y[m]
        != y[n] by {
        assert((x + y)[x.len() + m] != (x + y)[x.len() + n]);
    }
    assert forall|m: int, n: int| 0 <= m < x.len() && 0 <= n < y.len() implies (#[trigger] x[m])
        != (#[trigger] y[n]) by {
        assert((x + y)[m] != (x + y)[x.len() + n]);
    }
}

/// Disjoint duplicate-free sequences concatenate without duplicates.
proof fn lemma_no_dup_join(x: Seq<usize>, y: Seq<usize>)
    requires
        x.no_duplicates(),
        y.no_duplicates(),
        forall|m: int, n: int|
            0 <= m < x.len() && 0 <= n < y.len() ==> (#[trigger] x[m]) != (#[trigger] y[n]),
    ensures
        (x + y).no_duplicates(),
{
    assert forall|m: int, n: int|
        0 <= m < (x + y).len() && 0 <= n < (x + y).len() && m != n implies (x + y)[m] != (x
        + y)[n] by {
        if m < x.len() && n < x.len() {
            assert(x[m] != x[n]);
        } else if m < x.len() {
            assert(x[m] != y[n - x.len()]);
        } else if n < x.len() {
            assert(x[n] != y[m - x.len()]);
        } else {
            assert(y[m - x.len()] != y[n - x.len()]);
        }
    }
}

/// A suffix of a duplicate-free sequence is duplicate-free, and its
/// elements are elements of the whole.
proof fn lemma_no_dup_suffix(x: Seq<usize>, d: int)
    requires
        x.no_duplicates(),
        0 <= d <= x.len(),
    ensures
        x.skip(d).no_duplicates(),
        forall|m: int| 0 <= m < x.skip(d).len() ==> (#[trigger] x.skip(d)[m]) == x[d + m],
{
    assert forall|m: int, n: int|
        0 <= m < x.skip(d).len() && 0 <= n < x.skip(d).len() && m != n implies x.skip(d)[m]
        != x.skip(d)[n] by {
        assert(x[d + m] != x[d + n]);
    }
}

/// A side whose levels all hold empty queues contributes no handles.
proof fn lemma_side_handles_all_empty(levels: Seq<PriceLevel>)
    requires
        forall|i: int| 0 <= i < levels.len() ==> (#[trigger] levels[i]).queue@.len() == 0,
    ensures
        side_handles(levels) == Seq::<usize>::empty(),
        side_handles_down(levels) == Seq::<usize>::empty(),
    decreases levels.len(),
{
    if levels.len() > 0 {
        lemma_side_handles_all_empty(levels.drop_first());
        lemma_side_handles_all_empty(levels.drop_last());
        assert(side_handles(levels) =~= Seq::<usize>::empty());
        assert(side_handles_down(levels) =~= Seq::<usize>::empty());
    }
}

/// Mapping handles to orders distributes over concatenation.
proof fn lemma_level_orders_split(slots: Seq<LimitOrder>, a: Seq<usize>, b: Seq<usize>)
    ensures
        level_orders(slots, a + b) == level_orders(slots, a) + level_orders(slots, b),
{
    assert(level_orders(slots, a + b) =~= level_orders(slots, a) + level_orders(slots, b));
}

/// Two slot stores that agree on a handle sequence denote the same orders.
proof fn lemma_level_orders_frame(
    slots1: Seq<LimitOrder>,
    slots2: Seq<LimitOrder>,
    hs: Seq<usize>,
)
    requires
        forall|m: int| 0 <= m < hs.len() ==> slots1[(#[trigger] hs[m]) as int] == slots2[hs[m] as int],
    ensures
        level_orders(slots1, hs) == level_orders(slots2, hs),
{
    assert(level_orders(slots1, hs) =~= level_orders(slots2, hs));
}

/// A well-formed ascending side flattens to a well-formed ask sequence
/// whose prices all lie at or above the first level's price.
proof fn lemma_flat_up_ok(slots: Seq<LimitOrder>, idx: Map<u128, usize>, levels: Seq<PriceLevel>)
    requires
        side_wf(slots, idx, levels),
    ensures
        side_ok(level_orders(slots, side_handles(levels)), Side::Ask),
        levels.len() > 0 ==> forall|j: int|
            0 <= j < level_orders(slots, side_handles(levels)).len() ==> (#[trigger] level_orders(
                slots,
                side_handles(levels),
            )[j]).price >= levels[0].price,
    decreases levels.len(),
{
    if levels.len() > 0 {
        let rest = levels.drop_first();
        assert forall|i: int, j: int| 0 <= i < j < rest.len() implies
            (#[trigger] rest[i]).price < (#[trigger] rest[j]).price by {
            assert(levels[i + 1].price < levels[j + 1].price);
        }
        assert forall|i: int| 0 <= i < rest.len() implies level_wf(slots, idx, #[trigger] rest[i]) by {
            assert(level_wf(slots, idx, levels[i + 1]));
        }
        lemma_flat_up_ok(slots, idx, rest);
        let f = level_orders(slots, side_handles(levels));
        let fr = level_orders(slots, side_handles(rest));
        let q = levels[0].queue@;
        assert(level_wf(slots, idx, levels[0]));
        assert(f =~= level_orders(slots, q) + fr);
        assert forall|j: int| 0 <= j < f.len() implies
            (#[trigger] f[j]).qty > 0 && f[j].price >= levels[0].price by {
            if j < q.len() {
                assert(f[j] == slots[q[j] as int]);
            } else {
                assert(f[j] == fr[j - q.len()]);
                if rest.len() > 0 {
                    assert(fr[j - q.len()].price >= rest[0].price);
                    assert(levels[0].price < rest[0].price);
                } else {
                    assert(fr.len() == 0);
                }
            }
        }
        assert forall|i: int, j: int| 0 <= i <= j < f.len() implies
            (#[trigger] f[i]).price <= (#[trigger] f[j]).price by {
            if j < q.len() {
                assert(f[i] == slots[q[i] as int] && f[j] == slots[q[j] as int]);
            } else if i >= q.len() {
                assert(f[i] == fr[i - q.len()] && f[j] == fr[j - q.len()]);
                assert(side_ok(fr, Side::Ask));
            } else {
                assert(f[i] == slots[q[i] as int]);
                assert(f[i].price == levels[0].price);
                assert(f[j].price >= levels[0].price);
            }
        }
    }
}

/// A well-formed ascending side flattens, from the top down, to a
/// well-formed bid sequence whose prices all lie at or below the last
/// level's price.
proof fn lemma_flat_down_ok(slots: Seq<LimitOrder>, idx: Map<u128, usize>, levels: Seq<PriceLevel>)
    requires
        side_wf(slots, idx, levels),
    ensures
        side_ok(level_orders(slots, side_handles_down(levels)), Side::Bid),
        levels.len() > 0 ==> forall|j: int|
            0 <= j < level_orders(slots, side_handles_down(levels)).len() ==> (
            #[trigger] level_orders(slots, side_handles_down(levels))[j]).price <= levels.last().price,
    decreases levels.len(),
{
    if levels.len() > 0 {
        let rest = levels.drop_last();
        assert forall|i: int| 0 <= i < rest.len() implies level_wf(slots, idx, #[trigger] rest[i]) by {
            assert(level_wf(slots, idx, levels[i]));
        }
        lemma_flat_down_ok(slots, idx, rest);
        let f = level_orders(slots, side_handles_down(levels));
        let fr = level_orders(slots, side_handles_down(rest));
        let q = levels.last().queue@;
        assert(level_wf(slots, idx, levels[levels.len() - 1]));
        assert(f =~= level_orders(slots, q) + fr);
        assert forall|j: int| 0 <= j < f.len() implies
            (#[trigger] f[j]).qty > 0 && f[j].price <= levels.last().price by {
            if j < q.len() {
                assert(f[j] == slots[q[j] as int]);
            } else {
                assert(f[j] == fr[j - q.len()]);
                if rest.len() > 0 {
                    assert(fr[j - q.len()].price <= rest.last().price);
                    assert(rest.last() == levels[levels.len() - 2]);
                    assert(levels[levels.len() - 2].price < levels[levels.len() - 1].price);
                } else {
                    assert(fr.len() == 0);
                }
            }
        }
        assert forall|i: int, j: int| 0 <= i <= j < f.len() implies
            (#[trigger] f[i]).price >= (#[trigger] f[j]).price by {
            if j < q.len() {
                assert(f[i] == slots[q[i] as int] && f[j] == slots[q[j] as int]);
            } else if i >= q.len() {
                assert(f[i] == fr[i - q.len()] && f[j] == fr[j - q.len()]);
                assert(side_ok(fr, Side::Bid));
            } else {
                assert(f[i] == slots[q[i] as int]);
                assert(f[i].price == levels.last().price);
                assert(f[j].price <= levels.last().price);
            }
        }
    }
}

/// Every handle of a well-formed side's flattened sequences is in bounds,
/// live, priced like its level, and recorded in the id index.
proof fn lemma_side_handles_ok(
    slots: Seq<LimitOrder>,
    idx: Map<u128, usize>,
    levels: Seq<PriceLevel>,
    h: usize,
)
    requires
        side_wf(slots, idx, levels),
        side_handles(levels).contains(h) || side_handles_down(levels).contains(h),
    ensures
        (h as int) < slots.len(),
        slots[h as int].qty > 0,
        idx.contains_key(slots[h as int].id),
        idx[slots[h as int].id] == h,
{
    lemma_side_handles_down_member(levels, h);
    lemma_side_handles_member(levels, h);
    let (i, k) = choose|i: int, k: int|
        0 <= i < levels.len() && 0 <= k < levels[i].queue@.len()
            && #[trigger] levels[i].queue@[k] == h;
    assert(level_wf(slots, idx, levels[i]));
}

/// How far the inner matching loop's drain marker reaches: one past the
/// last fully consumed (or dead) queue position, if any.
spec fn spec_drain_bound(filled_index: Option<usize>) -> int {
    match filled_index {
        Option::None => 0,
        Option::Some(fi) => fi as int + 1,
    }
}

/// Remove the first `n` handles of a queue, front first.
fn drain_prefix(queue: &mut Vec<usize>, n: usize)
    requires
        n <= old(queue)@.len(),
    ensures
        final(queue)@ == old(queue)@.skip(n as int),
{
    let mut c: usize = 0;
    while c < n
        invariant
            c <= n,
            n <= old(queue)@.len(),
            queue@ == old(queue)@.skip(c as int),
        decreases n - c,
    {
        queue.remove(0);
        c += 1;
        proof {
            assert(queue@ =~= old(queue)@.skip(c as int));
        }
    }
}

// ---------------------------------------------------------------------------
// The order book.
// ---------------------------------------------------------------------------

/// An order book that executes orders serially through the [`execute`]
/// method.
///
/// [`execute`]: #method.execute
#[derive(Debug)]
pub struct OrderBook {
    last_trade: Option<Trade>,
    traded_volume: u64,
    min_ask: Option<u64>,
    max_bid: Option<u64>,
    asks: Vec<PriceLevel>,
    bids: Vec<PriceLevel>,
    arena: OrderArena,
    default_queue_capacity: usize,
    track_stats: bool,
}

impl OrderBook {
    /// The resting ask orders in matching priority: lowest price first,
    /// FIFO within a price.
    pub closed spec fn ask_orders(self) -> Seq<LimitOrder> {
        level_orders(self.arena.slots(), side_handles(self.asks@))
    }

    /// The resting bid orders in matching priority: highest price first,
    /// FIFO within a price.
    pub closed spec fn bid_orders(self) -> Seq<LimitOrder> {
        level_orders(self.arena.slots(), side_handles_down(self.bids@))
    }

    /// The cached lowest ask price.
    pub closed spec fn spec_min_ask(self) -> Option<u64> {
        self.min_ask
    }

    /// The cached highest bid price.
    pub closed spec fn spec_max_bid(self) -> Option<u64> {
        self.max_bid
    }

    /// The accumulated traded volume.
    pub closed spec fn spec_traded_volume(self) -> u64 {
        self.traded_volume
    }

    /// The most recent trade summary.
    pub closed spec fn spec_last_trade(self) -> Option<Trade> {
        self.last_trade
    }

    /// Whether statistics tracking is enabled.
    pub closed spec fn spec_track_stats(self) -> bool {
        self.track_stats
    }

    /// Whether an order with this id is currently resting on the book.
    pub open spec fn is_live(self, id: u128) -> bool {
        contains_id(self.ask_orders(), id) || contains_id(self.bid_orders(), id)
    }

    /// Representation invariants: the arena is well-formed, both sides hold
    /// strictly sorted levels of live, correctly indexed handles, no handle
    /// rests in two queue positions, and every live indexed order rests in
    /// some queue.
    /// All queue handles of the book, in the order in which the two model
    /// sequences read them.
    pub closed spec fn all_handles(self) -> Seq<usize> {
        side_handles(self.asks@) + side_handles_down(self.bids@)
    }

    pub closed spec fn inv_rep(self) -> bool {
        &&& self.arena.wf()
        &&& side_wf(self.arena.slots(), self.arena.idx_of(), self.asks@)
        &&& side_wf(self.arena.slots(), self.arena.idx_of(), self.bids@)
        &&& self.all_handles().no_duplicates()
        &&& forall|id: u128|
            self.arena.idx_of().contains_key(id)
                && self.arena.slots()[(#[trigger] self.arena.idx_of()[id]) as int].qty > 0
                ==> side_handles(self.asks@).contains(self.arena.idx_of()[id])
                    || side_handles_down(self.bids@).contains(self.arena.idx_of()[id])
    }

    /// The book invariant: the representation is consistent, both model
    /// sequences are well-formed with mutually unique ids, the cached
    /// top-of-book prices agree with the model, and the book is uncrossed.
    pub open spec fn wf(self) -> bool {
        &&& self.inv_rep()
        &&& side_ok(self.ask_orders(), Side::Ask)
        &&& side_ok(self.bid_orders(), Side::Bid)
        &&& ids_unique(self.ask_orders() + self.bid_orders())
        &&& self.spec_min_ask() == best_price(self.ask_orders())
        &&& self.spec_max_bid() == best_price(self.bid_orders())
        &&& uncrossed(self.spec_max_bid(), self.spec_min_ask())
    }

    /// A consistent representation yields well-formed model sequences with
    /// mutually unique ids.
    proof fn lemma_model_ok(self)
        requires
            self.inv_rep(),
        ensures
            side_ok(self.ask_orders(), Side::Ask),
            side_ok(self.bid_orders(), Side::Bid),
            ids_unique(self.ask_orders() + self.bid_orders()),
            self.ask_orders() + self.bid_orders() == level_orders(
                self.arena.slots(),
                self.all_handles(),
            ),
    {
        let slots = self.arena.slots();
        let idx = self.arena.idx_of();
        lemma_flat_up_ok(slots, idx, self.asks@);
        lemma_flat_down_ok(slots, idx, self.bids@);
        let ah = self.all_handles();
        let c = level_orders(slots, ah);
        lemma_level_orders_split(slots, side_handles(self.asks@), side_handles_down(self.bids@));
        assert(self.ask_orders() + self.bid_orders() == c);
        let na = side_handles(self.asks@).len();
        assert forall|m: int, n: int| 0 <= m < n < c.len() implies
            (#[trigger] c[m]).id != (#[trigger] c[n]).id by {
            let hm = ah[m];
            let hn = ah[n];
            if m < na {
                assert(side_handles(self.asks@).contains(hm));
                lemma_side_handles_ok(slots, idx, self.asks@, hm);
            } else {
                assert(side_handles_down(self.bids@)[m - na] == hm);
                assert(side_handles_down(self.bids@).contains(hm));
                lemma_side_handles_ok(slots, idx, self.bids@, hm);
            }
            if n < na {
                assert(side_handles(self.asks@).contains(hn));
                lemma_side_handles_ok(slots, idx, self.asks@, hn);
            } else {
                assert(side_handles_down(self.bids@)[n - na] == hn);
                assert(side_handles_down(self.bids@).contains(hn));
                lemma_side_handles_ok(slots, idx, self.bids@, hn);
            }
            assert(c[m] == slots[hm as int] && c[n] == slots[hn as int]);
            if c[m].id == c[n].id {
                assert(idx[slots[hm as int].id] == hm && idx[slots[hn as int].id] == hn);
                assert(hm == hn);
                assert(false);
            }
        }
    }

    /// Recompute the cached lowest ask price by scanning the ask levels in
    /// ascending order for the first one whose queue is non-empty.
    #[verifier::loop_isolation(false)]
    fn update_min_ask(&mut self)
        requires
            old(self).arena.wf(),
            side_wf(old(self).arena.slots(), old(self).arena.idx_of(), old(self).asks@),
        ensures
            final(self).asks == old(self).asks,
            final(self).bids == old(self).bids,
            final(self).arena == old(self).arena,
            final(self).max_bid == old(self).max_bid,
            final(self).last_trade == old(self).last_trade,
            final(self).traded_volume == old(self).traded_volume,
            final(self).track_stats == old(self).track_stats,
            final(self).default_queue_capacity == old(self).default_queue_capacity,
            final(self).min_ask == best_price(old(self).ask_orders()),
    {
        let mut i: usize = 0;
        while i < self.asks.len() && self.asks[i].queue.len() == 0
            invariant
                i <= self.asks@.len(),
                forall|j: int| 0 <= j < i ==> (#[trigger] self.asks@[j]).queue@.len() == 0,
            decreases self.asks@.len() - i,
        {
            i += 1;
        }
        proof {
            let slots = self.arena.slots();
            lemma_side_handles_split(self.asks@, i as int);
            assert forall|j: int| 0 <= j < self.asks@.take(i as int).len() implies
                (#[trigger] self.asks@.take(i as int)[j]).queue@.len() == 0 by {
                assert(self.asks@[j].queue@.len() == 0);
            }
            lemma_side_handles_all_empty(self.asks@.take(i as int));
            if i < self.asks@.len() {
                let lvl = self.asks@[i as int];
                assert(self.asks@.skip(i as int)[0] == lvl);
                assert(side_handles(self.asks@.skip(i as int))[0] == lvl.queue@[0]);
                assert(self.ask_orders()[0] == slots[lvl.queue@[0] as int]);
                assert(level_wf(slots, self.arena.idx_of(), lvl));
                assert(best_price(self.ask_orders()) == Option::Some(lvl.price));
            } else {
                assert(self.asks@.take(i as int) =~= self.asks@);
                assert(self.ask_orders().len() == 0);
            }
        }
        if i < self.asks.len() {
            self.min_ask = Some(self.asks[i].price);
        } else {
            self.min_ask = None;
        }
    }

    /// Recompute the cached highest bid price by scanning the bid levels in
    /// descending order for the first one whose queue is non-empty.
    #[verifier::loop_isolation(false)]
    fn update_max_bid(&mut self)
        requires
            old(self).arena.wf(),
            side_wf(old(self).arena.slots(), old(self).arena.idx_of(), old(self).bids@),
        ensures
            final(self).asks == old(self).asks,
            final(self).bids == old(self).bids,
            final(self).arena == old(self).arena,
            final(self).min_ask == old(self).min_ask,
            final(self).last_trade == old(self).last_trade,
            final(self).traded_volume == old(self).traded_volume,
            final(self).track_stats == old(self).track_stats,
            final(self).default_queue_capacity == old(self).default_queue_capacity,
            final(self).max_bid == best_price(old(self).bid_orders()),
    {
        let mut i: usize = self.bids.len();
        while i > 0 && self.bids[i - 1].queue.len() == 0
            invariant
                i <= self.bids@.len(),
                forall|j: int| i <= j < self.bids@.len() ==> (#[trigger] self.bids@[j]).queue@.len() == 0,
            decreases i,
        {
            i -= 1;
        }
        proof {
            let slots = self.arena.slots();
            lemma_side_handles_down_split(self.bids@, i as int);
            assert forall|j: int| 0 <= j < self.bids@.skip(i as int).len() implies
                (#[trigger] self.bids@.skip(i as int)[j]).queue@.len() == 0 by {
                assert(self.bids@[j + i].queue@.len() == 0);
            }
            lemma_side_handles_all_empty(self.bids@.skip(i as int));
            if i > 0 {
                let lvl = self.bids@[i - 1];
                assert(self.bids@.take(i as int).last() == lvl);
                assert(side_handles_down(self.bids@.take(i as int))[0] == lvl.queue@[0]);
                assert(self.bid_orders()[0] == slots[lvl.queue@[0] as int]);
                assert(level_wf(slots, self.arena.idx_of(), lvl));
                assert(best_price(self.bid_orders()) == Option::Some(lvl.price));
            } else {
                assert(self.bids@.skip(0) =~= self.bids@);
                assert(self.bid_orders().len() == 0);
            }
        }
        if i > 0 {
            self.max_bid = Some(self.bids[i - 1].price);
        } else {
            self.max_bid = None;
        }
    }

    /// The inner matching loop: walk one price level's FIFO queue from the
    /// front, trading against each maker until the taker quantity runs out,
    /// then drain the prefix of fully consumed (or already dead) makers.
    /// Returns the quantity filled from this queue.
    #[verifier::loop_isolation(false)]
    #[verifier::rlimit(60)]
    fn process_queue(
        arena: &mut OrderArena,
        opposite_orders: &mut Vec<usize>,
        remaining_qty: u64,
        id: u128,
        side: Side,
        fills: &mut Vec<FillMetadata>,
    ) -> (filled_qty: u64)
        requires
            old(arena).wf(),
            forall|k: int|
                0 <= k < old(opposite_orders)@.len() ==> ((#[trigger] old(opposite_orders)@[k])
                    as int) < old(arena).slots().len(),
            old(opposite_orders)@.no_duplicates(),
            forall|k: int, k2: int|
                0 <= k < old(opposite_orders)@.len() && 0 <= k2 < old(arena).free_list().len()
                    ==> (#[trigger] old(opposite_orders)@[k]) != (#[trigger] old(
                    arena,
                ).free_list()[k2]),
        ensures
            final(arena).wf(),
            final(arena).idx_of() == old(arena).idx_of(),
            final(arena).free_list() == old(arena).free_list(),
            final(arena).slots().len() == old(arena).slots().len(),
            forall|h: int|
                0 <= h < old(arena).slots().len() && !old(opposite_orders)@.contains(h as usize)
                    ==> final(arena).slots()[h] == old(arena).slots()[h],
            forall|h: int|
                0 <= h < old(arena).slots().len() ==> {
                    &&& (#[trigger] final(arena).slots()[h]).id == old(arena).slots()[h].id
                    &&& final(arena).slots()[h].price == old(arena).slots()[h].price
                    &&& final(arena).slots()[h].qty <= old(arena).slots()[h].qty
                },
            forall|k: int|
                0 <= k < old(opposite_orders)@.len() && !final(opposite_orders)@.contains(
                    #[trigger] old(opposite_orders)@[k],
                ) ==> final(arena).slots()[old(opposite_orders)@[k] as int].qty == 0,
            exists|d: int|
                0 <= d <= old(opposite_orders)@.len() && final(opposite_orders)@ == #[trigger] old(
                    opposite_orders,
                )@.skip(d),
            level_orders(final(arena).slots(), final(opposite_orders)@) == consume_orders(
                level_orders(old(arena).slots(), old(opposite_orders)@),
                side,
                Option::<u64>::None,
                remaining_qty,
            ),
            final(fills)@ == old(fills)@ + match_fills(
                level_orders(old(arena).slots(), old(opposite_orders)@),
                id,
                side,
                Option::<u64>::None,
                remaining_qty,
            ),
            filled_qty == remaining_qty - remaining_after(
                level_orders(old(arena).slots(), old(opposite_orders)@),
                side,
                Option::<u64>::None,
                remaining_qty,
            ),
            filled_qty <= remaining_qty,
    {
        let ghost q0 = old(opposite_orders)@;
        let ghost slots0 = old(arena).slots();
        let ghost a0 = level_orders(slots0, q0);
        let ghost old_fills = old(fills)@;
        let mut qty_to_fill = remaining_qty;
        let mut filled_qty: u64 = 0;
        let mut filled_index: Option<usize> = None;
        let mut index: usize = 0;

        proof {
            lemma_match_accounting(a0, id, side, Option::<u64>::None, remaining_qty);
            assert(q0.skip(0) =~= q0);
            assert(level_orders(arena.slots(), q0.skip(0)) =~= a0);
            assert(fills@.skip(old_fills.len() as int) =~= Seq::<FillMetadata>::empty());
            assert(q0.subrange(0, 0) =~= Seq::<usize>::empty());
            assert(level_orders(arena.slots(), q0.subrange(0, 0)) =~= Seq::<LimitOrder>::empty());
            assert(fills@.skip(old_fills.len() as int) + match_fills(
                a0,
                id,
                side,
                Option::<u64>::None,
                remaining_qty,
            ) =~= match_fills(a0, id, side, Option::<u64>::None, remaining_qty));
            assert(level_orders(arena.slots(), q0.subrange(0, 0)) + consume_orders(
                a0,
                side,
                Option::<u64>::None,
                remaining_qty,
            ) =~= consume_orders(a0, side, Option::<u64>::None, remaining_qty));
            assert(fills@.take(old_fills.len() as int) =~= old_fills);
        }
        while index < opposite_orders.len() && qty_to_fill > 0
            invariant
                index <= q0.len(),
                opposite_orders@ == q0,
                arena.wf(),
                arena.idx_of() == old(arena).idx_of(),
                arena.free_list() == old(arena).free_list(),
                arena.slots().len() == slots0.len(),
                forall|h: int|
                    0 <= h < slots0.len() && !q0.take(index as int).contains(h as usize)
                        ==> arena.slots()[h] == slots0[h],
                forall|h: int|
                    0 <= h < slots0.len() ==> {
                        &&& (#[trigger] arena.slots()[h]).id == slots0[h].id
                        &&& arena.slots()[h].price == slots0[h].price
                        &&& arena.slots()[h].qty <= slots0[h].qty
                    },
                match filled_index {
                    Option::None => true,
                    Option::Some(fi) => fi < index,
                },
                forall|k: int|
                    0 <= k < spec_drain_bound(filled_index) ==> arena.slots()[(
                    #[trigger] q0[k]) as int].qty == 0,
                spec_drain_bound(filled_index) <= index as int,
                qty_to_fill > 0 ==> spec_drain_bound(filled_index) == index as int,
                filled_qty + qty_to_fill == remaining_qty,
                fills@.len() >= old_fills.len(),
                fills@.take(old_fills.len() as int) == old_fills,
                match_fills(a0, id, side, Option::<u64>::None, remaining_qty) == fills@.skip(
                    old_fills.len() as int,
                ) + match_fills(
                    level_orders(arena.slots(), q0.skip(index as int)),
                    id,
                    side,
                    Option::<u64>::None,
                    qty_to_fill,
                ),
                consume_orders(a0, side, Option::<u64>::None, remaining_qty) == level_orders(
                    arena.slots(),
                    q0.subrange(spec_drain_bound(filled_index), index as int),
                ) + consume_orders(
                    level_orders(arena.slots(), q0.skip(index as int)),
                    side,
                    Option::<u64>::None,
                    qty_to_fill,
                ),
                remaining_after(a0, side, Option::<u64>::None, remaining_qty) == remaining_after(
                    level_orders(arena.slots(), q0.skip(index as int)),
                    side,
                    Option::<u64>::None,
                    qty_to_fill,
                ),
            decreases q0.len() - index,
        {
            let head_order_idx = opposite_orders[index];
            proof {
                assert(q0[index as int] == head_order_idx);
            }
            let head_order = *arena.order(head_order_idx);
            let traded_price = head_order.price;
            let available_qty = head_order.qty;
            let ghost qtf_pre = qty_to_fill;
            let ghost slots_pre = arena.slots();
            let ghost cur_pre = level_orders(slots_pre, q0.skip(index as int));
            let ghost rest_pre = level_orders(slots_pre, q0.skip(index as int + 1));
            proof {
                assert(cur_pre =~= seq![head_order] + rest_pre);
                assert(cur_pre[0] == head_order);
                assert(cur_pre.drop_first() =~= rest_pre);
            }
            if available_qty == 0 {
                filled_index = Some(index);
                proof {
                    assert(match_fills(cur_pre, id, side, Option::<u64>::None, qty_to_fill)
                        == match_fills(rest_pre, id, side, Option::<u64>::None, qty_to_fill));
                    assert(consume_orders(cur_pre, side, Option::<u64>::None, qty_to_fill)
                        == consume_orders(rest_pre, side, Option::<u64>::None, qty_to_fill));
                    assert(remaining_after(cur_pre, side, Option::<u64>::None, qty_to_fill)
                        == remaining_after(rest_pre, side, Option::<u64>::None, qty_to_fill));
                    assert(q0.subrange(index as int + 1, index as int + 1) =~= Seq::<usize>::empty());
                    assert(level_orders(arena.slots(), q0.subrange(index as int + 1, index as int + 1))
                        =~= Seq::<LimitOrder>::empty());
                    assert(q0.subrange(index as int, index as int) =~= Seq::<usize>::empty());
                    assert(level_orders(arena.slots(), q0.subrange(index as int, index as int))
                        =~= Seq::<LimitOrder>::empty());
                }
                index += 1;
                proof {
                    assert forall|h: int|
                        0 <= h < slots0.len() && !q0.take(index as int).contains(h as usize) implies
                        arena.slots()[h] == slots0[h] by {
                        if q0.take(index as int - 1).contains(h as usize) {
                            let k = choose|k: int|
                                0 <= k < index as int - 1 && #[trigger] q0.take(index as int - 1)[k] == h as usize;
                            assert(q0.take(index as int)[k] == h as usize);
                        }
                    }
                }
            } else {
                let traded_quantity: u64;
                let filled: bool;
                if qty_to_fill >= available_qty {
                    traded_quantity = available_qty;
                    qty_to_fill = qty_to_fill - available_qty;
                    filled_index = Some(index);
                    filled = true;
                } else {
                    traded_quantity = qty_to_fill;
                    qty_to_fill = 0;
                    filled = false;
                }
                proof {
                    assert forall|k2: int| 0 <= k2 < arena.free_list().len() implies
                        (#[trigger] arena.free_list()[k2]) != head_order_idx by {
                        assert(old(arena).free_list()[k2] != q0[index as int]);
                    }
                }
                arena.set_qty(head_order_idx, available_qty - traded_quantity);
                let fill = FillMetadata {
                    order_1: id,
                    order_2: head_order.id,
                    qty: traded_quantity,
                    price: traded_price,
                    taker_side: side,
                    total_fill: filled,
                };
                fills.push(fill);
                filled_qty = filled_qty + traded_quantity;
                proof {
                    let slots_now = arena.slots();
                    // Handles after position `index` are distinct from the
                    // updated handle, so their orders are unchanged.
                    assert forall|m: int| 0 <= m < q0.skip(index as int + 1).len() implies
                        slots_pre[(#[trigger] q0.skip(index as int + 1)[m]) as int] == slots_now[q0.skip(
                            index as int + 1,
                        )[m] as int] by {
                        assert(q0[index as int + 1 + m] == q0.skip(index as int + 1)[m]);
                        assert(q0[index as int] != q0[index as int + 1 + m]);
                    }
                    lemma_level_orders_frame(slots_pre, slots_now, q0.skip(index as int + 1));
                    assert(level_orders(slots_now, q0.skip(index as int + 1)) == rest_pre);
                    // The prefix before the drain bound is empty both before
                    // and after this step.
                    assert(q0.subrange(index as int, index as int) =~= Seq::<usize>::empty());
                    if filled {
                        assert(match_fills(cur_pre, id, side, Option::<u64>::None, qtf_pre)
                            == seq![fill] + match_fills(rest_pre, id, side, Option::<u64>::None, qty_to_fill));
                        assert(consume_orders(cur_pre, side, Option::<u64>::None, qtf_pre)
                            == consume_orders(rest_pre, side, Option::<u64>::None, qty_to_fill));
                        assert(remaining_after(cur_pre, side, Option::<u64>::None, qtf_pre)
                            == remaining_after(rest_pre, side, Option::<u64>::None, qty_to_fill));
                        assert(q0.subrange(index as int + 1, index as int + 1)
                            =~= Seq::<usize>::empty());
                    } else {
                        let reduced = LimitOrder {
                            id: head_order.id,
                            qty: (available_qty - traded_quantity) as u64,
                            price: head_order.price,
                        };
                        assert(qtf_pre == traded_quantity);
                        assert(match_fills(rest_pre, id, side, Option::<u64>::None, 0)
                            == Seq::<FillMetadata>::empty());
                        assert(match_fills(cur_pre, id, side, Option::<u64>::None, qtf_pre)
                            =~= seq![fill]);
                        assert(consume_orders(cur_pre, side, Option::<u64>::None, qtf_pre)
                            == seq![reduced] + rest_pre);
                        assert(q0.subrange(spec_drain_bound(filled_index), index as int + 1)
                            =~= seq![q0[index as int]] + q0.subrange(index as int + 1, index as int + 1));
                        assert(slots_now[q0[index as int] as int] == reduced);
                        assert(level_orders(slots_now, q0.subrange(spec_drain_bound(filled_index), index as int + 1))
                            =~= seq![reduced]);
                    }
                    assert(fills@ == old_fills + (fills@.skip(old_fills.len() as int)));
                    assert(fills@.skip(old_fills.len() as int)
                        =~= fills@.take(fills@.len() - 1).skip(old_fills.len() as int) + seq![fill]);
                    assert(fills@.take(old_fills.len() as int) =~= old_fills);
                }
                index += 1;
                proof {
                    assert forall|h: int|
                        0 <= h < slots0.len() && !q0.take(index as int).contains(h as usize) implies
                        arena.slots()[h] == slots0[h] by {
                        assert(q0.take(index as int)[index as int - 1] == q0[index as int - 1]);
                        if q0.take(index as int - 1).contains(h as usize) {
                            let k = choose|k: int|
                                0 <= k < index as int - 1 && #[trigger] q0.take(index as int - 1)[k] == h as usize;
                            assert(q0.take(index as int)[k] == h as usize);
                        }
                    }
                    // Re-associate the fills decomposition.
                    let app_old = fills@.take(fills@.len() - 1).skip(old_fills.len() as int);
                    let app_new = fills@.skip(old_fills.len() as int);
                    assert(app_new =~= app_old + seq![fill]);
                    assert((app_old + seq![fill]) + match_fills(
                        level_orders(arena.slots(), q0.skip(index as int)),
                        id,
                        side,
                        Option::<u64>::None,
                        qty_to_fill,
                    ) =~= app_old + (seq![fill] + match_fills(
                        level_orders(arena.slots(), q0.skip(index as int)),
                        id,
                        side,
                        Option::<u64>::None,
                        qty_to_fill,
                    )));
                }
            }
        }
        let ghost d = spec_drain_bound(filled_index);
        proof {
            // At exit the unprocessed remainder contributes nothing more.
            let cur = level_orders(arena.slots(), q0.skip(index as int));
            if index == q0.len() {
                assert(q0.skip(index as int) =~= Seq::<usize>::empty());
                assert(cur =~= Seq::<LimitOrder>::empty());
                assert(match_fills(cur, id, side, Option::<u64>::None, qty_to_fill)
                    == Seq::<FillMetadata>::empty());
            } else {
                assert(qty_to_fill == 0);
                assert(match_fills(cur, id, side, Option::<u64>::None, 0)
                    == Seq::<FillMetadata>::empty());
            }
            assert(consume_orders(a0, side, Option::<u64>::None, remaining_qty) =~= level_orders(
                arena.slots(),
                q0.subrange(d, index as int) + q0.skip(index as int),
            ));
            assert(q0.subrange(d, index as int) + q0.skip(index as int) =~= q0.skip(d));
            assert(match_fills(a0, id, side, Option::<u64>::None, remaining_qty) =~= fills@.skip(
                old_fills.len() as int,
            ));
            assert(fills@ =~= old_fills + fills@.skip(old_fills.len() as int));
        }
        let drain_to: usize = match filled_index {
            None => 0,
            Some(fi) => fi + 1,
        };
        drain_prefix(opposite_orders, drain_to);
        proof {
            assert(opposite_orders@ == q0.skip(d));
            assert forall|k: int|
                0 <= k < q0.len() && !opposite_orders@.contains(#[trigger] q0[k]) implies
                arena.slots()[q0[k] as int].qty == 0 by {
                if k >= d {
                    assert(opposite_orders@[k - d] == q0[k]);
                    assert(opposite_orders@.contains(q0[k]));
                }
            }
            assert(level_orders(arena.slots(), opposite_orders@) == consume_orders(
                a0,
                side,
                Option::<u64>::None,
                remaining_qty,
            ));
        }
        filled_qty
    }

    /// Match an incoming buy of `qty` against the ask side in ascending
    /// price order, stopping at the limit price if one is given, and
    /// recompute the cached lowest ask. Returns the unfilled quantity.
    #[verifier::loop_isolation(false)]
    #[verifier::rlimit(100)]
    #[verifier::spinoff_prover]
    fn match_with_asks(
        &mut self,
        id: u128,
        qty: u64,
        fills: &mut Vec<FillMetadata>,
        limit_price: Option<u64>,
    ) -> (remaining_qty: u64)
        requires
            old(self).inv_rep(),
        ensures
            final(self).inv_rep(),
            final(self).bids@ == old(self).bids@,
            final(self).arena.idx_of() == old(self).arena.idx_of(),
            final(self).arena.free_list() == old(self).arena.free_list(),
            final(self).arena.slots().len() == old(self).arena.slots().len(),
            forall|h: int|
                0 <= h < old(self).arena.slots().len() ==> {
                    &&& (#[trigger] final(self).arena.slots()[h]).id == old(self).arena.slots()[h].id
                    &&& final(self).arena.slots()[h].price == old(self).arena.slots()[h].price
                    &&& final(self).arena.slots()[h].qty <= old(self).arena.slots()[h].qty
                },
            final(self).bid_orders() == old(self).bid_orders(),
            final(self).ask_orders() == consume_orders(
                old(self).ask_orders(),
                Side::Bid,
                limit_price,
                qty,
            ),
            final(fills)@ == old(fills)@ + match_fills(
                old(self).ask_orders(),
                id,
                Side::Bid,
                limit_price,
                qty,
            ),
            remaining_qty == remaining_after(old(self).ask_orders(), Side::Bid, limit_price, qty),
            final(self).min_ask == best_price(final(self).ask_orders()),
            final(self).max_bid == old(self).max_bid,
            final(self).last_trade == old(self).last_trade,
            final(self).traded_volume == old(self).traded_volume,
            final(self).track_stats == old(self).track_stats,
            final(self).default_queue_capacity == old(self).default_queue_capacity,
    {
        let ghost s0 = *old(self);
        let ghost a_orig = old(self).ask_orders();
        let ghost old_fills = old(fills)@;
        let mut remaining_qty = qty;
        let mut done = false;
        let mut i: usize = 0;

        proof {
            assert(s0.asks@.skip(0) =~= s0.asks@);
            assert(s0.asks@.take(0) =~= Seq::<PriceLevel>::empty());
            assert(side_handles(s0.asks@.take(0)) =~= Seq::<usize>::empty());
            assert(level_orders(self.arena.slots(), side_handles(s0.asks@.take(0)))
                =~= Seq::<LimitOrder>::empty());
            assert(fills@.skip(old_fills.len() as int) =~= Seq::<FillMetadata>::empty());
            assert(fills@.skip(old_fills.len() as int) + match_fills(
                a_orig,
                id,
                Side::Bid,
                limit_price,
                qty,
            ) =~= match_fills(a_orig, id, Side::Bid, limit_price, qty));
            assert(level_orders(self.arena.slots(), side_handles(self.asks@.take(0)))
                + consume_orders(a_orig, Side::Bid, limit_price, qty) =~= consume_orders(
                a_orig,
                Side::Bid,
                limit_price,
                qty,
            ));
            assert(fills@.take(old_fills.len() as int) =~= old_fills);
        }
        while i < self.asks.len() && !done
            invariant
                i <= self.asks@.len(),
                self.asks@.len() == s0.asks@.len(),
                self.bids@ == s0.bids@,
                self.min_ask == s0.min_ask,
                self.max_bid == s0.max_bid,
                self.last_trade == s0.last_trade,
                self.traded_volume == s0.traded_volume,
                self.track_stats == s0.track_stats,
                self.default_queue_capacity == s0.default_queue_capacity,
                self.arena.wf(),
                self.arena.idx_of() == s0.arena.idx_of(),
                self.arena.free_list() == s0.arena.free_list(),
                self.arena.slots().len() == s0.arena.slots().len(),
                forall|h: int|
                    0 <= h < s0.arena.slots().len() ==> {
                        &&& (#[trigger] self.arena.slots()[h]).id == s0.arena.slots()[h].id
                        &&& self.arena.slots()[h].price == s0.arena.slots()[h].price
                        &&& self.arena.slots()[h].qty <= s0.arena.slots()[h].qty
                    },
                self.asks@.skip(i as int) == s0.asks@.skip(i as int),
                forall|h: int|
                    0 <= h < s0.arena.slots().len() && !side_handles(
                        s0.asks@.take(i as int),
                    ).contains(h as usize) ==> self.arena.slots()[h] == s0.arena.slots()[h],
                side_wf(self.arena.slots(), self.arena.idx_of(), self.asks@),
                side_wf(self.arena.slots(), self.arena.idx_of(), self.bids@),
                (side_handles(self.asks@) + side_handles_down(self.bids@)).no_duplicates(),
                forall|id2: u128|
                    self.arena.idx_of().contains_key(id2) && self.arena.slots()[(
                    #[trigger] self.arena.idx_of()[id2]) as int].qty > 0 ==> side_handles(
                        self.asks@,
                    ).contains(self.arena.idx_of()[id2]) || side_handles_down(
                        self.bids@,
                    ).contains(self.arena.idx_of()[id2]),
                remaining_qty <= qty,
                fills@.len() >= old_fills.len(),
                fills@.take(old_fills.len() as int) == old_fills,
                match_fills(a_orig, id, Side::Bid, limit_price, qty) == fills@.skip(
                    old_fills.len() as int,
                ) + match_fills(
                    level_orders(self.arena.slots(), side_handles(self.asks@.skip(i as int))),
                    id,
                    Side::Bid,
                    limit_price,
                    remaining_qty,
                ),
                consume_orders(a_orig, Side::Bid, limit_price, qty) == level_orders(
                    self.arena.slots(),
                    side_handles(self.asks@.take(i as int)),
                ) + consume_orders(
                    level_orders(self.arena.slots(), side_handles(self.asks@.skip(i as int))),
                    Side::Bid,
                    limit_price,
                    remaining_qty,
                ),
                remaining_after(a_orig, Side::Bid, limit_price, qty) == remaining_after(
                    level_orders(self.arena.slots(), side_handles(self.asks@.skip(i as int))),
                    Side::Bid,
                    limit_price,
                    remaining_qty,
                ),
                done ==> match_fills(
                    level_orders(self.arena.slots(), side_handles(self.asks@.skip(i as int))),
                    id,
                    Side::Bid,
                    limit_price,
                    remaining_qty,
                ) == Seq::<FillMetadata>::empty(),
                done ==> consume_orders(
                    level_orders(self.arena.slots(), side_handles(self.asks@.skip(i as int))),
                    Side::Bid,
                    limit_price,
                    remaining_qty,
                ) == level_orders(
                    self.arena.slots(),
                    side_handles(self.asks@.skip(i as int)),
                ),
                done ==> remaining_after(
                    level_orders(self.arena.slots(), side_handles(self.asks@.skip(i as int))),
                    Side::Bid,
                    limit_price,
                    remaining_qty,
                ) == remaining_qty,
            decreases self.asks@.len() - i, (if done { 0int } else { 1int }),
        {
            let ghost asks_pre = self.asks@;
            let ghost slots_pre = self.arena.slots();
            let ghost q_i = self.asks@[i as int].queue@;
            let ghost sh_skip = side_handles(asks_pre.skip(i as int));
            let ghost sh_skip1 = side_handles(asks_pre.skip(i as int + 1));
            let ghost r_i = level_orders(slots_pre, sh_skip);
            let ghost a_i = level_orders(slots_pre, q_i);
            let ghost r_rest = level_orders(slots_pre, sh_skip1);
            proof {
                assert(asks_pre.skip(i as int)[0] == asks_pre[i as int]);
                assert(asks_pre.skip(i as int).drop_first() =~= asks_pre.skip(i as int + 1));
                assert(sh_skip == q_i + sh_skip1);
                lemma_level_orders_split(slots_pre, q_i, sh_skip1);
                assert(r_i == a_i + r_rest);
                assert(level_wf(slots_pre, self.arena.idx_of(), asks_pre[i as int]));
                // Splitting the current level's handles off the take/skip
                // decomposition of the whole side.
                lemma_side_handles_split(asks_pre, i as int);
                assert(side_handles(asks_pre) == side_handles(asks_pre.take(i as int)) + (q_i
                    + sh_skip1));
            }
            if self.asks[i].queue.len() == 0 {
                proof {
                    assert(q_i.len() == 0);
                    assert(a_i =~= Seq::<LimitOrder>::empty());
                    assert(r_i =~= r_rest);
                    assert(asks_pre.take(i as int + 1).take(i as int) =~= asks_pre.take(i as int));
                    lemma_side_handles_split(asks_pre.take(i as int + 1), i as int);
                    assert(asks_pre.take(i as int + 1).skip(i as int) =~= seq![asks_pre[i as int]]);
                    assert(seq![asks_pre[i as int]].drop_first() =~= Seq::<PriceLevel>::empty());
                    assert(side_handles(seq![asks_pre[i as int]]) =~= q_i);
                    assert(side_handles(asks_pre.take(i as int + 1)) =~= side_handles(
                        asks_pre.take(i as int),
                    ) + q_i);
                    assert(level_orders(slots_pre, side_handles(asks_pre.take(i as int + 1)))
                        =~= level_orders(slots_pre, side_handles(asks_pre.take(i as int))));
                    assert(s0.asks@[i as int] == asks_pre[i as int]) by {
                        assert(s0.asks@.skip(i as int)[0] == s0.asks@[i as int]);
                        assert(asks_pre.skip(i as int)[0] == asks_pre[i as int]);
                    }
                    lemma_side_handles_split(s0.asks@.take(i as int + 1), i as int);
                    assert(s0.asks@.take(i as int + 1).take(i as int) =~= s0.asks@.take(i as int));
                    assert(s0.asks@.take(i as int + 1).skip(i as int) =~= seq![s0.asks@[i as int]]);
                    assert(seq![s0.asks@[i as int]].drop_first() =~= Seq::<PriceLevel>::empty());
                    assert(side_handles(seq![s0.asks@[i as int]]) =~= q_i);
                    assert(side_handles(s0.asks@.take(i as int + 1)) =~= side_handles(
                        s0.asks@.take(i as int),
                    ) + q_i);
                    assert forall|h: int|
                        0 <= h < s0.arena.slots().len() && !side_handles(
                            s0.asks@.take(i as int + 1),
                        ).contains(h as usize) implies self.arena.slots()[h]
                        == s0.arena.slots()[h] by {
                        let sht = side_handles(s0.asks@.take(i as int));
                        if sht.contains(h as usize) {
                            let m = choose|m: int| 0 <= m < sht.len() && sht[m] == h as usize;
                            assert(side_handles(s0.asks@.take(i as int + 1))[m] == h as usize);
                            assert(false);
                        }
                    }
                }
                i += 1;
            } else {
                let level_price = self.asks[i].price;
                let mut cut = false;
                if let Some(lp) = limit_price {
                    if lp < level_price {
                        cut = true;
                    }
                }
                if cut {
                    done = true;
                    proof {
                        assert(r_i[0] == slots_pre[q_i[0] as int]);
                        assert(r_i[0].price == asks_pre[i as int].price);
                        assert(!price_crosses(Side::Bid, limit_price, r_i[0].price));
                    }
                } else if remaining_qty == 0 {
                    done = true;
                } else {
                    proof {
                        // The whole level crosses: its orders all rest at
                        // the level price, which the taker accepts.
                        assert forall|k: int| 0 <= k < a_i.len() implies price_crosses(
                            Side::Bid,
                            limit_price,
                            (#[trigger] a_i[k]).price,
                        ) by {
                            assert(a_i[k] == slots_pre[q_i[k] as int]);
                        }
                        lemma_match_append(a_i, r_rest, id, Side::Bid, limit_price, remaining_qty);
                        lemma_match_limit_none(a_i, id, Side::Bid, limit_price, remaining_qty);
                        // Handle bookkeeping for the parts of the book.
                        assert((side_handles(asks_pre) + side_handles_down(self.bids@))
                            =~= side_handles(asks_pre.take(i as int)) + (q_i + (sh_skip1
                            + side_handles_down(self.bids@))));
                        lemma_no_dup_parts(
                            side_handles(asks_pre.take(i as int)),
                            q_i + (sh_skip1 + side_handles_down(self.bids@)),
                        );
                        lemma_no_dup_parts(q_i, sh_skip1 + side_handles_down(self.bids@));
                        lemma_no_dup_parts(sh_skip1, side_handles_down(self.bids@));
                        assert forall|m: int, n: int|
                            0 <= m < side_handles(asks_pre.take(i as int)).len() && 0 <= n
                                < q_i.len() implies (#[trigger] side_handles(
                            asks_pre.take(i as int),
                        )[m]) != (#[trigger] q_i[n]) by {
                            assert((q_i + (sh_skip1 + side_handles_down(self.bids@)))[n] == q_i[n]);
                        }
                        assert forall|m: int, n: int|
                            0 <= m < sh_skip1.len() && 0 <= n < q_i.len() implies (
                            #[trigger] sh_skip1[m]) != (#[trigger] q_i[n]) by {
                            assert((sh_skip1 + side_handles_down(self.bids@))[m] == sh_skip1[m]);
                        }
                        assert forall|m: int, n: int|
                            0 <= m < side_handles(asks_pre.take(i as int)).len() && 0 <= n
                                < sh_skip1.len() implies (#[trigger] side_handles(
                            asks_pre.take(i as int),
                        )[m]) != (#[trigger] sh_skip1[n]) by {
                            assert((sh_skip1 + side_handles_down(self.bids@))[n] == sh_skip1[n]);
                            assert((q_i + (sh_skip1 + side_handles_down(self.bids@)))[q_i.len() + n]
                                == sh_skip1[n]);
                        }
                        assert forall|m: int, n: int|
                            0 <= m < side_handles(asks_pre.take(i as int)).len() && 0 <= n
                                < side_handles_down(self.bids@).len() implies (
                            #[trigger] side_handles(asks_pre.take(i as int))[m]) != (
                            #[trigger] side_handles_down(self.bids@)[n]) by {
                            assert((sh_skip1 + side_handles_down(self.bids@))[sh_skip1.len() + n]
                                == side_handles_down(self.bids@)[n]);
                            assert((q_i + (sh_skip1 + side_handles_down(self.bids@)))[q_i.len()
                                + sh_skip1.len() + n] == side_handles_down(self.bids@)[n]);
                        }
                        assert forall|m: int, n: int|
                            0 <= m < side_handles_down(self.bids@).len() && 0 <= n < q_i.len()
                                implies (#[trigger] side_handles_down(self.bids@)[m]) != (
                            #[trigger] q_i[n]) by {
                            assert((sh_skip1 + side_handles_down(self.bids@))[sh_skip1.len() + m]
                                == side_handles_down(self.bids@)[m]);
                        }
                        assert forall|k: int, k2: int|
                            0 <= k < q_i.len() && 0 <= k2 < self.arena.free_list().len() implies
                            (#[trigger] q_i[k]) != (#[trigger] self.arena.free_list()[k2]) by {
                            assert(slots_pre[q_i[k] as int].qty > 0);
                            assert(slots_pre[self.arena.free_list()[k2] as int].qty == 0);
                        }
                    }
                    let ghost rem_pre = remaining_qty;
                    let ghost fills_pre = fills@;
                    let mut level = self.asks.remove(i);
                    let filled_qty = Self::process_queue(
                        &mut self.arena,
                        &mut level.queue,
                        remaining_qty,
                        id,
                        Side::Bid,
                        fills,
                    );
                    self.asks.insert(i, level);
                    remaining_qty = remaining_qty - filled_qty;
                    proof {
                        let slots_now = self.arena.slots();
                        let asks_now = self.asks@;
                        let lvl_now = asks_now[i as int];
                        let q_new = lvl_now.queue@;
                        let d = choose|d: int|
                            0 <= d <= q_i.len() && q_new == #[trigger] q_i.skip(d);
                        assert(asks_now =~= asks_pre.update(i as int, lvl_now));
                        assert(lvl_now.price == asks_pre[i as int].price);
                        assert(asks_now.skip(i as int + 1) =~= asks_pre.skip(i as int + 1));
                        assert(asks_now.take(i as int) =~= asks_pre.take(i as int));
                        lemma_no_dup_suffix(q_i, d);

                        let x = side_handles(asks_pre.take(i as int));
                        let b = side_handles_down(self.bids@);
                        // Orders outside the processed queue kept their slots.
                        assert forall|m: int| 0 <= m < x.len() implies slots_now[(
                        #[trigger] x[m]) as int] == slots_pre[x[m] as int] by {
                            assert(side_handles(asks_pre)[m] == x[m]);
                            assert(side_handles(asks_pre).contains(x[m]));
                            lemma_side_handles_ok(slots_pre, self.arena.idx_of(), asks_pre, x[m]);
                            if q_i.contains(x[m]) {
                                let n = choose|n: int| 0 <= n < q_i.len() && q_i[n] == x[m];
                                assert(x[m] != q_i[n]);
                                assert(false);
                            }
                        }
                        assert forall|m: int| 0 <= m < sh_skip1.len() implies slots_now[(
                        #[trigger] sh_skip1[m]) as int] == slots_pre[sh_skip1[m] as int] by {
                            assert((q_i + sh_skip1)[q_i.len() + m] == sh_skip1[m]);
                            assert(side_handles(asks_pre)[x.len() + q_i.len() + m] == sh_skip1[m]);
                            assert(side_handles(asks_pre).contains(sh_skip1[m]));
                            lemma_side_handles_ok(
                                slots_pre,
                                self.arena.idx_of(),
                                asks_pre,
                                sh_skip1[m],
                            );
                            if q_i.contains(sh_skip1[m]) {
                                let n = choose|n: int| 0 <= n < q_i.len() && q_i[n] == sh_skip1[m];
                                assert(sh_skip1[m] != q_i[n]);
                                assert(false);
                            }
                        }
                        assert forall|m: int| 0 <= m < b.len() implies slots_now[(
                        #[trigger] b[m]) as int] == slots_pre[b[m] as int] by {
                            assert(side_handles_down(self.bids@)[m] == b[m]);
                            assert(side_handles_down(self.bids@).contains(b[m]));
                            lemma_side_handles_ok(slots_pre, self.arena.idx_of(), self.bids@, b[m]);
                            if q_i.contains(b[m]) {
                                let n = choose|n: int| 0 <= n < q_i.len() && q_i[n] == b[m];
                                assert(b[m] != q_i[n]);
                                assert(false);
                            }
                        }
                        lemma_level_orders_frame(slots_pre, slots_now, x);
                        lemma_level_orders_frame(slots_pre, slots_now, sh_skip1);
                        lemma_level_orders_frame(slots_pre, slots_now, b);

                        // The new level handles denote the consumed queue.
                        assert(level_orders(slots_now, q_new) == consume_orders(
                            a_i,
                            Side::Bid,
                            Option::<u64>::None,
                            rem_pre,
                        ));
                        lemma_consume_side_ok(a_i, Side::Ask, Side::Bid, Option::<u64>::None, rem_pre);
                        assert forall|k: int| 0 <= k < a_i.len() implies (#[trigger] a_i[k]).qty
                            > 0 && a_i[k].price == asks_pre[i as int].price by {
                            assert(a_i[k] == slots_pre[q_i[k] as int]);
                        }

                        // Well-formedness of the reassembled level.
                        assert forall|k: int| 0 <= k < q_new.len() implies {
                            let h = (#[trigger] q_new[k]) as int;
                            &&& h < slots_now.len()
                            &&& slots_now[h].qty > 0
                            &&& slots_now[h].price == lvl_now.price
                            &&& self.arena.idx_of().contains_key(slots_now[h].id)
                            &&& self.arena.idx_of()[slots_now[h].id] == q_new[k]
                        } by {
                            assert(q_new[k] == q_i[d + k]);
                            let h = q_new[k] as int;
                            assert(slots_pre[h].price == asks_pre[i as int].price);
                            assert(slots_pre[h].qty > 0);
                            assert(self.arena.idx_of()[slots_pre[h].id] == q_new[k]);
                            assert(slots_now[h].id == slots_pre[h].id);
                            assert(slots_now[h].price == slots_pre[h].price);
                            assert(level_orders(slots_now, q_new)[k] == slots_now[h]);
                            assert(consume_orders(a_i, Side::Bid, Option::<u64>::None, rem_pre)[k].qty
                                > 0);
                        }
                        assert(level_wf(slots_now, self.arena.idx_of(), lvl_now));
                        assert forall|j: int| 0 <= j < asks_now.len() implies level_wf(
                            slots_now,
                            self.arena.idx_of(),
                            #[trigger] asks_now[j],
                        ) by {
                            if j != i as int {
                                assert(asks_now[j] == asks_pre[j]);
                                assert(level_wf(slots_pre, self.arena.idx_of(), asks_pre[j]));
                                assert forall|k: int| 0 <= k < asks_now[j].queue@.len() implies {
                                    let h = (#[trigger] asks_now[j].queue@[k]) as int;
                                    &&& h < slots_now.len()
                                    &&& slots_now[h].qty > 0
                                    &&& slots_now[h].price == asks_now[j].price
                                    &&& self.arena.idx_of().contains_key(slots_now[h].id)
                                    &&& self.arena.idx_of()[slots_now[h].id] == asks_now[j].queue@[k]
                                } by {
                                    let h = asks_now[j].queue@[k];
                                    if j < i as int {
                                        lemma_side_handles_member(asks_pre.take(i as int), h);
                                        assert(asks_pre.take(i as int)[j].queue@[k] == h);
                                        assert(side_handles(asks_pre.take(i as int)).contains(h));
                                        let m = choose|m: int|
                                            0 <= m < x.len() && x[m] == h;
                                        assert(slots_now[x[m] as int] == slots_pre[x[m] as int]);
                                    } else {
                                        lemma_side_handles_member(asks_pre.skip(i as int + 1), h);
                                        assert(asks_pre.skip(i as int + 1)[j - i - 1].queue@[k] == h);
                                        assert(sh_skip1.contains(h));
                                        let m = choose|m: int|
                                            0 <= m < sh_skip1.len() && sh_skip1[m] == h;
                                        assert(slots_now[sh_skip1[m] as int]
                                            == slots_pre[sh_skip1[m] as int]);
                                    }
                                }
                            }
                        }
                        assert(side_wf(slots_now, self.arena.idx_of(), asks_now));
                        assert forall|j: int| 0 <= j < self.bids@.len() implies level_wf(
                            slots_now,
                            self.arena.idx_of(),
                            #[trigger] self.bids@[j],
                        ) by {
                            assert(level_wf(slots_pre, self.arena.idx_of(), self.bids@[j]));
                            assert forall|k: int| 0 <= k < self.bids@[j].queue@.len() implies {
                                let h = (#[trigger] self.bids@[j].queue@[k]) as int;
                                &&& h < slots_now.len()
                                &&& slots_now[h].qty > 0
                                &&& slots_now[h].price == self.bids@[j].price
                                &&& self.arena.idx_of().contains_key(slots_now[h].id)
                                &&& self.arena.idx_of()[slots_now[h].id] == self.bids@[j].queue@[k]
                            } by {
                                let h = self.bids@[j].queue@[k];
                                lemma_side_handles_down_member(self.bids@, h);
                                lemma_side_handles_member(self.bids@, h);
                                assert(self.bids@[j].queue@[k] == h);
                                assert(side_handles_down(self.bids@).contains(h));
                                let m = choose|m: int| 0 <= m < b.len() && b[m] == h;
                                assert(slots_now[b[m] as int] == slots_pre[b[m] as int]);
                            }
                        }
                        assert(side_wf(slots_now, self.arena.idx_of(), self.bids@));

                        // Handle sequences: the new side splices the suffix
                        // of the processed queue back in.
                        lemma_side_handles_split(asks_now, i as int);
                        assert(asks_now.skip(i as int)[0] == lvl_now);
                        assert(asks_now.skip(i as int).drop_first() =~= asks_now.skip(i as int + 1));
                        assert(side_handles(asks_now.skip(i as int)) == q_new + side_handles(
                            asks_now.skip(i as int + 1),
                        ));
                        assert(side_handles(asks_now.skip(i as int + 1)) =~= sh_skip1);
                        assert(side_handles(asks_now.take(i as int)) =~= x);
                        assert(side_handles(asks_now) =~= x + (q_new + sh_skip1));

                        // No duplicates in the reassembled handle sequence.
                        assert forall|m: int, n: int|
                            0 <= m < q_new.len() && 0 <= n < (sh_skip1 + b).len() implies
                            (#[trigger] q_new[m]) != (#[trigger] (sh_skip1 + b)[n]) by {
                            assert(q_new[m] == q_i[d + m]);
                            if n < sh_skip1.len() {
                                assert(q_i[d + m] != sh_skip1[n]);
                            } else {
                                assert(q_i[d + m] != b[n - sh_skip1.len()]);
                            }
                        }
                        lemma_no_dup_parts(sh_skip1, b);
                        lemma_no_dup_join(sh_skip1, b);
                        lemma_no_dup_join(q_new, sh_skip1 + b);
                        assert forall|m: int, n: int|
                            0 <= m < x.len() && 0 <= n < (q_new + (sh_skip1 + b)).len() implies
                            (#[trigger] x[m]) != (#[trigger] (q_new + (sh_skip1 + b))[n]) by {
                            if n < q_new.len() {
                                assert(q_new[n] == q_i[d + n]);
                                assert((q_new + (sh_skip1 + b))[n] == q_new[n]);
                                assert(x[m] != q_i[d + n]);
                            } else if n - q_new.len() < sh_skip1.len() {
                                assert((q_new + (sh_skip1 + b))[n] == sh_skip1[n - q_new.len()]);
                            } else {
                                assert((q_new + (sh_skip1 + b))[n] == b[n - q_new.len()
                                    - sh_skip1.len()]);
                            }
                        }
                        lemma_no_dup_join(x, q_new + (sh_skip1 + b));
                        assert((side_handles(asks_now) + b) =~= x + (q_new + (sh_skip1 + b)));

                        // Liveness: every live indexed order still rests in
                        // a queue.
                        assert forall|id2: u128|
                            self.arena.idx_of().contains_key(id2) && slots_now[(
                            #[trigger] self.arena.idx_of()[id2]) as int].qty > 0 implies
                            side_handles(asks_now).contains(self.arena.idx_of()[id2])
                                || side_handles_down(self.bids@).contains(
                                self.arena.idx_of()[id2],
                            ) by {
                            let h = self.arena.idx_of()[id2];
                            if q_i.contains(h) {
                                let n = choose|n: int| 0 <= n < q_i.len() && q_i[n] == h;
                                if q_new.contains(h) {
                                    let m = choose|m: int| 0 <= m < q_new.len() && q_new[m] == h;
                                    assert(side_handles(asks_now)[x.len() + m] == h);
                                    assert(side_handles(asks_now).contains(h));
                                } else {
                                    assert(slots_now[q_i[n] as int].qty == 0);
                                    assert(false);
                                }
                            } else {
                                assert((h as int) < slots_pre.len());
                                assert(slots_now[h as int] == slots_pre[h as int]);
                                assert(side_handles(asks_pre).contains(h) || side_handles_down(
                                    self.bids@,
                                ).contains(h));
                                if side_handles(asks_pre).contains(h) {
                                    let m = choose|m: int|
                                        0 <= m < side_handles(asks_pre).len() && side_handles(
                                            asks_pre,
                                        )[m] == h;
                                    if m < x.len() {
                                        assert(side_handles(asks_now)[m] == h);
                                    } else if m < x.len() + q_i.len() {
                                        assert(q_i[m - x.len()] == h);
                                        assert(false);
                                    } else {
                                        assert(sh_skip1[m - x.len() - q_i.len()] == h);
                                        assert(side_handles(asks_now)[x.len() + q_new.len() + (m
                                            - x.len() - q_i.len())] == h);
                                    }
                                    assert(side_handles(asks_now).contains(h));
                                }
                            }
                        }

                        // The matching bookkeeping moves forward one level.
                        assert(level_orders(slots_now, side_handles(asks_now.skip(i as int + 1)))
                            == r_rest);
                        assert(level_orders(slots_now, side_handles(asks_now.take(i as int)))
                            == level_orders(slots_pre, x));
                        assert(remaining_qty == remaining_after(
                            a_i,
                            Side::Bid,
                            limit_price,
                            rem_pre,
                        ));
                        assert(fills@.skip(old_fills.len() as int) =~= fills_pre.skip(
                            old_fills.len() as int,
                        ) + match_fills(a_i, id, Side::Bid, Option::<u64>::None, rem_pre));
                        assert(match_fills(a_orig, id, Side::Bid, limit_price, qty) =~= fills@.skip(
                            old_fills.len() as int,
                        ) + match_fills(r_rest, id, Side::Bid, limit_price, remaining_qty));

                        // Consume bookkeeping: the take side grows by the
                        // consumed level.
                        assert(asks_now.take(i as int + 1).take(i as int) =~= asks_now.take(
                            i as int,
                        ));
                        lemma_side_handles_split(asks_now.take(i as int + 1), i as int);
                        assert(asks_now.take(i as int + 1).skip(i as int) =~= seq![lvl_now]);
                        assert(seq![lvl_now].drop_first() =~= Seq::<PriceLevel>::empty());
                        assert(side_handles(seq![lvl_now]) =~= q_new);
                        assert(side_handles(asks_now.take(i as int + 1)) =~= x + q_new);
                        lemma_level_orders_split(slots_now, x, q_new);
                        assert(level_orders(slots_now, side_handles(asks_now.take(i as int + 1)))
                            =~= level_orders(slots_now, x) + level_orders(slots_now, q_new));
                        assert(consume_orders(a_orig, Side::Bid, limit_price, qty) =~= level_orders(
                            slots_now,
                            side_handles(asks_now.take(i as int + 1)),
                        ) + consume_orders(r_rest, Side::Bid, limit_price, remaining_qty));

                        // The untouched-prefix frame for the next iteration.
                        assert(s0.asks@[i as int] == asks_pre[i as int]) by {
                            assert(s0.asks@.skip(i as int)[0] == s0.asks@[i as int]);
                            assert(asks_pre.skip(i as int)[0] == asks_pre[i as int]);
                        }
                        lemma_side_handles_split(s0.asks@.take(i as int + 1), i as int);
                        assert(s0.asks@.take(i as int + 1).take(i as int) =~= s0.asks@.take(
                            i as int,
                        ));
                        assert(s0.asks@.take(i as int + 1).skip(i as int) =~= seq![s0.asks@[i as int]]);
                        assert(seq![s0.asks@[i as int]].drop_first() =~= Seq::<PriceLevel>::empty());
                        assert(side_handles(seq![s0.asks@[i as int]]) =~= q_i);
                        assert(side_handles(s0.asks@.take(i as int + 1)) =~= side_handles(
                            s0.asks@.take(i as int),
                        ) + q_i);
                        assert forall|h: int|
                            0 <= h < s0.arena.slots().len() && !side_handles(
                                s0.asks@.take(i as int + 1),
                            ).contains(h as usize) implies slots_now[h] == s0.arena.slots()[h] by {
                            let sht = side_handles(s0.asks@.take(i as int));
                            if sht.contains(h as usize) {
                                let m = choose|m: int| 0 <= m < sht.len() && sht[m] == h as usize;
                                assert(side_handles(s0.asks@.take(i as int + 1))[m] == h as usize);
                                assert(false);
                            }
                            if q_i.contains(h as usize) {
                                let n = choose|n: int| 0 <= n < q_i.len() && q_i[n] == h as usize;
                                assert(side_handles(s0.asks@.take(i as int + 1))[sht.len() + n]
                                    == h as usize);
                                assert(false);
                            }
                            assert(slots_pre[h] == s0.arena.slots()[h]);
                            assert(slots_now[h] == slots_pre[h]);
                        }
                    }
                    i += 1;
                }
            }
        }
        proof {
            let slots_now = self.arena.slots();
            let cur = level_orders(slots_now, side_handles(self.asks@.skip(i as int)));
            if !done {
                assert(i == self.asks@.len());
                assert(self.asks@.skip(i as int) =~= Seq::<PriceLevel>::empty());
                assert(side_handles(self.asks@.skip(i as int)) =~= Seq::<usize>::empty());
                assert(cur =~= Seq::<LimitOrder>::empty());
                assert(match_fills(cur, id, Side::Bid, limit_price, remaining_qty)
                    == Seq::<FillMetadata>::empty());
            }
            lemma_side_handles_split(self.asks@, i as int);
            lemma_level_orders_split(
                slots_now,
                side_handles(self.asks@.take(i as int)),
                side_handles(self.asks@.skip(i as int)),
            );
            assert(consume_orders(a_orig, Side::Bid, limit_price, qty) =~= level_orders(
                slots_now,
                side_handles(self.asks@),
            ));
            assert(match_fills(a_orig, id, Side::Bid, limit_price, qty) =~= fills@.skip(
                old_fills.len() as int,
            ));
            assert(fills@ =~= old_fills + fills@.skip(old_fills.len() as int));
            // The bid side is untouched: its handles are disjoint from every
            // processed ask handle.
            let b = side_handles_down(self.bids@);
            assert(self.bids@ == s0.bids@);
            assert(s0.all_handles() == side_handles(s0.asks@) + b);
            assert forall|m: int| 0 <= m < b.len() implies slots_now[(#[trigger] b[m]) as int]
                == s0.arena.slots()[b[m] as int] by {
                assert(side_handles_down(s0.bids@)[m] == b[m]);
                assert(side_handles_down(s0.bids@).contains(b[m]));
                lemma_side_handles_ok(s0.arena.slots(), s0.arena.idx_of(), s0.bids@, b[m]);
                lemma_side_handles_split(s0.asks@, i as int);
                lemma_no_dup_parts(side_handles(s0.asks@), b);
                if side_handles(s0.asks@.take(i as int)).contains(b[m]) {
                    let n = choose|n: int|
                        0 <= n < side_handles(s0.asks@.take(i as int)).len() && side_handles(
                            s0.asks@.take(i as int),
                        )[n] == b[m];
                    assert(side_handles(s0.asks@)[n] == b[m]);
                    assert(side_handles(s0.asks@)[n] != b[m]);
                    assert(false);
                }
            }
            lemma_level_orders_frame(s0.arena.slots(), slots_now, b);
            assert(self.bid_orders() == s0.bid_orders());
        }
        self.update_min_ask();
        remaining_qty
    }

    /// Match an incoming sell of `qty` against the bid side in descending
    /// price order, stopping at the limit price if one is given, and
    /// recompute the cached highest bid. Returns the unfilled quantity.
    #[verifier::loop_isolation(false)]
    #[verifier::rlimit(100)]
    #[verifier::spinoff_prover]
    fn match_with_bids(
        &mut self,
        id: u128,
        qty: u64,
        fills: &mut Vec<FillMetadata>,
        limit_price: Option<u64>,
    ) -> (remaining_qty: u64)
        requires
            old(self).inv_rep(),
        ensures
            final(self).inv_rep(),
            final(self).asks@ == old(self).asks@,
            final(self).arena.idx_of() == old(self).arena.idx_of(),
            final(self).arena.free_list() == old(self).arena.free_list(),
            final(self).arena.slots().len() == old(self).arena.slots().len(),
            forall|h: int|
                0 <= h < old(self).arena.slots().len() ==> {
                    &&& (#[trigger] final(self).arena.slots()[h]).id == old(self).arena.slots()[h].id
                    &&& final(self).arena.slots()[h].price == old(self).arena.slots()[h].price
                    &&& final(self).arena.slots()[h].qty <= old(self).arena.slots()[h].qty
                },
            final(self).ask_orders() == old(self).ask_orders(),
            final(self).bid_orders() == consume_orders(
                old(self).bid_orders(),
                Side::Ask,
                limit_price,
                qty,
            ),
            final(fills)@ == old(fills)@ + match_fills(
                old(self).bid_orders(),
                id,
                Side::Ask,
                limit_price,
                qty,
            ),
            remaining_qty == remaining_after(old(self).bid_orders(), Side::Ask, limit_price, qty),
            final(self).max_bid == best_price(final(self).bid_orders()),
            final(self).min_ask == old(self).min_ask,
            final(self).last_trade == old(self).last_trade,
            final(self).traded_volume == old(self).traded_volume,
            final(self).track_stats == old(self).track_stats,
            final(self).default_queue_capacity == old(self).default_queue_capacity,
    {
        let ghost s0 = *old(self);
        let ghost b_orig = old(self).bid_orders();
        let ghost old_fills = old(fills)@;
        let mut remaining_qty = qty;
        let mut done = false;
        let mut i: usize = self.bids.len();

        proof {
            assert(s0.bids@.take(i as int) =~= s0.bids@);
            assert(s0.bids@.skip(i as int) =~= Seq::<PriceLevel>::empty());
            assert(side_handles_down(s0.bids@.skip(i as int)) =~= Seq::<usize>::empty());
            assert(level_orders(self.arena.slots(), side_handles_down(s0.bids@.skip(i as int)))
                =~= Seq::<LimitOrder>::empty());
            assert(fills@.skip(old_fills.len() as int) =~= Seq::<FillMetadata>::empty());
            assert(fills@.skip(old_fills.len() as int) + match_fills(
                b_orig,
                id,
                Side::Ask,
                limit_price,
                qty,
            ) =~= match_fills(b_orig, id, Side::Ask, limit_price, qty));
            assert(level_orders(self.arena.slots(), side_handles_down(self.bids@.skip(i as int)))
                + consume_orders(b_orig, Side::Ask, limit_price, qty) =~= consume_orders(
                b_orig,
                Side::Ask,
                limit_price,
                qty,
            ));
            assert(fills@.take(old_fills.len() as int) =~= old_fills);
        }
        while i > 0 && !done
            invariant
                i <= self.bids@.len(),
                self.bids@.len() == s0.bids@.len(),
                self.asks@ == s0.asks@,
                self.min_ask == s0.min_ask,
                self.max_bid == s0.max_bid,
                self.last_trade == s0.last_trade,
                self.traded_volume == s0.traded_volume,
                self.track_stats == s0.track_stats,
                self.default_queue_capacity == s0.default_queue_capacity,
                self.arena.wf(),
                self.arena.idx_of() == s0.arena.idx_of(),
                self.arena.free_list() == s0.arena.free_list(),
                self.arena.slots().len() == s0.arena.slots().len(),
                forall|h: int|
                    0 <= h < s0.arena.slots().len() ==> {
                        &&& (#[trigger] self.arena.slots()[h]).id == s0.arena.slots()[h].id
                        &&& self.arena.slots()[h].price == s0.arena.slots()[h].price
                        &&& self.arena.slots()[h].qty <= s0.arena.slots()[h].qty
                    },
                self.bids@.take(i as int) == s0.bids@.take(i as int),
                forall|h: int|
                    0 <= h < s0.arena.slots().len() && !side_handles_down(
                        s0.bids@.skip(i as int),
                    ).contains(h as usize) ==> self.arena.slots()[h] == s0.arena.slots()[h],
                side_wf(self.arena.slots(), self.arena.idx_of(), self.asks@),
                side_wf(self.arena.slots(), self.arena.idx_of(), self.bids@),
                (side_handles(self.asks@) + side_handles_down(self.bids@)).no_duplicates(),
                forall|id2: u128|
                    self.arena.idx_of().contains_key(id2) && self.arena.slots()[(
                    #[trigger] self.arena.idx_of()[id2]) as int].qty > 0 ==> side_handles(
                        self.asks@,
                    ).contains(self.arena.idx_of()[id2]) || side_handles_down(
                        self.bids@,
                    ).contains(self.arena.idx_of()[id2]),
                remaining_qty <= qty,
                fills@.len() >= old_fills.len(),
                fills@.take(old_fills.len() as int) == old_fills,
                match_fills(b_orig, id, Side::Ask, limit_price, qty) == fills@.skip(
                    old_fills.len() as int,
                ) + match_fills(
                    level_orders(self.arena.slots(), side_handles_down(self.bids@.take(i as int))),
                    id,
                    Side::Ask,
                    limit_price,
                    remaining_qty,
                ),
                consume_orders(b_orig, Side::Ask, limit_price, qty) == level_orders(
                    self.arena.slots(),
                    side_handles_down(self.bids@.skip(i as int)),
                ) + consume_orders(
                    level_orders(self.arena.slots(), side_handles_down(self.bids@.take(i as int))),
                    Side::Ask,
                    limit_price,
                    remaining_qty,
                ),
                remaining_after(b_orig, Side::Ask, limit_price, qty) == remaining_after(
                    level_orders(self.arena.slots(), side_handles_down(self.bids@.take(i as int))),
                    Side::Ask,
                    limit_price,
                    remaining_qty,
                ),
                done ==> match_fills(
                    level_orders(self.arena.slots(), side_handles_down(self.bids@.take(i as int))),
                    id,
                    Side::Ask,
                    limit_price,
                    remaining_qty,
                ) == Seq::<FillMetadata>::empty(),
                done ==> consume_orders(
                    level_orders(self.arena.slots(), side_handles_down(self.bids@.take(i as int))),
                    Side::Ask,
                    limit_price,
                    remaining_qty,
                ) == level_orders(
                    self.arena.slots(),
                    side_handles_down(self.bids@.take(i as int)),
                ),
                done ==> remaining_after(
                    level_orders(self.arena.slots(), side_handles_down(self.bids@.take(i as int))),
                    Side::Ask,
                    limit_price,
                    remaining_qty,
                ) == remaining_qty,
            decreases i, (if done { 0int } else { 1int }),
        {
            let ghost bids_pre = self.bids@;
            let ghost slots_pre = self.arena.slots();
            let ghost q_i = self.bids@[i as int - 1].queue@;
            let ghost sh_take = side_handles_down(bids_pre.take(i as int));
            let ghost sh_take1 = side_handles_down(bids_pre.take(i as int - 1));
            let ghost r_i = level_orders(slots_pre, sh_take);
            let ghost a_i = level_orders(slots_pre, q_i);
            let ghost r_rest = level_orders(slots_pre, sh_take1);
            proof {
                assert(bids_pre.take(i as int).last() == bids_pre[i as int - 1]);
                assert(bids_pre.take(i as int).drop_last() =~= bids_pre.take(i as int - 1));
                assert(sh_take == q_i + sh_take1);
                lemma_level_orders_split(slots_pre, q_i, sh_take1);
                assert(r_i == a_i + r_rest);
                assert(level_wf(slots_pre, self.arena.idx_of(), bids_pre[i as int - 1]));
                lemma_side_handles_down_split(bids_pre, i as int);
                assert(side_handles_down(bids_pre) == side_handles_down(bids_pre.skip(i as int))
                    + (q_i + sh_take1));
            }
            if self.bids[i - 1].queue.len() == 0 {
                proof {
                    assert(q_i.len() == 0);
                    assert(a_i =~= Seq::<LimitOrder>::empty());
                    assert(r_i =~= r_rest);
                    // The processed region grows by an empty queue.
                    lemma_side_handles_down_split(bids_pre.skip(i as int - 1), 1);
                    assert(bids_pre.skip(i as int - 1).skip(1) =~= bids_pre.skip(i as int));
                    assert(bids_pre.skip(i as int - 1).take(1) =~= seq![bids_pre[i as int - 1]]);
                    assert(seq![bids_pre[i as int - 1]].drop_last() =~= Seq::<PriceLevel>::empty());
                    assert(side_handles_down(seq![bids_pre[i as int - 1]]) =~= q_i);
                    assert(side_handles_down(bids_pre.skip(i as int - 1)) =~= side_handles_down(
                        bids_pre.skip(i as int),
                    ) + q_i);
                    assert(level_orders(slots_pre, side_handles_down(bids_pre.skip(i as int - 1)))
                        =~= level_orders(slots_pre, side_handles_down(bids_pre.skip(i as int))));
                    assert(s0.bids@[i as int - 1] == bids_pre[i as int - 1]) by {
                        assert(s0.bids@.take(i as int)[i as int - 1] == s0.bids@[i as int - 1]);
                        assert(bids_pre.take(i as int)[i as int - 1] == bids_pre[i as int - 1]);
                    }
                    lemma_side_handles_down_split(s0.bids@.skip(i as int - 1), 1);
                    assert(s0.bids@.skip(i as int - 1).skip(1) =~= s0.bids@.skip(i as int));
                    assert(s0.bids@.skip(i as int - 1).take(1) =~= seq![s0.bids@[i as int - 1]]);
                    assert(seq![s0.bids@[i as int - 1]].drop_last() =~= Seq::<PriceLevel>::empty());
                    assert(side_handles_down(seq![s0.bids@[i as int - 1]]) =~= q_i);
                    assert(side_handles_down(s0.bids@.skip(i as int - 1)) =~= side_handles_down(
                        s0.bids@.skip(i as int),
                    ) + q_i);
                    assert forall|h: int|
                        0 <= h < s0.arena.slots().len() && !side_handles_down(
                            s0.bids@.skip(i as int - 1),
                        ).contains(h as usize) implies self.arena.slots()[h]
                        == s0.arena.slots()[h] by {
                        let shs = side_handles_down(s0.bids@.skip(i as int));
                        if shs.contains(h as usize) {
                            let m = choose|m: int| 0 <= m < shs.len() && shs[m] == h as usize;
                            assert(side_handles_down(s0.bids@.skip(i as int - 1))[m] == h as usize);
                            assert(false);
                        }
                    }
                    assert(bids_pre.take(i as int - 1) =~= bids_pre.take(i as int).take(
                        i as int - 1,
                    ));
                    assert(s0.bids@.take(i as int - 1) =~= s0.bids@.take(i as int).take(
                        i as int - 1,
                    ));
                    assert(self.bids@.take(i as int - 1) == s0.bids@.take(i as int - 1));
                }
                i -= 1;
            } else {
                let level_price = self.bids[i - 1].price;
                let mut cut = false;
                if let Some(lp) = limit_price {
                    if lp > level_price {
                        cut = true;
                    }
                }
                if cut {
                    done = true;
                    proof {
                        assert(r_i[0] == slots_pre[q_i[0] as int]);
                        assert(r_i[0].price == bids_pre[i as int - 1].price);
                        assert(!price_crosses(Side::Ask, limit_price, r_i[0].price));
                    }
                } else if remaining_qty == 0 {
                    done = true;
                } else {
                    proof {
                        assert forall|k: int| 0 <= k < a_i.len() implies price_crosses(
                            Side::Ask,
                            limit_price,
                            (#[trigger] a_i[k]).price,
                        ) by {
                            assert(a_i[k] == slots_pre[q_i[k] as int]);
                        }
                        lemma_match_append(a_i, r_rest, id, Side::Ask, limit_price, remaining_qty);
                        lemma_match_limit_none(a_i, id, Side::Ask, limit_price, remaining_qty);
                        // Handle bookkeeping for the parts of the book.
                        let a = side_handles(self.asks@);
                        let bs = side_handles_down(bids_pre.skip(i as int));
                        assert((a + side_handles_down(bids_pre)) =~= a + (bs + (q_i + sh_take1)));
                        lemma_no_dup_parts(a, bs + (q_i + sh_take1));
                        lemma_no_dup_parts(bs, q_i + sh_take1);
                        lemma_no_dup_parts(q_i, sh_take1);
                        assert forall|m: int, n: int|
                            0 <= m < a.len() && 0 <= n < q_i.len() implies (#[trigger] a[m]) != (
                            #[trigger] q_i[n]) by {
                            assert((bs + (q_i + sh_take1))[bs.len() + n] == (q_i + sh_take1)[n]);
                            assert((q_i + sh_take1)[n] == q_i[n]);
                        }
                        assert forall|m: int, n: int|
                            0 <= m < bs.len() && 0 <= n < q_i.len() implies (#[trigger] bs[m]) != (
                            #[trigger] q_i[n]) by {
                            assert((q_i + sh_take1)[n] == q_i[n]);
                        }
                        assert forall|m: int, n: int|
                            0 <= m < bs.len() && 0 <= n < sh_take1.len() implies (
                            #[trigger] bs[m]) != (#[trigger] sh_take1[n]) by {
                            assert((q_i + sh_take1)[q_i.len() + n] == sh_take1[n]);
                        }
                        assert forall|m: int, n: int|
                            0 <= m < a.len() && 0 <= n < sh_take1.len() implies (#[trigger] a[m])
                                != (#[trigger] sh_take1[n]) by {
                            assert((bs + (q_i + sh_take1))[bs.len() + q_i.len() + n]
                                == (q_i + sh_take1)[q_i.len() + n]);
                            assert((q_i + sh_take1)[q_i.len() + n] == sh_take1[n]);
                        }
                        assert forall|k: int, k2: int|
                            0 <= k < q_i.len() && 0 <= k2 < self.arena.free_list().len() implies
                            (#[trigger] q_i[k]) != (#[trigger] self.arena.free_list()[k2]) by {
                            assert(slots_pre[q_i[k] as int].qty > 0);
                            assert(slots_pre[self.arena.free_list()[k2] as int].qty == 0);
                        }
                    }
                    let ghost rem_pre = remaining_qty;
                    let ghost fills_pre = fills@;
                    let mut level = self.bids.remove(i - 1);
                    let filled_qty = Self::process_queue(
                        &mut self.arena,
                        &mut level.queue,
                        remaining_qty,
                        id,
                        Side::Ask,
                        fills,
                    );
                    self.bids.insert(i - 1, level);
                    remaining_qty = remaining_qty - filled_qty;
                    proof {
                        let slots_now = self.arena.slots();
                        let bids_now = self.bids@;
                        let lvl_now = bids_now[i as int - 1];
                        let q_new = lvl_now.queue@;
                        let d = choose|d: int|
                            0 <= d <= q_i.len() && q_new == #[trigger] q_i.skip(d);
                        assert(bids_now =~= bids_pre.update(i as int - 1, lvl_now));
                        assert(lvl_now.price == bids_pre[i as int - 1].price);
                        assert(bids_now.skip(i as int) =~= bids_pre.skip(i as int));
                        assert(bids_now.take(i as int - 1) =~= bids_pre.take(i as int - 1));
                        lemma_no_dup_suffix(q_i, d);

                        let a = side_handles(self.asks@);
                        let bs = side_handles_down(bids_pre.skip(i as int));
                        // Orders outside the processed queue kept their slots.
                        assert forall|m: int| 0 <= m < a.len() implies slots_now[(
                        #[trigger] a[m]) as int] == slots_pre[a[m] as int] by {
                            assert(side_handles(self.asks@)[m] == a[m]);
                            assert(side_handles(self.asks@).contains(a[m]));
                            lemma_side_handles_ok(slots_pre, self.arena.idx_of(), self.asks@, a[m]);
                            if q_i.contains(a[m]) {
                                let n = choose|n: int| 0 <= n < q_i.len() && q_i[n] == a[m];
                                assert(a[m] != q_i[n]);
                                assert(false);
                            }
                        }
                        assert forall|m: int| 0 <= m < bs.len() implies slots_now[(
                        #[trigger] bs[m]) as int] == slots_pre[bs[m] as int] by {
                            assert(side_handles_down(bids_pre)[m] == bs[m]);
                            assert(side_handles_down(bids_pre).contains(bs[m]));
                            lemma_side_handles_ok(slots_pre, self.arena.idx_of(), bids_pre, bs[m]);
                            if q_i.contains(bs[m]) {
                                let n = choose|n: int| 0 <= n < q_i.len() && q_i[n] == bs[m];
                                assert(bs[m] != q_i[n]);
                                assert(false);
                            }
                        }
                        assert forall|m: int| 0 <= m < sh_take1.len() implies slots_now[(
                        #[trigger] sh_take1[m]) as int] == slots_pre[sh_take1[m] as int] by {
                            assert(side_handles_down(bids_pre)[bs.len() + q_i.len() + m]
                                == (q_i + sh_take1)[q_i.len() + m]);
                            assert((q_i + sh_take1)[q_i.len() + m] == sh_take1[m]);
                            assert(side_handles_down(bids_pre).contains(sh_take1[m]));
                            lemma_side_handles_ok(
                                slots_pre,
                                self.arena.idx_of(),
                                bids_pre,
                                sh_take1[m],
                            );
                            if q_i.contains(sh_take1[m]) {
                                let n = choose|n: int| 0 <= n < q_i.len() && q_i[n] == sh_take1[m];
                                assert(sh_take1[m] != q_i[n]);
                                assert(false);
                            }
                        }
                        lemma_level_orders_frame(slots_pre, slots_now, a);
                        lemma_level_orders_frame(slots_pre, slots_now, bs);
                        lemma_level_orders_frame(slots_pre, slots_now, sh_take1);

                        // The new level handles denote the consumed queue.
                        assert(level_orders(slots_now, q_new) == consume_orders(
                            a_i,
                            Side::Ask,
                            Option::<u64>::None,
                            rem_pre,
                        ));
                        lemma_consume_side_ok(a_i, Side::Bid, Side::Ask, Option::<u64>::None, rem_pre);
                        assert forall|k: int| 0 <= k < a_i.len() implies (#[trigger] a_i[k]).qty
                            > 0 && a_i[k].price == bids_pre[i as int - 1].price by {
                            assert(a_i[k] == slots_pre[q_i[k] as int]);
                        }

                        // Well-formedness of the reassembled level.
                        assert forall|k: int| 0 <= k < q_new.len() implies {
                            let h = (#[trigger] q_new[k]) as int;
                            &&& h < slots_now.len()
                            &&& slots_now[h].qty > 0
                            &&& slots_now[h].price == lvl_now.price
                            &&& self.arena.idx_of().contains_key(slots_now[h].id)
                            &&& self.arena.idx_of()[slots_now[h].id] == q_new[k]
                        } by {
                            assert(q_new[k] == q_i[d + k]);
                            let h = q_new[k] as int;
                            assert(slots_pre[h].price == bids_pre[i as int - 1].price);
                            assert(slots_pre[h].qty > 0);
                            assert(self.arena.idx_of()[slots_pre[h].id] == q_new[k]);
                            assert(slots_now[h].id == slots_pre[h].id);
                            assert(slots_now[h].price == slots_pre[h].price);
                            assert(level_orders(slots_now, q_new)[k] == slots_now[h]);
                            assert(consume_orders(a_i, Side::Ask, Option::<u64>::None, rem_pre)[k].qty
                                > 0);
                        }
                        assert(level_wf(slots_now, self.arena.idx_of(), lvl_now));
                        assert forall|j: int| 0 <= j < bids_now.len() implies level_wf(
                            slots_now,
                            self.arena.idx_of(),
                            #[trigger] bids_now[j],
                        ) by {
                            if j != i as int - 1 {
                                assert(bids_now[j] == bids_pre[j]);
                                assert(level_wf(slots_pre, self.arena.idx_of(), bids_pre[j]));
                                assert forall|k: int| 0 <= k < bids_now[j].queue@.len() implies {
                                    let h = (#[trigger] bids_now[j].queue@[k]) as int;
                                    &&& h < slots_now.len()
                                    &&& slots_now[h].qty > 0
                                    &&& slots_now[h].price == bids_now[j].price
                                    &&& self.arena.idx_of().contains_key(slots_now[h].id)
                                    &&& self.arena.idx_of()[slots_now[h].id] == bids_now[j].queue@[k]
                                } by {
                                    let h = bids_now[j].queue@[k];
                                    if j > i as int - 1 {
                                        lemma_side_handles_down_member(bids_pre.skip(i as int), h);
                                        lemma_side_handles_member(bids_pre.skip(i as int), h);
                                        assert(bids_pre.skip(i as int)[j - i].queue@[k] == h);
                                        assert(side_handles_down(bids_pre.skip(i as int)).contains(
                                            h,
                                        ));
                                        let m = choose|m: int| 0 <= m < bs.len() && bs[m] == h;
                                        assert(slots_now[bs[m] as int] == slots_pre[bs[m] as int]);
                                    } else {
                                        lemma_side_handles_down_member(
                                            bids_pre.take(i as int - 1),
                                            h,
                                        );
                                        lemma_side_handles_member(bids_pre.take(i as int - 1), h);
                                        assert(bids_pre.take(i as int - 1)[j].queue@[k] == h);
                                        assert(sh_take1.contains(h));
                                        let m = choose|m: int|
                                            0 <= m < sh_take1.len() && sh_take1[m] == h;
                                        assert(slots_now[sh_take1[m] as int]
                                            == slots_pre[sh_take1[m] as int]);
                                    }
                                }
                            }
                        }
                        assert(side_wf(slots_now, self.arena.idx_of(), bids_now));
                        assert forall|j: int| 0 <= j < self.asks@.len() implies level_wf(
                            slots_now,
                            self.arena.idx_of(),
                            #[trigger] self.asks@[j],
                        ) by {
                            assert(level_wf(slots_pre, self.arena.idx_of(), self.asks@[j]));
                            assert forall|k: int| 0 <= k < self.asks@[j].queue@.len() implies {
                                let h = (#[trigger] self.asks@[j].queue@[k]) as int;
                                &&& h < slots_now.len()
                                &&& slots_now[h].qty > 0
                                &&& slots_now[h].price == self.asks@[j].price
                                &&& self.arena.idx_of().contains_key(slots_now[h].id)
                                &&& self.arena.idx_of()[slots_now[h].id] == self.asks@[j].queue@[k]
                            } by {
                                let h = self.asks@[j].queue@[k];
                                lemma_side_handles_member(self.asks@, h);
                                assert(self.asks@[j].queue@[k] == h);
                                assert(side_handles(self.asks@).contains(h));
                                let m = choose|m: int| 0 <= m < a.len() && a[m] == h;
                                assert(slots_now[a[m] as int] == slots_pre[a[m] as int]);
                            }
                        }
                        assert(side_wf(slots_now, self.arena.idx_of(), self.asks@));

                        // Handle sequences: the new bid side splices the
                        // suffix of the processed queue back in.
                        lemma_side_handles_down_split(bids_now, i as int);
                        assert(bids_now.take(i as int).last() == lvl_now);
                        assert(bids_now.take(i as int).drop_last() =~= bids_now.take(i as int - 1));
                        assert(side_handles_down(bids_now.take(i as int)) == q_new
                            + side_handles_down(bids_now.take(i as int - 1)));
                        assert(side_handles_down(bids_now.take(i as int - 1)) =~= sh_take1);
                        assert(side_handles_down(bids_now.skip(i as int)) =~= bs);
                        assert(side_handles_down(bids_now) =~= bs + (q_new + sh_take1));

                        // No duplicates in the reassembled handle sequence.
                        assert forall|m: int, n: int|
                            0 <= m < q_new.len() && 0 <= n < sh_take1.len() implies (
                            #[trigger] q_new[m]) != (#[trigger] sh_take1[n]) by {
                            assert(q_new[m] == q_i[d + m]);
                            assert(q_i[d + m] != sh_take1[n]);
                        }
                        lemma_no_dup_join(q_new, sh_take1);
                        assert forall|m: int, n: int|
                            0 <= m < bs.len() && 0 <= n < (q_new + sh_take1).len() implies (
                            #[trigger] bs[m]) != (#[trigger] (q_new + sh_take1)[n]) by {
                            if n < q_new.len() {
                                assert((q_new + sh_take1)[n] == q_new[n]);
                                assert(q_new[n] == q_i[d + n]);
                                assert(bs[m] != q_i[d + n]);
                            } else {
                                assert((q_new + sh_take1)[n] == sh_take1[n - q_new.len()]);
                            }
                        }
                        lemma_no_dup_join(bs, q_new + sh_take1);
                        assert forall|m: int, n: int|
                            0 <= m < a.len() && 0 <= n < (bs + (q_new + sh_take1)).len() implies
                            (#[trigger] a[m]) != (#[trigger] (bs + (q_new + sh_take1))[n]) by {
                            if n < bs.len() {
                                assert((bs + (q_new + sh_take1))[n] == bs[n]);
                                assert(side_handles_down(bids_pre)[n] == bs[n]);
                            } else if n - bs.len() < q_new.len() {
                                assert((bs + (q_new + sh_take1))[n] == q_new[n - bs.len()]);
                                assert(q_new[n - bs.len()] == q_i[d + n - bs.len()]);
                                assert(a[m] != q_i[d + n - bs.len()]);
                            } else {
                                assert((bs + (q_new + sh_take1))[n] == sh_take1[n - bs.len()
                                    - q_new.len()]);
                            }
                        }
                        lemma_no_dup_join(a, bs + (q_new + sh_take1));
                        assert((a + side_handles_down(bids_now)) =~= a + (bs + (q_new + sh_take1)));

                        // Liveness: every live indexed order still rests in
                        // a queue.
                        assert forall|id2: u128|
                            self.arena.idx_of().contains_key(id2) && slots_now[(
                            #[trigger] self.arena.idx_of()[id2]) as int].qty > 0 implies
                            side_handles(self.asks@).contains(self.arena.idx_of()[id2])
                                || side_handles_down(bids_now).contains(
                                self.arena.idx_of()[id2],
                            ) by {
                            let h = self.arena.idx_of()[id2];
                            if q_i.contains(h) {
                                let n = choose|n: int| 0 <= n < q_i.len() && q_i[n] == h;
                                if q_new.contains(h) {
                                    let m = choose|m: int| 0 <= m < q_new.len() && q_new[m] == h;
                                    assert(side_handles_down(bids_now)[bs.len() + m] == h);
                                    assert(side_handles_down(bids_now).contains(h));
                                } else {
                                    assert(slots_now[q_i[n] as int].qty == 0);
                                    assert(false);
                                }
                            } else {
                                assert((h as int) < slots_pre.len());
                                assert(slots_now[h as int] == slots_pre[h as int]);
                                assert(side_handles(self.asks@).contains(h) || side_handles_down(
                                    bids_pre,
                                ).contains(h));
                                if side_handles_down(bids_pre).contains(h) {
                                    let m = choose|m: int|
                                        0 <= m < side_handles_down(bids_pre).len()
                                            && side_handles_down(bids_pre)[m] == h;
                                    if m < bs.len() {
                                        assert(side_handles_down(bids_now)[m] == h);
                                    } else if m < bs.len() + q_i.len() {
                                        assert(q_i[m - bs.len()] == h);
                                        assert(false);
                                    } else {
                                        assert(sh_take1[m - bs.len() - q_i.len()] == h);
                                        assert(side_handles_down(bids_now)[bs.len() + q_new.len()
                                            + (m - bs.len() - q_i.len())] == h);
                                    }
                                    assert(side_handles_down(bids_now).contains(h));
                                }
                            }
                        }

                        // The matching bookkeeping moves forward one level.
                        assert(level_orders(slots_now, side_handles_down(bids_now.take(
                            i as int - 1,
                        ))) == r_rest);
                        assert(remaining_qty == remaining_after(
                            a_i,
                            Side::Ask,
                            limit_price,
                            rem_pre,
                        ));
                        assert(fills@.skip(old_fills.len() as int) =~= fills_pre.skip(
                            old_fills.len() as int,
                        ) + match_fills(a_i, id, Side::Ask, Option::<u64>::None, rem_pre));
                        assert(match_fills(b_orig, id, Side::Ask, limit_price, qty) =~= fills@.skip(
                            old_fills.len() as int,
                        ) + match_fills(r_rest, id, Side::Ask, limit_price, remaining_qty));

                        // Consume bookkeeping: the processed region grows by
                        // the consumed level.
                        lemma_side_handles_down_split(bids_now.skip(i as int - 1), 1);
                        assert(bids_now.skip(i as int - 1).skip(1) =~= bids_now.skip(i as int));
                        assert(bids_now.skip(i as int - 1).take(1) =~= seq![lvl_now]);
                        assert(seq![lvl_now].drop_last() =~= Seq::<PriceLevel>::empty());
                        assert(side_handles_down(seq![lvl_now]) =~= q_new);
                        assert(side_handles_down(bids_now.skip(i as int - 1)) =~= bs + q_new);
                        lemma_level_orders_split(slots_now, bs, q_new);
                        assert(level_orders(slots_now, side_handles_down(bids_now.skip(
                            i as int - 1,
                        ))) =~= level_orders(slots_now, bs) + level_orders(slots_now, q_new));
                        assert(consume_orders(b_orig, Side::Ask, limit_price, qty) =~= level_orders(
                            slots_now,
                            side_handles_down(bids_now.skip(i as int - 1)),
                        ) + consume_orders(r_rest, Side::Ask, limit_price, remaining_qty));

                        // The untouched-region frame for the next iteration.
                        assert(s0.bids@[i as int - 1] == bids_pre[i as int - 1]) by {
                            assert(s0.bids@.take(i as int)[i as int - 1] == s0.bids@[i as int - 1]);
                            assert(bids_pre.take(i as int)[i as int - 1]
                                == bids_pre[i as int - 1]);
                        }
                        lemma_side_handles_down_split(s0.bids@.skip(i as int - 1), 1);
                        assert(s0.bids@.skip(i as int - 1).skip(1) =~= s0.bids@.skip(i as int));
                        assert(s0.bids@.skip(i as int - 1).take(1) =~= seq![s0.bids@[i as int - 1]]);
                        assert(seq![s0.bids@[i as int - 1]].drop_last()
                            =~= Seq::<PriceLevel>::empty());
                        assert(side_handles_down(seq![s0.bids@[i as int - 1]]) =~= q_i);
                        assert(side_handles_down(s0.bids@.skip(i as int - 1)) =~= side_handles_down(
                            s0.bids@.skip(i as int),
                        ) + q_i);
                        assert forall|h: int|
                            0 <= h < s0.arena.slots().len() && !side_handles_down(
                                s0.bids@.skip(i as int - 1),
                            ).contains(h as usize) implies slots_now[h] == s0.arena.slots()[h] by {
                            let shs = side_handles_down(s0.bids@.skip(i as int));
                            if shs.contains(h as usize) {
                                let m = choose|m: int| 0 <= m < shs.len() && shs[m] == h as usize;
                                assert(side_handles_down(s0.bids@.skip(i as int - 1))[m]
                                    == h as usize);
                                assert(false);
                            }
                            if q_i.contains(h as usize) {
                                let n = choose|n: int| 0 <= n < q_i.len() && q_i[n] == h as usize;
                                assert(side_handles_down(s0.bids@.skip(i as int - 1))[shs.len() + n]
                                    == h as usize);
                                assert(false);
                            }
                            assert(slots_pre[h] == s0.arena.slots()[h]);
                            assert(slots_now[h] == slots_pre[h]);
                        }
                        assert(bids_now.take(i as int - 1) =~= bids_pre.take(i as int).take(
                            i as int - 1,
                        ));
                        assert(s0.bids@.take(i as int - 1) =~= s0.bids@.take(i as int).take(
                            i as int - 1,
                        ));
                        assert(bids_now.take(i as int - 1) == s0.bids@.take(i as int - 1));
                    }
                    i -= 1;
                }
            }
        }
        proof {
            let slots_now = self.arena.slots();
            let cur = level_orders(slots_now, side_handles_down(self.bids@.take(i as int)));
            if !done {
                assert(i == 0);
                assert(self.bids@.take(0) =~= Seq::<PriceLevel>::empty());
                assert(side_handles_down(self.bids@.take(0)) =~= Seq::<usize>::empty());
                assert(cur =~= Seq::<LimitOrder>::empty());
                assert(match_fills(cur, id, Side::Ask, limit_price, remaining_qty)
                    == Seq::<FillMetadata>::empty());
            }
            lemma_side_handles_down_split(self.bids@, i as int);
            lemma_level_orders_split(
                slots_now,
                side_handles_down(self.bids@.skip(i as int)),
                side_handles_down(self.bids@.take(i as int)),
            );
            assert(consume_orders(b_orig, Side::Ask, limit_price, qty) =~= level_orders(
                slots_now,
                side_handles_down(self.bids@),
            ));
            assert(match_fills(b_orig, id, Side::Ask, limit_price, qty) =~= fills@.skip(
                old_fills.len() as int,
            ));
            assert(fills@ =~= old_fills + fills@.skip(old_fills.len() as int));
            // The ask side is untouched: its handles are disjoint from every
            // processed bid handle.
            assert(self.asks@ == s0.asks@);
            let a = side_handles(s0.asks@);
            assert(s0.all_handles() == a + side_handles_down(s0.bids@));
            assert forall|m: int| 0 <= m < a.len() implies slots_now[(#[trigger] a[m]) as int]
                == s0.arena.slots()[a[m] as int] by {
                assert(side_handles(s0.asks@)[m] == a[m]);
                assert(side_handles(s0.asks@).contains(a[m]));
                lemma_side_handles_ok(s0.arena.slots(), s0.arena.idx_of(), s0.asks@, a[m]);
                lemma_side_handles_down_split(s0.bids@, i as int);
                lemma_no_dup_parts(a, side_handles_down(s0.bids@));
                if side_handles_down(s0.bids@.skip(i as int)).contains(a[m]) {
                    let n = choose|n: int|
                        0 <= n < side_handles_down(s0.bids@.skip(i as int)).len()
                            && side_handles_down(s0.bids@.skip(i as int))[n] == a[m];
                    assert(side_handles_down(s0.bids@)[n] == a[m]);
                    assert(side_handles_down(s0.bids@)[n] != a[m]);
                    assert(false);
                }
            }
            lemma_level_orders_frame(s0.arena.slots(), slots_now, a);
            assert(self.ask_orders() == s0.ask_orders());
        }
        self.update_max_bid();
        remaining_qty
    }

    /// The side that an incoming order on `side` is matched against.
    pub open spec fn opposite_orders(self, side: Side) -> Seq<LimitOrder> {
        match side {
            Side::Bid => self.ask_orders(),
            Side::Ask => self.bid_orders(),
        }
    }

    /// The side on which an incoming order on `side` would rest.
    pub open spec fn same_orders(self, side: Side) -> Seq<LimitOrder> {
        match side {
            Side::Bid => self.bid_orders(),
            Side::Ask => self.ask_orders(),
        }
    }

    /// An id that is not live either has no arena mapping or maps to a dead
    /// slot, so storing a new order under it cannot orphan a resting order.
    proof fn lemma_not_live_arena(self, id: u128)
        requires
            self.inv_rep(),
            !self.is_live(id),
            self.arena.idx_of().contains_key(id),
        ensures
            self.arena.slots()[self.arena.idx_of()[id] as int].qty == 0,
    {
        let h = self.arena.idx_of()[id];
        let slots = self.arena.slots();
        if slots[h as int].qty > 0 {
            assert(side_handles(self.asks@).contains(h) || side_handles_down(self.bids@).contains(
                h,
            ));
            if side_handles(self.asks@).contains(h) {
                let m = choose|m: int|
                    0 <= m < side_handles(self.asks@).len() && side_handles(self.asks@)[m] == h;
                assert(self.ask_orders()[m] == slots[h as int]);
                assert(self.ask_orders()[m].id == id);
                assert(contains_id(self.ask_orders(), id));
            } else {
                let m = choose|m: int|
                    0 <= m < side_handles_down(self.bids@).len() && side_handles_down(
                        self.bids@,
                    )[m] == h;
                assert(self.bid_orders()[m] == slots[h as int]);
                assert(self.bid_orders()[m].id == id);
                assert(contains_id(self.bid_orders(), id));
            }
            assert(false);
        }
    }

    /// Execute a market order: sweep the opposite side for up to `qty`,
    /// returning the fills, whether the order was only partially filled,
    /// and the filled quantity.
    fn market(&mut self, id: u128, side: Side, qty: u64) -> (r: (Vec<FillMetadata>, bool, u64))
        requires
            old(self).wf(),
        ensures
            final(self).wf(),
            r.0@ == match_fills(
                old(self).opposite_orders(side),
                id,
                side,
                Option::<u64>::None,
                qty,
            ),
            r.1 == (remaining_after(old(self).opposite_orders(side), side, Option::<u64>::None, qty)
                > 0),
            r.2 == qty - remaining_after(
                old(self).opposite_orders(side),
                side,
                Option::<u64>::None,
                qty,
            ),
            final(self).opposite_orders(side) == consume_orders(
                old(self).opposite_orders(side),
                side,
                Option::<u64>::None,
                qty,
            ),
            final(self).same_orders(side) == old(self).same_orders(side),
            final(self).spec_last_trade() == old(self).spec_last_trade(),
            final(self).spec_traded_volume() == old(self).spec_traded_volume(),
            final(self).spec_track_stats() == old(self).spec_track_stats(),
            final(self).default_queue_capacity == old(self).default_queue_capacity,
    {
        let mut fills = Vec::new();

        let remaining_qty = match side {
            Side::Bid => self.match_with_asks(id, qty, &mut fills, None),
            Side::Ask => self.match_with_bids(id, qty, &mut fills, None),
        };

        proof {
            assert(fills@ =~= match_fills(
                old(self).opposite_orders(side),
                id,
                side,
                Option::<u64>::None,
                qty,
            ));
            (*self).lemma_model_ok();
            Self::lemma_uncrossed_after_consume(*old(self), *self, side, Option::<u64>::None, qty);
            lemma_match_accounting(
                old(self).opposite_orders(side),
                id,
                side,
                Option::<u64>::None,
                qty,
            );
        }
        let partial = remaining_qty > 0;

        (fills, partial, qty - remaining_qty)
    }

    /// After consuming from the opposite side, the book stays uncrossed:
    /// consumption only moves the opposite best price away.
    proof fn lemma_uncrossed_after_consume(
        pre: OrderBook,
        post: OrderBook,
        side: Side,
        limit: Option<u64>,
        qty: u64,
    )
        requires
            pre.wf(),
            post.opposite_orders(side) == consume_orders(
                pre.opposite_orders(side),
                side,
                limit,
                qty,
            ),
            post.same_orders(side) == pre.same_orders(side),
            match side {
                Side::Bid => post.spec_min_ask() == best_price(post.ask_orders())
                    && post.spec_max_bid() == pre.spec_max_bid(),
                Side::Ask => post.spec_max_bid() == best_price(post.bid_orders())
                    && post.spec_min_ask() == pre.spec_min_ask(),
            },
        ensures
            uncrossed(post.spec_max_bid(), post.spec_min_ask()),
            match side {
                Side::Bid => post.spec_max_bid() == best_price(post.bid_orders()),
                Side::Ask => post.spec_min_ask() == best_price(post.ask_orders()),
            },
    {
        match side {
            Side::Bid => {
                let makers = pre.ask_orders();
                let c = consume_orders(makers, Side::Bid, limit, qty);
                if c.len() > 0 {
                    assert(makers.len() > 0) by {
                        if makers.len() == 0 {
                            assert(c == makers);
                        }
                    }
                    lemma_consume_price_bound(makers, Side::Ask, Side::Bid, limit, qty);
                    assert(c[0].price >= makers[0].price);
                }
            },
            Side::Ask => {
                let makers = pre.bid_orders();
                let c = consume_orders(makers, Side::Ask, limit, qty);
                if c.len() > 0 {
                    assert(makers.len() > 0) by {
                        if makers.len() == 0 {
                            assert(c == makers);
                        }
                    }
                    lemma_consume_price_bound(makers, Side::Bid, Side::Ask, limit, qty);
                    assert(c[0].price <= makers[0].price);
                }
            },
        }
    }

    /// Store the unfilled residue of a buy limit order in the arena, append
    /// its handle to the bid queue at its price (creating the level if
    /// needed), and raise the cached highest bid if the new price beats it.
    #[verifier::loop_isolation(false)]
    #[verifier::rlimit(100)]
    #[verifier::spinoff_prover]
    fn rest_bid(&mut self, id: u128, price: u64, qty: u64)
        requires
            old(self).wf(),
            qty > 0,
            !old(self).is_live(id),
            forall|k: int|
                0 <= k < old(self).ask_orders().len() ==> !price_crosses(
                    Side::Bid,
                    Option::Some(price),
                    (#[trigger] old(self).ask_orders()[k]).price,
                ),
        ensures
            final(self).wf(),
            final(self).bid_orders() == insert_order(
                old(self).bid_orders(),
                Side::Bid,
                LimitOrder { id, qty, price },
            ),
            final(self).ask_orders() == old(self).ask_orders(),
            final(self).spec_min_ask() == old(self).spec_min_ask(),
            final(self).spec_last_trade() == old(self).spec_last_trade(),
            final(self).spec_traded_volume() == old(self).spec_traded_volume(),
            final(self).spec_track_stats() == old(self).spec_track_stats(),
            final(self).default_queue_capacity == old(self).default_queue_capacity,
    {
        let ghost s0 = *old(self);
        let ghost o = LimitOrder { id, qty, price };
        proof {
            if s0.arena.idx_of().contains_key(id) {
                s0.lemma_not_live_arena(id);
            }
        }
        let index = self.arena.insert(id, price, qty);
        let ghost slots1 = self.arena.slots();
        let ghost idx1 = self.arena.idx_of();
        proof {
            // The fresh handle is dead or new, so no queue refers to it, and
            // every old queue handle keeps its slot.
            assert(slots1[index as int] == o);
            assert(idx1 == s0.arena.idx_of().insert(id, index));
            assert forall|h: usize|
                #![trigger side_handles(s0.asks@).contains(h)]
                #![trigger side_handles_down(s0.bids@).contains(h)]
                side_handles(s0.asks@).contains(h) || side_handles_down(s0.bids@).contains(h)
                    implies h != index && (h as int) < slots1.len() && slots1[h as int]
                    == s0.arena.slots()[h as int] by {
                if side_handles(s0.asks@).contains(h) {
                    lemma_side_handles_ok(s0.arena.slots(), s0.arena.idx_of(), s0.asks@, h);
                } else {
                    lemma_side_handles_ok(s0.arena.slots(), s0.arena.idx_of(), s0.bids@, h);
                }
                if s0.arena.free_list().len() > 0 {
                    assert(s0.arena.slots()[s0.arena.free_list()[s0.arena.free_list().len() - 1] as int].qty
                        == 0);
                }
            }
            // Well-formed levels survive the arena insertion.
            assert forall|j: int| 0 <= j < s0.asks@.len() implies level_wf(
                slots1,
                idx1,
                #[trigger] s0.asks@[j],
            ) by {
                assert(level_wf(s0.arena.slots(), s0.arena.idx_of(), s0.asks@[j]));
                assert forall|k: int| 0 <= k < s0.asks@[j].queue@.len() implies {
                    let h = (#[trigger] s0.asks@[j].queue@[k]) as int;
                    &&& h < slots1.len()
                    &&& slots1[h].qty > 0
                    &&& slots1[h].price == s0.asks@[j].price
                    &&& idx1.contains_key(slots1[h].id)
                    &&& idx1[slots1[h].id] == s0.asks@[j].queue@[k]
                } by {
                    let h = s0.asks@[j].queue@[k];
                    lemma_side_handles_member(s0.asks@, h);
                    assert(side_handles(s0.asks@).contains(h));
                    assert(slots1[h as int] == s0.arena.slots()[h as int]);
                    assert(s0.arena.idx_of()[s0.arena.slots()[h as int].id] == h);
                    assert(s0.arena.slots()[h as int].id != id) by {
                        if s0.arena.slots()[h as int].id == id {
                            s0.lemma_not_live_arena(id);
                        }
                    }
                }
            }
            assert forall|j: int| 0 <= j < s0.bids@.len() implies level_wf(
                slots1,
                idx1,
                #[trigger] s0.bids@[j],
            ) by {
                assert(level_wf(s0.arena.slots(), s0.arena.idx_of(), s0.bids@[j]));
                assert forall|k: int| 0 <= k < s0.bids@[j].queue@.len() implies {
                    let h = (#[trigger] s0.bids@[j].queue@[k]) as int;
                    &&& h < slots1.len()
                    &&& slots1[h].qty > 0
                    &&& slots1[h].price == s0.bids@[j].price
                    &&& idx1.contains_key(slots1[h].id)
                    &&& idx1[slots1[h].id] == s0.bids@[j].queue@[k]
                } by {
                    let h = s0.bids@[j].queue@[k];
                    lemma_side_handles_down_member(s0.bids@, h);
                    lemma_side_handles_member(s0.bids@, h);
                    assert(side_handles_down(s0.bids@).contains(h));
                    assert(slots1[h as int] == s0.arena.slots()[h as int]);
                    assert(s0.arena.idx_of()[s0.arena.slots()[h as int].id] == h);
                    assert(s0.arena.slots()[h as int].id != id) by {
                        if s0.arena.slots()[h as int].id == id {
                            s0.lemma_not_live_arena(id);
                        }
                    }
                }
            }
            assert forall|m: int| 0 <= m < side_handles(s0.asks@).len() implies s0.arena.slots()[(
            #[trigger] side_handles(s0.asks@)[m]) as int] == slots1[side_handles(
                s0.asks@,
            )[m] as int] by {
                assert(side_handles(s0.asks@).contains(side_handles(s0.asks@)[m]));
            }
            assert forall|m: int|
                0 <= m < side_handles_down(s0.bids@).len() implies s0.arena.slots()[(
            #[trigger] side_handles_down(s0.bids@)[m]) as int] == slots1[side_handles_down(
                s0.bids@,
            )[m] as int] by {
                assert(side_handles_down(s0.bids@).contains(side_handles_down(s0.bids@)[m]));
            }
            lemma_level_orders_frame(s0.arena.slots(), slots1, side_handles(s0.asks@));
            lemma_level_orders_frame(s0.arena.slots(), slots1, side_handles_down(s0.bids@));
        }
        let queue_capacity = self.default_queue_capacity;
        let mut j: usize = 0;
        while j < self.bids.len() && self.bids[j].price < price
            invariant
                j <= self.bids@.len(),
                forall|k: int| 0 <= k < j ==> (#[trigger] self.bids@[k]).price < price,
            decreases self.bids@.len() - j,
        {
            j += 1;
        }
        let merge = j < self.bids.len() && self.bids[j].price == price;
        let ghost bids_pre = self.bids@;
        if merge {
            let mut level = self.bids.remove(j);
            level.queue.push(index);
            self.bids.insert(j, level);
            proof {
                assert(self.bids@ =~= bids_pre.update(j as int, self.bids@[j as int]));
            }
        } else {
            let mut queue: Vec<usize> = Vec::with_capacity(queue_capacity);
            queue.push(index);
            self.bids.insert(j, PriceLevel { price, queue });
            proof {
                assert(self.bids@ =~= bids_pre.insert(j as int, self.bids@[j as int]));
                assert(self.bids@[j as int].queue@ =~= seq![index]);
            }
        }
        proof {
            assert(idx1 == s0.arena.idx_of().insert(id, index));
            assert(s0.arena.slots().len() <= slots1.len());
            assert forall|h: int|
                0 <= h < s0.arena.slots().len() && h != index as int implies slots1[h]
                == s0.arena.slots()[h] by {
                if s0.arena.free_list().len() > 0 {
                    assert(slots1 == s0.arena.slots().update(index as int, o));
                } else {
                    assert(slots1 == s0.arena.slots().push(o));
                }
            }
            Self::lemma_rest_splice_down(
                s0,
                *self,
                slots1,
                idx1,
                bids_pre,
                j as int,
                merge,
                index,
                o,
            );
        }
        match self.max_bid {
            None => {
                self.max_bid = Some(price);
            },
            Some(b) if price > b => {
                self.max_bid = Some(price);
            },
            _ => {},
        };
        proof {
            (*self).lemma_model_ok();
            let old_b = s0.bid_orders();
            let new_b = self.bid_orders();
            assert(new_b == insert_order(old_b, Side::Bid, o));
            // The cached highest bid tracks the model's front order.
            if old_b.len() > 0 && old_b[0].price >= price {
                assert(new_b[0] == old_b[0]) by {
                    if insert_order(old_b, Side::Bid, o).len() > 0 {
                        assert(insert_order(old_b, Side::Bid, o)[0] == if old_b[0].price >= o.price {
                            old_b[0]
                        } else {
                            o
                        });
                    }
                }
            } else if old_b.len() > 0 {
                assert(new_b[0] == o);
            } else {
                assert(new_b =~= seq![o]);
                assert(new_b[0] == o);
            }
            // Uncrossed: the residue price and the old best bid both lie
            // strictly below what is left of the ask side.
            if self.ask_orders().len() > 0 {
                assert(!price_crosses(Side::Bid, Option::Some(price), s0.ask_orders()[0].price));
            }
        }
    }

    /// Splicing one handle into the bid levels at its price splices its
    /// order into the descending model sequence.
    #[verifier::rlimit(100)]
    #[verifier::spinoff_prover]
    proof fn lemma_rest_splice_down(
        s0: OrderBook,
        s1: OrderBook,
        slots1: Seq<LimitOrder>,
        idx1: Map<u128, usize>,
        bids_pre: Seq<PriceLevel>,
        j: int,
        merge: bool,
        index: usize,
        o: LimitOrder,
    )
        requires
            s0.inv_rep(),
            bids_pre == s0.bids@,
            s1.asks@ == s0.asks@,
            s1.arena.slots() == slots1,
            s1.arena.idx_of() == idx1,
            s1.arena.wf(),
            0 <= j <= bids_pre.len(),
            forall|k: int| 0 <= k < j ==> (#[trigger] bids_pre[k]).price < o.price,
            merge ==> j < bids_pre.len() && bids_pre[j as int].price == o.price,
            !merge ==> (j == bids_pre.len() || bids_pre[j as int].price > o.price),
            merge ==> s1.bids@ == bids_pre.update(j, s1.bids@[j]) && s1.bids@[j].price
                == o.price && s1.bids@[j].queue@ == bids_pre[j].queue@.push(index)
                && s1.bids@.len() == bids_pre.len(),
            !merge ==> s1.bids@.len() == bids_pre.len() + 1 && s1.bids@ == bids_pre.insert(
                j,
                s1.bids@[j],
            ) && s1.bids@[j].price == o.price && s1.bids@[j].queue@ == seq![index],
            slots1[index as int] == o,
            o.qty > 0,
            (index as int) < slots1.len(),
            idx1 == s0.arena.idx_of().insert(o.id, index),
            s0.arena.slots().len() <= slots1.len(),
            forall|h: int|
                0 <= h < s0.arena.slots().len() && h != index as int ==> slots1[h]
                    == s0.arena.slots()[h],
            forall|h: usize|
                #![trigger side_handles(s0.asks@).contains(h)]
                #![trigger side_handles_down(s0.bids@).contains(h)]
                side_handles(s0.asks@).contains(h) || side_handles_down(s0.bids@).contains(h)
                    ==> h != index && (h as int) < slots1.len() && slots1[h as int]
                    == s0.arena.slots()[h as int],
            forall|lj: int|
                0 <= lj < s0.asks@.len() ==> level_wf(slots1, idx1, #[trigger] s0.asks@[lj]),
            forall|lj: int|
                0 <= lj < s0.bids@.len() ==> level_wf(slots1, idx1, #[trigger] s0.bids@[lj]),
            level_orders(slots1, side_handles(s0.asks@)) == level_orders(
                s0.arena.slots(),
                side_handles(s0.asks@),
            ),
            level_orders(slots1, side_handles_down(s0.bids@)) == level_orders(
                s0.arena.slots(),
                side_handles_down(s0.bids@),
            ),
        ensures
            s1.inv_rep(),
            s1.bid_orders() == insert_order(s0.bid_orders(), Side::Bid, o),
            s1.ask_orders() == s0.ask_orders(),
    {
        let lvl = s1.bids@[j];
        let q_j: Seq<usize> = if merge {
            bids_pre[j].queue@
        } else {
            Seq::empty()
        };
        // Decompose the old and new sides around position j.
        let hi = if merge {
            bids_pre.skip(j + 1)
        } else {
            bids_pre.skip(j)
        };
        let lo = bids_pre.take(j);
        if merge {
            lemma_side_handles_down_split(bids_pre, j + 1);
            assert(bids_pre.take(j + 1).last() == bids_pre[j]);
            assert(bids_pre.take(j + 1).drop_last() =~= lo);
            assert(side_handles_down(bids_pre.take(j + 1)) == q_j + side_handles_down(lo));
            assert(side_handles_down(bids_pre) =~= side_handles_down(hi) + (q_j
                + side_handles_down(lo)));
        } else {
            lemma_side_handles_down_split(bids_pre, j);
            assert(side_handles_down(bids_pre) =~= side_handles_down(hi) + (q_j
                + side_handles_down(lo)));
        }
        lemma_side_handles_down_split(s1.bids@, j + 1);
        assert(s1.bids@.skip(j + 1) =~= hi);
        assert(s1.bids@.take(j + 1).last() == lvl);
        assert(s1.bids@.take(j + 1).drop_last() =~= lo);
        assert(s1.bids@.take(j) =~= lo);
        assert(side_handles_down(s1.bids@.take(j + 1)) == lvl.queue@ + side_handles_down(lo));
        assert(lvl.queue@ =~= q_j.push(index));
        assert(side_handles_down(s1.bids@) =~= side_handles_down(hi) + ((q_j + seq![index])
            + side_handles_down(lo)));

        // Sortedness of the new side.
        assert forall|m: int, n: int| 0 <= m < n < s1.bids@.len() implies (
        #[trigger] s1.bids@[m]).price < (#[trigger] s1.bids@[n]).price by {
            if merge {
                assert(s1.bids@[m] == if m == j {
                    lvl
                } else {
                    bids_pre[m]
                });
                assert(s1.bids@[n] == if n == j {
                    lvl
                } else {
                    bids_pre[n]
                });
            } else {
                assert(s1.bids@[m] == if m < j {
                    bids_pre[m]
                } else if m == j {
                    lvl
                } else {
                    bids_pre[m - 1]
                });
                assert(s1.bids@[n] == if n < j {
                    bids_pre[n]
                } else if n == j {
                    lvl
                } else {
                    bids_pre[n - 1]
                });
            }
        }

        // Level well-formedness of the new side.
        assert(level_wf(slots1, idx1, lvl)) by {
            assert forall|k: int| 0 <= k < lvl.queue@.len() implies {
                let h = (#[trigger] lvl.queue@[k]) as int;
                &&& h < slots1.len()
                &&& slots1[h].qty > 0
                &&& slots1[h].price == lvl.price
                &&& idx1.contains_key(slots1[h].id)
                &&& idx1[slots1[h].id] == lvl.queue@[k]
            } by {
                if k < q_j.len() {
                    assert(lvl.queue@[k] == q_j[k]);
                    assert(level_wf(slots1, idx1, s0.bids@[j]));
                } else {
                    assert(lvl.queue@[k] == index);
                }
            }
        }
        assert forall|m: int| 0 <= m < s1.bids@.len() implies level_wf(
            slots1,
            idx1,
            #[trigger] s1.bids@[m],
        ) by {
            if merge {
                if m != j {
                    assert(s1.bids@[m] == bids_pre[m]);
                }
            } else {
                if m < j {
                    assert(s1.bids@[m] == bids_pre[m]);
                } else if m > j {
                    assert(s1.bids@[m] == bids_pre[m - 1]);
                }
            }
        }
        assert(side_wf(slots1, idx1, s1.bids@));
        assert(side_wf(slots1, idx1, s1.asks@));

        // The new handle sequence has no duplicates.
        let a = side_handles(s0.asks@);
        let p_hi = side_handles_down(hi);
        let p_lo = side_handles_down(lo);
        assert((a + side_handles_down(bids_pre)) =~= a + (p_hi + (q_j + p_lo)));
        lemma_no_dup_parts(a, p_hi + (q_j + p_lo));
        lemma_no_dup_parts(p_hi, q_j + p_lo);
        lemma_no_dup_parts(q_j, p_lo);
        assert forall|n: int|
            0 <= n < side_handles_down(bids_pre).len() implies (#[trigger] side_handles_down(
            bids_pre,
        )[n]) != index by {
            assert(side_handles_down(bids_pre).contains(side_handles_down(bids_pre)[n]));
        }
        assert forall|n: int| 0 <= n < a.len() implies (#[trigger] a[n]) != index by {
            assert(a.contains(a[n]));
        }
        let nh = side_handles_down(s1.bids@);
        assert(nh =~= p_hi + ((q_j + seq![index]) + p_lo));
        assert forall|m: int, n: int| 0 <= m < n < nh.len() implies (#[trigger] nh[m]) != (
        #[trigger] nh[n]) by {
            let off1 = p_hi.len();
            let off2 = p_hi.len() + q_j.len();
            let oldh = side_handles_down(bids_pre);
            assert forall|z: int| 0 <= z < nh.len() && z != off2 implies nh[z] == oldh[if z < off2 {
                z
            } else {
                z - 1
            }] by {}
            if m == off2 {
                assert(nh[n] == oldh[n - 1]);
            } else if n == off2 {
                assert(nh[m] == oldh[m]);
            } else {
                let m2 = if m < off2 {
                    m
                } else {
                    m - 1
                };
                let n2 = if n < off2 {
                    n
                } else {
                    n - 1
                };
                assert(nh[m] == oldh[m2] && nh[n] == oldh[n2]);
                if m2 == n2 {
                    assert(false);
                }
            }
        }
        lemma_no_dup_parts(a, side_handles_down(bids_pre));
        assert forall|m: int, n: int| 0 <= m < a.len() && 0 <= n < nh.len() implies (
        #[trigger] a[m]) != (#[trigger] nh[n]) by {
            let off2 = (p_hi.len() + q_j.len()) as int;
            if n == off2 {
                assert(nh[n] == index);
            } else {
                let n2 = if n < off2 {
                    n
                } else {
                    n - 1
                };
                assert(nh[n] == side_handles_down(bids_pre)[n2]);
            }
        }
        lemma_no_dup_join(a, nh);
        assert((side_handles(s1.asks@) + side_handles_down(s1.bids@)).no_duplicates());

        // Liveness of indexed ids.
        assert forall|id2: u128|
            idx1.contains_key(id2) && slots1[(#[trigger] idx1[id2]) as int].qty > 0 implies
            side_handles(s1.asks@).contains(idx1[id2]) || side_handles_down(s1.bids@).contains(
                idx1[id2],
            ) by {
            if id2 == o.id {
                let off2 = (p_hi.len() + q_j.len()) as int;
                assert(nh[off2] == index);
                assert(nh.contains(index));
            } else {
                assert(idx1[id2] == s0.arena.idx_of()[id2]);
                let h = s0.arena.idx_of()[id2];
                assert((h as int) < s0.arena.slots().len());
                assert(slots1[h as int].qty > 0);
                // The reused or appended slot carries o.id, so h is a
                // different slot and kept its old record.
                assert(h != index) by {
                    assert(s0.arena.slots()[h as int].id == id2);
                    if h == index {
                        assert(slots1[h as int].id == o.id);
                        assert(slots1[h as int].id == s0.arena.slots()[h as int].id);
                    }
                }
                assert(slots1[h as int] == s0.arena.slots()[h as int]) by {
                    if s0.arena.free_list().len() > 0 {
                        assert(s0.arena.slots()[s0.arena.free_list()[s0.arena.free_list().len()
                            - 1] as int].qty == 0);
                    }
                }
                assert(s0.arena.slots()[h as int].qty > 0);
                assert(side_handles(s0.asks@).contains(h) || side_handles_down(s0.bids@).contains(
                    h,
                ));
                if side_handles(s0.asks@).contains(h) {
                } else {
                    let m = choose|m: int|
                        0 <= m < side_handles_down(bids_pre).len() && side_handles_down(
                            bids_pre,
                        )[m] == h;
                    let off2 = (p_hi.len() + q_j.len()) as int;
                    if m < off2 {
                        assert(nh[m] == h);
                    } else {
                        assert(nh[m + 1] == h);
                    }
                    assert(nh.contains(h));
                }
            }
        }
        assert(s1.inv_rep());

        // The model equation.
        let p_orders = level_orders(slots1, p_hi);
        let aj_orders = level_orders(slots1, q_j);
        let q_orders = level_orders(slots1, p_lo);
        lemma_level_orders_split(slots1, p_hi, q_j + p_lo);
        lemma_level_orders_split(slots1, q_j, p_lo);
        lemma_level_orders_split(slots1, p_hi, (q_j + seq![index]) + p_lo);
        lemma_level_orders_split(slots1, q_j + seq![index], p_lo);
        lemma_level_orders_split(slots1, q_j, seq![index]);
        assert(level_orders(slots1, seq![index]) =~= seq![o]);
        assert(s0.bid_orders() == level_orders(slots1, side_handles_down(bids_pre)));
        assert(s0.bid_orders() =~= (p_orders + aj_orders) + q_orders);
        assert(s1.bid_orders() =~= (p_orders + aj_orders) + (seq![o] + q_orders));
        assert forall|k: int| 0 <= k < (p_orders + aj_orders).len() implies (#[trigger] (p_orders
            + aj_orders)[k]).price >= o.price by {
            if k < p_orders.len() {
                let h = p_hi[k];
                assert(p_orders[k] == slots1[h as int]);
                assert(p_hi.contains(h)) by {
                    assert(p_hi[k] == h);
                }
                lemma_side_handles_down_member(hi, h);
                lemma_side_handles_member(hi, h);
                let (li, lk) = choose|li: int, lk: int|
                    0 <= li < hi.len() && 0 <= lk < hi[li].queue@.len() && #[trigger] hi[li].queue@[lk]
                        == h;
                let gj = if merge {
                    li + j + 1
                } else {
                    li + j
                };
                assert(hi[li] == bids_pre[gj]);
                assert(level_wf(slots1, idx1, bids_pre[gj]));
                assert(slots1[h as int].price == bids_pre[gj].price);
                assert(bids_pre[gj].price >= o.price) by {
                    if merge {
                        assert(gj > j);
                        assert(bids_pre[j].price < bids_pre[gj].price);
                    } else {
                        assert(j < bids_pre.len());
                        assert(gj == j || bids_pre[j].price < bids_pre[gj].price);
                        assert(bids_pre[j].price > o.price);
                    }
                }
            } else {
                let h = q_j[k - p_orders.len()];
                assert(aj_orders[k - p_orders.len()] == slots1[h as int]);
                assert(level_wf(slots1, idx1, s0.bids@[j]));
                assert(slots1[h as int].price == bids_pre[j].price);
            }
        }
        assert forall|k: int| 0 <= k < q_orders.len() implies (#[trigger] q_orders[k]).price
            < o.price by {
            let h = p_lo[k];
            assert(q_orders[k] == slots1[h as int]);
            assert(p_lo.contains(h)) by {
                assert(p_lo[k] == h);
            }
            lemma_side_handles_down_member(lo, h);
            lemma_side_handles_member(lo, h);
            let (li, lk) = choose|li: int, lk: int|
                0 <= li < lo.len() && 0 <= lk < lo[li].queue@.len() && #[trigger] lo[li].queue@[lk]
                    == h;
            assert(lo[li] == bids_pre[li]);
            assert(level_wf(slots1, idx1, bids_pre[li]));
            assert(slots1[h as int].price == bids_pre[li].price);
            assert(bids_pre[li].price < o.price);
        }
        lemma_insert_order_split(p_orders + aj_orders, q_orders, Side::Bid, o);
        assert(insert_order(s0.bid_orders(), Side::Bid, o) =~= (p_orders + aj_orders) + (seq![o]
            + q_orders));
    }

    /// Store the unfilled residue of a sell limit order in the arena, append
    /// its handle to the ask queue at its price (creating the level if
    /// needed), and lower the cached lowest ask if the new price beats it.
    #[verifier::loop_isolation(false)]
    #[verifier::rlimit(100)]
    #[verifier::spinoff_prover]
    fn rest_ask(&mut self, id: u128, price: u64, qty: u64)
        requires
            old(self).wf(),
            qty > 0,
            !old(self).is_live(id),
            forall|k: int|
                0 <= k < old(self).bid_orders().len() ==> !price_crosses(
                    Side::Ask,
                    Option::Some(price),
                    (#[trigger] old(self).bid_orders()[k]).price,
                ),
        ensures
            final(self).wf(),
            final(self).ask_orders() == insert_order(
                old(self).ask_orders(),
                Side::Ask,
                LimitOrder { id, qty, price },
            ),
            final(self).bid_orders() == old(self).bid_orders(),
            final(self).spec_max_bid() == old(self).spec_max_bid(),
            final(self).spec_last_trade() == old(self).spec_last_trade(),
            final(self).spec_traded_volume() == old(self).spec_traded_volume(),
            final(self).spec_track_stats() == old(self).spec_track_stats(),
            final(self).default_queue_capacity == old(self).default_queue_capacity,
    {
        let ghost s0 = *old(self);
        let ghost o = LimitOrder { id, qty, price };
        proof {
            if s0.arena.idx_of().contains_key(id) {
                s0.lemma_not_live_arena(id);
            }
        }
        let index = self.arena.insert(id, price, qty);
        let ghost slots1 = self.arena.slots();
        let ghost idx1 = self.arena.idx_of();
        proof {
            assert(slots1[index as int] == o);
            assert(idx1 == s0.arena.idx_of().insert(id, index));
            assert forall|h: usize|
                #![trigger side_handles(s0.asks@).contains(h)]
                #![trigger side_handles_down(s0.bids@).contains(h)]
                side_handles(s0.asks@).contains(h) || side_handles_down(s0.bids@).contains(h)
                    implies h != index && (h as int) < slots1.len() && slots1[h as int]
                    == s0.arena.slots()[h as int] by {
                if side_handles(s0.asks@).contains(h) {
                    lemma_side_handles_ok(s0.arena.slots(), s0.arena.idx_of(), s0.asks@, h);
                } else {
                    lemma_side_handles_ok(s0.arena.slots(), s0.arena.idx_of(), s0.bids@, h);
                }
                if s0.arena.free_list().len() > 0 {
                    assert(s0.arena.slots()[s0.arena.free_list()[s0.arena.free_list().len() - 1] as int].qty
                        == 0);
                }
            }
            assert forall|j: int| 0 <= j < s0.asks@.len() implies level_wf(
                slots1,
                idx1,
                #[trigger] s0.asks@[j],
            ) by {
                assert(level_wf(s0.arena.slots(), s0.arena.idx_of(), s0.asks@[j]));
                assert forall|k: int| 0 <= k < s0.asks@[j].queue@.len() implies {
                    let h = (#[trigger] s0.asks@[j].queue@[k]) as int;
                    &&& h < slots1.len()
                    &&& slots1[h].qty > 0
                    &&& slots1[h].price == s0.asks@[j].price
                    &&& idx1.contains_key(slots1[h].id)
                    &&& idx1[slots1[h].id] == s0.asks@[j].queue@[k]
                } by {
                    let h = s0.asks@[j].queue@[k];
                    lemma_side_handles_member(s0.asks@, h);
                    assert(side_handles(s0.asks@).contains(h));
                    assert(slots1[h as int] == s0.arena.slots()[h as int]);
                    assert(s0.arena.idx_of()[s0.arena.slots()[h as int].id] == h);
                    assert(s0.arena.slots()[h as int].id != id) by {
                        if s0.arena.slots()[h as int].id == id {
                            s0.lemma_not_live_arena(id);
                        }
                    }
                }
            }
            assert forall|j: int| 0 <= j < s0.bids@.len() implies level_wf(
                slots1,
                idx1,
                #[trigger] s0.bids@[j],
            ) by {
                assert(level_wf(s0.arena.slots(), s0.arena.idx_of(), s0.bids@[j]));
                assert forall|k: int| 0 <= k < s0.bids@[j].queue@.len() implies {
                    let h = (#[trigger] s0.bids@[j].queue@[k]) as int;
                    &&& h < slots1.len()
                    &&& slots1[h].qty > 0
                    &&& slots1[h].price == s0.bids@[j].price
                    &&& idx1.contains_key(slots1[h].id)
                    &&& idx1[slots1[h].id] == s0.bids@[j].queue@[k]
                } by {
                    let h = s0.bids@[j].queue@[k];
                    lemma_side_handles_down_member(s0.bids@, h);
                    lemma_side_handles_member(s0.bids@, h);
                    assert(side_handles_down(s0.bids@).contains(h));
                    assert(slots1[h as int] == s0.arena.slots()[h as int]);
                    assert(s0.arena.idx_of()[s0.arena.slots()[h as int].id] == h);
                    assert(s0.arena.slots()[h as int].id != id) by {
                        if s0.arena.slots()[h as int].id == id {
                            s0.lemma_not_live_arena(id);
                        }
                    }
                }
            }
            assert forall|m: int| 0 <= m < side_handles(s0.asks@).len() implies s0.arena.slots()[(
            #[trigger] side_handles(s0.asks@)[m]) as int] == slots1[side_handles(
                s0.asks@,
            )[m] as int] by {
                assert(side_handles(s0.asks@).contains(side_handles(s0.asks@)[m]));
            }
            assert forall|m: int|
                0 <= m < side_handles_down(s0.bids@).len() implies s0.arena.slots()[(
            #[trigger] side_handles_down(s0.bids@)[m]) as int] == slots1[side_handles_down(
                s0.bids@,
            )[m] as int] by {
                assert(side_handles_down(s0.bids@).contains(side_handles_down(s0.bids@)[m]));
            }
            lemma_level_orders_frame(s0.arena.slots(), slots1, side_handles(s0.asks@));
            lemma_level_orders_frame(s0.arena.slots(), slots1, side_handles_down(s0.bids@));
        }
        let queue_capacity = self.default_queue_capacity;
        let mut j: usize = 0;
        while j < self.asks.len() && self.asks[j].price < price
            invariant
                j <= self.asks@.len(),
                forall|k: int| 0 <= k < j ==> (#[trigger] self.asks@[k]).price < price,
            decreases self.asks@.len() - j,
        {
            j += 1;
        }
        let merge = j < self.asks.len() && self.asks[j].price == price;
        let ghost asks_pre = self.asks@;
        if merge {
            let mut level = self.asks.remove(j);
            level.queue.push(index);
            self.asks.insert(j, level);
            proof {
                assert(self.asks@ =~= asks_pre.update(j as int, self.asks@[j as int]));
            }
        } else {
            let mut queue: Vec<usize> = Vec::with_capacity(queue_capacity);
            queue.push(index);
            self.asks.insert(j, PriceLevel { price, queue });
            proof {
                assert(self.asks@ =~= asks_pre.insert(j as int, self.asks@[j as int]));
                assert(self.asks@[j as int].queue@ =~= seq![index]);
            }
        }
        proof {
            assert(idx1 == s0.arena.idx_of().insert(id, index));
            assert(s0.arena.slots().len() <= slots1.len());
            assert forall|h: int|
                0 <= h < s0.arena.slots().len() && h != index as int implies slots1[h]
                == s0.arena.slots()[h] by {
                if s0.arena.free_list().len() > 0 {
                    assert(slots1 == s0.arena.slots().update(index as int, o));
                } else {
                    assert(slots1 == s0.arena.slots().push(o));
                }
            }
            Self::lemma_rest_splice_up(
                s0,
                *self,
                slots1,
                idx1,
                asks_pre,
                j as int,
                merge,
                index,
                o,
            );
        }
        match self.min_ask {
            None => {
                self.min_ask = Some(price);
            },
            Some(a) if price < a => {
                self.min_ask = Some(price);
            },
            _ => {},
        };
        proof {
            (*self).lemma_model_ok();
            let old_a = s0.ask_orders();
            let new_a = self.ask_orders();
            assert(new_a == insert_order(old_a, Side::Ask, o));
            if old_a.len() > 0 && old_a[0].price <= price {
                assert(new_a[0] == old_a[0]) by {
                    if insert_order(old_a, Side::Ask, o).len() > 0 {
                        assert(insert_order(old_a, Side::Ask, o)[0] == if old_a[0].price <= o.price {
                            old_a[0]
                        } else {
                            o
                        });
                    }
                }
            } else if old_a.len() > 0 {
                assert(new_a[0] == o);
            } else {
                assert(new_a =~= seq![o]);
                assert(new_a[0] == o);
            }
            if self.bid_orders().len() > 0 {
                assert(!price_crosses(Side::Ask, Option::Some(price), s0.bid_orders()[0].price));
            }
        }
    }

    /// Splicing one handle into the ask levels at its price splices its
    /// order into the ascending model sequence.
    #[verifier::rlimit(100)]
    #[verifier::spinoff_prover]
    proof fn lemma_rest_splice_up(
        s0: OrderBook,
        s1: OrderBook,
        slots1: Seq<LimitOrder>,
        idx1: Map<u128, usize>,
        asks_pre: Seq<PriceLevel>,
        j: int,
        merge: bool,
        index: usize,
        o: LimitOrder,
    )
        requires
            s0.inv_rep(),
            asks_pre == s0.asks@,
            s1.bids@ == s0.bids@,
            s1.arena.slots() == slots1,
            s1.arena.idx_of() == idx1,
            s1.arena.wf(),
            0 <= j <= asks_pre.len(),
            forall|k: int| 0 <= k < j ==> (#[trigger] asks_pre[k]).price < o.price,
            merge ==> j < asks_pre.len() && asks_pre[j as int].price == o.price,
            !merge ==> (j == asks_pre.len() || asks_pre[j as int].price > o.price),
            merge ==> s1.asks@ == asks_pre.update(j, s1.asks@[j]) && s1.asks@[j].price
                == o.price && s1.asks@[j].queue@ == asks_pre[j].queue@.push(index)
                && s1.asks@.len() == asks_pre.len(),
            !merge ==> s1.asks@.len() == asks_pre.len() + 1 && s1.asks@ == asks_pre.insert(
                j,
                s1.asks@[j],
            ) && s1.asks@[j].price == o.price && s1.asks@[j].queue@ == seq![index],
            slots1[index as int] == o,
            o.qty > 0,
            (index as int) < slots1.len(),
            idx1 == s0.arena.idx_of().insert(o.id, index),
            s0.arena.slots().len() <= slots1.len(),
            forall|h: int|
                0 <= h < s0.arena.slots().len() && h != index as int ==> slots1[h]
                    == s0.arena.slots()[h],
            forall|h: usize|
                #![trigger side_handles(s0.asks@).contains(h)]
                #![trigger side_handles_down(s0.bids@).contains(h)]
                side_handles(s0.asks@).contains(h) || side_handles_down(s0.bids@).contains(h)
                    ==> h != index && (h as int) < slots1.len() && slots1[h as int]
                    == s0.arena.slots()[h as int],
            forall|lj: int|
                0 <= lj < s0.asks@.len() ==> level_wf(slots1, idx1, #[trigger] s0.asks@[lj]),
            forall|lj: int|
                0 <= lj < s0.bids@.len() ==> level_wf(slots1, idx1, #[trigger] s0.bids@[lj]),
            level_orders(slots1, side_handles(s0.asks@)) == level_orders(
                s0.arena.slots(),
                side_handles(s0.asks@),
            ),
            level_orders(slots1, side_handles_down(s0.bids@)) == level_orders(
                s0.arena.slots(),
                side_handles_down(s0.bids@),
            ),
        ensures
            s1.inv_rep(),
            s1.ask_orders() == insert_order(s0.ask_orders(), Side::Ask, o),
            s1.bid_orders() == s0.bid_orders(),
    {
        let lvl = s1.asks@[j];
        let q_j: Seq<usize> = if merge {
            asks_pre[j].queue@
        } else {
            Seq::empty()
        };
        let hi = if merge {
            asks_pre.skip(j + 1)
        } else {
            asks_pre.skip(j)
        };
        let lo = asks_pre.take(j);
        if merge {
            lemma_side_handles_split(asks_pre, j);
            assert(asks_pre.skip(j)[0] == asks_pre[j]);
            assert(asks_pre.skip(j).drop_first() =~= hi);
            assert(side_handles(asks_pre.skip(j)) == q_j + side_handles(hi));
            assert(side_handles(asks_pre) =~= side_handles(lo) + (q_j + side_handles(hi)));
        } else {
            lemma_side_handles_split(asks_pre, j);
            assert(side_handles(asks_pre) =~= side_handles(lo) + (q_j + side_handles(hi)));
        }
        lemma_side_handles_split(s1.asks@, j);
        assert(s1.asks@.take(j) =~= lo);
        assert(s1.asks@.skip(j)[0] == lvl);
        assert(s1.asks@.skip(j).drop_first() =~= hi);
        assert(side_handles(s1.asks@.skip(j)) == lvl.queue@ + side_handles(hi));
        assert(lvl.queue@ =~= q_j.push(index));
        assert(side_handles(s1.asks@) =~= side_handles(lo) + ((q_j + seq![index]) + side_handles(
            hi,
        )));

        // Sortedness of the new side.
        assert forall|m: int, n: int| 0 <= m < n < s1.asks@.len() implies (
        #[trigger] s1.asks@[m]).price < (#[trigger] s1.asks@[n]).price by {
            if merge {
                assert(s1.asks@[m] == if m == j {
                    lvl
                } else {
                    asks_pre[m]
                });
                assert(s1.asks@[n] == if n == j {
                    lvl
                } else {
                    asks_pre[n]
                });
            } else {
                assert(s1.asks@[m] == if m < j {
                    asks_pre[m]
                } else if m == j {
                    lvl
                } else {
                    asks_pre[m - 1]
                });
                assert(s1.asks@[n] == if n < j {
                    asks_pre[n]
                } else if n == j {
                    lvl
                } else {
                    asks_pre[n - 1]
                });
            }
        }

        // Level well-formedness of the new side.
        assert(level_wf(slots1, idx1, lvl)) by {
            assert forall|k: int| 0 <= k < lvl.queue@.len() implies {
                let h = (#[trigger] lvl.queue@[k]) as int;
                &&& h < slots1.len()
                &&& slots1[h].qty > 0
                &&& slots1[h].price == lvl.price
                &&& idx1.contains_key(slots1[h].id)
                &&& idx1[slots1[h].id] == lvl.queue@[k]
            } by {
                if k < q_j.len() {
                    assert(lvl.queue@[k] == q_j[k]);
                    assert(level_wf(slots1, idx1, s0.asks@[j]));
                } else {
                    assert(lvl.queue@[k] == index);
                }
            }
        }
        assert forall|m: int| 0 <= m < s1.asks@.len() implies level_wf(
            slots1,
            idx1,
            #[trigger] s1.asks@[m],
        ) by {
            if merge {
                if m != j {
                    assert(s1.asks@[m] == asks_pre[m]);
                }
            } else {
                if m < j {
                    assert(s1.asks@[m] == asks_pre[m]);
                } else if m > j {
                    assert(s1.asks@[m] == asks_pre[m - 1]);
                }
            }
        }
        assert(side_wf(slots1, idx1, s1.asks@));
        assert(side_wf(slots1, idx1, s1.bids@));

        // The new handle sequence has no duplicates.
        let b = side_handles_down(s0.bids@);
        let p_lo = side_handles(lo);
        let p_hi = side_handles(hi);
        assert((side_handles(asks_pre) + b) =~= p_lo + ((q_j + p_hi) + b));
        lemma_no_dup_parts(side_handles(asks_pre), b);
        assert forall|n: int|
            0 <= n < side_handles(asks_pre).len() implies (#[trigger] side_handles(
            asks_pre,
        )[n]) != index by {
            assert(side_handles(asks_pre).contains(side_handles(asks_pre)[n]));
        }
        assert forall|n: int| 0 <= n < b.len() implies (#[trigger] b[n]) != index by {
            assert(b.contains(b[n]));
        }
        let nh = side_handles(s1.asks@);
        let off2 = (p_lo.len() + q_j.len()) as int;
        assert(nh =~= p_lo + ((q_j + seq![index]) + p_hi));
        let oldh = side_handles(asks_pre);
        assert forall|z: int| 0 <= z < nh.len() && z != off2 implies nh[z] == oldh[if z < off2 {
            z
        } else {
            z - 1
        }] by {}
        assert forall|m: int, n: int| 0 <= m < n < nh.len() implies (#[trigger] nh[m]) != (
        #[trigger] nh[n]) by {
            if m == off2 {
                assert(nh[n] == oldh[n - 1]);
            } else if n == off2 {
                assert(nh[m] == oldh[m]);
            } else {
                let m2 = if m < off2 {
                    m
                } else {
                    m - 1
                };
                let n2 = if n < off2 {
                    n
                } else {
                    n - 1
                };
                assert(nh[m] == oldh[m2] && nh[n] == oldh[n2]);
                if m2 == n2 {
                    assert(false);
                }
            }
        }
        assert forall|m: int, n: int| 0 <= m < nh.len() && 0 <= n < b.len() implies (
        #[trigger] nh[m]) != (#[trigger] b[n]) by {
            if m == off2 {
                assert(nh[m] == index);
            } else {
                let m2 = if m < off2 {
                    m
                } else {
                    m - 1
                };
                assert(nh[m] == oldh[m2]);
            }
        }
        assert(nh.no_duplicates());
        lemma_no_dup_join(nh, b);
        assert((side_handles(s1.asks@) + side_handles_down(s1.bids@)).no_duplicates());

        // Liveness of indexed ids.
        assert forall|id2: u128|
            idx1.contains_key(id2) && slots1[(#[trigger] idx1[id2]) as int].qty > 0 implies
            side_handles(s1.asks@).contains(idx1[id2]) || side_handles_down(s1.bids@).contains(
                idx1[id2],
            ) by {
            if id2 == o.id {
                assert(nh[off2] == index);
                assert(nh.contains(index));
            } else {
                assert(idx1[id2] == s0.arena.idx_of()[id2]);
                let h = s0.arena.idx_of()[id2];
                assert(h != index) by {
                    assert(s0.arena.slots()[h as int].id == id2);
                    if h == index {
                        assert(slots1[h as int].id == o.id);
                        assert(slots1[h as int].id == s0.arena.slots()[h as int].id);
                    }
                }
                assert(slots1[h as int] == s0.arena.slots()[h as int]) by {
                    if s0.arena.free_list().len() > 0 {
                        assert(s0.arena.slots()[s0.arena.free_list()[s0.arena.free_list().len()
                            - 1] as int].qty == 0);
                    }
                }
                assert(s0.arena.slots()[h as int].qty > 0);
                assert(side_handles(s0.asks@).contains(h) || side_handles_down(s0.bids@).contains(
                    h,
                ));
                if side_handles(s0.asks@).contains(h) {
                    let m = choose|m: int| 0 <= m < oldh.len() && oldh[m] == h;
                    if m < off2 {
                        assert(nh[m] == h);
                    } else {
                        assert(nh[m + 1] == h);
                    }
                    assert(nh.contains(h));
                }
            }
        }
        assert(s1.inv_rep());

        // The model equation.
        let p_orders = level_orders(slots1, p_lo);
        let aj_orders = level_orders(slots1, q_j);
        let q_orders = level_orders(slots1, p_hi);
        lemma_level_orders_split(slots1, p_lo, q_j + p_hi);
        lemma_level_orders_split(slots1, q_j, p_hi);
        lemma_level_orders_split(slots1, p_lo, (q_j + seq![index]) + p_hi);
        lemma_level_orders_split(slots1, q_j + seq![index], p_hi);
        lemma_level_orders_split(slots1, q_j, seq![index]);
        assert(level_orders(slots1, seq![index]) =~= seq![o]);
        assert(s0.ask_orders() == level_orders(slots1, side_handles(asks_pre)));
        assert(s0.ask_orders() =~= (p_orders + aj_orders) + q_orders);
        assert(s1.ask_orders() =~= (p_orders + aj_orders) + (seq![o] + q_orders));
        assert forall|k: int| 0 <= k < (p_orders + aj_orders).len() implies (#[trigger] (p_orders
            + aj_orders)[k]).price <= o.price by {
            if k < p_orders.len() {
                let h = p_lo[k];
                assert(p_orders[k] == slots1[h as int]);
                assert(p_lo.contains(h)) by {
                    assert(p_lo[k] == h);
                }
                lemma_side_handles_member(lo, h);
                let (li, lk) = choose|li: int, lk: int|
                    0 <= li < lo.len() && 0 <= lk < lo[li].queue@.len() && #[trigger] lo[li].queue@[lk]
                        == h;
                assert(lo[li] == asks_pre[li]);
                assert(level_wf(slots1, idx1, asks_pre[li]));
                assert(slots1[h as int].price == asks_pre[li].price);
                assert(asks_pre[li].price < o.price);
            } else {
                let h = q_j[k - p_orders.len()];
                assert(aj_orders[k - p_orders.len()] == slots1[h as int]);
                assert(level_wf(slots1, idx1, s0.asks@[j]));
                assert(slots1[h as int].price == asks_pre[j].price);
            }
        }
        assert forall|k: int| 0 <= k < q_orders.len() implies (#[trigger] q_orders[k]).price
            > o.price by {
            let h = p_hi[k];
            assert(q_orders[k] == slots1[h as int]);
            assert(p_hi.contains(h)) by {
                assert(p_hi[k] == h);
            }
            lemma_side_handles_member(hi, h);
            let (li, lk) = choose|li: int, lk: int|
                0 <= li < hi.len() && 0 <= lk < hi[li].queue@.len() && #[trigger] hi[li].queue@[lk]
                    == h;
            let gj = if merge {
                li + j + 1
            } else {
                li + j
            };
            assert(hi[li] == asks_pre[gj]);
            assert(level_wf(slots1, idx1, asks_pre[gj]));
            assert(slots1[h as int].price == asks_pre[gj].price);
            assert(asks_pre[gj].price > o.price) by {
                if merge {
                    assert(gj > j);
                    assert(asks_pre[j].price < asks_pre[gj].price);
                } else {
                    assert(j < asks_pre.len());
                    assert(gj == j || asks_pre[j].price < asks_pre[gj].price);
                    assert(asks_pre[j].price > o.price);
                }
            }
        }
        lemma_insert_order_split(p_orders + aj_orders, q_orders, Side::Ask, o);
        assert(insert_order(s0.ask_orders(), Side::Ask, o) =~= (p_orders + aj_orders) + (seq![o]
            + q_orders));
    }

    /// Execute a limit order: match against the opposite side at the limit
    /// price or better, then rest any unfilled residue on this side.
    /// Returns the fills, whether a residue rested, and the filled
    /// quantity.
    fn limit(&mut self, id: u128, side: Side, qty: u64, price: u64) -> (r: (
        Vec<FillMetadata>,
        bool,
        u64,
    ))
        requires
            old(self).wf(),
            !old(self).is_live(id),
        ensures
            final(self).wf(),
            r.0@ == match_fills(
                old(self).opposite_orders(side),
                id,
                side,
                Option::Some(price),
                qty,
            ),
            r.1 == (remaining_after(old(self).opposite_orders(side), side, Option::Some(price), qty)
                > 0),
            r.2 == qty - remaining_after(
                old(self).opposite_orders(side),
                side,
                Option::Some(price),
                qty,
            ),
            final(self).opposite_orders(side) == consume_orders(
                old(self).opposite_orders(side),
                side,
                Option::Some(price),
                qty,
            ),
            final(self).same_orders(side) == (if remaining_after(
                old(self).opposite_orders(side),
                side,
                Option::Some(price),
                qty,
            ) > 0 {
                insert_order(
                    old(self).same_orders(side),
                    side,
                    LimitOrder {
                        id,
                        qty: remaining_after(
                            old(self).opposite_orders(side),
                            side,
                            Option::Some(price),
                            qty,
                        ),
                        price,
                    },
                )
            } else {
                old(self).same_orders(side)
            }),
            final(self).spec_last_trade() == old(self).spec_last_trade(),
            final(self).spec_traded_volume() == old(self).spec_traded_volume(),
            final(self).spec_track_stats() == old(self).spec_track_stats(),
            final(self).default_queue_capacity == old(self).default_queue_capacity,
    {
        let mut partial = false;
        let remaining_qty: u64;
        let mut fills: Vec<FillMetadata> = Vec::new();

        match side {
            Side::Bid => {
                remaining_qty = self.match_with_asks(id, qty, &mut fills, Some(price));
                proof {
                    lemma_match_accounting(
                        old(self).ask_orders(),
                        id,
                        Side::Bid,
                        Option::Some(price),
                        qty,
                    );
                    (*self).lemma_model_ok();
                    Self::lemma_uncrossed_after_consume(
                        *old(self),
                        *self,
                        Side::Bid,
                        Option::Some(price),
                        qty,
                    );
                    assert(fills@ =~= match_fills(
                        old(self).ask_orders(),
                        id,
                        Side::Bid,
                        Option::Some(price),
                        qty,
                    ));
                }
                if remaining_qty > 0 {
                    partial = true;
                    proof {
                        lemma_consume_noncrossing(
                            old(self).ask_orders(),
                            Side::Bid,
                            Option::Some(price),
                            qty,
                        );
                        lemma_consume_not_contains(
                            old(self).ask_orders(),
                            Side::Bid,
                            Option::Some(price),
                            qty,
                            id,
                        );
                    }
                    self.rest_bid(id, price, remaining_qty);
                }
            },
            Side::Ask => {
                remaining_qty = self.match_with_bids(id, qty, &mut fills, Some(price));
                proof {
                    lemma_match_accounting(
                        old(self).bid_orders(),
                        id,
                        Side::Ask,
                        Option::Some(price),
                        qty,
                    );
                    (*self).lemma_model_ok();
                    Self::lemma_uncrossed_after_consume(
                        *old(self),
                        *self,
                        Side::Ask,
                        Option::Some(price),
                        qty,
                    );
                    assert(fills@ =~= match_fills(
                        old(self).bid_orders(),
                        id,
                        Side::Ask,
                        Option::Some(price),
                        qty,
                    ));
                }
                if remaining_qty > 0 {
                    partial = true;
                    proof {
                        lemma_consume_noncrossing(
                            old(self).bid_orders(),
                            Side::Ask,
                            Option::Some(price),
                            qty,
                        );
                        lemma_consume_not_contains(
                            old(self).bid_orders(),
                            Side::Ask,
                            Option::Some(price),
                            qty,
                            id,
                        );
                    }
                    self.rest_ask(id, price, remaining_qty);
                }
            },
        }

        (fills, partial, qty - remaining_qty)
    }

    /// Removing one handle from an ask queue removes exactly its order from
    /// the ascending model sequence.
    #[verifier::rlimit(100)]
    #[verifier::spinoff_prover]
    proof fn lemma_cancel_splice_up(s0: OrderBook, s1: OrderBook, j: int, k: int, idx: usize, id: u128)
        requires
            s0.inv_rep(),
            s1.arena == s0.arena,
            s1.bids@ == s0.bids@,
            0 <= j < s0.asks@.len(),
            0 <= k < s0.asks@[j].queue@.len(),
            s0.asks@[j].queue@[k] == idx,
            s0.arena.slots()[idx as int].id == id,
            s1.asks@.len() == s0.asks@.len(),
            s1.asks@ == s0.asks@.update(j, s1.asks@[j]),
            s1.asks@[j].price == s0.asks@[j].price,
            s1.asks@[j].queue@ == s0.asks@[j].queue@.take(k) + s0.asks@[j].queue@.skip(k + 1),
        ensures
            side_wf(s1.arena.slots(), s1.arena.idx_of(), s1.asks@),
            side_wf(s1.arena.slots(), s1.arena.idx_of(), s1.bids@),
            (side_handles(s1.asks@) + side_handles_down(s1.bids@)).no_duplicates(),
            forall|id2: u128|
                s1.arena.idx_of().contains_key(id2) && s1.arena.slots()[(
                #[trigger] s1.arena.idx_of()[id2]) as int].qty > 0 && id2 != id ==> side_handles(
                    s1.asks@,
                ).contains(s1.arena.idx_of()[id2]) || side_handles_down(s1.bids@).contains(
                    s1.arena.idx_of()[id2],
                ),
            s1.ask_orders() == remove_id(s0.ask_orders(), id),
            s1.bid_orders() == s0.bid_orders(),
            !contains_id(s0.bid_orders(), id),
            !side_handles(s1.asks@).contains(idx),
            !side_handles_down(s1.bids@).contains(idx),
            s1.ask_orders().len() > 0 ==> s0.ask_orders().len() > 0 && s1.ask_orders()[0].price
                >= s0.ask_orders()[0].price,
    {
        let slots = s0.arena.slots();
        let idxm = s0.arena.idx_of();
        let q_j = s0.asks@[j].queue@;
        let q_new = s1.asks@[j].queue@;
        let x = side_handles(s0.asks@.take(j));
        let z = side_handles(s0.asks@.skip(j + 1));
        let b = side_handles_down(s0.bids@);
        lemma_side_handles_split(s0.asks@, j);
        assert(s0.asks@.skip(j)[0] == s0.asks@[j]);
        assert(s0.asks@.skip(j).drop_first() =~= s0.asks@.skip(j + 1));
        assert(side_handles(s0.asks@) =~= x + (q_j + z));
        lemma_side_handles_split(s1.asks@, j);
        assert(s1.asks@.take(j) =~= s0.asks@.take(j));
        assert(s1.asks@.skip(j)[0] == s1.asks@[j]);
        assert(s1.asks@.skip(j).drop_first() =~= s0.asks@.skip(j + 1));
        assert(side_handles(s1.asks@) =~= x + (q_new + z));
        let oldh = side_handles(s0.asks@);
        let nh = side_handles(s1.asks@);
        let pos = (x.len() + k) as int;
        assert(oldh[pos] == idx);
        assert(nh.len() == oldh.len() - 1);
        assert forall|m: int| 0 <= m < nh.len() implies nh[m] == oldh[if m < pos {
            m
        } else {
            m + 1
        }] by {
            if m < x.len() {
            } else if m < x.len() + q_new.len() {
                let mk = m - x.len();
                assert(nh[m] == q_new[mk]);
                assert(q_new[mk] == if mk < k {
                    q_j[mk]
                } else {
                    q_j[mk + 1]
                });
            } else {
                assert(nh[m] == z[m - x.len() - q_new.len()]);
                assert(oldh[m + 1] == z[m + 1 - x.len() - q_j.len()]);
            }
        }
        // Well-formed levels.
        assert(level_wf(slots, idxm, s0.asks@[j]));
        assert(level_wf(slots, idxm, s1.asks@[j])) by {
            assert forall|k2: int| 0 <= k2 < q_new.len() implies {
                let h = (#[trigger] q_new[k2]) as int;
                &&& h < slots.len()
                &&& slots[h].qty > 0
                &&& slots[h].price == s1.asks@[j].price
                &&& idxm.contains_key(slots[h].id)
                &&& idxm[slots[h].id] == q_new[k2]
            } by {
                assert(q_new[k2] == if k2 < k {
                    q_j[k2]
                } else {
                    q_j[k2 + 1]
                });
            }
        }
        assert forall|m: int| 0 <= m < s1.asks@.len() implies level_wf(
            slots,
            idxm,
            #[trigger] s1.asks@[m],
        ) by {
            if m != j {
                assert(s1.asks@[m] == s0.asks@[m]);
                assert(level_wf(slots, idxm, s0.asks@[m]));
            }
        }
        assert(side_wf(slots, idxm, s1.asks@)) by {
            assert forall|m: int, n: int| 0 <= m < n < s1.asks@.len() implies (
            #[trigger] s1.asks@[m]).price < (#[trigger] s1.asks@[n]).price by {
                assert(s1.asks@[m].price == s0.asks@[m].price);
                assert(s1.asks@[n].price == s0.asks@[n].price);
            }
        }
        // No duplicates, and the removed handle is gone.
        lemma_no_dup_parts(oldh, b);
        assert forall|m: int, n: int| 0 <= m < n < nh.len() implies (#[trigger] nh[m]) != (
        #[trigger] nh[n]) by {
            let m2 = if m < pos {
                m
            } else {
                m + 1
            };
            let n2 = if n < pos {
                n
            } else {
                n + 1
            };
            assert(nh[m] == oldh[m2] && nh[n] == oldh[n2]);
        }
        assert forall|m: int, n: int| 0 <= m < nh.len() && 0 <= n < b.len() implies (
        #[trigger] nh[m]) != (#[trigger] b[n]) by {
            let m2 = if m < pos {
                m
            } else {
                m + 1
            };
            assert(nh[m] == oldh[m2]);
        }
        lemma_no_dup_join(nh, b);
        assert(!nh.contains(idx)) by {
            if nh.contains(idx) {
                let m = choose|m: int| 0 <= m < nh.len() && nh[m] == idx;
                let m2 = if m < pos {
                    m
                } else {
                    m + 1
                };
                assert(oldh[m2] == idx);
                assert(oldh[pos] == idx);
                assert(m2 != pos);
            }
        }
        assert(!b.contains(idx)) by {
            if b.contains(idx) {
                let n = choose|n: int| 0 <= n < b.len() && b[n] == idx;
                assert(oldh[pos] != b[n]);
            }
        }
        // Liveness for every other id.
        assert forall|id2: u128|
            idxm.contains_key(id2) && slots[(#[trigger] idxm[id2]) as int].qty > 0 && id2 != id
                implies side_handles(s1.asks@).contains(idxm[id2]) || side_handles_down(
                s1.bids@,
            ).contains(idxm[id2]) by {
            let h = idxm[id2];
            assert(h != idx) by {
                assert(slots[h as int].id == id2);
            }
            assert(side_handles(s0.asks@).contains(h) || side_handles_down(s0.bids@).contains(h));
            if side_handles(s0.asks@).contains(h) {
                let m2 = choose|m2: int| 0 <= m2 < oldh.len() && oldh[m2] == h;
                assert(m2 != pos);
                if m2 < pos {
                    assert(nh[m2] == h);
                } else {
                    assert(nh[m2 - 1] == h);
                }
                assert(nh.contains(h));
            }
        }
        // The model loses exactly the order at position pos.
        s0.lemma_model_ok();
        let oldm = s0.ask_orders();
        let newm = s1.ask_orders();
        assert(newm.len() == nh.len() && oldm.len() == oldh.len());
        assert forall|m: int| 0 <= m < newm.len() implies newm[m] == oldm[if m < pos {
            m
        } else {
            m + 1
        }] by {
            assert(newm[m] == slots[nh[m] as int]);
        }
        assert(newm =~= oldm.take(pos) + oldm.skip(pos + 1));
        assert(oldm[pos].id == id) by {
            assert(oldm[pos] == slots[idx as int]);
        }
        assert forall|m: int| 0 <= m < pos implies (#[trigger] oldm[m]).id != id by {
            let c = oldm + s0.bid_orders();
            assert(ids_unique(c));
            assert(c[m] == oldm[m] && c[pos] == oldm[pos]);
        }
        lemma_remove_id_at(oldm, id, pos);
        assert(!contains_id(s0.bid_orders(), id)) by {
            if contains_id(s0.bid_orders(), id) {
                let n = choose|n: int|
                    0 <= n < s0.bid_orders().len() && (#[trigger] s0.bid_orders()[n]).id == id;
                let c = oldm + s0.bid_orders();
                assert(ids_unique(c));
                assert(c[pos] == oldm[pos]);
                assert(c[oldm.len() + n] == s0.bid_orders()[n]);
            }
        }
        if newm.len() > 0 {
            assert(newm[0] == oldm[if 0 < pos {
                0int
            } else {
                1int
            }]);
            assert(side_ok(oldm, Side::Ask));
        }
    }

    /// Removing one handle from a bid queue removes exactly its order from
    /// the descending model sequence.
    #[verifier::rlimit(100)]
    #[verifier::spinoff_prover]
    proof fn lemma_cancel_splice_down(s0: OrderBook, s1: OrderBook, j: int, k: int, idx: usize, id: u128)
        requires
            s0.inv_rep(),
            s1.arena == s0.arena,
            s1.asks@ == s0.asks@,
            0 <= j < s0.bids@.len(),
            0 <= k < s0.bids@[j].queue@.len(),
            s0.bids@[j].queue@[k] == idx,
            s0.arena.slots()[idx as int].id == id,
            s1.bids@.len() == s0.bids@.len(),
            s1.bids@ == s0.bids@.update(j, s1.bids@[j]),
            s1.bids@[j].price == s0.bids@[j].price,
            s1.bids@[j].queue@ == s0.bids@[j].queue@.take(k) + s0.bids@[j].queue@.skip(k + 1),
        ensures
            side_wf(s1.arena.slots(), s1.arena.idx_of(), s1.asks@),
            side_wf(s1.arena.slots(), s1.arena.idx_of(), s1.bids@),
            (side_handles(s1.asks@) + side_handles_down(s1.bids@)).no_duplicates(),
            forall|id2: u128|
                s1.arena.idx_of().contains_key(id2) && s1.arena.slots()[(
                #[trigger] s1.arena.idx_of()[id2]) as int].qty > 0 && id2 != id ==> side_handles(
                    s1.asks@,
                ).contains(s1.arena.idx_of()[id2]) || side_handles_down(s1.bids@).contains(
                    s1.arena.idx_of()[id2],
                ),
            s1.bid_orders() == remove_id(s0.bid_orders(), id),
            s1.ask_orders() == s0.ask_orders(),
            !contains_id(s0.ask_orders(), id),
            !side_handles(s1.asks@).contains(idx),
            !side_handles_down(s1.bids@).contains(idx),
            s1.bid_orders().len() > 0 ==> s0.bid_orders().len() > 0 && s1.bid_orders()[0].price
                <= s0.bid_orders()[0].price,
    {
        let slots = s0.arena.slots();
        let idxm = s0.arena.idx_of();
        let q_j = s0.bids@[j].queue@;
        let q_new = s1.bids@[j].queue@;
        let hi = side_handles_down(s0.bids@.skip(j + 1));
        let lo = side_handles_down(s0.bids@.take(j));
        let a = side_handles(s0.asks@);
        lemma_side_handles_down_split(s0.bids@, j + 1);
        assert(s0.bids@.take(j + 1).last() == s0.bids@[j]);
        assert(s0.bids@.take(j + 1).drop_last() =~= s0.bids@.take(j));
        assert(side_handles_down(s0.bids@) =~= hi + (q_j + lo));
        lemma_side_handles_down_split(s1.bids@, j + 1);
        assert(s1.bids@.skip(j + 1) =~= s0.bids@.skip(j + 1));
        assert(s1.bids@.take(j + 1).last() == s1.bids@[j]);
        assert(s1.bids@.take(j + 1).drop_last() =~= s0.bids@.take(j));
        assert(s1.bids@.take(j) =~= s0.bids@.take(j));
        assert(side_handles_down(s1.bids@) =~= hi + (q_new + lo));
        let oldh = side_handles_down(s0.bids@);
        let nh = side_handles_down(s1.bids@);
        let pos = (hi.len() + k) as int;
        assert(oldh[pos] == idx);
        assert(nh.len() == oldh.len() - 1);
        assert forall|m: int| 0 <= m < nh.len() implies nh[m] == oldh[if m < pos {
            m
        } else {
            m + 1
        }] by {
            if m < hi.len() {
            } else if m < hi.len() + q_new.len() {
                let mk = m - hi.len();
                assert(nh[m] == q_new[mk]);
                assert(q_new[mk] == if mk < k {
                    q_j[mk]
                } else {
                    q_j[mk + 1]
                });
            } else {
                assert(nh[m] == lo[m - hi.len() - q_new.len()]);
                assert(oldh[m + 1] == lo[m + 1 - hi.len() - q_j.len()]);
            }
        }
        // Well-formed levels.
        assert(level_wf(slots, idxm, s0.bids@[j]));
        assert(level_wf(slots, idxm, s1.bids@[j])) by {
            assert forall|k2: int| 0 <= k2 < q_new.len() implies {
                let h = (#[trigger] q_new[k2]) as int;
                &&& h < slots.len()
                &&& slots[h].qty > 0
                &&& slots[h].price == s1.bids@[j].price
                &&& idxm.contains_key(slots[h].id)
                &&& idxm[slots[h].id] == q_new[k2]
            } by {
                assert(q_new[k2] == if k2 < k {
                    q_j[k2]
                } else {
                    q_j[k2 + 1]
                });
            }
        }
        assert forall|m: int| 0 <= m < s1.bids@.len() implies level_wf(
            slots,
            idxm,
            #[trigger] s1.bids@[m],
        ) by {
            if m != j {
                assert(s1.bids@[m] == s0.bids@[m]);
                assert(level_wf(slots, idxm, s0.bids@[m]));
            }
        }
        assert(side_wf(slots, idxm, s1.bids@)) by {
            assert forall|m: int, n: int| 0 <= m < n < s1.bids@.len() implies (
            #[trigger] s1.bids@[m]).price < (#[trigger] s1.bids@[n]).price by {
                assert(s1.bids@[m].price == s0.bids@[m].price);
                assert(s1.bids@[n].price == s0.bids@[n].price);
            }
        }
        // No duplicates, and the removed handle is gone.
        lemma_no_dup_parts(a, oldh);
        assert forall|m: int, n: int| 0 <= m < n < nh.len() implies (#[trigger] nh[m]) != (
        #[trigger] nh[n]) by {
            let m2 = if m < pos {
                m
            } else {
                m + 1
            };
            let n2 = if n < pos {
                n
            } else {
                n + 1
            };
            assert(nh[m] == oldh[m2] && nh[n] == oldh[n2]);
        }
        assert forall|m: int, n: int| 0 <= m < a.len() && 0 <= n < nh.len() implies (
        #[trigger] a[m]) != (#[trigger] nh[n]) by {
            let n2 = if n < pos {
                n
            } else {
                n + 1
            };
            assert(nh[n] == oldh[n2]);
        }
        lemma_no_dup_parts(a, side_handles_down(s0.bids@));
        assert(a.no_duplicates());
        lemma_no_dup_join(a, nh);
        assert(!nh.contains(idx)) by {
            if nh.contains(idx) {
                let m = choose|m: int| 0 <= m < nh.len() && nh[m] == idx;
                let m2 = if m < pos {
                    m
                } else {
                    m + 1
                };
                assert(oldh[m2] == idx);
                assert(oldh[pos] == idx);
                assert(m2 != pos);
            }
        }
        assert(!a.contains(idx)) by {
            if a.contains(idx) {
                let n = choose|n: int| 0 <= n < a.len() && a[n] == idx;
                assert(a[n] != oldh[pos]);
            }
        }
        // Liveness for every other id.
        assert forall|id2: u128|
            idxm.contains_key(id2) && slots[(#[trigger] idxm[id2]) as int].qty > 0 && id2 != id
                implies side_handles(s1.asks@).contains(idxm[id2]) || side_handles_down(
                s1.bids@,
            ).contains(idxm[id2]) by {
            let h = idxm[id2];
            assert(h != idx) by {
                assert(slots[h as int].id == id2);
            }
            assert(side_handles(s0.asks@).contains(h) || side_handles_down(s0.bids@).contains(h));
            if side_handles_down(s0.bids@).contains(h) {
                let m2 = choose|m2: int| 0 <= m2 < oldh.len() && oldh[m2] == h;
                assert(m2 != pos);
                if m2 < pos {
                    assert(nh[m2] == h);
                } else {
                    assert(nh[m2 - 1] == h);
                }
                assert(nh.contains(h));
            }
        }
        // The model loses exactly the order at position pos.
        s0.lemma_model_ok();
        let oldm = s0.bid_orders();
        let newm = s1.bid_orders();
        assert(newm.len() == nh.len() && oldm.len() == oldh.len());
        assert forall|m: int| 0 <= m < newm.len() implies newm[m] == oldm[if m < pos {
            m
        } else {
            m + 1
        }] by {
            assert(newm[m] == slots[nh[m] as int]);
        }
        assert(newm =~= oldm.take(pos) + oldm.skip(pos + 1));
        assert(oldm[pos].id == id) by {
            assert(oldm[pos] == slots[idx as int]);
        }
        assert forall|m: int| 0 <= m < pos implies (#[trigger] oldm[m]).id != id by {
            let c = s0.ask_orders() + oldm;
            assert(ids_unique(c));
            assert(c[s0.ask_orders().len() + m] == oldm[m]);
            assert(c[s0.ask_orders().len() + pos] == oldm[pos]);
        }
        lemma_remove_id_at(oldm, id, pos);
        assert(!contains_id(s0.ask_orders(), id)) by {
            if contains_id(s0.ask_orders(), id) {
                let n = choose|n: int|
                    0 <= n < s0.ask_orders().len() && (#[trigger] s0.ask_orders()[n]).id == id;
                let c = s0.ask_orders() + oldm;
                assert(ids_unique(c));
                assert(c[n] == s0.ask_orders()[n]);
                assert(c[s0.ask_orders().len() + pos] == oldm[pos]);
            }
        }
        if newm.len() > 0 {
            assert(newm[0] == oldm[if 0 < pos {
                0int
            } else {
                1int
            }]);
            assert(side_ok(oldm, Side::Bid));
        }
    }

    /// An id whose slot is dead appears in no queue and in neither model
    /// sequence.
    proof fn lemma_dead_id_not_in_model(self, id: u128)
        requires
            self.inv_rep(),
            self.arena.idx_of().contains_key(id),
            self.arena.slots()[self.arena.idx_of()[id] as int].qty == 0,
        ensures
            !contains_id(self.ask_orders(), id),
            !contains_id(self.bid_orders(), id),
            !side_handles(self.asks@).contains(self.arena.idx_of()[id]),
            !side_handles_down(self.bids@).contains(self.arena.idx_of()[id]),
    {
        let idx = self.arena.idx_of()[id];
        let slots = self.arena.slots();
        if side_handles(self.asks@).contains(idx) {
            lemma_side_handles_ok(slots, self.arena.idx_of(), self.asks@, idx);
        }
        if side_handles_down(self.bids@).contains(idx) {
            lemma_side_handles_ok(slots, self.arena.idx_of(), self.bids@, idx);
        }
        if contains_id(self.ask_orders(), id) {
            let m = choose|m: int|
                0 <= m < self.ask_orders().len() && (#[trigger] self.ask_orders()[m]).id == id;
            let h = side_handles(self.asks@)[m];
            assert(self.ask_orders()[m] == slots[h as int]);
            assert(side_handles(self.asks@).contains(h));
            lemma_side_handles_ok(slots, self.arena.idx_of(), self.asks@, h);
            assert(h == idx);
        }
        if contains_id(self.bid_orders(), id) {
            let m = choose|m: int|
                0 <= m < self.bid_orders().len() && (#[trigger] self.bid_orders()[m]).id == id;
            let h = side_handles_down(self.bids@)[m];
            assert(self.bid_orders()[m] == slots[h as int]);
            assert(side_handles_down(self.bids@).contains(h));
            lemma_side_handles_ok(slots, self.arena.idx_of(), self.bids@, h);
            assert(h == idx);
        }
    }

    /// An id with no arena mapping appears in neither model sequence.
    proof fn lemma_unmapped_id_not_in_model(self, id: u128)
        requires
            self.inv_rep(),
            !self.arena.idx_of().contains_key(id),
        ensures
            !contains_id(self.ask_orders(), id),
            !contains_id(self.bid_orders(), id),
    {
        let slots = self.arena.slots();
        if contains_id(self.ask_orders(), id) {
            let m = choose|m: int|
                0 <= m < self.ask_orders().len() && (#[trigger] self.ask_orders()[m]).id == id;
            let h = side_handles(self.asks@)[m];
            assert(self.ask_orders()[m] == slots[h as int]);
            assert(side_handles(self.asks@).contains(h));
            lemma_side_handles_ok(slots, self.arena.idx_of(), self.asks@, h);
        }
        if contains_id(self.bid_orders(), id) {
            let m = choose|m: int|
                0 <= m < self.bid_orders().len() && (#[trigger] self.bid_orders()[m]).id == id;
            let h = side_handles_down(self.bids@)[m];
            assert(self.bid_orders()[m] == slots[h as int]);
            assert(side_handles_down(self.bids@).contains(h));
            lemma_side_handles_ok(slots, self.arena.idx_of(), self.bids@, h);
        }
    }

    /// Deleting an arena entry whose handle no queue references restores
    /// the full representation invariant and leaves both models unchanged.
    #[verifier::rlimit(100)]
    #[verifier::spinoff_prover]
    proof fn lemma_cancel_delete(s1: OrderBook, s2: OrderBook, idx: usize, id: u128)
        requires
            s1.arena.wf(),
            s2.arena.wf(),
            s1.arena.idx_of().contains_key(id),
            s1.arena.idx_of()[id] == idx,
            s2.arena.idx_of() == s1.arena.idx_of().remove(id),
            s2.arena.slots() == s1.arena.slots().update(
                idx as int,
                LimitOrder {
                    id: s1.arena.slots()[idx as int].id,
                    qty: 0,
                    price: s1.arena.slots()[idx as int].price,
                },
            ),
            s2.asks@ == s1.asks@,
            s2.bids@ == s1.bids@,
            side_wf(s1.arena.slots(), s1.arena.idx_of(), s1.asks@),
            side_wf(s1.arena.slots(), s1.arena.idx_of(), s1.bids@),
            (side_handles(s1.asks@) + side_handles_down(s1.bids@)).no_duplicates(),
            forall|id2: u128|
                s1.arena.idx_of().contains_key(id2) && s1.arena.slots()[(
                #[trigger] s1.arena.idx_of()[id2]) as int].qty > 0 && id2 != id ==> side_handles(
                    s1.asks@,
                ).contains(s1.arena.idx_of()[id2]) || side_handles_down(s1.bids@).contains(
                    s1.arena.idx_of()[id2],
                ),
            !side_handles(s1.asks@).contains(idx),
            !side_handles_down(s1.bids@).contains(idx),
        ensures
            s2.inv_rep(),
            s2.ask_orders() == s1.ask_orders(),
            s2.bid_orders() == s1.bid_orders(),
    {
        let slots1 = s1.arena.slots();
        let slots2 = s2.arena.slots();
        let idx1 = s1.arena.idx_of();
        let idx2 = s2.arena.idx_of();
        assert forall|m: int|
            0 <= m < side_handles(s1.asks@).len() implies slots2[(#[trigger] side_handles(
            s1.asks@,
        )[m]) as int] == slots1[side_handles(s1.asks@)[m] as int] by {
            assert(side_handles(s1.asks@).contains(side_handles(s1.asks@)[m]));
            lemma_side_handles_ok(slots1, idx1, s1.asks@, side_handles(s1.asks@)[m]);
        }
        assert forall|m: int|
            0 <= m < side_handles_down(s1.bids@).len() implies slots2[(
            #[trigger] side_handles_down(s1.bids@)[m]) as int] == slots1[side_handles_down(
            s1.bids@,
        )[m] as int] by {
            assert(side_handles_down(s1.bids@).contains(side_handles_down(s1.bids@)[m]));
            lemma_side_handles_ok(slots1, idx1, s1.bids@, side_handles_down(s1.bids@)[m]);
        }
        lemma_level_orders_frame(slots1, slots2, side_handles(s1.asks@));
        lemma_level_orders_frame(slots1, slots2, side_handles_down(s1.bids@));
        assert forall|j: int| 0 <= j < s2.asks@.len() implies level_wf(
            slots2,
            idx2,
            #[trigger] s2.asks@[j],
        ) by {
            assert(level_wf(slots1, idx1, s1.asks@[j]));
            assert forall|k: int| 0 <= k < s2.asks@[j].queue@.len() implies {
                let h = (#[trigger] s2.asks@[j].queue@[k]) as int;
                &&& h < slots2.len()
                &&& slots2[h].qty > 0
                &&& slots2[h].price == s2.asks@[j].price
                &&& idx2.contains_key(slots2[h].id)
                &&& idx2[slots2[h].id] == s2.asks@[j].queue@[k]
            } by {
                let h = s2.asks@[j].queue@[k];
                lemma_side_handles_member(s1.asks@, h);
                assert(side_handles(s1.asks@).contains(h));
                assert(h != idx);
                assert(slots2[h as int] == slots1[h as int]);
                assert(slots1[h as int].id != id) by {
                    if slots1[h as int].id == id {
                        assert(idx1[slots1[h as int].id] == h);
                    }
                }
            }
        }
        assert forall|j: int| 0 <= j < s2.bids@.len() implies level_wf(
            slots2,
            idx2,
            #[trigger] s2.bids@[j],
        ) by {
            assert(level_wf(slots1, idx1, s1.bids@[j]));
            assert forall|k: int| 0 <= k < s2.bids@[j].queue@.len() implies {
                let h = (#[trigger] s2.bids@[j].queue@[k]) as int;
                &&& h < slots2.len()
                &&& slots2[h].qty > 0
                &&& slots2[h].price == s2.bids@[j].price
                &&& idx2.contains_key(slots2[h].id)
                &&& idx2[slots2[h].id] == s2.bids@[j].queue@[k]
            } by {
                let h = s2.bids@[j].queue@[k];
                lemma_side_handles_down_member(s1.bids@, h);
                lemma_side_handles_member(s1.bids@, h);
                assert(side_handles_down(s1.bids@).contains(h));
                assert(h != idx);
                assert(slots2[h as int] == slots1[h as int]);
                assert(slots1[h as int].id != id) by {
                    if slots1[h as int].id == id {
                        assert(idx1[slots1[h as int].id] == h);
                    }
                }
            }
        }
        assert(side_wf(slots2, idx2, s2.asks@));
        assert(side_wf(slots2, idx2, s2.bids@));
        assert forall|id2: u128|
            idx2.contains_key(id2) && slots2[(#[trigger] idx2[id2]) as int].qty > 0 implies
            side_handles(s2.asks@).contains(idx2[id2]) || side_handles_down(s2.bids@).contains(
                idx2[id2],
            ) by {
            assert(id2 != id);
            assert(idx2[id2] == idx1[id2]);
            let h = idx1[id2];
            assert(h != idx) by {
                assert(slots1[h as int].id == id2);
            }
            assert(slots2[h as int] == slots1[h as int]);
        }
        assert(s2.inv_rep());
        assert(s2.ask_orders() == s1.ask_orders());
        assert(s2.bid_orders() == s1.bid_orders());
    }

    /// Cancel the order with the given id, if it is known: its handle is
    /// removed from whichever queue holds it, the affected top-of-book price
    /// is recomputed, and its arena entry is deleted. Returns whether the
    /// arena knew the id.
    #[verifier::loop_isolation(false)]
    #[verifier::rlimit(100)]
    #[verifier::spinoff_prover]
    fn cancel(&mut self, id: u128) -> (r: bool)
        requires
            old(self).wf(),
        ensures
            final(self).wf(),
            final(self).ask_orders() == remove_id(old(self).ask_orders(), id),
            final(self).bid_orders() == remove_id(old(self).bid_orders(), id),
            final(self).spec_last_trade() == old(self).spec_last_trade(),
            final(self).spec_traded_volume() == old(self).spec_traded_volume(),
            final(self).spec_track_stats() == old(self).spec_track_stats(),
            final(self).default_queue_capacity == old(self).default_queue_capacity,
            r == old(self).arena.idx_of().contains_key(id),
    {
        let ghost s0 = *old(self);
        let mut found_asks = false;
        let mut found_bids = false;
        match self.arena.get(id) {
            Some((price, idx)) => {
                let live = self.arena.order(idx).qty > 0;
                proof {
                    if !live {
                        s0.lemma_dead_id_not_in_model(id);
                    } else {
                        assert(side_handles(s0.asks@).contains(idx) || side_handles_down(
                            s0.bids@,
                        ).contains(idx));
                    }
                }
                // Probe the ask side.
                let mut j: usize = 0;
                while j < self.asks.len() && self.asks[j].price < price
                    invariant
                        j <= self.asks@.len(),
                        forall|k: int| 0 <= k < j ==> (#[trigger] self.asks@[k]).price < price,
                    decreases self.asks@.len() - j,
                {
                    j += 1;
                }
                if j < self.asks.len() && self.asks[j].price == price {
                    found_asks = true;
                    let mut level = self.asks.remove(j);
                    let ghost q_j = level.queue@;
                    let mut k: usize = 0;
                    while k < level.queue.len() && level.queue[k] != idx
                        invariant
                            k <= q_j.len(),
                            level.queue@ == q_j,
                            forall|k2: int| 0 <= k2 < k ==> (#[trigger] q_j[k2]) != idx,
                        decreases q_j.len() - k,
                    {
                        k += 1;
                    }
                    if k < level.queue.len() {
                        level.queue.remove(k);
                        self.asks.insert(j, level);
                        proof {
                            assert(self.asks@ =~= s0.asks@.update(j as int, self.asks@[j as int]));
                            assert(self.asks@[j as int].queue@ =~= q_j.take(k as int) + q_j.skip(
                                k as int + 1,
                            ));
                            assert(s0.arena.slots()[idx as int].id == id);
                            assert(side_handles(s0.asks@).contains(idx)) by {
                                assert(s0.asks@[j as int].queue@[k as int] == idx);
                                lemma_side_handles_member(s0.asks@, idx);
                            }
                            Self::lemma_cancel_splice_up(s0, *self, j as int, k as int, idx, id);
                        }
                    } else {
                        self.asks.insert(j, level);
                        proof {
                            assert(self.asks@ =~= s0.asks@);
                            assert(!q_j.contains(idx)) by {
                                if q_j.contains(idx) {
                                    let k2 = choose|k2: int| 0 <= k2 < q_j.len() && q_j[k2] == idx;
                                    assert(q_j[k2] != idx);
                                }
                            }
                            // The only level at this price does not hold the
                            // handle, so the ask side does not hold it.
                            assert(!side_handles(s0.asks@).contains(idx)) by {
                                if side_handles(s0.asks@).contains(idx) {
                                    lemma_side_handles_member(s0.asks@, idx);
                                    let (li, lk) = choose|li: int, lk: int|
                                        0 <= li < s0.asks@.len() && 0 <= lk
                                            < s0.asks@[li].queue@.len()
                                            && #[trigger] s0.asks@[li].queue@[lk] == idx;
                                    assert(level_wf(
                                        s0.arena.slots(),
                                        s0.arena.idx_of(),
                                        s0.asks@[li],
                                    ));
                                    assert(s0.asks@[li].price == price);
                                    if li < j as int {
                                        assert(s0.asks@[li].price < s0.asks@[j as int].price);
                                    } else if li > j as int {
                                        assert(s0.asks@[j as int].price < s0.asks@[li].price);
                                    }
                                    assert(li == j as int);
                                    assert(q_j[lk] == idx);
                                }
                            }
                        }
                    }
                } else {
                    proof {
                        // No ask level carries the handle's price, so the
                        // handle is not on the ask side.
                        if side_handles(s0.asks@).contains(idx) {
                            lemma_side_handles_member(s0.asks@, idx);
                            let (li, lk) = choose|li: int, lk: int|
                                0 <= li < s0.asks@.len() && 0 <= lk < s0.asks@[li].queue@.len()
                                    && #[trigger] s0.asks@[li].queue@[lk] == idx;
                            assert(level_wf(s0.arena.slots(), s0.arena.idx_of(), s0.asks@[li]));
                            assert(s0.asks@[li].price == price);
                            assert(li < j as int || li >= j as int);
                            if li < j as int {
                                assert(s0.asks@[li].price < price);
                            } else if (j as int) < s0.asks@.len() {
                                assert(li > j as int ==> s0.asks@[j as int].price
                                    < s0.asks@[li].price);
                            }
                            assert(false);
                        }
                    }
                }
                // Probe the bid side.
                let ghost s_mid = *self;
                let mut j2: usize = 0;
                while j2 < self.bids.len() && self.bids[j2].price < price
                    invariant
                        j2 <= self.bids@.len(),
                        forall|k: int| 0 <= k < j2 ==> (#[trigger] self.bids@[k]).price < price,
                        *self == s_mid,
                    decreases self.bids@.len() - j2,
                {
                    j2 += 1;
                }
                if j2 < self.bids.len() && self.bids[j2].price == price {
                    found_bids = true;
                    let mut level = self.bids.remove(j2);
                    let ghost q_j = level.queue@;
                    let mut k: usize = 0;
                    while k < level.queue.len() && level.queue[k] != idx
                        invariant
                            k <= q_j.len(),
                            level.queue@ == q_j,
                            forall|k2: int| 0 <= k2 < k ==> (#[trigger] q_j[k2]) != idx,
                        decreases q_j.len() - k,
                    {
                        k += 1;
                    }
                    if k < level.queue.len() {
                        level.queue.remove(k);
                        self.bids.insert(j2, level);
                        proof {
                            assert(s_mid.bids@ == s0.bids@);
                            assert(self.bids@ =~= s0.bids@.update(
                                j2 as int,
                                self.bids@[j2 as int],
                            ));
                            assert(self.bids@[j2 as int].queue@ =~= q_j.take(k as int) + q_j.skip(
                                k as int + 1,
                            ));
                            assert(s0.arena.slots()[idx as int].id == id);
                            // The handle cannot be on both sides, so the ask
                            // side was left unchanged.
                            assert(side_handles_down(s0.bids@).contains(idx)) by {
                                assert(q_j[k as int] == idx);
                                lemma_side_handles_down_member(s0.bids@, idx);
                                lemma_side_handles_member(s0.bids@, idx);
                                assert(s0.bids@[j2 as int].queue@[k as int] == idx);
                            }
                            assert(s_mid.asks@ == s0.asks@) by {
                                if side_handles(s0.asks@).contains(idx) {
                                    let m = choose|m: int|
                                        0 <= m < side_handles(s0.asks@).len() && side_handles(
                                            s0.asks@,
                                        )[m] == idx;
                                    let n = choose|n: int|
                                        0 <= n < side_handles_down(s0.bids@).len()
                                            && side_handles_down(s0.bids@)[n] == idx;
                                    lemma_no_dup_parts(
                                        side_handles(s0.asks@),
                                        side_handles_down(s0.bids@),
                                    );
                                    assert(false);
                                }
                            }
                            Self::lemma_cancel_splice_down(s0, *self, j2 as int, k as int, idx, id);
                        }
                    } else {
                        self.bids.insert(j2, level);
                        proof {
                            assert(self.bids@ =~= s_mid.bids@);
                            assert(!q_j.contains(idx)) by {
                                if q_j.contains(idx) {
                                    let k2 = choose|k2: int| 0 <= k2 < q_j.len() && q_j[k2] == idx;
                                    assert(q_j[k2] != idx);
                                }
                            }
                            assert(!side_handles_down(s0.bids@).contains(idx)) by {
                                if side_handles_down(s0.bids@).contains(idx) {
                                    lemma_side_handles_down_member(s0.bids@, idx);
                                    lemma_side_handles_member(s0.bids@, idx);
                                    let (li, lk) = choose|li: int, lk: int|
                                        0 <= li < s0.bids@.len() && 0 <= lk
                                            < s0.bids@[li].queue@.len()
                                            && #[trigger] s0.bids@[li].queue@[lk] == idx;
                                    assert(level_wf(
                                        s0.arena.slots(),
                                        s0.arena.idx_of(),
                                        s0.bids@[li],
                                    ));
                                    assert(s0.bids@[li].price == price);
                                    if li < j2 as int {
                                        assert(s0.bids@[li].price < s0.bids@[j2 as int].price);
                                    } else if li > j2 as int {
                                        assert(s0.bids@[j2 as int].price < s0.bids@[li].price);
                                    }
                                    assert(li == j2 as int);
                                    assert(q_j[lk] == idx);
                                }
                            }
                        }
                    }
                } else {
                    proof {
                        if side_handles_down(s_mid.bids@).contains(idx) {
                            assert(s_mid.bids@ == s0.bids@);
                            lemma_side_handles_down_member(s0.bids@, idx);
                            lemma_side_handles_member(s0.bids@, idx);
                            let (li, lk) = choose|li: int, lk: int|
                                0 <= li < s0.bids@.len() && 0 <= lk < s0.bids@[li].queue@.len()
                                    && #[trigger] s0.bids@[li].queue@[lk] == idx;
                            assert(level_wf(s0.arena.slots(), s0.arena.idx_of(), s0.bids@[li]));
                            assert(s0.bids@[li].price == price);
                            if li < j2 as int {
                                assert(s0.bids@[li].price < price);
                            } else if (j2 as int) < s0.bids@.len() {
                                assert(li > j2 as int ==> s0.bids@[j2 as int].price
                                    < s0.bids@[li].price);
                            }
                            assert(false);
                        }
                    }
                }
                let ghost s1 = *self;
                proof {
                    // Collect what holds before the arena deletion.
                    if live {
                        assert(side_handles(s0.asks@).contains(idx) || side_handles_down(
                            s0.bids@,
                        ).contains(idx));
                    } else {
                        assert(self.asks@ == s0.asks@ && self.bids@ == s0.bids@);
                    }
                    if !live {
                        s0.lemma_dead_id_not_in_model(id);
                    }
                    assert(!side_handles(s1.asks@).contains(idx));
                    assert(!side_handles_down(s1.bids@).contains(idx));
                }
                let r = self.arena.delete(&id);
                proof {
                    Self::lemma_cancel_delete(s1, *self, idx, id);
                    if live {
                        if side_handles(s0.asks@).contains(idx) {
                            lemma_remove_id_absent(s0.bid_orders(), id);
                        } else {
                            lemma_remove_id_absent(s0.ask_orders(), id);
                        }
                    } else {
                        lemma_remove_id_absent(s0.ask_orders(), id);
                        lemma_remove_id_absent(s0.bid_orders(), id);
                    }
                }
                self.update_min_ask();
                self.update_max_bid();
                proof {
                    (*self).lemma_model_ok();
                    // Removal never improves a side's best price, so the
                    // book stays uncrossed.
                    let na = self.ask_orders();
                    let nb = self.bid_orders();
                    if na.len() > 0 && nb.len() > 0 {
                        assert(nb[0].price < na[0].price) by {
                            assert(s0.spec_max_bid() == best_price(s0.bid_orders()));
                            assert(s0.spec_min_ask() == best_price(s0.ask_orders()));
                        }
                    }
                }
                r
            },
            None => {
                proof {
                    s0.lemma_unmapped_id_not_in_model(id);
                    lemma_remove_id_absent(s0.ask_orders(), id);
                    lemma_remove_id_absent(s0.bid_orders(), id);
                }
                let r = self.arena.delete(&id);
                proof {
                    assert(self.asks@ == s0.asks@ && self.bids@ == s0.bids@);
                    assert(self.ask_orders() =~= s0.ask_orders());
                    assert(self.bid_orders() =~= s0.bid_orders());
                    assert(self.wf()) by {
                        assert(self.inv_rep()) by {
                            assert(side_wf(self.arena.slots(), self.arena.idx_of(), self.asks@));
                            assert(side_wf(self.arena.slots(), self.arena.idx_of(), self.bids@));
                            assert(self.all_handles() =~= s0.all_handles());
                        }
                    }
                }
                r
            },
        }
    }

    /// What a command asks of the caller: a limit order's id must not
    /// already rest on the book, as the client contract requires ids to be
    /// unique among live resting orders.
    pub open spec fn cmd_allowed(self, cmd: OrderType) -> bool {
        match cmd {
            OrderType::Limit { id, .. } => !self.is_live(id),
            _ => true,
        }
    }

    /// Translate a command into matching-engine calls and package the
    /// outcome as an event, without touching the statistics.
    fn execute_inner(&mut self, event: OrderType) -> (ev: OrderEvent)
        requires
            old(self).wf(),
            old(self).cmd_allowed(event),
        ensures
            final(self).wf(),
            command_ok(*old(self), *final(self), event, ev),
            final(self).spec_last_trade() == old(self).spec_last_trade(),
            final(self).spec_traded_volume() == old(self).spec_traded_volume(),
            final(self).spec_track_stats() == old(self).spec_track_stats(),
            final(self).default_queue_capacity == old(self).default_queue_capacity,
    {
        match event {
            OrderType::Market { id, side, qty } => {
                let (fills, partial, filled_qty) = self.market(id, side, qty);
                proof {
                    lemma_match_accounting(
                        old(self).opposite_orders(side),
                        id,
                        side,
                        Option::<u64>::None,
                        qty,
                    );
                }
                if fills.is_empty() {
                    OrderEvent::Unfilled { id }
                } else if partial {
                    OrderEvent::PartiallyFilled { id, filled_qty, fills }
                } else {
                    OrderEvent::Filled { id, filled_qty, fills }
                }
            },
            OrderType::Limit { id, side, qty, price } => {
                let (fills, partial, filled_qty) = self.limit(id, side, qty, price);
                proof {
                    lemma_match_accounting(
                        old(self).opposite_orders(side),
                        id,
                        side,
                        Option::Some(price),
                        qty,
                    );
                }
                if fills.is_empty() {
                    OrderEvent::Placed { id }
                } else if partial {
                    OrderEvent::PartiallyFilled { id, filled_qty, fills }
                } else {
                    OrderEvent::Filled { id, filled_qty, fills }
                }
            },
            OrderType::Cancel { id } => {
                self.cancel(id);
                OrderEvent::Canceled { id }
            },
        }
    }

    /// Fold one command's fills into the running statistics: add the filled
    /// quantity to the traded volume (saturating), and record the trade's
    /// total quantity, quote volume and final fill.
    #[verifier::loop_isolation(false)]
    fn apply_stats(&mut self, filled_qty: u64, fills: &Vec<FillMetadata>)
        requires
            fills@.len() > 0,
            filled_qty == fills_qty_sum(fills@),
        ensures
            final(self).asks == old(self).asks,
            final(self).bids == old(self).bids,
            final(self).arena == old(self).arena,
            final(self).min_ask == old(self).min_ask,
            final(self).max_bid == old(self).max_bid,
            final(self).track_stats == old(self).track_stats,
            final(self).default_queue_capacity == old(self).default_queue_capacity,
            final(self).traded_volume == (if old(self).traded_volume + fills_qty_sum(fills@)
                <= u64::MAX {
                (old(self).traded_volume + fills_qty_sum(fills@)) as u64
            } else {
                u64::MAX
            }),
            final(self).last_trade == Option::Some(
                Trade {
                    total_qty: fills_qty_sum(fills@) as u64,
                    quote_volume: fills_quote_sum(fills@) as u128,
                    last_price: fills@.last().price,
                    last_qty: fills@.last().qty,
                },
            ),
    {
        let ghost fs = fills@;
        if self.traded_volume <= u64::MAX - filled_qty {
            self.traded_volume = self.traded_volume + filled_qty;
        } else {
            self.traded_volume = u64::MAX;
        }
        let mut quote_volume: u128 = 0;
        let mut jq: usize = 0;
        while jq < fills.len()
            invariant
                jq <= fs.len(),
                quote_volume == fills_quote_sum(fs.take(jq as int)),
            decreases fs.len() - jq,
        {
            let f = fills[jq];
            proof {
                assert(fs.take(jq as int + 1).drop_last() =~= fs.take(jq as int));
                assert(fs.take(jq as int + 1).last() == f);
                crate::models::lemma_fills_quote_bound(fs.take(jq as int + 1));
                crate::models::lemma_fills_sums_nonneg(fs.take(jq as int + 1));
                crate::models::lemma_fills_qty_sum_prefix(fs, jq as int + 1);
                assert((f.price as u128) * (f.qty as u128) == f.price * f.qty)
                    by (nonlinear_arith);
                assert(fills_qty_sum(fs) <= u64::MAX);
                assert((u64::MAX as int) * fills_qty_sum(fs.take(jq as int + 1)) <= (u64::MAX
                    as int) * (u64::MAX as int)) by (nonlinear_arith)
                    requires
                        fills_qty_sum(fs.take(jq as int + 1)) <= u64::MAX as int,
                        fills_qty_sum(fs.take(jq as int + 1)) >= 0,
                ;
            }
            quote_volume = quote_volume + (f.price as u128) * (f.qty as u128);
            jq += 1;
        }
        proof {
            assert(fs.take(fs.len() as int) =~= fs);
            crate::models::lemma_fills_quote_bound(fs);
            crate::models::lemma_fills_sums_nonneg(fs);
            assert((u64::MAX as int) * fills_qty_sum(fs) <= (u64::MAX as int) * (u64::MAX as int))
                by (nonlinear_arith)
                requires
                    fills_qty_sum(fs) <= u64::MAX as int,
                    fills_qty_sum(fs) >= 0,
            ;
        }
        let last_fill = fills[fills.len() - 1];
        self.last_trade = Some(
            Trade {
                total_qty: filled_qty,
                quote_volume,
                last_price: last_fill.price,
                last_qty: last_fill.qty,
            },
        );
    }

    /// Execute an order, returning immediately an event indicating the
    /// result.
    pub fn execute(&mut self, event: OrderType) -> (ev: OrderEvent)
        requires
            old(self).wf(),
            old(self).cmd_allowed(event),
        ensures
            final(self).wf(),
            command_ok(*old(self), *final(self), event, ev),
            final(self).spec_track_stats() == old(self).spec_track_stats(),
            stats_after(
                old(self).spec_traded_volume(),
                old(self).spec_last_trade(),
                old(self).spec_track_stats(),
                command_fills(*old(self), event),
                final(self).spec_traded_volume(),
                final(self).spec_last_trade(),
            ),
    {
        let ghost cmd = event;
        let ghost s0 = *old(self);
        let event = self.execute_inner(event);
        if !self.track_stats {
            return event;
        }
        let ghost fs = command_fills(s0, cmd);
        match &event {
            OrderEvent::Filled { id: _, filled_qty, fills } => {
                let fq = *filled_qty;
                proof {
                    assert(fills@ == fs);
                }
                self.apply_stats(fq, fills);
            },
            OrderEvent::PartiallyFilled { id: _, filled_qty, fills } => {
                let fq = *filled_qty;
                proof {
                    assert(fills@ == fs);
                }
                self.apply_stats(fq, fills);
            },
            _ => {
                proof {
                    assert(fs.len() == 0) by {
                        if fs.len() > 0 {
                            match cmd {
                                OrderType::Market { id, side, qty } => {
                                    if fills_qty_sum(fs) < qty {
                                        assert(event matches OrderEvent::PartiallyFilled { .. });
                                    } else {
                                        assert(event matches OrderEvent::Filled { .. });
                                    }
                                },
                                OrderType::Limit { id, side, qty, price } => {
                                    if fills_qty_sum(fs) < qty {
                                        assert(event matches OrderEvent::PartiallyFilled { .. });
                                    } else {
                                        assert(event matches OrderEvent::Filled { .. });
                                    }
                                },
                                OrderType::Cancel { id } => {},
                            }
                        }
                    }
                }
            },
        }
        event
    }

    /// Create an instance representing a single order book.
    ///
    /// The `arena_capacity` parameter represents the number of orders that
    /// will be pre-allocated.
    ///
    /// The `queue_capacity` parameter represents the capacity of each vector
    /// storing orders at the same price point.
    ///
    /// The `track_stats` parameter indicates whether to enable volume and
    /// trades tracking (see [`last_trade`] and [`traded_volume`]).
    ///
    /// [`last_trade`]: #method.last_trade
    /// [`traded_volume`]: #method.traded_volume
    pub fn new(arena_capacity: usize, queue_capacity: usize, track_stats: bool) -> (r: Self)
        ensures
            r.wf(),
            r.ask_orders() == Seq::<LimitOrder>::empty(),
            r.bid_orders() == Seq::<LimitOrder>::empty(),
            r.spec_min_ask() == Option::<u64>::None,
            r.spec_max_bid() == Option::<u64>::None,
            r.spec_traded_volume() == 0,
            r.spec_last_trade() == Option::<Trade>::None,
            r.spec_track_stats() == track_stats,
    {
        let r = Self {
            last_trade: None,
            traded_volume: 0,
            min_ask: None,
            max_bid: None,
            asks: Vec::new(),
            bids: Vec::new(),
            arena: OrderArena::new(arena_capacity),
            default_queue_capacity: queue_capacity,
            track_stats,
        };
        proof {
            assert(r.ask_orders() =~= Seq::<LimitOrder>::empty());
            assert(r.bid_orders() =~= Seq::<LimitOrder>::empty());
            assert(r.all_handles() =~= Seq::<usize>::empty());
        }
        r
    }

    /// Return the lowest ask price, if present.
    pub fn min_ask(&self) -> (r: Option<u64>)
        ensures
            r == self.spec_min_ask(),
    {
        self.min_ask
    }

    /// Return the highest bid price, if present.
    pub fn max_bid(&self) -> (r: Option<u64>)
        ensures
            r == self.spec_max_bid(),
    {
        self.max_bid
    }

    /// Return the difference of the lowest ask and highest bid, if both are
    /// present.
    pub fn spread(&self) -> (r: Option<u64>)
        requires
            self.wf(),
        ensures
            r == (match (self.spec_max_bid(), self.spec_min_ask()) {
                (Option::Some(b), Option::Some(a)) => Option::Some((a - b) as u64),
                _ => Option::<u64>::None,
            }),
    {
        match (self.max_bid, self.min_ask) {
            (Some(b), Some(a)) => Some(a - b),
            _ => None,
        }
    }

    /// Return the last trade recorded while stats tracking was active as a
    /// [`Trade`] object, if present.
    ///
    /// [`Trade`]: ../models/struct.Trade.html
    pub fn last_trade(&self) -> (r: Option<Trade>)
        ensures
            r == self.spec_last_trade(),
    {
        self.last_trade
    }

    /// Return the total traded volume for all the trades that occurred while
    /// the stats tracking was active.
    pub fn traded_volume(&self) -> (r: u64)
        ensures
            r == self.spec_traded_volume(),
    {
        self.traded_volume
    }

    /// Sum the live quantity resting in one level's queue, saturating at
    /// the largest representable amount.
    #[verifier::loop_isolation(false)]
    fn level_qty(arena: &OrderArena, queue: &Vec<usize>) -> (qty: u64)
        requires
            forall|k: int| 0 <= k < queue@.len() ==> ((#[trigger] queue@[k]) as int) < arena.slots().len(),
        ensures
            qty == sat_u64(orders_qty_sum(level_orders(arena.slots(), queue@))),
    {
        let ghost a = level_orders(arena.slots(), queue@);
        let mut qty: u64 = 0;
        let mut k: usize = 0;
        while k < queue.len()
            invariant
                k <= queue@.len(),
                qty == sat_u64(orders_qty_sum(a.take(k as int))),
            decreases queue@.len() - k,
        {
            let h = queue[k];
            let oq = arena.order(h).qty;
            proof {
                assert(a.take(k as int + 1).drop_last() =~= a.take(k as int));
                assert(a.take(k as int + 1).last() == a[k as int]);
                assert(a[k as int] == arena.slots()[h as int]);
                Self::lemma_orders_qty_sum_nonneg(a.take(k as int));
            }
            if qty <= u64::MAX - oq {
                qty = qty + oq;
            } else {
                qty = u64::MAX;
            }
            k += 1;
        }
        proof {
            assert(a.take(queue@.len() as int) =~= a);
        }
        qty
    }

    /// The total resting quantity of a sequence of orders is non-negative.
    proof fn lemma_orders_qty_sum_nonneg(orders: Seq<LimitOrder>)
        ensures
            orders_qty_sum(orders) >= 0,
        decreases orders.len(),
    {
        if orders.len() > 0 {
            Self::lemma_orders_qty_sum_nonneg(orders.drop_last());
        }
    }

    /// The per-level book depth of one side, ascending, skipping empty
    /// queues.
    #[verifier::loop_isolation(false)]
    fn side_depth_of(arena: &OrderArena, levels_vec: &Vec<PriceLevel>, capacity: usize) -> (r: Vec<
        BookLevel,
    >)
        requires
            arena.wf(),
            forall|i: int|
                0 <= i < levels_vec@.len() ==> level_wf(
                    arena.slots(),
                    arena.idx_of(),
                    #[trigger] levels_vec@[i],
                ),
        ensures
            r@ == side_depth(arena.slots(), levels_vec@),
    {
        let mut out: Vec<BookLevel> = Vec::with_capacity(capacity);
        let mut i: usize = 0;
        proof {
            assert(levels_vec@.take(0) =~= Seq::<PriceLevel>::empty());
            assert(out@ =~= side_depth(arena.slots(), levels_vec@.take(0)));
        }
        while i < levels_vec.len()
            invariant
                i <= levels_vec@.len(),
                out@ == side_depth(arena.slots(), levels_vec@.take(i as int)),
            decreases levels_vec@.len() - i,
        {
            proof {
                assert(level_wf(arena.slots(), arena.idx_of(), levels_vec@[i as int]));
            }
            let qty = Self::level_qty(arena, &levels_vec[i].queue);
            proof {
                let lvl = levels_vec@[i as int];
                let a = level_orders(arena.slots(), lvl.queue@);
                if lvl.queue@.len() > 0 {
                    // A non-empty queue of live orders sums to a positive
                    // quantity.
                    Self::lemma_orders_qty_sum_nonneg(a.drop_last());
                    assert(a.last() == arena.slots()[lvl.queue@[lvl.queue@.len() - 1] as int]);
                    assert(a.last().qty > 0);
                    assert(orders_qty_sum(a) > 0);
                } else {
                    assert(a =~= Seq::<LimitOrder>::empty());
                }
                lemma_side_depth_snoc(arena.slots(), levels_vec@.take(i as int + 1));
                assert(levels_vec@.take(i as int + 1).drop_last() =~= levels_vec@.take(i as int));
                assert(levels_vec@.take(i as int + 1).last() == lvl);
            }
            if qty > 0 {
                out.push(BookLevel { price: levels_vec[i].price, qty });
            }
            i += 1;
            proof {
                assert(out@ =~= side_depth(arena.slots(), levels_vec@.take(i as int)));
            }
        }
        proof {
            assert(levels_vec@.take(levels_vec@.len() as int) =~= levels_vec@);
        }
        out
    }

    /// The per-level book depth of one side, descending (best bid first),
    /// skipping empty queues.
    #[verifier::loop_isolation(false)]
    fn side_depth_of_desc(arena: &OrderArena, levels_vec: &Vec<PriceLevel>, capacity: usize) -> (r:
        Vec<BookLevel>)
        requires
            arena.wf(),
            forall|i: int|
                0 <= i < levels_vec@.len() ==> level_wf(
                    arena.slots(),
                    arena.idx_of(),
                    #[trigger] levels_vec@[i],
                ),
        ensures
            r@ == side_depth_down(arena.slots(), levels_vec@),
    {
        let mut out: Vec<BookLevel> = Vec::with_capacity(capacity);
        let mut i: usize = levels_vec.len();
        proof {
            assert(levels_vec@.skip(i as int) =~= Seq::<PriceLevel>::empty());
            assert(out@ =~= side_depth_down(arena.slots(), levels_vec@.skip(i as int)));
        }
        while i > 0
            invariant
                i <= levels_vec@.len(),
                out@ == side_depth_down(arena.slots(), levels_vec@.skip(i as int)),
            decreases i,
        {
            proof {
                assert(level_wf(arena.slots(), arena.idx_of(), levels_vec@[i as int - 1]));
            }
            let qty = Self::level_qty(arena, &levels_vec[i - 1].queue);
            proof {
                let lvl = levels_vec@[i as int - 1];
                let a = level_orders(arena.slots(), lvl.queue@);
                if lvl.queue@.len() > 0 {
                    // A non-empty queue of live orders sums to a positive
                    // quantity.
                    Self::lemma_orders_qty_sum_nonneg(a.drop_last());
                    assert(a.last() == arena.slots()[lvl.queue@[lvl.queue@.len() - 1] as int]);
                    assert(a.last().qty > 0);
                    assert(orders_qty_sum(a) > 0);
                } else {
                    assert(a =~= Seq::<LimitOrder>::empty());
                }
                lemma_side_depth_down_cons(arena.slots(), levels_vec@.skip(i as int - 1));
                assert(levels_vec@.skip(i as int - 1).drop_first() =~= levels_vec@.skip(i as int));
                assert(levels_vec@.skip(i as int - 1)[0] == lvl);
            }
            if qty > 0 {
                out.push(BookLevel { price: levels_vec[i - 1].price, qty });
            }
            i -= 1;
            proof {
                assert(out@ =~= side_depth_down(arena.slots(), levels_vec@.skip(i as int)));
            }
        }
        proof {
            assert(levels_vec@.skip(0) =~= levels_vec@);
        }
        out
    }

    /// Return the order book depth as a [`BookDepth`] struct, up to the
    /// specified level. Bids and offers at the same price level are merged
    /// in a single [`BookLevel`] struct. Both sides are reported best price
    /// first: asks ascending and bids descending.
    ///
    /// [`BookDepth`]: ../models/struct.BookDepth.html
    /// [`BookLevel`]: ../models/struct.BookLevel.html
    pub fn depth(&self, levels: usize) -> (r: BookDepth)
        requires
            self.wf(),
        ensures
            r.levels == levels,
            r.asks@ == depth_of(self.ask_orders()),
            r.bids@ == depth_of(self.bid_orders()),
    {
        let asks = Self::side_depth_of(&self.arena, &self.asks, levels);
        let bids = Self::side_depth_of_desc(&self.arena, &self.bids, levels);
        proof {
            lemma_side_depth_up(self.arena.slots(), self.arena.idx_of(), self.asks@);
            lemma_side_depth_down(self.arena.slots(), self.arena.idx_of(), self.bids@);
        }
        BookDepth { levels, asks, bids }
    }

    /// The ask levels as price and handle-queue pairs, ascending by price,
    /// holes included. This exposes the raw level layout for inspection.
    pub fn ask_levels(&self) -> (r: Vec<(u64, Vec<usize>)>)
        ensures
            r@.len() == self.ask_levels_view().len(),
            forall|i: int|
                0 <= i < r@.len() ==> (#[trigger] r@[i]).0 == self.ask_levels_view()[i].0
                    && r@[i].1@ == self.ask_levels_view()[i].1,
    {
        Self::levels_of(&self.asks)
    }

    /// The bid levels as price and handle-queue pairs, ascending by price,
    /// holes included. This exposes the raw level layout for inspection.
    pub fn bid_levels(&self) -> (r: Vec<(u64, Vec<usize>)>)
        ensures
            r@.len() == self.bid_levels_view().len(),
            forall|i: int|
                0 <= i < r@.len() ==> (#[trigger] r@[i]).0 == self.bid_levels_view()[i].0
                    && r@[i].1@ == self.bid_levels_view()[i].1,
    {
        Self::levels_of(&self.bids)
    }

    /// The ask levels, as the specification sees them.
    pub closed spec fn ask_levels_view(self) -> Seq<(u64, Seq<usize>)> {
        self.asks@.map(|i: int, l: PriceLevel| (l.price, l.queue@))
    }

    /// The bid levels, as the specification sees them.
    pub closed spec fn bid_levels_view(self) -> Seq<(u64, Seq<usize>)> {
        self.bids@.map(|i: int, l: PriceLevel| (l.price, l.queue@))
    }

    /// Copy a side's levels into price and handle-queue pairs.
    #[verifier::loop_isolation(false)]
    fn levels_of(levels_vec: &Vec<PriceLevel>) -> (r: Vec<(u64, Vec<usize>)>)
        ensures
            r@.len() == levels_vec@.len(),
            forall|i: int|
                0 <= i < r@.len() ==> (#[trigger] r@[i]).0 == levels_vec@[i].price && r@[i].1@
                    == levels_vec@[i].queue@,
    {
        let mut out: Vec<(u64, Vec<usize>)> = Vec::new();
        let mut i: usize = 0;
        while i < levels_vec.len()
            invariant
                i <= levels_vec@.len(),
                out@.len() == i,
                forall|k: int|
                    0 <= k < i ==> (#[trigger] out@[k]).0 == levels_vec@[k].price && out@[k].1@
                        == levels_vec@[k].queue@,
            decreases levels_vec@.len() - i,
        {
            out.push((levels_vec[i].price, levels_vec[i].queue.clone()));
            i += 1;
        }
        out
    }

    /// Whether an order with this id currently rests on the book. A limit
    /// order may only be submitted under an id for which this is false.
    pub fn is_order_live(&self, id: u128) -> (r: bool)
        requires
            self.wf(),
        ensures
            r == self.is_live(id),
    {
        match self.arena.get_full(id) {
            Some((_, qty, _)) => {
                let live = qty > 0;
                proof {
                    if live {
                        let h = self.arena.idx_of()[id];
                        assert(side_handles(self.asks@).contains(h) || side_handles_down(
                            self.bids@,
                        ).contains(h));
                        if side_handles(self.asks@).contains(h) {
                            let m = choose|m: int|
                                0 <= m < side_handles(self.asks@).len() && side_handles(
                                    self.asks@,
                                )[m] == h;
                            assert(self.ask_orders()[m] == self.arena.slots()[h as int]);
                            assert(self.ask_orders()[m].id == id);
                            assert(contains_id(self.ask_orders(), id));
                        } else {
                            let m = choose|m: int|
                                0 <= m < side_handles_down(self.bids@).len() && side_handles_down(
                                    self.bids@,
                                )[m] == h;
                            assert(self.bid_orders()[m] == self.arena.slots()[h as int]);
                            assert(self.bid_orders()[m].id == id);
                            assert(contains_id(self.bid_orders(), id));
                        }
                    } else {
                        self.lemma_dead_id_not_in_model(id);
                    }
                }
                live
            },
            None => {
                proof {
                    self.lemma_unmapped_id_not_in_model(id);
                }
                false
            },
        }
    }

    /// Toggle the stats tracking on or off, depending on the `track`
    /// parameter.
    pub fn track_stats(&mut self, track: bool)
        ensures
            final(self).spec_track_stats() == track,
            final(self).ask_orders() == old(self).ask_orders(),
            final(self).bid_orders() == old(self).bid_orders(),
            final(self).spec_min_ask() == old(self).spec_min_ask(),
            final(self).spec_max_bid() == old(self).spec_max_bid(),
            final(self).spec_traded_volume() == old(self).spec_traded_volume(),
            final(self).spec_last_trade() == old(self).spec_last_trade(),
            old(self).wf() ==> final(self).wf(),
    {
        self.track_stats = track;
    }
}

impl Default for OrderBook {
    /// Create an instance representing a single order book, with stats
    /// tracking disabled, a default arena capacity of 10,000 and a default
    /// queue capacity of 10.
    fn default() -> (r: Self)
        ensures
            r.wf(),
            r.ask_orders() == Seq::<LimitOrder>::empty(),
            r.bid_orders() == Seq::<LimitOrder>::empty(),
            r.spec_min_ask() == Option::<u64>::None,
            r.spec_max_bid() == Option::<u64>::None,
            r.spec_traded_volume() == 0,
            r.spec_last_trade() == Option::<Trade>::None,
            r.spec_track_stats() == false,
    {
        Self::new(DEFAULT_ARENA_CAPACITY, DEFAULT_QUEUE_CAPACITY, false)
    }
}

} // verus!
