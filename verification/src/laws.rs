//! The laws of the order book, stated and proved over the abstract model:
//! top-of-book coherence, event accounting, idempotence of cancellation and
//! price-time priority. Each law is a public proof function whose premises
//! are the contracts of [`crate::orderbook::OrderBook::execute`].

use vstd::prelude::*;

use crate::models::{fills_qty_sum, LimitOrder, OrderEvent, OrderType, Side};
use crate::orderbook::{
    best_price, command_fills, command_ok, contains_id, ids_unique, insert_order,
    lemma_match_accounting, lemma_match_price_monotone, remaining_after, remove_id, side_ok,
    stats_after, uncrossed, OrderBook,
};

verus! {

/// After every command the book is uncrossed: either a top-of-book price
/// is unset, or the best bid lies strictly below the best ask. This holds
/// of every well-formed book, and `execute` keeps the book well-formed.
pub proof fn law_uncrossed(book: OrderBook)
    requires
        book.wf(),
    ensures
        uncrossed(book.spec_max_bid(), book.spec_min_ask()),
        book.spec_max_bid() is Some && book.spec_min_ask() is Some
            ==> book.spec_max_bid().unwrap() < book.spec_min_ask().unwrap(),
{
}

/// The cached lowest ask is exactly the minimum price carrying a live
/// resting ask, and is unset exactly when no ask rests; symmetrically for
/// the highest bid.
pub proof fn law_top_of_book(book: OrderBook)
    requires
        book.wf(),
    ensures
        book.spec_min_ask() == best_price(book.ask_orders()),
        book.spec_min_ask() matches Some(a) ==> book.ask_orders().len() > 0
            && book.ask_orders()[0].price == a && forall|k: int|
            0 <= k < book.ask_orders().len() ==> (#[trigger] book.ask_orders()[k]).price >= a,
        book.spec_min_ask() is None ==> book.ask_orders().len() == 0,
        book.spec_max_bid() == best_price(book.bid_orders()),
        book.spec_max_bid() matches Some(b) ==> book.bid_orders().len() > 0
            && book.bid_orders()[0].price == b && forall|k: int|
            0 <= k < book.bid_orders().len() ==> (#[trigger] book.bid_orders()[k]).price <= b,
        book.spec_max_bid() is None ==> book.bid_orders().len() == 0,
{
    assert(side_ok(book.ask_orders(), Side::Ask));
    assert(side_ok(book.bid_orders(), Side::Bid));
    if book.ask_orders().len() > 0 {
        assert forall|k: int| 0 <= k < book.ask_orders().len() implies (
        #[trigger] book.ask_orders()[k]).price >= book.ask_orders()[0].price by {}
    }
    if book.bid_orders().len() > 0 {
        assert forall|k: int| 0 <= k < book.bid_orders().len() implies (
        #[trigger] book.bid_orders()[k]).price <= book.bid_orders()[0].price by {}
    }
}

/// An inserted order appears in the resulting sequence.
proof fn lemma_insert_order_contains(orders: Seq<LimitOrder>, side: Side, o: LimitOrder)
    ensures
        exists|k: int|
            0 <= k < insert_order(orders, side, o).len() && #[trigger] insert_order(
                orders,
                side,
                o,
            )[k] == o,
    decreases orders.len(),
{
    let r = insert_order(orders, side, o);
    if orders.len() == 0 {
        assert(r[0] == o);
    } else if (match side {
        Side::Ask => orders[0].price <= o.price,
        Side::Bid => orders[0].price >= o.price,
    }) {
        lemma_insert_order_contains(orders.drop_first(), side, o);
        let k = choose|k: int|
            0 <= k < insert_order(orders.drop_first(), side, o).len() && #[trigger] insert_order(
                orders.drop_first(),
                side,
                o,
            )[k] == o;
        assert(r[k + 1] == o);
    } else {
        assert(r[0] == o);
    }
}

/// A `Placed` event means the order now rests: a limit command with a
/// positive quantity that returns `Placed{id}` leaves an order with that
/// id, the full quantity and the stated price on the command's side, and
/// no other resting order carries the id.
pub proof fn law_placed_rests(
    pre: OrderBook,
    post: OrderBook,
    id: u128,
    side: Side,
    qty: u64,
    price: u64,
    ev: OrderEvent,
)
    requires
        pre.wf(),
        post.wf(),
        qty > 0,
        command_ok(pre, post, OrderType::Limit { id, side, qty, price }, ev),
        ev == (OrderEvent::Placed { id }),
    ensures
        post.is_live(id),
        exists|k: int|
            0 <= k < post.same_orders(side).len() && #[trigger] post.same_orders(side)[k]
                == (LimitOrder { id, qty, price }),
        forall|k1: int, k2: int|
            0 <= k1 < post.same_orders(side).len() && 0 <= k2 < post.same_orders(side).len()
                && (#[trigger] post.same_orders(side)[k1]).id == id && (#[trigger] post.same_orders(
                side,
            )[k2]).id == id ==> k1 == k2,
{
    let makers = pre.opposite_orders(side);
    let fills_s = crate::orderbook::match_fills(makers, id, side, Option::Some(price), qty);
    lemma_match_accounting(makers, id, side, Option::Some(price), qty);
    // Placed matches neither fill-bearing event, so there were no fills and
    // the whole quantity is left.
    assert(fills_s.len() == 0) by {
        if fills_s.len() > 0 {
            if fills_qty_sum(fills_s) < qty {
                assert(ev matches OrderEvent::PartiallyFilled { .. });
            } else {
                assert(ev matches OrderEvent::Filled { .. });
            }
        }
    }
    let rem = remaining_after(makers, side, Option::Some(price), qty);
    assert(rem == qty);
    let o = LimitOrder { id, qty, price };
    assert(post.same_orders(side) == insert_order(pre.same_orders(side), side, o));
    lemma_insert_order_contains(pre.same_orders(side), side, o);
    let k = choose|k: int|
        0 <= k < post.same_orders(side).len() && #[trigger] post.same_orders(side)[k] == o;
    match side {
        Side::Bid => {
            assert(contains_id(post.bid_orders(), id));
        },
        Side::Ask => {
            assert(contains_id(post.ask_orders(), id));
        },
    }
    // Uniqueness follows from the well-formed book's unique ids.
    let c = post.ask_orders() + post.bid_orders();
    assert(ids_unique(c));
    assert forall|k1: int, k2: int|
        0 <= k1 < post.same_orders(side).len() && 0 <= k2 < post.same_orders(side).len()
            && (#[trigger] post.same_orders(side)[k1]).id == id && (#[trigger] post.same_orders(
            side,
        )[k2]).id == id implies k1 == k2 by {
        let off: int = match side {
            Side::Bid => post.ask_orders().len() as int,
            Side::Ask => 0,
        };
        assert(c[off + k1] == post.same_orders(side)[k1]);
        assert(c[off + k2] == post.same_orders(side)[k2]);
        if k1 != k2 {
            assert(c[off + k1].id != c[off + k2].id);
        }
    }
}

/// The filled quantity that a command's fills move, as reported by its
/// event.
pub open spec fn event_filled(ev: OrderEvent) -> int {
    match ev {
        OrderEvent::Filled { filled_qty, .. } => filled_qty as int,
        OrderEvent::PartiallyFilled { filled_qty, .. } => filled_qty as int,
        _ => 0,
    }
}

/// Fill accounting: the `filled_qty` reported by a fill-bearing event is
/// exactly the sum of the quantities of the fills it carries, and those
/// fills are the command's fills.
pub proof fn law_fill_accounting(pre: OrderBook, post: OrderBook, cmd: OrderType, ev: OrderEvent)
    requires
        command_ok(pre, post, cmd, ev),
    ensures
        ev matches OrderEvent::Filled { filled_qty, fills, .. } ==> filled_qty == fills_qty_sum(
            fills@,
        ) && fills@ == command_fills(pre, cmd),
        ev matches OrderEvent::PartiallyFilled { filled_qty, fills, .. } ==> filled_qty
            == fills_qty_sum(fills@) && fills@ == command_fills(pre, cmd),
{
}

/// Event shapes: a partial fill moves a positive quantity strictly below
/// the taker's; a full fill moves exactly the taker's quantity; the no-fill
/// events stand for commands that moved nothing.
pub proof fn law_event_shapes(pre: OrderBook, post: OrderBook, cmd: OrderType, ev: OrderEvent)
    requires
        command_ok(pre, post, cmd, ev),
    ensures
        ev matches OrderEvent::PartiallyFilled { id, filled_qty, fills } ==> fills@.len() > 0
            && 0 < filled_qty && (cmd matches OrderType::Market { qty, .. } ==> filled_qty < qty)
            && (cmd matches OrderType::Limit { qty, .. } ==> filled_qty < qty),
        ev matches OrderEvent::Filled { id, filled_qty, fills } ==> fills@.len() > 0 && (
        cmd matches OrderType::Market { qty, .. } ==> filled_qty == qty) && (
        cmd matches OrderType::Limit { qty, .. } ==> filled_qty == qty),
        ev matches OrderEvent::Unfilled { .. } ==> command_fills(pre, cmd).len() == 0,
        ev matches OrderEvent::Placed { .. } ==> command_fills(pre, cmd).len() == 0,
{
    match cmd {
        OrderType::Market { id, side, qty } => {
            lemma_match_accounting(pre.opposite_orders(side), id, side, Option::<u64>::None, qty);
            let fs = command_fills(pre, cmd);
            if fs.len() > 0 {
                if fills_qty_sum(fs) < qty {
                    assert(ev matches OrderEvent::PartiallyFilled { .. });
                } else {
                    assert(ev matches OrderEvent::Filled { .. });
                }
            }
        },
        OrderType::Limit { id, side, qty, price } => {
            lemma_match_accounting(pre.opposite_orders(side), id, side, Option::Some(price), qty);
            let fs = command_fills(pre, cmd);
            if fs.len() > 0 {
                if fills_qty_sum(fs) < qty {
                    assert(ev matches OrderEvent::PartiallyFilled { .. });
                } else {
                    assert(ev matches OrderEvent::Filled { .. });
                }
            }
        },
        OrderType::Cancel { id } => {},
    }
}

/// Volume accounting, one command at a time: with statistics tracking on,
/// the traded volume grows by exactly the event's filled quantity,
/// saturating at the largest representable volume. Summed over a run of
/// commands this is the total filled quantity of all fill-bearing events.
pub proof fn law_volume_step(pre: OrderBook, post: OrderBook, cmd: OrderType, ev: OrderEvent)
    requires
        command_ok(pre, post, cmd, ev),
        stats_after(
            pre.spec_traded_volume(),
            pre.spec_last_trade(),
            pre.spec_track_stats(),
            command_fills(pre, cmd),
            post.spec_traded_volume(),
            post.spec_last_trade(),
        ),
        pre.spec_track_stats(),
    ensures
        post.spec_traded_volume() == (if pre.spec_traded_volume() + event_filled(ev) <= u64::MAX {
            pre.spec_traded_volume() + event_filled(ev)
        } else {
            u64::MAX as int
        }),
{
    let fs = command_fills(pre, cmd);
    crate::models::lemma_fills_sums_nonneg(fs);
    match cmd {
        OrderType::Market { id, side, qty } => {
            lemma_match_accounting(pre.opposite_orders(side), id, side, Option::<u64>::None, qty);
            if fs.len() > 0 {
                assert(event_filled(ev) == fills_qty_sum(fs));
            } else {
                assert(ev == (OrderEvent::Unfilled { id }));
            }
        },
        OrderType::Limit { id, side, qty, price } => {
            lemma_match_accounting(pre.opposite_orders(side), id, side, Option::Some(price), qty);
            if fs.len() > 0 {
                assert(event_filled(ev) == fills_qty_sum(fs));
            } else {
                assert(ev == (OrderEvent::Placed { id }));
            }
        },
        OrderType::Cancel { id } => {
            assert(ev == (OrderEvent::Canceled { id }));
        },
    }
}

/// The total filled quantity reported by a run of events.
pub open spec fn events_filled_sum(evs: Seq<OrderEvent>) -> int
    decreases evs.len(),
{
    if evs.len() == 0 {
        0
    } else {
        events_filled_sum(evs.drop_last()) + event_filled(evs.last())
    }
}

/// Volume accounting over a whole run: with statistics tracking on and no
/// overflow, the traded volume after a sequence of commands is the initial
/// volume plus the sum of the filled quantities of every observed event.
pub proof fn law_volume_of_run(books: Seq<OrderBook>, cmds: Seq<OrderType>, evs: Seq<OrderEvent>)
    requires
        books.len() == cmds.len() + 1,
        evs.len() == cmds.len(),
        forall|i: int|
            0 <= i < cmds.len() ==> command_ok(
                #[trigger] books[i],
                books[i + 1],
                cmds[i],
                evs[i],
            ),
        forall|i: int|
            0 <= i < cmds.len() ==> stats_after(
                (#[trigger] books[i]).spec_traded_volume(),
                books[i].spec_last_trade(),
                books[i].spec_track_stats(),
                command_fills(books[i], cmds[i]),
                books[i + 1].spec_traded_volume(),
                books[i + 1].spec_last_trade(),
            ),
        forall|i: int| 0 <= i < cmds.len() ==> (#[trigger] books[i]).spec_track_stats(),
        books[0].spec_traded_volume() + events_filled_sum(evs) <= u64::MAX,
    ensures
        books.last().spec_traded_volume() == books[0].spec_traded_volume() + events_filled_sum(
            evs,
        ),
    decreases cmds.len(),
{
    let n = cmds.len() as int;
    if n == 0 {
        assert(books.last() == books[0]);
    } else {
        let bp = books.take(n);
        let cp = cmds.take(n - 1);
        let ep = evs.take(n - 1);
        assert(evs.drop_last() =~= ep);
        assert(event_filled(evs.last()) >= 0);
        assert forall|i: int| 0 <= i < cp.len() implies command_ok(
            #[trigger] bp[i],
            bp[i + 1],
            cp[i],
            ep[i],
        ) by {
            assert(bp[i] == books[i] && bp[i + 1] == books[i + 1]);
            assert(cp[i] == cmds[i] && ep[i] == evs[i]);
        }
        assert forall|i: int| 0 <= i < cp.len() implies stats_after(
            (#[trigger] bp[i]).spec_traded_volume(),
            bp[i].spec_last_trade(),
            bp[i].spec_track_stats(),
            command_fills(bp[i], cp[i]),
            bp[i + 1].spec_traded_volume(),
            bp[i + 1].spec_last_trade(),
        ) by {
            assert(bp[i] == books[i] && bp[i + 1] == books[i + 1]);
            assert(cp[i] == cmds[i]);
        }
        assert forall|i: int| 0 <= i < cp.len() implies (#[trigger] bp[i]).spec_track_stats() by {
            assert(bp[i] == books[i]);
        }
        law_volume_of_run(bp, cp, ep);
        assert(bp.last() == books[n - 1]);
        assert(bp[0] == books[0]);
        law_volume_step(books[n - 1], books[n], cmds[n - 1], evs[n - 1]);
        assert(event_filled(evs[n - 1]) == event_filled(evs.last()));
    }
}

/// Removing an id leaves no order with that id when ids are unique.
proof fn lemma_remove_id_no_id(orders: Seq<LimitOrder>, id: u128)
    requires
        ids_unique(orders),
    ensures
        !contains_id(remove_id(orders, id), id),
    decreases orders.len(),
{
    let r = remove_id(orders, id);
    if orders.len() == 0 {
    } else if orders[0].id == id {
        if contains_id(r, id) {
            let k = choose|k: int| 0 <= k < r.len() && (#[trigger] r[k]).id == id;
            assert(orders[k + 1].id == id);
            assert(orders[0].id == orders[k + 1].id);
        }
    } else {
        let rest = orders.drop_first();
        assert forall|i: int, j: int| 0 <= i < j < rest.len() implies (#[trigger] rest[i]).id != (
        #[trigger] rest[j]).id by {
            assert(orders[i + 1].id != orders[j + 1].id);
        }
        lemma_remove_id_no_id(rest, id);
        if contains_id(r, id) {
            let k = choose|k: int| 0 <= k < r.len() && (#[trigger] r[k]).id == id;
            assert(r[0] == orders[0]);
            assert(k > 0);
            assert(remove_id(rest, id)[k - 1].id == id);
            assert(contains_id(remove_id(rest, id), id));
        }
    }
}

/// Removing an absent id changes nothing.
proof fn lemma_remove_id_absent_law(orders: Seq<LimitOrder>, id: u128)
    requires
        !contains_id(orders, id),
    ensures
        remove_id(orders, id) == orders,
    decreases orders.len(),
{
    if orders.len() == 0 {
    } else {
        assert(orders[0].id != id);
        assert(!contains_id(orders.drop_first(), id)) by {
            if contains_id(orders.drop_first(), id) {
                let k = choose|k: int|
                    0 <= k < orders.drop_first().len() && (#[trigger] orders.drop_first()[k]).id
                        == id;
                assert(orders[k + 1].id == id);
            }
        }
        lemma_remove_id_absent_law(orders.drop_first(), id);
        assert(remove_id(orders, id) =~= orders);
    }
}

/// Cancellation is idempotent: cancelling the same id twice produces two
/// `Canceled` events, and the second cancellation leaves the resting book
/// exactly as the first one left it.
pub proof fn law_cancel_idempotent(
    s0: OrderBook,
    s1: OrderBook,
    s2: OrderBook,
    id: u128,
    ev1: OrderEvent,
    ev2: OrderEvent,
)
    requires
        s0.wf(),
        s1.wf(),
        command_ok(s0, s1, OrderType::Cancel { id }, ev1),
        command_ok(s1, s2, OrderType::Cancel { id }, ev2),
    ensures
        ev1 == (OrderEvent::Canceled { id }),
        ev2 == (OrderEvent::Canceled { id }),
        s2.ask_orders() == s1.ask_orders(),
        s2.bid_orders() == s1.bid_orders(),
{
    let c = s0.ask_orders() + s0.bid_orders();
    assert(ids_unique(c));
    assert forall|i: int, j: int|
        0 <= i < j < s0.ask_orders().len() implies (#[trigger] s0.ask_orders()[i]).id != (
    #[trigger] s0.ask_orders()[j]).id by {
        assert(c[i] == s0.ask_orders()[i] && c[j] == s0.ask_orders()[j]);
    }
    assert forall|i: int, j: int|
        0 <= i < j < s0.bid_orders().len() implies (#[trigger] s0.bid_orders()[i]).id != (
    #[trigger] s0.bid_orders()[j]).id by {
        let n = s0.ask_orders().len();
        assert(c[n + i] == s0.bid_orders()[i] && c[n + j] == s0.bid_orders()[j]);
    }
    lemma_remove_id_no_id(s0.ask_orders(), id);
    lemma_remove_id_no_id(s0.bid_orders(), id);
    lemma_remove_id_absent_law(s1.ask_orders(), id);
    lemma_remove_id_absent_law(s1.bid_orders(), id);
}

/// Price-time priority: within the fills of one command, maker prices are
/// non-improving from the taker's point of view; a buyer's fills come at
/// non-decreasing prices and a seller's at non-increasing prices. Fills
/// are generated in maker-sequence order, so within one price they follow
/// insertion order.
pub proof fn law_price_time_priority(pre: OrderBook, cmd: OrderType)
    requires
        pre.wf(),
    ensures
        forall|i: int, j: int|
            0 <= i <= j < command_fills(pre, cmd).len() ==> match cmd {
                OrderType::Market { side: Side::Bid, .. } | OrderType::Limit {
                    side: Side::Bid,
                    ..
                } => (#[trigger] command_fills(pre, cmd)[i]).price <= (#[trigger] command_fills(
                    pre,
                    cmd,
                )[j]).price,
                OrderType::Market { side: Side::Ask, .. } | OrderType::Limit {
                    side: Side::Ask,
                    ..
                } => (#[trigger] command_fills(pre, cmd)[i]).price >= (#[trigger] command_fills(
                    pre,
                    cmd,
                )[j]).price,
                OrderType::Cancel { .. } => true,
            },
{
    match cmd {
        OrderType::Market { id, side, qty } => {
            match side {
                Side::Bid => {
                    lemma_match_price_monotone(
                        pre.ask_orders(),
                        id,
                        Side::Bid,
                        Option::<u64>::None,
                        qty,
                    );
                },
                Side::Ask => {
                    lemma_match_price_monotone(
                        pre.bid_orders(),
                        id,
                        Side::Ask,
                        Option::<u64>::None,
                        qty,
                    );
                },
            }
        },
        OrderType::Limit { id, side, qty, price } => {
            match side {
                Side::Bid => {
                    lemma_match_price_monotone(
                        pre.ask_orders(),
                        id,
                        Side::Bid,
                        Option::Some(price),
                        qty,
                    );
                },
                Side::Ask => {
                    lemma_match_price_monotone(
                        pre.bid_orders(),
                        id,
                        Side::Ask,
                        Option::Some(price),
                        qty,
                    );
                },
            }
        },
        OrderType::Cancel { .. } => {},
    }
}

} // verus!
