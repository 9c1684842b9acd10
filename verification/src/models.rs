//! The data types exchanged with the order book: sides, commands, events,
//! fills, depth snapshots and trade summaries, together with the
//! specification-level functions that describe them.

use vstd::prelude::*;

verus! {

/// An order book side.
#[derive(Debug, Copy, Clone, PartialEq, Eq, Structural)]
pub enum Side {
    /// The bid (or buy) side.
    Bid,
    /// The ask (or sell) side.
    Ask,
}

impl Side {
    /// The side that an incoming order on this side is matched against.
    pub open spec fn spec_opposite(self) -> Side {
        match self {
            Side::Bid => Side::Ask,
            Side::Ask => Side::Bid,
        }
    }
}

impl core::ops::Not for Side {
    type Output = Side;

    fn not(self) -> (r: Side) {
        match self {
            Side::Bid => Side::Ask,
            Side::Ask => Side::Bid,
        }
    }
}

impl vstd::std_specs::ops::NotSpecImpl for Side {
    open spec fn obeys_not_spec() -> bool {
        true
    }

    open spec fn not_req(self) -> bool {
        true
    }

    open spec fn not_spec(self) -> Side {
        self.spec_opposite()
    }
}

/// An order to be executed by the order book.
#[derive(Debug, Copy, Clone)]
pub enum OrderType {
    /// A market order, which is either filled immediately (even partially), or
    /// canceled.
    Market {
        /// The unique ID of this order.
        id: u128,
        /// The order side. It will be matched against the resting orders on
        /// the other side of the order book.
        side: Side,
        /// The order quantity.
        qty: u64,
    },
    /// A limit order, which is either filled immediately, or added to the
    /// order book.
    Limit {
        /// The unique ID of this order.
        id: u128,
        /// The order side. It will be matched against the resting orders on
        /// the other side of the order book.
        side: Side,
        /// The order quantity.
        qty: u64,
        /// The limit price. The order book will only match this order with
        /// other orders at this price or better.
        price: u64,
    },
    /// A cancel order, which removes the order with the specified ID from the
    /// order book.
    Cancel {
        /// The unique ID of the order to be canceled.
        id: u128,
    },
}

/// An event resulting from the execution of an order.
#[derive(Debug, PartialEq, Clone)]
pub enum OrderEvent {
    /// Indicating that the corresponding order was not filled. It is only
    /// sent in response to market orders.
    Unfilled {
        /// The ID of the order this event is referring to.
        id: u128,
    },
    /// Indicating that the corresponding order was placed on the order book.
    /// It is only sent in response to limit orders.
    Placed {
        /// The ID of the order this event is referring to.
        id: u128,
    },
    /// Indicating that the corresponding order was removed from the order
    /// book. It is only sent in response to cancel orders.
    Canceled {
        /// The ID of the order this event is referring to.
        id: u128,
    },
    /// Indicating that the corresponding order was only partially filled. It
    /// is sent in response to market or limit orders.
    PartiallyFilled {
        /// The ID of the order this event is referring to.
        id: u128,
        /// The filled quantity.
        filled_qty: u64,
        /// A vector with information on the order fills.
        fills: Vec<FillMetadata>,
    },
    /// Indicating that the corresponding order was filled completely. It is
    /// sent in response to market or limit orders.
    Filled {
        /// The ID of the order this event is referring to.
        id: u128,
        /// The filled quantity.
        filled_qty: u64,
        /// A vector with information on the order fills.
        fills: Vec<FillMetadata>,
    },
}

/// Information on a single order fill. When an order is matched with multiple
/// resting orders, it generates multiple `FillMetadata` values.
#[derive(Debug, PartialEq, Eq, Structural, Copy, Clone)]
pub struct FillMetadata {
    /// The ID of the order that triggered the fill (taker).
    pub order_1: u128,
    /// The ID of the matching order.
    pub order_2: u128,
    /// The quantity that was traded.
    pub qty: u64,
    /// The price at which the trade happened.
    pub price: u64,
    /// The side of the taker order (order 1)
    pub taker_side: Side,
    /// Whether this order was a total (true) or partial (false) fill of the
    /// maker order.
    pub total_fill: bool,
}

/// A snapshot of the order book up to a certain depth level. Multiple orders
/// at the same price points are merged into a single [`BookLevel`] struct.
#[derive(Debug, Clone, PartialEq)]
pub struct BookDepth {
    /// The requested level. This field will always contain the level that was
    /// requested, even if some or all levels are empty.
    pub levels: usize,
    /// A vector of price points with the associated quantity on the ask side.
    pub asks: Vec<BookLevel>,
    /// A vector of price points with the associated quantity on the bid side.
    pub bids: Vec<BookLevel>,
}

/// A single level in the order book. This struct is used both for the bid and
/// ask side.
#[derive(Debug, Clone, Copy, PartialEq, Eq, Structural)]
pub struct BookLevel {
    /// The price point this level represents.
    pub price: u64,
    /// The total quantity of all orders resting at the specified price point.
    pub qty: u64,
}

/// A trade that happened as part of the matching process. The volume-weighted
/// average price of the trade is `quote_volume / total_qty`; the quotient is
/// left to the caller so that the book itself never works with fractions.
#[derive(Debug, Copy, Clone, PartialEq, Eq, Structural)]
pub struct Trade {
    /// The total quantity transacted as part of this trade.
    pub total_qty: u64,
    /// The sum over all fills of this trade of the fill price times the fill
    /// quantity. Dividing it by `total_qty` yields the volume-weighted
    /// average price of the trade.
    pub quote_volume: u128,
    /// The price of the last fill that was part of this trade.
    pub last_price: u64,
    /// The quantity of the last fill that was part of this trade.
    pub last_qty: u64,
}

/// A resting limit order, as stored by the arena. A record with `qty == 0` is
/// logically dead and its slot awaits reuse.
#[derive(Debug, PartialEq, Eq, Structural, Copy, Clone)]
pub struct LimitOrder {
    /// The unique ID of this order.
    pub id: u128,
    /// The unfilled quantity of this order.
    pub qty: u64,
    /// The limit price of this order.
    pub price: u64,
}

/// The sum of the fill quantities of a sequence of fills.
pub open spec fn fills_qty_sum(fills: Seq<FillMetadata>) -> int
    decreases fills.len(),
{
    if fills.len() == 0 {
        0
    } else {
        fills_qty_sum(fills.drop_last()) + fills.last().qty
    }
}

/// The sum over a sequence of fills of the fill price times the fill
/// quantity: the quote volume that the fills moved.
pub open spec fn fills_quote_sum(fills: Seq<FillMetadata>) -> int
    decreases fills.len(),
{
    if fills.len() == 0 {
        0
    } else {
        fills_quote_sum(fills.drop_last()) + fills.last().price * fills.last().qty
    }
}

/// Prepending a fill adds its quantity to the quantity sum.
pub proof fn lemma_fills_qty_sum_cons(f: FillMetadata, fills: Seq<FillMetadata>)
    ensures
        fills_qty_sum(seq![f] + fills) == f.qty + fills_qty_sum(fills),
    decreases fills.len(),
{
    if fills.len() == 0 {
        assert((seq![f] + fills) =~= seq![f]);
        assert(seq![f].drop_last() =~= Seq::<FillMetadata>::empty());
        assert(seq![f].last() == f);
        assert(fills_qty_sum(Seq::<FillMetadata>::empty()) == 0);
        assert(fills_qty_sum(seq![f]) == fills_qty_sum(seq![f].drop_last()) + f.qty);
    } else {
        lemma_fills_qty_sum_cons(f, fills.drop_last());
        assert((seq![f] + fills).drop_last() =~= seq![f] + fills.drop_last());
        assert((seq![f] + fills).last() == fills.last());
    }
}

/// A prefix of a fill sequence moves at most the whole sequence's
/// quantity.
pub proof fn lemma_fills_qty_sum_prefix(fills: Seq<FillMetadata>, n: int)
    requires
        0 <= n <= fills.len(),
    ensures
        fills_qty_sum(fills.take(n)) <= fills_qty_sum(fills),
    decreases fills.len() - n,
{
    if n == fills.len() {
        assert(fills.take(n) =~= fills);
    } else {
        lemma_fills_qty_sum_prefix(fills, n + 1);
        assert(fills.take(n + 1).drop_last() =~= fills.take(n));
        assert(fills.take(n + 1).last() == fills[n]);
    }
}

/// Both fill sums are non-negative.
pub proof fn lemma_fills_sums_nonneg(fills: Seq<FillMetadata>)
    ensures
        fills_qty_sum(fills) >= 0,
        fills_quote_sum(fills) >= 0,
    decreases fills.len(),
{
    if fills.len() > 0 {
        lemma_fills_sums_nonneg(fills.drop_last());
        assert(fills.last().price * fills.last().qty >= 0) by (nonlinear_arith);
    }
}

/// The quote volume of a fill sequence is at most the largest possible
/// price times the summed quantity.
pub proof fn lemma_fills_quote_bound(fills: Seq<FillMetadata>)
    ensures
        fills_quote_sum(fills) <= (u64::MAX as int) * fills_qty_sum(fills),
    decreases fills.len(),
{
    if fills.len() > 0 {
        lemma_fills_quote_bound(fills.drop_last());
        let f = fills.last();
        assert(f.price * f.qty <= (u64::MAX as int) * f.qty) by (nonlinear_arith)
            requires
                f.price <= u64::MAX as int,
                f.qty >= 0,
        ;
    } else {
        assert((u64::MAX as int) * fills_qty_sum(fills) == 0) by (nonlinear_arith)
            requires
                fills_qty_sum(fills) == 0,
        ;
    }
}

} // verus!
