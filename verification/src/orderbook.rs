//! The price-time order book: sorted price levels with FIFO queues, an
//! incrementally maintained depth per level, and an order-id index.
use vstd::prelude::*;
use vstd::string::StringExecFns;

use crate::numfmt::dec_chars;
use crate::types::{Order, OrderModel, Side};

verus! {

/// All resting orders at one price on one side, with the cached aggregate
/// remaining quantity.
pub struct Level {
    pub price: u64,
    pub depth: u64,
    pub orders: Vec<Order>,
}

#[verifier::ext_equal]
pub ghost struct LevelModel {
    pub price: int,
    pub depth: int,
    pub orders: Seq<OrderModel>,
}

impl View for Level {
    type V = LevelModel;

    open spec fn view(&self) -> LevelModel {
        LevelModel {
            price: self.price as int,
            depth: self.depth as int,
            orders: self.orders@.map_values(|o: Order| o@),
        }
    }
}

/// One entry of the order-id index: where an order rests.
pub struct IndexEntry {
    pub order_id: String,
    pub price: u64,
    pub side: Side,
}

#[verifier::ext_equal]
pub ghost struct IndexEntryModel {
    pub order_id: Seq<char>,
    pub price: int,
    pub side: Side,
}

impl View for IndexEntry {
    type V = IndexEntryModel;

    open spec fn view(&self) -> IndexEntryModel {
        IndexEntryModel {
            order_id: self.order_id@,
            price: self.price as int,
            side: self.side,
        }
    }
}

/// Sum of the unfilled quantity over a queue of orders.
pub open spec fn sum_remaining(orders: Seq<OrderModel>) -> int
    decreases orders.len(),
{
    if orders.len() == 0 {
        0
    } else {
        orders[0].remaining() + sum_remaining(orders.drop_first())
    }
}

/// `a` is nearer the front of the book than `b` on this side.
pub open spec fn price_better(side: Side, a: int, b: int) -> bool {
    match side {
        Side::Buy => a > b,
        Side::Sell => a < b,
    }
}

/// A maker level at `price` is eligible for a taker capped at `limit`.
pub open spec fn price_ok(maker_side: Side, price: int, limit: int) -> bool {
    match maker_side {
        Side::Buy => price >= limit,
        Side::Sell => price <= limit,
    }
}

/// One well-formed level: non-empty, all orders at the level's price, on
/// the level's side, partially unfilled, and the depth cache exact.
pub open spec fn wf_level(l: LevelModel, side: Side) -> bool {
    &&& l.orders.len() > 0
    &&& l.price > 0
    &&& l.depth == sum_remaining(l.orders)
    &&& forall|i: int|
        0 <= i < l.orders.len() ==> {
            &&& (#[trigger] l.orders[i]).valid()
            &&& l.orders[i].price == l.price
            &&& l.orders[i].side == side
            &&& l.orders[i].filled < l.orders[i].quantity
        }
}

/// Levels strictly ordered best price first.
pub open spec fn sorted_levels(side: Side, levels: Seq<LevelModel>) -> bool {
    forall|i: int, j: int|
        0 <= i < j < levels.len() ==> price_better(
            side,
            (#[trigger] levels[i]).price,
            (#[trigger] levels[j]).price,
        )
}

/// One side of the book is well formed.
pub open spec fn wf_side(side: Side, levels: Seq<LevelModel>) -> bool {
    &&& sorted_levels(side, levels)
    &&& forall|i: int| 0 <= i < levels.len() ==> wf_level(#[trigger] levels[i], side)
}

/// An order with this id rests somewhere in these levels.
pub open spec fn has_id(levels: Seq<LevelModel>, id: Seq<char>) -> bool {
    exists|li: int, pi: int|
        0 <= li < levels.len() && 0 <= pi < levels[li].orders.len()
            && (#[trigger] levels[li].orders[pi]).order_id == id
}

/// An order with this id rests in the level priced `price`.
pub open spec fn resting_at(levels: Seq<LevelModel>, id: Seq<char>, price: int) -> bool {
    exists|li: int, pi: int|
        0 <= li < levels.len() && 0 <= pi < levels[li].orders.len() && levels[li].price == price
            && (#[trigger] levels[li].orders[pi]).order_id == id
}

/// No two resting orders on this side share an id.
pub open spec fn ids_distinct_side(levels: Seq<LevelModel>) -> bool {
    forall|li: int, pi: int, lj: int, pj: int|
        0 <= li < levels.len() && 0 <= pi < levels[li].orders.len() && 0 <= lj < levels.len() && 0
            <= pj < levels[lj].orders.len() && (li != lj || pi != pj) ==> (
        #[trigger] levels[li].orders[pi]).order_id != (#[trigger] levels[lj].orders[pj]).order_id
}

/// No bid shares an id with an ask.
pub open spec fn ids_disjoint(bids: Seq<LevelModel>, asks: Seq<LevelModel>) -> bool {
    forall|li: int, pi: int, lj: int, pj: int|
        0 <= li < bids.len() && 0 <= pi < bids[li].orders.len() && 0 <= lj < asks.len() && 0 <= pj
            < asks[lj].orders.len() ==> (#[trigger] bids[li].orders[pi]).order_id != (
        #[trigger] asks[lj].orders[pj]).order_id
}

/// The index lists exactly the resting orders, each under the price and
/// side it occupies, with no duplicate ids.
pub open spec fn index_ok(
    bids: Seq<LevelModel>,
    asks: Seq<LevelModel>,
    ix: Seq<IndexEntryModel>,
) -> bool {
    &&& forall|k: int|
        0 <= k < ix.len() ==> {
            let e = #[trigger] ix[k];
            match e.side {
                Side::Buy => resting_at(bids, e.order_id, e.price),
                Side::Sell => resting_at(asks, e.order_id, e.price),
            }
        }
    &&& forall|li: int, pi: int|
        0 <= li < bids.len() && 0 <= pi < bids[li].orders.len() ==> indexed(
            ix,
            (#[trigger] bids[li].orders[pi]).order_id,
            bids[li].price,
            Side::Buy,
        )
    &&& forall|li: int, pi: int|
        0 <= li < asks.len() && 0 <= pi < asks[li].orders.len() ==> indexed(
            ix,
            (#[trigger] asks[li].orders[pi]).order_id,
            asks[li].price,
            Side::Sell,
        )
    &&& forall|k1: int, k2: int|
        0 <= k1 < k2 < ix.len() ==> (#[trigger] ix[k1]).order_id != (#[trigger] ix[k2]).order_id
}

/// The index holds an entry naming exactly this id, price and side.
pub open spec fn indexed(ix: Seq<IndexEntryModel>, id: Seq<char>, price: int, side: Side) -> bool {
    exists|k: int|
        0 <= k < ix.len() && (#[trigger] ix[k]).order_id == id && ix[k].price == price && ix[k].side
            == side
}

/// An order with exactly this value rests somewhere in these levels.
pub open spec fn resting_order(levels: Seq<LevelModel>, o: OrderModel) -> bool {
    exists|li: int, pi: int|
        0 <= li < levels.len() && 0 <= pi < levels[li].orders.len()
            && (#[trigger] levels[li].orders[pi]) == o
}

/// An order with exactly this value rests in a level priced `price`.
pub open spec fn occurs(levels: Seq<LevelModel>, o: OrderModel, price: int) -> bool {
    exists|li: int, pi: int|
        0 <= li < levels.len() && 0 <= pi < levels[li].orders.len() && levels[li].price == price
            && (#[trigger] levels[li].orders[pi]) == o
}

/// Where a new resting order lands: appended to its price level, or in a
/// fresh level inserted at the sorted position.
pub open spec fn spec_insert(levels: Seq<LevelModel>, o: OrderModel, side: Side) -> Seq<LevelModel>
    decreases levels.len(),
{
    if levels.len() == 0 {
        seq![LevelModel { price: o.price, depth: o.remaining(), orders: seq![o] }]
    } else if o.price == levels[0].price {
        seq![
            LevelModel {
                price: levels[0].price,
                depth: levels[0].depth + o.remaining(),
                orders: levels[0].orders.push(o),
            },
        ] + levels.drop_first()
    } else if price_better(side, o.price, levels[0].price) {
        seq![LevelModel { price: o.price, depth: o.remaining(), orders: seq![o] }] + levels
    } else {
        seq![levels[0]] + spec_insert(levels.drop_first(), o, side)
    }
}

pub proof fn lemma_sum_remaining_push(orders: Seq<OrderModel>, o: OrderModel)
    ensures
        sum_remaining(orders.push(o)) == sum_remaining(orders) + o.remaining(),
    decreases orders.len(),
{
    let p = orders.push(o);
    assert(p.len() == orders.len() + 1);
    if orders.len() == 0 {
        assert(p[0] == o);
        assert(p.drop_first() =~= Seq::<OrderModel>::empty());
        assert(sum_remaining(p) == o.remaining() + sum_remaining(p.drop_first()));
    } else {
        assert(p[0] == orders[0]);
        assert(p.drop_first() =~= orders.drop_first().push(o));
        lemma_sum_remaining_push(orders.drop_first(), o);
        assert(sum_remaining(p) == p[0].remaining() + sum_remaining(p.drop_first()));
    }
}

/// Everything [`lemma_spec_insert`] establishes about the inserted side.
pub open spec fn insert_ok(levels: Seq<LevelModel>, o: OrderModel, side: Side) -> bool {
    let r = spec_insert(levels, o, side);
    &&& wf_side(side, r)
    &&& ids_distinct_side(r)
    &&& r.len() >= 1
    &&& (r[0].price == o.price || (levels.len() > 0 && r[0].price == levels[0].price))
    &&& occurs(r, o, o.price)
    &&& forall|li: int, pi: int|
        0 <= li < levels.len() && 0 <= pi < levels[li].orders.len() ==> occurs(
            r,
            (#[trigger] levels[li].orders[pi]),
            levels[li].price,
        )
    &&& forall|lj: int, pj: int|
        0 <= lj < r.len() && 0 <= pj < r[lj].orders.len() ==> ((#[trigger] r[lj].orders[pj]) == o
            && r[lj].price == o.price) || occurs(levels, r[lj].orders[pj], r[lj].price)
}

#[verifier::rlimit(100)]
proof fn lemma_spec_insert_empty(levels: Seq<LevelModel>, o: OrderModel, side: Side)
    requires
        wf_side(side, levels),
        ids_distinct_side(levels),
        !has_id(levels, o.order_id),
        o.valid(),
        o.filled < o.quantity,
        o.side == side,
        levels.len() == 0,
    ensures
        insert_ok(levels, o, side),
    decreases levels.len(), 0int,
{
    let r = spec_insert(levels, o, side);

        assert(r =~= seq![LevelModel { price: o.price, depth: o.remaining(), orders: seq![o] }]);
        assert(sum_remaining(seq![o].drop_first()) == 0) by {
            assert(seq![o].drop_first() =~= Seq::<OrderModel>::empty());
        }
        assert(r[0].orders[0] == o);
        assert(occurs(r, o, o.price));
        assert forall|id: Seq<char>| #[trigger] has_id(r, id) implies has_id(levels, id) || id
            == o.order_id by {
            let (li, pi) = choose|li: int, pi: int|
                0 <= li < r.len() && 0 <= pi < r[li].orders.len()
                    && (#[trigger] r[li].orders[pi]).order_id == id;
            assert(r[li].orders[pi] == o);
        }
        assert forall|id: Seq<char>| has_id(levels, id) || id == o.order_id implies #[trigger] has_id(
            r,
            id,
        ) by {
            assert(r[0].orders[0].order_id == o.order_id);
        }
}

#[verifier::rlimit(100)]
proof fn lemma_spec_insert_merge(levels: Seq<LevelModel>, o: OrderModel, side: Side)
    requires
        wf_side(side, levels),
        ids_distinct_side(levels),
        !has_id(levels, o.order_id),
        o.valid(),
        o.filled < o.quantity,
        o.side == side,
        levels.len() > 0 && o.price == levels[0].price,
    ensures
        insert_ok(levels, o, side),
    decreases levels.len(), 0int,
{
    let r = spec_insert(levels, o, side);

        let merged = LevelModel {
            price: levels[0].price,
            depth: levels[0].depth + o.remaining(),
            orders: levels[0].orders.push(o),
        };
        assert(r =~= seq![merged] + levels.drop_first());
        lemma_sum_remaining_push(levels[0].orders, o);
        assert(wf_level(levels[0], side));
        assert forall|i: int| 0 <= i < merged.orders.len() implies {
            &&& (#[trigger] merged.orders[i]).valid()
            &&& merged.orders[i].price == merged.price
            &&& merged.orders[i].side == side
            &&& merged.orders[i].filled < merged.orders[i].quantity
        } by {
            if i < levels[0].orders.len() {
                assert(merged.orders[i] == levels[0].orders[i]);
            } else {
                assert(merged.orders[i] == o);
            }
        }
        assert(wf_level(merged, side));
        // position transfer: level 0 gains one order at the end, the rest is unchanged
        assert forall|li: int, pi: int|
            0 <= li < levels.len() && 0 <= pi < levels[li].orders.len() implies occurs(
            r,
            (#[trigger] levels[li].orders[pi]),
            levels[li].price,
        ) by {
            if li == 0 {
                assert(r[0].orders[pi] == levels[0].orders[pi]);
            } else {
                assert(r[li].orders[pi] == levels[li].orders[pi]);
            }
        }
        assert(r[0].orders[levels[0].orders.len() as int] == o);
        assert(occurs(r, o, o.price));
        assert forall|lj: int, pj: int|
            0 <= lj < r.len() && 0 <= pj < r[lj].orders.len() implies ((
        #[trigger] r[lj].orders[pj]) == o && r[lj].price == o.price) || occurs(
            levels,
            r[lj].orders[pj],
            r[lj].price,
        ) by {
            if lj == 0 {
                if pj < levels[0].orders.len() {
                    assert(levels[0].orders[pj] == r[0].orders[pj]);
                    assert(occurs(levels, r[0].orders[pj], r[0].price));
                } else {
                    assert(r[0].orders[pj] == o);
                }
            } else {
                assert(r[lj].orders[pj] == levels[lj].orders[pj]);
                assert(occurs(levels, r[lj].orders[pj], r[lj].price));
            }
        }
        assert forall|id: Seq<char>| #[trigger] has_id(r, id) implies has_id(levels, id) || id
            == o.order_id by {
            let (lj, pj) = choose|lj: int, pj: int|
                0 <= lj < r.len() && 0 <= pj < r[lj].orders.len()
                    && (#[trigger] r[lj].orders[pj]).order_id == id;
            if lj == 0 && pj == levels[0].orders.len() {
            } else if lj == 0 {
                assert(levels[0].orders[pj].order_id == id);
            } else {
                assert(levels[lj].orders[pj].order_id == id);
            }
        }
        assert forall|id: Seq<char>| has_id(levels, id) || id == o.order_id implies #[trigger] has_id(
            r,
            id,
        ) by {
            if id == o.order_id {
                assert(r[0].orders[levels[0].orders.len() as int].order_id == id);
            } else {
                let (li, pi) = choose|li: int, pi: int|
                    0 <= li < levels.len() && 0 <= pi < levels[li].orders.len()
                        && (#[trigger] levels[li].orders[pi]).order_id == id;
                if li == 0 {
                    assert(r[0].orders[pi].order_id == id);
                } else {
                    assert(r[li].orders[pi].order_id == id);
                }
            }
        }
        assert forall|li: int, pi: int, lj: int, pj: int|
            0 <= li < r.len() && 0 <= pi < r[li].orders.len() && 0 <= lj < r.len() && 0 <= pj
                < r[lj].orders.len() && (li != lj || pi != pj) implies (
        #[trigger] r[li].orders[pi]).order_id != (#[trigger] r[lj].orders[pj]).order_id by {
            let n0 = levels[0].orders.len() as int;
            if li == 0 && pi == n0 {
                if lj == 0 && pj < n0 {
                    assert(r[lj].orders[pj] == levels[0].orders[pj]);
                } else if lj != 0 {
                    assert(r[lj].orders[pj] == levels[lj].orders[pj]);
                }
            } else if lj == 0 && pj == n0 {
                if li == 0 && pi < n0 {
                    assert(r[li].orders[pi] == levels[0].orders[pi]);
                } else if li != 0 {
                    assert(r[li].orders[pi] == levels[li].orders[pi]);
                }
            } else {
                if li == 0 {
                    assert(r[li].orders[pi] == levels[0].orders[pi]);
                } else {
                    assert(r[li].orders[pi] == levels[li].orders[pi]);
                }
                if lj == 0 {
                    assert(r[lj].orders[pj] == levels[0].orders[pj]);
                } else {
                    assert(r[lj].orders[pj] == levels[lj].orders[pj]);
                }
            }
        }
}

#[verifier::rlimit(100)]
proof fn lemma_spec_insert_front(levels: Seq<LevelModel>, o: OrderModel, side: Side)
    requires
        wf_side(side, levels),
        ids_distinct_side(levels),
        !has_id(levels, o.order_id),
        o.valid(),
        o.filled < o.quantity,
        o.side == side,
        levels.len() > 0 && o.price != levels[0].price && price_better(side, o.price, levels[0].price),
    ensures
        insert_ok(levels, o, side),
    decreases levels.len(), 0int,
{
    let r = spec_insert(levels, o, side);

        let fresh = LevelModel { price: o.price, depth: o.remaining(), orders: seq![o] };
        assert(r =~= seq![fresh] + levels);
        assert(sum_remaining(seq![o].drop_first()) == 0) by {
            assert(seq![o].drop_first() =~= Seq::<OrderModel>::empty());
        }
        assert(wf_level(fresh, side));
        assert forall|i: int, j: int| 0 <= i < j < r.len() implies price_better(
            side,
            (#[trigger] r[i]).price,
            (#[trigger] r[j]).price,
        ) by {
            if i == 0 {
                if j == 1 {
                    assert(r[j] == levels[0]);
                } else {
                    assert(r[j] == levels[j - 1]);
                    assert(price_better(side, levels[0].price, levels[j - 1].price));
                }
            } else {
                assert(r[i] == levels[i - 1]);
                assert(r[j] == levels[j - 1]);
            }
        }
        assert forall|li: int, pi: int|
            0 <= li < levels.len() && 0 <= pi < levels[li].orders.len() implies occurs(
            r,
            (#[trigger] levels[li].orders[pi]),
            levels[li].price,
        ) by {
            assert(r[li + 1].orders[pi] == levels[li].orders[pi]);
        }
        assert(r[0].orders[0] == o);
        assert(occurs(r, o, o.price));
        assert forall|lj: int, pj: int|
            0 <= lj < r.len() && 0 <= pj < r[lj].orders.len() implies ((
        #[trigger] r[lj].orders[pj]) == o && r[lj].price == o.price) || occurs(
            levels,
            r[lj].orders[pj],
            r[lj].price,
        ) by {
            if lj > 0 {
                assert(r[lj].orders[pj] == levels[lj - 1].orders[pj]);
                assert(occurs(levels, r[lj].orders[pj], r[lj].price));
            }
        }
        assert forall|id: Seq<char>| #[trigger] has_id(r, id) implies has_id(levels, id) || id
            == o.order_id by {
            let (lj, pj) = choose|lj: int, pj: int|
                0 <= lj < r.len() && 0 <= pj < r[lj].orders.len()
                    && (#[trigger] r[lj].orders[pj]).order_id == id;
            if lj > 0 {
                assert(levels[lj - 1].orders[pj].order_id == id);
            }
        }
        assert forall|id: Seq<char>| has_id(levels, id) || id == o.order_id implies #[trigger] has_id(
            r,
            id,
        ) by {
            if id == o.order_id {
                assert(r[0].orders[0].order_id == id);
            } else {
                let (li, pi) = choose|li: int, pi: int|
                    0 <= li < levels.len() && 0 <= pi < levels[li].orders.len()
                        && (#[trigger] levels[li].orders[pi]).order_id == id;
                assert(r[li + 1].orders[pi].order_id == id);
            }
        }
        assert forall|li: int, pi: int, lj: int, pj: int|
            0 <= li < r.len() && 0 <= pi < r[li].orders.len() && 0 <= lj < r.len() && 0 <= pj
                < r[lj].orders.len() && (li != lj || pi != pj) implies (
        #[trigger] r[li].orders[pi]).order_id != (#[trigger] r[lj].orders[pj]).order_id by {
            if li == 0 && lj == 0 {
            } else if li == 0 {
                assert(r[li].orders[pi] == o);
                assert(r[lj].orders[pj] == levels[lj - 1].orders[pj]);
            } else if lj == 0 {
                assert(r[lj].orders[pj] == o);
                assert(r[li].orders[pi] == levels[li - 1].orders[pi]);
            } else {
                assert(r[li].orders[pi] == levels[li - 1].orders[pi]);
                assert(r[lj].orders[pj] == levels[lj - 1].orders[pj]);
            }
        }
}

#[verifier::rlimit(100)]
#[verifier::spinoff_prover]
proof fn lemma_spec_insert_rec(levels: Seq<LevelModel>, o: OrderModel, side: Side)
    requires
        wf_side(side, levels),
        ids_distinct_side(levels),
        !has_id(levels, o.order_id),
        o.valid(),
        o.filled < o.quantity,
        o.side == side,
        levels.len() > 0 && o.price != levels[0].price && !price_better(
            side,
            o.price,
            levels[0].price,
        ),
    ensures
        insert_ok(levels, o, side),
    decreases levels.len(), 0int,
{
    let r = spec_insert(levels, o, side);
    let tail = levels.drop_first();
    assert(wf_side(side, tail)) by {
        assert(forall|i: int| 0 <= i < tail.len() ==> #[trigger] tail[i] == levels[i + 1]);
    }
    assert(ids_distinct_side(tail)) by {
        assert(forall|i: int| 0 <= i < tail.len() ==> #[trigger] tail[i] == levels[i + 1]);
    }
    assert(!has_id(tail, o.order_id)) by {
        if has_id(tail, o.order_id) {
            let (li, pi) = choose|li: int, pi: int|
                0 <= li < tail.len() && 0 <= pi < tail[li].orders.len()
                    && (#[trigger] tail[li].orders[pi]).order_id == o.order_id;
            assert(levels[li + 1].orders[pi].order_id == o.order_id);
            assert(has_id(levels, o.order_id));
        }
    }
    lemma_spec_insert(tail, o, side);
    let rt = spec_insert(tail, o, side);
    assert(r =~= seq![levels[0]] + rt);
    lemma_spec_insert_rec_wf(levels, o, side);
    lemma_spec_insert_rec_occurs(levels, o, side);
    lemma_spec_insert_rec_distinct(levels, o, side);
    assert(r[0].price == levels[0].price);
    assert(wf_side(side, r));
    assert(ids_distinct_side(r));
    assert(r.len() >= 1);
    assert(occurs(r, o, o.price));
    assert(insert_ok(levels, o, side));
}

#[verifier::rlimit(100)]
proof fn lemma_spec_insert_rec_wf(levels: Seq<LevelModel>, o: OrderModel, side: Side)
    requires
        wf_side(side, levels),
        ids_distinct_side(levels),
        !has_id(levels, o.order_id),
        o.valid(),
        o.filled < o.quantity,
        o.side == side,
        levels.len() > 0 && o.price != levels[0].price && !price_better(
            side,
            o.price,
            levels[0].price,
        ),
        insert_ok(levels.drop_first(), o, side),
    ensures
        wf_side(side, spec_insert(levels, o, side)),
{
    let r = spec_insert(levels, o, side);
    let tail = levels.drop_first();
    let rt = spec_insert(tail, o, side);
    assert(r =~= seq![levels[0]] + rt);
    assert(forall|i: int| 0 <= i < tail.len() ==> #[trigger] tail[i] == levels[i + 1]);
        // sortedness: the head is better than everything in rt
        assert forall|i: int, j: int| 0 <= i < j < r.len() implies price_better(
            side,
            (#[trigger] r[i]).price,
            (#[trigger] r[j]).price,
        ) by {
            if i == 0 {
                assert(r[j] == rt[j - 1]);
                if rt[j - 1].price == o.price || (tail.len() > 0 && rt[j - 1].price
                    == tail[j - 2].price) {
                }
                // every level of rt is either o's level or one of tail's
                let ord = rt[j - 1].orders[0];
                assert(0 <= j - 1 < rt.len() && 0 <= 0 < rt[j - 1].orders.len());
                assert((ord == o && rt[j - 1].price == o.price) || occurs(
                    tail,
                    ord,
                    rt[j - 1].price,
                ));
                if ord == o && rt[j - 1].price == o.price {
                    assert(!price_better(side, o.price, levels[0].price));
                    assert(o.price != levels[0].price);
                    assert(price_better(side, levels[0].price, o.price));
                } else {
                    let (li, pi) = choose|li: int, pi: int|
                        0 <= li < tail.len() && 0 <= pi < tail[li].orders.len() && tail[li].price
                            == rt[j - 1].price && (#[trigger] tail[li].orders[pi]) == ord;
                    assert(tail[li] == levels[li + 1]);
                    assert(price_better(side, levels[0].price, levels[li + 1].price));
                }
            } else {
                assert(r[i] == rt[i - 1]);
                assert(r[j] == rt[j - 1]);
            }
        }
        assert forall|i: int| 0 <= i < r.len() implies wf_level(#[trigger] r[i], side) by {
            if i == 0 {
            } else {
                assert(r[i] == rt[i - 1]);
            }
        }
}

#[verifier::rlimit(100)]
proof fn lemma_spec_insert_rec_occurs(levels: Seq<LevelModel>, o: OrderModel, side: Side)
    requires
        wf_side(side, levels),
        ids_distinct_side(levels),
        !has_id(levels, o.order_id),
        o.valid(),
        o.filled < o.quantity,
        o.side == side,
        levels.len() > 0 && o.price != levels[0].price && !price_better(
            side,
            o.price,
            levels[0].price,
        ),
        insert_ok(levels.drop_first(), o, side),
    ensures
        ({
            let r = spec_insert(levels, o, side);
            &&& occurs(r, o, o.price)
            &&& forall|li: int, pi: int|
                0 <= li < levels.len() && 0 <= pi < levels[li].orders.len() ==> occurs(
                    r,
                    (#[trigger] levels[li].orders[pi]),
                    levels[li].price,
                )
            &&& forall|lj: int, pj: int|
                0 <= lj < r.len() && 0 <= pj < r[lj].orders.len() ==> ((#[trigger] r[lj].orders[pj])
                    == o && r[lj].price == o.price) || occurs(levels, r[lj].orders[pj], r[lj].price)
        }),
{
    let r = spec_insert(levels, o, side);
    let tail = levels.drop_first();
    let rt = spec_insert(tail, o, side);
    assert(r =~= seq![levels[0]] + rt);
    assert(forall|i: int| 0 <= i < tail.len() ==> #[trigger] tail[i] == levels[i + 1]);
        assert forall|li: int, pi: int|
            0 <= li < levels.len() && 0 <= pi < levels[li].orders.len() implies occurs(
            r,
            (#[trigger] levels[li].orders[pi]),
            levels[li].price,
        ) by {
            if li == 0 {
                assert(r[0].orders[pi] == levels[0].orders[pi]);
            } else {
                assert(tail[li - 1].orders[pi] == levels[li].orders[pi]);
                assert(occurs(rt, levels[li].orders[pi], levels[li].price));
                let (lj, pj) = choose|lj: int, pj: int|
                    0 <= lj < rt.len() && 0 <= pj < rt[lj].orders.len() && rt[lj].price
                        == levels[li].price && (#[trigger] rt[lj].orders[pj]) == levels[li].orders[pi];
                assert(r[lj + 1].orders[pj] == levels[li].orders[pi]);
            }
        }
        assert(occurs(rt, o, o.price));
        let (lo, po) = choose|lo: int, po: int|
            0 <= lo < rt.len() && 0 <= po < rt[lo].orders.len() && rt[lo].price == o.price && (
            #[trigger] rt[lo].orders[po]) == o;
        assert(r[lo + 1].orders[po] == o);
        assert(occurs(r, o, o.price));
        assert forall|lj: int, pj: int|
            0 <= lj < r.len() && 0 <= pj < r[lj].orders.len() implies ((
        #[trigger] r[lj].orders[pj]) == o && r[lj].price == o.price) || occurs(
            levels,
            r[lj].orders[pj],
            r[lj].price,
        ) by {
            if lj == 0 {
                assert(r[0].orders[pj] == levels[0].orders[pj]);
                assert(occurs(levels, r[0].orders[pj], levels[0].price));
            } else {
                assert(r[lj].orders[pj] == rt[lj - 1].orders[pj]);
                if rt[lj - 1].orders[pj] == o && rt[lj - 1].price == o.price {
                } else {
                    assert(occurs(tail, rt[lj - 1].orders[pj], rt[lj - 1].price));
                    let (lt, pt) = choose|lt: int, pt: int|
                        0 <= lt < tail.len() && 0 <= pt < tail[lt].orders.len() && tail[lt].price
                            == rt[lj - 1].price && (#[trigger] tail[lt].orders[pt]) == rt[lj
                            - 1].orders[pj];
                    assert(levels[lt + 1].orders[pt] == r[lj].orders[pj]);
                    assert(occurs(levels, r[lj].orders[pj], r[lj].price));
                }
            }
        }
}

#[verifier::rlimit(100)]
proof fn lemma_spec_insert_rec_distinct(levels: Seq<LevelModel>, o: OrderModel, side: Side)
    requires
        wf_side(side, levels),
        ids_distinct_side(levels),
        !has_id(levels, o.order_id),
        o.valid(),
        o.filled < o.quantity,
        o.side == side,
        levels.len() > 0 && o.price != levels[0].price && !price_better(
            side,
            o.price,
            levels[0].price,
        ),
        insert_ok(levels.drop_first(), o, side),
    ensures
        ids_distinct_side(spec_insert(levels, o, side)),
{
    let r = spec_insert(levels, o, side);
    let tail = levels.drop_first();
    let rt = spec_insert(tail, o, side);
    assert(r =~= seq![levels[0]] + rt);
    assert(forall|i: int| 0 <= i < tail.len() ==> #[trigger] tail[i] == levels[i + 1]);
        assert forall|li: int, pi: int, lj: int, pj: int|
            0 <= li < r.len() && 0 <= pi < r[li].orders.len() && 0 <= lj < r.len() && 0 <= pj
                < r[lj].orders.len() && (li != lj || pi != pj) implies (
        #[trigger] r[li].orders[pi]).order_id != (#[trigger] r[lj].orders[pj]).order_id by {
            if li == 0 && lj == 0 {
                assert(r[0].orders[pi] == levels[0].orders[pi]);
                assert(r[0].orders[pj] == levels[0].orders[pj]);
            } else if li == 0 {
                assert(r[li].orders[pi] == levels[0].orders[pi]);
                assert(r[lj].orders[pj] == rt[lj - 1].orders[pj]);
                if rt[lj - 1].orders[pj] == o {
                    if levels[0].orders[pi].order_id == o.order_id {
                        assert(has_id(levels, o.order_id));
                    }
                } else {
                    assert(occurs(tail, rt[lj - 1].orders[pj], rt[lj - 1].price));
                    let (lt, pt) = choose|lt: int, pt: int|
                        0 <= lt < tail.len() && 0 <= pt < tail[lt].orders.len() && tail[lt].price
                            == rt[lj - 1].price && (#[trigger] tail[lt].orders[pt]) == rt[lj
                            - 1].orders[pj];
                    assert(levels[lt + 1].orders[pt] == rt[lj - 1].orders[pj]);
                }
            } else if lj == 0 {
                assert(r[lj].orders[pj] == levels[0].orders[pj]);
                assert(r[li].orders[pi] == rt[li - 1].orders[pi]);
                if rt[li - 1].orders[pi] == o {
                    if levels[0].orders[pj].order_id == o.order_id {
                        assert(has_id(levels, o.order_id));
                    }
                } else {
                    assert(occurs(tail, rt[li - 1].orders[pi], rt[li - 1].price));
                    let (lt, pt) = choose|lt: int, pt: int|
                        0 <= lt < tail.len() && 0 <= pt < tail[lt].orders.len() && tail[lt].price
                            == rt[li - 1].price && (#[trigger] tail[lt].orders[pt]) == rt[li
                            - 1].orders[pi];
                    assert(levels[lt + 1].orders[pt] == rt[li - 1].orders[pi]);
                }
            } else {
                assert(r[li].orders[pi] == rt[li - 1].orders[pi]);
                assert(r[lj].orders[pj] == rt[lj - 1].orders[pj]);
            }
        }
    }

/// What inserting one fresh order does to a well-formed side.
pub proof fn lemma_spec_insert(levels: Seq<LevelModel>, o: OrderModel, side: Side)
    requires
        wf_side(side, levels),
        ids_distinct_side(levels),
        !has_id(levels, o.order_id),
        o.valid(),
        o.filled < o.quantity,
        o.side == side,
    ensures
        insert_ok(levels, o, side),
    decreases levels.len(), 1int,
{
    if levels.len() == 0 {
        lemma_spec_insert_empty(levels, o, side);
    } else if o.price == levels[0].price {
        lemma_spec_insert_merge(levels, o, side);
    } else if price_better(side, o.price, levels[0].price) {
        lemma_spec_insert_front(levels, o, side);
    } else {
        lemma_spec_insert_rec(levels, o, side);
    }
}

/// The mathematical image of one side of the book.
pub open spec fn level_models(levels: Seq<Level>) -> Seq<LevelModel> {
    levels.map_values(|l: Level| l@)
}

/// The index and the id pools after one insertion on one side.
#[verifier::rlimit(100)]
pub proof fn lemma_index_after_insert(
    bids: Seq<LevelModel>,
    asks: Seq<LevelModel>,
    ix: Seq<IndexEntryModel>,
    o: OrderModel,
    side: Side,
)
    requires
        wf_side(Side::Buy, bids),
        wf_side(Side::Sell, asks),
        ids_distinct_side(bids),
        ids_distinct_side(asks),
        ids_disjoint(bids, asks),
        index_ok(bids, asks, ix),
        !has_id(bids, o.order_id),
        !has_id(asks, o.order_id),
        o.valid(),
        o.filled < o.quantity,
        o.side == side,
    ensures
        ({
            let nb = if side == Side::Buy {
                spec_insert(bids, o, side)
            } else {
                bids
            };
            let na = if side == Side::Sell {
                spec_insert(asks, o, side)
            } else {
                asks
            };
            let nix = ix.push(
                IndexEntryModel { order_id: o.order_id, price: o.price, side },
            );
            &&& ids_disjoint(nb, na)
            &&& index_ok(nb, na, nix)
        }),
{
    if side == Side::Buy {
        lemma_spec_insert(bids, o, side);
    } else {
        lemma_spec_insert(asks, o, side);
    }
    let nb = if side == Side::Buy {
        spec_insert(bids, o, side)
    } else {
        bids
    };
    let na = if side == Side::Sell {
        spec_insert(asks, o, side)
    } else {
        asks
    };
    let e = IndexEntryModel { order_id: o.order_id, price: o.price, side };
    let nix = ix.push(e);
    assert(nix[ix.len() as int] == e);
    // ids stay disjoint: the fresh id stands on one side only
    assert forall|li: int, pi: int, lj: int, pj: int|
        0 <= li < nb.len() && 0 <= pi < nb[li].orders.len() && 0 <= lj < na.len() && 0 <= pj
            < na[lj].orders.len() implies (#[trigger] nb[li].orders[pi]).order_id != (
    #[trigger] na[lj].orders[pj]).order_id by {
        if side == Side::Buy {
            if nb[li].orders[pi] == o && nb[li].price == o.price {
                if na[lj].orders[pj].order_id == o.order_id {
                    assert(has_id(asks, o.order_id));
                }
            } else {
                assert(occurs(bids, nb[li].orders[pi], nb[li].price));
                let (lb, pb) = choose|lb: int, pb: int|
                    0 <= lb < bids.len() && 0 <= pb < bids[lb].orders.len() && bids[lb].price
                        == nb[li].price && (#[trigger] bids[lb].orders[pb]) == nb[li].orders[pi];
                assert(bids[lb].orders[pb].order_id != na[lj].orders[pj].order_id);
            }
        } else {
            if na[lj].orders[pj] == o && na[lj].price == o.price {
                if nb[li].orders[pi].order_id == o.order_id {
                    assert(has_id(bids, o.order_id));
                }
            } else {
                assert(occurs(asks, na[lj].orders[pj], na[lj].price));
                let (la, pa) = choose|la: int, pa: int|
                    0 <= la < asks.len() && 0 <= pa < asks[la].orders.len() && asks[la].price
                        == na[lj].price && (#[trigger] asks[la].orders[pa]) == na[lj].orders[pj];
                assert(nb[li].orders[pi].order_id != asks[la].orders[pa].order_id);
            }
        }
    }
    // entries still point at resting orders
    assert forall|k: int| 0 <= k < nix.len() implies {
        let en = #[trigger] nix[k];
        match en.side {
            Side::Buy => resting_at(nb, en.order_id, en.price),
            Side::Sell => resting_at(na, en.order_id, en.price),
        }
    } by {
        if k < ix.len() {
            assert(nix[k] == ix[k]);
            let en = ix[k];
            if en.side == Side::Buy {
                assert(resting_at(bids, en.order_id, en.price));
                if side == Side::Buy {
                    let (lb, pb) = choose|lb: int, pb: int|
                        0 <= lb < bids.len() && 0 <= pb < bids[lb].orders.len() && bids[lb].price
                            == en.price && (#[trigger] bids[lb].orders[pb]).order_id == en.order_id;
                    assert(occurs(nb, bids[lb].orders[pb], bids[lb].price));
                    let (ln, pn) = choose|ln: int, pn: int|
                        0 <= ln < nb.len() && 0 <= pn < nb[ln].orders.len() && nb[ln].price
                            == en.price && (#[trigger] nb[ln].orders[pn]) == bids[lb].orders[pb];
                    assert(resting_at(nb, en.order_id, en.price));
                }
            } else {
                assert(resting_at(asks, en.order_id, en.price));
                if side == Side::Sell {
                    let (la, pa) = choose|la: int, pa: int|
                        0 <= la < asks.len() && 0 <= pa < asks[la].orders.len() && asks[la].price
                            == en.price && (#[trigger] asks[la].orders[pa]).order_id == en.order_id;
                    assert(occurs(na, asks[la].orders[pa], asks[la].price));
                    let (ln, pn) = choose|ln: int, pn: int|
                        0 <= ln < na.len() && 0 <= pn < na[ln].orders.len() && na[ln].price
                            == en.price && (#[trigger] na[ln].orders[pn]) == asks[la].orders[pa];
                    assert(resting_at(na, en.order_id, en.price));
                }
            }
        } else {
            assert(nix[k] == e);
            if side == Side::Buy {
                let (lo, po) = choose|lo: int, po: int|
                    0 <= lo < nb.len() && 0 <= po < nb[lo].orders.len() && nb[lo].price == o.price
                        && (#[trigger] nb[lo].orders[po]) == o;
                assert(resting_at(nb, o.order_id, o.price));
            } else {
                let (lo, po) = choose|lo: int, po: int|
                    0 <= lo < na.len() && 0 <= po < na[lo].orders.len() && na[lo].price == o.price
                        && (#[trigger] na[lo].orders[po]) == o;
                assert(resting_at(na, o.order_id, o.price));
            }
        }
    }
    // every resting order is indexed
    assert forall|li: int, pi: int|
        0 <= li < nb.len() && 0 <= pi < nb[li].orders.len() implies indexed(
        nix,
        (#[trigger] nb[li].orders[pi]).order_id,
        nb[li].price,
        Side::Buy,
    ) by {
        if side == Side::Buy {
            if nb[li].orders[pi] == o && nb[li].price == o.price {
                assert(nix[ix.len() as int].order_id == o.order_id);
            } else {
                assert(occurs(bids, nb[li].orders[pi], nb[li].price));
                let (lb, pb) = choose|lb: int, pb: int|
                    0 <= lb < bids.len() && 0 <= pb < bids[lb].orders.len() && bids[lb].price
                        == nb[li].price && (#[trigger] bids[lb].orders[pb]) == nb[li].orders[pi];
                assert(indexed(ix, bids[lb].orders[pb].order_id, bids[lb].price, Side::Buy));
                let k = choose|k: int|
                    0 <= k < ix.len() && (#[trigger] ix[k]).order_id == bids[lb].orders[pb].order_id
                        && ix[k].price == bids[lb].price && ix[k].side == Side::Buy;
                assert(nix[k] == ix[k]);
            }
        } else {
            assert(indexed(ix, nb[li].orders[pi].order_id, nb[li].price, Side::Buy));
            let k = choose|k: int|
                0 <= k < ix.len() && (#[trigger] ix[k]).order_id == nb[li].orders[pi].order_id
                    && ix[k].price == nb[li].price && ix[k].side == Side::Buy;
            assert(nix[k] == ix[k]);
        }
    }
    assert forall|li: int, pi: int|
        0 <= li < na.len() && 0 <= pi < na[li].orders.len() implies indexed(
        nix,
        (#[trigger] na[li].orders[pi]).order_id,
        na[li].price,
        Side::Sell,
    ) by {
        if side == Side::Sell {
            if na[li].orders[pi] == o && na[li].price == o.price {
                assert(nix[ix.len() as int].order_id == o.order_id);
            } else {
                assert(occurs(asks, na[li].orders[pi], na[li].price));
                let (la, pa) = choose|la: int, pa: int|
                    0 <= la < asks.len() && 0 <= pa < asks[la].orders.len() && asks[la].price
                        == na[li].price && (#[trigger] asks[la].orders[pa]) == na[li].orders[pi];
                assert(indexed(ix, asks[la].orders[pa].order_id, asks[la].price, Side::Sell));
                let k = choose|k: int|
                    0 <= k < ix.len() && (#[trigger] ix[k]).order_id == asks[la].orders[pa].order_id
                        && ix[k].price == asks[la].price && ix[k].side == Side::Sell;
                assert(nix[k] == ix[k]);
            }
        } else {
            assert(indexed(ix, na[li].orders[pi].order_id, na[li].price, Side::Sell));
            let k = choose|k: int|
                0 <= k < ix.len() && (#[trigger] ix[k]).order_id == na[li].orders[pi].order_id
                    && ix[k].price == na[li].price && ix[k].side == Side::Sell;
            assert(nix[k] == ix[k]);
        }
    }
    // no duplicate entry ids
    assert forall|k1: int, k2: int| 0 <= k1 < k2 < nix.len() implies (
    #[trigger] nix[k1]).order_id != (#[trigger] nix[k2]).order_id by {
        if k2 == ix.len() {
            assert(nix[k1] == ix[k1]);
            let en = ix[k1];
            if en.order_id == o.order_id {
                if en.side == Side::Buy {
                    assert(resting_at(bids, en.order_id, en.price));
                    let (lb, pb) = choose|lb: int, pb: int|
                        0 <= lb < bids.len() && 0 <= pb < bids[lb].orders.len() && bids[lb].price
                            == en.price && (#[trigger] bids[lb].orders[pb]).order_id == en.order_id;
                    assert(has_id(bids, o.order_id));
                } else {
                    assert(resting_at(asks, en.order_id, en.price));
                    let (la, pa) = choose|la: int, pa: int|
                        0 <= la < asks.len() && 0 <= pa < asks[la].orders.len() && asks[la].price
                            == en.price && (#[trigger] asks[la].orders[pa]).order_id == en.order_id;
                    assert(has_id(asks, o.order_id));
                }
            }
        } else {
            assert(nix[k1] == ix[k1]);
            assert(nix[k2] == ix[k2]);
        }
    }
}

fn better_exec(side: Side, a: u64, b: u64) -> (r: bool)
    ensures
        r == price_better(side, a as int, b as int),
{
    match side {
        Side::Buy => a > b,
        Side::Sell => a < b,
    }
}

fn new_level(order: Order) -> (r: Level)
    requires
        order@.valid(),
        order.filled < order.quantity,
    ensures
        r@ =~~= (LevelModel {
            price: order@.price,
            depth: order@.remaining(),
            orders: seq![order@],
        }),
{
    let depth = order.quantity - order.filled;
    let price = order.price;
    let mut orders: Vec<Order> = Vec::new();
    orders.push(order);
    Level { price, depth, orders }
}

/// Inserts a resting order into the sorted levels, leaving the first `i`
/// levels untouched.
fn insert_from(levels: &mut Vec<Level>, i: usize, order: Order, side: Side)
    requires
        i <= old(levels)@.len(),
        order@.valid(),
        order.filled < order.quantity,
        order@.side == side,
        forall|j: int|
            i <= j < old(levels)@.len() && (#[trigger] level_models(old(levels)@)[j]).price
                == order@.price ==> level_models(old(levels)@)[j].depth + order@.remaining()
                <= u64::MAX,
    ensures
        level_models(final(levels)@) == level_models(old(levels)@).take(i as int) + spec_insert(
            level_models(old(levels)@).skip(i as int),
            order@,
            side,
        ),
    decreases old(levels)@.len() - i,
{
    let ghost olm = level_models(old(levels)@);
    let n = levels.len();
    if i == n {
        let ghost o = order@;
        levels.push(new_level(order));
        proof {
            assert(spec_insert(olm.skip(i as int), o, side) =~~= seq![
                LevelModel { price: o.price, depth: o.remaining(), orders: seq![o] },
            ]) by {
                assert(olm.skip(i as int).len() == 0);
            }
            assert(level_models(levels@) =~~= olm.take(i as int) + spec_insert(
                olm.skip(i as int),
                o,
                side,
            ));
        }
    } else if order.price == levels[i].price {
        let ghost o = order@;
        let rem = order.quantity - order.filled;
        proof {
            assert(olm[i as int].price == o.price);
            assert(olm[i as int].depth + o.remaining() <= u64::MAX);
        }
        let mut lv = levels.remove(i);
        lv.depth = lv.depth + rem;
        lv.orders.push(order);
        levels.insert(i, lv);
        proof {
            let tail = olm.skip(i as int);
            assert(tail[0] == olm[i as int]);
            assert(lv@.orders =~~= olm[i as int].orders.push(o));
            assert(spec_insert(tail, o, side) =~~= seq![lv@] + tail.drop_first());
            assert(level_models(levels@) =~~= olm.take(i as int) + (seq![lv@]
                + tail.drop_first()));
        }
    } else if better_exec(side, order.price, levels[i].price) {
        let ghost o = order@;
        levels.insert(i, new_level(order));
        proof {
            let tail = olm.skip(i as int);
            assert(tail[0] == olm[i as int]);
            assert(spec_insert(tail, o, side) =~~= seq![
                LevelModel { price: o.price, depth: o.remaining(), orders: seq![o] },
            ] + tail);
            assert(level_models(levels@) =~~= olm.take(i as int) + spec_insert(tail, o, side));
        }
    } else {
        let ghost o = order@;
        insert_from(levels, i + 1, order, side);
        proof {
            let tail = olm.skip(i as int);
            assert(tail[0] == olm[i as int]);
            assert(tail.drop_first() =~~= olm.skip(i + 1));
            assert(spec_insert(tail, o, side) =~~= seq![olm[i as int]] + spec_insert(
                olm.skip(i + 1),
                o,
                side,
            ));
            assert(level_models(levels@) =~~= olm.take(i as int) + spec_insert(tail, o, side));
        }
    }
}

// ---------------------------------------------------------------------------
// Matching
// ---------------------------------------------------------------------------

use crate::types::{FillModel, InternalFill, OrderbookFill};

/// The mathematical image of a queue of orders.
pub open spec fn order_models(orders: Seq<Order>) -> Seq<OrderModel> {
    orders.map_values(|o: Order| o@)
}

/// The mathematical image of a list of fills.
pub open spec fn fill_models(fills: Seq<OrderbookFill>) -> Seq<FillModel> {
    fills.map_values(|f: OrderbookFill| f@)
}

pub open spec fn sum_qty(fills: Seq<FillModel>) -> int
    decreases fills.len(),
{
    if fills.len() == 0 {
        0
    } else {
        fills[0].qty + sum_qty(fills.drop_first())
    }
}

/// What matching a taker for `want` units against one FIFO queue of makers
/// does: consume makers front to back at their own price, one fill each,
/// a fresh trade id each, until the taker or the queue is exhausted.
#[verifier::ext_equal]
pub ghost struct LevelMatch {
    pub fills: Seq<FillModel>,
    pub orders: Seq<OrderModel>,
    pub removed: Seq<Seq<char>>,
    pub consumed: int,
    pub next_tid: int,
}

pub open spec fn spec_match_level(orders: Seq<OrderModel>, want: int, tid: int) -> LevelMatch
    decreases orders.len(),
{
    if orders.len() == 0 || want <= 0 {
        LevelMatch {
            fills: Seq::empty(),
            orders,
            removed: Seq::empty(),
            consumed: 0,
            next_tid: tid,
        }
    } else {
        let o = orders[0];
        let rem = o.remaining();
        if rem <= want {
            // the maker is consumed whole and leaves the queue
            let f = FillModel {
                price: o.price,
                qty: rem,
                trade_id: tid + 1,
                maker_user_id: o.user_id,
                maker_order_id: o.order_id,
            };
            let rest = spec_match_level(orders.drop_first(), want - rem, tid + 1);
            LevelMatch {
                fills: seq![f] + rest.fills,
                orders: rest.orders,
                removed: seq![o.order_id] + rest.removed,
                consumed: rem + rest.consumed,
                next_tid: rest.next_tid,
            }
        } else {
            // the taker is exhausted against the front maker
            let f = FillModel {
                price: o.price,
                qty: want,
                trade_id: tid + 1,
                maker_user_id: o.user_id,
                maker_order_id: o.order_id,
            };
            let upd = OrderModel { filled: o.filled + want, ..o };
            LevelMatch {
                fills: seq![f],
                orders: seq![upd] + orders.drop_first(),
                removed: Seq::empty(),
                consumed: want,
                next_tid: tid + 1,
            }
        }
    }
}

/// What matching against one level establishes.
#[verifier::rlimit(100)]
pub proof fn lemma_match_level_props(orders: Seq<OrderModel>, want: int, tid: int)
    requires
        want >= 0,
        forall|i: int|
            0 <= i < orders.len() ==> (#[trigger] orders[i]).valid() && orders[i].filled
                < orders[i].quantity,
    ensures
        ({
            let m = spec_match_level(orders, want, tid);
            &&& 0 <= m.consumed <= want
            &&& m.next_tid == tid + m.fills.len()
            &&& m.fills.len() <= m.consumed
            &&& m.fills.len() <= orders.len()
            &&& m.removed.len() <= orders.len()
            &&& m.orders.len() == orders.len() - m.removed.len()
            &&& (m.consumed < want ==> m.orders.len() == 0)
            &&& sum_remaining(m.orders) == sum_remaining(orders) - m.consumed
            &&& forall|j: int|
                0 <= j < m.removed.len() ==> m.removed[j] == (#[trigger] orders[j]).order_id
            &&& forall|j: int|
                1 <= j < m.orders.len() ==> (#[trigger] m.orders[j]) == orders[
                    m.removed.len() + j
                ]
            &&& (m.orders.len() > 0 ==> {
                let base = orders[m.removed.len() as int];
                let first = m.orders[0];
                &&& first.order_id == base.order_id
                &&& first.user_id == base.user_id
                &&& first.price == base.price
                &&& first.quantity == base.quantity
                &&& first.side == base.side
                &&& first.filled >= base.filled
            })
            &&& forall|i: int|
                0 <= i < m.orders.len() ==> (#[trigger] m.orders[i]).valid() && m.orders[i].filled
                    < m.orders[i].quantity
            &&& forall|i: int|
                0 <= i < m.fills.len() ==> {
                    let f = #[trigger] m.fills[i];
                    &&& f.qty >= 1
                    &&& f.price == orders[i].price
                    &&& f.qty <= orders[i].remaining()
                    &&& f.trade_id == tid + 1 + i
                    &&& f.maker_order_id == orders[i].order_id
                    &&& f.maker_user_id == orders[i].user_id
                }
            &&& sum_qty(m.fills) == m.consumed
        }),
    decreases orders.len(),
{
    let m = spec_match_level(orders, want, tid);
    if orders.len() == 0 || want <= 0 {
        assert(sum_qty(m.fills) == 0);
    } else {
        let o = orders[0];
        let rem = o.remaining();
        let tail = orders.drop_first();
        assert(forall|i: int|
            0 <= i < tail.len() ==> (#[trigger] tail[i]) == orders[i + 1]);
        if rem <= want {
            lemma_match_level_props(tail, want - rem, tid + 1);
            let rest = spec_match_level(tail, want - rem, tid + 1);
            let f = FillModel {
                price: o.price,
                qty: rem,
                trade_id: tid + 1,
                maker_user_id: o.user_id,
                maker_order_id: o.order_id,
            };
            assert(m.fills == seq![f] + rest.fills);
            assert(m.fills.len() == 1 + rest.fills.len());
            assert(forall|i: int|
                1 <= i < m.fills.len() ==> (#[trigger] m.fills[i]) == rest.fills[i - 1]);
            assert(m.fills[0] == f);
            assert(m.removed[0] == o.order_id);
            assert(forall|j: int|
                1 <= j < m.removed.len() ==> (#[trigger] m.removed[j]) == rest.removed[j - 1]);
            assert(sum_remaining(orders) == rem + sum_remaining(tail));
            assert(sum_qty(m.fills) == f.qty + sum_qty(m.fills.drop_first()));
            assert(m.fills.drop_first() =~= rest.fills);
            assert(m.removed.len() == 1 + rest.removed.len());
            assert(m.orders == rest.orders);
            assert forall|j: int| 1 <= j < m.orders.len() implies (#[trigger] m.orders[j])
                == orders[m.removed.len() + j] by {
                assert(rest.orders[j] == tail[rest.removed.len() + j]);
                assert(tail[rest.removed.len() + j] == orders[rest.removed.len() + j + 1]);
            }
            if m.orders.len() > 0 {
                assert(orders[m.removed.len() as int] == tail[rest.removed.len() as int]);
            }
            assert forall|j: int| 0 <= j < m.removed.len() implies m.removed[j] == (
            #[trigger] orders[j]).order_id by {
                if j >= 1 {
                    assert(m.removed[j] == rest.removed[j - 1]);
                    assert(rest.removed[j - 1] == tail[j - 1].order_id);
                }
            }
            assert forall|i: int| 0 <= i < m.fills.len() implies {
                let f2 = #[trigger] m.fills[i];
                &&& f2.qty >= 1
                &&& f2.price == orders[i].price
                &&& f2.qty <= orders[i].remaining()
                &&& f2.trade_id == tid + 1 + i
                &&& f2.maker_order_id == orders[i].order_id
                &&& f2.maker_user_id == orders[i].user_id
            } by {
                if i >= 1 {
                    assert(m.fills[i] == rest.fills[i - 1]);
                    assert(tail[i - 1] == orders[i]);
                }
            }
        } else {
            let upd = OrderModel { filled: o.filled + want, ..o };
            assert(m.orders == seq![upd] + tail);
            assert(m.orders[0] == upd);
            assert(forall|j: int|
                1 <= j < m.orders.len() ==> (#[trigger] m.orders[j]) == tail[j - 1]);
            assert(sum_remaining(orders) == rem + sum_remaining(tail));
            assert(m.orders.drop_first() =~= tail);
            assert(sum_remaining(m.orders) == upd.remaining() + sum_remaining(tail));
            assert(sum_qty(m.fills) == want + sum_qty(m.fills.drop_first()));
            assert(m.fills.drop_first() =~= Seq::<FillModel>::empty());
        }
    }
}

/// Matches a taker against the FIFO queue of one level, in place.
fn match_level(orders: &mut Vec<Order>, want: u64, tid: u64) -> (r: (
    Vec<OrderbookFill>,
    u64,
    u64,
))
    requires
        tid + want <= u64::MAX,
        forall|i: int|
            0 <= i < old(orders)@.len() ==> (#[trigger] order_models(old(orders)@)[i]).valid()
                && order_models(old(orders)@)[i].filled < order_models(old(orders)@)[i].quantity,
    ensures
        ({
            let m = spec_match_level(order_models(old(orders)@), want as int, tid as int);
            &&& order_models(final(orders)@) == m.orders
            &&& fill_models(r.0@) == m.fills
            &&& r.1 == m.consumed
            &&& r.2 == m.next_tid
        }),
    decreases old(orders)@.len(),
{
    let ghost om = order_models(old(orders)@);
    proof {
        lemma_match_level_props(om, want as int, tid as int);
    }
    if orders.len() == 0 || want == 0 {
        proof {
            assert(fill_models(Seq::<OrderbookFill>::empty()) =~= Seq::<FillModel>::empty());
        }
        return (Vec::new(), 0, tid);
    }
    let first = orders.remove(0);
    proof {
        assert(om[0] == first@);
        assert(order_models(orders@) =~= om.drop_first());
        assert(forall|i: int|
            0 <= i < om.drop_first().len() ==> (#[trigger] om.drop_first()[i]) == om[i + 1]);
    }
    let rem = first.quantity - first.filled;
    if rem <= want {
        let take = rem;
        let new_tid = tid + 1;
        let fill = OrderbookFill {
            fill: InternalFill::new(first.price, take, new_tid),
            other_user_id: first.user_id.clone(),
            marker_order_id: first.order_id.clone(),
        };
        proof {
            lemma_match_level_props(om.drop_first(), want - take, new_tid as int);
        }
        let (mut fills, consumed2, tid2) = match_level(orders, want - take, new_tid);
        fills.insert(0, fill);
        proof {
            let m = spec_match_level(om, want as int, tid as int);
            let rest = spec_match_level(om.drop_first(), (want - take) as int, new_tid as int);
            assert(fill_models(fills@) =~= seq![fill@] + rest.fills);
            assert(m.fills =~= seq![fill@] + rest.fills) by {
                assert(fill@ =~= m.fills[0]);
                assert(m.fills =~= seq![m.fills[0]] + rest.fills);
            }
        }
        (fills, take + consumed2, tid2)
    } else {
        let take = want;
        let new_tid = tid + 1;
        let fill = OrderbookFill {
            fill: InternalFill::new(first.price, take, new_tid),
            other_user_id: first.user_id.clone(),
            marker_order_id: first.order_id.clone(),
        };
        let mut upd = first;
        upd.filled = upd.filled + take;
        orders.insert(0, upd);
        let mut fills: Vec<OrderbookFill> = Vec::new();
        fills.push(fill);
        proof {
            let m = spec_match_level(om, want as int, tid as int);
            assert(order_models(orders@) =~= seq![upd@] + om.drop_first());
            assert(upd@ =~= (OrderModel { filled: om[0].filled + take, ..om[0] }));
            assert(order_models(orders@) =~= m.orders);
            assert(fill_models(fills@) =~= m.fills) by {
                assert(fill@ =~= m.fills[0]);
                assert(fill_models(fills@)[0] == fill@);
            }
        }
        (fills, take, new_tid)
    }
}

/// What matching a taker against a whole side does: walk levels best price
/// first while they satisfy the limit, consuming each level's queue FIFO;
/// drop emptied levels; leave a partially consumed level in front.
#[verifier::ext_equal]
pub ghost struct SideMatch {
    pub fills: Seq<FillModel>,
    pub levels: Seq<LevelModel>,
    pub executed: int,
    pub next_tid: int,
}

pub open spec fn spec_match_side(
    levels: Seq<LevelModel>,
    limit: int,
    want: int,
    tid: int,
    maker_side: Side,
) -> SideMatch
    decreases levels.len(),
{
    if levels.len() == 0 || !price_ok(maker_side, levels[0].price, limit) || want <= 0 {
        SideMatch { fills: Seq::empty(), levels, executed: 0, next_tid: tid }
    } else {
        let lm = spec_match_level(levels[0].orders, want, tid);
        if lm.orders.len() == 0 {
            let rest = spec_match_side(
                levels.drop_first(),
                limit,
                want - lm.consumed,
                lm.next_tid,
                maker_side,
            );
            SideMatch {
                fills: lm.fills + rest.fills,
                levels: rest.levels,
                executed: lm.consumed + rest.executed,
                next_tid: rest.next_tid,
            }
        } else {
            SideMatch {
                fills: lm.fills,
                levels: seq![
                    LevelModel {
                        price: levels[0].price,
                        depth: sum_remaining(lm.orders),
                        orders: lm.orders,
                    },
                ] + levels.drop_first(),
                executed: lm.consumed,
                next_tid: lm.next_tid,
            }
        }
    }
}

/// What matching against one side establishes.
#[verifier::rlimit(100)]
pub proof fn lemma_match_side_props(
    levels: Seq<LevelModel>,
    limit: int,
    want: int,
    tid: int,
    maker_side: Side,
)
    requires
        want >= 0,
        wf_side(maker_side, levels),
        ids_distinct_side(levels),
    ensures
        ({
            let m = spec_match_side(levels, limit, want, tid, maker_side);
            let k = levels.len() - m.levels.len();
            &&& 0 <= m.executed <= want
            &&& m.next_tid == tid + m.fills.len()
            &&& m.fills.len() <= m.executed
            &&& 0 <= k <= levels.len()
            &&& forall|j: int| 1 <= j < m.levels.len() ==> (#[trigger] m.levels[j]) == levels[k + j]
            &&& (m.levels.len() > 0 ==> m.levels[0].price == levels[k as int].price)
            &&& wf_side(maker_side, m.levels)
            &&& ids_distinct_side(m.levels)
            &&& forall|lj: int, pj: int|
                0 <= lj < m.levels.len() && 0 <= pj < m.levels[lj].orders.len() ==> has_id(
                    levels,
                    (#[trigger] m.levels[lj].orders[pj]).order_id,
                )
            &&& (m.executed < want ==> m.levels.len() == 0 || !price_ok(
                maker_side,
                m.levels[0].price,
                limit,
            ))
            &&& forall|i: int|
                0 <= i < m.fills.len() ==> {
                    let f = #[trigger] m.fills[i];
                    &&& f.qty >= 1
                    &&& price_ok(maker_side, f.price, limit)
                    &&& f.trade_id == tid + 1 + i
                }
            &&& sum_qty(m.fills) == m.executed
        }),
    decreases levels.len(),
{
    let m = spec_match_side(levels, limit, want, tid, maker_side);
    if levels.len() == 0 || !price_ok(maker_side, levels[0].price, limit) || want <= 0 {
        assert(sum_qty(m.fills) == 0);
    } else {
        assert(wf_level(levels[0], maker_side));
        lemma_match_level_props(levels[0].orders, want, tid);
        let lm = spec_match_level(levels[0].orders, want, tid);
        let tail = levels.drop_first();
        assert(forall|i: int| 0 <= i < tail.len() ==> (#[trigger] tail[i]) == levels[i + 1]);
        assert(wf_side(maker_side, tail));
        assert(ids_distinct_side(tail));
        if lm.orders.len() == 0 {
            lemma_match_side_props(tail, limit, want - lm.consumed, lm.next_tid, maker_side);
            let rest = spec_match_side(tail, limit, want - lm.consumed, lm.next_tid, maker_side);
            let k = levels.len() - m.levels.len();
            let kt = tail.len() - rest.levels.len();
            assert(m.levels == rest.levels);
            assert(k == kt + 1);
            assert forall|j: int| 1 <= j < m.levels.len() implies (#[trigger] m.levels[j])
                == levels[k + j] by {
                assert(rest.levels[j] == tail[kt + j]);
                assert(tail[kt + j] == levels[kt + j + 1]);
            }
            if m.levels.len() > 0 {
                assert(rest.levels[0].price == tail[kt as int].price);
                assert(tail[kt as int] == levels[k as int]);
            }
            assert forall|lj: int, pj: int|
                0 <= lj < m.levels.len() && 0 <= pj < m.levels[lj].orders.len() implies has_id(
                levels,
                (#[trigger] m.levels[lj].orders[pj]).order_id,
            ) by {
                assert(has_id(tail, m.levels[lj].orders[pj].order_id));
                let (lt, pt) = choose|lt: int, pt: int|
                    0 <= lt < tail.len() && 0 <= pt < tail[lt].orders.len()
                        && (#[trigger] tail[lt].orders[pt]).order_id == m.levels[lj].orders[
                        pj
                    ].order_id;
                assert(levels[lt + 1].orders[pt].order_id == m.levels[lj].orders[pj].order_id);
            }
            assert(m.fills == lm.fills + rest.fills);
            assert forall|i: int| 0 <= i < m.fills.len() implies {
                let f = #[trigger] m.fills[i];
                &&& f.qty >= 1
                &&& price_ok(maker_side, f.price, limit)
                &&& f.trade_id == tid + 1 + i
            } by {
                if i < lm.fills.len() {
                    assert(m.fills[i] == lm.fills[i]);
                    assert(lm.fills[i].price == levels[0].orders[i].price);
                    assert(levels[0].orders[i].price == levels[0].price);
                } else {
                    assert(m.fills[i] == rest.fills[i - lm.fills.len()]);
                }
            }
            lemma_sum_qty_concat(lm.fills, rest.fills);
        } else {
            let k = levels.len() - m.levels.len();
            assert(k == 0);
            let nl = LevelModel {
                price: levels[0].price,
                depth: sum_remaining(lm.orders),
                orders: lm.orders,
            };
            assert(m.levels == seq![nl] + tail);
            assert(m.levels[0] == nl);
            assert(forall|j: int|
                1 <= j < m.levels.len() ==> (#[trigger] m.levels[j]) == tail[j - 1]);
            assert(wf_level(nl, maker_side)) by {
                assert(forall|i: int|
                    0 <= i < lm.orders.len() ==> ((#[trigger] lm.orders[i]).valid()
                        && lm.orders[i].filled < lm.orders[i].quantity));
                assert forall|i: int| 0 <= i < lm.orders.len() implies (
                #[trigger] lm.orders[i]).price == nl.price && lm.orders[i].side == maker_side by {
                    if i == 0 {
                        assert(lm.orders[0].price == levels[0].orders[
                            lm.removed.len() as int
                        ].price);
                        assert(lm.orders[0].side == levels[0].orders[lm.removed.len() as int].side);
                    } else {
                        assert(lm.orders[i] == levels[0].orders[lm.removed.len() + i]);
                    }
                }
            }
            assert(wf_side(maker_side, m.levels)) by {
                assert forall|i: int, j: int| 0 <= i < j < m.levels.len() implies price_better(
                    maker_side,
                    (#[trigger] m.levels[i]).price,
                    (#[trigger] m.levels[j]).price,
                ) by {
                    if i == 0 {
                        assert(m.levels[j] == levels[j]);
                        assert(price_better(maker_side, levels[0].price, levels[j].price));
                    } else {
                        assert(m.levels[i] == levels[i]);
                        assert(m.levels[j] == levels[j]);
                    }
                }
                assert forall|i: int| 0 <= i < m.levels.len() implies wf_level(
                    #[trigger] m.levels[i],
                    maker_side,
                ) by {
                    if i > 0 {
                        assert(m.levels[i] == levels[i]);
                    }
                }
            }
            // each remaining front order keeps an id that was already there
            assert forall|lj: int, pj: int|
                0 <= lj < m.levels.len() && 0 <= pj < m.levels[lj].orders.len() implies has_id(
                levels,
                (#[trigger] m.levels[lj].orders[pj]).order_id,
            ) by {
                if lj == 0 {
                    if pj == 0 {
                        assert(m.levels[0].orders[0].order_id == levels[0].orders[
                            lm.removed.len() as int
                        ].order_id);
                    } else {
                        assert(m.levels[0].orders[pj] == levels[0].orders[lm.removed.len() + pj]);
                    }
                } else {
                    assert(m.levels[lj] == levels[lj]);
                }
            }
            assert(ids_distinct_side(m.levels)) by {
                assert forall|li: int, pi: int, lj: int, pj: int|
                    0 <= li < m.levels.len() && 0 <= pi < m.levels[li].orders.len() && 0 <= lj
                        < m.levels.len() && 0 <= pj < m.levels[lj].orders.len() && (li != lj || pi
                        != pj) implies (#[trigger] m.levels[li].orders[pi]).order_id != (
                    #[trigger] m.levels[lj].orders[pj]).order_id by {
                    let d = lm.removed.len() as int;
                    let oi = if li == 0 {
                        levels[0].orders[d + pi]
                    } else {
                        levels[li].orders[pi]
                    };
                    let oj = if lj == 0 {
                        levels[0].orders[d + pj]
                    } else {
                        levels[lj].orders[pj]
                    };
                    assert(m.levels[li].orders[pi].order_id == oi.order_id) by {
                        if li == 0 && pi == 0 {
                            assert(m.levels[0].orders[0].order_id == levels[0].orders[d].order_id);
                        } else if li == 0 {
                            assert(m.levels[0].orders[pi] == levels[0].orders[d + pi]);
                        } else {
                            assert(m.levels[li] == levels[li]);
                        }
                    }
                    assert(m.levels[lj].orders[pj].order_id == oj.order_id) by {
                        if lj == 0 && pj == 0 {
                            assert(m.levels[0].orders[0].order_id == levels[0].orders[d].order_id);
                        } else if lj == 0 {
                            assert(m.levels[0].orders[pj] == levels[0].orders[d + pj]);
                        } else {
                            assert(m.levels[lj] == levels[lj]);
                        }
                    }
                }
            }
            assert forall|i: int| 0 <= i < m.fills.len() implies {
                let f = #[trigger] m.fills[i];
                &&& f.qty >= 1
                &&& price_ok(maker_side, f.price, limit)
                &&& f.trade_id == tid + 1 + i
            } by {
                assert(m.fills[i] == lm.fills[i]);
                assert(lm.fills[i].price == levels[0].orders[i].price);
                assert(levels[0].orders[i].price == levels[0].price);
            }
        }
    }
}

pub proof fn lemma_sum_qty_concat(a: Seq<FillModel>, b: Seq<FillModel>)
    ensures
        sum_qty(a + b) == sum_qty(a) + sum_qty(b),
    decreases a.len(),
{
    if a.len() == 0 {
        assert(a + b =~= b);
    } else {
        assert((a + b).drop_first() =~= a.drop_first() + b);
        assert((a + b)[0] == a[0]);
        lemma_sum_qty_concat(a.drop_first(), b);
    }
}

/// Matches a taker for `want` units against one side of the book, in place.
fn match_side(levels: &mut Vec<Level>, limit: u64, want: u64, tid: u64, maker_side: Side) -> (r: (
    Vec<OrderbookFill>,
    u64,
    u64,
))
    requires
        tid + want <= u64::MAX,
        wf_side(maker_side, level_models(old(levels)@)),
        ids_distinct_side(level_models(old(levels)@)),
    ensures
        ({
            let m = spec_match_side(
                level_models(old(levels)@),
                limit as int,
                want as int,
                tid as int,
                maker_side,
            );
            &&& level_models(final(levels)@) == m.levels
            &&& fill_models(r.0@) == m.fills
            &&& r.1 == m.executed
            &&& r.2 == m.next_tid
        }),
    decreases old(levels)@.len(),
{
    let ghost lvm = level_models(old(levels)@);
    proof {
        lemma_match_side_props(lvm, limit as int, want as int, tid as int, maker_side);
    }
    if levels.len() == 0 {
        proof {
            assert(fill_models(Seq::<OrderbookFill>::empty()) =~= Seq::<FillModel>::empty());
        }
        return (Vec::new(), 0, tid);
    }
    let lp = levels[0].price;
    let eligible = match maker_side {
        Side::Buy => lp >= limit,
        Side::Sell => lp <= limit,
    };
    if !eligible || want == 0 {
        proof {
            assert(fill_models(Seq::<OrderbookFill>::empty()) =~= Seq::<FillModel>::empty());
        }
        return (Vec::new(), 0, tid);
    }
    let mut lv = levels.remove(0);
    proof {
        assert(lv@ == lvm[0]);
        assert(level_models(levels@) =~= lvm.drop_first());
        assert(wf_level(lvm[0], maker_side));
        assert(forall|i: int|
            0 <= i < lvm.drop_first().len() ==> (#[trigger] lvm.drop_first()[i]) == lvm[i + 1]);
        lemma_match_level_props(lvm[0].orders, want as int, tid as int);
    }
    let (mut fills, consumed, tid1) = match_level(&mut lv.orders, want, tid);
    let ghost lm = spec_match_level(lvm[0].orders, want as int, tid as int);
    if lv.orders.len() == 0 {
        // the level is spent; drop it and walk on
        proof {
            assert(wf_side(maker_side, level_models(levels@)));
            assert(ids_distinct_side(level_models(levels@)));
            lemma_match_side_props(
                lvm.drop_first(),
                limit as int,
                (want - consumed) as int,
                tid1 as int,
                maker_side,
            );
        }
        let (mut rfills, rex, tid2) = match_side(levels, limit, want - consumed, tid1, maker_side);
        let ghost rest = spec_match_side(
            lvm.drop_first(),
            limit as int,
            (want - consumed) as int,
            tid1 as int,
            maker_side,
        );
        fills.append(&mut rfills);
        proof {
            let m = spec_match_side(lvm, limit as int, want as int, tid as int, maker_side);
            assert(fill_models(fills@) =~= lm.fills + rest.fills);
            assert(m.fills == lm.fills + rest.fills);
        }
        (fills, consumed + rex, tid2)
    } else {
        proof {
            let m = spec_match_side(lvm, limit as int, want as int, tid as int, maker_side);
            assert(sum_remaining(lm.orders) == sum_remaining(lvm[0].orders) - lm.consumed);
            assert(lvm[0].depth == sum_remaining(lvm[0].orders));
            lemma_sum_remaining_nonneg(lm.orders);
        }
        lv.depth = lv.depth - consumed;
        levels.insert(0, lv);
        proof {
            let m = spec_match_side(lvm, limit as int, want as int, tid as int, maker_side);
            assert(lv@ =~~= (LevelModel {
                price: lvm[0].price,
                depth: sum_remaining(lm.orders),
                orders: lm.orders,
            }));
            assert(level_models(levels@) =~~= m.levels);
        }
        (fills, consumed, tid1)
    }
}

/// The aggregate remaining quantity of valid orders is never negative.
pub proof fn lemma_sum_remaining_nonneg(orders: Seq<OrderModel>)
    requires
        forall|i: int| 0 <= i < orders.len() ==> (#[trigger] orders[i]).valid(),
    ensures
        sum_remaining(orders) >= 0,
    decreases orders.len(),
{
    if orders.len() > 0 {
        assert(forall|i: int|
            0 <= i < orders.drop_first().len() ==> (#[trigger] orders.drop_first()[i]) == orders[
                i + 1
            ]);
        lemma_sum_remaining_nonneg(orders.drop_first());
    }
}

/// Collects one index entry per resting order on one side, in book order.
fn index_entries_for_side(levels: &Vec<Level>, side: Side, out: &mut Vec<IndexEntry>)
    requires
        ids_distinct_side(level_models(levels@)),
        old(out)@.len() == 0,
    ensures
        ({
            let lm = level_models(levels@);
            let em = final(out)@.map_values(|e: IndexEntry| e@);
            &&& forall|k: int|
                0 <= k < em.len() ==> (#[trigger] em[k]).side == side && resting_at(
                    lm,
                    em[k].order_id,
                    em[k].price,
                )
            &&& forall|li: int, pi: int|
                0 <= li < lm.len() && 0 <= pi < lm[li].orders.len() ==> indexed(
                    em,
                    (#[trigger] lm[li].orders[pi]).order_id,
                    lm[li].price,
                    side,
                )
            &&& forall|k1: int, k2: int|
                0 <= k1 < k2 < em.len() ==> (#[trigger] em[k1]).order_id != (
                #[trigger] em[k2]).order_id
        }),
{
    let ghost lm = level_models(levels@);
    let mut li: usize = 0;
    while li < levels.len()
        invariant
            lm == level_models(levels@),
            ids_distinct_side(lm),
            0 <= li <= levels@.len(),
            lm.len() == levels@.len(),
            ({
                let em = out@.map_values(|e: IndexEntry| e@);
                // every entry so far names an order in an already finished level
                &&& forall|k: int|
                    0 <= k < em.len() ==> (#[trigger] em[k]).side == side && (exists|
                        lj: int,
                        pj: int,
                    |
                        0 <= lj < li && 0 <= pj < lm[lj].orders.len() && lm[lj].price == em[k].price
                            && (#[trigger] lm[lj].orders[pj]).order_id == em[k].order_id)
                &&& forall|lj: int, pj: int|
                    0 <= lj < li && 0 <= pj < lm[lj].orders.len() ==> indexed(
                        em,
                        (#[trigger] lm[lj].orders[pj]).order_id,
                        lm[lj].price,
                        side,
                    )
                &&& forall|k1: int, k2: int|
                    0 <= k1 < k2 < em.len() ==> (#[trigger] em[k1]).order_id != (
                    #[trigger] em[k2]).order_id
            }),
        decreases levels@.len() - li,
    {
        let orders = &levels[li].orders;
        let price = levels[li].price;
        let mut pi: usize = 0;
        while pi < orders.len()
            invariant
                lm == level_models(levels@),
                ids_distinct_side(lm),
                0 <= li < levels@.len(),
                lm.len() == levels@.len(),
                0 <= pi <= orders@.len(),
                orders@.map_values(|o: Order| o@) == lm[li as int].orders,
                price as int == lm[li as int].price,
                ({
                    let em = out@.map_values(|e: IndexEntry| e@);
                    &&& forall|k: int|
                        0 <= k < em.len() ==> (#[trigger] em[k]).side == side && (exists|
                            lj: int,
                            pj: int,
                        |
                            0 <= lj <= li && 0 <= pj < lm[lj].orders.len() && (lj < li || pj < pi)
                                && lm[lj].price == em[k].price && (
                            #[trigger] lm[lj].orders[pj]).order_id == em[k].order_id)
                    &&& forall|lj: int, pj: int|
                        0 <= lj < li && 0 <= pj < lm[lj].orders.len() ==> indexed(
                            em,
                            (#[trigger] lm[lj].orders[pj]).order_id,
                            lm[lj].price,
                            side,
                        )
                    &&& forall|pj: int|
                        0 <= pj < pi ==> indexed(
                            em,
                            (#[trigger] lm[li as int].orders[pj]).order_id,
                            lm[li as int].price,
                            side,
                        )
                    &&& forall|k1: int, k2: int|
                        0 <= k1 < k2 < em.len() ==> (#[trigger] em[k1]).order_id != (
                        #[trigger] em[k2]).order_id
                }),
            decreases orders@.len() - pi,
        {
            let ghost em0 = out@.map_values(|e: IndexEntry| e@);
            let e = IndexEntry {
                order_id: orders[pi].order_id.clone(),
                price,
                side,
            };
            proof {
                assert(e@.order_id == lm[li as int].orders[pi as int].order_id);
            }
            out.push(e);
            proof {
                let em = out@.map_values(|ee: IndexEntry| ee@);
                assert(em =~~= em0.push(e@));
                assert(em[em0.len() as int] == e@);
                assert forall|k: int| 0 <= k < em.len() implies (#[trigger] em[k]).side == side
                    && (exists|lj: int, pj: int|
                    0 <= lj <= li && 0 <= pj < lm[lj].orders.len() && (lj < li || pj < pi + 1)
                        && lm[lj].price == em[k].price && (#[trigger] lm[lj].orders[pj]).order_id
                        == em[k].order_id) by {
                    if k < em0.len() {
                        assert(em[k] == em0[k]);
                        let (lj, pj) = choose|lj: int, pj: int|
                            0 <= lj <= li && 0 <= pj < lm[lj].orders.len() && (lj < li || pj < pi)
                                && lm[lj].price == em0[k].price && (
                            #[trigger] lm[lj].orders[pj]).order_id == em0[k].order_id;
                        assert(0 <= lj <= li && 0 <= pj < lm[lj].orders.len() && (lj < li || pj < pi
                            + 1) && lm[lj].price == em[k].price && lm[lj].orders[pj].order_id
                            == em[k].order_id);
                    } else {
                        assert(0 <= (li as int) <= li && 0 <= (pi as int)
                            < lm[li as int].orders.len() && (pi as int) < pi + 1
                            && lm[li as int].price == em[k].price
                            && lm[li as int].orders[pi as int].order_id == em[k].order_id);
                    }
                }
                assert forall|lj: int, pj: int|
                    0 <= lj < li && 0 <= pj < lm[lj].orders.len() implies indexed(
                    em,
                    (#[trigger] lm[lj].orders[pj]).order_id,
                    lm[lj].price,
                    side,
                ) by {
                    assert(indexed(em0, lm[lj].orders[pj].order_id, lm[lj].price, side));
                    let k = choose|k: int|
                        0 <= k < em0.len() && (#[trigger] em0[k]).order_id == lm[lj].orders[
                            pj
                        ].order_id && em0[k].price == lm[lj].price && em0[k].side == side;
                    assert(em[k] == em0[k]);
                }
                assert forall|pj: int| 0 <= pj < pi + 1 implies indexed(
                    em,
                    (#[trigger] lm[li as int].orders[pj]).order_id,
                    lm[li as int].price,
                    side,
                ) by {
                    if pj < pi {
                        assert(indexed(em0, lm[li as int].orders[pj].order_id,
                            lm[li as int].price, side));
                        let k = choose|k: int|
                            0 <= k < em0.len() && (#[trigger] em0[k]).order_id == lm[
                                li as int
                            ].orders[pj].order_id && em0[k].price == lm[li as int].price && em0[
                                k
                            ].side == side;
                        assert(em[k] == em0[k]);
                    } else {
                        assert(em[em0.len() as int].order_id == lm[li as int].orders[pj].order_id);
                    }
                }
                // the new entry's id differs from every entry already present
                assert forall|k1: int, k2: int| 0 <= k1 < k2 < em.len() implies (
                #[trigger] em[k1]).order_id != (#[trigger] em[k2]).order_id by {
                    if k2 == em0.len() {
                        assert(em[k1] == em0[k1]);
                        let (lj, pj) = choose|lj: int, pj: int|
                            0 <= lj <= li && 0 <= pj < lm[lj].orders.len() && (lj < li || pj < pi)
                                && lm[lj].price == em0[k1].price && (
                            #[trigger] lm[lj].orders[pj]).order_id == em0[k1].order_id;
                        assert(lm[lj].orders[pj].order_id != lm[li as int].orders[
                            pi as int
                        ].order_id);
                    } else {
                        assert(em[k1] == em0[k1]);
                        assert(em[k2] == em0[k2]);
                    }
                }
            }
            pi = pi + 1;
        }
        li = li + 1;
    }
    proof {
        let em = out@.map_values(|e: IndexEntry| e@);
        assert forall|k: int| 0 <= k < em.len() implies (#[trigger] em[k]).side == side
            && resting_at(lm, em[k].order_id, em[k].price) by {
            let (lj, pj) = choose|lj: int, pj: int|
                0 <= lj < li && 0 <= pj < lm[lj].orders.len() && lm[lj].price == em[k].price && (
                #[trigger] lm[lj].orders[pj]).order_id == em[k].order_id;
            assert(resting_at(lm, em[k].order_id, em[k].price));
        }
    }
}

pub proof fn lemma_sum_remaining_update(s: Seq<OrderModel>, i: int, v: OrderModel)
    requires
        0 <= i < s.len(),
    ensures
        sum_remaining(s.update(i, v)) == sum_remaining(s) - s[i].remaining() + v.remaining(),
    decreases s.len(),
{
    let t = s.update(i, v);
    if i == 0 {
        assert(t[0] == v);
        assert(t.drop_first() =~= s.drop_first());
    } else {
        assert(t[0] == s[0]);
        assert(t.drop_first() =~= s.drop_first().update(i - 1, v));
        lemma_sum_remaining_update(s.drop_first(), i - 1, v);
    }
}

pub proof fn lemma_sum_remaining_drop_last(s: Seq<OrderModel>)
    requires
        s.len() > 0,
    ensures
        sum_remaining(s.drop_last()) == sum_remaining(s) - s.last().remaining(),
{
    assert(s =~= s.drop_last().push(s.last()));
    lemma_sum_remaining_push(s.drop_last(), s.last());
}

/// Swap-removing position `i` lowers the aggregate by that order's
/// remaining quantity.
pub proof fn lemma_sum_remaining_swap_remove(s: Seq<OrderModel>, i: int)
    requires
        0 <= i < s.len(),
    ensures
        sum_remaining(s.update(i, s.last()).drop_last()) == sum_remaining(s) - s[i].remaining(),
{
    let t = s.update(i, s.last());
    lemma_sum_remaining_update(s, i, s.last());
    assert(t.last() == if i == s.len() - 1 {
        s.last()
    } else {
        s.last()
    });
    lemma_sum_remaining_drop_last(t);
}

/// A non-empty queue of partially unfilled orders has positive depth.
pub proof fn lemma_sum_remaining_min_one(s: Seq<OrderModel>)
    requires
        s.len() > 0,
        forall|i: int|
            0 <= i < s.len() ==> (#[trigger] s[i]).valid() && s[i].filled < s[i].quantity,
    ensures
        sum_remaining(s) >= 1,
{
    assert(forall|i: int|
        0 <= i < s.drop_first().len() ==> (#[trigger] s.drop_first()[i]) == s[i + 1]);
    lemma_sum_remaining_nonneg(s.drop_first());
}

/// The aggregate covers each single order's remaining quantity.
pub proof fn lemma_sum_remaining_lower(s: Seq<OrderModel>, i: int)
    requires
        0 <= i < s.len(),
        forall|j: int| 0 <= j < s.len() ==> (#[trigger] s[j]).valid(),
    ensures
        sum_remaining(s) >= s[i].remaining(),
    decreases s.len(),
{
    assert(forall|j: int|
        0 <= j < s.drop_first().len() ==> (#[trigger] s.drop_first()[j]) == s[j + 1]);
    if i == 0 {
        lemma_sum_remaining_nonneg(s.drop_first());
    } else {
        lemma_sum_remaining_lower(s.drop_first(), i - 1);
    }
}

/// Removing one resting order keeps the side well formed.
#[verifier::rlimit(100)]
pub proof fn lemma_remove_order_wf(levels: Seq<LevelModel>, li: int, pi: int, side: Side)
    requires
        wf_side(side, levels),
        ids_distinct_side(levels),
        0 <= li < levels.len(),
        0 <= pi < levels[li].orders.len(),
    ensures
        ({
            let r = Orderbook::spec_remove_order(levels, li, pi);
            &&& wf_side(side, r)
            &&& ids_distinct_side(r)
            &&& forall|lj: int, pj: int|
                0 <= lj < r.len() && 0 <= pj < r[lj].orders.len() ==> has_id(
                    levels,
                    (#[trigger] r[lj].orders[pj]).order_id,
                )
            &&& (r.len() > 0 ==> (r[0].price == levels[0].price || price_better(
                side,
                levels[0].price,
                r[0].price,
            )))
        }),
{
    let l = levels[li];
    assert(wf_level(l, side));
    let orders2 = l.orders.update(pi, l.orders.last()).drop_last();
    lemma_sum_remaining_swap_remove(l.orders, pi);
    let r = Orderbook::spec_remove_order(levels, li, pi);
    // each surviving position in the touched level maps to an old position
    assert forall|pj: int| 0 <= pj < orders2.len() implies exists|p0: int|
        0 <= p0 < l.orders.len() && (#[trigger] orders2[pj]) == l.orders[p0] by {
        if pj == pi {
            assert(orders2[pj] == l.orders[l.orders.len() - 1]);
        } else {
            assert(orders2[pj] == l.orders[pj]);
        }
    }
    if orders2.len() == 0 {
        assert(r =~= levels.remove(li));
        assert(forall|j: int|
            0 <= j < li ==> (#[trigger] r[j]) == levels[j]);
        assert(forall|j: int|
            li <= j < r.len() ==> (#[trigger] r[j]) == levels[j + 1]);
        assert forall|i: int, j: int| 0 <= i < j < r.len() implies price_better(
            side,
            (#[trigger] r[i]).price,
            (#[trigger] r[j]).price,
        ) by {
            let i0 = if i < li {
                i
            } else {
                i + 1
            };
            let j0 = if j < li {
                j
            } else {
                j + 1
            };
            assert(r[i] == levels[i0]);
            assert(r[j] == levels[j0]);
        }
        assert forall|lj: int, pj: int|
            0 <= lj < r.len() && 0 <= pj < r[lj].orders.len() implies has_id(
            levels,
            (#[trigger] r[lj].orders[pj]).order_id,
        ) by {
            let l0 = if lj < li {
                lj
            } else {
                lj + 1
            };
            assert(r[lj] == levels[l0]);
        }
        assert forall|la: int, pa: int, lb: int, pb: int|
            0 <= la < r.len() && 0 <= pa < r[la].orders.len() && 0 <= lb < r.len() && 0 <= pb
                < r[lb].orders.len() && (la != lb || pa != pb) implies (
        #[trigger] r[la].orders[pa]).order_id != (#[trigger] r[lb].orders[pb]).order_id by {
            let a0 = if la < li {
                la
            } else {
                la + 1
            };
            let b0 = if lb < li {
                lb
            } else {
                lb + 1
            };
            assert(r[la] == levels[a0]);
            assert(r[lb] == levels[b0]);
        }
    } else {
        let nl = LevelModel {
            price: l.price,
            depth: l.depth - l.orders[pi].remaining(),
            orders: orders2,
        };
        assert(r =~= levels.update(li, nl));
        assert(forall|j: int|
            0 <= j < r.len() && j != li ==> (#[trigger] r[j]) == levels[j]);
        assert(r[li] == nl);
        assert(wf_level(nl, side)) by {
            assert forall|pj: int| 0 <= pj < orders2.len() implies {
                &&& (#[trigger] orders2[pj]).valid()
                &&& orders2[pj].price == nl.price
                &&& orders2[pj].side == side
                &&& orders2[pj].filled < orders2[pj].quantity
            } by {
                if pj == pi {
                    assert(orders2[pj] == l.orders[l.orders.len() - 1]);
                } else {
                    assert(orders2[pj] == l.orders[pj]);
                }
            }
        }
        assert forall|i: int, j: int| 0 <= i < j < r.len() implies price_better(
            side,
            (#[trigger] r[i]).price,
            (#[trigger] r[j]).price,
        ) by {
            assert(r[i].price == levels[i].price);
            assert(r[j].price == levels[j].price);
        }
        assert forall|lj: int, pj: int|
            0 <= lj < r.len() && 0 <= pj < r[lj].orders.len() implies has_id(
            levels,
            (#[trigger] r[lj].orders[pj]).order_id,
        ) by {
            if lj == li {
                if pj == pi {
                    assert(r[lj].orders[pj] == l.orders[l.orders.len() - 1]);
                    assert(levels[li].orders[l.orders.len() - 1].order_id == r[lj].orders[
                        pj
                    ].order_id);
                } else {
                    assert(r[lj].orders[pj] == l.orders[pj]);
                }
            } else {
                assert(r[lj] == levels[lj]);
            }
        }
        assert forall|la: int, pa: int, lb: int, pb: int|
            0 <= la < r.len() && 0 <= pa < r[la].orders.len() && 0 <= lb < r.len() && 0 <= pb
                < r[lb].orders.len() && (la != lb || pa != pb) implies (
        #[trigger] r[la].orders[pa]).order_id != (#[trigger] r[lb].orders[pb]).order_id by {
            let pa0 = if la == li && pa == pi {
                l.orders.len() - 1
            } else {
                pa
            };
            let pb0 = if lb == li && pb == pi {
                l.orders.len() - 1
            } else {
                pb
            };
            assert(r[la].orders[pa] == levels[la].orders[pa0]);
            assert(r[lb].orders[pb] == levels[lb].orders[pb0]);
            if la == lb && pa0 == pb0 {
                // both map to the moved last order: impossible for distinct slots
                assert(pa != pb);
                assert(pa == pi || pb == pi);
                assert(pa0 == l.orders.len() - 1 && pb0 == l.orders.len() - 1);
                assert(pa < orders2.len() && pb < orders2.len());
                assert(false);
            }
        }
    }
}

/// The first level priced `p` gives the cached depth.
proof fn lemma_depth_at_found(lm: Seq<LevelModel>, p: int, k: int)
    requires
        0 <= k < lm.len(),
        lm[k].price == p,
        forall|j: int| 0 <= j < k ==> (#[trigger] lm[j]).price != p,
    ensures
        Orderbook::depth_at(lm, p) == lm[k].depth,
    decreases k,
{
    if k > 0 {
        assert(forall|j: int|
            0 <= j < lm.drop_first().len() ==> (#[trigger] lm.drop_first()[j]) == lm[j + 1]);
        lemma_depth_at_found(lm.drop_first(), p, k - 1);
    }
}

/// With no level priced `p`, the cached depth reads zero.
proof fn lemma_depth_at_missing(lm: Seq<LevelModel>, p: int)
    requires
        forall|j: int| 0 <= j < lm.len() ==> (#[trigger] lm[j]).price != p,
    ensures
        Orderbook::depth_at(lm, p) == 0,
    decreases lm.len(),
{
    if lm.len() > 0 {
        assert(forall|j: int|
            0 <= j < lm.drop_first().len() ==> (#[trigger] lm.drop_first()[j]) == lm[j + 1]);
        lemma_depth_at_missing(lm.drop_first(), p);
    }
}

/// One more order extends the filtered prefix by at most itself.
proof fn lemma_user_orders_take_step(om: Seq<OrderModel>, user: Seq<char>, pi: int)
    requires
        0 <= pi < om.len(),
    ensures
        Orderbook::user_orders(om.take(pi + 1), user) == Orderbook::user_orders(om.take(pi), user)
            + (if om[pi].user_id == user {
            seq![om[pi]]
        } else {
            Seq::<OrderModel>::empty()
        }),
    decreases pi,
{
    let a = om.take(pi + 1);
    let b = om.take(pi);
    if pi == 0 {
        assert(a.drop_first() =~= Seq::<OrderModel>::empty());
        if om[0].user_id == user {
            assert(Orderbook::user_orders(a, user) =~= seq![om[0]]);
            assert(Orderbook::user_orders(b, user) =~= Seq::<OrderModel>::empty());
        } else {
            assert(Orderbook::user_orders(a, user) =~= Seq::<OrderModel>::empty());
            assert(Orderbook::user_orders(b, user) =~= Seq::<OrderModel>::empty());
        }
        assert(Orderbook::user_orders(a, user) =~= Orderbook::user_orders(b, user) + (if om[
            pi
        ].user_id == user {
            seq![om[pi]]
        } else {
            Seq::<OrderModel>::empty()
        }));
    } else {
        lemma_user_orders_take_step(om.drop_first(), user, pi - 1);
        assert(a[0] == om[0]);
        assert(b[0] == om[0]);
        assert(a.drop_first() =~= om.drop_first().take(pi));
        assert(b.drop_first() =~= om.drop_first().take(pi - 1));
        assert(om.drop_first()[pi - 1] == om[pi]);
        assert(Orderbook::user_orders(a, user) =~= (if om[0].user_id == user {
            seq![om[0]]
        } else {
            Seq::<OrderModel>::empty()
        }) + Orderbook::user_orders(a.drop_first(), user));
        assert(Orderbook::user_orders(b, user) =~= (if om[0].user_id == user {
            seq![om[0]]
        } else {
            Seq::<OrderModel>::empty()
        }) + Orderbook::user_orders(b.drop_first(), user));
        assert(Orderbook::user_orders(a, user) =~= Orderbook::user_orders(b, user) + (if om[
            pi
        ].user_id == user {
            seq![om[pi]]
        } else {
            Seq::<OrderModel>::empty()
        }));
    }
}

/// One more level extends the open-order listing by that level's part.
proof fn lemma_open_orders_take_step(lm: Seq<LevelModel>, user: Seq<char>, li: int)
    requires
        0 <= li < lm.len(),
    ensures
        Orderbook::open_orders_spec(lm.take(li + 1), user) == Orderbook::open_orders_spec(
            lm.take(li),
            user,
        ) + Orderbook::user_orders(lm[li].orders, user),
    decreases li,
{
    let a = lm.take(li + 1);
    let b = lm.take(li);
    if li == 0 {
        assert(a.len() == 1);
        assert(a[0] == lm[0]);
        assert(a.drop_first() =~= Seq::<LevelModel>::empty());
        assert(Orderbook::open_orders_spec(a, user) == Orderbook::user_orders(a[0].orders, user)
            + Orderbook::open_orders_spec(a.drop_first(), user));
        assert(Orderbook::open_orders_spec(a.drop_first(), user) =~= Seq::<OrderModel>::empty());
        assert(Orderbook::open_orders_spec(a, user) =~= Orderbook::user_orders(
            lm[0].orders,
            user,
        ));
        assert(Orderbook::open_orders_spec(b, user) =~= Seq::<OrderModel>::empty());
        assert(Orderbook::open_orders_spec(a, user) =~= Orderbook::open_orders_spec(b, user)
            + Orderbook::user_orders(lm[li].orders, user));
    } else {
        lemma_open_orders_take_step(lm.drop_first(), user, li - 1);
        assert(a[0] == lm[0]);
        assert(b[0] == lm[0]);
        assert(a.drop_first() =~= lm.drop_first().take(li));
        assert(b.drop_first() =~= lm.drop_first().take(li - 1));
        assert(lm.drop_first()[li - 1] == lm[li]);
        assert(Orderbook::open_orders_spec(a, user) =~= Orderbook::user_orders(lm[0].orders, user)
            + Orderbook::open_orders_spec(a.drop_first(), user));
        assert(Orderbook::open_orders_spec(b, user) =~= Orderbook::user_orders(lm[0].orders, user)
            + Orderbook::open_orders_spec(b.drop_first(), user));
        assert(Orderbook::open_orders_spec(a, user) =~= Orderbook::open_orders_spec(b, user)
            + Orderbook::user_orders(lm[li].orders, user));
    }
}

/// The other side of the book.
pub open spec fn opposite(side: Side) -> Side {
    match side {
        Side::Buy => Side::Sell,
        Side::Sell => Side::Buy,
    }
}

/// Shrinking the asks cannot create a shared id.
pub proof fn lemma_disjoint_shrink_asks(
    bids: Seq<LevelModel>,
    asks_old: Seq<LevelModel>,
    asks_new: Seq<LevelModel>,
)
    requires
        ids_disjoint(bids, asks_old),
        forall|lj: int, pj: int|
            0 <= lj < asks_new.len() && 0 <= pj < asks_new[lj].orders.len() ==> has_id(
                asks_old,
                (#[trigger] asks_new[lj].orders[pj]).order_id,
            ),
    ensures
        ids_disjoint(bids, asks_new),
{
    assert forall|li: int, pi: int, lj: int, pj: int|
        0 <= li < bids.len() && 0 <= pi < bids[li].orders.len() && 0 <= lj < asks_new.len() && 0
            <= pj < asks_new[lj].orders.len() implies (#[trigger] bids[li].orders[pi]).order_id
        != (#[trigger] asks_new[lj].orders[pj]).order_id by {
        assert(has_id(asks_old, asks_new[lj].orders[pj].order_id));
        let (la, pa) = choose|la: int, pa: int|
            0 <= la < asks_old.len() && 0 <= pa < asks_old[la].orders.len()
                && (#[trigger] asks_old[la].orders[pa]).order_id == asks_new[lj].orders[
                pj
            ].order_id;
        assert(bids[li].orders[pi].order_id != asks_old[la].orders[pa].order_id);
    }
}

/// Shrinking the bids cannot create a shared id.
pub proof fn lemma_disjoint_shrink_bids(
    bids_old: Seq<LevelModel>,
    bids_new: Seq<LevelModel>,
    asks: Seq<LevelModel>,
)
    requires
        ids_disjoint(bids_old, asks),
        forall|lj: int, pj: int|
            0 <= lj < bids_new.len() && 0 <= pj < bids_new[lj].orders.len() ==> has_id(
                bids_old,
                (#[trigger] bids_new[lj].orders[pj]).order_id,
            ),
    ensures
        ids_disjoint(bids_new, asks),
{
    assert forall|li: int, pi: int, lj: int, pj: int|
        0 <= li < bids_new.len() && 0 <= pi < bids_new[li].orders.len() && 0 <= lj < asks.len()
            && 0 <= pj < asks[lj].orders.len() implies (
    #[trigger] bids_new[li].orders[pi]).order_id != (#[trigger] asks[lj].orders[pj]).order_id by {
        assert(has_id(bids_old, bids_new[li].orders[pi].order_id));
        let (la, pa) = choose|la: int, pa: int|
            0 <= la < bids_old.len() && 0 <= pa < bids_old[la].orders.len()
                && (#[trigger] bids_old[la].orders[pa]).order_id == bids_new[li].orders[
                pi
            ].order_id;
        assert(bids_old[la].orders[pa].order_id != asks[lj].orders[pj].order_id);
    }
}

/// Whether a restored order is admitted onto the bid side being rebuilt:
/// valid fields, partially unfilled, the right side, a fresh id, and
/// depth-cache room (the ask side is still empty, so no crossing check).
pub open spec fn seed_bid_ok(acc: Seq<LevelModel>, o: OrderModel) -> bool {
    &&& o.valid()
    &&& o.filled < o.quantity
    &&& o.side == Side::Buy
    &&& !has_id(acc, o.order_id)
    &&& Orderbook::depth_fits(acc, o)
}

/// The bid side after restoring the given orders in turn, skipping any
/// that [`seed_bid_ok`] refuses.
pub open spec fn seed_bids_rec(acc: Seq<LevelModel>, ins: Seq<OrderModel>) -> Seq<LevelModel>
    decreases ins.len(),
{
    if ins.len() == 0 {
        acc
    } else {
        seed_bids_rec(
            if seed_bid_ok(acc, ins[0]) {
                spec_insert(acc, ins[0], Side::Buy)
            } else {
                acc
            },
            ins.drop_first(),
        )
    }
}

/// Whether a restored order is admitted onto the ask side: as for bids,
/// its id fresh against both sides, and its price strictly above the
/// restored best bid.
pub open spec fn seed_ask_ok(bids: Seq<LevelModel>, acc: Seq<LevelModel>, o: OrderModel) -> bool {
    &&& o.valid()
    &&& o.filled < o.quantity
    &&& o.side == Side::Sell
    &&& !has_id(bids, o.order_id)
    &&& !has_id(acc, o.order_id)
    &&& Orderbook::depth_fits(acc, o)
    &&& (bids.len() == 0 || o.price > bids[0].price)
}

/// The ask side after restoring the given orders in turn against the
/// already restored bids.
pub open spec fn seed_asks_rec(
    bids: Seq<LevelModel>,
    acc: Seq<LevelModel>,
    ins: Seq<OrderModel>,
) -> Seq<LevelModel>
    decreases ins.len(),
{
    if ins.len() == 0 {
        acc
    } else {
        seed_asks_rec(
            bids,
            if seed_ask_ok(bids, acc, ins[0]) {
                spec_insert(acc, ins[0], Side::Sell)
            } else {
                acc
            },
            ins.drop_first(),
        )
    }
}

pub struct Orderbook {
    pub bids: Vec<Level>,
    pub asks: Vec<Level>,
    pub base_asset: String,
    pub quote_asset: String,
    pub last_trade_id: u64,
    pub current_price: u64,
    pub order_id_to_price: Vec<IndexEntry>,
}

impl Orderbook {
    pub open spec fn bids_m(&self) -> Seq<LevelModel> {
        self.bids@.map_values(|l: Level| l@)
    }

    pub open spec fn asks_m(&self) -> Seq<LevelModel> {
        self.asks@.map_values(|l: Level| l@)
    }

    pub open spec fn ix_m(&self) -> Seq<IndexEntryModel> {
        self.order_id_to_price@.map_values(|e: IndexEntry| e@)
    }

    /// The side an order of this side rests on.
    pub open spec fn own_side_m(&self, side: Side) -> Seq<LevelModel> {
        match side {
            Side::Buy => self.bids_m(),
            Side::Sell => self.asks_m(),
        }
    }

    /// The side an order of this side matches against.
    pub open spec fn opp_side_m(&self, side: Side) -> Seq<LevelModel> {
        match side {
            Side::Buy => self.asks_m(),
            Side::Sell => self.bids_m(),
        }
    }

    /// Best bid strictly under best ask whenever both sides rest.
    pub open spec fn non_crossing(&self) -> bool {
        self.bids_m().len() > 0 && self.asks_m().len() > 0 ==> self.bids_m()[0].price
            < self.asks_m()[0].price
    }

    /// The order book invariant.
    pub open spec fn wf(&self) -> bool {
        &&& wf_side(Side::Buy, self.bids_m())
        &&& wf_side(Side::Sell, self.asks_m())
        &&& ids_distinct_side(self.bids_m())
        &&& ids_distinct_side(self.asks_m())
        &&& ids_disjoint(self.bids_m(), self.asks_m())
        &&& index_ok(self.bids_m(), self.asks_m(), self.ix_m())
        &&& self.non_crossing()
    }

    /// Rebuilds the order-id index from the resting orders.
    fn rebuild_index(&mut self)
        requires
            wf_side(Side::Buy, old(self).bids_m()),
            wf_side(Side::Sell, old(self).asks_m()),
            ids_distinct_side(old(self).bids_m()),
            ids_distinct_side(old(self).asks_m()),
            ids_disjoint(old(self).bids_m(), old(self).asks_m()),
        ensures
            final(self).bids == old(self).bids,
            final(self).asks == old(self).asks,
            final(self).base_asset == old(self).base_asset,
            final(self).quote_asset == old(self).quote_asset,
            final(self).last_trade_id == old(self).last_trade_id,
            final(self).current_price == old(self).current_price,
            index_ok(final(self).bids_m(), final(self).asks_m(), final(self).ix_m()),
    {
        let ghost bm_levels = self.bids_m();
        let ghost am_levels = self.asks_m();
        let mut bix: Vec<IndexEntry> = Vec::new();
        index_entries_for_side(&self.bids, Side::Buy, &mut bix);
        let mut aix: Vec<IndexEntry> = Vec::new();
        index_entries_for_side(&self.asks, Side::Sell, &mut aix);
        let ghost bm = bix@.map_values(|e: IndexEntry| e@);
        let ghost am = aix@.map_values(|e: IndexEntry| e@);
        bix.append(&mut aix);
        self.order_id_to_price = bix;
        proof {
            let em = self.ix_m();
            assert(em =~~= bm + am);
            assert forall|k: int| 0 <= k < em.len() implies {
                let e = #[trigger] em[k];
                match e.side {
                    Side::Buy => resting_at(bm_levels, e.order_id, e.price),
                    Side::Sell => resting_at(am_levels, e.order_id, e.price),
                }
            } by {
                if k < bm.len() {
                    assert(em[k] == bm[k]);
                } else {
                    assert(em[k] == am[k - bm.len()]);
                }
            }
            assert forall|li: int, pi: int|
                0 <= li < bm_levels.len() && 0 <= pi < bm_levels[li].orders.len() implies indexed(
                em,
                (#[trigger] bm_levels[li].orders[pi]).order_id,
                bm_levels[li].price,
                Side::Buy,
            ) by {
                assert(indexed(bm, bm_levels[li].orders[pi].order_id, bm_levels[li].price,
                    Side::Buy));
                let k = choose|k: int|
                    0 <= k < bm.len() && (#[trigger] bm[k]).order_id == bm_levels[li].orders[
                        pi
                    ].order_id && bm[k].price == bm_levels[li].price && bm[k].side == Side::Buy;
                assert(em[k] == bm[k]);
            }
            assert forall|li: int, pi: int|
                0 <= li < am_levels.len() && 0 <= pi < am_levels[li].orders.len() implies indexed(
                em,
                (#[trigger] am_levels[li].orders[pi]).order_id,
                am_levels[li].price,
                Side::Sell,
            ) by {
                assert(indexed(am, am_levels[li].orders[pi].order_id, am_levels[li].price,
                    Side::Sell));
                let k = choose|k: int|
                    0 <= k < am.len() && (#[trigger] am[k]).order_id == am_levels[li].orders[
                        pi
                    ].order_id && am[k].price == am_levels[li].price && am[k].side == Side::Sell;
                assert(em[bm.len() + k] == am[k]);
            }
            assert forall|k1: int, k2: int| 0 <= k1 < k2 < em.len() implies (
            #[trigger] em[k1]).order_id != (#[trigger] em[k2]).order_id by {
                if k1 < bm.len() && k2 < bm.len() {
                    assert(em[k1] == bm[k1]);
                    assert(em[k2] == bm[k2]);
                } else if k1 >= bm.len() && k2 >= bm.len() {
                    assert(em[k1] == am[k1 - bm.len()]);
                    assert(em[k2] == am[k2 - bm.len()]);
                } else {
                    assert(em[k1] == bm[k1]);
                    assert(em[k2] == am[k2 - bm.len()]);
                    let e1 = bm[k1];
                    let e2 = am[k2 - bm.len()];
                    assert(resting_at(bm_levels, e1.order_id, e1.price));
                    assert(resting_at(am_levels, e2.order_id, e2.price));
                    let (l1, p1) = choose|l1: int, p1: int|
                        0 <= l1 < bm_levels.len() && 0 <= p1 < bm_levels[l1].orders.len()
                            && bm_levels[l1].price == e1.price && (
                        #[trigger] bm_levels[l1].orders[p1]).order_id == e1.order_id;
                    let (l2, p2) = choose|l2: int, p2: int|
                        0 <= l2 < am_levels.len() && 0 <= p2 < am_levels[l2].orders.len()
                            && am_levels[l2].price == e2.price && (
                        #[trigger] am_levels[l2].orders[p2]).order_id == e2.order_id;
                    assert(bm_levels[l1].orders[p1].order_id != am_levels[l2].orders[p2].order_id);
                }
            }
        }
    }

    /// Depth room for one more resting order at this price.
    pub open spec fn depth_fits(levels: Seq<LevelModel>, o: OrderModel) -> bool {
        forall|j: int|
            0 <= j < levels.len() && (#[trigger] levels[j]).price == o.price ==> levels[j].depth
                + o.remaining() <= u64::MAX
    }

    /// Rests an order on one side of the book and indexes it.
    fn add_resting(&mut self, order: Order, side: Side)
        requires
            old(self).wf(),
            order@.valid(),
            order.filled < order.quantity,
            order@.side == side,
            !has_id(old(self).bids_m(), order@.order_id),
            !has_id(old(self).asks_m(), order@.order_id),
            side == Side::Buy ==> Self::depth_fits(old(self).bids_m(), order@) && (old(self).asks_m().len() > 0 ==> (order.price as int) < old(self).asks_m()[0].price),
            side == Side::Sell ==> Self::depth_fits(old(self).asks_m(), order@) && (old(self).bids_m().len() > 0 ==> (order.price as int) > old(self).bids_m()[0].price),
        ensures
            final(self).wf(),
            side == Side::Buy ==> final(self).bids_m() == spec_insert(
                old(self).bids_m(),
                order@,
                Side::Buy,
            ) && final(self).asks_m() == old(self).asks_m(),
            side == Side::Sell ==> final(self).asks_m() == spec_insert(
                old(self).asks_m(),
                order@,
                Side::Sell,
            ) && final(self).bids_m() == old(self).bids_m(),
            final(self).ix_m() == old(self).ix_m().push(
                IndexEntryModel { order_id: order@.order_id, price: order@.price, side },
            ),
            final(self).base_asset == old(self).base_asset,
            final(self).quote_asset == old(self).quote_asset,
            final(self).last_trade_id == old(self).last_trade_id,
            final(self).current_price == old(self).current_price,
    {
        proof {
            lemma_index_after_insert(
                self.bids_m(),
                self.asks_m(),
                self.ix_m(),
                order@,
                side,
            );
            if side == Side::Buy {
                lemma_spec_insert(self.bids_m(), order@, side);
            } else {
                lemma_spec_insert(self.asks_m(), order@, side);
            }
        }
        let ghost old_bids = self.bids_m();
        let ghost old_asks = self.asks_m();
        let ghost old_ix = self.ix_m();
        let entry = IndexEntry {
            order_id: order.order_id.clone(),
            price: order.price,
            side,
        };
        self.order_id_to_price.push(entry);
        proof {
            assert(self.ix_m() =~~= old_ix.push(
                IndexEntryModel { order_id: order@.order_id, price: order@.price, side },
            ));
        }
        match side {
            Side::Buy => {
                insert_from(&mut self.bids, 0, order, Side::Buy);
                proof {
                    assert(old_bids.take(0) =~= Seq::<LevelModel>::empty());
                    assert(old_bids.skip(0) =~= old_bids);
                    assert(self.bids_m() =~~= spec_insert(old_bids, order@, Side::Buy));
                    let nb = spec_insert(old_bids, order@, Side::Buy);
                    // the best bid stays under the best ask
                    if self.bids_m().len() > 0 && self.asks_m().len() > 0 {
                        assert(nb[0].price == order@.price || (old_bids.len() > 0 && nb[0].price
                            == old_bids[0].price));
                    }
                }
            },
            Side::Sell => {
                insert_from(&mut self.asks, 0, order, Side::Sell);
                proof {
                    assert(old_asks.take(0) =~= Seq::<LevelModel>::empty());
                    assert(old_asks.skip(0) =~= old_asks);
                    assert(self.asks_m() =~~= spec_insert(old_asks, order@, Side::Sell));
                    let na = spec_insert(old_asks, order@, Side::Sell);
                    if self.bids_m().len() > 0 && self.asks_m().len() > 0 {
                        assert(na[0].price == order@.price || (old_asks.len() > 0 && na[0].price
                            == old_asks[0].price));
                    }
                }
            },
        }
    }

    /// Rests a bid, indexing it under its price.
    pub fn add_bid_to_level(&mut self, order: Order)
        requires
            old(self).wf(),
            order@.valid(),
            order.filled < order.quantity,
            order@.side == Side::Buy,
            !has_id(old(self).bids_m(), order@.order_id),
            !has_id(old(self).asks_m(), order@.order_id),
            Self::depth_fits(old(self).bids_m(), order@),
            old(self).asks_m().len() > 0 ==> (order.price as int) < old(self).asks_m()[0].price,
        ensures
            final(self).wf(),
            final(self).bids_m() == spec_insert(old(self).bids_m(), order@, Side::Buy),
            final(self).asks_m() == old(self).asks_m(),
            final(self).ix_m() == old(self).ix_m().push(
                IndexEntryModel { order_id: order@.order_id, price: order@.price, side: Side::Buy },
            ),
            final(self).base_asset == old(self).base_asset,
            final(self).quote_asset == old(self).quote_asset,
            final(self).last_trade_id == old(self).last_trade_id,
            final(self).current_price == old(self).current_price,
    {
        self.add_resting(order, Side::Buy)
    }

    /// Rests an ask, indexing it under its price.
    pub fn add_ask_to_level(&mut self, order: Order)
        requires
            old(self).wf(),
            order@.valid(),
            order.filled < order.quantity,
            order@.side == Side::Sell,
            !has_id(old(self).bids_m(), order@.order_id),
            !has_id(old(self).asks_m(), order@.order_id),
            Self::depth_fits(old(self).asks_m(), order@),
            old(self).bids_m().len() > 0 ==> (order.price as int) > old(self).bids_m()[0].price,
        ensures
            final(self).wf(),
            final(self).asks_m() == spec_insert(old(self).asks_m(), order@, Side::Sell),
            final(self).bids_m() == old(self).bids_m(),
            final(self).ix_m() == old(self).ix_m().push(
                IndexEntryModel {
                    order_id: order@.order_id,
                    price: order@.price,
                    side: Side::Sell,
                },
            ),
            final(self).base_asset == old(self).base_asset,
            final(self).quote_asset == old(self).quote_asset,
            final(self).last_trade_id == old(self).last_trade_id,
            final(self).current_price == old(self).current_price,
    {
        self.add_resting(order, Side::Sell)
    }

    /// Matches an incoming order against the opposite side and rests any
    /// remainder at its limit price; the order's `filled` is set to the
    /// executed quantity.
    pub fn add_order(&mut self, order: &mut Order) -> (r: crate::types::OrderCreated)
        requires
            old(self).wf(),
            old(order)@.valid(),
            old(order)@.filled == 0,
            !has_id(old(self).bids_m(), old(order)@.order_id),
            !has_id(old(self).asks_m(), old(order)@.order_id),
            old(self).last_trade_id + old(order).quantity <= u64::MAX,
            forall|j: int|
                0 <= j < old(self).own_side_m(old(order).side).len()
                    && (#[trigger] old(self).own_side_m(old(order).side)[j]).price == old(
                    order,
                )@.price ==> old(self).own_side_m(old(order).side)[j].depth + old(order).quantity
                    <= u64::MAX,
        ensures
            ({
                let m = spec_match_side(
                    old(self).opp_side_m(old(order).side),
                    old(order).price as int,
                    old(order).quantity as int,
                    old(self).last_trade_id as int,
                    opposite(old(order).side),
                );
                &&& final(self).wf()
                &&& fill_models(r.fills@) == m.fills
                &&& r.executed_quantity == m.executed
                &&& final(self).last_trade_id == m.next_tid
                &&& final(self).opp_side_m(old(order).side) == m.levels
                &&& final(order)@ == (OrderModel { filled: m.executed, ..old(order)@ })
                &&& (m.executed < old(order).quantity ==> final(self).own_side_m(old(order).side)
                    == spec_insert(
                    old(self).own_side_m(old(order).side),
                    (OrderModel { filled: m.executed, ..old(order)@ }),
                    old(order).side,
                ))
                &&& (m.executed == old(order).quantity ==> final(self).own_side_m(
                    old(order).side,
                ) == old(self).own_side_m(old(order).side))
                &&& final(self).base_asset == old(self).base_asset
                &&& final(self).quote_asset == old(self).quote_asset
                &&& final(self).current_price == old(self).current_price
            }),
    {
        let side = order.side;
        let ghost opp0 = self.opp_side_m(side);
        let ghost own0 = self.own_side_m(side);
        proof {
            lemma_match_side_props(
                opp0,
                order.price as int,
                order.quantity as int,
                self.last_trade_id as int,
                opposite(side),
            );
        }
        let (fills, executed, tid) = match side {
            Side::Buy => match_side(
                &mut self.asks,
                order.price,
                order.quantity,
                self.last_trade_id,
                Side::Sell,
            ),
            Side::Sell => match_side(
                &mut self.bids,
                order.price,
                order.quantity,
                self.last_trade_id,
                Side::Buy,
            ),
        };
        self.last_trade_id = tid;
        order.filled = executed;
        let ghost m = spec_match_side(
            opp0,
            order.price as int,
            order.quantity as int,
            old(self).last_trade_id as int,
            opposite(side),
        );
        proof {
            if side == Side::Buy {
                lemma_disjoint_shrink_asks(self.bids_m(), opp0, self.asks_m());
            } else {
                lemma_disjoint_shrink_bids(opp0, self.bids_m(), self.asks_m());
            }
        }
        self.rebuild_index();
        proof {
            // the book cannot cross: the matched side only got worse in front
            let k = opp0.len() - m.levels.len();
            if self.bids_m().len() > 0 && self.asks_m().len() > 0 {
                if side == Side::Buy {
                    assert(self.asks_m()[0].price == opp0[k as int].price);
                    if k > 0 {
                        assert(price_better(Side::Sell, opp0[0].price, opp0[k as int].price));
                    }
                } else {
                    assert(self.bids_m()[0].price == opp0[k as int].price);
                    if k > 0 {
                        assert(price_better(Side::Buy, opp0[0].price, opp0[k as int].price));
                    }
                }
            }
            assert(self.wf());
        }
        let created = crate::types::OrderCreated { executed_quantity: executed, fills };
        if executed < order.quantity {
            proof {
                // freshness carries over: the matched side only lost ids
                if has_id(self.opp_side_m(side), order@.order_id) {
                    let (lj, pj) = choose|lj: int, pj: int|
                        0 <= lj < m.levels.len() && 0 <= pj < m.levels[lj].orders.len()
                            && (#[trigger] m.levels[lj].orders[pj]).order_id == order@.order_id;
                    assert(has_id(opp0, order@.order_id));
                }
                // the remainder cannot cross what is left on the other side
                if side == Side::Buy && self.asks_m().len() > 0 {
                    assert(!price_ok(Side::Sell, self.asks_m()[0].price, order.price as int));
                }
                if side == Side::Sell && self.bids_m().len() > 0 {
                    assert(!price_ok(Side::Buy, self.bids_m()[0].price, order.price as int));
                }
            }
            let rest = order.duplicate();
            proof {
                assert(rest@ =~~= (OrderModel { filled: m.executed, ..old(order)@ }));
            }
            self.add_resting(rest, side);
        }
        proof {
            assert(final(order)@ =~~= (OrderModel { filled: m.executed, ..old(order)@ }));
        }
        created
    }

    /// A book for one market, restored from the given resting orders:
    /// bids first, then asks, each grouped into its price level in
    /// argument order, exactly as [`seed_bids_rec`] and [`seed_asks_rec`]
    /// fold them. An order that would break the book's invariant —
    /// invalid fields, the wrong side, a duplicate id, a depth-cache
    /// overflow, or a price that crosses the other side — is not
    /// restored.
    pub fn new(
        base_asset: String,
        bids: Vec<Order>,
        asks: Vec<Order>,
        last_trade_id: Option<u64>,
        current_price: Option<u64>,
    ) -> (r: Orderbook)
        ensures
            r.wf(),
            r.base_asset@ == base_asset@,
            r.quote_asset@ == crate::engine_consts::BASE_CURRENCY@,
            r.bids_m() == seed_bids_rec(Seq::empty(), order_models(bids@)),
            r.asks_m() == seed_asks_rec(r.bids_m(), Seq::empty(), order_models(asks@)),
            bids@.len() == 0 && asks@.len() == 0 ==> r.bids_m().len() == 0 && r.asks_m().len()
                == 0 && r.ix_m().len() == 0,
            r.last_trade_id == (match last_trade_id {
                Some(t) => t,
                None => 0u64,
            }),
            r.current_price == (match current_price {
                Some(p) => p,
                None => 0u64,
            }),
    {
        let tid = match last_trade_id {
            Some(t) => t,
            None => 0,
        };
        let cp = match current_price {
            Some(p) => p,
            None => 0,
        };
        let mut book = Orderbook {
            bids: Vec::new(),
            asks: Vec::new(),
            base_asset,
            quote_asset: crate::engine_consts::BASE_CURRENCY.to_owned(),
            last_trade_id: tid,
            current_price: cp,
            order_id_to_price: Vec::new(),
        };
        proof {
            assert(book.bids_m() =~= Seq::<LevelModel>::empty());
            assert(book.asks_m() =~= Seq::<LevelModel>::empty());
            assert(book.ix_m() =~= Seq::<IndexEntryModel>::empty());
        }
        let ghost b0 = book;
        let ghost bm_ins = order_models(bids@);
        let ghost gb = seed_bids_rec(Seq::empty(), bm_ins);
        proof {
            assert(bm_ins.skip(0) =~= bm_ins);
        }
        let mut i: usize = 0;
        while i < bids.len()
            invariant
                0 <= i <= bids@.len(),
                book.wf(),
                book.asks_m().len() == 0,
                book.base_asset == b0.base_asset,
                book.quote_asset == b0.quote_asset,
                book.last_trade_id == b0.last_trade_id,
                book.current_price == b0.current_price,
                i == 0 ==> book == b0,
                bm_ins == order_models(bids@),
                bm_ins.len() == bids@.len(),
                gb == seed_bids_rec(Seq::empty(), bm_ins),
                seed_bids_rec(book.bids_m(), bm_ins.skip(i as int)) == gb,
            decreases bids@.len() - i,
        {
            let o = bids[i].duplicate();
            proof {
                assert(bm_ins.skip(i as int)[0] == bm_ins[i as int]);
                assert(bm_ins.skip(i as int).drop_first() =~= bm_ins.skip(i + 1));
                assert(bm_ins[i as int] == o@);
            }
            let fits = o.price > 0 && o.quantity > 0 && o.filled < o.quantity && matches!(
                o.side,
                Side::Buy,
            ) && !book.contains_order_id(&o.order_id) && book.depth_room(
                Side::Buy,
                o.price,
                o.quantity - o.filled,
            );
            proof {
                if fits {
                    assert(Self::depth_fits(book.bids_m(), o@)) by {
                        assert forall|k: int|
                            0 <= k < book.bids_m().len() && (#[trigger] book.bids_m()[k]).price
                                == o@.price implies book.bids_m()[k].depth + o@.remaining()
                            <= u64::MAX by {
                            assert(book.own_side_m(Side::Buy) == book.bids_m());
                            assert(book.own_side_m(Side::Buy)[k].depth + (o.quantity - o.filled)
                                <= u64::MAX);
                        }
                    }
                    assert(seed_bid_ok(book.bids_m(), o@));
                } else {
                    assert(!seed_bid_ok(book.bids_m(), o@)) by {
                        if seed_bid_ok(book.bids_m(), o@) {
                            assert(Self::depth_fits(book.bids_m(), o@));
                            assert(book.own_side_m(Side::Buy) == book.bids_m());
                        }
                    }
                }
            }
            if fits {
                book.add_bid_to_level(o);
            }
            i = i + 1;
        }
        proof {
            assert(bm_ins.skip(bids@.len() as int) =~= Seq::<OrderModel>::empty());
            assert(book.bids_m() == gb);
        }
        let ghost b1 = book;
        let ghost am_ins = order_models(asks@);
        let ghost ga = seed_asks_rec(b1.bids_m(), Seq::empty(), am_ins);
        proof {
            assert(bids@.len() == 0 ==> b1 == b0);
            assert(am_ins.skip(0) =~= am_ins);
            assert(book.asks_m() =~= Seq::<LevelModel>::empty());
        }
        let mut j: usize = 0;
        while j < asks.len()
            invariant
                0 <= j <= asks@.len(),
                book.wf(),
                book.base_asset == b0.base_asset,
                book.quote_asset == b0.quote_asset,
                book.last_trade_id == b0.last_trade_id,
                book.current_price == b0.current_price,
                j == 0 ==> book == b1,
                bids@.len() == 0 ==> b1 == b0,
                b0.bids_m().len() == 0 && b0.asks_m().len() == 0 && b0.ix_m().len() == 0,
                book.bids_m() == b1.bids_m(),
                b1.bids_m() == seed_bids_rec(Seq::empty(), order_models(bids@)),
                am_ins == order_models(asks@),
                am_ins.len() == asks@.len(),
                ga == seed_asks_rec(b1.bids_m(), Seq::empty(), am_ins),
                seed_asks_rec(b1.bids_m(), book.asks_m(), am_ins.skip(j as int)) == ga,
            decreases asks@.len() - j,
        {
            let o = asks[j].duplicate();
            proof {
                assert(am_ins.skip(j as int)[0] == am_ins[j as int]);
                assert(am_ins.skip(j as int).drop_first() =~= am_ins.skip(j + 1));
                assert(am_ins[j as int] == o@);
            }
            let mut fits = o.price > 0 && o.quantity > 0 && o.filled < o.quantity && matches!(
                o.side,
                Side::Sell,
            ) && !book.contains_order_id(&o.order_id) && book.depth_room(
                Side::Sell,
                o.price,
                o.quantity - o.filled,
            );
            if fits && book.bids.len() > 0 {
                proof {
                    assert(book.bids_m()[0].price == book.bids@[0]@.price);
                }
                if o.price <= book.bids[0].price {
                    fits = false;
                }
            }
            proof {
                if fits {
                    assert(Self::depth_fits(book.asks_m(), o@)) by {
                        assert forall|k: int|
                            0 <= k < book.asks_m().len() && (#[trigger] book.asks_m()[k]).price
                                == o@.price implies book.asks_m()[k].depth + o@.remaining()
                            <= u64::MAX by {
                            assert(book.own_side_m(Side::Sell) == book.asks_m());
                            assert(book.own_side_m(Side::Sell)[k].depth + (o.quantity - o.filled)
                                <= u64::MAX);
                        }
                    }
                    assert(seed_ask_ok(b1.bids_m(), book.asks_m(), o@));
                } else {
                    assert(!seed_ask_ok(b1.bids_m(), book.asks_m(), o@)) by {
                        if seed_ask_ok(b1.bids_m(), book.asks_m(), o@) {
                            assert(Self::depth_fits(book.asks_m(), o@));
                            assert(book.own_side_m(Side::Sell) == book.asks_m());
                            if book.bids_m().len() > 0 {
                                assert(book.bids_m()[0].price == book.bids@[0]@.price);
                            }
                        }
                    }
                }
            }
            if fits {
                book.add_ask_to_level(o);
            }
            j = j + 1;
        }
        proof {
            assert(am_ins.skip(asks@.len() as int) =~= Seq::<OrderModel>::empty());
            assert(book.asks_m() == ga);
            if bids@.len() == 0 && asks@.len() == 0 {
                assert(book == b1);
                assert(book == b0);
            }
        }
        book
    }

    /// What removing one resting order does to a side: the order leaves its
    /// level by swap-removal, the level's depth falls by the order's
    /// remaining quantity, and an emptied level disappears.
    pub open spec fn spec_remove_order(levels: Seq<LevelModel>, li: int, pi: int) -> Seq<
        LevelModel,
    > {
        let l = levels[li];
        let orders2 = l.orders.update(pi, l.orders.last()).drop_last();
        if orders2.len() == 0 {
            levels.remove(li)
        } else {
            levels.update(
                li,
                LevelModel {
                    price: l.price,
                    depth: l.depth - l.orders[pi].remaining(),
                    orders: orders2,
                },
            )
        }
    }

    /// Removes a resting order found at level `li`, position `pi`, on one
    /// side, and restores the book invariant.
    #[verifier::rlimit(100)]
    #[verifier::spinoff_prover]
    fn remove_resting(&mut self, side: Side, li: usize, pi: usize)
        requires
            old(self).wf(),
            li < old(self).own_side_m(side).len(),
            pi < old(self).own_side_m(side)[li as int].orders.len(),
        ensures
            final(self).wf(),
            final(self).own_side_m(side) == Self::spec_remove_order(
                old(self).own_side_m(side),
                li as int,
                pi as int,
            ),
            final(self).opp_side_m(side) == old(self).opp_side_m(side),
            final(self).base_asset == old(self).base_asset,
            final(self).quote_asset == old(self).quote_asset,
            final(self).last_trade_id == old(self).last_trade_id,
            final(self).current_price == old(self).current_price,
    {
        let ghost lv0 = self.own_side_m(side);
        let ghost l0 = lv0[li as int];
        let ghost orders2 = l0.orders.update(pi as int, l0.orders.last()).drop_last();
        proof {
            assert(wf_level(l0, side));
            lemma_sum_remaining_swap_remove(l0.orders, pi as int);
            lemma_sum_remaining_lower(l0.orders, pi as int);
            lemma_remove_order_wf(lv0, li as int, pi as int, side);
        }
        let levels: &mut Vec<Level> = match side {
            Side::Buy => &mut self.bids,
            Side::Sell => &mut self.asks,
        };
        let mut lv = levels.remove(li);
        let removed = lv.orders.swap_remove(pi);
        proof {
            assert(lv@.orders =~~= orders2);
            assert(removed@ == l0.orders[pi as int]);
            assert(sum_remaining(orders2) == l0.depth - l0.orders[pi as int].remaining());
        }
        let rem = removed.quantity - removed.filled;
        let newdepth = lv.depth - rem;
        if newdepth == 0 {
            proof {
                if orders2.len() > 0 {
                    assert forall|j: int| 0 <= j < orders2.len() implies (
                    #[trigger] orders2[j]).valid() && orders2[j].filled < orders2[j].quantity by {
                        if j == pi as int {
                            assert(orders2[j] == l0.orders[l0.orders.len() - 1]);
                        } else {
                            assert(orders2[j] == l0.orders[j]);
                        }
                    }
                    lemma_sum_remaining_min_one(orders2);
                }
                assert(orders2.len() == 0);
            }
        } else {
            lv.depth = newdepth;
            levels.insert(li, lv);
        }
        proof {
            let nl = self.own_side_m(side);
            let spec_r = Self::spec_remove_order(lv0, li as int, pi as int);
            assert(nl =~~= spec_r);
            if side == Side::Buy {
                lemma_disjoint_shrink_bids(lv0, nl, self.asks_m());
            } else {
                lemma_disjoint_shrink_asks(self.bids_m(), lv0, nl);
            }
        }
        self.rebuild_index();
        proof {
            let nl = self.own_side_m(side);
            if self.bids_m().len() > 0 && self.asks_m().len() > 0 {
                if nl.len() > 0 {
                    assert(nl[0].price == lv0[0].price || price_better(
                        side,
                        lv0[0].price,
                        nl[0].price,
                    ));
                }
            }
            assert(self.wf());
        }
    }

    /// Cancels a resting order on one side by its id: removes it from its
    /// level and index and reports the price level that was touched.
    fn cancel_on_side(&mut self, order: &Order, side: Side) -> (r: Option<u64>)
        requires
            old(self).wf(),
        ensures
            final(self).wf(),
            final(self).opp_side_m(side) == old(self).opp_side_m(side),
            final(self).base_asset == old(self).base_asset,
            final(self).quote_asset == old(self).quote_asset,
            final(self).last_trade_id == old(self).last_trade_id,
            final(self).current_price == old(self).current_price,
            match r {
                None => *final(self) == *old(self) && !has_id(
                    old(self).own_side_m(side),
                    order@.order_id,
                ),
                Some(p) => {
                    &&& resting_at(old(self).own_side_m(side), order@.order_id, p as int)
                    &&& (exists|li: int, pi: int|
                        0 <= li < old(self).own_side_m(side).len() && 0 <= pi < old(self).own_side_m(side)[li].orders.len() && old(self).own_side_m(side)[li].price
                            == p && (#[trigger] old(self).own_side_m(side)[li].orders[
                            pi
                        ]).order_id == order@.order_id && old(self).own_side_m(side)[li].orders[
                            pi
                        ].side == side && final(self).own_side_m(side) == Self::spec_remove_order(
                            old(self).own_side_m(side),
                            li,
                            pi,
                        ))
                },
            },
    {
        let ghost lm = self.own_side_m(side);
        let ghost ix = self.ix_m();
        // look the id up in the index
        let mut k: usize = 0;
        let n = self.order_id_to_price.len();
        let mut found: Option<u64> = None;
        while k < n && found.is_none()
            invariant
                0 <= k <= n,
                n == self.order_id_to_price@.len(),
                ix == self.ix_m(),
                lm == self.own_side_m(side),
                old(self) == self,
                found is None ==> forall|j: int|
                    0 <= j < k ==> !((#[trigger] ix[j]).order_id == order@.order_id && ix[j].side
                        == side),
                found matches Some(p) ==> k < n && ix[k as int].order_id == order@.order_id
                    && ix[k as int].side == side && ix[k as int].price == p,
            decreases n - k + (if found is None { 1int } else { 0int }),
        {
            let e = &self.order_id_to_price[k];
            if e.side == side && e.order_id.eq(&order.order_id) {
                found = Some(e.price);
            } else {
                k = k + 1;
            }
        }
        let price = match found {
            Some(p) => p,
            None => {
                proof {
                    if has_id(lm, order@.order_id) {
                        let (li, pi) = choose|li: int, pi: int|
                            0 <= li < lm.len() && 0 <= pi < lm[li].orders.len()
                                && (#[trigger] lm[li].orders[pi]).order_id == order@.order_id;
                        assert(indexed(ix, order@.order_id, lm[li].price, side));
                        let j = choose|j: int|
                            0 <= j < ix.len() && (#[trigger] ix[j]).order_id == order@.order_id
                                && ix[j].price == lm[li].price && ix[j].side == side;
                        assert(false);
                    }
                }
                return None;
            },
        };
        proof {
            assert(resting_at(lm, order@.order_id, price as int));
        }
        // find the level holding that price
        let ghost (wli, wpi) = choose|wli: int, wpi: int|
            0 <= wli < lm.len() && 0 <= wpi < lm[wli].orders.len() && lm[wli].price == price && (
            #[trigger] lm[wli].orders[wpi]).order_id == order@.order_id;
        let levels: &Vec<Level> = match side {
            Side::Buy => &self.bids,
            Side::Sell => &self.asks,
        };
        let mut li: usize = 0;
        let ln = levels.len();
        while li < ln && levels[li].price != price
            invariant
                0 <= li <= ln,
                ln == levels@.len(),
                lm == level_models(levels@),
                forall|j: int| 0 <= j < li ==> (#[trigger] lm[j]).price != price,
            decreases ln - li,
        {
            li = li + 1;
        }
        if li == ln {
            proof {
                assert(lm[wli].price == price);
                assert(false);
            }
            return None;
        }
        // find the order inside the level
        let orders: &Vec<Order> = &levels[li].orders;
        proof {
            assert(lm[li as int].price == price);
            assert(wli == li) by {
                if wli != li as int {
                    assert(price_better(side, lm[if wli < li as int {
                        wli
                    } else {
                        li as int
                    }].price, lm[if wli < li as int {
                        li as int
                    } else {
                        wli
                    }].price));
                }
            }
        }
        let mut pi: usize = 0;
        let pn = orders.len();
        while pi < pn && !orders[pi].order_id.eq(&order.order_id)
            invariant
                0 <= pi <= pn,
                pn == orders@.len(),
                orders@.map_values(|o: Order| o@) == lm[li as int].orders,
                forall|j: int|
                    0 <= j < pi ==> (#[trigger] lm[li as int].orders[j]).order_id
                        != order@.order_id,
            decreases pn - pi,
        {
            pi = pi + 1;
        }
        if pi == pn {
            proof {
                assert(lm[wli].orders[wpi].order_id == order@.order_id);
                assert(false);
            }
            return None;
        }
        proof {
            assert(lm[li as int].orders[pi as int].order_id == order@.order_id);
            assert(wf_level(lm[li as int], side));
            assert(lm[li as int].orders[pi as int].side == side);
        }
        self.remove_resting(side, li, pi);
        Some(price)
    }

    /// Cancels a resting bid; returns its price level, or nothing when no
    /// bid with this id rests in the book.
    pub fn cancel_bid(&mut self, order: &Order) -> (r: Option<u64>)
        requires
            old(self).wf(),
        ensures
            final(self).wf(),
            final(self).asks_m() == old(self).asks_m(),
            final(self).base_asset == old(self).base_asset,
            final(self).quote_asset == old(self).quote_asset,
            final(self).last_trade_id == old(self).last_trade_id,
            final(self).current_price == old(self).current_price,
            match r {
                None => *final(self) == *old(self) && !has_id(
                    old(self).bids_m(),
                    order@.order_id,
                ),
                Some(p) => {
                    &&& resting_at(old(self).bids_m(), order@.order_id, p as int)
                    &&& (exists|li: int, pi: int|
                        0 <= li < old(self).bids_m().len() && 0 <= pi < old(self).bids_m()[
                            li
                        ].orders.len() && old(self).bids_m()[li].price == p && (#[trigger] old(self).bids_m()[li].orders[pi]).order_id == order@.order_id && final(self).bids_m() == Self::spec_remove_order(old(self).bids_m(), li, pi))
                },
            },
    {
        self.cancel_on_side(order, Side::Buy)
    }

    /// Cancels a resting ask; returns its price level, or nothing when no
    /// ask with this id rests in the book.
    pub fn cancel_ask(&mut self, order: &Order) -> (r: Option<u64>)
        requires
            old(self).wf(),
        ensures
            final(self).wf(),
            final(self).bids_m() == old(self).bids_m(),
            final(self).base_asset == old(self).base_asset,
            final(self).quote_asset == old(self).quote_asset,
            final(self).last_trade_id == old(self).last_trade_id,
            final(self).current_price == old(self).current_price,
            match r {
                None => *final(self) == *old(self) && !has_id(
                    old(self).asks_m(),
                    order@.order_id,
                ),
                Some(p) => {
                    &&& resting_at(old(self).asks_m(), order@.order_id, p as int)
                    &&& (exists|li: int, pi: int|
                        0 <= li < old(self).asks_m().len() && 0 <= pi < old(self).asks_m()[
                            li
                        ].orders.len() && old(self).asks_m()[li].price == p && (#[trigger] old(self).asks_m()[li].orders[pi]).order_id == order@.order_id && final(self).asks_m() == Self::spec_remove_order(old(self).asks_m(), li, pi))
                },
            },
    {
        self.cancel_on_side(order, Side::Sell)
    }

    /// The rows of the depth snapshot: each level's price and cached
    /// aggregate quantity, rendered in decimal, best price first.
    pub open spec fn depth_rows_ok(levels: Seq<LevelModel>, rows: Seq<[String; 2]>) -> bool {
        &&& rows.len() == levels.len()
        &&& forall|i: int|
            0 <= i < rows.len() ==> (#[trigger] rows[i])@.len() == 2 && rows[i]@[0]@ == dec_chars(
                levels[i].price,
            ) && rows[i]@[1]@ == dec_chars(levels[i].depth)
    }

    /// A snapshot of aggregate remaining quantity per price level, read
    /// from the depth cache alone: bids best (highest) first, asks best
    /// (lowest) first.
    pub fn get_depth(&self) -> (r: crate::types::DepthPayload)
        requires
            self.wf(),
        ensures
            Self::depth_rows_ok(self.bids_m(), r.bids@),
            Self::depth_rows_ok(self.asks_m(), r.asks@),
    {
        let bids = Self::depth_rows(&self.bids);
        let asks = Self::depth_rows(&self.asks);
        crate::types::DepthPayload { bids, asks }
    }

    fn depth_rows(levels: &Vec<Level>) -> (r: Vec<[String; 2]>)
        ensures
            Self::depth_rows_ok(level_models(levels@), r@),
    {
        let ghost lm = level_models(levels@);
        let mut rows: Vec<[String; 2]> = Vec::new();
        let mut i: usize = 0;
        while i < levels.len()
            invariant
                0 <= i <= levels@.len(),
                lm == level_models(levels@),
                lm.len() == levels@.len(),
                rows@.len() == i,
                forall|j: int|
                    0 <= j < i ==> (#[trigger] rows@[j])@.len() == 2 && rows@[j]@[0]@ == dec_chars(
                        lm[j].price,
                    ) && rows@[j]@[1]@ == dec_chars(lm[j].depth),
            decreases levels@.len() - i,
    {
            let p = crate::numfmt::u64_to_dec_string(levels[i].price);
            let q = crate::numfmt::u64_to_dec_string(levels[i].depth);
            let row = [p, q];
            rows.push(row);
            i = i + 1;
        }
        rows
    }

    /// The cached depth of the level at this price, or zero when no such
    /// level rests.
    pub open spec fn depth_at(levels: Seq<LevelModel>, price: int) -> int
        decreases levels.len(),
    {
        if levels.len() == 0 {
            0
        } else if levels[0].price == price {
            levels[0].depth
        } else {
            Self::depth_at(levels.drop_first(), price)
        }
    }

    /// Depth rows for a list of touched prices: one row per listed price,
    /// in list order, carrying the level's cached depth — or `0` when the
    /// level is gone, so subscribers see it emptied.
    pub open spec fn touched_rows_ok(
        levels: Seq<LevelModel>,
        prices: Seq<int>,
        rows: Seq<[String; 2]>,
    ) -> bool {
        &&& rows.len() == prices.len()
        &&& forall|i: int|
            0 <= i < rows.len() ==> (#[trigger] rows[i])@.len() == 2 && rows[i]@[0]@ == dec_chars(
                prices[i],
            ) && rows[i]@[1]@ == dec_chars(Self::depth_at(levels, prices[i]))
    }

    /// One row per touched price on one side.
    fn rows_for_prices(levels: &Vec<Level>, prices: &Vec<u64>) -> (r: Vec<[String; 2]>)
        ensures
            Self::touched_rows_ok(
                level_models(levels@),
                prices@.map_values(|p: u64| p as int),
                r@,
            ),
    {
        let ghost lm = level_models(levels@);
        let ghost ps = prices@.map_values(|p: u64| p as int);
        let mut rows: Vec<[String; 2]> = Vec::new();
        let mut i: usize = 0;
        while i < prices.len()
            invariant
                0 <= i <= prices@.len(),
                lm == level_models(levels@),
                ps == prices@.map_values(|p: u64| p as int),
                lm.len() == levels@.len(),
                rows@.len() == i,
                forall|j: int|
                    0 <= j < i ==> (#[trigger] rows@[j])@.len() == 2 && rows@[j]@[0]@ == dec_chars(
                        ps[j],
                    ) && rows@[j]@[1]@ == dec_chars(Self::depth_at(lm, ps[j])),
            decreases prices@.len() - i,
        {
            let p = prices[i];
            let mut depth: u64 = 0;
            let mut k: usize = 0;
            let mut found = false;
            while k < levels.len() && !found
                invariant
                    0 <= k <= levels@.len(),
                    lm == level_models(levels@),
                    lm.len() == levels@.len(),
                    forall|j: int| 0 <= j < k ==> (#[trigger] lm[j]).price != p,
                    found ==> k < levels@.len() && lm[k as int].price == p && depth == lm[
                        k as int
                    ].depth,
                    !found ==> depth == 0,
                decreases levels@.len() - k + (if found { 0int } else { 1int }),
            {
                if levels[k].price == p {
                    depth = levels[k].depth;
                    found = true;
                } else {
                    k = k + 1;
                }
            }
            proof {
                if found {
                    lemma_depth_at_found(lm, p as int, k as int);
                } else {
                    lemma_depth_at_missing(lm, p as int);
                }
            }
            let row = [
                crate::numfmt::u64_to_dec_string(p),
                crate::numfmt::u64_to_dec_string(depth),
            ];
            rows.push(row);
            i = i + 1;
        }
        rows
    }

    /// The depth rows restricted to the touched prices: on each side one
    /// row per listed price, a vanished level reported at `0`.
    pub fn depth_rows_touched(&self, bid_prices: &Vec<u64>, ask_prices: &Vec<u64>) -> (r:
        crate::types::DepthPayload)
        ensures
            Self::touched_rows_ok(
                self.bids_m(),
                bid_prices@.map_values(|p: u64| p as int),
                r.bids@,
            ),
            Self::touched_rows_ok(
                self.asks_m(),
                ask_prices@.map_values(|p: u64| p as int),
                r.asks@,
            ),
    {
        let bids = Self::rows_for_prices(&self.bids, bid_prices);
        let asks = Self::rows_for_prices(&self.asks, ask_prices);
        crate::types::DepthPayload { bids, asks }
    }

    /// All resting orders of one user, in each level's queue order.
    pub open spec fn user_orders(orders: Seq<OrderModel>, user: Seq<char>) -> Seq<OrderModel>
        decreases orders.len(),
    {
        if orders.len() == 0 {
            Seq::empty()
        } else {
            (if orders[0].user_id == user {
                seq![orders[0]]
            } else {
                Seq::empty()
            }) + Self::user_orders(orders.drop_first(), user)
        }
    }

    pub open spec fn open_orders_spec(levels: Seq<LevelModel>, user: Seq<char>) -> Seq<OrderModel>
        decreases levels.len(),
    {
        if levels.len() == 0 {
            Seq::empty()
        } else {
            Self::user_orders(levels[0].orders, user) + Self::open_orders_spec(
                levels.drop_first(),
                user,
            )
        }
    }

    /// Every resting order of the user, bids first, then asks.
    pub fn get_open_orders(&self, user_id: String) -> (r: Vec<Order>)
        ensures
            order_models(r@) == Self::open_orders_spec(self.bids_m(), user_id@)
                + Self::open_orders_spec(self.asks_m(), user_id@),
    {
        let mut out: Vec<Order> = Vec::new();
        Self::collect_user_orders(&self.bids, &user_id, &mut out);
        proof {
            assert(order_models(out@) =~~= Seq::<OrderModel>::empty() + Self::open_orders_spec(
                self.bids_m(),
                user_id@,
            ));
        }
        Self::collect_user_orders(&self.asks, &user_id, &mut out);
        proof {
            assert(order_models(out@) =~~= Self::open_orders_spec(self.bids_m(), user_id@)
                + Self::open_orders_spec(self.asks_m(), user_id@));
        }
        out
    }

    fn collect_user_orders(levels: &Vec<Level>, user_id: &String, out: &mut Vec<Order>)
        ensures
            order_models(final(out)@) == order_models(old(out)@) + Self::open_orders_spec(
                level_models(levels@),
                user_id@,
            ),
    {
        let ghost lm = level_models(levels@);
        let ghost base = order_models(old(out)@);
        let mut li: usize = 0;
        while li < levels.len()
            invariant
                0 <= li <= levels@.len(),
                lm == level_models(levels@),
                lm.len() == levels@.len(),
                order_models(out@) == base + Self::open_orders_spec(lm.take(li as int), user_id@),
            decreases levels@.len() - li,
        {
            let orders = &levels[li].orders;
            let ghost om = lm[li as int].orders;
            let ghost mid = order_models(out@);
            let mut pi: usize = 0;
            while pi < orders.len()
                invariant
                    0 <= pi <= orders@.len(),
                    om == orders@.map_values(|o: Order| o@),
                    om.len() == orders@.len(),
                    order_models(out@) == mid + Self::user_orders(om.take(pi as int), user_id@),
                decreases orders@.len() - pi,
            {
                proof {
                    lemma_user_orders_take_step(om, user_id@, pi as int);
                }
                let ghost before = out@;
                if orders[pi].user_id.eq(user_id) {
                    let d = orders[pi].duplicate();
                    proof {
                        assert(d@ == om[pi as int]);
                        assert(om[pi as int].user_id == user_id@);
                    }
                    out.push(d);
                    proof {
                        assert(out@ == before.push(d));
                        assert(order_models(out@) =~~= order_models(before).push(om[pi as int]));
                        assert(Self::user_orders(om.take(pi + 1), user_id@) == Self::user_orders(
                            om.take(pi as int),
                            user_id@,
                        ) + seq![om[pi as int]]);
                        assert(order_models(out@) =~~= mid + Self::user_orders(
                            om.take(pi + 1),
                            user_id@,
                        ));
                    }
                } else {
                    proof {
                        assert(order_models(out@) =~~= mid + Self::user_orders(
                            om.take(pi + 1),
                            user_id@,
                        ));
                    }
                }
                pi = pi + 1;
            }
            proof {
                assert(om.take(orders@.len() as int) =~= om);
                lemma_open_orders_take_step(lm, user_id@, li as int);
                assert(order_models(out@) =~~= base + Self::open_orders_spec(
                    lm.take(li + 1),
                    user_id@,
                ));
            }
            li = li + 1;
        }
        proof {
            assert(lm.take(levels@.len() as int) =~= lm);
        }
    }

    /// Whether any resting order carries this id, answered from the index.
    pub fn contains_order_id(&self, order_id: &String) -> (r: bool)
        requires
            self.wf(),
        ensures
            r == (has_id(self.bids_m(), order_id@) || has_id(self.asks_m(), order_id@)),
    {
        let ghost ix = self.ix_m();
        let mut k: usize = 0;
        let n = self.order_id_to_price.len();
        while k < n
            invariant
                0 <= k <= n,
                n == self.order_id_to_price@.len(),
                ix == self.ix_m(),
                self.wf(),
                forall|j: int| 0 <= j < k ==> (#[trigger] ix[j]).order_id != order_id@,
            decreases n - k,
        {
            if self.order_id_to_price[k].order_id.eq(order_id) {
                proof {
                    let e = ix[k as int];
                    if e.side == Side::Buy {
                        assert(resting_at(self.bids_m(), e.order_id, e.price));
                        let (li, pi) = choose|li: int, pi: int|
                            0 <= li < self.bids_m().len() && 0 <= pi < self.bids_m()[
                                li
                            ].orders.len() && self.bids_m()[li].price == e.price && (
                            #[trigger] self.bids_m()[li].orders[pi]).order_id == e.order_id;
                        assert(has_id(self.bids_m(), order_id@));
                    } else {
                        assert(resting_at(self.asks_m(), e.order_id, e.price));
                        let (li, pi) = choose|li: int, pi: int|
                            0 <= li < self.asks_m().len() && 0 <= pi < self.asks_m()[
                                li
                            ].orders.len() && self.asks_m()[li].price == e.price && (
                            #[trigger] self.asks_m()[li].orders[pi]).order_id == e.order_id;
                        assert(has_id(self.asks_m(), order_id@));
                    }
                }
                return true;
            }
            k = k + 1;
        }
        proof {
            if has_id(self.bids_m(), order_id@) {
                let (li, pi) = choose|li: int, pi: int|
                    0 <= li < self.bids_m().len() && 0 <= pi < self.bids_m()[li].orders.len() && (
                    #[trigger] self.bids_m()[li].orders[pi]).order_id == order_id@;
                assert(indexed(ix, order_id@, self.bids_m()[li].price, Side::Buy));
                let j = choose|j: int|
                    0 <= j < ix.len() && (#[trigger] ix[j]).order_id == order_id@ && ix[j].price
                        == self.bids_m()[li].price && ix[j].side == Side::Buy;
                assert(false);
            }
            if has_id(self.asks_m(), order_id@) {
                let (li, pi) = choose|li: int, pi: int|
                    0 <= li < self.asks_m().len() && 0 <= pi < self.asks_m()[li].orders.len() && (
                    #[trigger] self.asks_m()[li].orders[pi]).order_id == order_id@;
                assert(indexed(ix, order_id@, self.asks_m()[li].price, Side::Sell));
                let j = choose|j: int|
                    0 <= j < ix.len() && (#[trigger] ix[j]).order_id == order_id@ && ix[j].price
                        == self.asks_m()[li].price && ix[j].side == Side::Sell;
                assert(false);
            }
        }
        false
    }

    /// Whether one more order of this size fits the depth cache of its
    /// price level on this side.
    pub fn depth_room(&self, side: Side, price: u64, quantity: u64) -> (r: bool)
        ensures
            r == (forall|j: int|
                0 <= j < self.own_side_m(side).len() && (#[trigger] self.own_side_m(side)[
                    j
                ]).price == price ==> self.own_side_m(side)[j].depth + quantity <= u64::MAX),
    {
        let levels: &Vec<Level> = match side {
            Side::Buy => &self.bids,
            Side::Sell => &self.asks,
        };
        let ghost lm = self.own_side_m(side);
        let mut j: usize = 0;
        let n = levels.len();
        while j < n
            invariant
                0 <= j <= n,
                n == levels@.len(),
                lm == level_models(levels@),
                lm == self.own_side_m(side),
                lm.len() == levels@.len(),
                forall|i: int|
                    0 <= i < j && (#[trigger] lm[i]).price == price ==> lm[i].depth + quantity
                        <= u64::MAX,
            decreases n - j,
        {
            if levels[j].price == price && levels[j].depth > u64::MAX - quantity {
                proof {
                    assert(lm[j as int].price == price && lm[j as int].depth + quantity
                        > u64::MAX);
                    assert(lm == self.own_side_m(side));
                }
                return false;
            }
            j = j + 1;
        }
        true
    }

    /// Finds the resting order with this id, if any, and hands back a copy.
    pub fn get_order(&self, order_id: &String) -> (r: Option<Order>)
        requires
            self.wf(),
        ensures
            match r {
                Some(o) => o@.order_id == order_id@ && (match o@.side {
                    Side::Buy => resting_order(self.bids_m(), o@),
                    Side::Sell => resting_order(self.asks_m(), o@),
                }),
                None => !has_id(self.bids_m(), order_id@) && !has_id(self.asks_m(), order_id@),
            },
    {
        let b = Self::find_in_levels(&self.bids, order_id);
        match b {
            Some(o) => {
                proof {
                    let (li, pi) = choose|li: int, pi: int|
                        0 <= li < self.bids_m().len() && 0 <= pi < self.bids_m()[
                            li
                        ].orders.len() && (#[trigger] self.bids_m()[li].orders[pi]) == o@;
                    assert(wf_level(self.bids_m()[li], Side::Buy));
                }
                Some(o)
            },
            None => {
                let a = Self::find_in_levels(&self.asks, order_id);
                match a {
                    Some(o) => {
                        proof {
                            let (li, pi) = choose|li: int, pi: int|
                                0 <= li < self.asks_m().len() && 0 <= pi < self.asks_m()[
                                    li
                                ].orders.len() && (#[trigger] self.asks_m()[li].orders[pi]) == o@;
                            assert(wf_level(self.asks_m()[li], Side::Sell));
                        }
                        Some(o)
                    },
                    None => None,
                }
            },
        }
    }

    fn find_in_levels(levels: &Vec<Level>, order_id: &String) -> (r: Option<Order>)
        ensures
            match r {
                Some(o) => o@.order_id == order_id@ && resting_order(level_models(levels@), o@),
                None => !has_id(level_models(levels@), order_id@),
            },
    {
        let ghost lm = level_models(levels@);
        let mut li: usize = 0;
        let n = levels.len();
        while li < n
            invariant
                0 <= li <= n,
                n == levels@.len(),
                lm == level_models(levels@),
                lm.len() == levels@.len(),
                forall|i: int, p: int|
                    0 <= i < li && 0 <= p < lm[i].orders.len() ==> (#[trigger] lm[i].orders[
                        p
                    ]).order_id != order_id@,
            decreases n - li,
        {
            let orders = &levels[li].orders;
            let mut pi: usize = 0;
            let pn = orders.len();
            while pi < pn
                invariant
                    0 <= pi <= pn,
                    0 <= li < n,
                    n == levels@.len(),
                    pn == orders@.len(),
                    lm == level_models(levels@),
                    lm.len() == levels@.len(),
                    orders@.map_values(|o: Order| o@) == lm[li as int].orders,
                    forall|p: int|
                        0 <= p < pi ==> (#[trigger] lm[li as int].orders[p]).order_id
                            != order_id@,
                decreases pn - pi,
            {
                if orders[pi].order_id.eq(order_id) {
                    let o = orders[pi].duplicate();
                    proof {
                        assert(lm[li as int].orders[pi as int] == o@);
                        assert(resting_order(lm, o@));
                    }
                    return Some(o);
                }
                pi = pi + 1;
            }
            li = li + 1;
        }
        proof {
            if has_id(lm, order_id@) {
                let (i, p) = choose|i: int, p: int|
                    0 <= i < lm.len() && 0 <= p < lm[i].orders.len() && (#[trigger] lm[i].orders[
                        p
                    ]).order_id == order_id@;
                assert(false);
            }
        }
        None
    }

    pub open spec fn ticker_m(&self) -> Seq<char> {
        self.base_asset@ + seq!['_'] + self.quote_asset@
    }

    /// The market identifier, `BASE_QUOTE`.
    pub fn ticker(&self) -> (r: String)
        ensures
            r@ == self.ticker_m(),
    {
        proof {
            reveal_strlit("_");
        }
        let mut r = self.base_asset.clone();
        r.append("_");
        r.append(self.quote_asset.as_str());
        proof {
            assert(r@ =~= self.ticker_m());
        }
        r
    }
}

} // verus!
