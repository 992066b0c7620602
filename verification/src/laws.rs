//! The properties the engine is built around, each proved from the
//! contracts and definitions of the book, the matcher, and the ledger.
use vstd::prelude::*;

use crate::engine::{settle_fill_map, settle_fills_map};
use crate::ledger::{map_lock, map_unlock};
use crate::orderbook::{
    index_ok, lemma_match_level_props, lemma_match_side_props, price_ok, spec_match_level,
    spec_match_side, sum_remaining, wf_level, LevelModel, Orderbook,
};
use crate::types::{OrderModel, Side};

verus! {

/// Asset conservation under a funds lock: `map_lock` — the exact effect
/// `check_and_lock_funds` states on acceptance — moves an order's cost
/// from available to locked within one cell, leaving the cell's total and
/// every other cell unchanged.
pub proof fn lemma_lock_conserves(
    m: Map<(Seq<char>, Seq<char>), (int, int)>,
    user: Seq<char>,
    asset: Seq<char>,
    amount: int,
)
    requires
        0 <= amount,
        m[(user, asset)].1 + amount <= u128::MAX,
    ensures
        ({
            let c0 = m[(user, asset)];
            let c1 = map_lock(m, user, asset, amount)[(user, asset)];
            c1.0 + c1.1 == c0.0 + c0.1
        }),
        forall|k: (Seq<char>, Seq<char>)|
            k != (user, asset) ==> #[trigger] map_lock(m, user, asset, amount)[k] == m[k],
{
}

/// Asset conservation under settlement: `settle_fill_map` — the exact
/// per-fill effect `update_balances` states — takes each amount out of
/// one party's locked funds and credits exactly that amount to the other
/// party's available funds. When the two parties differ and no balance
/// saturates, the quote-asset total over taker and maker is unchanged,
/// the base-asset total over taker and maker is unchanged, and every
/// other cell keeps its value.
pub proof fn lemma_settle_fill_conserves(
    m: Map<(Seq<char>, Seq<char>), (int, int)>,
    taker: Seq<char>,
    base: Seq<char>,
    quote: Seq<char>,
    side: Side,
    f: crate::types::FillModel,
)
    requires
        fill_settles_exactly(m, taker, base, quote, side, f),
        taker != f.maker_user_id,
        base != quote,
    ensures
        ({
            let m1 = settle_fill_map(m, taker, base, quote, side, f);
            let tq0 = m[(taker, quote)];
            let mq0 = m[(f.maker_user_id, quote)];
            let tq1 = m1[(taker, quote)];
            let mq1 = m1[(f.maker_user_id, quote)];
            tq1.0 + tq1.1 + mq1.0 + mq1.1 == tq0.0 + tq0.1 + mq0.0 + mq0.1
        }),
        ({
            let m1 = settle_fill_map(m, taker, base, quote, side, f);
            let tb0 = m[(taker, base)];
            let mb0 = m[(f.maker_user_id, base)];
            let tb1 = m1[(taker, base)];
            let mb1 = m1[(f.maker_user_id, base)];
            tb1.0 + tb1.1 + mb1.0 + mb1.1 == tb0.0 + tb0.1 + mb0.0 + mb0.1
        }),
        forall|k: (Seq<char>, Seq<char>)|
            k != (taker, quote) && k != (f.maker_user_id, quote) && k != (taker, base) && k != (
                f.maker_user_id,
                base,
            ) ==> #[trigger] settle_fill_map(m, taker, base, quote, side, f)[k] == m[k],
{
}

/// The settlement of one fill neither truncates nor saturates: the payers'
/// locked funds cover what leaves them and the payees' available funds
/// have room for what arrives. The two parties differ, so the four cells
/// touched are distinct.
pub open spec fn fill_settles_exactly(
    m: Map<(Seq<char>, Seq<char>), (int, int)>,
    taker: Seq<char>,
    base: Seq<char>,
    quote: Seq<char>,
    side: Side,
    f: crate::types::FillModel,
) -> bool {
    let amt = crate::fixed::quote_units(f.price, f.qty);
    let qu = crate::fixed::base_units(f.qty);
    &&& amt <= u128::MAX
    &&& (match side {
        Side::Buy => {
            &&& m[(taker, quote)].1 >= amt
            &&& m[(f.maker_user_id, quote)].0 + amt <= u128::MAX
            &&& m[(f.maker_user_id, base)].1 >= qu
            &&& m[(taker, base)].0 + qu <= u128::MAX
        },
        Side::Sell => {
            &&& m[(taker, base)].1 >= qu
            &&& m[(f.maker_user_id, base)].0 + qu <= u128::MAX
            &&& m[(f.maker_user_id, quote)].1 >= amt
            &&& m[(taker, quote)].0 + amt <= u128::MAX
        },
    })
}

/// Refund correctness: `map_unlock` — the exact effect `cancel_order`
/// states for the cancelled order's remaining lock — moves exactly the
/// requested amount from locked back to available when the lock covers it,
/// raising one component and lowering the other by the same amount,
/// conserving the cell's total, and touching no other cell.
pub proof fn lemma_refund_exact(
    m: Map<(Seq<char>, Seq<char>), (int, int)>,
    user: Seq<char>,
    asset: Seq<char>,
    amount: int,
)
    requires
        0 <= amount <= m[(user, asset)].1,
        m[(user, asset)].0 + amount <= u128::MAX,
    ensures
        map_unlock(m, user, asset, amount)[(user, asset)] == (
            m[(user, asset)].0 + amount,
            m[(user, asset)].1 - amount,
        ),
        ({
            let c0 = m[(user, asset)];
            let c1 = map_unlock(m, user, asset, amount)[(user, asset)];
            c1.0 + c1.1 == c0.0 + c0.1
        }),
        forall|k: (Seq<char>, Seq<char>)|
            k != (user, asset) ==> #[trigger] map_unlock(m, user, asset, amount)[k] == m[k],
{
}

/// Settlement of a whole fill list without truncation: at every step the
/// four cells touched are covered, and taker and maker differ.
pub open spec fn fills_settle_exactly(
    m: Map<(Seq<char>, Seq<char>), (int, int)>,
    fills: Seq<crate::types::FillModel>,
    taker: Seq<char>,
    base: Seq<char>,
    quote: Seq<char>,
    side: Side,
) -> bool
    decreases fills.len(),
{
    if fills.len() == 0 {
        true
    } else {
        &&& fill_settles_exactly(m, taker, base, quote, side, fills[0])
        &&& taker != fills[0].maker_user_id
        &&& fills_settle_exactly(
            settle_fill_map(m, taker, base, quote, side, fills[0]),
            fills.drop_first(),
            taker,
            base,
            quote,
            side,
        )
    }
}

/// The available-plus-locked total of one asset, summed over a list of
/// users.
pub open spec fn sum_over_users(
    m: Map<(Seq<char>, Seq<char>), (int, int)>,
    us: Seq<Seq<char>>,
    asset: Seq<char>,
) -> int
    decreases us.len(),
{
    if us.len() == 0 {
        0
    } else {
        m[(us[0], asset)].0 + m[(us[0], asset)].1 + sum_over_users(m, us.drop_first(), asset)
    }
}

/// A sum changes only by the deltas of the listed users it contains.
proof fn lemma_sum_delta(
    m1: Map<(Seq<char>, Seq<char>), (int, int)>,
    m2: Map<(Seq<char>, Seq<char>), (int, int)>,
    us: Seq<Seq<char>>,
    asset: Seq<char>,
    u1: Seq<char>,
    u2: Seq<char>,
)
    requires
        u1 != u2,
        us.no_duplicates(),
        forall|u: Seq<char>|
            u != u1 && u != u2 ==> #[trigger] m2[(u, asset)] == m1[(u, asset)],
    ensures
        sum_over_users(m2, us, asset) == sum_over_users(m1, us, asset) + (if us.contains(u1) {
            m2[(u1, asset)].0 + m2[(u1, asset)].1 - m1[(u1, asset)].0 - m1[(u1, asset)].1
        } else {
            0
        }) + (if us.contains(u2) {
            m2[(u2, asset)].0 + m2[(u2, asset)].1 - m1[(u2, asset)].0 - m1[(u2, asset)].1
        } else {
            0
        }),
    decreases us.len(),
{
    if us.len() > 0 {
        let tail = us.drop_first();
        assert(tail.no_duplicates());
        lemma_sum_delta(m1, m2, tail, asset, u1, u2);
        assert(us.contains(us[0]));
        if us[0] == u1 {
            assert(!tail.contains(u1)) by {
                if tail.contains(u1) {
                    let j = choose|j: int| 0 <= j < tail.len() && tail[j] == u1;
                    assert(us[j + 1] == u1);
                }
            }
            assert(us.contains(u1));
            assert(tail.contains(u2) == us.contains(u2)) by {
                if us.contains(u2) {
                    let j = choose|j: int| 0 <= j < us.len() && us[j] == u2;
                    assert(j != 0);
                    assert(tail[j - 1] == u2);
                }
                if tail.contains(u2) {
                    let j = choose|j: int| 0 <= j < tail.len() && tail[j] == u2;
                    assert(us[j + 1] == u2);
                }
            }
        } else if us[0] == u2 {
            assert(!tail.contains(u2)) by {
                if tail.contains(u2) {
                    let j = choose|j: int| 0 <= j < tail.len() && tail[j] == u2;
                    assert(us[j + 1] == u2);
                }
            }
            assert(us.contains(u2));
            assert(tail.contains(u1) == us.contains(u1)) by {
                if us.contains(u1) {
                    let j = choose|j: int| 0 <= j < us.len() && us[j] == u1;
                    assert(j != 0);
                    assert(tail[j - 1] == u1);
                }
                if tail.contains(u1) {
                    let j = choose|j: int| 0 <= j < tail.len() && tail[j] == u1;
                    assert(us[j + 1] == u1);
                }
            }
        } else {
            assert(m2[(us[0], asset)] == m1[(us[0], asset)]);
            assert(tail.contains(u1) == us.contains(u1)) by {
                if us.contains(u1) {
                    let j = choose|j: int| 0 <= j < us.len() && us[j] == u1;
                    assert(j != 0);
                    assert(tail[j - 1] == u1);
                }
                if tail.contains(u1) {
                    let j = choose|j: int| 0 <= j < tail.len() && tail[j] == u1;
                    assert(us[j + 1] == u1);
                }
            }
            assert(tail.contains(u2) == us.contains(u2)) by {
                if us.contains(u2) {
                    let j = choose|j: int| 0 <= j < us.len() && us[j] == u2;
                    assert(j != 0);
                    assert(tail[j - 1] == u2);
                }
                if tail.contains(u2) {
                    let j = choose|j: int| 0 <= j < tail.len() && tail[j] == u2;
                    assert(us[j + 1] == u2);
                }
            }
        }
    }
}

/// A sum is untouched when only one user's cell changes and its own total
/// is conserved.
proof fn lemma_sum_one_cell(
    m1: Map<(Seq<char>, Seq<char>), (int, int)>,
    m2: Map<(Seq<char>, Seq<char>), (int, int)>,
    us: Seq<Seq<char>>,
    asset: Seq<char>,
    u1: Seq<char>,
)
    requires
        forall|u: Seq<char>| u != u1 ==> #[trigger] m2[(u, asset)] == m1[(u, asset)],
        m2[(u1, asset)].0 + m2[(u1, asset)].1 == m1[(u1, asset)].0 + m1[(u1, asset)].1,
    ensures
        sum_over_users(m2, us, asset) == sum_over_users(m1, us, asset),
    decreases us.len(),
{
    if us.len() > 0 {
        lemma_sum_one_cell(m1, m2, us.drop_first(), asset, u1);
        if us[0] != u1 {
            assert(m2[(us[0], asset)] == m1[(us[0], asset)]);
        }
    }
}

/// Asset conservation over a whole settlement (the create-order side of
/// the conservation property): when every fill settles exactly and the
/// listed users — free of duplicates — include the taker and every
/// maker, the base-asset and quote-asset totals over those users are
/// unchanged, and every cell of any other asset keeps its value.
pub proof fn lemma_settle_fills_conserve(
    m: Map<(Seq<char>, Seq<char>), (int, int)>,
    fills: Seq<crate::types::FillModel>,
    taker: Seq<char>,
    base: Seq<char>,
    quote: Seq<char>,
    side: Side,
    us: Seq<Seq<char>>,
    asset: Seq<char>,
)
    requires
        fills_settle_exactly(m, fills, taker, base, quote, side),
        base != quote,
        asset == base || asset == quote,
        us.no_duplicates(),
        us.contains(taker),
        forall|i: int| 0 <= i < fills.len() ==> us.contains((#[trigger] fills[i]).maker_user_id),
    ensures
        sum_over_users(settle_fills_map(m, fills, taker, base, quote, side), us, asset)
            == sum_over_users(m, us, asset),
        forall|k: (Seq<char>, Seq<char>)|
            k.1 != base && k.1 != quote ==> #[trigger] settle_fills_map(
                m,
                fills,
                taker,
                base,
                quote,
                side,
            )[k] == m[k],
    decreases fills.len(),
{
    if fills.len() > 0 {
        let f = fills[0];
        let m1 = settle_fill_map(m, taker, base, quote, side, f);
        lemma_settle_fill_conserves(m, taker, base, quote, side, f);
        assert(us.contains(f.maker_user_id));
        lemma_sum_delta(m, m1, us, asset, taker, f.maker_user_id);
        assert(forall|i: int|
            0 <= i < fills.drop_first().len() ==> us.contains(
                (#[trigger] fills.drop_first()[i]).maker_user_id,
            ));
        lemma_settle_fills_conserve(m1, fills.drop_first(), taker, base, quote, side, us, asset);
    }
}

/// Asset conservation over a funds lock, summed over any user list: the
/// lock moves value inside one cell only.
pub proof fn lemma_lock_conserves_sum(
    m: Map<(Seq<char>, Seq<char>), (int, int)>,
    user: Seq<char>,
    asset: Seq<char>,
    amount: int,
    us: Seq<Seq<char>>,
    a: Seq<char>,
)
    requires
        0 <= amount,
        m[(user, asset)].1 + amount <= u128::MAX,
    ensures
        sum_over_users(map_lock(m, user, asset, amount), us, a) == sum_over_users(m, us, a),
{
    lemma_sum_one_cell(m, map_lock(m, user, asset, amount), us, a, user);
}

/// Asset conservation over a cancel refund, summed over any user list:
/// the refund moves value inside one cell only (the cancel-order side of
/// the conservation property).
pub proof fn lemma_refund_conserves_sum(
    m: Map<(Seq<char>, Seq<char>), (int, int)>,
    user: Seq<char>,
    asset: Seq<char>,
    amount: int,
    us: Seq<Seq<char>>,
    a: Seq<char>,
)
    requires
        0 <= amount,
        m[(user, asset)].0 + (if m[(user, asset)].1 >= amount {
            amount
        } else {
            m[(user, asset)].1
        }) <= u128::MAX,
    ensures
        sum_over_users(map_unlock(m, user, asset, amount), us, a) == sum_over_users(m, us, a),
{
    lemma_sum_one_cell(m, map_unlock(m, user, asset, amount), us, a, user);
}

/// The depth cache is consistent: in a well-formed book, every level's
/// cached depth equals the sum of its orders' remaining quantities.
pub proof fn lemma_depth_cache_consistent(book: &Orderbook)
    requires
        book.wf(),
    ensures
        forall|i: int|
            0 <= i < book.bids_m().len() ==> (#[trigger] book.bids_m()[i]).depth == sum_remaining(
                book.bids_m()[i].orders,
            ),
        forall|i: int|
            0 <= i < book.asks_m().len() ==> (#[trigger] book.asks_m()[i]).depth == sum_remaining(
                book.asks_m()[i].orders,
            ),
{
    assert forall|i: int| 0 <= i < book.bids_m().len() implies (
    #[trigger] book.bids_m()[i]).depth == sum_remaining(book.bids_m()[i].orders) by {
        assert(wf_level(book.bids_m()[i], Side::Buy));
    }
    assert forall|i: int| 0 <= i < book.asks_m().len() implies (
    #[trigger] book.asks_m()[i]).depth == sum_remaining(book.asks_m()[i].orders) by {
        assert(wf_level(book.asks_m()[i], Side::Sell));
    }
}

/// Order-id index consistency: in a well-formed book, the index lists
/// exactly the resting orders, each under its price and side, with no
/// stale or duplicate entries.
pub proof fn lemma_index_consistent(book: &Orderbook)
    requires
        book.wf(),
    ensures
        index_ok(book.bids_m(), book.asks_m(), book.ix_m()),
{
}

/// The book never crosses: in a well-formed book with both sides resting,
/// the best bid is strictly below the best ask.
pub proof fn lemma_non_crossing(book: &Orderbook)
    requires
        book.wf(),
        book.bids_m().len() > 0,
        book.asks_m().len() > 0,
    ensures
        book.bids_m()[0].price < book.asks_m()[0].price,
{
}

/// Monotone trade ids: within one matching operation the fills carry
/// strictly increasing, consecutive trade ids, all above the counter the
/// operation started from; the counter never moves backwards.
pub proof fn lemma_trade_ids_monotone(
    levels: Seq<LevelModel>,
    limit: int,
    want: int,
    tid: int,
    maker_side: Side,
)
    requires
        want >= 0,
        crate::orderbook::wf_side(maker_side, levels),
        crate::orderbook::ids_distinct_side(levels),
    ensures
        ({
            let m = spec_match_side(levels, limit, want, tid, maker_side);
            &&& forall|i: int, j: int|
                0 <= i < j < m.fills.len() ==> (#[trigger] m.fills[i]).trade_id < (
                #[trigger] m.fills[j]).trade_id
            &&& forall|i: int| 0 <= i < m.fills.len() ==> (#[trigger] m.fills[i]).trade_id > tid
            &&& m.next_tid >= tid
        }),
{
    lemma_match_side_props(levels, limit, want, tid, maker_side);
}

/// FIFO time priority: matching consumes a level's makers in queue order,
/// the i-th fill striking the i-th resting order.
pub proof fn lemma_fifo_within_level(orders: Seq<OrderModel>, want: int, tid: int)
    requires
        want >= 0,
        forall|i: int|
            0 <= i < orders.len() ==> (#[trigger] orders[i]).valid() && orders[i].filled
                < orders[i].quantity,
    ensures
        ({
            let m = spec_match_level(orders, want, tid);
            forall|i: int|
                0 <= i < m.fills.len() ==> (#[trigger] m.fills[i]).maker_order_id == orders[
                    i
                ].order_id && m.fills[i].maker_user_id == orders[i].user_id && m.fills[i].price
                    == orders[i].price
        }),
{
    lemma_match_level_props(orders, want, tid);
}

/// The taker's limit is honored: every fill of a matching operation
/// strikes a price no worse than the taker's limit.
pub proof fn lemma_limit_honored(
    levels: Seq<LevelModel>,
    limit: int,
    want: int,
    tid: int,
    maker_side: Side,
)
    requires
        want >= 0,
        crate::orderbook::wf_side(maker_side, levels),
        crate::orderbook::ids_distinct_side(levels),
    ensures
        ({
            let m = spec_match_side(levels, limit, want, tid, maker_side);
            forall|i: int|
                0 <= i < m.fills.len() ==> price_ok(
                    maker_side,
                    (#[trigger] m.fills[i]).price,
                    limit,
                )
        }),
{
    lemma_match_side_props(levels, limit, want, tid, maker_side);
}

/// Asset conservation over one whole accepted order (P-style, at the
/// engine's own contract): `create_applied` pins the post-ledger to the
/// lock followed by the settlement fold, so when the lock does not
/// saturate and every fill settles exactly, the base and quote totals
/// over any duplicate-free user list covering the taker and every maker
/// are unchanged, and no cell of any other asset moves.
pub proof fn lemma_create_order_conserves(
    pre: crate::engine::Engine,
    post: crate::engine::Engine,
    payload: crate::types::InternalCreateOrderPayload,
    oid: Seq<char>,
    bi: int,
    us: Seq<Seq<char>>,
    asset: Seq<char>,
)
    requires
        0 <= bi < pre.orderbooks@.len(),
        crate::engine::create_applied(pre, post, payload, oid, bi),
        ({
            let book = pre.orderbooks@[bi];
            let m0 = crate::ledger::lmap(pre.balances.users@);
            let la = crate::engine::lock_asset_of(payload.side, book.base_asset@, book.quote_asset@);
            let req = crate::engine::lock_required(
                payload.side,
                payload.price as int,
                payload.quantity as int,
            );
            let fills = crate::orderbook::spec_match_side(
                book.opp_side_m(payload.side),
                payload.price as int,
                payload.quantity as int,
                book.last_trade_id as int,
                crate::orderbook::opposite(payload.side),
            ).fills;
            &&& 0 <= req
            &&& m0[(payload.user_id@, la)].1 + req <= u128::MAX
            &&& fills_settle_exactly(
                map_lock(m0, payload.user_id@, la, req),
                fills,
                payload.user_id@,
                book.base_asset@,
                book.quote_asset@,
                payload.side,
            )
            &&& book.base_asset@ != book.quote_asset@
            &&& (asset == book.base_asset@ || asset == book.quote_asset@)
            &&& us.no_duplicates()
            &&& us.contains(payload.user_id@)
            &&& (forall|i: int|
                0 <= i < fills.len() ==> us.contains((#[trigger] fills[i]).maker_user_id))
        }),
    ensures
        sum_over_users(crate::ledger::lmap(post.balances.users@), us, asset) == sum_over_users(
            crate::ledger::lmap(pre.balances.users@),
            us,
            asset,
        ),
{
    let book = pre.orderbooks@[bi];
    let m0 = crate::ledger::lmap(pre.balances.users@);
    let la = crate::engine::lock_asset_of(payload.side, book.base_asset@, book.quote_asset@);
    let req = crate::engine::lock_required(
        payload.side,
        payload.price as int,
        payload.quantity as int,
    );
    let fills = crate::orderbook::spec_match_side(
        book.opp_side_m(payload.side),
        payload.price as int,
        payload.quantity as int,
        book.last_trade_id as int,
        crate::orderbook::opposite(payload.side),
    ).fills;
    let m1 = map_lock(m0, payload.user_id@, la, req);
    lemma_lock_conserves_sum(m0, payload.user_id@, la, req, us, asset);
    lemma_settle_fills_conserve(
        m1,
        fills,
        payload.user_id@,
        book.base_asset@,
        book.quote_asset@,
        payload.side,
        us,
        asset,
    );
}

/// Asset conservation over one whole cancellation: `cancelled_order_ok`
/// pins the post-ledger to the refund of the remaining lock, which moves
/// value only inside the cancelling user's own cell.
pub proof fn lemma_cancel_conserves(
    pre: crate::engine::Engine,
    post: crate::engine::Engine,
    order_id: Seq<char>,
    bi: int,
    r: crate::types::MessageToApi,
    ws0: Seq<crate::types::WsMessage>,
    ws1: Seq<crate::types::WsMessage>,
    om: OrderModel,
    us: Seq<Seq<char>>,
    asset: Seq<char>,
)
    requires
        0 <= bi < pre.orderbooks@.len(),
        crate::engine::cancelled_order_ok(pre, post, order_id, bi, r, ws0, ws1, om),
        ({
            let book = pre.orderbooks@[bi];
            let m0 = crate::ledger::lmap(pre.balances.users@);
            let la = crate::engine::lock_asset_of(om.side, book.base_asset@, book.quote_asset@);
            let refund = crate::engine::lock_required(om.side, om.price, om.remaining());
            &&& 0 <= refund
            &&& m0[(om.user_id, la)].0 + (if m0[(om.user_id, la)].1 >= refund {
                refund
            } else {
                m0[(om.user_id, la)].1
            }) <= u128::MAX
        }),
    ensures
        sum_over_users(crate::ledger::lmap(post.balances.users@), us, asset) == sum_over_users(
            crate::ledger::lmap(pre.balances.users@),
            us,
            asset,
        ),
{
    let book = pre.orderbooks@[bi];
    let m0 = crate::ledger::lmap(pre.balances.users@);
    let la = crate::engine::lock_asset_of(om.side, book.base_asset@, book.quote_asset@);
    let refund = crate::engine::lock_required(om.side, om.price, om.remaining());
    lemma_refund_conserves_sum(m0, om.user_id, la, refund, us, asset);
}

/// What a caller can observe of a cancel reply.
pub open spec fn cancel_obs(msg: crate::types::MessageToApi) -> Option<(Seq<char>, int, int)> {
    match msg {
        crate::types::MessageToApi::OrderCancelled(p) => Some(
            (p.order_id@, p.executed_qty as int, p.remaining_qty as int),
        ),
        _ => None,
    }
}

/// Reply determinism for cancellations: from one frozen book, two
/// cancellations of the same id are observably identical — the resting
/// order with that id is unique, so both replies carry its fields.
pub proof fn lemma_cancel_reply_deterministic(
    pre: crate::engine::Engine,
    bi: int,
    order_id: Seq<char>,
    post1: crate::engine::Engine,
    post2: crate::engine::Engine,
    r1: crate::types::MessageToApi,
    r2: crate::types::MessageToApi,
    w0: Seq<crate::types::WsMessage>,
    w1: Seq<crate::types::WsMessage>,
    w2: Seq<crate::types::WsMessage>,
    w3: Seq<crate::types::WsMessage>,
    om1: OrderModel,
    om2: OrderModel,
)
    requires
        0 <= bi < pre.orderbooks@.len(),
        pre.orderbooks@[bi].wf(),
        crate::engine::cancelled_order_ok(pre, post1, order_id, bi, r1, w0, w1, om1),
        crate::engine::cancelled_order_ok(pre, post2, order_id, bi, r2, w2, w3, om2),
    ensures
        cancel_obs(r1) == cancel_obs(r2),
{
    let book = pre.orderbooks@[bi];
    if om1.side == om2.side {
        let lv = match om1.side {
            Side::Buy => book.bids_m(),
            Side::Sell => book.asks_m(),
        };
        let (l1, p1) = choose|l1: int, p1: int|
            0 <= l1 < lv.len() && 0 <= p1 < lv[l1].orders.len() && (#[trigger] lv[l1].orders[p1])
                == om1;
        let (l2, p2) = choose|l2: int, p2: int|
            0 <= l2 < lv.len() && 0 <= p2 < lv[l2].orders.len() && (#[trigger] lv[l2].orders[p2])
                == om2;
        if l1 != l2 || p1 != p2 {
            assert(lv[l1].orders[p1].order_id != lv[l2].orders[p2].order_id);
            assert(false);
        }
        assert(om1 == om2);
    } else {
        let (lb, pb) = if om1.side == Side::Buy {
            choose|lb: int, pb: int|
                0 <= lb < book.bids_m().len() && 0 <= pb < book.bids_m()[lb].orders.len() && (
                #[trigger] book.bids_m()[lb].orders[pb]) == om1
        } else {
            choose|lb: int, pb: int|
                0 <= lb < book.bids_m().len() && 0 <= pb < book.bids_m()[lb].orders.len() && (
                #[trigger] book.bids_m()[lb].orders[pb]) == om2
        };
        let (la, pa) = if om1.side == Side::Sell {
            choose|la: int, pa: int|
                0 <= la < book.asks_m().len() && 0 <= pa < book.asks_m()[la].orders.len() && (
                #[trigger] book.asks_m()[la].orders[pa]) == om1
        } else {
            choose|la: int, pa: int|
                0 <= la < book.asks_m().len() && 0 <= pa < book.asks_m()[la].orders.len() && (
                #[trigger] book.asks_m()[la].orders[pa]) == om2
        };
        assert(book.bids_m()[lb].orders[pb].order_id != book.asks_m()[la].orders[pa].order_id);
        assert(false);
    }
}

/// What a caller can observe of an order-placed reply: the id, the
/// executed quantity, and each fill's price text, quantity and trade id.
pub open spec fn placed_obs(msg: crate::types::MessageToApi) -> Option<
    (Seq<char>, int, Seq<(Seq<char>, int, int)>),
> {
    match msg {
        crate::types::MessageToApi::OrderPlaced(p) => Some(
            (
                p.order_id@,
                p.executed_qty as int,
                p.fills@.map_values(
                    |f: crate::types::Fill| (f.price@, f.qty as int, f.trade_id as int),
                ),
            ),
        ),
        _ => None,
    }
}

/// Reply determinism: from one frozen book and one request, two accepted
/// placements with the same drawn order id are observably identical.
pub proof fn lemma_reply_deterministic(
    book: Orderbook,
    payload: crate::types::InternalCreateOrderPayload,
    order_id: Seq<char>,
    m1: crate::types::MessageToApi,
    m2: crate::types::MessageToApi,
)
    requires
        crate::engine::placed_reply_ok(book, payload, order_id, m1),
        crate::engine::placed_reply_ok(book, payload, order_id, m2),
    ensures
        placed_obs(m1) == placed_obs(m2),
{
    let o1 = placed_obs(m1)->0;
    let o2 = placed_obs(m2)->0;
    assert(o1.0 == o2.0);
    assert(o1.1 == o2.1);
    assert(o1.2 =~= o2.2);
}

} // verus!
