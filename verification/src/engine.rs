//! The matching engine: owns every order book and the balance ledger,
//! consumes one parsed request at a time, and emits the reply, the storage
//! records, and the market-data events that the request gives rise to.
use vstd::prelude::*;
use vstd::string::StringExecFns;

use crate::engine_consts::BASE_CURRENCY;
use crate::fixed::{base_units, quote_units, base_units_exec, quote_units_checked, AMOUNT_SCALE};
use crate::ledger::{
    cell_view, lemma_lmap_reads, lemma_map_step, lmap, map_credit, map_debit_locked, map_lock,
    map_unlock, sat_add, Ledger, UserEntry,
};
use crate::numfmt::{dec_chars, hex_pad16, u64_to_dec_string, u64_to_hex_string_padded};
use crate::orderbook::{fill_models, opposite, spec_match_side, Orderbook};
use crate::types::{
    DbMessage, DbMessageData, DbMessageType, DepthUpdateMessage, InternalCreateOrderPayload,
    InternalMessage, MessageFromApi, MessageToApi, Order, OrderCancelledPayload,
    OrderPlacedPayload, OrderUpdate, OrderbookFill, Side, TradeAdd, TradeUpdateMessage, WsMessage,
    WsPayload,
};

verus! {

/// One request together with the reply channel it came from.
pub struct ProcessParams {
    pub message: InternalMessage,
    pub client_id: String,
}

impl ProcessParams {
    /// Parses a wire request, keeping the reply channel with it; the
    /// parse outcome is exactly the wire grammar's.
    pub fn from_api_message(api_message: MessageFromApi, client_id: String) -> (r: Result<
        ProcessParams,
        String,
    >)
        ensures
            r matches Ok(p) ==> p.client_id@ == client_id@ && crate::types::parse_ok(
                api_message,
                Ok(p.message),
            ),
            r matches Err(e) ==> crate::types::parse_ok(api_message, Err(e)),
    {
        let internal_message = match InternalMessage::from_api_message(api_message) {
            Ok(m) => m,
            Err(e) => {
                return Err(e);
            },
        };
        Ok(ProcessParams { message: internal_message, client_id })
    }
}

/// Everything one request produces: at most one reply, the records for the
/// storage worker, and the market-data events, in emission order.
pub struct EngineOutput {
    pub reply: Option<MessageToApi>,
    pub db_messages: Vec<DbMessage>,
    pub ws_messages: Vec<WsMessage>,
}

pub struct Engine {
    pub orderbooks: Vec<Orderbook>,
    pub balances: Ledger,
}

impl Engine {
    /// Every book the engine owns satisfies the order-book invariant.
    pub open spec fn wf(&self) -> bool {
        forall|i: int| 0 <= i < self.orderbooks@.len() ==> (#[trigger] self.orderbooks@[i]).wf()
    }

    /// One market `TATA_INR`, and one user `1` holding a million of each
    /// of its assets.
    pub fn new() -> (r: Engine)
        ensures
            r.wf(),
            r.orderbooks@.len() == 1,
            r.orderbooks@[0].ticker_m() == "TATA_INR"@,
            r.orderbooks@[0].bids_m().len() == 0,
            r.orderbooks@[0].asks_m().len() == 0,
            r.orderbooks@[0].last_trade_id == 0,
            r.balances.avail_of("1"@, "INR"@) == 1_000_000 * (AMOUNT_SCALE as int),
            r.balances.locked_of("1"@, "INR"@) == 0,
            r.balances.avail_of("1"@, "TATA"@) == 1_000_000 * (AMOUNT_SCALE as int),
            r.balances.locked_of("1"@, "TATA"@) == 0,
    {
        let orderbook = Orderbook::new("TATA".to_owned(), Vec::new(), Vec::new(), None, None);
        let mut balances = Ledger::new();
        let user = "1".to_owned();
        let million: u128 = 1_000_000u128 * AMOUNT_SCALE;
        proof {
            reveal_strlit("TATA");
            reveal_strlit("INR");
            assert("INR"@ != "TATA"@) by {
                assert("INR"@.len() == 3);
                assert("TATA"@.len() == 4);
            }
        }
        let ghost l0 = balances;
        balances.credit_available(&user, BASE_CURRENCY, million);
        let ghost l1 = balances;
        proof {
            assert(l0.avail_of(user@, "INR"@) == 0);
            assert(l0.locked_of(user@, "INR"@) == 0);
            assert(l1.avail_of(user@, "INR"@) == million);
            assert(l1.locked_of(user@, "INR"@) == 0);
            assert(l0.avail_of(user@, "TATA"@) == 0);
            assert(l0.locked_of(user@, "TATA"@) == 0);
            assert(cell_view(l1.users@, user@, "TATA"@) == cell_view(l0.users@, user@, "TATA"@));
            crate::ledger::lemma_lmap_reads(&l0, user@, "TATA"@);
            crate::ledger::lemma_lmap_reads(&l1, user@, "TATA"@);
            assert(l1.avail_of(user@, "TATA"@) == 0);
            assert(l1.locked_of(user@, "TATA"@) == 0);
        }
        balances.credit_available(&user, "TATA", million);
        proof {
            assert(cell_view(balances.users@, user@, "INR"@) == cell_view(l1.users@, user@,
                "INR"@));
            crate::ledger::lemma_lmap_reads(&l1, user@, "INR"@);
            crate::ledger::lemma_lmap_reads(&balances, user@, "INR"@);
            assert(balances.avail_of(user@, "INR"@) == million);
            assert(balances.locked_of(user@, "INR"@) == 0);
            assert(balances.avail_of(user@, "TATA"@) == million);
            assert(balances.locked_of(user@, "TATA"@) == 0);
        }
        let mut orderbooks: Vec<Orderbook> = Vec::new();
        orderbooks.push(orderbook);
        let r = Engine { orderbooks, balances };
        proof {
            assert forall|i: int| 0 <= i < r.orderbooks@.len() implies (
            #[trigger] r.orderbooks@[i]).wf() by {
                assert(r.orderbooks@[i] == r.orderbooks@[0]);
            }
            reveal_strlit("TATA");
            reveal_strlit("INR");
            reveal_strlit("TATA_INR");
            reveal_strlit("1");
            assert(r.orderbooks@[0].ticker_m() =~= "TATA_INR"@);
            assert("INR"@ != "TATA"@) by {
                assert("INR"@.len() == 3);
                assert("TATA"@.len() == 4);
            }
        }
        r
    }

    /// Adds a further market's book.
    pub fn add_orderbook(&mut self, orderbook: Orderbook)
        requires
            old(self).wf(),
            orderbook.wf(),
        ensures
            final(self).wf(),
            final(self).orderbooks@ == old(self).orderbooks@.push(orderbook),
            final(self).balances == old(self).balances,
    {
        self.orderbooks.push(orderbook);
        proof {
            assert forall|i: int| 0 <= i < self.orderbooks@.len() implies (
            #[trigger] self.orderbooks@[i]).wf() by {
                if i < old(self).orderbooks@.len() {
                    assert(self.orderbooks@[i] == old(self).orderbooks@[i]);
                } else {
                    assert(self.orderbooks@[i] == orderbook);
                }
            }
        }
    }

    /// Index of the first book whose ticker is this market.
    fn find_orderbook(&self, market: &String) -> (r: Option<usize>)
        ensures
            match r {
                Some(i) => first_book(self.orderbooks@, market@, i as int),
                None => no_book(self.orderbooks@, market@),
            },
    {
        let mut i: usize = 0;
        let n = self.orderbooks.len();
        while i < n
            invariant
                0 <= i <= n,
                n == self.orderbooks@.len(),
                forall|j: int|
                    0 <= j < i ==> (#[trigger] self.orderbooks@[j]).ticker_m() != market@,
            decreases n - i,
        {
            let t = self.orderbooks[i].ticker();
            if t.eq(market) {
                return Some(i);
            }
            i = i + 1;
        }
        None
    }

    /// A fresh 128-bit order id rendered as exactly thirty-two hex
    /// digits: two zero-padded 64-bit halves, so distinct draws always
    /// render distinctly.
    pub fn get_random_id(&self) -> (r: String)
        ensures
            exists|a: u64, b: u64| r@ == hex_pad16(a as int) + hex_pad16(b as int),
            r@.len() == 32,
    {
        let id1 = random_u64();
        let id2 = random_u64();
        let mut s = u64_to_hex_string_padded(id1);
        let s2 = u64_to_hex_string_padded(id2);
        s.append(s2.as_str());
        proof {
            assert(hex_id_of(id1, id2, s@));
        }
        s
    }

    /// Checks the caller's funds and locks what the order would need: the
    /// quote value `price * quantity` for a buy, the base `quantity` for a
    /// sell. Success is owed exactly when the user exists, holds the needed
    /// asset, and its available funds cover the requirement; the error
    /// names which of the three failed.
    fn check_and_lock_funds(
        &mut self,
        base_asset: &String,
        quote_asset: &String,
        side: Side,
        user_id: &String,
        price: u64,
        quantity: u64,
    ) -> (r: Result<(), String>)
        ensures
            final(self).orderbooks == old(self).orderbooks,
            ({
                let asset = lock_asset_of(side, base_asset@, quote_asset@);
                let required = lock_required(side, price as int, quantity as int);
                &&& (r is Ok <==> old(self).balances.has_user(user_id@) && old(
                    self,
                ).balances.has_entry(user_id@, asset) && old(self).balances.avail_of(
                    user_id@,
                    asset,
                ) >= required)
                &&& (r is Ok ==> lmap(final(self).balances.users@) == map_lock(
                    lmap(old(self).balances.users@),
                    user_id@,
                    asset,
                    required,
                ))
                &&& (r matches Err(e) ==> final(self).balances == old(self).balances && {
                    if !old(self).balances.has_user(user_id@) {
                        e@ == "User not found"@
                    } else if !old(self).balances.has_entry(user_id@, asset) {
                        if side == Side::Buy {
                            e@ == "User quote balance not found"@
                        } else {
                            e@ == "User base balance not found"@
                        }
                    } else {
                        if side == Side::Buy {
                            e@ == "Insufficient quote balance"@
                        } else {
                            e@ == "Insufficient base balance"@
                        }
                    }
                })
            }),
    {
        let ghost pre = self.balances.users@;
        if !self.balances.contains_user(user_id) {
            return Err("User not found".to_owned());
        }
        match side {
            Side::Buy => {
                if !self.balances.contains_entry(user_id, quote_asset.as_str()) {
                    return Err("User quote balance not found".to_owned());
                }
                let required = match quote_units_checked(price, quantity) {
                    Some(v) => v,
                    None => {
                        // the cost exceeds any representable balance
                        return Err("Insufficient quote balance".to_owned());
                    },
                };
                if self.balances.lock_funds(user_id, quote_asset.as_str(), required) {
                    proof {
                        lemma_lmap_reads(&old(self).balances, user_id@, quote_asset@);
                        lemma_map_step(pre, self.balances.users@, user_id@, quote_asset@);
                        lemma_lmap_reads(&self.balances, user_id@, quote_asset@);
                        assert(lmap(self.balances.users@) =~= map_lock(
                            lmap(pre),
                            user_id@,
                            quote_asset@,
                            (required as int),
                        ));
                    }
                    Ok(())
                } else {
                    Err("Insufficient quote balance".to_owned())
                }
            },
            Side::Sell => {
                if !self.balances.contains_entry(user_id, base_asset.as_str()) {
                    return Err("User base balance not found".to_owned());
                }
                let required = base_units_exec(quantity);
                if self.balances.lock_funds(user_id, base_asset.as_str(), required) {
                    proof {
                        lemma_lmap_reads(&old(self).balances, user_id@, base_asset@);
                        lemma_map_step(pre, self.balances.users@, user_id@, base_asset@);
                        lemma_lmap_reads(&self.balances, user_id@, base_asset@);
                        assert(lmap(self.balances.users@) =~= map_lock(
                            lmap(pre),
                            user_id@,
                            base_asset@,
                            (required as int),
                        ));
                    }
                    Ok(())
                } else {
                    Err("Insufficient base balance".to_owned())
                }
            },
        }
    }

    /// Settles the balances for every fill, in fill order: for a buy-side
    /// taker, each fill moves its quote value from the taker's locked
    /// funds to the maker's available funds and the base quantity from the
    /// maker's locked funds to the taker's available funds; a sell-side
    /// taker is the mirror image. The resulting ledger is exactly the fold
    /// of [`settle_fill_map`] over the fills.
    fn update_balances(
        &mut self,
        user_id: &String,
        base_asset: &String,
        quote_asset: &String,
        side: Side,
        fills: &Vec<OrderbookFill>,
        _executed_quantity: u64,
    )
        ensures
            final(self).orderbooks == old(self).orderbooks,
            lmap(final(self).balances.users@) == settle_fills_map(
                lmap(old(self).balances.users@),
                fill_models(fills@),
                user_id@,
                base_asset@,
                quote_asset@,
                side,
            ),
    {
        let ghost fm = fill_models(fills@);
        let ghost m0 = lmap(old(self).balances.users@);
        let mut i: usize = 0;
        let n = fills.len();
        while i < n
            invariant
                n == fills@.len(),
                0 <= i <= n,
                fm == fill_models(fills@),
                m0 == lmap(old(self).balances.users@),
                self.orderbooks == old(self).orderbooks,
                lmap(self.balances.users@) == settle_fills_map(
                    m0,
                    fm.take(i as int),
                    user_id@,
                    base_asset@,
                    quote_asset@,
                    side,
                ),
            decreases n - i,
        {
            proof {
                lemma_settle_fills_map_take(m0, fm, user_id@, base_asset@, quote_asset@, side,
                    i as int);
            }
            let fill = &fills[i];
            let ghost f = fm[i as int];
            let qty_units = base_units_exec(fill.fill.qty);
            let ghost s0 = self.balances.users@;
            let amount_units = match quote_units_checked(fill.fill.price_u64, fill.fill.qty) {
                Some(v) => v,
                None => {
                    // beyond any representable balance; nothing exact to move
                    proof {
                        assert(settle_fill_map(lmap(s0), user_id@, base_asset@, quote_asset@,
                            side, f) == lmap(s0));
                    }
                    i = i + 1;
                    continue ;
                },
            };
            match side {
                Side::Buy => {
                    // taker bought: quote moves taker -> maker, base maker -> taker
                    let ghost g0 = self.balances.users@;
                    self.balances.debit_locked(user_id, quote_asset.as_str(), amount_units);
                    proof {
                        lemma_debit_step(g0, self.balances.users@, user_id@,
                            quote_asset@, amount_units);
                    }
                    let ghost g1 = self.balances.users@;
                    self.balances.credit_available(
                        &fill.other_user_id,
                        quote_asset.as_str(),
                        amount_units,
                    );
                    proof {
                        lemma_credit_step(g1, self.balances.users@,
                            fill.other_user_id@, quote_asset@, amount_units);
                    }
                    let ghost g2 = self.balances.users@;
                    self.balances.debit_locked(
                        &fill.other_user_id,
                        base_asset.as_str(),
                        qty_units,
                    );
                    proof {
                        lemma_debit_step(g2, self.balances.users@,
                            fill.other_user_id@, base_asset@, qty_units);
                    }
                    let ghost g3 = self.balances.users@;
                    self.balances.credit_available(user_id, base_asset.as_str(), qty_units);
                    proof {
                        lemma_credit_step(g3, self.balances.users@, user_id@,
                            base_asset@, qty_units);
                        assert(lmap(self.balances.users@) == settle_fill_map(lmap(g0), user_id@,
                            base_asset@, quote_asset@, side, f));
                    }
                },
                Side::Sell => {
                    // taker sold: base moves taker -> maker, quote maker -> taker
                    let ghost g0 = self.balances.users@;
                    self.balances.debit_locked(user_id, base_asset.as_str(), qty_units);
                    proof {
                        lemma_debit_step(g0, self.balances.users@, user_id@,
                            base_asset@, qty_units);
                    }
                    let ghost g1 = self.balances.users@;
                    self.balances.credit_available(
                        &fill.other_user_id,
                        base_asset.as_str(),
                        qty_units,
                    );
                    proof {
                        lemma_credit_step(g1, self.balances.users@,
                            fill.other_user_id@, base_asset@, qty_units);
                    }
                    let ghost g2 = self.balances.users@;
                    self.balances.debit_locked(
                        &fill.other_user_id,
                        quote_asset.as_str(),
                        amount_units,
                    );
                    proof {
                        lemma_debit_step(g2, self.balances.users@,
                            fill.other_user_id@, quote_asset@, amount_units);
                    }
                    let ghost g3 = self.balances.users@;
                    self.balances.credit_available(user_id, quote_asset.as_str(), amount_units);
                    proof {
                        lemma_credit_step(g3, self.balances.users@, user_id@,
                            quote_asset@, amount_units);
                        assert(lmap(self.balances.users@) == settle_fill_map(lmap(g0), user_id@,
                            base_asset@, quote_asset@, side, f));
                    }
                },
            }
            i = i + 1;
        }
        proof {
            assert(fm.take(n as int) =~= fm);
        }
    }
}

/// The asset a new order's lock is taken in.
pub open spec fn lock_asset_of(side: Side, base: Seq<char>, quote: Seq<char>) -> Seq<char> {
    match side {
        Side::Buy => quote,
        Side::Sell => base,
    }
}

/// The units a new order's lock requires.
pub open spec fn lock_required(side: Side, price: int, quantity: int) -> int {
    match side {
        Side::Buy => quote_units(price, quantity),
        Side::Sell => base_units(quantity),
    }
}

/// What settling one fill does to the ledger map, in the order the
/// settlement performs its four moves; a fill whose quote value exceeds
/// every representable balance moves nothing.
pub open spec fn settle_fill_map(
    m: Map<(Seq<char>, Seq<char>), (int, int)>,
    taker: Seq<char>,
    base: Seq<char>,
    quote: Seq<char>,
    side: Side,
    f: crate::types::FillModel,
) -> Map<(Seq<char>, Seq<char>), (int, int)> {
    if quote_units(f.price, f.qty) > u128::MAX {
        m
    } else {
        let amt = quote_units(f.price, f.qty);
        let qu = base_units(f.qty);
        match side {
            Side::Buy => map_credit(
                map_debit_locked(
                    map_credit(map_debit_locked(m, taker, quote, amt), f.maker_user_id, quote, amt),
                    f.maker_user_id,
                    base,
                    qu,
                ),
                taker,
                base,
                qu,
            ),
            Side::Sell => map_credit(
                map_debit_locked(
                    map_credit(map_debit_locked(m, taker, base, qu), f.maker_user_id, base, qu),
                    f.maker_user_id,
                    quote,
                    amt,
                ),
                taker,
                quote,
                amt,
            ),
        }
    }
}

/// The ledger after settling a whole list of fills, front to back.
pub open spec fn settle_fills_map(
    m: Map<(Seq<char>, Seq<char>), (int, int)>,
    fills: Seq<crate::types::FillModel>,
    taker: Seq<char>,
    base: Seq<char>,
    quote: Seq<char>,
    side: Side,
) -> Map<(Seq<char>, Seq<char>), (int, int)>
    decreases fills.len(),
{
    if fills.len() == 0 {
        m
    } else {
        settle_fills_map(
            settle_fill_map(m, taker, base, quote, side, fills[0]),
            fills.drop_first(),
            taker,
            base,
            quote,
            side,
        )
    }
}

/// One more fill extends the fold by one settlement step.
pub proof fn lemma_settle_fills_map_take(
    m: Map<(Seq<char>, Seq<char>), (int, int)>,
    fills: Seq<crate::types::FillModel>,
    taker: Seq<char>,
    base: Seq<char>,
    quote: Seq<char>,
    side: Side,
    i: int,
)
    requires
        0 <= i < fills.len(),
    ensures
        settle_fills_map(m, fills.take(i + 1), taker, base, quote, side) == settle_fill_map(
            settle_fills_map(m, fills.take(i), taker, base, quote, side),
            taker,
            base,
            quote,
            side,
            fills[i],
        ),
    decreases i,
{
    let a = fills.take(i + 1);
    let b = fills.take(i);
    if i == 0 {
        assert(a.len() == 1);
        assert(a[0] == fills[0]);
        assert(a.drop_first() =~= Seq::<crate::types::FillModel>::empty());
        assert(b =~= Seq::<crate::types::FillModel>::empty());
        assert(settle_fills_map(m, a, taker, base, quote, side) == settle_fills_map(
            settle_fill_map(m, taker, base, quote, side, a[0]),
            a.drop_first(),
            taker,
            base,
            quote,
            side,
        ));
        assert(settle_fills_map(m, b, taker, base, quote, side) == m);
    } else {
        assert(a.len() == i + 1);
        assert(b.len() == i);
        assert(a[0] == fills[0]);
        assert(b[0] == fills[0]);
        assert(a.drop_first() =~= fills.drop_first().take(i));
        assert(b.drop_first() =~= fills.drop_first().take(i - 1));
        assert(fills.drop_first()[i - 1] == fills[i]);
        let m1 = settle_fill_map(m, taker, base, quote, side, fills[0]);
        lemma_settle_fills_map_take(m1, fills.drop_first(), taker, base, quote, side, i - 1);
        assert(settle_fills_map(m, a, taker, base, quote, side) == settle_fills_map(
            m1,
            a.drop_first(),
            taker,
            base,
            quote,
            side,
        ));
        assert(settle_fills_map(m, b, taker, base, quote, side) == settle_fills_map(
            m1,
            b.drop_first(),
            taker,
            base,
            quote,
            side,
        ));
        assert(settle_fills_map(m1, fills.drop_first().take(i), taker, base, quote, side)
            == settle_fill_map(
            settle_fills_map(m1, fills.drop_first().take(i - 1), taker, base, quote, side),
            taker,
            base,
            quote,
            side,
            fills.drop_first()[i - 1],
        ));
    }
}

/// One executed debit from locked funds, lifted to the ledger map.
proof fn lemma_debit_step(
    pre: Seq<UserEntry>,
    post: Seq<UserEntry>,
    u: Seq<char>,
    a: Seq<char>,
    x: u128,
)
    requires
        ({
            let moved = if cell_view(pre, u, a).1 >= x {
                x as int
            } else {
                cell_view(pre, u, a).1
            };
            &&& cell_view(post, u, a) == (cell_view(pre, u, a).0, cell_view(pre, u, a).1 - moved)
            &&& forall|u2: Seq<char>, a2: Seq<char>|
                u2 != u || a2 != a ==> #[trigger] cell_view(post, u2, a2) == cell_view(pre, u2, a2)
        }),
    ensures
        lmap(post) == map_debit_locked(lmap(pre), u, a, x as int),
{
    lemma_map_step(pre, post, u, a);
    assert(lmap(post) =~= map_debit_locked(lmap(pre), u, a, x as int));
}

/// One executed credit to available funds, lifted to the ledger map.
proof fn lemma_credit_step(
    pre: Seq<UserEntry>,
    post: Seq<UserEntry>,
    u: Seq<char>,
    a: Seq<char>,
    x: u128,
)
    requires
        cell_view(post, u, a) == (
            sat_add(cell_view(pre, u, a).0, x as int),
            cell_view(pre, u, a).1,
        ),
        forall|u2: Seq<char>, a2: Seq<char>|
            u2 != u || a2 != a ==> #[trigger] cell_view(post, u2, a2) == cell_view(pre, u2, a2),
    ensures
        lmap(post) == map_credit(lmap(pre), u, a, x as int),
{
    lemma_map_step(pre, post, u, a);
    assert(lmap(post) =~= map_credit(lmap(pre), u, a, x as int));
}

// ---------------------------------------------------------------------------
// Reply, record and event shapes
// ---------------------------------------------------------------------------

/// The reply that signals a rejected or unknown order: an empty id and
/// zero quantities.
pub open spec fn rejection_reply_shape(msg: MessageToApi) -> bool {
    msg matches MessageToApi::OrderCancelled(p) && p.order_id@.len() == 0 && p.executed_qty == 0
        && p.remaining_qty == 0
}

/// The reply a successful order placement owes: the fresh id, and the
/// executed quantity and fills exactly as the book matched them.
pub open spec fn placed_reply_ok(
    book: Orderbook,
    payload: InternalCreateOrderPayload,
    order_id: Seq<char>,
    msg: MessageToApi,
) -> bool {
    let m = spec_match_side(
        book.opp_side_m(payload.side),
        payload.price as int,
        payload.quantity as int,
        book.last_trade_id as int,
        opposite(payload.side),
    );
    &&& msg matches MessageToApi::OrderPlaced(p)
    &&& p.order_id@ == order_id
    &&& p.executed_qty == m.executed
    &&& p.fills@.len() == m.fills.len()
    &&& forall|k: int|
        0 <= k < m.fills.len() ==> (#[trigger] p.fills@[k]).price@ == dec_chars(m.fills[k].price)
            && p.fills@[k].qty == m.fills[k].qty && p.fills@[k].trade_id == m.fills[k].trade_id
}

/// One `TRADE_ADDED` storage record for one fill.
pub open spec fn trade_record_ok(
    rec: DbMessage,
    f: crate::types::FillModel,
    market: Seq<char>,
    side: Side,
    ts: Seq<char>,
) -> bool {
    &&& rec.db_message_type is TradeAdded
    &&& rec.data matches DbMessageData::TradeAdd(t)
    &&& t.id@ == dec_chars(f.trade_id)
    &&& t.is_buyer_maker == (side == Side::Sell)
    &&& t.price@ == dec_chars(f.price)
    &&& t.quantity@ == dec_chars(f.qty)
    &&& t.quote_quantity@ == dec_chars(f.price * f.qty)
    &&& t.timestamp@ == ts
    &&& t.market@ == market
}

/// The taker's `ORDER_UPDATE` storage record.
pub open spec fn taker_order_record_ok(
    rec: DbMessage,
    oid: Seq<char>,
    executed: int,
    payload: InternalCreateOrderPayload,
) -> bool {
    &&& rec.db_message_type is OrderUpdate
    &&& rec.data matches DbMessageData::OrderUpdate(o)
    &&& o.order_id@ == oid
    &&& o.executed_quantity == executed
    &&& (o.price matches Some(p) && p@ == dec_chars(payload.price as int))
    &&& (o.market matches Some(mk) && mk@ == payload.market@)
    &&& (o.quantity matches Some(q) && q@ == dec_chars(payload.quantity as int))
    &&& o.side == Some(payload.side)
}

/// The per-fill `ORDER_UPDATE` storage record, keyed by trade id.
pub open spec fn fill_order_record_ok(rec: DbMessage, f: crate::types::FillModel) -> bool {
    &&& rec.db_message_type is OrderUpdate
    &&& rec.data matches DbMessageData::OrderUpdate(o)
    &&& o.order_id@ == dec_chars(f.trade_id)
    &&& o.executed_quantity == f.qty
    &&& o.price is None
    &&& o.market is None
    &&& o.quantity is None
    &&& o.side is None
}

/// The prices of a list of fills, in fill order.
pub open spec fn fill_prices(fills: Seq<crate::types::FillModel>) -> Seq<int> {
    fills.map_values(|f: crate::types::FillModel| f.price)
}

/// A price list with later repeats removed, first occurrences kept in
/// order; `seen` carries the prices already emitted.
pub open spec fn dedup_rec(ps: Seq<int>, seen: Seq<int>) -> Seq<int>
    decreases ps.len(),
{
    if ps.len() == 0 {
        Seq::empty()
    } else if seen.contains(ps[0]) {
        dedup_rec(ps.drop_first(), seen)
    } else {
        seq![ps[0]] + dedup_rec(ps.drop_first(), seen.push(ps[0]))
    }
}

pub open spec fn dedup_prices(ps: Seq<int>) -> Seq<int> {
    dedup_rec(ps, Seq::empty())
}

/// One depth event: the market's stream name, and on each side one row
/// per touched price level — a level no longer in the book reported at
/// quantity `0`, so subscribers see it emptied.
pub open spec fn depth_event_ok(
    ev: WsMessage,
    book: Orderbook,
    market: Seq<char>,
    bid_prices: Seq<int>,
    ask_prices: Seq<int>,
) -> bool {
    &&& ev.stream@ == "depth@"@ + market
    &&& ev.data matches WsPayload::Depth(d)
    &&& d.e@ == "depth"@
    &&& Orderbook::touched_rows_ok(book.bids_m(), bid_prices, d.b@)
    &&& Orderbook::touched_rows_ok(book.asks_m(), ask_prices, d.a@)
}

/// One trade event for one fill.
pub open spec fn trade_event_ok(
    ev: WsMessage,
    f: crate::types::FillModel,
    market: Seq<char>,
    side: Side,
) -> bool {
    &&& ev.stream@ == "trades@"@ + market
    &&& ev.data matches WsPayload::Trade(t)
    &&& t.e@ == "trade"@
    &&& t.t == f.trade_id
    &&& t.m == (side == Side::Sell)
    &&& t.p@ == dec_chars(f.price)
    &&& t.q@ == dec_chars(f.qty)
    &&& t.s@ == market
}

// ---------------------------------------------------------------------------
// What each request kind owes
// ---------------------------------------------------------------------------

/// No book carries the market.
pub open spec fn no_book(books: Seq<Orderbook>, market: Seq<char>) -> bool {
    forall|i: int| 0 <= i < books.len() ==> (#[trigger] books[i]).ticker_m() != market
}

/// `bi` is the first book carrying the market.
pub open spec fn first_book(books: Seq<Orderbook>, market: Seq<char>, bi: int) -> bool {
    &&& 0 <= bi < books.len()
    &&& books[bi].ticker_m() == market
    &&& forall|j: int| 0 <= j < bi ==> (#[trigger] books[j]).ticker_m() != market
}

/// The depth cache of every level at this price has room for the order.
pub open spec fn depth_guard(book: Orderbook, side: Side, price: int, quantity: int) -> bool {
    forall|j: int|
        0 <= j < book.own_side_m(side).len() && (#[trigger] book.own_side_m(side)[j]).price
            == price ==> book.own_side_m(side)[j].depth + quantity <= u64::MAX
}

/// Whether book `bi` accepts this order: the trade-id counter and the
/// depth cache have room, the drawn id is fresh, and the caller's funds
/// cover the lock.
pub open spec fn create_accepted(
    pre: Engine,
    bi: int,
    payload: InternalCreateOrderPayload,
    oid: Seq<char>,
) -> bool {
    let book = pre.orderbooks@[bi];
    let asset = lock_asset_of(payload.side, book.base_asset@, book.quote_asset@);
    let required = lock_required(payload.side, payload.price as int, payload.quantity as int);
    &&& book.last_trade_id + payload.quantity <= u64::MAX
    &&& depth_guard(book, payload.side, payload.price as int, payload.quantity as int)
    &&& !crate::orderbook::has_id(book.bids_m(), oid)
    &&& !crate::orderbook::has_id(book.asks_m(), oid)
    &&& pre.balances.has_user(payload.user_id@)
    &&& pre.balances.has_entry(payload.user_id@, asset)
    &&& pre.balances.avail_of(payload.user_id@, asset) >= required
}

/// What an accepted order does to the engine: the book matches and rests
/// per the matcher's spec, and the ledger is the lock followed by the
/// settlement of every fill.
pub open spec fn create_applied(
    pre: Engine,
    post: Engine,
    payload: InternalCreateOrderPayload,
    oid: Seq<char>,
    bi: int,
) -> bool {
    let book = pre.orderbooks@[bi];
    let m = spec_match_side(
        book.opp_side_m(payload.side),
        payload.price as int,
        payload.quantity as int,
        book.last_trade_id as int,
        opposite(payload.side),
    );
    let nb = post.orderbooks@[bi];
    let rested = crate::types::OrderModel {
        order_id: oid,
        user_id: payload.user_id@,
        price: payload.price as int,
        quantity: payload.quantity as int,
        filled: m.executed,
        side: payload.side,
    };
    &&& post.orderbooks@.len() == pre.orderbooks@.len()
    &&& forall|j: int|
        0 <= j < pre.orderbooks@.len() && j != bi ==> (#[trigger] post.orderbooks@[j])
            == pre.orderbooks@[j]
    &&& nb.opp_side_m(payload.side) == m.levels
    &&& nb.last_trade_id == m.next_tid
    &&& (m.executed < payload.quantity ==> nb.own_side_m(payload.side)
        == crate::orderbook::spec_insert(book.own_side_m(payload.side), rested, payload.side))
    &&& (m.executed == payload.quantity ==> nb.own_side_m(payload.side) == book.own_side_m(
        payload.side,
    ))
    &&& nb.base_asset@ == book.base_asset@
    &&& nb.quote_asset@ == book.quote_asset@
    &&& nb.current_price == book.current_price
    &&& lmap(post.balances.users@) == settle_fills_map(
        map_lock(
            lmap(pre.balances.users@),
            payload.user_id@,
            lock_asset_of(payload.side, book.base_asset@, book.quote_asset@),
            lock_required(payload.side, payload.price as int, payload.quantity as int),
        ),
        m.fills,
        payload.user_id@,
        book.base_asset@,
        book.quote_asset@,
        payload.side,
    )
}

/// The storage records and market-data events an accepted order appends.
pub open spec fn create_outputs(
    pre: Engine,
    post: Engine,
    payload: InternalCreateOrderPayload,
    oid: Seq<char>,
    bi: int,
    ts: Seq<char>,
    db0: Seq<DbMessage>,
    db1: Seq<DbMessage>,
    ws0: Seq<WsMessage>,
    ws1: Seq<WsMessage>,
) -> bool {
    let book = pre.orderbooks@[bi];
    let m = spec_match_side(
        book.opp_side_m(payload.side),
        payload.price as int,
        payload.quantity as int,
        book.last_trade_id as int,
        opposite(payload.side),
    );
    &&& db1.len() == db0.len() + m.fills.len() + 1 + m.fills.len()
    &&& (forall|k: int| 0 <= k < db0.len() ==> (#[trigger] db1[k]) == db0[k])
    &&& (forall|i: int|
        0 <= i < m.fills.len() ==> trade_record_ok(
            #[trigger] db1[db0.len() + i],
            m.fills[i],
            payload.market@,
            payload.side,
            ts,
        ))
    &&& taker_order_record_ok(db1[db0.len() + m.fills.len() as int], oid, m.executed, payload)
    &&& (forall|i: int|
        0 <= i < m.fills.len() ==> fill_order_record_ok(
            #[trigger] db1[db0.len() + m.fills.len() as int + 1 + i],
            m.fills[i],
        ))
    &&& ws1.len() == ws0.len() + 1 + m.fills.len()
    &&& (forall|k: int| 0 <= k < ws0.len() ==> (#[trigger] ws1[k]) == ws0[k])
    &&& depth_event_ok(
        ws1[ws0.len() as int],
        post.orderbooks@[bi],
        payload.market@,
        (match payload.side {
            Side::Buy => seq![payload.price as int],
            Side::Sell => dedup_prices(fill_prices(m.fills)),
        }),
        (match payload.side {
            Side::Buy => dedup_prices(fill_prices(m.fills)),
            Side::Sell => seq![payload.price as int],
        }),
    )
    &&& (forall|i: int|
        0 <= i < m.fills.len() ==> trade_event_ok(
            #[trigger] ws1[ws0.len() + 1 + i],
            m.fills[i],
            payload.market@,
            payload.side,
        ))
}

/// What a cancel request owes: for a resting order, removal from its
/// level, the refund of its remaining lock, and a reply carrying its id
/// and fill progress; otherwise the empty reply with nothing changed.
pub open spec fn cancel_outcome(
    pre: Engine,
    post: Engine,
    order_id: Seq<char>,
    market: Seq<char>,
    r: MessageToApi,
    ws0: Seq<WsMessage>,
    ws1: Seq<WsMessage>,
) -> bool {
    &&& (no_book(pre.orderbooks@, market) ==> rejection_reply_shape(r) && post.orderbooks
        == pre.orderbooks && post.balances == pre.balances && ws1 == ws0)
    &&& (forall|bi: int|
        first_book(pre.orderbooks@, market, bi) ==> #[trigger] cancel_outcome_at(
            pre,
            post,
            order_id,
            bi,
            r,
            ws0,
            ws1,
        ))
}

pub open spec fn cancel_outcome_at(
    pre: Engine,
    post: Engine,
    order_id: Seq<char>,
    bi: int,
    r: MessageToApi,
    ws0: Seq<WsMessage>,
    ws1: Seq<WsMessage>,
) -> bool {
    let book = pre.orderbooks@[bi];
    if !crate::orderbook::has_id(book.bids_m(), order_id) && !crate::orderbook::has_id(
        book.asks_m(),
        order_id,
    ) {
        &&& rejection_reply_shape(r)
        &&& post.orderbooks == pre.orderbooks
        &&& post.balances == pre.balances
        &&& ws1 == ws0
    } else {
        exists|om: crate::types::OrderModel| #[trigger] cancelled_order_ok(
            pre,
            post,
            order_id,
            bi,
            r,
            ws0,
            ws1,
            om,
        )
    }
}

/// The order `om` was the resting order cancelled: the book loses it, the
/// ledger gets the remaining lock back, and the reply names it.
pub open spec fn cancelled_order_ok(
    pre: Engine,
    post: Engine,
    order_id: Seq<char>,
    bi: int,
    r: MessageToApi,
    ws0: Seq<WsMessage>,
    ws1: Seq<WsMessage>,
    om: crate::types::OrderModel,
) -> bool {
    let book = pre.orderbooks@[bi];
    let nb = post.orderbooks@[bi];
    &&& om.order_id == order_id
    &&& (match om.side {
        Side::Buy => crate::orderbook::resting_order(book.bids_m(), om),
        Side::Sell => crate::orderbook::resting_order(book.asks_m(), om),
    })
    &&& (r matches MessageToApi::OrderCancelled(p) && p.order_id@ == order_id && p.executed_qty
        == om.filled && p.remaining_qty == 0)
    &&& lmap(post.balances.users@) == map_unlock(
        lmap(pre.balances.users@),
        om.user_id,
        lock_asset_of(om.side, book.base_asset@, book.quote_asset@),
        lock_required(om.side, om.price, om.remaining()),
    )
    &&& post.orderbooks@.len() == pre.orderbooks@.len()
    &&& (forall|j: int|
        0 <= j < pre.orderbooks@.len() && j != bi ==> (#[trigger] post.orderbooks@[j])
            == pre.orderbooks@[j])
    &&& nb.opp_side_m(om.side) == book.opp_side_m(om.side)
    &&& (exists|li: int, pi: int|
        0 <= li < book.own_side_m(om.side).len() && 0 <= pi < book.own_side_m(om.side)[
            li
        ].orders.len() && (#[trigger] book.own_side_m(om.side)[li].orders[pi]).order_id == order_id
            && nb.own_side_m(om.side) == Orderbook::spec_remove_order(
            book.own_side_m(om.side),
            li,
            pi,
        ))
    &&& nb.base_asset@ == book.base_asset@
    &&& nb.quote_asset@ == book.quote_asset@
    &&& nb.last_trade_id == book.last_trade_id
    &&& nb.current_price == book.current_price
    &&& ws1.len() == ws0.len() + 1
    &&& (forall|k: int| 0 <= k < ws0.len() ==> (#[trigger] ws1[k]) == ws0[k])
    &&& depth_event_ok(ws1[ws0.len() as int], nb, book.ticker_m(), seq![om.price], seq![om.price])
}

/// What a depth request owes: the named book's snapshot, or empty arrays.
pub open spec fn depth_reply_ok(pre: Engine, market: Seq<char>, r: MessageToApi) -> bool {
    &&& r matches MessageToApi::Depth(d)
    &&& (no_book(pre.orderbooks@, market) ==> d.bids@.len() == 0 && d.asks@.len() == 0)
    &&& (forall|bi: int|
        #![trigger pre.orderbooks@[bi]]
        first_book(pre.orderbooks@, market, bi) ==> (r matches MessageToApi::Depth(d)
            && Orderbook::depth_rows_ok(pre.orderbooks@[bi].bids_m(), d.bids@)
            && Orderbook::depth_rows_ok(pre.orderbooks@[bi].asks_m(), d.asks@)))
}

/// What an open-orders request owes: the user's resting orders in the
/// named book, or the empty list.
pub open spec fn open_orders_reply_ok(
    pre: Engine,
    market: Seq<char>,
    user: Seq<char>,
    r: MessageToApi,
) -> bool {
    &&& r matches MessageToApi::OpenOrders(v)
    &&& (no_book(pre.orderbooks@, market) ==> v@.len() == 0)
    &&& (forall|bi: int|
        #![trigger pre.orderbooks@[bi]]
        first_book(pre.orderbooks@, market, bi) ==> (r matches MessageToApi::OpenOrders(v)
            && crate::orderbook::order_models(v@) == Orderbook::open_orders_spec(
            pre.orderbooks@[bi].bids_m(),
            user,
        ) + Orderbook::open_orders_spec(pre.orderbooks@[bi].asks_m(), user)))
}

impl Engine {
    /// Creates one order: checks the market, the capacity limits, and the
    /// funds; locks the funds; matches; settles every fill; and appends
    /// the storage records and market-data events the order produced.
    /// Acceptance is owed exactly when [`create_accepted`] holds of the
    /// market's book; the reply, the new state and the appended outputs
    /// are pinned to the matcher's outcome.
    pub fn create_order(
        &mut self,
        payload: InternalCreateOrderPayload,
        order_id: String,
        timestamp: &String,
        out_db: &mut Vec<DbMessage>,
        out_ws: &mut Vec<WsMessage>,
    ) -> (r: Result<MessageToApi, String>)
        requires
            old(self).wf(),
            payload.price > 0,
            payload.quantity > 0,
        ensures
            final(self).wf(),
            (no_book(old(self).orderbooks@, payload.market@) ==> (r matches Err(e) && e@
                == "Orderbook not found"@)),
            r is Err ==> final(self).orderbooks == old(self).orderbooks && final(self).balances
                == old(self).balances && final(out_db)@ == old(out_db)@ && final(out_ws)@ == old(
                out_ws,
            )@,
            forall|bi: int|
                first_book(old(self).orderbooks@, payload.market@, bi) ==> {
                    &&& (r is Ok <==> #[trigger] create_accepted(
                        *old(self),
                        bi,
                        payload,
                        order_id@,
                    ))
                    &&& (r matches Ok(msg) ==> placed_reply_ok(
                        old(self).orderbooks@[bi],
                        payload,
                        order_id@,
                        msg,
                    ) && create_applied(*old(self), *final(self), payload, order_id@, bi)
                        && create_outputs(
                        *old(self),
                        *final(self),
                        payload,
                        order_id@,
                        bi,
                        timestamp@,
                        old(out_db)@,
                        final(out_db)@,
                        old(out_ws)@,
                        final(out_ws)@,
                    ))
                },
    {
        let bi = match self.find_orderbook(&payload.market) {
            Some(bi) => bi,
            None => {
                return Err("Orderbook not found".to_owned());
            },
        };
        let ghost book0 = self.orderbooks@[bi as int];
        // guard the trade-id counter and the depth cache
        if self.orderbooks[bi].last_trade_id > u64::MAX - payload.quantity {
            return Err("Trade id capacity exhausted".to_owned());
        }
        if !self.orderbooks[bi].depth_room(payload.side, payload.price, payload.quantity) {
            return Err("Price level full".to_owned());
        }
        // a colliding random id would corrupt the book; refuse it instead
        if self.orderbooks[bi].contains_order_id(&order_id) {
            return Err("Duplicate order id".to_owned());
        }
        let base_asset = self.orderbooks[bi].base_asset.clone();
        let quote_asset = self.orderbooks[bi].quote_asset.clone();
        self.check_and_lock_funds(
            &base_asset,
            &quote_asset,
            payload.side,
            &payload.user_id,
            payload.price,
            payload.quantity,
        )?;
        let mut order = Order {
            price: payload.price,
            quantity: payload.quantity,
            order_id: order_id.clone(),
            filled: 0,
            side: payload.side,
            user_id: payload.user_id.clone(),
        };
        proof {
            assert(self.orderbooks@[bi as int] == book0);
        }
        let ghost m = spec_match_side(
            book0.opp_side_m(payload.side),
            payload.price as int,
            payload.quantity as int,
            book0.last_trade_id as int,
            opposite(payload.side),
        );
        let created = {
            let book = &mut self.orderbooks[bi];
            book.add_order(&mut order)
        };
        proof {
            assert forall|i: int| 0 <= i < self.orderbooks@.len() implies (
            #[trigger] self.orderbooks@[i]).wf() by {
                if i != bi as int {
                    assert(self.orderbooks@[i] == old(self).orderbooks@[i]);
                }
            }
        }
        self.update_balances(
            &payload.user_id,
            &base_asset,
            &quote_asset,
            payload.side,
            &created.fills,
            created.executed_quantity,
        );
        push_db_trades(out_db, &created.fills, &payload.market, payload.side, timestamp);
        push_db_orders(out_db, &order, created.executed_quantity, &created.fills, &payload.market);
        let mut fprices: Vec<u64> = Vec::new();
        let mut fi: usize = 0;
        let fn_ = created.fills.len();
        while fi < fn_
            invariant
                0 <= fi <= fn_,
                fn_ == created.fills@.len(),
                fprices@.len() == fi,
                forall|k: int|
                    0 <= k < fi ==> (#[trigger] fprices@[k]) as int == fill_models(
                        created.fills@,
                    )[k].price,
            decreases fn_ - fi,
        {
            fprices.push(created.fills[fi].fill.price_u64);
            fi = fi + 1;
        }
        proof {
            assert(fprices@.map_values(|p: u64| p as int) =~= fill_prices(m.fills));
        }
        let fprices = dedup_u64s(&fprices);
        let mut own_price: Vec<u64> = Vec::new();
        own_price.push(payload.price);
        proof {
            assert(fprices@.map_values(|p: u64| p as int) == dedup_prices(fill_prices(m.fills)));

            assert(own_price@.map_values(|p: u64| p as int) =~= seq![payload.price as int]);
        }
        match payload.side {
            Side::Buy => push_ws_depth_update(
                out_ws,
                &self.orderbooks[bi],
                &payload.market,
                &own_price,
                &fprices,
            ),
            Side::Sell => push_ws_depth_update(
                out_ws,
                &self.orderbooks[bi],
                &payload.market,
                &fprices,
                &own_price,
            ),
        }
        push_ws_trades(out_ws, &created.fills, &payload.market, payload.side);
        let mut fills: Vec<crate::types::Fill> = Vec::new();
        let mut i: usize = 0;
        let n = created.fills.len();
        while i < n
            invariant
                0 <= i <= n,
                n == created.fills@.len(),
                fills@.len() == i,
                forall|k: int|
                    0 <= k < i ==> (#[trigger] fills@[k]).price@ == dec_chars(
                        fill_models(created.fills@)[k].price,
                    ) && fills@[k].qty == fill_models(created.fills@)[k].qty && fills@[
                        k
                    ].trade_id == fill_models(created.fills@)[k].trade_id,
            decreases n - i,
        {
            let f = &created.fills[i];
            let ext = crate::types::Fill {
                price: u64_to_dec_string(f.fill.price_u64),
                qty: f.fill.qty,
                trade_id: f.fill.trade_id,
            };
            fills.push(ext);
            i = i + 1;
        }
        let reply = MessageToApi::OrderPlaced(
            OrderPlacedPayload {
                order_id: order.order_id,
                executed_qty: created.executed_quantity,
                fills,
            },
        );
        proof {
            assert(fill_models(created.fills@) == m.fills);
            assert(placed_reply_ok(book0, payload, order_id@, reply));
            assert forall|bj: int|
                first_book(old(self).orderbooks@, payload.market@, bj) implies bj
                == bi as int by {
                if bj < bi as int {
                    assert(old(self).orderbooks@[bj].ticker_m() != payload.market@);
                } else if bj > bi as int {
                    assert(old(self).orderbooks@[bi as int].ticker_m() != payload.market@);
                }
            }
            let rested = crate::types::OrderModel {
                order_id: order_id@,
                user_id: payload.user_id@,
                price: payload.price as int,
                quantity: payload.quantity as int,
                filled: m.executed,
                side: payload.side,
            };
            assert(rested =~~= (crate::types::OrderModel {
                filled: m.executed,
                ..(Order {
                    price: payload.price,
                    quantity: payload.quantity,
                    order_id,
                    filled: 0,
                    side: payload.side,
                    user_id: payload.user_id,
                })@
            }));
            assert(create_applied(*old(self), *self, payload, order_id@, bi as int));
        }
        Ok(reply)
    }

    /// Handles one parsed request, returning exactly what it owes: the
    /// reply per request kind (none for an on-ramp), the storage records,
    /// and the market-data events, each pinned to the operation performed.
    pub fn process(&mut self, params: ProcessParams) -> (r: EngineOutput)
        requires
            old(self).wf(),
        ensures
            final(self).wf(),
            match params.message {
                InternalMessage::CreateOrder(p) => (r.reply matches Some(msg) && {
                    if p.price == 0 || p.quantity == 0 {
                        &&& rejection_reply_shape(msg)
                        &&& final(self).orderbooks == old(self).orderbooks
                        &&& final(self).balances == old(self).balances
                        &&& r.db_messages@.len() == 0
                        &&& r.ws_messages@.len() == 0
                    } else {
                        create_reply_outcome(
                            *old(self),
                            *final(self),
                            p,
                            msg,
                            r.db_messages@,
                            r.ws_messages@,
                        )
                    }
                }),
                InternalMessage::CancelOrder(p) => (r.reply matches Some(msg) && cancel_outcome(
                    *old(self),
                    *final(self),
                    p.order_id@,
                    p.market@,
                    msg,
                    Seq::empty(),
                    r.ws_messages@,
                ) && r.db_messages@.len() == 0),
                InternalMessage::GetDepth(p) => (r.reply matches Some(msg) && depth_reply_ok(
                    *old(self),
                    p.market@,
                    msg,
                ) && *final(self) == *old(self) && r.db_messages@.len() == 0
                    && r.ws_messages@.len() == 0),
                InternalMessage::GetOpenOrders(p) => (r.reply matches Some(msg)
                    && open_orders_reply_ok(*old(self), p.market@, p.user_id@, msg) && *final(self)
                    == *old(self) && r.db_messages@.len() == 0 && r.ws_messages@.len() == 0),
                InternalMessage::OnRamp(p) => (r.reply is None && final(self).orderbooks == old(
                    self,
                ).orderbooks && lmap(final(self).balances.users@) == map_credit(
                    lmap(old(self).balances.users@),
                    p.user_id@,
                    BASE_CURRENCY@,
                    p.amount as int,
                ) && r.db_messages@.len() == 0 && r.ws_messages@.len() == 0),
            },
    {
        let mut out_db: Vec<DbMessage> = Vec::new();
        let mut out_ws: Vec<WsMessage> = Vec::new();
        match params.message {
            InternalMessage::CreateOrder(payload) => {
                if payload.price == 0 || payload.quantity == 0 {
                    // a zero order can neither trade nor rest
                    let reply = rejection_reply();
                    proof {
                        assert(rejection_reply_shape(reply));
                        assert(out_db@.len() == 0);
                        assert(out_ws@.len() == 0);
                    }
                    return EngineOutput {
                        reply: Some(reply),
                        db_messages: out_db,
                        ws_messages: out_ws,
                    };
                }
                let order_id = self.get_random_id();
                let timestamp = current_timestamp();
                let ghost oid = order_id@;
                let ghost ts = timestamp@;
                let result = self.create_order(
                    payload,
                    order_id,
                    &timestamp,
                    &mut out_db,
                    &mut out_ws,
                );
                let reply = match result {
                    Ok(msg) => msg,
                    Err(_) => rejection_reply(),
                };
                proof {
                    assert(create_result_ok(
                        *old(self),
                        *self,
                        payload,
                        oid,
                        ts,
                        reply,
                        out_db@,
                        out_ws@,
                    ));
                    assert(exists|o2: Seq<char>, t2: Seq<char>| #[trigger] create_result_ok(
                        *old(self),
                        *self,
                        payload,
                        o2,
                        t2,
                        reply,
                        out_db@,
                        out_ws@,
                    ));
                    assert(create_reply_outcome(
                        *old(self),
                        *self,
                        payload,
                        reply,
                        out_db@,
                        out_ws@,
                    ));
                }
                EngineOutput { reply: Some(reply), db_messages: out_db, ws_messages: out_ws }
            },
            InternalMessage::CancelOrder(payload) => {
                proof {
                    assert(out_ws@ =~= Seq::<WsMessage>::empty());
                }
                let reply = self.cancel_order(&payload.order_id, &payload.market, &mut out_ws);
                EngineOutput { reply: Some(reply), db_messages: out_db, ws_messages: out_ws }
            },
            InternalMessage::GetDepth(payload) => {
                let found = self.find_orderbook(&payload.market);
                let reply = match found {
                    Some(bi) => MessageToApi::Depth(self.orderbooks[bi].get_depth()),
                    None => MessageToApi::Depth(
                        crate::types::DepthPayload { bids: Vec::new(), asks: Vec::new() },
                    ),
                };
                proof {
                    lemma_first_book_unique(self.orderbooks@, payload.market@);
                    match found {
                        Some(bi) => {
                            assert forall|b: int|
                                first_book(self.orderbooks@, payload.market@, b) implies b
                                == bi as int by {
                                assert(first_book(self.orderbooks@, payload.market@, bi as int));
                            }
                        },
                        None => {},
                    }
                    assert(depth_reply_ok(*self, payload.market@, reply));
                }
                EngineOutput { reply: Some(reply), db_messages: out_db, ws_messages: out_ws }
            },
            InternalMessage::GetOpenOrders(payload) => {
                let ghost user = payload.user_id@;
                let found = self.find_orderbook(&payload.market);
                let reply = match found {
                    Some(bi) => MessageToApi::OpenOrders(
                        self.orderbooks[bi].get_open_orders(payload.user_id),
                    ),
                    None => MessageToApi::OpenOrders(Vec::new()),
                };
                proof {
                    lemma_first_book_unique(self.orderbooks@, payload.market@);
                    match found {
                        Some(bi) => {
                            assert forall|b: int|
                                first_book(self.orderbooks@, payload.market@, b) implies b
                                == bi as int by {
                                assert(first_book(self.orderbooks@, payload.market@, bi as int));
                            }
                        },
                        None => {},
                    }
                    assert(open_orders_reply_ok(*self, payload.market@, user, reply));
                }
                EngineOutput { reply: Some(reply), db_messages: out_db, ws_messages: out_ws }
            },
            InternalMessage::OnRamp(payload) => {
                self.on_ramp(&payload.user_id, payload.amount);
                EngineOutput { reply: None, db_messages: out_db, ws_messages: out_ws }
            },
        }
    }

    /// Credits the quote-currency available balance, creating the user's
    /// ledger entries when absent; no other cell moves.
    pub fn on_ramp(&mut self, user_id: &String, amount: u128)
        ensures
            final(self).orderbooks == old(self).orderbooks,
            lmap(final(self).balances.users@) == map_credit(
                lmap(old(self).balances.users@),
                user_id@,
                BASE_CURRENCY@,
                amount as int,
            ),
    {
        let ghost pre = self.balances.users@;
        self.balances.credit_available(user_id, BASE_CURRENCY, amount);
        proof {
            lemma_lmap_reads(&old(self).balances, user_id@, BASE_CURRENCY@);
            lemma_map_step(pre, self.balances.users@, user_id@, BASE_CURRENCY@);
            lemma_lmap_reads(&self.balances, user_id@, BASE_CURRENCY@);
            assert(lmap(self.balances.users@) =~= map_credit(
                lmap(pre),
                user_id@,
                BASE_CURRENCY@,
                amount as int,
            ));
        }
    }

    /// Cancels an order: finds it in the named market's book, removes it,
    /// refunds the remaining lock (`remaining * price` quote for a buy,
    /// `remaining` base for a sell), and emits one depth event. Unknown
    /// markets and ids get the empty reply with nothing changed.
    pub fn cancel_order(
        &mut self,
        order_id: &String,
        market: &String,
        out_ws: &mut Vec<WsMessage>,
    ) -> (r: MessageToApi)
        requires
            old(self).wf(),
        ensures
            final(self).wf(),
            cancel_outcome(
                *old(self),
                *final(self),
                order_id@,
                market@,
                r,
                old(out_ws)@,
                final(out_ws)@,
            ),
    {
        let bi = match self.find_orderbook(market) {
            Some(bi) => bi,
            None => {
                return empty_cancel_reply();
            },
        };
        proof {
            lemma_first_book_unique(self.orderbooks@, market@);
        }
        let ghost book0 = self.orderbooks@[bi as int];
        let order = match self.orderbooks[bi].get_order(order_id) {
            Some(o) => o,
            None => {
                return empty_cancel_reply();
            },
        };
        let ghost om = order@;
        let quote_asset = self.orderbooks[bi].quote_asset.clone();
        let base_asset = self.orderbooks[bi].base_asset.clone();
        let remaining = order.quantity - order.filled;
        let ghost pre_users = self.balances.users@;
        let mut touched_price: u64 = order.price;
        match order.side {
            Side::Buy => {
                let p = {
                    let book = &mut self.orderbooks[bi];
                    book.cancel_bid(&order)
                };
                match p {
                    Some(tp) => {
                        touched_price = tp;
                        let refund = match quote_units_checked(order.price, remaining) {
                            Some(v) => v,
                            None => u128::MAX,
                        };
                        self.balances.unlock_funds(&order.user_id, quote_asset.as_str(), refund);
                        proof {
                            lemma_lmap_reads(&old(self).balances, om.user_id, quote_asset@);
                            lemma_map_step(pre_users, self.balances.users@, om.user_id,
                                quote_asset@);
                            lemma_lmap_reads(&self.balances, om.user_id, quote_asset@);
                            assert(lmap(self.balances.users@) =~= map_unlock(
                                lmap(pre_users),
                                om.user_id,
                                quote_asset@,
                                lock_required(om.side, om.price, om.remaining()),
                            ));
                        }
                    },
                    None => {
                        proof {
                            assert(false);
                        }
                    },
                }
            },
            Side::Sell => {
                let p = {
                    let book = &mut self.orderbooks[bi];
                    book.cancel_ask(&order)
                };
                match p {
                    Some(tp) => {
                        touched_price = tp;
                        let refund = base_units_exec(remaining);
                        self.balances.unlock_funds(&order.user_id, base_asset.as_str(), refund);
                        proof {
                            lemma_lmap_reads(&old(self).balances, om.user_id, base_asset@);
                            lemma_map_step(pre_users, self.balances.users@, om.user_id,
                                base_asset@);
                            lemma_lmap_reads(&self.balances, om.user_id, base_asset@);
                            assert(lmap(self.balances.users@) =~= map_unlock(
                                lmap(pre_users),
                                om.user_id,
                                base_asset@,
                                lock_required(om.side, om.price, om.remaining()),
                            ));
                        }
                    },
                    None => {
                        proof {
                            assert(false);
                        }
                    },
                }
            },
        }
        proof {
            assert forall|i: int| 0 <= i < self.orderbooks@.len() implies (
            #[trigger] self.orderbooks@[i]).wf() by {
                if i != bi as int {
                    assert(self.orderbooks@[i] == old(self).orderbooks@[i]);
                }
            }
        }
        let mut tps: Vec<u64> = Vec::new();
        tps.push(touched_price);
        proof {
            assert(om.price == touched_price as int);
            assert(tps@.map_values(|p: u64| p as int) =~= seq![om.price]);
        }
        push_ws_depth_update(out_ws, &self.orderbooks[bi], market, &tps, &tps);
        let reply = MessageToApi::OrderCancelled(
            OrderCancelledPayload {
                order_id: order.order_id,
                executed_qty: order.filled,
                remaining_qty: 0,
            },
        );
        proof {
            assert(book0.ticker_m() == market@);
            assert(cancelled_order_ok(
                *old(self),
                *self,
                order_id@,
                bi as int,
                reply,
                old(out_ws)@,
                out_ws@,
                om,
            ));
        }
        reply
    }
}

/// What the reply of a create request must be: the placed payload of the
/// first matching book when it accepts, else the empty rejection shape
/// with nothing changed.
pub open spec fn create_result_ok(
    pre: Engine,
    post: Engine,
    payload: InternalCreateOrderPayload,
    oid: Seq<char>,
    ts: Seq<char>,
    reply: MessageToApi,
    db: Seq<DbMessage>,
    ws: Seq<WsMessage>,
) -> bool {
    &&& (no_book(pre.orderbooks@, payload.market@) ==> rejection_reply_shape(reply)
        && post.orderbooks == pre.orderbooks && post.balances == pre.balances && db.len() == 0
        && ws.len() == 0)
    &&& (forall|bi: int|
        first_book(pre.orderbooks@, payload.market@, bi) ==> {
            if #[trigger] create_accepted(pre, bi, payload, oid) {
                &&& placed_reply_ok(pre.orderbooks@[bi], payload, oid, reply)
                &&& create_applied(pre, post, payload, oid, bi)
                &&& create_outputs(
                    pre,
                    post,
                    payload,
                    oid,
                    bi,
                    ts,
                    Seq::empty(),
                    db,
                    Seq::empty(),
                    ws,
                )
            } else {
                &&& rejection_reply_shape(reply)
                &&& post.orderbooks == pre.orderbooks
                &&& post.balances == pre.balances
                &&& db.len() == 0
                &&& ws.len() == 0
            }
        })
}

/// Some drawn order id and clock reading explain the create outcome.
pub open spec fn create_reply_outcome(
    pre: Engine,
    post: Engine,
    payload: InternalCreateOrderPayload,
    reply: MessageToApi,
    db: Seq<DbMessage>,
    ws: Seq<WsMessage>,
) -> bool {
    exists|oid: Seq<char>, ts: Seq<char>| #[trigger] create_result_ok(
        pre,
        post,
        payload,
        oid,
        ts,
        reply,
        db,
        ws,
    )
}

/// At most one book index is the first carrier of a market.
pub proof fn lemma_first_book_unique(books: Seq<Orderbook>, market: Seq<char>)
    ensures
        forall|b1: int, b2: int|
            first_book(books, market, b1) && first_book(books, market, b2) ==> b1 == b2,
{
    assert forall|b1: int, b2: int|
        first_book(books, market, b1) && first_book(books, market, b2) implies b1 == b2 by {
        if b1 < b2 {
            assert(books[b1].ticker_m() != market);
        } else if b2 < b1 {
            assert(books[b2].ticker_m() != market);
        }
    }
}

/// The reply that signals a rejected or unknown order: an empty id and
/// zero quantities.
pub fn rejection_reply() -> (r: MessageToApi)
    ensures
        rejection_reply_shape(r),
{
    MessageToApi::OrderCancelled(
        OrderCancelledPayload { order_id: String::new(), executed_qty: 0, remaining_qty: 0 },
    )
}

fn empty_cancel_reply() -> (r: MessageToApi)
    ensures
        rejection_reply_shape(r),
{
    rejection_reply()
}

/// Keeps the first occurrence of each price, in order.
fn dedup_u64s(xs: &Vec<u64>) -> (r: Vec<u64>)
    ensures
        r@.map_values(|p: u64| p as int) == dedup_prices(xs@.map_values(|p: u64| p as int)),
{
    let ghost ps = xs@.map_values(|p: u64| p as int);
    let mut out: Vec<u64> = Vec::new();
    proof {
        assert(ps.skip(0) =~= ps);
        assert(out@.map_values(|p: u64| p as int) =~= Seq::<int>::empty());
        assert(dedup_prices(ps) =~= Seq::<int>::empty() + dedup_rec(ps, Seq::<int>::empty()));
    }
    let mut i: usize = 0;
    while i < xs.len()
        invariant
            0 <= i <= xs@.len(),
            ps == xs@.map_values(|p: u64| p as int),
            ps.len() == xs@.len(),
            dedup_prices(ps) == out@.map_values(|p: u64| p as int) + dedup_rec(
                ps.skip(i as int),
                out@.map_values(|p: u64| p as int),
            ),
        decreases xs@.len() - i,
    {
        let ghost outm = out@.map_values(|p: u64| p as int);
        let x = xs[i];
        let mut hit = false;
        let mut k: usize = 0;
        while k < out.len() && !hit
            invariant
                0 <= k <= out@.len(),
                outm == out@.map_values(|p: u64| p as int),
                outm.len() == out@.len(),
                hit ==> outm.contains(x as int),
                !hit ==> forall|j: int| 0 <= j < k ==> outm[j] != x as int,
            decreases out@.len() - k + (if hit { 0int } else { 1int }),
        {
            if out[k] == x {
                hit = true;
                proof {
                    assert(outm[k as int] == x as int);
                }
            } else {
                k = k + 1;
            }
        }
        proof {
            if !hit && outm.contains(x as int) {
                let j = choose|j: int| 0 <= j < outm.len() && outm[j] == x as int;
                assert(false);
            }
            assert(ps.skip(i as int)[0] == ps[i as int]);
            assert(ps.skip(i as int).drop_first() =~= ps.skip(i + 1));
            assert(ps[i as int] == x as int);
        }
        if !hit {
            out.push(x);
            proof {
                assert(out@.map_values(|p: u64| p as int) =~= outm.push(x as int));
                assert(outm.push(x as int) =~= outm + seq![x as int]);
                assert(dedup_rec(ps.skip(i as int), outm) =~= seq![x as int] + dedup_rec(
                    ps.skip(i + 1),
                    outm.push(x as int),
                ));
                assert(dedup_prices(ps) =~= out@.map_values(|p: u64| p as int) + dedup_rec(
                    ps.skip(i + 1),
                    out@.map_values(|p: u64| p as int),
                ));
            }
        } else {
            proof {
                assert(dedup_rec(ps.skip(i as int), outm) =~= dedup_rec(ps.skip(i + 1), outm));
            }
        }
        i = i + 1;
    }
    proof {
        assert(ps.skip(ps.len() as int) =~= Seq::<int>::empty());
        assert(dedup_rec(Seq::<int>::empty(), out@.map_values(|p: u64| p as int))
            =~= Seq::<int>::empty());
        assert(dedup_prices(ps) =~= out@.map_values(|p: u64| p as int));
    }
    out
}

/// One `TRADE_ADDED` record per fill, in fill order.
fn push_db_trades(
    out: &mut Vec<DbMessage>,
    fills: &Vec<OrderbookFill>,
    market: &String,
    side: Side,
    timestamp: &String,
)
    ensures
        final(out)@.len() == old(out)@.len() + fills@.len(),
        forall|k: int| 0 <= k < old(out)@.len() ==> (#[trigger] final(out)@[k]) == old(out)@[k],
        forall|i: int|
            0 <= i < fills@.len() ==> trade_record_ok(
                #[trigger] final(out)@[old(out)@.len() + i],
                fill_models(fills@)[i],
                market@,
                side,
                timestamp@,
            ),
{
    let ghost fm = fill_models(fills@);
    let mut i: usize = 0;
    let n = fills.len();
    while i < n
        invariant
            0 <= i <= n,
            n == fills@.len(),
            fm == fill_models(fills@),
            out@.len() == old(out)@.len() + i,
            forall|k: int| 0 <= k < old(out)@.len() ==> (#[trigger] out@[k]) == old(out)@[k],
            forall|j: int|
                0 <= j < i ==> trade_record_ok(
                    #[trigger] out@[old(out)@.len() + j],
                    fm[j],
                    market@,
                    side,
                    timestamp@,
                ),
        decreases n - i,
    {
        let f = &fills[i];
        proof {
            vstd::arithmetic::mul::lemma_mul_nonnegative(
                f.fill.price_u64 as int,
                f.fill.qty as int,
            );
            vstd::arithmetic::mul::lemma_mul_upper_bound(
                f.fill.price_u64 as int,
                u64::MAX as int,
                f.fill.qty as int,
                u64::MAX as int,
            );
        }
        let quote_quantity: u128 = (f.fill.price_u64 as u128) * (f.fill.qty as u128);
        let record = DbMessage {
            db_message_type: DbMessageType::TradeAdded,
            data: DbMessageData::TradeAdd(
                TradeAdd {
                    id: u64_to_dec_string(f.fill.trade_id),
                    is_buyer_maker: matches!(side, Side::Sell),
                    price: u64_to_dec_string(f.fill.price_u64),
                    quantity: u64_to_dec_string(f.fill.qty),
                    quote_quantity: crate::numfmt::u128_to_dec_string(quote_quantity),
                    timestamp: timestamp.clone(),
                    market: market.clone(),
                },
            ),
        };
        out.push(record);
        proof {
            assert(trade_record_ok(out@[old(out)@.len() + i], fm[i as int], market@, side,
                timestamp@));
        }
        i = i + 1;
    }
}

/// One `ORDER_UPDATE` for the taker, then one per fill keyed by trade id.
fn push_db_orders(
    out: &mut Vec<DbMessage>,
    order: &Order,
    executed_quantity: u64,
    fills: &Vec<OrderbookFill>,
    market: &String,
)
    ensures
        final(out)@.len() == old(out)@.len() + 1 + fills@.len(),
        forall|k: int| 0 <= k < old(out)@.len() ==> (#[trigger] final(out)@[k]) == old(out)@[k],
        ({
            let rec = final(out)@[old(out)@.len() as int];
            &&& rec.db_message_type is OrderUpdate
            &&& rec.data matches DbMessageData::OrderUpdate(o)
            &&& o.order_id@ == order.order_id@
            &&& o.executed_quantity == executed_quantity
            &&& (o.price matches Some(p) && p@ == dec_chars(order.price as int))
            &&& (o.market matches Some(mk) && mk@ == market@)
            &&& (o.quantity matches Some(q) && q@ == dec_chars(order.quantity as int))
            &&& o.side == Some(order.side)
        }),
        forall|i: int|
            0 <= i < fills@.len() ==> fill_order_record_ok(
                #[trigger] final(out)@[old(out)@.len() + 1 + i],
                fill_models(fills@)[i],
            ),
{
    let taker = DbMessage {
        db_message_type: DbMessageType::OrderUpdate,
        data: DbMessageData::OrderUpdate(
            OrderUpdate {
                order_id: order.order_id.clone(),
                executed_quantity,
                price: Some(u64_to_dec_string(order.price)),
                market: Some(market.clone()),
                quantity: Some(u64_to_dec_string(order.quantity)),
                side: Some(order.side),
            },
        ),
    };
    out.push(taker);
    let ghost base = out@;
    let ghost fm = fill_models(fills@);
    let mut i: usize = 0;
    let n = fills.len();
    while i < n
        invariant
            0 <= i <= n,
            n == fills@.len(),
            fm == fill_models(fills@),
            base.len() == old(out)@.len() + 1,
            out@.len() == base.len() + i,
            forall|k: int| 0 <= k < base.len() ==> (#[trigger] out@[k]) == base[k],
            forall|j: int|
                0 <= j < i ==> fill_order_record_ok(
                    #[trigger] out@[old(out)@.len() + 1 + j],
                    fm[j],
                ),
        decreases n - i,
    {
        let f = &fills[i];
        let record = DbMessage {
            db_message_type: DbMessageType::OrderUpdate,
            data: DbMessageData::OrderUpdate(
                OrderUpdate {
                    order_id: u64_to_dec_string(f.fill.trade_id),
                    executed_quantity: f.fill.qty,
                    price: None,
                    market: None,
                    quantity: None,
                    side: None,
                },
            ),
        };
        out.push(record);
        i = i + 1;
    }
}

/// One depth event carrying, per side, only the touched price levels.
fn push_ws_depth_update(
    out: &mut Vec<WsMessage>,
    book: &Orderbook,
    market: &String,
    bid_prices: &Vec<u64>,
    ask_prices: &Vec<u64>,
)
    ensures
        final(out)@.len() == old(out)@.len() + 1,
        forall|k: int| 0 <= k < old(out)@.len() ==> (#[trigger] final(out)@[k]) == old(out)@[k],
        depth_event_ok(
            final(out)@.last(),
            *book,
            market@,
            bid_prices@.map_values(|p: u64| p as int),
            ask_prices@.map_values(|p: u64| p as int),
        ),
{
    proof {
        reveal_strlit("depth@");
        reveal_strlit("depth");
    }
    let depth = book.depth_rows_touched(bid_prices, ask_prices);
    let mut stream = "depth@".to_owned();
    stream.append(market.as_str());
    let event = WsMessage {
        stream,
        data: WsPayload::Depth(
            DepthUpdateMessage { b: depth.bids, a: depth.asks, e: "depth".to_owned() },
        ),
    };
    out.push(event);
}

/// One trade event per fill, in fill order.
fn push_ws_trades(out: &mut Vec<WsMessage>, fills: &Vec<OrderbookFill>, market: &String, side: Side)
    ensures
        final(out)@.len() == old(out)@.len() + fills@.len(),
        forall|k: int| 0 <= k < old(out)@.len() ==> (#[trigger] final(out)@[k]) == old(out)@[k],
        forall|i: int|
            0 <= i < fills@.len() ==> trade_event_ok(
                #[trigger] final(out)@[old(out)@.len() + i],
                fill_models(fills@)[i],
                market@,
                side,
            ),
{
    proof {
        reveal_strlit("trades@");
        reveal_strlit("trade");
    }
    let ghost fm = fill_models(fills@);
    let mut i: usize = 0;
    let n = fills.len();
    while i < n
        invariant
            0 <= i <= n,
            n == fills@.len(),
            fm == fill_models(fills@),
            out@.len() == old(out)@.len() + i,
            forall|k: int| 0 <= k < old(out)@.len() ==> (#[trigger] out@[k]) == old(out)@[k],
            forall|j: int|
                0 <= j < i ==> trade_event_ok(
                    #[trigger] out@[old(out)@.len() + j],
                    fm[j],
                    market@,
                    side,
                ),
        decreases n - i,
    {
        let f = &fills[i];
        let mut stream = "trades@".to_owned();
        stream.append(market.as_str());
        let event = WsMessage {
            stream,
            data: WsPayload::Trade(
                TradeUpdateMessage {
                    e: "trade".to_owned(),
                    t: f.fill.trade_id,
                    m: matches!(side, Side::Sell),
                    p: u64_to_dec_string(f.fill.price_u64),
                    q: u64_to_dec_string(f.fill.qty),
                    s: market.clone(),
                },
            ),
        };
        out.push(event);
        i = i + 1;
    }
}

/// The shape of an order id: two zero-padded hex words side by side.
pub open spec fn hex_id_of(a: u64, b: u64, s: Seq<char>) -> bool {
    s == hex_pad16(a as int) + hex_pad16(b as int)
}

/// Relies on `rand::random`, a uniform draw from `rand`'s thread-local
/// generator; nothing can be promised of the value.
pub assume_specification<T>[ rand::random::<T> ]() -> (r: T)
    where
        rand::distributions::Standard: rand::distributions::Distribution<T>,
;

fn random_u64() -> u64 {
    rand::random::<u64>()
}

/// Relies on `chrono::Utc::now` for the wall-clock time of a record,
/// rendered RFC-3339 as the storage records carry it; nothing is promised
/// of a clock reading.
#[verifier::external_body]
pub fn current_timestamp() -> String {
    chrono::Utc::now().to_rfc3339()
}

} // verus!
