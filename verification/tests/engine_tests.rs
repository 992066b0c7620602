//! End-to-end scenarios through the engine: orders, fills, settlement,
//! cancellation, depth, and open orders.
use exchange_engine::engine::{Engine, ProcessParams};
use exchange_engine::fixed::AMOUNT_SCALE;
use exchange_engine::orderbook::Orderbook;
use exchange_engine::types::{
    CancelOrderPayload, GetDepthPayload, InternalCreateOrderPayload, InternalMessage,
    InternalOnRampPayload, MessageToApi, Order, Side, WsPayload,
};

fn setup_engine() -> Engine {
    let mut engine = Engine::new();
    let u1 = "U1".to_string();
    let u2 = "U2".to_string();
    engine
        .balances
        .credit_available(&u1, "INR", 1_000_000u128 * AMOUNT_SCALE);
    engine
        .balances
        .credit_available(&u2, "TATA", 1_000_000u128 * AMOUNT_SCALE);
    engine
}

fn buy(user: &str, price: u64, quantity: u64) -> InternalCreateOrderPayload {
    InternalCreateOrderPayload {
        market: "TATA_INR".to_string(),
        price,
        quantity,
        side: Side::Buy,
        user_id: user.to_string(),
    }
}

fn sell(user: &str, price: u64, quantity: u64) -> InternalCreateOrderPayload {
    InternalCreateOrderPayload {
        market: "TATA_INR".to_string(),
        price,
        quantity,
        side: Side::Sell,
        user_id: user.to_string(),
    }
}

fn place(engine: &mut Engine, payload: InternalCreateOrderPayload, id: &str) -> MessageToApi {
    let mut db = Vec::new();
    let mut ws = Vec::new();
    let ts = "2024-01-01 00:00:00 UTC".to_string();
    engine
        .create_order(payload, id.to_string(), &ts, &mut db, &mut ws)
        .expect("order accepted")
}

#[test]
fn resting_bid_filled_by_marketable_sell() {
    let mut engine = setup_engine();
    let r1 = place(&mut engine, buy("U1", 100, 10), "b1");
    match r1 {
        MessageToApi::OrderPlaced(p) => {
            assert_eq!(p.order_id, "b1");
            assert_eq!(p.executed_qty, 0);
            assert_eq!(p.fills.len(), 0);
        }
        _ => panic!("expected OrderPlaced"),
    }
    let r2 = place(&mut engine, sell("U2", 100, 10), "s1");
    match r2 {
        MessageToApi::OrderPlaced(p) => {
            assert_eq!(p.executed_qty, 10);
            assert_eq!(p.fills.len(), 1);
            assert_eq!(p.fills[0].price, "100");
            assert_eq!(p.fills[0].qty, 10);
            assert_eq!(p.fills[0].trade_id, 1);
        }
        _ => panic!("expected OrderPlaced"),
    }
    let u1 = "U1".to_string();
    let u2 = "U2".to_string();
    let (u1_base_avail, _) = engine.balances.balance_of(&u1, "TATA");
    assert_eq!(u1_base_avail, 10 * AMOUNT_SCALE);
    let (_, u1_quote_locked) = engine.balances.balance_of(&u1, "INR");
    assert_eq!(u1_quote_locked, 0);
    let (u2_quote_avail, _) = engine.balances.balance_of(&u2, "INR");
    assert_eq!(u2_quote_avail, 1000 * AMOUNT_SCALE);
    let (_, u2_base_locked) = engine.balances.balance_of(&u2, "TATA");
    assert_eq!(u2_base_locked, 0);
}

#[test]
fn partial_fill_rests_remainder() {
    let mut engine = setup_engine();
    place(&mut engine, buy("U1", 100, 10), "b1");
    let r = place(&mut engine, sell("U2", 100, 6), "s1");
    match r {
        MessageToApi::OrderPlaced(p) => {
            assert_eq!(p.executed_qty, 6);
        }
        _ => panic!("expected OrderPlaced"),
    }
    let depth = engine.orderbooks[0].get_depth();
    assert_eq!(depth.bids.len(), 1);
    assert_eq!(depth.bids[0][0], "100");
    assert_eq!(depth.bids[0][1], "4");
    assert_eq!(depth.asks.len(), 0);
}

#[test]
fn cancel_partially_filled_refunds_remainder() {
    let mut engine = setup_engine();
    place(&mut engine, buy("U1", 100, 10), "b1");
    place(&mut engine, sell("U2", 100, 6), "s1");
    let u1 = "U1".to_string();
    let (avail_before, locked_before) = engine.balances.balance_of(&u1, "INR");
    let mut ws = Vec::new();
    let reply = engine.cancel_order(&"b1".to_string(), &"TATA_INR".to_string(), &mut ws);
    match reply {
        MessageToApi::OrderCancelled(p) => {
            assert_eq!(p.order_id, "b1");
            assert_eq!(p.executed_qty, 6);
            assert_eq!(p.remaining_qty, 0);
        }
        _ => panic!("expected OrderCancelled"),
    }
    let (avail_after, locked_after) = engine.balances.balance_of(&u1, "INR");
    assert_eq!(avail_after - avail_before, 400 * AMOUNT_SCALE);
    assert_eq!(locked_before - locked_after, 400 * AMOUNT_SCALE);
    // the cancelled order no longer rests
    assert_eq!(engine.orderbooks[0].get_depth().bids.len(), 0);
}

#[test]
fn insufficient_funds_rejected_without_changes() {
    let mut engine = setup_engine();
    let u3 = "U3".to_string();
    engine.balances.credit_available(&u3, "INR", 50 * AMOUNT_SCALE);
    let mut db = Vec::new();
    let mut ws = Vec::new();
    let ts = "ts".to_string();
    let r = engine.create_order(buy("U3", 100, 1), "x1".to_string(), &ts, &mut db, &mut ws);
    match r {
        Err(e) => assert_eq!(e, "Insufficient quote balance"),
        Ok(_) => panic!("expected rejection"),
    }
    let (avail, locked) = engine.balances.balance_of(&u3, "INR");
    assert_eq!(avail, 50 * AMOUNT_SCALE);
    assert_eq!(locked, 0);
}

#[test]
fn best_price_selection_across_levels() {
    let mut engine = setup_engine();
    place(&mut engine, sell("U2", 101, 5), "a1");
    place(&mut engine, sell("U2", 102, 10), "a2");
    place(&mut engine, sell("U2", 100, 3), "a3");
    let r = place(&mut engine, buy("U1", 102, 12), "b1");
    match r {
        MessageToApi::OrderPlaced(p) => {
            assert_eq!(p.executed_qty, 12);
            assert_eq!(p.fills.len(), 3);
            assert_eq!(p.fills[0].price, "100");
            assert_eq!(p.fills[0].qty, 3);
            assert_eq!(p.fills[1].price, "101");
            assert_eq!(p.fills[1].qty, 5);
            assert_eq!(p.fills[2].price, "102");
            assert_eq!(p.fills[2].qty, 4);
            // trade ids strictly increase
            assert!(p.fills[0].trade_id < p.fills[1].trade_id);
            assert!(p.fills[1].trade_id < p.fills[2].trade_id);
        }
        _ => panic!("expected OrderPlaced"),
    }
}

#[test]
fn open_orders_lists_partially_filled_bid() {
    let mut engine = setup_engine();
    place(&mut engine, buy("U1", 100, 10), "b1");
    place(&mut engine, sell("U2", 100, 6), "s1");
    let orders = engine.orderbooks[0].get_open_orders("U1".to_string());
    assert_eq!(orders.len(), 1);
    assert_eq!(orders[0].order_id, "b1");
    assert_eq!(orders[0].quantity, 10);
    assert_eq!(orders[0].filled, 6);
    assert_eq!(orders[0].price, 100);
}

#[test]
fn fifo_priority_within_level() {
    let mut engine = setup_engine();
    place(&mut engine, sell("U2", 100, 4), "a1");
    place(&mut engine, sell("U2", 100, 4), "a2");
    let r = place(&mut engine, buy("U1", 100, 5), "b1");
    match r {
        MessageToApi::OrderPlaced(p) => {
            assert_eq!(p.executed_qty, 5);
            assert_eq!(p.fills.len(), 2);
            // the older maker is consumed first and in full
            assert_eq!(p.fills[0].qty, 4);
            assert_eq!(p.fills[1].qty, 1);
        }
        _ => panic!("expected OrderPlaced"),
    }
    // the younger maker keeps its unfilled remainder
    let open = engine.orderbooks[0].get_open_orders("U2".to_string());
    assert_eq!(open.len(), 1);
    assert_eq!(open[0].order_id, "a2");
    assert_eq!(open[0].filled, 1);
}

#[test]
fn depth_event_deduplicates_repeated_fill_prices() {
    let mut engine = setup_engine();
    place(&mut engine, sell("U2", 100, 4), "a1");
    place(&mut engine, sell("U2", 100, 4), "a2");
    let mut db = Vec::new();
    let mut ws = Vec::new();
    let ts = "ts".to_string();
    engine
        .create_order(buy("U1", 100, 5), "b1".to_string(), &ts, &mut db, &mut ws)
        .expect("accepted");
    match &ws[0].data {
        WsPayload::Depth(d) => {
            // two fills struck the same ask level: one row, at its remainder
            assert_eq!(d.a.len(), 1);
            assert_eq!(d.a[0][0], "100");
            assert_eq!(d.a[0][1], "3");
            // the buyer's own side rested nothing: reported emptied
            assert_eq!(d.b.len(), 1);
            assert_eq!(d.b[0][1], "0");
        }
        _ => panic!("expected a depth event first"),
    }
}

#[test]
fn limit_is_only_a_cap() {
    let mut engine = setup_engine();
    place(&mut engine, sell("U2", 90, 5), "a1");
    // a buyer willing to pay 120 still trades at the maker's 90
    let r = place(&mut engine, buy("U1", 120, 5), "b1");
    match r {
        MessageToApi::OrderPlaced(p) => {
            assert_eq!(p.fills.len(), 1);
            assert_eq!(p.fills[0].price, "90");
        }
        _ => panic!("expected OrderPlaced"),
    }
}

#[test]
fn unknown_market_is_rejected() {
    let mut engine = setup_engine();
    let mut db = Vec::new();
    let mut ws = Vec::new();
    let ts = "ts".to_string();
    let mut payload = buy("U1", 100, 1);
    payload.market = "DOGE_INR".to_string();
    let r = engine.create_order(payload, "x".to_string(), &ts, &mut db, &mut ws);
    match r {
        Err(e) => assert_eq!(e, "Orderbook not found"),
        Ok(_) => panic!("expected rejection"),
    }
}

#[test]
fn cancel_unknown_order_replies_empty() {
    let mut engine = setup_engine();
    let mut ws = Vec::new();
    let reply = engine.cancel_order(&"nope".to_string(), &"TATA_INR".to_string(), &mut ws);
    match reply {
        MessageToApi::OrderCancelled(p) => {
            assert_eq!(p.order_id, "");
            assert_eq!(p.executed_qty, 0);
            assert_eq!(p.remaining_qty, 0);
        }
        _ => panic!("expected OrderCancelled"),
    }
}

#[test]
fn on_ramp_credits_quote_currency() {
    let mut engine = Engine::new();
    let user = "U9".to_string();
    engine.on_ramp(&user, 123 * AMOUNT_SCALE);
    let (avail, locked) = engine.balances.balance_of(&user, "INR");
    assert_eq!(avail, 123 * AMOUNT_SCALE);
    assert_eq!(locked, 0);
}

#[test]
fn process_on_ramp_has_no_reply() {
    let mut engine = Engine::new();
    let params = ProcessParams {
        message: InternalMessage::OnRamp(InternalOnRampPayload {
            amount: 5 * AMOUNT_SCALE,
            user_id: "U4".to_string(),
            txn_id: "t1".to_string(),
        }),
        client_id: "c1".to_string(),
    };
    let out = engine.process(params);
    assert!(out.reply.is_none());
    let (avail, _) = engine.balances.balance_of(&"U4".to_string(), "INR");
    assert_eq!(avail, 5 * AMOUNT_SCALE);
}

#[test]
fn process_get_depth_unknown_market_is_empty() {
    let mut engine = Engine::new();
    let params = ProcessParams {
        message: InternalMessage::GetDepth(GetDepthPayload {
            market: "NONE_INR".to_string(),
        }),
        client_id: "c1".to_string(),
    };
    let out = engine.process(params);
    match out.reply {
        Some(MessageToApi::Depth(d)) => {
            assert_eq!(d.bids.len(), 0);
            assert_eq!(d.asks.len(), 0);
        }
        _ => panic!("expected Depth reply"),
    }
}

#[test]
fn process_cancel_produces_reply() {
    let mut engine = setup_engine();
    place(&mut engine, buy("U1", 100, 10), "b1");
    let params = ProcessParams {
        message: InternalMessage::CancelOrder(CancelOrderPayload {
            order_id: "b1".to_string(),
            market: "TATA_INR".to_string(),
        }),
        client_id: "c1".to_string(),
    };
    let out = engine.process(params);
    match out.reply {
        Some(MessageToApi::OrderCancelled(p)) => {
            assert_eq!(p.order_id, "b1");
            assert_eq!(p.executed_qty, 0);
        }
        _ => panic!("expected OrderCancelled reply"),
    }
}

#[test]
fn random_order_id_is_32_hex_digits() {
    let engine = Engine::new();
    let id = engine.get_random_id();
    assert_eq!(id.len(), 32);
    assert!(id.chars().all(|c| c.is_ascii_hexdigit() && !c.is_ascii_uppercase()));
}

#[test]
fn trade_and_depth_events_are_emitted() {
    let mut engine = setup_engine();
    place(&mut engine, sell("U2", 100, 5), "a1");
    let mut db = Vec::new();
    let mut ws = Vec::new();
    let ts = "ts".to_string();
    engine
        .create_order(buy("U1", 100, 5), "b1".to_string(), &ts, &mut db, &mut ws)
        .expect("accepted");
    // one taker order update, one trade record, one fill order update
    assert_eq!(db.len(), 3);
    // one depth event and one trade event
    assert_eq!(ws.len(), 2);
}

#[test]
fn insufficient_base_balance_rejected() {
    let mut engine = setup_engine();
    let u5 = "U5".to_string();
    engine.balances.credit_available(&u5, "TATA", 1);
    let mut db = Vec::new();
    let mut ws = Vec::new();
    let ts = "ts".to_string();
    let r = engine.create_order(sell("U5", 100, 1), "x2".to_string(), &ts, &mut db, &mut ws);
    match r {
        Err(e) => assert_eq!(e, "Insufficient base balance"),
        Ok(_) => panic!("expected rejection"),
    }
}

#[test]
fn unknown_user_rejected() {
    let mut engine = setup_engine();
    let mut db = Vec::new();
    let mut ws = Vec::new();
    let ts = "ts".to_string();
    let r = engine.create_order(buy("U7", 100, 1), "x3".to_string(), &ts, &mut db, &mut ws);
    match r {
        Err(e) => assert_eq!(e, "User not found"),
        Ok(_) => panic!("expected rejection"),
    }
}

#[test]
fn missing_asset_entry_rejected() {
    let mut engine = setup_engine();
    let u8 = "U8".to_string();
    // the user exists but holds no quote-currency entry
    engine.balances.credit_available(&u8, "TATA", 5);
    let mut db = Vec::new();
    let mut ws = Vec::new();
    let ts = "ts".to_string();
    let r = engine.create_order(buy("U8", 100, 1), "x4".to_string(), &ts, &mut db, &mut ws);
    match r {
        Err(e) => assert_eq!(e, "User quote balance not found"),
        Ok(_) => panic!("expected rejection"),
    }
}

#[test]
fn seeded_book_groups_resting_orders() {
    let bid = |id: &str, price: u64, qty: u64| Order {
        price,
        quantity: qty,
        order_id: id.to_string(),
        filled: 0,
        side: Side::Buy,
        user_id: "U1".to_string(),
    };
    let ask = |id: &str, price: u64, qty: u64| Order {
        price,
        quantity: qty,
        order_id: id.to_string(),
        filled: 0,
        side: Side::Sell,
        user_id: "U2".to_string(),
    };
    let bids = vec![bid("b1", 100, 5), bid("b2", 100, 3), bid("b3", 99, 2)];
    let asks = vec![ask("a1", 101, 4)];
    let book = Orderbook::new("TATA".to_string(), bids, asks, Some(7), None);
    assert_eq!(book.ticker(), "TATA_INR");
    assert_eq!(book.last_trade_id, 7);
    let depth = book.get_depth();
    // the two bids at 100 share one level; 99 follows
    assert_eq!(depth.bids.len(), 2);
    assert_eq!(depth.bids[0][0], "100");
    assert_eq!(depth.bids[0][1], "8");
    assert_eq!(depth.bids[1][0], "99");
    assert_eq!(depth.asks.len(), 1);
    assert_eq!(depth.asks[0][0], "101");
}

#[test]
fn seeded_book_drops_invariant_breakers() {
    let mk = |id: &str, side: Side, price: u64| Order {
        price,
        quantity: 5,
        order_id: id.to_string(),
        filled: 0,
        side,
        user_id: "U1".to_string(),
    };
    // the second bid reuses an id; the crossing ask would sit under the bid
    let bids = vec![mk("b1", Side::Buy, 100), mk("b1", Side::Buy, 98)];
    let asks = vec![mk("a1", Side::Sell, 99), mk("a2", Side::Sell, 105)];
    let book = Orderbook::new("TATA".to_string(), bids, asks, None, None);
    let depth = book.get_depth();
    assert_eq!(depth.bids.len(), 1);
    assert_eq!(depth.bids[0][0], "100");
    assert_eq!(depth.asks.len(), 1);
    assert_eq!(depth.asks[0][0], "105");
}

#[test]
fn cancel_in_unknown_market_replies_empty() {
    let mut engine = setup_engine();
    place(&mut engine, buy("U1", 100, 1), "b1");
    let mut ws = Vec::new();
    let reply = engine.cancel_order(&"b1".to_string(), &"DOGE_INR".to_string(), &mut ws);
    match reply {
        MessageToApi::OrderCancelled(p) => assert_eq!(p.order_id, ""),
        _ => panic!("expected OrderCancelled"),
    }
    // the order still rests untouched
    assert_eq!(engine.orderbooks[0].get_depth().bids.len(), 1);
}

#[test]
fn ticker_joins_base_and_quote() {
    let engine = Engine::new();
    assert_eq!(engine.orderbooks[0].ticker(), "TATA_INR");
}

#[test]
fn side_wire_spelling() {
    assert_eq!(Side::Buy.as_str(), "buy");
    assert_eq!(Side::Sell.as_str(), "sell");
}

#[test]
fn internal_fill_renders_its_price() {
    let f = exchange_engine::types::InternalFill::new(105, 7, 3);
    assert_eq!(f.price_string, "105");
    let ext = f.to_external_fill();
    assert_eq!(ext.price, "105");
    assert_eq!(ext.qty, 7);
    assert_eq!(ext.trade_id, 3);
}

#[test]
fn non_crossing_after_rest() {
    let mut engine = setup_engine();
    place(&mut engine, buy("U1", 95, 5), "b1");
    place(&mut engine, sell("U2", 105, 5), "a1");
    let depth = engine.orderbooks[0].get_depth();
    assert_eq!(depth.bids[0][0], "95");
    assert_eq!(depth.asks[0][0], "105");
}

#[test]
fn depth_event_carries_only_touched_levels() {
    let mut engine = setup_engine();
    place(&mut engine, buy("U1", 100, 10), "b1");
    place(&mut engine, buy("U1", 99, 5), "b2");
    let mut db = Vec::new();
    let mut ws = Vec::new();
    let ts = "ts".to_string();
    engine
        .create_order(sell("U2", 100, 6), "s1".to_string(), &ts, &mut db, &mut ws)
        .expect("accepted");
    // one depth event, then one trade event
    assert_eq!(ws.len(), 2);
    match &ws[0].data {
        WsPayload::Depth(d) => {
            // only the struck bid level appears, with its reduced quantity;
            // the untouched level at 99 stays out
            assert_eq!(d.b.len(), 1);
            assert_eq!(d.b[0][0], "100");
            assert_eq!(d.b[0][1], "4");
            // the seller's own side has no level at 100: reported emptied
            assert_eq!(d.a.len(), 1);
            assert_eq!(d.a[0][0], "100");
            assert_eq!(d.a[0][1], "0");
        }
        _ => panic!("expected a depth event first"),
    }
    assert_eq!(ws[0].stream, "depth@TATA_INR");
}

#[test]
fn cancel_depth_event_reports_vanished_level_at_zero() {
    let mut engine = setup_engine();
    place(&mut engine, buy("U1", 100, 10), "b1");
    let mut ws = Vec::new();
    engine.cancel_order(&"b1".to_string(), &"TATA_INR".to_string(), &mut ws);
    assert_eq!(ws.len(), 1);
    match &ws[0].data {
        WsPayload::Depth(d) => {
            // the cancelled order emptied its level: reported at quantity 0
            assert_eq!(d.b.len(), 1);
            assert_eq!(d.b[0][0], "100");
            assert_eq!(d.b[0][1], "0");
            assert_eq!(d.a.len(), 1);
            assert_eq!(d.a[0][1], "0");
        }
        _ => panic!("expected a depth event"),
    }
}

#[test]
fn full_fill_depth_event_reports_consumed_level_at_zero() {
    let mut engine = setup_engine();
    place(&mut engine, buy("U1", 100, 10), "b1");
    let mut db = Vec::new();
    let mut ws = Vec::new();
    let ts = "ts".to_string();
    engine
        .create_order(sell("U2", 100, 10), "s1".to_string(), &ts, &mut db, &mut ws)
        .expect("accepted");
    match &ws[0].data {
        WsPayload::Depth(d) => {
            // the consumed bid level is reported emptied, not omitted
            assert_eq!(d.b.len(), 1);
            assert_eq!(d.b[0][0], "100");
            assert_eq!(d.b[0][1], "0");
        }
        _ => panic!("expected a depth event first"),
    }
}
