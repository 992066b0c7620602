//! The data model: orders, fills, and every message that crosses the bus.
use vstd::prelude::*;
use vstd::string::StringExecFns;

use crate::fixed::parse_amount_spec;
use crate::numfmt::{dec_chars, parse_u64_spec};

verus! {

#[derive(Clone, Copy, PartialEq, Eq, Structural, Debug)]
pub enum Side {
    Buy,
    Sell,
}

impl Side {
    /// The wire spelling of the side.
    pub fn as_str(&self) -> (r: &'static str)
        ensures
            *self == Side::Buy ==> r@ == "buy"@,
            *self == Side::Sell ==> r@ == "sell"@,
    {
        match self {
            Side::Buy => "buy",
            Side::Sell => "sell",
        }
    }
}

/// The mathematical image of an [`Order`].
#[verifier::ext_equal]
pub ghost struct OrderModel {
    pub order_id: Seq<char>,
    pub user_id: Seq<char>,
    pub price: int,
    pub quantity: int,
    pub filled: int,
    pub side: Side,
}

impl OrderModel {
    /// Units of the order not yet filled.
    pub open spec fn remaining(self) -> int {
        self.quantity - self.filled
    }

    /// Every order the engine accepts: a positive price, a positive
    /// quantity, and a fill progress within the quantity.
    pub open spec fn valid(self) -> bool {
        self.price > 0 && self.quantity > 0 && 0 <= self.filled <= self.quantity
    }
}

#[derive(Clone, Debug)]
pub struct Order {
    pub price: u64,
    pub quantity: u64,
    pub order_id: String,
    pub filled: u64,
    pub side: Side,
    pub user_id: String,
}

impl View for Order {
    type V = OrderModel;

    open spec fn view(&self) -> OrderModel {
        OrderModel {
            order_id: self.order_id@,
            user_id: self.user_id@,
            price: self.price as int,
            quantity: self.quantity as int,
            filled: self.filled as int,
            side: self.side,
        }
    }
}

impl Order {
    /// An exact copy; unlike a derived clone, its contract says so.
    pub fn duplicate(&self) -> (r: Order)
        ensures
            r@ == self@,
    {
        Order {
            price: self.price,
            quantity: self.quantity,
            order_id: self.order_id.clone(),
            filled: self.filled,
            side: self.side,
            user_id: self.user_id.clone(),
        }
    }
}

/// The mathematical image of one fill.
#[verifier::ext_equal]
pub ghost struct FillModel {
    pub price: int,
    pub qty: int,
    pub trade_id: int,
    pub maker_user_id: Seq<char>,
    pub maker_order_id: Seq<char>,
}

/// A fill as the matcher produces it, with the trade price kept both as a
/// number and in its wire spelling.
#[derive(Clone, Debug)]
pub struct InternalFill {
    pub price_u64: u64,
    pub price_string: String,
    pub qty: u64,
    pub trade_id: u64,
}

impl InternalFill {
    pub fn new(price_u64: u64, qty: u64, trade_id: u64) -> (r: InternalFill)
        ensures
            r.price_u64 == price_u64,
            r.qty == qty,
            r.trade_id == trade_id,
            r.price_string@ == dec_chars(price_u64 as int),
    {
        InternalFill {
            price_u64,
            price_string: crate::numfmt::u64_to_dec_string(price_u64),
            qty,
            trade_id,
        }
    }

    pub fn to_external_fill(&self) -> (r: Fill)
        ensures
            r.price@ == self.price_string@,
            r.qty == self.qty,
            r.trade_id == self.trade_id,
    {
        Fill { price: self.price_string.clone(), qty: self.qty, trade_id: self.trade_id }
    }
}

/// One fill together with the resting side's identity.
pub struct OrderbookFill {
    pub fill: InternalFill,
    pub other_user_id: String,
    pub marker_order_id: String,
}

impl View for OrderbookFill {
    type V = FillModel;

    open spec fn view(&self) -> FillModel {
        FillModel {
            price: self.fill.price_u64 as int,
            qty: self.fill.qty as int,
            trade_id: self.fill.trade_id as int,
            maker_user_id: self.other_user_id@,
            maker_order_id: self.marker_order_id@,
        }
    }
}

/// What `Orderbook::add_order` returns.
pub struct OrderCreated {
    pub executed_quantity: u64,
    pub fills: Vec<OrderbookFill>,
}

// ---------------------------------------------------------------------------
// Replies to the gateway
// ---------------------------------------------------------------------------

#[derive(Debug)]
pub enum MessageToApi {
    Depth(DepthPayload),
    OrderPlaced(OrderPlacedPayload),
    OrderCancelled(OrderCancelledPayload),
    OpenOrders(Vec<Order>),
}

#[derive(Debug)]
pub struct DepthPayload {
    pub bids: Vec<[String; 2]>,
    pub asks: Vec<[String; 2]>,
}

#[derive(Debug)]
pub struct OrderPlacedPayload {
    pub order_id: String,
    pub executed_qty: u64,
    pub fills: Vec<Fill>,
}

#[derive(Debug)]
pub struct OrderCancelledPayload {
    pub order_id: String,
    pub executed_qty: u64,
    pub remaining_qty: u64,
}

#[derive(Debug)]
pub struct Fill {
    pub price: String,
    pub qty: u64,
    pub trade_id: u64,
}

// ---------------------------------------------------------------------------
// Requests from the gateway
// ---------------------------------------------------------------------------

#[derive(Debug)]
pub enum MessageFromApi {
    CreateOrder(CreateOrderPayload),
    CancelOrder(CancelOrderPayload),
    GetDepth(GetDepthPayload),
    GetOpenOrders(GetOpenOrdersPayload),
    OnRamp(OnRampPayload),
}

#[derive(Debug)]
pub struct CreateOrderPayload {
    pub market: String,
    pub price: String,
    pub quantity: String,
    pub side: Side,
    pub user_id: String,
}

#[derive(Debug)]
pub struct CancelOrderPayload {
    pub order_id: String,
    pub market: String,
}

#[derive(Debug)]
pub struct GetDepthPayload {
    pub market: String,
}

#[derive(Debug)]
pub struct GetOpenOrdersPayload {
    pub market: String,
    pub user_id: String,
}

#[derive(Debug)]
pub struct OnRampPayload {
    pub amount: String,
    pub user_id: String,
    pub txn_id: String,
}

// ---------------------------------------------------------------------------
// Records for the storage worker
// ---------------------------------------------------------------------------

pub enum DbMessageType {
    TradeAdded,
    OrderUpdate,
}

pub struct DbMessage {
    pub db_message_type: DbMessageType,
    pub data: DbMessageData,
}

pub enum DbMessageData {
    TradeAdd(TradeAdd),
    OrderUpdate(OrderUpdate),
}

pub struct TradeAdd {
    pub id: String,
    pub is_buyer_maker: bool,
    pub price: String,
    pub quantity: String,
    pub quote_quantity: String,
    pub timestamp: String,
    pub market: String,
}

pub struct OrderUpdate {
    pub order_id: String,
    pub executed_quantity: u64,
    pub price: Option<String>,
    pub market: Option<String>,
    pub quantity: Option<String>,
    pub side: Option<Side>,
}

// ---------------------------------------------------------------------------
// Market-data events
// ---------------------------------------------------------------------------

#[derive(Clone)]
pub struct WsMessage {
    pub stream: String,
    pub data: WsPayload,
}

#[derive(Clone)]
pub enum WsPayload {
    Ticker(TickerUpdateMessage),
    Depth(DepthUpdateMessage),
    Trade(TradeUpdateMessage),
}

#[derive(Clone)]
pub struct TickerUpdateMessage {
    pub c: Option<String>,
    pub h: Option<String>,
    pub l: Option<String>,
    pub v: Option<String>,
    pub v_taker: Option<String>,
    pub s: Option<String>,
    pub id: u64,
    pub e: String,
}

#[derive(Clone)]
pub struct DepthUpdateMessage {
    pub b: Vec<[String; 2]>,
    pub a: Vec<[String; 2]>,
    pub e: String,
}

#[derive(Clone)]
pub struct TradeUpdateMessage {
    pub e: String,
    pub t: u64,
    pub m: bool,
    pub p: String,
    pub q: String,
    pub s: String,
}

// ---------------------------------------------------------------------------
// Parsed requests inside the engine
// ---------------------------------------------------------------------------

#[derive(Debug)]
pub enum InternalMessage {
    CreateOrder(InternalCreateOrderPayload),
    CancelOrder(CancelOrderPayload),
    GetDepth(GetDepthPayload),
    GetOpenOrders(GetOpenOrdersPayload),
    OnRamp(InternalOnRampPayload),
}

#[derive(Debug)]
pub struct InternalCreateOrderPayload {
    pub market: String,
    pub price: u64,
    pub quantity: u64,
    pub side: Side,
    pub user_id: String,
}

/// The on-ramp amount in `10^-12` ledger units.
#[derive(Debug)]
pub struct InternalOnRampPayload {
    pub amount: u128,
    pub user_id: String,
    pub txn_id: String,
}

/// What parsing a wire request must return: every numeric field decoded
/// by the wire grammar, or an error naming the first offending value.
pub open spec fn parse_ok(api_message: MessageFromApi, r: Result<InternalMessage, String>) -> bool {
    match api_message {
        MessageFromApi::CreateOrder(p) => {
            match (parse_u64_spec(p.price@), parse_u64_spec(p.quantity@)) {
                (Some(price), Some(quantity)) => r matches Ok(InternalMessage::CreateOrder(ip))
                    && ip.market@ == p.market@ && ip.price == price && ip.quantity == quantity
                    && ip.side == p.side && ip.user_id@ == p.user_id@,
                (None, _) => r matches Err(e) && e@ == "Invalid price format: "@ + p.price@,
                (Some(_), None) => r matches Err(e) && e@ == "Invalid quantity format: "@
                    + p.quantity@,
            }
        },
        MessageFromApi::CancelOrder(p) => r matches Ok(InternalMessage::CancelOrder(q))
            && q.order_id@ == p.order_id@ && q.market@ == p.market@,
        MessageFromApi::GetDepth(p) => r matches Ok(InternalMessage::GetDepth(q)) && q.market@
            == p.market@,
        MessageFromApi::GetOpenOrders(p) => r matches Ok(InternalMessage::GetOpenOrders(q))
            && q.market@ == p.market@ && q.user_id@ == p.user_id@,
        MessageFromApi::OnRamp(p) => {
            match parse_amount_spec(p.amount@) {
                Some(units) => r matches Ok(InternalMessage::OnRamp(q)) && q.amount == units
                    && q.user_id@ == p.user_id@ && q.txn_id@ == p.txn_id@,
                None => r matches Err(e) && e@ == "Invalid amount format: "@ + p.amount@,
            }
        },
    }
}

impl InternalMessage {
    /// Turns a wire request into its parsed form, rejecting unparsable
    /// numeric fields with a message naming the offending value.
    pub fn from_api_message(api_message: MessageFromApi) -> (r: Result<InternalMessage, String>)
        ensures
            parse_ok(api_message, r),
    {
        match api_message {
            MessageFromApi::CreateOrder(payload) => {
                let price = match crate::numfmt::parse_u64(payload.price.as_str()) {
                    Some(v) => v,
                    None => {
                        let mut e = "Invalid price format: ".to_owned();
                        e.append(payload.price.as_str());
                        return Err(e);
                    },
                };
                let quantity = match crate::numfmt::parse_u64(payload.quantity.as_str()) {
                    Some(v) => v,
                    None => {
                        let mut e = "Invalid quantity format: ".to_owned();
                        e.append(payload.quantity.as_str());
                        return Err(e);
                    },
                };
                Ok(
                    InternalMessage::CreateOrder(
                        InternalCreateOrderPayload {
                            market: payload.market,
                            price,
                            quantity,
                            side: payload.side,
                            user_id: payload.user_id,
                        },
                    ),
                )
            },
            MessageFromApi::CancelOrder(payload) => Ok(InternalMessage::CancelOrder(payload)),
            MessageFromApi::GetDepth(payload) => Ok(InternalMessage::GetDepth(payload)),
            MessageFromApi::GetOpenOrders(payload) => Ok(InternalMessage::GetOpenOrders(payload)),
            MessageFromApi::OnRamp(payload) => {
                let amount = match crate::fixed::parse_amount(payload.amount.as_str()) {
                    Some(v) => v,
                    None => {
                        let mut e = "Invalid amount format: ".to_owned();
                        e.append(payload.amount.as_str());
                        return Err(e);
                    },
                };
                Ok(
                    InternalMessage::OnRamp(
                        InternalOnRampPayload {
                            amount,
                            user_id: payload.user_id,
                            txn_id: payload.txn_id,
                        },
                    ),
                )
            },
        }
    }
}

// ---------------------------------------------------------------------------
// Gateway-side request mirror and query types
// ---------------------------------------------------------------------------

/// The gateway's own spelling of a request it enqueues for the engine.
#[derive(Debug)]
pub enum MessageToEngine {
    CreateOrder(CreateOrderPayload),
    CancelOrder(CancelOrderPayload),
    OnRamp(OnRampPayload),
    GetDepth(GetDepthPayload),
    GetOpenOrders(GetOpenOrdersPayload),
}

/// Query parameters of the candlestick endpoint.
#[derive(Debug)]
pub struct KlinesQuery {
    pub market: String,
    pub interval: String,
    pub start_time: Option<String>,
    pub end_time: Option<String>,
}

/// One candlestick row as the market-data endpoint serves it.
#[derive(Debug)]
pub struct Kline {
    pub open: String,
    pub high: String,
    pub low: String,
    pub close: String,
    pub volume: String,
    pub quote_volume: String,
    pub trades: String,
    pub start: String,
    pub end: String,
}

/// Query parameters of the recent-trades endpoint.
#[derive(Debug)]
pub struct TradeQuery {
    pub symbol: String,
    pub limit: u64,
}

/// A socket client's subscribe or unsubscribe message.
#[derive(Debug)]
pub struct IncomingMessage {
    pub method: Method,
    pub params: Vec<String>,
}

#[derive(Debug, Clone, Copy, PartialEq, Eq, Structural)]
pub enum Method {
    Subscribe,
    Unsubscribe,
}

} // verus!
