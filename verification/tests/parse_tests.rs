//! The wire-number grammar: integers, amounts, and rendering.
use exchange_engine::fixed::{parse_amount, AMOUNT_SCALE};
use exchange_engine::numfmt::{parse_u64, u128_to_dec_string, u64_to_dec_string, u64_to_hex_string};
use exchange_engine::types::{
    CreateOrderPayload, InternalMessage, MessageFromApi, OnRampPayload, Side,
};

#[test]
fn parse_u64_accepts_plain_digits() {
    assert_eq!(parse_u64("0"), Some(0));
    assert_eq!(parse_u64("100"), Some(100));
    assert_eq!(parse_u64("18446744073709551615"), Some(u64::MAX));
}

#[test]
fn parse_u64_accepts_leading_plus() {
    assert_eq!(parse_u64("+5"), Some(5));
}

#[test]
fn parse_u64_rejects_garbage() {
    assert_eq!(parse_u64(""), None);
    assert_eq!(parse_u64("+"), None);
    assert_eq!(parse_u64("-1"), None);
    assert_eq!(parse_u64("12a"), None);
    assert_eq!(parse_u64("1.5"), None);
    assert_eq!(parse_u64("na\u{ef}f"), None);
}

#[test]
fn parse_u64_rejects_overflow() {
    assert_eq!(parse_u64("18446744073709551616"), None);
}

#[test]
fn parse_amount_handles_integers_and_fractions() {
    assert_eq!(parse_amount("100"), Some(100 * AMOUNT_SCALE));
    assert_eq!(parse_amount("0.5"), Some(AMOUNT_SCALE / 2));
    assert_eq!(parse_amount("1.000000000001"), Some(AMOUNT_SCALE + 1));
    assert_eq!(parse_amount("+2.25"), Some(2 * AMOUNT_SCALE + AMOUNT_SCALE / 4));
}

#[test]
fn parse_amount_rejects_bad_shapes() {
    assert_eq!(parse_amount(""), None);
    assert_eq!(parse_amount("-1"), None);
    assert_eq!(parse_amount("1."), None);
    assert_eq!(parse_amount(".5"), None);
    assert_eq!(parse_amount("1.2.3"), None);
    // thirteen fractional digits exceed the ledger's resolution
    assert_eq!(parse_amount("1.1234567890123"), None);
}

#[test]
fn decimal_rendering_matches_display() {
    assert_eq!(u64_to_dec_string(0), "0");
    assert_eq!(u64_to_dec_string(100), "100");
    assert_eq!(u64_to_dec_string(u64::MAX), u64::MAX.to_string());
    assert_eq!(u128_to_dec_string(12_345_678_901_234_567_890_123u128), "12345678901234567890123");
}

#[test]
fn hex_rendering_matches_format() {
    assert_eq!(u64_to_hex_string(0), "0");
    assert_eq!(u64_to_hex_string(255), "ff");
    assert_eq!(u64_to_hex_string(0xdead_beef), "deadbeef");
}

#[test]
fn from_api_message_parses_create_order() {
    let msg = MessageFromApi::CreateOrder(CreateOrderPayload {
        market: "TATA_INR".to_string(),
        price: "100".to_string(),
        quantity: "10".to_string(),
        side: Side::Buy,
        user_id: "U1".to_string(),
    });
    match InternalMessage::from_api_message(msg) {
        Ok(InternalMessage::CreateOrder(p)) => {
            assert_eq!(p.price, 100);
            assert_eq!(p.quantity, 10);
            assert_eq!(p.market, "TATA_INR");
        }
        _ => panic!("expected parsed create order"),
    }
}

#[test]
fn from_api_message_names_bad_price() {
    let msg = MessageFromApi::CreateOrder(CreateOrderPayload {
        market: "TATA_INR".to_string(),
        price: "1x0".to_string(),
        quantity: "10".to_string(),
        side: Side::Buy,
        user_id: "U1".to_string(),
    });
    match InternalMessage::from_api_message(msg) {
        Err(e) => assert_eq!(e, "Invalid price format: 1x0"),
        _ => panic!("expected an error"),
    }
}

#[test]
fn from_api_message_parses_on_ramp_amount() {
    let msg = MessageFromApi::OnRamp(OnRampPayload {
        amount: "12.5".to_string(),
        user_id: "U1".to_string(),
        txn_id: "t1".to_string(),
    });
    match InternalMessage::from_api_message(msg) {
        Ok(InternalMessage::OnRamp(p)) => {
            assert_eq!(p.amount, 12 * AMOUNT_SCALE + AMOUNT_SCALE / 2);
        }
        _ => panic!("expected parsed on-ramp"),
    }
}
