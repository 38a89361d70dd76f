use apca_stream::codec::decode_data_message;
use apca_stream::codec::encode_authenticate;
use apca_stream::codec::encode_subscribe;
use apca_stream::codec::encode_unsubscribe;
use apca_stream::codec::u64_to_string;
use apca_stream::symbols::MarketData;
use apca_stream::symbols::Symbol;
use apca_stream::wire::DataMessage;
use apca_stream::wire::DecodeError;
use apca_stream::wire::Price;
use apca_stream::wire::Timestamp;

/// Check that we can decode the bar message shape.
#[test]
fn parse_bar() {
    let json = r#"{
  "T": "b",
  "S": "SPY",
  "o": 388.985,
  "h": 389.13,
  "l": 388.975,
  "c": 389.12,
  "v": 49378,
  "t": "2021-02-22T19:15:00Z"
}"#;

    let message = decode_data_message(json).unwrap();
    let bar = match message {
        DataMessage::Bar(bar) => bar,
        _ => panic!("Decoded unexpected message variant: {:?}", message),
    };
    assert_eq!(bar.symbol, "SPY");
    assert_eq!(bar.open_price, Price::new(388985, 1000));
    assert_eq!(bar.high_price, Price::new(38913, 100));
    assert_eq!(bar.low_price, Price::new(388975, 1000));
    assert_eq!(bar.close_price, Price::new(38912, 100));
    assert_eq!(bar.volume, 49378);
    assert_eq!(
        bar.timestamp,
        Timestamp { year: 2021, month: 2, day: 22, hour: 19, minute: 15, second: 0, nanosecond: 0 }
    );
}

/// Check that we can decode the success message shape.
#[test]
fn parse_success() {
    let json = r#"{"T":"success","msg":"authenticated"}"#;
    let message = decode_data_message(json).unwrap();
    let () = match message {
        DataMessage::Success => (),
        _ => panic!("Decoded unexpected message variant: {:?}", message),
    };
}

/// Check that we can decode the error message shape.
#[test]
fn parse_error() {
    let json = r#"{"T":"error","code":400,"msg":"invalid syntax"}"#;
    let message = decode_data_message(json).unwrap();
    let error = match message {
        DataMessage::Error(error) => error,
        _ => panic!("Decoded unexpected message variant: {:?}", message),
    };

    assert_eq!(error.code, 400);
    assert_eq!(error.message, "invalid syntax");

    let json = r#"{"T":"error","code":500,"msg":"internal error"}"#;
    let message = decode_data_message(json).unwrap();
    let error = match message {
        DataMessage::Error(error) => error,
        _ => panic!("Decoded unexpected message variant: {:?}", message),
    };

    assert_eq!(error.code, 500);
    assert_eq!(error.message, "internal error");
}

/// Check that we can encode an authentication request properly.
#[test]
fn serialize_authentication_request() {
    let json = encode_authenticate("KEY-ID", "SECRET-KEY");
    let expected = r#"{"action":"auth","key":"KEY-ID","secret":"SECRET-KEY"}"#;
    assert_eq!(json, expected);
}

/// Check that we can encode a subscribe request properly.
#[test]
fn serialize_subscribe_request() {
    let mut data = MarketData::default();
    data.set_bars(vec![
        Symbol::Symbol("AAPL".into()),
        Symbol::Symbol("VOO".into()),
    ]);
    let json = encode_subscribe(&data);
    let expected = r#"{"action":"subscribe","bars":["AAPL","VOO"]}"#;
    assert_eq!(json, expected);
}

/// Check that we can encode an unsubscribe request properly.
#[test]
fn serialize_unsubscribe_request() {
    let mut data = MarketData::default();
    data.set_bars(vec![Symbol::Symbol("VOO".into())]);
    let json = encode_unsubscribe(&data);
    let expected = r#"{"action":"unsubscribe","bars":["VOO"]}"#;
    assert_eq!(json, expected);
}

/// A subscribe request normalizes unsorted input before encoding, and the
/// wildcard is written as the literal `"*"`.
#[test]
fn serialize_normalizes_first() {
    let mut data = MarketData::default();
    data.set_bars(vec![
        Symbol::Symbol("VOO".into()),
        Symbol::Symbol("AAPL".into()),
        Symbol::Symbol("VOO".into()),
    ]);
    let json = encode_subscribe(&data);
    assert_eq!(json, r#"{"action":"subscribe","bars":["AAPL","VOO"]}"#);

    let mut data = MarketData::default();
    data.set_bars(vec![Symbol::Symbol("SPY".into()), Symbol::All]);
    let json = encode_subscribe(&data);
    assert_eq!(json, r#"{"action":"subscribe","bars":["*"]}"#);

    let empty = MarketData::default();
    assert_eq!(encode_subscribe(&empty), r#"{"action":"subscribe","bars":[]}"#);
}

/// Escaped characters in keys and values survive encoding and decoding.
#[test]
fn escaping_round_trips() {
    let json = encode_authenticate("KEY\"ID", "S\\K");
    assert_eq!(json, r#"{"action":"auth","key":"KEY\"ID","secret":"S\\K"}"#);

    let message = decode_data_message(r#"{"T":"error","code":7,"msg":"a\"b\\c\nd"}"#).unwrap();
    let error = match message {
        DataMessage::Error(error) => error,
        _ => panic!("Decoded unexpected message variant: {:?}", message),
    };
    assert_eq!(error.code, 7);
    assert_eq!(error.message, "a\"b\\c\nd");
}

/// Each kind of decode failure is reported as its own error.
#[test]
fn decode_failures() {
    // Not an object at all.
    assert_eq!(decode_data_message("nonsense"), Err(DecodeError::Syntax));
    // Trailing text after the object.
    assert_eq!(
        decode_data_message(r#"{"T":"success"} tail"#),
        Err(DecodeError::Syntax)
    );
    // A number too large for the supported range.
    assert_eq!(
        decode_data_message(r#"{"T":"error","code":99999999999999999999999,"msg":"x"}"#),
        Err(DecodeError::Overflow)
    );
    // No tag member at all.
    assert_eq!(decode_data_message(r#"{"msg":"x"}"#), Err(DecodeError::MissingField));
    // A bar without its price fields.
    assert_eq!(
        decode_data_message(r#"{"T":"b","S":"SPY"}"#),
        Err(DecodeError::MissingField)
    );
    // A volume that is not an integer.
    assert_eq!(
        decode_data_message(
            r#"{"T":"b","S":"SPY","o":1,"h":1,"l":1,"c":1,"v":1.5,"t":"2021-02-22T19:15:00Z"}"#
        ),
        Err(DecodeError::InvalidField)
    );
    // A timestamp that names no real instant.
    assert_eq!(
        decode_data_message(
            r#"{"T":"b","S":"SPY","o":1,"h":1,"l":1,"c":1,"v":1,"t":"2021-02-30T19:15:00Z"}"#
        ),
        Err(DecodeError::InvalidField)
    );
    // A tag naming no known shape.
    assert_eq!(
        decode_data_message(r#"{"T":"quote","x":1}"#),
        Err(DecodeError::UnknownTag)
    );
}

/// Unknown members are ignored; member order does not matter.
#[test]
fn decode_is_order_insensitive() {
    let json = r#"{"S":"SPY","v":2,"t":"2020-02-29T23:59:59.25Z","T":"b","o":1,"h":3,"l":0.5,"c":2,"extra":"ignored"}"#;
    let message = decode_data_message(json).unwrap();
    let bar = match message {
        DataMessage::Bar(bar) => bar,
        _ => panic!("Decoded unexpected message variant: {:?}", message),
    };
    assert_eq!(bar.symbol, "SPY");
    assert_eq!(bar.open_price, Price::new(1, 1));
    assert_eq!(bar.low_price, Price::new(5, 10));
    assert_eq!(
        bar.timestamp,
        Timestamp {
            year: 2020,
            month: 2,
            day: 29,
            hour: 23,
            minute: 59,
            second: 59,
            nanosecond: 250000000,
        }
    );
}

/// Numbers render as their decimal digits.
#[test]
fn format_numbers() {
    assert_eq!(u64_to_string(0), "0");
    assert_eq!(u64_to_string(401), "401");
    assert_eq!(u64_to_string(18446744073709551615), "18446744073709551615");
}
