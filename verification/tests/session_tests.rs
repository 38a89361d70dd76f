use apca_stream::session::ControlEvent;
use apca_stream::session::SessionError;
use apca_stream::session::Subscription;
use apca_stream::session::auth_error_text;
use apca_stream::symbols::MarketData;
use apca_stream::symbols::Symbol;
use apca_stream::wire::ApiError;
use apca_stream::wire::Bar;
use apca_stream::wire::Classification;
use apca_stream::wire::ControlMessage;
use apca_stream::wire::Data;
use apca_stream::wire::DataMessage;
use apca_stream::wire::DecodeError;
use apca_stream::wire::ParsedMessage;
use apca_stream::wire::Price;
use apca_stream::wire::Timestamp;
use apca_stream::wire::TransportError;
use apca_stream::wire::classify;
use apca_stream::wire::is_error;

fn sym(s: &str) -> Symbol {
    Symbol::Symbol(s.to_string())
}

fn delta(symbols: Vec<Symbol>) -> MarketData {
    let mut data = MarketData::default();
    data.set_bars(symbols);
    data
}

fn sample_bar() -> Bar {
    Bar {
        symbol: "SPY".to_string(),
        open_price: Price::new(1, 1),
        high_price: Price::new(2, 1),
        low_price: Price::new(1, 2),
        close_price: Price::new(3, 2),
        volume: 10,
        timestamp: Timestamp {
            year: 2021,
            month: 2,
            day: 22,
            hour: 19,
            minute: 15,
            second: 0,
            nanosecond: 0,
        },
    }
}

/// A bar goes to the consumer; success and structured errors go to the
/// session as control messages.
#[test]
fn classify_splits_messages() {
    let bar = sample_bar();
    let classified = classify(ParsedMessage::Received(Ok(DataMessage::Bar(bar.clone()))));
    assert_eq!(classified, Classification::User(Ok(Ok(Data::Bar(bar)))));

    let classified = classify(ParsedMessage::Received(Ok(DataMessage::Success)));
    assert_eq!(classified, Classification::Control(ControlMessage::Success));

    let api_error = ApiError { code: 400, message: "invalid syntax".to_string() };
    let classified = classify(ParsedMessage::Received(Ok(DataMessage::Error(api_error.clone()))));
    assert_eq!(classified, Classification::Control(ControlMessage::Error(api_error)));

    let classified = classify(ParsedMessage::Received(Err(DecodeError::Syntax)));
    assert_eq!(classified, Classification::User(Ok(Err(DecodeError::Syntax))));

    let failure = TransportError { message: "connection reset".to_string() };
    let classified = classify(ParsedMessage::Failed(failure.clone()));
    assert_eq!(classified, Classification::User(Err(failure)));
}

/// A decode failure or a transport failure is a stream-health error; a
/// structured service error is not, because it is never surfaced as a user
/// message in the first place.
#[test]
fn stream_health_classification() {
    let bar = sample_bar();
    assert!(!is_error(&Ok(Ok(Data::Bar(bar)))));
    assert!(is_error(&Ok(Err(DecodeError::Syntax))));
    assert!(is_error(&Err(TransportError { message: "reset".to_string() })));

    // A structured service error decodes fine and classifies as control
    // data, so `is_error` never even sees it.
    let api_error = ApiError { code: 502, message: "upstream".to_string() };
    match classify(ParsedMessage::Received(Ok(DataMessage::Error(api_error)))) {
        Classification::Control(_) => (),
        Classification::User(m) => panic!("service error surfaced to the consumer: {:?}", m),
    }
}

/// Authentication: success reaches the authenticated state, a rejection
/// reports code and message, premature closure is its own failure.
#[test]
fn authenticate_outcomes() {
    let mut session = Subscription::new();
    assert!(!session.is_authenticated());
    let outcome = session.handle_auth_response(ControlEvent::Received(ControlMessage::Success));
    assert_eq!(outcome, Ok(()));
    assert!(session.is_authenticated());
    assert_eq!(session.subscriptions().bars.symbols().len(), 0);

    let mut session = Subscription::new();
    let rejection = ApiError { code: 401, message: "invalid credentials".to_string() };
    let outcome = session.handle_auth_response(
        ControlEvent::Received(ControlMessage::Error(rejection)),
    );
    let error = outcome.unwrap_err();
    let text = auth_error_text(&error);
    assert_eq!(text, "failed to authenticate with server: invalid credentials (401)");
    assert!(text.contains("401"));
    assert!(text.contains("invalid credentials"));
    assert!(!session.is_authenticated());

    let mut session = Subscription::new();
    let outcome = session.handle_auth_response(ControlEvent::Closed);
    assert_eq!(outcome, Err(SessionError::Closed));
    assert_eq!(
        auth_error_text(&SessionError::Closed),
        "stream was closed before authorization message was received"
    );
    assert!(!session.is_authenticated());

    let mut session = Subscription::new();
    let outcome = session.handle_auth_response(ControlEvent::Failed);
    assert_eq!(outcome, Err(SessionError::Failed));
    assert_eq!(auth_error_text(&SessionError::Failed), "failed to authenticate with server");
}

/// Subscribing merges the acknowledged delta into the baseline; a failure
/// leaves the baseline untouched.
#[test]
fn subscribe_commits_only_on_success() {
    let mut session = Subscription::new();
    session
        .handle_auth_response(ControlEvent::Received(ControlMessage::Success))
        .unwrap();

    let first = delta(vec![sym("VOO"), sym("AAPL")]);
    let outcome = session.handle_subscribe_response(
        &first,
        ControlEvent::Received(ControlMessage::Success),
    );
    assert_eq!(outcome, Ok(()));
    assert_eq!(session.subscriptions().bars.symbols(), &vec![sym("AAPL"), sym("VOO")]);

    let more = delta(vec![sym("MSFT")]);
    let outcome = session.handle_subscribe_response(&more, ControlEvent::Closed);
    assert_eq!(outcome, Err(SessionError::Closed));
    assert_eq!(session.subscriptions().bars.symbols(), &vec![sym("AAPL"), sym("VOO")]);

    let rejection = ApiError { code: 403, message: "not allowed".to_string() };
    let outcome = session.handle_subscribe_response(
        &more,
        ControlEvent::Received(ControlMessage::Error(rejection)),
    );
    assert_eq!(
        outcome,
        Err(SessionError::Rejected { code: 403, message: "not allowed".to_string() })
    );
    assert_eq!(session.subscriptions().bars.symbols(), &vec![sym("AAPL"), sym("VOO")]);

    let outcome = session.handle_subscribe_response(
        &more,
        ControlEvent::Received(ControlMessage::Success),
    );
    assert_eq!(outcome, Ok(()));
    assert_eq!(
        session.subscriptions().bars.symbols(),
        &vec![sym("AAPL"), sym("MSFT"), sym("VOO")]
    );
}

/// Unsubscribing removes exactly the acknowledged delta's symbols and
/// leaves the others untouched.
#[test]
fn unsubscribe_removes_only_delta() {
    let mut session = Subscription::new();
    session
        .handle_auth_response(ControlEvent::Received(ControlMessage::Success))
        .unwrap();
    session
        .handle_subscribe_response(
            &delta(vec![sym("AAPL"), sym("MSFT"), sym("VOO")]),
            ControlEvent::Received(ControlMessage::Success),
        )
        .unwrap();

    let gone = delta(vec![sym("MSFT"), sym("SPY")]);
    let outcome = session.handle_unsubscribe_response(&gone, ControlEvent::Closed);
    assert_eq!(outcome, Err(SessionError::Closed));
    assert_eq!(
        session.subscriptions().bars.symbols(),
        &vec![sym("AAPL"), sym("MSFT"), sym("VOO")]
    );

    let outcome = session.handle_unsubscribe_response(
        &gone,
        ControlEvent::Received(ControlMessage::Success),
    );
    assert_eq!(outcome, Ok(()));
    assert_eq!(session.subscriptions().bars.symbols(), &vec![sym("AAPL"), sym("VOO")]);
}
