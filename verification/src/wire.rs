//! The wire message model: inbound tagged messages, the control/data split,
//! and the classification of inbound messages into user-visible data versus
//! protocol control chatter.

use vstd::prelude::*;

verus! {

/// An exact decimal price: `numer / denom`, with `denom` a positive power of
/// ten.  Two prices are the same value exactly when their components agree.
#[derive(Clone, Copy, Debug, PartialEq, Eq, Structural)]
pub struct Price {
    /// The scaled integer value.
    pub numer: u64,
    /// The power-of-ten scale.
    pub denom: u64,
}

impl Price {
    /// A price from its scaled integer value and its scale.
    pub fn new(numer: u64, denom: u64) -> (r: Price)
        ensures
            r.numer == numer,
            r.denom == denom,
    {
        Price { numer, denom }
    }
}

/// An instant in civil time, read from an ISO-8601 UTC timestamp.
#[derive(Clone, Copy, Debug, PartialEq, Eq, Structural)]
pub struct Timestamp {
    /// The calendar year.
    pub year: u32,
    /// The calendar month, `1` through `12`.
    pub month: u32,
    /// The day of the month, `1` through the month's length.
    pub day: u32,
    /// The hour of the day, below `24`.
    pub hour: u32,
    /// The minute, below `60`.
    pub minute: u32,
    /// The second, below `60`.
    pub second: u32,
    /// The sub-second part in nanoseconds, below one second.
    pub nanosecond: u32,
}

/// The length of a month, accounting for leap years.
pub open spec fn days_in_month(year: u32, month: u32) -> u32 {
    if month == 1 || month == 3 || month == 5 || month == 7 || month == 8 || month == 10 || month
        == 12 {
        31
    } else if month == 4 || month == 6 || month == 9 || month == 11 {
        30
    } else if year % 4 == 0 && (year % 100 != 0 || year % 400 == 0) {
        29
    } else {
        28
    }
}

/// Whether a timestamp names a real instant of the calendar.
pub open spec fn valid_timestamp(t: Timestamp) -> bool {
    &&& 1 <= t.month <= 12
    &&& 1 <= t.day <= days_in_month(t.year, t.month)
    &&& t.hour < 24
    &&& t.minute < 60
    &&& t.second < 60
    &&& t.nanosecond < 1000000000
}

/// Aggregate bar data for one instrument.
#[derive(Clone, Debug, PartialEq)]
pub struct Bar {
    /// The bar's symbol.
    pub symbol: String,
    /// The bar's open price.
    pub open_price: Price,
    /// The bar's high price.
    pub high_price: Price,
    /// The bar's low price.
    pub low_price: Price,
    /// The bar's close price.
    pub close_price: Price,
    /// The bar's volume.
    pub volume: u64,
    /// The bar's time stamp.
    pub timestamp: Timestamp,
}

/// The mathematical value of a [`Bar`], with the symbol as its text.
pub struct BarV {
    /// The bar's symbol.
    pub symbol: Seq<char>,
    /// The bar's open price.
    pub open_price: Price,
    /// The bar's high price.
    pub high_price: Price,
    /// The bar's low price.
    pub low_price: Price,
    /// The bar's close price.
    pub close_price: Price,
    /// The bar's volume.
    pub volume: u64,
    /// The bar's time stamp.
    pub timestamp: Timestamp,
}

impl View for Bar {
    type V = BarV;

    open spec fn view(&self) -> BarV {
        BarV {
            symbol: self.symbol@,
            open_price: self.open_price,
            high_price: self.high_price,
            low_price: self.low_price,
            close_price: self.close_price,
            volume: self.volume,
            timestamp: self.timestamp,
        }
    }
}

/// The mathematical value of an [`ApiError`], with the message as its text.
pub struct ApiErrorV {
    /// The error code being reported.
    pub code: u64,
    /// The error's message text.
    pub message: Seq<char>,
}

impl View for ApiError {
    type V = ApiErrorV;

    open spec fn view(&self) -> ApiErrorV {
        ApiErrorV { code: self.code, message: self.message@ }
    }
}

/// The mathematical value of a [`DataMessage`].
pub enum DataMessageV {
    /// Aggregate data for a given symbol.
    Bar(BarV),
    /// A control message indicating that the last operation succeeded.
    Success,
    /// A structured error reported by the remote service.
    Error(ApiErrorV),
}

impl View for DataMessage {
    type V = DataMessageV;

    open spec fn view(&self) -> DataMessageV {
        match self {
            DataMessage::Bar(bar) => DataMessageV::Bar(bar@),
            DataMessage::Success => DataMessageV::Success,
            DataMessage::Error(e) => DataMessageV::Error(e@),
        }
    }
}

/// An error as reported by the remote data service.
#[derive(Clone, Debug, PartialEq)]
pub struct ApiError {
    /// The error code being reported.
    pub code: u64,
    /// A message providing more details about the error.
    pub message: String,
}

/// An inbound message, discriminated on the wire by its tag field.
#[derive(Clone, Debug, PartialEq)]
pub enum DataMessage {
    /// Aggregate data for a given symbol.
    Bar(Bar),
    /// A control message indicating that the last operation succeeded.
    Success,
    /// A structured error reported by the remote service.
    Error(ApiError),
}

/// A user-visible data item.
#[derive(Clone, Debug, PartialEq)]
pub enum Data {
    /// Aggregate data for a given symbol.
    Bar(Bar),
}

/// A protocol-internal control message, consumed by the subscription
/// session and never surfaced to the data consumer.
#[derive(Clone, Debug, PartialEq)]
pub enum ControlMessage {
    /// The last operation succeeded.
    Success,
    /// A structured error reported by the remote service.
    Error(ApiError),
}

/// A channel-level failure, reported by the transport that carries the
/// messages.
#[derive(Clone, Debug, PartialEq)]
pub struct TransportError {
    /// The transport's own description of the failure.
    pub message: String,
}

/// A failure to decode a received message; see [`crate::codec`].
#[derive(Clone, Copy, Debug, PartialEq, Eq, Structural)]
pub enum DecodeError {
    /// The text is not a well-formed message object.
    Syntax,
    /// A numeric field does not fit the supported range.
    Overflow,
    /// The tag field is missing or a required field of the tagged shape is
    /// missing.
    MissingField,
    /// A field is present but has the wrong shape or an invalid value.
    InvalidField,
    /// The tag names no known message shape.
    UnknownTag,
}

/// What the transport handed us for one inbound message: a decode attempt,
/// or a channel-level failure.
#[derive(Debug, PartialEq)]
pub enum ParsedMessage {
    /// The channel delivered text and we tried to decode it.
    Received(Result<DataMessage, DecodeError>),
    /// The channel itself failed.
    Failed(TransportError),
}

/// What a consumer of the stream sees for one inbound message: the outer
/// result signals transport failure, the inner result decode failure.
pub type UserMessage = Result<Result<Data, DecodeError>, TransportError>;

/// One inbound message, split into user-visible data or control chatter.
#[derive(Debug, PartialEq)]
pub enum Classification {
    /// Surfaced to the data consumer.
    User(UserMessage),
    /// Routed to the subscription session.
    Control(ControlMessage),
}

/// Where each inbound message goes: bars and both kinds of failure to the
/// consumer, success and structured-error acknowledgements to the session.
pub open spec fn classify_spec(m: ParsedMessage) -> Classification {
    match m {
        ParsedMessage::Received(Ok(DataMessage::Bar(bar))) => Classification::User(
            Ok(Ok(Data::Bar(bar))),
        ),
        ParsedMessage::Received(Ok(DataMessage::Success)) => Classification::Control(
            ControlMessage::Success,
        ),
        ParsedMessage::Received(Ok(DataMessage::Error(error))) => Classification::Control(
            ControlMessage::Error(error),
        ),
        ParsedMessage::Received(Err(err)) => Classification::User(Ok(Err(err))),
        ParsedMessage::Failed(err) => Classification::User(Err(err)),
    }
}

/// Split an inbound message into user-visible data versus a control message
/// for the subscription session.  Decode failures and transport failures are
/// passed through to the consumer, never dropped.
pub fn classify(m: ParsedMessage) -> (r: Classification)
    ensures
        r == classify_spec(m),
{
    match m {
        ParsedMessage::Received(Ok(DataMessage::Bar(bar))) => Classification::User(
            Ok(Ok(Data::Bar(bar))),
        ),
        ParsedMessage::Received(Ok(DataMessage::Success)) => Classification::Control(
            ControlMessage::Success,
        ),
        ParsedMessage::Received(Ok(DataMessage::Error(error))) => Classification::Control(
            ControlMessage::Error(error),
        ),
        ParsedMessage::Received(Err(err)) => Classification::User(Ok(Err(err))),
        ParsedMessage::Failed(err) => Classification::User(Err(err)),
    }
}

/// Whether a user-visible message counts as a stream-health error: a
/// transport failure or a decode failure does, successfully decoded data
/// does not.
pub open spec fn is_error_spec(m: UserMessage) -> bool {
    match m {
        Ok(inner) => inner is Err,
        Err(_) => true,
    }
}

/// Decide whether a user-visible message is a stream-health error.  A
/// structured service error never reaches this point: [`classify`] routes it
/// to the session as control data, so it can never trigger stream-health
/// remediation.
pub fn is_error(m: &UserMessage) -> (r: bool)
    ensures
        r == is_error_spec(*m),
{
    match m {
        Ok(inner) => inner.is_err(),
        Err(_) => true,
    }
}

/// A structured service error is not a stream-health error: classification
/// routes it to the session as a control message, so it is never surfaced
/// as a user-visible error and never marked as one.
pub proof fn lemma_api_error_is_not_stream_error(e: ApiError)
    ensures
        classify_spec(ParsedMessage::Received(Ok(DataMessage::Error(e))))
            == Classification::Control(ControlMessage::Error(e)),
        forall|m: ParsedMessage|
            ((#[trigger] classify_spec(m)) matches Classification::User(u) ==> (is_error_spec(u)
                <==> !(m matches ParsedMessage::Received(Ok(DataMessage::Bar(_)))))),
{
    assert forall|m: ParsedMessage|
        ((#[trigger] classify_spec(m)) matches Classification::User(u) ==> (is_error_spec(u)
            <==> !(m matches ParsedMessage::Received(Ok(DataMessage::Bar(_)))))) by {
        match m {
            ParsedMessage::Received(Ok(DataMessage::Bar(_))) => {},
            _ => {},
        }
    }
}

} // verus!
