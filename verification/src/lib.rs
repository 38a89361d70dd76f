//! Real-time market-data subscription layer of a brokerage API client.
//!
//! The crate models the symbol lists a client subscribes to together with
//! their normalization invariant, the tagged wire messages exchanged over a
//! duplex channel, the classification of inbound messages into user-visible
//! data versus protocol control chatter, the encoding of outbound control
//! requests, and the authenticate/subscribe/unsubscribe session state
//! machine.  Transport I/O itself stays outside: callers hand complete
//! message texts in and send encoded request texts out.

pub mod symbols;
pub mod wire;
pub mod codec;
pub mod session;
