//! The subscription session: the authenticate/subscribe/unsubscribe state
//! machine over a correlated control channel.
//!
//! The session itself performs no I/O.  A caller encodes a request with
//! [`crate::codec`], sends it over its transport, awaits the one correlated
//! control response, and hands the outcome back as a [`ControlEvent`]; the
//! functions here decide the state transition and the typed result.  The
//! committed subscription baseline changes only on an acknowledged success.

use vstd::prelude::*;

use crate::codec::dec_str;
use crate::codec::u64_to_string;
use crate::symbols::MarketData;
use crate::symbols::SymbolView;
use crate::symbols::is_normalized_spec;
use crate::symbols::normalize_spec;
use crate::symbols::remove_views;
use crate::wire::ControlMessage;

verus! {

/// The outcome a caller observed for one sent control request.
#[derive(Debug, PartialEq)]
pub enum ControlEvent {
    /// The correlated control response arrived.
    Received(ControlMessage),
    /// The control channel reported a failure for this request.
    Failed,
    /// The stream closed before any response arrived.
    Closed,
}

/// Why a control operation failed, when the request itself was sent.
#[derive(Debug, PartialEq)]
pub enum SessionError {
    /// The service rejected the request with a structured error.
    Rejected {
        /// The service's error code.
        code: u64,
        /// The service's error message.
        message: String,
    },
    /// The control channel reported a failure.
    Failed,
    /// The stream closed before the acknowledgement arrived.
    Closed,
}

/// The failure text reported to the caller of an authentication attempt: a
/// rejection embeds both the service's message and its code.
pub fn auth_error_text(e: &SessionError) -> (r: String)
    ensures
        match e {
            SessionError::Rejected { code, message } => r@ == "failed to authenticate with server: "@
                + message@ + " ("@ + dec_str(*code as int) + ")"@,
            SessionError::Failed => r@ == "failed to authenticate with server"@,
            SessionError::Closed => r@
                == "stream was closed before authorization message was received"@,
        },
{
    match e {
        SessionError::Rejected { code, message } => {
            let mut out = String::new();
            out.append("failed to authenticate with server: ");
            out.append(message.as_str());
            out.append(" (");
            let digits = u64_to_string(*code);
            out.append(digits.as_str());
            out.append(")");
            proof {
                assert(out@ =~= "failed to authenticate with server: "@ + e->message@ + " ("@
                    + dec_str(e->code as int) + ")"@);
            }
            out
        },
        SessionError::Failed => String::from_str("failed to authenticate with server"),
        SessionError::Closed => String::from_str(
            "stream was closed before authorization message was received",
        ),
    }
}

/// A subscription session over one exclusively owned control channel: the
/// authentication state and the committed subscription baseline.
#[derive(Debug, PartialEq)]
pub struct Subscription {
    authenticated: bool,
    subscriptions: MarketData,
}

impl Subscription {
    /// Whether the session has reached the authenticated state.
    pub closed spec fn spec_authenticated(&self) -> bool {
        self.authenticated
    }

    /// The committed subscription baseline of the `bars` category.
    pub closed spec fn baseline(&self) -> Seq<SymbolView> {
        self.subscriptions.bars@
    }

    /// The session invariant: the baseline is always a normalized list.
    pub open spec fn wf(&self) -> bool {
        is_normalized_spec(self.baseline())
    }

    /// A fresh, unauthenticated session with an empty baseline.
    pub fn new() -> (r: Self)
        ensures
            !r.spec_authenticated(),
            r.baseline() == Seq::<SymbolView>::empty(),
            r.wf(),
    {
        Subscription { authenticated: false, subscriptions: MarketData::default() }
    }

    /// Whether the session has reached the authenticated state.
    pub fn is_authenticated(&self) -> (r: bool)
        ensures
            r == self.spec_authenticated(),
    {
        self.authenticated
    }

    /// The currently active market data subscriptions: the committed
    /// baseline, never a request still in flight.
    pub fn subscriptions(&self) -> (r: &MarketData)
        ensures
            r.bars@ == self.baseline(),
    {
        &self.subscriptions
    }

    /// Apply the outcome of an authentication exchange.  Success reaches
    /// the authenticated state with an empty baseline; a rejection carries
    /// the service's code and message and, like a channel failure or a
    /// premature closure, leaves the session unauthenticated and otherwise
    /// unchanged.
    pub fn handle_auth_response(&mut self, event: ControlEvent) -> (r: Result<(), SessionError>)
        requires
            !old(self).spec_authenticated(),
            old(self).wf(),
        ensures
            final(self).wf(),
            match event {
                ControlEvent::Received(ControlMessage::Success) => r is Ok && final(self).spec_authenticated() && final(self).baseline() == Seq::<SymbolView>::empty(),
                ControlEvent::Received(ControlMessage::Error(e)) => (r matches Err(
                    SessionError::Rejected { code, message },
                ) && code == e.code && message@ == e.message@) && *final(self) == *old(self),
                ControlEvent::Failed => r matches Err(SessionError::Failed) && *final(self) == *old(self),
                ControlEvent::Closed => r matches Err(SessionError::Closed) && *final(self) == *old(self),
            },
            r is Err ==> !final(self).spec_authenticated(),
    {
        match event {
            ControlEvent::Received(ControlMessage::Success) => {
                self.authenticated = true;
                self.subscriptions = MarketData::default();
                Ok(())
            },
            ControlEvent::Received(ControlMessage::Error(e)) => {
                Err(SessionError::Rejected { code: e.code, message: e.message })
            },
            ControlEvent::Failed => Err(SessionError::Failed),
            ControlEvent::Closed => Err(SessionError::Closed),
        }
    }

    /// Apply the outcome of a subscribe exchange for the additional market
    /// data in `delta`.  Success merges `delta` into the baseline, category
    /// by category: union, then re-normalization.  Any failure leaves the
    /// baseline exactly as it was.
    pub fn handle_subscribe_response(&mut self, delta: &MarketData, event: ControlEvent) -> (r:
        Result<(), SessionError>)
        requires
            old(self).spec_authenticated(),
            old(self).wf(),
        ensures
            final(self).wf(),
            final(self).spec_authenticated(),
            match event {
                ControlEvent::Received(ControlMessage::Success) => r is Ok && final(self).baseline()
                    == normalize_spec(old(self).baseline() + delta.bars@),
                ControlEvent::Received(ControlMessage::Error(e)) => (r matches Err(
                    SessionError::Rejected { code, message },
                ) && code == e.code && message@ == e.message@) && *final(self) == *old(self),
                ControlEvent::Failed => r matches Err(SessionError::Failed) && *final(self) == *old(self),
                ControlEvent::Closed => r matches Err(SessionError::Closed) && *final(self) == *old(self),
            },
    {
        match event {
            ControlEvent::Received(ControlMessage::Success) => {
                let merged = self.subscriptions.bars.merge(&delta.bars);
                self.subscriptions.bars = merged;
                Ok(())
            },
            ControlEvent::Received(ControlMessage::Error(e)) => {
                Err(SessionError::Rejected { code: e.code, message: e.message })
            },
            ControlEvent::Failed => Err(SessionError::Failed),
            ControlEvent::Closed => Err(SessionError::Closed),
        }
    }

    /// Apply the outcome of an unsubscribe exchange for the market data in
    /// `delta`.  Success removes `delta`'s symbols from the corresponding
    /// categories of the baseline and re-normalizes; symbols outside
    /// `delta` are left untouched.  Any failure leaves the baseline exactly
    /// as it was.
    pub fn handle_unsubscribe_response(&mut self, delta: &MarketData, event: ControlEvent) -> (r:
        Result<(), SessionError>)
        requires
            old(self).spec_authenticated(),
            old(self).wf(),
        ensures
            final(self).wf(),
            final(self).spec_authenticated(),
            match event {
                ControlEvent::Received(ControlMessage::Success) => r is Ok && final(self).baseline()
                    == normalize_spec(remove_views(old(self).baseline(), delta.bars@)),
                ControlEvent::Received(ControlMessage::Error(e)) => (r matches Err(
                    SessionError::Rejected { code, message },
                ) && code == e.code && message@ == e.message@) && *final(self) == *old(self),
                ControlEvent::Failed => r matches Err(SessionError::Failed) && *final(self) == *old(self),
                ControlEvent::Closed => r matches Err(SessionError::Closed) && *final(self) == *old(self),
            },
    {
        match event {
            ControlEvent::Received(ControlMessage::Success) => {
                let kept = self.subscriptions.bars.remove(&delta.bars);
                self.subscriptions.bars = kept;
                Ok(())
            },
            ControlEvent::Received(ControlMessage::Error(e)) => {
                Err(SessionError::Rejected { code: e.code, message: e.message })
            },
            ControlEvent::Failed => Err(SessionError::Failed),
            ControlEvent::Closed => Err(SessionError::Closed),
        }
    }
}

} // verus!
