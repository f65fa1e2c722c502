//! Ledger events and the errors raised while reading them.

use vstd::prelude::*;
use crate::fixed::MAX_AMOUNT_UNITS;

verus! {

/// One well-formed ledger event. Amounts are in ten-thousandths and keep
/// their sign as written; an account refuses a negative deposit or
/// withdrawal on its own.
#[derive(Clone, Copy, Debug, PartialEq, Eq, Structural)]
pub enum Event {
    Deposit { client: u16, tx: u32, amount: i128 },
    Withdrawal { client: u16, tx: u32, amount: i128 },
    Dispute { client: u16, tx: u32 },
    Resolve { client: u16, tx: u32 },
    Chargeback { client: u16, tx: u32 },
}

/// The client an event addresses.
pub open spec fn event_client(ev: Event) -> u16 {
    match ev {
        Event::Deposit { client, .. } => client,
        Event::Withdrawal { client, .. } => client,
        Event::Dispute { client, .. } => client,
        Event::Resolve { client, .. } => client,
        Event::Chargeback { client, .. } => client,
    }
}

/// Every amount carried by an event stays within the parser's bound.
pub open spec fn event_wf(ev: Event) -> bool {
    match ev {
        Event::Deposit { amount, .. } => -MAX_AMOUNT_UNITS <= amount <= MAX_AMOUNT_UNITS,
        Event::Withdrawal { amount, .. } => -MAX_AMOUNT_UNITS <= amount <= MAX_AMOUNT_UNITS,
        _ => true,
    }
}

/// What went wrong with a record.
#[derive(Clone, Copy, Debug, PartialEq, Eq, Structural)]
pub enum ParseErrorKind {
    /// A required column (`type`, `client` or `tx`) is not present.
    MissingField,
    /// The `type` field names no known event kind.
    UnknownKind,
    /// The `client` field is not a decimal number a client identifier can hold.
    BadClient,
    /// The `tx` field is not a decimal number a transaction identifier can hold.
    BadTransaction,
    /// The `amount` field is present but is not a decimal amount in range.
    BadAmount,
}

/// A fatal reading error: the whole run is abandoned when one is raised.
#[derive(Clone, Copy, Debug, PartialEq, Eq, Structural)]
pub struct ParseError {
    /// The input line the bad record stands on, counting from one.
    pub line: usize,
    pub kind: ParseErrorKind,
}

} // verus!
