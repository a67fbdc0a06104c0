//! Errors of the page handler.
use vstd::prelude::*;

verus! {

#[derive(Debug, Clone, Copy, PartialEq, Eq, Structural)]
pub enum DbErr {
    /// The main file cannot grow to hold a page.
    IoError,
    /// A page lies past the end of the main file, or page 0 is malformed.
    CorruptStore,
    /// A document could not be turned into bytes.
    EncodeError,
    /// Stored bytes are not a document.
    DecodeError,
    /// The free list would overflow the header page.
    NotImplemented,
    /// Every page id has been handed out.
    PageSpaceExhausted,
    /// A record does not fit in an empty data page.
    DataSizeTooLarge,
    /// Internal bookkeeping is inconsistent.
    InvariantViolation,
    /// A page write was attempted outside a write transaction.
    CannotWriteDbWithoutTransaction,
    /// A transaction was started while another one is under way.
    StartTransactionInAnotherTransaction,
    /// Commit, rollback or upgrade without a transaction to act on.
    NoTransactionStarted,
    /// No live document at the slot a ticket names.
    NotFound,
}

} // verus!
