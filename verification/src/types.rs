//! Plain value types shared by the whole engine.

use vstd::prelude::*;

verus! {

/// An account on the host ledger.
pub type AccountId = u64;

/// Identifier of a currency / asset class.
pub type AssetId = u32;

/// An asset quantity.
pub type Balance = u128;

/// An opaque, monotonically increasing time value (block height or tick).
pub type Moment = u64;

/// Length of the refund window: a refund request made at time `now` may be
/// auto-cancelled from `now + REFUND_WINDOW` on, unless disputed or resolved
/// before then.
pub const REFUND_WINDOW: u64 = 601;

/// Maximum length, in bytes, of the informational remark attached to a payment.
pub const MAX_REMARK_LEN: usize = 50;

/// Maximum number of simultaneously pending scheduled tasks.
pub const MAX_SCHEDULED_TASKS: usize = 50;

/// State of a live (funded) payment. Terminal outcomes (released, cancelled,
/// resolved) are represented by deleting the record, not by a stored state.
#[derive(Clone, Copy, Debug, PartialEq, Eq, Structural)]
pub enum PaymentState {
    /// Funds locked, no refund requested.
    Created,
    /// The payer asked for a refund; an auto-cancel task is pending.
    RefundRequested,
    /// The recipient disputed the refund; only the resolver can settle.
    Disputed,
}

/// One escrow record, keyed externally by the (payer, recipient) pair.
#[derive(Debug)]
pub struct PaymentDetail {
    /// The locked currency.
    pub asset: AssetId,
    /// The locked quantity; always positive for a live payment.
    pub amount: Balance,
    /// Current lifecycle state.
    pub state: PaymentState,
    /// Account empowered to arbitrate, fixed at creation time.
    pub resolver: AccountId,
    /// Optional bounded informational byte string.
    pub remark: Option<Vec<u8>>,
}

/// The kind of a deferred action.
#[derive(Clone, Copy, Debug, PartialEq, Eq, Structural)]
pub enum TaskKind {
    /// Cancel the payment and return the locked funds to the payer.
    Cancel,
}

/// A pending deferred action for one (payer, recipient) pair.
#[derive(Clone, Copy, Debug, PartialEq, Eq, Structural)]
pub struct ScheduledTask {
    /// What to do when due.
    pub task: TaskKind,
    /// The time at which the task becomes due.
    pub when: Moment,
}

/// Why an operation was refused. Every failure is an atomic no-op.
#[derive(Clone, Copy, Debug, PartialEq, Eq, Structural)]
pub enum PaymentError {
    /// No payment or request exists for the given pair.
    NotFound,
    /// The operation is not legal in the payment's current state.
    InvalidState,
    /// The caller is not the required party for this operation.
    Unauthorized,
    /// The ledger refused to lock or move funds for lack of balance.
    InsufficientFunds,
    /// The scheduled-task registry is full.
    CapacityExceeded,
    /// A balance or time value would exceed its machine representation.
    Overflow,
}

} // verus!
