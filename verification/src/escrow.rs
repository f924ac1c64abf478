//! The escrow state machine: the operations that validate a caller's
//! transition, move funds through the ledger, mutate the payment store and
//! the scheduled-task registry together, and append one event per success.
//!
//! The central invariant, kept by every operation: each account's locked
//! ledger balance equals the sum of the amounts of its live outgoing
//! payments, and a scheduled task exists only while its payment is in the
//! refund-requested state.

use vstd::prelude::*;

verus! {

use crate::ledger::Ledger;
use crate::requests::{RequestDetail, RequestStore};
use crate::store::PaymentStore;
use crate::tasks::TaskRegistry;
use crate::types::{
    AccountId, AssetId, Balance, Moment, PaymentDetail, PaymentError, PaymentState, ScheduledTask,
    TaskKind, MAX_REMARK_LEN, MAX_SCHEDULED_TASKS, REFUND_WINDOW,
};

/// One entry of the append-only event log.
#[derive(Debug, PartialEq, Eq)]
pub enum Event {
    /// A payment was created and its amount locked from the payer.
    PaymentCreated { from: AccountId, asset: AssetId, amount: Balance, remark: Option<Vec<u8>> },
    /// The payer released the full locked amount to the recipient.
    PaymentReleased { from: AccountId, to: AccountId },
    /// The payment was cancelled and the locked amount returned to the payer.
    PaymentCancelled { from: AccountId, to: AccountId },
    /// The resolver split the locked amount between the parties.
    PaymentResolved { from: AccountId, to: AccountId, recipient_share: u8 },
    /// The payer asked for a refund; auto-cancel is due at `expiry`.
    PaymentCreatorRequestedRefund { from: AccountId, to: AccountId, expiry: Moment },
    /// The recipient disputed the refund request.
    PaymentRefundDisputed { from: AccountId, to: AccountId },
    /// The recipient asked the payer for a payment.
    PaymentRequestCreated { from: AccountId, to: AccountId },
    /// The payer accepted a request: funds locked and disbursed in one step.
    PaymentRequestCompleted { from: AccountId, to: AccountId },
}

/// The byte content of an optional remark.
pub open spec fn remark_view(r: Option<Vec<u8>>) -> Option<Seq<u8>> {
    match r {
        Some(v) => Some(v@),
        None => None,
    }
}

/// The recipient's part when `amount` is split at `share` percent:
/// the floor of `amount * share / 100`. The payer receives the exact
/// remainder, so the two parts always rebuild `amount`.
pub open spec fn share_amount(amount: Balance, share: u8) -> int {
    (amount as int) * (share as int) / 100
}

/// A resolution split conserves funds: the recipient's floor share stays
/// within `[0, amount]`, so the payer's remainder is exact and non-negative,
/// and the two boundary percentages allocate everything to one side.
pub proof fn lemma_split_conserves_funds(amount: Balance, share: u8)
    requires
        share <= 100,
    ensures
        0 <= share_amount(amount, share) <= amount,
        share_amount(amount, share) + (amount - share_amount(amount, share)) == amount,
        share == 100 ==> share_amount(amount, share) == amount,
        share == 0 ==> share_amount(amount, share) == 0,
{
    let a = amount as int;
    let s = share as int;
    vstd::arithmetic::mul::lemma_mul_inequality(s, 100, a);
    assert(a * s == s * a) by (nonlinear_arith);
    assert(a * 100 == 100 * a) by (nonlinear_arith);
    vstd::arithmetic::div_mod::lemma_div_is_ordered(a * s, a * 100, 100);
    assert(a * 100 / 100 == a) by {
        vstd::arithmetic::div_mod::lemma_fundamental_div_mod_converse(a * 100, 100, a, 0);
    }
    vstd::arithmetic::mul::lemma_mul_nonnegative(a, s);
    vstd::arithmetic::div_mod::lemma_div_pos_is_pos(a * s, 100);
    if s == 100 {
    }
    if s == 0 {
        assert(a * 0 == 0) by (nonlinear_arith);
    }
}

/// The same split written with divisions that executable code can take
/// without overflow: quotient and remainder of the amount by 100.
proof fn lemma_share_split_form(amount: Balance, share: u8)
    requires
        share <= 100,
    ensures
        share_amount(amount, share) == (amount as int / 100) * (share as int) + ((amount as int
            % 100) * (share as int)) / 100,
        (amount as int / 100) * (share as int) + ((amount as int % 100) * (share as int)) / 100
            <= amount,
        0 <= (amount as int % 100) * (share as int) <= 9900,
        0 <= (amount as int / 100) * (share as int),
{
    let a = amount as int;
    let s = share as int;
    let q = a / 100;
    let r = a % 100;
    vstd::arithmetic::div_mod::lemma_fundamental_div_mod(a, 100);
    let inner = r * s;
    vstd::arithmetic::mul::lemma_mul_nonnegative(q, s);
    vstd::arithmetic::mul::lemma_mul_nonnegative(r, s);
    vstd::arithmetic::mul::lemma_mul_upper_bound(r, 99, s, 100);
    vstd::arithmetic::div_mod::lemma_fundamental_div_mod(inner, 100);
    let q2 = inner / 100;
    let r2 = inner % 100;
    assert(a * s == 100 * (q * s + q2) + r2) by (nonlinear_arith)
        requires
            a == 100 * q + r,
            inner == r * s,
            inner == 100 * q2 + r2,
    ;
    vstd::arithmetic::div_mod::lemma_fundamental_div_mod_converse(a * s, 100, q * s + q2, r2);
    lemma_split_conserves_funds(amount, share);
}

/// The recipient's part of `amount` at `share` percent.
pub fn compute_share(amount: Balance, share: u8) -> (r: Balance)
    requires
        share <= 100,
    ensures
        r as int == share_amount(amount, share),
        r <= amount,
{
    proof {
        lemma_share_split_form(amount, share);
    }
    let q = amount / 100;
    let rem = amount % 100;
    q * (share as Balance) + (rem * (share as Balance)) / 100
}

/// The whole escrow engine state.
pub struct Escrow {
    /// Free and locked balances per (asset, account).
    pub ledger: Ledger,
    /// Live payments per (payer, recipient).
    pub payments: PaymentStore,
    /// Unfunded payment requests per (payer, recipient).
    pub requests: RequestStore,
    /// Pending deferred actions per (payer, recipient).
    pub tasks: TaskRegistry,
    /// The append-only event log.
    pub events: Vec<Event>,
    /// The account empowered to arbitrate, recorded into every new payment.
    pub resolver: AccountId,
}

/// Both states show the same ledger balances for every key.
pub open spec fn ledger_unchanged(pre: Escrow, post: Escrow) -> bool {
    &&& forall|a: AssetId, c: AccountId| #[trigger]
        post.ledger.free_of(a, c) == pre.ledger.free_of(a, c)
    &&& forall|a: AssetId, c: AccountId| #[trigger]
        post.ledger.locked_of(a, c) == pre.ledger.locked_of(a, c)
}

/// Both states observe the same records, tasks, requests, balances, events
/// and configuration: the operation was a no-op.
pub open spec fn unchanged(pre: Escrow, post: Escrow) -> bool {
    &&& ledger_unchanged(pre, post)
    &&& forall|p: AccountId, q: AccountId| #[trigger]
        post.payments.record_of(p, q) == pre.payments.record_of(p, q)
    &&& forall|p: AccountId, q: AccountId| #[trigger]
        post.tasks.task_of(p, q) == pre.tasks.task_of(p, q)
    &&& forall|p: AccountId, q: AccountId| #[trigger]
        post.requests.request_of(p, q) == pre.requests.request_of(p, q)
    &&& post.events@ == pre.events@
    &&& post.resolver == pre.resolver
}

/// A step that left every component untouched (or byte-identical) keeps the
/// invariant and observes as a no-op.
proof fn lemma_noop(pre: Escrow, post: Escrow)
    requires
        pre.wf(),
        post.ledger.entries@ == pre.ledger.entries@,
        post.payments.entries@ == pre.payments.entries@,
        post.tasks.entries@ == pre.tasks.entries@,
        post.requests.entries@ == pre.requests.entries@,
        post.events@ == pre.events@,
        post.resolver == pre.resolver,
    ensures
        post.wf(),
        unchanged(pre, post),
{
    assert forall|a: AssetId, c: AccountId| #[trigger]
        post.ledger.free_of(a, c) == pre.ledger.free_of(a, c) by {}
    assert forall|a: AssetId, c: AccountId| #[trigger]
        post.ledger.locked_of(a, c) == pre.ledger.locked_of(a, c) by {}
    assert forall|a: AssetId, c: AccountId| #[trigger]
        post.ledger.locked_of(a, c) == post.payments.locked_total(a, c) by {
        assert(pre.ledger.locked_of(a, c) == pre.payments.locked_total(a, c));
    }
    assert forall|p: AccountId, q: AccountId|
        (#[trigger] post.tasks.task_of(p, q)) is Some implies (post.payments.record_of(p, q)
        matches Some(d) && d.state == PaymentState::RefundRequested) by {
        assert(pre.tasks.task_of(p, q) is Some);
    }
}

impl Escrow {
    /// The engine's invariant: components well-formed, each account's locked
    /// balance equal to the sum of its live outgoing payments, and a task
    /// registered only while its payment awaits a refund.
    pub open spec fn wf(self) -> bool {
        &&& self.ledger.wf()
        &&& self.payments.wf()
        &&& self.tasks.wf()
        &&& self.requests.wf()
        &&& forall|a: AssetId, c: AccountId| #[trigger]
            self.ledger.locked_of(a, c) == self.payments.locked_total(a, c)
        &&& forall|p: AccountId, q: AccountId|
            (#[trigger] self.tasks.task_of(p, q)) is Some ==> (self.payments.record_of(p, q)
                matches Some(d) && d.state == PaymentState::RefundRequested)
    }

    /// A fresh engine: no balances, payments, requests, tasks or events.
    pub fn new(resolver: AccountId) -> (r: Escrow)
        ensures
            r.wf(),
            forall|a: AssetId, c: AccountId| #[trigger] r.ledger.free_of(a, c) == 0,
            forall|a: AssetId, c: AccountId| #[trigger] r.ledger.locked_of(a, c) == 0,
            forall|p: AccountId, q: AccountId| #[trigger] r.payments.record_of(p, q) is None,
            forall|p: AccountId, q: AccountId| #[trigger] r.tasks.task_of(p, q) is None,
            forall|p: AccountId, q: AccountId| #[trigger] r.requests.request_of(p, q) is None,
            r.tasks.entries@.len() == 0,
            r.events@.len() == 0,
            r.resolver == resolver,
    {
        Escrow {
            ledger: Ledger::new(),
            payments: PaymentStore::new(),
            requests: RequestStore::new(),
            tasks: TaskRegistry::new(),
            events: Vec::new(),
            resolver,
        }
    }

    /// Mint `amount` of `asset` into an account's free balance (setup use).
    pub fn deposit(&mut self, asset: AssetId, account: AccountId, amount: Balance) -> (r: Result<
        (),
        PaymentError,
    >)
        requires
            old(self).wf(),
        ensures
            final(self).wf(),
            r is Ok <==> old(self).ledger.free_of(asset, account) + old(self).ledger.locked_of(
                asset,
                account,
            ) + amount <= u128::MAX,
            r is Ok ==> final(self).ledger.free_of(asset, account) == old(self).ledger.free_of(
                asset,
                account,
            ) + amount && final(self).ledger.locked_of(asset, account) == old(self).ledger.locked_of(asset, account),
            r is Err ==> r == Err::<(), PaymentError>(PaymentError::Overflow) && unchanged(
                *old(self),
                *final(self),
            ),
            forall|a: AssetId, c: AccountId|
                !(a == asset && c == account) ==> #[trigger] final(self).ledger.free_of(a, c)
                    == old(self).ledger.free_of(a, c),
            forall|a: AssetId, c: AccountId| #[trigger]
                final(self).ledger.locked_of(a, c) == old(self).ledger.locked_of(a, c),
            forall|p: AccountId, q: AccountId| #[trigger]
                final(self).payments.record_of(p, q) == old(self).payments.record_of(p, q),
            forall|p: AccountId, q: AccountId| #[trigger]
                final(self).tasks.task_of(p, q) == old(self).tasks.task_of(p, q),
            forall|p: AccountId, q: AccountId| #[trigger]
                final(self).requests.request_of(p, q) == old(self).requests.request_of(p, q),
            final(self).tasks == old(self).tasks,
            final(self).events@ == old(self).events@,
            final(self).resolver == old(self).resolver,
    {
        let r = self.ledger.deposit(asset, account, amount);
        r
    }

    /// Settle and delete the payment for (payer, recipient): move
    /// `recipient_amount` of its locked funds to the recipient's free balance
    /// and the exact remainder back to the payer's, and drop any scheduled
    /// task. Emits no event; callers do. Fails (a no-op) only when the
    /// recipient's slot could not take the funds in.
    fn settle(&mut self, payer: AccountId, recipient: AccountId, recipient_amount: Balance) -> (r:
        Result<(), PaymentError>)
        requires
            old(self).wf(),
            old(self).payments.record_of(payer, recipient) matches Some(d) && recipient_amount
                <= d.amount,
        ensures
            final(self).wf(),
            ({
                let d = old(self).payments.record_of(payer, recipient)->Some_0;
                &&& (r is Ok <==> (payer == recipient || recipient_amount == 0 || old(self).ledger.free_of(d.asset, recipient) + old(self).ledger.locked_of(d.asset, recipient)
                    + recipient_amount <= u128::MAX))
                &&& (r is Ok ==> {
                    &&& final(self).payments.record_of(payer, recipient) is None
                    &&& final(self).tasks.task_of(payer, recipient) is None
                    &&& final(self).ledger.locked_of(d.asset, payer) == old(self).ledger.locked_of(
                        d.asset,
                        payer,
                    ) - d.amount
                    &&& (payer != recipient ==> final(self).ledger.free_of(d.asset, recipient)
                        == old(self).ledger.free_of(d.asset, recipient) + recipient_amount && final(self).ledger.free_of(d.asset, payer) == old(self).ledger.free_of(d.asset, payer)
                        + d.amount - recipient_amount && final(self).ledger.locked_of(
                        d.asset,
                        recipient,
                    ) == old(self).ledger.locked_of(d.asset, recipient))
                    &&& (payer == recipient ==> final(self).ledger.free_of(d.asset, payer) == old(self).ledger.free_of(d.asset, payer) + d.amount)
                    &&& forall|a: AssetId, c: AccountId|
                        !(a == d.asset && (c == payer || c == recipient)) ==> #[trigger] final(self).ledger.free_of(a, c) == old(self).ledger.free_of(a, c)
                    &&& forall|a: AssetId, c: AccountId|
                        !(a == d.asset && c == payer) ==> #[trigger] final(self).ledger.locked_of(
                            a,
                            c,
                        ) == old(self).ledger.locked_of(a, c)
                    &&& final(self).tasks.entries@.len() <= old(self).tasks.entries@.len()
                    &&& (old(self).tasks.task_of(payer, recipient) is Some ==> final(self).tasks.entries@.len() < old(self).tasks.entries@.len())
                })
                &&& (r is Err ==> r == Err::<(), PaymentError>(PaymentError::Overflow) && unchanged(
                    *old(self),
                    *final(self),
                ))
            }),
            forall|p: AccountId, q: AccountId|
                !(p == payer && q == recipient) ==> #[trigger] final(self).payments.record_of(p, q)
                    == old(self).payments.record_of(p, q),
            forall|p: AccountId, q: AccountId|
                !(p == payer && q == recipient) ==> #[trigger] final(self).tasks.task_of(p, q)
                    == old(self).tasks.task_of(p, q),
            forall|p: AccountId, q: AccountId| #[trigger]
                final(self).requests.request_of(p, q) == old(self).requests.request_of(p, q),
            final(self).tasks.entries@.len() <= old(self).tasks.entries@.len(),
            final(self).events@ == old(self).events@,
            final(self).resolver == old(self).resolver,
    {
        let ghost d = old(self).payments.record_of(payer, recipient)->Some_0;
        let (asset, amount) = match self.payments.scalar_fields(payer, recipient) {
            Some(t) => (t.0, t.1),
            None => {
                proof {
                    assert(false);
                }
                return Err(PaymentError::Overflow);
            }
        };
        if payer != recipient && recipient_amount > 0 {
            if !self.ledger.can_receive(asset, recipient, recipient_amount) {
                proof {
                    lemma_noop(*old(self), *self);
                }
                return Err(PaymentError::Overflow);
            }
        }
        proof {
            old(self).payments.lemma_record_within_total(payer, recipient, d);
        }
        let _ = self.payments.remove_entry(payer, recipient);
        self.tasks.remove(payer, recipient);
        let payer_amount = amount - recipient_amount;
        if payer != recipient {
            proof {
                if recipient_amount == 0 {
                    self.ledger.lemma_totals_bounded(asset, recipient);
                }
            }
            match self.ledger.transfer_from_lock(asset, payer, recipient, recipient_amount) {
                Ok(()) => {},
                Err(_) => {
                    // the lock backing the payment covers the share and the
                    // recipient's headroom was checked above
                    proof {
                        assert(false);
                    }
                    return Err(PaymentError::Overflow);
                }
            }
            match self.ledger.unlock(asset, payer, payer_amount) {
                Ok(()) => {},
                Err(_) => {
                    // what was not transferred is still locked
                    proof {
                        assert(false);
                    }
                    return Err(PaymentError::Overflow);
                }
            }
        } else {
            match self.ledger.unlock(asset, payer, amount) {
                Ok(()) => {},
                Err(_) => {
                    // the lock backing the payment covers its full amount
                    proof {
                        assert(false);
                    }
                    return Err(PaymentError::Overflow);
                }
            }
        }
        Ok(())
    }

    /// Lock `amount` of `asset` from the payer into a new escrow payment for
    /// the recipient. Fails when a payment for the pair already exists or the
    /// payer's free balance cannot cover the amount.
    pub fn pay(
        &mut self,
        payer: AccountId,
        recipient: AccountId,
        asset: AssetId,
        amount: Balance,
        remark: Option<Vec<u8>>,
    ) -> (r: Result<(), PaymentError>)
        requires
            old(self).wf(),
            amount > 0,
            remark matches Some(v) ==> v@.len() <= MAX_REMARK_LEN,
        ensures
            final(self).wf(),
            r is Ok <==> old(self).payments.record_of(payer, recipient) is None && old(self).ledger.free_of(asset, payer) >= amount,
            r is Ok ==> final(self).payments.record_of(payer, recipient) == Some(
                PaymentDetail {
                    asset,
                    amount,
                    state: PaymentState::Created,
                    resolver: old(self).resolver,
                    remark,
                },
            ) && final(self).ledger.free_of(asset, payer) == old(self).ledger.free_of(asset, payer)
                - amount && final(self).ledger.locked_of(asset, payer) == old(self).ledger.locked_of(asset, payer) + amount,
            r is Ok ==> final(self).events@.len() == old(self).events@.len() + 1 && old(self).events@.is_prefix_of(final(self).events@) && (final(self).events@.last() matches
                Event::PaymentCreated { from, asset: a2, amount: m2, remark: rm } && from == payer
                && a2 == asset && m2 == amount && remark_view(rm) == remark_view(remark)),
            r is Ok ==> forall|a: AssetId, c: AccountId|
                !(a == asset && c == payer) ==> #[trigger] final(self).ledger.free_of(a, c) == old(self).ledger.free_of(a, c) && #[trigger] final(self).ledger.locked_of(a, c) == old(self).ledger.locked_of(a, c),
            match r {
                Ok(_) => true,
                Err(e) => unchanged(*old(self), *final(self)) && ((e == PaymentError::InvalidState
                    && old(self).payments.record_of(payer, recipient) is Some) || (e
                    == PaymentError::InsufficientFunds && old(self).payments.record_of(
                    payer,
                    recipient,
                ) is None && old(self).ledger.free_of(asset, payer) < amount)),
            },
            forall|p: AccountId, q: AccountId|
                !(p == payer && q == recipient) ==> #[trigger] final(self).payments.record_of(p, q)
                    == old(self).payments.record_of(p, q),
            forall|p: AccountId, q: AccountId| #[trigger]
                final(self).tasks.task_of(p, q) == old(self).tasks.task_of(p, q),
            final(self).tasks == old(self).tasks,
            forall|p: AccountId, q: AccountId| #[trigger]
                final(self).requests.request_of(p, q) == old(self).requests.request_of(p, q),
            final(self).resolver == old(self).resolver,
    {
        if self.payments.scalar_fields(payer, recipient).is_some() {
            proof {
                lemma_noop(*old(self), *self);
            }
            return Err(PaymentError::InvalidState);
        }
        let remark_for_event = match &remark {
            Some(v) => Some(v.clone()),
            None => None,
        };
        match self.ledger.lock(asset, payer, amount) {
            Ok(()) => {},
            Err(e) => {
                proof {
                    lemma_noop(*old(self), *self);
                }
                return Err(e);
            }
        }
        let detail = PaymentDetail {
            asset,
            amount,
            state: PaymentState::Created,
            resolver: self.resolver,
            remark,
        };
        self.payments.insert(payer, recipient, detail);
        self.events.push(
            Event::PaymentCreated { from: payer, asset, amount, remark: remark_for_event },
        );
        Ok(())
    }

    /// The payer hands the full locked amount to the recipient and the
    /// payment is deleted.
    pub fn release(&mut self, payer: AccountId, recipient: AccountId) -> (r: Result<
        (),
        PaymentError,
    >)
        requires
            old(self).wf(),
        ensures
            final(self).wf(),
            ({
                let rec = old(self).payments.record_of(payer, recipient);
                &&& (r is Ok <==> (rec matches Some(d) && (payer == recipient || d.amount == 0 || old(self).ledger.free_of(d.asset, recipient) + old(self).ledger.locked_of(d.asset, recipient)
                    + d.amount <= u128::MAX)))
                &&& (r is Ok ==> {
                    let d = rec->Some_0;
                    &&& final(self).payments.record_of(payer, recipient) is None
                    &&& final(self).tasks.task_of(payer, recipient) is None
                    &&& final(self).ledger.locked_of(d.asset, payer) == old(self).ledger.locked_of(
                        d.asset,
                        payer,
                    ) - d.amount
                    &&& (payer != recipient ==> final(self).ledger.free_of(d.asset, recipient)
                        == old(self).ledger.free_of(d.asset, recipient) + d.amount && final(self).ledger.free_of(d.asset, payer) == old(self).ledger.free_of(d.asset, payer))
                    &&& (payer == recipient ==> final(self).ledger.free_of(d.asset, payer) == old(self).ledger.free_of(d.asset, payer) + d.amount)
                    &&& final(self).events@ == old(self).events@.push(
                        Event::PaymentReleased { from: payer, to: recipient },
                    )
                })
                &&& (r is Err ==> unchanged(*old(self), *final(self)) && (r == Err::<
                    (),
                    PaymentError,
                >(PaymentError::NotFound) <==> rec is None) && (rec is None || r == Err::<
                    (),
                    PaymentError,
                >(PaymentError::Overflow)))
            }),
            forall|p: AccountId, q: AccountId|
                !(p == payer && q == recipient) ==> #[trigger] final(self).payments.record_of(p, q)
                    == old(self).payments.record_of(p, q),
            forall|p: AccountId, q: AccountId|
                !(p == payer && q == recipient) ==> #[trigger] final(self).tasks.task_of(p, q)
                    == old(self).tasks.task_of(p, q),
            forall|p: AccountId, q: AccountId| #[trigger]
                final(self).requests.request_of(p, q) == old(self).requests.request_of(p, q),
            final(self).tasks.entries@.len() <= old(self).tasks.entries@.len(),
            final(self).resolver == old(self).resolver,
    {
        let amount = match self.payments.scalar_fields(payer, recipient) {
            Some(t) => t.1,
            None => {
                proof {
                    lemma_noop(*old(self), *self);
                }
                return Err(PaymentError::NotFound);
            }
        };
        match self.settle(payer, recipient, amount) {
            Ok(()) => {},
            Err(e) => {
                return Err(e);
            }
        }
        self.events.push(Event::PaymentReleased { from: payer, to: recipient });
        Ok(())
    }

    /// The recipient waives the payment: the full locked amount returns to
    /// the payer and the payment is deleted.
    pub fn cancel(&mut self, recipient: AccountId, payer: AccountId) -> (r: Result<
        (),
        PaymentError,
    >)
        requires
            old(self).wf(),
        ensures
            final(self).wf(),
            r is Ok <==> old(self).payments.record_of(payer, recipient) is Some,
            ({
                let rec = old(self).payments.record_of(payer, recipient);
                &&& (r is Ok ==> {
                    let d = rec->Some_0;
                    &&& final(self).payments.record_of(payer, recipient) is None
                    &&& final(self).tasks.task_of(payer, recipient) is None
                    &&& final(self).ledger.locked_of(d.asset, payer) == old(self).ledger.locked_of(
                        d.asset,
                        payer,
                    ) - d.amount
                    &&& final(self).ledger.free_of(d.asset, payer) == old(self).ledger.free_of(
                        d.asset,
                        payer,
                    ) + d.amount
                    &&& (payer != recipient ==> final(self).ledger.free_of(d.asset, recipient)
                        == old(self).ledger.free_of(d.asset, recipient))
                    &&& final(self).events@ == old(self).events@.push(
                        Event::PaymentCancelled { from: payer, to: recipient },
                    )
                })
                &&& (r is Err ==> r == Err::<(), PaymentError>(PaymentError::NotFound) && unchanged(
                    *old(self),
                    *final(self),
                ))
            }),
            forall|p: AccountId, q: AccountId|
                !(p == payer && q == recipient) ==> #[trigger] final(self).payments.record_of(p, q)
                    == old(self).payments.record_of(p, q),
            forall|p: AccountId, q: AccountId|
                !(p == payer && q == recipient) ==> #[trigger] final(self).tasks.task_of(p, q)
                    == old(self).tasks.task_of(p, q),
            forall|p: AccountId, q: AccountId| #[trigger]
                final(self).requests.request_of(p, q) == old(self).requests.request_of(p, q),
            final(self).tasks.entries@.len() <= old(self).tasks.entries@.len(),
            final(self).resolver == old(self).resolver,
    {
        match self.payments.scalar_fields(payer, recipient) {
            Some(_) => {},
            None => {
                proof {
                    lemma_noop(*old(self), *self);
                }
                return Err(PaymentError::NotFound);
            }
        }
        match self.settle(payer, recipient, 0) {
            Ok(()) => {},
            Err(_) => {
                // settling with a zero recipient share cannot be refused
                proof {
                    assert(false);
                }
                return Err(PaymentError::NotFound);
            }
        }
        self.events.push(Event::PaymentCancelled { from: payer, to: recipient });
        Ok(())
    }

    /// The payer asks for a refund: the payment moves to the
    /// refund-requested state and an auto-cancel task is scheduled for
    /// `now + REFUND_WINDOW`. No funds move.
    pub fn request_refund(&mut self, payer: AccountId, recipient: AccountId, now: Moment) -> (r:
        Result<(), PaymentError>)
        requires
            old(self).wf(),
        ensures
            final(self).wf(),
            ({
                let rec = old(self).payments.record_of(payer, recipient);
                &&& (r is Ok <==> (rec matches Some(d) && d.state == PaymentState::Created && now
                    + REFUND_WINDOW <= u64::MAX && old(self).tasks.entries@.len()
                    < MAX_SCHEDULED_TASKS))
                &&& (r is Ok ==> {
                    let d = rec->Some_0;
                    &&& final(self).payments.record_of(payer, recipient) == Some(
                        PaymentDetail {
                            asset: d.asset,
                            amount: d.amount,
                            state: PaymentState::RefundRequested,
                            resolver: d.resolver,
                            remark: d.remark,
                        },
                    )
                    &&& final(self).tasks.task_of(payer, recipient) == Some(
                        ScheduledTask { task: TaskKind::Cancel, when: (now + REFUND_WINDOW) as Moment },
                    )
                    &&& final(self).events@ == old(self).events@.push(
                        Event::PaymentCreatorRequestedRefund {
                            from: payer,
                            to: recipient,
                            expiry: (now + REFUND_WINDOW) as Moment,
                        },
                    )
                })
                &&& (r is Err ==> unchanged(*old(self), *final(self)) && (match r {
                    Err(e) => (e == PaymentError::NotFound && rec is None) || (e
                        == PaymentError::InvalidState && (rec matches Some(d) && d.state
                        != PaymentState::Created)) || (e == PaymentError::Overflow && (rec matches
                        Some(d) && d.state == PaymentState::Created) && now + REFUND_WINDOW
                        > u64::MAX) || (e == PaymentError::CapacityExceeded && (rec matches Some(d)
                        && d.state == PaymentState::Created) && now + REFUND_WINDOW <= u64::MAX
                        && old(self).tasks.entries@.len() >= MAX_SCHEDULED_TASKS),
                    _ => false,
                }))
            }),
            ledger_unchanged(*old(self), *final(self)),
            forall|p: AccountId, q: AccountId|
                !(p == payer && q == recipient) ==> #[trigger] final(self).payments.record_of(p, q)
                    == old(self).payments.record_of(p, q),
            forall|p: AccountId, q: AccountId|
                !(p == payer && q == recipient) ==> #[trigger] final(self).tasks.task_of(p, q)
                    == old(self).tasks.task_of(p, q),
            forall|p: AccountId, q: AccountId| #[trigger]
                final(self).requests.request_of(p, q) == old(self).requests.request_of(p, q),
            r is Ok ==> final(self).tasks.entries@.len() == old(self).tasks.entries@.len() + 1,
            r is Err ==> final(self).tasks.entries@.len() == old(self).tasks.entries@.len(),
            final(self).resolver == old(self).resolver,
    {
        let state = match self.payments.scalar_fields(payer, recipient) {
            Some(t) => t.2,
            None => {
                proof {
                    lemma_noop(*old(self), *self);
                }
                return Err(PaymentError::NotFound);
            }
        };
        if state != PaymentState::Created {
            proof {
                lemma_noop(*old(self), *self);
            }
            return Err(PaymentError::InvalidState);
        }
        if now > u64::MAX - REFUND_WINDOW {
            proof {
                lemma_noop(*old(self), *self);
            }
            return Err(PaymentError::Overflow);
        }
        let expiry = now + REFUND_WINDOW;
        proof {
            if self.tasks.task_of(payer, recipient) is Some {
                assert(false);
            }
        }
        match self.tasks.try_insert(
            payer,
            recipient,
            ScheduledTask { task: TaskKind::Cancel, when: expiry },
        ) {
            Ok(()) => {},
            Err(e) => {
                proof {
                    lemma_noop(*old(self), *self);
                }
                return Err(e);
            }
        }
        self.payments.set_state(payer, recipient, PaymentState::RefundRequested);
        self.events.push(
            Event::PaymentCreatorRequestedRefund { from: payer, to: recipient, expiry },
        );
        proof {
            assert forall|a: AssetId, c: AccountId| #[trigger]
                self.ledger.locked_of(a, c) == self.payments.locked_total(a, c) by {
                assert(old(self).ledger.locked_of(a, c) == old(self).payments.locked_total(a, c));
            }
        }
        Ok(())
    }

    /// The recipient disputes a refund request: the payment moves to the
    /// disputed state and the pending auto-cancel task is removed, so that
    /// only the resolver can settle it. No funds move.
    pub fn dispute_refund(&mut self, recipient: AccountId, payer: AccountId) -> (r: Result<
        (),
        PaymentError,
    >)
        requires
            old(self).wf(),
        ensures
            final(self).wf(),
            ({
                let rec = old(self).payments.record_of(payer, recipient);
                &&& (r is Ok <==> (rec matches Some(d) && d.state == PaymentState::RefundRequested))
                &&& (r is Ok ==> {
                    let d = rec->Some_0;
                    &&& final(self).payments.record_of(payer, recipient) == Some(
                        PaymentDetail {
                            asset: d.asset,
                            amount: d.amount,
                            state: PaymentState::Disputed,
                            resolver: d.resolver,
                            remark: d.remark,
                        },
                    )
                    &&& final(self).tasks.task_of(payer, recipient) is None
                    &&& final(self).events@ == old(self).events@.push(
                        Event::PaymentRefundDisputed { from: payer, to: recipient },
                    )
                })
                &&& (r is Err ==> unchanged(*old(self), *final(self)) && (match r {
                    Err(e) => (e == PaymentError::NotFound && rec is None) || (e
                        == PaymentError::InvalidState && (rec matches Some(d) && d.state
                        != PaymentState::RefundRequested)),
                    _ => false,
                }))
            }),
            ledger_unchanged(*old(self), *final(self)),
            forall|p: AccountId, q: AccountId|
                !(p == payer && q == recipient) ==> #[trigger] final(self).payments.record_of(p, q)
                    == old(self).payments.record_of(p, q),
            forall|p: AccountId, q: AccountId|
                !(p == payer && q == recipient) ==> #[trigger] final(self).tasks.task_of(p, q)
                    == old(self).tasks.task_of(p, q),
            forall|p: AccountId, q: AccountId| #[trigger]
                final(self).requests.request_of(p, q) == old(self).requests.request_of(p, q),
            final(self).tasks.entries@.len() <= old(self).tasks.entries@.len(),
            final(self).resolver == old(self).resolver,
    {
        let state = match self.payments.scalar_fields(payer, recipient) {
            Some(t) => t.2,
            None => {
                proof {
                    lemma_noop(*old(self), *self);
                }
                return Err(PaymentError::NotFound);
            }
        };
        if state != PaymentState::RefundRequested {
            proof {
                lemma_noop(*old(self), *self);
            }
            return Err(PaymentError::InvalidState);
        }
        self.payments.set_state(payer, recipient, PaymentState::Disputed);
        self.tasks.remove(payer, recipient);
        self.events.push(Event::PaymentRefundDisputed { from: payer, to: recipient });
        proof {
            assert forall|a: AssetId, c: AccountId| #[trigger]
                self.ledger.locked_of(a, c) == self.payments.locked_total(a, c) by {
                assert(old(self).ledger.locked_of(a, c) == old(self).payments.locked_total(a, c));
            }
            assert forall|p: AccountId, q: AccountId|
                (#[trigger] self.tasks.task_of(p, q)) is Some implies (self.payments.record_of(
                p,
                q,
            ) matches Some(dd) && dd.state == PaymentState::RefundRequested) by {
                assert(old(self).tasks.task_of(p, q) is Some);
            }
        }
        Ok(())
    }

    /// The resolver settles the payment in any state — created,
    /// refund-requested or disputed: the recipient gets the floor of
    /// `amount * recipient_share / 100`, the payer the exact remainder; the
    /// payment and any scheduled task are deleted. Any caller but the
    /// payment's resolver is refused with `Unauthorized` and nothing moves.
    /// The only other failure is the machine-limit `Overflow`, when the
    /// recipient's balance could not take the share in.
    pub fn resolve_payment(
        &mut self,
        caller: AccountId,
        payer: AccountId,
        recipient: AccountId,
        recipient_share: u8,
    ) -> (r: Result<(), PaymentError>)
        requires
            old(self).wf(),
            recipient_share <= 100,
        ensures
            final(self).wf(),
            ({
                let rec = old(self).payments.record_of(payer, recipient);
                &&& (r is Ok <==> (rec matches Some(d) && caller == d.resolver && (payer
                    == recipient || share_amount(d.amount, recipient_share) == 0 || old(self).ledger.free_of(d.asset, recipient) + old(self).ledger.locked_of(d.asset, recipient)
                    + share_amount(d.amount, recipient_share) <= u128::MAX)))
                &&& (r is Ok ==> {
                    let d = rec->Some_0;
                    let ra = share_amount(d.amount, recipient_share);
                    &&& final(self).payments.record_of(payer, recipient) is None
                    &&& final(self).tasks.task_of(payer, recipient) is None
                    &&& final(self).ledger.locked_of(d.asset, payer) == old(self).ledger.locked_of(
                        d.asset,
                        payer,
                    ) - d.amount
                    &&& (payer != recipient ==> final(self).ledger.free_of(d.asset, recipient)
                        == old(self).ledger.free_of(d.asset, recipient) + ra && final(self).ledger.free_of(d.asset, payer) == old(self).ledger.free_of(d.asset, payer)
                        + d.amount - ra)
                    &&& (payer == recipient ==> final(self).ledger.free_of(d.asset, payer) == old(self).ledger.free_of(d.asset, payer) + d.amount)
                    &&& final(self).events@ == old(self).events@.push(
                        Event::PaymentResolved { from: payer, to: recipient, recipient_share },
                    )
                })
                &&& (r is Err ==> unchanged(*old(self), *final(self)) && (match r {
                    Err(e) => (e == PaymentError::NotFound && rec is None) || (e
                        == PaymentError::Unauthorized && (rec matches Some(d) && caller
                        != d.resolver)) || (e == PaymentError::Overflow && (rec matches Some(d)
                        && caller == d.resolver)),
                    _ => false,
                }))
            }),
            forall|p: AccountId, q: AccountId|
                !(p == payer && q == recipient) ==> #[trigger] final(self).payments.record_of(p, q)
                    == old(self).payments.record_of(p, q),
            forall|p: AccountId, q: AccountId|
                !(p == payer && q == recipient) ==> #[trigger] final(self).tasks.task_of(p, q)
                    == old(self).tasks.task_of(p, q),
            forall|p: AccountId, q: AccountId| #[trigger]
                final(self).requests.request_of(p, q) == old(self).requests.request_of(p, q),
            final(self).tasks.entries@.len() <= old(self).tasks.entries@.len(),
            final(self).resolver == old(self).resolver,
    {
        let (amount, resolver) = match self.payments.scalar_fields(payer, recipient) {
            Some(t) => (t.1, t.3),
            None => {
                proof {
                    lemma_noop(*old(self), *self);
                }
                return Err(PaymentError::NotFound);
            }
        };
        if caller != resolver {
            proof {
                lemma_noop(*old(self), *self);
            }
            return Err(PaymentError::Unauthorized);
        }
        let recipient_amount = compute_share(amount, recipient_share);
        match self.settle(payer, recipient, recipient_amount) {
            Ok(()) => {},
            Err(e) => {
                return Err(e);
            }
        }
        self.events.push(
            Event::PaymentResolved { from: payer, to: recipient, recipient_share },
        );
        Ok(())
    }

    /// The recipient asks the payer for a payment; no funds are locked yet.
    pub fn request_payment(
        &mut self,
        recipient: AccountId,
        payer: AccountId,
        asset: AssetId,
        amount: Balance,
    ) -> (r: Result<(), PaymentError>)
        requires
            old(self).wf(),
            amount > 0,
        ensures
            final(self).wf(),
            r is Ok <==> old(self).requests.request_of(payer, recipient) is None,
            r is Ok ==> final(self).requests.request_of(payer, recipient) == Some(
                RequestDetail { asset, amount },
            ) && final(self).events@ == old(self).events@.push(
                Event::PaymentRequestCreated { from: payer, to: recipient },
            ),
            r is Err ==> r == Err::<(), PaymentError>(PaymentError::InvalidState) && unchanged(
                *old(self),
                *final(self),
            ),
            ledger_unchanged(*old(self), *final(self)),
            forall|p: AccountId, q: AccountId| #[trigger]
                final(self).payments.record_of(p, q) == old(self).payments.record_of(p, q),
            forall|p: AccountId, q: AccountId| #[trigger]
                final(self).tasks.task_of(p, q) == old(self).tasks.task_of(p, q),
            final(self).tasks == old(self).tasks,
            forall|p: AccountId, q: AccountId|
                !(p == payer && q == recipient) ==> #[trigger] final(self).requests.request_of(p, q)
                    == old(self).requests.request_of(p, q),
            final(self).resolver == old(self).resolver,
    {
        match self.requests.lookup(payer, recipient) {
            Some(_) => {
                proof {
                    lemma_noop(*old(self), *self);
                }
                return Err(PaymentError::InvalidState);
            }
            None => {},
        }
        self.requests.insert(payer, recipient, RequestDetail { asset, amount });
        self.events.push(Event::PaymentRequestCreated { from: payer, to: recipient });
        proof {
            assert forall|a: AssetId, c: AccountId| #[trigger]
                self.ledger.locked_of(a, c) == self.payments.locked_total(a, c) by {
                assert(old(self).ledger.locked_of(a, c) == old(self).payments.locked_total(a, c));
            }
        }
        Ok(())
    }

    /// The payer accepts a pending request: the amount is locked from the
    /// payer and disbursed in full to the recipient in the same atomic step,
    /// and the request is deleted. No payment record outlives the call.
    pub fn accept_and_pay(&mut self, payer: AccountId, recipient: AccountId) -> (r: Result<
        (),
        PaymentError,
    >)
        requires
            old(self).wf(),
        ensures
            final(self).wf(),
            ({
                let req = old(self).requests.request_of(payer, recipient);
                &&& (r is Ok <==> (req matches Some(rd) && old(self).ledger.free_of(rd.asset, payer)
                    >= rd.amount && (payer == recipient || old(self).ledger.free_of(
                    rd.asset,
                    recipient,
                ) + old(self).ledger.locked_of(rd.asset, recipient) + rd.amount <= u128::MAX)))
                &&& (r is Ok ==> {
                    let rd = req->Some_0;
                    &&& final(self).requests.request_of(payer, recipient) is None
                    &&& (payer != recipient ==> final(self).ledger.free_of(rd.asset, payer) == old(self).ledger.free_of(rd.asset, payer) - rd.amount && final(self).ledger.free_of(
                        rd.asset,
                        recipient,
                    ) == old(self).ledger.free_of(rd.asset, recipient) + rd.amount)
                    &&& (payer == recipient ==> final(self).ledger.free_of(rd.asset, payer) == old(self).ledger.free_of(rd.asset, payer))
                    &&& final(self).ledger.locked_of(rd.asset, payer) == old(self).ledger.locked_of(
                        rd.asset,
                        payer,
                    )
                    &&& final(self).events@ == old(self).events@.push(
                        Event::PaymentRequestCompleted { from: payer, to: recipient },
                    )
                })
                &&& (r is Err ==> unchanged(*old(self), *final(self)) && (match r {
                    Err(e) => (e == PaymentError::NotFound && req is None) || (e
                        == PaymentError::InsufficientFunds && (req matches Some(rd) && old(self).ledger.free_of(rd.asset, payer) < rd.amount)) || (e == PaymentError::Overflow
                        && (req matches Some(rd) && old(self).ledger.free_of(rd.asset, payer)
                        >= rd.amount)),
                    _ => false,
                }))
            }),
            forall|p: AccountId, q: AccountId| #[trigger]
                final(self).payments.record_of(p, q) == old(self).payments.record_of(p, q),
            forall|p: AccountId, q: AccountId| #[trigger]
                final(self).tasks.task_of(p, q) == old(self).tasks.task_of(p, q),
            final(self).tasks == old(self).tasks,
            forall|p: AccountId, q: AccountId|
                !(p == payer && q == recipient) ==> #[trigger] final(self).requests.request_of(p, q)
                    == old(self).requests.request_of(p, q),
            final(self).resolver == old(self).resolver,
    {
        let rd = match self.requests.lookup(payer, recipient) {
            Some(rd) => rd,
            None => {
                proof {
                    lemma_noop(*old(self), *self);
                }
                return Err(PaymentError::NotFound);
            }
        };
        let free = self.ledger.free_balance(rd.asset, payer);
        if free < rd.amount {
            proof {
                lemma_noop(*old(self), *self);
            }
            return Err(PaymentError::InsufficientFunds);
        }
        if payer != recipient {
            if !self.ledger.can_receive(rd.asset, recipient, rd.amount) {
                proof {
                    lemma_noop(*old(self), *self);
                }
                return Err(PaymentError::Overflow);
            }
        }
        proof {
            self.ledger.lemma_values_nonneg(rd.asset, payer);
        }
        let _ = self.requests.remove_entry(payer, recipient);
        match self.ledger.lock(rd.asset, payer, rd.amount) {
            Ok(()) => {},
            Err(_) => {
                // the free balance was checked above
                proof {
                    assert(false);
                }
                return Err(PaymentError::InsufficientFunds);
            }
        }
        match self.ledger.transfer_from_lock(rd.asset, payer, recipient, rd.amount) {
            Ok(()) => {},
            Err(_) => {
                // the amount was just locked and the recipient's headroom checked
                proof {
                    assert(false);
                }
                return Err(PaymentError::Overflow);
            }
        }
        self.events.push(Event::PaymentRequestCompleted { from: payer, to: recipient });
        proof {
            assert forall|a: AssetId, c: AccountId| #[trigger]
                self.ledger.locked_of(a, c) == self.payments.locked_total(a, c) by {
                assert(old(self).ledger.locked_of(a, c) == old(self).payments.locked_total(a, c));
            }
        }
        Ok(())
    }

    /// Housekeeping: drop the registry entry for (payer, recipient), if any.
    /// Moves no funds and touches no payment.
    pub fn remove_task(&mut self, payer: AccountId, recipient: AccountId)
        requires
            old(self).wf(),
        ensures
            final(self).wf(),
            final(self).tasks.task_of(payer, recipient) is None,
            forall|p: AccountId, q: AccountId|
                !(p == payer && q == recipient) ==> #[trigger] final(self).tasks.task_of(p, q)
                    == old(self).tasks.task_of(p, q),
            ledger_unchanged(*old(self), *final(self)),
            forall|p: AccountId, q: AccountId| #[trigger]
                final(self).payments.record_of(p, q) == old(self).payments.record_of(p, q),
            forall|p: AccountId, q: AccountId| #[trigger]
                final(self).requests.request_of(p, q) == old(self).requests.request_of(p, q),
            final(self).tasks.entries@.len() <= old(self).tasks.entries@.len(),
            final(self).events@ == old(self).events@,
            final(self).resolver == old(self).resolver,
    {
        self.tasks.remove(payer, recipient);
        proof {
            assert forall|a: AssetId, c: AccountId| #[trigger]
                self.ledger.locked_of(a, c) == self.payments.locked_total(a, c) by {
                assert(old(self).ledger.locked_of(a, c) == old(self).payments.locked_total(a, c));
            }
            assert forall|p: AccountId, q: AccountId|
                (#[trigger] self.tasks.task_of(p, q)) is Some implies (self.payments.record_of(
                p,
                q,
            ) matches Some(dd) && dd.state == PaymentState::RefundRequested) by {
                assert(old(self).tasks.task_of(p, q) is Some);
            }
        }
    }

    /// The deferred-action executor's tick: settle every task due at `now`
    /// as a forced cancellation — the full amount back to the payer, payment
    /// and task deleted — and leave every other pair untouched. Funds only
    /// move from locked to free within one account; none cross accounts.
    pub fn process_tick(&mut self, now: Moment)
        requires
            old(self).wf(),
        ensures
            final(self).wf(),
            forall|p: AccountId, q: AccountId|
                ((#[trigger] old(self).tasks.task_of(p, q)) matches Some(t) && t.when <= now)
                    ==> final(self).payments.record_of(p, q) is None && final(self).tasks.task_of(
                    p,
                    q,
                ) is None,
            forall|p: AccountId, q: AccountId|
                !((#[trigger] old(self).tasks.task_of(p, q)) matches Some(t) && t.when <= now)
                    ==> final(self).payments.record_of(p, q) == old(self).payments.record_of(p, q)
                    && final(self).tasks.task_of(p, q) == old(self).tasks.task_of(p, q),
            forall|a: AssetId, c: AccountId| #[trigger]
                final(self).ledger.free_of(a, c) + final(self).ledger.locked_of(a, c) == old(self).ledger.free_of(a, c) + old(self).ledger.locked_of(a, c),
            forall|a: AssetId, c: AccountId| #[trigger]
                final(self).ledger.free_of(a, c) >= old(self).ledger.free_of(a, c),
            forall|p: AccountId, q: AccountId| #[trigger]
                final(self).requests.request_of(p, q) == old(self).requests.request_of(p, q),
            final(self).tasks.entries@.len() <= old(self).tasks.entries@.len(),
            old(self).events@.is_prefix_of(final(self).events@),
            // everything appended to the log is the cancellation event of a
            // pair whose task was due
            forall|i: int|
                old(self).events@.len() <= i < final(self).events@.len() ==> ((
                #[trigger] final(self).events@[i]) matches Event::PaymentCancelled { from, to }
                    && (old(self).tasks.task_of(from, to) matches Some(t) && t.when <= now)),
            // every due pair gets its cancellation event appended
            forall|p: AccountId, q: AccountId|
                ((#[trigger] old(self).tasks.task_of(p, q)) matches Some(t) && t.when <= now)
                    ==> exists|i: int|
                    old(self).events@.len() <= i < final(self).events@.len() && final(self).events@[i] == (Event::PaymentCancelled { from: p, to: q }),
            // and only one event per pair: the appended events are distinct
            forall|i: int, j: int|
                #![trigger final(self).events@[i], final(self).events@[j]]
                old(self).events@.len() <= i < j < final(self).events@.len() ==> final(self).events@[i] != final(self).events@[j],
            final(self).resolver == old(self).resolver,
    {
        let mut due = self.tasks.find_due(now);
        while due.is_some()
            invariant
                self.wf(),
                self.tasks.entries@.len() <= old(self).tasks.entries@.len(),
                self.resolver == old(self).resolver,
                old(self).events@.is_prefix_of(self.events@),
                match due {
                    Some(pair) => self.tasks.task_of(pair.0, pair.1) matches Some(t) && t.when
                        <= now,
                    None => forall|p: AccountId, q: AccountId|
                        (#[trigger] self.tasks.task_of(p, q)) matches Some(t) ==> t.when > now,
                },
                forall|p: AccountId, q: AccountId|
                    (#[trigger] self.tasks.task_of(p, q)) is Some ==> self.tasks.task_of(p, q)
                        == old(self).tasks.task_of(p, q) && self.payments.record_of(p, q) == old(self).payments.record_of(p, q),
                forall|p: AccountId, q: AccountId|
                    !((#[trigger] old(self).tasks.task_of(p, q)) matches Some(t) && t.when <= now)
                        ==> self.payments.record_of(p, q) == old(self).payments.record_of(p, q)
                        && self.tasks.task_of(p, q) == old(self).tasks.task_of(p, q),
                forall|p: AccountId, q: AccountId|
                    ((#[trigger] old(self).tasks.task_of(p, q)) matches Some(t) && t.when <= now)
                        ==> (self.payments.record_of(p, q) == old(self).payments.record_of(p, q)
                        && self.tasks.task_of(p, q) == old(self).tasks.task_of(p, q)) || ((
                    self.tasks.task_of(p, q) is None && self.payments.record_of(p, q) is None)
                        && exists|i: int|
                        old(self).events@.len() <= i < self.events@.len() && self.events@[i] == (
                        Event::PaymentCancelled { from: p, to: q })),
                forall|i: int|
                    old(self).events@.len() <= i < self.events@.len() ==> ((
                    #[trigger] self.events@[i]) matches Event::PaymentCancelled { from, to }
                        && (old(self).tasks.task_of(from, to) matches Some(t) && t.when <= now)
                        && self.tasks.task_of(from, to) is None && self.payments.record_of(
                        from,
                        to,
                    ) is None),
                forall|i: int, j: int|
                    #![trigger self.events@[i], self.events@[j]]
                    old(self).events@.len() <= i < j < self.events@.len() ==> self.events@[i]
                        != self.events@[j],
                forall|a: AssetId, c: AccountId| #[trigger]
                    self.ledger.free_of(a, c) + self.ledger.locked_of(a, c) == old(self).ledger.free_of(a, c) + old(self).ledger.locked_of(a, c),
                forall|a: AssetId, c: AccountId| #[trigger]
                    self.ledger.free_of(a, c) >= old(self).ledger.free_of(a, c),
                forall|p: AccountId, q: AccountId| #[trigger]
                    self.requests.request_of(p, q) == old(self).requests.request_of(p, q),
            decreases self.tasks.entries@.len(),
        {
            let (p, q) = due.unwrap();
            let ghost pre = *self;
            proof {
                assert(self.tasks.task_of(p, q) is Some);
            }
            match self.settle(p, q, 0) {
                Ok(()) => {},
                Err(_) => {
                    // settling with a zero recipient share cannot be refused
                    proof {
                        assert(false);
                    }
                }
            }
            self.events.push(Event::PaymentCancelled { from: p, to: q });
            proof {
                let oldn = old(self).events@.len() as int;
                let pren = pre.events@.len() as int;
                assert(self.events@ =~= pre.events@.push(
                    Event::PaymentCancelled { from: p, to: q },
                ));
                assert(old(self).events@.is_prefix_of(self.events@)) by {
                    assert(self.events@.subrange(0, oldn) =~= pre.events@.subrange(0, oldn));
                }
                // the settled pair was due at entry and is now gone
                assert(pre.tasks.task_of(p, q) == old(self).tasks.task_of(p, q));
                assert(self.tasks.task_of(p, q) is None);
                assert(self.payments.record_of(p, q) is None);
                // appended events still name settled, formerly due pairs
                assert forall|i: int|
                    oldn <= i < self.events@.len() implies ((#[trigger] self.events@[i]) matches
                    Event::PaymentCancelled { from, to } && (old(self).tasks.task_of(from, to)
                    matches Some(t) && t.when <= now) && self.tasks.task_of(from, to) is None
                    && self.payments.record_of(from, to) is None) by {
                    if i < pren {
                        assert(self.events@[i] == pre.events@[i]);
                        let f = pre.events@[i]->PaymentCancelled_from;
                        let g = pre.events@[i]->PaymentCancelled_to;
                        assert(pre.tasks.task_of(f, g) is None);
                        assert(!(f == p && g == q));
                        assert(self.tasks.task_of(f, g) == pre.tasks.task_of(f, g));
                        assert(self.payments.record_of(f, g) == pre.payments.record_of(f, g));
                    } else {
                        assert(self.events@[i] == (Event::PaymentCancelled { from: p, to: q }));
                    }
                }
                // the appended events are pairwise distinct: each earlier one
                // names a pair already settled, the new one a pair just settled
                assert forall|i: int, j: int|
                    #![trigger self.events@[i], self.events@[j]]
                    oldn <= i < j < self.events@.len() implies self.events@[i]
                        != self.events@[j] by {
                    assert(self.events@[i] == pre.events@[i]);
                    if j < pren {
                        assert(self.events@[j] == pre.events@[j]);
                    } else {
                        let f = pre.events@[i]->PaymentCancelled_from;
                        let g = pre.events@[i]->PaymentCancelled_to;
                        assert(pre.events@[i] matches Event::PaymentCancelled { from, to } && from
                            == f && to == g);
                        assert(pre.tasks.task_of(f, g) is None);
                        assert(!(f == p && g == q));
                        assert(self.events@[j] == (Event::PaymentCancelled { from: p, to: q }));
                    }
                }
                // every due pair keeps or gains its cancellation event
                assert forall|p2: AccountId, q2: AccountId|
                    ((#[trigger] old(self).tasks.task_of(p2, q2)) matches Some(t) && t.when <= now)
                    implies (self.payments.record_of(p2, q2) == old(self).payments.record_of(
                    p2,
                    q2,
                ) && self.tasks.task_of(p2, q2) == old(self).tasks.task_of(p2, q2)) || ((
                    self.tasks.task_of(p2, q2) is None && self.payments.record_of(p2, q2) is None)
                        && exists|i: int|
                        oldn <= i < self.events@.len() && self.events@[i] == (
                        Event::PaymentCancelled { from: p2, to: q2 })) by {
                    if p2 == p && q2 == q {
                        assert(self.events@[pren] == (Event::PaymentCancelled { from: p2, to: q2 }));
                        assert(oldn <= pren < self.events@.len());
                    } else {
                        assert(self.tasks.task_of(p2, q2) == pre.tasks.task_of(p2, q2));
                        assert(self.payments.record_of(p2, q2) == pre.payments.record_of(p2, q2));
                        if pre.tasks.task_of(p2, q2) is None {
                            assert(exists|i: int|
                                oldn <= i < pre.events@.len() && pre.events@[i] == (
                                Event::PaymentCancelled { from: p2, to: q2 }));
                            let i = choose|i: int|
                                oldn <= i < pre.events@.len() && pre.events@[i] == (
                                Event::PaymentCancelled { from: p2, to: q2 });
                            assert(self.events@[i] == pre.events@[i]);
                            assert(oldn <= i < self.events@.len() && self.events@[i] == (
                            Event::PaymentCancelled { from: p2, to: q2 }));
                        }
                    }
                }
            }
            due = self.tasks.find_due(now);
        }
        proof {
            assert forall|p: AccountId, q: AccountId|
                ((#[trigger] old(self).tasks.task_of(p, q)) matches Some(t) && t.when <= now)
                implies final(self).payments.record_of(p, q) is None && final(self).tasks.task_of(
                p,
                q,
            ) is None by {
                if self.tasks.task_of(p, q) is Some {
                    assert(false);
                }
            }
            assert forall|p: AccountId, q: AccountId|
                ((#[trigger] old(self).tasks.task_of(p, q)) matches Some(t) && t.when <= now)
                implies exists|i: int|
                old(self).events@.len() <= i < final(self).events@.len() && final(self).events@[i]
                    == (Event::PaymentCancelled { from: p, to: q }) by {
                if self.tasks.task_of(p, q) is Some {
                    assert(false);
                }
            }
        }
    }

    /// Law: every live payment is fully backed in the ledger — the payer's
    /// locked balance of the payment's asset covers its recorded amount, and
    /// that amount is positive.
    pub proof fn lemma_payment_backed_by_lock(self, payer: AccountId, recipient: AccountId)
        requires
            self.wf(),
            self.payments.record_of(payer, recipient) is Some,
        ensures
            ({
                let d = self.payments.record_of(payer, recipient)->Some_0;
                self.ledger.locked_of(d.asset, payer) >= d.amount && d.amount > 0
            }),
    {
        let d = self.payments.record_of(payer, recipient)->Some_0;
        self.payments.lemma_record_within_total(payer, recipient, d);
    }

    /// Law: a scheduled task exists only while its payment is alive and in
    /// the refund-requested state; any transition out of that state removes
    /// the task in the same step.
    pub proof fn lemma_task_only_while_refund_requested(
        self,
        payer: AccountId,
        recipient: AccountId,
    )
        requires
            self.wf(),
            self.tasks.task_of(payer, recipient) is Some,
        ensures
            self.payments.record_of(payer, recipient) matches Some(d) && d.state
                == PaymentState::RefundRequested,
    {
    }

    /// The free balance of (asset, account).
    pub fn free_balance(&self, asset: AssetId, account: AccountId) -> (r: Balance)
        requires
            self.wf(),
        ensures
            r as int == self.ledger.free_of(asset, account),
    {
        self.ledger.free_balance(asset, account)
    }

    /// The locked balance of (asset, account).
    pub fn locked_balance(&self, asset: AssetId, account: AccountId) -> (r: Balance)
        requires
            self.wf(),
        ensures
            r as int == self.ledger.locked_of(asset, account),
    {
        self.ledger.locked_balance(asset, account)
    }

    /// The scalar fields (asset, amount, state, resolver) of the live
    /// payment for (payer, recipient), if any.
    pub fn payment_of(&self, payer: AccountId, recipient: AccountId) -> (r: Option<
        (AssetId, Balance, PaymentState, AccountId),
    >)
        requires
            self.wf(),
        ensures
            match (r, self.payments.record_of(payer, recipient)) {
                (Some(t), Some(d)) => t.0 == d.asset && t.1 == d.amount && t.2 == d.state && t.3
                    == d.resolver,
                (None, None) => true,
                _ => false,
            },
    {
        self.payments.scalar_fields(payer, recipient)
    }

    /// The scheduled task for (payer, recipient), if any.
    pub fn scheduled_task(&self, payer: AccountId, recipient: AccountId) -> (r: Option<
        ScheduledTask,
    >)
        requires
            self.wf(),
        ensures
            r == self.tasks.task_of(payer, recipient),
    {
        self.tasks.lookup(payer, recipient)
    }

    /// The pending payment request for (payer, recipient), if any.
    pub fn pending_request(&self, payer: AccountId, recipient: AccountId) -> (r: Option<
        RequestDetail,
    >)
        requires
            self.wf(),
        ensures
            r == self.requests.request_of(payer, recipient),
    {
        self.requests.lookup(payer, recipient)
    }
}

} // verus!
