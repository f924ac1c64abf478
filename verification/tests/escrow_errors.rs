//! Every failure is a typed, atomic no-op: these tests drive each error
//! variant and check that nothing moved.

use payment_escrow::escrow::{Escrow, Event};
use payment_escrow::types::{PaymentError, MAX_SCHEDULED_TASKS};

const ASSET: u32 = 1;
const PAYER: u64 = 1;
const RECIPIENT: u64 = 2;
const RESOLVER: u64 = 9;

#[test]
fn pay_with_insufficient_funds_is_refused() {
    let mut esc = Escrow::new(RESOLVER);
    esc.deposit(ASSET, PAYER, 50).unwrap();
    assert_eq!(
        esc.pay(PAYER, RECIPIENT, ASSET, 80, None),
        Err(PaymentError::InsufficientFunds)
    );
    assert_eq!(esc.free_balance(ASSET, PAYER), 50);
    assert_eq!(esc.locked_balance(ASSET, PAYER), 0);
    assert!(esc.payment_of(PAYER, RECIPIENT).is_none());
    assert!(esc.events.is_empty());
}

#[test]
fn operations_on_missing_payments_report_not_found() {
    let mut esc = Escrow::new(RESOLVER);
    assert_eq!(esc.release(PAYER, RECIPIENT), Err(PaymentError::NotFound));
    assert_eq!(esc.cancel(RECIPIENT, PAYER), Err(PaymentError::NotFound));
    assert_eq!(esc.request_refund(PAYER, RECIPIENT, 0), Err(PaymentError::NotFound));
    assert_eq!(esc.dispute_refund(RECIPIENT, PAYER), Err(PaymentError::NotFound));
    assert_eq!(
        esc.resolve_payment(RESOLVER, PAYER, RECIPIENT, 50),
        Err(PaymentError::NotFound)
    );
}

#[test]
fn dispute_outside_refund_requested_is_an_invalid_state() {
    let mut esc = Escrow::new(RESOLVER);
    esc.deposit(ASSET, PAYER, 100).unwrap();
    esc.pay(PAYER, RECIPIENT, ASSET, 80, None).unwrap();
    // still in Created
    assert_eq!(esc.dispute_refund(RECIPIENT, PAYER), Err(PaymentError::InvalidState));
    // already Disputed
    esc.request_refund(PAYER, RECIPIENT, 0).unwrap();
    esc.dispute_refund(RECIPIENT, PAYER).unwrap();
    assert_eq!(esc.dispute_refund(RECIPIENT, PAYER), Err(PaymentError::InvalidState));
}

#[test]
fn refund_request_outside_created_is_an_invalid_state() {
    let mut esc = Escrow::new(RESOLVER);
    esc.deposit(ASSET, PAYER, 100).unwrap();
    esc.pay(PAYER, RECIPIENT, ASSET, 80, None).unwrap();
    esc.request_refund(PAYER, RECIPIENT, 0).unwrap();
    assert_eq!(esc.request_refund(PAYER, RECIPIENT, 0), Err(PaymentError::InvalidState));
}

#[test]
fn only_the_resolver_may_resolve() {
    let mut esc = Escrow::new(RESOLVER);
    esc.deposit(ASSET, PAYER, 100).unwrap();
    esc.pay(PAYER, RECIPIENT, ASSET, 80, None).unwrap();
    assert_eq!(
        esc.resolve_payment(PAYER, PAYER, RECIPIENT, 50),
        Err(PaymentError::Unauthorized)
    );
    assert_eq!(
        esc.resolve_payment(RECIPIENT, PAYER, RECIPIENT, 50),
        Err(PaymentError::Unauthorized)
    );
    assert_eq!(esc.locked_balance(ASSET, PAYER), 80);
    assert!(esc.payment_of(PAYER, RECIPIENT).is_some());
    // the designated resolver succeeds on the same payment
    esc.resolve_payment(RESOLVER, PAYER, RECIPIENT, 50).unwrap();
}

#[test]
fn accept_without_a_request_reports_not_found() {
    let mut esc = Escrow::new(RESOLVER);
    esc.deposit(ASSET, PAYER, 100).unwrap();
    assert_eq!(esc.accept_and_pay(PAYER, RECIPIENT), Err(PaymentError::NotFound));
    assert_eq!(esc.free_balance(ASSET, PAYER), 100);
}

#[test]
fn accept_with_insufficient_funds_is_refused() {
    let mut esc = Escrow::new(RESOLVER);
    esc.deposit(ASSET, PAYER, 50).unwrap();
    esc.request_payment(RECIPIENT, PAYER, ASSET, 80).unwrap();
    assert_eq!(esc.accept_and_pay(PAYER, RECIPIENT), Err(PaymentError::InsufficientFunds));
    // the request survives a failed acceptance
    assert!(esc.pending_request(PAYER, RECIPIENT).is_some());
    assert_eq!(esc.free_balance(ASSET, PAYER), 50);
}

#[test]
fn duplicate_payment_request_is_refused() {
    let mut esc = Escrow::new(RESOLVER);
    esc.request_payment(RECIPIENT, PAYER, ASSET, 80).unwrap();
    assert_eq!(
        esc.request_payment(RECIPIENT, PAYER, ASSET, 80),
        Err(PaymentError::InvalidState)
    );
}

#[test]
fn deposit_beyond_the_balance_type_overflows() {
    let mut esc = Escrow::new(RESOLVER);
    esc.deposit(ASSET, PAYER, u128::MAX).unwrap();
    assert_eq!(esc.deposit(ASSET, PAYER, 1), Err(PaymentError::Overflow));
    assert_eq!(esc.free_balance(ASSET, PAYER), u128::MAX);
}

#[test]
fn refund_request_at_the_end_of_time_overflows() {
    let mut esc = Escrow::new(RESOLVER);
    esc.deposit(ASSET, PAYER, 100).unwrap();
    esc.pay(PAYER, RECIPIENT, ASSET, 80, None).unwrap();
    assert_eq!(esc.request_refund(PAYER, RECIPIENT, u64::MAX), Err(PaymentError::Overflow));
    assert!(esc.scheduled_task(PAYER, RECIPIENT).is_none());
}

#[test]
fn task_registry_capacity_is_enforced() {
    let mut esc = Escrow::new(RESOLVER);
    let mut i: u64 = 0;
    while (i as usize) < MAX_SCHEDULED_TASKS {
        let payer = 100 + i;
        esc.deposit(ASSET, payer, 10).unwrap();
        esc.pay(payer, RECIPIENT, ASSET, 10, None).unwrap();
        esc.request_refund(payer, RECIPIENT, 0).unwrap();
        i += 1;
    }
    let payer = 100 + i;
    esc.deposit(ASSET, payer, 10).unwrap();
    esc.pay(payer, RECIPIENT, ASSET, 10, None).unwrap();
    assert_eq!(esc.request_refund(payer, RECIPIENT, 0), Err(PaymentError::CapacityExceeded));
    // the payment itself is untouched by the failed request
    assert_eq!(esc.locked_balance(ASSET, payer), 10);
    // a tick refunds every scheduled payer in one sweep
    let before = esc.events.len();
    esc.process_tick(601);
    let mut j: u64 = 0;
    while (j as usize) < MAX_SCHEDULED_TASKS {
        assert_eq!(esc.free_balance(ASSET, 100 + j), 10);
        assert!(esc.payment_of(100 + j, RECIPIENT).is_none());
        j += 1;
    }
    // exactly one cancellation event per due pair, and nothing else
    assert_eq!(esc.events.len(), before + MAX_SCHEDULED_TASKS);
    let mut k: usize = before;
    while k < esc.events.len() {
        assert!(matches!(esc.events[k], Event::PaymentCancelled { .. }));
        k += 1;
    }
}
