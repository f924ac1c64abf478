//! Edge cases: paying oneself, several live payments from one payer, and
//! isolation between assets and pairs.

use payment_escrow::escrow::{Escrow, Event};
use payment_escrow::types::PaymentError;

const RESOLVER: u64 = 9;

#[test]
fn paying_oneself_round_trips_the_funds() {
    let mut esc = Escrow::new(RESOLVER);
    esc.deposit(1, 1, 100).unwrap();
    esc.pay(1, 1, 1, 80, None).unwrap();
    assert_eq!(esc.free_balance(1, 1), 20);
    assert_eq!(esc.locked_balance(1, 1), 80);
    esc.release(1, 1).unwrap();
    assert_eq!(esc.free_balance(1, 1), 100);
    assert_eq!(esc.locked_balance(1, 1), 0);
}

#[test]
fn several_payments_from_one_payer_stay_consistent() {
    let mut esc = Escrow::new(RESOLVER);
    esc.deposit(1, 1, 100).unwrap();
    esc.pay(1, 2, 1, 30, None).unwrap();
    esc.pay(1, 3, 1, 50, None).unwrap();
    assert_eq!(esc.locked_balance(1, 1), 80);
    assert_eq!(esc.free_balance(1, 1), 20);
    // releasing one leaves the other fully backed
    esc.release(1, 2).unwrap();
    assert_eq!(esc.locked_balance(1, 1), 50);
    assert_eq!(esc.free_balance(1, 2), 30);
    assert!(esc.payment_of(1, 3).is_some());
    esc.cancel(3, 1).unwrap();
    assert_eq!(esc.locked_balance(1, 1), 0);
    assert_eq!(esc.free_balance(1, 1), 70);
}

#[test]
fn assets_are_isolated() {
    let mut esc = Escrow::new(RESOLVER);
    esc.deposit(1, 1, 100).unwrap();
    esc.deposit(2, 1, 40).unwrap();
    esc.pay(1, 2, 1, 80, None).unwrap();
    assert_eq!(esc.free_balance(2, 1), 40);
    assert_eq!(esc.locked_balance(2, 1), 0);
    assert_eq!(esc.free_balance(1, 1), 20);
}

#[test]
fn pairs_are_ordered_and_independent() {
    let mut esc = Escrow::new(RESOLVER);
    esc.deposit(1, 1, 100).unwrap();
    esc.deposit(1, 2, 100).unwrap();
    // (1, 2) and (2, 1) are different escrows
    esc.pay(1, 2, 1, 30, None).unwrap();
    esc.pay(2, 1, 1, 40, None).unwrap();
    assert_eq!(esc.locked_balance(1, 1), 30);
    assert_eq!(esc.locked_balance(1, 2), 40);
    esc.release(1, 2).unwrap();
    assert!(esc.payment_of(2, 1).is_some());
    // account 2 keeps 40 locked for its own payment and received 30
    assert_eq!(esc.free_balance(1, 2), 90);
    assert_eq!(esc.locked_balance(1, 2), 40);
}

#[test]
fn events_append_in_order() {
    let mut esc = Escrow::new(RESOLVER);
    esc.deposit(1, 1, 100).unwrap();
    esc.pay(1, 2, 1, 80, None).unwrap();
    esc.request_refund(1, 2, 0).unwrap();
    esc.dispute_refund(2, 1).unwrap();
    assert_eq!(esc.events.len(), 3);
    assert_eq!(
        esc.events[0],
        Event::PaymentCreated { from: 1, asset: 1, amount: 80, remark: None }
    );
    assert_eq!(
        esc.events[1],
        Event::PaymentCreatorRequestedRefund { from: 1, to: 2, expiry: 601 }
    );
    assert_eq!(esc.events[2], Event::PaymentRefundDisputed { from: 1, to: 2 });
}

#[test]
fn failed_operations_leave_no_trace() {
    let mut esc = Escrow::new(RESOLVER);
    esc.deposit(1, 1, 100).unwrap();
    esc.pay(1, 2, 1, 80, None).unwrap();
    let before_events = esc.events.len();
    assert_eq!(esc.dispute_refund(2, 1), Err(PaymentError::InvalidState));
    assert_eq!(esc.resolve_payment(5, 1, 2, 10), Err(PaymentError::Unauthorized));
    assert_eq!(esc.pay(1, 2, 1, 10, None), Err(PaymentError::InvalidState));
    assert_eq!(esc.events.len(), before_events);
    assert_eq!(esc.free_balance(1, 1), 20);
    assert_eq!(esc.locked_balance(1, 1), 80);
}
