//! End-to-end flows of the escrow engine: creating, releasing, cancelling,
//! refunding, disputing, resolving and the recipient-initiated request flow.

use payment_escrow::escrow::{compute_share, Escrow, Event};
use payment_escrow::types::{PaymentError, PaymentState, ScheduledTask, TaskKind};

const ASSET: u32 = 1;
const PAYER: u64 = 1;
const RECIPIENT: u64 = 2;
const RESOLVER: u64 = 9;

fn funded_engine(initial: u128) -> Escrow {
    let mut esc = Escrow::new(RESOLVER);
    esc.deposit(ASSET, PAYER, initial).unwrap();
    esc
}

#[test]
fn pay_locks_the_exact_amount() {
    let mut esc = funded_engine(100);
    let remark: Vec<u8> = vec![0xFF; 10];
    esc.pay(PAYER, RECIPIENT, ASSET, 80, Some(remark.clone())).unwrap();
    assert_eq!(esc.free_balance(ASSET, PAYER), 20);
    assert_eq!(esc.locked_balance(ASSET, PAYER), 80);
    let (asset, amount, state, resolver) = esc.payment_of(PAYER, RECIPIENT).unwrap();
    assert_eq!(asset, ASSET);
    assert_eq!(amount, 80);
    assert_eq!(state, PaymentState::Created);
    assert_eq!(resolver, RESOLVER);
    assert_eq!(
        esc.events[0],
        Event::PaymentCreated { from: PAYER, asset: ASSET, amount: 80, remark: Some(remark) }
    );
}

#[test]
fn no_second_payment_for_the_same_pair() {
    let mut esc = funded_engine(100);
    esc.pay(PAYER, RECIPIENT, ASSET, 30, None).unwrap();
    assert_eq!(esc.pay(PAYER, RECIPIENT, ASSET, 30, None), Err(PaymentError::InvalidState));
    // a payment to a different recipient is fine
    esc.pay(PAYER, 3, ASSET, 30, None).unwrap();
    assert_eq!(esc.locked_balance(ASSET, PAYER), 60);
    // once the first is destroyed, the pair is free again
    esc.release(PAYER, RECIPIENT).unwrap();
    esc.pay(PAYER, RECIPIENT, ASSET, 10, None).unwrap();
}

#[test]
fn release_disburses_everything_to_the_recipient() {
    let mut esc = funded_engine(100);
    esc.pay(PAYER, RECIPIENT, ASSET, 80, None).unwrap();
    esc.release(PAYER, RECIPIENT).unwrap();
    assert_eq!(esc.free_balance(ASSET, PAYER), 20);
    assert_eq!(esc.locked_balance(ASSET, PAYER), 0);
    assert_eq!(esc.free_balance(ASSET, RECIPIENT), 80);
    assert!(esc.payment_of(PAYER, RECIPIENT).is_none());
    assert_eq!(esc.events.last().unwrap(), &Event::PaymentReleased { from: PAYER, to: RECIPIENT });
}

#[test]
fn cancel_returns_everything_to_the_payer() {
    let mut esc = funded_engine(100);
    esc.pay(PAYER, RECIPIENT, ASSET, 80, None).unwrap();
    esc.cancel(RECIPIENT, PAYER).unwrap();
    assert_eq!(esc.free_balance(ASSET, PAYER), 100);
    assert_eq!(esc.locked_balance(ASSET, PAYER), 0);
    assert_eq!(esc.free_balance(ASSET, RECIPIENT), 0);
    assert!(esc.payment_of(PAYER, RECIPIENT).is_none());
    assert_eq!(esc.events.last().unwrap(), &Event::PaymentCancelled { from: PAYER, to: RECIPIENT });
}

#[test]
fn resolve_splits_exactly_with_no_leakage() {
    let mut esc = funded_engine(100);
    esc.pay(PAYER, RECIPIENT, ASSET, 100, None).unwrap();
    esc.resolve_payment(RESOLVER, PAYER, RECIPIENT, 60).unwrap();
    assert_eq!(esc.free_balance(ASSET, RECIPIENT), 60);
    assert_eq!(esc.free_balance(ASSET, PAYER), 40);
    assert_eq!(esc.locked_balance(ASSET, PAYER), 0);
    assert!(esc.payment_of(PAYER, RECIPIENT).is_none());
    assert_eq!(
        esc.events.last().unwrap(),
        &Event::PaymentResolved { from: PAYER, to: RECIPIENT, recipient_share: 60 }
    );
}

#[test]
fn resolve_share_boundaries_are_valid() {
    // 0 percent: everything back to the payer
    let mut esc = funded_engine(100);
    esc.pay(PAYER, RECIPIENT, ASSET, 80, None).unwrap();
    esc.resolve_payment(RESOLVER, PAYER, RECIPIENT, 0).unwrap();
    assert_eq!(esc.free_balance(ASSET, PAYER), 100);
    assert_eq!(esc.free_balance(ASSET, RECIPIENT), 0);

    // 100 percent: everything to the recipient
    let mut esc2 = funded_engine(100);
    esc2.pay(PAYER, RECIPIENT, ASSET, 80, None).unwrap();
    esc2.resolve_payment(RESOLVER, PAYER, RECIPIENT, 100).unwrap();
    assert_eq!(esc2.free_balance(ASSET, PAYER), 20);
    assert_eq!(esc2.free_balance(ASSET, RECIPIENT), 80);
}

#[test]
fn resolve_rounds_down_and_payer_gets_the_remainder() {
    let mut esc = funded_engine(7);
    esc.pay(PAYER, RECIPIENT, ASSET, 7, None).unwrap();
    // floor(7 * 50 / 100) = 3 to the recipient, 4 back to the payer
    esc.resolve_payment(RESOLVER, PAYER, RECIPIENT, 50).unwrap();
    assert_eq!(esc.free_balance(ASSET, RECIPIENT), 3);
    assert_eq!(esc.free_balance(ASSET, PAYER), 4);
}

#[test]
fn compute_share_exact_values() {
    assert_eq!(compute_share(100, 60), 60);
    assert_eq!(compute_share(80, 100), 80);
    assert_eq!(compute_share(80, 0), 0);
    assert_eq!(compute_share(7, 50), 3);
    assert_eq!(compute_share(1, 99), 0);
    assert_eq!(compute_share(u128::MAX, 100), u128::MAX);
}

#[test]
fn resolve_works_in_every_state() {
    // Created
    let mut a = funded_engine(100);
    a.pay(PAYER, RECIPIENT, ASSET, 80, None).unwrap();
    a.resolve_payment(RESOLVER, PAYER, RECIPIENT, 50).unwrap();
    assert!(a.payment_of(PAYER, RECIPIENT).is_none());

    // RefundRequested
    let mut b = funded_engine(100);
    b.pay(PAYER, RECIPIENT, ASSET, 80, None).unwrap();
    b.request_refund(PAYER, RECIPIENT, 0).unwrap();
    b.resolve_payment(RESOLVER, PAYER, RECIPIENT, 50).unwrap();
    assert!(b.payment_of(PAYER, RECIPIENT).is_none());
    assert!(b.scheduled_task(PAYER, RECIPIENT).is_none());

    // Disputed
    let mut c = funded_engine(100);
    c.pay(PAYER, RECIPIENT, ASSET, 80, None).unwrap();
    c.request_refund(PAYER, RECIPIENT, 0).unwrap();
    c.dispute_refund(RECIPIENT, PAYER).unwrap();
    c.resolve_payment(RESOLVER, PAYER, RECIPIENT, 50).unwrap();
    assert!(c.payment_of(PAYER, RECIPIENT).is_none());
}

#[test]
fn request_refund_schedules_auto_cancel() {
    let mut esc = funded_engine(100);
    esc.pay(PAYER, RECIPIENT, ASSET, 80, None).unwrap();
    esc.request_refund(PAYER, RECIPIENT, 0).unwrap();
    let (_, _, state, _) = esc.payment_of(PAYER, RECIPIENT).unwrap();
    assert_eq!(state, PaymentState::RefundRequested);
    assert_eq!(
        esc.scheduled_task(PAYER, RECIPIENT),
        Some(ScheduledTask { task: TaskKind::Cancel, when: 601 })
    );
    assert_eq!(
        esc.events.last().unwrap(),
        &Event::PaymentCreatorRequestedRefund { from: PAYER, to: RECIPIENT, expiry: 601 }
    );
}

#[test]
fn dispute_removes_the_task_and_moves_no_funds() {
    let mut esc = funded_engine(100);
    esc.pay(PAYER, RECIPIENT, ASSET, 80, None).unwrap();
    esc.request_refund(PAYER, RECIPIENT, 0).unwrap();
    esc.dispute_refund(RECIPIENT, PAYER).unwrap();
    let (_, amount, state, _) = esc.payment_of(PAYER, RECIPIENT).unwrap();
    assert_eq!(amount, 80);
    assert_eq!(state, PaymentState::Disputed);
    assert!(esc.scheduled_task(PAYER, RECIPIENT).is_none());
    assert_eq!(esc.free_balance(ASSET, PAYER), 20);
    assert_eq!(esc.locked_balance(ASSET, PAYER), 80);
    assert_eq!(esc.free_balance(ASSET, RECIPIENT), 0);
    // a later tick is a no-op for the pair
    esc.process_tick(100_000);
    assert!(esc.payment_of(PAYER, RECIPIENT).is_some());
    assert_eq!(esc.locked_balance(ASSET, PAYER), 80);
}

#[test]
fn tick_auto_cancels_only_once_due() {
    let mut esc = funded_engine(100);
    esc.pay(PAYER, RECIPIENT, ASSET, 80, None).unwrap();
    esc.request_refund(PAYER, RECIPIENT, 0).unwrap();

    // not yet due
    esc.process_tick(600);
    assert!(esc.payment_of(PAYER, RECIPIENT).is_some());
    assert_eq!(esc.locked_balance(ASSET, PAYER), 80);

    // due: full refund, payment and task deleted
    esc.process_tick(601);
    assert!(esc.payment_of(PAYER, RECIPIENT).is_none());
    assert!(esc.scheduled_task(PAYER, RECIPIENT).is_none());
    assert_eq!(esc.free_balance(ASSET, PAYER), 100);
    assert_eq!(esc.locked_balance(ASSET, PAYER), 0);
    assert_eq!(esc.free_balance(ASSET, RECIPIENT), 0);
    assert_eq!(esc.events.last().unwrap(), &Event::PaymentCancelled { from: PAYER, to: RECIPIENT });
}

#[test]
fn remove_task_leaves_the_payment_alone() {
    let mut esc = funded_engine(100);
    esc.pay(PAYER, RECIPIENT, ASSET, 80, None).unwrap();
    esc.request_refund(PAYER, RECIPIENT, 0).unwrap();
    esc.remove_task(PAYER, RECIPIENT);
    assert!(esc.scheduled_task(PAYER, RECIPIENT).is_none());
    let (_, _, state, _) = esc.payment_of(PAYER, RECIPIENT).unwrap();
    assert_eq!(state, PaymentState::RefundRequested);
    // with the task gone the tick no longer cancels
    esc.process_tick(601);
    assert!(esc.payment_of(PAYER, RECIPIENT).is_some());
}

#[test]
fn request_then_accept_settles_in_one_step() {
    let mut esc = funded_engine(100);
    esc.request_payment(RECIPIENT, PAYER, ASSET, 80).unwrap();
    assert_eq!(
        esc.events.last().unwrap(),
        &Event::PaymentRequestCreated { from: PAYER, to: RECIPIENT }
    );
    assert!(esc.pending_request(PAYER, RECIPIENT).is_some());

    esc.accept_and_pay(PAYER, RECIPIENT).unwrap();
    assert_eq!(esc.free_balance(ASSET, PAYER), 20);
    assert_eq!(esc.free_balance(ASSET, RECIPIENT), 80);
    assert_eq!(esc.locked_balance(ASSET, PAYER), 0);
    assert!(esc.pending_request(PAYER, RECIPIENT).is_none());
    assert!(esc.payment_of(PAYER, RECIPIENT).is_none());
    assert_eq!(
        esc.events.last().unwrap(),
        &Event::PaymentRequestCompleted { from: PAYER, to: RECIPIENT }
    );
}

#[test]
fn full_dispute_resolution_scenario() {
    // payer locks 80 -> requests refund -> recipient disputes ->
    // resolver awards 100 percent to the recipient
    let mut esc = funded_engine(80);
    esc.pay(PAYER, RECIPIENT, ASSET, 80, None).unwrap();
    esc.request_refund(PAYER, RECIPIENT, 0).unwrap();
    assert_eq!(
        esc.scheduled_task(PAYER, RECIPIENT),
        Some(ScheduledTask { task: TaskKind::Cancel, when: 601 })
    );
    esc.dispute_refund(RECIPIENT, PAYER).unwrap();
    esc.resolve_payment(RESOLVER, PAYER, RECIPIENT, 100).unwrap();
    assert_eq!(esc.free_balance(ASSET, RECIPIENT), 80);
    assert_eq!(esc.free_balance(ASSET, PAYER), 0);
    assert_eq!(esc.locked_balance(ASSET, PAYER), 0);
    assert!(esc.payment_of(PAYER, RECIPIENT).is_none());
    assert!(esc.scheduled_task(PAYER, RECIPIENT).is_none());
    assert_eq!(
        esc.events.last().unwrap(),
        &Event::PaymentResolved { from: PAYER, to: RECIPIENT, recipient_share: 100 }
    );
}
