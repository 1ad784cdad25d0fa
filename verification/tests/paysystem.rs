use paysystem::PaySystem;
use paysystem::PaymentSchedule;
use paysystem::TransactionRecord;
use paysystem::NO_END;

const T: u64 = 1_000_000;

/// Deposit, register, settle once: the amount moves, the schedule advances
/// by one period, and the payment is recorded.
#[test]
fn single_payment_reschedules() {
    let mut p = PaySystem::init();
    p.deposit_funds(1, 10);
    p.add_schedule(1, 2, 1, 3600, T, None);
    let paid = p.execute_payments(T);
    assert_eq!(p.get_balance(1), 9);
    let ss = p.get_schedules(1);
    assert_eq!(ss.len(), 1);
    assert_eq!(ss[0].next_execution_time, T + 3600);
    assert_eq!(ss[0].end_time, NO_END);
    assert_eq!(
        p.get_transaction_history(1),
        Some(TransactionRecord { recipient: 2, amount: 1, timestamp: T })
    );
    assert_eq!(paid.len(), 1);
    assert_eq!(paid[0], TransactionRecord { recipient: 2, amount: 1, timestamp: T });
}

/// A due schedule without funds is left exactly as it is: still due, no
/// debit, no record — and a second pass changes nothing either.
#[test]
fn unfunded_schedule_is_deferred() {
    let mut p = PaySystem::init();
    p.add_schedule(1, 2, 1, 3600, T, None);
    let paid = p.execute_payments(T);
    assert!(paid.is_empty());
    assert_eq!(p.get_balance(1), 0);
    let ss = p.get_schedules(1);
    assert_eq!(ss.len(), 1);
    assert_eq!(ss[0].next_execution_time, T);
    assert_eq!(p.get_transaction_history(1), None);
    let paid_again = p.execute_payments(T);
    assert!(paid_again.is_empty());
    assert_eq!(p.get_balance(1), 0);
    assert_eq!(p.get_schedules(1)[0].next_execution_time, T);
    assert_eq!(p.get_transaction_history(1), None);
}

/// A schedule whose next occurrence would land at its end time pays once
/// and is removed.
#[test]
fn terminal_schedule_is_removed() {
    let mut p = PaySystem::init();
    p.deposit_funds(1, 10);
    p.add_schedule(1, 2, 1, 3600, T, Some(T + 3600));
    let paid = p.execute_payments(T);
    assert_eq!(paid.len(), 1);
    assert_eq!(p.get_balance(1), 9);
    assert!(p.get_schedules(1).is_empty());
    assert_eq!(p.get_schedule(1, 0), None);
}

/// Canceling with an out-of-range index is a silent no-op.
#[test]
fn cancel_out_of_range_is_noop() {
    let mut p = PaySystem::init();
    p.add_schedule(1, 2, 1, 3600, T, None);
    p.add_schedule(1, 3, 2, 7200, T, None);
    p.cancel_schedule(1, 5);
    let ss = p.get_schedules(1);
    assert_eq!(ss.len(), 2);
    assert_eq!(ss[0].recipient, 2);
    assert_eq!(ss[1].recipient, 3);
}

/// Canceling index `i` removes exactly that schedule; the ones after it
/// shift down one position.
#[test]
fn cancel_shifts_later_schedules() {
    let mut p = PaySystem::init();
    p.add_schedule(1, 2, 10, 100, T, None);
    p.add_schedule(1, 3, 20, 200, T, None);
    p.add_schedule(1, 4, 30, 300, T, None);
    p.cancel_schedule(1, 1);
    let ss = p.get_schedules(1);
    assert_eq!(ss.len(), 2);
    assert_eq!(ss[0].recipient, 2);
    assert_eq!(ss[1].recipient, 4);
    assert_eq!(p.get_schedule(1, 1).unwrap().recipient, 4);
    assert_eq!(p.get_schedule(1, 2), None);
}

/// Canceling for an account with no schedules changes nothing.
#[test]
fn cancel_unknown_owner_is_noop() {
    let mut p = PaySystem::init();
    p.cancel_schedule(7, 0);
    assert!(p.get_schedules(7).is_empty());
}

/// Two settlements for the same owner: the history holds only the second
/// payment.
#[test]
fn history_keeps_only_latest_payment() {
    let mut p = PaySystem::init();
    p.deposit_funds(1, 10);
    p.add_schedule(1, 2, 1, 3600, T, None);
    p.execute_payments(T);
    p.execute_payments(T + 3600);
    assert_eq!(
        p.get_transaction_history(1),
        Some(TransactionRecord { recipient: 2, amount: 1, timestamp: T + 3600 })
    );
    assert_eq!(p.get_balance(1), 8);
}

/// Each successful execution advances the schedule by exactly its frequency,
/// never more, never less.
#[test]
fn rescheduling_advances_by_frequency() {
    let mut p = PaySystem::init();
    p.deposit_funds(1, 100);
    p.add_schedule(1, 2, 1, 500, T, None);
    p.execute_payments(T);
    assert_eq!(p.get_schedules(1)[0].next_execution_time, T + 500);
    p.execute_payments(T + 499);
    assert_eq!(p.get_schedules(1)[0].next_execution_time, T + 500);
    p.execute_payments(T + 500);
    assert_eq!(p.get_schedules(1)[0].next_execution_time, T + 1000);
    p.execute_payments(T + 10_000);
    assert_eq!(p.get_schedules(1)[0].next_execution_time, T + 1500);
}

/// Balances obey conservation: deposits in, executed amounts out, across
/// owners and passes; recipients' ledger balances are untouched.
#[test]
fn balances_are_conserved() {
    let mut p = PaySystem::init();
    p.deposit_funds(1, 50);
    p.deposit_funds(2, 5);
    p.add_schedule(1, 9, 7, 100, T, None);
    p.add_schedule(1, 9, 11, 100, T, None);
    p.add_schedule(2, 9, 4, 100, T, None);
    let paid = p.execute_payments(T);
    assert_eq!(paid.len(), 3);
    let total: u128 = paid.iter().map(|r| r.amount).sum();
    assert_eq!(total, 7 + 11 + 4);
    assert_eq!(p.get_balance(1), 50 - 7 - 11);
    assert_eq!(p.get_balance(2), 5 - 4);
    assert_eq!(p.get_balance(9), 0);
    let paid2 = p.execute_payments(T + 100);
    assert_eq!(paid2.len(), 2);
    assert_eq!(p.get_balance(1), 50 - 2 * (7 + 11));
    assert_eq!(p.get_balance(2), 5 - 4);
    assert_eq!(p.get_schedules(2)[0].next_execution_time, T + 100);
}

/// A pass scans an owner's schedules in order: an early schedule may drain
/// the balance an out-of-funds later one would have needed, and the later
/// one waits for the next pass.
#[test]
fn scan_order_decides_funding() {
    let mut p = PaySystem::init();
    p.deposit_funds(1, 10);
    p.add_schedule(1, 2, 8, 3600, T, None);
    p.add_schedule(1, 3, 5, 3600, T, None);
    let paid = p.execute_payments(T);
    assert_eq!(paid.len(), 1);
    assert_eq!(paid[0].recipient, 2);
    assert_eq!(p.get_balance(1), 2);
    let ss = p.get_schedules(1);
    assert_eq!(ss[0].next_execution_time, T + 3600);
    assert_eq!(ss[1].next_execution_time, T);
    p.deposit_funds(1, 3);
    let paid2 = p.execute_payments(T);
    assert_eq!(paid2.len(), 1);
    assert_eq!(paid2[0].recipient, 3);
    assert_eq!(p.get_balance(1), 0);
}

/// Transfers come out in store order across owners: the first-registered
/// owner's payments first.
#[test]
fn payments_follow_store_order() {
    let mut p = PaySystem::init();
    p.deposit_funds(1, 10);
    p.deposit_funds(2, 10);
    p.add_schedule(2, 8, 2, 100, T, None);
    p.add_schedule(1, 9, 1, 100, T, None);
    p.add_schedule(2, 8, 3, 100, T, None);
    let paid = p.execute_payments(T);
    assert_eq!(paid.len(), 3);
    assert_eq!(paid[0].amount, 2);
    assert_eq!(paid[1].amount, 3);
    assert_eq!(paid[2].amount, 1);
}

/// A schedule not yet due is left alone even when funded.
#[test]
fn future_schedule_is_untouched() {
    let mut p = PaySystem::init();
    p.deposit_funds(1, 10);
    p.add_schedule(1, 2, 1, 3600, T + 1, None);
    let paid = p.execute_payments(T);
    assert!(paid.is_empty());
    assert_eq!(p.get_balance(1), 10);
    assert_eq!(p.get_schedules(1)[0].next_execution_time, T + 1);
}

/// An end time at the start time still allows the one payment that retires
/// the schedule.
#[test]
fn end_at_start_pays_once() {
    let mut p = PaySystem::init();
    p.deposit_funds(1, 10);
    p.add_schedule(1, 2, 1, 3600, T, Some(T));
    let paid = p.execute_payments(T);
    assert_eq!(paid.len(), 1);
    assert_eq!(p.get_balance(1), 9);
    assert!(p.get_schedules(1).is_empty());
}

/// Nothing rejects a zero amount or a zero frequency: a zero-amount
/// schedule executes without moving funds, and a zero-frequency schedule
/// stays due and pays again on the next pass at the same instant.
#[test]
fn zero_amount_and_zero_frequency_are_accepted() {
    let mut p = PaySystem::init();
    p.add_schedule(1, 2, 0, 3600, T, None);
    let paid = p.execute_payments(T);
    assert_eq!(paid.len(), 1);
    assert_eq!(paid[0].amount, 0);
    assert_eq!(p.get_balance(1), 0);

    let mut q = PaySystem::init();
    q.deposit_funds(3, 2);
    q.add_schedule(3, 4, 1, 0, T, None);
    assert_eq!(q.execute_payments(T).len(), 1);
    assert_eq!(q.get_schedules(3)[0].next_execution_time, T);
    assert_eq!(q.execute_payments(T).len(), 1);
    assert_eq!(q.get_balance(3), 0);
}

/// Queries on unknown accounts and out-of-range indices answer with empty
/// values, not errors.
#[test]
fn queries_default_for_unknown_accounts() {
    let p = PaySystem::init();
    assert_eq!(p.get_balance(42), 0);
    assert!(p.get_schedules(42).is_empty());
    assert_eq!(p.get_schedule(42, 0), None);
    assert_eq!(p.get_transaction_history(42), None);
}

/// Deposits accumulate on the caller's balance and touch nothing else.
#[test]
fn deposits_accumulate() {
    let mut p = PaySystem::init();
    p.deposit_funds(1, 3);
    p.deposit_funds(1, 4);
    p.deposit_funds(2, 5);
    assert_eq!(p.get_balance(1), 7);
    assert_eq!(p.get_balance(2), 5);
    assert!(p.get_schedules(1).is_empty());
}

/// A registered schedule is stored exactly as given, appended to the owner's
/// sequence.
#[test]
fn registration_appends_as_given() {
    let mut p = PaySystem::init();
    p.add_schedule(1, 2, 9, 60, T, Some(T + 600));
    p.add_schedule(1, 5, 1, 30, T + 5, None);
    assert_eq!(
        p.get_schedule(1, 0),
        Some(PaymentSchedule {
            recipient: 2,
            amount: 9,
            frequency: 60,
            next_execution_time: T,
            end_time: T + 600,
        })
    );
    assert_eq!(
        p.get_schedule(1, 1),
        Some(PaymentSchedule {
            recipient: 5,
            amount: 1,
            frequency: 30,
            next_execution_time: T + 5,
            end_time: NO_END,
        })
    );
}
