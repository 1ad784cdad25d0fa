//! The data model of the ledger and the mathematical meaning of a settlement
//! pass.
//!
//! `LedgerView` is the abstract state every contract speaks of: the schedule
//! store in order, a total balance map (an unknown account holds zero), and
//! the last recorded payment of each owner. `settle_schedules` gives the
//! outcome of one pass over a single owner's schedules; `settle_ledger` gives
//! the outcome of a whole pass over the ledger.

use crate::store::assoc_index;
use crate::store::assoc_lookup;
use vstd::prelude::*;

verus! {

/// End time of a schedule that never ends: a schedule retires when the
/// occurrence after the one just paid would land at or after its end time,
/// so this bound means it recurs until it is canceled.
pub const NO_END: u64 = u64::MAX;

/// A recurring payment directive owned by one account: pay `amount` to
/// `recipient` at `next_execution_time` and then every `frequency` seconds,
/// until the occurrence that would land at or after `end_time`.
#[derive(Clone, Copy, PartialEq, Eq, Structural, Debug)]
pub struct PaymentSchedule {
    pub recipient: u64,
    pub amount: u128,
    pub frequency: u64,
    pub next_execution_time: u64,
    pub end_time: u64,
}

/// The most recent outgoing payment made on behalf of one account. Each new
/// settlement overwrites the owner's previous record.
#[derive(Clone, Copy, PartialEq, Eq, Structural, Debug)]
pub struct TransactionRecord {
    pub recipient: u64,
    pub amount: u128,
    pub timestamp: u64,
}

impl PaymentSchedule {
    /// A schedule is due when its next execution instant is at or before
    /// `now`.
    pub open spec fn is_due(self, now: u64) -> bool {
        self.next_execution_time <= now
    }

    /// After a payment, a schedule retires when the following occurrence
    /// would land at or after its end time.
    pub open spec fn retires(self) -> bool {
        self.next_execution_time + self.frequency >= self.end_time
    }

    /// The schedule advanced by one period.
    pub open spec fn advanced(self) -> PaymentSchedule {
        PaymentSchedule {
            next_execution_time: (self.next_execution_time + self.frequency) as u64,
            ..self
        }
    }

    /// The record one payment of this schedule leaves at time `now`.
    pub open spec fn record_at(self, now: u64) -> TransactionRecord {
        TransactionRecord { recipient: self.recipient, amount: self.amount, timestamp: now }
    }
}

/// The abstract state of the ledger.
#[verifier::ext_equal]
pub ghost struct LedgerView {
    /// Schedule store: one entry per owner, in store order.
    pub sched: Seq<(u64, Seq<PaymentSchedule>)>,
    /// Balance of every account; an account never deposited to holds zero.
    pub bal: Map<u64, u128>,
    /// Last recorded payment of every account, `None` before the first.
    pub hist: Map<u64, Option<TransactionRecord>>,
}

impl LedgerView {
    /// Each owner appears at most once in the schedule store, and the balance
    /// and history maps answer for every account.
    pub open spec fn wf(self) -> bool {
        &&& forall|i: int, j: int|
            0 <= i < j < self.sched.len() ==> (#[trigger] self.sched[i]).0 != (
            #[trigger] self.sched[j]).0
        &&& self.bal.dom() == Set::<u64>::full()
        &&& self.hist.dom() == Set::<u64>::full()
    }

    /// The ledger before anything happened: no schedules, every balance zero,
    /// no history.
    pub open spec fn empty() -> LedgerView {
        LedgerView {
            sched: Seq::empty(),
            bal: Map::new(|a: u64| true, |a: u64| 0u128),
            hist: Map::new(|a: u64| true, |a: u64| None::<TransactionRecord>),
        }
    }
}

/// Whether some schedule-store entry is keyed by `a`.
pub open spec fn owns_schedules(v: LedgerView, a: u64) -> bool {
    exists|j: int| 0 <= j < v.sched.len() && (#[trigger] v.sched[j]).0 == a
}

/// The schedule sequence the store holds for `owner`: empty when the store
/// has no entry for it.
pub open spec fn schedules_of(v: LedgerView, owner: u64) -> Seq<PaymentSchedule> {
    match assoc_lookup(v.sched, owner) {
        Some(ss) => ss,
        None => Seq::empty(),
    }
}

/// The schedule appended by a registration: first payment at `start_time`,
/// no end when `end_time` is `None`.
pub open spec fn new_schedule(
    recipient: u64,
    amount: u128,
    frequency: u64,
    start_time: u64,
    end_time: Option<u64>,
) -> PaymentSchedule {
    PaymentSchedule {
        recipient,
        amount,
        frequency,
        next_execution_time: start_time,
        end_time: match end_time {
            Some(t) => t,
            None => NO_END,
        },
    }
}

/// The schedule store after a registration by `caller`: the new schedule
/// appended to the caller's entry, or a fresh entry at the end of the store
/// when the caller had none.
pub open spec fn add_entry(
    s: Seq<(u64, Seq<PaymentSchedule>)>,
    caller: u64,
    sch: PaymentSchedule,
) -> Seq<(u64, Seq<PaymentSchedule>)> {
    if assoc_index(s, caller) >= 0 {
        s.update(assoc_index(s, caller), (caller, s[assoc_index(s, caller)].1.push(sch)))
    } else {
        s.push((caller, seq![sch]))
    }
}

/// The schedule store after a cancellation by `caller`: the schedule at
/// `index` removed from the caller's entry; the store as it was when the
/// index is out of range or the caller has no entry.
pub open spec fn cancel_entry(
    s: Seq<(u64, Seq<PaymentSchedule>)>,
    caller: u64,
    index: usize,
) -> Seq<(u64, Seq<PaymentSchedule>)> {
    let i = assoc_index(s, caller);
    if i >= 0 && index < s[i].1.len() {
        s.update(i, (caller, s[i].1.remove(index as int)))
    } else {
        s
    }
}

/// What one settlement pass does to a single owner: the schedules that
/// remain, in order; the owner's balance afterwards; and the payments made,
/// in scan order.
#[verifier::ext_equal]
pub ghost struct SettleOutcome {
    pub kept: Seq<PaymentSchedule>,
    pub balance: u128,
    pub paid: Seq<TransactionRecord>,
}

/// Settle one owner's schedules front to back at time `now`, starting from
/// balance `bal`. A schedule that is not due, or is due but unfunded, is kept
/// untouched; a due and funded schedule pays once, and is then retired if its
/// next occurrence would reach its end time, or advanced by one period
/// otherwise.
pub open spec fn settle_schedules(ss: Seq<PaymentSchedule>, bal: u128, now: u64) -> SettleOutcome
    decreases ss.len(),
{
    if ss.len() == 0 {
        SettleOutcome { kept: Seq::empty(), balance: bal, paid: Seq::empty() }
    } else {
        let s = ss[0];
        if s.is_due(now) && s.amount <= bal {
            let rest = settle_schedules(ss.skip(1), (bal - s.amount) as u128, now);
            SettleOutcome {
                kept: if s.retires() {
                    rest.kept
                } else {
                    seq![s.advanced()] + rest.kept
                },
                balance: rest.balance,
                paid: seq![s.record_at(now)] + rest.paid,
            }
        } else {
            let rest = settle_schedules(ss.skip(1), bal, now);
            SettleOutcome { kept: seq![s] + rest.kept, balance: rest.balance, paid: rest.paid }
        }
    }
}

/// Settle the whole ledger at time `now`, owner entry by owner entry in store
/// order. Each entry's schedules are settled against that owner's balance;
/// the balance is written back, and the owner's history records the last
/// payment of the pass when there was one. The second component is every
/// payment of the pass, in the order made.
pub open spec fn settle_ledger(v: LedgerView, now: u64) -> (LedgerView, Seq<TransactionRecord>)
    decreases v.sched.len(),
{
    if v.sched.len() == 0 {
        (v, Seq::empty())
    } else {
        let owner = v.sched[0].0;
        let oc = settle_schedules(v.sched[0].1, v.bal[owner], now);
        let mid = LedgerView {
            sched: v.sched.skip(1),
            bal: v.bal.insert(owner, oc.balance),
            hist: if oc.paid.len() > 0 {
                v.hist.insert(owner, Some(oc.paid.last()))
            } else {
                v.hist
            },
        };
        let rest = settle_ledger(mid, now);
        (
            LedgerView {
                sched: seq![(owner, oc.kept)] + rest.0.sched,
                bal: rest.0.bal,
                hist: rest.0.hist,
            },
            oc.paid + rest.1,
        )
    }
}

} // verus!
