//! Laws of the settlement pass, stated over the abstract model and proved
//! once for every ledger.

use crate::model::add_entry;
use crate::model::cancel_entry;
use crate::model::owns_schedules;
use crate::model::schedules_of;
use crate::model::settle_ledger;
use crate::model::settle_schedules;
use crate::model::LedgerView;
use crate::model::PaymentSchedule;
use crate::model::TransactionRecord;
use crate::store::assoc_index;
use crate::store::lemma_assoc_index;
use vstd::prelude::*;

verus! {

/// Total amount carried by a sequence of payment records.
pub open spec fn sum_amounts(rs: Seq<TransactionRecord>) -> int
    decreases rs.len(),
{
    if rs.len() == 0 {
        0
    } else {
        rs[0].amount + sum_amounts(rs.skip(1))
    }
}

/// Balance conservation for one owner's pass: the balance afterwards is the
/// balance before minus exactly the amounts paid out, so what is paid never
/// exceeds what was held, and the balance never goes negative.
pub proof fn lemma_settle_conserves_balance(ss: Seq<PaymentSchedule>, bal: u128, now: u64)
    ensures
        settle_schedules(ss, bal, now).balance + sum_amounts(settle_schedules(ss, bal, now).paid)
            == bal,
    decreases ss.len(),
{
    if ss.len() == 0 {
    } else {
        let s = ss[0];
        if s.is_due(now) && s.amount <= bal {
            let rest = settle_schedules(ss.skip(1), (bal - s.amount) as u128, now);
            lemma_settle_conserves_balance(ss.skip(1), (bal - s.amount) as u128, now);
            assert((seq![s.record_at(now)] + rest.paid).skip(1) =~= rest.paid);
        } else {
            lemma_settle_conserves_balance(ss.skip(1), bal, now);
        }
    }
}

/// The total amount of a record sequence is never negative.
pub proof fn lemma_sum_amounts_nonneg(rs: Seq<TransactionRecord>)
    ensures
        sum_amounts(rs) >= 0,
    decreases rs.len(),
{
    if rs.len() > 0 {
        lemma_sum_amounts_nonneg(rs.skip(1));
    }
}

/// A scan that pays nothing moves nothing: when no schedule is both due and
/// funded at its turn, the schedules and the balance come out exactly as
/// they went in.
pub proof fn lemma_settle_unfunded_noop(ss: Seq<PaymentSchedule>, bal: u128, now: u64)
    requires
        settle_schedules(ss, bal, now).paid.len() == 0,
    ensures
        settle_schedules(ss, bal, now).kept == ss,
        settle_schedules(ss, bal, now).balance == bal,
    decreases ss.len(),
{
    if ss.len() == 0 {
        assert(settle_schedules(ss, bal, now).kept =~= ss);
    } else {
        let s = ss[0];
        if s.is_due(now) && s.amount <= bal {
            assert(settle_schedules(ss, bal, now).paid.len() > 0);
        } else {
            lemma_settle_unfunded_noop(ss.skip(1), bal, now);
            assert(settle_schedules(ss, bal, now).kept =~= ss);
        }
    }
}

/// Whether `k` is one of the schedules of `ss` untouched, or one of them
/// advanced by exactly its own frequency, the advanced instant still short
/// of its end time.
pub open spec fn kept_from(ss: Seq<PaymentSchedule>, k: PaymentSchedule) -> bool {
    (exists|j: int| 0 <= j < ss.len() && k == #[trigger] ss[j]) || (exists|j: int|
        0 <= j < ss.len() && (#[trigger] ss[j]).next_execution_time + ss[j].frequency
            < ss[j].end_time && k == ss[j].advanced())
}

/// A schedule kept from the tail of `ss` is kept from `ss`.
proof fn lemma_kept_from_tail(ss: Seq<PaymentSchedule>, k: PaymentSchedule)
    requires
        ss.len() > 0,
        kept_from(ss.skip(1), k),
    ensures
        kept_from(ss, k),
{
    let t = ss.skip(1);
    if exists|j: int| 0 <= j < t.len() && k == #[trigger] t[j] {
        let j = choose|j: int| 0 <= j < t.len() && k == #[trigger] t[j];
        assert(ss[j + 1] == t[j]);
    } else {
        let j = choose|j: int|
            0 <= j < t.len() && (#[trigger] t[j]).next_execution_time + t[j].frequency
                < t[j].end_time && k == t[j].advanced();
        assert(ss[j + 1] == t[j]);
    }
}

/// Rescheduling is monotonic and retirement is final: every schedule a scan
/// keeps is either an untouched schedule of the input, or one that paid and
/// was advanced by exactly its own frequency — and then only when the
/// advanced instant still lies short of its end time, so a schedule whose
/// next occurrence would reach its end never survives its final payment.
pub proof fn lemma_settle_reschedules(ss: Seq<PaymentSchedule>, bal: u128, now: u64)
    ensures
        forall|i: int|
            0 <= i < settle_schedules(ss, bal, now).kept.len() ==> kept_from(
                ss,
                #[trigger] settle_schedules(ss, bal, now).kept[i],
            ),
    decreases ss.len(),
{
    if ss.len() == 0 {
    } else {
        let s = ss[0];
        let t = ss.skip(1);
        let kept = settle_schedules(ss, bal, now).kept;
        if s.is_due(now) && s.amount <= bal {
            let rest = settle_schedules(t, (bal - s.amount) as u128, now);
            lemma_settle_reschedules(t, (bal - s.amount) as u128, now);
            if s.retires() {
                assert forall|i: int| 0 <= i < kept.len() implies kept_from(
                    ss,
                    #[trigger] kept[i],
                ) by {
                    assert(kept[i] == rest.kept[i]);
                    lemma_kept_from_tail(ss, kept[i]);
                }
            } else {
                assert forall|i: int| 0 <= i < kept.len() implies kept_from(
                    ss,
                    #[trigger] kept[i],
                ) by {
                    if i == 0 {
                        assert(kept[0] == s.advanced());
                        assert(s.next_execution_time + s.frequency < s.end_time);
                        assert(0 <= 0 < ss.len() && (ss[0]).next_execution_time + ss[0].frequency
                            < ss[0].end_time && kept[0] == ss[0].advanced());
                    } else {
                        assert(kept[i] == rest.kept[i - 1]);
                        lemma_kept_from_tail(ss, kept[i]);
                    }
                }
            }
        } else {
            let rest = settle_schedules(t, bal, now);
            lemma_settle_reschedules(t, bal, now);
            assert forall|i: int| 0 <= i < kept.len() implies kept_from(
                ss,
                #[trigger] kept[i],
            ) by {
                if i == 0 {
                    assert(kept[0] == ss[0]);
                } else {
                    assert(kept[i] == rest.kept[i - 1]);
                    lemma_kept_from_tail(ss, kept[i]);
                }
            }
        }
    }
}

/// An owner with an entry is found by the store lookup.
proof fn lemma_owner_found(v: LedgerView, owner: u64)
    requires
        owns_schedules(v, owner),
    ensures
        0 <= assoc_index(v.sched, owner) < v.sched.len(),
        v.sched[assoc_index(v.sched, owner)].0 == owner,
        schedules_of(v, owner) == v.sched[assoc_index(v.sched, owner)].1,
{
    lemma_assoc_index(v.sched, owner);
    if assoc_index(v.sched, owner) == -1 {
        let j = choose|j: int| 0 <= j < v.sched.len() && (#[trigger] v.sched[j]).0 == owner;
        assert(v.sched[j].0 != owner);
    }
}

/// The ledger one entry further into a pass: the head owner's balance and
/// history written back, the head entry gone.
spec fn pass_tail(v: LedgerView, now: u64) -> LedgerView
    recommends
        v.sched.len() > 0,
{
    let owner = v.sched[0].0;
    let oc = settle_schedules(v.sched[0].1, v.bal[owner], now);
    LedgerView {
        sched: v.sched.skip(1),
        bal: v.bal.insert(owner, oc.balance),
        hist: if oc.paid.len() > 0 {
            v.hist.insert(owner, Some(oc.paid.last()))
        } else {
            v.hist
        },
    }
}

/// Stepping into a pass keeps the ledger well formed, and keeps the head
/// owner out of the remaining entries.
proof fn lemma_pass_tail_wf(v: LedgerView, now: u64)
    requires
        v.wf(),
        v.sched.len() > 0,
    ensures
        pass_tail(v, now).wf(),
        !owns_schedules(pass_tail(v, now), v.sched[0].0),
        forall|j: int|
            1 <= j < v.sched.len() ==> #[trigger] pass_tail(v, now).sched[j - 1] == v.sched[j],
{
    let mid = pass_tail(v, now);
    assert(forall|j: int| 0 <= j < mid.sched.len() ==> #[trigger] mid.sched[j] == v.sched[j + 1]);
    assert forall|x: int, y: int|
        0 <= x < y < mid.sched.len() implies (#[trigger] mid.sched[x]).0 != (
    #[trigger] mid.sched[y]).0 by {
        assert(mid.sched[x] == v.sched[x + 1]);
        assert(mid.sched[y] == v.sched[y + 1]);
    }
    assert(mid.bal.dom() =~= Set::<u64>::full());
    assert(mid.hist.dom() =~= Set::<u64>::full());
    if owns_schedules(mid, v.sched[0].0) {
        let j = choose|j: int|
            0 <= j < mid.sched.len() && (#[trigger] mid.sched[j]).0 == v.sched[0].0;
        assert(mid.sched[j] == v.sched[j + 1]);
        assert(v.sched[j + 1].0 != v.sched[0].0);
    }
}

/// What a settlement pass does, entry by entry: each owner keeps its place,
/// its schedules are settled against its own balance, its balance becomes
/// what that settlement left, and its history records the pass's last
/// payment when there was one. An account that owns no entry keeps its
/// balance and history.
pub proof fn lemma_settle_ledger_pointwise(v: LedgerView, now: u64)
    requires
        v.wf(),
    ensures
        settle_ledger(v, now).0.sched.len() == v.sched.len(),
        forall|j: int|
            0 <= j < v.sched.len() ==> {
                let owner = (#[trigger] v.sched[j]).0;
                let oc = settle_schedules(v.sched[j].1, v.bal[owner], now);
                &&& settle_ledger(v, now).0.sched[j] == (owner, oc.kept)
                &&& settle_ledger(v, now).0.bal[owner] == oc.balance
                &&& settle_ledger(v, now).0.hist[owner] == (if oc.paid.len() > 0 {
                    Some(oc.paid.last())
                } else {
                    v.hist[owner]
                })
            },
        forall|a: u64|
            !owns_schedules(v, a) ==> #[trigger] settle_ledger(v, now).0.bal[a] == v.bal[a]
                && settle_ledger(v, now).0.hist[a] == v.hist[a],
    decreases v.sched.len(),
{
    if v.sched.len() == 0 {
    } else {
        let owner0 = v.sched[0].0;
        let oc0 = settle_schedules(v.sched[0].1, v.bal[owner0], now);
        let mid = pass_tail(v, now);
        let rv = settle_ledger(mid, now).0;
        let fin = settle_ledger(v, now).0;
        lemma_pass_tail_wf(v, now);
        lemma_settle_ledger_pointwise(mid, now);
        assert(fin.sched == seq![(owner0, oc0.kept)] + rv.sched);
        assert forall|j: int| 0 <= j < v.sched.len() implies {
            let owner = (#[trigger] v.sched[j]).0;
            let oc = settle_schedules(v.sched[j].1, v.bal[owner], now);
            &&& fin.sched[j] == (owner, oc.kept)
            &&& fin.bal[owner] == oc.balance
            &&& fin.hist[owner] == (if oc.paid.len() > 0 {
                Some(oc.paid.last())
            } else {
                v.hist[owner]
            })
        } by {
            if j == 0 {
                assert(fin.sched[0] == (owner0, oc0.kept));
                assert(fin.bal[owner0] == rv.bal[owner0]);
                assert(rv.bal[owner0] == mid.bal[owner0]);
                assert(rv.hist[owner0] == mid.hist[owner0]);
            } else {
                let owner = v.sched[j].0;
                assert(mid.sched[j - 1] == v.sched[j]);
                assert(owner != owner0);
                assert(mid.bal[owner] == v.bal[owner]);
                assert(mid.hist[owner] == v.hist[owner]);
                assert(fin.sched[j] == rv.sched[j - 1]);
            }
        }
        assert forall|a: u64| !owns_schedules(v, a) implies #[trigger] fin.bal[a] == v.bal[a]
            && fin.hist[a] == v.hist[a] by {
            assert(a != owner0);
            if owns_schedules(mid, a) {
                let j = choose|j: int|
                    0 <= j < mid.sched.len() && (#[trigger] mid.sched[j]).0 == a;
                assert(mid.sched[j] == v.sched[j + 1]);
                assert(owns_schedules(v, a));
            }
            assert(mid.bal[a] == v.bal[a]);
            assert(mid.hist[a] == v.hist[a]);
        }
    }
}

/// A settlement pass keeps the ledger well formed, and keeps every owner at
/// its position in the store.
pub proof fn lemma_settle_preserves_wf(v: LedgerView, now: u64)
    requires
        v.wf(),
    ensures
        settle_ledger(v, now).0.wf(),
        settle_ledger(v, now).0.sched.len() == v.sched.len(),
        forall|j: int|
            0 <= j < v.sched.len() ==> (#[trigger] settle_ledger(v, now).0.sched[j]).0
                == v.sched[j].0,
    decreases v.sched.len(),
{
    let fin = settle_ledger(v, now).0;
    if v.sched.len() == 0 {
    } else {
        let mid = pass_tail(v, now);
        let rv = settle_ledger(mid, now).0;
        lemma_pass_tail_wf(v, now);
        lemma_settle_preserves_wf(mid, now);
        assert forall|j: int|
            0 <= j < v.sched.len() implies (#[trigger] fin.sched[j]).0 == v.sched[j].0 by {
            if j > 0 {
                assert(fin.sched[j] == rv.sched[j - 1]);
                assert(rv.sched[j - 1].0 == mid.sched[j - 1].0);
                assert(mid.sched[j - 1] == v.sched[j]);
            }
        }
        assert forall|x: int, y: int|
            0 <= x < y < fin.sched.len() implies (#[trigger] fin.sched[x]).0 != (
        #[trigger] fin.sched[y]).0 by {
            assert(fin.sched[x].0 == v.sched[x].0);
            assert(fin.sched[y].0 == v.sched[y].0);
        }
    }
}

/// The payments a pass at `now` makes on behalf of `owner`.
pub open spec fn pass_paid_of(v: LedgerView, now: u64, owner: u64) -> Seq<TransactionRecord> {
    if owns_schedules(v, owner) {
        settle_schedules(schedules_of(v, owner), v.bal[owner], now).paid
    } else {
        Seq::empty()
    }
}

/// Balance conservation for one pass: every account ends it holding exactly
/// what it held before minus the amounts of the payments made on its behalf,
/// and those payments never draw more than the account held.
pub proof fn lemma_pass_conserves_balances(v: LedgerView, now: u64, owner: u64)
    requires
        v.wf(),
    ensures
        settle_ledger(v, now).0.bal[owner] + sum_amounts(pass_paid_of(v, now, owner))
            == v.bal[owner],
        0 <= sum_amounts(pass_paid_of(v, now, owner)) <= v.bal[owner],
{
    lemma_settle_ledger_pointwise(v, now);
    if owns_schedules(v, owner) {
        lemma_owner_found(v, owner);
        let j = assoc_index(v.sched, owner);
        assert(v.sched[j].0 == owner);
        let oc = settle_schedules(v.sched[j].1, v.bal[owner], now);
        assert(settle_ledger(v, now).0.bal[owner] == oc.balance);
        lemma_settle_conserves_balance(v.sched[j].1, v.bal[owner], now);
    }
    lemma_sum_amounts_nonneg(pass_paid_of(v, now, owner));
}

/// One externally triggered mutating operation on the ledger, as the
/// callable operations perform it.
pub ghost enum LedgerOp {
    Deposit { caller: u64, amount: u128 },
    AddSchedule { caller: u64, schedule: PaymentSchedule },
    CancelSchedule { caller: u64, index: usize },
    Settle { now: u64 },
}

/// The ledger after one operation. Each arm is the abstract effect the
/// corresponding callable operation's contract states.
pub open spec fn apply_op(v: LedgerView, op: LedgerOp) -> LedgerView {
    match op {
        LedgerOp::Deposit { caller, amount } => LedgerView {
            bal: v.bal.insert(caller, (v.bal[caller] + amount) as u128),
            ..v
        },
        LedgerOp::AddSchedule { caller, schedule } => LedgerView {
            sched: add_entry(v.sched, caller, schedule),
            ..v
        },
        LedgerOp::CancelSchedule { caller, index } => LedgerView {
            sched: cancel_entry(v.sched, caller, index),
            ..v
        },
        LedgerOp::Settle { now } => settle_ledger(v, now).0,
    }
}

/// The ledger after a sequence of operations, applied in order.
pub open spec fn ledger_after_ops(v: LedgerView, ops: Seq<LedgerOp>) -> LedgerView
    decreases ops.len(),
{
    if ops.len() == 0 {
        v
    } else {
        ledger_after_ops(apply_op(v, ops[0]), ops.skip(1))
    }
}

/// Whether every deposit along `ops` fits the balance type, as the deposit
/// operation demands of its callers.
pub open spec fn ops_ok(v: LedgerView, ops: Seq<LedgerOp>) -> bool
    decreases ops.len(),
{
    ops.len() == 0 || {
        &&& (match ops[0] {
            LedgerOp::Deposit { caller, amount } => v.bal[caller] + amount <= u128::MAX,
            _ => true,
        })
        &&& ops_ok(apply_op(v, ops[0]), ops.skip(1))
    }
}

/// What `op` deposits into `owner`'s balance.
pub open spec fn op_deposit_of(op: LedgerOp, owner: u64) -> int {
    match op {
        LedgerOp::Deposit { caller, amount } => if caller == owner {
            amount as int
        } else {
            0
        },
        _ => 0,
    }
}

/// What `op` pays out of `owner`'s balance.
pub open spec fn op_executed_of(v: LedgerView, op: LedgerOp, owner: u64) -> int {
    match op {
        LedgerOp::Settle { now } => sum_amounts(pass_paid_of(v, now, owner)),
        _ => 0,
    }
}

/// The total `owner` deposits along `ops`.
pub open spec fn deposits_of(ops: Seq<LedgerOp>, owner: u64) -> int
    decreases ops.len(),
{
    if ops.len() == 0 {
        0
    } else {
        op_deposit_of(ops[0], owner) + deposits_of(ops.skip(1), owner)
    }
}

/// The total executed on `owner`'s behalf along `ops`.
pub open spec fn executed_of(v: LedgerView, ops: Seq<LedgerOp>, owner: u64) -> int
    decreases ops.len(),
{
    if ops.len() == 0 {
        0
    } else {
        op_executed_of(v, ops[0], owner) + executed_of(apply_op(v, ops[0]), ops.skip(1), owner)
    }
}

/// Every operation keeps the ledger well formed.
pub proof fn lemma_apply_op_wf(v: LedgerView, op: LedgerOp)
    requires
        v.wf(),
    ensures
        apply_op(v, op).wf(),
{
    let w = apply_op(v, op);
    match op {
        LedgerOp::Deposit { caller, amount } => {
            assert(w.bal.dom() =~= Set::<u64>::full());
        },
        LedgerOp::AddSchedule { caller, schedule } => {
            lemma_assoc_index(v.sched, caller);
            assert forall|x: int, y: int|
                0 <= x < y < w.sched.len() implies (#[trigger] w.sched[x]).0 != (
            #[trigger] w.sched[y]).0 by {
                if assoc_index(v.sched, caller) >= 0 {
                    assert(w.sched[x].0 == v.sched[x].0);
                    assert(w.sched[y].0 == v.sched[y].0);
                } else {
                    assert(w.sched[x].0 == v.sched[x].0);
                    if y < v.sched.len() {
                        assert(w.sched[y].0 == v.sched[y].0);
                    } else {
                        assert(w.sched[y].0 == caller);
                    }
                }
            }
        },
        LedgerOp::CancelSchedule { caller, index } => {
            lemma_assoc_index(v.sched, caller);
            assert forall|x: int, y: int|
                0 <= x < y < w.sched.len() implies (#[trigger] w.sched[x]).0 != (
            #[trigger] w.sched[y]).0 by {
                assert(w.sched[x].0 == v.sched[x].0);
                assert(w.sched[y].0 == v.sched[y].0);
            }
        },
        LedgerOp::Settle { now } => {
            lemma_settle_preserves_wf(v, now);
        },
    }
}

/// How one operation moves one account's balance: a deposit credits it, a
/// pass debits exactly what was executed, and nothing else touches it.
proof fn lemma_apply_op_balance(v: LedgerView, op: LedgerOp, owner: u64)
    requires
        v.wf(),
        match op {
            LedgerOp::Deposit { caller, amount } => v.bal[caller] + amount <= u128::MAX,
            _ => true,
        },
    ensures
        apply_op(v, op).bal[owner] + op_executed_of(v, op, owner) == v.bal[owner]
            + op_deposit_of(op, owner),
        0 <= op_executed_of(v, op, owner) <= v.bal[owner],
{
    match op {
        LedgerOp::Settle { now } => {
            lemma_pass_conserves_balances(v, now, owner);
        },
        _ => {
        },
    }
}

/// Balance conservation: over any run of deposits, registrations,
/// cancellations and settlement passes, every account ends with exactly
/// what it began with, plus its deposits, minus what was executed on its
/// behalf — and what a pass executes never exceeds what the account then
/// held, so a balance never goes negative.
pub proof fn lemma_balance_conservation(v: LedgerView, ops: Seq<LedgerOp>, owner: u64)
    requires
        v.wf(),
        ops_ok(v, ops),
    ensures
        ledger_after_ops(v, ops).bal[owner] + executed_of(v, ops, owner) == v.bal[owner]
            + deposits_of(ops, owner),
    decreases ops.len(),
{
    if ops.len() > 0 {
        lemma_apply_op_wf(v, ops[0]);
        lemma_apply_op_balance(v, ops[0], owner);
        lemma_balance_conservation(apply_op(v, ops[0]), ops.skip(1), owner);
    }
}

/// A pass that performs no transfer leaves the ledger exactly as it was.
pub proof fn lemma_unfunded_pass_identity(v: LedgerView, now: u64)
    requires
        v.wf(),
        settle_ledger(v, now).1.len() == 0,
    ensures
        settle_ledger(v, now).0 == v,
    decreases v.sched.len(),
{
    if v.sched.len() == 0 {
    } else {
        let owner0 = v.sched[0].0;
        let oc0 = settle_schedules(v.sched[0].1, v.bal[owner0], now);
        let mid = pass_tail(v, now);
        lemma_pass_tail_wf(v, now);
        assert(oc0.paid.len() == 0);
        lemma_settle_unfunded_noop(v.sched[0].1, v.bal[owner0], now);
        assert(mid.bal =~= v.bal);
        lemma_unfunded_pass_identity(mid, now);
        assert(v.sched[0] == (v.sched[0].0, v.sched[0].1));
        assert(settle_ledger(v, now).0.sched =~~= v.sched);
        assert(settle_ledger(v, now).0 =~~= v);
    }
}

/// Re-running a pass that paid nothing — two passes at the same instant with
/// no deposit in between — neither debits again nor moves a schedule: the
/// second pass returns the same ledger and pays nothing.
pub proof fn lemma_second_pass_identity(v: LedgerView, now: u64)
    requires
        v.wf(),
        settle_ledger(v, now).1.len() == 0,
    ensures
        settle_ledger(settle_ledger(v, now).0, now).0 == settle_ledger(v, now).0,
        settle_ledger(settle_ledger(v, now).0, now).1.len() == 0,
{
    lemma_unfunded_pass_identity(v, now);
}

/// History keeps only the most recent payment: after a second pass in which
/// an owner pays, its history holds exactly the last payment of that second
/// pass, whatever the first pass had recorded.
pub proof fn lemma_history_overwrite(v: LedgerView, t1: u64, t2: u64, owner: u64)
    requires
        v.wf(),
        pass_paid_of(settle_ledger(v, t1).0, t2, owner).len() > 0,
    ensures
        settle_ledger(settle_ledger(v, t1).0, t2).0.hist[owner] == Some(
            pass_paid_of(settle_ledger(v, t1).0, t2, owner).last(),
        ),
{
    let v1 = settle_ledger(v, t1).0;
    lemma_settle_preserves_wf(v, t1);
    assert(owns_schedules(v1, owner));
    lemma_owner_found(v1, owner);
    let j = assoc_index(v1.sched, owner);
    lemma_settle_ledger_pointwise(v1, t2);
    assert(v1.sched[j].0 == owner);
    let oc = settle_schedules(v1.sched[j].1, v1.bal[owner], t2);
    assert(oc.paid == pass_paid_of(v1, t2, owner));
    assert(settle_ledger(v1, t2).0.hist[owner] == (if oc.paid.len() > 0 {
        Some(oc.paid.last())
    } else {
        v1.hist[owner]
    }));
}

} // verus!
