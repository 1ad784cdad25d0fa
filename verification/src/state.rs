//! The ledger itself: the three stores, the callable operations, and the
//! proofs that each operation does to the concrete state what its contract
//! says over the abstract `LedgerView`.

use crate::model::add_entry;
use crate::model::cancel_entry;
use crate::model::new_schedule;
use crate::model::schedules_of;
use crate::model::settle_ledger;
use crate::model::settle_schedules;
use crate::model::LedgerView;
use crate::model::PaymentSchedule;
use crate::model::TransactionRecord;
use crate::store::assoc_index;
use crate::store::assoc_lookup;
use crate::store::lemma_assoc_index;
use crate::store::lemma_assoc_index_at;
use crate::store::lemma_store_put_lookup;
use crate::store::store_find;
use crate::store::store_put;
use vstd::prelude::*;

verus! {

/// Per-account recurring payment schedules on a shared ledger: balances,
/// schedules by owner, and the last recorded payment of each owner.
pub struct PaySystem {
    sched: Vec<(u64, Vec<PaymentSchedule>)>,
    bal: Vec<(u64, u128)>,
    hist: Vec<(u64, TransactionRecord)>,
}

/// The abstract content of a concrete schedule store: each entry's vector
/// replaced by its sequence.
spec fn sched_view(c: Seq<(u64, Vec<PaymentSchedule>)>) -> Seq<(u64, Seq<PaymentSchedule>)> {
    c.map_values(|p: (u64, Vec<PaymentSchedule>)| (p.0, p.1@))
}

impl View for PaySystem {
    type V = LedgerView;

    closed spec fn view(&self) -> LedgerView {
        LedgerView {
            sched: sched_view(self.sched@),
            bal: Map::new(
                |a: u64| true,
                |a: u64|
                    match assoc_lookup(self.bal@, a) {
                        Some(x) => x,
                        None => 0u128,
                    },
            ),
            hist: Map::new(|a: u64| true, |a: u64| assoc_lookup(self.hist@, a)),
        }
    }
}

impl PaySystem {
    /// A fresh ledger: no schedules, every balance zero, no history.
    pub fn init() -> (s: PaySystem)
        ensures
            s@ == LedgerView::empty(),
            s@.wf(),
    {
        let s = PaySystem { sched: Vec::new(), bal: Vec::new(), hist: Vec::new() };
        proof {
            assert(s@.sched =~= LedgerView::empty().sched);
            assert(s@.bal =~= LedgerView::empty().bal);
            assert(s@.hist =~= LedgerView::empty().hist);
            assert(s@ =~= LedgerView::empty());
            assert(s@.bal.dom() =~= Set::<u64>::full());
            assert(s@.hist.dom() =~= Set::<u64>::full());
        }
        s
    }

    /// The schedule store indexes alike in the concrete vector and in the
    /// view, entry by entry.
    proof fn lemma_sched_index(&self, owner: u64)
        ensures
            assoc_index(self@.sched, owner) == assoc_index(self.sched@, owner),
            forall|j: int|
                0 <= j < self.sched@.len() ==> #[trigger] self@.sched[j] == (
                self.sched@[j].0,
                self.sched@[j].1@,
            ),
    {
        let c = self.sched@;
        let v = self@.sched;
        assert(forall|j: int|
            0 <= j < c.len() ==> #[trigger] v[j] == (c[j].0, c[j].1@));
        lemma_assoc_index(c, owner);
        let n = assoc_index(c, owner);
        if n == -1 {
            lemma_assoc_index(v, owner);
            let m = assoc_index(v, owner);
            if m != -1 {
                assert(v[m].0 == owner);
                assert(c[m].0 == owner);
            }
        } else {
            lemma_assoc_index_at(v, owner, n);
        }
    }

    /// The balance of `user`; zero for an account never deposited to.
    pub fn get_balance(&self, user: u64) -> (r: u128)
        ensures
            r == self@.bal[user],
    {
        match store_find(&self.bal, user) {
            Some(i) => self.bal[i].1,
            None => 0,
        }
    }

    /// The last recorded payment made on behalf of `user`, or `None` when no
    /// settlement has paid for it yet.
    pub fn get_transaction_history(&self, user: u64) -> (r: Option<TransactionRecord>)
        ensures
            r == self@.hist[user],
    {
        match store_find(&self.hist, user) {
            Some(i) => Some(self.hist[i].1),
            None => None,
        }
    }

    /// The full current schedule sequence of `user`; empty when it has none.
    pub fn get_schedules(&self, user: u64) -> (r: Vec<PaymentSchedule>)
        ensures
            r@ == schedules_of(self@, user),
    {
        proof {
            self.lemma_sched_index(user);
        }
        match store_find(&self.sched, user) {
            Some(i) => {
                let n = self.sched[i].1.len();
                let mut r: Vec<PaymentSchedule> = Vec::new();
                let mut k: usize = 0;
                while k < n
                    invariant
                        k <= n,
                        i < self.sched@.len(),
                        n == self.sched@[i as int].1@.len(),
                        r@ == self.sched@[i as int].1@.subrange(0, k as int),
                    decreases n - k,
                {
                    r.push(self.sched[i].1[k]);
                    proof {
                        assert(r@ =~= self.sched@[i as int].1@.subrange(0, k + 1));
                    }
                    k = k + 1;
                }
                proof {
                    assert(r@ =~= self.sched@[i as int].1@);
                }
                r
            },
            None => Vec::new(),
        }
    }

    /// The schedule of `user` at `index`, or `None` when `user` has no entry
    /// or the index is out of range.
    pub fn get_schedule(&self, user: u64, index: usize) -> (r: Option<PaymentSchedule>)
        ensures
            index < schedules_of(self@, user).len() ==> r == Some(
                schedules_of(self@, user)[index as int],
            ),
            index >= schedules_of(self@, user).len() ==> r is None,
    {
        proof {
            self.lemma_sched_index(user);
        }
        match store_find(&self.sched, user) {
            Some(i) => {
                if index < self.sched[i].1.len() {
                    Some(self.sched[i].1[index])
                } else {
                    None
                }
            },
            None => None,
        }
    }

    /// Append a schedule for `caller`: first payment at `start_time`, then
    /// one every `frequency` seconds, until the occurrence that would land at
    /// or after the end time; `None` for the end means it recurs until
    /// canceled. No input is validated; any amount, frequency or time is
    /// accepted.
    pub fn add_schedule(
        &mut self,
        caller: u64,
        recipient: u64,
        amount: u128,
        frequency: u64,
        start_time: u64,
        end_time: Option<u64>,
    )
        requires
            old(self)@.wf(),
        ensures
            final(self)@.wf(),
            final(self)@.bal == old(self)@.bal,
            final(self)@.hist == old(self)@.hist,
            schedules_of(final(self)@, caller) == schedules_of(old(self)@, caller).push(
                new_schedule(recipient, amount, frequency, start_time, end_time),
            ),
            forall|a: u64|
                a != caller ==> #[trigger] schedules_of(final(self)@, a) == schedules_of(
                    old(self)@,
                    a,
                ),
            final(self)@.sched == add_entry(
                old(self)@.sched,
                caller,
                new_schedule(recipient, amount, frequency, start_time, end_time),
            ),
    {
        let end = match end_time {
            Some(t) => t,
            None => u64::MAX,
        };
        let sch = PaymentSchedule {
            recipient,
            amount,
            frequency,
            next_execution_time: start_time,
            end_time: end,
        };
        proof {
            self.lemma_sched_index(caller);
        }
        let ghost v0 = self@;
        proof {
            assert(sch == new_schedule(recipient, amount, frequency, start_time, end_time));
        }
        match store_find(&self.sched, caller) {
            Some(i) => {
                let mut entry = self.sched.remove(i);
                entry.1.push(sch);
                self.sched.insert(i, entry);
                proof {
                    let grown = v0.sched[i as int].1.push(sch);
                    assert(self@.sched =~~= v0.sched.update(i as int, (caller, grown)));
                    lemma_store_put_lookup(v0.sched, self@.sched, caller, grown);
                    assert(schedules_of(v0, caller) == v0.sched[i as int].1);
                    assert forall|x: int, y: int|
                        0 <= x < y < self@.sched.len() implies (#[trigger] self@.sched[x]).0 != (
                    #[trigger] self@.sched[y]).0 by {
                        assert(self@.sched[x].0 == v0.sched[x].0);
                        assert(self@.sched[y].0 == v0.sched[y].0);
                    }
                    assert(self@.bal =~= v0.bal);
                    assert(self@.hist =~= v0.hist);
                }
            },
            None => {
                let mut list: Vec<PaymentSchedule> = Vec::new();
                list.push(sch);
                self.sched.push((caller, list));
                proof {
                    assert(self@.sched =~~= v0.sched.push((caller, seq![sch])));
                    lemma_store_put_lookup(v0.sched, self@.sched, caller, seq![sch]);
                    lemma_assoc_index(v0.sched, caller);
                    assert(schedules_of(v0, caller) == Seq::<PaymentSchedule>::empty());
                    assert(schedules_of(self@, caller) =~= schedules_of(v0, caller).push(sch));
                    assert forall|x: int, y: int|
                        0 <= x < y < self@.sched.len() implies (#[trigger] self@.sched[x]).0 != (
                    #[trigger] self@.sched[y]).0 by {
                        assert(self@.sched[x].0 == v0.sched[x].0);
                        if y < v0.sched.len() {
                            assert(self@.sched[y].0 == v0.sched[y].0);
                        } else {
                            assert(self@.sched[y].0 == caller);
                        }
                    }
                    assert(self@.bal =~= v0.bal);
                    assert(self@.hist =~= v0.hist);
                }
            },
        }
    }

    /// Remove the caller's schedule at `schedule_index`. The schedules after
    /// it shift down by one position; an out-of-range index, or a caller with
    /// no schedules, leaves the ledger untouched, with no error surfaced.
    pub fn cancel_schedule(&mut self, caller: u64, schedule_index: usize)
        requires
            old(self)@.wf(),
        ensures
            final(self)@.wf(),
            final(self)@.bal == old(self)@.bal,
            final(self)@.hist == old(self)@.hist,
            schedule_index < schedules_of(old(self)@, caller).len() ==> {
                let ss = schedules_of(old(self)@, caller);
                let kept = schedules_of(final(self)@, caller);
                &&& kept == ss.remove(schedule_index as int)
                &&& kept.len() == ss.len() - 1
                &&& forall|j: int| 0 <= j < schedule_index ==> #[trigger] kept[j] == ss[j]
                &&& forall|j: int|
                    schedule_index <= j < ss.len() - 1 ==> #[trigger] kept[j] == ss[j + 1]
            },
            schedule_index >= schedules_of(old(self)@, caller).len() ==> final(self)@ == old(
                self,
            )@,
            forall|a: u64|
                a != caller ==> #[trigger] schedules_of(final(self)@, a) == schedules_of(
                    old(self)@,
                    a,
                ),
            final(self)@.sched == cancel_entry(old(self)@.sched, caller, schedule_index),
    {
        proof {
            self.lemma_sched_index(caller);
        }
        let ghost v0 = self@;
        match store_find(&self.sched, caller) {
            Some(i) => {
                if schedule_index < self.sched[i].1.len() {
                    let mut entry = self.sched.remove(i);
                    entry.1.remove(schedule_index);
                    self.sched.insert(i, entry);
                    proof {
                        let shrunk = v0.sched[i as int].1.remove(schedule_index as int);
                        assert(self@.sched =~~= v0.sched.update(i as int, (caller, shrunk)));
                        lemma_store_put_lookup(v0.sched, self@.sched, caller, shrunk);
                        assert(schedules_of(v0, caller) == v0.sched[i as int].1);
                        v0.sched[i as int].1.remove_ensures(schedule_index as int);
                        assert forall|x: int, y: int|
                            0 <= x < y < self@.sched.len() implies (
                        #[trigger] self@.sched[x]).0 != (#[trigger] self@.sched[y]).0 by {
                            assert(self@.sched[x].0 == v0.sched[x].0);
                            assert(self@.sched[y].0 == v0.sched[y].0);
                        }
                        assert(self@.bal =~= v0.bal);
                        assert(self@.hist =~= v0.hist);
                    }
                }
            },
            None => {
            },
        }
    }

    /// One settlement pass at time `now`. Every owner's schedules are
    /// scanned in store order against that owner's balance: each due and
    /// funded schedule pays once, and is then retired when its next
    /// occurrence would reach its end time, or advanced by one period
    /// otherwise; a due but unfunded schedule keeps its place and is retried
    /// on a later pass. Balances and history are written back, and the
    /// transfers performed are returned in the order they were made, for the
    /// caller to carry out.
    pub fn execute_payments(&mut self, now: u64) -> (paid: Vec<TransactionRecord>)
        requires
            old(self)@.wf(),
        ensures
            final(self)@.wf(),
            final(self)@ == settle_ledger(old(self)@, now).0,
            paid@ == settle_ledger(old(self)@, now).1,
    {
        let ghost v0 = self@;
        let ghost full = settle_ledger(v0, now);
        let mut new_sched: Vec<(u64, Vec<PaymentSchedule>)> = Vec::new();
        let mut paid: Vec<TransactionRecord> = Vec::new();
        let n = self.sched.len();
        let mut j: usize = 0;
        proof {
            assert(v0.sched.skip(0) =~= v0.sched);
            assert(sched_view(new_sched@) =~= Seq::<(u64, Seq<PaymentSchedule>)>::empty());
            assert(full.0.sched =~= sched_view(new_sched@) + full.0.sched);
            assert(full.1 =~= paid@ + full.1);
        }
        while j < n
            invariant
                j <= n,
                n == self.sched@.len(),
                sched_view(self.sched@) == v0.sched,
                new_sched@.len() == j,
                forall|k: int| 0 <= k < j ==> (#[trigger] new_sched@[k]).0 == v0.sched[k].0,
                full == settle_ledger(v0, now),
                ({
                    let mid = LedgerView {
                        sched: v0.sched.skip(j as int),
                        bal: self@.bal,
                        hist: self@.hist,
                    };
                    let rest = settle_ledger(mid, now);
                    &&& full.0.sched == sched_view(new_sched@) + rest.0.sched
                    &&& full.0.bal == rest.0.bal
                    &&& full.0.hist == rest.0.hist
                    &&& full.1 == paid@ + rest.1
                }),
            decreases n - j,
        {
            let ghost mid = LedgerView {
                sched: v0.sched.skip(j as int),
                bal: self@.bal,
                hist: self@.hist,
            };
            let owner = self.sched[j].0;
            let bal0 = self.get_balance(owner);
            proof {
                assert(v0.sched[j as int] == (self.sched@[j as int].0, self.sched@[j as int].1@));
                assert(mid.sched[0] == v0.sched[j as int]);
            }
            let ghost ss = v0.sched[j as int].1;
            let ghost oc = settle_schedules(ss, bal0, now);
            let ghost paid_pre = paid@;
            let m = self.sched[j].1.len();
            let mut kept: Vec<PaymentSchedule> = Vec::new();
            let mut bal: u128 = bal0;
            let mut last_rec: Option<TransactionRecord> = None;
            let ghost mut opaid = Seq::<TransactionRecord>::empty();
            let mut i: usize = 0;
            proof {
                assert(ss.skip(0) =~= ss);
                assert(oc.kept =~= kept@ + oc.kept);
                assert(oc.paid =~= opaid + oc.paid);
                assert(paid@ =~= paid_pre + opaid);
            }
            while i < m
                invariant
                    i <= m,
                    j < self.sched@.len(),
                    ss == self.sched@[j as int].1@,
                    m == ss.len(),
                    oc == settle_schedules(ss, bal0, now),
                    ({
                        let rest = settle_schedules(ss.skip(i as int), bal, now);
                        &&& oc.kept == kept@ + rest.kept
                        &&& oc.balance == rest.balance
                        &&& oc.paid == opaid + rest.paid
                    }),
                    last_rec == (if opaid.len() > 0 {
                        Some(opaid.last())
                    } else {
                        None::<TransactionRecord>
                    }),
                    paid@ == paid_pre + opaid,
                decreases m - i,
            {
                let s = self.sched[j].1[i];
                proof {
                    assert(ss.skip(i as int)[0] == ss[i as int]);
                    assert(ss.skip(i as int).skip(1) =~= ss.skip(i as int + 1));
                }
                let ghost rest = settle_schedules(ss.skip(i as int), bal, now);
                if s.next_execution_time <= now && s.amount <= bal {
                    bal = bal - s.amount;
                    let rec = TransactionRecord {
                        recipient: s.recipient,
                        amount: s.amount,
                        timestamp: now,
                    };
                    paid.push(rec);
                    last_rec = Some(rec);
                    proof {
                        assert(rec == s.record_at(now));
                        opaid = opaid.push(rec);
                        assert(paid@ =~= paid_pre + opaid);
                        assert(oc.paid =~= opaid + settle_schedules(
                            ss.skip(i as int + 1),
                            bal,
                            now,
                        ).paid);
                    }
                    let sum128: u128 = s.next_execution_time as u128 + s.frequency as u128;
                    if sum128 >= s.end_time as u128 {
                        proof {
                            assert(s.retires());
                            assert(oc.kept =~= kept@ + settle_schedules(
                                ss.skip(i as int + 1),
                                bal,
                                now,
                            ).kept);
                        }
                    } else {
                        proof {
                            assert(!s.retires());
                        }
                        kept.push(
                            PaymentSchedule { next_execution_time: sum128 as u64, ..s },
                        );
                        proof {
                            assert(kept@.last() == s.advanced());
                            assert(oc.kept =~= kept@ + settle_schedules(
                                ss.skip(i as int + 1),
                                bal,
                                now,
                            ).kept);
                        }
                    }
                } else {
                    kept.push(s);
                    proof {
                        assert(oc.kept =~= kept@ + settle_schedules(
                            ss.skip(i as int + 1),
                            bal,
                            now,
                        ).kept);
                    }
                }
                i = i + 1;
            }
            proof {
                assert(ss.skip(m as int) =~= Seq::<PaymentSchedule>::empty());
                assert(oc.kept =~= kept@);
                assert(oc.balance == bal);
                assert(oc.paid =~= opaid);
            }
            let ghost balstore_pre = self.bal@;
            store_put(&mut self.bal, owner, bal);
            proof {
                lemma_store_put_lookup(balstore_pre, self.bal@, owner, bal);
                assert(self@.bal =~= mid.bal.insert(owner, oc.balance));
            }
            let ghost histstore_pre = self.hist@;
            match last_rec {
                Some(rec) => {
                    store_put(&mut self.hist, owner, rec);
                    proof {
                        lemma_store_put_lookup(histstore_pre, self.hist@, owner, rec);
                        assert(oc.paid.len() > 0);
                        assert(self@.hist =~= mid.hist.insert(owner, Some(oc.paid.last())));
                    }
                },
                None => {
                    proof {
                        assert(oc.paid.len() == 0);
                        assert(self@.hist =~= mid.hist);
                    }
                },
            }
            let ghost view_pre = sched_view(new_sched@);
            new_sched.push((owner, kept));
            proof {
                assert(sched_view(new_sched@) =~~= view_pre.push((owner, oc.kept)));
                let mid2 = LedgerView {
                    sched: v0.sched.skip(j as int + 1),
                    bal: self@.bal,
                    hist: self@.hist,
                };
                assert(mid.sched.skip(1) =~= v0.sched.skip(j as int + 1));
                let step = LedgerView {
                    sched: mid.sched.skip(1),
                    bal: mid.bal.insert(owner, oc.balance),
                    hist: if oc.paid.len() > 0 {
                        mid.hist.insert(owner, Some(oc.paid.last()))
                    } else {
                        mid.hist
                    },
                };
                assert(step =~~= mid2);
                let rest2 = settle_ledger(mid2, now);
                assert(settle_ledger(mid, now).0.sched == seq![(owner, oc.kept)] + rest2.0.sched);
                assert(settle_ledger(mid, now).0.bal == rest2.0.bal);
                assert(settle_ledger(mid, now).0.hist == rest2.0.hist);
                assert(settle_ledger(mid, now).1 == oc.paid + rest2.1);
                assert(full.0.sched =~~= sched_view(new_sched@) + rest2.0.sched);
                assert(full.1 =~= paid@ + rest2.1);
            }
            j = j + 1;
        }
        let ghost ns = new_sched@;
        let ghost bal_final = self@.bal;
        let ghost hist_final = self@.hist;
        proof {
            assert(v0.sched.skip(n as int) =~= Seq::<(u64, Seq<PaymentSchedule>)>::empty());
            assert(full.0.sched =~= sched_view(ns));
            assert(full.0.bal == bal_final);
            assert(full.0.hist == hist_final);
            assert(full.1 =~= paid@);
        }
        self.sched = new_sched;
        proof {
            assert(self@.sched == sched_view(ns));
            assert(self@.bal =~= bal_final);
            assert(self@.hist =~= hist_final);
            assert(self@ =~~= full.0);
            assert forall|x: int, y: int|
                0 <= x < y < self@.sched.len() implies (#[trigger] self@.sched[x]).0 != (
            #[trigger] self@.sched[y]).0 by {
                assert(ns[x].0 == v0.sched[x].0);
                assert(ns[y].0 == v0.sched[y].0);
                assert(self@.sched[x] == (ns[x].0, ns[x].1@));
                assert(self@.sched[y] == (ns[y].0, ns[y].1@));
            }
            assert(self@.bal.dom() =~= Set::<u64>::full());
            assert(self@.hist.dom() =~= Set::<u64>::full());
        }
        paid
    }

    /// Credit `amount`, the value attached by the caller, to the caller's
    /// balance.
    pub fn deposit_funds(&mut self, caller: u64, amount: u128)
        requires
            old(self)@.wf(),
            old(self)@.bal[caller] + amount <= u128::MAX,
        ensures
            final(self)@.wf(),
            final(self)@.sched == old(self)@.sched,
            final(self)@.hist == old(self)@.hist,
            final(self)@.bal == old(self)@.bal.insert(
                caller,
                (old(self)@.bal[caller] + amount) as u128,
            ),
    {
        let current = self.get_balance(caller);
        let ghost pre = self.bal@;
        store_put(&mut self.bal, caller, current + amount);
        proof {
            lemma_store_put_lookup(pre, self.bal@, caller, (current + amount) as u128);
            assert(self@.bal =~= old(self)@.bal.insert(caller, (current + amount) as u128));
            assert(self@.sched =~= old(self)@.sched);
            assert(self@.hist =~= old(self)@.hist);
            assert(self@.bal.dom() =~= Set::<u64>::full());
        }
    }
}

} // verus!
