use vstd::prelude::*;
use crate::ledger::{all_positive, lemma_unbonding_prefix, unbonding, Ledger};
use crate::oracle::Module;
use crate::types::Balance;

verus! {

impl Ledger {
    /// Whether the ledger is well formed. For values that come from
    /// outside, such as a ledger read back from storage.
    pub fn is_wf(&self) -> (ok: bool)
        ensures
            ok == self.wf(),
    {
        let mut sum: Balance = self.active;
        let mut i: usize = 0;
        while i < self.unbonds.len()
            invariant
                0 <= i <= self.unbonds@.len(),
                sum == self.active + unbonding(self.unbonds@.take(i as int)),
                all_positive(self.unbonds@.take(i as int)),
            decreases self.unbonds@.len() - i,
        {
            proof {
                lemma_unbonding_prefix(self.unbonds@, i + 1);
                assert(self.unbonds@.take(i + 1).drop_last() =~= self.unbonds@.take(i as int));
            }
            let amount: Balance = self.unbonds[i].amount;
            if amount == 0 {
                return false;
            }
            match sum.checked_add(amount) {
                Some(more) => {
                    sum = more;
                },
                None => {
                    return false;
                },
            }
            proof {
                let short = self.unbonds@.take(i as int);
                let long = self.unbonds@.take(i + 1);
                assert forall|t: int| 0 <= t < long.len() implies (#[trigger] long[t]).amount
                    > 0 by {
                    if t < i {
                        assert(short[t].amount > 0);
                    }
                }
            }
            i = i + 1;
        }
        proof {
            assert(self.unbonds@.take(i as int) =~= self.unbonds@);
        }
        true
    }
}

impl Module {
    /// Whether the module is well formed. For values that come from
    /// outside, such as a state read back from storage.
    pub fn is_wf(&self) -> (ok: bool)
        ensures
            ok == self.wf(),
    {
        let mut i: usize = 0;
        while i < self.accounts.len()
            invariant
                0 <= i <= self.accounts@.len(),
                forall|a: int, b: int|
                    0 <= a < b < i ==> self.accounts@[a].id != self.accounts@[b].id,
                forall|j: int| 0 <= j < i ==> (#[trigger] self.accounts@[j]).ledger.wf(),
            decreases self.accounts@.len() - i,
        {
            if !self.accounts[i].ledger.is_wf() {
                return false;
            }
            let mut k: usize = 0;
            while k < i
                invariant
                    0 <= k <= i < self.accounts@.len(),
                    forall|t: int| 0 <= t < k ==> self.accounts@[t].id != self.accounts@[i as int].id,
                decreases i - k,
            {
                if self.accounts[k].id == self.accounts[i].id {
                    return false;
                }
                k = k + 1;
            }
            i = i + 1;
        }
        if self.oracles.len() > self.params.count as usize {
            return false;
        }
        let mut i: usize = 0;
        while i < self.oracles.len()
            invariant
                self.ids_unique(),
                0 <= i <= self.oracles@.len(),
                forall|a: int, b: int| 0 <= a < b < i ==> self.oracles@[a] != self.oracles@[b],
                forall|j: int| 0 <= j < i ==> self.has(#[trigger] self.oracles@[j]),
            decreases self.oracles@.len() - i,
        {
            if self.find(self.oracles[i]).is_none() {
                return false;
            }
            let mut k: usize = 0;
            while k < i
                invariant
                    0 <= k <= i < self.oracles@.len(),
                    forall|t: int| 0 <= t < k ==> self.oracles@[t] != self.oracles@[i as int],
                decreases i - k,
            {
                if self.oracles[k] == self.oracles[i] {
                    return false;
                }
                k = k + 1;
            }
            i = i + 1;
        }
        proof {
            assert forall|a: int, b: int|
                0 <= a < self.oracles@.len() && 0 <= b < self.oracles@.len() && a
                    != b implies self.oracles@[a] != self.oracles@[b] by {
                if a < b {
                } else {
                    assert(self.oracles@[b] != self.oracles@[a]);
                }
            }
        }
        true
    }
}

impl crate::price::Module {
    /// Whether no reporter has two reports. For values that come from
    /// outside, such as reports read back from storage.
    pub fn is_wf(&self) -> (ok: bool)
        ensures
            ok == self.wf(),
    {
        let mut i: usize = 0;
        while i < self.price_reports.len()
            invariant
                0 <= i <= self.price_reports@.len(),
                forall|a: int, b: int|
                    0 <= a < b < i ==> self.price_reports@[a].reporter
                        != self.price_reports@[b].reporter,
            decreases self.price_reports@.len() - i,
        {
            let mut k: usize = 0;
            while k < i
                invariant
                    0 <= k <= i < self.price_reports@.len(),
                    forall|t: int|
                        0 <= t < k ==> self.price_reports@[t].reporter
                            != self.price_reports@[i as int].reporter,
                decreases i - k,
            {
                if self.price_reports[k].reporter == self.price_reports[i].reporter {
                    return false;
                }
                k = k + 1;
            }
            i = i + 1;
        }
        true
    }
}

} // verus!
