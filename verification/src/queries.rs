use vstd::prelude::*;
use crate::ledger::{Ledger, Unbind};
use crate::oracle::Module;
use crate::types::{AccountId, Balance, BlockNumber};

verus! {

impl Module {
    /// The ledger of `who`; the empty ledger for an account without one.
    pub fn oracle_ledger(&self, who: AccountId) -> (ledger: Ledger)
        requires
            self.wf(),
        ensures
            ledger.active == self@.stakes[who].active,
            ledger.unbonds@ == self@.stakes[who].unbonds,
            ledger.wf(),
    {
        match self.find(who) {
            Some(j) => {
                let mut unbonds: Vec<Unbind> = Vec::new();
                let mut i: usize = 0;
                while i < self.accounts[j].ledger.unbonds.len()
                    invariant
                        j < self.accounts@.len(),
                        0 <= i <= self.accounts@[j as int].ledger.unbonds@.len(),
                        unbonds@ == self.accounts@[j as int].ledger.unbonds@.take(i as int),
                    decreases self.accounts@[j as int].ledger.unbonds@.len() - i,
                {
                    let ghost all = self.accounts@[j as int].ledger.unbonds@;
                    unbonds.push(self.accounts[j].ledger.unbonds[i]);
                    proof {
                        assert(all.take(i + 1) =~= all.take(i as int).push(all[i as int]));
                    }
                    i = i + 1;
                }
                proof {
                    let all = self.accounts@[j as int].ledger.unbonds@;
                    assert(all.take(i as int) =~= all);
                }
                Ledger { active: self.accounts[j].ledger.active, unbonds }
            },
            None => Ledger::default(),
        }
    }

    /// The amount that the currency service was last told to keep locked for `who`.
    pub fn locked(&self, who: AccountId) -> (amount: Balance)
        requires
            self.wf(),
        ensures
            amount == self@.stakes[who].locked,
    {
        match self.find(who) {
            Some(j) => self.accounts[j].locked,
            None => 0,
        }
    }

    /// The height of the last accepted report of `who`.
    pub fn witness_report(&self, who: AccountId) -> (height: BlockNumber)
        requires
            self.wf(),
        ensures
            height == self@.stakes[who].witness,
    {
        match self.find(who) {
            Some(j) => self.accounts[j].witness,
            None => 0,
        }
    }

    /// The height at which `who` was last rewarded.
    pub fn oracle_last_rewarded(&self, who: AccountId) -> (height: BlockNumber)
        requires
            self.wf(),
        ensures
            height == self@.stakes[who].last_rewarded,
    {
        match self.find(who) {
            Some(j) => self.accounts[j].last_rewarded,
            None => 0,
        }
    }
}

} // verus!
