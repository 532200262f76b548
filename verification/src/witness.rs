use vstd::prelude::*;
use crate::oracle::Module;
use crate::types::{AccountId, BlockNumber};

verus! {

/// What the price aggregation needs of the staking side: to record that
/// an account reported, and to ask whether an account's last report is
/// recent enough for its price to count.
pub trait OracleMixedIn {
    /// The height of the last report of `who`.
    spec fn witness_of(&self, who: AccountId) -> BlockNumber;

    /// For how many blocks a report keeps its reporter valid.
    spec fn interval(&self) -> BlockNumber;

    /// What the implementation needs to hold between calls.
    spec fn ready(&self) -> bool;

    /// Records that `who` reported at height `now`.
    fn on_witnessed(&mut self, who: AccountId, now: BlockNumber)
        requires
            old(self).ready(),
        ensures
            final(self).ready(),
            final(self).interval() == old(self).interval(),
            final(self).witness_of(who) == now,
            forall|a: AccountId| a != who ==> final(self).witness_of(a) == old(self).witness_of(a),
    ;

    /// Whether the last report of `who` is at most `interval` blocks old
    /// at height `now`.
    fn is_valid(&self, who: AccountId, now: BlockNumber) -> (valid: bool)
        requires
            self.ready(),
        ensures
            valid == (self.witness_of(who) + self.interval() >= now),
    ;
}

impl OracleMixedIn for Module {
    open spec fn witness_of(&self, who: AccountId) -> BlockNumber {
        self.stake(who).witness
    }

    open spec fn interval(&self) -> BlockNumber {
        self.params.report_interval
    }

    open spec fn ready(&self) -> bool {
        self.wf()
    }

    fn on_witnessed(&mut self, who: AccountId, now: BlockNumber)
        ensures
            final(self)@ == old(self)@.witnessed(who, now),
    {
        self.record_witness(who, now);
        proof {
            assert forall|a: AccountId| self.stake(a) == self@.stakes[a] by {}
            assert forall|a: AccountId| old(self).stake(a) == old(self)@.stakes[a] by {}
        }
    }

    fn is_valid(&self, who: AccountId, now: BlockNumber) -> (valid: bool)
        ensures
            valid == self@.stakes[who].live(now, self@.params.report_interval),
    {
        let witness: BlockNumber = match self.find(who) {
            Some(j) => self.accounts[j].witness,
            None => 0,
        };
        now <= witness || now - witness <= self.params.report_interval
    }
}

} // verus!
