use vstd::prelude::*;
use crate::ledger::{all_positive, pending, unbonding, Unbind};
use crate::types::{Balance, BlockNumber, Error, Params};

verus! {

/// The mathematical state of one account: its ledger, the amount that the
/// currency service was last told to lock for it, the height of its last
/// accepted report and the height at which it was last rewarded. An
/// account that was never touched is in the state `Stake::empty()`.
pub struct Stake {
    pub active: Balance,
    pub unbonds: Seq<Unbind>,
    pub locked: Balance,
    pub witness: BlockNumber,
    pub last_rewarded: BlockNumber,
}

impl Stake {
    /// The state of an account that was never touched.
    pub open spec fn empty() -> Stake {
        Stake { active: 0, unbonds: Seq::empty(), locked: 0, witness: 0, last_rewarded: 0 }
    }

    /// Bonded plus unbonding.
    pub open spec fn total(self) -> nat {
        self.active as nat + unbonding(self.unbonds)
    }

    /// No empty unbond entry, and the total is an amount.
    pub open spec fn wf(self) -> bool {
        &&& all_positive(self.unbonds)
        &&& self.total() <= u128::MAX
    }

    /// The lock held by the currency service is the ledger's total.
    pub open spec fn lock_covers(self) -> bool {
        self.locked as nat == self.total()
    }

    /// Binding `amount` more: rejected if the total would leave the range
    /// of amounts, or if the active stake would stay below `min`;
    /// otherwise the active stake grows by `amount` and the lock is set
    /// to the new active stake.
    pub open spec fn bind(self, amount: Balance, min: Balance) -> Result<Stake, Error> {
        if self.total() + amount > u128::MAX {
            Err(Error::ArithmeticOverflow)
        } else if self.active + amount < min {
            Err(Error::StakeTooLow)
        } else {
            Ok(
                Stake {
                    active: (self.active + amount) as Balance,
                    locked: (self.active + amount) as Balance,
                    ..self
                },
            )
        }
    }

    /// Unbinding `amount` at height `now`: rejected if more than the
    /// active stake; otherwise `amount` moves from the active stake to a
    /// new entry that matures `duration` blocks later. Unbinding nothing
    /// adds no entry.
    pub open spec fn unbind(self, amount: Balance, now: BlockNumber, duration: BlockNumber) -> Result<
        Stake,
        Error,
    > {
        if amount > self.active {
            Err(Error::InsufficientStake)
        } else if amount == 0 {
            Ok(self)
        } else if now + duration > u64::MAX {
            Err(Error::ArithmeticOverflow)
        } else {
            Ok(
                Stake {
                    active: (self.active - amount) as Balance,
                    unbonds: self.unbonds.push(
                        Unbind { amount, era: (now + duration) as BlockNumber },
                    ),
                    ..self
                },
            )
        }
    }

    /// What a slash by `amount` takes: no more than the active stake.
    pub open spec fn forfeit(self, amount: Balance) -> Balance {
        if amount > self.active {
            self.active
        } else {
            amount
        }
    }

    /// The stake after a slash by `amount`.
    pub open spec fn slash(self, amount: Balance) -> Stake {
        Stake { active: (self.active - self.forfeit(amount)) as Balance, ..self }
    }

    /// What matures at `now` becomes free.
    pub open spec fn freed(self, now: BlockNumber) -> nat {
        (unbonding(self.unbonds) - unbonding(pending(self.unbonds, now))) as nat
    }

    /// Releasing at height `now`: matured entries go, and if any went the
    /// lock is set to what is still bonded or pending.
    pub open spec fn release(self, now: BlockNumber) -> Stake {
        let rest = pending(self.unbonds, now);
        if rest.len() < self.unbonds.len() {
            Stake { unbonds: rest, locked: (self.active + unbonding(rest)) as Balance, ..self }
        } else {
            self
        }
    }

    /// The stake after a report at height `now`.
    pub open spec fn witnessed(self, now: BlockNumber) -> Stake {
        Stake { witness: now, ..self }
    }

    /// The last report is no older than `interval` blocks.
    pub open spec fn live(self, now: BlockNumber, interval: BlockNumber) -> bool {
        self.witness + interval >= now
    }

    /// Live, and not rewarded within the last `interval` blocks.
    pub open spec fn reward_due(self, now: BlockNumber, interval: BlockNumber) -> bool {
        self.live(now, interval) && now > self.last_rewarded + interval
    }

    /// Not live, and the penalty exceeds the active stake.
    pub open spec fn expelled(self, now: BlockNumber, params: Params) -> bool {
        !self.live(now, params.report_interval) && params.miss_report_slash > self.active
    }

    /// One oracle after the liveness scan at height `now`.
    pub open spec fn scan(self, now: BlockNumber, params: Params) -> Stake {
        if !self.live(now, params.report_interval) {
            self.slash(params.miss_report_slash)
        } else if self.reward_due(now, params.report_interval) {
            Stake { last_rewarded: now, ..self }
        } else {
            self
        }
    }
}

} // verus!
