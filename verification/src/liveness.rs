use vstd::prelude::*;
use crate::lists::{keep, lemma_keep, lemma_take_step};
use crate::oracle::{slash_effects, Module, State};
use crate::stake::Stake;
use crate::types::{AccountId, Balance, BlockNumber, Effect, Params};

verus! {

/// What the liveness scan at height `now` has the host do for one
/// oracle: slash it if its last report is too old; else reward it if
/// its last reward is old enough; else nothing.
pub open spec fn scan_effects_one(who: AccountId, s: Stake, now: BlockNumber, params: Params) -> Seq<
    Effect,
> {
    if !s.live(now, params.report_interval) {
        slash_effects(who, params.miss_report_slash, s.active)
    } else if s.reward_due(now, params.report_interval) {
        seq![Effect::Deposit(who, params.oracle_fee), Effect::OraclePaid(who, params.oracle_fee)]
    } else {
        Seq::empty()
    }
}

/// The effects of the scan for the oracles `ids`, in their order.
pub open spec fn scan_effects_of(
    stakes: Map<AccountId, Stake>,
    ids: Seq<AccountId>,
    now: BlockNumber,
    params: Params,
) -> Seq<Effect>
    decreases ids.len(),
{
    if ids.len() == 0 {
        Seq::empty()
    } else {
        scan_effects_of(stakes, ids.drop_last(), now, params) + scan_effects_one(
            ids.last(),
            stakes[ids.last()],
            now,
            params,
        )
    }
}

impl State {
    /// The accounts that the scan at height `now` would expel.
    pub open spec fn expelled_set(self, now: BlockNumber) -> Set<AccountId> {
        Set::new(|a: AccountId| self.stakes[a].expelled(now, self.params))
    }

    /// The state after the liveness scan at height `now`: every oracle is
    /// slashed, rewarded or left alone, and those whose penalty exceeds
    /// their active stake leave the oracle set.
    pub open spec fn scan(self, now: BlockNumber) -> State {
        State {
            stakes: Map::new(
                |a: AccountId| true,
                |a: AccountId|
                    if self.oracles.contains(a) {
                        self.stakes[a].scan(now, self.params)
                    } else {
                        self.stakes[a]
                    },
            ),
            oracles: keep(self.oracles, self.expelled_set(now)),
            ..self
        }
    }

    /// The effects of the liveness scan at height `now`.
    pub open spec fn scan_effects(self, now: BlockNumber) -> Seq<Effect> {
        scan_effects_of(self.stakes, self.oracles, now, self.params)
    }
}

impl Module {
    /// The liveness scan of one block: an oracle whose last report is
    /// more than `report_interval` blocks old is slashed by
    /// `miss_report_slash`; any other oracle whose last reward is more
    /// than `report_interval` blocks old is paid `oracle_fee`.
    pub fn slash_and_reward_oracles(&mut self, block_number: BlockNumber) -> (effects: Vec<Effect>)
        requires
            old(self).wf(),
        ensures
            final(self).wf(),
            final(self)@ == old(self)@.scan(block_number),
            effects@ == old(self)@.scan_effects(block_number),
    {
        let mut effects: Vec<Effect> = Vec::new();
        let mut kept: Vec<AccountId> = Vec::new();
        let interval: BlockNumber = self.params.report_interval;
        let penalty: Balance = self.params.miss_report_slash;
        let fee: Balance = self.params.oracle_fee;
        let mut i: usize = 0;
        while i < self.oracles.len()
            invariant
                old(self).wf(),
                self.ids_unique(),
                0 <= i <= self.oracles@.len(),
                self.oracles == old(self).oracles,
                self.candidates == old(self).candidates,
                self.params == old(self).params,
                self.current_era == old(self).current_era,
                interval == self.params.report_interval,
                penalty == self.params.miss_report_slash,
                fee == self.params.oracle_fee,
                self.accounts@.len() == old(self).accounts@.len(),
                forall|t: int|
                    0 <= t < self.accounts@.len() ==> self.accounts@[t].id == old(
                        self,
                    ).accounts@[t].id,
                forall|t: int|
                    0 <= t < self.accounts@.len() ==> (#[trigger] self.accounts@[t]).ledger.wf(),
                forall|a: AccountId| self.has(a) == old(self).has(a),
                forall|a: AccountId|
                    self.stake(a) == if old(self).oracles@.take(i as int).contains(a) {
                        old(self).stake(a).scan(block_number, self.params)
                    } else {
                        old(self).stake(a)
                    },
                kept@ == keep(
                    old(self).oracles@.take(i as int),
                    old(self)@.expelled_set(block_number),
                ),
                effects@ == scan_effects_of(
                    old(self)@.stakes,
                    old(self).oracles@.take(i as int),
                    block_number,
                    self.params,
                ),
            decreases self.oracles@.len() - i,
        {
            let who: AccountId = self.oracles[i];
            let ghost mid = *self;
            let ghost sofar = effects@;
            let ghost was = old(self).stake(who);
            proof {
                lemma_take_step(old(self).oracles@, i as int);
                assert(old(self).has(old(self).oracles@[i as int]));
                assert(self.stake(who) == was);
                assert(old(self)@.stakes[who] == was);
            }
            match self.find(who) {
                Some(j) => {
                    let witness: BlockNumber = self.accounts[j].witness;
                    if block_number > witness && block_number - witness > interval {
                        let active: Balance = self.accounts[j].ledger.active;
                        let taken: Balance = if penalty > active {
                            effects.push(Effect::OracleRemoved(who));
                            active
                        } else {
                            kept.push(who);
                            penalty
                        };
                        self.accounts[j].ledger.active = active - taken;
                        effects.push(Effect::Slash(who, taken));
                        effects.push(Effect::OracleSlashed(who, taken));
                    } else {
                        kept.push(who);
                        let last: BlockNumber = self.accounts[j].last_rewarded;
                        if block_number > last && block_number - last > interval {
                            self.accounts[j].last_rewarded = block_number;
                            effects.push(Effect::Deposit(who, fee));
                            effects.push(Effect::OraclePaid(who, fee));
                        }
                    }
                    proof {
                        Self::lemma_frame(&mid, self, j as int);
                        assert(self.stake(who) == was.scan(block_number, self.params));
                        assert(effects@ =~= sofar + scan_effects_one(
                            who,
                            was,
                            block_number,
                            self.params,
                        ));
                    }
                },
                None => {
                    proof {
                        assert(false);
                    }
                },
            }
            i = i + 1;
        }
        proof {
            assert(old(self).oracles@.take(i as int) =~= old(self).oracles@);
            lemma_keep(old(self).oracles@, old(self)@.expelled_set(block_number));
            assert(self.known() =~= old(self).known());
        }
        let ghost scanned = *self;
        self.oracles = kept;
        proof {
            assert forall|a: AccountId| self.stake(a) == old(self)@.scan(
                block_number,
            ).stakes[a] by {
                assert(self.accounts@ == scanned.accounts@);
                assert(self.stake(a) == scanned.stake(a));
                assert(old(self)@.stakes[a] == old(self).stake(a));
            }
            assert(self@.stakes =~= old(self)@.scan(block_number).stakes);
            assert forall|k: int| 0 <= k < self.oracles@.len() implies self.has(
                #[trigger] self.oracles@[k],
            ) by {
                let a = self.oracles@[k];
                assert(self.oracles@.contains(a));
                assert(old(self).oracles@.contains(a));
                let t = choose|t: int|
                    0 <= t < old(self).oracles@.len() && old(self).oracles@[t] == a;
                assert(old(self).has(old(self).oracles@[t]));
            }
        }
        effects
    }
}

} // verus!
