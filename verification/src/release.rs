use vstd::prelude::*;
use crate::ledger::{lemma_pending, pending};
use crate::oracle::{Module, State};
use crate::stake::Stake;
use crate::types::{AccountId, Balance, BlockNumber, Effect};

verus! {

/// What the release at height `now` has the host do for one account:
/// nothing unless an entry matured, else the new lock and the notice of
/// what became free.
pub open spec fn release_effects_one(who: AccountId, s: Stake, now: BlockNumber) -> Seq<Effect> {
    if pending(s.unbonds, now).len() < s.unbonds.len() {
        seq![
            Effect::SetLock(who, s.release(now).locked),
            Effect::OracleStakeReleased(who, s.freed(now) as Balance),
        ]
    } else {
        Seq::empty()
    }
}

/// The effects of the release for the accounts `ids`, in their order.
pub open spec fn release_effects_of(
    stakes: Map<AccountId, Stake>,
    ids: Seq<AccountId>,
    now: BlockNumber,
) -> Seq<Effect>
    decreases ids.len(),
{
    if ids.len() == 0 {
        Seq::empty()
    } else {
        release_effects_of(stakes, ids.drop_last(), now) + release_effects_one(
            ids.last(),
            stakes[ids.last()],
            now,
        )
    }
}

impl State {
    /// Every account releases what has matured at height `now`.
    pub open spec fn release(self, now: BlockNumber) -> State {
        State {
            stakes: Map::new(|a: AccountId| true, |a: AccountId| self.stakes[a].release(now)),
            ..self
        }
    }

    /// The effects of the release at height `now`.
    pub open spec fn release_effects(self, now: BlockNumber) -> Seq<Effect> {
        release_effects_of(self.stakes, self.known, now)
    }
}

impl Module {
    /// Drops, for every account, the unbond entries that have matured at
    /// height `current_height`, and has the lock of each account that
    /// lost an entry set to what it still has bonded or pending.
    pub fn release_locked(&mut self, current_height: BlockNumber) -> (effects: Vec<Effect>)
        requires
            old(self).wf(),
        ensures
            final(self).wf(),
            final(self)@ == old(self)@.release(current_height),
            effects@ == old(self)@.release_effects(current_height),
    {
        let mut effects: Vec<Effect> = Vec::new();
        let mut j: usize = 0;
        while j < self.accounts.len()
            invariant
                old(self).wf(),
                0 <= j <= self.accounts@.len(),
                self.accounts@.len() == old(self).accounts@.len(),
                self.oracles == old(self).oracles,
                self.candidates == old(self).candidates,
                self.params == old(self).params,
                self.current_era == old(self).current_era,
                forall|t: int|
                    0 <= t < self.accounts@.len() ==> self.accounts@[t].id == old(
                        self,
                    ).accounts@[t].id,
                forall|t: int|
                    0 <= t < j ==> self.accounts@[t]@ == old(self).accounts@[t]@.release(
                        current_height,
                    ),
                forall|t: int|
                    j <= t < self.accounts@.len() ==> self.accounts@[t] == old(self).accounts@[t],
                forall|t: int|
                    0 <= t < self.accounts@.len() ==> (#[trigger] self.accounts@[t]).ledger.wf(),
                effects@ == release_effects_of(
                    old(self)@.stakes,
                    old(self).known().take(j as int),
                    current_height,
                ),
            decreases self.accounts@.len() - j,
        {
            let ghost before = self.accounts@[j as int]@;
            let ghost sofar = effects@;
            let who: AccountId = self.accounts[j].id;
            let freed: Balance = self.accounts[j].ledger.release(current_height);
            if freed > 0 {
                let active: Balance = self.accounts[j].ledger.active;
                let waiting: Balance = self.accounts[j].ledger.unbonding_total();
                let total: Balance = active + waiting;
                self.accounts[j].locked = total;
                effects.push(Effect::SetLock(who, total));
                effects.push(Effect::OracleStakeReleased(who, freed));
            }
            proof {
                old(self).lemma_slot(j as int);
                lemma_pending(before.unbonds, current_height);
                let ids = old(self).known();
                assert(ids.take(j + 1).drop_last() =~= ids.take(j as int));
                assert(ids.take(j + 1).last() == who);
                assert(old(self)@.stakes[who] == before);
                assert(effects@ =~= sofar + release_effects_one(who, before, current_height));
            }
            j = j + 1;
        }
        proof {
            let ids = old(self).known();
            assert(ids.take(j as int) =~= ids);
            assert(self.known() =~= old(self).known());
            assert(self.ids_unique());
            assert forall|a: AccountId| self.has(a) == old(self).has(a) by {
                if old(self).has(a) {
                    let t = old(self).slot(a);
                    assert(self.accounts@[t].id == a);
                }
                if self.has(a) {
                    let t = self.slot(a);
                    assert(old(self).accounts@[t].id == a);
                }
            }
            assert forall|a: AccountId| self.stake(a) == old(self).stake(a).release(
                current_height,
            ) by {
                if old(self).has(a) {
                    let t = old(self).slot(a);
                    old(self).lemma_slot(t);
                    self.lemma_slot(t);
                } else {
                    assert(pending(Seq::empty(), current_height).len() == 0);
                }
            }
            assert(self@.stakes =~= old(self)@.release(current_height).stakes);
        }
        effects
    }
}

} // verus!
