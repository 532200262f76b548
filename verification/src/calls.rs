use vstd::prelude::*;
use crate::election::MembershipChange;
use crate::oracle::{bind_effects, slash_effects, Module, State};
use crate::types::{AccountId, Balance, BlockNumber, Effect, Error, Origin};

verus! {

/// What one block's finalization asks of the host, in this order: the
/// effects of the liveness scan, the membership change if an election
/// took place, and the effects of the release.
pub struct Finalized {
    pub scanned: Vec<Effect>,
    pub election: Option<MembershipChange>,
    pub released: Vec<Effect>,
}

impl State {
    /// A bid binds and registers the bidder as a candidate.
    pub open spec fn bid(self, who: AccountId, amount: Balance) -> Result<State, Error> {
        match self.bind(who, amount) {
            Ok(bound) => Ok(bound.add_candidate(who)),
            Err(e) => Err(e),
        }
    }

    /// The effects of an accepted bid.
    pub open spec fn bid_effects(self, who: AccountId, amount: Balance) -> Seq<Effect> {
        let bound = self.bind(who, amount).unwrap();
        if bound.is_new_candidate(who) {
            bind_effects(who, amount, bound.stakes[who].active).push(Effect::CandidatesAdded(who))
        } else {
            bind_effects(who, amount, bound.stakes[who].active)
        }
    }

    /// The next election is due one era later. The era stays where it is
    /// if that height cannot be represented.
    pub open spec fn advance_era(self) -> State {
        if self.current_era + self.params.election_era <= u64::MAX {
            State {
                current_era: (self.current_era + self.params.election_era) as BlockNumber,
                ..self
            }
        } else {
            self
        }
    }

    /// The state between the liveness scan and the release of block `now`:
    /// after the election, if this is the height at which one is due.
    pub open spec fn settled(self, now: BlockNumber) -> State {
        let scanned = self.scan(now);
        if now == scanned.current_era {
            scanned.elect(now).advance_era()
        } else {
            scanned
        }
    }

    /// The state after the finalization of block `now`: liveness scan,
    /// election if one is due, release.
    pub open spec fn finalize(self, now: BlockNumber) -> State {
        self.settled(now).release(now)
    }

    /// Whether the finalization of block `now` holds an election that
    /// changes the sets.
    pub open spec fn elects_at(self, now: BlockNumber) -> bool {
        now == self.current_era && self.scan(now).election_runs()
    }
}

impl Module {
    /// A bid: the signing account binds `amount` and becomes a
    /// candidate. Rejected with `BadOrigin` unless the call is signed.
    pub fn bid(&mut self, origin: Origin, amount: Balance) -> (r: Result<Vec<Effect>, Error>)
        requires
            old(self).wf(),
        ensures
            final(self).wf(),
            match origin.signer() {
                None => r == Err::<Vec<Effect>, Error>(Error::BadOrigin) && *final(self) == *old(
                    self,
                ),
                Some(who) => match old(self)@.bid(who, amount) {
                    Ok(after) => r is Ok && final(self)@ == after && r.unwrap()@ == old(
                        self,
                    )@.bid_effects(who, amount),
                    Err(e) => r == Err::<Vec<Effect>, Error>(e) && *final(self) == *old(self),
                },
            },
    {
        let who: AccountId = match origin.ensure_signed() {
            Ok(who) => who,
            Err(e) => {
                return Err(e);
            },
        };
        match self.bind(who, amount) {
            Ok(effects) => {
                let mut effects = effects;
                let mut added = self.add_candidates(who);
                effects.append(&mut added);
                proof {
                    assert(effects@ =~= old(self)@.bid_effects(who, amount));
                }
                Ok(effects)
            },
            Err(e) => Err(e),
        }
    }

    /// A request of the signing account, made at height `now`, to
    /// withdraw `amount` of its active stake. Rejected with `BadOrigin`
    /// unless the call is signed.
    pub fn unbond(&mut self, origin: Origin, amount: Balance, now: BlockNumber) -> (r: Result<
        Vec<Effect>,
        Error,
    >)
        requires
            old(self).wf(),
        ensures
            final(self).wf(),
            match origin.signer() {
                None => r == Err::<Vec<Effect>, Error>(Error::BadOrigin) && *final(self) == *old(
                    self,
                ),
                Some(who) => match old(self)@.unbind(who, amount, now) {
                    Ok(after) => r is Ok && final(self)@ == after && r.unwrap()@
                        == seq![Effect::OracleUnbonded(who, amount)],
                    Err(e) => r == Err::<Vec<Effect>, Error>(e) && *final(self) == *old(self),
                },
            },
    {
        let who: AccountId = match origin.ensure_signed() {
            Ok(who) => who,
            Err(e) => {
                return Err(e);
            },
        };
        self.unbind(who, amount, now)
    }

    /// A slash of `who` decided by vote. Rejected with `BadOrigin`
    /// unless the origin is the authority over slashes, or root.
    pub fn slash_by_vote(&mut self, origin: Origin, who: AccountId, amount: Balance) -> (r: Result<
        Vec<Effect>,
        Error,
    >)
        requires
            old(self).wf(),
        ensures
            final(self).wf(),
            if origin.may_slash() {
                &&& r is Ok
                &&& final(self)@ == old(self)@.slash(who, amount)
                &&& r.unwrap()@ == slash_effects(who, amount, old(self)@.stakes[who].active)
            } else {
                r == Err::<Vec<Effect>, Error>(Error::BadOrigin) && *final(self) == *old(self)
            },
    {
        match origin.ensure_slasher() {
            Ok(_) => Ok(self.slash(who, amount)),
            Err(e) => Err(e),
        }
    }

    /// The finalization of block `block_number`: the liveness scan, the
    /// election if this is the height at which one is due, and the
    /// release of what has matured.
    pub fn on_finalize(&mut self, block_number: BlockNumber) -> (done: Finalized)
        requires
            old(self).wf(),
        ensures
            final(self).wf(),
            final(self)@ == old(self)@.finalize(block_number),
            done.scanned@ == old(self)@.scan_effects(block_number),
            done.released@ == old(self)@.settled(block_number).release_effects(block_number),
            match done.election {
                None => !old(self)@.elects_at(block_number),
                Some(c) => {
                    let scanned = old(self)@.scan(block_number);
                    &&& old(self)@.elects_at(block_number)
                    &&& c.incoming@ == scanned.incoming()
                    &&& c.outgoing@ == scanned.outgoing()
                    &&& c.members@ == scanned.elected()
                },
            },
    {
        let scanned = self.slash_and_reward_oracles(block_number);
        let mut election: Option<MembershipChange> = None;
        if block_number == self.current_era {
            election = self.elect_oracles(block_number);
            match self.current_era.checked_add(self.params.election_era) {
                Some(next) => {
                    self.current_era = next;
                    proof {
                        assert(self@.stakes =~= old(self)@.settled(block_number).stakes);
                    }
                },
                None => {},
            }
        }
        let released = self.release_locked(block_number);
        Finalized { scanned, election, released }
    }
}

} // verus!
