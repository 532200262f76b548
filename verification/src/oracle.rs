use vstd::prelude::*;
use crate::ledger::{Ledger, Unbind};
use crate::lists::{contains_account, keep, lemma_keep};
use crate::stake::Stake;
use crate::types::{AccountId, Balance, BlockNumber, Effect, Error, Params};

verus! {

/// The effects of a successful bind.
pub open spec fn bind_effects(who: AccountId, amount: Balance, active: Balance) -> Seq<Effect> {
    seq![Effect::SetLock(who, active), Effect::OracleBonded(who, amount)]
}

/// The effects of slashing an account whose active stake is `active`.
pub open spec fn slash_effects(who: AccountId, amount: Balance, active: Balance) -> Seq<Effect> {
    if amount > active {
        seq![
            Effect::OracleRemoved(who),
            Effect::Slash(who, active),
            Effect::OracleSlashed(who, active),
        ]
    } else {
        seq![Effect::Slash(who, amount), Effect::OracleSlashed(who, amount)]
    }
}

/// The mathematical state of the whole module.
pub struct State {
    pub params: Params,
    /// The accounts that were ever touched, in the order of first touch.
    pub known: Seq<AccountId>,
    /// The state of every account; `Stake::empty()` for the untouched.
    pub stakes: Map<AccountId, Stake>,
    pub oracles: Seq<AccountId>,
    pub candidates: Seq<AccountId>,
    /// The height at which the next election is due.
    pub current_era: BlockNumber,
}

impl State {
    /// Every account has a well-formed state, and the oracle set holds
    /// at most `count` accounts, each once.
    pub open spec fn wf(self) -> bool {
        &&& forall|a: AccountId| self.stakes.dom().contains(a)
        &&& forall|a: AccountId| (#[trigger] self.stakes[a]).wf()
        &&& self.oracles.no_duplicates()
        &&& self.oracles.len() <= self.params.count
    }

    /// The accounts are registered in the order of their first touch.
    pub open spec fn register(self, who: AccountId) -> State {
        State {
            known: if self.known.contains(who) {
                self.known
            } else {
                self.known.push(who)
            },
            ..self
        }
    }

    /// The account `who` is registered and gets the state `s`.
    pub open spec fn put(self, who: AccountId, s: Stake) -> State {
        State { stakes: self.stakes.insert(who, s), ..self.register(who) }
    }

    /// The state after `who` has bound `amount` more, or why it cannot.
    pub open spec fn bind(self, who: AccountId, amount: Balance) -> Result<State, Error> {
        match self.stakes[who].bind(amount, self.params.min_staking) {
            Ok(s) => Ok(self.put(who, s)),
            Err(e) => Err(e),
        }
    }

    /// The state after `who` has unbound `amount` at height `now`, or why
    /// it cannot.
    pub open spec fn unbind(self, who: AccountId, amount: Balance, now: BlockNumber) -> Result<
        State,
        Error,
    > {
        match self.stakes[who].unbind(amount, now, self.params.locked_duration) {
            Ok(s) => Ok(self.put(who, s)),
            Err(e) => Err(e),
        }
    }

    /// The account loses up to `amount` of its active stake, and its seat
    /// among the oracles if `amount` is more than that stake.
    pub open spec fn slash(self, who: AccountId, amount: Balance) -> State {
        State {
            oracles: if amount > self.stakes[who].active {
                keep(self.oracles, set![who])
            } else {
                self.oracles
            },
            ..self.put(who, self.stakes[who].slash(amount))
        }
    }

    /// Whether `who` would be added to the candidates by a bid.
    pub open spec fn is_new_candidate(self, who: AccountId) -> bool {
        !self.candidates.contains(who) && !self.oracles.contains(who)
    }

    /// The state after a bid of `who` has been registered.
    pub open spec fn add_candidate(self, who: AccountId) -> State {
        if self.is_new_candidate(who) {
            State { candidates: self.candidates.push(who), ..self }
        } else {
            self
        }
    }

    /// The state after `who` has reported at height `now`.
    pub open spec fn witnessed(self, who: AccountId, now: BlockNumber) -> State {
        self.put(who, self.stakes[who].witnessed(now))
    }
}

/// What the module stores for one account.
pub struct Account {
    pub id: AccountId,
    pub ledger: Ledger,
    pub locked: Balance,
    pub witness: BlockNumber,
    pub last_rewarded: BlockNumber,
}

impl View for Account {
    type V = Stake;

    open spec fn view(&self) -> Stake {
        Stake {
            active: self.ledger.active,
            unbonds: self.ledger.unbonds@,
            locked: self.locked,
            witness: self.witness,
            last_rewarded: self.last_rewarded,
        }
    }
}

/// The staking, election and liveness state: the accounts with their
/// ledgers and clocks, the oracle set, the candidates and the era.
pub struct Module {
    pub params: Params,
    pub accounts: Vec<Account>,
    pub oracles: Vec<AccountId>,
    pub candidates: Vec<AccountId>,
    pub current_era: BlockNumber,
}

impl View for Module {
    type V = State;

    open spec fn view(&self) -> State {
        State {
            params: self.params,
            known: self.known(),
            stakes: Map::new(|a: AccountId| true, |a: AccountId| self.stake(a)),
            oracles: self.oracles@,
            candidates: self.candidates@,
            current_era: self.current_era,
        }
    }
}

/// Whether the table holds an entry for `who`.
pub open spec fn stored(accounts: Seq<Account>, who: AccountId) -> bool {
    exists|j: int| 0 <= j < accounts.len() && accounts[j].id == who
}

/// The place of an entry for `who` in the table.
pub open spec fn place(accounts: Seq<Account>, who: AccountId) -> int {
    choose|j: int| 0 <= j < accounts.len() && accounts[j].id == who
}

impl Module {
    /// No account has two entries.
    pub open spec fn ids_unique(&self) -> bool {
        forall|i: int, j: int|
            0 <= i < j < self.accounts@.len() ==> self.accounts@[i].id != self.accounts@[j].id
    }

    /// Whether `who` has an entry.
    pub open spec fn has(&self, who: AccountId) -> bool {
        stored(self.accounts@, who)
    }

    /// The place of the entry of `who`.
    pub open spec fn slot(&self, who: AccountId) -> int {
        place(self.accounts@, who)
    }

    /// The state of account `who`.
    pub open spec fn stake(&self, who: AccountId) -> Stake {
        if self.has(who) {
            self.accounts@[self.slot(who)]@
        } else {
            Stake::empty()
        }
    }

    /// The accounts with an entry, in the order of the entries.
    pub open spec fn known(&self) -> Seq<AccountId> {
        Seq::new(self.accounts@.len(), |j: int| self.accounts@[j].id)
    }

    /// No account is stored twice, every ledger is well formed, and the
    /// oracle set holds at most `count` accounts, each once and each
    /// with an entry.
    pub open spec fn wf(&self) -> bool {
        &&& self.ids_unique()
        &&& forall|j: int|
            0 <= j < self.accounts@.len() ==> (#[trigger] self.accounts@[j]).ledger.wf()
        &&& self.oracles@.no_duplicates()
        &&& self.oracles@.len() <= self.params.count
        &&& forall|k: int| 0 <= k < self.oracles@.len() ==> self.has(#[trigger] self.oracles@[k])
    }

    /// The entry at place `j` is the entry of its account.
    pub proof fn lemma_slot(&self, j: int)
        requires
            self.ids_unique(),
            0 <= j < self.accounts@.len(),
        ensures
            self.has(self.accounts@[j].id),
            self.slot(self.accounts@[j].id) == j,
            self.stake(self.accounts@[j].id) == self.accounts@[j]@,
            self.known().contains(self.accounts@[j].id),
    {
        let who = self.accounts@[j].id;
        assert(self.has(who));
        let k = self.slot(who);
        if k < j {
        } else if j < k {
        }
        assert(self.known()[j] == who);
    }

    /// Every account's state is well formed.
    pub proof fn lemma_stakes_wf(&self)
        requires
            self.wf(),
        ensures
            forall|a: AccountId| (#[trigger] self.stake(a)).wf(),
            forall|a: AccountId| self.has(a) <==> self.known().contains(a),
    {
        assert forall|a: AccountId| (#[trigger] self.stake(a)).wf() by {
            if self.has(a) {
                self.lemma_slot(self.slot(a));
            }
        }
        assert forall|a: AccountId| self.has(a) <==> self.known().contains(a) by {
            if self.has(a) {
                self.lemma_slot(self.slot(a));
            }
            if self.known().contains(a) {
                let j = choose|j: int| 0 <= j < self.known().len() && self.known()[j] == a;
                assert(self.accounts@[j].id == a);
            }
        }
    }

    /// The mathematical state of a well-formed module is well formed.
    pub proof fn lemma_view_wf(&self)
        requires
            self.wf(),
        ensures
            self@.wf(),
    {
        self.lemma_stakes_wf();
    }

    /// Changing one entry but for its identity leaves the other accounts
    /// as they were.
    pub proof fn lemma_frame(before: &Module, after: &Module, i: int)
        requires
            before.ids_unique(),
            after.accounts@.len() == before.accounts@.len(),
            0 <= i < before.accounts@.len(),
            forall|j: int|
                0 <= j < before.accounts@.len() ==> after.accounts@[j].id
                    == before.accounts@[j].id,
            forall|j: int|
                0 <= j < before.accounts@.len() && j != i ==> after.accounts@[j]@
                    == before.accounts@[j]@,
        ensures
            after.ids_unique(),
            after.known() == before.known(),
            forall|a: AccountId| after.has(a) == before.has(a),
            forall|a: AccountId|
                a != before.accounts@[i].id ==> after.stake(a) == before.stake(a),
            after.stake(before.accounts@[i].id) == after.accounts@[i]@,
    {
        assert(after.known() =~= before.known());
        assert forall|a: AccountId| after.has(a) == before.has(a) by {
            if before.has(a) {
                let j = before.slot(a);
                assert(after.accounts@[j].id == a);
            }
            if after.has(a) {
                let j = after.slot(a);
                assert(before.accounts@[j].id == a);
            }
        }
        after.lemma_slot(i);
        assert forall|a: AccountId| a != before.accounts@[i].id implies after.stake(a)
            == before.stake(a) by {
            if before.has(a) {
                let j = before.slot(a);
                before.lemma_slot(j);
                after.lemma_slot(j);
            }
        }
    }

    /// A module with no account, no oracle and no candidate, whose first
    /// election is due at height `first_era`.
    pub fn new(params: Params, first_era: BlockNumber) -> (module: Module)
        ensures
            module.wf(),
            module@.params == params,
            module@.known == Seq::<AccountId>::empty(),
            module@.oracles == Seq::<AccountId>::empty(),
            module@.candidates == Seq::<AccountId>::empty(),
            module@.current_era == first_era,
            forall|a: AccountId| module@.stakes[a] == Stake::empty(),
    {
        let module = Module {
            params,
            accounts: Vec::new(),
            oracles: Vec::new(),
            candidates: Vec::new(),
            current_era: first_era,
        };
        proof {
            assert(module.known() =~= Seq::<AccountId>::empty());
        }
        module
    }

    /// Where the account is stored, if it is.
    pub fn find(&self, who: AccountId) -> (found: Option<usize>)
        requires
            self.ids_unique(),
        ensures
            match found {
                Some(j) => j < self.accounts@.len() && self.accounts@[j as int].id == who
                    && self.has(who) && self.stake(who) == self.accounts@[j as int]@,
                None => !self.has(who) && self.stake(who) == Stake::empty(),
            },
    {
        let mut i: usize = 0;
        while i < self.accounts.len()
            invariant
                0 <= i <= self.accounts@.len(),
                forall|k: int| 0 <= k < i ==> self.accounts@[k].id != who,
                self.ids_unique(),
            decreases self.accounts@.len() - i,
        {
            if self.accounts[i].id == who {
                proof {
                    self.lemma_slot(i as int);
                }
                return Some(i);
            }
            i = i + 1;
        }
        None
    }

    /// The place of the account, after giving it an empty entry if it had none.
    fn entry(&mut self, who: AccountId) -> (j: usize)
        requires
            old(self).wf(),
        ensures
            final(self).wf(),
            j < final(self).accounts@.len(),
            final(self).accounts@[j as int].id == who,
            final(self).accounts@[j as int]@ == old(self).stake(who),
            final(self)@ == old(self)@.register(who),
            forall|a: AccountId| final(self).stake(a) == old(self).stake(a),
            forall|a: AccountId| old(self).has(a) ==> final(self).has(a),
    {
        match self.find(who) {
            Some(j) => {
                proof {
                    self.lemma_stakes_wf();
                }
                j
            },
            None => {
                let fresh = Account {
                    id: who,
                    ledger: Ledger::default(),
                    locked: 0,
                    witness: 0,
                    last_rewarded: 0,
                };
                self.accounts.push(fresh);
                let j: usize = self.accounts.len() - 1;
                proof {
                    old(self).lemma_stakes_wf();
                    assert(forall|k: int|
                        0 <= k < old(self).accounts@.len() ==> self.accounts@[k] == old(
                            self,
                        ).accounts@[k]);
                    assert(self.ids_unique());
                    assert forall|a: AccountId| old(self).has(a) implies self.has(a) by {
                        let k = old(self).slot(a);
                        assert(self.accounts@[k].id == a);
                    }
                    assert forall|a: AccountId| self.stake(a) == old(self).stake(a) by {
                        if old(self).has(a) {
                            let k = old(self).slot(a);
                            old(self).lemma_slot(k);
                            self.lemma_slot(k);
                        } else if a == who {
                            self.lemma_slot(j as int);
                        } else {
                            if self.has(a) {
                                let k = self.slot(a);
                                assert(old(self).accounts@[k].id == a);
                            }
                        }
                    }
                    self.lemma_slot(j as int);
                    assert(self.known() =~= old(self).known().push(who));
                    assert(self@.stakes =~= old(self)@.stakes);
                }
                j
            },
        }
    }

    /// Bonds `amount` more for `who` and has the lock set to the new
    /// active stake.
    pub fn bind(&mut self, who: AccountId, amount: Balance) -> (r: Result<Vec<Effect>, Error>)
        requires
            old(self).wf(),
        ensures
            final(self).wf(),
            match old(self)@.bind(who, amount) {
                Ok(after) => r is Ok && final(self)@ == after && r.unwrap()@ == bind_effects(
                    who,
                    amount,
                    after.stakes[who].active,
                ),
                Err(e) => r == Err::<Vec<Effect>, Error>(e) && *final(self) == *old(self),
            },
    {
        let found = self.find(who);
        let active: Balance = match found {
            Some(j) => self.accounts[j].ledger.active,
            None => 0,
        };
        let waiting: Balance = match found {
            Some(j) => self.accounts[j].ledger.unbonding_total(),
            None => 0,
        };
        if amount > u128::MAX - active - waiting {
            return Err(Error::ArithmeticOverflow);
        }
        let staked: Balance = active + amount;
        if staked < self.params.min_staking {
            return Err(Error::StakeTooLow);
        }
        let j = self.entry(who);
        let ghost mid = *self;
        self.accounts[j].ledger.active = staked;
        self.accounts[j].locked = staked;
        proof {
            Self::lemma_frame(&mid, self, j as int);
            assert(self@.stakes =~= old(self)@.bind(who, amount).unwrap().stakes);
        }
        Ok(vec![Effect::SetLock(who, staked), Effect::OracleBonded(who, amount)])
    }

    /// Moves `amount` of the active stake of `who` to a new unbond entry
    /// that matures `locked_duration` blocks after `now`.
    pub fn unbind(&mut self, who: AccountId, amount: Balance, now: BlockNumber) -> (r: Result<
        Vec<Effect>,
        Error,
    >)
        requires
            old(self).wf(),
        ensures
            final(self).wf(),
            match old(self)@.unbind(who, amount, now) {
                Ok(after) => r is Ok && final(self)@ == after && r.unwrap()@
                    == seq![Effect::OracleUnbonded(who, amount)],
                Err(e) => r == Err::<Vec<Effect>, Error>(e) && *final(self) == *old(self),
            },
    {
        let found = self.find(who);
        let active: Balance = match found {
            Some(j) => self.accounts[j].ledger.active,
            None => 0,
        };
        if amount > active {
            return Err(Error::InsufficientStake);
        }
        if amount > 0 {
            let era: BlockNumber = match now.checked_add(self.params.locked_duration) {
                Some(era) => era,
                None => {
                    return Err(Error::ArithmeticOverflow);
                },
            };
            let j = self.entry(who);
            let ghost mid = *self;
            let ghost before = self.accounts@[j as int].ledger.unbonds@;
            self.accounts[j].ledger.active = active - amount;
            self.accounts[j].ledger.unbonds.push(Unbind { amount, era });
            proof {
                assert(before.push(Unbind { amount, era }).drop_last() =~= before);
                Self::lemma_frame(&mid, self, j as int);
                assert(self@.stakes =~= old(self)@.unbind(who, amount, now).unwrap().stakes);
            }
        } else {
            let j = self.entry(who);
            proof {
                assert(self@.stakes =~= old(self)@.unbind(who, amount, now).unwrap().stakes);
            }
        }
        Ok(vec![Effect::OracleUnbonded(who, amount)])
    }

    /// Takes `who` out of the oracle set.
    fn remove_oracle(&mut self, who: AccountId)
        requires
            old(self).wf(),
        ensures
            final(self).wf(),
            final(self).oracles@ == keep(old(self).oracles@, set![who]),
            final(self).accounts == old(self).accounts,
            final(self).candidates == old(self).candidates,
            final(self).params == old(self).params,
            final(self).current_era == old(self).current_era,
    {
        let mut rest: Vec<AccountId> = Vec::new();
        let mut i: usize = 0;
        while i < self.oracles.len()
            invariant
                0 <= i <= self.oracles@.len(),
                rest@ == keep(self.oracles@.take(i as int), set![who]),
                self.wf(),
                *self == *old(self),
            decreases self.oracles@.len() - i,
        {
            proof {
                assert(self.oracles@.take(i + 1).drop_last() =~= self.oracles@.take(i as int));
            }
            if self.oracles[i] != who {
                rest.push(self.oracles[i]);
            }
            i = i + 1;
        }
        proof {
            assert(self.oracles@.take(i as int) =~= self.oracles@);
            lemma_keep(self.oracles@, set![who]);
        }
        self.oracles = rest;
        proof {
            assert forall|k: int| 0 <= k < self.oracles@.len() implies self.has(
                #[trigger] self.oracles@[k],
            ) by {
                let a = self.oracles@[k];
                assert(self.oracles@.contains(a));
                assert(old(self).oracles@.contains(a));
                let t = choose|t: int|
                    0 <= t < old(self).oracles@.len() && old(self).oracles@[t] == a;
                assert(old(self).has(old(self).oracles@[t]));
                let j = old(self).slot(a);
                assert(self.accounts@[j].id == a);
            }
        }
    }

    /// Forfeits up to `amount` of the active stake of `who`. If `amount`
    /// is more than that stake, all of it goes and `who` leaves the
    /// oracle set.
    pub fn slash(&mut self, who: AccountId, amount: Balance) -> (effects: Vec<Effect>)
        requires
            old(self).wf(),
        ensures
            final(self).wf(),
            final(self)@ == old(self)@.slash(who, amount),
            effects@ == slash_effects(who, amount, old(self)@.stakes[who].active),
    {
        let j = self.entry(who);
        let ghost mid = *self;
        let active: Balance = self.accounts[j].ledger.active;
        let mut effects: Vec<Effect> = Vec::new();
        let taken: Balance = if amount > active {
            effects.push(Effect::OracleRemoved(who));
            active
        } else {
            amount
        };
        self.accounts[j].ledger.active = active - taken;
        proof {
            Self::lemma_frame(&mid, self, j as int);
            assert(self@.stakes =~= old(self)@.slash(who, amount).stakes);
        }
        if amount > active {
            self.remove_oracle(who);
            proof {
                assert(self@.stakes =~= old(self)@.slash(who, amount).stakes);
                assert(self.known() =~= mid.known());
            }
        }
        effects.push(Effect::Slash(who, taken));
        effects.push(Effect::OracleSlashed(who, taken));
        effects
    }

    /// Sets the height of the last report of `who` to `now`.
    pub fn record_witness(&mut self, who: AccountId, now: BlockNumber)
        requires
            old(self).wf(),
        ensures
            final(self).wf(),
            final(self)@ == old(self)@.witnessed(who, now),
    {
        let j = self.entry(who);
        let ghost mid = *self;
        self.accounts[j].witness = now;
        proof {
            Self::lemma_frame(&mid, self, j as int);
            assert(self@.stakes =~= old(self)@.witnessed(who, now).stakes);
        }
    }

    /// Registers `who` as a candidate unless it is one, or an oracle, already.
    pub fn add_candidates(&mut self, who: AccountId) -> (effects: Vec<Effect>)
        requires
            old(self).wf(),
        ensures
            final(self).wf(),
            final(self)@ == old(self)@.add_candidate(who),
            effects@ == if old(self)@.is_new_candidate(who) {
                seq![Effect::CandidatesAdded(who)]
            } else {
                Seq::<Effect>::empty()
            },
    {
        if !contains_account(&self.candidates, who) && !contains_account(&self.oracles, who) {
            self.candidates.push(who);
            proof {
                assert(self@.stakes =~= old(self)@.stakes);
                assert(self.known() =~= old(self).known());
            }
            vec![Effect::CandidatesAdded(who)]
        } else {
            Vec::new()
        }
    }
}

} // verus!
