use vstd::prelude::*;
use crate::lists::{copy_accounts, difference, keep, lemma_keep, lemma_take_step};
use crate::oracle::{Module, State};
use crate::stake::Stake;
use crate::sorting::{
    account_leq, lemma_account_leq_total, lemma_permutation, lemma_rank_leq_total,
    lemma_sorted_form, rank_leq, sort_accounts, sort_ranks,
};
use crate::types::{AccountId, Balance, BlockNumber};

verus! {

/// What the membership notifier is told after an election.
pub struct MembershipChange {
    /// The oracles that were none before, in the order of the new set.
    pub incoming: Vec<AccountId>,
    /// The former oracles that are none now, in the order of the old set.
    pub outgoing: Vec<AccountId>,
    /// The new oracle set.
    pub members: Vec<AccountId>,
}

/// The pool `acc` extended by the accounts `ids`: each comes in once,
/// with its active stake, unless that stake is zero.
pub open spec fn pool_from(
    stakes: Map<AccountId, Stake>,
    acc: Seq<(Balance, AccountId)>,
    ids: Seq<AccountId>,
) -> Seq<(Balance, AccountId)>
    decreases ids.len(),
{
    if ids.len() == 0 {
        acc
    } else {
        let pool = pool_from(stakes, acc, ids.drop_last());
        let entry = (stakes[ids.last()].active, ids.last());
        if entry.0 == 0 || pool.contains(entry) {
            pool
        } else {
            pool.push(entry)
        }
    }
}

/// The accounts of a sequence of (stake, account) pairs.
pub open spec fn accounts_of(s: Seq<(Balance, AccountId)>) -> Seq<AccountId> {
    Seq::new(s.len(), |i: int| s[i].1)
}

/// No pair twice, and each pair holds the positive active stake of its account.
pub open spec fn pool_ok(stakes: Map<AccountId, Stake>, pool: Seq<(Balance, AccountId)>) -> bool {
    &&& pool.no_duplicates()
    &&& forall|i: int|
        0 <= i < pool.len() ==> (#[trigger] pool[i]).0 == stakes[pool[i].1].active && pool[i].0
            > 0
}

/// Extending a good pool gives a good pool.
pub proof fn lemma_pool(
    stakes: Map<AccountId, Stake>,
    acc: Seq<(Balance, AccountId)>,
    ids: Seq<AccountId>,
)
    requires
        pool_ok(stakes, acc),
    ensures
        pool_ok(stakes, pool_from(stakes, acc, ids)),
    decreases ids.len(),
{
    if ids.len() > 0 {
        lemma_pool(stakes, acc, ids.drop_last());
    }
}

/// What a pool holds: what it held before, and each of the accounts
/// `ids` that has an active stake, with that stake.
pub proof fn lemma_pool_holds(
    stakes: Map<AccountId, Stake>,
    acc: Seq<(Balance, AccountId)>,
    ids: Seq<AccountId>,
)
    ensures
        forall|e: (Balance, AccountId)|
            pool_from(stakes, acc, ids).contains(e) <==> (acc.contains(e) || (ids.contains(e.1)
                && e.0 == stakes[e.1].active && e.0 > 0)),
    decreases ids.len(),
{
    if ids.len() > 0 {
        let front = ids.drop_last();
        let pool = pool_from(stakes, acc, front);
        let entry = (stakes[ids.last()].active, ids.last());
        lemma_pool_holds(stakes, acc, front);
        assert forall|e: (Balance, AccountId)|
            pool_from(stakes, acc, ids).contains(e) <==> (acc.contains(e) || (ids.contains(e.1)
                && e.0 == stakes[e.1].active && e.0 > 0)) by {
            if ids.contains(e.1) {
                let i = choose|i: int| 0 <= i < ids.len() && ids[i] == e.1;
                if i < front.len() {
                    assert(front[i] == e.1);
                }
            }
            if front.contains(e.1) {
                let i = choose|i: int| 0 <= i < front.len() && front[i] == e.1;
                assert(ids[i] == e.1);
            }
            assert(ids[ids.len() - 1] == ids.last());
            if !(entry.0 == 0 || pool.contains(entry)) {
                let more = pool.push(entry);
                assert(more[pool.len() as int] == entry);
                if pool.contains(e) {
                    let i = choose|i: int| 0 <= i < pool.len() && pool[i] == e;
                    assert(more[i] == e);
                }
                if more.contains(e) {
                    let i = choose|i: int| 0 <= i < more.len() && more[i] == e;
                    if i < pool.len() {
                        assert(pool[i] == e);
                    }
                }
            }
        }
    }
}

/// A rearrangement of a good pool is a good pool in which no account
/// occurs twice.
pub proof fn lemma_ranked(
    stakes: Map<AccountId, Stake>,
    pool: Seq<(Balance, AccountId)>,
    ranked: Seq<(Balance, AccountId)>,
)
    requires
        pool_ok(stakes, pool),
        ranked.to_multiset() == pool.to_multiset(),
    ensures
        pool_ok(stakes, ranked),
        ranked.len() == pool.len(),
        forall|i: int, j: int| 0 <= i < j < ranked.len() ==> ranked[i].1 != ranked[j].1,
{
    lemma_permutation(pool, ranked);
    assert forall|i: int| 0 <= i < ranked.len() implies (#[trigger] ranked[i]).0
        == stakes[ranked[i].1].active && ranked[i].0 > 0 by {
        assert(ranked.contains(ranked[i]));
        assert(pool.contains(ranked[i]));
        let k = choose|k: int| 0 <= k < pool.len() && pool[k] == ranked[i];
        assert(pool[k].0 > 0);
    }
    assert forall|i: int, j: int| 0 <= i < j < ranked.len() implies ranked[i].1
        != ranked[j].1 by {
        if ranked[i].1 == ranked[j].1 {
            assert(ranked[i].0 == ranked[j].0);
            assert(ranked[i] == ranked[j]);
        }
    }
}

impl State {
    /// The election's input: candidates, then oracles, each account once
    /// and none with an empty active stake.
    pub open spec fn eligible(self) -> Seq<(Balance, AccountId)> {
        pool_from(self.stakes, pool_from(self.stakes, Seq::empty(), self.candidates), self.oracles)
    }

    /// The eligible accounts from the weakest to the strongest: by
    /// active stake, and by account among equal stakes.
    pub open spec fn ranking(self) -> Seq<(Balance, AccountId)> {
        self.eligible().sort_by(rank_leq())
    }

    /// An election takes place only if a full set can be seated.
    pub open spec fn election_runs(self) -> bool {
        self.eligible().len() >= self.params.count
    }

    /// The `count` strongest of the ranking, in the order of accounts.
    pub open spec fn elected(self) -> Seq<AccountId> {
        let ranked = self.ranking();
        accounts_of(ranked.skip(ranked.len() - self.params.count)).sort_by(account_leq())
    }

    /// The eligible accounts that get no seat, weakest first.
    pub open spec fn runners_up(self) -> Seq<AccountId> {
        let ranked = self.ranking();
        accounts_of(ranked.take(ranked.len() - self.params.count))
    }

    /// The elected that are no oracles yet, in the order of the new set.
    pub open spec fn incoming(self) -> Seq<AccountId> {
        keep(self.elected(), self.oracles.to_set())
    }

    /// The oracles that are not elected again, in the order of the old set.
    pub open spec fn outgoing(self) -> Seq<AccountId> {
        keep(self.oracles, self.elected().to_set())
    }

    /// The state after the election at height `now`. Without enough
    /// eligible accounts nothing changes. Otherwise the elected become
    /// the oracle set, the other eligible accounts the candidates, and
    /// each incoming oracle counts as having reported at `now`.
    pub open spec fn elect(self, now: BlockNumber) -> State {
        if !self.election_runs() {
            self
        } else {
            State {
                oracles: self.elected(),
                candidates: self.runners_up(),
                stakes: Map::new(
                    |a: AccountId| true,
                    |a: AccountId|
                        if self.incoming().contains(a) {
                            self.stakes[a].witnessed(now)
                        } else {
                            self.stakes[a]
                        },
                ),
                ..self
            }
        }
    }
}

/// Whether the pair occurs in the pool.
fn holds_rank(pool: &Vec<(Balance, AccountId)>, stake: Balance, who: AccountId) -> (found: bool)
    ensures
        found == pool@.contains((stake, who)),
{
    let mut i: usize = 0;
    while i < pool.len()
        invariant
            0 <= i <= pool@.len(),
            forall|k: int| 0 <= k < i ==> pool@[k] != (stake, who),
        decreases pool@.len() - i,
    {
        if pool[i].0 == stake && pool[i].1 == who {
            assert(pool@[i as int] == (stake, who));
            return true;
        }
        i = i + 1;
    }
    false
}

impl Module {
    /// Adds the accounts `ids` to the pool.
    fn gather(&self, ids: &Vec<AccountId>, pool: &mut Vec<(Balance, AccountId)>)
        requires
            self.ids_unique(),
        ensures
            final(pool)@ == pool_from(self@.stakes, old(pool)@, ids@),
    {
        let mut i: usize = 0;
        while i < ids.len()
            invariant
                self.ids_unique(),
                0 <= i <= ids@.len(),
                pool@ == pool_from(self@.stakes, old(pool)@, ids@.take(i as int)),
            decreases ids@.len() - i,
        {
            proof {
                lemma_take_step(ids@, i as int);
            }
            let who: AccountId = ids[i];
            let stake: Balance = match self.find(who) {
                Some(j) => self.accounts[j].ledger.active,
                None => 0,
            };
            if stake > 0 && !holds_rank(pool, stake, who) {
                pool.push((stake, who));
            }
            i = i + 1;
        }
        proof {
            assert(ids@.take(i as int) =~= ids@);
        }
    }

    /// The election at height `current_height`. Candidates and oracles
    /// with an active stake are ranked by that stake; if there are at
    /// least `count` of them, the `count` strongest become the oracle
    /// set, in the order of accounts, and the others the candidates.
    /// Each incoming oracle counts as having reported at this height.
    pub fn elect_oracles(&mut self, current_height: BlockNumber) -> (change: Option<
        MembershipChange,
    >)
        requires
            old(self).wf(),
        ensures
            final(self).wf(),
            final(self)@ == old(self)@.elect(current_height),
            match change {
                None => !old(self)@.election_runs(),
                Some(c) => old(self)@.election_runs() && c.incoming@ == old(self)@.incoming()
                    && c.outgoing@ == old(self)@.outgoing() && c.members@ == old(
                    self,
                )@.elected(),
            },
    {
        let mut pool: Vec<(Balance, AccountId)> = Vec::new();
        self.gather(&self.candidates, &mut pool);
        self.gather(&self.oracles, &mut pool);
        let ghost eligible = pool@;
        sort_ranks(&mut pool);
        proof {
            assert(eligible == self@.eligible());
            lemma_rank_leq_total();
            lemma_sorted_form(pool@, eligible, rank_leq());
            lemma_pool(self@.stakes, Seq::empty(), self.candidates@);
            lemma_pool(
                self@.stakes,
                pool_from(self@.stakes, Seq::empty(), self.candidates@),
                self.oracles@,
            );
            lemma_ranked(self@.stakes, eligible, pool@);
        }
        let count: usize = self.params.count as usize;
        let n: usize = pool.len();
        if n < count {
            return None;
        }
        let split: usize = n - count;
        let mut rest: Vec<AccountId> = Vec::new();
        let mut chosen: Vec<AccountId> = Vec::new();
        let mut k: usize = 0;
        while k < split
            invariant
                0 <= k <= split <= pool@.len(),
                rest@.len() == k,
                forall|t: int| 0 <= t < k ==> rest@[t] == pool@[t].1,
            decreases split - k,
        {
            rest.push(pool[k].1);
            k = k + 1;
        }
        while k < n
            invariant
                split <= k <= n == pool@.len(),
                chosen@.len() == k - split,
                forall|t: int| 0 <= t < k - split ==> chosen@[t] == pool@[split + t].1,
            decreases n - k,
        {
            chosen.push(pool[k].1);
            k = k + 1;
        }
        let ghost seats = chosen@;
        sort_accounts(&mut chosen);
        proof {
            assert(rest@ =~= accounts_of(pool@.take(split as int)));
            assert(seats =~= accounts_of(pool@.skip(split as int)));
            lemma_account_leq_total();
            lemma_sorted_form(chosen@, seats, account_leq());
            lemma_permutation(seats, chosen@);
            assert(seats.no_duplicates());
            assert(chosen@ == self@.elected());
            assert forall|t: int| 0 <= t < chosen@.len() implies self.has(
                #[trigger] chosen@[t],
            ) by {
                let a = chosen@[t];
                assert(chosen@.contains(a));
                assert(seats.contains(a));
                let u = choose|u: int| 0 <= u < seats.len() && seats[u] == a;
                let e = pool@[split + u];
                assert(e.1 == a && e.0 > 0 && e.0 == self@.stakes[a].active);
                assert(self.stake(a).active > 0);
            }
        }
        let incoming = difference(&chosen, &self.oracles);
        let outgoing = difference(&self.oracles, &chosen);
        let members = copy_accounts(&chosen);
        proof {
            lemma_keep(chosen@, self.oracles@.to_set());
            assert forall|a: AccountId| incoming@.contains(a) implies self.has(a) by {
                assert(chosen@.contains(a));
                let u = choose|u: int| 0 <= u < chosen@.len() && chosen@[u] == a;
                assert(self.has(chosen@[u]));
            }
        }
        let mut t: usize = 0;
        while t < incoming.len()
            invariant
                old(self).wf(),
                self.ids_unique(),
                0 <= t <= incoming@.len(),
                self.oracles == old(self).oracles,
                self.candidates == old(self).candidates,
                self.params == old(self).params,
                self.current_era == old(self).current_era,
                self.accounts@.len() == old(self).accounts@.len(),
                forall|j: int|
                    0 <= j < self.accounts@.len() ==> self.accounts@[j].id == old(
                        self,
                    ).accounts@[j].id,
                forall|j: int|
                    0 <= j < self.accounts@.len() ==> (#[trigger] self.accounts@[j]).ledger.wf(),
                forall|a: AccountId| self.has(a) == old(self).has(a),
                forall|a: AccountId| incoming@.contains(a) ==> old(self).has(a),
                forall|a: AccountId|
                    self.stake(a) == if incoming@.take(t as int).contains(a) {
                        old(self).stake(a).witnessed(current_height)
                    } else {
                        old(self).stake(a)
                    },
            decreases incoming@.len() - t,
        {
            let who: AccountId = incoming[t];
            let ghost mid = *self;
            proof {
                lemma_take_step(incoming@, t as int);
                assert(incoming@.contains(who));
            }
            match self.find(who) {
                Some(j) => {
                    self.accounts[j].witness = current_height;
                    proof {
                        Self::lemma_frame(&mid, self, j as int);
                    }
                },
                None => {
                    proof {
                        assert(false);
                    }
                },
            }
            t = t + 1;
        }
        proof {
            assert(incoming@.take(t as int) =~= incoming@);
            assert(self.known() =~= old(self).known());
        }
        let ghost seeded = *self;
        self.oracles = chosen;
        self.candidates = rest;
        proof {
            assert(self.accounts@ == seeded.accounts@);
            assert forall|a: AccountId| self.stake(a) == old(self)@.elect(
                current_height,
            ).stakes[a] by {
                assert(self.stake(a) == seeded.stake(a));
                assert(old(self)@.stakes[a] == old(self).stake(a));
            }
            assert(self@.stakes =~= old(self)@.elect(current_height).stakes);
        }
        Some(MembershipChange { incoming, outgoing, members })
    }
}

} // verus!
