use vstd::prelude::*;
use crate::ledger::{lemma_pending, pending, Unbind};
use crate::lists::{keep, lemma_keep};
use crate::oracle::State;
use crate::stake::Stake;
use crate::price::{lemma_retained, median_of, reported, retained, PriceReport};
use crate::sorting::{
    account_leq, amount_leq, lemma_account_leq_total, lemma_amount_leq_total, lemma_permutation,
    lemma_rank_leq_total, lemma_sorted_form, rank_leq,
};
use crate::types::{AccountId, Balance, BlockNumber, Params, Price};
use crate::witness::OracleMixedIn;

verus! {

/// A call that an account makes on its own stake.
pub enum StakeCall {
    Bind(Balance),
    /// The amount, and the height at which the call is made.
    Unbind(Balance, BlockNumber),
}

/// The stake after the call; a rejected call changes nothing.
pub open spec fn apply(s: Stake, call: StakeCall, params: Params) -> Stake {
    match call {
        StakeCall::Bind(amount) => match s.bind(amount, params.min_staking) {
            Ok(after) => after,
            Err(_) => s,
        },
        StakeCall::Unbind(amount, now) => match s.unbind(amount, now, params.locked_duration) {
            Ok(after) => after,
            Err(_) => s,
        },
    }
}

/// The stake after the calls, made in their order.
pub open spec fn run(s: Stake, calls: Seq<StakeCall>, params: Params) -> Stake
    decreases calls.len(),
{
    if calls.len() == 0 {
        s
    } else {
        apply(run(s, calls.drop_last(), params), calls.last(), params)
    }
}

/// Every bind among the calls is made while nothing is unbonding.
pub open spec fn binds_when_settled(s: Stake, calls: Seq<StakeCall>, params: Params) -> bool
    decreases calls.len(),
{
    calls.len() == 0 || (binds_when_settled(s, calls.drop_last(), params) && (calls.last() is Bind
        ==> run(s, calls.drop_last(), params).unbonds.len() == 0))
}

/// Through any sequence of binds and unbinds in which each bind is made
/// while nothing is unbonding, the lock held by the currency service
/// stays equal to the active stake plus the unbonding amounts.
pub proof fn lemma_lock_covers_total(s: Stake, calls: Seq<StakeCall>, params: Params)
    requires
        s.wf(),
        s.lock_covers(),
        binds_when_settled(s, calls, params),
    ensures
        run(s, calls, params).wf(),
        run(s, calls, params).lock_covers(),
    decreases calls.len(),
{
    if calls.len() > 0 {
        let before = run(s, calls.drop_last(), params);
        lemma_lock_covers_total(s, calls.drop_last(), params);
        match calls.last() {
            StakeCall::Bind(amount) => {},
            StakeCall::Unbind(amount, now) => {
                if before.unbind(amount, now, params.locked_duration) is Ok && amount > 0 {
                    let entry = Unbind {
                        amount,
                        era: (now + params.locked_duration) as BlockNumber,
                    };
                    assert(before.unbonds.push(entry).drop_last() =~= before.unbonds);
                }
            },
        }
    }
}

/// An accepted unbind leaves the total and the lock as they are.
pub proof fn lemma_unbind_keeps_total(
    s: Stake,
    amount: Balance,
    now: BlockNumber,
    duration: BlockNumber,
)
    requires
        s.wf(),
        s.unbind(amount, now, duration) is Ok,
    ensures
        s.unbind(amount, now, duration).unwrap().wf(),
        s.unbind(amount, now, duration).unwrap().total() == s.total(),
        s.unbind(amount, now, duration).unwrap().locked == s.locked,
{
    if amount > 0 {
        let entry = Unbind { amount, era: (now + duration) as BlockNumber };
        assert(s.unbonds.push(entry).drop_last() =~= s.unbonds);
    }
}

/// After an unbind of `amount`, a release at or after the maturity
/// height leaves the lock lower by exactly `amount` than the same
/// release would have left it without the unbind; and lower by exactly
/// `amount` than it was, if no earlier entry matures with it.
pub proof fn lemma_unbind_then_release(
    s: Stake,
    amount: Balance,
    now: BlockNumber,
    duration: BlockNumber,
    height: BlockNumber,
)
    requires
        s.wf(),
        s.lock_covers(),
        s.unbind(amount, now, duration) is Ok,
        height >= now + duration,
    ensures
        s.unbind(amount, now, duration).unwrap().release(height).locked + amount == s.release(
            height,
        ).locked,
        pending(s.unbonds, height) == s.unbonds ==> s.unbind(
            amount,
            now,
            duration,
        ).unwrap().release(height).locked + amount == s.locked,
        s.unbind(amount, now, duration).unwrap().release(height).lock_covers(),
{
    lemma_pending(s.unbonds, height);
    if amount > 0 {
        let entry = Unbind { amount, era: (now + duration) as BlockNumber };
        let after = s.unbonds.push(entry);
        assert(after.drop_last() =~= s.unbonds);
        assert(after.last() == entry);
        assert(pending(after, height) == pending(s.unbonds, height));
    }
}

/// An election that runs seats exactly `count` oracles; without enough
/// eligible accounts the election changes nothing.
pub proof fn lemma_election_size(s: State, now: BlockNumber)
    ensures
        s.election_runs() ==> s.elect(now).oracles.len() == s.params.count,
        !s.election_runs() ==> s.elect(now) == s,
{
    if s.election_runs() {
        let ranked = s.ranking();
        lemma_rank_leq_total();
        s.eligible().lemma_sort_by_ensures(rank_leq());
        lemma_permutation(s.eligible(), ranked);
        let seats = crate::election::accounts_of(ranked.skip(ranked.len() - s.params.count));
        lemma_account_leq_total();
        seats.lemma_sort_by_ensures(account_leq());
        lemma_permutation(seats, seats.sort_by(account_leq()));
    }
}

/// After an election that runs, no account sits in the oracle set or
/// among the candidates twice, and none in both.
pub proof fn lemma_election_separates(s: State, now: BlockNumber)
    requires
        s.wf(),
        s.election_runs(),
    ensures
        s.elect(now).oracles.no_duplicates(),
        s.elect(now).candidates.no_duplicates(),
        forall|a: AccountId|
            !(s.elect(now).oracles.contains(a) && s.elect(now).candidates.contains(a)),
{
    let ranked = s.ranking();
    let split = ranked.len() - s.params.count;
    lemma_rank_leq_total();
    s.eligible().lemma_sort_by_ensures(rank_leq());
    crate::election::lemma_pool(s.stakes, Seq::empty(), s.candidates);
    crate::election::lemma_pool(
        s.stakes,
        crate::election::pool_from(s.stakes, Seq::empty(), s.candidates),
        s.oracles,
    );
    crate::election::lemma_ranked(s.stakes, s.eligible(), ranked);
    let seats = crate::election::accounts_of(ranked.skip(split));
    let rest = crate::election::accounts_of(ranked.take(split));
    let chosen = seats.sort_by(account_leq());
    lemma_account_leq_total();
    seats.lemma_sort_by_ensures(account_leq());
    lemma_permutation(seats, chosen);
    assert(seats.no_duplicates());
    assert(rest.no_duplicates());
    assert forall|a: AccountId| !(chosen.contains(a) && rest.contains(a)) by {
        if chosen.contains(a) && rest.contains(a) {
            assert(seats.contains(a));
            let u = choose|u: int| 0 <= u < seats.len() && seats[u] == a;
            let t = choose|t: int| 0 <= t < rest.len() && rest[t] == a;
            assert(ranked[split + u].1 == ranked[t].1);
        }
    }
}

/// An election that runs seats accounts that are eligible, makes the
/// other eligible accounts candidates, and seats the strongest: no
/// candidate has a higher active stake than an oracle, nor the same
/// stake and a higher account.
pub proof fn lemma_elected_are_strongest(s: State, now: BlockNumber)
    requires
        s.wf(),
        s.election_runs(),
    ensures
        forall|x: AccountId|
            (s.elect(now).oracles.contains(x) || s.elect(now).candidates.contains(x)) <==> ((
            s.candidates.contains(x) || s.oracles.contains(x)) && s.stakes[x].active > 0),
        forall|a: AccountId, b: AccountId|
            s.elect(now).oracles.contains(a) && s.elect(now).candidates.contains(b) ==> (
            s.stakes[b].active < s.stakes[a].active || (s.stakes[b].active == s.stakes[a].active
                && b <= a)),
{
    let eligible = s.eligible();
    let ranked = s.ranking();
    let split = ranked.len() - s.params.count;
    let first = crate::election::pool_from(s.stakes, Seq::empty(), s.candidates);
    lemma_rank_leq_total();
    eligible.lemma_sort_by_ensures(rank_leq());
    lemma_permutation(eligible, ranked);
    crate::election::lemma_pool(s.stakes, Seq::empty(), s.candidates);
    crate::election::lemma_pool(s.stakes, first, s.oracles);
    crate::election::lemma_pool_holds(s.stakes, Seq::empty(), s.candidates);
    crate::election::lemma_pool_holds(s.stakes, first, s.oracles);
    crate::election::lemma_ranked(s.stakes, eligible, ranked);
    let seats = crate::election::accounts_of(ranked.skip(split));
    let rest = crate::election::accounts_of(ranked.take(split));
    let chosen = seats.sort_by(account_leq());
    lemma_account_leq_total();
    seats.lemma_sort_by_ensures(account_leq());
    lemma_permutation(seats, chosen);
    assert forall|x: AccountId| (chosen.contains(x) || rest.contains(x)) <==> ((
    s.candidates.contains(x) || s.oracles.contains(x)) && s.stakes[x].active > 0) by {
        let e = (s.stakes[x].active, x);
        if chosen.contains(x) {
            assert(seats.contains(x));
            let u = choose|u: int| 0 <= u < seats.len() && seats[u] == x;
            assert(ranked[split + u] == e);
            assert(ranked.contains(e));
        }
        if rest.contains(x) {
            let t = choose|t: int| 0 <= t < rest.len() && rest[t] == x;
            assert(ranked[t] == e);
            assert(ranked.contains(e));
        }
        if ranked.contains(e) {
            let i = choose|i: int| 0 <= i < ranked.len() && ranked[i] == e;
            if i < split {
                assert(rest[i] == x);
            } else {
                assert(seats[i - split] == x);
                assert(seats.contains(x));
            }
        }
        assert(eligible.contains(e) <==> ranked.contains(e));
        assert(!Seq::<(Balance, AccountId)>::empty().contains(e));
    }
    assert forall|a: AccountId, b: AccountId| chosen.contains(a) && rest.contains(b) implies (
    s.stakes[b].active < s.stakes[a].active || (s.stakes[b].active == s.stakes[a].active && b
        <= a)) by {
        assert(seats.contains(a));
        let u = choose|u: int| 0 <= u < seats.len() && seats[u] == a;
        let t = choose|t: int| 0 <= t < rest.len() && rest[t] == b;
        assert(rank_leq()(ranked[t], ranked[split + u]));
    }
}

/// No account is an oracle and a candidate at once.
pub open spec fn sets_apart(s: State) -> bool {
    forall|a: AccountId| !(s.oracles.contains(a) && s.candidates.contains(a))
}

/// While no account is an oracle and a candidate at once, no call and
/// no finalization makes one so.
pub proof fn lemma_sets_stay_apart(s: State, who: AccountId, amount: Balance, now: BlockNumber)
    requires
        s.wf(),
        sets_apart(s),
    ensures
        s.bid(who, amount) is Ok ==> sets_apart(s.bid(who, amount).unwrap()),
        s.unbind(who, amount, now) is Ok ==> sets_apart(s.unbind(who, amount, now).unwrap()),
        sets_apart(s.slash(who, amount)),
        sets_apart(s.witnessed(who, now)),
        sets_apart(s.finalize(now)),
{
    if s.bid(who, amount) is Ok {
        let bound = s.bind(who, amount).unwrap();
        let after = bound.add_candidate(who);
        assert forall|a: AccountId| !(after.oracles.contains(a) && after.candidates.contains(
            a,
        )) by {
            if after.candidates.contains(a) && bound.is_new_candidate(who) {
                let i = choose|i: int|
                    0 <= i < after.candidates.len() && after.candidates[i] == a;
                if i < s.candidates.len() {
                    assert(s.candidates[i] == a);
                }
            }
        }
    }
    lemma_keep(s.oracles, set![who]);
    lemma_keep(s.oracles, s.expelled_set(now));
    let scanned = s.scan(now);
    assert(sets_apart(scanned));
    lemma_finalize_keeps_wf(s, now);
    if now == scanned.current_era && scanned.election_runs() {
        lemma_election_separates(scanned, now);
    }
}

/// Every call keeps the state well formed.
pub proof fn lemma_calls_keep_wf(s: State, who: AccountId, amount: Balance, now: BlockNumber)
    requires
        s.wf(),
    ensures
        s.bind(who, amount) is Ok ==> s.bind(who, amount).unwrap().wf(),
        s.bid(who, amount) is Ok ==> s.bid(who, amount).unwrap().wf(),
        s.unbind(who, amount, now) is Ok ==> s.unbind(who, amount, now).unwrap().wf(),
        s.slash(who, amount).wf(),
        s.witnessed(who, now).wf(),
{
    assert(s.stakes[who].wf());
    if s.unbind(who, amount, now) is Ok {
        lemma_unbind_keeps_total(s.stakes[who], amount, now, s.params.locked_duration);
        let after = s.unbind(who, amount, now).unwrap();
        assert forall|a: AccountId| (#[trigger] after.stakes[a]).wf() by {
            assert(s.stakes[a].wf());
        }
    }
    if s.bind(who, amount) is Ok {
        let after = s.bind(who, amount).unwrap();
        assert forall|a: AccountId| (#[trigger] after.stakes[a]).wf() by {
            assert(s.stakes[a].wf());
        }
        let bid = s.bid(who, amount).unwrap();
        assert(bid.stakes == after.stakes);
    }
    let slashed = s.slash(who, amount);
    lemma_keep(s.oracles, set![who]);
    assert forall|a: AccountId| (#[trigger] slashed.stakes[a]).wf() by {
        assert(s.stakes[a].wf());
    }
    let seen = s.witnessed(who, now);
    assert forall|a: AccountId| (#[trigger] seen.stakes[a]).wf() by {
        assert(s.stakes[a].wf());
    }
}

/// The finalization of a block keeps the state well formed: every ledger
/// stays well formed, and the oracle set never holds more than `count`
/// accounts nor one of them twice.
pub proof fn lemma_finalize_keeps_wf(s: State, now: BlockNumber)
    requires
        s.wf(),
    ensures
        s.scan(now).wf(),
        s.scan(now).elect(now).wf(),
        s.settled(now).wf(),
        s.finalize(now).wf(),
{
    let scanned = s.scan(now);
    lemma_keep(s.oracles, s.expelled_set(now));
    assert(scanned.wf()) by {
        assert forall|a: AccountId| (#[trigger] scanned.stakes[a]).wf() by {
            assert(s.stakes[a].wf());
        }
    }
    let elected = scanned.elect(now);
    if scanned.election_runs() {
        lemma_election_size(scanned, now);
        lemma_election_separates(scanned, now);
        assert forall|a: AccountId| (#[trigger] elected.stakes[a]).wf() by {
            assert(scanned.stakes[a].wf());
        }
    }
    let settled = s.settled(now);
    assert(settled.wf());
    let done = settled.release(now);
    assert forall|a: AccountId| (#[trigger] done.stakes[a]).wf() by {
        assert(settled.stakes[a].wf());
        lemma_pending(settled.stakes[a].unbonds, now);
    }
}

/// An oracle that comes in by the election at height `now` counts as
/// having reported at `now`, so that no liveness scan within the next
/// `report_interval` blocks slashes it.
pub proof fn lemma_grace_period(s: State, now: BlockNumber, who: AccountId, height: BlockNumber)
    requires
        s.wf(),
        s.election_runs(),
        s.incoming().contains(who),
        now <= height <= now + s.params.report_interval,
    ensures
        s.elect(now).stakes[who].witness == now,
        s.elect(now).stakes[who].live(height, s.params.report_interval),
        s.elect(now).stakes[who].scan(height, s.params).active == s.stakes[who].active,
{
}

/// The median depends on the prices only, not on their order.
pub proof fn lemma_median_ignores_order(a: Seq<Price>, b: Seq<Price>)
    requires
        a.to_multiset() == b.to_multiset(),
    ensures
        median_of(a) == median_of(b),
{
    lemma_amount_leq_total();
    a.lemma_sort_by_ensures(amount_leq());
    lemma_sorted_form(a.sort_by(amount_leq()), b, amount_leq());
}

/// A reporter whose last report is more than `interval` blocks old at
/// a finalization has no report left after it, so that the median of
/// the next finalization is taken without it.
pub proof fn lemma_stale_report_dropped<M: OracleMixedIn>(
    s: Seq<PriceReport>,
    oracle: &M,
    now: BlockNumber,
    who: AccountId,
)
    requires
        oracle.witness_of(who) + oracle.interval() < now,
    ensures
        !reported(retained(s, oracle, now), who),
{
    lemma_retained(s, oracle, now);
}

/// A slash by more than the active stake takes all of it and the seat
/// among the oracles; a slash by less takes exactly that amount and
/// leaves the oracle set alone.
pub proof fn lemma_slash(s: State, who: AccountId, amount: Balance)
    requires
        s.wf(),
    ensures
        amount > s.stakes[who].active ==> !s.slash(who, amount).oracles.contains(who) && s.slash(
            who,
            amount,
        ).stakes[who].active == 0,
        amount <= s.stakes[who].active ==> s.slash(who, amount).oracles == s.oracles && s.slash(
            who,
            amount,
        ).stakes[who].active == s.stakes[who].active - amount,
        forall|a: AccountId|
            a != who ==> (s.slash(who, amount).oracles.contains(a) <==> s.oracles.contains(a)),
{
    let banned: Set<AccountId> = set![who];
    lemma_keep(s.oracles, banned);
    assert(banned.contains(who));
    assert(!keep(s.oracles, banned).contains(who));
    assert forall|a: AccountId| a != who implies (keep(s.oracles, banned).contains(a)
        <==> s.oracles.contains(a)) by {
        assert(!banned.contains(a));
    }
}

/// A slash by the liveness scan comes exactly to those oracles whose
/// last report is more than `report_interval` blocks old.
pub proof fn lemma_scan_slashes_late(s: Stake, now: BlockNumber, params: Params)
    ensures
        now > s.witness + params.report_interval ==> s.scan(now, params) == s.slash(
            params.miss_report_slash,
        ),
        now <= s.witness + params.report_interval ==> s.scan(now, params).active == s.active,
{
}

} // verus!
