use vstd::prelude::*;
use crate::types::{Balance, BlockNumber};

verus! {

/// Funds on their way out: `amount` becomes free once the chain has reached
/// height `era`.
#[derive(Clone, Copy, PartialEq, Eq, Debug)]
pub struct Unbind {
    pub amount: Balance,
    pub era: BlockNumber,
}

/// The stake of one account: what is bonded now, and what is waiting to be
/// released, oldest request first.
#[derive(Clone, PartialEq, Eq, Debug)]
pub struct Ledger {
    pub active: Balance,
    pub unbonds: Vec<Unbind>,
}

/// Sum of the amounts of the entries.
pub open spec fn unbonding(s: Seq<Unbind>) -> nat
    decreases s.len(),
{
    if s.len() == 0 {
        0
    } else {
        unbonding(s.drop_last()) + s.last().amount as nat
    }
}

/// The entries that have not matured at height `now`, in their order.
pub open spec fn pending(s: Seq<Unbind>, now: BlockNumber) -> Seq<Unbind>
    decreases s.len(),
{
    if s.len() == 0 {
        s
    } else if s.last().era <= now {
        pending(s.drop_last(), now)
    } else {
        pending(s.drop_last(), now).push(s.last())
    }
}

/// Every entry holds something.
pub open spec fn all_positive(s: Seq<Unbind>) -> bool {
    forall|i: int| 0 <= i < s.len() ==> (#[trigger] s[i]).amount > 0
}

/// A prefix sums to no more than the whole.
pub proof fn lemma_unbonding_prefix(s: Seq<Unbind>, k: int)
    requires
        0 <= k <= s.len(),
    ensures
        unbonding(s.take(k)) <= unbonding(s),
    decreases s.len() - k,
{
    if k == s.len() {
        assert(s.take(k) =~= s);
    } else {
        lemma_unbonding_prefix(s, k + 1);
        assert(s.take(k + 1).drop_last() =~= s.take(k));
    }
}

/// What is still pending sums to no more than the whole, is made of
/// entries of the whole, and is shorter exactly if something matured.
pub proof fn lemma_pending(s: Seq<Unbind>, now: BlockNumber)
    ensures
        unbonding(pending(s, now)) <= unbonding(s),
        pending(s, now).len() <= s.len(),
        all_positive(s) ==> all_positive(pending(s, now)),
        all_positive(s) && pending(s, now).len() < s.len() ==> unbonding(pending(s, now))
            < unbonding(s),
        pending(s, now).len() == s.len() ==> pending(s, now) == s,
        forall|i: int| 0 <= i < pending(s, now).len() ==> (#[trigger] pending(s, now)[i]).era > now,
    decreases s.len(),
{
    if s.len() > 0 {
        lemma_pending(s.drop_last(), now);
        assert(all_positive(s) ==> all_positive(s.drop_last()));
        let rest = pending(s.drop_last(), now);
        assert(rest.push(s.last()).drop_last() =~= rest);
        assert(s.last().era > now && pending(s.drop_last(), now) == s.drop_last() ==> pending(
            s,
            now,
        ) =~= s);
    }
}

impl Ledger {
    /// Bonded plus unbonding: what the currency service has to keep locked.
    pub open spec fn total(&self) -> nat {
        self.active as nat + unbonding(self.unbonds@)
    }

    /// No empty unbond entry, and the total is an amount.
    pub open spec fn wf(&self) -> bool {
        &&& all_positive(self.unbonds@)
        &&& self.total() <= u128::MAX
    }

    /// The sum of the unbonding amounts.
    pub fn unbonding_total(&self) -> (sum: Balance)
        requires
            self.wf(),
        ensures
            sum == unbonding(self.unbonds@),
    {
        let mut sum: Balance = 0;
        let mut i: usize = 0;
        while i < self.unbonds.len()
            invariant
                0 <= i <= self.unbonds@.len(),
                sum == unbonding(self.unbonds@.take(i as int)),
                unbonding(self.unbonds@) <= u128::MAX,
            decreases self.unbonds@.len() - i,
        {
            proof {
                lemma_unbonding_prefix(self.unbonds@, i + 1);
                assert(self.unbonds@.take(i + 1).drop_last() =~= self.unbonds@.take(i as int));
            }
            sum = sum + self.unbonds[i].amount;
            i = i + 1;
        }
        proof {
            assert(self.unbonds@.take(i as int) =~= self.unbonds@);
        }
        sum
    }

    /// Drops the entries that have matured at height `now` and returns the
    /// sum of their amounts, which is what becomes free.
    pub fn release(&mut self, now: BlockNumber) -> (freed: Balance)
        requires
            old(self).wf(),
        ensures
            final(self).wf(),
            final(self).active == old(self).active,
            final(self).unbonds@ == pending(old(self).unbonds@, now),
            freed == unbonding(old(self).unbonds@) - unbonding(pending(old(self).unbonds@, now)),
            freed > 0 <==> final(self).unbonds@.len() < old(self).unbonds@.len(),
    {
        let mut kept: Vec<Unbind> = Vec::new();
        let mut freed: Balance = 0;
        let mut i: usize = 0;
        while i < self.unbonds.len()
            invariant
                0 <= i <= self.unbonds@.len(),
                kept@ == pending(self.unbonds@.take(i as int), now),
                freed + unbonding(kept@) == unbonding(self.unbonds@.take(i as int)),
                unbonding(self.unbonds@) <= u128::MAX,
            decreases self.unbonds@.len() - i,
        {
            proof {
                lemma_unbonding_prefix(self.unbonds@, i + 1);
                assert(self.unbonds@.take(i + 1).drop_last() =~= self.unbonds@.take(i as int));
            }
            let entry = self.unbonds[i];
            if entry.era <= now {
                freed = freed + entry.amount;
            } else {
                proof {
                    assert(kept@.push(entry).drop_last() =~= kept@);
                }
                kept.push(entry);
            }
            i = i + 1;
        }
        proof {
            assert(self.unbonds@.take(i as int) =~= self.unbonds@);
            lemma_pending(self.unbonds@, now);
        }
        self.unbonds = kept;
        freed
    }
}

impl Default for Ledger {
    /// Nothing bonded, nothing unbonding.
    fn default() -> (ledger: Ledger)
        ensures
            ledger.active == 0,
            ledger.unbonds@ == Seq::<Unbind>::empty(),
            ledger.wf(),
    {
        Ledger { active: 0, unbonds: Vec::new() }
    }
}

} // verus!
