use vstd::prelude::*;
use crate::sorting::{amount_leq, lemma_amount_leq_total, sort_amounts};
use crate::types::{AccountId, BlockNumber, Effect, Error, Origin, Price};
use crate::witness::OracleMixedIn;

verus! {

/// The sum of the prices.
pub open spec fn sum_of(prices: Seq<Price>) -> nat
    decreases prices.len(),
{
    if prices.len() == 0 {
        0
    } else {
        sum_of(prices.drop_last()) + prices.last() as nat
    }
}

/// The mean of a non-empty list of prices, with the fraction cut off.
pub open spec fn mean_of(prices: Seq<Price>) -> nat {
    sum_of(prices) / prices.len()
}

/// The median of a non-empty list of prices: the middle one in ascending
/// order, or, for an even number of them, the mean of the two in the
/// middle with the fraction cut off.
pub open spec fn median_of(prices: Seq<Price>) -> Price {
    let sorted = prices.sort_by(amount_leq());
    let mid = (sorted.len() / 2) as int;
    if sorted.len() % 2 == 0 {
        ((sorted[mid - 1] + sorted[mid]) / 2) as Price
    } else {
        sorted[mid]
    }
}

/// A factor can be cancelled on both sides of `<=`.
proof fn lemma_cancel(a: nat, limit: nat, n: nat)
    requires
        n > 0,
        a * n <= limit * n,
    ensures
        a <= limit,
{
    assert(a <= limit) by (nonlinear_arith)
        requires
            n > 0,
            a * n <= limit * n,
    ;
}

/// A sum of `k` prices is at most `k` times the largest price there is.
proof fn lemma_sum_bound(prices: Seq<Price>)
    ensures
        sum_of(prices) <= prices.len() * u128::MAX,
    decreases prices.len(),
{
    if prices.len() > 0 {
        lemma_sum_bound(prices.drop_last());
        assert((prices.len() - 1) * u128::MAX + u128::MAX == prices.len() * u128::MAX)
            by (nonlinear_arith);
    }
}

/// The mean of the prices, with the fraction cut off. The sum is never
/// formed, so no list of prices overflows.
pub fn mean(numbers: &Vec<Price>) -> (m: Price)
    requires
        numbers@.len() > 0,
    ensures
        m == mean_of(numbers@),
{
    let n: u128 = numbers.len() as u128;
    let mut q: u128 = 0;
    let mut r: u128 = 0;
    let mut i: usize = 0;
    while i < numbers.len()
        invariant
            0 <= i <= numbers@.len(),
            n == numbers@.len(),
            n > 0,
            r < n,
            q * n + r == sum_of(numbers@.take(i as int)),
        decreases numbers@.len() - i,
    {
        let x: u128 = numbers[i];
        let qx: u128 = x / n;
        let rx: u128 = x % n;
        let t: u128 = r + rx;
        let carry: u128 = if t >= n {
            1
        } else {
            0
        };
        proof {
            let long = numbers@.take(i + 1);
            assert(long.drop_last() =~= numbers@.take(i as int));
            assert(long.last() == x);
            lemma_sum_bound(long);
            vstd::arithmetic::div_mod::lemma_fundamental_div_mod(x as int, n as int);
            assert(n * qx == qx * n) by (nonlinear_arith);
            assert(carry * n == if t >= n {
                n as int
            } else {
                0
            }) by (nonlinear_arith)
                requires
                    carry == if t >= n {
                        1nat
                    } else {
                        0nat
                    },
            ;
            assert((q + qx + carry) * n == q * n + qx * n + carry * n) by (nonlinear_arith);
            assert((i + 1) * u128::MAX <= u128::MAX * n) by (nonlinear_arith)
                requires
                    i + 1 <= n,
            ;
            lemma_cancel((q + qx + carry) as nat, u128::MAX as nat, n as nat);
        }
        q = q + qx + carry;
        r = t - carry * n;
        i = i + 1;
    }
    proof {
        assert(numbers@.take(i as int) =~= numbers@);
        vstd::arithmetic::div_mod::lemma_fundamental_div_mod_converse(
            sum_of(numbers@) as int,
            n as int,
            q as int,
            r as int,
        );
    }
    q
}

/// Sorts the prices and returns their median.
pub fn median(numbers: &mut Vec<Price>) -> (m: Price)
    requires
        old(numbers)@.len() > 0,
    ensures
        m == median_of(old(numbers)@),
        final(numbers)@ == old(numbers)@.sort_by(amount_leq()),
{
    sort_amounts(numbers);
    proof {
        lemma_amount_leq_total();
        old(numbers)@.lemma_sort_by_ensures(amount_leq());
        vstd::seq_lib::lemma_sorted_unique(
            numbers@,
            old(numbers)@.sort_by(amount_leq()),
            amount_leq(),
        );
        vstd::seq_lib::to_multiset_len(numbers@);
        vstd::seq_lib::to_multiset_len(old(numbers)@);
    }
    let mid: usize = numbers.len() / 2;
    if numbers.len() % 2 == 0 {
        let middle: Vec<Price> = vec![numbers[mid - 1], numbers[mid]];
        proof {
            assert(middle@.drop_last() =~= seq![numbers@[mid - 1]]);
            assert(middle@.drop_last().drop_last() =~= Seq::<Price>::empty());
            assert(sum_of(middle@) == numbers@[mid - 1] + numbers@[mid as int]) by {
                reveal_with_fuel(sum_of, 3);
            }
        }
        mean(&middle)
    } else {
        numbers[mid]
    }
}

/// The price that one reporter last submitted.
#[derive(Clone, Copy, PartialEq, Eq, Debug)]
pub struct PriceReport {
    pub reporter: AccountId,
    pub price: Price,
}

/// Whether the list holds a report of `who`.
pub open spec fn reported(s: Seq<PriceReport>, who: AccountId) -> bool {
    exists|i: int| 0 <= i < s.len() && s[i].reporter == who
}

/// The list after `who` has submitted `price`: its report is replaced
/// where it stands, or added at the end if it had none.
pub open spec fn upsert(s: Seq<PriceReport>, who: AccountId, price: Price) -> Seq<PriceReport> {
    if reported(s, who) {
        Seq::new(
            s.len(),
            |i: int|
                if s[i].reporter == who {
                    PriceReport { reporter: who, price }
                } else {
                    s[i]
                },
        )
    } else {
        s.push(PriceReport { reporter: who, price })
    }
}

/// The prices of the reports, in their order.
pub open spec fn prices_of(s: Seq<PriceReport>) -> Seq<Price> {
    Seq::new(s.len(), |i: int| s[i].price)
}

/// No reporter has two reports.
pub open spec fn one_each(s: Seq<PriceReport>) -> bool {
    forall|i: int, j: int| 0 <= i < j < s.len() ==> s[i].reporter != s[j].reporter
}

/// The reports whose reporter is valid at height `now`, in their order.
pub open spec fn retained<M: OracleMixedIn>(s: Seq<PriceReport>, oracle: &M, now: BlockNumber) -> Seq<
    PriceReport,
>
    decreases s.len(),
{
    if s.len() == 0 {
        s
    } else if oracle.witness_of(s.last().reporter) + oracle.interval() >= now {
        retained(s.drop_last(), oracle, now).push(s.last())
    } else {
        retained(s.drop_last(), oracle, now)
    }
}

/// What is retained are reports of the list whose reporters are valid,
/// and no reporter gets a second report by it.
pub proof fn lemma_retained<M: OracleMixedIn>(s: Seq<PriceReport>, oracle: &M, now: BlockNumber)
    ensures
        forall|k: int|
            0 <= k < retained(s, oracle, now).len() ==> s.contains(
                #[trigger] retained(s, oracle, now)[k],
            ) && oracle.witness_of(retained(s, oracle, now)[k].reporter) + oracle.interval()
                >= now,
        one_each(s) ==> one_each(retained(s, oracle, now)),
    decreases s.len(),
{
    if s.len() > 0 {
        let front = s.drop_last();
        let kept = retained(front, oracle, now);
        lemma_retained(front, oracle, now);
        assert forall|k: int| 0 <= k < kept.len() implies s.contains(#[trigger] kept[k]) by {
            assert(front.contains(kept[k]));
            let j = choose|j: int| 0 <= j < front.len() && front[j] == kept[k];
            assert(s[j] == kept[k]);
        }
        assert(s[s.len() - 1] == s.last());
        if one_each(s) {
            assert(one_each(front));
            assert forall|k: int| 0 <= k < kept.len() implies kept[k].reporter
                != s.last().reporter by {
                assert(front.contains(kept[k]));
                let j = choose|j: int| 0 <= j < front.len() && front[j] == kept[k];
                assert(s[j].reporter != s[s.len() - 1].reporter);
            }
        }
    }
}

/// The price aggregation: the pending reports and the current price.
pub struct Module {
    pub current_price: Price,
    pub price_reports: Vec<PriceReport>,
}

impl Module {
    /// At most one report per reporter.
    pub open spec fn wf(&self) -> bool {
        one_each(self.price_reports@)
    }

    /// An aggregation without reports whose price is `current_price`.
    pub fn new(current_price: Price) -> (module: Module)
        ensures
            module.wf(),
            module.current_price == current_price,
            module.price_reports@ == Seq::<PriceReport>::empty(),
    {
        Module { current_price, price_reports: Vec::new() }
    }

    /// Takes the report of `who`, replacing its earlier one if there is
    /// one, and has the staking side record that `who` reported at
    /// height `now`.
    pub fn add_price<M: OracleMixedIn>(
        &mut self,
        oracle: &mut M,
        who: AccountId,
        price: Price,
        now: BlockNumber,
    ) -> (effects: Vec<Effect>)
        requires
            old(self).wf(),
            old(oracle).ready(),
        ensures
            final(self).wf(),
            final(self).price_reports@ == upsert(old(self).price_reports@, who, price),
            final(self).current_price == old(self).current_price,
            final(oracle).ready(),
            final(oracle).interval() == old(oracle).interval(),
            final(oracle).witness_of(who) == now,
            forall|a: AccountId|
                a != who ==> final(oracle).witness_of(a) == old(oracle).witness_of(a),
            effects@ == seq![Effect::PriceReported(who, price)],
    {
        let mut found = false;
        let mut i: usize = 0;
        while i < self.price_reports.len()
            invariant
                0 <= i <= self.price_reports@.len(),
                self.price_reports@.len() == old(self).price_reports@.len(),
                self.current_price == old(self).current_price,
                found == reported(old(self).price_reports@.take(i as int), who),
                forall|t: int|
                    0 <= t < i ==> self.price_reports@[t] == if old(
                        self,
                    ).price_reports@[t].reporter == who {
                        PriceReport { reporter: who, price }
                    } else {
                        old(self).price_reports@[t]
                    },
                forall|t: int|
                    i <= t < self.price_reports@.len() ==> self.price_reports@[t] == old(
                        self,
                    ).price_reports@[t],
            decreases self.price_reports@.len() - i,
        {
            let ghost all = old(self).price_reports@;
            proof {
                let short = all.take(i as int);
                let long = all.take(i + 1);
                if reported(short, who) {
                    let t = choose|t: int| 0 <= t < short.len() && short[t].reporter == who;
                    assert(long[t].reporter == who);
                }
                if reported(long, who) {
                    let t = choose|t: int| 0 <= t < long.len() && long[t].reporter == who;
                    if t < i {
                        assert(short[t].reporter == who);
                    }
                }
                assert(long[i as int] == all[i as int]);
            }
            if self.price_reports[i].reporter == who {
                self.price_reports[i].price = price;
                found = true;
            }
            i = i + 1;
        }
        proof {
            assert(old(self).price_reports@.take(i as int) =~= old(self).price_reports@);
        }
        if !found {
            self.price_reports.push(PriceReport { reporter: who, price });
            proof {
                let all = old(self).price_reports@;
                assert forall|t: int| 0 <= t < all.len() implies all[t].reporter != who by {
                    if all[t].reporter == who {
                        assert(reported(all, who));
                    }
                }
            }
        }
        proof {
            assert(self.price_reports@ =~= upsert(old(self).price_reports@, who, price));
        }
        oracle.on_witnessed(who, now);
        vec![Effect::PriceReported(who, price)]
    }

    /// A report of `price` at height `now`. Rejected with `BadOrigin`
    /// unless the origin stands for a reporter.
    pub fn report<M: OracleMixedIn>(
        &mut self,
        oracle: &mut M,
        origin: Origin,
        price: Price,
        now: BlockNumber,
    ) -> (r: Result<Vec<Effect>, Error>)
        requires
            old(self).wf(),
            old(oracle).ready(),
        ensures
            final(self).wf(),
            final(oracle).ready(),
            final(oracle).interval() == old(oracle).interval(),
            final(self).current_price == old(self).current_price,
            match origin.reporter() {
                None => {
                    &&& r == Err::<Vec<Effect>, Error>(Error::BadOrigin)
                    &&& *final(self) == *old(self)
                    &&& *final(oracle) == *old(oracle)
                },
                Some(who) => {
                    &&& r is Ok
                    &&& r.unwrap()@ == seq![Effect::PriceReported(who, price)]
                    &&& final(self).price_reports@ == upsert(old(self).price_reports@, who, price)
                    &&& final(oracle).witness_of(who) == now
                    &&& forall|a: AccountId|
                        a != who ==> final(oracle).witness_of(a) == old(oracle).witness_of(a)
                },
            },
    {
        match origin.ensure_reporter() {
            Ok(who) => Ok(self.add_price(oracle, who, price, now)),
            Err(e) => Err(e),
        }
    }

    /// The price after a finalization: the median of the reports if
    /// there is any report, else the price as it was.
    pub open spec fn settled_price(&self) -> Price {
        if self.price_reports@.len() == 0 {
            self.current_price
        } else {
            median_of(prices_of(self.price_reports@))
        }
    }

    /// The finalization of block `block_number`: the current price
    /// becomes the median of all reports held, and then the reports of
    /// reporters that are no longer valid are dropped. Without any
    /// report the price stays.
    pub fn on_finalize<M: OracleMixedIn>(&mut self, oracle: &M, block_number: BlockNumber) -> (effects:
        Vec<Effect>)
        requires
            old(self).wf(),
            oracle.ready(),
        ensures
            final(self).wf(),
            final(self).current_price == old(self).settled_price(),
            effects@ == if old(self).settled_price() != old(self).current_price {
                seq![Effect::PriceChanged(old(self).settled_price())]
            } else {
                Seq::<Effect>::empty()
            },
            final(self).price_reports@ == retained(
                old(self).price_reports@,
                oracle,
                block_number,
            ),
            forall|k: int|
                0 <= k < final(self).price_reports@.len() ==> oracle.witness_of(
                    (#[trigger] final(self).price_reports@[k]).reporter,
                ) + oracle.interval() >= block_number,
    {
        let mut effects: Vec<Effect> = Vec::new();
        let mut prices: Vec<Price> = Vec::new();
        let mut i: usize = 0;
        while i < self.price_reports.len()
            invariant
                0 <= i <= self.price_reports@.len(),
                *self == *old(self),
                prices@.len() == i,
                forall|t: int| 0 <= t < i ==> prices@[t] == self.price_reports@[t].price,
            decreases self.price_reports@.len() - i,
        {
            prices.push(self.price_reports[i].price);
            i = i + 1;
        }
        proof {
            assert(prices@ =~= prices_of(self.price_reports@));
        }
        if prices.len() > 0 {
            let median_price = median(&mut prices);
            if self.current_price != median_price {
                self.current_price = median_price;
                effects.push(Effect::PriceChanged(median_price));
            }
        }
        let mut kept: Vec<PriceReport> = Vec::new();
        let mut k: usize = 0;
        while k < self.price_reports.len()
            invariant
                0 <= k <= self.price_reports@.len(),
                oracle.ready(),
                self.price_reports == old(self).price_reports,
                self.current_price == old(self).settled_price(),
                kept@ == retained(self.price_reports@.take(k as int), oracle, block_number),
            decreases self.price_reports@.len() - k,
        {
            proof {
                assert(self.price_reports@.take(k + 1).drop_last() =~= self.price_reports@.take(
                    k as int,
                ));
            }
            if oracle.is_valid(self.price_reports[k].reporter, block_number) {
                kept.push(self.price_reports[k]);
            }
            k = k + 1;
        }
        proof {
            assert(self.price_reports@.take(k as int) =~= self.price_reports@);
            lemma_retained(self.price_reports@, oracle, block_number);
        }
        self.price_reports = kept;
        effects
    }
}

} // verus!
