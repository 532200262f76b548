use vstd::prelude::*;
use vstd::relations::sorted_by;

verus! {

/// `<=` on amounts and prices.
pub open spec fn amount_leq() -> spec_fn(u128, u128) -> bool {
    |a: u128, b: u128| a <= b
}

/// `<=` on account identities.
pub open spec fn account_leq() -> spec_fn(u64, u64) -> bool {
    |a: u64, b: u64| a <= b
}

/// Order of (stake, account) pairs: by stake, and by account among equal stakes.
pub open spec fn rank_leq() -> spec_fn((u128, u64), (u128, u64)) -> bool {
    |a: (u128, u64), b: (u128, u64)| a.0 < b.0 || (a.0 == b.0 && a.1 <= b.1)
}

/// Calls `sort` of std's slices on a vector of `u128`. Trusted: afterwards
/// the vector is in ascending order and holds the same values as before,
/// each as often as before.
#[verifier::external_body]
pub(crate) fn sort_amounts(v: &mut Vec<u128>)
    ensures
        sorted_by(final(v)@, amount_leq()),
        final(v)@.to_multiset() == old(v)@.to_multiset(),
{
    v.sort();
}

/// Calls `sort` of std's slices on a vector of `u64`. Trusted: afterwards
/// the vector is in ascending order and holds the same values as before,
/// each as often as before.
#[verifier::external_body]
pub(crate) fn sort_accounts(v: &mut Vec<u64>)
    ensures
        sorted_by(final(v)@, account_leq()),
        final(v)@.to_multiset() == old(v)@.to_multiset(),
{
    v.sort();
}

/// Calls `sort` of std's slices on a vector of pairs. Trusted: afterwards
/// the vector is in ascending lexicographic order (std's order of tuples)
/// and holds the same pairs as before, each as often as before.
#[verifier::external_body]
pub(crate) fn sort_ranks(v: &mut Vec<(u128, u64)>)
    ensures
        sorted_by(final(v)@, rank_leq()),
        final(v)@.to_multiset() == old(v)@.to_multiset(),
{
    v.sort();
}

/// `<=` on amounts is a total order.
pub proof fn lemma_amount_leq_total()
    ensures
        vstd::relations::total_ordering(amount_leq()),
{
}

/// `<=` on accounts is a total order.
pub proof fn lemma_account_leq_total()
    ensures
        vstd::relations::total_ordering(account_leq()),
{
}

/// The order of ranks is a total order.
pub proof fn lemma_rank_leq_total()
    ensures
        vstd::relations::total_ordering(rank_leq()),
{
}

/// A sorted sequence with the elements of `s` is the sorted form of `s`.
pub proof fn lemma_sorted_form<A>(sorted: Seq<A>, s: Seq<A>, leq: spec_fn(A, A) -> bool)
    requires
        vstd::relations::total_ordering(leq),
        sorted_by(sorted, leq),
        sorted.to_multiset() == s.to_multiset(),
    ensures
        sorted == s.sort_by(leq),
{
    s.lemma_sort_by_ensures(leq);
    vstd::seq_lib::lemma_sorted_unique(sorted, s.sort_by(leq), leq);
}

/// Two sequences with the same elements, each as often in the one as in
/// the other, are equally long, hold the same values, and the one
/// repeats nothing if the other repeats nothing.
pub proof fn lemma_permutation<A>(a: Seq<A>, b: Seq<A>)
    requires
        a.to_multiset() == b.to_multiset(),
    ensures
        a.len() == b.len(),
        forall|x: A| a.contains(x) <==> b.contains(x),
        a.no_duplicates() ==> b.no_duplicates(),
{
    vstd::seq_lib::to_multiset_len(a);
    vstd::seq_lib::to_multiset_len(b);
    assert forall|x: A| a.contains(x) <==> b.contains(x) by {
        vstd::seq_lib::to_multiset_contains(a, x);
        vstd::seq_lib::to_multiset_contains(b, x);
    }
    if a.no_duplicates() {
        a.lemma_multiset_has_no_duplicates();
        b.lemma_multiset_has_no_duplicates_conv();
    }
}

} // verus!
