use vstd::prelude::*;
use crate::types::AccountId;

verus! {

/// The elements of `s` that are not in `banned`, in their order.
pub open spec fn keep(s: Seq<AccountId>, banned: Set<AccountId>) -> Seq<AccountId>
    decreases s.len(),
{
    if s.len() == 0 {
        s
    } else if banned.contains(s.last()) {
        keep(s.drop_last(), banned)
    } else {
        keep(s.drop_last(), banned).push(s.last())
    }
}

/// `keep` returns exactly the elements that are not banned, and repeats
/// nothing that the sequence does not repeat.
pub proof fn lemma_keep(s: Seq<AccountId>, banned: Set<AccountId>)
    ensures
        keep(s, banned).len() <= s.len(),
        forall|a: AccountId|
            keep(s, banned).contains(a) <==> (s.contains(a) && !banned.contains(a)),
        s.no_duplicates() ==> keep(s, banned).no_duplicates(),
    decreases s.len(),
{
    if s.len() > 0 {
        let front = s.drop_last();
        lemma_keep(front, banned);
        let k = keep(front, banned);
        assert(s =~= front.push(s.last()));
        assert forall|a: AccountId|
            keep(s, banned).contains(a) <==> (s.contains(a) && !banned.contains(a)) by {
            if s.contains(a) {
                let i = choose|i: int| 0 <= i < s.len() && s[i] == a;
                if i < front.len() {
                    assert(front[i] == a);
                }
            }
            if front.contains(a) {
                let i = choose|i: int| 0 <= i < front.len() && front[i] == a;
                assert(s[i] == a);
            }
            if !banned.contains(s.last()) {
                assert(k.push(s.last())[k.len() as int] == s.last());
                if k.contains(a) {
                    let i = choose|i: int| 0 <= i < k.len() && k[i] == a;
                    assert(k.push(s.last())[i] == a);
                }
            }
        }
        if s.no_duplicates() {
            assert(front.no_duplicates());
            assert(!front.contains(s.last()));
        }
    }
}

/// One more element of a sequence: what the longer prefix holds.
pub proof fn lemma_take_step(s: Seq<AccountId>, i: int)
    requires
        0 <= i < s.len(),
    ensures
        s.take(i + 1).drop_last() == s.take(i),
        s.take(i + 1).last() == s[i],
        forall|a: AccountId| s.take(i + 1).contains(a) <==> (s.take(i).contains(a) || a == s[i]),
        s.no_duplicates() ==> !s.take(i).contains(s[i]),
{
    let long = s.take(i + 1);
    let short = s.take(i);
    assert(long.drop_last() =~= short);
    assert forall|a: AccountId| long.contains(a) <==> (short.contains(a) || a == s[i]) by {
        if long.contains(a) {
            let k = choose|k: int| 0 <= k < long.len() && long[k] == a;
            if k < i {
                assert(short[k] == a);
            }
        }
        if short.contains(a) {
            let k = choose|k: int| 0 <= k < short.len() && short[k] == a;
            assert(long[k] == a);
        }
        assert(long[i] == s[i]);
    }
    if s.no_duplicates() && short.contains(s[i]) {
        let k = choose|k: int| 0 <= k < short.len() && short[k] == s[i];
        assert(s[k] == s[i]);
    }
}

/// Whether `x` occurs in `v`.
pub fn contains_account(v: &Vec<AccountId>, x: AccountId) -> (found: bool)
    ensures
        found == v@.contains(x),
{
    let mut i: usize = 0;
    while i < v.len()
        invariant
            0 <= i <= v@.len(),
            forall|k: int| 0 <= k < i ==> v@[k] != x,
        decreases v@.len() - i,
    {
        if v[i] == x {
            return true;
        }
        i = i + 1;
    }
    false
}

/// The elements of `a` that do not occur in `b`, in their order.
pub fn difference(a: &Vec<AccountId>, b: &Vec<AccountId>) -> (d: Vec<AccountId>)
    ensures
        d@ == keep(a@, b@.to_set()),
{
    let mut d: Vec<AccountId> = Vec::new();
    let mut i: usize = 0;
    while i < a.len()
        invariant
            0 <= i <= a@.len(),
            d@ == keep(a@.take(i as int), b@.to_set()),
        decreases a@.len() - i,
    {
        proof {
            lemma_take_step(a@, i as int);
        }
        if !contains_account(b, a[i]) {
            d.push(a[i]);
        }
        i = i + 1;
    }
    proof {
        assert(a@.take(i as int) =~= a@);
    }
    d
}

/// A copy of the list.
pub fn copy_accounts(a: &Vec<AccountId>) -> (c: Vec<AccountId>)
    ensures
        c@ == a@,
{
    let mut c: Vec<AccountId> = Vec::new();
    let mut i: usize = 0;
    while i < a.len()
        invariant
            0 <= i <= a@.len(),
            c@ == a@.take(i as int),
        decreases a@.len() - i,
    {
        c.push(a[i]);
        proof {
            assert(a@.take(i + 1) =~= a@.take(i as int).push(a@[i as int]));
        }
        i = i + 1;
    }
    proof {
        assert(a@.take(i as int) =~= a@);
    }
    c
}

} // verus!
