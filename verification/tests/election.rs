use oracle::lists::{contains_account, copy_accounts, difference};
use oracle::oracle::Module;
use oracle::types::{Effect, Origin, Params};
use oracle::witness::OracleMixedIn;

fn params(count: u16) -> Params {
    Params {
        oracle_fee: 10,
        miss_report_slash: 20,
        min_staking: 100,
        count,
        report_interval: 50,
        election_era: 100,
        locked_duration: 30,
    }
}

fn with_bids(count: u16, bids: &[(u64, u128)]) -> Module {
    let mut module = Module::new(params(count), 100);
    for (who, amount) in bids {
        module.bid(Origin::Signed(*who), *amount).unwrap();
    }
    module
}

#[test]
fn election_seats_the_strongest() {
    let mut module = with_bids(2, &[(1, 100), (2, 300), (3, 200)]);
    let change = module.elect_oracles(100).unwrap();
    assert_eq!(module.oracles, vec![2, 3]);
    assert_eq!(module.candidates, vec![1]);
    assert_eq!(change.incoming, vec![2, 3]);
    assert_eq!(change.outgoing, Vec::<u64>::new());
    assert_eq!(change.members, vec![2, 3]);
}

#[test]
fn election_orders_the_set_by_account() {
    let mut module = with_bids(3, &[(9, 100), (5, 400), (7, 300), (1, 200), (3, 500)]);
    module.elect_oracles(100).unwrap();
    assert_eq!(module.oracles, vec![3, 5, 7]);
    assert_eq!(module.candidates, vec![9, 1]);
}

#[test]
fn equal_stakes_are_ranked_by_account() {
    let mut module = with_bids(2, &[(3, 100), (1, 100), (2, 100)]);
    module.elect_oracles(100).unwrap();
    assert_eq!(module.oracles, vec![2, 3]);
    assert_eq!(module.candidates, vec![1]);
}

#[test]
fn election_needs_a_full_set() {
    let mut module = with_bids(3, &[(1, 100), (2, 300)]);
    assert!(module.elect_oracles(100).is_none());
    assert!(module.oracles.is_empty());
    assert_eq!(module.candidates, vec![1, 2]);
    assert_eq!(module.witness_report(1), 0);
}

#[test]
fn accounts_without_active_stake_are_not_eligible() {
    let mut module = with_bids(2, &[(1, 100), (2, 300), (3, 200)]);
    module.unbond(Origin::Signed(2), 300, 0).unwrap();
    module.unbond(Origin::Signed(3), 200, 0).unwrap();
    assert!(module.elect_oracles(100).is_none());
    assert_eq!(module.candidates, vec![1, 2, 3]);
    module.bid(Origin::Signed(3), 100).unwrap();
    let change = module.elect_oracles(100).unwrap();
    assert_eq!(change.members, vec![1, 3]);
    assert_eq!(module.candidates, Vec::<u64>::new());
}

#[test]
fn election_never_seats_more_than_count() {
    let mut module = with_bids(2, &[(1, 100), (2, 300), (3, 200), (4, 250), (5, 120)]);
    module.elect_oracles(100).unwrap();
    assert_eq!(module.oracles.len(), 2);
    assert_eq!(module.oracles, vec![2, 4]);
    assert_eq!(module.candidates, vec![1, 5, 3]);
}

#[test]
fn incoming_oracles_are_witnessed_at_the_election() {
    let mut module = with_bids(2, &[(1, 100), (2, 300), (3, 200)]);
    module.elect_oracles(100).unwrap();
    assert_eq!(module.witness_report(2), 100);
    assert_eq!(module.witness_report(3), 100);
    assert_eq!(module.witness_report(1), 0);
    assert!(module.is_valid(2, 150));
    assert!(!module.is_valid(2, 151));
}

#[test]
fn second_election_reports_who_came_and_went() {
    let mut module = with_bids(2, &[(1, 100), (2, 300), (3, 200)]);
    module.elect_oracles(100).unwrap();
    module.on_witnessed(2, 120);
    module.bid(Origin::Signed(1), 150).unwrap();
    assert_eq!(module.candidates, vec![1]);
    let change = module.elect_oracles(200).unwrap();
    assert_eq!(module.oracles, vec![1, 2]);
    assert_eq!(module.candidates, vec![3]);
    assert_eq!(change.incoming, vec![1]);
    assert_eq!(change.outgoing, vec![3]);
    assert_eq!(change.members, vec![1, 2]);
    assert_eq!(module.witness_report(1), 200);
    assert_eq!(module.witness_report(2), 120);
    assert_eq!(module.witness_report(3), 100);
    assert_eq!(module.oracle_ledger(3).active, 200);
}

#[test]
fn an_oracle_that_bids_again_is_no_candidate() {
    let mut module = with_bids(2, &[(1, 100), (2, 300)]);
    module.elect_oracles(100).unwrap();
    assert_eq!(
        module.bid(Origin::Signed(1), 5),
        Ok(vec![Effect::SetLock(1, 105), Effect::OracleBonded(1, 5)])
    );
    assert!(module.candidates.is_empty());
    assert_eq!(module.add_candidates(1), vec![]);
    assert_eq!(module.add_candidates(8), vec![Effect::CandidatesAdded(8)]);
    assert_eq!(module.add_candidates(8), vec![]);
}

#[test]
fn an_account_in_both_sets_counts_once() {
    let mut module = with_bids(2, &[(1, 100), (2, 300)]);
    module.oracles = vec![2];
    let change = module.elect_oracles(100).unwrap();
    assert_eq!(module.oracles, vec![1, 2]);
    assert_eq!(change.incoming, vec![1]);
    assert!(change.outgoing.is_empty());
    assert!(module.candidates.is_empty());
}

#[test]
fn liveness_scan_slashes_after_the_interval_only() {
    let mut module = with_bids(1, &[(1, 100)]);
    module.elect_oracles(100).unwrap();
    module.accounts[0].last_rewarded = 100;
    assert_eq!(module.slash_and_reward_oracles(150), vec![]);
    assert_eq!(module.oracle_ledger(1).active, 100);
    assert_eq!(
        module.slash_and_reward_oracles(151),
        vec![Effect::Slash(1, 20), Effect::OracleSlashed(1, 20)]
    );
    assert_eq!(module.oracle_ledger(1).active, 80);
    assert_eq!(module.oracles, vec![1]);
}

#[test]
fn liveness_scan_pays_once_per_interval() {
    let mut module = with_bids(1, &[(1, 100)]);
    module.elect_oracles(100).unwrap();
    assert_eq!(
        module.slash_and_reward_oracles(101),
        vec![Effect::Deposit(1, 10), Effect::OraclePaid(1, 10)]
    );
    assert_eq!(module.oracle_last_rewarded(1), 101);
    module.on_witnessed(1, 140);
    assert_eq!(module.slash_and_reward_oracles(151), vec![]);
    assert_eq!(
        module.slash_and_reward_oracles(152),
        vec![Effect::Deposit(1, 10), Effect::OraclePaid(1, 10)]
    );
    assert_eq!(module.oracle_last_rewarded(1), 152);
    assert_eq!(module.oracle_ledger(1).active, 100);
}

#[test]
fn liveness_scan_expels_who_cannot_pay() {
    let mut module = with_bids(3, &[(1, 100), (2, 300), (3, 200)]);
    module.elect_oracles(100).unwrap();
    module.unbond(Origin::Signed(2), 290, 100).unwrap();
    module.on_witnessed(3, 160);
    let effects = module.slash_and_reward_oracles(170);
    assert_eq!(
        effects,
        vec![
            Effect::Slash(1, 20),
            Effect::OracleSlashed(1, 20),
            Effect::OracleRemoved(2),
            Effect::Slash(2, 10),
            Effect::OracleSlashed(2, 10),
            Effect::Deposit(3, 10),
            Effect::OraclePaid(3, 10),
        ]
    );
    assert_eq!(module.oracles, vec![1, 3]);
    assert_eq!(module.oracle_ledger(1).active, 80);
    assert_eq!(module.oracle_ledger(2).active, 0);
    assert_eq!(module.oracle_ledger(2).unbonds.len(), 1);
    assert_eq!(module.oracle_last_rewarded(3), 170);
}

#[test]
fn finalization_elects_at_the_era_and_moves_it() {
    let mut module = with_bids(2, &[(1, 100), (2, 300), (3, 200)]);
    module.unbond(Origin::Signed(1), 10, 60).unwrap();
    let done = module.on_finalize(99);
    assert!(done.scanned.is_empty() && done.election.is_none());
    assert_eq!(done.released, vec![Effect::SetLock(1, 90), Effect::OracleStakeReleased(1, 10)]);
    assert_eq!(module.current_era, 100);
    let done = module.on_finalize(100);
    let change = done.election.unwrap();
    assert_eq!(change.members, vec![2, 3]);
    assert_eq!(module.oracles, vec![2, 3]);
    assert_eq!(module.current_era, 200);
    let done = module.on_finalize(101);
    assert!(done.election.is_none());
    assert_eq!(
        done.scanned,
        vec![
            Effect::Deposit(2, 10),
            Effect::OraclePaid(2, 10),
            Effect::Deposit(3, 10),
            Effect::OraclePaid(3, 10),
        ]
    );
    assert_eq!(module.current_era, 200);
}

#[test]
fn era_moves_even_if_the_election_does_not_run() {
    let mut module = with_bids(3, &[(1, 100)]);
    let done = module.on_finalize(100);
    assert!(done.election.is_none());
    assert_eq!(module.current_era, 200);
    assert_eq!(module.candidates, vec![1]);
}

#[test]
fn era_stays_where_the_next_cannot_be_represented() {
    let mut module = Module::new(params(0), u64::MAX - 50);
    let done = module.on_finalize(u64::MAX - 50);
    assert!(done.election.is_some());
    assert_eq!(module.current_era, u64::MAX - 50);
}

#[test]
fn difference_keeps_order() {
    assert_eq!(difference(&vec![5, 1, 4, 2], &vec![4, 5, 9]), vec![1, 2]);
    assert_eq!(difference(&vec![], &vec![4]), Vec::<u64>::new());
    assert!(contains_account(&vec![5, 1], 1));
    assert!(!contains_account(&vec![5, 1], 2));
    assert_eq!(copy_accounts(&vec![5, 1, 5]), vec![5, 1, 5]);
}
