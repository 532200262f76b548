use oracle::ledger::{Ledger, Unbind};
use oracle::oracle::Module;
use oracle::types::{Effect, Error, Origin, Params};

fn params(count: u16) -> Params {
    Params {
        oracle_fee: 10,
        miss_report_slash: 20,
        min_staking: 100,
        count,
        report_interval: 50,
        election_era: 100,
        locked_duration: 30,
    }
}

#[test]
fn default_ledger_is_empty() {
    let ledger = Ledger::default();
    assert_eq!(ledger.active, 0);
    assert!(ledger.unbonds.is_empty());
    assert_eq!(ledger.unbonding_total(), 0);
}

#[test]
fn unknown_account_reads_as_empty() {
    let module = Module::new(params(2), 100);
    assert_eq!(module.oracle_ledger(7), Ledger { active: 0, unbonds: vec![] });
    assert_eq!(module.locked(7), 0);
    assert_eq!(module.witness_report(7), 0);
    assert_eq!(module.oracle_last_rewarded(7), 0);
    assert_eq!(module.find(7), None);
}

#[test]
fn bind_sets_stake_and_lock() {
    let mut module = Module::new(params(2), 100);
    let effects = module.bind(1, 150).unwrap();
    assert_eq!(effects, vec![Effect::SetLock(1, 150), Effect::OracleBonded(1, 150)]);
    assert_eq!(module.oracle_ledger(1), Ledger { active: 150, unbonds: vec![] });
    assert_eq!(module.locked(1), 150);
}

#[test]
fn second_bind_adds_to_the_first() {
    let mut module = Module::new(params(2), 100);
    module.bind(1, 150).unwrap();
    let effects = module.bind(1, 25).unwrap();
    assert_eq!(effects, vec![Effect::SetLock(1, 175), Effect::OracleBonded(1, 25)]);
    assert_eq!(module.oracle_ledger(1).active, 175);
}

#[test]
fn bind_below_minimum_is_rejected() {
    let mut module = Module::new(params(2), 100);
    assert_eq!(module.bind(1, 99), Err(Error::StakeTooLow));
    assert_eq!(module.oracle_ledger(1).active, 0);
    assert!(module.accounts.is_empty());
    assert_eq!(module.bind(1, 100).map(|e| e.len()), Ok(2));
}

#[test]
fn bind_beyond_range_is_rejected() {
    let mut module = Module::new(params(2), 100);
    module.bind(1, u128::MAX).unwrap();
    assert_eq!(module.bind(1, 1), Err(Error::ArithmeticOverflow));
    assert_eq!(module.oracle_ledger(1).active, u128::MAX);
    module.unbind(1, 5, 0).unwrap();
    assert_eq!(module.bind(1, 1), Err(Error::ArithmeticOverflow));
    module.release_locked(30);
    assert_eq!(module.bind(1, 6), Err(Error::ArithmeticOverflow));
    assert_eq!(
        module.bind(1, 5),
        Ok(vec![Effect::SetLock(1, u128::MAX), Effect::OracleBonded(1, 5)])
    );
}

#[test]
fn unbind_moves_stake_to_an_entry() {
    let mut module = Module::new(params(2), 100);
    module.bind(1, 150).unwrap();
    let effects = module.unbind(1, 40, 10).unwrap();
    assert_eq!(effects, vec![Effect::OracleUnbonded(1, 40)]);
    assert_eq!(
        module.oracle_ledger(1),
        Ledger { active: 110, unbonds: vec![Unbind { amount: 40, era: 40 }] }
    );
    assert_eq!(module.locked(1), 150);
}

#[test]
fn unbind_more_than_active_is_rejected() {
    let mut module = Module::new(params(2), 100);
    module.bind(1, 150).unwrap();
    assert_eq!(module.unbind(1, 151, 10), Err(Error::InsufficientStake));
    assert_eq!(module.unbind(2, 1, 10), Err(Error::InsufficientStake));
    assert_eq!(module.oracle_ledger(1), Ledger { active: 150, unbonds: vec![] });
}

#[test]
fn unbind_of_nothing_adds_no_entry() {
    let mut module = Module::new(params(2), 100);
    module.bind(1, 150).unwrap();
    assert_eq!(module.unbind(1, 0, u64::MAX), Ok(vec![Effect::OracleUnbonded(1, 0)]));
    assert_eq!(module.oracle_ledger(1), Ledger { active: 150, unbonds: vec![] });
}

#[test]
fn unbind_with_unrepresentable_maturity_is_rejected() {
    let mut module = Module::new(params(2), 100);
    module.bind(1, 150).unwrap();
    assert_eq!(module.unbind(1, 10, u64::MAX - 29), Err(Error::ArithmeticOverflow));
    assert_eq!(module.unbind(1, 10, u64::MAX - 30), Ok(vec![Effect::OracleUnbonded(1, 10)]));
    assert_eq!(module.oracle_ledger(1).unbonds, vec![Unbind { amount: 10, era: u64::MAX }]);
}

#[test]
fn lock_equals_active_plus_unbonding_through_binds_and_unbinds() {
    let mut module = Module::new(params(2), 100);
    module.bind(1, 150).unwrap();
    module.bind(1, 50).unwrap();
    module.unbind(1, 40, 10).unwrap();
    module.unbind(1, 10, 12).unwrap();
    let ledger = module.oracle_ledger(1);
    assert_eq!(ledger.active, 150);
    assert_eq!(ledger.unbonding_total(), 50);
    assert_eq!(module.locked(1), ledger.active + ledger.unbonding_total());
}

#[test]
fn bind_while_unbonding_locks_the_active_stake_only() {
    let mut module = Module::new(params(2), 100);
    module.bind(1, 100).unwrap();
    module.unbind(1, 40, 10).unwrap();
    assert_eq!(module.bind(1, 50), Ok(vec![Effect::SetLock(1, 110), Effect::OracleBonded(1, 50)]));
    assert_eq!(module.locked(1), 110);
    let ledger = module.oracle_ledger(1);
    assert_eq!(ledger.active + ledger.unbonding_total(), 150);
}

#[test]
fn release_frees_exactly_what_matured() {
    let mut module = Module::new(params(2), 100);
    module.bind(1, 150).unwrap();
    module.unbind(1, 40, 10).unwrap();
    assert_eq!(module.release_locked(39), vec![]);
    assert_eq!(module.locked(1), 150);
    assert_eq!(module.oracle_ledger(1).unbonds.len(), 1);
    assert_eq!(
        module.release_locked(40),
        vec![Effect::SetLock(1, 110), Effect::OracleStakeReleased(1, 40)]
    );
    assert_eq!(module.locked(1), 110);
    assert_eq!(module.oracle_ledger(1), Ledger { active: 110, unbonds: vec![] });
    assert_eq!(module.release_locked(41), vec![]);
}

#[test]
fn release_keeps_pending_entries_in_order() {
    let mut module = Module::new(params(2), 100);
    module.bind(1, 200).unwrap();
    module.bind(2, 300).unwrap();
    module.unbind(1, 10, 0).unwrap();
    module.unbind(1, 20, 5).unwrap();
    module.unbind(2, 7, 1).unwrap();
    module.unbind(1, 30, 1).unwrap();
    let effects = module.release_locked(31);
    assert_eq!(
        effects,
        vec![
            Effect::SetLock(1, 160),
            Effect::OracleStakeReleased(1, 40),
            Effect::SetLock(2, 293),
            Effect::OracleStakeReleased(2, 7),
        ]
    );
    assert_eq!(
        module.oracle_ledger(1),
        Ledger { active: 140, unbonds: vec![Unbind { amount: 20, era: 35 }] }
    );
    assert_eq!(module.locked(1), 160);
    assert_eq!(module.locked(2), 293);
}

#[test]
fn ledger_release_returns_the_freed_sum() {
    let mut ledger = Ledger {
        active: 5,
        unbonds: vec![
            Unbind { amount: 1, era: 10 },
            Unbind { amount: 2, era: 30 },
            Unbind { amount: 4, era: 20 },
        ],
    };
    assert_eq!(ledger.unbonding_total(), 7);
    assert_eq!(ledger.release(20), 5);
    assert_eq!(ledger, Ledger { active: 5, unbonds: vec![Unbind { amount: 2, era: 30 }] });
    assert_eq!(ledger.release(20), 0);
}

#[test]
fn bid_binds_and_registers_once() {
    let mut module = Module::new(params(2), 100);
    assert_eq!(
        module.bid(Origin::Signed(4), 120),
        Ok(vec![
            Effect::SetLock(4, 120),
            Effect::OracleBonded(4, 120),
            Effect::CandidatesAdded(4),
        ])
    );
    assert_eq!(module.candidates, vec![4]);
    assert_eq!(
        module.bid(Origin::Signed(4), 1),
        Ok(vec![Effect::SetLock(4, 121), Effect::OracleBonded(4, 1)])
    );
    assert_eq!(module.candidates, vec![4]);
}

#[test]
fn failed_bid_registers_nobody() {
    let mut module = Module::new(params(2), 100);
    assert_eq!(module.bid(Origin::Signed(4), 1), Err(Error::StakeTooLow));
    assert!(module.candidates.is_empty());
    assert!(module.accounts.is_empty());
}

#[test]
fn calls_check_their_origin() {
    let mut module = Module::new(params(2), 100);
    assert_eq!(module.bid(Origin::Unsigned, 120), Err(Error::BadOrigin));
    assert_eq!(module.bid(Origin::Root, 120), Err(Error::BadOrigin));
    assert_eq!(module.bid(Origin::Reporter(1), 120), Err(Error::BadOrigin));
    assert_eq!(module.unbond(Origin::SlashAuthority, 0, 1), Err(Error::BadOrigin));
    assert_eq!(module.slash_by_vote(Origin::Signed(1), 1, 5), Err(Error::BadOrigin));
    assert_eq!(module.slash_by_vote(Origin::Unsigned, 1, 5), Err(Error::BadOrigin));
    assert!(module.accounts.is_empty());
    assert_eq!(Origin::Signed(3).ensure_signed(), Ok(3));
    assert_eq!(Origin::Reporter(3).ensure_reporter(), Ok(3));
    assert_eq!(Origin::Signed(3).ensure_reporter(), Err(Error::BadOrigin));
    assert_eq!(Origin::Root.ensure_slasher(), Ok(()));
    assert_eq!(Origin::SlashAuthority.ensure_slasher(), Ok(()));
    assert_eq!(Origin::Reporter(3).ensure_slasher(), Err(Error::BadOrigin));
}

#[test]
fn unbond_is_unbind_of_the_signer() {
    let mut module = Module::new(params(2), 100);
    module.bid(Origin::Signed(4), 120).unwrap();
    assert_eq!(module.unbond(Origin::Signed(4), 20, 7), Ok(vec![Effect::OracleUnbonded(4, 20)]));
    assert_eq!(
        module.oracle_ledger(4),
        Ledger { active: 100, unbonds: vec![Unbind { amount: 20, era: 37 }] }
    );
    assert_eq!(module.unbond(Origin::Signed(4), 101, 7), Err(Error::InsufficientStake));
}

#[test]
fn slash_within_stake_keeps_the_seat() {
    let mut module = Module::new(params(2), 100);
    module.bid(Origin::Signed(1), 150).unwrap();
    module.bid(Origin::Signed(2), 250).unwrap();
    assert!(module.elect_oracles(100).is_some());
    assert_eq!(module.oracles, vec![1, 2]);
    assert_eq!(
        module.slash(1, 150),
        vec![Effect::Slash(1, 150), Effect::OracleSlashed(1, 150)]
    );
    assert_eq!(module.oracles, vec![1, 2]);
    assert_eq!(module.oracle_ledger(1).active, 0);
    assert_eq!(
        module.slash_by_vote(Origin::SlashAuthority, 2, 50),
        Ok(vec![Effect::Slash(2, 50), Effect::OracleSlashed(2, 50)])
    );
    assert_eq!(module.oracle_ledger(2).active, 200);
    assert_eq!(module.oracles, vec![1, 2]);
}

#[test]
fn slash_beyond_stake_takes_all_and_the_seat() {
    let mut module = Module::new(params(2), 100);
    module.bid(Origin::Signed(1), 150).unwrap();
    module.bid(Origin::Signed(2), 250).unwrap();
    module.elect_oracles(100);
    assert_eq!(
        module.slash_by_vote(Origin::Root, 1, 151),
        Ok(vec![
            Effect::OracleRemoved(1),
            Effect::Slash(1, 150),
            Effect::OracleSlashed(1, 150),
        ])
    );
    assert_eq!(module.oracles, vec![2]);
    assert_eq!(module.oracle_ledger(1).active, 0);
    assert_eq!(module.locked(1), 150);
}

#[test]
fn slash_leaves_unbonding_funds_alone() {
    let mut module = Module::new(params(2), 100);
    module.bind(1, 150).unwrap();
    module.unbind(1, 100, 0).unwrap();
    module.slash(1, 60);
    assert_eq!(
        module.oracle_ledger(1),
        Ledger { active: 0, unbonds: vec![Unbind { amount: 100, era: 30 }] }
    );
}
