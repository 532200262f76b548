use oracle::ledger::{Ledger, Unbind};
use oracle::oracle::{Account, Module};
use oracle::price::{Module as Prices, PriceReport};
use oracle::types::Params;

fn params(count: u16) -> Params {
    Params {
        oracle_fee: 10,
        miss_report_slash: 20,
        min_staking: 100,
        count,
        report_interval: 50,
        election_era: 100,
        locked_duration: 30,
    }
}

fn account(id: u64, active: u128) -> Account {
    Account {
        id,
        ledger: Ledger { active, unbonds: vec![] },
        locked: active,
        witness: 0,
        last_rewarded: 0,
    }
}

#[test]
fn ledger_with_an_empty_entry_is_not_well_formed() {
    let good = Ledger { active: 1, unbonds: vec![Unbind { amount: 2, era: 3 }] };
    let bad = Ledger { active: 1, unbonds: vec![Unbind { amount: 0, era: 3 }] };
    assert!(good.is_wf());
    assert!(!bad.is_wf());
    assert!(Ledger::default().is_wf());
}

#[test]
fn ledger_whose_total_overflows_is_not_well_formed() {
    let edge = Ledger { active: u128::MAX - 2, unbonds: vec![Unbind { amount: 2, era: 3 }] };
    let over = Ledger {
        active: u128::MAX - 2,
        unbonds: vec![Unbind { amount: 2, era: 3 }, Unbind { amount: 1, era: 4 }],
    };
    assert!(edge.is_wf());
    assert!(!over.is_wf());
}

#[test]
fn module_is_checked_for_double_entries_and_strange_oracles() {
    let mut module = Module::new(params(2), 100);
    assert!(module.is_wf());
    module.accounts = vec![account(1, 100), account(2, 100)];
    module.oracles = vec![2, 1];
    assert!(module.is_wf());
    module.oracles = vec![2, 2];
    assert!(!module.is_wf());
    module.oracles = vec![3];
    assert!(!module.is_wf());
    module.oracles = vec![1];
    module.accounts.push(account(1, 5));
    assert!(!module.is_wf());
    module.accounts.pop();
    module.accounts.push(account(3, 5));
    module.oracles = vec![1, 2, 3];
    assert!(!module.is_wf());
    module.params = params(3);
    assert!(module.is_wf());
    module.accounts[0].ledger.unbonds.push(Unbind { amount: 0, era: 1 });
    assert!(!module.is_wf());
}

#[test]
fn reports_are_checked_for_double_reporters() {
    let mut prices = Prices::new(0);
    assert!(prices.is_wf());
    prices.price_reports = vec![
        PriceReport { reporter: 1, price: 10 },
        PriceReport { reporter: 2, price: 10 },
    ];
    assert!(prices.is_wf());
    prices.price_reports.push(PriceReport { reporter: 1, price: 11 });
    assert!(!prices.is_wf());
}
