use oracle::oracle::Module as Staking;
use oracle::price::{mean, median, Module, PriceReport};
use oracle::types::{Effect, Error, Origin, Params};
use oracle::witness::OracleMixedIn;

fn staking() -> Staking {
    Staking::new(
        Params {
            oracle_fee: 10,
            miss_report_slash: 20,
            min_staking: 100,
            count: 2,
            report_interval: 50,
            election_era: 100,
            locked_duration: 30,
        },
        100,
    )
}

#[test]
fn median_of_odd_count_is_the_middle() {
    assert_eq!(median(&mut vec![1, 2, 3]), 2);
    assert_eq!(median(&mut vec![5]), 5);
}

#[test]
fn median_of_even_count_is_the_truncated_mean() {
    assert_eq!(median(&mut vec![1, 2, 3, 4]), 2);
    assert_eq!(median(&mut vec![1, 4]), 2);
    assert_eq!(median(&mut vec![2, 4]), 3);
}

#[test]
fn median_ignores_the_order_of_submission() {
    assert_eq!(median(&mut vec![3, 1, 2]), 2);
    assert_eq!(median(&mut vec![4, 1, 3, 2]), 2);
    assert_eq!(median(&mut vec![9, 7, 1, 3, 100]), 7);
}

#[test]
fn median_sorts_its_argument() {
    let mut prices = vec![30, 10, 20, 10];
    assert_eq!(median(&mut prices), 15);
    assert_eq!(prices, vec![10, 10, 20, 30]);
}

#[test]
fn mean_never_overflows() {
    assert_eq!(mean(&vec![2, 3]), 2);
    assert_eq!(mean(&vec![3, 2]), 2);
    assert_eq!(mean(&vec![u128::MAX, u128::MAX]), u128::MAX);
    assert_eq!(mean(&vec![u128::MAX, u128::MAX - 1]), u128::MAX - 1);
    assert_eq!(mean(&vec![0, u128::MAX]), u128::MAX / 2);
    assert_eq!(median(&mut vec![u128::MAX, u128::MAX - 2]), u128::MAX - 1);
}

#[test]
fn mean_of_any_number_of_prices() {
    assert_eq!(mean(&vec![7]), 7);
    assert_eq!(mean(&vec![1, 2, 3]), 2);
    assert_eq!(mean(&vec![1, 2, 4]), 2);
    assert_eq!(mean(&vec![2, 2, 4]), 2);
    assert_eq!(mean(&vec![2, 3, 4]), 3);
    assert_eq!(mean(&vec![u128::MAX, u128::MAX, u128::MAX]), u128::MAX);
    assert_eq!(mean(&vec![u128::MAX, 0, 0, 0]), u128::MAX / 4);
    assert_eq!(mean(&vec![u128::MAX, 1, 1, 1]), u128::MAX / 4 + 1);
    assert_eq!(mean(&vec![10, 20, 30, 41]), 25);
}

#[test]
fn report_replaces_in_place_or_appends() {
    let mut oracle = staking();
    let mut prices = Module::new(0);
    assert_eq!(
        prices.report(&mut oracle, Origin::Reporter(1), 100, 10),
        Ok(vec![Effect::PriceReported(1, 100)])
    );
    prices.report(&mut oracle, Origin::Reporter(2), 200, 11).unwrap();
    prices.report(&mut oracle, Origin::Reporter(1), 150, 12).unwrap();
    assert_eq!(
        prices.price_reports,
        vec![PriceReport { reporter: 1, price: 150 }, PriceReport { reporter: 2, price: 200 }]
    );
    assert_eq!(oracle.witness_report(1), 12);
    assert_eq!(oracle.witness_report(2), 11);
}

#[test]
fn report_needs_a_reporter() {
    let mut oracle = staking();
    let mut prices = Module::new(0);
    assert_eq!(prices.report(&mut oracle, Origin::Signed(1), 100, 10), Err(Error::BadOrigin));
    assert_eq!(prices.report(&mut oracle, Origin::Root, 100, 10), Err(Error::BadOrigin));
    assert!(prices.price_reports.is_empty());
    assert_eq!(oracle.witness_report(1), 0);
}

#[test]
fn finalization_sets_the_median_and_tells_a_change() {
    let mut oracle = staking();
    let mut prices = Module::new(0);
    prices.add_price(&mut oracle, 1, 100, 10);
    prices.add_price(&mut oracle, 2, 300, 10);
    prices.add_price(&mut oracle, 3, 250, 10);
    assert_eq!(prices.on_finalize(&oracle, 11), vec![Effect::PriceChanged(250)]);
    assert_eq!(prices.current_price, 250);
    assert_eq!(prices.price_reports.len(), 3);
    assert_eq!(prices.on_finalize(&oracle, 12), vec![]);
    assert_eq!(prices.current_price, 250);
}

#[test]
fn finalization_without_reports_keeps_the_price() {
    let oracle = staking();
    let mut prices = Module::new(42);
    assert_eq!(prices.on_finalize(&oracle, 11), vec![]);
    assert_eq!(prices.current_price, 42);
}

#[test]
fn stale_reporters_are_pruned_after_the_median() {
    let mut oracle = staking();
    let mut prices = Module::new(0);
    prices.add_price(&mut oracle, 1, 100, 100);
    prices.add_price(&mut oracle, 2, 300, 120);
    assert_eq!(prices.on_finalize(&oracle, 150), vec![Effect::PriceChanged(200)]);
    assert_eq!(prices.price_reports.len(), 2);
    assert_eq!(prices.on_finalize(&oracle, 151), vec![]);
    assert_eq!(prices.price_reports, vec![PriceReport { reporter: 2, price: 300 }]);
    assert_eq!(prices.on_finalize(&oracle, 152), vec![Effect::PriceChanged(300)]);
    prices.add_price(&mut oracle, 1, 500, 160);
    assert_eq!(
        prices.price_reports,
        vec![PriceReport { reporter: 2, price: 300 }, PriceReport { reporter: 1, price: 500 }]
    );
    assert_eq!(prices.on_finalize(&oracle, 171), vec![Effect::PriceChanged(400)]);
    assert_eq!(prices.price_reports, vec![PriceReport { reporter: 1, price: 500 }]);
}

#[test]
fn validity_lasts_for_the_report_interval() {
    let mut oracle = staking();
    oracle.on_witnessed(1, 100);
    assert!(oracle.is_valid(1, 99));
    assert!(oracle.is_valid(1, 150));
    assert!(!oracle.is_valid(1, 151));
    assert!(oracle.is_valid(2, 50));
    assert!(!oracle.is_valid(2, 51));
    oracle.on_witnessed(1, u64::MAX);
    assert!(oracle.is_valid(1, u64::MAX));
}
