use lmsr::{Market, MarketError, MarketMaker, Portfolio, SCALE};

/// One whole unit in fixed-point counts.
const UNIT: i64 = SCALE;

fn assert_within_epsilon(x: f64, y: f64) {
    assert!((x - y).abs() < 0.0001, "{} and {} aren't within epsilon", x, y);
}

/// A fixed-point count of units as a real value.
fn to_f64(units: i64) -> f64 {
    units as f64 / SCALE as f64
}

/// A real value as a fixed-point count of units (for test inputs).
fn units(x: f64) -> i64 {
    (x * SCALE as f64).round() as i64
}

fn portfolio_of<'a>(market: &'a Market, address: &str) -> &'a Portfolio {
    &market.portfolios.iter().find(|e| e.0 == address).unwrap().1
}

#[test]
fn e_works() {
    let result = std::f64::consts::E;
    let expected = 2.71828_f64;
    assert_within_epsilon(expected, result);
}

#[test]
fn cost_fn_works() {
    let b = 100 * UNIT;
    let outstanding_shares = vec![10 * UNIT, 0];

    let market_maker = MarketMaker { b, outstanding_shares };

    let result = market_maker.cost_fn();
    let expected = 74.439666_f64;

    assert_within_epsilon(expected, to_f64(result));
}

#[test]
fn cost_to_trade_works() {
    let market_maker = MarketMaker::new(100 * UNIT, 2).unwrap();

    let result = market_maker.cost_to_trade(0, 10 * UNIT).unwrap();
    let expected = 5.124947;

    assert_within_epsilon(expected, to_f64(result));
}

#[test]
fn price_works() {
    let market_maker = MarketMaker::new(100 * UNIT, 2).unwrap();

    let price_0 = market_maker.price(0).unwrap();
    let price_1 = market_maker.price(1).unwrap();

    assert_within_epsilon(to_f64(price_0), to_f64(price_1));
    assert_within_epsilon(to_f64(price_0), 0.5_f64);
}

#[test]
fn price_sums_to_1() {
    let b = 100 * UNIT;
    let outstanding_shares = vec![44 * UNIT, 17 * UNIT];

    let market_maker = MarketMaker { b, outstanding_shares };

    let price_0 = market_maker.price(0).unwrap();
    let price_1 = market_maker.price(1).unwrap();

    assert_within_epsilon(to_f64(price_0) + to_f64(price_1), 1.0);
}

#[test]
fn shares_to_set_price_works() {
    let b = 100 * UNIT;
    let shares_0 = 40 * UNIT;
    let shares_1 = 12 * UNIT;

    let outstanding_shares = vec![shares_0, shares_1];
    let market_maker = MarketMaker { b, outstanding_shares };

    let target = units(0.6);
    let outcome_id = 1;

    let shares_to_buy = market_maker.shares_to_set_price(outcome_id, target).unwrap();

    let outstanding_shares = vec![shares_0, shares_1 + shares_to_buy];
    let market_maker = MarketMaker { b, outstanding_shares };

    let result = market_maker.price(outcome_id).unwrap();

    assert_within_epsilon(to_f64(target), to_f64(result));
}

#[test]
fn trade_works_on_mm() {
    let mut market_maker = MarketMaker::new(100 * UNIT, 2).unwrap();
    let trade_size = 10 * UNIT;

    market_maker.trade(0, trade_size);

    let result = market_maker.outstanding_shares[0];

    assert_within_epsilon(to_f64(result), to_f64(trade_size));
}

#[test]
fn market_can_be_created() {
    let market = Market::new(100 * UNIT, 2).unwrap();

    assert_eq!(market.market_maker.b, 100 * UNIT);
}

#[test]
fn market_allows_adding_collateral() {
    let mut market = Market::new(100 * UNIT, 2).unwrap();
    let address = "0x6891Ac4E2EF3dA9bc88C96fEDbC9eA4d6D88F768";

    market.add_collateral(String::from(address), 100 * UNIT).unwrap();

    let result = portfolio_of(&market, address).collateral;

    assert_eq!(result, 100 * UNIT);
}

#[test]
fn market_allows_trades() {
    let mut market = Market::new(100 * UNIT, 2).unwrap();
    let address = "0x6891Ac4E2EF3dA9bc88C96fEDbC9eA4d6D88F768";
    let shares = 10 * UNIT;

    market.add_collateral(String::from(address), 20 * UNIT).unwrap();
    market.trade(String::from(address), 1, shares).unwrap();

    let portfolio = portfolio_of(&market, address);
    let final_shares = portfolio.outcome_shares[1];
    assert_eq!(final_shares, shares);

    let final_collateral = portfolio.collateral;
    let expected_collateral = 20.0 - 5.124947;
    assert_within_epsilon(to_f64(final_collateral), expected_collateral);
}

#[test]
fn insufficient_collateral_noops() {
    let mut market = Market::new(100 * UNIT, 2).unwrap();
    let address = "0x6891Ac4E2EF3dA9bc88C96fEDbC9eA4d6D88F768";
    let shares = 10 * UNIT;

    market.add_collateral(String::from(address), 4 * UNIT).unwrap();
    let declined = market.trade(String::from(address), 1, shares);
    assert_eq!(declined, Err(MarketError::InsufficientCollateral));

    let portfolio = portfolio_of(&market, address);
    let final_shares = portfolio.outcome_shares[1];
    assert_eq!(final_shares, 0);

    let final_collateral = portfolio.collateral;
    assert_within_epsilon(to_f64(final_collateral), 4.0);
}

#[test]
fn buy_with_max_price_works() {
    let mut market = Market::new(100 * UNIT, 2).unwrap();
    let address = "0x6891Ac4E2EF3dA9bc88C96fEDbC9eA4d6D88F768";
    let shares = 1000 * UNIT;
    let max_price = units(0.6);
    let outcome_id = 0;

    market.add_collateral(String::from(address), 10000 * UNIT).unwrap();
    market.buy_with_max_price(String::from(address), outcome_id, shares, max_price).unwrap();

    let price = market.market_maker.price(outcome_id).unwrap();
    assert_within_epsilon(to_f64(price), to_f64(max_price));

    let portfolio = portfolio_of(&market, address);
    let shares_bought = portfolio.outcome_shares[outcome_id];
    assert!(shares_bought < shares);
}

#[test]
fn buy_with_max_price_works_if_max_price_not_hit() {
    let mut market = Market::new(100 * UNIT, 2).unwrap();
    let address = "0x6891Ac4E2EF3dA9bc88C96fEDbC9eA4d6D88F768";
    let shares = UNIT;
    let max_price = units(0.9);
    let outcome_id = 0;

    market.add_collateral(String::from(address), 10000 * UNIT).unwrap();
    market.buy_with_max_price(String::from(address), outcome_id, shares, max_price).unwrap();

    let price = market.market_maker.price(outcome_id).unwrap();
    assert!(price < max_price);

    let portfolio = portfolio_of(&market, address);
    let shares_bought = portfolio.outcome_shares[outcome_id];
    assert_within_epsilon(to_f64(shares_bought), to_f64(shares));
}

#[test]
fn cost_of_fresh_two_outcome_market_is_b_ln_2() {
    // With all-zero shares the cost is exactly b * ln(2): 100 * 0.693147180.
    let market_maker = MarketMaker::new(100 * UNIT, 2).unwrap();
    assert_eq!(market_maker.cost_fn(), 69_314_718_000);
}

#[test]
fn uniform_market_prices_are_one_over_n() {
    // Four outcomes with equal shares: each price is exactly a quarter.
    let market_maker = MarketMaker { b: 7 * UNIT, outstanding_shares: vec![3 * UNIT; 4] };
    for i in 0..4 {
        assert_eq!(market_maker.price(i).unwrap(), SCALE / 4);
    }
}

#[test]
fn prices_sum_to_one_with_three_outcomes() {
    let market_maker = MarketMaker {
        b: 100 * UNIT,
        outstanding_shares: vec![44 * UNIT, 17 * UNIT, 90 * UNIT],
    };
    let mut sum: i64 = 0;
    for i in 0..3 {
        let p = market_maker.price(i).unwrap();
        assert!(0 < p && p < SCALE);
        sum += p;
    }
    assert!(SCALE - 3 < sum && sum <= SCALE);
}

#[test]
fn price_reaches_the_bounds_only_at_resolution_limits() {
    // Prices are strictly inside (0, 1) for ordinary states, but with a tiny
    // liquidity an outcome far below the maximum underflows to exactly zero.
    let market_maker = MarketMaker { b: 1, outstanding_shares: vec![0, 50 * UNIT] };
    assert_eq!(market_maker.price(0).unwrap(), 0);
    assert_eq!(market_maker.price(1).unwrap(), SCALE);

    let ordinary = MarketMaker { b: 100 * UNIT, outstanding_shares: vec![0, 50 * UNIT] };
    let p0 = ordinary.price(0).unwrap();
    let p1 = ordinary.price(1).unwrap();
    assert!(0 < p0 && p0 < SCALE);
    assert!(0 < p1 && p1 < SCALE);
}

#[test]
fn zero_liquidity_is_rejected() {
    assert_eq!(Market::new(0, 2).err().unwrap(), MarketError::InvalidLiquidity);
    assert_eq!(Market::new(-5 * UNIT, 2).err().unwrap(), MarketError::InvalidLiquidity);
}

#[test]
fn zero_outcomes_are_rejected() {
    assert_eq!(Market::new(100 * UNIT, 0).err().unwrap(), MarketError::InvalidOutcomeCount);
}

#[test]
fn out_of_range_outcome_is_rejected() {
    let mut market = Market::new(100 * UNIT, 2).unwrap();
    let address = "0x6891Ac4E2EF3dA9bc88C96fEDbC9eA4d6D88F768";
    market.add_collateral(String::from(address), 100 * UNIT).unwrap();

    assert_eq!(market.market_maker.price(2).err().unwrap(), MarketError::InvalidOutcomeIndex);
    assert_eq!(
        market.trade(String::from(address), 2, UNIT),
        Err(MarketError::InvalidOutcomeIndex)
    );

    let portfolio = portfolio_of(&market, address);
    assert_eq!(portfolio.collateral, 100 * UNIT);
}

#[test]
fn unknown_participant_is_declined() {
    let mut market = Market::new(100 * UNIT, 2).unwrap();
    let result = market.trade(String::from("nobody"), 0, UNIT);
    assert_eq!(result, Err(MarketError::UnknownParticipant));
    assert_eq!(market.market_maker.outstanding_shares[0], 0);
}

#[test]
fn negative_deposit_is_rejected() {
    let mut market = Market::new(100 * UNIT, 2).unwrap();
    let result = market.add_collateral(String::from("someone"), -UNIT);
    assert_eq!(result, Err(MarketError::InvalidAmount));
    assert!(market.portfolios.is_empty());
}

#[test]
fn negative_buy_is_rejected() {
    let mut market = Market::new(100 * UNIT, 2).unwrap();
    let address = "0x6891Ac4E2EF3dA9bc88C96fEDbC9eA4d6D88F768";
    market.add_collateral(String::from(address), 100 * UNIT).unwrap();
    let result = market.buy_with_max_price(String::from(address), 0, -UNIT, units(0.6));
    assert_eq!(result, Err(MarketError::InvalidAmount));
}

#[test]
fn price_target_outside_open_interval_is_rejected() {
    let mut market = Market::new(100 * UNIT, 2).unwrap();
    let address = "0x6891Ac4E2EF3dA9bc88C96fEDbC9eA4d6D88F768";
    market.add_collateral(String::from(address), 100 * UNIT).unwrap();

    assert_eq!(
        market.buy_with_max_price(String::from(address), 0, UNIT, 0),
        Err(MarketError::InvalidPriceTarget)
    );
    assert_eq!(
        market.buy_with_max_price(String::from(address), 0, UNIT, SCALE),
        Err(MarketError::InvalidPriceTarget)
    );
}

#[test]
fn oversized_trade_is_declined_as_overflow() {
    let mut market = Market::new(100 * UNIT, 2).unwrap();
    let address = "0x6891Ac4E2EF3dA9bc88C96fEDbC9eA4d6D88F768";
    market.add_collateral(String::from(address), 100 * UNIT).unwrap();

    let result = market.trade(String::from(address), 0, i64::MAX);
    assert_eq!(result, Err(MarketError::NumericOverflow));
    assert_eq!(market.market_maker.outstanding_shares[0], 0);
}

#[test]
fn deposits_accumulate_for_the_same_address() {
    let mut market = Market::new(100 * UNIT, 2).unwrap();
    let address = "0x6891Ac4E2EF3dA9bc88C96fEDbC9eA4d6D88F768";
    market.add_collateral(String::from(address), 3 * UNIT).unwrap();
    market.add_collateral(String::from(address), 4 * UNIT).unwrap();

    assert_eq!(market.portfolios.len(), 1);
    assert_eq!(portfolio_of(&market, address).collateral, 7 * UNIT);
}

#[test]
fn selling_refunds_collateral() {
    let mut market = Market::new(100 * UNIT, 2).unwrap();
    let address = "0x6891Ac4E2EF3dA9bc88C96fEDbC9eA4d6D88F768";
    market.add_collateral(String::from(address), 20 * UNIT).unwrap();
    let bought = market.trade(String::from(address), 1, 10 * UNIT).unwrap();
    let refunded = market.trade(String::from(address), 1, -(10 * UNIT)).unwrap();

    // Selling the shares back refunds exactly what they cost.
    assert_eq!(bought, -refunded);
    assert_within_epsilon(to_f64(portfolio_of(&market, address).collateral), 20.0);
    assert_eq!(portfolio_of(&market, address).outcome_shares[1], 0);
}
