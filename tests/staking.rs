use wynd_stake::error::{ContractError, OverflowError, OverflowOperation};
use wynd_stake::ledger::{Ledger, StakeConfig, StakedResponse};
use wynd_stake::power::DECIMAL_FRACTIONAL;

const TOKEN: &str = "token";
const NOW: u64 = 1_571_797_419;

fn s(x: &str) -> String {
    x.to_string()
}

fn percent(p: u128) -> u128 {
    DECIMAL_FRACTIONAL / 100 * p
}

fn suite(config: Vec<(u64, u128, u128)>) -> Ledger {
    suite_with_min_bond(5000, config)
}

fn suite_with_min_bond(min_bond: u128, config: Vec<(u64, u128, u128)>) -> Ledger {
    let config = config
        .into_iter()
        .map(|(p, v, r)| StakeConfig {
            unbonding_period: p,
            voting_multiplier: v,
            reward_multiplier: r,
        })
        .collect();
    Ledger::instantiate(s(TOKEN), 1000, min_bond, config, None, 1)
}

fn delegate(l: &mut Ledger, who: &str, amount: u128, period: u64) -> Result<(), ContractError> {
    l.execute_bond(&s(TOKEN), s(who), amount, period, 1).map(|_| ())
}

fn staked(l: &Ledger, who: &str, period: u64) -> u128 {
    l.query_staked(&s(who), period, NOW).unwrap().stake
}

#[test]
fn unbond_overflow() {
    let unbonding_period = 1000u64;
    let mut l = suite(vec![(unbonding_period, DECIMAL_FRACTIONAL, DECIMAL_FRACTIONAL)]);
    let err = l.execute_unbond(s("user"), 1u128, unbonding_period, NOW, 1).unwrap_err();
    assert_eq!(
        err,
        ContractError::Overflow(OverflowError {
            operation: OverflowOperation::Sub,
            operand1: 0,
            operand2: 1,
        })
    );
}

#[test]
fn no_unbonding_period_found() {
    let user1 = "user1";
    let unbonding_period = 1000u64;
    let mut l = suite(vec![(unbonding_period, DECIMAL_FRACTIONAL, DECIMAL_FRACTIONAL)]);

    let err = delegate(&mut l, user1, 12_000u128, unbonding_period + 1).unwrap_err();
    assert_eq!(err, ContractError::NoUnbondingPeriodFound(unbonding_period + 1));

    delegate(&mut l, user1, 12_000u128, unbonding_period).unwrap();

    let err = l
        .execute_unbond(s(user1), 12_000u128, unbonding_period + 1, NOW, 1)
        .unwrap_err();
    assert_eq!(err, ContractError::NoUnbondingPeriodFound(unbonding_period + 1));

    l.execute_unbond(s(user1), 12_000u128, unbonding_period, NOW, 1).unwrap();
}

#[test]
fn bond_adds_voting_power() {
    let unbonding_period = 1000u64;
    let mut l = suite(vec![(unbonding_period, DECIMAL_FRACTIONAL, DECIMAL_FRACTIONAL)]);

    delegate(&mut l, "user1", 12_000u128, unbonding_period).unwrap();
    delegate(&mut l, "user2", 7_500u128, unbonding_period).unwrap();
    delegate(&mut l, "user3", 4_000u128, unbonding_period).unwrap();

    assert_eq!(l.query_total_staked(), 23_500u128);
    let periods = l.query_bonding_info();
    assert_eq!(periods.len(), 1);
    assert_eq!(periods[0].unbonding_period, unbonding_period);
    assert_eq!(periods[0].voting_multiplier, DECIMAL_FRACTIONAL);
    assert_eq!(periods[0].total_staked, 23_500u128);

    assert_eq!(staked(&l, "user1", unbonding_period), 12_000u128);
    assert_eq!(staked(&l, "user2", unbonding_period), 7_500u128);
    assert_eq!(staked(&l, "user3", unbonding_period), 4_000u128);

    assert_eq!(l.query_voting_power(&s("user1"), None), 12u128);
    assert_eq!(l.query_voting_power(&s("user2"), None), 7u128);
    assert_eq!(l.query_voting_power(&s("user3"), None), 0u128);

    delegate(&mut l, "user2", 7_600u128, unbonding_period).unwrap();
    delegate(&mut l, "user3", 1_200u128, unbonding_period).unwrap();

    assert_eq!(l.query_total_staked(), 32_300u128);

    assert_eq!(l.query_voting_power(&s("user2"), None), 15u128);
    assert_eq!(l.query_voting_power(&s("user3"), None), 5u128);
}

#[test]
fn one_user_rebond_decrease() {
    let user = "user";
    let unbonding_period1 = 1000u64;
    let unbonding_period2 = 4000u64;
    let unbonding_period3 = 8000u64;
    let mut l = suite(vec![
        (unbonding_period1, percent(25), percent(1)),
        (unbonding_period2, percent(50), percent(40)),
        (unbonding_period3, percent(75), percent(60)),
    ]);

    delegate(&mut l, user, 20_000, unbonding_period1).unwrap();
    delegate(&mut l, user, 30_000, unbonding_period2).unwrap();
    delegate(&mut l, user, 10_000, unbonding_period3).unwrap();
    assert_eq!(l.query_total_staked(), 60_000);

    // Rebond downwards from period 3 to 1: moving to a shorter period frees the tokens at once
    l.execute_rebond(s(user), 10_000u128, unbonding_period3, unbonding_period1, NOW, 1)
        .unwrap();
    assert_eq!(staked(&l, user, unbonding_period1), 30_000u128);
    assert_eq!(staked(&l, user, unbonding_period3), 0u128);
    assert_eq!(l.query_staked(&s(user), unbonding_period1, NOW).unwrap().total_locked, 0);
    // 0.25 * 30_000 + 0.5 * 30_000 + 0.75 * 0
    assert_eq!(l.query_voting_power(&s(user), None), 22u128);

    l.execute_unbond(s(user), 20_000u128, unbonding_period1, NOW, 1).unwrap();
    assert_eq!(staked(&l, user, unbonding_period1), 10_000u128);

    // the rebonded 10k are free as well
    l.execute_unbond(s(user), 10_000u128, unbonding_period1, NOW, 1).unwrap();
    assert_eq!(staked(&l, user, unbonding_period1), 0u128);
    assert_eq!(l.query_voting_power(&s(user), None), 15u128);

    // more than what is left cannot be unbonded
    let err = l
        .execute_unbond(s(user), 10_000u128, unbonding_period1, NOW, 1)
        .unwrap_err();
    assert_eq!(
        err,
        ContractError::Overflow(OverflowError {
            operation: OverflowOperation::Sub,
            operand1: 0,
            operand2: 10_000,
        })
    );
}

fn response(stake: u128, period: u64) -> StakedResponse {
    response_locked(stake, 0, period)
}

fn response_locked(stake: u128, total_locked: u128, period: u64) -> StakedResponse {
    StakedResponse {
        stake,
        total_locked,
        unbonding_period: period,
        cw20_contract: s(TOKEN),
    }
}

#[test]
fn unbond_updates_voting_power() {
    let unbonding_period = 1000u64;
    let mut l = suite(vec![(unbonding_period, DECIMAL_FRACTIONAL, DECIMAL_FRACTIONAL)]);

    delegate(&mut l, "user1", 12_000u128, unbonding_period).unwrap();
    delegate(&mut l, "user2", 7_500u128, unbonding_period).unwrap();
    delegate(&mut l, "user3", 4_000u128, unbonding_period).unwrap();
    assert_eq!(l.query_total_staked(), 23_500u128);

    l.execute_unbond(s("user1"), 4_500u128, unbonding_period, NOW, 1).unwrap();
    l.execute_unbond(s("user2"), 2_600u128, unbonding_period, NOW, 1).unwrap();
    l.execute_unbond(s("user3"), 1_111u128, unbonding_period, NOW, 1).unwrap();
    assert_eq!(l.query_total_staked(), 15289u128);

    assert_eq!(staked(&l, "user1", unbonding_period), 7_500u128);
    assert_eq!(staked(&l, "user2", unbonding_period), 4_900u128);
    assert_eq!(staked(&l, "user3", unbonding_period), 2_889u128);
    assert_eq!(l.query_voting_power(&s("user1"), None), 7u128);
    assert_eq!(l.query_voting_power(&s("user2"), None), 0u128);
    assert_eq!(l.query_voting_power(&s("user3"), None), 0u128);

    delegate(&mut l, "user1", 600u128, unbonding_period).unwrap();
    delegate(&mut l, "user2", 100u128, unbonding_period).unwrap();
    delegate(&mut l, "user3", 2_222u128, unbonding_period).unwrap();
    assert_eq!(staked(&l, "user1", unbonding_period), 8_100u128);
    assert_eq!(staked(&l, "user2", unbonding_period), 5_000u128);
    assert_eq!(staked(&l, "user3", unbonding_period), 5111u128);
    assert_eq!(l.query_voting_power(&s("user1"), None), 8u128);
    assert_eq!(l.query_voting_power(&s("user2"), None), 5u128);
    assert_eq!(l.query_voting_power(&s("user3"), None), 5u128);
}

#[test]
fn one_user_multiple_unbonding_periods() {
    let user = "user";
    let (period1, period2, period3) = (1000u64, 4000u64, 8000u64);
    let mut l = suite(vec![
        (period1, percent(25), DECIMAL_FRACTIONAL),
        (period2, percent(50), DECIMAL_FRACTIONAL),
        (period3, percent(75), DECIMAL_FRACTIONAL),
    ]);
    delegate(&mut l, user, 20_000, period1).unwrap();
    delegate(&mut l, user, 30_000, period2).unwrap();
    delegate(&mut l, user, 10_000, period3).unwrap();
    assert_eq!(l.query_total_staked(), 60_000);

    l.execute_unbond(s(user), 20_000u128, period2, NOW, 1).unwrap();
    assert_eq!(staked(&l, user, period2), 10_000u128);
    // 0.25 * 20_000 + 0.5 * 10_000 + 0.75 * 10_000
    assert_eq!(l.query_voting_power(&s(user), None), 17u128);

    delegate(&mut l, user, 5_000u128, period1).unwrap();
    assert_eq!(staked(&l, user, period1), 25_000u128);
    // 0.25 * 25_000 + 0.5 * 10_000 + 0.75 * 10_000
    assert_eq!(l.query_voting_power(&s(user), None), 18u128);
    assert_eq!(l.query_total_power(None), 18u128);

    assert_eq!(
        l.query_all_staked(&s(user), NOW),
        vec![response(25_000, period1), response(10_000, period2), response(10_000, period3)]
    );

    let periods = l.query_bonding_info();
    assert_eq!(periods.len(), 3);
    assert_eq!(periods[0].unbonding_period, period1);
    assert_eq!(periods[0].voting_multiplier, percent(25));
    assert_eq!(periods[0].total_staked, 25_000);
    assert_eq!(periods[1].unbonding_period, period2);
    assert_eq!(periods[1].voting_multiplier, percent(50));
    assert_eq!(periods[1].total_staked, 10_000);
    assert_eq!(periods[2].unbonding_period, period3);
    assert_eq!(periods[2].voting_multiplier, percent(75));
    assert_eq!(periods[2].total_staked, 10_000);
}

#[test]
fn one_user_multiple_periods_rebond_then_bond() {
    let user = "user";
    let (period1, period2, period3) = (1000u64, 4000u64, 8000u64);
    let mut l = suite(vec![
        (period1, percent(25), percent(25)),
        (period2, percent(50), percent(60)),
        (period3, percent(75), percent(80)),
    ]);
    delegate(&mut l, user, 20_000, period1).unwrap();
    delegate(&mut l, user, 30_000, period2).unwrap();
    delegate(&mut l, user, 10_000, period3).unwrap();
    assert_eq!(l.query_total_staked(), 60_000);

    l.execute_rebond(s(user), 20_000u128, period1, period2, NOW, 1).unwrap();
    assert_eq!(staked(&l, user, period1), 0u128);
    assert_eq!(staked(&l, user, period2), 50_000u128);
    // 0.25 * 0 + 0.5 * 50_000 + 0.75 * 10_000
    assert_eq!(l.query_voting_power(&s(user), None), 32u128);
    assert_eq!(l.query_total_power(None), 32u128);
    // 0.25 * 0 + 0.6 * 50_000 + 0.8 * 10_000
    assert_eq!(l.query_rewards(&s(user)), 38u128);
    assert_eq!(l.query_total_rewards(), 38u128);

    delegate(&mut l, user, 25_000u128, period1).unwrap();
    assert_eq!(staked(&l, user, period1), 25_000u128);
    assert_eq!(
        l.query_all_staked(&s(user), NOW),
        // the 20k moved to the longer period stay locked for the difference of the periods
        vec![
            response(25_000, period1),
            response_locked(50_000, 20_000, period2),
            response(10_000, period3)
        ]
    );
    // 0.25 * 25_000 + 0.5 * 50_000 + 0.75 * 10_000
    assert_eq!(l.query_voting_power(&s(user), None), 38u128);
    assert_eq!(l.query_total_power(None), 38u128);
    // 0.25 * 25_000 + 0.6 * 50_000 + 0.8 * 10_000
    assert_eq!(l.query_rewards(&s(user)), 44u128);
    assert_eq!(l.query_total_rewards(), 44u128);
}

fn three_periods() -> (u64, u64, u64) {
    (1000, 4000, 8000)
}

#[test]
fn one_user_multiple_periods_rebond_increase() {
    let user = "user";
    let (period1, period2, period3) = three_periods();
    let mut l = suite(vec![
        (period1, percent(25), DECIMAL_FRACTIONAL),
        (period2, percent(50), DECIMAL_FRACTIONAL),
        (period3, percent(75), DECIMAL_FRACTIONAL),
    ]);
    delegate(&mut l, user, 20_000, period1).unwrap();
    delegate(&mut l, user, 30_000, period2).unwrap();
    delegate(&mut l, user, 10_000, period3).unwrap();
    assert_eq!(l.query_total_staked(), 60_000);

    l.execute_rebond(s(user), 20_000u128, period1, period2, NOW, 1).unwrap();
    assert_eq!(staked(&l, user, period1), 0u128);
    assert_eq!(staked(&l, user, period2), 50_000u128);
    // 0.25 * 0 + 0.5 * 50_000 + 0.75 * 10_000
    assert_eq!(l.query_voting_power(&s(user), None), 32u128);

    delegate(&mut l, user, 25_000u128, period1).unwrap();
    assert_eq!(staked(&l, user, period1), 25_000u128);
    // 0.25 * 25_000 + 0.5 * 50_000 + 0.75 * 10_000
    assert_eq!(l.query_voting_power(&s(user), None), 38u128);

    l.execute_rebond(s(user), 20_000u128, period1, period3, NOW, 1).unwrap();
    assert_eq!(staked(&l, user, period1), 5_000u128);
    assert_eq!(staked(&l, user, period3), 30_000u128);
    // 0.25 * 5_000 + 0.5 * 50_000 + 0.75 * 30_000
    assert_eq!(l.query_voting_power(&s(user), None), 48u128);

    l.execute_rebond(s(user), 10_000u128, period2, period3, NOW, 1).unwrap();
    assert_eq!(staked(&l, user, period1), 5_000u128);
    assert_eq!(staked(&l, user, period2), 40_000u128);
    assert_eq!(staked(&l, user, period3), 40_000u128);
    assert_eq!(l.query_voting_power(&s(user), None), 51u128);
    assert_eq!(l.query_total_power(None), 51u128);
}

#[test]
fn rebond_then_rebond_again() {
    let user = "user";
    let (period1, period2, period3) = three_periods();
    let mut l = suite(vec![
        (period1, percent(25), DECIMAL_FRACTIONAL),
        (period2, percent(50), DECIMAL_FRACTIONAL),
        (period3, percent(75), DECIMAL_FRACTIONAL),
    ]);
    delegate(&mut l, user, 100_000u128, period1).unwrap();
    assert_eq!(staked(&l, user, period1), 100_000u128);
    assert_eq!(l.query_voting_power(&s(user), None), 25u128);

    l.execute_rebond(s(user), 40_000u128, period1, period2, NOW, 1).unwrap();
    assert_eq!(staked(&l, user, period1), 60_000u128);
    assert_eq!(staked(&l, user, period2), 40_000u128);
    // 0.25 * 60_000 + 0.5 * 40_000
    assert_eq!(l.query_voting_power(&s(user), None), 35u128);

    // the moved 40k are locked for the difference of the periods
    assert_eq!(
        l.execute_rebond(s(user), 20_000u128, period2, period3, NOW, 1).unwrap_err(),
        ContractError::Overflow(OverflowError {
            operation: OverflowOperation::Sub,
            operand1: 0,
            operand2: 20_000,
        })
    );
    let later = NOW + (period2 - period1);
    l.execute_rebond(s(user), 20_000u128, period2, period3, later, 1).unwrap();
    assert_eq!(staked(&l, user, period2), 20_000u128);
    assert_eq!(staked(&l, user, period3), 20_000u128);
    // 0.25 * 60_000 + 0.5 * 20_000 + 0.75 * 20_000
    assert_eq!(l.query_voting_power(&s(user), None), 40u128);
    assert_eq!(
        l.query_all_staked(&s(user), later),
        vec![
            response(60_000, period1),
            response(20_000, period2),
            response_locked(20_000, 20_000, period3)
        ]
    );
    assert_eq!(l.query_voting_power(&s(user), None), 40u128);
    assert_eq!(l.query_total_power(None), 40u128);
}

#[test]
fn one_user_multiple_periods_rebond_fail() {
    let user = "user";
    let (period1, period2, period3) = three_periods();
    let mut l = suite(vec![
        (period1, percent(25), DECIMAL_FRACTIONAL),
        (period2, percent(50), DECIMAL_FRACTIONAL),
        (period3, percent(75), DECIMAL_FRACTIONAL),
    ]);
    delegate(&mut l, user, 20_000, period1).unwrap();
    delegate(&mut l, user, 30_000, period2).unwrap();
    delegate(&mut l, user, 10_000, period3).unwrap();
    assert_eq!(l.query_total_staked(), 60_000);

    let err = l
        .execute_rebond(s(user), 50_000u128, period1, period2, NOW, 1)
        .unwrap_err();
    assert_eq!(
        err,
        ContractError::Overflow(OverflowError {
            operation: OverflowOperation::Sub,
            operand1: 20000,
            operand2: 50000,
        })
    );
    let err = l.execute_rebond(s(user), 10_000u128, period1, 12000, NOW, 1).unwrap_err();
    assert_eq!(err, ContractError::NoUnbondingPeriodFound(12000));
    let err = l.execute_rebond(s(user), 50_000u128, 2000, period2, NOW, 1).unwrap_err();
    assert_eq!(err, ContractError::NoUnbondingPeriodFound(2000));
}

#[test]
fn multiple_users_multiple_unbonding_periods() {
    let (period1, period2, period3) = three_periods();
    let mut l = suite_with_min_bond(
        4_500,
        vec![
            (period1, percent(30), percent(1)),
            (period2, percent(60), percent(40)),
            (period3, percent(80), percent(60)),
        ],
    );
    delegate(&mut l, "user1", 20_000, period1).unwrap();
    delegate(&mut l, "user2", 30_000, period2).unwrap();
    delegate(&mut l, "user1", 10_000, period3).unwrap();
    delegate(&mut l, "user3", 16_000, period2).unwrap();
    delegate(&mut l, "user3", 6_000, period3).unwrap();
    assert_eq!(l.query_total_staked(), 82_000);

    l.execute_unbond(s("user1"), 20_000u128, period1, NOW, 1).unwrap();
    assert_eq!(staked(&l, "user1", period1), 0u128);
    assert_eq!(staked(&l, "user1", period3), 10_000u128);
    // 0.8 * 10_000
    assert_eq!(l.query_voting_power(&s("user1"), None), 8u128);
    // 8 + 18 + 13
    assert_eq!(l.query_total_power(None), 39u128);
    // same as before
    assert_eq!(l.query_rewards(&s("user1")), 6u128);
    assert_eq!(l.query_total_rewards(), 27u128);
}

const SEVEN_DAYS: u64 = 7 * 24 * 60 * 60;

#[test]
fn one_user_rebond_decrease_then_rebond_again() {
    let user = "user";
    let (period1, period2, period3) = three_periods();
    let mut l = suite(vec![
        (period1, percent(25), percent(25)),
        (period2, percent(50), percent(50)),
        (period3, percent(75), percent(75)),
    ]);
    let mut now = NOW;
    delegate(&mut l, user, 20_000, period1).unwrap();
    delegate(&mut l, user, 30_000, period2).unwrap();
    delegate(&mut l, user, 10_000, period3).unwrap();
    assert_eq!(l.query_total_staked(), 60_000);

    // rebond up from period 1 to 3, which locks those tokens
    l.execute_rebond(s(user), 10_000, period1, period3, now, 1).unwrap();
    assert_eq!(staked(&l, user, period1), 10_000);
    assert_eq!(staked(&l, user, period3), 20_000);
    // 0.25 * 10_000 + 0.5 * 30_000 + 0.75 * 20_000
    assert_eq!(l.query_voting_power(&s(user), None), 32);

    // 10k are not locked
    l.execute_unbond(s(user), 10_000, period3, now, 1).unwrap();
    let sub_error = ContractError::Overflow(OverflowError {
        operation: OverflowOperation::Sub,
        operand1: 0,
        operand2: 10_000,
    });
    // the final 10k are locked: neither unbond nor rebond
    assert_eq!(l.execute_unbond(s(user), 10_000, period3, now, 1).unwrap_err(), sub_error);
    assert_eq!(
        l.execute_rebond(s(user), 10_000, period3, period1, now, 1).unwrap_err(),
        sub_error
    );

    now += SEVEN_DAYS * 2;
    // no longer locked
    l.execute_rebond(s(user), 10_000, period3, period1, now, 1).unwrap();
    // a smaller rebond up
    l.execute_rebond(s(user), 5_000, period1, period3, now, 1).unwrap();
    now += SEVEN_DAYS * 2;
    l.execute_unbond(s(user), 5_000, period3, now, 1).unwrap();

    delegate(&mut l, user, 20_000, period2).unwrap();
    l.execute_rebond(s(user), 20_000, period2, period3, now, 1).unwrap();
    now += SEVEN_DAYS * 2;
    l.execute_unbond(s(user), 10_000, period3, now, 1).unwrap();
    assert_eq!(staked(&l, user, period3), 10_000);

    l.execute_rebond(s(user), 20_000, period2, period3, now, 1).unwrap();
    assert_eq!(staked(&l, user, period3), 30_000);
    delegate(&mut l, user, 20_000, period3).unwrap();
    assert_eq!(staked(&l, user, period3), 50_000);
    now += SEVEN_DAYS * 2;
    l.execute_unbond(s(user), 20_000, period3, now, 1).unwrap();
}
