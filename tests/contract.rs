use wynd_stake::error::{ContractError, OverflowError, OverflowOperation};
use wynd_stake::ledger::{Ledger, Outbound, StakeConfig};
use wynd_stake::power::DECIMAL_FRACTIONAL;
use wynd_stake::CONTRACT_NAME;

const TOKEN: &str = "wasm1234567890";
const NOW: u64 = 1_571_797_419;
const SHORT: u64 = 20;
const LONG: u64 = 40;

fn s(x: &str) -> String {
    x.to_string()
}

fn ledger(tokens_per_power: u128, min_bond: u128, height: u64) -> Ledger {
    let config = vec![
        StakeConfig {
            unbonding_period: SHORT,
            voting_multiplier: DECIMAL_FRACTIONAL,
            reward_multiplier: DECIMAL_FRACTIONAL,
        },
        StakeConfig {
            unbonding_period: LONG,
            voting_multiplier: 2 * DECIMAL_FRACTIONAL,
            reward_multiplier: DECIMAL_FRACTIONAL / 2,
        },
    ];
    Ledger::instantiate(s(TOKEN), tokens_per_power, min_bond, config, Some(s("admin")), height)
}

#[test]
fn check_crate_name() {
    assert_eq!(CONTRACT_NAME, "crates.io:wynd_stake");
}

#[test]
fn min_bond_is_at_least_one() {
    let l = ledger(1000, 0, 1);
    assert_eq!(l.config.min_bond, 1);
}

#[test]
fn power_starts_at_min_bond() {
    let mut l = ledger(1000, 1000, 1);
    l.execute_bond(&s(TOKEN), s("user"), 999, SHORT, 1).unwrap();
    assert_eq!(l.query_voting_power(&s("user"), None), 0);
    l.execute_bond(&s(TOKEN), s("user"), 1, SHORT, 2).unwrap();
    assert_eq!(l.query_voting_power(&s("user"), None), 1);
}

#[test]
fn bond_checks_token_and_period() {
    let mut l = ledger(1000, 1000, 1);
    assert_eq!(
        l.execute_bond(&s("other"), s("user"), 5000, SHORT, 1).unwrap_err(),
        ContractError::Cw20AddressesNotMatch { got: s("other"), expected: s(TOKEN) }
    );
    assert_eq!(
        l.execute_bond(&s(TOKEN), s("user"), 5000, 7, 1).unwrap_err(),
        ContractError::NoUnbondingPeriodFound(7)
    );
    assert_eq!(l.query_total_staked(), 0);
}

#[test]
fn bond_updates_powers_buckets_and_history() {
    let mut l = ledger(1000, 1000, 1);
    l.execute_bond(&s(TOKEN), s("user1"), 5000, SHORT, 10).unwrap();
    l.execute_bond(&s(TOKEN), s("user1"), 3000, LONG, 11).unwrap();
    l.execute_bond(&s(TOKEN), s("user2"), 1000, LONG, 12).unwrap();
    // votes: 5 + 3 * 2; rewards: 5 + 3 / 2
    assert_eq!(l.query_voting_power(&s("user1"), None), 11);
    assert_eq!(l.query_rewards(&s("user1")), 6);
    assert_eq!(l.query_voting_power(&s("user2"), None), 2);
    assert_eq!(l.query_total_power(None), 13);
    assert_eq!(l.query_voting_power(&s("user1"), Some(10)), 5);
    assert_eq!(l.query_voting_power(&s("user1"), Some(9)), 0);
    assert_eq!(l.query_total_power(Some(11)), 11);
    assert_eq!(l.query_total_power(Some(5)), 0);
    let info = l.query_bonding_info();
    assert_eq!(info[0].total_staked, 5000);
    assert_eq!(info[1].total_staked, 4000);
    assert_eq!(l.query_total_staked(), 9000);
    let all = l.query_all_staked(&s("user1"), NOW);
    assert_eq!(all.len(), 2);
    assert_eq!(all[1].stake, 3000);
}

#[test]
fn unbond_and_claim_workflow() {
    let mut l = ledger(1000, 1000, 1);
    l.execute_bond(&s(TOKEN), s("user"), 5000, SHORT, 1).unwrap();
    l.execute_unbond(s("user"), 2000, SHORT, NOW, 2).unwrap();
    assert_eq!(l.query_voting_power(&s("user"), None), 3);
    assert_eq!(l.query_total_staked(), 3000);
    assert_eq!(l.query_total_unbonding(), 2000);
    let claims = l.query_claims(&s("user"));
    assert_eq!(claims.len(), 1);
    assert_eq!(claims[0].amount, 2000);
    assert_eq!(claims[0].release_at, NOW + SHORT);

    assert_eq!(
        l.execute_claim(&s("user"), NOW + SHORT - 1).unwrap_err(),
        ContractError::NothingToClaim
    );
    let msgs = l.execute_claim(&s("user"), NOW + SHORT).unwrap();
    match &msgs[0] {
        Outbound::Undelegate { contract, recipient, amount } => {
            assert_eq!(contract, TOKEN);
            assert_eq!(recipient, "user");
            assert_eq!(*amount, 2000);
        }
        _ => panic!("expected an undelegation"),
    }
    assert_eq!(l.query_total_unbonding(), 0);
    assert!(l.query_claims(&s("user")).is_empty());
}

#[test]
fn unbond_more_than_staked_fails() {
    let mut l = ledger(1000, 1000, 1);
    l.execute_bond(&s(TOKEN), s("user"), 5000, SHORT, 1).unwrap();
    assert!(matches!(
        l.execute_unbond(s("user"), 5001, SHORT, NOW, 2).unwrap_err(),
        ContractError::Overflow(_)
    ));
    assert!(matches!(
        l.execute_unbond(s("other"), 1, SHORT, NOW, 2).unwrap_err(),
        ContractError::Overflow(_)
    ));
    assert_eq!(
        l.execute_unbond(s("user"), 1, 99, NOW, 2).unwrap_err(),
        ContractError::NoUnbondingPeriodFound(99)
    );
}

#[test]
fn rebond_validation() {
    let mut l = ledger(1000, 1000, 1);
    l.execute_bond(&s(TOKEN), s("user"), 5000, SHORT, 1).unwrap();
    assert_eq!(
        l.execute_rebond(s("user"), 0, SHORT, LONG, NOW, 2).unwrap_err(),
        ContractError::NoRebondAmount
    );
    assert_eq!(
        l.execute_rebond(s("user"), 10, SHORT, SHORT, NOW, 2).unwrap_err(),
        ContractError::SameUnbondingRebond
    );
    assert_eq!(
        l.execute_rebond(s("user"), 10, 3, LONG, NOW, 2).unwrap_err(),
        ContractError::NoUnbondingPeriodFound(3)
    );
    assert_eq!(
        l.execute_rebond(s("user"), 10, SHORT, 4, NOW, 2).unwrap_err(),
        ContractError::NoUnbondingPeriodFound(4)
    );
}

#[test]
fn rebond_to_shorter_period_is_free_at_once() {
    let mut l = ledger(1000, 1000, 1);
    l.execute_bond(&s(TOKEN), s("user"), 5000, LONG, 1).unwrap();
    l.execute_rebond(s("user"), 5000, LONG, SHORT, NOW, 2).unwrap();
    let staked = l.query_staked(&s("user"), SHORT, NOW).unwrap();
    assert_eq!(staked.stake, 5000);
    assert_eq!(staked.total_locked, 0);
    assert_eq!(l.query_voting_power(&s("user"), None), 5);
    l.execute_unbond(s("user"), 5000, SHORT, NOW, 3).unwrap();
}

#[test]
fn rebond_to_longer_period_locks_the_difference() {
    let mut l = ledger(1000, 1000, 1);
    l.execute_bond(&s(TOKEN), s("user"), 6000, SHORT, 1).unwrap();
    l.execute_rebond(s("user"), 6000, SHORT, LONG, NOW, 2).unwrap();
    let staked = l.query_staked(&s("user"), LONG, NOW).unwrap();
    assert_eq!(staked.stake, 6000);
    assert_eq!(staked.total_locked, 6000);
    assert_eq!(l.query_voting_power(&s("user"), None), 12);
    // the moved stake stays locked for the difference of the periods
    let lock_end = NOW + (LONG - SHORT);
    let locked = ContractError::Overflow(OverflowError {
        operation: OverflowOperation::Sub,
        operand1: 0,
        operand2: 6000,
    });
    assert_eq!(l.execute_unbond(s("user"), 6000, LONG, lock_end - 1, 3).unwrap_err(), locked);
    assert_eq!(
        l.execute_rebond(s("user"), 6000, LONG, SHORT, lock_end - 1, 3).unwrap_err(),
        locked
    );
    l.execute_unbond(s("user"), 6000, LONG, lock_end, 3).unwrap();
    assert_eq!(l.query_voting_power(&s("user"), None), 0);
}

#[test]
fn unbonding_a_locked_rebond_fails_until_it_matures() {
    let mut l = ledger(1000, 1000, 1);
    l.execute_bond(&s(TOKEN), s("user"), 2000, LONG, 1).unwrap();
    l.execute_bond(&s(TOKEN), s("user"), 3000, SHORT, 1).unwrap();
    l.execute_rebond(s("user"), 3000, SHORT, LONG, NOW, 2).unwrap();
    assert_eq!(
        l.execute_unbond(s("user"), 2500, LONG, NOW + 1, 3).unwrap_err(),
        ContractError::Overflow(OverflowError {
            operation: OverflowOperation::Sub,
            operand1: 2000,
            operand2: 2500,
        })
    );
    l.execute_unbond(s("user"), 2500, LONG, NOW + LONG - SHORT, 3).unwrap();
    assert_eq!(l.query_staked(&s("user"), LONG, NOW + LONG).unwrap().stake, 2500);
}

#[test]
fn zero_amounts_are_rejected() {
    let mut l = ledger(1000, 1000, 1);
    assert_eq!(
        l.execute_bond(&s(TOKEN), s("user"), 0, SHORT, 1).unwrap_err(),
        ContractError::NoFunds
    );
    assert_eq!(
        l.execute_unbond(s("user"), 0, SHORT, NOW, 1).unwrap_err(),
        ContractError::InvalidZeroAmount
    );
}

#[test]
fn rebond_rejects_unknown_destination_before_capacity() {
    let mut l = ledger(1000, 1000, 1);
    l.execute_bond(&s(TOKEN), s("user"), 1000, SHORT, 1).unwrap();
    assert_eq!(
        l.execute_rebond(s("user"), 5000, SHORT, 99, NOW, 1).unwrap_err(),
        ContractError::NoUnbondingPeriodFound(99)
    );
}

#[test]
fn conservation_after_mixed_operations() {
    let mut l = ledger(1000, 1000, 1);
    l.execute_bond(&s(TOKEN), s("a"), 7000, SHORT, 1).unwrap();
    l.execute_bond(&s(TOKEN), s("b"), 4000, LONG, 1).unwrap();
    l.execute_rebond(s("a"), 3000, SHORT, LONG, NOW, 2).unwrap();
    l.execute_unbond(s("b"), 1000, LONG, NOW, 3).unwrap();
    l.execute_rebond(s("b"), 2000, LONG, SHORT, NOW, 4).unwrap();
    let buckets: u128 = l.query_bonding_info().iter().map(|b| b.total_staked).sum();
    let records: u128 = ["a", "b"]
        .iter()
        .flat_map(|who| l.query_all_staked(&s(who), NOW))
        .map(|r| r.stake)
        .sum();
    assert_eq!(buckets, 10_000);
    assert_eq!(records, 10_000);
}

#[test]
fn hooks_are_admin_managed_and_notified() {
    let mut l = ledger(1000, 1000, 1);
    assert_eq!(
        l.add_hook(&s("user"), s("hook1")).unwrap_err(),
        ContractError::NotAdmin
    );
    l.add_hook(&s("admin"), s("hook1")).unwrap();
    l.add_hook(&s("admin"), s("hook2")).unwrap();
    assert_eq!(
        l.add_hook(&s("admin"), s("hook1")).unwrap_err(),
        ContractError::HookAlreadyRegistered
    );
    let msgs = l.execute_bond(&s(TOKEN), s("user"), 5000, SHORT, 1).unwrap();
    assert_eq!(msgs.len(), 2);
    match &msgs[1] {
        Outbound::MemberChangedHook { hook, diffs } => {
            assert_eq!(hook, "hook2");
            assert_eq!(diffs.len(), 1);
            assert_eq!(diffs[0].key, "user");
            assert_eq!(diffs[0].old, None);
            assert_eq!(diffs[0].new, Some(5));
        }
        _ => panic!("expected a hook message"),
    }
    // no change of voting power, no notification
    let msgs = l.execute_bond(&s(TOKEN), s("user"), 1, SHORT, 2).unwrap();
    assert!(msgs.is_empty());
    l.remove_hook(&s("admin"), &s("hook1")).unwrap();
    assert_eq!(
        l.remove_hook(&s("admin"), &s("hook1")).unwrap_err(),
        ContractError::HookNotRegistered
    );
    let msgs = l.execute_unbond(s("user"), 5001, SHORT, NOW, 3).unwrap();
    assert_eq!(msgs.len(), 1);
    match &msgs[0] {
        Outbound::MemberChangedHook { diffs, .. } => {
            assert_eq!(diffs[0].old, Some(5));
            assert_eq!(diffs[0].new, None);
        }
        _ => panic!("expected a hook message"),
    }
}

#[test]
fn admin_can_be_replaced() {
    let mut l = ledger(1000, 1000, 1);
    assert_eq!(
        l.update_admin(&s("user"), None).unwrap_err(),
        ContractError::NotAdmin
    );
    l.update_admin(&s("admin"), Some(s("new"))).unwrap();
    assert_eq!(l.admin, Some(s("new")));
    l.add_hook(&s("new"), s("hook")).unwrap();
}

#[test]
fn staked_query_rejects_unknown_period() {
    let l = ledger(1000, 1000, 1);
    assert_eq!(
        l.query_staked(&s("user"), 5, NOW).unwrap_err(),
        ContractError::NoUnbondingPeriodFound(5)
    );
}

const UNBONDING_PERIOD: u64 = 100 / 5;
const HEIGHT: u64 = 12_345;

fn default_ledger() -> Ledger {
    let config = vec![StakeConfig {
        unbonding_period: UNBONDING_PERIOD,
        voting_multiplier: DECIMAL_FRACTIONAL,
        reward_multiplier: DECIMAL_FRACTIONAL,
    }];
    Ledger::instantiate(s(TOKEN), 1_000, 5_000, config, Some(s("admin")), HEIGHT)
}

fn bond_cw20(l: &mut Ledger, user1: u128, user2: u128, user3: u128) {
    for (addr, stake) in [("user1", user1), ("user2", user2), ("user3", user3)] {
        if stake != 0 {
            l.execute_bond(&s(TOKEN), s(addr), stake, UNBONDING_PERIOD, HEIGHT).unwrap();
        }
    }
}

fn unbond(l: &mut Ledger, user1: u128, user2: u128, user3: u128, time_delta: u64) {
    for (addr, stake) in [("user1", user1), ("user2", user2), ("user3", user3)] {
        if stake != 0 {
            l.execute_unbond(s(addr), stake, UNBONDING_PERIOD, NOW + time_delta, HEIGHT)
                .unwrap();
        }
    }
}

fn claims(l: &Ledger, who: &str) -> Vec<(u128, u64)> {
    l.query_claims(&s(who))
        .iter()
        .map(|c| (c.amount, c.release_at))
        .collect()
}

fn undelegated(msgs: &[Outbound], who: &str) -> u128 {
    match &msgs[0] {
        Outbound::Undelegate { recipient, amount, .. } if recipient == who => *amount,
        _ => panic!("expected an undelegation to {}", who),
    }
}

#[test]
fn unbond_claim_workflow() {
    let mut l = default_ledger();
    bond_cw20(&mut l, 12_000, 7_500, 4_000);
    unbond(&mut l, 4_500, 2_600, 0, 10);

    let expires = NOW + 10 + UNBONDING_PERIOD;
    assert_eq!(claims(&l, "user1"), vec![(4_500, expires)]);
    assert_eq!(claims(&l, "user2"), vec![(2_600, expires)]);
    assert_eq!(claims(&l, "user3"), vec![]);

    // another unbond later on
    unbond(&mut l, 0, 1_345, 1_500, 22);
    let expires2 = NOW + 22 + UNBONDING_PERIOD;
    assert_eq!(claims(&l, "user1"), vec![(4_500, expires)]);
    assert_eq!(claims(&l, "user2"), vec![(2_600, expires), (1_345, expires2)]);
    assert_eq!(claims(&l, "user3"), vec![(1_500, expires2)]);

    // nothing can be withdrawn yet
    assert_eq!(
        l.execute_claim(&s("user1"), NOW + 22).unwrap_err(),
        ContractError::NothingToClaim
    );

    // the first section matures
    let now3 = NOW + UNBONDING_PERIOD + 10;
    let res = l.execute_claim(&s("user1"), now3).unwrap();
    assert_eq!(undelegated(&res, "user1"), 4_500);
    let res = l.execute_claim(&s("user2"), now3).unwrap();
    assert_eq!(undelegated(&res, "user2"), 2_600);
    assert_eq!(
        l.execute_claim(&s("user3"), now3).unwrap_err(),
        ContractError::NothingToClaim
    );
    assert_eq!(claims(&l, "user1"), vec![]);
    assert_eq!(claims(&l, "user2"), vec![(1_345, expires2)]);
    assert_eq!(claims(&l, "user3"), vec![(1_500, expires2)]);

    // a few more claims for the second user
    unbond(&mut l, 0, 600, 0, 6 + UNBONDING_PERIOD);
    unbond(&mut l, 0, 1_005, 0, 10 + UNBONDING_PERIOD);

    // all of them can be claimed at once
    let res = l.execute_claim(&s("user2"), NOW + UNBONDING_PERIOD * 2 + 12).unwrap();
    assert_eq!(undelegated(&res, "user2"), 2_950);
    assert_eq!(claims(&l, "user2"), vec![]);
}

#[test]
fn delegate_unbond_under_min_bond() {
    let user = "user";
    let (period1, period2) = (1000u64, 4000u64);
    let config = vec![
        StakeConfig {
            unbonding_period: period1,
            voting_multiplier: DECIMAL_FRACTIONAL / 100 * 40,
            reward_multiplier: DECIMAL_FRACTIONAL,
        },
        StakeConfig {
            unbonding_period: period2,
            voting_multiplier: DECIMAL_FRACTIONAL / 100 * 80,
            reward_multiplier: DECIMAL_FRACTIONAL,
        },
    ];
    let mut l = Ledger::instantiate(s(TOKEN), 1000, 2_000, config, None, 1);
    let staked = |l: &Ledger, p: u64| l.query_staked(&s(user), p, NOW).unwrap().stake;

    // 5_000 * 0.4 = 2_000
    l.execute_bond(&s(TOKEN), s(user), 5_000, period1, 1).unwrap();
    assert_eq!(staked(&l, period1), 5_000);
    assert_eq!(l.query_voting_power(&s(user), None), 2);

    // 1_800 < 2_000: no power
    l.execute_bond(&s(TOKEN), s(user), 1_800, period2, 1).unwrap();
    assert_eq!(staked(&l, period2), 1_800);
    assert_eq!(l.query_voting_power(&s(user), None), 2);

    // at min_bond the stake counts, even if its power stays small
    l.execute_bond(&s(TOKEN), s(user), 200, period2, 1).unwrap();
    assert_eq!(staked(&l, period2), 2_000);
    assert_eq!(l.query_voting_power(&s(user), None), 3);

    l.execute_bond(&s(TOKEN), s(user), 5_000, period2, 1).unwrap();
    assert_eq!(staked(&l, period2), 7_000);
    assert_eq!(l.query_voting_power(&s(user), None), 7);

    // the first bucket drops under min_bond
    l.execute_unbond(s(user), 3_500, period1, NOW, 1).unwrap();
    assert_eq!(staked(&l, period1), 1_500);
    assert_eq!(l.query_voting_power(&s(user), None), 5);
}

fn ledger_with(min_bond: u128, config: Vec<(u64, u128, u128)>) -> Ledger {
    let config = config
        .into_iter()
        .map(|(p, v, r)| StakeConfig {
            unbonding_period: p,
            voting_multiplier: v,
            reward_multiplier: r,
        })
        .collect();
    Ledger::instantiate(s(TOKEN), 1_000, min_bond, config, Some(s("admin")), HEIGHT)
}

fn bond_cw20_with_period(l: &mut Ledger, user1: u128, user2: u128, user3: u128, period: u64) {
    for (addr, stake) in [("user1", user1), ("user2", user2), ("user3", user3)] {
        if stake != 0 {
            l.execute_bond(&s(TOKEN), s(addr), stake, period, HEIGHT).unwrap();
        }
    }
}

fn rebond_with_period(l: &mut Ledger, user1: u128, user2: u128, user3: u128, from: u64, to: u64) {
    for (addr, stake) in [("user1", user1), ("user2", user2), ("user3", user3)] {
        if stake != 0 {
            l.execute_rebond(s(addr), stake, from, to, NOW + 3, HEIGHT).unwrap();
        }
    }
}

fn rewards(l: &Ledger, user: &str) -> u128 {
    l.query_rewards(&s(user))
}

#[test]
fn rewards_saved() {
    let mut l = ledger_with(5_000, vec![(UNBONDING_PERIOD, DECIMAL_FRACTIONAL, DECIMAL_FRACTIONAL / 100)]);
    assert_eq!(0, rewards(&l, "user1"));
    assert_eq!(0, rewards(&l, "user2"));
    assert_eq!(0, rewards(&l, "user3"));

    // rounds down, and respects the cut-off
    bond_cw20(&mut l, 1_200_000, 770_000, 4_000_000);
    assert_eq!(12, rewards(&l, "user1"), "1_200_000 * 1% / 1_000 = 12");
    assert_eq!(7, rewards(&l, "user2"), "770_000 * 1% / 1_000 = 7");
    assert_eq!(40, rewards(&l, "user3"), "4_000_000 * 1% / 1_000 = 40");

    unbond(&mut l, 100_000, 99_600, 3_600_000, UNBONDING_PERIOD);
    assert_eq!(11, rewards(&l, "user1"), "1_100_000 * 1% / 1_000 = 11");
    assert_eq!(6, rewards(&l, "user2"), "670_400 * 1% / 1_000 = 6");
    // min_bond applies to the stake (400_000), before the multiplier
    assert_eq!(4, rewards(&l, "user3"));
}

#[test]
fn rewards_rebonding() {
    let period2 = 2 * UNBONDING_PERIOD;
    let mut l = ledger_with(
        1000,
        vec![
            (UNBONDING_PERIOD, DECIMAL_FRACTIONAL, DECIMAL_FRACTIONAL / 100),
            (period2, 2 * DECIMAL_FRACTIONAL, DECIMAL_FRACTIONAL / 10),
        ],
    );
    assert_eq!(0, rewards(&l, "user1"));
    assert_eq!(0, rewards(&l, "user2"));
    assert_eq!(0, rewards(&l, "user3"));

    bond_cw20(&mut l, 1_000_000, 180_000, 10_000);
    assert_eq!(10, rewards(&l, "user1"), "1_000_000 * 1% / 1_000 = 10");
    assert_eq!(1, rewards(&l, "user2"), "180_000 * 1% / 1_000 = 1");
    assert_eq!(0, rewards(&l, "user3"), "10_000 * 1% = 100 < min_bond");

    bond_cw20_with_period(&mut l, 1_000_000, 100_000, 9_000, period2);
    assert_eq!(110, rewards(&l, "user1"), "10 + 1_000_000 * 10% / 1_000 = 110");
    assert_eq!(11, rewards(&l, "user2"), "1 + 100_000 * 10% / 1_000 = 11");
    assert_eq!(0, rewards(&l, "user3"), "0 + 9_000 * 10% = 900 < min_bond");

    rebond_with_period(&mut l, 100_000, 180_000, 10_000, UNBONDING_PERIOD, period2);
    let stake = |l: &Ledger, who: &str, p: u64| l.query_staked(&s(who), p, NOW).unwrap().stake;
    assert_eq!(stake(&l, "user1", UNBONDING_PERIOD), 900_000);
    assert_eq!(stake(&l, "user2", UNBONDING_PERIOD), 0);
    assert_eq!(stake(&l, "user3", UNBONDING_PERIOD), 0);
    assert_eq!(stake(&l, "user1", period2), 1_100_000);
    assert_eq!(stake(&l, "user2", period2), 280_000);
    assert_eq!(stake(&l, "user3", period2), 19_000);
    assert_eq!(119, rewards(&l, "user1"), "9 + 110 = 119");
    assert_eq!(28, rewards(&l, "user2"), "0 + 280_000 * 10% / 1_000 = 28");
    assert_eq!(1, rewards(&l, "user3"), "0 + 19_000 * 10% / 1_000 = 1");
}

fn hook_diff(msg: &Outbound) -> (String, Option<u128>, Option<u128>) {
    match msg {
        Outbound::MemberChangedHook { hook, diffs } => {
            assert_eq!(diffs.len(), 1);
            assert_eq!(diffs[0].key, "user1");
            (hook.clone(), diffs[0].old, diffs[0].new)
        }
        _ => panic!("expected a hook message"),
    }
}

#[test]
fn add_remove_hooks() {
    let mut l = default_ledger();
    assert!(l.hooks.is_empty());

    // non-admin cannot add a hook
    assert_eq!(
        l.add_hook(&s("user1"), s("hook1")).unwrap_err(),
        ContractError::NotAdmin
    );
    // admin can add it, and it appears in the list
    l.add_hook(&s("admin"), s("hook1")).unwrap();
    assert_eq!(l.hooks, vec![s("hook1")]);
    // cannot remove a contract that is not registered
    assert_eq!(
        l.remove_hook(&s("admin"), &s("hook2")).unwrap_err(),
        ContractError::HookNotRegistered
    );
    l.add_hook(&s("admin"), s("hook2")).unwrap();
    assert_eq!(l.hooks, vec![s("hook1"), s("hook2")]);
    // cannot re-add an existing contract
    assert_eq!(
        l.add_hook(&s("admin"), s("hook1")).unwrap_err(),
        ContractError::HookAlreadyRegistered
    );
    // non-admin cannot remove
    assert_eq!(
        l.remove_hook(&s("user1"), &s("hook1")).unwrap_err(),
        ContractError::NotAdmin
    );
    l.remove_hook(&s("admin"), &s("hook1")).unwrap();
    assert_eq!(l.hooks, vec![s("hook2")]);
}

#[test]
fn hooks_fire() {
    let mut l = default_ledger();
    assert!(l.hooks.is_empty());
    l.add_hook(&s("admin"), s("hook1")).unwrap();
    l.add_hook(&s("admin"), s("hook2")).unwrap();

    assert_eq!(l.query_voting_power(&s("user1"), None), 0);
    let res = l.execute_bond(&s(TOKEN), s("user1"), 13_800, UNBONDING_PERIOD, HEIGHT).unwrap();
    assert_eq!(l.query_voting_power(&s("user1"), None), 13);
    assert_eq!(res.len(), 2);
    assert_eq!(hook_diff(&res[0]), (s("hook1"), None, Some(13)));
    assert_eq!(hook_diff(&res[1]), (s("hook2"), None, Some(13)));

    let res = l.execute_unbond(s("user1"), 7_300, UNBONDING_PERIOD, NOW, HEIGHT).unwrap();
    assert_eq!(l.query_voting_power(&s("user1"), None), 6);
    assert_eq!(res.len(), 2);
    assert_eq!(hook_diff(&res[0]), (s("hook1"), Some(13), Some(6)));
    assert_eq!(hook_diff(&res[1]), (s("hook2"), Some(13), Some(6)));
}

#[test]
fn ensure_bonding_edge_cases() {
    // min_bond 0 (raised to 1), tokens_per_power 100
    let config = vec![StakeConfig {
        unbonding_period: UNBONDING_PERIOD,
        voting_multiplier: DECIMAL_FRACTIONAL,
        reward_multiplier: DECIMAL_FRACTIONAL,
    }];
    let mut l = Ledger::instantiate(s(TOKEN), 100, 0, config, Some(s("admin")), HEIGHT);
    bond_cw20(&mut l, 50, 1, 102);
    assert_eq!(l.query_voting_power(&s("user1"), None), 0);
    assert_eq!(l.query_voting_power(&s("user2"), None), 0);
    assert_eq!(l.query_voting_power(&s("user3"), None), 1);
    unbond(&mut l, 49, 1, 102, 2);
    assert_eq!(l.query_voting_power(&s("user1"), None), 0);
    assert_eq!(l.query_voting_power(&s("user2"), None), 0);
    assert_eq!(l.query_voting_power(&s("user3"), None), 0);
    assert_eq!(l.query_total_power(None), 0);
}

fn assert_users(l: &Ledger, powers: [u128; 3], height: Option<u64>) {
    for (who, p) in ["user1", "user2", "user3"].iter().zip(powers) {
        assert_eq!(l.query_voting_power(&s(who), height), p);
    }
    assert_eq!(l.query_total_power(height), powers.iter().sum::<u128>());
}

fn assert_stake(l: &Ledger, stakes: [u128; 3]) {
    for (who, st) in ["user1", "user2", "user3"].iter().zip(stakes) {
        assert_eq!(l.query_staked(&s(who), UNBONDING_PERIOD, NOW).unwrap().stake, st);
    }
}

#[test]
fn proper_instantiation() {
    let l = default_ledger();
    assert_eq!(l.admin, Some(s("admin")));
    assert_eq!(l.query_total_power(None), 0);
    assert_eq!(l.distribution.shares_per_point, 0);
    assert_eq!(l.distribution.shares_leftover, 0);
    assert_eq!(l.distribution.distributed_total, 0);
    assert_eq!(l.distribution.withdrawable_total, 0);
    let adj = l.query_withdraw_adjustment_data(&s("user1"));
    assert_eq!(adj.shares_correction, 0);
    assert_eq!(adj.withdrawn_rewards, 0);
    assert_eq!(adj.delegated, "user1");
}

#[test]
fn cw20_token_bond() {
    let mut l = default_ledger();
    let initial_height = HEIGHT;
    assert_users(&l, [0, 0, 0], None);

    // rounds down, and respects the cut-off
    bond_cw20(&mut l, 12_000, 7_500, 4_000);
    assert_stake(&l, [12_000, 7_500, 4_000]);
    assert_users(&l, [12, 7, 0], None);
    // a write is visible from its own height on, and not before
    assert_users(&l, [12, 7, 0], Some(initial_height));
    assert_users(&l, [0, 0, 0], Some(initial_height - 1));
}

#[test]
fn cw20_token_claim() {
    let unbonding_period: u64 = 20;
    let mut l = default_ledger();
    bond_cw20(&mut l, 20_000, 13_500, 500);
    unbond(&mut l, 7_900, 4_600, 0, unbonding_period);
    assert_stake(&l, [12_100, 8_900, 500]);
    assert_users(&l, [12, 8, 0], None);

    let expires = NOW + unbonding_period + unbonding_period;
    assert_eq!(claims(&l, "user1"), vec![(7_900, expires)]);

    let res = l.execute_claim(&s("user1"), expires).unwrap();
    assert_eq!(res.len(), 1);
    assert_eq!(undelegated(&res, "user1"), 7_900);
}

#[test]
fn test_query_bonding_info() {
    let l = default_ledger();
    let info = l.query_bonding_info();
    assert_eq!(info.len(), 1);
    assert_eq!(info[0].unbonding_period, 20);
    assert_eq!(info[0].voting_multiplier, DECIMAL_FRACTIONAL);
    assert_eq!(info[0].reward_multiplier, DECIMAL_FRACTIONAL);
    assert_eq!(info[0].total_staked, 0);
}

#[test]
fn test_token_contract() {
    let l = default_ledger();
    assert_eq!(l.config.cw20_contract, TOKEN);
}
