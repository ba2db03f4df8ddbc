use spl_staking::{
    claim, close_pda, fund, initialize_vault, stake, unstake, update_vault, withdraw, StakingError,
    User, Vault, MAX_STAKERS, SECONDS_PER_DAY,
};

fn id(n: u16) -> [u8; 32] {
    let mut k = [0u8; 32];
    k[0] = 1;
    k[1] = (n >> 8) as u8;
    k[2] = (n & 0xff) as u8;
    k
}

fn vault(daily: u64) -> Vault {
    initialize_vault([7u8; 32], [9u8; 32], daily, 254)
}

fn entry(v: &Vault, key: [u8; 32]) -> Option<User> {
    for i in 0..v.total_user_count as usize {
        if v.users[i].key == key {
            return Some(v.users[i]);
        }
    }
    None
}

fn live_stake_sum(v: &Vault) -> u64 {
    let mut s: u64 = 0;
    for i in 0..v.total_user_count as usize {
        s += v.users[i].staked_amount;
    }
    s
}

#[test]
fn new_vault_is_empty() {
    let v = vault(86400);
    assert_eq!(v.authority, [7u8; 32]);
    assert_eq!(v.stake_token_mint, [9u8; 32]);
    assert_eq!(v.daily_payout_amount, 86400);
    assert_eq!(v.bump, 254);
    assert_eq!(v.total_user_count, 0);
    assert_eq!(v.total_staked_amount, 0);
    assert_eq!(v.reward_pool_amount, 0);
    assert_eq!(v.last_updated_time, 0);
    assert_eq!(v.users.len(), MAX_STAKERS);
}

#[test]
fn single_staker_earns_the_daily_payout() {
    let mut v = vault(86400);
    assert_eq!(stake(&mut v, id(1), 100, 1_000), Ok(()));
    assert_eq!(v.last_updated_time, 1_000);
    assert_eq!(v.update(1_000 + SECONDS_PER_DAY), Ok(()));
    assert_eq!(entry(&v, id(1)).unwrap().earned_amount, 86400);
    assert_eq!(v.last_updated_time, 1_000 + 86400);
}

#[test]
fn two_stakers_share_pro_rata() {
    let mut v = vault(400);
    assert_eq!(stake(&mut v, id(1), 100, 1_000), Ok(()));
    assert_eq!(stake(&mut v, id(2), 300, 1_000), Ok(()));
    assert_eq!(v.total_staked_amount, 400);
    assert_eq!(v.update(1_000 + 86400), Ok(()));
    let a = entry(&v, id(1)).unwrap().earned_amount;
    let b = entry(&v, id(2)).unwrap().earned_amount;
    assert_eq!(a, 100);
    assert_eq!(b, 300);
    assert_eq!(a + b, v.daily_payout_amount);
}

#[test]
fn full_unstake_removes_the_entry() {
    let mut v = vault(86400);
    assert_eq!(stake(&mut v, id(1), 100, 1_000), Ok(()));
    assert_eq!(stake(&mut v, id(2), 50, 1_000), Ok(()));
    assert_eq!(stake(&mut v, id(3), 70, 1_000), Ok(()));
    assert_eq!(unstake(&mut v, id(1), 100, 1_000), Ok(()));
    assert_eq!(v.total_user_count, 2);
    assert_eq!(v.total_staked_amount, 120);
    assert!(entry(&v, id(1)).is_none());
    assert_eq!(v.users[0].key, id(3));
    assert_eq!(v.users[1].key, id(2));
    assert_eq!(v.users[2].key, [0u8; 32]);
    assert_eq!(v.users[2].staked_amount, 0);
    assert_eq!(claim(&mut v, id(1), 1_000), Ok(0));
}

#[test]
fn partial_unstake_keeps_the_entry() {
    let mut v = vault(86400);
    assert_eq!(stake(&mut v, id(1), 100, 1_000), Ok(()));
    assert_eq!(unstake(&mut v, id(1), 40, 1_000), Ok(()));
    assert_eq!(v.total_user_count, 1);
    assert_eq!(entry(&v, id(1)).unwrap().staked_amount, 60);
    assert_eq!(v.total_staked_amount, 60);
}

#[test]
fn full_unstake_forfeits_unclaimed_reward() {
    let mut v = vault(86400);
    assert_eq!(fund(&mut v, 1_000_000), Ok(()));
    assert_eq!(stake(&mut v, id(1), 100, 1_000), Ok(()));
    assert_eq!(unstake(&mut v, id(1), 100, 1_000 + 86400), Ok(()));
    assert_eq!(v.total_user_count, 0);
    assert_eq!(claim(&mut v, id(1), 1_000 + 86400), Ok(0));
    assert_eq!(v.reward_pool_amount, 1_000_000);
}

#[test]
fn claim_pays_and_zeroes_the_reward() {
    let mut v = vault(86400);
    assert_eq!(fund(&mut v, 1_000_000), Ok(()));
    assert_eq!(stake(&mut v, id(1), 100, 1_000), Ok(()));
    let now = 1_000 + 86400;
    assert_eq!(claim(&mut v, id(1), now), Ok(86400));
    assert_eq!(entry(&v, id(1)).unwrap().earned_amount, 0);
    assert_eq!(v.reward_pool_amount, 1_000_000 - 86400);
    assert_eq!(claim(&mut v, id(1), now), Ok(0));
    assert_eq!(v.reward_pool_amount, 1_000_000 - 86400);
}

#[test]
fn claim_beyond_the_pool_is_a_fault() {
    let mut v = vault(86400);
    assert_eq!(fund(&mut v, 10), Ok(()));
    assert_eq!(stake(&mut v, id(1), 100, 1_000), Ok(()));
    assert_eq!(claim(&mut v, id(1), 1_000 + 86400), Err(StakingError::ArithmeticFault));
    assert_eq!(v.reward_pool_amount, 10);
    assert_eq!(v.last_updated_time, 1_000);
    assert_eq!(entry(&v, id(1)).unwrap().earned_amount, 0);
}

#[test]
fn registry_holds_at_most_max_stakers() {
    let mut v = vault(0);
    for n in 0..MAX_STAKERS as u16 {
        assert_eq!(stake(&mut v, id(n), 1, 1_000), Ok(()));
    }
    assert_eq!(v.total_user_count as usize, MAX_STAKERS);
    assert_eq!(
        stake(&mut v, id(MAX_STAKERS as u16), 1, 1_000),
        Err(StakingError::CapacityExceeded)
    );
    assert_eq!(v.total_user_count as usize, MAX_STAKERS);
    assert_eq!(v.total_staked_amount, MAX_STAKERS as u64);
    assert_eq!(stake(&mut v, id(5), 1, 1_000), Ok(()));
    assert_eq!(entry(&v, id(5)).unwrap().staked_amount, 2);
}

#[test]
fn refresh_twice_at_one_time_changes_nothing() {
    let mut v = vault(86400);
    assert_eq!(stake(&mut v, id(1), 100, 1_000), Ok(()));
    assert_eq!(stake(&mut v, id(2), 30, 1_000), Ok(()));
    assert_eq!(v.update(50_000), Ok(()));
    let first: Vec<u64> = (0..2).map(|i| v.users[i].earned_amount).collect();
    assert_eq!(v.update(50_000), Ok(()));
    let second: Vec<u64> = (0..2).map(|i| v.users[i].earned_amount).collect();
    assert_eq!(first, second);
}

#[test]
fn clock_going_backward_is_a_fault() {
    let mut v = vault(86400);
    assert_eq!(stake(&mut v, id(1), 100, 5_000), Ok(()));
    assert_eq!(v.update(4_999), Err(StakingError::ArithmeticFault));
    assert_eq!(v.last_updated_time, 5_000);
    assert_eq!(stake(&mut v, id(1), 1, 4_000), Err(StakingError::ArithmeticFault));
    assert_eq!(v.total_staked_amount, 100);
}

#[test]
fn last_updated_time_never_decreases() {
    let mut v = vault(86400);
    let mut last = v.last_updated_time;
    let times: [u64; 6] = [10, 5, 10, 200, 150, 300];
    for (n, t) in times.iter().enumerate() {
        let _ = stake(&mut v, id(n as u16 % 2), 10, *t);
        assert!(v.last_updated_time >= last);
        last = v.last_updated_time;
        let _ = claim(&mut v, id(0), *t);
        assert!(v.last_updated_time >= last);
        last = v.last_updated_time;
    }
    assert_eq!(last, 300);
}

#[test]
fn refresh_with_nothing_staked_skips_accrual() {
    let mut v = vault(86400);
    assert_eq!(stake(&mut v, id(1), 100, 1_000), Ok(()));
    assert_eq!(unstake(&mut v, id(1), 100, 1_000), Ok(()));
    assert_eq!(v.total_staked_amount, 0);
    assert_eq!(v.update(1_000 + 86400), Ok(()));
    assert_eq!(v.last_updated_time, 1_000 + 86400);
    assert_eq!(stake(&mut v, id(2), 5, 1_000 + 2 * 86400), Ok(()));
    assert_eq!(entry(&v, id(2)).unwrap().earned_amount, 0);
}

#[test]
fn accrual_truncates_after_each_division() {
    let mut v = vault(100);
    assert_eq!(stake(&mut v, id(1), 3, 1_000), Ok(()));
    assert_eq!(v.update(1_000 + 86400), Ok(()));
    assert_eq!(entry(&v, id(1)).unwrap().earned_amount, 99);
    let mut w = vault(86399);
    assert_eq!(stake(&mut w, id(1), 1, 1_000), Ok(()));
    assert_eq!(w.update(1_001), Ok(()));
    assert_eq!(entry(&w, id(1)).unwrap().earned_amount, 0);
}

#[test]
fn stake_sum_matches_total_through_operations() {
    let mut v = vault(1_000);
    let steps: [(u16, u64, bool); 8] = [
        (1, 50, true),
        (2, 70, true),
        (1, 20, false),
        (3, 5, true),
        (2, 70, false),
        (1, 30, false),
        (4, 9, true),
        (3, 1, false),
    ];
    let mut t: u64 = 100;
    for (who, amount, is_stake) in steps.iter() {
        if *is_stake {
            assert_eq!(stake(&mut v, id(*who), *amount, t), Ok(()));
        } else {
            assert_eq!(unstake(&mut v, id(*who), *amount, t), Ok(()));
        }
        assert_eq!(v.total_staked_amount, live_stake_sum(&v));
        t += 1_000;
    }
    assert_eq!(v.total_user_count, 2);
    assert_eq!(v.total_staked_amount, 13);
}

#[test]
fn unstake_errors() {
    let mut v = vault(86400);
    assert_eq!(stake(&mut v, id(1), 100, 1_000), Ok(()));
    assert_eq!(unstake(&mut v, id(2), 1, 1_000), Err(StakingError::NotFound));
    assert_eq!(unstake(&mut v, id(1), 101, 1_000), Err(StakingError::InsufficientStake));
    assert_eq!(v.total_staked_amount, 100);
    assert_eq!(entry(&v, id(1)).unwrap().staked_amount, 100);
}

#[test]
fn zero_stake_is_refused() {
    let mut v = vault(86400);
    assert_eq!(stake(&mut v, id(1), 0, 1_000), Err(StakingError::ZeroAmount));
    assert_eq!(v.total_user_count, 0);
    assert_eq!(v.last_updated_time, 0);
}

#[test]
fn stake_overflow_is_a_fault() {
    let mut v = vault(0);
    assert_eq!(stake(&mut v, id(1), u64::MAX, 1_000), Ok(()));
    assert_eq!(stake(&mut v, id(2), 1, 1_000), Err(StakingError::ArithmeticFault));
    assert_eq!(stake(&mut v, id(1), 1, 1_000), Err(StakingError::ArithmeticFault));
    assert_eq!(v.total_user_count, 1);
}

#[test]
fn accrual_overflow_is_a_fault() {
    let mut v = vault(u64::MAX);
    assert_eq!(stake(&mut v, id(1), 1, 1_000), Ok(()));
    assert_eq!(v.update(1_002), Err(StakingError::ArithmeticFault));
    assert_eq!(v.last_updated_time, 1_000);
    assert_eq!(entry(&v, id(1)).unwrap().earned_amount, 0);
}

#[test]
fn fund_and_withdraw_move_the_pool() {
    let mut v = vault(86400);
    assert_eq!(fund(&mut v, 500), Ok(()));
    assert_eq!(withdraw(&mut v, 200), Ok(()));
    assert_eq!(v.reward_pool_amount, 300);
    assert_eq!(withdraw(&mut v, 301), Err(StakingError::ArithmeticFault));
    assert_eq!(fund(&mut v, u64::MAX), Err(StakingError::ArithmeticFault));
    assert_eq!(v.reward_pool_amount, 300);
}

#[test]
fn update_vault_changes_settings_only() {
    let mut v = vault(86400);
    assert_eq!(stake(&mut v, id(1), 100, 1_000), Ok(()));
    update_vault(&mut v, [3u8; 32], [4u8; 32], 10);
    assert_eq!(v.authority, [3u8; 32]);
    assert_eq!(v.stake_token_mint, [4u8; 32]);
    assert_eq!(v.daily_payout_amount, 10);
    assert_eq!(v.bump, 254);
    assert_eq!(v.total_staked_amount, 100);
    assert_eq!(v.last_updated_time, 1_000);
}

#[test]
fn close_pda_moves_all_lamports() {
    assert_eq!(close_pda(10, 32), Ok((42, 0)));
    assert_eq!(close_pda(u64::MAX, 1), Err(StakingError::ArithmeticFault));
}

#[test]
fn default_user_is_blank() {
    let u = User::default();
    assert_eq!(u.key, [0u8; 32]);
    assert_eq!(u.staked_amount, 0);
    assert_eq!(u.earned_amount, 0);
    let v = Vault::default();
    assert_eq!(v.users.len(), MAX_STAKERS);
}
