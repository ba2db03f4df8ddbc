use crate::error::StakingError;
use crate::state::Vault;
use vstd::prelude::*;

verus! {

/// A new vault for the pool of `stake_token_mint`, reconfigurable by
/// `authority`, paying out `daily_payout_amount` per day: no funds, no
/// participants, never refreshed.
pub fn initialize_vault(
    authority: [u8; 32],
    stake_token_mint: [u8; 32],
    daily_payout_amount: u64,
    bump: u8,
) -> (r: Vault)
    ensures
        r.wf(),
        r.authority == authority,
        r.stake_token_mint == stake_token_mint,
        r.daily_payout_amount == daily_payout_amount,
        r.bump == bump,
        r.reward_pool_amount == 0,
        r.total_staked_amount == 0,
        r.last_updated_time == 0,
        r.total_user_count == 0,
{
    let mut vault = Vault::default();
    vault.bump = bump;
    vault.stake_token_mint = stake_token_mint;
    vault.daily_payout_amount = daily_payout_amount;
    vault.authority = authority;
    vault
}

/// Replaces the authority, the staked asset and the daily payout of `vault`.
/// Nothing else changes; rewards are not refreshed first.
pub fn update_vault(
    vault: &mut Vault,
    new_authority: [u8; 32],
    stake_token_mint: [u8; 32],
    daily_payout_amount: u64,
)
    requires
        old(vault).wf(),
    ensures
        final(vault).wf(),
        final(vault).authority == new_authority,
        final(vault).stake_token_mint == stake_token_mint,
        final(vault).daily_payout_amount == daily_payout_amount,
        final(vault).bump == old(vault).bump,
        final(vault).reward_pool_amount == old(vault).reward_pool_amount,
        final(vault).total_staked_amount == old(vault).total_staked_amount,
        final(vault).last_updated_time == old(vault).last_updated_time,
        final(vault).total_user_count == old(vault).total_user_count,
        final(vault).users@ == old(vault).users@,
{
    vault.stake_token_mint = stake_token_mint;
    vault.daily_payout_amount = daily_payout_amount;
    vault.authority = new_authority;
}

/// Adds `amount` to the reward pool, for funds transferred in.
pub fn fund(vault: &mut Vault, amount: u64) -> (r: Result<(), StakingError>)
    requires
        old(vault).wf(),
    ensures
        final(vault).wf(),
        r is Ok <==> old(vault).reward_pool_amount + amount <= u64::MAX,
        r is Err ==> r->Err_0 == StakingError::ArithmeticFault && *final(vault) == *old(vault),
        r is Ok ==> final(vault).reward_pool_amount == old(vault).reward_pool_amount + amount,
        r is Ok ==> only_pool_changed(old(vault), final(vault)),
{
    match vault.reward_pool_amount.checked_add(amount) {
        None => Err(StakingError::ArithmeticFault),
        Some(p) => {
            vault.reward_pool_amount = p;
            Ok(())
        },
    }
}

/// Takes `amount` out of the reward pool, for funds transferred out.
pub fn withdraw(vault: &mut Vault, amount: u64) -> (r: Result<(), StakingError>)
    requires
        old(vault).wf(),
    ensures
        final(vault).wf(),
        r is Ok <==> amount <= old(vault).reward_pool_amount,
        r is Err ==> r->Err_0 == StakingError::ArithmeticFault && *final(vault) == *old(vault),
        r is Ok ==> final(vault).reward_pool_amount == old(vault).reward_pool_amount - amount,
        r is Ok ==> only_pool_changed(old(vault), final(vault)),
{
    match vault.reward_pool_amount.checked_sub(amount) {
        None => Err(StakingError::ArithmeticFault),
        Some(p) => {
            vault.reward_pool_amount = p;
            Ok(())
        },
    }
}

/// Whether `b` differs from `a` at most in its reward pool.
pub open spec fn only_pool_changed(a: &Vault, b: &Vault) -> bool {
    &&& a.same_settings(b)
    &&& b.total_staked_amount == a.total_staked_amount
    &&& b.last_updated_time == a.last_updated_time
    &&& b.total_user_count == a.total_user_count
    &&& b.users@ == a.users@
}

/// Records a deposit of `amount` by `staker` at time `now`. A deposit of
/// nothing is refused; any other is `Vault::stake`.
pub fn stake(vault: &mut Vault, staker: [u8; 32], amount: u64, now: u64) -> (r: Result<
    (),
    StakingError,
>)
    requires
        old(vault).wf(),
    ensures
        final(vault).wf(),
        final(vault).last_updated_time >= old(vault).last_updated_time,
        amount == 0 ==> r == Err::<(), StakingError>(StakingError::ZeroAmount) && *final(vault)
            == *old(vault),
        amount > 0 ==> old(vault).stake_post(final(vault), staker, amount, now, r),
{
    if amount == 0 {
        return Err(StakingError::ZeroAmount);
    }
    vault.stake(staker, amount, now)
}

/// Withdraws `amount` of the principal of `staker` at time `now`: `Vault::unstake`.
pub fn unstake(vault: &mut Vault, staker: [u8; 32], amount: u64, now: u64) -> (r: Result<
    (),
    StakingError,
>)
    requires
        old(vault).wf(),
    ensures
        final(vault).wf(),
        final(vault).last_updated_time >= old(vault).last_updated_time,
        old(vault).unstake_post(final(vault), staker, amount, now, r),
{
    vault.unstake(staker, amount, now)
}

/// Pays out the reward of `staker` at time `now`: `Vault::claim`. The amount
/// returned is what is to be transferred out.
pub fn claim(vault: &mut Vault, staker: [u8; 32], now: u64) -> (r: Result<u64, StakingError>)
    requires
        old(vault).wf(),
    ensures
        final(vault).wf(),
        final(vault).last_updated_time >= old(vault).last_updated_time,
        old(vault).claim_post(final(vault), staker, now, r),
{
    vault.claim(staker, now)
}

/// The balances after closing an account holding `source_lamports` into one
/// holding `dest_lamports`: the destination receives everything, the source
/// is left empty.
pub fn close_pda(dest_lamports: u64, source_lamports: u64) -> (r: Result<(u64, u64), StakingError>)
    ensures
        r is Ok <==> dest_lamports + source_lamports <= u64::MAX,
        r is Ok ==> r->Ok_0 == (((dest_lamports + source_lamports) as u64, 0u64)),
        r is Err ==> r->Err_0 == StakingError::ArithmeticFault,
{
    match dest_lamports.checked_add(source_lamports) {
        None => Err(StakingError::ArithmeticFault),
        Some(total) => Ok((total, 0)),
    }
}

} // verus!
