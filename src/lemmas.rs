use crate::error::StakingError;
use crate::state::{accrual_fits, accrue, lemma_key_index, Vault, MAX_STAKERS};
use vstd::prelude::*;

verus! {

/// A refresh at the time of the last one succeeds and changes no entry.
proof fn lemma_refresh_at_last_time(v: Vault, now: u64)
    requires
        v.last_updated_time == now,
    ensures
        v.refresh_ok(now),
        v.refreshed_users(now) == v.users@,
{
    if v.accrues() {
        assert(v.rate(now) == 0);
        assert forall|i: int| 0 <= i < v.total_user_count implies accrual_fits(
            #[trigger] v.users@[i],
            v.rate(now),
        ) by {
            assert(0 * v.users@[i].staked_amount == 0);
        }
        assert forall|i: int| 0 <= i < v.users@.len() implies #[trigger] v.refreshed_users(now)[i]
            == v.users@[i] by {
            if i < v.total_user_count {
                assert(0 * v.users@[i].staked_amount == 0);
                assert(accrue(v.users@[i], 0) == v.users@[i]);
            }
        }
        assert(v.refreshed_users(now) =~= v.users@);
    }
}

/// Refreshing twice at one time: a vault just refreshed at `now` accepts
/// another refresh at `now`, and that one credits no reward to anyone.
pub proof fn lemma_refresh_twice(v: Vault, o: Vault, now: u64)
    requires
        v.wf(),
        v.refreshes_to(&o, now),
    ensures
        o.refresh_ok(now),
        o.refreshed_users(now) == o.users@,
{
    lemma_refresh_at_last_time(o, now);
}

/// With nothing staked, a refresh whose clock has not gone backward succeeds
/// and credits nothing: accrual is skipped rather than dividing by zero.
pub proof fn lemma_refresh_with_nothing_staked(v: Vault, now: u64)
    requires
        v.wf(),
        v.total_staked_amount == 0,
        v.last_updated_time <= now,
    ensures
        v.refresh_ok(now),
        v.refreshed_users(now) == v.users@,
{
}

/// A full registry refuses a new identity, and the vault is left as it was.
pub proof fn lemma_full_registry_refuses_newcomer(
    v: Vault,
    o: Vault,
    key: [u8; 32],
    amount: u64,
    now: u64,
    r: Result<(), StakingError>,
)
    requires
        v.wf(),
        v.total_user_count == MAX_STAKERS,
        !v.holds(key),
        v.stake_post(&o, key, amount, now, r),
    ensures
        r is Err,
        o == v,
        v.refresh_ok(now) ==> r->Err_0 == StakingError::CapacityExceeded,
{
}

/// A claim right after a successful claim by the same identity, at the same
/// time, pays nothing.
pub proof fn lemma_second_claim_pays_nothing(
    v: Vault,
    o: Vault,
    o2: Vault,
    key: [u8; 32],
    now: u64,
    r: Result<u64, StakingError>,
    r2: Result<u64, StakingError>,
)
    requires
        v.wf(),
        o.wf(),
        v.claim_post(&o, key, now, r),
        r is Ok,
        o.claim_post(&o2, key, now, r2),
    ensures
        r2 == Ok::<u64, StakingError>(0),
{
    v.lemma_refreshed(now);
    lemma_refresh_at_last_time(o, now);
    let c = v.total_user_count as int;
    if o.holds(key) {
        let k = o.slot_of(key);
        lemma_key_index(o.users@, c, k);
        assert(v.users@[k].key == key);
        lemma_key_index(v.users@, c, k);
    }
}

} // verus!
