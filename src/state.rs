use crate::error::StakingError;
use vstd::prelude::*;

verus! {

/// Number of participant slots in a vault.
pub const MAX_STAKERS: usize = 2000;

/// The accrual period over which `daily_payout_amount` is paid out.
pub const SECONDS_PER_DAY: u64 = 86400;

/// One participant: its identity, its principal and its unclaimed reward.
#[derive(Clone, Copy)]
pub struct User {
    pub key: [u8; 32],
    pub staked_amount: u64,
    pub earned_amount: u64,
}

/// The all-zero identity.
pub open spec fn zero_key() -> [u8; 32] {
    vstd::array::spec_array_fill_for_copy_type::<u8, 32>(0u8)
}

/// An empty slot: the zero identity holding nothing.
pub open spec fn blank_user() -> User {
    User { key: zero_key(), staked_amount: 0, earned_amount: 0 }
}

impl Default for User {
    fn default() -> (r: User)
        ensures
            r == blank_user(),
    {
        User { key: [0u8; 32], staked_amount: 0, earned_amount: 0 }
    }
}

/// Whether two identities are the same.
pub fn same_key(a: &[u8; 32], b: &[u8; 32]) -> (r: bool)
    ensures
        r == (*a == *b),
{
    let mut i: usize = 0;
    while i < 32
        invariant
            i <= 32,
            forall|j: int| 0 <= j < i ==> a@[j] == b@[j],
        decreases 32 - i,
    {
        if a[i] != b[i] {
            return false;
        }
        i = i + 1;
    }
    proof {
        assert(*a =~= *b);
    }
    true
}

/// The ledger of one pool: its settings, its reward funds, and a registry of
/// `MAX_STAKERS` slots whose first `total_user_count` are live.
pub struct Vault {
    pub authority: [u8; 32],
    pub stake_token_mint: [u8; 32],
    pub reward_pool_amount: u64,
    pub total_staked_amount: u64,
    pub daily_payout_amount: u64,
    /// Time of the last accrual refresh; zero until the first one.
    pub last_updated_time: u64,
    pub users: Vec<User>,
    pub total_user_count: u16,
    pub bump: u8,
}

/// Total principal held by the entries of `s`.
pub open spec fn staked_sum(s: Seq<User>) -> int
    decreases s.len(),
{
    if s.len() == 0 {
        0
    } else {
        staked_sum(s.drop_last()) + s.last().staked_amount
    }
}

/// Whether one of the first `n` entries of `s` belongs to `key`.
pub open spec fn has_key(s: Seq<User>, n: int, key: [u8; 32]) -> bool {
    exists|i: int| 0 <= i < n && (#[trigger] s[i]).key == key
}

/// The slot among the first `n` of `s` that belongs to `key`, where there is one.
pub open spec fn key_index(s: Seq<User>, n: int, key: [u8; 32]) -> int {
    choose|i: int| 0 <= i < n && (#[trigger] s[i]).key == key
}

/// Reward per unit of stake for `elapsed` seconds, truncated after each division.
pub open spec fn reward_rate(daily: u64, elapsed: int, total: u64) -> int {
    daily * elapsed / (SECONDS_PER_DAY as int) / (total as int)
}

/// Whether crediting `rate` per unit of stake to `u` stays within `u64`.
pub open spec fn accrual_fits(u: User, rate: int) -> bool {
    &&& rate * u.staked_amount <= u64::MAX
    &&& u.earned_amount + rate * u.staked_amount <= u64::MAX
}

/// `u` credited with `rate` per unit of its stake.
pub open spec fn accrue(u: User, rate: int) -> User {
    User {
        key: u.key,
        staked_amount: u.staked_amount,
        earned_amount: (u.earned_amount + rate * u.staked_amount) as u64,
    }
}

/// `u` with its principal set to `amount`.
pub open spec fn with_stake(u: User, amount: int) -> User {
    User { key: u.key, staked_amount: amount as u64, earned_amount: u.earned_amount }
}

/// `u` with its reward set to `amount`.
pub open spec fn with_earned(u: User, amount: int) -> User {
    User { key: u.key, staked_amount: u.staked_amount, earned_amount: amount as u64 }
}

/// Removes slot `i` of the first `n` of `s`: the last live entry moves into it
/// and its old slot is cleared.
pub open spec fn swap_remove(s: Seq<User>, i: int, n: int) -> Seq<User> {
    s.update(i, s[n - 1]).update(n - 1, blank_user())
}

impl Vault {
    /// The live entries of the registry.
    pub open spec fn live(&self) -> Seq<User> {
        self.users@.subrange(0, self.total_user_count as int)
    }

    /// Whether `key` has a live entry.
    pub open spec fn holds(&self, key: [u8; 32]) -> bool {
        has_key(self.users@, self.total_user_count as int, key)
    }

    /// The slot of `key`, where it has one.
    pub open spec fn slot_of(&self, key: [u8; 32]) -> int {
        key_index(self.users@, self.total_user_count as int, key)
    }

    /// The registry has its full number of slots, unused slots are blank,
    /// identities are unique, and the total stake is the sum of the live stakes.
    pub open spec fn wf(&self) -> bool {
        &&& self.users@.len() == MAX_STAKERS
        &&& self.total_user_count <= MAX_STAKERS
        &&& forall|i: int|
            self.total_user_count <= i < MAX_STAKERS ==> #[trigger] self.users@[i] == blank_user()
        &&& forall|i: int, j: int|
            0 <= i < j < self.total_user_count ==> (#[trigger] self.users@[i]).key != (
            #[trigger] self.users@[j]).key
        &&& self.total_staked_amount == staked_sum(self.live())
    }

    /// Whether `o` has the same settings as `self`.
    pub open spec fn same_settings(&self, o: &Vault) -> bool {
        &&& o.authority == self.authority
        &&& o.stake_token_mint == self.stake_token_mint
        &&& o.daily_payout_amount == self.daily_payout_amount
        &&& o.bump == self.bump
    }

    /// Whether a refresh credits rewards: not on the first refresh, and not
    /// while nothing is staked.
    pub open spec fn accrues(&self) -> bool {
        self.last_updated_time != 0 && self.total_staked_amount != 0
    }

    /// Reward per unit of stake that a refresh at `now` credits.
    pub open spec fn rate(&self, now: u64) -> int {
        reward_rate(
            self.daily_payout_amount,
            now - self.last_updated_time,
            self.total_staked_amount,
        )
    }

    /// Whether a refresh at `now` succeeds: the clock did not go backward and
    /// no product or credit overflows.
    pub open spec fn refresh_ok(&self, now: u64) -> bool {
        self.last_updated_time == 0 || (now >= self.last_updated_time && (
        self.total_staked_amount == 0 || (self.daily_payout_amount * (now
            - self.last_updated_time) <= u64::MAX && forall|i: int|
            0 <= i < self.total_user_count ==> accrual_fits(
            #[trigger] self.users@[i],
            self.rate(now),
        ))))
    }

    /// The registry after a refresh at `now`.
    pub open spec fn refreshed_users(&self, now: u64) -> Seq<User> {
        if self.accrues() {
            Seq::new(
                self.users@.len(),
                |i: int|
                    if i < self.total_user_count {
                        accrue(self.users@[i], self.rate(now))
                    } else {
                        self.users@[i]
                    },
            )
        } else {
            self.users@
        }
    }

    /// Whether `o` and `r` are what a stake of `amount` by `key` at `now` leaves and returns.
    pub open spec fn stake_post(
        &self,
        o: &Vault,
        key: [u8; 32],
        amount: u64,
        now: u64,
        r: Result<(), StakingError>,
    ) -> bool {
        &&& r is Ok <==> self.refresh_ok(now) && (self.holds(key)
            || self.total_user_count < MAX_STAKERS) && self.total_staked_amount
            + amount <= u64::MAX
        &&& (r is Err && r->Err_0 == StakingError::CapacityExceeded) <==> self.refresh_ok(now)
            && !self.holds(key) && self.total_user_count == MAX_STAKERS
        &&& r is Err ==> *o == *self && (r->Err_0 == StakingError::CapacityExceeded
            || r->Err_0 == StakingError::ArithmeticFault)
        &&& r is Ok ==> {
            let u = self.refreshed_users(now);
            let c = self.total_user_count as int;
            let k = self.slot_of(key);
            &&& self.same_settings(o)
            &&& o.last_updated_time == now
            &&& o.reward_pool_amount == self.reward_pool_amount
            &&& o.total_staked_amount == self.total_staked_amount + amount
            &&& self.holds(key) ==> o.total_user_count == c
                && o.users@ == u.update(k, with_stake(u[k], u[k].staked_amount + amount))
            &&& !self.holds(key) ==> o.total_user_count == c + 1
                && o.users@ == u.update(
                c,
                User { key, staked_amount: amount, earned_amount: 0 },
            )
        }
    }

    /// Whether `o` and `r` are what an unstake of `amount` by `key` at `now` leaves and returns.
    pub open spec fn unstake_post(
        &self,
        o: &Vault,
        key: [u8; 32],
        amount: u64,
        now: u64,
        r: Result<(), StakingError>,
    ) -> bool {
        &&& r is Ok <==> self.refresh_ok(now) && self.holds(key) && amount
            <= self.users@[self.slot_of(key)].staked_amount
        &&& (r is Err && r->Err_0 == StakingError::NotFound) <==> self.refresh_ok(now)
            && !self.holds(key)
        &&& (r is Err && r->Err_0 == StakingError::InsufficientStake) <==> self.refresh_ok(now)
            && self.holds(key) && amount > self.users@[self.slot_of(key)].staked_amount
        &&& r is Err ==> *o == *self && (r->Err_0 == StakingError::NotFound
            || r->Err_0 == StakingError::InsufficientStake || r->Err_0
            == StakingError::ArithmeticFault)
        &&& r is Ok ==> {
            let u = self.refreshed_users(now);
            let c = self.total_user_count as int;
            let k = self.slot_of(key);
            &&& self.same_settings(o)
            &&& o.last_updated_time == now
            &&& o.reward_pool_amount == self.reward_pool_amount
            &&& o.total_staked_amount == self.total_staked_amount - amount
            &&& amount < u[k].staked_amount ==> o.total_user_count == c
                && o.users@ == u.update(k, with_stake(u[k], u[k].staked_amount - amount))
            &&& amount == u[k].staked_amount ==> o.total_user_count == c - 1
                && o.users@ == swap_remove(u, k, c)
        }
    }

    /// Whether `o` and `r` are what a claim by `key` at `now` leaves and returns.
    pub open spec fn claim_post(
        &self,
        o: &Vault,
        key: [u8; 32],
        now: u64,
        r: Result<u64, StakingError>,
    ) -> bool {
        &&& r is Ok <==> self.refresh_ok(now) && (self.holds(key) ==> self.refreshed_users(now)[self.slot_of(key)].earned_amount
            <= self.reward_pool_amount)
        &&& r is Err ==> *o == *self && r->Err_0 == StakingError::ArithmeticFault
        &&& r is Ok ==> {
            let u = self.refreshed_users(now);
            let k = self.slot_of(key);
            &&& self.same_settings(o)
            &&& o.last_updated_time == now
            &&& o.total_staked_amount == self.total_staked_amount
            &&& o.total_user_count == self.total_user_count
            &&& self.holds(key) ==> r->Ok_0 == u[k].earned_amount
                && o.reward_pool_amount == self.reward_pool_amount - r->Ok_0
                && o.users@ == u.update(k, with_earned(u[k], 0))
            &&& !self.holds(key) ==> r->Ok_0 == 0 && o.reward_pool_amount
                == self.reward_pool_amount && o.users@ == u
        }
    }

    /// `o` is `self` after a successful refresh at `now`, before any other change.
    pub open spec fn refreshes_to(&self, o: &Vault, now: u64) -> bool {
        &&& self.same_settings(o)
        &&& o.users@ == self.refreshed_users(now)
        &&& o.last_updated_time == now
        &&& o.total_staked_amount == self.total_staked_amount
        &&& o.total_user_count == self.total_user_count
        &&& o.reward_pool_amount == self.reward_pool_amount
    }
}

proof fn lemma_sum_same_stakes(s: Seq<User>, t: Seq<User>)
    requires
        s.len() == t.len(),
        forall|i: int| 0 <= i < s.len() ==> (#[trigger] s[i]).staked_amount == t[i].staked_amount,
    ensures
        staked_sum(s) == staked_sum(t),
    decreases s.len(),
{
    if s.len() > 0 {
        lemma_sum_same_stakes(s.drop_last(), t.drop_last());
    }
}

proof fn lemma_sum_update(s: Seq<User>, i: int, u: User)
    requires
        0 <= i < s.len(),
    ensures
        staked_sum(s.update(i, u)) == staked_sum(s) - s[i].staked_amount + u.staked_amount,
    decreases s.len(),
{
    if i == s.len() - 1 {
        assert(s.update(i, u).drop_last() =~= s.drop_last());
    } else {
        assert(s.update(i, u).drop_last() =~= s.drop_last().update(i, u));
        lemma_sum_update(s.drop_last(), i, u);
    }
}

proof fn lemma_sum_bounds(s: Seq<User>, i: int)
    requires
        0 <= i < s.len(),
    ensures
        0 <= s[i].staked_amount <= staked_sum(s),
    decreases s.len(),
{
    lemma_sum_nonneg(s.drop_last());
    if i < s.len() - 1 {
        lemma_sum_bounds(s.drop_last(), i);
    }
}

proof fn lemma_sum_nonneg(s: Seq<User>)
    ensures
        staked_sum(s) >= 0,
    decreases s.len(),
{
    if s.len() > 0 {
        lemma_sum_nonneg(s.drop_last());
    }
}

/// Where keys are unique, the slot holding `key` is the one `key_index` names.
pub(crate) proof fn lemma_key_index(s: Seq<User>, n: int, i: int)
    requires
        0 <= i < n <= s.len(),
        forall|a: int, b: int| 0 <= a < b < n ==> (#[trigger] s[a]).key != (#[trigger] s[b]).key,
    ensures
        has_key(s, n, s[i].key),
        key_index(s, n, s[i].key) == i,
{
    assert(has_key(s, n, s[i].key));
    let j = key_index(s, n, s[i].key);
    if j < i {
        assert(s[j].key != s[i].key);
    } else if j > i {
        assert(s[i].key != s[j].key);
    }
}

/// The live slot of `users` that belongs to `key`, if any.
fn find(users: &Vec<User>, count: u16, key: &[u8; 32]) -> (r: Option<usize>)
    requires
        count <= users@.len(),
    ensures
        r is Some ==> r->Some_0 < count && users@[r->Some_0 as int].key == *key,
        r is None ==> !has_key(users@, count as int, *key),
{
    let mut i: usize = 0;
    while i < count as usize
        invariant
            i <= count <= users@.len(),
            forall|j: int| 0 <= j < i ==> (#[trigger] users@[j]).key != *key,
        decreases count - i,
    {
        if same_key(&users[i].key, key) {
            return Some(i);
        }
        i = i + 1;
    }
    None
}

impl Default for Vault {
    /// An empty vault: no settings, no funds, no participants, never refreshed.
    fn default() -> (r: Vault)
        ensures
            r.wf(),
            r.authority == zero_key(),
            r.stake_token_mint == zero_key(),
            r.reward_pool_amount == 0,
            r.total_staked_amount == 0,
            r.daily_payout_amount == 0,
            r.last_updated_time == 0,
            r.total_user_count == 0,
            r.bump == 0,
    {
        let mut users: Vec<User> = Vec::new();
        let mut i: usize = 0;
        while i < MAX_STAKERS
            invariant
                i <= MAX_STAKERS,
                users@.len() == i,
                forall|j: int| 0 <= j < i ==> #[trigger] users@[j] == blank_user(),
            decreases MAX_STAKERS - i,
        {
            users.push(User::default());
            i = i + 1;
        }
        let r = Vault {
            authority: [0u8; 32],
            stake_token_mint: [0u8; 32],
            reward_pool_amount: 0,
            total_staked_amount: 0,
            daily_payout_amount: 0,
            last_updated_time: 0,
            users,
            total_user_count: 0,
            bump: 0,
        };
        assert(r.live() =~= Seq::<User>::empty());
        r
    }
}

impl Vault {
    /// The registry as a refresh at `now` leaves it, computed without changing
    /// the vault.
    fn refreshed(&self, now: u64) -> (r: Result<Vec<User>, StakingError>)
        requires
            self.wf(),
        ensures
            r is Ok <==> self.refresh_ok(now),
            r is Ok ==> r->Ok_0@ == self.refreshed_users(now),
            r is Err ==> r->Err_0 == StakingError::ArithmeticFault,
    {
        let accrues = self.last_updated_time != 0 && self.total_staked_amount != 0;
        let mut rate: u64 = 0;
        if self.last_updated_time != 0 {
            if now < self.last_updated_time {
                return Err(StakingError::ArithmeticFault);
            }
            if self.total_staked_amount != 0 {
                let elapsed: u64 = now - self.last_updated_time;
                match self.daily_payout_amount.checked_mul(elapsed) {
                    None => {
                        return Err(StakingError::ArithmeticFault);
                    },
                    Some(p) => {
                        rate = p / SECONDS_PER_DAY / self.total_staked_amount;
                    },
                }
            }
        }
        let mut v: Vec<User> = Vec::new();
        let mut i: usize = 0;
        while i < self.users.len()
            invariant
                self.wf(),
                i <= self.users@.len(),
                v@.len() == i,
                accrues == self.accrues(),
                accrues ==> rate == self.rate(now),
                accrues ==> self.daily_payout_amount * (now - self.last_updated_time) <= u64::MAX,
                self.last_updated_time != 0 ==> now >= self.last_updated_time,
                accrues ==> forall|j: int|
                    0 <= j < i && j < self.total_user_count ==> accrual_fits(
                        #[trigger] self.users@[j],
                        self.rate(now),
                    ),
                forall|j: int| 0 <= j < i ==> #[trigger] v@[j] == self.refreshed_users(now)[j],
            decreases self.users@.len() - i,
        {
            let u = self.users[i];
            if accrues && i < self.total_user_count as usize {
                let gain = match rate.checked_mul(u.staked_amount) {
                    None => {
                        return Err(StakingError::ArithmeticFault);
                    },
                    Some(g) => g,
                };
                let earned = match u.earned_amount.checked_add(gain) {
                    None => {
                        return Err(StakingError::ArithmeticFault);
                    },
                    Some(e) => e,
                };
                v.push(User { key: u.key, staked_amount: u.staked_amount, earned_amount: earned });
            } else {
                v.push(u);
            }
            i = i + 1;
        }
        assert(v@ =~= self.refreshed_users(now));
        Ok(v)
    }

    /// A refreshed registry keeps the keys and stakes, the blank slots and the sum.
    pub(crate) proof fn lemma_refreshed(&self, now: u64)
        requires
            self.wf(),
        ensures
            self.refreshed_users(now).len() == MAX_STAKERS,
            forall|i: int|
                0 <= i < MAX_STAKERS ==> (#[trigger] self.refreshed_users(now)[i]).key
                    == self.users@[i].key && self.refreshed_users(now)[i].staked_amount
                    == self.users@[i].staked_amount,
            forall|i: int|
                self.total_user_count <= i < MAX_STAKERS ==> #[trigger] self.refreshed_users(
                    now,
                )[i] == self.users@[i],
            staked_sum(self.refreshed_users(now).subrange(0, self.total_user_count as int))
                == self.total_staked_amount,
    {
        let c = self.total_user_count as int;
        lemma_sum_same_stakes(self.refreshed_users(now).subrange(0, c), self.live());
    }

    /// Rolls accrued rewards forward to `now`: each live participant is credited
    /// its share of the daily payout for the time since the last refresh. The
    /// first refresh, and one while nothing is staked, credits nothing.
    pub fn update(&mut self, now: u64) -> (r: Result<(), StakingError>)
        requires
            old(self).wf(),
        ensures
            final(self).wf(),
            final(self).last_updated_time >= old(self).last_updated_time,
            r is Ok <==> old(self).refresh_ok(now),
            r is Ok ==> old(self).refreshes_to(final(self), now),
            r is Err ==> r->Err_0 == StakingError::ArithmeticFault && *final(self) == *old(self),
    {
        let users = match self.refreshed(now) {
            Err(e) => {
                return Err(e);
            },
            Ok(v) => v,
        };
        proof {
            self.lemma_refreshed(now);
        }
        self.users = users;
        self.last_updated_time = now;
        proof {
            assert(self.live() =~= users@.subrange(0, self.total_user_count as int));
        }
        Ok(())
    }
}

impl Vault {
    /// Records a deposit of `amount` by `key` at time `now`, after a refresh so
    /// that the deposit earns nothing for the time before it. A known identity
    /// adds to its entry; a new one takes the next free slot.
    pub fn stake(&mut self, key: [u8; 32], amount: u64, now: u64) -> (r: Result<(), StakingError>)
        requires
            old(self).wf(),
        ensures
            final(self).wf(),
            final(self).last_updated_time >= old(self).last_updated_time,
            old(self).stake_post(final(self), key, amount, now, r),
    {
        let mut users = match self.refreshed(now) {
            Err(e) => {
                return Err(e);
            },
            Ok(v) => v,
        };
        proof {
            self.lemma_refreshed(now);
        }
        let ghost u = users@;
        let ghost c = self.total_user_count as int;
        match find(&users, self.total_user_count, &key) {
            Some(i) => {
                proof {
                    lemma_key_index(self.users@, c, i as int);
                    lemma_sum_bounds(u.subrange(0, c), i as int);
                }
                if amount > u64::MAX - self.total_staked_amount {
                    return Err(StakingError::ArithmeticFault);
                }
                let e = users[i];
                let updated = User {
                    key: e.key,
                    staked_amount: e.staked_amount + amount,
                    earned_amount: e.earned_amount,
                };
                users.set(i, updated);
                proof {
                    assert(users@.subrange(0, c) =~= u.subrange(0, c).update(i as int, updated));
                    lemma_sum_update(u.subrange(0, c), i as int, updated);
                }
                self.users = users;
                self.total_staked_amount = self.total_staked_amount + amount;
            },
            None => {
                proof {
                    if self.holds(key) {
                        let j = self.slot_of(key);
                        assert(u[j].key == key);
                    }
                }
                if self.total_user_count as usize >= MAX_STAKERS {
                    return Err(StakingError::CapacityExceeded);
                }
                if amount > u64::MAX - self.total_staked_amount {
                    return Err(StakingError::ArithmeticFault);
                }
                let added = User { key, staked_amount: amount, earned_amount: 0 };
                users.set(self.total_user_count as usize, added);
                proof {
                    assert(users@.subrange(0, c + 1).drop_last() =~= u.subrange(0, c));
                    assert forall|a: int, b: int| 0 <= a < b < c + 1 implies (
                    #[trigger] users@[a]).key != (#[trigger] users@[b]).key by {
                        if b == c {
                            assert(u[a].key == self.users@[a].key);
                        }
                    }
                }
                self.users = users;
                self.total_user_count = self.total_user_count + 1;
                self.total_staked_amount = self.total_staked_amount + amount;
            },
        }
        self.last_updated_time = now;
        Ok(())
    }
}

impl Vault {
    /// Withdraws `amount` of the principal of `key` at time `now`, after a
    /// refresh. An entry whose principal reaches zero leaves the registry: the
    /// last live entry moves into its slot, and its unclaimed reward is lost.
    pub fn unstake(&mut self, key: [u8; 32], amount: u64, now: u64) -> (r: Result<(), StakingError>)
        requires
            old(self).wf(),
        ensures
            final(self).wf(),
            final(self).last_updated_time >= old(self).last_updated_time,
            old(self).unstake_post(final(self), key, amount, now, r),
    {
        let mut users = match self.refreshed(now) {
            Err(e) => {
                return Err(e);
            },
            Ok(v) => v,
        };
        proof {
            self.lemma_refreshed(now);
        }
        let ghost u = users@;
        let ghost c = self.total_user_count as int;
        let i = match find(&users, self.total_user_count, &key) {
            None => {
                proof {
                    if self.holds(key) {
                        let j = self.slot_of(key);
                        assert(u[j].key == key);
                    }
                }
                return Err(StakingError::NotFound);
            },
            Some(i) => i,
        };
        proof {
            lemma_key_index(self.users@, c, i as int);
            lemma_sum_bounds(u.subrange(0, c), i as int);
        }
        let e = users[i];
        if amount > e.staked_amount {
            return Err(StakingError::InsufficientStake);
        }
        if amount < e.staked_amount {
            let updated = User {
                key: e.key,
                staked_amount: e.staked_amount - amount,
                earned_amount: e.earned_amount,
            };
            users.set(i, updated);
            proof {
                assert(users@.subrange(0, c) =~= u.subrange(0, c).update(i as int, updated));
                lemma_sum_update(u.subrange(0, c), i as int, updated);
            }
        } else {
            let last: usize = self.total_user_count as usize - 1;
            let moved = users[last];
            users.set(i, moved);
            users.set(last, User::default());
            proof {
                let l = u.subrange(0, c);
                let l2 = l.update(i as int, moved);
                lemma_sum_update(l, i as int, moved);
                assert(users@.subrange(0, c - 1) =~= l2.drop_last());
                assert(users@ == swap_remove(u, i as int, c));
                assert forall|a: int, b: int| 0 <= a < b < c - 1 implies (
                #[trigger] users@[a]).key != (#[trigger] users@[b]).key by {
                    assert(u[a].key == self.users@[a].key);
                    assert(u[b].key == self.users@[b].key);
                    assert(u[c - 1].key == self.users@[c - 1].key);
                }
            }
            self.total_user_count = self.total_user_count - 1;
        }
        self.users = users;
        self.total_staked_amount = self.total_staked_amount - amount;
        self.last_updated_time = now;
        Ok(())
    }

    /// Pays out the unclaimed reward of `key` at time `now`, after a refresh:
    /// the entry's reward drops to zero and the reward pool by the same amount,
    /// which is returned. An identity without an entry claims zero.
    pub fn claim(&mut self, key: [u8; 32], now: u64) -> (r: Result<u64, StakingError>)
        requires
            old(self).wf(),
        ensures
            final(self).wf(),
            final(self).last_updated_time >= old(self).last_updated_time,
            old(self).claim_post(final(self), key, now, r),
    {
        let mut users = match self.refreshed(now) {
            Err(e) => {
                return Err(e);
            },
            Ok(v) => v,
        };
        proof {
            self.lemma_refreshed(now);
        }
        let ghost u = users@;
        let ghost c = self.total_user_count as int;
        let mut paid: u64 = 0;
        match find(&users, self.total_user_count, &key) {
            None => {
                proof {
                    if self.holds(key) {
                        let j = self.slot_of(key);
                        assert(u[j].key == key);
                    }
                }
            },
            Some(i) => {
                proof {
                    lemma_key_index(self.users@, c, i as int);
                }
                let e = users[i];
                if e.earned_amount > self.reward_pool_amount {
                    return Err(StakingError::ArithmeticFault);
                }
                let cleared = User { key: e.key, staked_amount: e.staked_amount, earned_amount: 0 };
                users.set(i, cleared);
                proof {
                    assert(users@.subrange(0, c) =~= u.subrange(0, c).update(i as int, cleared));
                    lemma_sum_update(u.subrange(0, c), i as int, cleared);
                }
                paid = e.earned_amount;
                self.reward_pool_amount = self.reward_pool_amount - paid;
            },
        }
        self.users = users;
        self.last_updated_time = now;
        Ok(paid)
    }
}

impl Vault {
    /// Whether the vault is well formed (see `wf`), for a vault read from storage.
    pub fn is_well_formed(&self) -> (r: bool)
        ensures
            r == self.wf(),
    {
        if self.users.len() != MAX_STAKERS || self.total_user_count as usize > MAX_STAKERS {
            return false;
        }
        let count = self.total_user_count as usize;
        let zero: [u8; 32] = [0u8; 32];
        let mut i: usize = count;
        while i < MAX_STAKERS
            invariant
                count <= i <= MAX_STAKERS,
                self.users@.len() == MAX_STAKERS,
                count == self.total_user_count,
                zero == zero_key(),
                forall|j: int| count <= j < i ==> #[trigger] self.users@[j] == blank_user(),
            decreases MAX_STAKERS - i,
        {
            let u = self.users[i];
            if !same_key(&u.key, &zero) || u.staked_amount != 0 || u.earned_amount != 0 {
                return false;
            }
            i = i + 1;
        }
        let mut a: usize = 0;
        while a < count
            invariant
                a <= count <= MAX_STAKERS,
                self.users@.len() == MAX_STAKERS,
                count == self.total_user_count,
                forall|x: int, y: int|
                    0 <= x < y < count && x < a ==> (#[trigger] self.users@[x]).key != (
                    #[trigger] self.users@[y]).key,
            decreases count - a,
        {
            let mut b: usize = a + 1;
            while b < count
                invariant
                    a < count <= MAX_STAKERS,
                    a + 1 <= b <= count,
                    self.users@.len() == MAX_STAKERS,
                    count == self.total_user_count,
                    forall|x: int, y: int|
                        0 <= x < y < count && x < a ==> (#[trigger] self.users@[x]).key != (
                        #[trigger] self.users@[y]).key,
                    forall|y: int| a < y < b ==> self.users@[a as int].key != (
                    #[trigger] self.users@[y]).key,
                decreases count - b,
            {
                if same_key(&self.users[a].key, &self.users[b].key) {
                    return false;
                }
                b = b + 1;
            }
            a = a + 1;
        }
        let mut sum: u128 = 0;
        let mut k: usize = 0;
        while k < count
            invariant
                k <= count <= MAX_STAKERS,
                self.users@.len() == MAX_STAKERS,
                sum == staked_sum(self.users@.subrange(0, k as int)),
                sum <= k * 0xffff_ffff_ffff_ffffu128,
            decreases count - k,
        {
            assert(self.users@.subrange(0, k + 1).drop_last() =~= self.users@.subrange(0, k as int));
            sum = sum + self.users[k].staked_amount as u128;
            k = k + 1;
        }
        sum == self.total_staked_amount as u128
    }
}

} // verus!
