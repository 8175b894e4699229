//! Inflation rewards: which stake accounts to ask for, when an epoch began, and what a
//! reward amounts to.
use std::collections::HashMap;

use vstd::arithmetic::power2::pow2;
use vstd::prelude::*;

use crate::batches::{batch_at, batch_count, batches};
use crate::keys::{KeyMap, Pubkey};
use crate::outside::first_slot_in_epoch;
use crate::stake_accounts::StakeAccountInfo;
use crate::vote_accounts::VoteAccountInfo;

verus! {

/// How slots make up epochs.
#[derive(Clone, Copy, Debug, PartialEq, Eq)]
pub struct EpochSchedule {
    /// The slots of an epoch, once epochs have their full length.
    pub slots_per_epoch: u64,
    /// The first epoch of full length.
    pub first_normal_epoch: u64,
    /// The first slot of that epoch.
    pub first_normal_slot: u64,
}

/// A number, cut off at the largest one of 64 bits.
pub open spec fn saturate(n: int) -> u64 {
    if n > u64::MAX {
        u64::MAX
    } else {
        n as u64
    }
}

impl EpochSchedule {
    /// The first slot of an epoch. The first epoch has 32 slots and each is twice as long
    /// as the one before, up to the first of full length.
    pub open spec fn first_slot(self, epoch: u64) -> u64 {
        if epoch <= self.first_normal_epoch {
            let exponent = epoch as int % 0x1_0000_0000;
            if exponent >= 64 {
                u64::MAX
            } else {
                saturate((pow2(exponent as nat) - 1) * 32)
            }
        } else {
            saturate((epoch - self.first_normal_epoch) * self.slots_per_epoch
                + self.first_normal_slot)
        }
    }
}

/// The inflation reward of a stake account for an epoch.
#[derive(Clone, Copy, Debug, PartialEq, Eq)]
pub struct InflationReward {
    pub epoch: u64,
    /// The slot in which the reward took effect.
    pub effective_slot: u64,
    pub amount: u64,
    /// The balance with the reward.
    pub post_balance: u64,
}

/// Where the search for the time at which an epoch began stands.
#[derive(Clone, Copy, Debug, PartialEq, Eq)]
pub enum EpochStart {
    /// The time of the block in this slot is to be looked up.
    Probe { slot: u64 },
    /// This is the time.
    Known { time: i64 },
    /// The epoch began this many average slots before it ended.
    Estimate { slots: u64 },
    /// The slot from which the estimate counts lies behind the end of the epoch.
    Inconsistent,
}

/// The step of the search at a slot: a lookup below the limit, an estimate from there on.
pub open spec fn epoch_start_at(reward: InflationReward, slot: u64) -> EpochStart {
    if slot >= reward.epoch + 10 {
        if reward.effective_slot >= slot {
            EpochStart::Estimate { slots: (reward.effective_slot - slot) as u64 }
        } else {
            EpochStart::Inconsistent
        }
    } else {
        EpochStart::Probe { slot }
    }
}

/// The step of the search after a lookup: `None` where no time is known.
pub open spec fn epoch_start_after(
    reward: InflationReward,
    slot: u64,
    block_time: Option<i64>,
) -> EpochStart {
    match block_time {
        Some(time) => EpochStart::Known { time },
        None => epoch_start_at(reward, (slot + 1) as u64),
    }
}

/// Decides what to do at a slot.
fn start_at(reward: &InflationReward, slot: u64) -> (step: EpochStart)
    requires
        reward.epoch + 10 <= u64::MAX,
    ensures
        step == epoch_start_at(*reward, slot),
{
    if slot >= reward.epoch + 10 {
        if reward.effective_slot >= slot {
            EpochStart::Estimate { slots: reward.effective_slot - slot }
        } else {
            EpochStart::Inconsistent
        }
    } else {
        EpochStart::Probe { slot }
    }
}

/// Starts the search for the time at which the epoch of a reward began, at the first slot
/// of the epoch. The epoch ended at the time of the slot in which the reward took effect.
pub fn get_epoch_boundary_timestamps(schedule: &EpochSchedule, reward: &InflationReward) -> (step:
    EpochStart)
    requires
        reward.epoch + 10 <= u64::MAX,
    ensures
        step == epoch_start_at(*reward, schedule.first_slot(reward.epoch)),
        schedule.first_slot(reward.epoch) < reward.epoch + 10 ==> step == (EpochStart::Probe {
            slot: schedule.first_slot(reward.epoch),
        }),
        reward.epoch + 10 <= schedule.first_slot(reward.epoch) <= reward.effective_slot ==> step
            == (EpochStart::Estimate {
            slots: (reward.effective_slot - schedule.first_slot(reward.epoch)) as u64,
        }),
        schedule.first_slot(reward.epoch) >= reward.epoch + 10 && schedule.first_slot(reward.epoch)
            > reward.effective_slot ==> step is Inconsistent,
{
    start_at(reward, first_slot_in_epoch(schedule, reward.epoch))
}

/// Continues the search with the time of the block that was looked up.
pub fn block_time_known(reward: &InflationReward, slot: u64, block_time: Option<i64>) -> (step:
    EpochStart)
    requires
        reward.epoch + 10 <= u64::MAX,
        slot < reward.epoch + 10,
    ensures
        step == epoch_start_after(*reward, slot, block_time),
        block_time matches Some(time) ==> step == (EpochStart::Known { time }),
        block_time is None && slot + 1 < reward.epoch + 10 ==> step == (EpochStart::Probe {
            slot: (slot + 1) as u64,
        }),
        block_time is None && slot + 1 == reward.epoch + 10 && slot < reward.effective_slot ==> step
            == (EpochStart::Estimate { slots: (reward.effective_slot - slot - 1) as u64 }),
        block_time is None && slot + 1 == reward.epoch + 10 && slot >= reward.effective_slot
            ==> step is Inconsistent,
{
    match block_time {
        Some(time) => EpochStart::Known { time },
        None => start_at(reward, slot + 1),
    }
}

/// Where a search ends whose lookups give the times of a table.
pub open spec fn epoch_start_end(
    reward: InflationReward,
    times: Map<u64, i64>,
    step: EpochStart,
) -> EpochStart
    decreases
            (match step {
                EpochStart::Probe { slot } => if slot < reward.epoch + 10 {
                    reward.epoch + 10 - slot + 1
                } else {
                    1
                },
                _ => 0,
            }),
{
    match step {
        EpochStart::Probe { slot } => if slot < reward.epoch + 10 <= u64::MAX {
            epoch_start_end(
                reward,
                times,
                epoch_start_after(
                    reward,
                    slot,
                    if times.contains_key(slot) {
                        Some(times[slot])
                    } else {
                        None
                    },
                ),
            )
        } else {
            step
        },
        _ => step,
    }
}

/// A search that starts at a slot below the limit finds the time of the first slot from
/// there on, below the limit, whose time is known. Without one it estimates from the
/// limit.
pub proof fn law_epoch_start_is_first_known_time(
    reward: InflationReward,
    times: Map<u64, i64>,
    slot: u64,
)
    requires
        slot <= reward.epoch + 10 <= u64::MAX,
    ensures
        ({
            let end = epoch_start_end(reward, times, epoch_start_at(reward, slot));
            let limit = reward.epoch + 10;
            match end {
                EpochStart::Known { time } => exists|s: u64|
                    {
                        &&& slot <= s < limit
                        &&& #[trigger] times.contains_key(s)
                        &&& times[s] == time
                        &&& forall|earlier: u64|
                            slot <= earlier < s ==> !#[trigger] times.contains_key(earlier)
                    },
                _ => {
                    &&& forall|s: u64| slot <= s < limit ==> !#[trigger] times.contains_key(s)
                    &&& end == epoch_start_at(reward, limit as u64)
                },
            }
        }),
    decreases reward.epoch + 10 - slot,
{
    if slot < reward.epoch + 10 {
        if !times.contains_key(slot) {
            law_epoch_start_is_first_known_time(reward, times, (slot + 1) as u64);
        } else {
            let end = epoch_start_end(reward, times, epoch_start_at(reward, slot));
            assert(end == epoch_start_end(
                reward,
                times,
                EpochStart::Known { time: times[slot] },
            ));
        }
    }
}

pub const SECONDS_PER_DAY: u64 = 24 * 60 * 60;

/// The whole numbers of which the yearly rate of a reward is made:
/// `amount / principal * (seconds_per_year / duration)`.
#[derive(Clone, Copy, Debug, PartialEq, Eq)]
pub struct RewardRate {
    pub amount: u64,
    /// The balance without the reward.
    pub principal: u64,
    pub seconds_per_year: u64,
    /// How long the epoch took, in seconds.
    pub duration: i64,
}

/// The rate of a reward: none where the duration does not fit in 64 bits or the balance
/// holds nothing but the reward.
pub open spec fn reward_rate(reward: InflationReward, start: i64, end: i64) -> Option<RewardRate> {
    if i64::MIN <= end - start <= i64::MAX && reward.post_balance > reward.amount {
        Some(
            RewardRate {
                amount: reward.amount,
                principal: (reward.post_balance - reward.amount) as u64,
                seconds_per_year: (SECONDS_PER_DAY * 365) as u64,
                duration: (end - start) as i64,
            },
        )
    } else {
        None
    }
}

/// The rate of a reward for an epoch between two times.
pub fn get_reward_apy(
    reward: &InflationReward,
    epoch_start_time: i64,
    epoch_end_time: i64,
) -> (rate: Option<RewardRate>)
    ensures
        rate == reward_rate(*reward, epoch_start_time, epoch_end_time),
        rate matches Some(rate) ==> {
            &&& rate.duration == epoch_end_time - epoch_start_time
            &&& rate.amount == reward.amount
            &&& rate.principal + rate.amount == reward.post_balance
            &&& rate.principal > 0
            &&& rate.seconds_per_year == 31_536_000
        },
        rate is None <==> reward.post_balance <= reward.amount || epoch_end_time
            - epoch_start_time > 0x7fff_ffff_ffff_ffff || epoch_end_time - epoch_start_time
            < -0x8000_0000_0000_0000,
{
    match epoch_end_time.checked_sub(epoch_start_time) {
        None => None,
        Some(duration) => if reward.post_balance > reward.amount {
            Some(
                RewardRate {
                    amount: reward.amount,
                    principal: reward.post_balance - reward.amount,
                    seconds_per_year: SECONDS_PER_DAY * 365,
                    duration,
                },
            )
        } else {
            None
        },
    }
}

/// A stake account earns rewards for its whole stake: nothing warms up or cools down.
pub open spec fn is_settled(info: StakeAccountInfo) -> bool {
    info.effective > 0 && info.activating == 0 && info.deactivating == 0
}

/// Account `i` is the settled one with the highest effective stake, the earliest in the
/// list among equals.
pub open spec fn is_highest_settled(accounts: Seq<StakeAccountInfo>, i: int) -> bool {
    &&& 0 <= i < accounts.len()
    &&& is_settled(accounts[i])
    &&& forall|j: int|
        0 <= j < accounts.len() && is_settled(#[trigger] accounts[j]) ==> accounts[j].effective
            < accounts[i].effective || (accounts[j].effective == accounts[i].effective && i <= j)
}

/// The settled stake account with the highest effective stake, where one is settled.
pub open spec fn highest_settled(accounts: Seq<StakeAccountInfo>) -> Option<StakeAccountInfo> {
    if exists|i: int| is_highest_settled(accounts, i) {
        Some(accounts[choose|i: int| is_highest_settled(accounts, i)])
    } else {
        None
    }
}

/// Picks the settled stake account with the highest effective stake.
pub fn pick_stake_account(accounts: &Vec<StakeAccountInfo>) -> (r: Option<StakeAccountInfo>)
    ensures
        r == highest_settled(accounts@),
        r is None <==> forall|j: int|
            0 <= j < accounts.len() ==> !is_settled(#[trigger] accounts[j]),
        r matches Some(info) ==> {
            &&& accounts@.contains(info)
            &&& info.effective > 0
            &&& info.activating == 0
            &&& info.deactivating == 0
            &&& forall|j: int|
                0 <= j < accounts.len() && (#[trigger] accounts[j]).activating == 0
                    && accounts[j].deactivating == 0 ==> accounts[j].effective <= info.effective
        },
        r is None ==> forall|j: int|
            0 <= j < accounts.len() ==> (#[trigger] accounts[j]).effective == 0
                || accounts[j].activating > 0 || accounts[j].deactivating > 0,
{
    let mut best: Option<usize> = None;
    let mut i: usize = 0;
    while i < accounts.len()
        invariant
            i <= accounts.len(),
            match best {
                Some(b) => b < i && is_highest_settled(accounts@.take(i as int), b as int),
                None => forall|j: int| 0 <= j < i ==> !is_settled(#[trigger] accounts[j]),
            },
        decreases accounts.len() - i,
    {
        let info = &accounts[i];
        if info.effective > 0 && info.activating == 0 && info.deactivating == 0 {
            let higher = match best {
                Some(b) => accounts[b].effective < info.effective,
                None => true,
            };
            if higher {
                best = Some(i);
            }
        }
        i += 1;
        proof {
            let before = accounts@.take(i - 1);
            let now = accounts@.take(i as int);
            assert(forall|j: int| 0 <= j < i - 1 ==> before[j] == now[j]);
            if let Some(b) = best {
                assert forall|j: int| 0 <= j < now.len() && is_settled(#[trigger] now[j]) implies
                    now[j].effective < now[b as int].effective || (now[j].effective
                    == now[b as int].effective && b <= j) by {
                    if j < i - 1 {
                        assert(before[j] == now[j]);
                        assert(accounts[j] == now[j]);
                    }
                }
                assert(is_highest_settled(now, b as int));
            }
        }
    }
    assert(accounts@.take(i as int) =~= accounts@);
    match best {
        Some(b) => {
            proof {
                let c = choose|c: int| is_highest_settled(accounts@, c);
                assert(is_settled(accounts@[c]) && is_settled(accounts@[b as int]));
                law_picked_account_is_highest(accounts@);
            }
            Some(accounts[b])
        },
        None => {
            proof {
                law_picked_account_is_highest(accounts@);
            }
            None
        },
    }
}

/// The picked stake account is effective, nothing of it is activating or deactivating, and
/// no such account of the list has a higher effective stake, nor an equal one before it.
/// None is picked only where there is no such account.
pub proof fn law_picked_account_is_highest(accounts: Seq<StakeAccountInfo>)
    ensures
        highest_settled(accounts) matches Some(info) ==> exists|i: int|
            {
                &&& 0 <= i < accounts.len()
                &&& #[trigger] accounts[i] == info
                &&& info.effective > 0
                &&& info.activating == 0
                &&& info.deactivating == 0
                &&& forall|j: int|
                    0 <= j < accounts.len() && (#[trigger] accounts[j]).activating == 0
                        && accounts[j].deactivating == 0 ==> accounts[j].effective
                        <= info.effective && (accounts[j].effective == info.effective ==> i <= j)
            },
        highest_settled(accounts) is None ==> forall|j: int|
            0 <= j < accounts.len() ==> (#[trigger] accounts[j]).effective == 0
                || accounts[j].activating > 0 || accounts[j].deactivating > 0,
{
    if exists|i: int| is_highest_settled(accounts, i) {
        let i = choose|i: int| is_highest_settled(accounts, i);
        assert(is_settled(accounts[i]));
        assert forall|j: int|
            0 <= j < accounts.len() && (#[trigger] accounts[j]).activating == 0
                && accounts[j].deactivating == 0 implies accounts[j].effective
            <= accounts[i].effective && (accounts[j].effective == accounts[i].effective ==> i
            <= j) by {
            if accounts[j].effective > 0 {
                assert(is_settled(accounts[j]));
            }
        }
    } else {
        assert forall|j: int| 0 <= j < accounts.len() implies !is_settled(
            #[trigger] accounts[j],
        ) by {
            if is_settled(accounts[j]) {
                lemma_some_is_highest(accounts, j);
            }
        }
    }
}

/// Where an account is settled, one of the settled is the highest.
proof fn lemma_some_is_highest(accounts: Seq<StakeAccountInfo>, j: int) -> (i: int)
    requires
        0 <= j < accounts.len(),
        is_settled(accounts[j]),
    ensures
        is_highest_settled(accounts, i),
    decreases u64::MAX - accounts[j].effective, j,
{
    if is_highest_settled(accounts, j) {
        j
    } else {
        let k = choose|k: int|
            0 <= k < accounts.len() && is_settled(#[trigger] accounts[k]) && !(
            accounts[k].effective < accounts[j].effective || (accounts[k].effective
                == accounts[j].effective && j <= k));
        lemma_some_is_highest(accounts, k)
    }
}

/// For each vote account, its address and the address of the stake account that stands
/// for it; vote accounts without a settled stake account are left out.
pub open spec fn reward_pairs(
    vote_accounts: Seq<VoteAccountInfo>,
    stake_accounts: Map<Seq<u8>, Vec<StakeAccountInfo>>,
) -> Seq<(Pubkey, Pubkey)>
    decreases vote_accounts.len(),
{
    if vote_accounts.len() == 0 {
        Seq::empty()
    } else {
        let rest = reward_pairs(vote_accounts.drop_last(), stake_accounts);
        let address = vote_accounts.last().vote_address;
        if stake_accounts.contains_key(address@) {
            match highest_settled(stake_accounts[address@]@) {
                Some(info) => rest.push((address, info.stake_account)),
                None => rest,
            }
        } else {
            rest
        }
    }
}

/// Picks a stake account for each vote account.
pub fn reward_addresses(
    vote_accounts: &Vec<VoteAccountInfo>,
    stake_accounts: &KeyMap<32, Vec<StakeAccountInfo>>,
) -> (r: Vec<(Pubkey, Pubkey)>)
    requires
        stake_accounts.wf(),
    ensures
        r@ == reward_pairs(vote_accounts@, stake_accounts@),
{
    let mut r: Vec<(Pubkey, Pubkey)> = Vec::new();
    let mut i: usize = 0;
    assert(vote_accounts@.take(0) =~= Seq::<VoteAccountInfo>::empty());
    while i < vote_accounts.len()
        invariant
            stake_accounts.wf(),
            i <= vote_accounts.len(),
            r@ == reward_pairs(vote_accounts@.take(i as int), stake_accounts@),
        decreases vote_accounts.len() - i,
    {
        assert(vote_accounts@.take(i + 1).drop_last() =~= vote_accounts@.take(i as int));
        let address = vote_accounts[i].vote_address;
        match stake_accounts.get(&address) {
            Some(accounts) => match pick_stake_account(accounts) {
                Some(info) => {
                    r.push((address, info.stake_account));
                },
                None => {},
            },
            None => {},
        }
        i += 1;
    }
    assert(vote_accounts@.take(i as int) =~= vote_accounts@);
    r
}

/// How many stake accounts one query for rewards takes.
pub const REWARD_BATCH_SIZE: usize = 700;

/// Cuts the addresses into batches, one for each query.
pub fn reward_batches(addresses: &Vec<(Pubkey, Pubkey)>) -> (r: Vec<Vec<(Pubkey, Pubkey)>>)
    ensures
        r.len() == batch_count(addresses.len() as int, REWARD_BATCH_SIZE as int),
        forall|k: int|
            0 <= k < r.len() ==> (#[trigger] r[k])@ == batch_at(
                addresses@,
                REWARD_BATCH_SIZE as int,
                k,
            ),
        addresses.len() <= r.len() * 700 < addresses.len() + 700,
        forall|k: int| 0 <= k < r.len() - 1 ==> (#[trigger] r[k]).len() == 700,
        forall|k: int, j: int|
            0 <= k < r.len() && 0 <= j < r[k].len() ==> #[trigger] r[k]@[j] == addresses[k * 700
                + j],
{
    batches(addresses, REWARD_BATCH_SIZE)
}

/// The stake accounts of a batch, which a query asks for.
pub fn stake_addresses(batch: &Vec<(Pubkey, Pubkey)>) -> (r: Vec<Pubkey>)
    ensures
        r@ == batch@.map_values(|pair: (Pubkey, Pubkey)| pair.1),
        r.len() == batch.len(),
        forall|i: int| 0 <= i < batch.len() ==> #[trigger] r[i] == batch[i].1,
{
    let mut r: Vec<Pubkey> = Vec::new();
    let mut i: usize = 0;
    while i < batch.len()
        invariant
            i <= batch.len(),
            r.len() == i,
            forall|j: int| 0 <= j < i ==> #[trigger] r[j] == batch[j].1,
        decreases batch.len() - i,
    {
        r.push(batch[i].1);
        i += 1;
    }
    assert(r@ =~= batch@.map_values(|pair: (Pubkey, Pubkey)| pair.1));
    r
}

/// The rewards that a query reports, each with the vote account it is for.
pub open spec fn reported_rewards(
    batch: Seq<(Pubkey, Pubkey)>,
    replies: Seq<Option<InflationReward>>,
) -> Seq<(Pubkey, InflationReward)>
    decreases batch.len(),
{
    if batch.len() == 0 {
        Seq::empty()
    } else {
        let rest = reported_rewards(batch.drop_last(), replies);
        match replies[batch.len() - 1] {
            Some(reward) => rest.push((batch.last().0, reward)),
            None => rest,
        }
    }
}

/// Adds the rewards that a query reports: it answers for each stake account of the batch.
pub fn collect_rewards(
    batch: &Vec<(Pubkey, Pubkey)>,
    replies: &Vec<Option<InflationReward>>,
    rewards: &mut Vec<(Pubkey, InflationReward)>,
)
    requires
        replies.len() >= batch.len(),
    ensures
        final(rewards)@ == old(rewards)@ + reported_rewards(batch@, replies@),
{
    let mut i: usize = 0;
    assert(batch@.take(0) =~= Seq::<(Pubkey, Pubkey)>::empty());
    assert(rewards@ =~= old(rewards)@ + reported_rewards(batch@.take(0), replies@));
    while i < batch.len()
        invariant
            replies.len() >= batch.len(),
            i <= batch.len(),
            rewards@ == old(rewards)@ + reported_rewards(batch@.take(i as int), replies@),
        decreases batch.len() - i,
    {
        assert(batch@.take(i + 1).drop_last() =~= batch@.take(i as int));
        match replies[i] {
            Some(reward) => {
                rewards.push((batch[i].0, reward));
            },
            None => {},
        }
        i += 1;
        assert(rewards@ =~= old(rewards)@ + reported_rewards(batch@.take(i as int), replies@));
    }
    assert(batch@.take(i as int) =~= batch@);
}

/// The times at which epochs began and ended, by the slot in which rewards took effect.
pub struct EpochTimes {
    times: HashMap<u64, (i64, i64)>,
}

impl View for EpochTimes {
    type V = Map<u64, (i64, i64)>;

    closed spec fn view(&self) -> Map<u64, (i64, i64)> {
        self.times@
    }
}

impl EpochTimes {
    /// No times are known.
    pub fn new() -> (times: Self)
        ensures
            times@ == Map::<u64, (i64, i64)>::empty(),
    {
        EpochTimes { times: HashMap::new() }
    }

    /// The times that are known for a slot.
    pub fn get(&self, slot: u64) -> (r: Option<(i64, i64)>)
        ensures
            r == if self@.contains_key(slot) {
                Some(self@[slot])
            } else {
                None
            },
    {
        broadcast use vstd::std_specs::hash::group_hash_axioms;

        match self.times.get(&slot) {
            Some(times) => Some(*times),
            None => None,
        }
    }

    /// Keeps the times for a slot.
    pub fn insert(&mut self, slot: u64, times: (i64, i64))
        ensures
            final(self)@ == old(self)@.insert(slot, times),
    {
        broadcast use vstd::std_specs::hash::group_hash_axioms;

        self.times.insert(slot, times);
    }
}

/// The reward of a validator, in whole numbers.
#[derive(Clone, Copy, Debug, PartialEq, Eq)]
pub struct RewardTerms {
    pub identity: Pubkey,
    pub effective_slot: u64,
    pub post_balance: u64,
    pub amount: u64,
    pub rate: Option<RewardRate>,
}

/// The reward of a vote account for an epoch between two times.
pub open spec fn reward_terms(
    address: Pubkey,
    reward: InflationReward,
    times: (i64, i64),
) -> RewardTerms {
    RewardTerms {
        identity: address,
        effective_slot: reward.effective_slot,
        post_balance: reward.post_balance,
        amount: reward.amount,
        rate: reward_rate(reward, times.0, times.1),
    }
}

/// Reward `i` is the last one of its vote account whose times are known.
pub open spec fn is_last_timed(
    rewards: Seq<(Pubkey, InflationReward)>,
    times: Seq<Option<(i64, i64)>>,
    i: int,
) -> bool {
    &&& 0 <= i < rewards.len()
    &&& times[i] is Some
    &&& forall|j: int|
        i < j < rewards.len() && (#[trigger] rewards[j]).0@ == rewards[i].0@ ==> times[j] is None
}

/// A map holds, for each vote account, its last reward whose times are known.
pub open spec fn holds_last_rewards(
    map: Map<Seq<u8>, RewardTerms>,
    rewards: Seq<(Pubkey, InflationReward)>,
    times: Seq<Option<(i64, i64)>>,
) -> bool {
    &&& forall|i: int|
        0 <= i < rewards.len() && times[i] is Some ==> map.contains_key((#[trigger] rewards[i]).0@)
    &&& forall|key: Seq<u8>| #[trigger]
        map.contains_key(key) ==> exists|i: int|
            {
                &&& #[trigger] is_last_timed(rewards, times, i)
                &&& rewards[i].0@ == key
                &&& map[key] == reward_terms(rewards[i].0, rewards[i].1, times[i].unwrap())
            }
}

/// The rewards by vote account. Rewards without known times are left out; of several
/// rewards of a vote account the last counts.
pub fn get_inflation_rewards(
    rewards: &Vec<(Pubkey, InflationReward)>,
    times: &Vec<Option<(i64, i64)>>,
) -> (r: KeyMap<32, RewardTerms>)
    requires
        rewards.len() == times.len(),
    ensures
        r.wf(),
        holds_last_rewards(r@, rewards@, times@),
{
    let mut r: KeyMap<32, RewardTerms> = KeyMap::new();
    let mut i: usize = 0;
    while i < rewards.len()
        invariant
            rewards.len() == times.len(),
            i <= rewards.len(),
            r.wf(),
            holds_last_rewards(r@, rewards@.take(i as int), times@.take(i as int)),
        decreases rewards.len() - i,
    {
        let (address, reward) = rewards[i];
        let ghost before = r@;
        match times[i] {
            Some((start, end)) => {
                let terms = RewardTerms {
                    identity: address,
                    effective_slot: reward.effective_slot,
                    post_balance: reward.post_balance,
                    amount: reward.amount,
                    rate: get_reward_apy(&reward, start, end),
                };
                r.insert(address, terms);
            },
            None => {},
        }
        proof {
            lemma_one_more_reward(before, rewards@, times@, i as int, r@);
        }
        i += 1;
    }
    assert(rewards@.take(i as int) =~= rewards@);
    assert(times@.take(i as int) =~= times@);
    r
}

/// One more reward replaces that of its vote account, where its times are known.
proof fn lemma_one_more_reward(
    before: Map<Seq<u8>, RewardTerms>,
    rewards: Seq<(Pubkey, InflationReward)>,
    times: Seq<Option<(i64, i64)>>,
    i: int,
    after: Map<Seq<u8>, RewardTerms>,
)
    requires
        0 <= i < rewards.len() == times.len(),
        holds_last_rewards(before, rewards.take(i), times.take(i)),
        after == match times[i] {
            Some(t) => before.insert(
                rewards[i].0@,
                reward_terms(rewards[i].0, rewards[i].1, t),
            ),
            None => before,
        },
    ensures
        holds_last_rewards(after, rewards.take(i + 1), times.take(i + 1)),
{
    let r0 = rewards.take(i);
    let t0 = times.take(i);
    let r1 = rewards.take(i + 1);
    let t1 = times.take(i + 1);
    assert(forall|j: int| 0 <= j < i ==> r0[j] == r1[j] && t0[j] == t1[j]);
    assert forall|j: int| 0 <= j < r1.len() && t1[j] is Some implies after.contains_key(
        (#[trigger] r1[j]).0@,
    ) by {
        if j < i {
            assert(before.contains_key(r0[j].0@));
        }
    }
    assert forall|key: Seq<u8>| #[trigger] after.contains_key(key) implies exists|j: int|
        {
            &&& #[trigger] is_last_timed(r1, t1, j)
            &&& r1[j].0@ == key
            &&& after[key] == reward_terms(r1[j].0, r1[j].1, t1[j].unwrap())
        } by {
        if t1[i] is Some && r1[i].0@ == key {
            assert(is_last_timed(r1, t1, i));
        } else {
            assert(before.contains_key(key));
            let j = choose|j: int|
                {
                    &&& #[trigger] is_last_timed(r0, t0, j)
                    &&& r0[j].0@ == key
                    &&& before[key] == reward_terms(r0[j].0, r0[j].1, t0[j].unwrap())
                };
            assert forall|k: int| j < k < r1.len() && (#[trigger] r1[k]).0@ == r1[j].0@ implies
                t1[k] is None by {
                if k < i {
                    assert(r0[k].0@ == r0[j].0@);
                }
            }
            assert(is_last_timed(r1, t1, j));
        }
    }
}

/// Asking in batches changes nothing: the rewards of two batches, one after the other, are
/// those of the two batches together.
pub proof fn law_batched_rewards_add_up(
    first: Seq<(Pubkey, Pubkey)>,
    first_replies: Seq<Option<InflationReward>>,
    second: Seq<(Pubkey, Pubkey)>,
    second_replies: Seq<Option<InflationReward>>,
)
    requires
        first.len() == first_replies.len(),
        second.len() == second_replies.len(),
    ensures
        reported_rewards(first, first_replies) + reported_rewards(second, second_replies)
            == reported_rewards(first + second, first_replies + second_replies),
    decreases second.len(),
{
    let replies = first_replies + second_replies;
    if second.len() == 0 {
        assert(first + second =~= first);
        assert(replies =~= first_replies);
        assert(reported_rewards(first, first_replies) + Seq::empty() =~= reported_rewards(
            first,
            first_replies,
        ));
    } else {
        let shorter = second.drop_last();
        lemma_replies_prefix(shorter, second_replies, second_replies.drop_last());
        lemma_replies_prefix(
            first + shorter,
            replies,
            first_replies + second_replies.drop_last(),
        );
        law_batched_rewards_add_up(first, first_replies, shorter, second_replies.drop_last());
        assert((first + second).drop_last() =~= first + shorter);
        assert(reported_rewards(first, first_replies) + reported_rewards(second, second_replies)
            =~= reported_rewards(first + second, replies));
    }
}

/// Replies beyond a batch do not matter.
proof fn lemma_replies_prefix(
    batch: Seq<(Pubkey, Pubkey)>,
    a: Seq<Option<InflationReward>>,
    b: Seq<Option<InflationReward>>,
)
    requires
        batch.len() <= a.len(),
        batch.len() <= b.len(),
        forall|i: int| 0 <= i < batch.len() ==> a[i] == b[i],
    ensures
        reported_rewards(batch, a) == reported_rewards(batch, b),
    decreases batch.len(),
{
    if batch.len() > 0 {
        lemma_replies_prefix(batch.drop_last(), a, b);
    }
}

/// A vote account has a settled stake account that stands for it.
pub open spec fn has_settled(
    stake_accounts: Map<Seq<u8>, Vec<StakeAccountInfo>>,
    account: VoteAccountInfo,
) -> bool {
    &&& stake_accounts.contains_key(account.vote_address@)
    &&& highest_settled(stake_accounts[account.vote_address@]@) is Some
}

/// Where vote account `v`, which has a settled stake account, stands among the addresses.
pub open spec fn pair_position(
    vote_accounts: Seq<VoteAccountInfo>,
    stake_accounts: Map<Seq<u8>, Vec<StakeAccountInfo>>,
    v: int,
) -> int {
    reward_pairs(vote_accounts.take(v), stake_accounts).len() as int
}

/// Where the reward for address `p`, which is reported, stands among the rewards.
pub open spec fn reward_position(
    pairs: Seq<(Pubkey, Pubkey)>,
    replies: Seq<Option<InflationReward>>,
    p: int,
) -> int {
    reported_rewards(pairs.take(p), replies).len() as int
}

/// The addresses of the first vote accounts are the first addresses, and one vote account
/// more adds its own where it has a settled stake account.
proof fn lemma_pairs_of_first(
    vote_accounts: Seq<VoteAccountInfo>,
    stake_accounts: Map<Seq<u8>, Vec<StakeAccountInfo>>,
    n: int,
)
    requires
        0 <= n <= vote_accounts.len(),
    ensures
        reward_pairs(vote_accounts.take(n), stake_accounts).is_prefix_of(
            reward_pairs(vote_accounts, stake_accounts),
        ),
        n < vote_accounts.len() && has_settled(stake_accounts, vote_accounts[n]) ==> {
            let pairs = reward_pairs(vote_accounts, stake_accounts);
            let p = pair_position(vote_accounts, stake_accounts, n);
            &&& p < pairs.len()
            &&& pairs[p].0 == vote_accounts[n].vote_address
            &&& pairs[p].1 == highest_settled(
                stake_accounts[vote_accounts[n].vote_address@]@,
            ).unwrap().stake_account
            &&& pair_position(vote_accounts, stake_accounts, n + 1) == p + 1
        },
        n < vote_accounts.len() && !has_settled(stake_accounts, vote_accounts[n])
            ==> pair_position(vote_accounts, stake_accounts, n + 1) == pair_position(
            vote_accounts,
            stake_accounts,
            n,
        ),
    decreases vote_accounts.len() - n,
{
    if n < vote_accounts.len() {
        lemma_pairs_of_first(vote_accounts, stake_accounts, n + 1);
        assert(vote_accounts.take(n + 1).drop_last() =~= vote_accounts.take(n));
        assert(vote_accounts.take(n + 1).last() == vote_accounts[n]);
        let next = reward_pairs(vote_accounts.take(n + 1), stake_accounts);
        let all = reward_pairs(vote_accounts, stake_accounts);
        assert forall|k: int| 0 <= k < next.len() implies next[k] == #[trigger] all[k] by {
            assert(next[k] == all.take(next.len() as int)[k]);
        }
    } else {
        assert(vote_accounts.take(n) =~= vote_accounts);
    }
}

/// The rewards for the first addresses are the first rewards, and one address more adds its
/// own where it is reported.
proof fn lemma_rewards_of_first(
    pairs: Seq<(Pubkey, Pubkey)>,
    replies: Seq<Option<InflationReward>>,
    n: int,
)
    requires
        0 <= n <= pairs.len() <= replies.len(),
    ensures
        reported_rewards(pairs.take(n), replies).is_prefix_of(reported_rewards(pairs, replies)),
        n < pairs.len() && replies[n] is Some ==> {
            let rewards = reported_rewards(pairs, replies);
            let i = reward_position(pairs, replies, n);
            &&& i < rewards.len()
            &&& rewards[i] == (pairs[n].0, replies[n].unwrap())
            &&& reward_position(pairs, replies, n + 1) == i + 1
        },
        n < pairs.len() && replies[n] is None ==> reward_position(pairs, replies, n + 1)
            == reward_position(pairs, replies, n),
    decreases pairs.len() - n,
{
    if n < pairs.len() {
        lemma_rewards_of_first(pairs, replies, n + 1);
        assert(pairs.take(n + 1).drop_last() =~= pairs.take(n));
        assert(pairs.take(n + 1).last() == pairs[n]);
        let next = reported_rewards(pairs.take(n + 1), replies);
        let all = reported_rewards(pairs, replies);
        assert forall|k: int| 0 <= k < next.len() implies next[k] == #[trigger] all[k] by {
            assert(next[k] == all.take(next.len() as int)[k]);
        }
    } else {
        assert(pairs.take(n) =~= pairs);
    }
}

/// Later vote accounts stand later among the addresses.
proof fn lemma_pair_positions_grow(
    vote_accounts: Seq<VoteAccountInfo>,
    stake_accounts: Map<Seq<u8>, Vec<StakeAccountInfo>>,
    a: int,
    b: int,
)
    requires
        0 <= a <= b <= vote_accounts.len(),
    ensures
        pair_position(vote_accounts, stake_accounts, a) <= pair_position(
            vote_accounts,
            stake_accounts,
            b,
        ),
    decreases b - a,
{
    if a < b {
        lemma_pair_positions_grow(vote_accounts, stake_accounts, a, b - 1);
        lemma_pairs_of_first(vote_accounts, stake_accounts, b - 1);
    }
}

/// Rewards for later addresses stand later among the rewards.
proof fn lemma_reward_positions_grow(
    pairs: Seq<(Pubkey, Pubkey)>,
    replies: Seq<Option<InflationReward>>,
    a: int,
    b: int,
)
    requires
        0 <= a <= b <= pairs.len() <= replies.len(),
    ensures
        reward_position(pairs, replies, a) <= reward_position(pairs, replies, b),
    decreases b - a,
{
    if a < b {
        lemma_reward_positions_grow(pairs, replies, a, b - 1);
        lemma_rewards_of_first(pairs, replies, b - 1);
    }
}

/// Each of the addresses is that of a vote account.
proof fn lemma_vote_account_at(
    vote_accounts: Seq<VoteAccountInfo>,
    stake_accounts: Map<Seq<u8>, Vec<StakeAccountInfo>>,
    n: int,
    p: int,
) -> (v: int)
    requires
        0 <= n <= vote_accounts.len(),
        0 <= p < pair_position(vote_accounts, stake_accounts, n),
    ensures
        0 <= v < n,
        has_settled(stake_accounts, vote_accounts[v]),
        pair_position(vote_accounts, stake_accounts, v) == p,
    decreases n,
{
    if n == 0 {
        assert(vote_accounts.take(0) =~= Seq::empty());
        0
    } else {
        lemma_pairs_of_first(vote_accounts, stake_accounts, n - 1);
        if p < pair_position(vote_accounts, stake_accounts, n - 1) {
            lemma_vote_account_at(vote_accounts, stake_accounts, n - 1, p)
        } else {
            n - 1
        }
    }
}

/// Each of the rewards is reported for an address.
proof fn lemma_address_at(
    pairs: Seq<(Pubkey, Pubkey)>,
    replies: Seq<Option<InflationReward>>,
    n: int,
    i: int,
) -> (p: int)
    requires
        0 <= n <= pairs.len() <= replies.len(),
        0 <= i < reward_position(pairs, replies, n),
    ensures
        0 <= p < n,
        replies[p] is Some,
        reward_position(pairs, replies, p) == i,
    decreases n,
{
    if n == 0 {
        assert(pairs.take(0) =~= Seq::empty());
        0
    } else {
        lemma_rewards_of_first(pairs, replies, n - 1);
        if i < reward_position(pairs, replies, n - 1) {
            lemma_address_at(pairs, replies, n - 1, i)
        } else {
            n - 1
        }
    }
}

/// Vote account `v` is rewarded: it has a settled stake account, whose reward is reported
/// and has known times.
pub open spec fn is_rewarded(
    vote_accounts: Seq<VoteAccountInfo>,
    stake_accounts: Map<Seq<u8>, Vec<StakeAccountInfo>>,
    replies: Seq<Option<InflationReward>>,
    times: Seq<Option<(i64, i64)>>,
    v: int,
) -> bool {
    let pairs = reward_pairs(vote_accounts, stake_accounts);
    let p = pair_position(vote_accounts, stake_accounts, v);
    &&& 0 <= v < vote_accounts.len()
    &&& has_settled(stake_accounts, vote_accounts[v])
    &&& replies[p] is Some
    &&& times[reward_position(pairs, replies, p)] is Some
}

/// `terms` is the reward of vote account `v`, the last rewarded one with its address.
pub open spec fn is_last_rewarded(
    vote_accounts: Seq<VoteAccountInfo>,
    stake_accounts: Map<Seq<u8>, Vec<StakeAccountInfo>>,
    replies: Seq<Option<InflationReward>>,
    times: Seq<Option<(i64, i64)>>,
    v: int,
    terms: RewardTerms,
) -> bool {
    let pairs = reward_pairs(vote_accounts, stake_accounts);
    let p = pair_position(vote_accounts, stake_accounts, v);
    &&& is_rewarded(vote_accounts, stake_accounts, replies, times, v)
    &&& forall|w: int|
        v < w && #[trigger] is_rewarded(vote_accounts, stake_accounts, replies, times, w)
            ==> vote_accounts[w].vote_address@ != vote_accounts[v].vote_address@
    &&& terms == reward_terms(
        vote_accounts[v].vote_address,
        replies[p].unwrap(),
        times[reward_position(pairs, replies, p)].unwrap(),
    )
}

/// From the vote accounts to the rewards: an address has a reward in the end exactly where
/// a vote account with that address has a settled stake account, the reward of this stake
/// account is reported, and its times are known. It is the reward of the last such vote
/// account.
pub proof fn law_rewarded_vote_accounts(
    vote_accounts: Seq<VoteAccountInfo>,
    stake_accounts: Map<Seq<u8>, Vec<StakeAccountInfo>>,
    replies: Seq<Option<InflationReward>>,
    times: Seq<Option<(i64, i64)>>,
    map: Map<Seq<u8>, RewardTerms>,
    key: Seq<u8>,
)
    requires
        ({
            let pairs = reward_pairs(vote_accounts, stake_accounts);
            let rewards = reported_rewards(pairs, replies);
            &&& replies.len() >= pairs.len()
            &&& times.len() == rewards.len()
            &&& holds_last_rewards(map, rewards, times)
        }),
    ensures
        map.contains_key(key) <==> exists|v: int|
            #[trigger] is_rewarded(vote_accounts, stake_accounts, replies, times, v)
                && vote_accounts[v].vote_address@ == key,
        map.contains_key(key) ==> exists|v: int|
            #[trigger] is_last_rewarded(
                vote_accounts,
                stake_accounts,
                replies,
                times,
                v,
                map[key],
            ) && vote_accounts[v].vote_address@ == key,
{
    let pairs = reward_pairs(vote_accounts, stake_accounts);
    let rewards = reported_rewards(pairs, replies);
    assert(vote_accounts.take(vote_accounts.len() as int) =~= vote_accounts);
    assert(pairs.take(pairs.len() as int) =~= pairs);
    assert forall|v: int| #[trigger]
        is_rewarded(vote_accounts, stake_accounts, replies, times, v) implies map.contains_key(
        vote_accounts[v].vote_address@,
    ) by {
        lemma_pairs_of_first(vote_accounts, stake_accounts, v);
        let p = pair_position(vote_accounts, stake_accounts, v);
        lemma_rewards_of_first(pairs, replies, p);
        let i = reward_position(pairs, replies, p);
        assert(rewards[i].0 == vote_accounts[v].vote_address);
    }
    if map.contains_key(key) {
        let i = choose|i: int|
            {
                &&& #[trigger] is_last_timed(rewards, times, i)
                &&& rewards[i].0@ == key
                &&& map[key] == reward_terms(rewards[i].0, rewards[i].1, times[i].unwrap())
            };
        let p = lemma_address_at(pairs, replies, pairs.len() as int, i);
        let v = lemma_vote_account_at(
            vote_accounts,
            stake_accounts,
            vote_accounts.len() as int,
            p,
        );
        lemma_pairs_of_first(vote_accounts, stake_accounts, v);
        lemma_rewards_of_first(pairs, replies, p);
        assert(is_rewarded(vote_accounts, stake_accounts, replies, times, v));
        assert forall|w: int|
            v < w && #[trigger] is_rewarded(
                vote_accounts,
                stake_accounts,
                replies,
                times,
                w,
            ) implies vote_accounts[w].vote_address@ != vote_accounts[v].vote_address@ by {
            let q = pair_position(vote_accounts, stake_accounts, w);
            let j = reward_position(pairs, replies, q);
            lemma_pair_positions_grow(vote_accounts, stake_accounts, v + 1, w);
            lemma_pairs_of_first(vote_accounts, stake_accounts, w);
            lemma_reward_positions_grow(pairs, replies, p + 1, q);
            lemma_rewards_of_first(pairs, replies, q);
            assert(i < j);
            assert(rewards[j].0 == vote_accounts[w].vote_address);
        }
        assert(is_last_rewarded(vote_accounts, stake_accounts, replies, times, v, map[key]));
    }
}

/// The rate of a reward is made of what the inputs say: the time that passed, the amount,
/// and the balance that it was earned on. There is none only where the balance holds nothing
/// but the reward, or the time does not fit in 64 bits.
pub proof fn law_rate_of_a_reward(reward: InflationReward, start: i64, end: i64)
    ensures
        reward_rate(reward, start, end) matches Some(rate) ==> {
            &&& rate.duration == end - start
            &&& rate.amount == reward.amount
            &&& rate.principal + rate.amount == reward.post_balance
            &&& rate.principal > 0
            &&& rate.seconds_per_year == 365 * 24 * 60 * 60
        },
        reward_rate(reward, start, end) is None <==> reward.post_balance <= reward.amount || end
            - start > 0x7fff_ffff_ffff_ffff || end - start < -0x8000_0000_0000_0000,
{
}

/// The rate does not depend on when an epoch was, only on how long it took.
pub proof fn law_rate_depends_on_the_duration(
    reward: InflationReward,
    start: i64,
    end: i64,
    later_start: i64,
    later_end: i64,
)
    requires
        end - start == later_end - later_start,
    ensures
        reward_rate(reward, start, end) == reward_rate(reward, later_start, later_end),
{
}

/// Below ten slots beyond the number of the epoch the time of a slot is looked up. From there
/// on the slots up to the one of the reward are counted, where there are such.
pub proof fn law_epoch_start_step(reward: InflationReward, slot: u64, time: i64)
    ensures
        slot < reward.epoch + 10 ==> epoch_start_at(reward, slot) == (EpochStart::Probe { slot }),
        slot >= reward.epoch + 10 && reward.effective_slot >= slot ==> (epoch_start_at(
            reward,
            slot,
        ) matches EpochStart::Estimate { slots } && slot + slots == reward.effective_slot),
        slot >= reward.epoch + 10 && reward.effective_slot < slot ==> epoch_start_at(
            reward,
            slot,
        ) is Inconsistent,
        epoch_start_after(reward, slot, Some(time)) == (EpochStart::Known { time }),
        slot < u64::MAX ==> epoch_start_after(reward, slot, None) == epoch_start_at(
            reward,
            (slot + 1) as u64,
        ),
{
}

/// Each address pair is that of a vote account and of one of the stake accounts that
/// delegate to it: one that is effective, of which nothing is activating or deactivating, and
/// which has the highest effective stake of these.
pub proof fn law_reward_address_pairs(
    vote_accounts: Seq<VoteAccountInfo>,
    stake_accounts: Map<Seq<u8>, Vec<StakeAccountInfo>>,
    p: int,
) -> (found: (int, int))
    requires
        0 <= p < reward_pairs(vote_accounts, stake_accounts).len(),
    ensures
        ({
            let (v, i) = found;
            let address = vote_accounts[v].vote_address;
            let accounts = stake_accounts[address@]@;
            &&& 0 <= v < vote_accounts.len()
            &&& stake_accounts.contains_key(address@)
            &&& 0 <= i < accounts.len()
            &&& reward_pairs(vote_accounts, stake_accounts)[p] == (
                address,
                accounts[i].stake_account,
            )
            &&& accounts[i].effective > 0
            &&& accounts[i].activating == 0
            &&& accounts[i].deactivating == 0
            &&& forall|j: int|
                0 <= j < accounts.len() && (#[trigger] accounts[j]).activating == 0
                    && accounts[j].deactivating == 0 ==> accounts[j].effective
                    <= accounts[i].effective
        }),
{
    assert(vote_accounts.take(vote_accounts.len() as int) =~= vote_accounts);
    let v = lemma_vote_account_at(vote_accounts, stake_accounts, vote_accounts.len() as int, p);
    lemma_pairs_of_first(vote_accounts, stake_accounts, v);
    let accounts = stake_accounts[vote_accounts[v].vote_address@]@;
    law_picked_account_is_highest(accounts);
    let info = highest_settled(accounts).unwrap();
    let i = choose|i: int|
        {
            &&& 0 <= i < accounts.len()
            &&& #[trigger] accounts[i] == info
            &&& info.effective > 0
            &&& info.activating == 0
            &&& info.deactivating == 0
            &&& forall|j: int|
                0 <= j < accounts.len() && (#[trigger] accounts[j]).activating == 0
                    && accounts[j].deactivating == 0 ==> accounts[j].effective <= info.effective
                    && (accounts[j].effective == info.effective ==> i <= j)
        };
    (v, i)
}

/// A vote account to which an effective stake account delegates, of which nothing is
/// activating or deactivating, has a pair. Pairs stand in the order of the vote accounts.
pub proof fn law_reward_addresses_are_complete(
    vote_accounts: Seq<VoteAccountInfo>,
    stake_accounts: Map<Seq<u8>, Vec<StakeAccountInfo>>,
    v: int,
    i: int,
    w: int,
)
    requires
        0 <= v < vote_accounts.len(),
        stake_accounts.contains_key(vote_accounts[v].vote_address@),
        0 <= i < stake_accounts[vote_accounts[v].vote_address@].len(),
        stake_accounts[vote_accounts[v].vote_address@][i].effective > 0,
        stake_accounts[vote_accounts[v].vote_address@][i].activating == 0,
        stake_accounts[vote_accounts[v].vote_address@][i].deactivating == 0,
        0 <= w < v,
    ensures
        ({
            let pairs = reward_pairs(vote_accounts, stake_accounts);
            let p = pair_position(vote_accounts, stake_accounts, v);
            &&& 0 <= p < pairs.len()
            &&& pairs[p].0 == vote_accounts[v].vote_address
            &&& has_settled(stake_accounts, vote_accounts[w]) ==> pair_position(
                vote_accounts,
                stake_accounts,
                w,
            ) < p
        }),
{
    law_picked_account_is_highest(stake_accounts[vote_accounts[v].vote_address@]@);
    lemma_pairs_of_first(vote_accounts, stake_accounts, v);
    lemma_pairs_of_first(vote_accounts, stake_accounts, w);
    lemma_pair_positions_grow(vote_accounts, stake_accounts, w + 1, v);
}

/// The rewards are the replies that report one, in their order, each with the vote account of
/// its pair.
pub proof fn law_reported_rewards(
    pairs: Seq<(Pubkey, Pubkey)>,
    replies: Seq<Option<InflationReward>>,
) -> (at: Seq<int>)
    requires
        pairs.len() <= replies.len(),
    ensures
        at.len() == reported_rewards(pairs, replies).len(),
        forall|a: int, b: int| 0 <= a < b < at.len() ==> #[trigger] at[a] < #[trigger] at[b],
        forall|i: int|
            0 <= i < at.len() ==> {
                &&& 0 <= #[trigger] at[i] < pairs.len()
                &&& replies[at[i]] is Some
                &&& reported_rewards(pairs, replies)[i].0 == pairs[at[i]].0
                &&& reported_rewards(pairs, replies)[i].1 == replies[at[i]].unwrap()
            },
        forall|p: int| 0 <= p < pairs.len() && #[trigger] replies[p] is Some ==> at.contains(p),
    decreases pairs.len(),
{
    if pairs.len() == 0 {
        Seq::empty()
    } else {
        let shorter = pairs.drop_last();
        let rest = law_reported_rewards(shorter, replies);
        let n = shorter.len() as int;
        if replies[n] is Some {
            let at = rest.push(n);
            assert forall|p: int| 0 <= p < pairs.len() && #[trigger] replies[p] is Some implies
                at.contains(p) by {
                if p < n {
                    let k = choose|k: int| 0 <= k < rest.len() && rest[k] == p;
                    assert(at[k] == p);
                } else {
                    assert(at[rest.len() as int] == p);
                }
            }
            at
        } else {
            rest
        }
    }
}

/// The reward that is told for an address is the last of its rewards whose times are known,
/// with the slot, the balance and the amount that it has, and the rate that these and the
/// times give.
pub proof fn law_told_reward_is_the_last(
    map: Map<Seq<u8>, RewardTerms>,
    rewards: Seq<(Pubkey, InflationReward)>,
    times: Seq<Option<(i64, i64)>>,
    key: Seq<u8>,
) -> (i: int)
    requires
        rewards.len() == times.len(),
        holds_last_rewards(map, rewards, times),
        map.contains_key(key),
    ensures
        0 <= i < rewards.len(),
        rewards[i].0@ == key,
        times[i] is Some,
        forall|j: int|
            i < j < rewards.len() && (#[trigger] rewards[j]).0@ == key ==> times[j] is None,
        map[key].identity@ == key,
        map[key].effective_slot == rewards[i].1.effective_slot,
        map[key].post_balance == rewards[i].1.post_balance,
        map[key].amount == rewards[i].1.amount,
        map[key].rate matches Some(rate) ==> {
            &&& rate.duration == times[i].unwrap().1 - times[i].unwrap().0
            &&& rate.amount == rewards[i].1.amount
            &&& rate.principal + rate.amount == rewards[i].1.post_balance
        },
        map[key].rate is None ==> rewards[i].1.post_balance <= rewards[i].1.amount || !(
        i64::MIN <= times[i].unwrap().1 - times[i].unwrap().0 <= i64::MAX),
{
    choose|i: int|
        {
            &&& #[trigger] is_last_timed(rewards, times, i)
            &&& rewards[i].0@ == key
            &&& map[key] == reward_terms(rewards[i].0, rewards[i].1, times[i].unwrap())
        }
}

/// An address with a reward whose times are known is told.
pub proof fn law_timed_reward_is_told(
    map: Map<Seq<u8>, RewardTerms>,
    rewards: Seq<(Pubkey, InflationReward)>,
    times: Seq<Option<(i64, i64)>>,
    i: int,
)
    requires
        rewards.len() == times.len(),
        holds_last_rewards(map, rewards, times),
        0 <= i < rewards.len(),
        times[i] is Some,
    ensures
        map.contains_key(rewards[i].0@),
{
}

} // verus!
