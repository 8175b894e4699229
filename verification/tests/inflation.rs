use solana_sdk::epoch_schedule::EpochSchedule as SolanaSchedule;

use stake_bot::db::Float64;
use stake_bot::inflation::{
    block_time_known, collect_rewards, get_epoch_boundary_timestamps, get_inflation_rewards,
    get_reward_apy, pick_stake_account, reward_addresses, reward_batches, stake_addresses,
    EpochSchedule, EpochStart, EpochTimes, InflationReward, RewardRate,
};
use stake_bot::keys::{Key, KeyMap, Pubkey};
use stake_bot::stake_accounts::StakeAccountInfo;
use stake_bot::vote_accounts::VoteAccountInfo;

fn key(n: u8) -> Pubkey {
    Key { bytes: [n; 32] }
}

fn reward(epoch: u64, effective_slot: u64) -> InflationReward {
    InflationReward { epoch, effective_slot, amount: 5, post_balance: 105 }
}

fn schedule(solana: &SolanaSchedule) -> EpochSchedule {
    EpochSchedule {
        slots_per_epoch: solana.slots_per_epoch,
        first_normal_epoch: solana.first_normal_epoch,
        first_normal_slot: solana.first_normal_slot,
    }
}

#[test]
fn epoch_start_counts_from_the_first_slot() {
    let solana = SolanaSchedule::custom(8192, 8192, true);
    for epoch in [1, 2, 5, 8, 9, 300] {
        let first = solana.get_first_slot_in_epoch(epoch);
        assert_eq!(
            get_epoch_boundary_timestamps(&schedule(&solana), &reward(epoch, first + 17)),
            EpochStart::Estimate { slots: 17 }
        );
    }
    // Epoch 8 is the first of full length and starts at 8192 - 32.
    assert_eq!(
        get_epoch_boundary_timestamps(&schedule(&solana), &reward(8, 8192)),
        EpochStart::Estimate { slots: 32 }
    );
    assert_eq!(
        get_epoch_boundary_timestamps(&schedule(&solana), &reward(9, 0)),
        EpochStart::Inconsistent
    );
}

#[test]
fn first_slot_is_cut_off() {
    let long = EpochSchedule {
        slots_per_epoch: u64::MAX,
        first_normal_epoch: 0,
        first_normal_slot: 9,
    };
    assert_eq!(
        get_epoch_boundary_timestamps(&long, &reward(3, u64::MAX)),
        EpochStart::Estimate { slots: 0 }
    );
    let warm = EpochSchedule {
        slots_per_epoch: 32,
        first_normal_epoch: u64::MAX,
        first_normal_slot: 0,
    };
    assert_eq!(
        get_epoch_boundary_timestamps(&warm, &reward(64, u64::MAX)),
        EpochStart::Estimate { slots: 0 }
    );
    assert_eq!(
        get_epoch_boundary_timestamps(&warm, &reward(0x1_0000_0000, 5)),
        EpochStart::Probe { slot: 0 }
    );
}

#[test]
fn epoch_start_probes_below_the_limit() {
    let solana = SolanaSchedule::custom(8192, 8192, false);
    let first = reward(0, 50);
    let mut step = get_epoch_boundary_timestamps(&schedule(&solana), &first);
    for slot in 0..10 {
        assert_eq!(step, EpochStart::Probe { slot });
        assert_eq!(
            block_time_known(&first, slot, Some(-4)),
            EpochStart::Known { time: -4 }
        );
        step = block_time_known(&first, slot, None);
    }
    assert_eq!(step, EpochStart::Estimate { slots: 40 });
}

#[test]
fn reward_rates() {
    assert_eq!(
        get_reward_apy(&reward(1, 2), 1000, 1500),
        Some(RewardRate {
            amount: 5,
            principal: 100,
            seconds_per_year: 31_536_000,
            duration: 500,
        })
    );
    let mut all_reward = reward(1, 2);
    all_reward.post_balance = 5;
    assert_eq!(get_reward_apy(&all_reward, 1000, 1500), None);
    assert_eq!(get_reward_apy(&reward(1, 2), i64::MIN, 1), None);
    assert_eq!(get_reward_apy(&reward(1, 2), 5, 3).unwrap().duration, -2);
}

fn stake(address: u8, effective: u64, activating: u64, deactivating: u64) -> StakeAccountInfo {
    StakeAccountInfo {
        stake_account: key(address),
        voter_pubkey: key(90),
        stake: 1,
        activation_epoch: 0,
        deactivation_epoch: 0,
        warmup_cooldown_rate: Float64 { bits: 0 },
        effective,
        activating,
        deactivating,
    }
}

#[test]
fn highest_settled_stake_is_picked() {
    let accounts = vec![
        stake(1, 10, 0, 0),
        stake(2, 90, 1, 0),
        stake(3, 90, 0, 1),
        stake(4, 30, 0, 0),
        stake(5, 30, 0, 0),
        stake(6, 0, 0, 0),
    ];
    assert_eq!(pick_stake_account(&accounts).unwrap().stake_account, key(4));
    assert!(pick_stake_account(&vec![stake(6, 0, 0, 0), stake(2, 9, 1, 0)]).is_none());
    assert!(pick_stake_account(&vec![]).is_none());
}

fn vote(address: u8) -> VoteAccountInfo {
    VoteAccountInfo {
        identity: key(200),
        vote_address: key(address),
        commission: 0,
        active_stake: 0,
        epoch_credits: 0,
    }
}

#[test]
fn addresses_of_rewards() {
    let mut stakes: KeyMap<32, Vec<StakeAccountInfo>> = KeyMap::new();
    stakes.append(key(50), stake(1, 10, 0, 0));
    stakes.append(key(50), stake(2, 20, 0, 0));
    stakes.append(key(51), stake(3, 0, 5, 0));
    stakes.append(key(52), stake(4, 7, 0, 0));
    let addresses = reward_addresses(&vec![vote(52), vote(51), vote(49), vote(50)], &stakes);
    assert_eq!(addresses, vec![(key(52), key(4)), (key(50), key(2))]);
    assert_eq!(stake_addresses(&addresses), vec![key(4), key(2)]);
}

#[test]
fn batches_of_rewards() {
    let addresses: Vec<(Pubkey, Pubkey)> = (0..1401u32).map(|n| (key(1), key(n as u8))).collect();
    let batches = reward_batches(&addresses);
    let lengths: Vec<usize> = batches.iter().map(|batch| batch.len()).collect();
    assert_eq!(lengths, vec![700, 700, 1]);
    assert_eq!(batches.concat(), addresses);
}

#[test]
fn rewards_are_collected() {
    let batch = vec![(key(1), key(11)), (key(2), key(12)), (key(3), key(13))];
    let mut rewards = vec![(key(9), reward(0, 0))];
    collect_rewards(
        &batch,
        &vec![Some(reward(1, 1)), None, Some(reward(3, 3)), Some(reward(4, 4))],
        &mut rewards,
    );
    assert_eq!(
        rewards,
        vec![(key(9), reward(0, 0)), (key(1), reward(1, 1)), (key(3), reward(3, 3))]
    );
}

#[test]
fn batched_rewards_add_up() {
    let batch = vec![(key(1), key(11)), (key(2), key(12)), (key(3), key(13))];
    let replies = vec![None, Some(reward(2, 2)), Some(reward(3, 3))];
    let mut whole = vec![];
    collect_rewards(&batch, &replies, &mut whole);
    let mut parts = vec![];
    collect_rewards(&batch[..2].to_vec(), &replies[..2].to_vec(), &mut parts);
    collect_rewards(&batch[2..].to_vec(), &replies[2..].to_vec(), &mut parts);
    assert_eq!(whole, parts);
}

#[test]
fn last_reward_with_times_counts() {
    let rewards = vec![
        (key(1), reward(1, 100)),
        (key(2), reward(1, 101)),
        (key(1), reward(1, 102)),
        (key(1), reward(1, 103)),
        (key(3), reward(1, 104)),
    ];
    let times = vec![Some((0, 10)), Some((0, 20)), Some((0, 30)), None, None];
    let map = get_inflation_rewards(&rewards, &times);
    assert_eq!(map.keys(), &vec![key(1), key(2)]);
    let terms = map.get(&key(1)).unwrap();
    assert_eq!(terms.identity, key(1));
    assert_eq!(terms.effective_slot, 102);
    assert_eq!((terms.amount, terms.post_balance), (5, 105));
    assert_eq!(terms.rate.unwrap().duration, 30);
    assert_eq!(map.get(&key(2)).unwrap().effective_slot, 101);
    assert!(map.get(&key(3)).is_none());
}

#[test]
fn rewards_from_vote_accounts_to_results() {
    let mut stake_accounts = KeyMap::new();
    stake_accounts.append(key(1), stake(11, 500, 0, 0));
    stake_accounts.append(key(2), stake(12, 500, 1, 0));
    stake_accounts.append(key(3), stake(13, 500, 0, 0));
    stake_accounts.append(key(4), stake(14, 500, 0, 0));
    let votes = vec![vote(1), vote(2), vote(3), vote(4), vote(5)];
    let pairs = reward_addresses(&votes, &stake_accounts);
    assert_eq!(pairs, vec![(key(1), key(11)), (key(3), key(13)), (key(4), key(14))]);
    let replies = vec![Some(reward(1, 100)), None, Some(reward(1, 101))];
    let mut rewards = vec![];
    collect_rewards(&pairs, &replies, &mut rewards);
    let map = get_inflation_rewards(&rewards, &vec![Some((0, 10)), None]);
    assert_eq!(map.keys(), &vec![key(1)]);
    let map = get_inflation_rewards(&rewards, &vec![None, Some((0, 10))]);
    assert_eq!(map.keys(), &vec![key(4)]);
    assert_eq!(map.get(&key(4)).unwrap().effective_slot, 101);
}

#[test]
fn times_are_kept_by_slot() {
    let mut times = EpochTimes::new();
    assert_eq!(times.get(7), None);
    times.insert(7, (1, 2));
    times.insert(8, (3, 4));
    times.insert(7, (5, 6));
    assert_eq!(times.get(7), Some((5, 6)));
    assert_eq!(times.get(8), Some((3, 4)));
}
