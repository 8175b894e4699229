use solana_sdk::account::{Account, AccountSharedData};
use solana_sdk::account_utils::StateMut;
use solana_sdk::clock::Clock;
use solana_sdk::pubkey::Pubkey as SolanaPubkey;
use solana_sdk::stake::state::{
    Authorized, Delegation as SolanaDelegation, Lockup, Meta, Stake, StakeState,
};
use solana_sdk::stake_history::{StakeHistory, StakeHistoryEntry};

use stake_bot::keys::{Key, Pubkey};
use stake_bot::stake_accounts::{
    get_all_stake, get_stake_accounts, group_by_voter, read_current_epoch, read_stake_history,
    DelegatedAccount, Delegation, ProgramAccount, StakeAccountInfo, StakeAccountsError,
    StakeActivation, AUTHORIZED_STAKER_OFFSET,
};
use stake_bot::db::Float64;
use stake_bot::vote_accounts::{
    epoch_credits, get_vote_account_info, latest_vote_accounts, RpcVoteAccountInfo,
    VoteAccountError, VoteAccountInfo,
};
use stake_bot::warmup::step_bounded;

fn key(n: u8) -> Pubkey {
    Key { bytes: [n; 32] }
}

fn text(n: u8) -> String {
    SolanaPubkey::new_from_array([n; 32]).to_string()
}

fn delegation(
    voter: u8,
    stake: u64,
    activation_epoch: u64,
    deactivation_epoch: u64,
) -> SolanaDelegation {
    SolanaDelegation {
        voter_pubkey: SolanaPubkey::new_from_array([voter; 32]),
        stake,
        activation_epoch,
        deactivation_epoch,
        warmup_cooldown_rate: 0.25,
    }
}

fn data_of(delegation: SolanaDelegation, extra: usize) -> Vec<u8> {
    let mut account = Account { data: vec![0; 196 + extra], ..Account::default() };
    account
        .set_state(&StakeState::Stake(
            Meta {
                rent_exempt_reserve: 77,
                authorized: Authorized {
                    staker: SolanaPubkey::new_from_array([201; 32]),
                    withdrawer: SolanaPubkey::new_from_array([202; 32]),
                },
                lockup: Lockup::default(),
            },
            Stake { delegation, credits_observed: 5 },
        ))
        .unwrap();
    account.data
}

fn stake_data(voter: u8, stake: u64, extra: usize) -> Vec<u8> {
    data_of(delegation(voter, stake, 258, u64::MAX), extra)
}

#[test]
fn delegations_are_read_from_account_data() {
    let uninitialized = vec![0u8; 200];
    let mut initialized = vec![0u8; 200];
    initialized[0] = 1;
    let mut rewards_pool = vec![0u8; 200];
    rewards_pool[0] = 3;
    let mut unknown = vec![0u8; 200];
    unknown[0] = 4;
    let whole = stake_data(7, 1_000_000, 0);
    let short = whole[..195].to_vec();
    let accounts = vec![
        ProgramAccount { address: key(1), data: uninitialized },
        ProgramAccount { address: key(2), data: stake_data(9, u64::MAX, 4) },
        ProgramAccount { address: key(3), data: initialized },
        ProgramAccount { address: key(4), data: rewards_pool },
        ProgramAccount { address: key(5), data: unknown },
        ProgramAccount { address: key(6), data: short },
        ProgramAccount { address: key(7), data: vec![] },
        ProgramAccount { address: key(8), data: whole },
    ];
    let groups = get_stake_accounts(&accounts, &vec![0; 8], &clock_data(300)).unwrap();
    assert_eq!(groups.keys(), &vec![key(7), key(9)]);
    let of_9 = groups.get(&key(9)).unwrap();
    assert_eq!(of_9.len(), 1);
    assert_eq!(
        of_9[0],
        StakeAccountInfo {
            stake_account: key(2),
            voter_pubkey: key(9),
            stake: u64::MAX,
            activation_epoch: 258,
            deactivation_epoch: u64::MAX,
            warmup_cooldown_rate: Float64 { bits: 0.25f64.to_bits() },
            effective: u64::MAX,
            activating: 0,
            deactivating: 0,
        }
    );
    let of_7 = groups.get(&key(7)).unwrap();
    assert_eq!(of_7.len(), 1);
    assert_eq!((of_7[0].stake_account, of_7[0].stake), (key(8), 1_000_000));
}

#[test]
fn staker_stands_at_its_offset() {
    let data = stake_data(7, 1, 0);
    assert_eq!(data[AUTHORIZED_STAKER_OFFSET..AUTHORIZED_STAKER_OFFSET + 32], [201u8; 32]);
}

#[test]
fn delegation_fields_stand_at_their_offsets() {
    let data = stake_data(7, 0x0102_0304, 0);
    assert_eq!(data[..4], [2, 0, 0, 0]);
    assert_eq!(data[124..156], [7u8; 32]);
    assert_eq!(data[156..164], [4, 3, 2, 1, 0, 0, 0, 0]);
    assert_eq!(data[164..172], [2, 1, 0, 0, 0, 0, 0, 0]);
    assert_eq!(data[188..196], [5, 0, 0, 0, 0, 0, 0, 0]);
}

#[test]
fn stake_history_is_read() {
    let mut data = vec![0u8; 8 + 64];
    data[0] = 2;
    data[8] = 11;
    data[16] = 21;
    data[40] = 10;
    data[48] = 20;
    let history: StakeHistory = read_stake_history(&data).unwrap();
    let entry: &StakeHistoryEntry = history.get(&11).unwrap();
    assert_eq!(entry.effective, 21);
    assert_eq!(history.get(&10).unwrap().effective, 20);
    assert!(history.get(&9).is_none());
    data.push(1);
    assert!(read_stake_history(&data).is_ok());
    assert!(read_stake_history(&vec![0; 8]).is_ok());

    let error = StakeAccountsError::StakeHistory;
    assert_eq!(read_stake_history(&vec![0; 7]).err(), Some(error));
    assert_eq!(read_stake_history(&data[..71].to_vec()).err(), Some(error));
    assert_eq!(read_stake_history(&vec![255; 100]).err(), Some(error));
    assert_eq!(error.message(), "Failed to deserialize stake history");
}

#[test]
fn current_epoch_is_read_from_the_clock() {
    let clock = Clock {
        slot: 1,
        epoch_start_timestamp: -2,
        epoch: 259,
        leader_schedule_epoch: 4,
        unix_timestamp: 5,
    };
    let mut account = AccountSharedData::new(0, 40, &SolanaPubkey::default());
    account.set_state(&clock).unwrap();
    let data = Account::from(account).data;
    assert_eq!(read_current_epoch(&data), Ok(259));
    assert_eq!(read_current_epoch(&data[..39].to_vec()), Err(StakeAccountsError::Clock));
    assert_eq!(
        StakeAccountsError::Clock.message(),
        "Failed to deserialize clock sysvar"
    );
}

fn delegated(address: u8, voter: u8) -> DelegatedAccount {
    DelegatedAccount {
        address: key(address),
        delegation: Delegation {
            voter_pubkey: key(voter),
            stake: 100,
            activation_epoch: 1,
            deactivation_epoch: 2,
            warmup_cooldown_rate: Float64 { bits: 3 },
        },
    }
}

#[test]
fn stake_accounts_are_grouped_by_voter() {
    let accounts = vec![delegated(1, 50), delegated(2, 40), delegated(3, 50)];
    let activations: Vec<StakeActivation> = (0..3)
        .map(|n| StakeActivation { effective: n, activating: n + 10, deactivating: n + 20 })
        .collect();
    let groups = group_by_voter(&accounts, &activations);
    let of_50 = groups.get(&key(50)).unwrap();
    assert_eq!(of_50.len(), 2);
    assert_eq!(of_50[0].stake_account, key(1));
    assert_eq!(of_50[1].stake_account, key(3));
    assert_eq!(of_50[1].voter_pubkey, key(50));
    assert_eq!(
        (of_50[1].effective, of_50[1].activating, of_50[1].deactivating),
        (2, 12, 22)
    );
    assert_eq!((of_50[1].stake, of_50[1].activation_epoch), (100, 1));
    assert_eq!(of_50[1].deactivation_epoch, 2);
    assert_eq!(of_50[1].warmup_cooldown_rate.bits, 3);
    assert_eq!(groups.get(&key(40)).unwrap().len(), 1);
    assert!(groups.get(&key(1)).is_none());
    assert_eq!(groups.keys().len(), 2);
}

fn clock_data(epoch: u64) -> Vec<u8> {
    let mut data = vec![0u8; 40];
    data[16..24].copy_from_slice(&epoch.to_le_bytes());
    data
}

fn history_data(entries: &Vec<(u64, u64, u64, u64)>) -> Vec<u8> {
    let mut data = (entries.len() as u64).to_le_bytes().to_vec();
    for entry in entries {
        for number in [entry.0, entry.1, entry.2, entry.3] {
            data.extend_from_slice(&number.to_le_bytes());
        }
    }
    data
}

fn program_account(address: u8, data: Vec<u8>) -> ProgramAccount {
    ProgramAccount { address: key(address), data }
}

#[test]
fn stake_accounts_carry_their_activation() {
    let entries = vec![
        (261, 5_000_000, 40_000, 70),
        (260, 4_000_000, 900_000, 80),
        (259, 3_000_000, 2_000_000, 90),
        (258, 1_000_000, 4_000_000, 100),
    ];
    let accounts = vec![
        program_account(1, stake_data(7, 1_000_000, 0)),
        program_account(2, vec![0; 200]),
        program_account(3, stake_data(8, 10, 4)),
        program_account(4, stake_data(7, 2_000_000, 0)),
    ];
    let history = history_data(&entries);
    let solana_history: StakeHistory = read_stake_history(&history).unwrap();
    let mut shares = vec![];
    for epoch in 257..264u64 {
        let groups = get_stake_accounts(&accounts, &history, &clock_data(epoch)).unwrap();
        assert_eq!(groups.keys(), &vec![key(7), key(8)]);
        let of_7 = groups.get(&key(7)).unwrap();
        assert_eq!(of_7.len(), 2);
        assert_eq!(of_7[1].stake_account, key(4));
        assert_eq!(of_7[1].stake, 2_000_000);
        let expected = delegation(7, 1_000_000, 258, u64::MAX).stake_activating_and_deactivating(
            epoch,
            Some(&solana_history),
            true,
        );
        assert_eq!((of_7[0].effective, of_7[0].activating, of_7[0].deactivating), expected);
        shares.push((of_7[0].effective, of_7[0].activating));
    }
    assert_eq!(shares[0], (0, 0));
    assert_eq!(shares[1], (0, 1_000_000));
    assert_eq!(shares[2], (62_500, 937_500));
    assert_eq!(shares[6], (1_000_000, 0));
}

#[test]
fn stake_accounts_errors() {
    let accounts = vec![program_account(1, stake_data(7, 1_000_000, 0))];
    let history = history_data(&vec![(258, 1, 1, 1)]);
    let error = |accounts: &Vec<ProgramAccount>, history: &Vec<u8>, clock: &Vec<u8>| {
        get_stake_accounts(accounts, history, clock).err()
    };
    assert_eq!(
        error(&accounts, &vec![1; 7], &vec![]),
        Some(StakeAccountsError::StakeHistory)
    );
    assert_eq!(error(&accounts, &history, &vec![0; 39]), Some(StakeAccountsError::Clock));

    // Where one unit of stake is activating, a million claims a million times the effective.
    let steep = history_data(&vec![(259, u64::MAX, 1, 0), (258, 1, 1_000_000_000, 0)]);
    assert_eq!(error(&accounts, &steep, &clock_data(259)), None);
    assert_eq!(
        error(&accounts, &steep, &clock_data(260)),
        Some(StakeAccountsError::ActivationOverflow)
    );
    assert_eq!(error(&vec![], &steep, &clock_data(260)), None);
    assert_eq!(
        StakeAccountsError::ActivationOverflow.message(),
        "Activation of a stake overflows"
    );
}

fn activation_at(
    delegation: SolanaDelegation,
    entries: &Vec<(u64, u64, u64, u64)>,
    epoch: u64,
) -> (u64, u64, u64) {
    let history = history_data(entries);
    let accounts = vec![program_account(1, data_of(delegation, 0))];
    let groups = get_stake_accounts(&accounts, &history, &clock_data(epoch)).unwrap();
    let info = groups.get(&key(7)).unwrap()[0];
    let activation = (info.effective, info.activating, info.deactivating);
    let solana_history: StakeHistory = read_stake_history(&history).unwrap();
    assert_eq!(
        activation,
        delegation.stake_activating_and_deactivating(epoch, Some(&solana_history), true)
    );
    activation
}

#[test]
fn entries_that_no_stake_needs_are_no_obstacle() {
    // The whole stake becomes effective in its first epoch.
    let sol = 1_000_000_000;
    let entries = vec![
        (101, 300_000_000 * sol, 50_000 * sol, 0),
        (100, 300_000_000 * sol, 10_000_000 * sol, 0),
    ];
    let stake = 1_000_000 * sol;
    assert_eq!(activation_at(delegation(7, stake, 100, u64::MAX), &entries, 102), (stake, 0, 0));
    let steep = vec![(101, u64::MAX, 1, 0), (100, 300_000_000 * sol, 10_000_000 * sol, 0)];
    assert_eq!(activation_at(delegation(7, stake, 100, u64::MAX), &steep, 102), (stake, 0, 0));

    // The history has dropped the epoch of the activation.
    let stake = 5_000_000 * sol;
    let entries = vec![(600, u64::MAX, 1, 0)];
    assert_eq!(activation_at(delegation(7, stake, 20, u64::MAX), &entries, 601), (stake, 0, 0));

    // The history has a gap after the epoch of the activation.
    let entries = vec![(103, u64::MAX, 1, 0), (102, u64::MAX, 1, 0), (100, 1000, 1_000_000, 0)];
    assert_eq!(activation_at(delegation(7, 4000, 100, u64::MAX), &entries, 104), (1, 3999, 0));
    let entries = vec![(102, u64::MAX, 1, 0), (101, 5, 0, 0), (100, 1000, 1_000_000, 0)];
    assert_eq!(activation_at(delegation(7, 4000, 100, u64::MAX), &entries, 104), (1, 3999, 0));

    // Deactivation ends the warm-up, or there is none.
    let entries = vec![(101, u64::MAX, 1, 0), (100, 1000, 1_000_000, 0)];
    assert_eq!(activation_at(delegation(7, 4000, 100, 101), &entries, 101), (1, 0, 1));
    let mut odd = delegation(7, u64::MAX, u64::MAX, u64::MAX);
    odd.warmup_cooldown_rate = 1e300;
    assert_eq!(activation_at(odd, &entries, 102), (u64::MAX, 0, 0));
    odd.activation_epoch = 100;
    odd.deactivation_epoch = 100;
    assert_eq!(activation_at(odd, &entries, 102), (0, 0, 0));
    odd.deactivation_epoch = u64::MAX;
    assert_eq!(activation_at(odd, &entries, 100), (0, u64::MAX, 0));
    assert_eq!(activation_at(odd, &entries, 101), (u64::MAX, 0, 0));
}

#[test]
fn sums_just_within_64_bits() {
    let mut whole = delegation(7, u64::MAX, 0, u64::MAX);
    whole.warmup_cooldown_rate = 1.0;
    let entries = vec![(1, (1 << 52) - 1, 1 << 52, 0), (0, 0, 1, 0)];
    assert_eq!(activation_at(whole, &entries, 2), (u64::MAX - 4094, 4094, 0));
}

#[test]
fn history_in_another_order() {
    // The entry that the lookup finds for an epoch decides.
    let entries = vec![(101, 5, 0, 0), (101, u64::MAX, 1, 0), (100, 1000, 1_000_000, 0)];
    let history = history_data(&entries);
    let solana_history: StakeHistory = read_stake_history(&history).unwrap();
    let found = solana_history.get(&101).unwrap();
    let accounts = vec![program_account(1, data_of(delegation(7, 4000, 100, u64::MAX), 0))];
    let groups = get_stake_accounts(&accounts, &history, &clock_data(102));
    assert_eq!(groups.is_ok(), found.activating == 0);
}

#[test]
fn long_warm_up_meets_entries_out_of_proportion() {
    // A little of the stake is left when one unit is activating in the cluster.
    let entries = vec![
        (103, 1_000_000_000_000_000_000, 1, 0),
        (102, 4_000, 1_000, 0),
        (101, 2_000, 1_000, 0),
        (100, 1_000, 1_000, 0),
    ];
    assert_eq!(activation_at(delegation(7, 1_000, 100, u64::MAX), &entries, 101), (250, 750, 0));
    assert_eq!(activation_at(delegation(7, 1_000, 100, u64::MAX), &entries, 102), (625, 375, 0));
    assert_eq!(activation_at(delegation(7, 1_000, 100, u64::MAX), &entries, 103), (1_000, 0, 0));
    assert_eq!(activation_at(delegation(7, 1_000, 100, u64::MAX), &entries, 104), (1_000, 0, 0));
}

#[test]
fn steps_are_bounded_where_they_do_not_overflow() {
    let numbers: Vec<u64> = vec![
        0,
        1,
        3,
        999_999_999,
        50_000_000_000_000,
        1_000_000_000_000_000,
        300_000_000_000_000_000,
        1 << 62,
        (1 << 52) - 1,
        1 << 52,
        (1 << 53) + 1,
        (1 << 60) + 129,
        (1 << 63) + 12_345,
        u64::MAX - 4_095,
        u64::MAX - 20_000,
        u64::MAX,
    ];
    let rates = vec![
        0.0,
        f64::MIN_POSITIVE,
        1e-310,
        1e-9,
        0.09,
        0.25,
        0.3,
        1.0 - f64::EPSILON / 2.0,
        1.0,
        1.5,
        1e10,
        1e300,
        f64::INFINITY,
        -0.25,
        f64::NEG_INFINITY,
        f64::NAN,
    ];
    let mut counts = [0, 0];
    for so_far in &numbers {
        for remaining in &numbers {
            for effective in &numbers {
                for activating in &numbers {
                    for rate in &rates {
                        if *so_far == u64::MAX || *remaining == 0 || *activating == 0 {
                            continue;
                        }
                        let weight = *remaining as f64 / *activating as f64;
                        let newly = ((weight * (*effective as f64 * *rate)) as u64).max(1);
                        let entry = (9, *effective, *activating, 0);
                        let bounded = step_bounded(*so_far, *remaining, entry, rate.to_bits());
                        assert_eq!(bounded, so_far.checked_add(newly).is_some());
                        counts[if bounded { 1 } else { 0 }] += 1;
                    }
                }
            }
        }
    }
    assert!(counts[0] > 1000 && counts[1] > 1000);
}

#[test]
fn steps_are_bounded_up_to_the_last_unit() {
    let mut seed: u64 = 1;
    let mut next = || {
        seed = seed.wrapping_mul(6_364_136_223_846_793_005).wrapping_add(1_442_695_040_888_963_407);
        seed ^ (seed >> 29)
    };
    let mut count = 0;
    while count < 20_000 {
        let remaining = (next() >> (next() % 60)).max(1);
        let effective = next() >> (next() % 60);
        let activating = (next() >> (next() % 60)).max(1);
        let rate = f64::from_bits(((1000 + next() % 30) << 52) | (next() >> 12));
        let weight = remaining as f64 / activating as f64;
        let newly = (weight * (effective as f64 * rate)) as u64;
        if newly < 2 || newly == u64::MAX {
            continue;
        }
        let entry = (9, effective, activating, 0);
        assert!(step_bounded(u64::MAX - newly, remaining, entry, rate.to_bits()));
        assert!(!step_bounded(u64::MAX - newly + 1, remaining, entry, rate.to_bits()));
        count += 1;
    }
}

#[test]
fn all_stake_is_summed() {
    let (all, balance) = get_all_stake(&vec![(key(2), 5), (key(1), 7), (key(2), 1)]).unwrap();
    assert_eq!(all.keys(), &vec![key(1), key(2)]);
    assert_eq!(balance, 13);
    assert!(get_all_stake(&vec![(key(2), u64::MAX), (key(1), 1)]).is_none());
}

fn vote_account(node: &str, vote: &str, stake: u64, last_vote: u64) -> RpcVoteAccountInfo {
    RpcVoteAccountInfo {
        node_pubkey: node.to_string(),
        vote_pubkey: vote.to_string(),
        activated_stake: stake,
        commission: 8,
        last_vote,
        epoch_credits: vec![(1, 10, 4), (2, 30, 10), (2, 90, 10), (3, 5, 30)],
    }
}

#[test]
fn credits_of_an_epoch() {
    let entries = vec![(1, 10, 4), (2, 30, 10), (2, 90, 10), (3, 5, 30)];
    assert_eq!(epoch_credits(&entries, 1), 6);
    assert_eq!(epoch_credits(&entries, 2), 20);
    assert_eq!(epoch_credits(&entries, 3), 0);
    assert_eq!(epoch_credits(&entries, 4), 0);
}

#[test]
fn most_recent_vote_account_is_selected() {
    let accounts = vec![
        vote_account("b", "1", 1, 5),
        vote_account("a", "2", 1, 5),
        vote_account("b", "3", 1, 9),
        vote_account("b", "4", 1, 9),
        vote_account("a", "5", 1, 4),
    ];
    assert_eq!(latest_vote_accounts(&accounts), vec![2, 1]);
    assert!(latest_vote_accounts(&vec![]).is_empty());
}

#[test]
fn vote_accounts_are_summarized() {
    let current = vec![
        vote_account(&text(1), &text(11), 100, 5),
        vote_account(&text(2), &text(12), 200, 5),
    ];
    let delinquent = vec![
        vote_account(&text(1), &text(13), 300, 6),
        vote_account(&text(2), &text(14), 400, 5),
    ];
    let summary = match get_vote_account_info(current, delinquent, 2) {
        Ok(summary) => summary,
        Err(error) => panic!("{:?}", error),
    };
    assert_eq!(summary.total_active_stake, 1000);
    assert_eq!(summary.active_stakes, vec![100, 200, 300, 400]);
    assert_eq!(
        summary.accounts,
        vec![
            VoteAccountInfo {
                identity: key(1),
                vote_address: key(13),
                commission: 8,
                active_stake: 300,
                epoch_credits: 20,
            },
            VoteAccountInfo {
                identity: key(2),
                vote_address: key(12),
                commission: 8,
                active_stake: 200,
                epoch_credits: 20,
            },
        ]
    );
}

#[test]
fn vote_account_errors() {
    assert_eq!(
        get_vote_account_info(
            vec![vote_account(&text(1), &text(2), u64::MAX, 5)],
            vec![vote_account(&text(1), &text(2), 1, 5)],
            2,
        )
        .err(),
        Some(VoteAccountError::StakeOverflow)
    );
    assert_eq!(
        get_vote_account_info(vec![vote_account("0OIl", &text(2), 1, 5)], vec![], 2).err(),
        Some(VoteAccountError::InvalidPubkey)
    );
    assert_eq!(
        get_vote_account_info(vec![vote_account(&text(1), "abc", 1, 5)], vec![], 2).err(),
        Some(VoteAccountError::InvalidPubkey)
    );
    // The account with the unreadable address is not the one that is selected.
    assert!(get_vote_account_info(
        vec![
            vote_account(&text(1), "abc", 1, 5),
            vote_account(&text(1), &text(2), 1, 6),
        ],
        vec![],
        2,
    )
    .is_ok());
}
