//! Stake accounts: what they hold, and to which vote account they delegate.
use vstd::arithmetic::power::{lemma_pow0, pow};
use vstd::array::spec_array_update;
use vstd::prelude::*;

use solana_sdk::stake_history::StakeHistory;

use crate::db::Float64;
use crate::keys::{list_of, lists, Key, KeyMap, KeySet, Pubkey};
use crate::outside::{
    activation_in, decode_clock_epoch, decode_delegation, decode_stake_history, history_entries,
    look_up, stake_activation,
};
use crate::totals::{checked_total, total};
use crate::warmup::{entry_for, has_activating, step_bounded, Warmup};

verus! {

/// The number that bytes give in little-endian order.
pub open spec fn little_endian(bytes: Seq<u8>) -> nat
    decreases bytes.len(),
{
    if bytes.len() == 0 {
        0
    } else {
        bytes.first() as nat + 256 * little_endian(bytes.drop_first())
    }
}

/// The number of eight bytes that begins at a position.
pub open spec fn number_at(data: Seq<u8>, position: int) -> u64 {
    little_endian(data.subrange(position, position + 8)) as u64
}

/// An account with its data.
#[derive(Clone, Debug, PartialEq, Eq)]
pub struct ProgramAccount {
    pub address: Pubkey,
    pub data: Vec<u8>,
}

/// What a stake account delegates.
#[derive(Clone, Copy, Debug, PartialEq, Eq)]
pub struct Delegation {
    pub voter_pubkey: Pubkey,
    pub stake: u64,
    pub activation_epoch: u64,
    pub deactivation_epoch: u64,
    pub warmup_cooldown_rate: Float64,
}

/// The data of an account is a delegated stake. It starts with the number of the
/// variant, four bytes; then come the metadata, 120 bytes, the delegation, 64 bytes, and
/// the credits observed, eight bytes.
pub open spec fn is_delegated(data: Seq<u8>) -> bool {
    &&& data.len() >= 196
    &&& little_endian(data.subrange(0, 4)) == 2
}

/// The delegated stake that the data of an account holds.
pub open spec fn stake_in(data: Seq<u8>) -> u64 {
    number_at(data, 156)
}

/// The epoch in which it was delegated.
pub open spec fn activation_epoch_in(data: Seq<u8>) -> u64 {
    number_at(data, 164)
}

/// The epoch in which it was withdrawn; the largest number of 64 bits where it was not.
pub open spec fn deactivation_epoch_in(data: Seq<u8>) -> u64 {
    number_at(data, 172)
}

/// The share of the cluster's stake that warms up or cools down in an epoch, as bits.
pub open spec fn rate_bits_in(data: Seq<u8>) -> u64 {
    number_at(data, 180)
}

/// A delegation is the one that the data of an account holds.
pub open spec fn delegation_in(data: Seq<u8>, delegation: Delegation) -> bool {
    &&& delegation.voter_pubkey@ == data.subrange(124, 156)
    &&& delegation.stake == stake_in(data)
    &&& delegation.activation_epoch == activation_epoch_in(data)
    &&& delegation.deactivation_epoch == deactivation_epoch_in(data)
    &&& delegation.warmup_cooldown_rate.bits == rate_bits_in(data)
}

/// The numbers that the activation of the delegated stake depends on.
pub open spec fn warmup_in(data: Seq<u8>) -> Warmup {
    Warmup {
        stake: stake_in(data),
        activation_epoch: activation_epoch_in(data),
        deactivation_epoch: deactivation_epoch_in(data),
        rate_bits: rate_bits_in(data),
    }
}

/// The delegation that the data of an account holds.
pub open spec fn delegation_of(data: Seq<u8>) -> Delegation {
    choose|delegation: Delegation| delegation_in(data, delegation)
}

/// Any 32 bytes make a key.
proof fn lemma_key_of(bytes: Seq<u8>, n: int) -> (key: Pubkey)
    requires
        0 <= n <= 32,
        bytes.len() == 32,
    ensures
        forall|i: int| 0 <= i < n ==> key@[i] == bytes[i],
    decreases n,
{
    if n == 0 {
        arbitrary()
    } else {
        let key = lemma_key_of(bytes, n - 1);
        Key { bytes: spec_array_update(key.bytes, n - 1, bytes[n - 1]) }
    }
}

/// Data that is long enough holds the delegation which its bytes give.
pub proof fn lemma_delegation_in(data: Seq<u8>)
    ensures
        data.len() >= 196 ==> delegation_in(data, delegation_of(data)),
{
    if data.len() >= 196 {
        let voter_pubkey = lemma_key_of(data.subrange(124, 156), 32);
        let delegation = Delegation {
            voter_pubkey,
            stake: stake_in(data),
            activation_epoch: activation_epoch_in(data),
            deactivation_epoch: deactivation_epoch_in(data),
            warmup_cooldown_rate: Float64 { bits: rate_bits_in(data) },
        };
        assert(voter_pubkey@ =~= data.subrange(124, 156));
        assert(delegation_in(data, delegation));
    }
}

/// The data of an account holds one delegation.
pub proof fn lemma_delegation_of(data: Seq<u8>, delegation: Delegation)
    requires
        delegation_in(data, delegation),
    ensures
        delegation == delegation_of(data),
{
    let other = delegation_of(data);
    let a = delegation.voter_pubkey;
    let b = other.voter_pubkey;
    assert(delegation_in(data, other));
    assert forall|i: int| 0 <= i < 32 implies a.bytes[i] == b.bytes[i] by {
        assert(a@[i] == b@[i]);
    }
    assert(a.bytes =~= b.bytes);
}

/// The data of an account is a stake history: the number of its entries, eight bytes,
/// and the entries, 32 bytes each.
pub open spec fn is_stake_history(data: Seq<u8>) -> bool {
    &&& data.len() >= 8
    &&& data.len() >= 8 + 32 * little_endian(data.subrange(0, 8))
}

/// The entries of the stake history that the data of an account holds: the epoch, and the
/// effective, the activating and the deactivating stake of the cluster in it.
pub open spec fn entries_in(data: Seq<u8>) -> Seq<(u64, u64, u64, u64)> {
    Seq::new(
        little_endian(data.subrange(0, 8)),
        |k: int|
            (
                number_at(data, 8 + 32 * k),
                number_at(data, 16 + 32 * k),
                number_at(data, 24 + 32 * k),
                number_at(data, 32 + 32 * k),
            ),
    )
}

/// The data of an account is a clock: five numbers of eight bytes, the third the epoch.
pub open spec fn is_clock(data: Seq<u8>) -> bool {
    data.len() >= 40
}

/// The epoch that a clock shows.
pub open spec fn clock_epoch(data: Seq<u8>) -> u64 {
    number_at(data, 16)
}

/// Why the stake accounts cannot be evaluated.
#[derive(Clone, Copy, Debug, PartialEq, Eq)]
pub enum StakeAccountsError {
    /// The stake history cannot be read.
    StakeHistory,
    /// The clock cannot be read.
    Clock,
    /// What becomes effective of a stake adds up to more than 64 bits hold.
    ActivationOverflow,
}

impl StakeAccountsError {
    /// The error in words.
    pub fn message(&self) -> (text: &'static str)
        ensures
            text@ == match *self {
                StakeAccountsError::StakeHistory => "Failed to deserialize stake history"@,
                StakeAccountsError::Clock => "Failed to deserialize clock sysvar"@,
                StakeAccountsError::ActivationOverflow => "Activation of a stake overflows"@,
            },
    {
        match self {
            StakeAccountsError::StakeHistory => "Failed to deserialize stake history",
            StakeAccountsError::Clock => "Failed to deserialize clock sysvar",
            StakeAccountsError::ActivationOverflow => "Activation of a stake overflows",
        }
    }
}

/// Reads the stake history from the data of its account.
pub fn read_stake_history(data: &Vec<u8>) -> (r: Result<StakeHistory, StakeAccountsError>)
    ensures
        match r {
            Ok(history) => {
                &&& is_stake_history(data@)
                &&& history_entries(history) == entries_in(data@)
            },
            Err(error) => error is StakeHistory && !is_stake_history(data@),
        },
{
    match decode_stake_history(data.as_slice()) {
        Some(history) => Ok(history),
        None => Err(StakeAccountsError::StakeHistory),
    }
}

/// Reads the current epoch from the data of the clock's account.
pub fn read_current_epoch(data: &Vec<u8>) -> (r: Result<u64, StakeAccountsError>)
    ensures
        match r {
            Ok(epoch) => is_clock(data@) && epoch == clock_epoch(data@),
            Err(error) => error is Clock && !is_clock(data@),
        },
{
    match decode_clock_epoch(data.as_slice()) {
        Some(epoch) => Ok(epoch),
        None => Err(StakeAccountsError::Clock),
    }
}

/// An account that delegates a stake.
#[derive(Clone, Copy, Debug, PartialEq, Eq)]
pub struct DelegatedAccount {
    pub address: Pubkey,
    pub delegation: Delegation,
}

/// The accounts that delegate a stake, in their order.
pub open spec fn delegated_of(accounts: Seq<ProgramAccount>) -> Seq<DelegatedAccount>
    decreases accounts.len(),
{
    if accounts.len() == 0 {
        Seq::empty()
    } else {
        let rest = delegated_of(accounts.drop_last());
        let account = accounts.last();
        if is_delegated(account.data@) {
            rest.push(
                DelegatedAccount {
                    address: account.address,
                    delegation: delegation_of(account.data@),
                },
            )
        } else {
            rest
        }
    }
}

/// How much of a delegated stake is effective, warming up and cooling down.
#[derive(Clone, Copy, Debug, PartialEq, Eq)]
pub struct StakeActivation {
    pub effective: u64,
    pub activating: u64,
    pub deactivating: u64,
}

/// The numbers of a delegation that its activation depends on.
pub open spec fn warmup_of(delegation: Delegation) -> Warmup {
    Warmup {
        stake: delegation.stake,
        activation_epoch: delegation.activation_epoch,
        deactivation_epoch: delegation.deactivation_epoch,
        rate_bits: delegation.warmup_cooldown_rate.bits,
    }
}

/// How far a delegated stake is activated in an epoch.
pub open spec fn activation_of(
    delegation: Delegation,
    epoch: u64,
    history: Seq<(u64, u64, u64, u64)>,
) -> StakeActivation {
    let (effective, activating, deactivating) = warmup_of(delegation).activation(epoch, history);
    StakeActivation { effective, activating, deactivating }
}

/// Finds the entry for an epoch, where it tells of activating stake.
fn find_activating(history: &StakeHistory, epoch: u64) -> (r: Option<(u64, u64, u64, u64)>)
    ensures
        match r {
            Some(entry) => {
                &&& entry.2 > 0
                &&& entry_for(history_entries(*history), epoch) == Some(entry)
            },
            None => !has_activating(history_entries(*history), epoch),
        },
{
    match look_up(history, epoch) {
        Some(entry) => if entry.2 > 0 {
            Some(entry)
        } else {
            None
        },
        None => None,
    }
}

/// Finds how far the stake of a delegated account is activated in an epoch: `None` where
/// what becomes effective does not stay within 64 bits.
fn find_activation(
    data: &Vec<u8>,
    delegation: &Delegation,
    epoch: u64,
    history: &StakeHistory,
) -> (r: Option<StakeActivation>)
    requires
        is_delegated(data@),
        delegation_in(data@, *delegation),
    ensures
        match r {
            Some(activation) => {
                &&& warmup_of(*delegation).is_bounded(epoch, history_entries(*history))
                &&& activation == activation_of(*delegation, epoch, history_entries(*history))
            },
            None => !warmup_of(*delegation).is_bounded(epoch, history_entries(*history)),
        },
{
    let ghost entries = history_entries(*history);
    let warmup = Warmup {
        stake: delegation.stake,
        activation_epoch: delegation.activation_epoch,
        deactivation_epoch: delegation.deactivation_epoch,
        rate_bits: delegation.warmup_cooldown_rate.bits,
    };
    let limit: u64 = if epoch < warmup.deactivation_epoch {
        epoch
    } else {
        warmup.deactivation_epoch
    };
    let last: u64 = limit.saturating_sub(1);
    let mut e: u64 = warmup.activation_epoch;
    let mut warms_up = find_activating(history, e).is_some();
    while warms_up && e < last
        invariant
            is_delegated(data@),
            warmup == warmup_in(data@),
            warmup == warmup_of(*delegation),
            entries == history_entries(*history),
            warmup.activation_epoch <= e,
            last < epoch || last == 0,
            last < warmup.deactivation_epoch || last == 0,
            warms_up ==> warmup.warms_up_in(e, entries),
            !warms_up ==> forall|t: u64| e <= t ==> !#[trigger] warmup.warms_up_in(t, entries),
            forall|t: u64|
                warmup.activation_epoch < t <= e && #[trigger] warmup.warms_up_in(t, entries)
                    ==> warmup.epoch_is_bounded(t, entries),
        decreases last - e,
    {
        e += 1;
        match activation_in(data.as_slice(), e, history) {
            Some(activation) => match find_activating(history, e) {
                Some(entry) => {
                    if activation.activating == 0 {
                        assert(warmup.activation(e, entries).1 == 0);
                        warms_up = false;
                    } else {
                        assert(warmup.warms_up_in(e, entries));
                        if !step_bounded(
                            activation.effective,
                            activation.activating,
                            entry,
                            warmup.rate_bits,
                        ) && warmup.stake > 0 && !step_bounded(
                            warmup.stake,
                            warmup.stake,
                            entry,
                            warmup.rate_bits,
                        ) {
                            return None;
                        }
                    }
                },
                None => {
                    assert(!has_activating(entries, e));
                    warms_up = false;
                },
            },
            None => {},
        }
    }
    activation_in(data.as_slice(), epoch, history)
}

/// A stake account with its delegation.
#[derive(Clone, Copy, Debug, PartialEq, Eq)]
pub struct StakeAccountInfo {
    pub stake_account: Pubkey,
    pub voter_pubkey: Pubkey,
    pub stake: u64,
    pub activation_epoch: u64,
    pub deactivation_epoch: u64,
    pub warmup_cooldown_rate: Float64,
    pub effective: u64,
    pub activating: u64,
    pub deactivating: u64,
}

/// What is known of a delegated account whose activation is known.
pub open spec fn stake_account_info(
    account: DelegatedAccount,
    activation: StakeActivation,
) -> StakeAccountInfo {
    StakeAccountInfo {
        stake_account: account.address,
        voter_pubkey: account.delegation.voter_pubkey,
        stake: account.delegation.stake,
        activation_epoch: account.delegation.activation_epoch,
        deactivation_epoch: account.delegation.deactivation_epoch,
        warmup_cooldown_rate: account.delegation.warmup_cooldown_rate,
        effective: activation.effective,
        activating: activation.activating,
        deactivating: activation.deactivating,
    }
}

/// What is known of delegated accounts whose activations are known.
pub open spec fn stake_account_infos(
    accounts: Seq<DelegatedAccount>,
    activations: Seq<StakeActivation>,
) -> Seq<StakeAccountInfo> {
    Seq::new(accounts.len(), |i: int| stake_account_info(accounts[i], activations[i]))
}

/// The stake accounts that delegate to a vote account, in their order.
pub open spec fn delegating_to(infos: Seq<StakeAccountInfo>, voter: Seq<u8>) -> Seq<
    StakeAccountInfo,
> {
    infos.filter(|info: StakeAccountInfo| info.voter_pubkey@ == voter)
}

/// A map holds each stake account under the vote account that it delegates to.
pub open spec fn grouped_by_voter(
    map: Map<Seq<u8>, Vec<StakeAccountInfo>>,
    infos: Seq<StakeAccountInfo>,
) -> bool {
    &&& forall|voter: Seq<u8>| #[trigger]
        list_of(lists(map), voter) == delegating_to(infos, voter)
    &&& forall|voter: Seq<u8>| #[trigger]
        map.contains_key(voter) <==> delegating_to(infos, voter).len() > 0
}

/// Groups the delegated accounts by the vote account that they delegate to. Each has its
/// activation at the same position.
pub fn group_by_voter(
    accounts: &Vec<DelegatedAccount>,
    activations: &Vec<StakeActivation>,
) -> (r: KeyMap<32, Vec<StakeAccountInfo>>)
    requires
        accounts.len() == activations.len(),
    ensures
        r.wf(),
        grouped_by_voter(r@, stake_account_infos(accounts@, activations@)),
        forall|voter: Seq<u8>| #[trigger]
            r@.contains_key(voter) <==> exists|i: int|
                0 <= i < accounts.len() && (#[trigger] accounts[i]).delegation.voter_pubkey@
                    == voter,
{
    let ghost infos = stake_account_infos(accounts@, activations@);
    let mut r: KeyMap<32, Vec<StakeAccountInfo>> = KeyMap::new();
    let mut i: usize = 0;
    proof {
        assert(infos.take(0) =~= Seq::<StakeAccountInfo>::empty());
        assert forall|voter: Seq<u8>| #[trigger]
            delegating_to(Seq::empty(), voter) == Seq::<StakeAccountInfo>::empty() by {
            reveal_with_fuel(Seq::filter, 1);
        }
    }
    while i < accounts.len()
        invariant
            accounts.len() == activations.len(),
            infos == stake_account_infos(accounts@, activations@),
            i <= accounts.len(),
            r.wf(),
            grouped_by_voter(r@, infos.take(i as int)),
        decreases accounts.len() - i,
    {
        let account = accounts[i];
        let activation = activations[i];
        let info = StakeAccountInfo {
            stake_account: account.address,
            voter_pubkey: account.delegation.voter_pubkey,
            stake: account.delegation.stake,
            activation_epoch: account.delegation.activation_epoch,
            deactivation_epoch: account.delegation.deactivation_epoch,
            warmup_cooldown_rate: account.delegation.warmup_cooldown_rate,
            effective: activation.effective,
            activating: activation.activating,
            deactivating: activation.deactivating,
        };
        let ghost before = r@;
        r.append(info.voter_pubkey, info);
        proof {
            lemma_group_one_more(before, infos.take(i as int), info, r@);
            assert(infos.take(i + 1) =~= infos.take(i as int).push(info));
        }
        i += 1;
    }
    assert(infos.take(i as int) =~= infos);
    proof {
        assert forall|voter: Seq<u8>| #[trigger]
            r@.contains_key(voter) <==> exists|i: int|
                0 <= i < accounts.len() && (#[trigger] accounts[i]).delegation.voter_pubkey@
                    == voter by {
            let at = law_accounts_of_a_voter(accounts@, activations@, r@, voter);
            if at.len() > 0 {
                assert(accounts[at[0]].delegation.voter_pubkey@ == voter);
            }
        }
    }
    r
}

/// How far delegated stakes are activated in an epoch.
pub open spec fn activations_of(
    accounts: Seq<DelegatedAccount>,
    epoch: u64,
    history: Seq<(u64, u64, u64, u64)>,
) -> Seq<StakeActivation> {
    accounts.map_values(
        |account: DelegatedAccount| activation_of(account.delegation, epoch, history),
    )
}

/// What becomes effective of every delegated stake stays within 64 bits.
pub open spec fn all_bounded(
    accounts: Seq<DelegatedAccount>,
    epoch: u64,
    history: Seq<(u64, u64, u64, u64)>,
) -> bool {
    forall|i: int|
        0 <= i < accounts.len() ==> warmup_of((#[trigger] accounts[i]).delegation).is_bounded(
            epoch,
            history,
        )
}

/// The stake accounts by the vote account that they delegate to, of all accounts of the
/// stake program, and of the data of the stake history and of the clock.
pub fn get_stake_accounts(
    accounts: &Vec<ProgramAccount>,
    stake_history: &Vec<u8>,
    clock: &Vec<u8>,
) -> (r: Result<KeyMap<32, Vec<StakeAccountInfo>>, StakeAccountsError>)
    ensures
        ({
            let delegated = delegated_of(accounts@);
            let history = entries_in(stake_history@);
            let epoch = clock_epoch(clock@);
            match r {
                Err(StakeAccountsError::StakeHistory) => !is_stake_history(stake_history@),
                Err(StakeAccountsError::Clock) => {
                    &&& is_stake_history(stake_history@)
                    &&& !is_clock(clock@)
                },
                Err(StakeAccountsError::ActivationOverflow) => {
                    &&& is_stake_history(stake_history@)
                    &&& is_clock(clock@)
                    &&& !all_bounded(delegated, epoch, history)
                },
                Ok(map) => {
                    &&& is_stake_history(stake_history@)
                    &&& is_clock(clock@)
                    &&& all_bounded(delegated, epoch, history)
                    &&& map.wf()
                    &&& grouped_by_voter(
                        map@,
                        stake_account_infos(delegated, activations_of(delegated, epoch, history)),
                    )
                },
            }
        }),
{
    let history = match read_stake_history(stake_history) {
        Ok(history) => history,
        Err(error) => {
            return Err(error);
        },
    };
    let epoch: u64 = match read_current_epoch(clock) {
        Ok(epoch) => epoch,
        Err(error) => {
            return Err(error);
        },
    };
    let ghost entries = history_entries(history);
    let mut delegated: Vec<DelegatedAccount> = Vec::new();
    let mut activations: Vec<StakeActivation> = Vec::new();
    let mut i: usize = 0;
    proof {
        assert(accounts@.take(0) =~= Seq::<ProgramAccount>::empty());
        assert(activations@ =~= activations_of(delegated@, epoch, entries));
    }
    while i < accounts.len()
        invariant
            i <= accounts.len(),
            is_stake_history(stake_history@),
            is_clock(clock@),
            epoch == clock_epoch(clock@),
            entries == entries_in(stake_history@),
            entries == history_entries(history),
            delegated@ == delegated_of(accounts@.take(i as int)),
            activations@ == activations_of(delegated@, epoch, entries),
            all_bounded(delegated@, epoch, entries),
        decreases accounts.len() - i,
    {
        let account = &accounts[i];
        proof {
            assert(accounts@.take(i + 1).drop_last() =~= accounts@.take(i as int));
            lemma_delegated_prefix(accounts@, i + 1);
        }
        match decode_delegation(account.data.as_slice()) {
            Some(delegation) => {
                proof {
                    lemma_delegation_of(account.data@, delegation);
                }
                let ghost before = delegated@;
                delegated.push(DelegatedAccount { address: account.address, delegation });
                match find_activation(&account.data, &delegation, epoch, &history) {
                    Some(activation) => {
                        activations.push(activation);
                    },
                    None => {
                        proof {
                            let all = delegated_of(accounts@);
                            assert(all[before.len() as int] == delegated@[before.len() as int]);
                        }
                        return Err(StakeAccountsError::ActivationOverflow);
                    },
                }
                assert(activations@ =~= activations_of(delegated@, epoch, entries));
            },
            None => {},
        }
        i += 1;
    }
    assert(accounts@.take(i as int) =~= accounts@);
    Ok(group_by_voter(&delegated, &activations))
}

/// The delegated accounts among the first accounts are the first of all.
proof fn lemma_delegated_prefix(accounts: Seq<ProgramAccount>, n: int)
    requires
        0 <= n <= accounts.len(),
    ensures
        delegated_of(accounts.take(n)).is_prefix_of(delegated_of(accounts)),
    decreases accounts.len() - n,
{
    if n < accounts.len() {
        lemma_delegated_prefix(accounts, n + 1);
        assert(accounts.take(n + 1).drop_last() =~= accounts.take(n));
    } else {
        assert(accounts.take(n) =~= accounts);
    }
}

/// Appending one more account to the list of its voter keeps the grouping.
proof fn lemma_group_one_more(
    before: Map<Seq<u8>, Vec<StakeAccountInfo>>,
    infos: Seq<StakeAccountInfo>,
    info: StakeAccountInfo,
    after: Map<Seq<u8>, Vec<StakeAccountInfo>>,
)
    requires
        grouped_by_voter(before, infos),
        lists(after) == lists(before).insert(
            info.voter_pubkey@,
            list_of(lists(before), info.voter_pubkey@).push(info),
        ),
    ensures
        grouped_by_voter(after, infos.push(info)),
{
    let own = info.voter_pubkey@;
    assert forall|voter: Seq<u8>|
        {
            &&& #[trigger] list_of(lists(after), voter) == delegating_to(infos.push(info), voter)
            &&& after.contains_key(voter) <==> delegating_to(infos.push(info), voter).len() > 0
        } by {
        reveal_with_fuel(Seq::filter, 1);
        assert(infos.push(info).drop_last() =~= infos);
        assert(list_of(lists(before), voter) == delegating_to(infos, voter));
        assert(lists(after).contains_key(voter) == after.contains_key(voter));
        assert(lists(before).contains_key(voter) == before.contains_key(voter));
        assert(before.contains_key(voter) <==> delegating_to(infos, voter).len() > 0);
    }
    assert forall|voter: Seq<u8>| #[trigger]
        after.contains_key(voter) <==> delegating_to(infos.push(info), voter).len() > 0 by {
        assert(list_of(lists(after), voter) == delegating_to(infos.push(info), voter));
    }
}

/// Every stake account is found, once, under the vote account that it delegates to, and
/// under no other.
pub proof fn law_grouping_keeps_every_account(
    map: Map<Seq<u8>, Vec<StakeAccountInfo>>,
    infos: Seq<StakeAccountInfo>,
    info: StakeAccountInfo,
    voter: Seq<u8>,
)
    requires
        grouped_by_voter(map, infos),
    ensures
        list_of(lists(map), voter).to_multiset().count(info) == if info.voter_pubkey@ == voter {
            infos.to_multiset().count(info)
        } else {
            0
        },
{
    assert(list_of(lists(map), voter) == delegating_to(infos, voter));
    lemma_filter_count(infos, info, voter);
}

proof fn lemma_filter_count(infos: Seq<StakeAccountInfo>, info: StakeAccountInfo, voter: Seq<u8>)
    ensures
        delegating_to(infos, voter).to_multiset().count(info) == if info.voter_pubkey@ == voter {
            infos.to_multiset().count(info)
        } else {
            0
        },
    decreases infos.len(),
{
    broadcast use vstd::seq_lib::group_to_multiset_ensures;

    reveal_with_fuel(Seq::filter, 1);
    if infos.len() > 0 {
        lemma_filter_count(infos.drop_last(), info, voter);
        assert(infos =~= infos.drop_last().push(infos.last()));
    }
}

/// Where the address of the authorized staker begins in the data of a stake account.
pub const AUTHORIZED_STAKER_OFFSET: usize = 12;

/// The addresses of accounts.
pub open spec fn addresses(accounts: Seq<(Pubkey, u64)>) -> Set<Seq<u8>> {
    accounts.map_values(|account: (Pubkey, u64)| account.0@).to_set()
}

/// The balances of accounts.
pub open spec fn balances(accounts: Seq<(Pubkey, u64)>) -> Seq<u64> {
    accounts.map_values(|account: (Pubkey, u64)| account.1)
}

/// The addresses are those of the accounts and no others, and the balances are theirs in
/// their order.
pub proof fn law_all_stake(accounts: Seq<(Pubkey, u64)>)
    ensures
        forall|key: Seq<u8>| #[trigger]
            addresses(accounts).contains(key) <==> exists|i: int|
                0 <= i < accounts.len() && (#[trigger] accounts[i]).0@ == key,
        balances(accounts) == Seq::new(accounts.len(), |i: int| accounts[i].1),
{
    let keys = accounts.map_values(|account: (Pubkey, u64)| account.0@);
    assert forall|key: Seq<u8>| #[trigger]
        addresses(accounts).contains(key) <==> exists|i: int|
            0 <= i < accounts.len() && (#[trigger] accounts[i]).0@ == key by {
        if addresses(accounts).contains(key) {
            let i = choose|i: int| 0 <= i < keys.len() && keys[i] == key;
            assert(accounts[i].0@ == key);
        }
        if exists|i: int| 0 <= i < accounts.len() && (#[trigger] accounts[i]).0@ == key {
            let i = choose|i: int| 0 <= i < accounts.len() && (#[trigger] accounts[i]).0@ == key;
            assert(keys[i] == key);
        }
    }
    assert(balances(accounts) =~= Seq::new(accounts.len(), |i: int| accounts[i].1));
}

/// The addresses of stake accounts and the sum of their balances: `None` where the sum
/// does not fit in 64 bits.
pub fn get_all_stake(accounts: &Vec<(Pubkey, u64)>) -> (r: Option<(KeySet<32>, u64)>)
    ensures
        match r {
            Some((all, balance)) => {
                &&& all.wf()
                &&& all@.dom() == addresses(accounts@)
                &&& balance == total(balances(accounts@))
            },
            None => total(balances(accounts@)) > u64::MAX,
        },
        r matches Some((all, balance)) ==> {
            &&& forall|key: Seq<u8>|
                all@.contains_key(key) <==> exists|i: int|
                    0 <= i < accounts.len() && (#[trigger] accounts[i]).0@ == key
            &&& balance == total(Seq::new(accounts@.len(), |i: int| accounts[i].1))
        },
        r is None <==> total(Seq::new(accounts@.len(), |i: int| accounts[i].1))
            > 0xffff_ffff_ffff_ffff,
{
    let mut all: KeySet<32> = KeyMap::new();
    let mut amounts: Vec<u64> = Vec::new();
    let mut i: usize = 0;
    assert(all@.dom() =~= addresses(accounts@.take(0)));
    while i < accounts.len()
        invariant
            i <= accounts.len(),
            all.wf(),
            all@.dom() == addresses(accounts@.take(i as int)),
            amounts@ == balances(accounts@).take(i as int),
        decreases accounts.len() - i,
    {
        let account = accounts[i];
        all.insert(account.0, ());
        amounts.push(account.1);
        proof {
            let before = accounts@.take(i as int).map_values(|account: (Pubkey, u64)| account.0@);
            let after = accounts@.take(i + 1).map_values(|account: (Pubkey, u64)| account.0@);
            assert(after =~= before.push(account.0@));
            assert(after.to_set() =~= before.to_set().insert(account.0@)) by {
                broadcast use vstd::seq_lib::group_seq_properties;

            }
            assert(amounts@ =~= balances(accounts@).take(i + 1));
        }
        i += 1;
    }
    assert(accounts@.take(i as int) =~= accounts@);
    assert(amounts@ =~= balances(accounts@));
    proof {
        law_all_stake(accounts@);
    }
    match checked_total(&amounts) {
        Some(balance) => Some((all, balance)),
        None => None,
    }
}

/// What is told of a delegated account is what it delegates, under its address, with how far
/// the stake is activated.
pub proof fn law_told_of_an_account(account: DelegatedAccount, activation: StakeActivation)
    ensures
        ({
            let info = stake_account_info(account, activation);
            &&& info.stake_account == account.address
            &&& info.voter_pubkey == account.delegation.voter_pubkey
            &&& info.stake == account.delegation.stake
            &&& info.activation_epoch == account.delegation.activation_epoch
            &&& info.deactivation_epoch == account.delegation.deactivation_epoch
            &&& info.warmup_cooldown_rate == account.delegation.warmup_cooldown_rate
            &&& info.effective == activation.effective
            &&& info.activating == activation.activating
            &&& info.deactivating == activation.deactivating
        }),
{
}

/// The accounts of a voter in a list, with their positions.
proof fn lemma_delegating_positions(infos: Seq<StakeAccountInfo>, voter: Seq<u8>) -> (at: Seq<int>)
    ensures
        forall|a: int, b: int| 0 <= a < b < at.len() ==> #[trigger] at[a] < #[trigger] at[b],
        delegating_to(infos, voter).len() == at.len(),
        forall|k: int|
            0 <= k < at.len() ==> {
                &&& 0 <= #[trigger] at[k] < infos.len()
                &&& delegating_to(infos, voter)[k] == infos[at[k]]
                &&& infos[at[k]].voter_pubkey@ == voter
            },
        forall|i: int|
            0 <= i < infos.len() && (#[trigger] infos[i]).voter_pubkey@ == voter ==> at.contains(i),
    decreases infos.len(),
{
    reveal_with_fuel(Seq::filter, 1);
    if infos.len() == 0 {
        Seq::empty()
    } else {
        let rest = lemma_delegating_positions(infos.drop_last(), voter);
        let n = infos.len() - 1;
        let at = if infos[n].voter_pubkey@ == voter {
            rest.push(n)
        } else {
            rest
        };
        assert forall|i: int|
            0 <= i < infos.len() && (#[trigger] infos[i]).voter_pubkey@ == voter implies at.contains(
            i,
        ) by {
            if i < n {
                assert(infos.drop_last()[i] == infos[i]);
                let k = choose|k: int| 0 <= k < rest.len() && rest[k] == i;
                assert(at[k] == i);
            } else {
                assert(at[rest.len() as int] == i);
            }
        }
        at
    }
}

/// The list of a voter holds the accounts that delegate to it, all of them, in their order,
/// and what is told of each is its own. A voter without such an account is not there.
pub proof fn law_accounts_of_a_voter(
    accounts: Seq<DelegatedAccount>,
    activations: Seq<StakeActivation>,
    map: Map<Seq<u8>, Vec<StakeAccountInfo>>,
    voter: Seq<u8>,
) -> (at: Seq<int>)
    requires
        accounts.len() == activations.len(),
        grouped_by_voter(map, stake_account_infos(accounts, activations)),
    ensures
        forall|a: int, b: int| 0 <= a < b < at.len() ==> #[trigger] at[a] < #[trigger] at[b],
        map.contains_key(voter) <==> at.len() > 0,
        map.contains_key(voter) ==> map[voter]@.len() == at.len(),
        forall|k: int|
            0 <= k < at.len() ==> {
                let info = map[voter]@[k];
                let account = accounts[#[trigger] at[k]];
                let activation = activations[at[k]];
                &&& 0 <= at[k] < accounts.len()
                &&& account.delegation.voter_pubkey@ == voter
                &&& info.stake_account == account.address
                &&& info.voter_pubkey == account.delegation.voter_pubkey
                &&& info.stake == account.delegation.stake
                &&& info.activation_epoch == account.delegation.activation_epoch
                &&& info.deactivation_epoch == account.delegation.deactivation_epoch
                &&& info.warmup_cooldown_rate == account.delegation.warmup_cooldown_rate
                &&& info.effective == activation.effective
                &&& info.activating == activation.activating
                &&& info.deactivating == activation.deactivating
            },
        forall|i: int|
            0 <= i < accounts.len() && (#[trigger] accounts[i]).delegation.voter_pubkey@ == voter
                ==> at.contains(i),
{
    let infos = stake_account_infos(accounts, activations);
    let at = lemma_delegating_positions(infos, voter);
    assert(list_of(lists(map), voter) == delegating_to(infos, voter));
    assert(map.contains_key(voter) <==> delegating_to(infos, voter).len() > 0);
    assert(lists(map).contains_key(voter) == map.contains_key(voter));
    assert forall|i: int|
        0 <= i < accounts.len() && (#[trigger] accounts[i]).delegation.voter_pubkey@
            == voter implies at.contains(i) by {
        assert(infos[i].voter_pubkey@ == voter);
    }
    at
}

/// The delegated accounts are the accounts whose data is a delegated stake, all of them, in
/// their order, each with its address and with what its data holds.
pub proof fn law_delegated_accounts(accounts: Seq<ProgramAccount>) -> (at: Seq<int>)
    ensures
        forall|a: int, b: int| 0 <= a < b < at.len() ==> #[trigger] at[a] < #[trigger] at[b],
        delegated_of(accounts).len() == at.len(),
        forall|k: int|
            0 <= k < at.len() ==> {
                let data = accounts[#[trigger] at[k]].data@;
                let delegated = delegated_of(accounts)[k];
                &&& 0 <= at[k] < accounts.len()
                &&& is_delegated(data)
                &&& delegated.address == accounts[at[k]].address
                &&& delegated.delegation.voter_pubkey@ == data.subrange(124, 156)
                &&& delegated.delegation.stake == number_at(data, 156)
                &&& delegated.delegation.activation_epoch == number_at(data, 164)
                &&& delegated.delegation.deactivation_epoch == number_at(data, 172)
                &&& delegated.delegation.warmup_cooldown_rate.bits == number_at(data, 180)
            },
        forall|i: int|
            0 <= i < accounts.len() && is_delegated((#[trigger] accounts[i]).data@) ==> at.contains(
                i,
            ),
    decreases accounts.len(),
{
    if accounts.len() == 0 {
        Seq::empty()
    } else {
        let rest = law_delegated_accounts(accounts.drop_last());
        let n = accounts.len() - 1;
        let at = if is_delegated(accounts[n].data@) {
            rest.push(n)
        } else {
            rest
        };
        lemma_delegation_in(accounts[n].data@);
        assert forall|i: int|
            0 <= i < accounts.len() && is_delegated(
                (#[trigger] accounts[i]).data@,
            ) implies at.contains(i) by {
            if i < n {
                assert(accounts.drop_last()[i] == accounts[i]);
                let k = choose|k: int| 0 <= k < rest.len() && rest[k] == i;
                assert(at[k] == i);
            } else {
                assert(at[rest.len() as int] == i);
            }
        }
        assert forall|k: int| 0 <= k < at.len() implies accounts.drop_last()[#[trigger] at[k]]
            == accounts[at[k]] || k == rest.len() by {
            if k < rest.len() {
                assert(at[k] == rest[k]);
            }
        }
        at
    }
}

/// Bytes count by their place, the first the least.
pub proof fn law_bytes_count_by_place(low: Seq<u8>, high: Seq<u8>, byte: u8)
    ensures
        little_endian(low + high) == little_endian(low) + pow(256, low.len()) * little_endian(high),
        little_endian(seq![byte]) == byte,
        little_endian(Seq::empty()) == 0,
    decreases low.len(),
{
    assert(seq![byte].drop_first() =~= Seq::empty());
    assert(little_endian(Seq::empty()) == 0);
    if low.len() == 0 {
        assert(low + high =~= high);
        lemma_pow0(256);
    } else {
        let rest = low.drop_first();
        law_bytes_count_by_place(rest, high, byte);
        assert((low + high).drop_first() =~= rest + high);
        reveal(pow);
        let h = little_endian(high) as int;
        let p = pow(256, rest.len());
        assert(pow(256, low.len()) == 256 * p);
        assert(256 * (p * h) == (256 * p) * h) by (nonlinear_arith);
    }
}

/// The activation that is told is the one of the delegation in the epoch, share by share, and
/// the sum of what becomes effective is bounded for each account on its own.
pub proof fn law_activations_are_told(
    accounts: Seq<DelegatedAccount>,
    epoch: u64,
    history: Seq<(u64, u64, u64, u64)>,
    i: int,
)
    requires
        0 <= i < accounts.len(),
    ensures
        ({
            let delegation = accounts[i].delegation;
            let activation = activations_of(accounts, epoch, history)[i];
            &&& activations_of(accounts, epoch, history).len() == accounts.len()
            &&& (activation.effective, activation.activating, activation.deactivating)
                == stake_activation(
                delegation.stake,
                delegation.activation_epoch,
                delegation.deactivation_epoch,
                delegation.warmup_cooldown_rate.bits,
                epoch,
                history,
            )
            &&& all_bounded(accounts, epoch, history) ==> (Warmup {
                stake: delegation.stake,
                activation_epoch: delegation.activation_epoch,
                deactivation_epoch: delegation.deactivation_epoch,
                rate_bits: delegation.warmup_cooldown_rate.bits,
            }).is_bounded(epoch, history)
        }),
{
}

/// Accounts are refused together only where one of them is refused on its own.
pub proof fn law_one_account_is_refused(
    accounts: Seq<DelegatedAccount>,
    epoch: u64,
    history: Seq<(u64, u64, u64, u64)>,
) -> (i: int)
    requires
        !all_bounded(accounts, epoch, history),
    ensures
        0 <= i < accounts.len(),
        !(Warmup {
            stake: accounts[i].delegation.stake,
            activation_epoch: accounts[i].delegation.activation_epoch,
            deactivation_epoch: accounts[i].delegation.deactivation_epoch,
            rate_bits: accounts[i].delegation.warmup_cooldown_rate.bits,
        }).is_bounded(epoch, history),
{
    choose|i: int|
        0 <= i < accounts.len() && !warmup_of((#[trigger] accounts[i]).delegation).is_bounded(
            epoch,
            history,
        )
}

} // verus!
