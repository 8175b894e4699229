//! Calls into other crates.
use vstd::prelude::*;

use std::str::FromStr;

use solana_sdk::account::{from_account, Account};
use solana_sdk::account_utils::StateMut;
use solana_sdk::clock::Clock;
use solana_sdk::commitment_config::CommitmentConfig;
use solana_sdk::fee_calculator::FeeCalculator;
use solana_sdk::instruction::CompiledInstruction as Instruction;
use solana_sdk::message::{Message as WholeMessage, MessageHeader};
use solana_sdk::stake::state::StakeState;
use solana_sdk::stake_history::{StakeHistory, StakeHistoryEntry};
use solana_transaction_status::{TransactionConfirmationStatus as Reported, TransactionStatus as Status};

use crate::db::Float64;
use crate::epoch_files::{epoch_digits, epoch_middle, is_plain, EPOCH_FILE_PATTERN};
use crate::fees::{message_fee, signature_count, Message};
use crate::inflation::EpochSchedule;
use crate::keys::{Key, Pubkey};
use crate::send::{CommitmentLevel, TransactionConfirmationStatus, TransactionStatus};
use crate::stake_accounts::{
    clock_epoch, delegation_in, entries_in, is_clock, is_delegated, is_stake_history, warmup_in,
    Delegation, StakeActivation,
};
use crate::warmup::{is_newest_first, listed_entry};

verus! {

/// Calls `solana_transaction_status::TransactionStatus::satisfies_commitment`, which
/// reads the confirmations and the confirmation status alone.
///
/// The contract claims: at the finalized level a status satisfies exactly if it counts
/// no confirmations; at the confirmed level if its confirmation status is not
/// `Processed`, or, where a node reported none, if it has more than one confirmation or
/// counts none; at the processed level always.
#[verifier::external_body]
pub(crate) fn satisfies_commitment(status: &TransactionStatus, level: CommitmentLevel) -> (r: bool)
    ensures
        r == status.satisfies(level),
{
    let confirmation_status = match status.confirmation_status {
        None => None,
        Some(TransactionConfirmationStatus::Processed) => Some(Reported::Processed),
        Some(TransactionConfirmationStatus::Confirmed) => Some(Reported::Confirmed),
        Some(TransactionConfirmationStatus::Finalized) => Some(Reported::Finalized),
    };
    let commitment = match level {
        CommitmentLevel::Processed => CommitmentConfig::processed(),
        CommitmentLevel::Confirmed => CommitmentConfig::confirmed(),
        CommitmentLevel::Finalized => CommitmentConfig::finalized(),
    };
    let confirmations = status.confirmations;
    let status = Status { slot: 0, confirmations, status: Ok(()), err: None, confirmation_status };
    status.satisfies_commitment(commitment)
}

/// Calls `solana_sdk::fee_calculator::FeeCalculator::calculate_fee`, which reads the number
/// of required signatures, the keys, and the program and the data of each instruction.
///
/// The contract claims: the result is the price of a signature times the number of
/// signatures, to which an instruction of the secp256k1 program adds the first byte of its
/// data. The sum and the product are plain arithmetic on 64 bits: both have to fit.
#[verifier::external_body]
pub(crate) fn fee_of_message(lamports_per_signature: u64, message: &Message) -> (fee: u64)
    requires
        signature_count(*message) <= u64::MAX,
        message_fee(lamports_per_signature, *message) <= u64::MAX,
    ensures
        fee == message_fee(lamports_per_signature, *message),
{
    let num_required_signatures = message.num_required_signatures;
    let keys = message.account_keys.iter().map(|key| solana_sdk::pubkey::Pubkey::new(&key.bytes));
    let instructions = message.instructions.iter().map(|instruction| Instruction {
        program_id_index: instruction.program_id_index,
        accounts: vec![],
        data: instruction.data.clone(),
    });
    let message = WholeMessage {
        header: MessageHeader { num_required_signatures, ..MessageHeader::default() },
        account_keys: keys.collect(),
        instructions: instructions.collect(),
        ..WholeMessage::default()
    };
    FeeCalculator::new(lamports_per_signature).calculate_fee(&message)
}

/// What the first group of a pattern captures in a text, where the pattern matches it.
pub uninterp spec fn regex_capture(pattern: Seq<char>, text: Seq<char>) -> Option<Seq<char>>;

/// Calls `regex::Regex::captures` and takes the first group.
///
/// The contract claims that pattern and text alone determine the result. A text without
/// the form of a file name gives none. Where it has the form, the group is what stands
/// between `epoch-` and the last four characters, or there is none: it is there if this is
/// made of ASCII digits, and not if it holds another ASCII character. The digits of other
/// scripts, which `\d` also matches, are not told from their other characters.
#[verifier::external_body]
pub(crate) fn capture_digits(pattern: &str, text: &str) -> (r: Option<String>)
    requires
        pattern@ == EPOCH_FILE_PATTERN@,
    ensures
        text_of(r) == regex_capture(pattern@, text@),
        text_of(r) is None || text_of(r) == epoch_middle(text@),
        is_plain(text@) ==> text_of(r) == epoch_digits(text@),
{
    let regex = regex::Regex::new(pattern).unwrap();
    let captures = regex.captures(text)?;
    Some(captures.get(1).unwrap().as_str().to_string())
}

/// The characters of an optional text.
pub open spec fn text_of(text: Option<String>) -> Option<Seq<char>> {
    match text {
        Some(text) => Some(text@),
        None => None,
    }
}

/// The bytes of the account address that a text gives in base 58, where it gives one.
pub uninterp spec fn pubkey_of_text(text: Seq<char>) -> Option<Seq<u8>>;

/// Calls `solana_sdk::pubkey::Pubkey::from_str`.
///
/// The contract claims that the text alone determines the result.
#[verifier::external_body]
pub(crate) fn parse_pubkey(text: &str) -> (r: Option<Pubkey>)
    ensures
        match r {
            Some(key) => pubkey_of_text(text@) == Some(key@),
            None => pubkey_of_text(text@) is None,
        },
{
    match solana_sdk::pubkey::Pubkey::from_str(text) {
        Ok(key) => Some(Key { bytes: key.to_bytes() }),
        Err(_) => None,
    }
}

/// Calls `state` of `solana_sdk::account_utils::StateMut<StakeState>` on an account with
/// the given data, and takes the delegation of the variant `Stake`.
///
/// The contract claims that this variant comes exactly of data with its number and
/// length, which longer data may exceed, and that the fields of the delegation stand in
/// the data one after the other, numbers in little-endian order.
#[verifier::external_body]
pub(crate) fn decode_delegation(data: &[u8]) -> (r: Option<Delegation>)
    ensures
        match r {
            Some(delegation) => is_delegated(data@) && delegation_in(data@, delegation),
            None => !is_delegated(data@),
        },
{
    let account = Account { data: data.to_vec(), ..Account::default() };
    match account.state() {
        Ok(StakeState::Stake(_, stake)) => Some(Delegation {
            voter_pubkey: Key { bytes: stake.delegation.voter_pubkey.to_bytes() },
            stake: stake.delegation.stake,
            activation_epoch: stake.delegation.activation_epoch,
            deactivation_epoch: stake.delegation.deactivation_epoch,
            warmup_cooldown_rate: Float64 { bits: stake.delegation.warmup_cooldown_rate.to_bits() },
        }),
        _ => None,
    }
}

/// The history of the stake of the cluster, of `solana_sdk`.
#[verifier::external_type_specification]
#[verifier::external_body]
pub struct ExStakeHistory(StakeHistory);

/// An entry of such a history, of `solana_sdk`.
#[verifier::external_type_specification]
#[verifier::external_body]
pub struct ExStakeHistoryEntry(StakeHistoryEntry);

/// The entries of a stake history: the epoch, and the effective, the activating and the
/// deactivating stake of the cluster in it.
pub uninterp spec fn history_entries(history: StakeHistory) -> Seq<(u64, u64, u64, u64)>;

/// Calls `solana_sdk::account::from_account` for a `StakeHistory`.
///
/// The contract claims that a history comes exactly of data which is long enough for the
/// number of entries that it starts with, which longer data may exceed, and that it holds
/// the entries of the data in their order.
#[verifier::external_body]
pub(crate) fn decode_stake_history(data: &[u8]) -> (r: Option<StakeHistory>)
    ensures
        match r {
            Some(history) => {
                &&& is_stake_history(data@)
                &&& history_entries(history) == entries_in(data@)
            },
            None => !is_stake_history(data@),
        },
{
    from_account(&Account { data: data.to_vec(), ..Account::default() })
}

/// What a lookup finds for an epoch in a stake history with the given entries.
pub uninterp spec fn history_entry(
    history: Seq<(u64, u64, u64, u64)>,
    epoch: u64,
) -> Option<(u64, u64, u64, u64)>;

/// Calls `solana_sdk::stake_history::StakeHistory::get`, a binary search.
///
/// The contract claims that the entries and the epoch alone determine the result, and that
/// it is the entry for the epoch where the entries go from the newest epoch down. Of
/// entries in another order the search promises no more.
#[verifier::external_body]
pub(crate) fn look_up(history: &StakeHistory, epoch: u64) -> (r: Option<(u64, u64, u64, u64)>)
    ensures
        r == history_entry(history_entries(*history), epoch),
        is_newest_first(history_entries(*history)) ==> r == listed_entry(
            history_entries(*history),
            epoch,
        ),
{
    history.get(&epoch).map(|e| (epoch, e.effective, e.activating, e.deactivating))
}

/// How much of a delegated stake is effective, activating and deactivating in an epoch: by
/// the stake, its activation and its deactivation epoch, the bits of its rate, the epoch,
/// and the entries of the stake history.
pub uninterp spec fn stake_activation(
    stake: u64,
    activation_epoch: u64,
    deactivation_epoch: u64,
    rate_bits: u64,
    epoch: u64,
    history: Seq<(u64, u64, u64, u64)>,
) -> (u64, u64, u64);

/// Calls `solana_sdk::stake::state::Delegation::stake_activating_and_deactivating` on the
/// delegation that `state` reads from the data of an account. A stake that is deactivated
/// in the epoch of its activation counts as none.
///
/// The contract claims that the numbers of the delegation, the epoch and the entries of
/// the history alone determine the result. The call adds up what becomes effective from
/// epoch to epoch, from that of the activation on, in plain arithmetic on 64 bits. The
/// first sum starts at zero; the bound keeps the later ones from overflowing.
#[verifier::external_body]
pub(crate) fn activation_in(data: &[u8], epoch: u64, history: &StakeHistory) -> (r: Option<
    StakeActivation,
>)
    requires
        warmup_in(data@).is_bounded(epoch, history_entries(*history)),
    ensures
        match r {
            Some(activation) => {
                let warmup = warmup_in(data@);
                &&& is_delegated(data@)
                &&& (activation.effective, activation.activating, activation.deactivating)
                    == stake_activation(
                    warmup.stake,
                    warmup.activation_epoch,
                    warmup.deactivation_epoch,
                    warmup.rate_bits,
                    epoch,
                    history_entries(*history),
                )
            },
            None => !is_delegated(data@),
        },
{
    let account = Account { data: data.to_vec(), ..Account::default() };
    match account.state() {
        Ok(StakeState::Stake(_, stake)) => {
            let (effective, activating, deactivating) =
                stake.delegation.stake_activating_and_deactivating(epoch, Some(history), true);
            Some(StakeActivation { effective, activating, deactivating })
        },
        _ => None,
    }
}

/// Calls `solana_sdk::account::from_account` for a `Clock` and takes its epoch.
///
/// The contract claims that a clock comes exactly of data of its length or more, and
/// that the epoch stands behind two other numbers, in little-endian order.
#[verifier::external_body]
pub(crate) fn decode_clock_epoch(data: &[u8]) -> (r: Option<u64>)
    ensures
        match r {
            Some(epoch) => is_clock(data@) && epoch == clock_epoch(data@),
            None => !is_clock(data@),
        },
{
    let clock: Clock = from_account(&Account { data: data.to_vec(), ..Account::default() })?;
    Some(clock.epoch)
}

/// Calls `solana_sdk::epoch_schedule::EpochSchedule::get_first_slot_in_epoch`, which reads
/// the length of epochs and the first epoch of full length with its first slot.
///
/// The contract claims: up to the first epoch of full length the result is 32 times one
/// less than two to the power of the epoch, of which the lowest 32 bits count; later it
/// grows by the length of an epoch. Numbers beyond 64 bits are cut off at the largest.
#[verifier::external_body]
pub(crate) fn first_slot_in_epoch(schedule: &EpochSchedule, epoch: u64) -> (slot: u64)
    ensures
        slot == schedule.first_slot(epoch),
{
    let schedule = solana_sdk::epoch_schedule::EpochSchedule {
        slots_per_epoch: schedule.slots_per_epoch,
        first_normal_epoch: schedule.first_normal_epoch,
        first_normal_slot: schedule.first_normal_slot,
        ..solana_sdk::epoch_schedule::EpochSchedule::default()
    };
    schedule.get_first_slot_in_epoch(epoch)
}

} // verus!
