use solana_sdk::fee_calculator::FeeCalculator;
use solana_sdk::instruction::CompiledInstruction as SolanaInstruction;
use solana_sdk::message::{Message as SolanaMessage, MessageHeader};
use solana_sdk::pubkey::Pubkey as SolanaPubkey;

use stake_bot::fees::{
    calculate_fee, required_fee, CompiledInstruction, Message, SECP256K1_PROGRAM,
};
use stake_bot::keys::{Key, Signature};
use stake_bot::send::{
    send_and_confirm_transactions, CommitmentLevel, SendAction, SendError, SendEvent, SendState,
    TransactionConfirmationStatus, TransactionStatus,
};

fn signature(n: u8) -> Signature {
    Key { bytes: [n; 64] }
}

fn status(confirmations: Option<usize>, failed: bool) -> Option<TransactionStatus> {
    Some(TransactionStatus { confirmations, confirmation_status: None, failed })
}

fn submit(state: &mut SendState, total: u8, dry_run: bool) {
    for n in 0..total {
        let index = n as usize;
        let expected = if dry_run {
            SendAction::Simulate { index }
        } else {
            SendAction::SignAndSend { index }
        };
        assert_eq!(state.action(), expected);
        state.step(SendEvent::Submitted { signature: signature(n) });
    }
}

#[test]
fn transactions_are_sorted_by_their_result() {
    let mut state = send_and_confirm_transactions(10, 10, false, CommitmentLevel::Finalized, 3);
    submit(&mut state, 3, false);
    assert_eq!(state.action(), SendAction::CheckBlockhash);
    state.step(SendEvent::Blockhash { expired: false });
    assert_eq!(state.action(), SendAction::QueryStatuses);
    state.step(SendEvent::Statuses {
        statuses: vec![status(None, false), status(Some(3), false), None],
    });
    assert_eq!(state.action(), SendAction::Wait);
    assert_eq!(state.pending().len(), 2);
    state.step(SendEvent::Waited);
    state.step(SendEvent::Blockhash { expired: false });
    state.step(SendEvent::Statuses { statuses: vec![status(None, true), status(None, false)] });
    state.step(SendEvent::Waited);
    assert_eq!(state.action(), SendAction::Finish);
    let result = state.finish();
    assert_eq!(result.succeeded.keys(), &vec![signature(0), signature(2)]);
    assert_eq!(result.failed.keys(), &vec![signature(1)]);
}

#[test]
fn nothing_to_send_finishes() {
    let state = send_and_confirm_transactions(0, 0, false, CommitmentLevel::Processed, 0);
    assert_eq!(state.action(), SendAction::Finish);
}

#[test]
fn insufficient_funds() {
    let state = send_and_confirm_transactions(9, 10, false, CommitmentLevel::Processed, 1);
    let error = SendError::InsufficientFunds;
    assert_eq!(state.action(), SendAction::Fail { error });
    assert_eq!(error.message(), "Authorized staker has insufficient funds");
}

#[test]
fn expired_blockhash_resends_under_new_signatures() {
    let mut state = send_and_confirm_transactions(1, 0, false, CommitmentLevel::Processed, 2);
    submit(&mut state, 2, false);
    state.step(SendEvent::Blockhash { expired: true });
    assert_eq!(state.action(), SendAction::Resend);
    assert_eq!(state.retries(), 4);
    state.step(SendEvent::Resent { signatures: vec![signature(10), signature(11)] });
    assert_eq!(state.action(), SendAction::QueryStatuses);
    assert_eq!(state.pending()[1].index, 1);
    assert_eq!(state.pending()[1].signature, signature(11));
    state.step(SendEvent::Statuses { statuses: vec![status(Some(0), false), status(None, true)] });
    state.step(SendEvent::Waited);
    let result = state.finish();
    assert_eq!(result.succeeded.keys(), &vec![signature(10)]);
    assert_eq!(result.failed.keys(), &vec![signature(11)]);
}

#[test]
fn fifth_expired_blockhash_gives_up() {
    let mut state = send_and_confirm_transactions(1, 0, false, CommitmentLevel::Processed, 1);
    submit(&mut state, 1, false);
    for _ in 0..4 {
        state.step(SendEvent::Blockhash { expired: true });
        assert_eq!(state.action(), SendAction::Resend);
        state.step(SendEvent::Resent { signatures: vec![signature(9)] });
        state.step(SendEvent::Statuses { statuses: vec![None] });
        state.step(SendEvent::Waited);
    }
    state.step(SendEvent::Blockhash { expired: true });
    let error = SendError::TooManyExpiredBlockhashes;
    assert_eq!(state.action(), SendAction::Fail { error });
    assert_eq!(error.message(), "Too many expired blockhashes");
}

#[test]
fn dry_run_succeeds_in_one_round() {
    let mut state = send_and_confirm_transactions(1, 0, true, CommitmentLevel::Finalized, 2);
    submit(&mut state, 2, true);
    state.step(SendEvent::Blockhash { expired: true });
    assert_eq!(state.action(), SendAction::QueryStatuses);
    state.step(SendEvent::Statuses { statuses: vec![None, status(Some(1), true)] });
    state.step(SendEvent::Waited);
    assert_eq!(state.action(), SendAction::Finish);
    let result = state.finish();
    assert_eq!(result.succeeded.keys().len(), 2);
    assert!(result.failed.keys().is_empty());
}

/// Whether a transaction with this status is open at a commitment level.
fn open(
    level: CommitmentLevel,
    confirmations: Option<usize>,
    confirmation_status: Option<TransactionConfirmationStatus>,
) -> bool {
    let mut state = send_and_confirm_transactions(1, 0, false, level, 1);
    submit(&mut state, 1, false);
    state.step(SendEvent::Blockhash { expired: false });
    state.step(SendEvent::Statuses {
        statuses: vec![Some(TransactionStatus {
            confirmations,
            confirmation_status,
            failed: false,
        })],
    });
    state.pending().len() == 1
}

#[test]
fn commitment_levels() {
    let processed = Some(TransactionConfirmationStatus::Processed);
    let confirmed = Some(TransactionConfirmationStatus::Confirmed);
    let finalized = Some(TransactionConfirmationStatus::Finalized);
    assert!(open(CommitmentLevel::Finalized, Some(31), confirmed));
    assert!(!open(CommitmentLevel::Finalized, None, processed));
    assert!(open(CommitmentLevel::Confirmed, Some(9), processed));
    assert!(open(CommitmentLevel::Confirmed, None, processed));
    assert!(!open(CommitmentLevel::Confirmed, Some(0), confirmed));
    assert!(!open(CommitmentLevel::Confirmed, Some(0), finalized));
    assert!(open(CommitmentLevel::Confirmed, Some(1), None));
    assert!(!open(CommitmentLevel::Confirmed, Some(2), None));
    assert!(!open(CommitmentLevel::Confirmed, None, None));
    assert!(!open(CommitmentLevel::Processed, Some(0), processed));
}

#[test]
fn statuses_are_queried_in_batches() {
    let mut state = send_and_confirm_transactions(1, 0, false, CommitmentLevel::Processed, 5);
    submit(&mut state, 5, false);
    assert_eq!(
        state.status_batches(3),
        vec![
            vec![signature(0), signature(1)],
            vec![signature(2), signature(3)],
            vec![signature(4)],
        ]
    );
    assert_eq!(state.status_batches(256).len(), 1);
}

fn message(num_required_signatures: u8, instructions: Vec<(u8, Vec<u8>)>) -> Message {
    Message {
        num_required_signatures,
        account_keys: vec![Key { bytes: [1; 32] }, Key { bytes: SECP256K1_PROGRAM }],
        instructions: instructions
            .into_iter()
            .map(|(program_id_index, data)| CompiledInstruction { program_id_index, data })
            .collect(),
    }
}

/// The fee that the cluster charges.
fn charged(lamports_per_signature: u64, message: &Message) -> u64 {
    FeeCalculator::new(lamports_per_signature).calculate_fee(&SolanaMessage {
        header: MessageHeader {
            num_required_signatures: message.num_required_signatures,
            ..MessageHeader::default()
        },
        account_keys: message
            .account_keys
            .iter()
            .map(|key| SolanaPubkey::new_from_array(key.bytes))
            .collect(),
        recent_blockhash: solana_sdk::hash::Hash::default(),
        instructions: message
            .instructions
            .iter()
            .map(|instruction| SolanaInstruction {
                program_id_index: instruction.program_id_index,
                accounts: vec![],
                data: instruction.data.clone(),
            })
            .collect(),
    })
}

#[test]
fn program_of_secp256k1_signatures() {
    assert_eq!(
        SolanaPubkey::new_from_array(SECP256K1_PROGRAM),
        solana_sdk::secp256k1_program::id()
    );
}

#[test]
fn fees_are_those_of_the_cluster() {
    let messages = vec![
        message(1, vec![]),
        message(2, vec![(0, vec![9]), (1, vec![3, 1])]),
        message(0, vec![(1, vec![]), (1, vec![255]), (1, vec![1]), (2, vec![7])]),
    ];
    assert_eq!(calculate_fee(5000, &messages[0]), Some(5000));
    assert_eq!(calculate_fee(5000, &messages[1]), Some(25_000));
    assert_eq!(calculate_fee(10, &messages[2]), Some(2560));
    for message in &messages {
        for lamports in [0, 1, 5000] {
            assert_eq!(calculate_fee(lamports, message), Some(charged(lamports, message)));
        }
    }
    assert_eq!(required_fee(10, &messages), Some(10 + 50 + 2560));
    assert_eq!(required_fee(10, &vec![]), Some(0));
}

#[test]
fn fees_beyond_64_bits() {
    assert_eq!(calculate_fee(u64::MAX, &message(1, vec![])), Some(u64::MAX));
    assert_eq!(calculate_fee(u64::MAX, &message(2, vec![])), None);
    assert_eq!(calculate_fee(u64::MAX, &message(0, vec![])), Some(0));
    assert_eq!(required_fee(u64::MAX, &vec![message(1, vec![]), message(1, vec![])]), None);
}
