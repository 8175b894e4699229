//! Sending transactions and waiting until each is confirmed, as a state machine:
//! the state names the next action, the caller performs it and reports the event.
use vstd::prelude::*;

use crate::batches::{batch_at, batch_count, batches};
use crate::keys::{KeyMap, KeySet, Signature};
use crate::outside::satisfies_commitment;

verus! {

/// How final the block of a transaction has to be.
#[derive(Clone, Copy, Debug, PartialEq, Eq)]
pub enum CommitmentLevel {
    Processed,
    Confirmed,
    Finalized,
}

/// How far a transaction has come, as newer nodes report it.
#[derive(Clone, Copy, Debug, PartialEq, Eq)]
pub enum TransactionConfirmationStatus {
    Processed,
    Confirmed,
    Finalized,
}

/// What a node reports of one transaction.
#[derive(Clone, Copy, Debug, PartialEq, Eq)]
pub struct TransactionStatus {
    /// The number of blocks since; `None` once the transaction is rooted.
    pub confirmations: Option<usize>,
    pub confirmation_status: Option<TransactionConfirmationStatus>,
    /// The transaction was processed and ended in an error.
    pub failed: bool,
}

impl TransactionStatus {
    /// The transaction has come as far as a commitment level asks.
    pub open spec fn satisfies(self, level: CommitmentLevel) -> bool {
        match level {
            CommitmentLevel::Finalized => self.confirmations is None,
            CommitmentLevel::Confirmed => match self.confirmation_status {
                Some(status) => !(status is Processed),
                None => match self.confirmations {
                    Some(blocks) => blocks > 1,
                    None => true,
                },
            },
            CommitmentLevel::Processed => true,
        }
    }
}

/// Why sending was given up.
#[derive(Clone, Copy, Debug, PartialEq, Eq)]
pub enum SendError {
    InsufficientFunds,
    TooManyExpiredBlockhashes,
}

impl SendError {
    /// The error in words.
    pub fn message(&self) -> (text: &'static str)
        ensures
            text@ == match *self {
                SendError::InsufficientFunds => "Authorized staker has insufficient funds"@,
                SendError::TooManyExpiredBlockhashes => "Too many expired blockhashes"@,
            },
    {
        match self {
            SendError::InsufficientFunds => "Authorized staker has insufficient funds",
            SendError::TooManyExpiredBlockhashes => "Too many expired blockhashes",
        }
    }
}

/// A transaction that was sent and is not confirmed yet: its position in the list
/// of transactions, and the signature under which it was sent last.
#[derive(Clone, Copy, Debug, PartialEq, Eq)]
pub struct PendingTransaction {
    pub index: usize,
    pub signature: Signature,
}

/// What is to be done next.
#[derive(Clone, Copy, Debug, PartialEq, Eq)]
pub enum SendAction {
    /// Simulate the transaction at a position of the list.
    Simulate { index: usize },
    /// Sign the transaction at a position of the list and send it.
    SignAndSend { index: usize },
    /// Ask whether the blockhash that the transactions were signed with has expired.
    CheckBlockhash,
    /// Take a fresh blockhash, and sign and send every pending transaction again.
    Resend,
    /// Ask for the status of every pending transaction.
    QueryStatuses,
    /// Wait a moment.
    Wait,
    /// Every transaction is confirmed: nothing is left to do.
    Finish,
    /// Stop with an error.
    Fail { error: SendError },
}

/// What came of an action.
#[derive(Clone, Debug)]
pub enum SendEvent {
    /// The transaction was simulated or sent, under this signature.
    Submitted { signature: Signature },
    /// The blockhash was checked.
    Blockhash { expired: bool },
    /// The pending transactions were sent again, under these signatures.
    Resent { signatures: Vec<Signature> },
    /// The statuses of the pending transactions, in their order.
    Statuses { statuses: Vec<Option<TransactionStatus>> },
    /// The wait is over.
    Waited,
}

/// How many expired blockhashes end the attempt.
pub const MAX_EXPIRED_BLOCKHASHES: usize = 5;

/// The state of sending, as a mathematical value.
pub struct SendModel {
    pub dry_run: bool,
    pub commitment: CommitmentLevel,
    pub total: usize,
    pub retries: nat,
    pub action: SendAction,
    pub pending: Seq<PendingTransaction>,
    pub succeeded: Set<Seq<u8>>,
    pub failed: Set<Seq<u8>>,
}

/// The result of a transaction as its status shows it: `None` while it is open,
/// otherwise whether it succeeded. In a dry run every transaction succeeds.
pub open spec fn completion(
    dry_run: bool,
    commitment: CommitmentLevel,
    status: Option<TransactionStatus>,
) -> Option<bool> {
    if dry_run {
        Some(true)
    } else {
        match status {
            Some(status) => if status.satisfies(commitment) {
                Some(!status.failed)
            } else {
                None
            },
            None => None,
        }
    }
}

/// The results of several transactions.
pub open spec fn completions(
    dry_run: bool,
    commitment: CommitmentLevel,
    statuses: Seq<Option<TransactionStatus>>,
) -> Seq<Option<bool>> {
    statuses.map_values(|status: Option<TransactionStatus>| completion(dry_run, commitment, status))
}

/// The transactions without a result, in their order.
pub open spec fn still_pending(
    pending: Seq<PendingTransaction>,
    results: Seq<Option<bool>>,
) -> Seq<PendingTransaction>
    decreases pending.len(),
{
    if pending.len() == 0 {
        Seq::empty()
    } else {
        let rest = still_pending(pending.drop_last(), results.drop_last());
        if results.last() is None {
            rest.push(pending.last())
        } else {
            rest
        }
    }
}

/// The signatures of the transactions that ended with the given result.
pub open spec fn completed_with(
    pending: Seq<PendingTransaction>,
    results: Seq<Option<bool>>,
    success: bool,
) -> Set<Seq<u8>>
    decreases pending.len(),
{
    if pending.len() == 0 {
        Set::empty()
    } else {
        let rest = completed_with(pending.drop_last(), results.drop_last(), success);
        if results.last() == Some(success) {
            rest.insert(pending.last().signature@)
        } else {
            rest
        }
    }
}

/// The action that submits the transaction at a position.
pub open spec fn submit_action(dry_run: bool, index: usize) -> SendAction {
    if dry_run {
        SendAction::Simulate { index }
    } else {
        SendAction::SignAndSend { index }
    }
}

/// The action at the head of a round: done when nothing is pending.
pub open spec fn round_action(pending: Seq<PendingTransaction>) -> SendAction {
    if pending.len() == 0 {
        SendAction::Finish
    } else {
        SendAction::CheckBlockhash
    }
}

/// The pending transactions under new signatures.
pub open spec fn resigned(
    pending: Seq<PendingTransaction>,
    signatures: Seq<Signature>,
) -> Seq<PendingTransaction> {
    Seq::new(
        pending.len(),
        |i: int| PendingTransaction { index: pending[i].index, signature: signatures[i] },
    )
}

impl SendModel {
    /// The state before the first transaction is submitted.
    pub open spec fn start(
        balance: u64,
        required_fee: u64,
        dry_run: bool,
        commitment: CommitmentLevel,
        total: usize,
    ) -> SendModel {
        SendModel {
            dry_run,
            commitment,
            total,
            retries: MAX_EXPIRED_BLOCKHASHES as nat,
            action: if required_fee > balance {
                SendAction::Fail { error: SendError::InsufficientFunds }
            } else if total == 0 {
                SendAction::Finish
            } else {
                submit_action(dry_run, 0)
            },
            pending: Seq::empty(),
            succeeded: Set::empty(),
            failed: Set::empty(),
        }
    }

    /// An event answers the action of the state. Lists in it have an entry for each
    /// pending transaction.
    pub open spec fn expects(self, event: SendEvent) -> bool {
        match event {
            SendEvent::Submitted { .. } => self.action is Simulate || self.action is SignAndSend,
            SendEvent::Blockhash { .. } => self.action is CheckBlockhash,
            SendEvent::Resent { signatures } => {
                &&& self.action is Resend
                &&& signatures.len() == self.pending.len()
            },
            SendEvent::Statuses { statuses } => {
                &&& self.action is QueryStatuses
                &&& statuses.len() == self.pending.len()
            },
            SendEvent::Waited => self.action is Wait,
        }
    }

    /// The position that is being submitted.
    pub open spec fn submitting(self) -> usize {
        match self.action {
            SendAction::Simulate { index } => index,
            SendAction::SignAndSend { index } => index,
            _ => self.total,
        }
    }

    /// A position that is being submitted lies in the list.
    pub open spec fn wf(self) -> bool {
        &&& self.action is Simulate || self.action is SignAndSend ==> self.submitting() < self.total
        &&& self.action is Simulate ==> self.dry_run
        &&& self.action is SignAndSend ==> !self.dry_run
        &&& self.action is Resend ==> !self.dry_run
    }

    /// The state after an event.
    pub open spec fn after(self, event: SendEvent) -> SendModel {
        match event {
            SendEvent::Submitted { signature } => {
                let index = self.submitting();
                let pending = self.pending.push(PendingTransaction { index, signature });
                SendModel {
                    pending,
                    action: if index + 1 < self.total {
                        submit_action(self.dry_run, (index + 1) as usize)
                    } else {
                        round_action(pending)
                    },
                    ..self
                }
            },
            SendEvent::Blockhash { expired } => {
                if expired && !self.dry_run {
                    let retries = if self.retries > 0 {
                        (self.retries - 1) as nat
                    } else {
                        0
                    };
                    SendModel {
                        retries,
                        action: if retries == 0 {
                            SendAction::Fail { error: SendError::TooManyExpiredBlockhashes }
                        } else {
                            SendAction::Resend
                        },
                        ..self
                    }
                } else {
                    SendModel { action: SendAction::QueryStatuses, ..self }
                }
            },
            SendEvent::Resent { signatures } => SendModel {
                pending: resigned(self.pending, signatures@),
                action: SendAction::QueryStatuses,
                ..self
            },
            SendEvent::Statuses { statuses } => {
                let results = completions(self.dry_run, self.commitment, statuses@);
                SendModel {
                    pending: still_pending(self.pending, results),
                    succeeded: self.succeeded.union(completed_with(self.pending, results, true)),
                    failed: self.failed.union(completed_with(self.pending, results, false)),
                    action: SendAction::Wait,
                    ..self
                }
            },
            SendEvent::Waited => SendModel { action: round_action(self.pending), ..self },
        }
    }
}

/// The state of sending a list of transactions.
pub struct SendState {
    dry_run: bool,
    commitment: CommitmentLevel,
    total: usize,
    retries: usize,
    action: SendAction,
    pending: Vec<PendingTransaction>,
    succeeded: KeySet<64>,
    failed: KeySet<64>,
}

impl View for SendState {
    type V = SendModel;

    closed spec fn view(&self) -> SendModel {
        SendModel {
            dry_run: self.dry_run,
            commitment: self.commitment,
            total: self.total,
            retries: self.retries as nat,
            action: self.action,
            pending: self.pending@,
            succeeded: self.succeeded@.dom(),
            failed: self.failed@.dom(),
        }
    }
}

/// The signatures under which the transactions ended, by their result.
pub struct SendAndConfirmTransactionResult {
    pub succeeded: KeySet<64>,
    pub failed: KeySet<64>,
}

/// Starts sending `total` transactions: fails at once if the balance of the payer
/// does not cover the fee.
pub fn send_and_confirm_transactions(
    balance: u64,
    required_fee: u64,
    dry_run: bool,
    commitment: CommitmentLevel,
    total: usize,
) -> (state: SendState)
    ensures
        state.wf(),
        state@ == SendModel::start(balance, required_fee, dry_run, commitment, total),
{
    let action = if required_fee > balance {
        SendAction::Fail { error: SendError::InsufficientFunds }
    } else if total == 0 {
        SendAction::Finish
    } else if dry_run {
        SendAction::Simulate { index: 0 }
    } else {
        SendAction::SignAndSend { index: 0 }
    };
    let state = SendState {
        dry_run,
        commitment,
        total,
        retries: MAX_EXPIRED_BLOCKHASHES,
        action,
        pending: Vec::new(),
        succeeded: KeyMap::new(),
        failed: KeyMap::new(),
    };
    assert(state.succeeded@.dom() =~= Set::<Seq<u8>>::empty());
    assert(state.failed@.dom() =~= Set::<Seq<u8>>::empty());
    state
}

impl SendState {
    /// The sets are well formed, and a position that is being submitted lies in the list.
    pub closed spec fn wf(&self) -> bool {
        &&& self.succeeded.wf()
        &&& self.failed.wf()
        &&& self@.wf()
    }

    /// The action that is due.
    pub fn action(&self) -> (action: SendAction)
        ensures
            action == self@.action,
    {
        self.action
    }

    /// The transactions that are not confirmed yet.
    pub fn pending(&self) -> (pending: &Vec<PendingTransaction>)
        ensures
            pending@ == self@.pending,
    {
        &self.pending
    }

    /// How many more expired blockhashes end the attempt.
    pub fn retries(&self) -> (retries: usize)
        ensures
            retries == self@.retries,
    {
        self.retries
    }

    /// The signatures of the pending transactions, in batches that are smaller than
    /// the number of signatures which one status query takes.
    pub fn status_batches(&self, query_limit: usize) -> (r: Vec<Vec<Signature>>)
        requires
            query_limit > 1,
        ensures
            r.len() == batch_count(self@.pending.len() as int, query_limit - 1),
            forall|k: int|
                0 <= k < r.len() ==> (#[trigger] r[k])@ == batch_at(
                    signatures_of(self@.pending),
                    query_limit - 1,
                    k,
                ),
            self@.pending.len() <= r.len() * (query_limit - 1) < self@.pending.len() + query_limit
                - 1,
            forall|k: int| 0 <= k < r.len() - 1 ==> (#[trigger] r[k]).len() == query_limit - 1,
            forall|k: int, j: int|
                0 <= k < r.len() && 0 <= j < r[k].len() ==> #[trigger] r[k]@[j] == signatures_of(
                    self@.pending,
                )[k * (query_limit - 1) + j],
    {
        let mut signatures: Vec<Signature> = Vec::new();
        let mut i: usize = 0;
        while i < self.pending.len()
            invariant
                i <= self.pending.len(),
                signatures.len() == i,
                forall|j: int|
                    0 <= j < i ==> #[trigger] signatures[j] == self.pending[j].signature,
            decreases self.pending.len() - i,
        {
            signatures.push(self.pending[i].signature);
            i += 1;
        }
        assert(signatures@ =~= signatures_of(self.pending@));
        batches(&signatures, query_limit - 1)
    }

    /// Takes the event that answers the due action.
    pub fn step(&mut self, event: SendEvent)
        requires
            old(self).wf(),
            old(self)@.expects(event),
        ensures
            final(self).wf(),
            final(self)@ == old(self)@.after(event),
    {
        match event {
            SendEvent::Submitted { signature } => self.submitted(signature),
            SendEvent::Blockhash { expired } => {
                if expired && !self.dry_run {
                    self.retries = self.retries.saturating_sub(1);
                    if self.retries == 0 {
                        self.action = SendAction::Fail {
                            error: SendError::TooManyExpiredBlockhashes,
                        };
                    } else {
                        self.action = SendAction::Resend;
                    }
                } else {
                    self.action = SendAction::QueryStatuses;
                }
            },
            SendEvent::Resent { signatures } => self.resent(&signatures),
            SendEvent::Statuses { statuses } => self.settle(&statuses),
            SendEvent::Waited => {
                self.begin_round();
            },
        }
    }

    /// Begins a round, or ends when nothing is pending.
    fn begin_round(&mut self)
        requires
            old(self).wf(),
        ensures
            final(self).wf(),
            final(self)@ == (SendModel { action: round_action(old(self)@.pending), ..old(self)@ }),
    {
        self.action = if self.pending.len() == 0 {
            SendAction::Finish
        } else {
            SendAction::CheckBlockhash
        };
    }

    /// The transaction that was due is submitted.
    fn submitted(&mut self, signature: Signature)
        requires
            old(self).wf(),
            old(self)@.expects(SendEvent::Submitted { signature }),
        ensures
            final(self).wf(),
            final(self)@ == old(self)@.after(SendEvent::Submitted { signature }),
    {
        let index: usize = match self.action {
            SendAction::Simulate { index } => index,
            SendAction::SignAndSend { index } => index,
            _ => self.total,
        };
        self.pending.push(PendingTransaction { index, signature });
        if index + 1 < self.total {
            self.action = if self.dry_run {
                SendAction::Simulate { index: index + 1 }
            } else {
                SendAction::SignAndSend { index: index + 1 }
            };
        } else {
            self.begin_round();
        }
    }

    /// The pending transactions carry new signatures.
    fn resent(&mut self, signatures: &Vec<Signature>)
        requires
            old(self).wf(),
            old(self)@.action is Resend,
            signatures.len() == old(self)@.pending.len(),
        ensures
            final(self).wf(),
            final(self)@ == (SendModel {
                pending: resigned(old(self)@.pending, signatures@),
                action: SendAction::QueryStatuses,
                ..old(self)@
            }),
    {
        let mut pending: Vec<PendingTransaction> = Vec::new();
        let mut i: usize = 0;
        while i < self.pending.len()
            invariant
                *self == *old(self),
                signatures.len() == self.pending.len(),
                i <= self.pending.len(),
                pending@ == resigned(self.pending@, signatures@).take(i as int),
            decreases self.pending.len() - i,
        {
            pending.push(
                PendingTransaction { index: self.pending[i].index, signature: signatures[i] },
            );
            i += 1;
            assert(pending@ =~= resigned(self.pending@, signatures@).take(i as int));
        }
        assert(pending@ =~= resigned(self.pending@, signatures@));
        self.pending = pending;
        self.action = SendAction::QueryStatuses;
    }

    /// Sorts the pending transactions by what their statuses show.
    fn settle(&mut self, statuses: &Vec<Option<TransactionStatus>>)
        requires
            old(self).wf(),
            old(self)@.action is QueryStatuses,
            statuses.len() == old(self)@.pending.len(),
        ensures
            final(self).wf(),
            final(self)@ == ({
                let results = completions(old(self)@.dry_run, old(self)@.commitment, statuses@);
                SendModel {
                    pending: still_pending(old(self)@.pending, results),
                    succeeded: old(self)@.succeeded.union(
                        completed_with(old(self)@.pending, results, true),
                    ),
                    failed: old(self)@.failed.union(
                        completed_with(old(self)@.pending, results, false),
                    ),
                    action: SendAction::Wait,
                    ..old(self)@
                }
            }),
    {
        let ghost results = completions(self.dry_run, self.commitment, statuses@);
        let mut still: Vec<PendingTransaction> = Vec::new();
        let mut i: usize = 0;
        proof {
            assert(self.pending@.take(0) =~= Seq::<PendingTransaction>::empty());
            assert(self.succeeded@.dom().union(Set::empty()) =~= self.succeeded@.dom());
            assert(self.failed@.dom().union(Set::empty()) =~= self.failed@.dom());
        }
        while i < self.pending.len()
            invariant
                old(self).wf(),
                self.wf(),
                self.dry_run == old(self).dry_run,
                self.commitment == old(self).commitment,
                self.total == old(self).total,
                self.retries == old(self).retries,
                self.action == old(self).action,
                self.pending == old(self).pending,
                statuses.len() == self.pending.len(),
                results == completions(self.dry_run, self.commitment, statuses@),
                i <= self.pending.len(),
                still@ == still_pending(self.pending@.take(i as int), results.take(i as int)),
                self.succeeded@.dom() == old(self).succeeded@.dom().union(
                    completed_with(self.pending@.take(i as int), results.take(i as int), true),
                ),
                self.failed@.dom() == old(self).failed@.dom().union(
                    completed_with(self.pending@.take(i as int), results.take(i as int), false),
                ),
            decreases self.pending.len() - i,
        {
            let transaction = self.pending[i];
            let completed = if self.dry_run {
                Some(true)
            } else {
                match &statuses[i] {
                    Some(status) => if satisfies_commitment(status, self.commitment) {
                        Some(!status.failed)
                    } else {
                        None
                    },
                    None => None,
                }
            };
            proof {
                let p = self.pending@.take(i + 1);
                let r = results.take(i + 1);
                assert(p.drop_last() =~= self.pending@.take(i as int));
                assert(r.drop_last() =~= results.take(i as int));
                assert(p.last() == transaction);
                assert(r.last() == completed);
            }
            match completed {
                Some(true) => {
                    self.succeeded.insert(transaction.signature, ());
                },
                Some(false) => {
                    self.failed.insert(transaction.signature, ());
                },
                None => {
                    still.push(transaction);
                },
            }
            i += 1;
            proof {
                let p = self.pending@.take(i as int);
                let r = results.take(i as int);
                assert(self.succeeded@.dom() =~= old(self).succeeded@.dom().union(
                    completed_with(p, r, true),
                ));
                assert(self.failed@.dom() =~= old(self).failed@.dom().union(
                    completed_with(p, r, false),
                ));
            }
        }
        assert(self.pending@.take(i as int) =~= self.pending@);
        assert(results.take(i as int) =~= results);
        self.pending = still;
        self.action = SendAction::Wait;
    }

    /// The signatures of the transactions that ended, by their result.
    pub fn finish(self) -> (r: SendAndConfirmTransactionResult)
        requires
            self.wf(),
        ensures
            r.succeeded.wf(),
            r.failed.wf(),
            r.succeeded@.dom() == self@.succeeded,
            r.failed@.dom() == self@.failed,
    {
        SendAndConfirmTransactionResult { succeeded: self.succeeded, failed: self.failed }
    }
}

/// The signatures of a list of pending transactions.
pub open spec fn signatures_of(pending: Seq<PendingTransaction>) -> Seq<Signature> {
    pending.map_values(|transaction: PendingTransaction| transaction.signature)
}

} // verus!
