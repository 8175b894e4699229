//! What holds of every run of the sending state machine.
use vstd::prelude::*;

use crate::keys::Signature;
use crate::send::{
    completed_with, completions, signatures_of, still_pending, CommitmentLevel, PendingTransaction, SendAction,
    SendError, SendEvent, SendModel, TransactionConfirmationStatus, TransactionStatus,
};

verus! {

/// The state after a sequence of events.
pub open spec fn run(state: SendModel, events: Seq<SendEvent>) -> SendModel
    decreases events.len(),
{
    if events.len() == 0 {
        state
    } else {
        run(state, events.drop_last()).after(events.last())
    }
}

/// Each event of a sequence answers the action that is due when it comes.
pub open spec fn expected_run(state: SendModel, events: Seq<SendEvent>) -> bool
    decreases events.len(),
{
    if events.len() == 0 {
        true
    } else {
        &&& expected_run(state, events.drop_last())
        &&& run(state, events.drop_last()).expects(events.last())
    }
}

/// A transaction that ended, with the signature it had then, and its result.
pub struct Settled {
    pub transaction: PendingTransaction,
    pub success: bool,
}

/// The transactions that have a result, in their order.
pub open spec fn settled_of(
    pending: Seq<PendingTransaction>,
    results: Seq<Option<bool>>,
) -> Seq<Settled>
    decreases pending.len(),
{
    if pending.len() == 0 {
        Seq::empty()
    } else {
        let rest = settled_of(pending.drop_last(), results.drop_last());
        match results.last() {
            Some(success) => rest.push(Settled { transaction: pending.last(), success }),
            None => rest,
        }
    }
}

/// The transactions that an event ends.
pub open spec fn settled_by(state: SendModel, event: SendEvent) -> Seq<Settled> {
    match event {
        SendEvent::Statuses { statuses } => settled_of(
            state.pending,
            completions(state.dry_run, state.commitment, statuses@),
        ),
        _ => Seq::empty(),
    }
}

/// The transactions that a sequence of events ends, in the order of their ends.
pub open spec fn settled_in(state: SendModel, events: Seq<SendEvent>) -> Seq<Settled>
    decreases events.len(),
{
    if events.len() == 0 {
        Seq::empty()
    } else {
        settled_in(state, events.drop_last()) + settled_by(
            run(state, events.drop_last()),
            events.last(),
        )
    }
}

/// The positions of pending transactions in the list of transactions.
pub open spec fn pending_positions(pending: Seq<PendingTransaction>) -> Seq<usize> {
    pending.map_values(|transaction: PendingTransaction| transaction.index)
}

/// The positions of ended transactions in the list of transactions.
pub open spec fn settled_positions(settled: Seq<Settled>) -> Seq<usize> {
    settled.map_values(|settled: Settled| settled.transaction.index)
}

/// The signatures under which transactions ended with the given result.
pub open spec fn settled_signatures(settled: Seq<Settled>, success: bool) -> Set<Seq<u8>> {
    Set::new(
        |signature: Seq<u8>|
            exists|i: int|
                0 <= i < settled.len() && (#[trigger] settled[i]).success == success
                    && settled[i].transaction.signature@ == signature,
    )
}

/// How many transactions were submitted so far: they are the first of the list.
pub open spec fn submitted_count(state: SendModel) -> usize {
    match state.action {
        SendAction::Simulate { index } => index,
        SendAction::SignAndSend { index } => index,
        SendAction::Fail { error: SendError::InsufficientFunds } => 0,
        _ => state.total,
    }
}

/// The first `n` positions.
pub open spec fn positions(n: usize) -> Seq<usize> {
    Seq::new(n as nat, |i: int| i as usize)
}

/// How many events report an expired blockhash.
pub open spec fn expired_count(events: Seq<SendEvent>) -> nat
    decreases events.len(),
{
    if events.len() == 0 {
        0
    } else {
        expired_count(events.drop_last()) + if events.last() matches SendEvent::Blockhash {
            expired: true,
        } {
            1nat
        } else {
            0
        }
    }
}

/// What every reachable state satisfies.
spec fn reachable(state: SendModel) -> bool {
    &&& state.wf()
    &&& state.action is Finish ==> state.pending.len() == 0
}

proof fn lemma_reachable(start: SendModel, events: Seq<SendEvent>)
    requires
        reachable(start),
        expected_run(start, events),
    ensures
        reachable(run(start, events)),
    decreases events.len(),
{
    if events.len() > 0 {
        lemma_reachable(start, events.drop_last());
    }
}

/// Multisets of positions under the operations that events perform.
proof fn lemma_split_positions(pending: Seq<PendingTransaction>, results: Seq<Option<bool>>)
    requires
        pending.len() == results.len(),
    ensures
        pending_positions(pending).to_multiset() == settled_positions(
            settled_of(pending, results),
        ).to_multiset().add(pending_positions(still_pending(pending, results)).to_multiset()),
    decreases pending.len(),
{
    broadcast use vstd::seq_lib::group_to_multiset_ensures;

    if pending.len() == 0 {
        assert(pending_positions(pending) =~= Seq::empty());
        assert(settled_positions(settled_of(pending, results)) =~= Seq::empty());
        assert(pending_positions(still_pending(pending, results)) =~= Seq::empty());
        assert(pending_positions(pending).to_multiset() =~= settled_positions(
            settled_of(pending, results),
        ).to_multiset().add(pending_positions(still_pending(pending, results)).to_multiset()));
    } else {
        let p = pending.drop_last();
        let r = results.drop_last();
        lemma_split_positions(p, r);
        assert(pending_positions(pending) =~= pending_positions(p).push(pending.last().index));
        match results.last() {
            Some(success) => {
                assert(settled_positions(settled_of(pending, results)) =~= settled_positions(
                    settled_of(p, r),
                ).push(pending.last().index));
            },
            None => {
                assert(pending_positions(still_pending(pending, results)) =~= pending_positions(
                    still_pending(p, r),
                ).push(pending.last().index));
            },
        }
        assert(pending_positions(pending).to_multiset() =~= settled_positions(
            settled_of(pending, results),
        ).to_multiset().add(pending_positions(still_pending(pending, results)).to_multiset()));
    }
}

/// No transaction is lost and none ends twice: at every moment the transactions that
/// ended and those that are pending are exactly the ones submitted so far, each once.
pub proof fn law_every_transaction_is_accounted_for(
    balance: u64,
    required_fee: u64,
    dry_run: bool,
    commitment: CommitmentLevel,
    total: usize,
    events: Seq<SendEvent>,
)
    requires
        expected_run(
            SendModel::start(balance, required_fee, dry_run, commitment, total),
            events,
        ),
    ensures
        ({
            let start = SendModel::start(balance, required_fee, dry_run, commitment, total);
            let state = run(start, events);
            settled_positions(settled_in(start, events)).to_multiset().add(
                pending_positions(state.pending).to_multiset(),
            ) == positions(submitted_count(state)).to_multiset()
        }),
    decreases events.len(),
{
    broadcast use vstd::seq_lib::group_to_multiset_ensures;

    let start = SendModel::start(balance, required_fee, dry_run, commitment, total);
    let state = run(start, events);
    if events.len() == 0 {
        assert(settled_positions(settled_in(start, events)) =~= Seq::empty());
        assert(pending_positions(state.pending) =~= Seq::empty());
        assert(positions(submitted_count(state)) =~= Seq::empty());
        assert(settled_positions(settled_in(start, events)).to_multiset().add(
            pending_positions(state.pending).to_multiset(),
        ) =~= positions(submitted_count(state)).to_multiset());
    } else {
        let earlier = events.drop_last();
        let event = events.last();
        let before = run(start, earlier);
        law_every_transaction_is_accounted_for(
            balance,
            required_fee,
            dry_run,
            commitment,
            total,
            earlier,
        );
        lemma_reachable(start, earlier);
        let settled_before = settled_positions(settled_in(start, earlier));
        let settled_now = settled_positions(settled_by(before, event));
        assert(settled_positions(settled_in(start, events)) =~= settled_before + settled_now);
        vstd::seq_lib::lemma_multiset_commutative(settled_before, settled_now);
        match event {
            SendEvent::Submitted { signature } => {
                let index = before.submitting();
                assert(settled_now =~= Seq::empty());
                assert(pending_positions(state.pending) =~= pending_positions(before.pending).push(
                    index,
                ));
                assert(submitted_count(state) == index + 1);
                assert(positions((index + 1) as usize) =~= positions(index).push(index));
            },
            SendEvent::Blockhash { expired } => {
                assert(settled_now =~= Seq::empty());
            },
            SendEvent::Resent { signatures } => {
                assert(settled_now =~= Seq::empty());
                assert(pending_positions(state.pending) =~= pending_positions(before.pending));
            },
            SendEvent::Statuses { statuses } => {
                lemma_split_positions(
                    before.pending,
                    completions(before.dry_run, before.commitment, statuses@),
                );
            },
            SendEvent::Waited => {
                assert(settled_now =~= Seq::empty());
            },
        }
        assert(settled_positions(settled_in(start, events)).to_multiset().add(
            pending_positions(state.pending).to_multiset(),
        ) =~= positions(submitted_count(state)).to_multiset());
    }
}

/// Sending finishes only when every transaction of the list has ended, each exactly once.
pub proof fn law_finish_is_complete(
    balance: u64,
    required_fee: u64,
    dry_run: bool,
    commitment: CommitmentLevel,
    total: usize,
    events: Seq<SendEvent>,
)
    requires
        expected_run(
            SendModel::start(balance, required_fee, dry_run, commitment, total),
            events,
        ),
        run(
            SendModel::start(balance, required_fee, dry_run, commitment, total),
            events,
        ).action is Finish,
    ensures
        ({
            let start = SendModel::start(balance, required_fee, dry_run, commitment, total);
            &&& run(start, events).pending.len() == 0
            &&& settled_positions(settled_in(start, events)).to_multiset() == positions(
                total,
            ).to_multiset()
        }),
{
    let start = SendModel::start(balance, required_fee, dry_run, commitment, total);
    let state = run(start, events);
    law_every_transaction_is_accounted_for(
        balance,
        required_fee,
        dry_run,
        commitment,
        total,
        events,
    );
    lemma_reachable(start, events);
    lemma_settings_stay(start, events);
    assert(pending_positions(state.pending) =~= Seq::empty());
    let settled = settled_positions(settled_in(start, events)).to_multiset();
    assert(settled =~= settled.add(Seq::<usize>::empty().to_multiset())) by {
        broadcast use vstd::seq_lib::group_to_multiset_ensures;

    }
}

/// Events leave the settings of a run alone.
proof fn lemma_settings_stay(start: SendModel, events: Seq<SendEvent>)
    ensures
        run(start, events).total == start.total,
        run(start, events).dry_run == start.dry_run,
        run(start, events).commitment == start.commitment,
    decreases events.len(),
{
    if events.len() > 0 {
        lemma_settings_stay(start, events.drop_last());
    }
}

/// The two ways to say which signatures ended with a result agree.
proof fn lemma_completed_is_settled(
    pending: Seq<PendingTransaction>,
    results: Seq<Option<bool>>,
    success: bool,
)
    requires
        pending.len() == results.len(),
    ensures
        completed_with(pending, results, success) == settled_signatures(
            settled_of(pending, results),
            success,
        ),
    decreases pending.len(),
{
    let settled = settled_of(pending, results);
    if pending.len() == 0 {
        assert(completed_with(pending, results, success) =~= settled_signatures(settled, success));
    } else {
        let p = pending.drop_last();
        let r = results.drop_last();
        let rest = settled_of(p, r);
        lemma_completed_is_settled(p, r, success);
        match results.last() {
            Some(result) => {
                lemma_settled_push(
                    rest,
                    Settled { transaction: pending.last(), success: result },
                    success,
                );
            },
            None => {},
        }
        assert(completed_with(pending, results, success) =~= settled_signatures(settled, success));
    }
}

proof fn lemma_settled_push(settled: Seq<Settled>, last: Settled, success: bool)
    ensures
        settled_signatures(settled.push(last), success) == if last.success == success {
            settled_signatures(settled, success).insert(last.transaction.signature@)
        } else {
            settled_signatures(settled, success)
        },
{
    let all = settled.push(last);
    assert forall|signature: Seq<u8>|
        settled_signatures(all, success).contains(signature) == (settled_signatures(
            settled,
            success,
        ).contains(signature) || (last.success == success && last.transaction.signature@
            == signature)) by {
        if settled_signatures(settled, success).contains(signature) {
            let i = choose|i: int|
                0 <= i < settled.len() && (#[trigger] settled[i]).success == success
                    && settled[i].transaction.signature@ == signature;
            assert(all[i] == settled[i]);
        }
        assert(all[settled.len() as int] == last);
        if settled_signatures(all, success).contains(signature) {
            let i = choose|i: int|
                0 <= i < all.len() && (#[trigger] all[i]).success == success
                    && all[i].transaction.signature@ == signature;
            if i < settled.len() {
                assert(all[i] == settled[i]);
            }
        }
    }
    assert(settled_signatures(all, success) =~= if last.success == success {
        settled_signatures(settled, success).insert(last.transaction.signature@)
    } else {
        settled_signatures(settled, success)
    });
}

proof fn lemma_settled_concat(first: Seq<Settled>, second: Seq<Settled>, success: bool)
    ensures
        settled_signatures(first + second, success) == settled_signatures(first, success).union(
            settled_signatures(second, success),
        ),
    decreases second.len(),
{
    if second.len() == 0 {
        assert(first + second =~= first);
        assert(settled_signatures(second, success) =~= Set::empty());
        assert(settled_signatures(first, success).union(Set::empty()) =~= settled_signatures(
            first,
            success,
        ));
    } else {
        lemma_settled_concat(first, second.drop_last(), success);
        assert(first + second =~= (first + second.drop_last()).push(second.last()));
        assert(second =~= second.drop_last().push(second.last()));
        lemma_settled_push(first + second.drop_last(), second.last(), success);
        lemma_settled_push(second.drop_last(), second.last(), success);
        assert(settled_signatures(first + second, success) =~= settled_signatures(
            first,
            success,
        ).union(settled_signatures(second, success)));
    }
}

/// The two sets of the result hold exactly the signatures under which transactions ended:
/// one set those that succeeded, the other those that failed.
pub proof fn law_results_are_the_ended_transactions(
    balance: u64,
    required_fee: u64,
    dry_run: bool,
    commitment: CommitmentLevel,
    total: usize,
    events: Seq<SendEvent>,
)
    requires
        expected_run(
            SendModel::start(balance, required_fee, dry_run, commitment, total),
            events,
        ),
    ensures
        ({
            let start = SendModel::start(balance, required_fee, dry_run, commitment, total);
            &&& run(start, events).succeeded == settled_signatures(settled_in(start, events), true)
            &&& run(start, events).failed == settled_signatures(settled_in(start, events), false)
        }),
    decreases events.len(),
{
    let start = SendModel::start(balance, required_fee, dry_run, commitment, total);
    let state = run(start, events);
    if events.len() == 0 {
        assert(state.succeeded =~= settled_signatures(settled_in(start, events), true));
        assert(state.failed =~= settled_signatures(settled_in(start, events), false));
    } else {
        let earlier = events.drop_last();
        let event = events.last();
        let before = run(start, earlier);
        law_results_are_the_ended_transactions(
            balance,
            required_fee,
            dry_run,
            commitment,
            total,
            earlier,
        );
        let now = settled_by(before, event);
        lemma_settled_concat(settled_in(start, earlier), now, true);
        lemma_settled_concat(settled_in(start, earlier), now, false);
        match event {
            SendEvent::Statuses { statuses } => {
                let results = completions(before.dry_run, before.commitment, statuses@);
                lemma_completed_is_settled(before.pending, results, true);
                lemma_completed_is_settled(before.pending, results, false);
            },
            _ => {
                assert(settled_signatures(now, true) =~= Set::empty());
                assert(settled_signatures(now, false) =~= Set::empty());
            },
        }
        assert(state.succeeded =~= settled_signatures(settled_in(start, events), true));
        assert(state.failed =~= settled_signatures(settled_in(start, events), false));
    }
}

/// A run tolerates four expired blockhashes, each followed by sending again, and the
/// fifth ends it. A dry run tolerates any number.
pub proof fn law_fifth_expired_blockhash_ends_the_run(
    balance: u64,
    required_fee: u64,
    dry_run: bool,
    commitment: CommitmentLevel,
    total: usize,
    events: Seq<SendEvent>,
)
    requires
        required_fee <= balance,
        expected_run(
            SendModel::start(balance, required_fee, dry_run, commitment, total),
            events,
        ),
    ensures
        ({
            let start = SendModel::start(balance, required_fee, dry_run, commitment, total);
            let state = run(start, events);
            &&& state.action is Fail <==> !dry_run && expired_count(events) == 5
            &&& !dry_run ==> state.retries + expired_count(events) == 5
        }),
    decreases events.len(),
{
    let start = SendModel::start(balance, required_fee, dry_run, commitment, total);
    if events.len() > 0 {
        law_fifth_expired_blockhash_ends_the_run(
            balance,
            required_fee,
            dry_run,
            commitment,
            total,
            events.drop_last(),
        );
        lemma_settings_stay(start, events.drop_last());
    }
}

/// A payer that cannot cover the fee has nothing sent: the run fails before its first
/// action, and no event can follow.
pub proof fn law_insufficient_funds_send_nothing(
    balance: u64,
    required_fee: u64,
    dry_run: bool,
    commitment: CommitmentLevel,
    total: usize,
    event: SendEvent,
)
    ensures
        ({
            let start = SendModel::start(balance, required_fee, dry_run, commitment, total);
            required_fee > balance <==> start.action == (SendAction::Fail {
                error: SendError::InsufficientFunds,
            })
        }),
        required_fee > balance ==> !SendModel::start(
            balance,
            required_fee,
            dry_run,
            commitment,
            total,
        ).expects(event),
{
}

/// Every transaction of a dry run ends, as a success, in the first round of statuses.
pub proof fn law_dry_run_succeeds_at_once(
    state: SendModel,
    statuses: Vec<Option<TransactionStatus>>,
)
    requires
        state.dry_run,
        state.expects(SendEvent::Statuses { statuses }),
    ensures
        ({
            let after = state.after(SendEvent::Statuses { statuses });
            &&& after.pending.len() == 0
            &&& after.failed == state.failed
            &&& forall|i: int|
                0 <= i < state.pending.len() ==> after.succeeded.contains(
                    (#[trigger] state.pending[i]).signature@,
                )
        }),
{
    let results = completions(true, state.commitment, statuses@);
    lemma_all_succeed(state.pending, results);
    assert(state.failed.union(Set::empty()) =~= state.failed);
}

proof fn lemma_all_succeed(pending: Seq<PendingTransaction>, results: Seq<Option<bool>>)
    requires
        pending.len() == results.len(),
        forall|i: int| 0 <= i < results.len() ==> #[trigger] results[i] == Some(true),
    ensures
        still_pending(pending, results).len() == 0,
        completed_with(pending, results, false) == Set::<Seq<u8>>::empty(),
        forall|i: int|
            0 <= i < pending.len() ==> completed_with(pending, results, true).contains(
                (#[trigger] pending[i]).signature@,
            ),
    decreases pending.len(),
{
    if pending.len() > 0 {
        let p = pending.drop_last();
        let r = results.drop_last();
        assert forall|i: int| 0 <= i < r.len() implies #[trigger] r[i] == Some(true) by {
            assert(r[i] == results[i]);
        }
        lemma_all_succeed(p, r);
        assert(results[results.len() - 1] == Some(true));
        assert forall|i: int| 0 <= i < pending.len() implies completed_with(
            pending,
            results,
            true,
        ).contains((#[trigger] pending[i]).signature@) by {
            if i < p.len() {
                assert(p[i] == pending[i]);
            }
        }
    }
}

/// At the finalized level a transaction has to be rooted. At the confirmed level a node has
/// to report it as confirmed or finalized, or, where a node does not report that, more than
/// one block has to follow or the transaction has to be rooted. At the processed level any
/// status will do.
pub proof fn law_commitment_levels(status: TransactionStatus)
    ensures
        status.satisfies(CommitmentLevel::Finalized) <==> status.confirmations is None,
        status.satisfies(CommitmentLevel::Processed),
        status.confirmation_status == Some(TransactionConfirmationStatus::Processed)
            ==> !status.satisfies(CommitmentLevel::Confirmed),
        status.confirmation_status == Some(TransactionConfirmationStatus::Confirmed)
            ==> status.satisfies(CommitmentLevel::Confirmed),
        status.confirmation_status == Some(TransactionConfirmationStatus::Finalized)
            ==> status.satisfies(CommitmentLevel::Confirmed),
        status.confirmation_status is None && status.confirmations is None ==> status.satisfies(
            CommitmentLevel::Confirmed,
        ),
        status.confirmation_status is None ==> (status.confirmations matches Some(blocks) ==> (
        status.satisfies(CommitmentLevel::Confirmed) <==> blocks > 1)),
{
}

/// A status says that a transaction failed for good.
spec fn shows_failure(state: SendModel, status: Option<TransactionStatus>) -> bool {
    &&& !state.dry_run
    &&& status is Some
    &&& status.unwrap().satisfies(state.commitment)
    &&& status.unwrap().failed
}

/// A status says that a transaction succeeded for good, or the run is a dry one.
spec fn shows_success(state: SendModel, status: Option<TransactionStatus>) -> bool {
    ||| state.dry_run
    ||| {
        &&& status is Some
        &&& status.unwrap().satisfies(state.commitment)
        &&& !status.unwrap().failed
    }
}

proof fn lemma_completed_with(
    pending: Seq<PendingTransaction>,
    results: Seq<Option<bool>>,
    success: bool,
    signature: Seq<u8>,
)
    requires
        pending.len() == results.len(),
    ensures
        completed_with(pending, results, success).contains(signature) <==> exists|i: int|
            0 <= i < pending.len() && (#[trigger] pending[i]).signature@ == signature
                && results[i] == Some(success),
    decreases pending.len(),
{
    if pending.len() > 0 {
        let p = pending.drop_last();
        let r = results.drop_last();
        lemma_completed_with(p, r, success, signature);
        let n = p.len() as int;
        if exists|i: int|
            0 <= i < p.len() && (#[trigger] p[i]).signature@ == signature && r[i] == Some(
                success,
            ) {
            let i = choose|i: int|
                0 <= i < p.len() && (#[trigger] p[i]).signature@ == signature && r[i] == Some(
                    success,
                );
            assert(pending[i] == p[i] && results[i] == r[i]);
        }
        if exists|i: int|
            0 <= i < pending.len() && (#[trigger] pending[i]).signature@ == signature
                && results[i] == Some(success) {
            let i = choose|i: int|
                0 <= i < pending.len() && (#[trigger] pending[i]).signature@ == signature
                    && results[i] == Some(success);
            if i < n {
                assert(pending[i] == p[i] && results[i] == r[i]);
            }
        }
        assert(pending[n] == pending.last() && results[n] == results.last());
    }
}

/// In a run that is no dry run, the status of a pending transaction that satisfies the
/// commitment level decides: the signature goes to the failed ones where the status says so
/// and to the succeeded ones where it does not, whatever its confirmations are.
pub proof fn law_status_decides(
    state: SendModel,
    statuses: Vec<Option<TransactionStatus>>,
    i: int,
    status: TransactionStatus,
)
    requires
        state.expects(SendEvent::Statuses { statuses }),
        !state.dry_run,
        0 <= i < state.pending.len(),
        statuses@[i] == Some(status),
        status.satisfies(state.commitment),
    ensures
        status.failed ==> state.after(SendEvent::Statuses { statuses }).failed.contains(
            state.pending[i].signature@,
        ),
        !status.failed ==> state.after(SendEvent::Statuses { statuses }).succeeded.contains(
            state.pending[i].signature@,
        ),
{
    law_statuses_sort_the_transactions(state, statuses, state.pending[i].signature@);
}

/// Statuses add to the failed and to the succeeded signatures exactly those of pending
/// transactions whose status satisfies the commitment level, by whether it says failed. A
/// dry run takes every pending transaction for a success.
pub proof fn law_statuses_sort_the_transactions(
    state: SendModel,
    statuses: Vec<Option<TransactionStatus>>,
    signature: Seq<u8>,
)
    requires
        state.expects(SendEvent::Statuses { statuses }),
    ensures
        state.after(SendEvent::Statuses { statuses }).failed.contains(signature) <==> {
            ||| state.failed.contains(signature)
            ||| exists|i: int|
                {
                    &&& 0 <= i < state.pending.len()
                    &&& (#[trigger] state.pending[i]).signature@ == signature
                    &&& !state.dry_run
                    &&& statuses@[i] is Some
                    &&& statuses@[i].unwrap().satisfies(state.commitment)
                    &&& statuses@[i].unwrap().failed
                }
        },
        state.after(SendEvent::Statuses { statuses }).succeeded.contains(signature) <==> {
            ||| state.succeeded.contains(signature)
            ||| exists|i: int|
                {
                    &&& 0 <= i < state.pending.len()
                    &&& (#[trigger] state.pending[i]).signature@ == signature
                    &&& state.dry_run || {
                        &&& statuses@[i] is Some
                        &&& statuses@[i].unwrap().satisfies(state.commitment)
                        &&& !statuses@[i].unwrap().failed
                    }
                }
        },
{
    let results = completions(state.dry_run, state.commitment, statuses@);
    lemma_completed_with(state.pending, results, true, signature);
    lemma_completed_with(state.pending, results, false, signature);
    assert forall|i: int| 0 <= i < state.pending.len() implies {
        &&& #[trigger] results[i] == Some(false) <==> shows_failure(state, statuses@[i])
        &&& results[i] == Some(true) <==> shows_success(state, statuses@[i])
    } by {}
}

/// Positions that go up.
pub open spec fn go_up(at: Seq<int>) -> bool {
    forall|a: int, b: int| 0 <= a < b < at.len() ==> #[trigger] at[a] < #[trigger] at[b]
}

/// A pending transaction stays pending: the run is no dry run, and the transaction has no
/// status or one that does not satisfy the commitment level.
spec fn stays_open(state: SendModel, status: Option<TransactionStatus>) -> bool {
    &&& !state.dry_run
    &&& status is Some ==> !status.unwrap().satisfies(state.commitment)
}

proof fn lemma_still_pending(pending: Seq<PendingTransaction>, results: Seq<Option<bool>>) -> (at:
    Seq<int>)
    requires
        pending.len() == results.len(),
    ensures
        go_up(at),
        still_pending(pending, results) == at.map_values(|i: int| pending[i]),
        forall|i: int|
            0 <= i < pending.len() && #[trigger] results[i] is None ==> at.contains(i),
        forall|k: int|
            0 <= k < at.len() ==> 0 <= #[trigger] at[k] < pending.len() && results[at[k]] is None,
    decreases pending.len(),
{
    if pending.len() == 0 {
        assert(still_pending(pending, results) =~= Seq::<int>::empty().map_values(
            |i: int| pending[i],
        ));
        Seq::empty()
    } else {
        let p = pending.drop_last();
        let r = results.drop_last();
        let rest = lemma_still_pending(p, r);
        let n = p.len() as int;
        let at = if results[n] is None {
            rest.push(n)
        } else {
            rest
        };
        assert forall|k: int| 0 <= k < rest.len() implies p[#[trigger] rest[k]]
            == pending[rest[k]] by {}
        assert(still_pending(pending, results) =~= at.map_values(|i: int| pending[i]));
        assert forall|i: int|
            0 <= i < pending.len() && #[trigger] results[i] is None implies at.contains(i) by {
            if i < n {
                assert(r[i] is None);
                let k = choose|k: int| 0 <= k < rest.len() && rest[k] == i;
                assert(at[k] == i);
            } else {
                assert(at[at.len() - 1] == i);
            }
        }
        assert forall|k: int| 0 <= k < at.len() implies 0 <= #[trigger] at[k] < pending.len()
            && results[at[k]] is None by {
            if k < rest.len() {
                assert(at[k] == rest[k]);
                assert(r[rest[k]] is None);
            }
        }
        at
    }
}

/// After statuses exactly the open transactions are pending, unchanged and in their order:
/// those without a status, or with one that does not satisfy the commitment level. After
/// the statuses of a dry run none is.
pub proof fn law_open_transactions_stay_pending(
    state: SendModel,
    statuses: Vec<Option<TransactionStatus>>,
) -> (at: Seq<int>)
    requires
        state.expects(SendEvent::Statuses { statuses }),
    ensures
        go_up(at),
        state.after(SendEvent::Statuses { statuses }).pending == at.map_values(
            |i: int| state.pending[i],
        ),
        forall|i: int|
            at.contains(i) <==> {
                &&& 0 <= i < state.pending.len()
                &&& !state.dry_run
                &&& #[trigger] statuses@[i] is Some ==> !statuses@[i].unwrap().satisfies(
                    state.commitment,
                )
            },
{
    let results = completions(state.dry_run, state.commitment, statuses@);
    let at = lemma_still_pending(state.pending, results);
    assert forall|i: int| 0 <= i < state.pending.len() implies (#[trigger] results[i] is None
        <==> stays_open(state, statuses@[i])) by {}
    assert forall|i: int|
        at.contains(i) <==> {
            &&& 0 <= i < state.pending.len()
            &&& !state.dry_run
            &&& #[trigger] statuses@[i] is Some ==> !statuses@[i].unwrap().satisfies(
                state.commitment,
            )
        } by {
        if at.contains(i) {
            let k = choose|k: int| 0 <= k < at.len() && at[k] == i;
            assert(results[at[k]] is None);
        }
        if 0 <= i < state.pending.len() && stays_open(state, statuses@[i]) {
            assert(results[i] is None);
        }
    }
    at
}

/// A run starts with nothing sent and with five retries. It fails where the balance does
/// not cover the fee; else it finishes at once without transactions, and submits the first
/// with one.
pub proof fn law_start(
    balance: u64,
    required_fee: u64,
    dry_run: bool,
    commitment: CommitmentLevel,
    total: usize,
)
    ensures
        ({
            let start = SendModel::start(balance, required_fee, dry_run, commitment, total);
            &&& start.dry_run == dry_run
            &&& start.commitment == commitment
            &&& start.total == total
            &&& start.retries == 5
            &&& start.pending.len() == 0
            &&& forall|signature: Seq<u8>| !#[trigger] start.succeeded.contains(signature)
            &&& forall|signature: Seq<u8>| !#[trigger] start.failed.contains(signature)
            &&& balance < required_fee ==> start.action == (SendAction::Fail {
                error: SendError::InsufficientFunds,
            })
            &&& balance >= required_fee && total == 0 ==> start.action is Finish
            &&& balance >= required_fee && total > 0 && dry_run ==> start.action == (
            SendAction::Simulate { index: 0 })
            &&& balance >= required_fee && total > 0 && !dry_run ==> start.action == (
            SendAction::SignAndSend { index: 0 })
        }),
{
}

/// A submitted transaction is pending under its signature. The next of the list follows,
/// and after the last the blockhash is checked. Nothing else changes.
pub proof fn law_submitted(state: SendModel, index: usize, signature: Signature)
    requires
        state.wf(),
        state.action == (SendAction::Simulate { index }) || state.action == (
        SendAction::SignAndSend { index }),
    ensures
        ({
            let after = state.after(SendEvent::Submitted { signature });
            &&& state.expects(SendEvent::Submitted { signature })
            &&& after.pending == state.pending.push(PendingTransaction { index, signature })
            &&& index + 1 == state.total ==> after.action is CheckBlockhash
            &&& index + 1 < state.total && state.dry_run ==> after.action == (
            SendAction::Simulate { index: (index + 1) as usize })
            &&& index + 1 < state.total && !state.dry_run ==> after.action == (
            SendAction::SignAndSend { index: (index + 1) as usize })
            &&& after.retries == state.retries
            &&& after.succeeded == state.succeeded
            &&& after.failed == state.failed
        }),
{
}

/// An expired blockhash costs a retry, unless the run is a dry one. With a retry left the
/// pending transactions are sent again; the last retry ends the run. Without an expired
/// blockhash the statuses are asked for. Nothing else changes.
pub proof fn law_blockhash(state: SendModel, expired: bool)
    ensures
        ({
            let after = state.after(SendEvent::Blockhash { expired });
            &&& state.expects(SendEvent::Blockhash { expired }) <==> state.action is CheckBlockhash
            &&& !expired || state.dry_run ==> after.action is QueryStatuses && after.retries
                == state.retries
            &&& expired && !state.dry_run && state.retries > 1 ==> after.action is Resend
                && after.retries + 1 == state.retries
            &&& expired && !state.dry_run && state.retries <= 1 ==> after.action == (
            SendAction::Fail { error: SendError::TooManyExpiredBlockhashes }) && after.retries == 0
            &&& after.pending == state.pending
            &&& after.succeeded == state.succeeded
            &&& after.failed == state.failed
        }),
{
}

/// Transactions that were sent again are the same ones, in their order, each under its new
/// signature. Then the statuses are asked for. Nothing else changes.
pub proof fn law_resent(state: SendModel, signatures: Vec<Signature>)
    requires
        signatures.len() == state.pending.len(),
    ensures
        ({
            let after = state.after(SendEvent::Resent { signatures });
            &&& state.expects(SendEvent::Resent { signatures }) <==> state.action is Resend
            &&& after.action is QueryStatuses
            &&& after.pending.len() == state.pending.len()
            &&& forall|i: int|
                0 <= i < state.pending.len() ==> (#[trigger] after.pending[i]).index
                    == state.pending[i].index && after.pending[i].signature == signatures@[i]
            &&& after.retries == state.retries
            &&& after.succeeded == state.succeeded
            &&& after.failed == state.failed
        }),
{
}

/// A round ends with a wait, after which the next one begins with checking the blockhash, or
/// the run finishes where nothing is pending. Statuses and the wait change no retries, and
/// the wait nothing else.
pub proof fn law_rounds(state: SendModel, statuses: Vec<Option<TransactionStatus>>)
    ensures
        ({
            let settled = state.after(SendEvent::Statuses { statuses });
            let waited = state.after(SendEvent::Waited);
            &&& settled.action is Wait
            &&& settled.retries == state.retries
            &&& state.expects(SendEvent::Statuses { statuses }) <==> state.action is QueryStatuses
                && statuses.len() == state.pending.len()
            &&& state.expects(SendEvent::Waited) <==> state.action is Wait
            &&& state.pending.len() == 0 ==> waited.action is Finish
            &&& state.pending.len() > 0 ==> waited.action is CheckBlockhash
            &&& waited.retries == state.retries
            &&& waited.pending == state.pending
            &&& waited.succeeded == state.succeeded
            &&& waited.failed == state.failed
        }),
{
}

/// The statuses are asked for under the signatures of the pending transactions, each once and
/// in their order.
pub proof fn law_signatures_of_pending(pending: Seq<PendingTransaction>, i: int)
    ensures
        signatures_of(pending).len() == pending.len(),
        0 <= i < pending.len() ==> signatures_of(pending)[i] == pending[i].signature,
{
}

/// No event changes what a run was started with.
pub proof fn law_settings_stay(state: SendModel, event: SendEvent)
    ensures
        state.after(event).dry_run == state.dry_run,
        state.after(event).commitment == state.commitment,
        state.after(event).total == state.total,
{
}

} // verus!
