//! The vote accounts of the validators.
use vstd::prelude::*;

use crate::keys::Pubkey;
use crate::outside::{parse_pubkey, pubkey_of_text};
use crate::totals::{checked_total, total};

verus! {

/// A vote account as a node reports it.
#[derive(Clone, Debug)]
pub struct RpcVoteAccountInfo {
    /// The identity of the validator, in base 58.
    pub node_pubkey: String,
    /// The address of the vote account, in base 58.
    pub vote_pubkey: String,
    pub activated_stake: u64,
    pub commission: u8,
    /// The slot of the last vote.
    pub last_vote: u64,
    /// For some epochs: the epoch, the credits at its end and the credits before it.
    pub epoch_credits: Vec<(u64, u64, u64)>,
}

/// The vote account of a validator.
#[derive(Clone, Copy, Debug, PartialEq, Eq)]
pub struct VoteAccountInfo {
    pub identity: Pubkey,
    pub vote_address: Pubkey,
    pub commission: u8,
    pub active_stake: u64,
    /// The credits earned in the epoch.
    pub epoch_credits: u64,
}

/// The vote accounts of the validators, and the stakes of all vote accounts.
pub struct VoteAccounts {
    pub accounts: Vec<VoteAccountInfo>,
    pub total_active_stake: u64,
    pub active_stakes: Vec<u64>,
}

/// Why the reported vote accounts are of no use.
#[derive(Clone, Copy, Debug, PartialEq, Eq)]
pub enum VoteAccountError {
    /// The stakes sum to more than 64 bits hold.
    StakeOverflow,
    /// The identity or the address of a selected vote account is no key.
    InvalidPubkey,
}

/// The credits earned in an epoch, by the first entry for it: zero without an entry.
pub open spec fn credits_in(entries: Seq<(u64, u64, u64)>, epoch: u64) -> u64
    decreases entries.len(),
{
    if entries.len() == 0 {
        0
    } else if entries.first().0 == epoch {
        if entries.first().1 >= entries.first().2 {
            (entries.first().1 - entries.first().2) as u64
        } else {
            0
        }
    } else {
        credits_in(entries.drop_first(), epoch)
    }
}

/// The credits earned in an epoch are what the first entry for it gained over the credits
/// before, and nothing where it lost.
pub proof fn law_credits_of_first_entry(entries: Seq<(u64, u64, u64)>, epoch: u64, i: int)
    requires
        0 <= i < entries.len(),
        entries[i].0 == epoch,
        forall|j: int| 0 <= j < i ==> (#[trigger] entries[j]).0 != epoch,
    ensures
        entries[i].1 >= entries[i].2 ==> credits_in(entries, epoch) + entries[i].2 == entries[i].1,
        entries[i].1 < entries[i].2 ==> credits_in(entries, epoch) == 0,
    decreases entries.len(),
{
    if i > 0 {
        assert(entries[0].0 != epoch);
        let rest = entries.drop_first();
        assert forall|j: int| 0 <= j < i - 1 implies (#[trigger] rest[j]).0 != epoch by {
            assert(rest[j] == entries[j + 1]);
        }
        law_credits_of_first_entry(rest, epoch, i - 1);
    }
}

/// Without an entry for an epoch no credits were earned in it.
pub proof fn law_no_entry_no_credits(entries: Seq<(u64, u64, u64)>, epoch: u64)
    requires
        forall|j: int| 0 <= j < entries.len() ==> (#[trigger] entries[j]).0 != epoch,
    ensures
        credits_in(entries, epoch) == 0,
    decreases entries.len(),
{
    if entries.len() > 0 {
        assert(entries[0].0 != epoch);
        let rest = entries.drop_first();
        assert forall|j: int| 0 <= j < rest.len() implies (#[trigger] rest[j]).0 != epoch by {
            assert(rest[j] == entries[j + 1]);
        }
        law_no_entry_no_credits(rest, epoch);
    }
}

/// Looks up the credits earned in an epoch.
pub fn epoch_credits(entries: &Vec<(u64, u64, u64)>, epoch: u64) -> (credits: u64)
    ensures
        credits == credits_in(entries@, epoch),
        forall|i: int|
            {
                &&& 0 <= i < entries.len()
                &&& (#[trigger] entries[i]).0 == epoch
                &&& forall|j: int| 0 <= j < i ==> (#[trigger] entries[j]).0 != epoch
            } ==> credits == if entries[i].1 >= entries[i].2 {
                entries[i].1 - entries[i].2
            } else {
                0
            },
        (forall|j: int| 0 <= j < entries.len() ==> (#[trigger] entries[j]).0 != epoch) ==> credits
            == 0,
{
    proof {
        assert forall|i: int|
            {
                &&& 0 <= i < entries.len()
                &&& (#[trigger] entries[i]).0 == epoch
                &&& forall|j: int| 0 <= j < i ==> (#[trigger] entries[j]).0 != epoch
            } implies credits_in(entries@, epoch) == if entries[i].1 >= entries[i].2 {
            entries[i].1 - entries[i].2
        } else {
            0
        } by {
            law_credits_of_first_entry(entries@, epoch, i);
        }
        if forall|j: int| 0 <= j < entries.len() ==> (#[trigger] entries[j]).0 != epoch {
            law_no_entry_no_credits(entries@, epoch);
        }
    }
    scan_credits(entries, epoch)
}

/// Goes through the entries up to the first for an epoch.
fn scan_credits(entries: &Vec<(u64, u64, u64)>, epoch: u64) -> (credits: u64)
    ensures
        credits == credits_in(entries@, epoch),
{
    let mut i: usize = 0;
    assert(entries@.skip(0) =~= entries@);
    while i < entries.len()
        invariant
            i <= entries.len(),
            credits_in(entries@, epoch) == credits_in(entries@.skip(i as int), epoch),
        decreases entries.len() - i,
    {
        let entry = entries[i];
        if entry.0 == epoch {
            return entry.1.saturating_sub(entry.2);
        }
        assert(entries@.skip(i as int).drop_first() =~= entries@.skip(i + 1));
        i += 1;
    }
    0
}

/// Two vote accounts belong to one validator.
pub open spec fn same_node(a: RpcVoteAccountInfo, b: RpcVoteAccountInfo) -> bool {
    a.node_pubkey@ == b.node_pubkey@
}

/// Of the first `n` vote accounts, account `i` is the one of its validator that voted
/// most recently, the earliest in the list among equals.
pub open spec fn most_recent(accounts: Seq<RpcVoteAccountInfo>, n: int, i: int) -> bool {
    &&& 0 <= i < n
    &&& forall|j: int|
        0 <= j < n && same_node(#[trigger] accounts[j], accounts[i]) ==> accounts[j].last_vote
            < accounts[i].last_vote || (accounts[j].last_vote == accounts[i].last_vote && i <= j)
}

/// A validator has a vote account before position `j`.
pub open spec fn seen_before(
    accounts: Seq<RpcVoteAccountInfo>,
    node: RpcVoteAccountInfo,
    j: int,
) -> bool {
    exists|f: int| 0 <= f < j && same_node(#[trigger] accounts[f], node)
}

/// The validator of account `j` has a selected account.
pub open spec fn represented(
    accounts: Seq<RpcVoteAccountInfo>,
    selected: Seq<usize>,
    j: int,
) -> bool {
    exists|k: int|
        0 <= k < selected.len() && same_node(accounts[#[trigger] selected[k] as int], accounts[j])
}

/// Of the first `n` vote accounts, the first of the validator of account `a` comes before
/// all of the validator of account `b`.
#[verifier::opaque]
pub open spec fn opens_before(accounts: Seq<RpcVoteAccountInfo>, n: int, a: int, b: int) -> bool {
    forall|j: int|
        0 <= j < n && same_node(#[trigger] accounts[j], accounts[b]) ==> seen_before(
            accounts,
            accounts[a],
            j,
        )
}

/// `selected` names, for each validator of the first `n` vote accounts, the account that
/// voted most recently; validators stand in the order of their first account.
pub open spec fn selects_most_recent(
    accounts: Seq<RpcVoteAccountInfo>,
    n: int,
    selected: Seq<usize>,
) -> bool {
    &&& forall|k: int|
        0 <= k < selected.len() ==> most_recent(accounts, n, #[trigger] selected[k] as int)
    &&& forall|j: int| 0 <= j < n ==> #[trigger] represented(accounts, selected, j)
    &&& forall|a: int, b: int|
        #![trigger selected[a], selected[b]]
        0 <= a < b < selected.len() ==> {
            &&& !same_node(accounts[selected[a] as int], accounts[selected[b] as int])
            &&& opens_before(accounts, n, selected[a] as int, selected[b] as int)
        }
}

/// Selects, for each validator, the vote account that voted most recently.
pub fn latest_vote_accounts(accounts: &Vec<RpcVoteAccountInfo>) -> (selected: Vec<usize>)
    ensures
        selects_most_recent(accounts@, accounts.len() as int, selected@),
        forall|k: int, j: int|
            0 <= k < selected.len() && 0 <= j < accounts.len()
                && (#[trigger] accounts[j]).node_pubkey@ == accounts[(#[trigger] selected[k]) as int].node_pubkey@
                ==> accounts[j].last_vote <= accounts[selected[k] as int].last_vote,
{
    let mut selected: Vec<usize> = Vec::new();
    let mut i: usize = 0;
    while i < accounts.len()
        invariant
            i <= accounts.len(),
            selects_most_recent(accounts@, i as int, selected@),
        decreases accounts.len() - i,
    {
        let ghost before = selected@;
        let mut k: usize = 0;
        while k < selected.len() && accounts[selected[k]].node_pubkey != accounts[i].node_pubkey
            invariant
                i < accounts.len(),
                selects_most_recent(accounts@, i as int, selected@),
                k <= selected.len(),
                forall|a: int|
                    0 <= a < k ==> !same_node(
                        accounts[#[trigger] selected[a] as int],
                        accounts[i as int],
                    ),
            decreases selected.len() - k,
        {
            k += 1;
        }
        if k < selected.len() {
            if accounts[selected[k]].last_vote < accounts[i].last_vote {
                selected[k] = i;
            }
        } else {
            selected.push(i);
        }
        proof {
            lemma_selection_step(accounts@, i as int, before, k as int, selected@);
        }
        i += 1;
    }
    selected
}

/// One more vote account keeps the selection right.
#[verifier::spinoff_prover]
proof fn lemma_selection_step(
    accounts: Seq<RpcVoteAccountInfo>,
    i: int,
    before: Seq<usize>,
    k: int,
    after: Seq<usize>,
)
    requires
        0 <= i < accounts.len() <= usize::MAX,
        selects_most_recent(accounts, i, before),
        0 <= k <= before.len(),
        forall|a: int|
            0 <= a < k ==> !same_node(accounts[#[trigger] before[a] as int], accounts[i]),
        k < before.len() ==> same_node(accounts[before[k] as int], accounts[i]),
        after == if k < before.len() {
            if accounts[before[k] as int].last_vote < accounts[i].last_vote {
                before.update(k, i as usize)
            } else {
                before
            }
        } else {
            before.push(i as usize)
        },
    ensures
        selects_most_recent(accounts, i + 1, after),
{
    let n = i + 1;
    if k == before.len() {
        assert forall|j: int| 0 <= j < i implies !same_node(#[trigger] accounts[j], accounts[i]) by {
            assert(represented(accounts, before, j));
            let b = choose|b: int|
                0 <= b < before.len() && same_node(
                    accounts[#[trigger] before[b] as int],
                    accounts[j],
                );
            assert(!same_node(accounts[before[b] as int], accounts[i]));
        }
    }
    assert forall|a: int| 0 <= a < before.len() implies same_node(
        accounts[#[trigger] before[a] as int],
        accounts[after[a] as int],
    ) by {}
    assert forall|a: int| 0 <= a < after.len() implies most_recent(
        accounts,
        n,
        #[trigger] after[a] as int,
    ) by {
        if a < before.len() {
            assert(most_recent(accounts, i, before[a] as int));
            if a < k {
                assert(!same_node(accounts[before[a] as int], accounts[i]));
            } else if a > k {
                assert(!same_node(accounts[before[k] as int], accounts[before[a] as int]));
            }
        }
    }
    assert forall|j: int| 0 <= j < n implies #[trigger] represented(accounts, after, j) by {
        if j < i {
            assert(represented(accounts, before, j));
            let b = choose|b: int|
                0 <= b < before.len() && same_node(
                    accounts[#[trigger] before[b] as int],
                    accounts[j],
                );
            assert(same_node(accounts[after[b] as int], accounts[j]));
        } else {
            assert(same_node(accounts[after[k] as int], accounts[j]));
        }
    }
    assert forall|a: int, b: int|
        #![trigger after[a], after[b]]
        0 <= a < b < after.len() implies {
        &&& !same_node(accounts[after[a] as int], accounts[after[b] as int])
        &&& opens_before(accounts, n, after[a] as int, after[b] as int)
    } by {
        assert(same_node(accounts[before[a] as int], accounts[after[a] as int]));
        assert(most_recent(accounts, i, before[a] as int));
        if b < before.len() {
            assert(!same_node(accounts[before[a] as int], accounts[before[b] as int]));
            assert(opens_before(accounts, i, before[a] as int, before[b] as int));
        } else {
            assert(!same_node(accounts[before[a] as int], accounts[i]));
        }
        assert forall|j: int|
            0 <= j < n && same_node(#[trigger] accounts[j], accounts[after[b] as int])
                implies seen_before(accounts, accounts[after[a] as int], j) by {
            if j < i {
                assert(b < before.len());
                lemma_opens_before(accounts, i, before[a] as int, before[b] as int, j);
                let f = choose|f: int|
                    0 <= f < j && same_node(
                        #[trigger] accounts[f],
                        accounts[before[a] as int],
                    );
                assert(same_node(accounts[f], accounts[after[a] as int]));
            } else {
                assert(same_node(accounts[before[a] as int], accounts[after[a] as int]));
            }
        }
        reveal(opens_before);
    }
}

/// What it means that one validator opens before another, for one account.
proof fn lemma_opens_before(accounts: Seq<RpcVoteAccountInfo>, n: int, a: int, b: int, j: int)
    requires
        opens_before(accounts, n, a, b),
        0 <= j < n,
        same_node(accounts[j], accounts[b]),
    ensures
        seen_before(accounts, accounts[a], j),
{
    reveal(opens_before);
}

/// Of two validators at most one opens before the other.
proof fn lemma_no_mutual_order(
    accounts: Seq<RpcVoteAccountInfo>,
    n: int,
    a: int,
    b: int,
    c: int,
    d: int,
    j: int,
)
    requires
        0 <= j < n,
        opens_before(accounts, n, a, b),
        opens_before(accounts, n, c, d),
        same_node(accounts[d], accounts[a]),
        same_node(accounts[b], accounts[c]),
    ensures
        !same_node(accounts[j], accounts[b]),
    decreases j,
{
    if same_node(accounts[j], accounts[b]) {
        lemma_opens_before(accounts, n, a, b, j);
        let f = choose|f: int| 0 <= f < j && same_node(#[trigger] accounts[f], accounts[a]);
        lemma_opens_before(accounts, n, c, d, f);
        let g = choose|g: int| 0 <= g < f && same_node(#[trigger] accounts[g], accounts[c]);
        lemma_no_mutual_order(accounts, n, a, b, c, d, g);
    }
}

/// The vote accounts have one selection: which account of each validator, and in which
/// order.
pub proof fn law_selection_is_unique(
    accounts: Seq<RpcVoteAccountInfo>,
    s: Seq<usize>,
    t: Seq<usize>,
)
    requires
        selects_most_recent(accounts, accounts.len() as int, s),
        selects_most_recent(accounts, accounts.len() as int, t),
    ensures
        s == t,
{
    lemma_common_prefix(accounts, s, t, s.len() as int);
    lemma_common_prefix(accounts, t, s, t.len() as int);
    assert(s =~= t);
}

#[verifier::spinoff_prover]
proof fn lemma_common_prefix(
    accounts: Seq<RpcVoteAccountInfo>,
    s: Seq<usize>,
    t: Seq<usize>,
    k: int,
)
    requires
        selects_most_recent(accounts, accounts.len() as int, s),
        selects_most_recent(accounts, accounts.len() as int, t),
        0 <= k <= s.len(),
    ensures
        k <= t.len(),
        forall|i: int| 0 <= i < k ==> s[i] == t[i],
    decreases k,
{
    if k > 0 {
        let i = k - 1;
        lemma_common_prefix(accounts, s, t, i);
        let n = accounts.len() as int;
        let x = s[i] as int;
        assert(most_recent(accounts, n, x));
        assert(represented(accounts, t, x));
        let m = choose|m: int|
            0 <= m < t.len() && same_node(accounts[#[trigger] t[m] as int], accounts[x]);
        assert(m >= i) by {
            if m < i {
                assert(s[m] == t[m]);
                assert(!same_node(accounts[s[m] as int], accounts[s[i] as int]));
            }
        }
        let y = t[i] as int;
        assert(most_recent(accounts, n, y));
        if m > i {
            assert(represented(accounts, s, y));
            let l = choose|l: int|
                0 <= l < s.len() && same_node(accounts[#[trigger] s[l] as int], accounts[y]);
            assert(l > i) by {
                if l < i {
                    assert(s[l] == t[l]);
                    assert(!same_node(accounts[t[l] as int], accounts[t[i] as int]));
                } else if l == i {
                    assert(!same_node(accounts[t[i] as int], accounts[t[m] as int]));
                }
            }
            assert(opens_before(accounts, n, t[i] as int, t[m] as int));
            assert(opens_before(accounts, n, s[i] as int, s[l] as int));
            lemma_no_mutual_order(
                accounts,
                n,
                t[i] as int,
                t[m] as int,
                s[i] as int,
                s[l] as int,
                x,
            );
        }
        assert(same_node(accounts[y], accounts[x]));
    }
}

/// `info` describes a vote account under the given keys.
pub open spec fn describes(
    info: VoteAccountInfo,
    account: RpcVoteAccountInfo,
    epoch: u64,
    identity: Seq<u8>,
    vote_address: Seq<u8>,
) -> bool {
    &&& info.identity@ == identity
    &&& info.vote_address@ == vote_address
    &&& info.commission == account.commission
    &&& info.active_stake == account.activated_stake
    &&& info.epoch_credits == credits_in(account.epoch_credits@, epoch)
}

/// Describes a vote account whose keys are known.
pub fn vote_account_info(
    account: &RpcVoteAccountInfo,
    epoch: u64,
    identity: Pubkey,
    vote_address: Pubkey,
) -> (info: VoteAccountInfo)
    ensures
        describes(info, *account, epoch, identity@, vote_address@),
{
    VoteAccountInfo {
        identity,
        vote_address,
        commission: account.commission,
        active_stake: account.activated_stake,
        epoch_credits: epoch_credits(&account.epoch_credits, epoch),
    }
}

/// The stakes of the vote accounts, in their order.
pub open spec fn stakes_of(accounts: Seq<RpcVoteAccountInfo>) -> Seq<u64> {
    accounts.map_values(|account: RpcVoteAccountInfo| account.activated_stake)
}

/// The identity and the address of a vote account are keys.
pub open spec fn has_keys(account: RpcVoteAccountInfo) -> bool {
    &&& pubkey_of_text(account.node_pubkey@) is Some
    &&& pubkey_of_text(account.vote_pubkey@) is Some
}

/// `r` is what the vote accounts say of an epoch, given the accounts that are selected.
pub open spec fn summarizes(
    accounts: Seq<RpcVoteAccountInfo>,
    selected: Seq<usize>,
    epoch: u64,
    r: Result<VoteAccounts, VoteAccountError>,
) -> bool {
    match r {
        Err(VoteAccountError::StakeOverflow) => total(stakes_of(accounts)) > u64::MAX,
        Err(VoteAccountError::InvalidPubkey) => {
            &&& total(stakes_of(accounts)) <= u64::MAX
            &&& exists|k: int|
                0 <= k < selected.len() && !has_keys(accounts[#[trigger] selected[k] as int])
        },
        Ok(summary) => {
            &&& summary.active_stakes@ == stakes_of(accounts)
            &&& summary.total_active_stake == total(stakes_of(accounts))
            &&& summary.accounts.len() == selected.len()
            &&& forall|k: int|
                0 <= k < selected.len() ==> {
                    let account = accounts[#[trigger] selected[k] as int];
                    &&& has_keys(account)
                    &&& describes(
                        summary.accounts[k],
                        account,
                        epoch,
                        pubkey_of_text(account.node_pubkey@).unwrap(),
                        pubkey_of_text(account.vote_pubkey@).unwrap(),
                    )
                }
        },
    }
}

/// The vote account of each validator, with the credits it earned in an epoch, and the
/// stakes of all vote accounts. The current accounts come before the delinquent ones.
pub fn get_vote_account_info(
    current: Vec<RpcVoteAccountInfo>,
    delinquent: Vec<RpcVoteAccountInfo>,
    epoch: u64,
) -> (r: Result<VoteAccounts, VoteAccountError>)
    ensures
        exists|selected: Seq<usize>|
            {
                &&& #[trigger] selects_most_recent(
                    current@ + delinquent@,
                    (current@ + delinquent@).len() as int,
                    selected,
                )
                &&& summarizes(current@ + delinquent@, selected, epoch, r)
            },
{
    let mut accounts = current;
    let mut others = delinquent;
    accounts.append(&mut others);
    let mut active_stakes: Vec<u64> = Vec::new();
    let mut i: usize = 0;
    while i < accounts.len()
        invariant
            i <= accounts.len(),
            active_stakes@ == stakes_of(accounts@).take(i as int),
        decreases accounts.len() - i,
    {
        active_stakes.push(accounts[i].activated_stake);
        i += 1;
        assert(active_stakes@ =~= stakes_of(accounts@).take(i as int));
    }
    assert(active_stakes@ =~= stakes_of(accounts@));
    let selected = latest_vote_accounts(&accounts);
    let total_active_stake = match checked_total(&active_stakes) {
        Some(sum) => sum,
        None => {
            return Err(VoteAccountError::StakeOverflow);
        },
    };
    let mut infos: Vec<VoteAccountInfo> = Vec::new();
    let mut k: usize = 0;
    while k < selected.len()
        invariant
            k <= selected.len(),
            selects_most_recent(accounts@, accounts.len() as int, selected@),
            total(stakes_of(accounts@)) <= u64::MAX,
            accounts@ == current@ + delinquent@,
            infos.len() == k,
            forall|a: int|
                0 <= a < k ==> {
                    let account = accounts[#[trigger] selected[a] as int];
                    &&& has_keys(account)
                    &&& describes(
                        infos[a],
                        account,
                        epoch,
                        pubkey_of_text(account.node_pubkey@).unwrap(),
                        pubkey_of_text(account.vote_pubkey@).unwrap(),
                    )
                },
        decreases selected.len() - k,
    {
        let account = &accounts[selected[k]];
        let identity = parse_pubkey(account.node_pubkey.as_str());
        let vote_address = parse_pubkey(account.vote_pubkey.as_str());
        match (identity, vote_address) {
            (Some(identity), Some(vote_address)) => {
                infos.push(vote_account_info(account, epoch, identity, vote_address));
            },
            _ => {
                assert(!has_keys(accounts[selected@[k as int] as int]));
                return Err(VoteAccountError::InvalidPubkey);
            },
        }
        k += 1;
    }
    Ok(VoteAccounts { accounts: infos, total_active_stake, active_stakes })
}

/// A selected vote account is one of the list, and no vote account of the same validator
/// voted more recently, nor as recently before it in the list.
pub proof fn law_selected_voted_most_recently(
    accounts: Seq<RpcVoteAccountInfo>,
    selected: Seq<usize>,
    k: int,
    j: int,
)
    requires
        selects_most_recent(accounts, accounts.len() as int, selected),
        0 <= k < selected.len(),
        0 <= j < accounts.len(),
        accounts[j].node_pubkey@ == accounts[selected[k] as int].node_pubkey@,
    ensures
        selected[k] < accounts.len(),
        accounts[j].last_vote <= accounts[selected[k] as int].last_vote,
        accounts[j].last_vote == accounts[selected[k] as int].last_vote ==> selected[k] <= j,
{
    assert(most_recent(accounts, accounts.len() as int, selected[k] as int));
    assert(same_node(accounts[j], accounts[selected[k] as int]));
}

/// Every validator has exactly one selected vote account.
pub proof fn law_every_validator_is_selected_once(
    accounts: Seq<RpcVoteAccountInfo>,
    selected: Seq<usize>,
    j: int,
) -> (k: int)
    requires
        selects_most_recent(accounts, accounts.len() as int, selected),
        0 <= j < accounts.len(),
    ensures
        0 <= k < selected.len(),
        accounts[selected[k] as int].node_pubkey@ == accounts[j].node_pubkey@,
        forall|l: int|
            0 <= l < selected.len() && accounts[(#[trigger] selected[l]) as int].node_pubkey@
                == accounts[j].node_pubkey@ ==> l == k,
{
    assert(represented(accounts, selected, j));
    let k = choose|k: int|
        0 <= k < selected.len() && same_node(accounts[#[trigger] selected[k] as int], accounts[j]);
    assert forall|l: int|
        0 <= l < selected.len() && accounts[(#[trigger] selected[l]) as int].node_pubkey@
            == accounts[j].node_pubkey@ implies l == k by {
        if l < k {
            assert(!same_node(accounts[selected[l] as int], accounts[selected[k] as int]));
        } else if k < l {
            assert(!same_node(accounts[selected[k] as int], accounts[selected[l] as int]));
        }
    }
    k
}

/// What is told of a selected vote account is what was reported of it: the keys that its
/// texts give, its commission and its stake, and the credits which the first entry for the
/// epoch gained.
pub proof fn law_summary_tells_what_was_reported(
    accounts: Seq<RpcVoteAccountInfo>,
    selected: Seq<usize>,
    epoch: u64,
    summary: VoteAccounts,
    k: int,
    i: int,
)
    requires
        summarizes(accounts, selected, epoch, Ok(summary)),
        0 <= k < selected.len(),
    ensures
        ({
            let account = accounts[selected[k] as int];
            let entries = account.epoch_credits@;
            let info = summary.accounts@[k];
            &&& summary.accounts.len() == selected.len()
            &&& pubkey_of_text(account.node_pubkey@) == Some(info.identity@)
            &&& pubkey_of_text(account.vote_pubkey@) == Some(info.vote_address@)
            &&& info.commission == account.commission
            &&& info.active_stake == account.activated_stake
            &&& {
                &&& 0 <= i < entries.len()
                &&& entries[i].0 == epoch
                &&& forall|j: int| 0 <= j < i ==> (#[trigger] entries[j]).0 != epoch
            } ==> info.epoch_credits == if entries[i].1 >= entries[i].2 {
                entries[i].1 - entries[i].2
            } else {
                0
            }
            &&& (forall|j: int| 0 <= j < entries.len() ==> (#[trigger] entries[j]).0 != epoch)
                ==> info.epoch_credits == 0
        }),
{
    let account = accounts[selected[k] as int];
    let entries = account.epoch_credits@;
    assert(has_keys(account));
    if {
        &&& 0 <= i < entries.len()
        &&& entries[i].0 == epoch
        &&& forall|j: int| 0 <= j < i ==> (#[trigger] entries[j]).0 != epoch
    } {
        law_credits_of_first_entry(entries, epoch, i);
    }
    if forall|j: int| 0 <= j < entries.len() ==> (#[trigger] entries[j]).0 != epoch {
        law_no_entry_no_credits(entries, epoch);
    }
}

/// The stakes are those of all vote accounts, in their order, and their sum is told where it
/// fits in 64 bits, which alone decides about the overflow.
pub proof fn law_stakes_of_all(
    accounts: Seq<RpcVoteAccountInfo>,
    selected: Seq<usize>,
    epoch: u64,
    r: Result<VoteAccounts, VoteAccountError>,
    stakes: Seq<u64>,
)
    requires
        summarizes(accounts, selected, epoch, r),
        stakes.len() == accounts.len(),
        forall|i: int| 0 <= i < stakes.len() ==> #[trigger] stakes[i] == accounts[i].activated_stake,
    ensures
        r is Err && r->Err_0 is StakeOverflow <==> total(stakes) > 0xffff_ffff_ffff_ffff,
        r matches Ok(summary) ==> summary.active_stakes@ == stakes && summary.total_active_stake
            == total(stakes),
        r is Err && r->Err_0 is InvalidPubkey <==> total(stakes) <= 0xffff_ffff_ffff_ffff && exists|
            k: int,
        |
            #![trigger selected[k]]
            0 <= k < selected.len() && (pubkey_of_text(
                accounts[selected[k] as int].node_pubkey@,
            ) is None || pubkey_of_text(accounts[selected[k] as int].vote_pubkey@) is None),
{
    assert(stakes_of(accounts) =~= stakes);
    if total(stakes) <= u64::MAX {
        assert forall|k: int| 0 <= k < selected.len() implies has_keys(
            accounts[#[trigger] selected[k] as int],
        ) == !(pubkey_of_text(accounts[selected[k] as int].node_pubkey@) is None || pubkey_of_text(
            accounts[selected[k] as int].vote_pubkey@,
        ) is None) by {}
    }
}

} // verus!
