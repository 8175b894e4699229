//! The classification of validators in an epoch, and the search for the classification
//! of an earlier epoch.
use std::collections::HashMap;

use vstd::prelude::*;

use crate::decimal::{numeral, numeral_value};
use crate::epoch_files::{
    captured_epoch, epoch_digits, epoch_file_name, file_name, file_name_epoch, is_plain,
    law_epoch_in_a_name, law_file_name_round_trip, law_other_names_are_passed_over, FileNameEpoch,
    EPOCH_FILE_PATTERN,
};
use crate::keys::{Key, Pubkey};
use crate::outside::regex_capture;

verus! {

/// A double-precision number as its IEEE 754 bit pattern. The library hands such numbers
/// on and does not compute with them.
#[derive(Clone, Copy, Debug, Default, PartialEq, Eq)]
pub struct Float64 {
    pub bits: u64,
}

/// A data center: an autonomous system and a place.
#[derive(Clone, Debug, Default, PartialEq, Eq, Hash)]
pub struct DataCenterId {
    pub asn: u64,
    pub location: String,
}

/// What was observed of a data center.
#[derive(Clone, Debug, Default)]
pub struct DataCenterInfo {
    pub id: DataCenterId,
    pub stake: u64,
    pub stake_percent: Float64,
    pub validators: Vec<Pubkey>,
}

/// The stake that a validator receives.
#[derive(Clone, Copy, Debug, PartialEq, Eq, Structural)]
pub enum ValidatorStakeState {
    /// No stake.
    Unstaked,
    Baseline,
    Bonus,
}

impl Default for ValidatorStakeState {
    fn default() -> (state: Self)
        ensures
            state is Unstaked,
    {
        ValidatorStakeState::Unstaked
    }
}

/// Groups that a validator belongs to which change its score.
#[derive(Clone, Copy, Debug, Default, PartialEq, Eq)]
pub struct ScoreDiscounts {
    pub can_halt_the_network_group: bool,
    pub is_registered_delegation_group: bool,
}

/// What a validator publishes of itself.
#[derive(Clone, Debug, Default)]
pub struct ByIdentityInfo {
    pub data_center_id: DataCenterId,
    pub keybase_id: String,
    pub name: String,
    pub www_url: String,
    pub description: String,
    pub software_version: String,
}

/// The inflation reward of a validator in an epoch.
#[derive(Clone, Copy, Debug, Default, PartialEq, Eq)]
pub struct InflationRewardInfo {
    pub identity: Pubkey,
    pub effective_slot: u64,
    pub post_balance: Float64,
    pub amount: Float64,
    pub apy: Float64,
}

/// What the score of a validator is computed from.
#[derive(Clone, Debug, Default)]
pub struct ScoreData {
    /// The credits of the epoch: the base score.
    pub epoch_credits: u64,
    pub adj_credits: u64,
    /// 50 is the average, 0 the worst, 100 twice the average.
    pub average_position: Float64,
    pub score_discounts: ScoreDiscounts,
    pub commission: u8,
    pub active_stake: u64,
    pub data_center_concentration: Float64,
    pub validators_app_info: ByIdentityInfo,
    pub total_active_stake: u64,
    pub mean_active_stake: u64,
    pub std_active_stake: u64,
    pub inflation_reward: Option<InflationRewardInfo>,
}

/// The limits and the bonus that scoring takes from the configuration.
#[derive(Clone, Copy, Debug, PartialEq, Eq)]
pub struct Config {
    pub score_min_stake: u64,
    pub score_max_commission: u8,
    pub score_registered_validator_bonus: u32,
}

/// The whole numbers that enter the score of a validator which passes every limit.
#[derive(Clone, Copy, Debug, PartialEq, Eq)]
pub struct ScoreTerms {
    pub epoch_credits: u64,
    /// Percentage points lost to the commission.
    pub commission_discount: u8,
    /// Fifty times the active stake, to be related to the spread of stakes.
    pub scaled_active_stake: u64,
    /// Percentage points won by taking part in the delegation program.
    pub validator_program_bonus: u32,
}

impl ScoreData {
    /// The validator is refused: it belongs to a group that can halt the network, has
    /// too little stake, is too far below the average, takes too high a commission, or
    /// has no reward in an epoch in which rewards are known.
    pub open spec fn is_disqualified(
        &self,
        config: Config,
        is_reward_missing: bool,
        below_min_position: bool,
    ) -> bool {
        ||| self.score_discounts.can_halt_the_network_group
        ||| self.active_stake < config.score_min_stake
        ||| below_min_position
        ||| self.commission > config.score_max_commission
        ||| !is_reward_missing && self.inflation_reward is None
    }

    /// Tells whether the score is zero whatever the credits. `below_min_position` says
    /// that the average position lies below the configured minimum.
    pub fn disqualified(
        &self,
        config: &Config,
        is_reward_missing: bool,
        below_min_position: bool,
    ) -> (r: bool)
        ensures
            r == self.is_disqualified(*config, is_reward_missing, below_min_position),
            self.score_discounts.can_halt_the_network_group ==> r,
            self.active_stake < config.score_min_stake ==> r,
            below_min_position ==> r,
            self.commission > config.score_max_commission ==> r,
            self.inflation_reward is None && !is_reward_missing ==> r,
            r ==> {
                ||| self.score_discounts.can_halt_the_network_group
                ||| self.active_stake < config.score_min_stake
                ||| below_min_position
                ||| self.commission > config.score_max_commission
                ||| self.inflation_reward is None && !is_reward_missing
            },
    {
        self.score_discounts.can_halt_the_network_group || self.active_stake
            < config.score_min_stake || below_min_position || self.commission
            > config.score_max_commission || (!is_reward_missing
            && self.inflation_reward.is_none())
    }

    /// The terms of the score, or `None` where the score is zero.
    pub fn score(
        &self,
        config: &Config,
        is_reward_missing: bool,
        below_min_position: bool,
    ) -> (r: Option<ScoreTerms>)
        requires
            self.is_disqualified(*config, is_reward_missing, below_min_position)
                || self.active_stake * 50 <= u64::MAX,
        ensures
            r == if self.is_disqualified(*config, is_reward_missing, below_min_position) {
                None
            } else {
                Some(
                    ScoreTerms {
                        epoch_credits: self.epoch_credits,
                        commission_discount: self.commission,
                        scaled_active_stake: (self.active_stake * 50) as u64,
                        validator_program_bonus: if
                            self.score_discounts.is_registered_delegation_group {
                            config.score_registered_validator_bonus
                        } else {
                            0
                        },
                    },
                )
            },
            r is None <==> {
                ||| self.score_discounts.can_halt_the_network_group
                ||| self.active_stake < config.score_min_stake
                ||| below_min_position
                ||| self.commission > config.score_max_commission
                ||| self.inflation_reward is None && !is_reward_missing
            },
            r matches Some(terms) ==> {
                &&& terms.epoch_credits == self.epoch_credits
                &&& terms.commission_discount == self.commission
                &&& terms.scaled_active_stake == 50 * self.active_stake
                &&& self.score_discounts.is_registered_delegation_group
                    ==> terms.validator_program_bonus == config.score_registered_validator_bonus
                &&& !self.score_discounts.is_registered_delegation_group
                    ==> terms.validator_program_bonus == 0
            },
    {
        if self.disqualified(config, is_reward_missing, below_min_position) {
            None
        } else {
            Some(
                ScoreTerms {
                    epoch_credits: self.epoch_credits,
                    commission_discount: self.commission,
                    scaled_active_stake: self.active_stake * 50,
                    validator_program_bonus: if self.score_discounts.is_registered_delegation_group {
                        config.score_registered_validator_bonus
                    } else {
                        0
                    },
                },
            )
        }
    }
}

/// Each limit of the configuration disqualifies the validator that breaks it, and one within
/// every limit is not disqualified.
pub proof fn law_limits_disqualify(
    data: ScoreData,
    config: Config,
    is_reward_missing: bool,
    below_min_position: bool,
)
    ensures
        data.commission > config.score_max_commission ==> data.is_disqualified(
            config,
            is_reward_missing,
            below_min_position,
        ),
        data.active_stake < config.score_min_stake ==> data.is_disqualified(
            config,
            is_reward_missing,
            below_min_position,
        ),
        data.score_discounts.can_halt_the_network_group ==> data.is_disqualified(
            config,
            is_reward_missing,
            below_min_position,
        ),
        below_min_position ==> data.is_disqualified(
            config,
            is_reward_missing,
            below_min_position,
        ),
        data.inflation_reward is None && !is_reward_missing ==> data.is_disqualified(
            config,
            is_reward_missing,
            below_min_position,
        ),
        data.commission <= config.score_max_commission && data.active_stake
            >= config.score_min_stake && !data.score_discounts.can_halt_the_network_group
            && !below_min_position && (data.inflation_reward is Some || is_reward_missing)
            ==> !data.is_disqualified(config, is_reward_missing, below_min_position),
{
}

/// Looser limits disqualify no more: where a validator passes, it passes with a higher
/// maximal commission and a lower minimal stake too.
pub proof fn law_looser_limits_disqualify_no_more(
    data: ScoreData,
    config: Config,
    looser: Config,
    is_reward_missing: bool,
    below_min_position: bool,
)
    requires
        looser.score_max_commission >= config.score_max_commission,
        looser.score_min_stake <= config.score_min_stake,
        !data.is_disqualified(config, is_reward_missing, below_min_position),
    ensures
        !data.is_disqualified(looser, is_reward_missing, below_min_position),
        !data.is_disqualified(looser, true, below_min_position),
{
}

/// How a validator is classified in an epoch.
#[derive(Clone, Debug)]
pub struct ValidatorClassification {
    pub identity: Pubkey,
    pub vote_address: Pubkey,
    pub stake_state: ValidatorStakeState,
    pub stake_state_reason: String,
    pub score_data: Option<ScoreData>,
    /// What was done in this epoch to move the validator's stake.
    pub stake_action: Option<String>,
    /// The stake states so far with their reasons, newest first, the current one included.
    pub stake_states: Option<Vec<(ValidatorStakeState, String)>>,
    pub notes: Vec<String>,
    /// How often the validator was observed in each data center.
    pub data_center_residency: Option<HashMap<DataCenterId, usize>>,
    pub current_data_center: Option<DataCenterId>,
    /// The participant of the staking program that runs the validator.
    pub participant: Option<Pubkey>,
    /// The validator was not funded this epoch and comes first in the next.
    pub prioritize_funding_in_next_epoch: Option<bool>,
}

impl Default for ValidatorClassification {
    fn default() -> (r: Self)
        ensures
            r.identity@ == Seq::new(32, |i: int| 0u8),
            r.vote_address@ == Seq::new(32, |i: int| 0u8),
            r.stake_state is Unstaked,
            r.stake_state_reason@.len() == 0,
            r.score_data is None,
            r.stake_action is None,
            r.stake_states is None,
            r.notes.len() == 0,
            r.data_center_residency is None,
            r.current_data_center is None,
            r.participant is None,
            r.prioritize_funding_in_next_epoch is None,
    {
        ValidatorClassification {
            identity: Key::default(),
            vote_address: Key::default(),
            stake_state: ValidatorStakeState::Unstaked,
            stake_state_reason: String::new(),
            score_data: None,
            stake_action: None,
            stake_states: None,
            notes: Vec::new(),
            data_center_residency: None,
            current_data_center: None,
            participant: None,
            prioritize_funding_in_next_epoch: None,
        }
    }
}

/// How many of the given stake states grant stake.
pub open spec fn staked_count(states: Seq<(ValidatorStakeState, String)>) -> nat {
    states.filter(|state: (ValidatorStakeState, String)| !(state.0 is Unstaked)).len()
}

/// The first `m` items of a sequence, or all where there are fewer.
pub open spec fn newest<T>(items: Seq<T>, m: int) -> Seq<T> {
    if m <= items.len() {
        items.take(m)
    } else {
        items
    }
}

impl ValidatorClassification {
    /// For how many epochs, counted back from the newest, the stake state is the same:
    /// one where no history is known.
    pub fn stake_state_streak(&self) -> (streak: usize)
        ensures
            match self.stake_states {
                Some(states) if states.len() > 0 => {
                    &&& 1 <= streak <= states.len()
                    &&& forall|i: int|
                        0 <= i < streak ==> (#[trigger] states[i]).0 == states[0].0
                    &&& streak < states.len() ==> states[streak as int].0 != states[0].0
                },
                _ => streak == 1,
            },
    {
        let mut streak: usize = 1;
        if let Some(states) = &self.stake_states {
            while streak < states.len() && states[0].0 == states[streak].0
                invariant
                    1 <= streak,
                    states.len() > 0 ==> streak <= states.len(),
                    states.len() == 0 ==> streak == 1,
                    forall|i: int|
                        0 <= i < streak && i < states.len() ==> (#[trigger] states[i]).0
                            == states[0].0,
                decreases states.len() - streak,
            {
                streak += 1;
            }
        }
        streak
    }

    /// Tells whether the validator was staked in at least `n` of the last `m` epochs: no
    /// where no history is known.
    pub fn staked_for(&self, n: usize, m: usize) -> (r: bool)
        ensures
            r == match self.stake_states {
                Some(states) => staked_count(newest(states@, m as int)) >= n,
                None => false,
            },
            self.stake_states matches Some(states) ==> (m <= states.len() ==> r == (states@.take(
                m as int,
            ).filter(
                |state: (ValidatorStakeState, String)| state.0 != ValidatorStakeState::Unstaked,
            ).len() >= n)),
            self.stake_states matches Some(states) ==> (m >= states.len() ==> r == (states@.filter(
                |state: (ValidatorStakeState, String)| state.0 != ValidatorStakeState::Unstaked,
            ).len() >= n)),
            self.stake_states is None ==> !r,
    {
        match &self.stake_states {
            None => false,
            Some(states) => {
                let limit: usize = if m <= states.len() {
                    m
                } else {
                    states.len()
                };
                let mut count: usize = 0;
                let mut i: usize = 0;
                proof {
                    assert(states@.take(0) =~= Seq::empty());
                    reveal_with_fuel(Seq::filter, 1);
                }
                while i < limit
                    invariant
                        limit <= states.len(),
                        i <= limit,
                        count <= i,
                        count == staked_count(states@.take(i as int)),
                    decreases limit - i,
                {
                    proof {
                        reveal_with_fuel(Seq::filter, 1);
                        assert(states@.take(i + 1).drop_last() =~= states@.take(i as int));
                    }
                    if states[i].0 != ValidatorStakeState::Unstaked {
                        count += 1;
                    }
                    i += 1;
                }
                proof {
                    assert(newest(states@, m as int) =~= states@.take(limit as int));
                    assert(states@.take(states.len() as int) =~= states@);
                    lemma_staked_filter(newest(states@, m as int));
                }
                count >= n
            },
        }
    }
}

proof fn lemma_staked_filter(states: Seq<(ValidatorStakeState, String)>)
    ensures
        states.filter(
            |state: (ValidatorStakeState, String)| state.0 != ValidatorStakeState::Unstaked,
        ).len() == staked_count(states),
    decreases states.len(),
{
    reveal_with_fuel(Seq::filter, 1);
    if states.len() > 0 {
        lemma_staked_filter(states.drop_last());
    }
}

/// Each epoch with a state other than `Unstaked` counts once, and no other does.
pub proof fn law_staked_epochs_are_counted(
    states: Seq<(ValidatorStakeState, String)>,
    state: (ValidatorStakeState, String),
    m: int,
    i: int,
)
    requires
        m >= 0,
    ensures
        staked_count(Seq::empty()) == 0,
        state.0 == ValidatorStakeState::Unstaked ==> staked_count(states.push(state))
            == staked_count(states),
        state.0 == ValidatorStakeState::Baseline || state.0 == ValidatorStakeState::Bonus
            ==> staked_count(states.push(state)) == staked_count(states) + 1,
        newest(states, m).len() == if m < states.len() {
            m
        } else {
            states.len() as int
        },
        0 <= i < newest(states, m).len() ==> newest(states, m)[i] == states[i],
{
    reveal_with_fuel(Seq::filter, 2);
    assert(states.push(state).drop_last() =~= states);
    assert(Seq::<(ValidatorStakeState, String)>::empty().filter(
        |state: (ValidatorStakeState, String)| !(state.0 is Unstaked),
    ).len() == 0);
}

/// More epochs never hold less stake: a part of a history counts no more than the whole.
proof fn lemma_staked_count_grows(states: Seq<(ValidatorStakeState, String)>, m: int)
    requires
        0 <= m <= states.len(),
    ensures
        staked_count(states.take(m)) <= staked_count(states),
    decreases states.len() - m,
{
    reveal_with_fuel(Seq::filter, 1);
    if m < states.len() {
        lemma_staked_count_grows(states.drop_last(), m);
        assert(states.drop_last().take(m) =~= states.take(m));
    } else {
        assert(states.take(m) =~= states);
    }
}

/// A validator that was staked in at least `n` of the last `m` epochs was staked in at
/// least as many, and in any smaller number, of the last epochs of a longer span.
pub proof fn law_staked_for_longer(
    states: Seq<(ValidatorStakeState, String)>,
    n: int,
    m: int,
    fewer: int,
    longer: int,
)
    requires
        fewer <= n,
        0 <= m <= longer,
        staked_count(newest(states, m)) >= n,
    ensures
        staked_count(newest(states, longer)) >= fewer,
{
    let long = newest(states, longer);
    if m <= states.len() {
        assert(long.take(m) =~= states.take(m));
        lemma_staked_count_grows(long, m);
    }
}

/// The classification of every validator, by its identity.
pub type ValidatorClassificationByIdentity = HashMap<Pubkey, ValidatorClassification>;

/// What was observed of the cluster.
#[derive(Clone, Copy, Debug, PartialEq, Eq)]
pub struct ClusterState {
    pub min_epoch_credits: u64,
    pub avg_epoch_credits: u64,
    pub poor_voter_percentage: usize,
    pub too_many_poor_voters: bool,
    pub cluster_average_skip_rate: usize,
    pub poor_block_producer_percentage: usize,
    pub too_many_poor_block_producers: bool,
    pub too_many_old_validators: bool,
}

impl Default for ClusterState {
    fn default() -> (r: Self)
        ensures
            r == (ClusterState {
                min_epoch_credits: 0,
                avg_epoch_credits: 0,
                poor_voter_percentage: 0,
                too_many_poor_voters: false,
                cluster_average_skip_rate: 0,
                poor_block_producer_percentage: 0,
                too_many_poor_block_producers: false,
                too_many_old_validators: false,
            }),
    {
        ClusterState {
            min_epoch_credits: 0,
            avg_epoch_credits: 0,
            poor_voter_percentage: 0,
            too_many_poor_voters: false,
            cluster_average_skip_rate: 0,
            poor_block_producer_percentage: 0,
            too_many_poor_block_producers: false,
            too_many_old_validators: false,
        }
    }
}

/// The classification of an epoch.
#[derive(Clone, Debug)]
pub struct EpochClassificationV1 {
    pub data_center_info: Vec<DataCenterInfo>,
    /// `None` where unusual observations paused the classification.
    pub validator_classifications: Option<ValidatorClassificationByIdentity>,
    pub notes: Vec<String>,
    pub cluster_state: ClusterState,
}

impl EpochClassificationV1 {
    /// Nothing is known of the epoch.
    pub open spec fn is_blank(&self) -> bool {
        &&& self.data_center_info.len() == 0
        &&& self.validator_classifications is None
        &&& self.notes.len() == 0
        &&& self.cluster_state == (ClusterState {
            min_epoch_credits: 0,
            avg_epoch_credits: 0,
            poor_voter_percentage: 0,
            too_many_poor_voters: false,
            cluster_average_skip_rate: 0,
            poor_block_producer_percentage: 0,
            too_many_poor_block_producers: false,
            too_many_old_validators: false,
        })
    }
}

impl Default for EpochClassificationV1 {
    fn default() -> (r: Self)
        ensures
            r.is_blank(),
    {
        EpochClassificationV1 {
            data_center_info: Vec::new(),
            validator_classifications: None,
            notes: Vec::new(),
            cluster_state: ClusterState::default(),
        }
    }
}

/// The classification of an epoch, in one of the versions it is stored in.
#[derive(Clone, Debug)]
pub enum EpochClassification {
    V1(EpochClassificationV1),
}

impl Default for EpochClassification {
    fn default() -> (r: Self)
        ensures
            r.current().is_blank(),
    {
        EpochClassification::V1(EpochClassificationV1::default())
    }
}

/// The file of an epoch.
#[derive(Clone, Debug)]
pub enum EpochFile {
    /// There is none.
    Missing,
    /// It cannot be loaded.
    Unreadable,
    /// It holds this classification.
    Loaded { classification: EpochClassification },
}

/// Where the search for the classification of an earlier epoch stands.
#[derive(Clone, Debug)]
pub enum EpochSearch {
    /// The file of this epoch is to be loaded next, where there is one.
    Probe { epoch: u64 },
    /// This classification was found.
    Found { epoch: u64, classification: EpochClassification },
    /// The file of this epoch cannot be loaded.
    Failed { epoch: u64 },
    /// No earlier epoch is left.
    NotFound,
}

/// Why the latest epoch could not be told from the file names.
#[derive(Clone, Copy, Debug, PartialEq, Eq)]
pub enum LatestEpochError {
    /// A name has the form of an epoch's file, but no epoch of 64 bits in it.
    UnreadableEpoch,
}

/// The step that continues a search below an epoch.
pub open spec fn search_below(epoch: u64) -> EpochSearch {
    if epoch == 0 {
        EpochSearch::NotFound
    } else {
        EpochSearch::Probe { epoch: (epoch - 1) as u64 }
    }
}

/// The step after an epoch was probed.
pub open spec fn search_after(epoch: u64, file: EpochFile) -> EpochSearch {
    match file {
        EpochFile::Loaded { classification } if classification.has_classifications() => {
            EpochSearch::Found { epoch, classification }
        },
        EpochFile::Unreadable => EpochSearch::Failed { epoch },
        _ => search_below(epoch),
    }
}

/// What the names of the files in a directory say.
pub open spec fn name_epochs(names: Seq<String>) -> Seq<FileNameEpoch> {
    names.map_values(
        |name: String| captured_epoch(regex_capture(EPOCH_FILE_PATTERN@, name@)),
    )
}

/// `r` starts the search at the latest of the epochs that were read.
pub open spec fn starts_at_latest(
    epochs: Seq<FileNameEpoch>,
    r: Result<EpochSearch, LatestEpochError>,
) -> bool {
    let unreadable = epochs.contains(FileNameEpoch::Unreadable);
    match r {
        Err(LatestEpochError::UnreadableEpoch) => unreadable,
        Ok(EpochSearch::NotFound) => {
            &&& !unreadable
            &&& forall|i: int| 0 <= i < epochs.len() ==> (#[trigger] epochs[i]) is Other
        },
        Ok(EpochSearch::Probe { epoch }) => {
            &&& !unreadable
            &&& epochs.contains(FileNameEpoch::Epoch { epoch })
            &&& forall|i: int|
                0 <= i < epochs.len() ==> match #[trigger] epochs[i] {
                    FileNameEpoch::Epoch { epoch: other } => other <= epoch,
                    _ => true,
                }
        },
        Ok(_) => false,
    }
}

/// Starts the search at the latest of the epochs that were read from file names.
pub fn start_at_latest(epochs: &Vec<FileNameEpoch>) -> (r: Result<EpochSearch, LatestEpochError>)
    ensures
        starts_at_latest(epochs@, r),
        r is Err <==> exists|i: int| 0 <= i < epochs.len() && #[trigger] epochs[i] is Unreadable,
        r is Ok ==> r->Ok_0 is NotFound || r->Ok_0 is Probe,
        r matches Ok(EpochSearch::NotFound) ==> forall|i: int|
            0 <= i < epochs.len() ==> #[trigger] epochs[i] is Other,
        r matches Ok(EpochSearch::Probe { epoch }) ==> {
            &&& exists|i: int|
                0 <= i < epochs.len() && #[trigger] epochs[i] == (FileNameEpoch::Epoch { epoch })
            &&& forall|i: int|
                0 <= i < epochs.len() ==> (#[trigger] epochs[i] matches FileNameEpoch::Epoch {
                    epoch: other,
                } ==> other <= epoch)
        },
{
    let mut latest: Option<u64> = None;
    let mut i: usize = 0;
    while i < epochs.len()
        invariant
            i <= epochs.len(),
            forall|j: int| 0 <= j < i ==> !((#[trigger] epochs[j]) is Unreadable),
            match latest {
                None => forall|j: int| 0 <= j < i ==> (#[trigger] epochs[j]) is Other,
                Some(epoch) => {
                    &&& epochs@.contains(FileNameEpoch::Epoch { epoch })
                    &&& forall|j: int|
                        0 <= j < i ==> match #[trigger] epochs[j] {
                            FileNameEpoch::Epoch { epoch: other } => other <= epoch,
                            _ => true,
                        }
                },
            },
        decreases epochs.len() - i,
    {
        match epochs[i] {
            FileNameEpoch::Other => {},
            FileNameEpoch::Unreadable => {
                assert(epochs@[i as int] is Unreadable);
                return Err(LatestEpochError::UnreadableEpoch);
            },
            FileNameEpoch::Epoch { epoch } => {
                assert(epochs@[i as int] == (FileNameEpoch::Epoch { epoch }));
                let later = match latest {
                    None => true,
                    Some(other) => other < epoch,
                };
                if later {
                    latest = Some(epoch);
                }
            },
        }
        i += 1;
    }
    match latest {
        None => Ok(EpochSearch::NotFound),
        Some(epoch) => Ok(EpochSearch::Probe { epoch }),
    }
}

impl EpochClassification {
    /// The classification in the current version.
    pub open spec fn current(self) -> EpochClassificationV1 {
        match self {
            EpochClassification::V1(v1) => v1,
        }
    }

    /// The validators of the epoch were classified.
    pub open spec fn has_classifications(self) -> bool {
        self.current().validator_classifications is Some
    }

    pub fn new(v1: EpochClassificationV1) -> (r: Self)
        ensures
            r == EpochClassification::V1(v1),
    {
        EpochClassification::V1(v1)
    }

    pub fn into_current(self) -> (v1: EpochClassificationV1)
        ensures
            v1 == self.current(),
    {
        match self {
            EpochClassification::V1(v1) => v1,
        }
    }

    /// The name of the file that holds the classification of an epoch.
    pub fn file_name(epoch: u64) -> (name: String)
        ensures
            name@ == epoch_file_name(epoch),
            name@ == "epoch-"@ + numeral(epoch as nat) + ".yml"@,
    {
        file_name(epoch)
    }

    /// Starts the search for the first epoch older than `epoch` whose validators were
    /// classified.
    pub fn load_previous(epoch: u64) -> (r: EpochSearch)
        ensures
            r == search_below(epoch),
            epoch == 0 ==> r is NotFound,
            epoch > 0 ==> (r matches EpochSearch::Probe { epoch: probe } && probe + 1 == epoch),
    {
        if epoch == 0 {
            EpochSearch::NotFound
        } else {
            EpochSearch::Probe { epoch: epoch - 1 }
        }
    }

    /// Continues the search with the file of the probed epoch.
    pub fn probed(epoch: u64, file: EpochFile) -> (r: EpochSearch)
        ensures
            r == search_after(epoch, file),
            file is Unreadable ==> r == (EpochSearch::Failed { epoch }),
            file matches EpochFile::Loaded { classification: EpochClassification::V1(v1) } ==> (
            v1.validator_classifications is Some ==> r == (EpochSearch::Found {
                epoch,
                classification: EpochClassification::V1(v1),
            })),
            file matches EpochFile::Loaded { classification: EpochClassification::V1(v1) } ==> (
            v1.validator_classifications is None ==> if epoch == 0 {
                r is NotFound
            } else {
                r == (EpochSearch::Probe { epoch: (epoch - 1) as u64 })
            }),
            file is Missing ==> if epoch == 0 {
                r is NotFound
            } else {
                r == (EpochSearch::Probe { epoch: (epoch - 1) as u64 })
            },
    {
        match file {
            EpochFile::Missing => EpochClassification::load_previous(epoch),
            EpochFile::Unreadable => EpochSearch::Failed { epoch },
            EpochFile::Loaded { classification } => {
                let current = classification.into_current();
                if current.validator_classifications.is_some() {
                    EpochSearch::Found { epoch, classification: EpochClassification::V1(current) }
                } else {
                    EpochClassification::load_previous(epoch)
                }
            },
        }
    }

    /// Starts the search for the latest epoch whose validators were classified, at the
    /// latest epoch that the names of the files in a directory show.
    pub fn load_latest(names: &Vec<String>) -> (r: Result<EpochSearch, LatestEpochError>)
        ensures
            starts_at_latest(name_epochs(names@), r),
            names_are_read(names@),
            (forall|i: int| 0 <= i < names.len() ==> is_plain((#[trigger] names[i])@))
                ==> starts_at_latest(plain_name_epochs(names@), r),
    {
        let mut epochs: Vec<FileNameEpoch> = Vec::new();
        let mut i: usize = 0;
        while i < names.len()
            invariant
                i <= names.len(),
                epochs.len() == i,
                forall|j: int|
                    0 <= j < i ==> #[trigger] epochs[j] == name_epochs(names@)[j],
                forall|j: int|
                    0 <= j < i ==> if is_plain(names[j]@) {
                        #[trigger] epochs[j] == plain_name_epochs(names@)[j]
                    } else {
                        !(epochs[j] is Epoch)
                    },
            decreases names.len() - i,
        {
            epochs.push(file_name_epoch(names[i].as_str()));
            i += 1;
        }
        assert(epochs@ =~= name_epochs(names@));
        assert forall|j: int| 0 <= j < names.len() implies if is_plain((#[trigger] names[j])@) {
            name_epochs(names@)[j] == plain_name_epochs(names@)[j]
        } else {
            !(name_epochs(names@)[j] is Epoch)
        } by {
            assert(epochs[j] == name_epochs(names@)[j]);
        }
        assert((forall|i: int| 0 <= i < names.len() ==> is_plain((#[trigger] names[i])@))
            ==> epochs@ =~= plain_name_epochs(names@));
        start_at_latest(&epochs)
    }
}

/// A stored classification gives back the one that it was made of.
pub proof fn law_new_into_current(v1: EpochClassificationV1)
    ensures
        EpochClassification::V1(v1).current() == v1,
{
}

/// A step of the search: a file that cannot be loaded ends it, one whose validators were
/// classified is found, and past any other, or without a file, the epoch before is next, if
/// there is one.
pub proof fn law_search_step(epoch: u64, v1: EpochClassificationV1)
    ensures
        search_below(0) is NotFound,
        epoch > 0 ==> (search_below(epoch) matches EpochSearch::Probe { epoch: probe } && probe + 1
            == epoch),
        search_after(epoch, EpochFile::Missing) == search_below(epoch),
        search_after(epoch, EpochFile::Unreadable) == (EpochSearch::Failed { epoch }),
        v1.validator_classifications is None ==> search_after(
            epoch,
            EpochFile::Loaded { classification: EpochClassification::V1(v1) },
        ) == search_below(epoch),
        v1.validator_classifications is Some ==> search_after(
            epoch,
            EpochFile::Loaded { classification: EpochClassification::V1(v1) },
        ) == (EpochSearch::Found { epoch, classification: EpochClassification::V1(v1) }),
{
}

/// The search that is started from file names starts at the largest epoch that one of them
/// names, and nowhere only where none names one. It is refused exactly where one has an
/// epoch that cannot be read.
pub proof fn law_search_starts_at_the_largest_epoch(
    names: Seq<String>,
    r: Result<EpochSearch, LatestEpochError>,
    i: int,
    digits: Seq<char>,
    c: char,
)
    requires
        names_are_read(names),
        starts_at_latest(name_epochs(names), r),
        0 <= i < names.len(),
        names[i]@ == "epoch-"@ + digits + seq![c] + "yml"@,
        c != '\n',
        digits.len() > 0,
        forall|k: int| 0 <= k < digits.len() ==> '0' <= #[trigger] digits[k] <= '9',
    ensures
        numeral_value(digits) > 0xffff_ffff_ffff_ffff ==> r is Err,
        !(r matches Ok(EpochSearch::NotFound)),
        r matches Ok(EpochSearch::Probe { epoch }) ==> numeral_value(digits) <= epoch,
{
    law_epoch_in_a_name(digits, c);
    assert(name_epochs(names)[i] == plain_name_epochs(names)[i]);
}

/// A search is refused only where a file name has digits whose number does not fit in 64
/// bits, or characters beyond ASCII in their place.
pub proof fn law_search_is_refused_for_a_name(names: Seq<String>, error: LatestEpochError) -> (i:
    int)
    requires
        names_are_read(names),
        starts_at_latest(name_epochs(names), Err(error)),
    ensures
        0 <= i < names.len(),
        is_plain(names[i]@) ==> exists|digits: Seq<char>, c: char|
            #![trigger seq![c], numeral_value(digits)]
            {
                &&& names[i]@ == "epoch-"@ + digits + seq![c] + "yml"@
                &&& numeral_value(digits) > 0xffff_ffff_ffff_ffff
            },
{
    let epochs = name_epochs(names);
    let i = choose|i: int| 0 <= i < epochs.len() && epochs[i] == FileNameEpoch::Unreadable;
    if is_plain(names[i]@) {
        let (digits, c) = law_other_names_are_passed_over(names[i]@);
        law_epoch_in_a_name(digits, c);
        assert(numeral_value(digits) > u64::MAX);
        assert(seq![c].len() == 1);
    }
    i
}

/// The epoch that a search starts at is one that a file name gives.
pub proof fn law_search_starts_at_a_named_epoch(names: Seq<String>, epoch: u64) -> (found: (
    int,
    Seq<char>,
    char,
))
    requires
        names_are_read(names),
        starts_at_latest(name_epochs(names), Ok(EpochSearch::Probe { epoch })),
    ensures
        ({
            let (i, digits, c) = found;
            &&& 0 <= i < names.len()
            &&& names[i]@ == "epoch-"@ + digits + seq![c] + "yml"@
            &&& c != '\n'
            &&& digits.len() > 0
            &&& forall|k: int| 0 <= k < digits.len() ==> '0' <= #[trigger] digits[k] <= '9'
            &&& numeral_value(digits) == epoch
        }),
{
    let epochs = name_epochs(names);
    let i = choose|i: int|
        0 <= i < epochs.len() && epochs[i] == (FileNameEpoch::Epoch { epoch });
    assert(is_plain(names[i]@));
    let (digits, c) = law_other_names_are_passed_over(names[i]@);
    law_epoch_in_a_name(digits, c);
    (i, digits, c)
}

/// What the names of the files in a directory say, by the digits of ASCII in them.
pub open spec fn plain_name_epochs(names: Seq<String>) -> Seq<FileNameEpoch> {
    names.map_values(|name: String| captured_epoch(epoch_digits(name@)))
}

/// Plain names say what the digits of ASCII in them say, and others name no epoch.
pub open spec fn names_are_read(names: Seq<String>) -> bool {
    forall|i: int|
        0 <= i < names.len() ==> if is_plain((#[trigger] names[i])@) {
            name_epochs(names)[i] == plain_name_epochs(names)[i]
        } else {
            !(name_epochs(names)[i] is Epoch)
        }
}

/// The file of an epoch in a directory.
pub open spec fn stored(files: Map<u64, EpochFile>, epoch: u64) -> EpochFile {
    if files.contains_key(epoch) {
        files[epoch]
    } else {
        EpochFile::Missing
    }
}

/// Where a search ends whose probes load the files of a directory.
pub open spec fn search_end(files: Map<u64, EpochFile>, step: EpochSearch) -> EpochSearch
    decreases
            (match step {
                EpochSearch::Probe { epoch } => epoch as nat + 1,
                _ => 0,
            }),
{
    match step {
        EpochSearch::Probe { epoch } => search_end(
            files,
            search_after(epoch, stored(files, epoch)),
        ),
        _ => step,
    }
}

/// A search goes on past a file: there is none, or its validators were not classified.
pub open spec fn is_passed_over(file: EpochFile) -> bool {
    match file {
        EpochFile::Missing => true,
        EpochFile::Unreadable => false,
        EpochFile::Loaded { classification } => !classification.has_classifications(),
    }
}

/// A search goes on past every file from an epoch on, below another.
pub open spec fn all_passed_over(files: Map<u64, EpochFile>, from: int, epoch: int) -> bool {
    forall|other: u64|
        from <= other < epoch ==> is_passed_over(#[trigger] stored(files, other))
}

/// `end` is the latest epoch before `epoch` whose file a search does not go on past, or
/// there is none: its classification, or its failure where the file cannot be loaded.
pub open spec fn is_latest_before(
    files: Map<u64, EpochFile>,
    epoch: int,
    end: EpochSearch,
) -> bool {
    match end {
        EpochSearch::Found { epoch: found, classification } => {
            &&& found < epoch
            &&& stored(files, found) == (EpochFile::Loaded { classification })
            &&& classification.has_classifications()
            &&& all_passed_over(files, found + 1, epoch)
        },
        EpochSearch::Failed { epoch: failed } => {
            &&& failed < epoch
            &&& stored(files, failed) is Unreadable
            &&& all_passed_over(files, failed + 1, epoch)
        },
        EpochSearch::NotFound => all_passed_over(files, 0, epoch),
        EpochSearch::Probe { .. } => false,
    }
}

/// A search below an epoch finds the classification of the latest earlier epoch whose
/// validators were classified. It ends with the first file that cannot be loaded where no
/// such epoch comes before it, and without a result only where there is neither.
pub proof fn law_search_finds_latest(files: Map<u64, EpochFile>, epoch: u64)
    ensures
        is_latest_before(files, epoch as int, search_end(files, search_below(epoch))),
    decreases epoch,
{
    if epoch > 0 {
        let probed = (epoch - 1) as u64;
        law_search_finds_latest(files, probed);
        lemma_probe(files, probed);
    }
}

/// Probing an epoch and then searching below it is searching up to that epoch.
proof fn lemma_probe(files: Map<u64, EpochFile>, epoch: u64)
    requires
        is_latest_before(files, epoch as int, search_end(files, search_below(epoch))),
    ensures
        is_latest_before(
            files,
            epoch + 1,
            search_end(files, EpochSearch::Probe { epoch }),
        ),
{
    let after = search_after(epoch, stored(files, epoch));
    let end = search_end(files, EpochSearch::Probe { epoch });
    assert(end == search_end(files, after));
    if is_passed_over(stored(files, epoch)) {
        assert(after == search_below(epoch));
    } else {
        assert(search_end(files, after) == after);
    }
}

/// The search that is started from the names of the files in a directory finds the
/// latest classification stored in it, or the file that cannot be loaded before it.
pub proof fn law_latest_is_found(
    files: Map<u64, EpochFile>,
    names: Seq<String>,
    r: Result<EpochSearch, LatestEpochError>,
)
    requires
        forall|epoch: u64| #[trigger]
            files.contains_key(epoch) ==> exists|i: int|
                0 <= i < names.len() && (#[trigger] names[i])@ == epoch_file_name(epoch),
        names_are_read(names),
        starts_at_latest(name_epochs(names), r),
    ensures
        r matches Ok(step) ==> is_latest_before(
            files,
            u64::MAX as int + 1,
            search_end(files, step),
        ),
{
    if let Ok(step) = r {
        let epochs = name_epochs(names);
        assert forall|epoch: u64| #[trigger] files.contains_key(epoch) implies epochs.contains(
            FileNameEpoch::Epoch { epoch },
        ) by {
            let i = choose|i: int|
                0 <= i < names.len() && (#[trigger] names[i])@ == epoch_file_name(epoch);
            law_file_name_round_trip(epoch);
            assert(is_plain(names[i]@));
            assert(epochs[i] == (FileNameEpoch::Epoch { epoch }));
        }
        match step {
            EpochSearch::Probe { epoch } => {
                law_search_finds_latest(files, epoch);
                lemma_probe(files, epoch);
                assert forall|other: u64| #[trigger] files.contains_key(other) implies other
                    <= epoch by {
                    let i = choose|i: int|
                        0 <= i < epochs.len() && epochs[i] == (FileNameEpoch::Epoch {
                            epoch: other,
                        });
                    assert(epochs[i] matches FileNameEpoch::Epoch { epoch: e } && e == other);
                }
                assert(all_passed_over(files, epoch + 1, u64::MAX as int + 1));
            },
            _ => {
                assert forall|other: u64| #[trigger] files.contains_key(other) implies false by {
                    let i = choose|i: int|
                        0 <= i < epochs.len() && epochs[i] == (FileNameEpoch::Epoch {
                            epoch: other,
                        });
                    assert(epochs[i] is Other);
                }
            },
        }
    }
}

} // verus!
