use std::collections::HashMap;

use solana_sdk::native_token::sol_to_lamports;

use stake_bot::db::{
    start_at_latest, ByIdentityInfo, Config, EpochClassification, EpochClassificationV1, EpochFile,
    EpochSearch, Float64, InflationRewardInfo, LatestEpochError, ScoreData, ScoreDiscounts, ScoreTerms,
    ValidatorClassification, ValidatorStakeState,
};
use stake_bot::epoch_files::{file_name_epoch, read_captured, FileNameEpoch};

#[test]
fn test_staked_for() {
    let mut vc = ValidatorClassification::default();

    assert!(!vc.staked_for(0, 0));
    assert!(!vc.staked_for(1, 0));
    assert!(!vc.staked_for(0, 1));

    vc.stake_states = Some(vec![
        (ValidatorStakeState::Unstaked, String::new()),
        (ValidatorStakeState::Baseline, String::new()),
        (ValidatorStakeState::Bonus, String::new()),
    ]);
    assert!(!vc.staked_for(3, 3));
    assert!(vc.staked_for(2, 3));
}

#[test]
fn staked_for_counts_the_newest_epochs() {
    let mut vc = ValidatorClassification::default();
    vc.stake_states = Some(vec![
        (ValidatorStakeState::Bonus, String::new()),
        (ValidatorStakeState::Unstaked, String::new()),
        (ValidatorStakeState::Bonus, String::new()),
    ]);
    assert!(vc.staked_for(0, 0));
    assert!(vc.staked_for(1, 1));
    assert!(!vc.staked_for(2, 2));
    assert!(vc.staked_for(2, 3));
    assert!(vc.staked_for(2, 100));
    assert!(vc.staked_for(1, 100));
}

#[test]
fn streak_of_the_newest_state() {
    let mut vc = ValidatorClassification::default();
    assert_eq!(vc.stake_state_streak(), 1);
    vc.stake_states = Some(vec![]);
    assert_eq!(vc.stake_state_streak(), 1);
    vc.stake_states = Some(vec![
        (ValidatorStakeState::Bonus, "a".to_string()),
        (ValidatorStakeState::Bonus, "b".to_string()),
        (ValidatorStakeState::Baseline, "c".to_string()),
        (ValidatorStakeState::Bonus, "d".to_string()),
    ]);
    assert_eq!(vc.stake_state_streak(), 2);
    vc.stake_states = Some(vec![(ValidatorStakeState::Unstaked, String::new()); 3]);
    assert_eq!(vc.stake_state_streak(), 3);
}

fn score_data() -> ScoreData {
    ScoreData {
        epoch_credits: 1000,
        commission: 10,
        active_stake: 54_000,
        score_discounts: ScoreDiscounts {
            can_halt_the_network_group: false,
            is_registered_delegation_group: true,
        },
        inflation_reward: Some(InflationRewardInfo::default()),
        ..ScoreData::default()
    }
}

const CONFIG: Config = Config {
    score_min_stake: 100,
    score_max_commission: 10,
    score_registered_validator_bonus: 7,
};

#[test]
fn score_terms_of_a_qualified_validator() {
    let data = score_data();
    assert!(!data.disqualified(&CONFIG, false, false));
    assert_eq!(
        data.score(&CONFIG, false, false),
        Some(ScoreTerms {
            epoch_credits: 1000,
            commission_discount: 10,
            scaled_active_stake: 2_700_000,
            validator_program_bonus: 7,
        })
    );
    let mut unregistered = score_data();
    unregistered.score_discounts.is_registered_delegation_group = false;
    let terms = unregistered.score(&CONFIG, false, false).unwrap();
    assert_eq!(terms.validator_program_bonus, 0);
}

#[test]
fn test_score_data_calculation_terms() {
    let score = ScoreData {
        epoch_credits: 1000,
        adj_credits: 900,
        average_position: Float64 { bits: 52.5f64.to_bits() },
        score_discounts: ScoreDiscounts {
            can_halt_the_network_group: false,
            is_registered_delegation_group: true,
        },
        commission: 10,
        active_stake: sol_to_lamports(54000.0),
        data_center_concentration: Float64 { bits: 0.5f64.to_bits() },
        validators_app_info: ByIdentityInfo::default(),
        total_active_stake: sol_to_lamports(500000.0),
        mean_active_stake: sol_to_lamports(32000.0),
        std_active_stake: sol_to_lamports(45000.0),
        inflation_reward: None,
    };
    let config = Config {
        score_min_stake: 100,
        score_max_commission: 10,
        score_registered_validator_bonus: 7,
    };
    assert_eq!(
        score.score(&config, true, false),
        Some(ScoreTerms {
            epoch_credits: 1000,
            commission_discount: 10,
            scaled_active_stake: 2_700_000_000_000_000,
            validator_program_bonus: 7,
        })
    );
}

#[test]
fn each_limit_disqualifies() {
    assert_eq!(score_data().score(&CONFIG, false, true), None);

    let mut data = score_data();
    data.score_discounts.can_halt_the_network_group = true;
    assert_eq!(data.score(&CONFIG, false, false), None);

    let mut data = score_data();
    data.active_stake = 99;
    assert_eq!(data.score(&CONFIG, false, false), None);

    let mut data = score_data();
    data.commission = 11;
    assert_eq!(data.score(&CONFIG, false, false), None);

    let mut data = score_data();
    data.inflation_reward = None;
    assert_eq!(data.score(&CONFIG, false, false), None);
    assert!(data.score(&CONFIG, true, false).is_some());
}

#[test]
fn file_names() {
    assert_eq!(EpochClassification::file_name(0), "epoch-0.yml");
    assert_eq!(EpochClassification::file_name(245), "epoch-245.yml");
}

#[test]
fn file_names_round_trip() {
    for epoch in [0, 9, 10, 245, u64::MAX] {
        assert_eq!(
            file_name_epoch(&EpochClassification::file_name(epoch)),
            FileNameEpoch::Epoch { epoch }
        );
    }
}

#[test]
fn other_file_names() {
    for name in [
        "",
        "epoch-.yml",
        "epoch-1.yaml",
        "xepoch-1.yml",
        "epoch-1.ymlx",
        "epoch-1.yml\n",
        "epoch-1\nyml",
        "epoch-1a.yml",
        "Epoch-1.yml",
        "epoch-+1.yml",
        "epoch-1yml",
    ] {
        assert_eq!(file_name_epoch(name), FileNameEpoch::Other, "{:?}", name);
    }
    // The dot of the pattern stands for any character but a line feed.
    assert_eq!(file_name_epoch("epoch-12yml"), FileNameEpoch::Epoch { epoch: 1 });
    assert_eq!(file_name_epoch("epoch-1_yml"), FileNameEpoch::Epoch { epoch: 1 });
    assert_eq!(file_name_epoch("epoch-007.yml"), FileNameEpoch::Epoch { epoch: 7 });
    assert_eq!(file_name_epoch("epoch-5\u{e9}yml"), FileNameEpoch::Epoch { epoch: 5 });
    assert_eq!(
        file_name_epoch("epoch-99999999999999999999.yml"),
        FileNameEpoch::Unreadable
    );
    assert_eq!(file_name_epoch("epoch-\u{0661}.yml"), FileNameEpoch::Unreadable);
    assert_eq!(file_name_epoch("epoch-\u{0661}x.yml"), FileNameEpoch::Other);
    assert_eq!(file_name_epoch("epoch-\u{e9}.yml"), FileNameEpoch::Other);
    assert_eq!(file_name_epoch("\u{e9}.txt"), FileNameEpoch::Other);
}

#[test]
fn captured_digits() {
    assert_eq!(read_captured(&None), FileNameEpoch::Other);
    assert_eq!(
        read_captured(&Some("17".to_string())),
        FileNameEpoch::Epoch { epoch: 17 }
    );
    assert_eq!(read_captured(&Some("x".to_string())), FileNameEpoch::Unreadable);
}

fn paused() -> EpochClassification {
    EpochClassification::default()
}

fn classified() -> EpochClassification {
    EpochClassification::new(EpochClassificationV1 {
        validator_classifications: Some(HashMap::new()),
        notes: vec!["classified".to_string()],
        ..EpochClassificationV1::default()
    })
}

fn search(files: &HashMap<u64, EpochClassification>, mut step: EpochSearch) -> Option<u64> {
    loop {
        match step {
            EpochSearch::Probe { epoch } => {
                let file = match files.get(&epoch).cloned() {
                    Some(classification) => EpochFile::Loaded { classification },
                    None => EpochFile::Missing,
                };
                step = EpochClassification::probed(epoch, file);
            }
            EpochSearch::Failed { epoch } => panic!("epoch {} failed", epoch),
            EpochSearch::Found { epoch, classification } => {
                let current = classification.into_current();
                assert_eq!(current.notes, vec!["classified".to_string()]);
                return Some(epoch);
            }
            EpochSearch::NotFound => return None,
        }
    }
}

#[test]
fn previous_epoch_skips_gaps_and_pauses() {
    let mut files = HashMap::new();
    files.insert(2, classified());
    files.insert(5, classified());
    files.insert(6, paused());
    assert_eq!(search(&files, EpochClassification::load_previous(9)), Some(5));
    assert_eq!(search(&files, EpochClassification::load_previous(6)), Some(5));
    assert_eq!(search(&files, EpochClassification::load_previous(5)), Some(2));
    assert_eq!(search(&files, EpochClassification::load_previous(2)), None);
    assert_eq!(search(&files, EpochClassification::load_previous(0)), None);
}

#[test]
fn latest_epoch_comes_from_the_names() {
    let mut files = HashMap::new();
    files.insert(3, classified());
    files.insert(12, classified());
    files.insert(100, paused());
    let mut names: Vec<String> = files.keys().map(|e| EpochClassification::file_name(*e)).collect();
    names.push("README.md".to_string());
    let step = EpochClassification::load_latest(&names).unwrap();
    assert!(matches!(step, EpochSearch::Probe { epoch: 100 }));
    assert_eq!(search(&files, step), Some(12));

    let nothing = EpochClassification::load_latest(&vec!["notes.txt".to_string()]).unwrap();
    assert!(matches!(nothing, EpochSearch::NotFound));
}

#[test]
fn latest_epoch_may_be_the_largest() {
    let mut files = HashMap::new();
    files.insert(u64::MAX, classified());
    let names = vec![EpochClassification::file_name(u64::MAX)];
    let step = EpochClassification::load_latest(&names).unwrap();
    assert!(matches!(step, EpochSearch::Probe { epoch: u64::MAX }));
    assert_eq!(search(&files, step), Some(u64::MAX));
}

#[test]
fn search_ends_with_a_file_that_cannot_be_loaded() {
    let step = EpochClassification::load_previous(8);
    assert!(matches!(step, EpochSearch::Probe { epoch: 7 }));
    let step = EpochClassification::probed(7, EpochFile::Loaded { classification: paused() });
    assert!(matches!(step, EpochSearch::Probe { epoch: 6 }));
    let step = EpochClassification::probed(6, EpochFile::Unreadable);
    assert!(matches!(step, EpochSearch::Failed { epoch: 6 }));
}

#[test]
fn latest_epoch_errors() {
    assert!(matches!(
        EpochClassification::load_latest(&vec!["epoch-99999999999999999999.yml".to_string()]),
        Err(LatestEpochError::UnreadableEpoch)
    ));
    assert!(matches!(
        start_at_latest(&vec![
            FileNameEpoch::Epoch { epoch: 4 },
            FileNameEpoch::Other,
            FileNameEpoch::Epoch { epoch: 3 },
        ]),
        Ok(EpochSearch::Probe { epoch: 4 })
    ));
}

#[test]
fn classification_round_trips() {
    let current = classified().into_current();
    assert!(current.validator_classifications.is_some());
    let blank = EpochClassification::default().into_current();
    assert!(blank.validator_classifications.is_none());
    assert_eq!(blank.cluster_state.avg_epoch_credits, 0);
}
