use stake_bot::batches::batches;
use stake_bot::decimal::{parse_numeral, to_numeral};
use stake_bot::totals::checked_total;

#[test]
fn batches_cover_the_list() {
    assert_eq!(
        batches(&vec![1, 2, 3, 4, 5], 2),
        vec![vec![1, 2], vec![3, 4], vec![5]]
    );
    assert_eq!(batches(&vec![1, 2, 3, 4], 2), vec![vec![1, 2], vec![3, 4]]);
    assert_eq!(batches(&vec![1, 2], usize::MAX), vec![vec![1, 2]]);
    assert!(batches::<u64>(&vec![], 3).is_empty());
}

#[test]
fn batches_agree_with_chunks() {
    let items: Vec<usize> = (0..1450).collect();
    let expected: Vec<Vec<usize>> = items.chunks(700).map(|chunk| chunk.to_vec()).collect();
    assert_eq!(batches(&items, 700), expected);
}

#[test]
fn numerals_round_trip() {
    for n in [0, 7, 10, 99, 100, 12345, u64::MAX] {
        assert_eq!(to_numeral(n), n.to_string());
        assert_eq!(parse_numeral(&to_numeral(n)), Some(n));
    }
}

#[test]
fn unreadable_numerals() {
    assert_eq!(parse_numeral(""), None);
    assert_eq!(parse_numeral("12a"), None);
    assert_eq!(parse_numeral("-1"), None);
    assert_eq!(parse_numeral("18446744073709551616"), None);
    assert_eq!(parse_numeral("99999999999999999999999"), None);
    assert_eq!(parse_numeral("\u{0661}"), None);
    assert_eq!(parse_numeral("007"), Some(7));
}

#[test]
fn totals() {
    assert_eq!(checked_total(&vec![]), Some(0));
    assert_eq!(checked_total(&vec![1, 2, 3]), Some(6));
    assert_eq!(checked_total(&vec![u64::MAX, 0]), Some(u64::MAX));
    assert_eq!(checked_total(&vec![u64::MAX, 1]), None);
}
