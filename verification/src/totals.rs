//! Sums of amounts.
use vstd::prelude::*;

verus! {

/// The sum of a list of amounts.
pub open spec fn total(amounts: Seq<u64>) -> nat
    decreases amounts.len(),
{
    if amounts.len() == 0 {
        0
    } else {
        total(amounts.drop_last()) + amounts.last() as nat
    }
}

/// A part of a list never sums to more than the list.
pub proof fn lemma_total_grows(amounts: Seq<u64>, i: int)
    requires
        0 <= i <= amounts.len(),
    ensures
        total(amounts.take(i)) <= total(amounts),
    decreases amounts.len() - i,
{
    if i < amounts.len() {
        lemma_total_grows(amounts, i + 1);
        assert(amounts.take(i + 1).drop_last() =~= amounts.take(i));
    } else {
        assert(amounts.take(i) =~= amounts);
    }
}

/// Sums a list of amounts: `None` where the sum does not fit in 64 bits.
pub fn checked_total(amounts: &Vec<u64>) -> (r: Option<u64>)
    ensures
        match r {
            Some(sum) => sum == total(amounts@),
            None => total(amounts@) > u64::MAX,
        },
{
    let mut sum: u64 = 0;
    let mut i: usize = 0;
    assert(amounts@.take(0) =~= Seq::<u64>::empty());
    while i < amounts.len()
        invariant
            i <= amounts.len(),
            sum == total(amounts@.take(i as int)),
        decreases amounts.len() - i,
    {
        proof {
            assert(amounts@.take(i + 1).drop_last() =~= amounts@.take(i as int));
            lemma_total_grows(amounts@, i + 1);
        }
        match sum.checked_add(amounts[i]) {
            Some(next) => {
                sum = next;
            },
            None => {
                return None;
            },
        }
        i += 1;
    }
    assert(amounts@.take(i as int) =~= amounts@);
    Some(sum)
}

/// Sums add up: the sum of two lists, one after the other, is the sum of their sums, and an
/// amount alone is its own sum.
pub proof fn law_totals_add_up(first: Seq<u64>, second: Seq<u64>, amount: u64)
    ensures
        total(first + second) == total(first) + total(second),
        total(seq![amount]) == amount,
        total(Seq::empty()) == 0,
    decreases second.len(),
{
    assert(seq![amount].drop_last() =~= Seq::empty());
    assert(total(Seq::empty()) == 0);
    if second.len() == 0 {
        assert(first + second =~= first);
    } else {
        law_totals_add_up(first, second.drop_last(), amount);
        assert((first + second).drop_last() =~= first + second.drop_last());
    }
}

} // verus!
