//! How a delegated stake warms up: when the sum of what becomes effective, epoch by epoch,
//! stays within 64 bits. What becomes effective in an epoch is a product of double-precision
//! numbers, which is followed here in whole numbers.
use vstd::arithmetic::div_mod::{lemma_div_denominator, lemma_fundamental_div_mod};
use vstd::arithmetic::power2::{
    lemma2_to64, lemma2_to64_rest, lemma_pow2_adds, lemma_pow2_pos, lemma_pow2_strictly_increases,
    lemma_pow2_unfold, pow2,
};
use vstd::prelude::*;

use crate::outside::{history_entry, stake_activation};

verus! {

/// The numbers of a delegation that its activation depends on.
#[derive(Clone, Copy, Debug, PartialEq, Eq)]
pub struct Warmup {
    pub stake: u64,
    pub activation_epoch: u64,
    pub deactivation_epoch: u64,
    /// The share of the cluster's stake that warms up or cools down in an epoch, as the
    /// bits of a double-precision number.
    pub rate_bits: u64,
}

/// The bits of positive infinity. Greater ones are those of negative numbers and of what
/// is no number: at such a rate only one unit becomes effective in an epoch.
pub const RATE_OF_INFINITY: u64 = 0x7ff0_0000_0000_0000;

/// The numbers that the fraction of a rate can take.
pub const FRACTIONS: u64 = 0x10_0000_0000_0000;

/// The numbers of 53 binary digits or fewer.
pub const SIGNIFICANDS: u64 = 0x20_0000_0000_0000;

/// How many binary digits a number has beyond 53.
pub open spec fn surplus(n: nat) -> nat
    decreases n,
{
    if n < SIGNIFICANDS {
        0
    } else {
        1 + surplus(n / 2)
    }
}

/// A number rounded to 53 binary digits, ties to even: a significand and the power of two
/// that it is multiplied by.
pub open spec fn rounded(n: nat) -> (int, int) {
    let unit = pow2(surplus(n));
    let q = n / unit;
    let rest = n % unit;
    (
        if 2 * rest > unit || (2 * rest == unit && q % 2 == 1) {
            q as int + 1
        } else {
            q as int
        },
        surplus(n) as int,
    )
}

/// The rounded product of two numbers with powers of two.
pub open spec fn product(a: (int, int), b: (int, int)) -> (int, int) {
    let r = rounded((a.0 * b.0) as nat);
    (r.0, r.1 + a.1 + b.1)
}

/// How often a number has to be doubled until it has 53 binary digits.
pub open spec fn deficit(n: int) -> nat
    decreases SIGNIFICANDS - n,
{
    if n <= 0 || n >= FRACTIONS {
        0
    } else {
        1 + deficit(2 * n)
    }
}

/// The rounded quotient of two numbers with powers of two. The last digit of what is
/// rounded only tells whether the division left a rest.
pub open spec fn quotient(a: (int, int), b: (int, int)) -> (int, int) {
    let n = a.0 * pow2(deficit(a.0)) * pow2(56);
    let r = rounded((2 * (n / b.0) + if n % b.0 == 0 {
        0int
    } else {
        1
    }) as nat);
    (r.0, r.1 + a.1 - b.1 - deficit(a.0) - 57)
}

/// A rate as a significand and a power of two.
pub open spec fn rate(rate_bits: u64) -> (int, int) {
    if rate_bits < FRACTIONS {
        (rate_bits as int, -1074)
    } else {
        (rate_bits % FRACTIONS + FRACTIONS, rate_bits / FRACTIONS - 1075)
    }
}

/// What becomes effective of a remaining stake in an epoch: its share of the activating
/// stake, times the effective stake of the cluster times the rate.
pub open spec fn newly_effective(
    remaining: u64,
    entry: (u64, u64, u64, u64),
    rate_bits: u64,
) -> (int, int) {
    product(
        quotient(rounded(remaining as nat), rounded(entry.2 as nat)),
        product(rounded(entry.1 as nat), rate(rate_bits)),
    )
}

/// A number with a power of two is less than a limit.
pub open spec fn is_below(a: (int, int), limit: int) -> bool {
    if a.1 >= 0 {
        a.0 * pow2(a.1 as nat) < limit
    } else {
        a.0 < limit * pow2((-a.1) as nat)
    }
}

/// In the epoch of an entry of the stake history, what becomes effective of a remaining
/// stake keeps the sum so far within 64 bits.
pub open spec fn step_is_bounded(
    so_far: u64,
    remaining: u64,
    entry: (u64, u64, u64, u64),
    rate_bits: u64,
) -> bool {
    so_far == 0 || rate_bits > RATE_OF_INFINITY || is_below(
        newly_effective(remaining, entry, rate_bits),
        u64::MAX + 1 - so_far,
    )
}

/// The epochs of a history go down from entry to entry.
pub open spec fn is_newest_first(history: Seq<(u64, u64, u64, u64)>) -> bool {
    forall|i: int, j: int|
        0 <= i < j < history.len() ==> (#[trigger] history[i]).0 > (#[trigger] history[j]).0
}

/// Entry `k` is one for an epoch.
pub open spec fn is_entry_for(
    history: Seq<(u64, u64, u64, u64)>,
    epoch: u64,
    k: int,
) -> bool {
    0 <= k < history.len() && history[k].0 == epoch
}

/// An entry for an epoch, where there is one.
pub open spec fn listed_entry(history: Seq<(u64, u64, u64, u64)>, epoch: u64) -> Option<
    (u64, u64, u64, u64),
> {
    if exists|k: int| is_entry_for(history, epoch, k) {
        Some(history[choose|k: int| is_entry_for(history, epoch, k)])
    } else {
        None
    }
}

/// The entry that a lookup finds for an epoch.
pub open spec fn entry_for(history: Seq<(u64, u64, u64, u64)>, epoch: u64) -> Option<
    (u64, u64, u64, u64),
> {
    if is_newest_first(history) {
        listed_entry(history, epoch)
    } else {
        history_entry(history, epoch)
    }
}

/// The history tells of activating stake in an epoch.
pub open spec fn has_activating(history: Seq<(u64, u64, u64, u64)>, epoch: u64) -> bool {
    match entry_for(history, epoch) {
        Some(entry) => entry.2 > 0,
        None => false,
    }
}

impl Warmup {
    /// The effective, the activating and the deactivating stake in an epoch.
    pub open spec fn activation(self, epoch: u64, history: Seq<(u64, u64, u64, u64)>) -> (
        u64,
        u64,
        u64,
    ) {
        stake_activation(
            self.stake,
            self.activation_epoch,
            self.deactivation_epoch,
            self.rate_bits,
            epoch,
            history,
        )
    }

    /// Some of the stake has still to become effective in an epoch after that of its
    /// activation, and the history tells how much will.
    pub open spec fn warms_up_in(self, epoch: u64, history: Seq<(u64, u64, u64, u64)>) -> bool {
        &&& forall|e: u64|
            self.activation_epoch <= e <= epoch ==> #[trigger] has_activating(history, e)
        &&& forall|e: u64|
            self.activation_epoch < e <= epoch ==> (#[trigger] self.activation(e, history)).1 > 0
    }

    /// The entry for an epoch keeps the sum within 64 bits: for the stake as far as it has
    /// warmed up, or for any part of the stake.
    pub open spec fn epoch_is_bounded(
        self,
        epoch: u64,
        history: Seq<(u64, u64, u64, u64)>,
    ) -> bool {
        let (effective, activating, _) = self.activation(epoch, history);
        match entry_for(history, epoch) {
            Some(entry) => {
                ||| step_is_bounded(self.stake, self.stake, entry, self.rate_bits)
                ||| step_is_bounded(effective, activating, entry, self.rate_bits)
            },
            None => true,
        }
    }

    /// What becomes effective of the stake before an epoch, added up epoch by epoch, stays
    /// within 64 bits. Only epochs in which something has become effective already, and the
    /// stake still warms up, count.
    pub open spec fn is_bounded(self, epoch: u64, history: Seq<(u64, u64, u64, u64)>) -> bool {
        forall|e: u64|
            self.activation_epoch < e < epoch && e < self.deactivation_epoch
                && #[trigger] self.warms_up_in(e, history) ==> self.epoch_is_bounded(e, history)
    }
}

/// Rounds a number.
fn round(n: u128) -> (r: (u64, i64))
    ensures
        r.0 == rounded(n as nat).0,
        r.1 == rounded(n as nat).1,
        r.0 <= SIGNIFICANDS,
        0 <= r.1 <= 128,
{
    let mut q: u128 = n;
    let mut unit: u128 = 1;
    let mut k: i64 = 0;
    proof {
        lemma2_to64();
    }
    while q >= SIGNIFICANDS as u128
        invariant
            0 <= k <= 128,
            unit == pow2(k as nat),
            unit >= 1,
            q == n as int / unit as int,
            surplus(n as nat) == k + surplus(q as nat),
        decreases q,
    {
        proof {
            lemma_fundamental_div_mod(n as int, unit as int);
            assert(unit * SIGNIFICANDS <= n) by (nonlinear_arith)
                requires
                    n == unit * q + n as int % unit as int,
                    q >= SIGNIFICANDS,
                    n as int % unit as int >= 0,
                    unit >= 1,
            ;
            lemma_pow2_unfold((k + 1) as nat);
            lemma_div_denominator(n as int, unit as int, 2);
            if k >= 128 {
                lemma2_to64_rest();
                lemma_pow2_adds(64, 64);
                if k > 128 {
                    lemma_pow2_strictly_increases(128, k as nat);
                }
                assert(pow2(64) * pow2(64) > u128::MAX) by (nonlinear_arith)
                    requires
                        pow2(64) == 0x1_0000_0000_0000_0000,
                ;
                assert(false);
            }
        }
        q = q / 2;
        unit = unit * 2;
        k += 1;
    }
    proof {
        lemma_fundamental_div_mod(n as int, unit as int);
        assert(q * unit <= n) by (nonlinear_arith)
            requires
                n == unit * q + n as int % unit as int,
                n as int % unit as int >= 0,
                unit >= 1,
        ;
        assert(n - q * unit == n as int % unit as int) by (nonlinear_arith)
            requires
                n == unit * q + n as int % unit as int,
        ;
    }
    let rest: u128 = n - q * unit;
    let more: u128 = unit - rest;
    let significand: u64 = q as u64;
    if rest > more || (rest == more && significand % 2 == 1) {
        (significand + 1, k)
    } else {
        (significand, k)
    }
}

/// Multiplies two numbers with powers of two.
fn multiply(a: (u64, i64), b: (u64, i64)) -> (r: (u64, i64))
    requires
        a.0 <= SIGNIFICANDS,
        b.0 <= SIGNIFICANDS,
        -10_000 <= a.1 <= 10_000,
        -10_000 <= b.1 <= 10_000,
    ensures
        r.0 == product((a.0 as int, a.1 as int), (b.0 as int, b.1 as int)).0,
        r.1 == product((a.0 as int, a.1 as int), (b.0 as int, b.1 as int)).1,
        r.0 <= SIGNIFICANDS,
        a.1 + b.1 <= r.1 <= a.1 + b.1 + 128,
{
    assert(a.0 * b.0 <= SIGNIFICANDS * SIGNIFICANDS) by (nonlinear_arith)
        requires
            a.0 <= SIGNIFICANDS,
            b.0 <= SIGNIFICANDS,
    ;
    let r = round(a.0 as u128 * b.0 as u128);
    (r.0, r.1 + a.1 + b.1)
}

/// Divides a number with a power of two by another.
fn divide(a: (u64, i64), b: (u64, i64)) -> (r: (u64, i64))
    requires
        0 < a.0 <= SIGNIFICANDS,
        0 < b.0 <= SIGNIFICANDS,
        0 <= a.1 <= 128,
        0 <= b.1 <= 128,
    ensures
        r.0 == quotient((a.0 as int, a.1 as int), (b.0 as int, b.1 as int)).0,
        r.1 == quotient((a.0 as int, a.1 as int), (b.0 as int, b.1 as int)).1,
        r.0 <= SIGNIFICANDS,
        -1_000 <= r.1 <= 1_000,
{
    let mut lifted: u64 = a.0;
    let mut k: i64 = 0;
    proof {
        lemma2_to64();
        assert(lifted * pow2(deficit(lifted as int)) == a.0 * pow2(deficit(a.0 as int)));
    }
    while lifted < FRACTIONS
        invariant
            0 < lifted <= SIGNIFICANDS,
            0 <= k <= 52,
            lifted >= pow2(k as nat),
            k + deficit(lifted as int) == deficit(a.0 as int),
            lifted * pow2(deficit(lifted as int)) == a.0 * pow2(deficit(a.0 as int)),
        decreases SIGNIFICANDS - lifted,
    {
        proof {
            let d = deficit(2 * lifted);
            lemma_pow2_unfold(d + 1);
            lemma_pow2_unfold((k + 1) as nat);
            assert((2 * lifted) * pow2(d) == lifted * (2 * pow2(d))) by (nonlinear_arith);
            if k == 52 {
                lemma2_to64_rest();
                assert(pow2(52) == FRACTIONS);
            }
        }
        lifted = lifted * 2;
        k += 1;
    }
    assert(lifted * pow2(0) == a.0 * pow2(deficit(a.0 as int)));
    assert(pow2(0) == 1 && pow2(56) == 0x100_0000_0000_0000) by {
        lemma2_to64();
        lemma2_to64_rest();
    }
    let n: u128 = lifted as u128 * 0x100_0000_0000_0000;
    let d: u128 = b.0 as u128;
    let q: u128 = n / d;
    assert(q <= n) by (nonlinear_arith)
        requires
            q == n / d,
            d >= 1,
    ;
    let r = if n % d == 0 {
        round(2 * q)
    } else {
        round(2 * q + 1)
    };
    (r.0, r.1 + a.1 - b.1 - k - 57)
}

/// Tells whether `x` times two to the power of `e` is no more than `y`.
fn grows_within(x: u128, e: u64, y: u128) -> (r: bool)
    ensures
        r == (x * pow2(e as nat) <= y),
{
    let mut scaled: u128 = x;
    let mut left: u64 = e;
    while left > 0
        invariant
            x * pow2(e as nat) == scaled * pow2(left as nat),
        decreases left,
    {
        proof {
            lemma_pow2_pos(left as nat);
            lemma_pow2_unfold(left as nat);
        }
        let ghost half = pow2((left - 1) as nat) as int;
        if scaled == 0 {
            return true;
        }
        if scaled > y / 2 {
            assert(scaled * (2 * half) > y) by (nonlinear_arith)
                requires
                    scaled > y / 2,
                    half >= 1,
            ;
            return false;
        }
        assert(scaled * (2 * half) == (scaled * 2) * half) by (nonlinear_arith);
        scaled = scaled * 2;
        left = left - 1;
    }
    assert(scaled * pow2(left as nat) == scaled) by {
        lemma2_to64();
    }
    scaled <= y
}

/// Tells whether an entry keeps the sum of what becomes effective within 64 bits.
pub fn step_bounded(
    so_far: u64,
    remaining: u64,
    entry: (u64, u64, u64, u64),
    rate_bits: u64,
) -> (r: bool)
    requires
        remaining > 0,
        entry.2 > 0,
    ensures
        r == step_is_bounded(so_far, remaining, entry, rate_bits),
{
    if so_far == 0 || rate_bits > RATE_OF_INFINITY {
        return true;
    }
    let rate: (u64, i64) = if rate_bits < FRACTIONS {
        (rate_bits, -1074)
    } else {
        (rate_bits % FRACTIONS + FRACTIONS, (rate_bits / FRACTIONS) as i64 - 1075)
    };
    proof {
        lemma_rounded_positive(remaining as nat);
        lemma_rounded_positive(entry.2 as nat);
    }
    let share = divide(round(remaining as u128), round(entry.2 as u128));
    let growth = multiply(round(entry.1 as u128), rate);
    let newly = multiply(share, growth);
    if newly.1 >= 0 {
        grows_within(newly.0 as u128, newly.1 as u64, (u64::MAX - so_far) as u128)
    } else {
        let limit: u128 = (u64::MAX - so_far) as u128 + 1;
        !grows_within(limit, (-newly.1) as u64, newly.0 as u128)
    }
}

/// A positive number is not rounded to zero.
proof fn lemma_rounded_positive(n: nat)
    requires
        n > 0,
    ensures
        rounded(n).0 > 0,
{
    lemma_surplus_least(n);
    lemma_pow2_pos(surplus(n));
    let unit = pow2(surplus(n)) as int;
    assert(n as int / unit >= 1) by (nonlinear_arith)
        requires
            n >= unit,
            unit >= 1,
    ;
}

/// The digits beyond 53 are fewer than all digits.
proof fn lemma_surplus_least(n: nat)
    requires
        n > 0,
    ensures
        pow2(surplus(n)) <= n,
    decreases n,
{
    lemma2_to64();
    if n >= SIGNIFICANDS {
        lemma_surplus_least(n / 2);
        lemma_pow2_unfold(surplus(n));
    }
}

/// Rounding gives the nearest number of 53 binary digits, times a power of two that is no
/// larger than it needs to be; halfway it gives the even one.
pub proof fn law_rounded_is_nearest(n: nat)
    ensures
        ({
            let (m, k) = rounded(n);
            let unit = pow2(k as nat) as int;
            &&& k >= 0
            &&& 0 <= m <= 0x20_0000_0000_0000
            &&& n < 0x20_0000_0000_0000 ==> m == n && k == 0
            &&& n >= 0x20_0000_0000_0000 ==> k > 0 && m >= 0x10_0000_0000_0000
            &&& 2 * (m * unit - n) <= unit
            &&& 2 * (n - m * unit) <= unit
            &&& 2 * (m * unit - n) == unit || 2 * (n - m * unit) == unit ==> m % 2 == 0
        }),
{
    lemma2_to64();
    lemma_digits(n);
    let k = surplus(n);
    let unit = pow2(k) as int;
    lemma_pow2_pos(k);
    let q = n as int / unit;
    let rest = n as int % unit;
    lemma_fundamental_div_mod(n as int, unit);
    assert((q + 1) * unit == unit * q + unit) by (nonlinear_arith);
    assert(q * unit == unit * q) by (nonlinear_arith);
    assert(0 <= q) by (nonlinear_arith)
        requires
            q == n as int / unit,
            unit > 0,
    ;
    if k == 0 {
        assert(unit * q == q) by (nonlinear_arith)
            requires
                unit == 1,
        ;
    }
}

/// Without the digits beyond 53, a number has 53 digits, or all it had.
proof fn lemma_digits(n: nat)
    ensures
        n as int / (pow2(surplus(n)) as int) < SIGNIFICANDS,
        n >= SIGNIFICANDS ==> surplus(n) > 0 && n as int / (pow2(surplus(n)) as int) >= FRACTIONS,
    decreases n,
{
    lemma2_to64();
    if n >= SIGNIFICANDS {
        lemma_digits(n / 2);
        let k = surplus(n / 2);
        lemma_pow2_pos(k);
        lemma_pow2_unfold(k + 1);
        lemma_div_denominator(n as int, 2, pow2(k) as int);
    }
}

/// A quotient times the divisor is the dividend, up to the rounding: it lies within half of
/// the last of its 53 binary digits, and one unit of the scale on which it was found.
pub proof fn law_quotient_is_close(a: (int, int), b: (int, int))
    requires
        0 < a.0,
        0 < b.0,
    ensures
        ({
            let (m, e) = quotient(a, b);
            let k = e - a.1 + b.1 + deficit(a.0) + 57;
            let n = 2 * (a.0 * pow2(deficit(a.0)) * pow2(56));
            let found = m * pow2(k as nat);
            &&& k >= 0
            &&& 2 * (found * b.0 - n) <= (pow2(k as nat) + 2) * b.0
            &&& 2 * (n - found * b.0) <= (pow2(k as nat) + 2) * b.0
        }),
{
    let d = b.0;
    lemma_pow2_pos(deficit(a.0));
    lemma_pow2_pos(56);
    let n = a.0 * pow2(deficit(a.0)) * pow2(56);
    assert(n > 0) by (nonlinear_arith)
        requires
            a.0 > 0,
            pow2(deficit(a.0)) > 0,
            pow2(56) > 0,
            n == a.0 * pow2(deficit(a.0)) * pow2(56),
    ;
    lemma_fundamental_div_mod(n, d);
    let q = n / d;
    let rest = n % d;
    assert(q >= 0) by (nonlinear_arith)
        requires
            q == n / d,
            n > 0,
            d > 0,
    ;
    let odd = 2 * q + if rest == 0 {
        0int
    } else {
        1
    };
    law_rounded_is_nearest(odd as nat);
    let (m, k) = rounded(odd as nat);
    let unit = pow2(k as nat) as int;
    let found = m * unit;
    assert(-d <= odd * d - 2 * n <= d) by (nonlinear_arith)
        requires
            n == d * q + rest,
            0 <= rest < d,
            rest == 0 ==> odd == 2 * q,
            rest != 0 ==> odd == 2 * q + 1,
    ;
    assert(2 * (found * d) - 2 * (odd * d) <= unit * d) by (nonlinear_arith)
        requires
            2 * (found - odd) <= unit,
            d > 0,
    ;
    assert(2 * (odd * d) - 2 * (found * d) <= unit * d) by (nonlinear_arith)
        requires
            2 * (odd - found) <= unit,
            d > 0,
    ;
    assert((unit + 2) * d == unit * d + 2 * d) by (nonlinear_arith);
}

/// A number with a power of two is below a limit as the number is without it: the power can
/// be moved into the number, or out of it into the limit.
pub proof fn law_is_below(m: int, e: int, limit: int)
    ensures
        is_below((m, 0), limit) <==> m < limit,
        is_below((m, e + 1), limit) <==> is_below((2 * m, e), limit),
{
    lemma2_to64();
    if e >= 0 {
        lemma_pow2_unfold((e + 1) as nat);
        assert(m * (2 * pow2(e as nat)) == (2 * m) * pow2(e as nat)) by (nonlinear_arith);
    } else {
        lemma_pow2_unfold((-e) as nat);
        let half = pow2((-e - 1) as nat) as int;
        lemma_pow2_pos((-e - 1) as nat);
        assert(limit * (2 * half) == 2 * (limit * half)) by (nonlinear_arith);
        if e == -1 {
            assert(pow2(0) == 1);
            assert(limit * half == limit) by (nonlinear_arith)
                requires
                    half == 1,
            ;
            assert(m * pow2(0) == m) by (nonlinear_arith)
                requires
                    pow2(0) == 1,
            ;
        }
    }
}

/// A step is bounded exactly where what becomes effective, added to the sum so far, is less
/// than two to the power of 64. The first step always is, and so is one at a rate that is
/// negative or no number. A smaller sum so far leaves no less room.
pub proof fn law_step(
    so_far: u64,
    smaller: u64,
    remaining: u64,
    entry: (u64, u64, u64, u64),
    rate_bits: u64,
)
    requires
        smaller <= so_far,
    ensures
        so_far > 0 && rate_bits <= 0x7ff0_0000_0000_0000 ==> (step_is_bounded(
            so_far,
            remaining,
            entry,
            rate_bits,
        ) <==> is_below(
            product(
                quotient(rounded(remaining as nat), rounded(entry.2 as nat)),
                product(rounded(entry.1 as nat), rate(rate_bits)),
            ),
            0x1_0000_0000_0000_0000 - so_far,
        )),
        step_is_bounded(0, remaining, entry, rate_bits),
        rate_bits > 0x7ff0_0000_0000_0000 ==> step_is_bounded(so_far, remaining, entry, rate_bits),
        step_is_bounded(so_far, remaining, entry, rate_bits) ==> step_is_bounded(
            smaller,
            remaining,
            entry,
            rate_bits,
        ),
{
    let newly = newly_effective(remaining, entry, rate_bits);
    if newly.1 < 0 {
        let p = pow2((-newly.1) as nat) as int;
        lemma_pow2_pos((-newly.1) as nat);
        assert((u64::MAX + 1 - so_far) * p <= (u64::MAX + 1 - smaller) * p) by (nonlinear_arith)
            requires
                smaller <= so_far,
                p > 0,
        ;
    }
}

/// In a history that goes from the newest epoch down, a lookup finds the entry for an epoch,
/// and none where there is none.
pub proof fn law_lookup(history: Seq<(u64, u64, u64, u64)>, epoch: u64, k: int)
    requires
        is_newest_first(history),
    ensures
        0 <= k < history.len() && history[k].0 == epoch ==> entry_for(history, epoch) == Some(
            history[k],
        ),
        (forall|j: int| 0 <= j < history.len() ==> (#[trigger] history[j]).0 != epoch) ==> entry_for(
            history,
            epoch,
        ) is None,
{
    if 0 <= k < history.len() && history[k].0 == epoch {
        assert(is_entry_for(history, epoch, k));
        let other = choose|other: int| is_entry_for(history, epoch, other);
        assert(is_entry_for(history, epoch, other));
        if other < k {
            assert(history[other].0 > history[k].0);
        } else if k < other {
            assert(history[k].0 > history[other].0);
        }
    }
}

/// No sum is refused without a second step: up to the epoch after that of the activation or
/// of the deactivation, where the history tells of no activating stake in the epoch of the
/// activation, or where the whole stake is effective after the first.
pub proof fn law_one_step_is_bounded(
    warmup: Warmup,
    epoch: u64,
    history: Seq<(u64, u64, u64, u64)>,
)
    requires
        ({
            ||| epoch <= warmup.activation_epoch + 1
            ||| warmup.deactivation_epoch <= warmup.activation_epoch + 1
            ||| entry_for(history, warmup.activation_epoch) is None
            ||| entry_for(history, warmup.activation_epoch).unwrap().2 == 0
            ||| warmup.activation_epoch < u64::MAX && stake_activation(
                warmup.stake,
                warmup.activation_epoch,
                warmup.deactivation_epoch,
                warmup.rate_bits,
                (warmup.activation_epoch + 1) as u64,
                history,
            ).1 == 0
        }),
    ensures
        warmup.is_bounded(epoch, history),
{
    assert forall|e: u64|
        warmup.activation_epoch < e < epoch && e < warmup.deactivation_epoch
            && #[trigger] warmup.warms_up_in(e, history) implies warmup.epoch_is_bounded(
        e,
        history,
    ) by {
        let next = (warmup.activation_epoch + 1) as u64;
        assert(has_activating(history, warmup.activation_epoch));
        assert(warmup.activation(next, history).1 > 0);
    }
}

/// Where a sum is refused, there is an epoch after that of the activation, before the current
/// one and before that of the deactivation, in which some of the stake is still activating,
/// and whose entry takes the sum beyond 64 bits.
pub proof fn law_refused_sum_overflows(
    warmup: Warmup,
    epoch: u64,
    history: Seq<(u64, u64, u64, u64)>,
) -> (e: u64)
    requires
        !warmup.is_bounded(epoch, history),
    ensures
        ({
            let (effective, activating, _) = stake_activation(
                warmup.stake,
                warmup.activation_epoch,
                warmup.deactivation_epoch,
                warmup.rate_bits,
                e,
                history,
            );
            &&& warmup.activation_epoch < e < epoch
            &&& e < warmup.deactivation_epoch
            &&& activating > 0
            &&& entry_for(history, e) is Some
            &&& entry_for(history, e).unwrap().2 > 0
            &&& !step_is_bounded(
                effective,
                activating,
                entry_for(history, e).unwrap(),
                warmup.rate_bits,
            )
        }),
{
    let e = choose|e: u64|
        warmup.activation_epoch < e < epoch && e < warmup.deactivation_epoch
            && #[trigger] warmup.warms_up_in(e, history) && !warmup.epoch_is_bounded(e, history);
    assert(has_activating(history, e));
    assert(warmup.activation(e, history).1 > 0);
    e
}

/// A step that overflows is refused: for the stake as far as it has warmed up and for the
/// whole stake, in an epoch up to which it has warmed up without a gap in the history.
pub proof fn law_overflow_is_refused(
    warmup: Warmup,
    epoch: u64,
    history: Seq<(u64, u64, u64, u64)>,
    e: u64,
)
    requires
        warmup.activation_epoch < e < epoch,
        e < warmup.deactivation_epoch,
        forall|t: u64|
            warmup.activation_epoch <= t <= e ==> (#[trigger] entry_for(history, t)) is Some
                && entry_for(history, t).unwrap().2 > 0,
        forall|t: u64|
            warmup.activation_epoch < t <= e ==> (#[trigger] warmup.activation(t, history)).1 > 0,
        !step_is_bounded(
            warmup.activation(e, history).0,
            warmup.activation(e, history).1,
            entry_for(history, e).unwrap(),
            warmup.rate_bits,
        ),
        !step_is_bounded(
            warmup.stake,
            warmup.stake,
            entry_for(history, e).unwrap(),
            warmup.rate_bits,
        ),
    ensures
        !warmup.is_bounded(epoch, history),
{
    assert forall|t: u64| warmup.activation_epoch <= t <= e implies #[trigger] has_activating(
        history,
        t,
    ) by {
        assert(entry_for(history, t) is Some);
    }
    assert(warmup.warms_up_in(e, history));
}

/// A product is the exact one, rounded to the nearest: it lies within half of the last of its
/// 53 binary digits.
pub proof fn law_product_is_nearest(a: (int, int), b: (int, int))
    requires
        0 <= a.0,
        0 <= b.0,
    ensures
        ({
            let (m, e) = product(a, b);
            let k = e - a.1 - b.1;
            let found = m * pow2(k as nat);
            &&& k >= 0
            &&& 0 <= m <= 0x20_0000_0000_0000
            &&& a.0 * b.0 < 0x20_0000_0000_0000 ==> m == a.0 * b.0 && k == 0
            &&& a.0 * b.0 >= 0x20_0000_0000_0000 ==> m >= 0x10_0000_0000_0000
            &&& 2 * (found - a.0 * b.0) <= pow2(k as nat)
            &&& 2 * (a.0 * b.0 - found) <= pow2(k as nat)
        }),
{
    assert(a.0 * b.0 >= 0) by (nonlinear_arith)
        requires
            a.0 >= 0,
            b.0 >= 0,
    ;
    law_rounded_is_nearest((a.0 * b.0) as nat);
}

/// A number is doubled until it has 53 binary digits, and no further.
pub proof fn law_deficit(n: int)
    requires
        0 < n < 0x20_0000_0000_0000,
    ensures
        0x10_0000_0000_0000 <= n * pow2(deficit(n)) < 0x20_0000_0000_0000,
    decreases 0x20_0000_0000_0000 - n,
{
    lemma2_to64();
    if n < FRACTIONS {
        law_deficit(2 * n);
        let d = deficit(2 * n);
        lemma_pow2_unfold(d + 1);
        assert((2 * n) * pow2(d) == n * (2 * pow2(d))) by (nonlinear_arith);
    } else {
        assert(n * pow2(0) == n) by (nonlinear_arith)
            requires
                pow2(0) == 1,
        ;
    }
}

/// The bits of a rate: those of one are known, the next power of two has the next exponent,
/// and the next rate below it the next significand.
pub proof fn law_rate(rate_bits: u64)
    requires
        rate_bits <= 0x7ff0_0000_0000_0000,
    ensures
        rate(0x3ff0_0000_0000_0000) == (0x10_0000_0000_0000int, -52int),
        0x10_0000_0000_0000 <= rate_bits < 0x7fe0_0000_0000_0000 ==> rate(
            (rate_bits + 0x10_0000_0000_0000) as u64,
        ) == (rate(rate_bits).0, rate(rate_bits).1 + 1),
        0x10_0000_0000_0000 <= rate_bits && rate(rate_bits).0 < 0x1f_ffff_ffff_ffff ==> rate(
            (rate_bits + 1) as u64,
        ) == (rate(rate_bits).0 + 1, rate(rate_bits).1),
        rate_bits < 0x10_0000_0000_0000 ==> rate(rate_bits) == (rate_bits as int, -1074int),
{
}

} // verus!
