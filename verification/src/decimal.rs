//! Decimal numerals: writing a number as text and reading it back.
use vstd::arithmetic::power::{lemma_pow0, pow};
use vstd::prelude::*;
use vstd::string::*;

verus! {

/// The character of a decimal digit.
pub open spec fn digit_char(digit: nat) -> char {
    (('0' as nat) + digit) as char
}

/// A character is one of the ten ASCII digits.
pub open spec fn is_digit(c: char) -> bool {
    '0' <= c <= '9'
}

/// The decimal numeral of a number, without leading zeros.
pub open spec fn numeral(n: nat) -> Seq<char>
    decreases n,
{
    if n < 10 {
        seq![digit_char(n)]
    } else {
        numeral(n / 10).push(digit_char(n % 10))
    }
}

/// The number that a string of ASCII digits stands for.
pub open spec fn numeral_value(digits: Seq<char>) -> nat
    recommends
        forall|i: int| 0 <= i < digits.len() ==> is_digit(digits[i]),
    decreases digits.len(),
{
    if digits.len() == 0 {
        0
    } else {
        numeral_value(digits.drop_last()) * 10 + (digits.last() as nat - '0' as nat) as nat
    }
}

/// A text is a non-empty string of ASCII digits whose value fits in 64 bits.
pub open spec fn is_u64_numeral(text: Seq<char>) -> bool {
    &&& text.len() > 0
    &&& forall|i: int| 0 <= i < text.len() ==> is_digit(#[trigger] text[i])
    &&& numeral_value(text) <= u64::MAX
}

/// The digit as a one-character text.
fn digit_text(digit: u64) -> (text: &'static str)
    requires
        digit < 10,
    ensures
        text@ == seq![digit_char(digit as nat)],
{
    proof {
        reveal_strlit("0");
        reveal_strlit("1");
        reveal_strlit("2");
        reveal_strlit("3");
        reveal_strlit("4");
        reveal_strlit("5");
        reveal_strlit("6");
        reveal_strlit("7");
        reveal_strlit("8");
        reveal_strlit("9");
    }
    let text = match digit {
        0 => "0",
        1 => "1",
        2 => "2",
        3 => "3",
        4 => "4",
        5 => "5",
        6 => "6",
        7 => "7",
        8 => "8",
        _ => "9",
    };
    assert(text@ =~= seq![digit_char(digit as nat)]);
    text
}

/// Writes a number in decimal.
pub fn to_numeral(n: u64) -> (text: String)
    ensures
        text@ == numeral(n as nat),
    decreases n,
{
    if n < 10 {
        let mut text = String::new();
        text.append(digit_text(n));
        assert(text@ =~= numeral(n as nat));
        text
    } else {
        let mut text = to_numeral(n / 10);
        text.append(digit_text(n % 10));
        assert(text@ =~= numeral(n as nat));
        text
    }
}

/// A longer string of digits never stands for a smaller number.
proof fn lemma_value_grows(digits: Seq<char>, i: int)
    requires
        0 <= i <= digits.len(),
    ensures
        numeral_value(digits.take(i)) <= numeral_value(digits),
    decreases digits.len() - i,
{
    if i < digits.len() {
        lemma_value_grows(digits, i + 1);
        assert(digits.take(i + 1).drop_last() =~= digits.take(i));
    } else {
        assert(digits.take(i) =~= digits);
    }
}

/// Reads a decimal numeral: the value, if the text is a non-empty string of ASCII
/// digits whose value fits in 64 bits.
pub fn parse_numeral(text: &str) -> (r: Option<u64>)
    ensures
        match r {
            Some(n) => is_u64_numeral(text@) && n == numeral_value(text@),
            None => !is_u64_numeral(text@),
        },
        r is Some <==> {
            &&& text@.len() > 0
            &&& forall|i: int| 0 <= i < text@.len() ==> '0' <= #[trigger] text@[i] <= '9'
            &&& numeral_value(text@) <= 0xffff_ffff_ffff_ffff
        },
{
    let len = text.unicode_len();
    if len == 0 {
        return None;
    }
    let mut n: u64 = 0;
    let mut i: usize = 0;
    assert(text@.take(0) =~= Seq::<char>::empty());
    while i < len
        invariant
            len == text@.len(),
            0 < len,
            i <= len,
            forall|j: int| 0 <= j < i ==> is_digit(#[trigger] text@[j]),
            n == numeral_value(text@.take(i as int)),
        decreases len - i,
    {
        let c = text.get_char(i);
        if c < '0' || c > '9' {
            assert(!is_digit(text@[i as int]));
            return None;
        }
        let digit: u64 = (c as u32 - '0' as u32) as u64;
        proof {
            assert(text@.take(i + 1).drop_last() =~= text@.take(i as int));
            assert(text@.take(i + 1).last() == c);
            lemma_value_grows(text@, i + 1);
        }
        if n > u64::MAX / 10 {
            return None;
        }
        let shifted: u64 = n * 10;
        if shifted > u64::MAX - digit {
            return None;
        }
        n = shifted + digit;
        i += 1;
    }
    assert(text@.take(len as int) =~= text@);
    Some(n)
}

/// A numeral is a non-empty string of ASCII digits, and reading it gives back the
/// number that was written.
pub proof fn law_numeral_round_trip(n: nat)
    ensures
        numeral(n).len() > 0,
        forall|i: int| 0 <= i < numeral(n).len() ==> is_digit(#[trigger] numeral(n)[i]),
        numeral_value(numeral(n)) == n,
    decreases n,
{
    if n < 10 {
        assert(numeral(n).drop_last() =~= Seq::<char>::empty());
        assert(numeral_value(Seq::<char>::empty()) == 0);
    } else {
        law_numeral_round_trip(n / 10);
        assert(numeral(n).drop_last() =~= numeral(n / 10));
    }
}

/// Digits count by their place: the digits before others are worth ten times as much for
/// each that follows, and a digit alone is worth its distance from zero.
pub proof fn law_digits_count_by_place(high: Seq<char>, low: Seq<char>, digit: char)
    ensures
        numeral_value(high + low) == numeral_value(high) * pow(10, low.len()) + numeral_value(low),
        '0' <= digit <= '9' ==> numeral_value(seq![digit]) == digit as int - '0' as int,
        numeral_value(Seq::empty()) == 0,
    decreases low.len(),
{
    assert(seq![digit].drop_last() =~= Seq::empty());
    assert(numeral_value(Seq::empty()) == 0);
    if low.len() == 0 {
        assert(high + low =~= high);
        lemma_pow0(10);
    } else {
        let rest = low.drop_last();
        law_digits_count_by_place(high, rest, digit);
        assert((high + low).drop_last() =~= high + rest);
        reveal(pow);
        let h = numeral_value(high) as int;
        let p = pow(10, rest.len());
        assert(pow(10, low.len()) == 10 * p);
        assert((h * p) * 10 == h * (10 * p)) by (nonlinear_arith);
    }
}

/// A numeral has no leading zero, but for that of zero itself.
pub proof fn law_numeral_has_no_leading_zero(n: nat)
    ensures
        n > 0 ==> numeral(n)[0] != '0',
        n == 0 ==> numeral(n) == seq!['0'],
    decreases n,
{
    if n >= 10 {
        law_numeral_has_no_leading_zero(n / 10);
        law_numeral_round_trip(n / 10);
    }
}

} // verus!
