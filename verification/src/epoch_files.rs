//! The names of the files that hold the classification of an epoch.
use vstd::prelude::*;
use vstd::string::*;

use crate::decimal::{
    is_digit, is_u64_numeral, law_numeral_round_trip, numeral, numeral_value, parse_numeral,
    to_numeral,
};
use crate::outside::{capture_digits, regex_capture, text_of};

verus! {

/// The pattern of a file name; its group holds the epoch.
pub const EPOCH_FILE_PATTERN: &'static str = r"^epoch-(\d+).yml$";

/// A text has the form of a file name, whatever stands in place of the digits: `epoch-`,
/// one character or more, any character but a line feed, and `yml`.
pub open spec fn has_form(text: Seq<char>) -> bool {
    let n = text.len() as int;
    &&& 11 <= n
    &&& text.take(6) == seq!['e', 'p', 'o', 'c', 'h', '-']
    &&& text.skip(n - 3) == seq!['y', 'm', 'l']
    &&& text[n - 4] != '\n'
}

/// What stands in place of the digits.
pub open spec fn epoch_middle(text: Seq<char>) -> Option<Seq<char>> {
    if has_form(text) {
        Some(text.subrange(6, text.len() - 4))
    } else {
        None
    }
}

/// What the pattern captures, as far as digits are those of ASCII.
pub open spec fn epoch_digits(text: Seq<char>) -> Option<Seq<char>> {
    match epoch_middle(text) {
        Some(middle) if (forall|i: int| 0 <= i < middle.len() ==> is_digit(#[trigger] middle[i]))
            => Some(middle),
        _ => None,
    }
}

/// A character is one of ASCII.
pub open spec fn is_ascii(c: char) -> bool {
    c <= '\u{7f}'
}

/// It needs no more than the digits of ASCII to tell what the pattern captures: the text
/// has not the form of a file name, or what stands in place of the digits is made of ASCII
/// characters or holds one that is no digit.
pub open spec fn is_plain(text: Seq<char>) -> bool {
    match epoch_middle(text) {
        Some(middle) => {
            ||| forall|i: int| 0 <= i < middle.len() ==> is_ascii(#[trigger] middle[i])
            ||| exists|i: int|
                0 <= i < middle.len() && is_ascii(#[trigger] middle[i]) && !is_digit(middle[i])
        },
        None => true,
    }
}

/// The name of the file of an epoch.
pub open spec fn epoch_file_name(epoch: u64) -> Seq<char> {
    seq!['e', 'p', 'o', 'c', 'h', '-'] + numeral(epoch as nat) + seq!['.', 'y', 'm', 'l']
}

/// What a file name says.
#[derive(Clone, Copy, Debug, PartialEq, Eq)]
pub enum FileNameEpoch {
    /// It is not the name of an epoch's file.
    Other,
    /// It names the file of this epoch.
    Epoch { epoch: u64 },
    /// It has the form of such a name, but its digits are no number of 64 bits.
    Unreadable,
}

/// What a file name says, by what the pattern captures in it.
pub open spec fn captured_epoch(capture: Option<Seq<char>>) -> FileNameEpoch {
    match capture {
        None => FileNameEpoch::Other,
        Some(digits) => if is_u64_numeral(digits) {
            FileNameEpoch::Epoch { epoch: numeral_value(digits) as u64 }
        } else {
            FileNameEpoch::Unreadable
        },
    }
}

/// The name of the file of an epoch.
pub fn file_name(epoch: u64) -> (name: String)
    ensures
        name@ == epoch_file_name(epoch),
        name@ == "epoch-"@ + numeral(epoch as nat) + ".yml"@,
{
    proof {
        reveal_strlit("epoch-");
        reveal_strlit(".yml");
        assert("epoch-"@ =~= seq!['e', 'p', 'o', 'c', 'h', '-']);
        assert(".yml"@ =~= seq!['.', 'y', 'm', 'l']);
    }
    let mut name = String::from_str("epoch-");
    let digits = to_numeral(epoch);
    name.append(digits.as_str());
    name.append(".yml");
    assert(name@ =~= epoch_file_name(epoch));
    name
}

/// Reads the epoch that was captured in a file name.
pub fn read_captured(capture: &Option<String>) -> (r: FileNameEpoch)
    ensures
        r == captured_epoch(text_of(*capture)),
        r is Other <==> capture is None,
        capture matches Some(digits) ==> (r is Unreadable <==> digits@.len() == 0 || (exists|i: int|
            0 <= i < digits@.len() && !('0' <= #[trigger] digits@[i] <= '9')) || numeral_value(
            digits@,
        ) > 0xffff_ffff_ffff_ffff),
        capture matches Some(digits) ==> (r matches FileNameEpoch::Epoch { epoch } ==> epoch
            == numeral_value(digits@)),
{
    match capture {
        None => FileNameEpoch::Other,
        Some(digits) => match parse_numeral(digits.as_str()) {
            Some(epoch) => FileNameEpoch::Epoch { epoch },
            None => FileNameEpoch::Unreadable,
        },
    }
}

/// Reads the epoch in a file name.
pub fn file_name_epoch(name: &str) -> (r: FileNameEpoch)
    ensures
        r == captured_epoch(regex_capture(EPOCH_FILE_PATTERN@, name@)),
        is_plain(name@) ==> r == captured_epoch(epoch_digits(name@)),
        !is_plain(name@) ==> !(r is Epoch),
{
    let capture = capture_digits(EPOCH_FILE_PATTERN, name);
    let r = read_captured(&capture);
    proof {
        if !is_plain(name@) && r is Epoch {
            let middle = epoch_middle(name@).unwrap();
            assert(is_u64_numeral(middle));
            assert forall|i: int| 0 <= i < middle.len() implies is_ascii(#[trigger] middle[i]) by {
                assert(is_digit(middle[i]));
            }
        }
    }
    r
}

/// The name written for an epoch is read back as that epoch.
pub proof fn law_file_name_round_trip(epoch: u64)
    ensures
        captured_epoch(epoch_digits(epoch_file_name(epoch))) == (FileNameEpoch::Epoch { epoch }),
        is_plain(epoch_file_name(epoch)),
{
    let digits = numeral(epoch as nat);
    let name = epoch_file_name(epoch);
    let n = name.len() as int;
    law_numeral_round_trip(epoch as nat);
    assert(name.take(6) =~= seq!['e', 'p', 'o', 'c', 'h', '-']);
    assert(name.skip(n - 3) =~= seq!['y', 'm', 'l']);
    assert(name.subrange(6, n - 4) =~= digits);
    assert(epoch_middle(name) == Some(digits));
    assert forall|i: int| 0 <= i < digits.len() implies is_ascii(#[trigger] digits[i]) by {
        assert(is_digit(digits[i]));
    }
}

/// A name of `epoch-`, ASCII digits, any character but a line feed, and `yml` names the epoch
/// that the digits give, where it fits in 64 bits.
pub proof fn law_epoch_in_a_name(digits: Seq<char>, c: char)
    requires
        digits.len() > 0,
        forall|k: int| 0 <= k < digits.len() ==> '0' <= #[trigger] digits[k] <= '9',
        c != '\n',
    ensures
        ({
            let name = "epoch-"@ + digits + seq![c] + "yml"@;
            &&& is_plain(name)
            &&& numeral_value(digits) <= 0xffff_ffff_ffff_ffff ==> (captured_epoch(
                epoch_digits(name),
            ) matches FileNameEpoch::Epoch { epoch } && epoch == numeral_value(digits))
            &&& numeral_value(digits) > 0xffff_ffff_ffff_ffff ==> captured_epoch(
                epoch_digits(name),
            ) is Unreadable
        }),
{
    reveal_strlit("epoch-");
    reveal_strlit("yml");
    let name = "epoch-"@ + digits + seq![c] + "yml"@;
    let n = name.len() as int;
    assert(name.take(6) =~= seq!['e', 'p', 'o', 'c', 'h', '-']);
    assert(name.skip(n - 3) =~= seq!['y', 'm', 'l']);
    assert(name[n - 4] == c);
    assert(name.subrange(6, n - 4) =~= digits);
    assert(epoch_middle(name) == Some(digits));
    assert forall|k: int| 0 <= k < digits.len() implies is_digit(#[trigger] digits[k]) && is_ascii(
        digits[k],
    ) by {}
}

/// A plain name that is not passed over has this form.
pub proof fn law_other_names_are_passed_over(name: Seq<char>) -> (found: (Seq<char>, char))
    requires
        !(captured_epoch(epoch_digits(name)) is Other),
    ensures
        name == "epoch-"@ + found.0 + seq![found.1] + "yml"@,
        found.1 != '\n',
        found.0.len() > 0,
        forall|k: int| 0 <= k < found.0.len() ==> '0' <= #[trigger] found.0[k] <= '9',
{
    reveal_strlit("epoch-");
    reveal_strlit("yml");
    let n = name.len() as int;
    let digits = name.subrange(6, n - 4);
    let c = name[n - 4];
    assert(has_form(name));
    assert forall|k: int| 0 <= k < digits.len() implies '0' <= #[trigger] digits[k] <= '9' by {
        assert(is_digit(digits[k]));
    }
    assert forall|i: int| 0 <= i < n implies name[i] == #[trigger] ("epoch-"@ + digits + seq![c]
        + "yml"@)[i] by {
        if i < 6 {
            assert(name[i] == name.take(6)[i]);
        } else if i >= n - 3 {
            assert(name[i] == name.skip(n - 3)[i - (n - 3)]);
        }
    }
    assert(name =~= "epoch-"@ + digits + seq![c] + "yml"@);
    (digits, c)
}

} // verus!
