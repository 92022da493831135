//! The render settings given on the command line, and the check of their
//! numeric values.
use vstd::prelude::*;

verus! {

/// What the command line asks for.
pub struct Args {
    pub width: i32,
    pub height: i32,
    pub pixel_samples: i32,
    pub output: String,
    pub scene: String,
}

/// `s` is one or more ASCII decimal digits.
pub open spec fn all_digits(s: Seq<char>) -> bool {
    s.len() > 0 && forall|i: int| 0 <= i < s.len() ==> '0' <= #[trigger] s[i] <= '9'
}

/// The value of a run of decimal digits.
pub open spec fn digits_value(s: Seq<char>) -> int
    decreases s.len(),
{
    if s.len() == 0 {
        0
    } else {
        10 * digits_value(s.drop_last()) + (s.last() as int - '0' as int)
    }
}

/// The integer written in decimal in `s`: an optional `+` or `-` and then
/// one or more digits; `None` for any other text.
pub open spec fn decimal_value(s: Seq<char>) -> Option<int> {
    if s.len() > 0 && s[0] == '-' && all_digits(s.drop_first()) {
        Some(-digits_value(s.drop_first()))
    } else if s.len() > 0 && s[0] == '+' && all_digits(s.drop_first()) {
        Some(digits_value(s.drop_first()))
    } else if all_digits(s) {
        Some(digits_value(s))
    } else {
        None
    }
}

/// What `str::parse::<i32>` gives for `s`: the decimal value where it fits
/// in an `i32`, else `None`.
pub open spec fn parsed_i32(s: Seq<char>) -> Option<i32> {
    match decimal_value(s) {
        Some(v) => if i32::MIN <= v <= i32::MAX {
            Some(v as i32)
        } else {
            None
        },
        None => None,
    }
}

/// Relies on `str::parse::<i32>` (`i32::from_str`, radix 10): an optional
/// sign, then one or more ASCII digits, with a value in range; any other
/// text, the empty text, or an overflow is refused.
#[verifier::external_body]
fn parse_i32(s: &str) -> (r: Option<i32>)
    ensures
        r == parsed_i32(s@),
{
    s.parse::<i32>().ok()
}

/// Message given for a value that is not a positive integer.
pub open spec fn positive_integer_expected() -> Seq<char> {
    "Positive interger expected"@
}

/// Accepts a parsed value that is an integer above zero; `None` stands for
/// a text that did not read as an integer.
pub fn check_positive(parsed: Option<i32>) -> (r: Result<(), String>)
    ensures
        r is Ok <==> (parsed matches Some(i) && i > 0),
        r matches Err(e) ==> e@ == positive_integer_expected(),
{
    match parsed {
        Some(i) if i > 0 => Ok(()),
        _ => Err("Positive interger expected".to_string()),
    }
}

/// Accepts a text that reads as an integer above zero.
pub fn is_positive_integer_arg(arg: String) -> (r: Result<(), String>)
    ensures
        r is Ok <==> (parsed_i32(arg@) matches Some(i) && i > 0),
        r matches Err(e) ==> e@ == positive_integer_expected(),
{
    check_positive(parse_i32(arg.as_str()))
}

} // verus!
