//! The calls this library makes into `std` where `vstd` gives no contract.
//! Each function here is trusted: Verus believes its contract and does not
//! read its body.
use vstd::prelude::*;
use crate::text::{decimal_i64, decimal_u64, decimal_u128, all_ascii, ascii_upper};
use vstd::utf8::valid_utf8;
use vstd::string::StringSliceAdditionalSpecFns;

verus! {

/// The message that `std::str::Utf8Error`'s `Display` prints for these bytes.
pub uninterp spec fn utf8_error_text(bytes: Seq<u8>) -> Seq<char>;

/// The message that `std::num::ParseIntError`'s `Display` prints when parsing
/// this text as an `i64` fails.
pub uninterp spec fn int_error_text(text: Seq<char>) -> Seq<char>;

/// What `str::to_uppercase` returns for this text (Unicode upper case).
pub uninterp spec fn uppercase(text: Seq<char>) -> Seq<char>;

/// Calls `std::str::from_utf8`. Its documentation: the result is `Ok` with a
/// string slice over exactly these bytes when they are valid UTF-8, and `Err`
/// otherwise. The error is turned into its `Display` text, named above.
#[verifier::external_body]
pub(crate) fn utf8_str(bytes: &[u8]) -> (r: Result<&str, String>)
    ensures
        match r {
            Ok(s) => valid_utf8(bytes@) && s.spec_bytes() == bytes@,
            Err(m) => !valid_utf8(bytes@) && m@ == utf8_error_text(bytes@),
        },
{
    match std::str::from_utf8(bytes) {
        Ok(s) => Ok(s),
        Err(e) => Err(e.to_string()),
    }
}

/// Calls `str::parse::<i64>`. Its documentation: an optional `+` or `-`
/// followed by one or more ASCII digits, whose value fits in `i64`, and
/// nothing else. The error is turned into its `Display` text, named above.
#[verifier::external_body]
pub(crate) fn parse_i64(text: &str) -> (r: Result<i64, String>)
    ensures
        match r {
            Ok(v) => decimal_i64(text@) == Some(v),
            Err(m) => decimal_i64(text@) is None && m@ == int_error_text(text@),
        },
{
    match text.parse::<i64>() {
        Ok(v) => Ok(v),
        Err(e) => Err(e.to_string()),
    }
}

/// Calls `str::parse::<u64>`. Its documentation: an optional `+` followed by
/// one or more ASCII digits, whose value fits in `u64`, and nothing else.
#[verifier::external_body]
pub(crate) fn parse_u64(text: &str) -> (r: Option<u64>)
    ensures
        r == decimal_u64(text@),
{
    text.parse::<u64>().ok()
}

/// Calls `str::parse::<u128>`. Its documentation: an optional `+` followed
/// by one or more ASCII digits, whose value fits in `u128`, and nothing else.
#[verifier::external_body]
pub(crate) fn parse_u128(text: &str) -> (r: Option<u128>)
    ensures
        r == decimal_u128(text@),
{
    text.parse::<u128>().ok()
}

/// Calls `str::to_uppercase`; the result is named by `uppercase`. Its
/// documentation maps each character to its Unicode upper case, which for
/// ASCII text turns `a` to `z` into `A` to `Z` and keeps every other
/// character; what it gives for other text is not stated here.
#[verifier::external_body]
pub(crate) fn to_upper(text: &str) -> (r: String)
    ensures
        r@ == uppercase(text@),
        all_ascii(text@) ==> r@ == ascii_upper(text@),
{
    text.to_uppercase()
}

/// Calls `char::to_string`: the string of that one character.
#[verifier::external_body]
pub(crate) fn char_text(c: char) -> (r: String)
    ensures
        r@ == seq![c],
{
    c.to_string()
}

/// Reads the wall clock (`std::time::SystemTime`) in milliseconds since the
/// Unix epoch (0 if it reads before the epoch). Nothing is promised of the
/// value: it depends on the machine and the moment.
#[verifier::external_body]
pub(crate) fn clock_millis() -> (r: u64)
{
    match std::time::SystemTime::now().duration_since(std::time::UNIX_EPOCH) {
        Ok(d) => d.as_millis() as u64,
        Err(_) => 0,
    }
}

} // verus!
