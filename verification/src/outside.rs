//! Calls into code that is not verified here: the `nom` crate and parts of
//! the standard library. What a function of this module promises is believed,
//! not proved; its comment names the function that it calls and says what is
//! claimed of it.

use crate::combinator::{
    spec_compare, spec_crlf, spec_digit, spec_find_substring, CompareResult, ErrorKind, IResult,
    Needed,
};
use vstd::prelude::*;
use vstd::string::StringSliceAdditionalSpecFns;
use vstd::utf8::valid_utf8;

verus! {

/// `std::io::Error`, which an error holds and hands on without looking
/// inside.
#[verifier::external_type_specification]
#[verifier::external_body]
pub struct ExIoError(std::io::Error);

/// `nom::digit` on a byte slice. An empty input is `Incomplete(Unknown)`, an
/// input that starts with another byte than an ASCII digit is
/// `Error(Digit)`, and any other input is split after its longest prefix of
/// ASCII digits: `Done` holds what follows the digits, then the digits.
#[verifier::external_body]
pub(crate) fn digit<'a>(input: &'a [u8]) -> (r: IResult<&'a [u8], &'a [u8]>)
    ensures
        r@ == spec_digit(input@),
{
    match nom::digit(input) {
        nom::IResult::Done(rest, run) => IResult::Done(rest, run),
        nom::IResult::Error(_) => IResult::Error(ErrorKind::Digit),
        nom::IResult::Incomplete(nom::Needed::Size(n)) => IResult::Incomplete(Needed::Size(n)),
        nom::IResult::Incomplete(nom::Needed::Unknown) => IResult::Incomplete(Needed::Unknown),
    }
}

/// `nom::crlf` on a byte slice. It compares the input to the two bytes CR LF:
/// an input that starts with them is split after them, an input that is a
/// proper prefix of them (empty, or CR alone) is `Incomplete(Size(2))`, and
/// any other input is `Error(CrLf)`.
#[verifier::external_body]
pub(crate) fn crlf<'a>(input: &'a [u8]) -> (r: IResult<&'a [u8], &'a [u8]>)
    ensures
        r@ == spec_crlf(input@),
{
    match nom::crlf(input) {
        nom::IResult::Done(rest, eol) => IResult::Done(rest, eol),
        nom::IResult::Error(_) => IResult::Error(ErrorKind::CrLf),
        nom::IResult::Incomplete(nom::Needed::Size(n)) => IResult::Incomplete(Needed::Size(n)),
        nom::IResult::Incomplete(nom::Needed::Unknown) => IResult::Incomplete(Needed::Unknown),
    }
}

/// `nom::Compare::compare` of a byte slice with a byte slice. It compares
/// the two over the length of the shorter one: if they differ there the
/// result is `Mismatch`; else, if the input is the shorter one, `Incomplete`;
/// else `Match`.
#[verifier::external_body]
pub(crate) fn compare(input: &[u8], expected: &[u8]) -> (r: CompareResult)
    ensures
        r == spec_compare(input@, expected@),
{
    match nom::Compare::compare(&input, expected) {
        nom::CompareResult::Ok => CompareResult::Match,
        nom::CompareResult::Incomplete => CompareResult::Incomplete,
        nom::CompareResult::Error => CompareResult::Mismatch,
    }
}

/// `nom::FindSubstring::find_substring` of a byte slice in a byte slice. It
/// returns the first index at which the pattern stands in the input, `None`
/// if it stands nowhere, and `None` for an empty pattern. On an input
/// shorter than the pattern its subtraction of the lengths overflows, so
/// such an input is left out.
#[verifier::external_body]
pub(crate) fn find_substring(input: &[u8], pattern: &[u8]) -> (r: Option<usize>)
    requires
        pattern@.len() <= input@.len(),
    ensures
        spec_find_substring(input@, pattern@) == (match r {
            Some(i) => Some(i as int),
            None => None,
        }),
{
    nom::FindSubstring::find_substring(&input, pattern)
}

/// `core::str::from_utf8`. It returns a string slice exactly where the
/// bytes are valid UTF-8, and the string slice is made of the same bytes.
#[verifier::external_body]
pub(crate) fn from_utf8<'a>(bytes: &'a [u8]) -> (r: Option<&'a str>)
    ensures
        r is Some <==> valid_utf8(bytes@),
        r matches Some(s) ==> s.spec_bytes() == bytes@,
{
    match core::str::from_utf8(bytes) {
        Ok(s) => Some(s),
        Err(_) => None,
    }
}

/// `std::error::Error::description` of an I/O error: a short text of the
/// error's own, of which nothing is stated.
#[verifier::external_body]
#[allow(deprecated)]
pub(crate) fn io_description(err: &std::io::Error) -> &str {
    std::error::Error::description(err)
}

} // verus!
