//! Byte-level parsing primitives: what a parser returns, and the small
//! parsers that the SubRip grammar is built from.
//!
//! Every parser takes the input that is left and returns an [`IResult`]. Its
//! meaning is a `spec` function over `Seq<u8>` with the same name prefixed by
//! `spec_`; the executable parser returns exactly what that function says.
//! Recognizing digits, comparing and searching byte strings is done by the
//! `nom` crate.

use crate::outside::{compare, crlf, find_substring};
use vstd::prelude::*;
use vstd::slice::slice_subrange;

verus! {

/// How much more input a parser would have needed.
#[derive(Debug, PartialEq, Eq, Clone, Copy)]
pub enum Needed {
    /// More input, of unknown size.
    Unknown,
    /// The input would have to hold this many bytes, counted from where the
    /// parser started.
    Size(usize),
}

/// Why a parser rejected its input.
#[derive(Debug, PartialEq, Eq, Clone, Copy)]
pub enum ErrorKind {
    /// An error tagged by the grammar with a code of its own.
    Custom(u32),
    /// A literal byte string was expected.
    Tag,
    /// A token was recognized but could not be converted to a value.
    MapRes,
    /// None of several alternatives matched.
    Alt,
    /// The delimiter that ends a run of bytes is missing.
    TakeUntilAndConsume,
    /// A decimal digit was expected.
    Digit,
    /// A given character was expected.
    Char,
    /// A carriage return followed by a line feed was expected.
    CrLf,
}

/// The outcome of running a parser on an input `I` to produce an `O`.
#[derive(Debug, PartialEq, Eq)]
pub enum IResult<I, O> {
    /// The parser matched: the input that is left, and the value.
    Done(I, O),
    /// The input does not match.
    Error(ErrorKind),
    /// The input ended before the parser could decide.
    Incomplete(Needed),
}

/// How an input compares to a byte string that is expected at its start.
#[derive(Debug, PartialEq, Eq, Clone, Copy)]
pub enum CompareResult {
    /// The input starts with the expected bytes.
    Match,
    /// The input is a proper prefix of the expected bytes.
    Incomplete,
    /// The input differs from the expected bytes.
    Mismatch,
}

impl<I: View, O: View> View for IResult<I, O> {
    type V = IResult<I::V, O::V>;

    open spec fn view(&self) -> Self::V {
        match *self {
            IResult::Done(rest, value) => IResult::Done(rest@, value@),
            IResult::Error(kind) => IResult::Error(kind),
            IResult::Incomplete(needed) => IResult::Incomplete(needed),
        }
    }
}

impl Needed {
    /// The same need, counted from `by` bytes earlier in the input. A size
    /// that no longer fits in a `usize` becomes unknown.
    pub open spec fn shifted(self, by: nat) -> Needed {
        match self {
            Needed::Unknown => Needed::Unknown,
            Needed::Size(n) => if by + n <= usize::MAX {
                Needed::Size((by + n) as usize)
            } else {
                Needed::Unknown
            },
        }
    }

    /// Counts the need from `by` bytes earlier in the input.
    pub fn shift(self, by: usize) -> (r: Needed)
        ensures
            r == self.shifted(by as nat),
    {
        match self {
            Needed::Unknown => Needed::Unknown,
            Needed::Size(n) => match by.checked_add(n) {
                Some(total) => Needed::Size(total),
                None => Needed::Unknown,
            },
        }
    }
}

impl<O> IResult<Seq<u8>, O> {
    /// Runs `next` on what a successful parse left and produced; a failure
    /// stays as it is.
    pub open spec fn and_then<P>(
        self,
        next: spec_fn(Seq<u8>, O) -> IResult<Seq<u8>, P>,
    ) -> IResult<Seq<u8>, P> {
        match self {
            IResult::Done(rest, value) => next(rest, value),
            IResult::Error(kind) => IResult::Error(kind),
            IResult::Incomplete(needed) => IResult::Incomplete(needed),
        }
    }

    /// The outcome of a parser that ran on `rest`, a suffix of `input`, as
    /// seen from the start of `input`: what is needed is counted from there.
    pub open spec fn within(self, input: Seq<u8>, rest: Seq<u8>) -> Self {
        match self {
            IResult::Incomplete(needed) => IResult::Incomplete(
                needed.shifted((input.len() - rest.len()) as nat),
            ),
            _ => self,
        }
    }

    /// The same outcome, with any error replaced by `Custom(code)`.
    pub open spec fn tagged(self, code: u32) -> Self {
        match self {
            IResult::Error(_) => IResult::Error(ErrorKind::Custom(code)),
            _ => self,
        }
    }
}

/// Whether `b` is an ASCII decimal digit.
pub open spec fn is_digit(b: u8) -> bool {
    0x30 <= b <= 0x39
}

/// The length of the longest prefix of `s` made of ASCII digits.
pub open spec fn digit_run(s: Seq<u8>) -> nat
    decreases s.len(),
{
    if s.len() > 0 && is_digit(s[0]) {
        1 + digit_run(s.skip(1))
    } else {
        0
    }
}

/// A run of one or more ASCII digits at the start of `input`. Nothing can be
/// decided on an empty input.
pub open spec fn spec_digit(input: Seq<u8>) -> IResult<Seq<u8>, Seq<u8>> {
    if input.len() == 0 {
        IResult::Incomplete(Needed::Unknown)
    } else if !is_digit(input[0]) {
        IResult::Error(ErrorKind::Digit)
    } else {
        IResult::Done(input.skip(digit_run(input) as int), input.take(digit_run(input) as int))
    }
}

/// How `input` compares to `expected` at its start.
pub open spec fn spec_compare(input: Seq<u8>, expected: Seq<u8>) -> CompareResult {
    if expected.is_prefix_of(input) {
        CompareResult::Match
    } else if input.is_prefix_of(expected) {
        CompareResult::Incomplete
    } else {
        CompareResult::Mismatch
    }
}

/// The literal `expected` at the start of `input`.
pub open spec fn spec_tag(input: Seq<u8>, expected: Seq<u8>) -> IResult<Seq<u8>, Seq<u8>> {
    match spec_compare(input, expected) {
        CompareResult::Match => IResult::Done(
            input.skip(expected.len() as int),
            input.take(expected.len() as int),
        ),
        CompareResult::Incomplete => IResult::Incomplete(Needed::Size(expected.len() as usize)),
        CompareResult::Mismatch => IResult::Error(ErrorKind::Tag),
    }
}

/// The byte `c` at the start of `input`.
pub open spec fn spec_character(input: Seq<u8>, c: u8) -> IResult<Seq<u8>, u8> {
    if input.len() == 0 {
        IResult::Incomplete(Needed::Size(1))
    } else if input[0] != c {
        IResult::Error(ErrorKind::Char)
    } else {
        IResult::Done(input.skip(1), c)
    }
}

/// The line feed byte.
pub const LF: u8 = 0x0a;

/// The carriage return byte.
pub const CR: u8 = 0x0d;

/// A carriage return followed by a line feed at the start of `input`.
pub open spec fn spec_crlf(input: Seq<u8>) -> IResult<Seq<u8>, Seq<u8>> {
    match spec_compare(input, seq![CR, LF]) {
        CompareResult::Match => IResult::Done(input.skip(2), input.take(2)),
        CompareResult::Incomplete => IResult::Incomplete(Needed::Size(2)),
        CompareResult::Mismatch => IResult::Error(ErrorKind::CrLf),
    }
}

/// A line break at the start of `input`: a line feed alone, or a carriage
/// return followed by a line feed.
pub open spec fn spec_line_ending(input: Seq<u8>) -> IResult<Seq<u8>, Seq<u8>> {
    if input.len() == 0 {
        IResult::Incomplete(Needed::Size(1))
    } else if input[0] == LF {
        IResult::Done(input.skip(1), input.take(1))
    } else if input[0] != CR {
        IResult::Error(ErrorKind::Alt)
    } else if input.len() == 1 {
        IResult::Incomplete(Needed::Size(2))
    } else if input[1] == LF {
        IResult::Done(input.skip(2), input.take(2))
    } else {
        IResult::Error(ErrorKind::Alt)
    }
}

/// Whether `pattern` stands in `input` at index `i`.
pub open spec fn occurs_at(input: Seq<u8>, pattern: Seq<u8>, i: int) -> bool {
    &&& 0 <= i
    &&& i + pattern.len() <= input.len()
    &&& input.subrange(i, i + pattern.len()) == pattern
}

/// Whether `i` is the first index at which `pattern` stands in `input`.
pub open spec fn is_first_occurrence(input: Seq<u8>, pattern: Seq<u8>, i: int) -> bool {
    &&& occurs_at(input, pattern, i)
    &&& forall|j: int| 0 <= j < i ==> !occurs_at(input, pattern, j)
}

/// The first index at which a non-empty `pattern` stands in `input`, if
/// there is one. An empty pattern is never found.
pub open spec fn spec_find_substring(input: Seq<u8>, pattern: Seq<u8>) -> Option<int> {
    if pattern.len() > 0 && exists|i: int| is_first_occurrence(input, pattern, i) {
        Some(choose|i: int| is_first_occurrence(input, pattern, i))
    } else {
        None
    }
}

/// The bytes of `input` before the first occurrence of `delimiter`, which is
/// consumed too. An input shorter than the delimiter is incomplete.
pub open spec fn spec_take_until_and_consume(input: Seq<u8>, delimiter: Seq<u8>) -> IResult<
    Seq<u8>,
    Seq<u8>,
> {
    if delimiter.len() > input.len() {
        IResult::Incomplete(Needed::Size(delimiter.len() as usize))
    } else {
        match spec_find_substring(input, delimiter) {
            None => IResult::Error(ErrorKind::TakeUntilAndConsume),
            Some(i) => IResult::Done(input.skip(i + delimiter.len()), input.take(i)),
        }
    }
}

/// The digits that `digit_run` counts are a prefix of `s`, all of them are
/// digits, and what follows them is no digit.
pub proof fn lemma_digit_run(s: Seq<u8>)
    ensures
        digit_run(s) <= s.len(),
        forall|i: int| 0 <= i < digit_run(s) ==> is_digit(#[trigger] s[i]),
        digit_run(s) < s.len() ==> !is_digit(s[digit_run(s) as int]),
    decreases s.len(),
{
    if s.len() > 0 && is_digit(s[0]) {
        let t = s.skip(1);
        lemma_digit_run(t);
        assert forall|i: int| 0 <= i < digit_run(s) implies is_digit(#[trigger] s[i]) by {
            if i > 0 {
                assert(s[i] == t[i - 1]);
            }
        }
        if digit_run(s) < s.len() {
            assert(s[digit_run(s) as int] == t[digit_run(t) as int]);
        }
    }
}

/// A run of digits followed by something that is no digit is counted as a
/// whole.
pub proof fn lemma_digit_run_of(run: Seq<u8>, rest: Seq<u8>)
    requires
        forall|i: int| 0 <= i < run.len() ==> is_digit(#[trigger] run[i]),
        rest.len() > 0 ==> !is_digit(rest[0]),
    ensures
        digit_run(run + rest) == run.len(),
    decreases run.len(),
{
    let s = run + rest;
    if run.len() == 0 {
        if rest.len() > 0 {
            assert(s[0] == rest[0]);
        }
    } else {
        assert(s[0] == run[0]);
        assert(s.skip(1) =~= run.skip(1) + rest);
        lemma_digit_run_of(run.skip(1), rest);
    }
}

/// The first index at which a non-empty pattern stands is what
/// `spec_find_substring` gives.
pub proof fn lemma_find_first(input: Seq<u8>, pattern: Seq<u8>, i: int)
    requires
        pattern.len() > 0,
        is_first_occurrence(input, pattern, i),
    ensures
        spec_find_substring(input, pattern) == Some(i),
{
    let c = choose|c: int| is_first_occurrence(input, pattern, c);
    if c < i {
        assert(!occurs_at(input, pattern, c));
    } else if i < c {
        assert(!occurs_at(input, pattern, i));
    }
}

/// What `spec_find_substring` gives is the first index at which the pattern
/// stands, and where it gives nothing the pattern stands nowhere.
pub proof fn lemma_find_substring(input: Seq<u8>, pattern: Seq<u8>)
    requires
        pattern.len() > 0,
    ensures
        match spec_find_substring(input, pattern) {
            Some(i) => is_first_occurrence(input, pattern, i),
            None => forall|i: int| !occurs_at(input, pattern, i),
        },
{
    if exists|i: int| is_first_occurrence(input, pattern, i) {
    } else {
        assert forall|i: int| !occurs_at(input, pattern, i) by {
            lemma_no_occurrence_before(input, pattern, i + 1);
        }
    }
}

/// Where no index is a first occurrence, the pattern stands at no index
/// below `bound`.
proof fn lemma_no_occurrence_before(input: Seq<u8>, pattern: Seq<u8>, bound: int)
    requires
        !exists|i: int| is_first_occurrence(input, pattern, i),
    ensures
        forall|j: int| 0 <= j < bound ==> !occurs_at(input, pattern, j),
    decreases bound,
{
    if bound > 0 {
        lemma_no_occurrence_before(input, pattern, bound - 1);
        if occurs_at(input, pattern, bound - 1) {
            assert(is_first_occurrence(input, pattern, bound - 1));
        }
    }
}

/// How an input compares to a single expected byte.
proof fn lemma_compare_byte(input: Seq<u8>, expected: Seq<u8>)
    requires
        expected.len() == 1,
    ensures
        spec_compare(input, expected) == if input.len() == 0 {
            CompareResult::Incomplete
        } else if input[0] == expected[0] {
            CompareResult::Match
        } else {
            CompareResult::Mismatch
        },
{
    if input.len() > 0 {
        assert(input.subrange(0, 1)[0] == input[0]);
        if input[0] == expected[0] {
            assert(input.subrange(0, 1) =~= expected);
        }
        if input.is_prefix_of(expected) {
            assert(expected.subrange(0, input.len() as int)[0] == expected[0]);
        }
    }
}

/// How an input compares to two expected bytes.
proof fn lemma_compare_pair(input: Seq<u8>, expected: Seq<u8>)
    requires
        expected.len() == 2,
    ensures
        spec_compare(input, expected) == if input.len() == 0 {
            CompareResult::Incomplete
        } else if input[0] != expected[0] {
            CompareResult::Mismatch
        } else if input.len() == 1 {
            CompareResult::Incomplete
        } else if input[1] == expected[1] {
            CompareResult::Match
        } else {
            CompareResult::Mismatch
        },
{
    if input.len() >= 2 {
        let head = input.subrange(0, 2);
        assert(head[0] == input[0] && head[1] == input[1]);
        if input[0] == expected[0] && input[1] == expected[1] {
            assert(head =~= expected);
        }
    }
    if 0 < input.len() <= 2 {
        let head = expected.subrange(0, input.len() as int);
        assert(head[0] == expected[0]);
        if input.len() == 2 {
            assert(head[1] == expected[1]);
            if input[0] == expected[0] && input[1] == expected[1] {
                assert(input =~= head);
            }
        } else if input[0] == expected[0] {
            assert(input =~= head);
        }
    }
}

/// Matches the literal `expected` at the start of `input`.
pub fn tag<'a>(input: &'a [u8], expected: &[u8]) -> (r: IResult<&'a [u8], &'a [u8]>)
    ensures
        r@ == spec_tag(input@, expected@),
        r matches IResult::Done(rest, _) ==> rest@.len() + expected@.len() == input@.len(),
{
    match compare(input, expected) {
        CompareResult::Match => {
            let n = expected.len();
            IResult::Done(slice_subrange(input, n, input.len()), slice_subrange(input, 0, n))
        },
        CompareResult::Incomplete => IResult::Incomplete(Needed::Size(expected.len())),
        CompareResult::Mismatch => IResult::Error(ErrorKind::Tag),
    }
}

/// Matches the byte `c` at the start of `input`.
pub fn character<'a>(input: &'a [u8], c: u8) -> (r: IResult<&'a [u8], u8>)
    ensures
        r@ == spec_character(input@, c),
        r matches IResult::Done(rest, _) ==> rest@.len() < input@.len(),
{
    if input.len() == 0 {
        IResult::Incomplete(Needed::Size(1))
    } else if input[0] != c {
        IResult::Error(ErrorKind::Char)
    } else {
        IResult::Done(slice_subrange(input, 1, input.len()), c)
    }
}

/// Matches a line break at the start of `input`: a line feed, or else a
/// carriage return followed by a line feed.
pub fn line_ending<'a>(input: &'a [u8]) -> (r: IResult<&'a [u8], &'a [u8]>)
    ensures
        r@ == spec_line_ending(input@),
        r matches IResult::Done(rest, _) ==> rest@.len() < input@.len(),
{
    let lf: [u8; 1] = [LF];
    proof {
        lemma_compare_byte(input@, lf@);
        lemma_compare_pair(input@, seq![CR, LF]);
    }
    match tag(input, lf.as_slice()) {
        IResult::Error(_) => match crlf(input) {
            IResult::Error(_) => IResult::Error(ErrorKind::Alt),
            other => other,
        },
        other => other,
    }
}

/// Takes the bytes of `input` up to the first occurrence of `delimiter` and
/// consumes the delimiter too.
pub fn take_until_and_consume<'a>(input: &'a [u8], delimiter: &[u8]) -> (r: IResult<
    &'a [u8],
    &'a [u8],
>)
    ensures
        r@ == spec_take_until_and_consume(input@, delimiter@),
        r matches IResult::Done(rest, _) ==> rest@.len() < input@.len(),
{
    if delimiter.len() > input.len() {
        IResult::Incomplete(Needed::Size(delimiter.len()))
    } else {
        match find_substring(input, delimiter) {
            None => IResult::Error(ErrorKind::TakeUntilAndConsume),
            Some(i) => {
                proof {
                    lemma_find_substring(input@, delimiter@);
                }
                IResult::Done(
                    slice_subrange(input, i + delimiter.len(), input.len()),
                    slice_subrange(input, 0, i),
                )
            },
        }
    }
}

} // verus!
