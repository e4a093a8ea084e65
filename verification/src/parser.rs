//! The SubRip grammar: timecodes, cues and whole documents.
//!
//! Each rule is a `spec` function over `Seq<u8>` and an executable parser
//! that returns exactly what it says. [`parse_srt_from_slice`] is the entry
//! point: it parses a whole buffer and reports a failure as a
//! [`ParseError`].

use crate::combinator::{
    character, line_ending, spec_character, spec_line_ending, spec_tag,
    spec_take_until_and_consume, tag, take_until_and_consume, ErrorKind, IResult, LF,
};
use crate::decimal::{number, spec_number};
use crate::outside::{from_utf8, io_description};
use crate::{arrow, Srt, SubTitle, SubTitleView, Time, COLON, COMMA};
use vstd::prelude::*;
use vstd::utf8::{decode_utf8, valid_utf8};

verus! {

/// Why a buffer or a file could not be turned into a document.
#[derive(Debug)]
pub enum ParseError {
    /// The file could not be opened or read.
    Io(std::io::Error),
    /// The input ended before a rule of the grammar could finish.
    Incomplete,
    /// The start time of a cue is not a timecode.
    StartTime,
    /// The ` --> ` between the two timecodes of a cue is missing.
    ArrowBetweenTimes,
    /// The end time of a cue is not a timecode.
    EndTime,
    /// Any other mismatch: a malformed index, line break or text.
    Unknown,
}

/// The code that tags a failure of the start time of a cue.
pub const START_TIME: u32 = 1;

/// The code that tags a failure of the arrow between the timecodes.
pub const ARROW_BETWEEN_TIMES: u32 = 2;

/// The code that tags a failure of the end time of a cue.
pub const END_TIME: u32 = 3;

impl ParseError {
    /// The error that a rejection by the grammar is reported as.
    pub open spec fn of_kind(kind: ErrorKind) -> ParseError {
        match kind {
            ErrorKind::Custom(code) => if code == START_TIME {
                ParseError::StartTime
            } else if code == ARROW_BETWEEN_TIMES {
                ParseError::ArrowBetweenTimes
            } else if code == END_TIME {
                ParseError::EndTime
            } else {
                ParseError::Unknown
            },
            _ => ParseError::Unknown,
        }
    }

    /// The words that describe the error, for every error but a failure of
    /// I/O, which brings its own.
    pub open spec fn spec_description(self) -> Seq<char> {
        match self {
            ParseError::Io(_) => Seq::empty(),
            ParseError::Incomplete => "SRT data are missing"@,
            ParseError::StartTime => "Wrong start time format"@,
            ParseError::EndTime => "Wrong end time format"@,
            ParseError::ArrowBetweenTimes => "Expected '-->' between start and end time"@,
            ParseError::Unknown => "Unknown error"@,
        }
    }

    /// A short description of the error.
    pub fn description(&self) -> (text: &str)
        ensures
            !(self is Io) ==> text@ == self.spec_description(),
    {
        match self {
            ParseError::Io(err) => io_description(err),
            ParseError::Incomplete => "SRT data are missing",
            ParseError::StartTime => "Wrong start time format",
            ParseError::EndTime => "Wrong end time format",
            ParseError::ArrowBetweenTimes => "Expected '-->' between start and end time",
            ParseError::Unknown => "Unknown error",
        }
    }

    /// The error as text: `ParseError: ` and the description.
    pub fn to_string(&self) -> (text: String)
        ensures
            !(self is Io) ==> text@ == "ParseError: "@ + self.spec_description(),
    {
        let mut out = String::new();
        out.append("ParseError: ");
        out.append(self.description());
        assert(Seq::<char>::empty() + "ParseError: "@ =~= "ParseError: "@);
        out
    }
}

impl From<std::io::Error> for ParseError {
    fn from(err: std::io::Error) -> (r: ParseError) {
        ParseError::Io(err)
    }
}

impl vstd::std_specs::convert::FromSpecImpl<std::io::Error> for ParseError {
    open spec fn obeys_from_spec() -> bool {
        true
    }

    open spec fn from_spec(err: std::io::Error) -> ParseError {
        ParseError::Io(err)
    }
}

impl From<ErrorKind> for ParseError {
    fn from(err: ErrorKind) -> (r: ParseError) {
        match err {
            ErrorKind::Custom(code) => if code == START_TIME {
                ParseError::StartTime
            } else if code == ARROW_BETWEEN_TIMES {
                ParseError::ArrowBetweenTimes
            } else if code == END_TIME {
                ParseError::EndTime
            } else {
                ParseError::Unknown
            },
            _ => ParseError::Unknown,
        }
    }
}

impl vstd::std_specs::convert::FromSpecImpl<ErrorKind> for ParseError {
    open spec fn obeys_from_spec() -> bool {
        true
    }

    open spec fn from_spec(err: ErrorKind) -> ParseError {
        ParseError::of_kind(err)
    }
}

/// The two line feeds that end the text of a cue.
pub open spec fn blank_line() -> Seq<u8> {
    seq![LF, LF]
}

/// A timecode at the start of `input`: hours, `:`, minutes, `:`, seconds,
/// `,`, milliseconds. Each number is a run of digits of any length; the
/// first three are worth at most 255 and the last at most 65535.
pub open spec fn spec_parse_time(input: Seq<u8>) -> IResult<Seq<u8>, Time> {
    spec_number(input, 255).and_then(|s1: Seq<u8>, hours: u32|
    spec_character(s1, COLON).within(input, s1).and_then(|s2: Seq<u8>, _c1: u8|
    spec_number(s2, 255).within(input, s2).and_then(|s3: Seq<u8>, minutes: u32|
    spec_character(s3, COLON).within(input, s3).and_then(|s4: Seq<u8>, _c2: u8|
    spec_number(s4, 255).within(input, s4).and_then(|s5: Seq<u8>, seconds: u32|
    spec_character(s5, COMMA).within(input, s5).and_then(|s6: Seq<u8>, _c3: u8|
    spec_number(s6, 65535).within(input, s6).and_then(|s7: Seq<u8>, milliseconds: u32|
        IResult::Done(
            s7,
            Time {
                hours: hours as u8,
                minutes: minutes as u8,
                seconds: seconds as u8,
                milliseconds: milliseconds as u16,
            },
        )
    )))))))
}

/// The text of a cue at the start of `input`: the bytes before the first
/// blank line, which must be valid UTF-8. The blank line is consumed.
pub open spec fn spec_parse_text(input: Seq<u8>) -> IResult<Seq<u8>, Seq<char>> {
    spec_take_until_and_consume(input, blank_line()).and_then(
        |rest: Seq<u8>, body: Seq<u8>|
            if valid_utf8(body) {
                IResult::Done(rest, decode_utf8(body))
            } else {
                IResult::Error(ErrorKind::MapRes)
            },
    )
}

/// A cue at the start of `input`: the index, a line break, the start time,
/// ` --> `, the end time, a line break, and the text up to a blank line. A
/// rejected start time, arrow or end time is tagged with its own code.
pub open spec fn spec_parse_sub(input: Seq<u8>) -> IResult<Seq<u8>, SubTitleView> {
    spec_number(input, u32::MAX).and_then(|s1: Seq<u8>, index: u32|
    spec_line_ending(s1).within(input, s1).and_then(|s2: Seq<u8>, _eol1: Seq<u8>|
    spec_parse_time(s2).tagged(START_TIME).within(input, s2).and_then(|s3: Seq<u8>, start_time: Time|
    spec_tag(s3, arrow()).tagged(ARROW_BETWEEN_TIMES).within(input, s3).and_then(|s4: Seq<u8>, _sep: Seq<u8>|
    spec_parse_time(s4).tagged(END_TIME).within(input, s4).and_then(|s5: Seq<u8>, end_time: Time|
    spec_line_ending(s5).within(input, s5).and_then(|s6: Seq<u8>, _eol2: Seq<u8>|
    spec_parse_text(s6).within(input, s6).and_then(|s7: Seq<u8>, text: Seq<char>|
        IResult::Done(s7, SubTitleView { index, start_time, end_time, text })
    )))))))
}

/// What a document is parsed to, given the cues `done` that were read from
/// its first `used` bytes and what the rest of it is parsed to.
pub open spec fn spec_resume(
    done: Seq<SubTitleView>,
    used: nat,
    rest: IResult<Seq<u8>, Seq<SubTitleView>>,
) -> IResult<Seq<u8>, Seq<SubTitleView>> {
    match rest {
        IResult::Done(end, more) => IResult::Done(end, done + more),
        IResult::Error(kind) => IResult::Error(kind),
        IResult::Incomplete(needed) => IResult::Incomplete(needed.shifted(used)),
    }
}

/// A document: one cue after another until the input is used up. The first
/// cue that fails makes the whole document fail in the same way, and what
/// it needed is counted from the start of the document.
pub open spec fn spec_parse_srt(input: Seq<u8>) -> IResult<Seq<u8>, Seq<SubTitleView>>
    decreases input.len(),
{
    match spec_parse_sub(input) {
        IResult::Done(rest, first) => if rest.len() == 0 || rest.len() >= input.len() {
            IResult::Done(rest, seq![first])
        } else {
            spec_resume(seq![first], (input.len() - rest.len()) as nat, spec_parse_srt(rest))
        },
        IResult::Error(kind) => IResult::Error(kind),
        IResult::Incomplete(needed) => IResult::Incomplete(needed),
    }
}

/// What parsing a whole buffer returns, given what the document rule says
/// of it.
pub open spec fn spec_outcome(parsed: IResult<Seq<u8>, Seq<SubTitleView>>) -> Result<
    Seq<SubTitleView>,
    ParseError,
> {
    match parsed {
        IResult::Done(_, subs) => Ok(subs),
        IResult::Error(kind) => Err(ParseError::of_kind(kind)),
        IResult::Incomplete(_) => Err(ParseError::Incomplete),
    }
}

/// Parses a timecode at the start of `input`.
pub fn parse_time<'a>(input: &'a [u8]) -> (r: IResult<&'a [u8], Time>)
    ensures
        r@ == spec_parse_time(input@),
        r matches IResult::Done(rest, _) ==> rest@.len() < input@.len(),
{
    let (i1, hours) = match number(input, 255) {
        IResult::Done(i, v) => (i, v),
        IResult::Error(e) => {
            return IResult::Error(e);
        },
        IResult::Incomplete(n) => {
            return IResult::Incomplete(n);
        },
    };
    let i2 = match character(i1, COLON) {
        IResult::Done(i, _) => i,
        IResult::Error(e) => {
            return IResult::Error(e);
        },
        IResult::Incomplete(n) => {
            return IResult::Incomplete(n.shift(input.len() - i1.len()));
        },
    };
    let (i3, minutes) = match number(i2, 255) {
        IResult::Done(i, v) => (i, v),
        IResult::Error(e) => {
            return IResult::Error(e);
        },
        IResult::Incomplete(n) => {
            return IResult::Incomplete(n.shift(input.len() - i2.len()));
        },
    };
    let i4 = match character(i3, COLON) {
        IResult::Done(i, _) => i,
        IResult::Error(e) => {
            return IResult::Error(e);
        },
        IResult::Incomplete(n) => {
            return IResult::Incomplete(n.shift(input.len() - i3.len()));
        },
    };
    let (i5, seconds) = match number(i4, 255) {
        IResult::Done(i, v) => (i, v),
        IResult::Error(e) => {
            return IResult::Error(e);
        },
        IResult::Incomplete(n) => {
            return IResult::Incomplete(n.shift(input.len() - i4.len()));
        },
    };
    let i6 = match character(i5, COMMA) {
        IResult::Done(i, _) => i,
        IResult::Error(e) => {
            return IResult::Error(e);
        },
        IResult::Incomplete(n) => {
            return IResult::Incomplete(n.shift(input.len() - i5.len()));
        },
    };
    let (i7, milliseconds) = match number(i6, 65535) {
        IResult::Done(i, v) => (i, v),
        IResult::Error(e) => {
            return IResult::Error(e);
        },
        IResult::Incomplete(n) => {
            return IResult::Incomplete(n.shift(input.len() - i6.len()));
        },
    };
    IResult::Done(
        i7,
        Time {
            hours: hours as u8,
            minutes: minutes as u8,
            seconds: seconds as u8,
            milliseconds: milliseconds as u16,
        },
    )
}

/// Parses the text of a cue at the start of `input`.
pub fn parse_text<'a>(input: &'a [u8]) -> (r: IResult<&'a [u8], String>)
    ensures
        r@ == spec_parse_text(input@),
        r matches IResult::Done(rest, _) ==> rest@.len() < input@.len(),
{
    let blank: [u8; 2] = [LF, LF];
    assert(blank@ =~= blank_line());
    match take_until_and_consume(input, blank.as_slice()) {
        IResult::Done(rest, body) => match from_utf8(body) {
            Some(s) => {
                proof {
                    vstd::utf8::encode_utf8_decode_utf8(s@);
                }
                IResult::Done(rest, String::from_str(s))
            },
            None => IResult::Error(ErrorKind::MapRes),
        },
        IResult::Error(e) => IResult::Error(e),
        IResult::Incomplete(n) => IResult::Incomplete(n),
    }
}

/// Parses a cue at the start of `input`.
pub fn parse_sub<'a>(input: &'a [u8]) -> (r: IResult<&'a [u8], SubTitle>)
    ensures
        r@ == spec_parse_sub(input@),
        r matches IResult::Done(rest, _) ==> rest@.len() < input@.len(),
{
    let (i1, index) = match number(input, u32::MAX) {
        IResult::Done(i, v) => (i, v),
        IResult::Error(e) => {
            return IResult::Error(e);
        },
        IResult::Incomplete(n) => {
            return IResult::Incomplete(n);
        },
    };
    let i2 = match line_ending(i1) {
        IResult::Done(i, _) => i,
        IResult::Error(e) => {
            return IResult::Error(e);
        },
        IResult::Incomplete(n) => {
            return IResult::Incomplete(n.shift(input.len() - i1.len()));
        },
    };
    let (i3, start_time) = match parse_time(i2) {
        IResult::Done(i, v) => (i, v),
        IResult::Error(_) => {
            return IResult::Error(ErrorKind::Custom(START_TIME));
        },
        IResult::Incomplete(n) => {
            return IResult::Incomplete(n.shift(input.len() - i2.len()));
        },
    };
    let sep: [u8; 5] = [0x20, 0x2d, 0x2d, 0x3e, 0x20];
    assert(sep@ =~= arrow());
    let i4 = match tag(i3, sep.as_slice()) {
        IResult::Done(i, _) => i,
        IResult::Error(_) => {
            return IResult::Error(ErrorKind::Custom(ARROW_BETWEEN_TIMES));
        },
        IResult::Incomplete(n) => {
            return IResult::Incomplete(n.shift(input.len() - i3.len()));
        },
    };
    let (i5, end_time) = match parse_time(i4) {
        IResult::Done(i, v) => (i, v),
        IResult::Error(_) => {
            return IResult::Error(ErrorKind::Custom(END_TIME));
        },
        IResult::Incomplete(n) => {
            return IResult::Incomplete(n.shift(input.len() - i4.len()));
        },
    };
    let i6 = match line_ending(i5) {
        IResult::Done(i, _) => i,
        IResult::Error(e) => {
            return IResult::Error(e);
        },
        IResult::Incomplete(n) => {
            return IResult::Incomplete(n.shift(input.len() - i5.len()));
        },
    };
    let (i7, text) = match parse_text(i6) {
        IResult::Done(i, v) => (i, v),
        IResult::Error(e) => {
            return IResult::Error(e);
        },
        IResult::Incomplete(n) => {
            return IResult::Incomplete(n.shift(input.len() - i6.len()));
        },
    };
    IResult::Done(i7, SubTitle { index, start_time, end_time, text })
}

impl Srt {
    /// What parsing a buffer returned, with the document as the sequence of
    /// its cues.
    pub open spec fn result_view(r: Result<Srt, ParseError>) -> Result<
        Seq<SubTitleView>,
        ParseError,
    > {
        match r {
            Ok(srt) => Ok(srt@),
            Err(e) => Err(e),
        }
    }
}

/// Reading one more cue and resuming after it is resuming before it.
proof fn lemma_resume_step(
    done: Seq<SubTitleView>,
    used: nat,
    input: Seq<u8>,
    rest: Seq<u8>,
    sub: SubTitleView,
)
    requires
        spec_parse_sub(input) == IResult::Done(rest, sub),
        0 < rest.len() < input.len(),
    ensures
        spec_resume(done, used, spec_parse_srt(input)) == spec_resume(
            done.push(sub),
            (used + input.len() - rest.len()) as nat,
            spec_parse_srt(rest),
        ),
{
    match spec_parse_srt(rest) {
        IResult::Done(end, more) => {
            assert(done + (seq![sub] + more) =~= done.push(sub) + more);
        },
        IResult::Error(kind) => {},
        IResult::Incomplete(needed) => {},
    }
}

/// Parses a document: cues up to the end of `input`.
pub fn parse_srt<'a>(input: &'a [u8]) -> (r: IResult<&'a [u8], Srt>)
    ensures
        r@ == spec_parse_srt(input@),
        r matches IResult::Done(rest, srt) ==> rest@.len() == 0 && srt@.len() > 0,
{
    let mut subs: Vec<SubTitle> = Vec::new();
    let mut rest = input;
    proof {
        match spec_parse_srt(input@) {
            IResult::Done(end, more) => {
                assert(Seq::<SubTitleView>::empty() + more =~= more);
            },
            IResult::Error(kind) => {},
            IResult::Incomplete(needed) => {},
        }
    }
    loop
        invariant
            rest@.len() <= input@.len(),
            spec_parse_srt(input@) == spec_resume(
                subs@.map_values(|sub: SubTitle| sub@),
                (input@.len() - rest@.len()) as nat,
                spec_parse_srt(rest@),
            ),
        decreases rest@.len(),
    {
        let ghost done = subs@.map_values(|sub: SubTitle| sub@);
        match parse_sub(rest) {
            IResult::Done(next, sub) => {
                proof {
                    assert(subs@.push(sub).map_values(|sub: SubTitle| sub@) =~= done.push(sub@));
                    if next@.len() > 0 {
                        lemma_resume_step(
                            done,
                            (input@.len() - rest@.len()) as nat,
                            rest@,
                            next@,
                            sub@,
                        );
                    } else {
                        assert(done + seq![sub@] =~= done.push(sub@));
                    }
                }
                subs.push(sub);
                if next.len() == 0 {
                    return IResult::Done(next, Srt { subs });
                }
                rest = next;
            },
            IResult::Error(kind) => {
                return IResult::Error(kind);
            },
            IResult::Incomplete(needed) => {
                return IResult::Incomplete(needed.shift(input.len() - rest.len()));
            },
        }
    }
}

/// Parses a whole buffer into a document. The buffer must hold one cue
/// after another and nothing else; the first cue that fails decides the
/// error, and no part of a document is returned with it.
pub fn parse_srt_from_slice(input: &[u8]) -> (r: Result<Srt, ParseError>)
    ensures
        Srt::result_view(r) == spec_outcome(spec_parse_srt(input@)),
        r matches Ok(srt) ==> srt@.len() > 0,
        input@.len() == 0 ==> r matches Err(ParseError::Incomplete),
{
    match parse_srt(input) {
        IResult::Done(_, srt) => Ok(srt),
        IResult::Error(kind) => Err(ParseError::from(kind)),
        IResult::Incomplete(_) => Err(ParseError::Incomplete),
    }
}

} // verus!
