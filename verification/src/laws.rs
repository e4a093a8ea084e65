//! What holds of the grammar for every input: how much a rule consumes,
//! which error a failing clause of a cue gives, and that what is written
//! parses back to what it was written from.

use crate::combinator::{
    is_digit, is_first_occurrence, lemma_find_first, lemma_find_substring, occurs_at,
    spec_character, spec_line_ending, spec_tag, ErrorKind, IResult, LF,
};
use crate::decimal::{
    ascii, decimal_digits, lemma_ascii_encoding, lemma_decimal_digits, lemma_number_done,
    lemma_number_round_trip, lemma_padded, padded, spec_number,
};
use crate::parser::{
    blank_line, spec_outcome, spec_parse_srt, spec_parse_sub, spec_parse_text, spec_parse_time,
    ParseError, ARROW_BETWEEN_TIMES, END_TIME, START_TIME,
};
use crate::{arrow, SubTitleView, Time, COLON, COMMA};
use vstd::prelude::*;
use vstd::seq_lib::lemma_concat_associative;
use vstd::utf8::encode_utf8;

verus! {

/// A timecode that parses leaves less input than there was.
pub proof fn lemma_time_consumes(input: Seq<u8>)
    requires
        spec_parse_time(input) is Done,
    ensures
        spec_parse_time(input)->Done_0.len() < input.len(),
{
    lemma_number_done(input, 255);
    let s1 = spec_number(input, 255)->Done_0;
    let s2 = spec_character(s1, COLON)->Done_0;
    lemma_number_done(s2, 255);
    let s3 = spec_number(s2, 255)->Done_0;
    let s4 = spec_character(s3, COLON)->Done_0;
    lemma_number_done(s4, 255);
    let s5 = spec_number(s4, 255)->Done_0;
    let s6 = spec_character(s5, COMMA)->Done_0;
    lemma_number_done(s6, 65535);
}

/// A cue that parses leaves less input than there was.
pub proof fn lemma_sub_consumes(input: Seq<u8>)
    requires
        spec_parse_sub(input) is Done,
    ensures
        spec_parse_sub(input)->Done_0.len() < input.len(),
{
    lemma_number_done(input, u32::MAX);
    let s1 = spec_number(input, u32::MAX)->Done_0;
    let s2 = spec_line_ending(s1)->Done_0;
    lemma_time_consumes(s2);
    let s3 = spec_parse_time(s2)->Done_0;
    let s4 = spec_tag(s3, arrow())->Done_0;
    lemma_time_consumes(s4);
    let s5 = spec_parse_time(s4)->Done_0;
    let s6 = spec_line_ending(s5)->Done_0;
    lemma_find_substring(s6, blank_line());
}

/// A document that parses uses up its input and holds at least one cue: an
/// empty document is never the result.
pub proof fn lemma_document_is_whole(input: Seq<u8>)
    requires
        spec_parse_srt(input) is Done,
    ensures
        spec_parse_srt(input)->Done_0.len() == 0,
        spec_parse_srt(input)->Done_1.len() > 0,
    decreases input.len(),
{
    lemma_sub_consumes(input);
    let rest = spec_parse_sub(input)->Done_0;
    if rest.len() > 0 {
        lemma_document_is_whole(rest);
    }
}

/// An empty buffer is not a document: parsing it fails for want of input.
pub proof fn lemma_empty_input()
    ensures
        spec_outcome(spec_parse_srt(Seq::empty())) == Err::<Seq<SubTitleView>, ParseError>(
            ParseError::Incomplete,
        ),
{
}

/// A document fails as its first cue does.
pub proof fn lemma_first_cue_fails(input: Seq<u8>)
    ensures
        spec_parse_sub(input) matches IResult::Error(kind) ==> spec_parse_srt(input)
            == IResult::<Seq<u8>, Seq<SubTitleView>>::Error(kind),
        spec_parse_sub(input) matches IResult::Incomplete(needed) ==> spec_parse_srt(input)
            == IResult::<Seq<u8>, Seq<SubTitleView>>::Incomplete(needed),
{
}

/// All or nothing: where the first cue is parsed and input is left, the
/// document is that cue followed by the document that is left, and fails
/// with the error with which what is left fails.
pub proof fn lemma_all_or_nothing(input: Seq<u8>, rest: Seq<u8>, first: SubTitleView)
    requires
        spec_parse_sub(input) == IResult::Done(rest, first),
        rest.len() > 0,
    ensures
        spec_outcome(spec_parse_srt(input)) == match spec_outcome(spec_parse_srt(rest)) {
            Ok(more) => Ok::<Seq<SubTitleView>, ParseError>(seq![first] + more),
            Err(e) => Err(e),
        },
{
    lemma_sub_consumes(input);
}

/// Where the index and the line break of a cue are parsed and what follows
/// is rejected as a timecode, the cue fails with the code of the start
/// time, and a document that begins with it is an invalid start time.
pub proof fn lemma_invalid_start_time(input: Seq<u8>, s1: Seq<u8>, s2: Seq<u8>)
    requires
        spec_number(input, u32::MAX) matches IResult::Done(rest, _) && rest == s1,
        spec_line_ending(s1) matches IResult::Done(rest, _) && rest == s2,
        spec_parse_time(s2) is Error,
    ensures
        spec_parse_sub(input) == IResult::<Seq<u8>, SubTitleView>::Error(
            ErrorKind::Custom(START_TIME),
        ),
        spec_outcome(spec_parse_srt(input)) == Err::<Seq<SubTitleView>, ParseError>(
            ParseError::StartTime,
        ),
{
}

/// Where a cue is parsed up to its start time and what follows is rejected
/// as the arrow, the cue fails with the code of the arrow, and a document
/// that begins with it is a missing arrow.
pub proof fn lemma_missing_arrow(input: Seq<u8>, s1: Seq<u8>, s2: Seq<u8>, s3: Seq<u8>)
    requires
        spec_number(input, u32::MAX) matches IResult::Done(rest, _) && rest == s1,
        spec_line_ending(s1) matches IResult::Done(rest, _) && rest == s2,
        spec_parse_time(s2) matches IResult::Done(rest, _) && rest == s3,
        spec_tag(s3, arrow()) is Error,
    ensures
        spec_parse_sub(input) == IResult::<Seq<u8>, SubTitleView>::Error(
            ErrorKind::Custom(ARROW_BETWEEN_TIMES),
        ),
        spec_outcome(spec_parse_srt(input)) == Err::<Seq<SubTitleView>, ParseError>(
            ParseError::ArrowBetweenTimes,
        ),
{
}

/// Where a cue is parsed up to its arrow and what follows is rejected as a
/// timecode, the cue fails with the code of the end time, and a document
/// that begins with it is an invalid end time. The start time was parsed all
/// the same.
pub proof fn lemma_invalid_end_time(
    input: Seq<u8>,
    s1: Seq<u8>,
    s2: Seq<u8>,
    s3: Seq<u8>,
    s4: Seq<u8>,
)
    requires
        spec_number(input, u32::MAX) matches IResult::Done(rest, _) && rest == s1,
        spec_line_ending(s1) matches IResult::Done(rest, _) && rest == s2,
        spec_parse_time(s2) matches IResult::Done(rest, _) && rest == s3,
        spec_tag(s3, arrow()) matches IResult::Done(rest, _) && rest == s4,
        spec_parse_time(s4) is Error,
    ensures
        spec_parse_sub(input) == IResult::<Seq<u8>, SubTitleView>::Error(
            ErrorKind::Custom(END_TIME),
        ),
        spec_outcome(spec_parse_srt(input)) == Err::<Seq<SubTitleView>, ParseError>(
            ParseError::EndTime,
        ),
{
}

/// A timecode is parsed where its parts are parsed one after another: `s1`
/// to `s7` are what is left after each of them.
pub proof fn lemma_time_parts(
    input: Seq<u8>,
    s1: Seq<u8>,
    s2: Seq<u8>,
    s3: Seq<u8>,
    s4: Seq<u8>,
    s5: Seq<u8>,
    s6: Seq<u8>,
    s7: Seq<u8>,
    time: Time,
)
    requires
        spec_number(input, 255) == IResult::Done(s1, time.hours as u32),
        spec_character(s1, COLON) == IResult::Done(s2, COLON),
        spec_number(s2, 255) == IResult::Done(s3, time.minutes as u32),
        spec_character(s3, COLON) == IResult::Done(s4, COLON),
        spec_number(s4, 255) == IResult::Done(s5, time.seconds as u32),
        spec_character(s5, COMMA) == IResult::Done(s6, COMMA),
        spec_number(s6, 65535) == IResult::Done(s7, time.milliseconds as u32),
    ensures
        spec_parse_time(input) == IResult::Done(s7, time),
{
}

/// The bytes of a timecode followed by `rest`, part by part.
proof fn lemma_time_bytes_parts(time: Time, rest: Seq<u8>)
    ensures
        time.spec_bytes() + rest == padded(time.hours as nat, 2) + (seq![COLON] + (padded(
            time.minutes as nat,
            2,
        ) + (seq![COLON] + (padded(time.seconds as nat, 2) + (seq![COMMA] + (padded(
            time.milliseconds as nat,
            3,
        ) + rest)))))),
{
    let h = padded(time.hours as nat, 2);
    let m = padded(time.minutes as nat, 2);
    let s = padded(time.seconds as nat, 2);
    let ms = padded(time.milliseconds as nat, 3);
    let colon = seq![COLON];
    let comma = seq![COMMA];
    let front2 = h + colon;
    let front3 = front2 + m;
    let front4 = front3 + colon;
    let front5 = front4 + s;
    let front6 = front5 + comma;
    let t7 = ms + rest;
    let t6 = comma + t7;
    let t5 = s + t6;
    let t4 = colon + t5;
    let t3 = m + t4;
    lemma_concat_associative(front6, ms, rest);
    lemma_concat_associative(front5, comma, t7);
    lemma_concat_associative(front4, s, t6);
    lemma_concat_associative(front3, colon, t5);
    lemma_concat_associative(front2, m, t4);
    lemma_concat_associative(h, colon, t3);
}

/// A timecode written as bytes and followed by something that is no digit
/// parses back to the same timecode, and what follows is left.
pub proof fn lemma_time_bytes_parse(time: Time, rest: Seq<u8>)
    requires
        rest.len() > 0 ==> !is_digit(rest[0]),
    ensures
        spec_parse_time(time.spec_bytes() + rest) == IResult::Done(rest, time),
{
    let input = time.spec_bytes() + rest;
    let s6 = padded(time.milliseconds as nat, 3) + rest;
    let s5 = seq![COMMA] + s6;
    let s4 = padded(time.seconds as nat, 2) + s5;
    let s3 = seq![COLON] + s4;
    let s2 = padded(time.minutes as nat, 2) + s3;
    let s1 = seq![COLON] + s2;
    assert(spec_number(input, 255) == IResult::Done(s1, time.hours as u32)) by {
        lemma_time_bytes_parts(time, rest);
        lemma_number_round_trip(time.hours as nat, 2, 255, s1);
    }
    assert(spec_character(s1, COLON) == IResult::Done(s2, COLON)) by {
        assert(s1.skip(1) =~= s2);
    }
    assert(spec_number(s2, 255) == IResult::Done(s3, time.minutes as u32)) by {
        lemma_number_round_trip(time.minutes as nat, 2, 255, s3);
    }
    assert(spec_character(s3, COLON) == IResult::Done(s4, COLON)) by {
        assert(s3.skip(1) =~= s4);
    }
    assert(spec_number(s4, 255) == IResult::Done(s5, time.seconds as u32)) by {
        lemma_number_round_trip(time.seconds as nat, 2, 255, s5);
    }
    assert(spec_character(s5, COMMA) == IResult::Done(s6, COMMA)) by {
        assert(s5.skip(1) =~= s6);
    }
    assert(spec_number(s6, 65535) == IResult::Done(rest, time.milliseconds as u32)) by {
        lemma_number_round_trip(time.milliseconds as nat, 3, 65535, rest);
    }
    lemma_time_parts(input, s1, s2, s3, s4, s5, s6, rest, time);
}

/// The bytes of a timecode are ASCII, and the text of the timecode is
/// encoded as them.
pub proof fn lemma_time_text_encoding(time: Time)
    ensures
        encode_utf8(time.spec_text()) == time.spec_bytes(),
        forall|i: int| 0 <= i < time.spec_bytes().len() ==> #[trigger] time.spec_bytes()[i] < 128,
{
    lemma_padded(time.hours as nat, 2);
    lemma_padded(time.minutes as nat, 2);
    lemma_padded(time.seconds as nat, 2);
    lemma_padded(time.milliseconds as nat, 3);
    lemma_ascii_encoding(time.spec_bytes());
}

/// Round trip of a timecode: the text that `to_string` writes for it,
/// encoded as bytes, parses back to the same timecode with nothing left.
pub proof fn lemma_time_round_trip(time: Time)
    ensures
        spec_parse_time(encode_utf8(time.spec_text())) == IResult::Done(Seq::<u8>::empty(), time),
{
    let bytes = time.spec_bytes();
    lemma_time_bytes_parse(time, Seq::empty());
    assert(bytes + Seq::<u8>::empty() =~= bytes);
    lemma_time_text_encoding(time);
}

/// The encoding of a text that is written in two parts is the encoding of
/// the first part followed by that of the second.
pub proof fn lemma_encode_concat(a: Seq<char>, b: Seq<char>)
    ensures
        encode_utf8(a + b) == encode_utf8(a) + encode_utf8(b),
    decreases a.len(),
{
    if a.len() == 0 {
        assert(a + b =~= b);
        assert(encode_utf8(a) + encode_utf8(b) =~= encode_utf8(b));
    } else {
        assert((a + b).drop_first() =~= a.drop_first() + b);
        lemma_encode_concat(a.drop_first(), b);
        assert(encode_utf8(a + b) =~= encode_utf8(a) + encode_utf8(b));
    }
}

/// The text of a cue is encoded as the bytes of the cue.
pub proof fn lemma_cue_text_encoding(cue: SubTitleView)
    ensures
        encode_utf8(cue.spec_text()) == cue.spec_bytes(),
{
    let index = decimal_digits(cue.index as nat);
    let start = cue.start_time.spec_bytes();
    let end = cue.end_time.spec_bytes();
    let lf = seq![LF];
    lemma_decimal_digits(cue.index as nat);
    lemma_time_text_encoding(cue.start_time);
    lemma_time_text_encoding(cue.end_time);
    lemma_ascii_encoding(index);
    lemma_ascii_encoding(lf);
    lemma_ascii_encoding(arrow());
    assert(ascii(lf) =~= seq!['\n']);
    let t1 = ascii(index);
    let t2 = t1 + ascii(lf);
    let t3 = t2 + cue.start_time.spec_text();
    let t4 = t3 + ascii(arrow());
    let t5 = t4 + cue.end_time.spec_text();
    let t6 = t5 + ascii(lf);
    let t7 = t6 + cue.text;
    lemma_encode_concat(t1, ascii(lf));
    lemma_encode_concat(t2, cue.start_time.spec_text());
    lemma_encode_concat(t3, ascii(arrow()));
    lemma_encode_concat(t4, cue.end_time.spec_text());
    lemma_encode_concat(t5, ascii(lf));
    lemma_encode_concat(t6, cue.text);
    lemma_encode_concat(t7, ascii(lf));
}

/// Whether a text of these bytes ends where the blank line after it begins:
/// it holds no blank line and does not end with a line feed.
pub open spec fn ends_at_blank_line(body: Seq<u8>) -> bool {
    is_first_occurrence(body + blank_line(), blank_line(), body.len() as int)
}

/// A cue is parsed where its parts are parsed one after another: `s1` to
/// `s7` are what is left after each of them.
pub proof fn lemma_cue_parts(
    input: Seq<u8>,
    s1: Seq<u8>,
    s2: Seq<u8>,
    s3: Seq<u8>,
    s4: Seq<u8>,
    s5: Seq<u8>,
    s6: Seq<u8>,
    s7: Seq<u8>,
    cue: SubTitleView,
)
    requires
        spec_number(input, u32::MAX) == IResult::Done(s1, cue.index),
        spec_line_ending(s1) matches IResult::Done(rest, _) && rest == s2,
        spec_parse_time(s2) == IResult::Done(s3, cue.start_time),
        spec_tag(s3, arrow()) matches IResult::Done(rest, _) && rest == s4,
        spec_parse_time(s4) == IResult::Done(s5, cue.end_time),
        spec_line_ending(s5) matches IResult::Done(rest, _) && rest == s6,
        spec_parse_text(s6) == IResult::Done(s7, cue.text),
    ensures
        spec_parse_sub(input) == IResult::Done(s7, cue),
{
}

/// A text that ends where the blank line after it begins is parsed back
/// from its encoding followed by that blank line, whatever follows.
pub proof fn lemma_text_round_trip(text: Seq<char>, rest: Seq<u8>)
    requires
        ends_at_blank_line(encode_utf8(text)),
    ensures
        spec_parse_text(encode_utf8(text) + (blank_line() + rest)) == IResult::Done(rest, text),
{
    let body = encode_utf8(text);
    let short = body + blank_line();
    let input = body + (blank_line() + rest);
    let at = body.len() as int;
    assert(input.subrange(at, at + 2) =~= blank_line());
    assert forall|j: int| 0 <= j < at implies !occurs_at(input, blank_line(), j) by {
        assert(input.subrange(j, j + 2) =~= short.subrange(j, j + 2));
        assert(!occurs_at(short, blank_line(), j));
    }
    lemma_find_first(input, blank_line(), at);
    assert(input.take(at) =~= body);
    assert(input.skip(at + 2) =~= rest);
    vstd::utf8::encode_utf8_valid_utf8(text);
    vstd::utf8::encode_utf8_decode_utf8(text);
}

/// The bytes of a cue followed by a line feed and by `rest`, part by part.
proof fn lemma_cue_bytes_parts(cue: SubTitleView, rest: Seq<u8>)
    ensures
        cue.spec_bytes() + seq![LF] + rest == decimal_digits(cue.index as nat) + (seq![LF] + (
        cue.start_time.spec_bytes() + (arrow() + (cue.end_time.spec_bytes() + (seq![LF] + (
        encode_utf8(cue.text) + (blank_line() + rest))))))),
{
    let index = decimal_digits(cue.index as nat);
    let start = cue.start_time.spec_bytes();
    let end = cue.end_time.spec_bytes();
    let body = encode_utf8(cue.text);
    let lf = seq![LF];
    let front2 = index + lf;
    let front3 = front2 + start;
    let front4 = front3 + arrow();
    let front5 = front4 + end;
    let front6 = front5 + lf;
    let front7 = front6 + body;
    let front8 = front7 + lf;
    let t9 = lf + rest;
    let t8 = lf + t9;
    let t7 = body + t8;
    let t6 = lf + t7;
    let t5 = end + t6;
    let t4 = arrow() + t5;
    let t3 = start + t4;
    assert(t8 =~= blank_line() + rest);
    lemma_concat_associative(front8, lf, rest);
    lemma_concat_associative(front7, lf, t9);
    lemma_concat_associative(front6, body, t8);
    lemma_concat_associative(front5, lf, t7);
    lemma_concat_associative(front4, end, t6);
    lemma_concat_associative(front3, arrow(), t5);
    lemma_concat_associative(front2, start, t4);
    lemma_concat_associative(index, lf, t3);
}

/// A cue written as bytes and followed by one more line feed parses back to
/// the same cue, whatever follows, provided that its text ends where that
/// blank line begins.
pub proof fn lemma_cue_bytes_parse(cue: SubTitleView, rest: Seq<u8>)
    requires
        ends_at_blank_line(encode_utf8(cue.text)),
    ensures
        spec_parse_sub(cue.spec_bytes() + seq![LF] + rest) == IResult::Done(rest, cue),
{
    lemma_cue_bytes_parts(cue, rest);
    let input = cue.spec_bytes() + seq![LF] + rest;
    let s6 = encode_utf8(cue.text) + (blank_line() + rest);
    let s5 = seq![LF] + s6;
    let s4 = cue.end_time.spec_bytes() + s5;
    let s3 = arrow() + s4;
    let s2 = cue.start_time.spec_bytes() + s3;
    let s1 = seq![LF] + s2;
    assert(spec_number(input, u32::MAX) == IResult::Done(s1, cue.index)) by {
        lemma_number_round_trip(cue.index as nat, 0, u32::MAX, s1);
    }
    assert(spec_line_ending(s1) matches IResult::Done(left, _) && left == s2) by {
        assert(s1.skip(1) =~= s2);
    }
    assert(spec_parse_time(s2) == IResult::Done(s3, cue.start_time)) by {
        lemma_time_bytes_parse(cue.start_time, s3);
    }
    assert(spec_tag(s3, arrow()) matches IResult::Done(left, _) && left == s4) by {
        assert(s3.subrange(0, 5) =~= arrow());
        assert(s3.skip(5) =~= s4);
    }
    assert(spec_parse_time(s4) == IResult::Done(s5, cue.end_time)) by {
        lemma_time_bytes_parse(cue.end_time, s5);
    }
    assert(spec_line_ending(s5) matches IResult::Done(left, _) && left == s6) by {
        assert(s5.skip(1) =~= s6);
    }
    assert(spec_parse_text(s6) == IResult::Done(rest, cue.text)) by {
        lemma_text_round_trip(cue.text, rest);
    }
    lemma_cue_parts(input, s1, s2, s3, s4, s5, s6, rest, cue);
}

/// Round trip of a cue: what `to_string` writes for it, encoded as bytes and
/// followed by one more line feed, parses back to the same cue with nothing
/// left, provided that its text ends where that blank line begins.
pub proof fn lemma_cue_round_trip(cue: SubTitleView)
    requires
        ends_at_blank_line(encode_utf8(cue.text)),
    ensures
        spec_parse_sub(encode_utf8(cue.spec_text()) + seq![LF]) == IResult::Done(
            Seq::<u8>::empty(),
            cue,
        ),
{
    lemma_cue_text_encoding(cue);
    lemma_cue_bytes_parse(cue, Seq::empty());
    assert(cue.spec_bytes() + seq![LF] + Seq::<u8>::empty() =~= cue.spec_bytes() + seq![LF]);
}

/// The bytes of a document whose cues are written one after another, each
/// followed by one more line feed.
pub open spec fn spec_document_bytes(cues: Seq<SubTitleView>) -> Seq<u8>
    decreases cues.len(),
{
    if cues.len() == 0 {
        Seq::empty()
    } else {
        cues[0].spec_bytes() + seq![LF] + spec_document_bytes(cues.drop_first())
    }
}

/// Round trip of a document: cues written one after another, each followed
/// by one more line feed, parse back to the same cues with nothing left,
/// provided that there is a cue and every text ends where its blank line
/// begins.
pub proof fn lemma_document_round_trip(cues: Seq<SubTitleView>)
    requires
        cues.len() > 0,
        forall|i: int| 0 <= i < cues.len() ==> ends_at_blank_line(encode_utf8(#[trigger] cues[i].text)),
    ensures
        spec_parse_srt(spec_document_bytes(cues)) == IResult::Done(Seq::<u8>::empty(), cues),
    decreases cues.len(),
{
    let first = cues[0];
    let others = cues.drop_first();
    let rest = spec_document_bytes(others);
    let input = spec_document_bytes(cues);
    lemma_cue_bytes_parse(first, rest);
    assert(cues =~= seq![first] + others);
    if others.len() == 0 {
        assert(rest =~= Seq::<u8>::empty());
    } else {
        assert forall|i: int| 0 <= i < others.len() implies ends_at_blank_line(
            encode_utf8(#[trigger] others[i].text),
        ) by {
            assert(others[i] == cues[i + 1]);
        }
        lemma_document_round_trip(others);
        assert(rest.len() > 0) by {
            assert(rest == others[0].spec_bytes() + seq![LF] + spec_document_bytes(
                others.drop_first(),
            ));
        }
        assert(rest.len() < input.len());
    }
}

} // verus!
