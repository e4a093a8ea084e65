use srt::combinator::IResult::{Done, Error, Incomplete};
use srt::combinator::{ErrorKind, Needed};
use srt::parser::{parse_srt, parse_srt_from_slice, parse_sub, parse_text, parse_time};
use srt::{ParseError, Srt, SubTitle, Time};
use std::str::FromStr;

fn time(hours: u8, minutes: u8, seconds: u8, milliseconds: u16) -> Time {
    Time { hours, minutes, seconds, milliseconds }
}

fn cue(index: u32, start_time: Time, end_time: Time, text: &str) -> SubTitle {
    SubTitle { index, start_time, end_time, text: String::from(text) }
}

#[test]
fn test_parse_time() {
    let empty: &[u8] = b"";
    let ok = b"01:42:05,123";
    let error = b"01,42:05,123";
    let incomplete = b"01:42:05";

    assert_eq!(
        parse_time(ok),
        Done(
            empty,
            Time {
                hours: 1,
                minutes: 42,
                seconds: 5,
                milliseconds: 123,
            }
        )
    );
    assert_eq!(parse_time(error), Error(ErrorKind::Char));
    assert_eq!(
        parse_time(incomplete),
        Incomplete(Needed::Size(incomplete.len() + 1))
    );
}

#[test]
fn test_parse_sub() {
    let empty: &[u8] = b"";
    let ok = b"1\n01:42:05,123 --> 01:42:06,456\nFirst line\nSecond line\n\n";
    let error_1 = b"1\n01:42:05,,123 --> 01:42:06,456\nFirst line\nSecond line\n\n";
    let error_2 = b"1\n01:42:05,123 -a-> 01:42:06,456\nFirst line\nSecond line\n\n";
    let error_3 = b"1\n01:42:05,123 --> 01::42:06,456\nFirst line\nSecond line\n\n";

    assert_eq!(
        parse_sub(ok),
        Done(
            empty,
            SubTitle {
                index: 1,
                start_time: Time { hours: 1, minutes: 42, seconds: 5, milliseconds: 123 },
                end_time: Time { hours: 1, minutes: 42, seconds: 6, milliseconds: 456 },
                text: String::from_str("First line\nSecond line").unwrap(),
            }
        )
    );
    assert_eq!(parse_sub(error_1), Error(ErrorKind::Custom(1)));
    assert_eq!(parse_sub(error_2), Error(ErrorKind::Custom(2)));
    assert_eq!(parse_sub(error_3), Error(ErrorKind::Custom(3)));
}

const THREE_CUES: &[u8] = b"1\n00:00:01,123 --> 00:00:03,456\nFirst line\n\n\
2\n00:01:05,000 --> 00:01:06,010\nSecond line,\nand third line.\n\n\
3\n01:42:05,123 --> 01:42:06,456\nThis is the end!\n\n";

#[test]
fn test_parse_srt() {
    let srt = parse_srt_from_slice(THREE_CUES).unwrap();

    assert_eq!(
        srt,
        Srt {
            subs: vec![
                SubTitle {
                    index: 1,
                    start_time: Time { hours: 0, minutes: 0, seconds: 1, milliseconds: 123 },
                    end_time: Time { hours: 0, minutes: 0, seconds: 3, milliseconds: 456 },
                    text: String::from_str("First line").unwrap(),
                },
                SubTitle {
                    index: 2,
                    start_time: Time { hours: 0, minutes: 1, seconds: 5, milliseconds: 0 },
                    end_time: Time { hours: 0, minutes: 1, seconds: 6, milliseconds: 010 },
                    text: String::from_str("Second line,\nand third line.").unwrap(),
                },
                SubTitle {
                    index: 3,
                    start_time: Time { hours: 1, minutes: 42, seconds: 5, milliseconds: 123 },
                    end_time: Time { hours: 1, minutes: 42, seconds: 6, milliseconds: 456 },
                    text: String::from_str("This is the end!").unwrap(),
                },
            ],
        }
    );
}

#[test]
fn minimal_document_has_one_cue() {
    let srt = parse_srt_from_slice(b"1\n00:00:01,123 --> 00:00:03,456\nFirst line\n\n").unwrap();
    assert_eq!(
        srt,
        Srt { subs: vec![cue(1, time(0, 0, 1, 123), time(0, 0, 3, 456), "First line")] }
    );
}

#[test]
fn multi_line_text_keeps_its_inner_line_feed() {
    let srt = parse_srt_from_slice(THREE_CUES).unwrap();
    assert_eq!(srt.subs.len(), 3);
    assert_eq!(srt.subs[0].index, 1);
    assert_eq!(srt.subs[1].index, 2);
    assert_eq!(srt.subs[2].index, 3);
    assert_eq!(srt.subs[1].text, "Second line,\nand third line.");
}

#[test]
fn double_comma_is_an_invalid_start_time() {
    let input = b"1\n01:42:05,,123 --> 01:42:06,456\nFirst line\nSecond line\n\n";
    assert!(matches!(parse_srt_from_slice(input), Err(ParseError::StartTime)));
}

#[test]
fn malformed_arrow_is_a_missing_arrow() {
    let input = b"1\n01:42:05,123 -a-> 01:42:06,456\nFirst line\nSecond line\n\n";
    assert!(matches!(parse_srt_from_slice(input), Err(ParseError::ArrowBetweenTimes)));
}

#[test]
fn extra_colon_is_an_invalid_end_time() {
    let input = b"1\n01:42:05,123 --> 01::42:06,456\nFirst line\nSecond line\n\n";
    assert!(matches!(parse_srt_from_slice(input), Err(ParseError::EndTime)));
    assert_eq!(
        parse_time(b"01:42:05,123 --> 01::42:06,456\n"),
        Done(&b" --> 01::42:06,456\n"[..], time(1, 42, 5, 123))
    );
}

#[test]
fn truncated_time_is_incomplete() {
    assert_eq!(parse_time(b"01:42:05"), Incomplete(Needed::Size(9)));
    assert_eq!(parse_time(b"01:42:"), Incomplete(Needed::Unknown));
    assert_eq!(parse_time(b"01"), Incomplete(Needed::Size(3)));
    assert_eq!(parse_time(b""), Incomplete(Needed::Unknown));
}

#[test]
fn empty_input_is_no_document() {
    assert!(matches!(parse_srt_from_slice(b""), Err(ParseError::Incomplete)));
    assert_eq!(parse_srt(b""), Incomplete(Needed::Unknown));
}

#[test]
fn time_fields_may_have_any_width() {
    assert_eq!(parse_time(b"1:2:3,4"), Done(&b""[..], time(1, 2, 3, 4)));
    assert_eq!(parse_time(b"001:0002:00003,000004 "), Done(&b" "[..], time(1, 2, 3, 4)));
    assert_eq!(parse_time(b"255:255:255,65535x"), Done(&b"x"[..], time(255, 255, 255, 65535)));
}

#[test]
fn time_fields_out_of_range_are_rejected() {
    assert_eq!(parse_time(b"256:00:00,000"), Error(ErrorKind::MapRes));
    assert_eq!(parse_time(b"00:256:00,000"), Error(ErrorKind::MapRes));
    assert_eq!(parse_time(b"00:00:999,000"), Error(ErrorKind::MapRes));
    assert_eq!(parse_time(b"00:00:00,65536"), Error(ErrorKind::MapRes));
    assert_eq!(parse_time(b"00:00:00,99999999999999999999"), Error(ErrorKind::MapRes));
}

#[test]
fn time_rejects_what_is_no_digit() {
    assert_eq!(parse_time(b"x"), Error(ErrorKind::Digit));
    assert_eq!(parse_time(b"01:x"), Error(ErrorKind::Digit));
    assert_eq!(parse_time(b"01:42:05.123"), Error(ErrorKind::Char));
    assert_eq!(parse_time(b"01:42:05,x"), Error(ErrorKind::Digit));
    assert_eq!(parse_time(b"+1:42:05,123"), Error(ErrorKind::Digit));
}

#[test]
fn cue_accepts_carriage_returns_before_line_feeds() {
    let input = b"7\r\n00:00:01,000 --> 00:00:02,000\r\nHello\n\nrest";
    assert_eq!(
        parse_sub(input),
        Done(&b"rest"[..], cue(7, time(0, 0, 1, 0), time(0, 0, 2, 0), "Hello"))
    );
}

#[test]
fn cue_text_may_be_empty_or_hold_carriage_returns() {
    assert_eq!(
        parse_sub(b"1\n0:0:0,0 --> 0:0:0,1\n\n\n"),
        Done(&b""[..], cue(1, time(0, 0, 0, 0), time(0, 0, 0, 1), ""))
    );
    assert_eq!(
        parse_sub(b"1\n0:0:0,0 --> 0:0:0,1\na\r\nb\n\n\nc"),
        Done(&b"\nc"[..], cue(1, time(0, 0, 0, 0), time(0, 0, 0, 1), "a\r\nb"))
    );
}

#[test]
fn cue_rejects_a_malformed_index_or_line_break() {
    assert_eq!(parse_sub(b"x\n"), Error(ErrorKind::Digit));
    assert_eq!(parse_sub(b"4294967296\n"), Error(ErrorKind::MapRes));
    assert_eq!(parse_sub(b"1 \n"), Error(ErrorKind::Alt));
    assert_eq!(parse_sub(b"1\rx"), Error(ErrorKind::Alt));
    assert_eq!(
        parse_sub(b"1\n0:0:0,0 --> 0:0:0,1 \ntext\n\n"),
        Error(ErrorKind::Alt)
    );
    assert!(matches!(parse_srt_from_slice(b"x\n"), Err(ParseError::Unknown)));
    assert!(matches!(parse_srt_from_slice(b"1 \n"), Err(ParseError::Unknown)));
}

#[test]
fn cue_index_may_be_as_large_as_fits() {
    assert_eq!(
        parse_sub(b"4294967295\n0:0:0,0 --> 0:0:0,1\nx\n\n"),
        Done(&b""[..], cue(4294967295, time(0, 0, 0, 0), time(0, 0, 0, 1), "x"))
    );
}

#[test]
fn cue_text_without_a_blank_line_is_rejected() {
    assert_eq!(
        parse_sub(b"1\n0:0:0,0 --> 0:0:0,1\ntext\n"),
        Error(ErrorKind::TakeUntilAndConsume)
    );
    assert!(matches!(
        parse_srt_from_slice(b"1\n0:0:0,0 --> 0:0:0,1\ntext\n"),
        Err(ParseError::Unknown)
    ));
}

#[test]
fn cue_text_must_be_utf8() {
    assert_eq!(
        parse_sub(b"1\n0:0:0,0 --> 0:0:0,1\n\xff\xfe\n\n"),
        Error(ErrorKind::MapRes)
    );
    assert!(matches!(
        parse_srt_from_slice(b"1\n0:0:0,0 --> 0:0:0,1\n\xff\xfe\n\n"),
        Err(ParseError::Unknown)
    ));
    assert_eq!(
        parse_sub("1\n0:0:0,0 --> 0:0:0,1\nh\u{e9}llo \u{4e16}\u{754c}\n\n".as_bytes()),
        Done(&b""[..], cue(1, time(0, 0, 0, 0), time(0, 0, 0, 1), "h\u{e9}llo \u{4e16}\u{754c}"))
    );
}

#[test]
fn text_is_what_stands_before_the_first_blank_line() {
    assert_eq!(parse_text(b"one\ntwo\n\nthree\n\n"), Done(&b"three\n\n"[..], String::from("one\ntwo")));
    assert_eq!(parse_text(b"\n\n"), Done(&b""[..], String::new()));
    assert_eq!(parse_text(b"a\n\n\n"), Done(&b"\n"[..], String::from("a")));
    assert_eq!(parse_text(b"abc"), Error(ErrorKind::TakeUntilAndConsume));
    assert_eq!(parse_text(b"a"), Incomplete(Needed::Size(2)));
    assert_eq!(parse_text(b""), Incomplete(Needed::Size(2)));
    assert_eq!(parse_text(b"\xc3\n\n"), Error(ErrorKind::MapRes));
}

#[test]
fn incomplete_cue_counts_from_its_start() {
    assert_eq!(parse_sub(b""), Incomplete(Needed::Unknown));
    assert_eq!(parse_sub(b"12"), Incomplete(Needed::Size(3)));
    assert_eq!(parse_sub(b"12\r"), Incomplete(Needed::Size(4)));
    assert_eq!(parse_sub(b"1\n"), Incomplete(Needed::Unknown));
    assert_eq!(parse_sub(b"1\n01:42:05"), Incomplete(Needed::Size(11)));
    assert_eq!(parse_sub(b"1\n01:42:05,123"), Incomplete(Needed::Size(19)));
    assert_eq!(parse_sub(b"1\n01:42:05,123 --"), Incomplete(Needed::Size(19)));
    assert_eq!(parse_sub(b"1\n01:42:05,123 --> "), Incomplete(Needed::Unknown));
    assert_eq!(parse_sub(b"1\n01:42:05,123 --> 01:42:06"), Incomplete(Needed::Size(28)));
    assert_eq!(parse_sub(b"1\n01:42:05,123 --> 01:42:06,456"), Incomplete(Needed::Size(32)));
    assert_eq!(parse_sub(b"1\n01:42:05,123 --> 01:42:06,456\r"), Incomplete(Needed::Size(33)));
    assert_eq!(parse_sub(b"1\n01:42:05,123 --> 01:42:06,456\n"), Incomplete(Needed::Size(34)));
    assert_eq!(parse_sub(b"1\n01:42:05,123 --> 01:42:06,456\nx"), Incomplete(Needed::Size(34)));
    assert!(matches!(
        parse_srt_from_slice(b"1\n01:42:05,123 --> 01:42:06"),
        Err(ParseError::Incomplete)
    ));
}

#[test]
fn document_fails_as_its_first_failing_cue() {
    let first = b"1\n00:00:01,123 --> 00:00:03,456\nFirst line\n\n";
    let mut bad_start = first.to_vec();
    bad_start.extend_from_slice(b"2\n00:00:04;000 --> 00:00:05,000\nSecond\n\n");
    assert!(matches!(parse_srt_from_slice(&bad_start), Err(ParseError::StartTime)));
    assert_eq!(parse_srt(&bad_start), Error(ErrorKind::Custom(1)));

    let mut bad_arrow = first.to_vec();
    bad_arrow.extend_from_slice(b"2\n00:00:04,000 -> 00:00:05,000\nSecond\n\n");
    assert!(matches!(parse_srt_from_slice(&bad_arrow), Err(ParseError::ArrowBetweenTimes)));

    let mut bad_end = first.to_vec();
    bad_end.extend_from_slice(b"2\n00:00:04,000 --> 00:00:05\nSecond\n\n");
    assert!(matches!(parse_srt_from_slice(&bad_end), Err(ParseError::EndTime)));

    let mut garbage = first.to_vec();
    garbage.extend_from_slice(b"the end");
    assert!(matches!(parse_srt_from_slice(&garbage), Err(ParseError::Unknown)));
    assert_eq!(parse_srt(&garbage), Error(ErrorKind::Digit));

    let mut blank = first.to_vec();
    blank.extend_from_slice(b"\n");
    assert!(matches!(parse_srt_from_slice(&blank), Err(ParseError::Unknown)));
}

#[test]
fn document_that_stops_short_is_incomplete() {
    let first = b"1\n00:00:01,123 --> 00:00:03,456\nFirst line\n\n";
    let mut short = first.to_vec();
    short.extend_from_slice(b"2\n00:00:04");
    assert!(matches!(parse_srt_from_slice(&short), Err(ParseError::Incomplete)));
    assert_eq!(parse_srt(&short), Incomplete(Needed::Size(first.len() + 11)));

    let mut index_only = first.to_vec();
    index_only.extend_from_slice(b"2\n");
    assert_eq!(parse_srt(&index_only), Incomplete(Needed::Unknown));
}

#[test]
fn document_leaves_nothing() {
    match parse_srt(THREE_CUES) {
        Done(rest, srt) => {
            assert!(rest.is_empty());
            assert_eq!(srt.subs.len(), 3);
        }
        other => panic!("not a document: {:?}", other),
    }
}
