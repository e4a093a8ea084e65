use srt::combinator::ErrorKind;
use srt::combinator::IResult::Done;
use srt::parser::{parse_sub, parse_time};
use srt::{ParseError, SubTitle, Time};
use std::io;

#[test]
fn time_is_written_with_padding() {
    let time = Time { hours: 1, minutes: 42, seconds: 5, milliseconds: 123 };
    assert_eq!(time.to_string(), "01:42:05,123");
    let zero = Time { hours: 0, minutes: 0, seconds: 0, milliseconds: 0 };
    assert_eq!(zero.to_string(), "00:00:00,000");
    let small = Time { hours: 9, minutes: 10, seconds: 59, milliseconds: 7 };
    assert_eq!(small.to_string(), "09:10:59,007");
    let edge = Time { hours: 99, minutes: 99, seconds: 99, milliseconds: 999 };
    assert_eq!(edge.to_string(), "99:99:99,999");
}

#[test]
fn time_wider_than_its_padding_is_written_in_full() {
    let wide = Time { hours: 100, minutes: 255, seconds: 200, milliseconds: 65535 };
    assert_eq!(wide.to_string(), "100:255:200,65535");
    let thousand = Time { hours: 0, minutes: 0, seconds: 0, milliseconds: 1000 };
    assert_eq!(thousand.to_string(), "00:00:00,1000");
}

#[test]
fn time_round_trip() {
    let time = Time { hours: 1, minutes: 42, seconds: 5, milliseconds: 123 };
    let text = time.to_string();
    assert_eq!(parse_time(text.as_bytes()), Done(&b""[..], time));
}

#[test]
fn time_round_trip_over_the_range() {
    for hours in [0u8, 1, 9, 10, 42, 99, 100, 255] {
        for milliseconds in [0u16, 1, 9, 10, 99, 100, 999, 1000, 65535] {
            let time = Time { hours, minutes: hours / 2, seconds: 59, milliseconds };
            let text = time.to_string();
            assert_eq!(parse_time(text.as_bytes()), Done(&b""[..], time));
        }
    }
}

#[test]
fn cue_is_written_on_three_lines() {
    let cue = SubTitle {
        index: 12,
        start_time: Time { hours: 0, minutes: 1, seconds: 5, milliseconds: 0 },
        end_time: Time { hours: 0, minutes: 1, seconds: 6, milliseconds: 10 },
        text: String::from("Second line,\nand third line."),
    };
    assert_eq!(
        cue.to_string(),
        "12\n00:01:05,000 --> 00:01:06,010\nSecond line,\nand third line.\n"
    );
}

#[test]
fn cue_index_is_written_without_padding() {
    let cue = |index: u32| SubTitle {
        index,
        start_time: Time { hours: 0, minutes: 0, seconds: 0, milliseconds: 0 },
        end_time: Time { hours: 0, minutes: 0, seconds: 0, milliseconds: 1 },
        text: String::from("h\u{e9}"),
    };
    assert_eq!(cue(0).to_string(), "0\n00:00:00,000 --> 00:00:00,001\nh\u{e9}\n");
    assert_eq!(cue(7).to_string(), "7\n00:00:00,000 --> 00:00:00,001\nh\u{e9}\n");
    assert_eq!(cue(1000).to_string(), "1000\n00:00:00,000 --> 00:00:00,001\nh\u{e9}\n");
    assert_eq!(
        cue(4294967295).to_string(),
        "4294967295\n00:00:00,000 --> 00:00:00,001\nh\u{e9}\n"
    );
}

#[test]
fn written_cue_parses_once_a_line_feed_is_added() {
    let cue = SubTitle {
        index: 3,
        start_time: Time { hours: 1, minutes: 42, seconds: 5, milliseconds: 123 },
        end_time: Time { hours: 1, minutes: 42, seconds: 6, milliseconds: 456 },
        text: String::from("This is the end!"),
    };
    let mut text = cue.to_string();
    assert_eq!(parse_sub(text.as_bytes()), srt::combinator::IResult::Error(ErrorKind::TakeUntilAndConsume));
    text.push('\n');
    assert_eq!(parse_sub(text.as_bytes()), Done(&b""[..], cue));
}

#[test]
fn errors_describe_themselves() {
    assert_eq!(ParseError::Incomplete.description(), "SRT data are missing");
    assert_eq!(ParseError::StartTime.description(), "Wrong start time format");
    assert_eq!(ParseError::EndTime.description(), "Wrong end time format");
    assert_eq!(
        ParseError::ArrowBetweenTimes.description(),
        "Expected '-->' between start and end time"
    );
    assert_eq!(ParseError::Unknown.description(), "Unknown error");
}

#[test]
fn errors_are_written_with_a_prefix() {
    assert_eq!(ParseError::Incomplete.to_string(), "ParseError: SRT data are missing");
    assert_eq!(ParseError::StartTime.to_string(), "ParseError: Wrong start time format");
    assert_eq!(ParseError::EndTime.to_string(), "ParseError: Wrong end time format");
    assert_eq!(
        ParseError::ArrowBetweenTimes.to_string(),
        "ParseError: Expected '-->' between start and end time"
    );
    assert_eq!(ParseError::Unknown.to_string(), "ParseError: Unknown error");
}

#[test]
#[allow(deprecated)]
fn io_error_brings_its_own_description() {
    let error = ParseError::from(io::Error::from(io::ErrorKind::NotFound));
    assert!(matches!(error, ParseError::Io(_)));
    let same = io::Error::from(io::ErrorKind::NotFound);
    let expected = String::from(std::error::Error::description(&same));
    assert!(!expected.is_empty());
    assert_eq!(error.description(), expected);
    assert_eq!(error.to_string(), format!("ParseError: {}", expected));
}

#[test]
fn tagged_errors_become_parse_errors() {
    assert!(matches!(ParseError::from(ErrorKind::Custom(1)), ParseError::StartTime));
    assert!(matches!(ParseError::from(ErrorKind::Custom(2)), ParseError::ArrowBetweenTimes));
    assert!(matches!(ParseError::from(ErrorKind::Custom(3)), ParseError::EndTime));
    assert!(matches!(ParseError::from(ErrorKind::Custom(0)), ParseError::Unknown));
    assert!(matches!(ParseError::from(ErrorKind::Custom(4)), ParseError::Unknown));
    assert!(matches!(ParseError::from(ErrorKind::Digit), ParseError::Unknown));
    assert!(matches!(ParseError::from(ErrorKind::Char), ParseError::Unknown));
    assert!(matches!(ParseError::from(ErrorKind::MapRes), ParseError::Unknown));
    assert!(matches!(ParseError::from(ErrorKind::Alt), ParseError::Unknown));
    assert!(matches!(ParseError::from(ErrorKind::Tag), ParseError::Unknown));
    assert!(matches!(ParseError::from(ErrorKind::CrLf), ParseError::Unknown));
    assert!(matches!(
        ParseError::from(ErrorKind::TakeUntilAndConsume),
        ParseError::Unknown
    ));
}

fn sample(index: u32, text: &str) -> SubTitle {
    SubTitle {
        index,
        start_time: Time { hours: 0, minutes: index as u8, seconds: 5, milliseconds: 0 },
        end_time: Time { hours: 0, minutes: index as u8, seconds: 6, milliseconds: 10 },
        text: String::from(text),
    }
}

#[test]
fn written_cue_parses_whatever_follows_its_blank_line() {
    let cue = sample(2, "Second line,\nand third line.");
    let mut bytes = cue.to_string().into_bytes();
    bytes.extend_from_slice(b"\n3\nmore");
    assert_eq!(parse_sub(&bytes), Done(&b"3\nmore"[..], cue));
}

#[test]
fn written_cues_joined_by_line_feeds_parse_back() {
    let cues = vec![
        sample(1, "First line"),
        sample(2, "Second line,\nand third line."),
        sample(3, ""),
        sample(40, "h\u{e9}llo \u{4e16}\u{754c}"),
    ];
    let mut bytes = Vec::new();
    for cue in &cues {
        bytes.extend_from_slice(cue.to_string().as_bytes());
        bytes.push(b'\n');
    }
    let srt = srt::parser::parse_srt_from_slice(&bytes).unwrap();
    assert_eq!(srt.subs, cues);
}

#[test]
fn text_that_ends_with_a_line_feed_does_not_come_back() {
    let cue = sample(1, "a\n");
    let mut bytes = cue.to_string().into_bytes();
    bytes.push(b'\n');
    assert_eq!(parse_sub(&bytes), Done(&b"\n"[..], sample(1, "a")));
    let inner = sample(1, "a\n\nb");
    let mut bytes = inner.to_string().into_bytes();
    bytes.push(b'\n');
    assert_eq!(parse_sub(&bytes), Done(&b"b\n\n"[..], sample(1, "a")));
}
