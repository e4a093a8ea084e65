//! Parsing and rendering of SubRip (`.srt`) subtitle documents.
//!
//! A document is a sequence of numbered cues, each with a start and an end
//! timecode and a body of text. [`parser::parse_srt_from_slice`] turns a byte
//! buffer into an [`Srt`] or a [`ParseError`]; [`Time::to_string`] and
//! [`SubTitle::to_string`] write a timecode and a cue back as text.

pub mod combinator;
pub mod decimal;
pub mod laws;
mod outside;
pub mod parser;

pub use parser::ParseError;

use combinator::LF;
use decimal::{ascii, decimal_digits, lemma_ascii_concat, padded, push_decimal, push_padded};
use vstd::prelude::*;
use vstd::utf8::encode_utf8;

verus! {

/// A subtitle document: its cues, in the order in which they appear.
#[derive(Debug, PartialEq)]
pub struct Srt {
    pub subs: Vec<SubTitle>,
}

/// A timecode: an offset from the start of the video.
#[derive(Debug, PartialEq)]
pub struct Time {
    pub hours: u8,
    pub minutes: u8,
    pub seconds: u8,
    pub milliseconds: u16,
}

/// A cue: a numbered piece of text and the time span during which it shows.
#[derive(Debug, PartialEq)]
pub struct SubTitle {
    pub index: u32,
    pub start_time: Time,
    pub end_time: Time,
    pub text: String,
}

/// What a [`SubTitle`] holds, with its text as a sequence of characters.
pub struct SubTitleView {
    pub index: u32,
    pub start_time: Time,
    pub end_time: Time,
    pub text: Seq<char>,
}

/// The byte `:`, which follows the hours and the minutes of a timecode.
pub const COLON: u8 = 0x3a;

/// The byte `,`, which follows the seconds of a timecode.
pub const COMMA: u8 = 0x2c;

/// The bytes ` --> `, which stand between the two timecodes of a cue.
pub open spec fn arrow() -> Seq<u8> {
    seq![0x20u8, 0x2d, 0x2d, 0x3e, 0x20]
}

impl View for Time {
    type V = Time;

    open spec fn view(&self) -> Time {
        *self
    }
}

impl View for SubTitle {
    type V = SubTitleView;

    open spec fn view(&self) -> SubTitleView {
        SubTitleView {
            index: self.index,
            start_time: self.start_time,
            end_time: self.end_time,
            text: self.text@,
        }
    }
}

impl View for Srt {
    type V = Seq<SubTitleView>;

    open spec fn view(&self) -> Seq<SubTitleView> {
        self.subs@.map_values(|sub: SubTitle| sub@)
    }
}

impl Time {
    /// The timecode as bytes: `HH:MM:SS,mmm`, the hours, minutes and seconds
    /// padded with zeros to two digits and the milliseconds to three.
    pub open spec fn spec_bytes(self) -> Seq<u8> {
        padded(self.hours as nat, 2) + seq![COLON] + padded(self.minutes as nat, 2) + seq![COLON]
            + padded(self.seconds as nat, 2) + seq![COMMA] + padded(self.milliseconds as nat, 3)
    }

    /// The timecode as text.
    pub open spec fn spec_text(self) -> Seq<char> {
        ascii(self.spec_bytes())
    }

    /// Writes the timecode as `HH:MM:SS,mmm`.
    pub fn to_string(&self) -> (text: String)
        ensures
            text@ == self.spec_text(),
    {
        let mut out = String::new();
        push_padded(&mut out, self.hours as u32, 2);
        out.append(":");
        push_padded(&mut out, self.minutes as u32, 2);
        out.append(":");
        push_padded(&mut out, self.seconds as u32, 2);
        out.append(",");
        push_padded(&mut out, self.milliseconds as u32, 3);
        proof {
            reveal_strlit(":");
            reveal_strlit(",");
            let ghost h = padded(self.hours as nat, 2);
            let ghost m = padded(self.minutes as nat, 2);
            let ghost s = padded(self.seconds as nat, 2);
            let ghost ms = padded(self.milliseconds as nat, 3);
            assert(":"@ =~= ascii(seq![COLON]));
            assert(","@ =~= ascii(seq![COMMA]));
            lemma_ascii_concat(h, seq![COLON]);
            lemma_ascii_concat(h + seq![COLON], m);
            lemma_ascii_concat(h + seq![COLON] + m, seq![COLON]);
            lemma_ascii_concat(h + seq![COLON] + m + seq![COLON], s);
            lemma_ascii_concat(h + seq![COLON] + m + seq![COLON] + s, seq![COMMA]);
            lemma_ascii_concat(h + seq![COLON] + m + seq![COLON] + s + seq![COMMA], ms);
            assert(out@ =~= Seq::<char>::empty() + ascii(h) + ascii(seq![COLON]) + ascii(m)
                + ascii(seq![COLON]) + ascii(s) + ascii(seq![COMMA]) + ascii(ms));
        }
        out
    }
}

impl SubTitleView {
    /// The cue as text: the index on a line, the two timecodes with ` --> `
    /// between them on a line, and the text followed by a line feed.
    pub open spec fn spec_text(self) -> Seq<char> {
        ascii(decimal_digits(self.index as nat)) + seq!['\n'] + self.start_time.spec_text() + ascii(
            arrow(),
        ) + self.end_time.spec_text() + seq!['\n'] + self.text + seq!['\n']
    }

    /// The cue as bytes: its text, encoded in UTF-8.
    pub open spec fn spec_bytes(self) -> Seq<u8> {
        decimal_digits(self.index as nat) + seq![LF] + self.start_time.spec_bytes() + arrow()
            + self.end_time.spec_bytes() + seq![LF] + encode_utf8(self.text) + seq![LF]
    }
}

impl SubTitle {
    /// Writes the cue as text: `index`, a line feed, `start --> end`, a line
    /// feed, the text, a line feed.
    pub fn to_string(&self) -> (text: String)
        ensures
            text@ == self@.spec_text(),
    {
        let mut out = String::new();
        push_decimal(&mut out, self.index);
        out.append("\n");
        let start = self.start_time.to_string();
        out.append(start.as_str());
        out.append(" --> ");
        let end = self.end_time.to_string();
        out.append(end.as_str());
        out.append("\n");
        out.append(self.text.as_str());
        out.append("\n");
        proof {
            reveal_strlit("\n");
            reveal_strlit(" --> ");
            assert("\n"@ =~= seq!['\n']);
            assert(" --> "@ =~= ascii(arrow()));
            assert(out@ =~= Seq::<char>::empty() + ascii(decimal_digits(self.index as nat)) + seq![
                '\n',
            ] + self.start_time.spec_text() + ascii(arrow()) + self.end_time.spec_text() + seq![
                '\n',
            ] + self.text@ + seq!['\n']);
        }
        out
    }
}

} // verus!
