//! Unsigned decimal tokens: what a run of ASCII digits is worth, how it is
//! read from the input, and how a number is written back as text.

use crate::combinator::{digit_run, is_digit, lemma_digit_run, spec_digit};
use crate::outside::digit;
use crate::combinator::{ErrorKind, IResult};
use vstd::prelude::*;

verus! {

/// The ASCII code of the digit zero.
pub const ZERO: u8 = 0x30;

/// The number that the decimal digits `digits` write, most significant digit
/// first. Leading zeros do not count.
pub open spec fn decimal_value(digits: Seq<u8>) -> nat
    decreases digits.len(),
{
    if digits.len() == 0 {
        0
    } else {
        10 * decimal_value(digits.drop_last()) + (digits.last() - ZERO) as nat
    }
}

/// Whether every byte of `s` is an ASCII digit.
pub open spec fn all_digits(s: Seq<u8>) -> bool {
    forall|i: int| 0 <= i < s.len() ==> is_digit(#[trigger] s[i])
}

/// The value of `token` as a number of at most `max`: a token that is empty,
/// holds another byte than a digit, or is worth more than `max` has none.
pub open spec fn spec_decimal(token: Seq<u8>, max: u32) -> Option<u32> {
    if token.len() > 0 && all_digits(token) && decimal_value(token) <= max {
        Some(decimal_value(token) as u32)
    } else {
        None
    }
}

/// A decimal number of at most `max` at the start of `input`: a run of
/// digits, which is rejected when it is worth more than `max`.
pub open spec fn spec_number(input: Seq<u8>, max: u32) -> IResult<Seq<u8>, u32> {
    spec_digit(input).and_then(
        |rest: Seq<u8>, run: Seq<u8>|
            match spec_decimal(run, max) {
                Some(value) => IResult::Done(rest, value),
                None => IResult::Error(ErrorKind::MapRes),
            },
    )
}

/// The ASCII digit for `d`, which is below ten.
pub open spec fn digit_of(d: nat) -> u8
    recommends
        d < 10,
{
    (ZERO + d) as u8
}

/// The decimal digits of `n`, most significant first, without leading zeros.
pub open spec fn decimal_digits(n: nat) -> Seq<u8>
    decreases n,
{
    if n < 10 {
        seq![digit_of(n)]
    } else {
        decimal_digits(n / 10).push(digit_of(n % 10))
    }
}

/// `count` zero digits.
pub open spec fn zeros(count: nat) -> Seq<u8> {
    Seq::new(count, |i: int| ZERO)
}

/// The decimal digits of `n`, with zeros in front of them where they are
/// fewer than `width`.
pub open spec fn padded(n: nat, width: nat) -> Seq<u8> {
    let digits = decimal_digits(n);
    if digits.len() >= width {
        digits
    } else {
        zeros((width - digits.len()) as nat) + digits
    }
}

/// The text that the ASCII bytes `bytes` spell.
pub open spec fn ascii(bytes: Seq<u8>) -> Seq<char> {
    bytes.map_values(|b: u8| b as char)
}

/// The text of a concatenation is the concatenation of the texts.
pub proof fn lemma_ascii_concat(a: Seq<u8>, b: Seq<u8>)
    ensures
        ascii(a + b) == ascii(a) + ascii(b),
{
    assert(ascii(a + b) =~= ascii(a) + ascii(b));
}

/// Text spelled by bytes below 128 is encoded in UTF-8 as those bytes.
pub proof fn lemma_ascii_encoding(bytes: Seq<u8>)
    requires
        forall|i: int| 0 <= i < bytes.len() ==> #[trigger] bytes[i] < 128,
    ensures
        vstd::utf8::encode_utf8(ascii(bytes)) == bytes,
{
    let chars = ascii(bytes);
    assert(vstd::utf8::is_ascii_chars(chars)) by {
        assert forall|i: int| 0 <= i < chars.len() implies '\0' <= #[trigger] chars[i]
            <= '\u{7f}' by {
            assert(chars[i] == bytes[i] as char);
        }
    }
    vstd::utf8::is_ascii_chars_encode_utf8(chars);
    assert forall|i: int| 0 <= i < bytes.len() implies vstd::utf8::encode_utf8(chars)[i]
        == bytes[i] by {
        assert(chars[i] == bytes[i] as char);
    }
    assert(vstd::utf8::encode_utf8(chars) =~= bytes);
}

/// A prefix of a token is worth no more than the token.
pub proof fn lemma_decimal_value_prefix(digits: Seq<u8>, k: int)
    requires
        0 <= k <= digits.len(),
    ensures
        decimal_value(digits.take(k)) <= decimal_value(digits),
    decreases digits.len() - k,
{
    if k == digits.len() {
        assert(digits.take(k) =~= digits);
    } else {
        lemma_decimal_value_prefix(digits.drop_last(), k);
        assert(digits.drop_last().take(k) =~= digits.take(k));
    }
}

/// Zeros in front of a token do not change what it is worth.
pub proof fn lemma_decimal_value_zeros(count: nat, digits: Seq<u8>)
    ensures
        decimal_value(zeros(count) + digits) == decimal_value(digits),
    decreases digits.len(), count,
{
    let s = zeros(count) + digits;
    if digits.len() > 0 {
        assert(s.drop_last() =~= zeros(count) + digits.drop_last());
        assert(s.last() == digits.last());
        lemma_decimal_value_zeros(count, digits.drop_last());
    } else if count > 0 {
        assert(s.drop_last() =~= zeros((count - 1) as nat) + digits);
        assert(s.last() == ZERO);
        lemma_decimal_value_zeros((count - 1) as nat, digits);
    } else {
        assert(s =~= digits);
    }
}

/// The decimal digits of a number are digits, at least one of them, and are
/// worth that number.
pub proof fn lemma_decimal_digits(n: nat)
    ensures
        decimal_digits(n).len() > 0,
        all_digits(decimal_digits(n)),
        decimal_value(decimal_digits(n)) == n,
    decreases n,
{
    let s = decimal_digits(n);
    if n < 10 {
        assert(s.drop_last() =~= Seq::<u8>::empty());
        assert(decimal_value(s.drop_last()) == 0);
    } else {
        lemma_decimal_digits(n / 10);
        assert(s.drop_last() =~= decimal_digits(n / 10));
        assert(s.last() == digit_of(n % 10));
    }
}

/// A padded number is made of digits, is at least as wide as asked and never
/// empty, and is worth the number.
pub proof fn lemma_padded(n: nat, width: nat)
    ensures
        padded(n, width).len() > 0,
        padded(n, width).len() >= width,
        all_digits(padded(n, width)),
        decimal_value(padded(n, width)) == n,
{
    lemma_decimal_digits(n);
    let digits = decimal_digits(n);
    if digits.len() < width {
        lemma_decimal_value_zeros((width - digits.len()) as nat, digits);
    }
}

/// A number of at most `max`, written with padding and followed by
/// something that is no digit, is read back as that number, and what follows
/// is left.
pub proof fn lemma_number_round_trip(n: nat, width: nat, max: u32, rest: Seq<u8>)
    requires
        n <= max,
        rest.len() > 0 ==> !is_digit(rest[0]),
    ensures
        spec_number(padded(n, width) + rest, max) == IResult::<Seq<u8>, u32>::Done(rest, n as u32),
{
    let token = padded(n, width);
    let input = token + rest;
    lemma_padded(n, width);
    crate::combinator::lemma_digit_run_of(token, rest);
    assert(input[0] == token[0]);
    assert(input.take(token.len() as int) =~= token);
    assert(input.skip(token.len() as int) =~= rest);
}

/// Reads `token` as a decimal number of at most `max`.
pub fn decimal(token: &[u8], max: u32) -> (r: Option<u32>)
    ensures
        r == spec_decimal(token@, max),
{
    if token.len() == 0 {
        return None;
    }
    let mut value: u32 = 0;
    let mut i: usize = 0;
    while i < token.len()
        invariant
            i <= token@.len(),
            all_digits(token@.take(i as int)),
            value == decimal_value(token@.take(i as int)),
            value <= max,
        decreases token@.len() - i,
    {
        let b = token[i];
        if b < ZERO || b > 0x39 {
            return None;
        }
        let next: u64 = value as u64 * 10 + (b - ZERO) as u64;
        proof {
            let ghost longer = token@.take(i + 1);
            assert(longer.drop_last() =~= token@.take(i as int));
            assert(longer.last() == b);
            assert(all_digits(longer)) by {
                assert forall|j: int| 0 <= j < longer.len() implies is_digit(
                    #[trigger] longer[j],
                ) by {
                    if j < i {
                        assert(longer[j] == token@.take(i as int)[j]);
                    }
                }
            }
            lemma_decimal_value_prefix(token@, i + 1);
        }
        if next > max as u64 {
            return None;
        }
        value = next as u32;
        i = i + 1;
    }
    proof {
        assert(token@.take(i as int) =~= token@);
    }
    Some(value)
}

/// Reads a decimal number of at most `max` at the start of `input`.
pub fn number<'a>(input: &'a [u8], max: u32) -> (r: IResult<&'a [u8], u32>)
    ensures
        r@ == spec_number(input@, max),
        r matches IResult::Done(rest, _) ==> rest@.len() < input@.len(),
{
    proof {
        lemma_digit_run(input@);
    }
    match digit(input) {
        IResult::Done(rest, run) => match decimal(run, max) {
            Some(value) => IResult::Done(rest, value),
            None => IResult::Error(ErrorKind::MapRes),
        },
        IResult::Error(kind) => IResult::Error(kind),
        IResult::Incomplete(needed) => IResult::Incomplete(needed),
    }
}

/// What a successful `spec_number` says of its input: the value is at most
/// `max`, and the input is a non-empty run of digits followed by what is
/// left.
pub proof fn lemma_number_done(input: Seq<u8>, max: u32)
    requires
        spec_number(input, max) is Done,
    ensures
        spec_number(input, max)->Done_1 <= max,
        spec_number(input, max)->Done_0 == input.skip(digit_run(input) as int),
        0 < digit_run(input) <= input.len(),
{
    lemma_digit_run(input);
}

/// The text of a single decimal digit.
fn digit_text(d: u8) -> (s: &'static str)
    requires
        d < 10,
    ensures
        s@ == ascii(seq![digit_of(d as nat)]),
{
    proof {
        reveal_strlit("0");
        reveal_strlit("1");
        reveal_strlit("2");
        reveal_strlit("3");
        reveal_strlit("4");
        reveal_strlit("5");
        reveal_strlit("6");
        reveal_strlit("7");
        reveal_strlit("8");
        reveal_strlit("9");
    }
    let s = match d {
        0 => "0",
        1 => "1",
        2 => "2",
        3 => "3",
        4 => "4",
        5 => "5",
        6 => "6",
        7 => "7",
        8 => "8",
        _ => "9",
    };
    assert(s@ =~= ascii(seq![digit_of(d as nat)]));
    s
}

/// The number of decimal digits of `n`.
pub fn digit_count(n: u32) -> (count: u32)
    ensures
        count == decimal_digits(n as nat).len(),
        count <= n + 1,
    decreases n,
{
    if n < 10 {
        1
    } else {
        1 + digit_count(n / 10)
    }
}

/// Appends the decimal digits of `n` to `out`.
pub fn push_decimal(out: &mut String, n: u32)
    ensures
        final(out)@ == old(out)@ + ascii(decimal_digits(n as nat)),
    decreases n,
{
    if n >= 10 {
        push_decimal(out, n / 10);
    }
    out.append(digit_text((n % 10) as u8));
    proof {
        if n >= 10 {
            let ghost front = decimal_digits((n / 10) as nat);
            let ghost last = seq![digit_of((n % 10) as nat)];
            assert(decimal_digits(n as nat) =~= front + last);
            lemma_ascii_concat(front, last);
            assert(final(out)@ =~= old(out)@ + (ascii(front) + ascii(last)));
        }
    }
}

/// Appends the decimal digits of `n` to `out`, with zeros in front of them
/// where they are fewer than `width`.
pub fn push_padded(out: &mut String, n: u32, width: u32)
    ensures
        final(out)@ == old(out)@ + ascii(padded(n as nat, width as nat)),
{
    let mut written: u32 = digit_count(n);
    let ghost digits = decimal_digits(n as nat);
    while written < width
        invariant
            digits.len() <= written,
            written <= width || written == digits.len(),
            out@ == old(out)@ + ascii(zeros((written - digits.len()) as nat)),
        decreases width - written,
    {
        proof {
            reveal_strlit("0");
            let ghost before = zeros((written - digits.len()) as nat);
            assert(zeros((written + 1 - digits.len()) as nat) =~= before + seq![ZERO]);
            lemma_ascii_concat(before, seq![ZERO]);
            assert("0"@ =~= ascii(seq![ZERO]));
        }
        out.append("0");
        written = written + 1;
    }
    push_decimal(out, n);
    proof {
        let ghost front = zeros((written - digits.len()) as nat);
        lemma_ascii_concat(front, digits);
        assert(zeros(0) + digits =~= digits);
        assert(final(out)@ =~= old(out)@ + (ascii(front) + ascii(digits)));
    }
}

} // verus!
