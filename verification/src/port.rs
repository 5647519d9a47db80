//! Choosing a port number from lines of text.
//!
//! A line names a port when, trimmed of white space, it is an unsigned
//! decimal number of 16 bits, with or without a `+` before it. Ports up to
//! [`RESERVED_MAX`] are reserved and are turned down like lines that name no
//! port at all; the first line that names another port is the choice.

use crate::text::{
    decimal_text, decimal_value, digit_run, is_digit, lemma_decimal_text,
    lemma_decimal_value_grows, lemma_digit_run, to_chars, to_decimal, trim, trim_bounds,
    trim_end, trim_start,
};
use vstd::prelude::*;

verus! {

/// The highest port of the range reserved for well-known services.
pub const RESERVED_MAX: u16 = 1023;

/// An unsigned 16-bit port address.
#[derive(Clone, Copy, Debug, PartialEq, Eq, Structural)]
pub struct PortNumber {
    pub port: u16,
}

impl PortNumber {
    /// Whether the port lies in the reserved range `0..=1023`.
    pub open spec fn reserved(self) -> bool {
        self.port <= RESERVED_MAX
    }

    /// Tells whether the port lies in the reserved range. This says nothing
    /// about whether the port is in use.
    pub fn is_reserved(&self) -> (r: bool)
        ensures
            r == self.reserved(),
    {
        self.port <= RESERVED_MAX
    }

    /// The port written in decimal.
    pub fn to_text(&self) -> (text: String)
        ensures
            text@ == decimal_text(self.port as nat),
    {
        to_decimal(self.port)
    }
}

/// Why a line of text is not a port number.
#[derive(Clone, Copy, Debug, PartialEq, Eq, Structural)]
pub enum PortError {
    /// Nothing is left of the line once white space is trimmed.
    Empty,
    /// A character that is no digit stands where a digit is expected.
    InvalidDigit,
    /// The number does not fit in 16 bits.
    TooLarge,
}

/// What an unsigned decimal number `body` parses to. The digits that `body`
/// starts with decide: if they already exceed 16 bits the number is too
/// large, whatever follows; otherwise anything but digits is an invalid
/// digit, and so is an empty body.
pub open spec fn parse_number(body: Seq<char>) -> Result<u16, PortError> {
    let run = body.take(digit_run(body) as int);
    if decimal_value(run) > u16::MAX {
        Err(PortError::TooLarge)
    } else if body.len() == 0 || run.len() < body.len() {
        Err(PortError::InvalidDigit)
    } else {
        Ok(decimal_value(body) as u16)
    }
}

/// What a line of text parses to: the line is trimmed, one leading `+` is
/// allowed, and the rest is an unsigned decimal number of 16 bits.
pub open spec fn parse_line(line: Seq<char>) -> Result<u16, PortError> {
    let text = trim(line);
    if text.len() == 0 {
        Err(PortError::Empty)
    } else if text[0] == '+' {
        parse_number(text.drop_first())
    } else {
        parse_number(text)
    }
}

/// Reads the characters of `chars` from `start` to `end` as an unsigned
/// decimal number of 16 bits.
fn parse_digits(chars: &Vec<char>, start: usize, end: usize) -> (r: Result<u16, PortError>)
    requires
        start <= end <= chars.len(),
    ensures
        r == parse_number(chars@.subrange(start as int, end as int)),
{
    let ghost body = chars@.subrange(start as int, end as int);
    let mut i: usize = start;
    let mut value: u32 = 0;
    while i < end
        invariant
            start <= i <= end <= chars.len(),
            body == chars@.subrange(start as int, end as int),
            forall|j: int| 0 <= j < i - start ==> is_digit(#[trigger] body[j]),
            value == decimal_value(body.take(i - start)),
            value <= u16::MAX,
        decreases end - i,
    {
        let n: u32 = chars[i] as u32;
        let ghost k = i - start;
        assert(body[k] == chars[i as int]);
        if n < 0x30 || n > 0x39 {
            proof {
                lemma_digit_run(body, k);
            }
            return Err(PortError::InvalidDigit);
        }
        let next: u32 = value * 10 + (n - 0x30);
        proof {
            assert(body.take(k + 1).drop_last() =~= body.take(k));
            assert(next == decimal_value(body.take(k + 1)));
        }
        if next > 0xFFFF {
            proof {
                lemma_digit_run(body, k + 1);
                let run = body.take(digit_run(body) as int);
                lemma_decimal_value_grows(run, k + 1, run.len() as int);
                assert(run.take(k + 1) =~= body.take(k + 1));
                assert(run.take(run.len() as int) =~= run);
            }
            return Err(PortError::TooLarge);
        }
        value = next;
        i += 1;
    }
    proof {
        lemma_digit_run(body, body.len() as int);
        assert(body.take(body.len() as int) =~= body);
    }
    if start == end {
        Err(PortError::InvalidDigit)
    } else {
        Ok(value as u16)
    }
}

/// Reads a line of text as a port number: white space around it is
/// ignored, and one `+` may stand before the digits.
pub fn parse_port(line: &str) -> (r: Result<u16, PortError>)
    ensures
        r == parse_line(line@),
{
    let chars = to_chars(line);
    let (lo, hi) = trim_bounds(&chars);
    let ghost text = chars@.subrange(lo as int, hi as int);
    if lo == hi {
        return Err(PortError::Empty);
    }
    assert(text[0] == chars[lo as int]);
    if chars[lo] == '+' {
        assert(text.drop_first() =~= chars@.subrange(lo + 1, hi as int));
        parse_digits(&chars, lo + 1, hi)
    } else {
        parse_digits(&chars, lo, hi)
    }
}

/// A port written in decimal reads back as the same port: `parse_line` undoes
/// `decimal_text` on every number of 16 bits.
pub proof fn lemma_decimal_text_parses(port: u16)
    ensures
        parse_line(decimal_text(port as nat)) == Ok::<u16, PortError>(port),
{
    let text = decimal_text(port as nat);
    lemma_decimal_text(port as nat);
    assert(is_digit(text[0]));
    assert(is_digit(text.last()));
    assert(trim_start(text) == text);
    assert(trim_end(text) == text);
    lemma_digit_run(text, text.len() as int);
    assert(text.take(text.len() as int) =~= text);
}

/// What becomes of one line of input.
#[derive(Clone, Copy, Debug, PartialEq, Eq, Structural)]
pub enum Reply {
    /// The line names a port outside the reserved range: it is the answer.
    Accepted(PortNumber),
    /// The line names a port of the reserved range: ask again.
    Reserved(PortNumber),
    /// The line is no port number: ask again.
    Invalid(PortError),
}

/// What becomes of the line `line`.
pub open spec fn reply_to(line: Seq<char>) -> Reply {
    match parse_line(line) {
        Ok(port) => {
            let number = PortNumber { port };
            if number.reserved() {
                Reply::Reserved(number)
            } else {
                Reply::Accepted(number)
            }
        },
        Err(error) => Reply::Invalid(error),
    }
}

/// Decides what becomes of one line of input.
pub fn classify(line: &str) -> (reply: Reply)
    ensures
        reply == reply_to(line@),
{
    match parse_port(line) {
        Ok(port) => {
            let number = PortNumber { port };
            if number.is_reserved() {
                Reply::Reserved(number)
            } else {
                Reply::Accepted(number)
            }
        },
        Err(error) => Reply::Invalid(error),
    }
}

/// The outcome of asking for a port until a line is accepted.
#[derive(Debug)]
pub struct PortChoice {
    /// The accepted port, written in decimal.
    pub port: String,
    /// How many lines were turned down before it.
    pub reprompts: usize,
}

/// Goes through the lines that a user enters, in order, until one names a
/// port outside the reserved range. Every line before it costs a reprompt.
/// The choice is that port written in decimal, which names the same port
/// when read again. Where no line is accepted there is no choice yet: the
/// user has to be asked again.
pub fn getvalidport(lines: &Vec<String>) -> (choice: Option<PortChoice>)
    ensures
        match choice {
            Some(c) => {
                &&& c.reprompts < lines.len()
                &&& forall|i: int| 0 <= i < c.reprompts ==> !(reply_to(#[trigger] lines[i]@) is Accepted)
                &&& reply_to(lines[c.reprompts as int]@) is Accepted
                &&& c.port@ == decimal_text(reply_to(lines[c.reprompts as int]@)->Accepted_0.port as nat)
                &&& reply_to(c.port@) == reply_to(lines[c.reprompts as int]@)
            },
            None => forall|i: int| 0 <= i < lines.len() ==> !(reply_to(#[trigger] lines[i]@) is Accepted),
        },
{
    let mut i: usize = 0;
    while i < lines.len()
        invariant
            i <= lines.len(),
            forall|j: int| 0 <= j < i ==> !(reply_to(#[trigger] lines[j]@) is Accepted),
        decreases lines.len() - i,
    {
        match classify(lines[i].as_str()) {
            Reply::Accepted(number) => {
                proof {
                    lemma_decimal_text_parses(number.port);
                }
                return Some(PortChoice { port: number.to_text(), reprompts: i });
            },
            _ => {},
        }
        i += 1;
    }
    None
}

} // verus!
