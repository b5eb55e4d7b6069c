//! Setting the radio module's serial rate: the commands it takes, and what its
//! answers look like on a console.

use crate::link::BT_BAUD_RATE;
use crate::text;
use vstd::prelude::*;

verus! {

/// The rate the module is spoken to at.
pub const PROBE_BAUD_RATE: u32 = BT_BAUD_RATE;

/// How long the module takes to start.
pub const BOOT_MS: u64 = 350;

/// How long an answer is waited for.
pub const REPLY_MS: u64 = 800;

/// What the module is asked first, and what it is asked about its rate. A
/// command carries no line end: with one, it is no command.
pub fn probe_command() -> (command: &'static str)
    ensures
        command@ == "AT"@,
{
    "AT"
}

pub fn query_command() -> (command: &'static str)
    ensures
        command@ == "AT+UART"@,
{
    "AT+UART"
}

/// What sets the module's rate.
pub fn rate_command(rate: u32) -> (command: String)
    ensures
        command@ == "AT+UART="@ + text::decimal(rate as int),
{
    let mut command: String = "AT+UART=".to_owned();
    text::push_decimal(&mut command, rate as u64);
    command
}

/// A byte of an answer as it is shown: line ends as dots, so that they do not
/// upset the console, and what cannot be shown as a question mark.
pub open spec fn shown(byte: u8) -> char {
    if byte == 10 || byte == 13 {
        '.'
    } else if 0x20 <= byte <= 0x7E {
        byte as char
    } else {
        '?'
    }
}

/// An answer as it is shown.
pub fn visible(bytes: &[u8]) -> (line: String)
    ensures
        line@ == bytes@.map_values(|b: u8| shown(b)),
{
    let mut line: String = String::new();
    let mut i: usize = 0;
    while i < bytes.len()
        invariant
            i <= bytes@.len(),
            line@ == bytes@.take(i as int).map_values(|b: u8| shown(b)),
        decreases bytes@.len() - i,
    {
        let b: u8 = bytes[i];
        if b == 10 || b == 13 {
            line.push('.');
        } else if 0x20 <= b && b <= 0x7E {
            line.push(b as char);
        } else {
            line.push('?');
        }
        assert(line@ =~= bytes@.take(i + 1).map_values(|b: u8| shown(b)));
        i += 1;
    }
    assert(bytes@.take(i as int) =~= bytes@);
    line
}

/// What to do about a module.
#[derive(Clone, Copy, Debug, PartialEq, Eq, Structural)]
pub enum Plan {
    /// It does not answer at this rate.
    Silent,
    /// It is at the meter's rate already.
    Keep,
    /// It has to be set to the meter's rate.
    Change,
}

/// What to do about a module that answered a probe at this rate with so many
/// bytes. That it answered at all is what counts.
pub fn plan(answered: usize, rate: u32) -> (plan: Plan)
    ensures
        plan == if answered == 0 {
            Plan::Silent
        } else if rate == BT_BAUD_RATE {
            Plan::Keep
        } else {
            Plan::Change
        },
{
    if answered == 0 {
        Plan::Silent
    } else if rate == BT_BAUD_RATE {
        Plan::Keep
    } else {
        Plan::Change
    }
}

/// An answer is shown a character to a byte: what can be printed as it is, a
/// line end as a dot, and anything else as a question mark.
pub proof fn law_answers_are_shown_byte_by_byte(byte: u8)
    ensures
        shown(byte) == '.' <==> byte == 10 || byte == 13 || byte == 46,
        32 <= byte <= 126 ==> shown(byte) as int == byte,
        (byte < 32 || byte > 126) && byte != 10 && byte != 13 ==> shown(byte) == '?',
{
}

} // verus!
