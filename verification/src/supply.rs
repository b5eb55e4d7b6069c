//! What the rail is doing, from a conversion of the supply over three against
//! the 2.5 V reference.

use vstd::prelude::*;

verus! {

/// ADC0's internal supply monitor.
pub const CH_SUPPLY: u8 = 15;

/// Sample window, in eighths of a microsecond.
pub const SAMPLE_CYCLES: u16 = 200;

/// Looks at a conversion before it is given up on.
pub const CONVERT_TRIES: u32 = 10_000;

/// The supply that would put the converter at full scale.
pub const FULL_SCALE_MV: u32 = 7_500;

pub const CODES: u32 = 4096;

/// The most the part is rated to be powered at, as a code: 3.6 V. A code that
/// high came from a reference that was not up, not from the rail.
pub const MAX_PLAUSIBLE_CODE: u16 = 1_966;

/// How long the reference is given before it is converted against.
pub const VREF_SETTLE_MS: u64 = 20;

/// How often the rail is looked at while it is waited for.
pub const POLL_MS: u64 = 200;

/// The rail the meter starts up on.
pub const BOOT_MIN_MV: u16 = 3_300;

/// The supply behind a conversion, to the nearest millivolt.
pub open spec fn supply_mv(code: u16) -> int {
    (code as int * FULL_SCALE_MV as int + CODES as int / 2) / CODES as int
}

/// What is reported of a conversion.
pub open spec fn reported(code: Option<u16>) -> Option<int> {
    match code {
        Some(c) => if c < MAX_PLAUSIBLE_CODE {
            Some(supply_mv(c))
        } else {
            None
        },
        None => None,
    }
}

/// The supply in millivolts, or `None` if it could not be measured: the
/// reference never came up, the conversion never finished, or it says what no
/// running part can be powered at.
pub fn millivolts(code: Option<u16>) -> (mv: Option<u16>)
    ensures
        mv is Some <==> reported(code) is Some,
        mv matches Some(v) ==> reported(code) == Some(v as int),
        mv is Some <==> (code matches Some(c) && c < MAX_PLAUSIBLE_CODE),
        mv matches Some(v) ==> code matches Some(c) && v == supply_mv(c),
{
    match code {
        Some(c) => if c < MAX_PLAUSIBLE_CODE {
            Some(((c as u32 * FULL_SCALE_MV + CODES / 2) / CODES) as u16)
        } else {
            None
        },
        None => None,
    }
}

/// Whether the rail has arrived. A supply that cannot be measured counts as
/// "not yet".
pub fn is_above(mv: Option<u16>, min_mv: u16) -> (yes: bool)
    ensures
        yes == (mv matches Some(v) && v >= min_mv),
{
    match mv {
        Some(v) => v >= min_mv,
        None => false,
    }
}

/// A higher code is never a lower supply, so a threshold on one is a
/// threshold on the other.
pub proof fn law_supply_follows_the_code(a: u16, b: u16)
    requires
        a <= b,
    ensures
        supply_mv(a) <= supply_mv(b),
{
}

/// The supply is the nearest millivolt to what the code stands for: no more
/// than half of one away.
pub proof fn law_supply_is_rounded(code: u16)
    ensures
        -(CODES as int) <= 2 * (supply_mv(code) * CODES as int - code as int * FULL_SCALE_MV as int) <= CODES as int,
{
}

/// What is reported is below the 3.6 V that the part is rated for, and a code
/// that is not reported stands for no less, to the nearest code.
pub proof fn law_reported_supply_is_within_the_rating(code: u16)
    ensures
        code < MAX_PLAUSIBLE_CODE ==> supply_mv(code) < 3_600,
        code > MAX_PLAUSIBLE_CODE ==> supply_mv(code) > 3_600,
{
}

/// At full scale the supply is 7.5 V over 4096 codes: what is reported is never
/// more than half a millivolt from that.
pub proof fn law_supply_is_three_times_the_reference_scale(code: u16)
    ensures
        -2048 <= supply_mv(code) * 4096 - code * 7500 <= 2048,
{
}

/// Every supply below 3.6 V is reported as it is, and nothing from there on:
/// what no running part can be powered at says nothing of the rail.
pub proof fn law_every_plausible_supply_is_reported(code: u16)
    ensures
        code * 7500 <= 3_597 * 4096 ==> reported(Some(code)) == Some(supply_mv(code)),
        code * 7500 >= 3_600 * 4096 ==> reported(Some(code)) is None,
        reported(None) is None,
{
}

} // verus!
