//! Suspend and wake-up settings.

use vstd::prelude::*;
use crate::decimal::{decimal_digits, push_decimal};

verus! {

/// Text written to the real-time clock's wake alarm to wake the device
/// `seconds` seconds from now: a plus sign, then the decimal count.
pub open spec fn wake_alarm_spec(seconds: u64) -> Seq<u8> {
    seq![43u8] + decimal_digits(seconds as nat)
}

/// Text to write to the wake alarm so that the device wakes `seconds`
/// seconds from now.
pub fn wake_alarm_setting(seconds: u64) -> (r: Vec<u8>)
    ensures
        r@ == wake_alarm_spec(seconds),
{
    let mut out: Vec<u8> = Vec::new();
    out.push(43u8);
    push_decimal(&mut out, seconds);
    assert(out@ =~= wake_alarm_spec(seconds));
    out
}

} // verus!
