//! Rendering of elapsed time as days, hours, minutes and seconds.

use crate::decimal::{append_decimal, decimal};
use vstd::prelude::*;

verus! {

/// The whole seconds in `ms` milliseconds.
pub open spec fn total_seconds(ms: nat) -> nat {
    ms / 1000
}

/// The whole days in `ms` milliseconds.
pub open spec fn days_part(ms: nat) -> nat {
    total_seconds(ms) / 60 / 60 / 24
}

/// The hours left over after the whole days, from 0 to 23.
pub open spec fn hours_part(ms: nat) -> nat {
    (total_seconds(ms) / 60 / 60) % 24
}

/// The minutes left over after the whole hours, from 0 to 59.
pub open spec fn minutes_part(ms: nat) -> nat {
    (total_seconds(ms) / 60) % 60
}

/// The seconds left over after the whole minutes, from 0 to 59.
pub open spec fn seconds_part(ms: nat) -> nat {
    total_seconds(ms) % 60
}

/// The decimal notation of `n`, with a leading zero where it has one digit.
pub open spec fn two_digits(n: nat) -> Seq<char> {
    if n < 10 {
        seq!['0'] + decimal(n)
    } else {
        decimal(n)
    }
}

/// The text that stands for a span of `ms` milliseconds: days without
/// padding, then hours, minutes and seconds on two digits each, every unit
/// word in the plural. What is left below a second is dropped.
pub open spec fn duration_text(ms: nat) -> Seq<char> {
    decimal(days_part(ms)) + " days "@ + two_digits(hours_part(ms)) + " hours "@ + two_digits(
        minutes_part(ms),
    ) + " minutes "@ + two_digits(seconds_part(ms)) + " seconds"@
}

/// Appends `n` on at least two digits to `out`.
fn append_two_digits(out: &mut String, n: u128)
    ensures
        final(out)@ == old(out)@ + two_digits(n as nat),
{
    if n < 10 {
        proof {
            reveal_strlit("0");
        }
        out.append("0");
    }
    append_decimal(out, n);
    assert(out@ =~= old(out)@ + two_digits(n as nat));
}

/// Renders a span of milliseconds as
/// `<days> days <hh> hours <mm> minutes <ss> seconds`.
pub fn milliseconds_to_string(ms: u128) -> (text: String)
    ensures
        text@ == duration_text(ms as nat),
{
    let seconds = ms / 1000;
    let minutes = seconds / 60;
    let hours = minutes / 60;
    let days = hours / 24;
    let mut text = String::new();
    append_decimal(&mut text, days);
    text.append(" days ");
    append_two_digits(&mut text, hours % 24);
    text.append(" hours ");
    append_two_digits(&mut text, minutes % 60);
    text.append(" minutes ");
    append_two_digits(&mut text, seconds % 60);
    text.append(" seconds");
    assert(text@ =~= duration_text(ms as nat));
    text
}

} // verus!
