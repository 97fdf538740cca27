//! How long a suspension lasts, as a moderator writes it: a count and one
//! letter for the unit, such as `90s`, `12h`, `3d`, `2w` or `1m`.

use vstd::prelude::*;
use crate::text::{all_digits, decimal_value, digits_u64, parse_digits};

verus! {

/// The unit that the last letter of a duration names.
#[derive(Debug, Clone, Copy, PartialEq, Eq, Structural)]
pub enum DurationUnit {
    /// `s`
    Seconds,
    /// `h`
    Hours,
    /// `d`
    Days,
    /// `w`
    Weeks,
    /// `m`: a month, counted as thirty days
    Months,
}

/// The unit that the letter `c` names.
pub open spec fn unit_of(c: char) -> Option<DurationUnit> {
    if c == 's' {
        Some(DurationUnit::Seconds)
    } else if c == 'h' {
        Some(DurationUnit::Hours)
    } else if c == 'd' {
        Some(DurationUnit::Days)
    } else if c == 'w' {
        Some(DurationUnit::Weeks)
    } else if c == 'm' {
        Some(DurationUnit::Months)
    } else {
        None
    }
}

/// The seconds in one `unit`.
pub open spec fn unit_seconds(unit: DurationUnit) -> nat {
    match unit {
        DurationUnit::Seconds => 1,
        DurationUnit::Hours => 3_600,
        DurationUnit::Days => 86_400,
        DurationUnit::Weeks => 604_800,
        DurationUnit::Months => 2_592_000,
    }
}

/// Whether `s` is a duration: one or more digits, then one unit letter, and
/// nothing else.
pub open spec fn is_duration(s: Seq<char>) -> bool {
    &&& s.len() >= 2
    &&& all_digits(s.drop_last())
    &&& unit_of(s.last()) is Some
}

/// The unit of `s`: what its last letter names.
pub open spec fn duration_unit_of(s: Seq<char>) -> Option<DurationUnit> {
    if s.len() > 0 {
        unit_of(s.last())
    } else {
        None
    }
}

/// The seconds that the duration `s` lasts, `None` where `s` is no duration.
pub open spec fn duration_seconds(s: Seq<char>) -> Option<nat> {
    if is_duration(s) {
        Some(decimal_value(s.drop_last()) * unit_seconds(unit_of(s.last())->0))
    } else {
        None
    }
}

/// The seconds of `s` where they fit a signed 64-bit number.
pub open spec fn duration_seconds_i64(s: Seq<char>) -> Option<i64> {
    match duration_seconds(s) {
        Some(d) => if d <= i64::MAX {
            Some(d as i64)
        } else {
            None
        },
        None => None,
    }
}

/// The unit that the letter `c` names.
pub fn unit_from_letter(c: char) -> (unit: Option<DurationUnit>)
    ensures
        unit == unit_of(c),
{
    if c == 's' {
        Some(DurationUnit::Seconds)
    } else if c == 'h' {
        Some(DurationUnit::Hours)
    } else if c == 'd' {
        Some(DurationUnit::Days)
    } else if c == 'w' {
        Some(DurationUnit::Weeks)
    } else if c == 'm' {
        Some(DurationUnit::Months)
    } else {
        None
    }
}

/// The seconds in one `unit`.
pub fn seconds_per(unit: DurationUnit) -> (seconds: u64)
    ensures
        seconds == unit_seconds(unit),
{
    match unit {
        DurationUnit::Seconds => 1,
        DurationUnit::Hours => 3_600,
        DurationUnit::Days => 86_400,
        DurationUnit::Weeks => 604_800,
        DurationUnit::Months => 2_592_000,
    }
}

/// The unit that the last letter of `text` names.
pub fn duration_unit(text: &str) -> (unit: Option<DurationUnit>)
    ensures
        unit == duration_unit_of(text@),
{
    let len = text.unicode_len();
    if len == 0 {
        None
    } else {
        unit_from_letter(text.get_char(len - 1))
    }
}

/// Reads a duration and gives its length in seconds. `None` where `text` is
/// not digits followed by one of `s`, `h`, `d`, `w`, `m`, and where the
/// seconds do not fit a signed 64-bit number.
pub fn parse_duration(text: &str) -> (seconds: Option<i64>)
    ensures
        seconds == duration_seconds_i64(text@),
{
    let len = text.unicode_len();
    if len < 2 {
        return None;
    }
    let unit = match unit_from_letter(text.get_char(len - 1)) {
        Some(unit) => unit,
        None => {
            return None;
        },
    };
    let digits = text.substring_char(0, len - 1);
    assert(digits@ =~= text@.drop_last());
    let per = seconds_per(unit);
    match parse_digits(digits) {
        Some(count) => {
            assert(is_duration(text@));
            match count.checked_mul(per) {
                Some(total) => {
                    if total <= i64::MAX as u64 {
                        Some(total as i64)
                    } else {
                        None
                    }
                },
                None => None,
            }
        },
        None => {
            proof {
                if is_duration(text@) {
                    let n = decimal_value(text@.drop_last());
                    assert(digits_u64(digits@) is None);
                    assert(n > u64::MAX);
                    assert(n * per >= n) by (nonlinear_arith)
                        requires
                            per >= 1,
                            n >= 0,
                    ;
                }
            }
            None
        },
    }
}

} // verus!
