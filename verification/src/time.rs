//! Points in time as text.

use chrono::{DateTime, FixedOffset, NaiveDateTime};
use vstd::prelude::*;

verus! {

/// The first second of the first year that `chrono` knows, from the start of 1970 on.
pub const FIRST_SECOND: i64 = -8334632851200;

/// The last second of the last year that `chrono` knows, from the start of 1970 on.
pub const LAST_SECOND: i64 = 8210298412799;

/// Whether `chrono` knows the second.
pub open spec fn second_known(seconds: int) -> bool {
    FIRST_SECOND <= seconds <= LAST_SECOND
}

/// Whether a time can be written: the offset from UTC is less than a day, and both the time in UTC
/// and the local time are in years that `chrono` knows.
pub open spec fn time_valid(seconds: int, offset_minutes: int) -> bool {
    &&& -1440 < offset_minutes < 1440
    &&& second_known(seconds)
    &&& second_known(seconds + offset_minutes * 60)
}

/// Tells whether a time can be written.
pub fn check_time(seconds: i64, offset_minutes: i32) -> (r: bool)
    ensures
        r == time_valid(seconds as int, offset_minutes as int),
{
    if offset_minutes <= -1440 || offset_minutes >= 1440 || seconds < FIRST_SECOND || seconds
        > LAST_SECOND {
        return false;
    }
    let local: i64 = seconds + offset_minutes as i64 * 60;
    FIRST_SECOND <= local && local <= LAST_SECOND
}

/// The text that `chrono::DateTime::to_rfc2822` gives for the time that lies `seconds` behind the
/// start of 1970 in UTC, with the clock `offset_seconds` ahead of UTC.
pub uninterp spec fn rfc2822(seconds: i64, offset_seconds: i32) -> Seq<char>;

/// `chrono::DateTime::to_rfc2822` on the time in UTC that `NaiveDateTime::from_timestamp` gives
/// and the offset that `FixedOffset::east` gives. The contract claims that the text depends on the
/// two numbers alone. `from_timestamp` panics for years that it does not know, `east` for offsets
/// of a day or more, and `to_rfc2822` where the local time is in a year that is not known; the
/// preconditions leave these out.
#[verifier::external_body]
fn write_rfc2822(seconds: i64, offset_seconds: i32) -> (r: String)
    requires
        -86400 < offset_seconds < 86400,
        second_known(seconds as int),
        second_known(seconds + offset_seconds),
    ensures
        r@ == rfc2822(seconds, offset_seconds),
{
    let utc = NaiveDateTime::from_timestamp(seconds, 0);
    let offset = FixedOffset::east(offset_seconds);
    DateTime::<FixedOffset>::from_utc(utc, offset).to_rfc2822()
}

/// Writes the time that lies `seconds` behind the start of 1970 in UTC, with the clock
/// `offset_minutes` ahead of UTC.
pub fn write_time(seconds: i64, offset_minutes: i32) -> (r: String)
    requires
        time_valid(seconds as int, offset_minutes as int),
    ensures
        r@ == rfc2822(seconds, (offset_minutes * 60) as i32),
{
    write_rfc2822(seconds, offset_minutes * 60)
}

} // verus!
