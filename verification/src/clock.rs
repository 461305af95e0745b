//! The wall clock, read and shown through `chrono`. Times are whole seconds
//! since the Unix epoch.

use vstd::prelude::*;

verus! {

/// Seconds east of UTC of the zone in which times are shown: nine hours.
pub const DISPLAY_OFFSET_SECS: i32 = 9 * 3600;

/// What stands in place of a time that cannot be shown.
pub open spec fn no_time_text() -> Seq<char> {
    "--:--:--"@
}

/// The date and time of day, as `chrono` writes them in the form
/// `%Y-%m-%d %H:%M:%S`, of the instant `secs` seconds after the Unix epoch,
/// in the zone `offset_secs` seconds east of UTC; nothing where `chrono` has
/// no such zone or no such instant.
pub uninterp spec fn clock_text(secs: i64, offset_secs: i32) -> Option<Seq<char>>;

/// The time shown for the instant `secs`.
pub open spec fn shown_time(secs: i64) -> Seq<char> {
    match clock_text(secs, DISPLAY_OFFSET_SECS) {
        Some(text) => text,
        None => no_time_text(),
    }
}

/// `chrono::Utc::now`, as seconds since the Unix epoch
/// (`DateTime::timestamp`). Nothing is claimed of the value: it is whatever
/// the system clock says. `chrono` panics where that clock stands before the
/// epoch.
#[verifier::external_body]
pub(crate) fn unix_now() -> i64 {
    chrono::Utc::now().timestamp()
}

/// `chrono::DateTime::format` with `%Y-%m-%d %H:%M:%S`, on the instant that
/// `DateTime::from_timestamp` makes of `secs`, moved by
/// `DateTime::with_timezone` to the zone that `FixedOffset::east_opt` makes of
/// `offset_secs`. The contract only gives the text a name; that the two
/// constructors decide whether there is a text is all it says of `chrono`.
#[verifier::external_body]
pub(crate) fn format_clock(secs: i64, offset_secs: i32) -> (text: Option<String>)
    ensures
        text.deep_view() == clock_text(secs, offset_secs),
{
    let zone = chrono::FixedOffset::east_opt(offset_secs)?;
    let instant = chrono::DateTime::from_timestamp(secs, 0)?;
    Some(instant.with_timezone(&zone).format("%Y-%m-%d %H:%M:%S").to_string())
}

/// The time shown for the instant `secs`: date and time of day nine hours
/// east of UTC, or dashes where there is none to show.
pub fn time_text(secs: i64) -> (text: String)
    ensures
        text@ == shown_time(secs),
{
    match format_clock(secs, DISPLAY_OFFSET_SECS) {
        Some(text) => text,
        None => "--:--:--".to_owned(),
    }
}

} // verus!
