//! Instants and how they are written.

use crate::outside::{
    clock_micros, format_utc, utc_text, ISO_FORMAT, STAMP_MICROS, STAMP_MILLIS, UTC_FIRST, UTC_LAST,
};
use vstd::prelude::*;

verus! {

/// Microseconds in a day.
pub const DAY_MICROS: i64 = 86_400_000_000;

/// An instant that can be written.
pub open spec fn writable(micros: int) -> bool {
    UTC_FIRST <= micros <= UTC_LAST
}

/// The instant as the history stores it.
pub fn iso_text(micros: i64) -> (r: String)
    requires
        writable(micros as int),
    ensures
        r@ == utc_text(micros, ISO_FORMAT@),
{
    format_utc(micros, ISO_FORMAT)
}

/// The current time as the history stores it.
pub fn now_iso() -> (r: String)
    ensures
        exists|micros: i64| writable(micros as int) && r@ == #[trigger] utc_text(micros, ISO_FORMAT@),
{
    let now: i64 = clock_micros();
    iso_text(now)
}

/// The current time for the name of a file, to the microsecond.
pub fn now_stamp_micros() -> (r: String)
    ensures
        exists|micros: i64|
            writable(micros as int) && r@ == #[trigger] utc_text(micros, STAMP_MICROS@),
{
    let now: i64 = clock_micros();
    format_utc(now, STAMP_MICROS)
}

/// The current time for the name of a file, to the millisecond.
pub fn now_stamp_millis() -> (r: String)
    ensures
        exists|micros: i64|
            writable(micros as int) && r@ == #[trigger] utc_text(micros, STAMP_MILLIS@),
{
    let now: i64 = clock_micros();
    format_utc(now, STAMP_MILLIS)
}

/// The current time in microseconds since 1970.
pub fn now_micros() -> (r: i64)
    ensures
        writable(r as int),
{
    clock_micros()
}

/// The instant `days` days before `now` as the history stores it; nothing where it lies outside of
/// what can be written.
pub fn expiry_cutoff(now: i64, days: i64) -> (r: Option<String>)
    requires
        writable(now as int),
    ensures
        match r {
            Some(s) => writable(now - days * DAY_MICROS) && s@ == utc_text(
                (now - days * DAY_MICROS) as i64,
                ISO_FORMAT@,
            ),
            None => !writable(now - days * DAY_MICROS),
        },
{
    assert(-0x8000_0000_0000_0000 * 86_400_000_000 <= days * DAY_MICROS <= 0x7FFF_FFFF_FFFF_FFFF
        * 86_400_000_000);
    let cut: i128 = (now as i128) - (days as i128) * (DAY_MICROS as i128);
    if (UTC_FIRST as i128) <= cut && cut <= (UTC_LAST as i128) {
        Some(iso_text(cut as i64))
    } else {
        None
    }
}

} // verus!
