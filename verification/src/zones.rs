//! The calls into `jiff` that the library makes, each behind a wrapper whose
//! contract states what `jiff`'s documentation and source promise.
//!
//! Time zone lookups read the system time zone database, and offset
//! abbreviations depend on the current time, so several of these results are
//! left unconstrained: the verified code states what holds whatever they are.
use vstd::prelude::*;

use crate::resolver::two_digits;
use crate::timezone::CivilDate;

verus! {

#[verifier::external_type_specification]
#[verifier::external_body]
pub struct ExTimeZone(jiff::tz::TimeZone);

#[verifier::external_type_specification]
#[verifier::external_body]
pub struct ExJiffError(jiff::Error);

/// Calls `jiff::tz::TimeZone::get`, a lookup in the system time zone
/// database. Whether it succeeds depends on what that database holds, so
/// nothing is claimed of the result.
#[verifier::external_body]
pub(crate) fn lookup_zone(name: &str) -> (r: Result<jiff::tz::TimeZone, jiff::Error>) {
    jiff::tz::TimeZone::get(name)
}

/// The IANA name a zone carries, as `jiff::tz::TimeZone::iana_name` gives it.
pub uninterp spec fn iana_name_of(zone: jiff::tz::TimeZone) -> Option<Seq<char>>;

/// Calls `jiff::tz::TimeZone::iana_name`: the name a zone loaded from the
/// database carries, if it has one. It is read from the zone value alone, so
/// it is taken as the name `iana_name_of` of the zone.
#[verifier::external_body]
pub(crate) fn zone_iana_name(zone: &jiff::tz::TimeZone) -> (r: Option<String>)
    ensures
        match r {
            Some(n) => iana_name_of(*zone) == Some(n@),
            None => iana_name_of(*zone) is None,
        },
{
    zone.iana_name().map(|name| name.to_string())
}

/// The zone with a fixed offset of `seconds` east of UTC, as built from those
/// seconds by `fixed_offset_zone`.
pub uninterp spec fn fixed_offset_zone_of(seconds: int) -> jiff::tz::TimeZone;

/// Converts a number of seconds into the fixed-offset zone
/// `jiff::tz::TimeZone::fixed(jiff::tz::Offset::from_seconds(seconds)?)`.
/// `Offset::from_seconds` fails exactly when the seconds lie outside
/// `-93_599..=93_599` (the offsets `-25:59:59..=25:59:59`), as its
/// documentation and source state; the zone is otherwise taken as the name
/// `fixed_offset_zone_of` of the seconds, which is all that is claimed of it.
#[verifier::external_body]
pub(crate) fn fixed_offset_zone(seconds: i32) -> (r: Result<jiff::tz::TimeZone, jiff::Error>)
    ensures
        r is Ok <==> -93_599 <= seconds <= 93_599,
        r matches Ok(zone) ==> zone == fixed_offset_zone_of(seconds as int),
{
    let offset = jiff::tz::Offset::from_seconds(seconds)?;
    Ok(jiff::tz::TimeZone::fixed(offset))
}

#[verifier::external_type_specification]
#[verifier::external_body]
pub struct ExTimestamp(jiff::Timestamp);

#[verifier::external_type_specification]
#[verifier::external_body]
pub struct ExTimeZoneDatabase(jiff::tz::TimeZoneDatabase);

#[verifier::external_type_specification]
#[verifier::external_body]
pub struct ExTimeZoneOffsetInfo<'t>(jiff::tz::TimeZoneOffsetInfo<'t>);

#[verifier::external_type_specification]
#[verifier::external_body]
pub struct ExSystemTime(std::time::SystemTime);

/// Calls `std::time::SystemTime::now`, the clock's current time. Nothing is
/// claimed of it.
#[verifier::external_body]
pub(crate) fn system_time_now() -> (r: std::time::SystemTime) {
    std::time::SystemTime::now()
}

/// Calls `<jiff::Timestamp as TryFrom<SystemTime>>::try_from`, which fails
/// when the time lies outside the range jiff can represent. Whether it fails
/// depends on the clock, so nothing more is claimed.
#[verifier::external_body]
pub(crate) fn timestamp_from_system_time(time: std::time::SystemTime) -> (r: Result<
    jiff::Timestamp,
    jiff::Error,
>) {
    jiff::Timestamp::try_from(time)
}

/// Calls `jiff::tz::db`, the global time zone database.
#[verifier::external_body]
pub(crate) fn zone_database() -> (r: &'static jiff::tz::TimeZoneDatabase) {
    jiff::tz::db()
}

/// Calls `jiff::tz::TimeZoneDatabase::available`: the identifiers the
/// database holds, each converted to a `String`. They come from the installed
/// database, so nothing is claimed of them.
#[verifier::external_body]
pub(crate) fn available_zone_names(db: &jiff::tz::TimeZoneDatabase) -> (r: Vec<String>) {
    db.available().map(|name| name.to_string()).collect()
}

/// Calls `jiff::tz::TimeZone::to_offset_info`: the offset in force in `zone`
/// at `timestamp`. Nothing is claimed of it.
#[verifier::external_body]
pub(crate) fn zone_offset_info<'t>(zone: &'t jiff::tz::TimeZone, timestamp: jiff::Timestamp) -> (r:
    jiff::tz::TimeZoneOffsetInfo<'t>) {
    zone.to_offset_info(timestamp)
}

/// Calls `jiff::tz::TimeZoneOffsetInfo::abbreviation` and copies the text into
/// a `String`. The abbreviation comes from the zone's rules and the time, so
/// nothing is claimed of it.
#[verifier::external_body]
pub(crate) fn offset_abbreviation(info: &jiff::tz::TimeZoneOffsetInfo<'_>) -> (r: String) {
    info.abbreviation().to_string()
}

#[verifier::external_type_specification]
#[verifier::external_body]
pub struct ExZoned(jiff::Zoned);

/// `HH:MM` with an hour of a 24-hour clock and a minute, both zero padded.
pub open spec fn hour_minute_form(s: Seq<char>) -> bool {
    exists|h: u8, m: u8|
        h <= 23 && m <= 59 && s == two_digits(h) + seq![':'] + two_digits(m)
}

/// The instant of `now` seen in `zone`, as `jiff::Zoned::with_time_zone`
/// gives it.
pub uninterp spec fn zoned_in_zone_of(now: jiff::Zoned, zone: jiff::tz::TimeZone) -> jiff::Zoned;

/// Calls `jiff::Zoned::with_time_zone` (on a clone of `zone`): the same
/// instant seen in another zone. It depends on its two arguments alone, and
/// its result is taken as the name `zoned_in_zone_of` of them.
#[verifier::external_body]
pub(crate) fn zoned_in_zone(now: &jiff::Zoned, zone: &jiff::tz::TimeZone) -> (r: jiff::Zoned)
    ensures
        r == zoned_in_zone_of(*now, *zone),
{
    now.with_time_zone(zone.clone())
}

/// The text `jiff::Zoned::strftime` renders for `%H:%M`.
pub uninterp spec fn hour_minute_of(zoned: jiff::Zoned) -> Seq<char>;

/// Calls `jiff::Zoned::strftime` with `%H:%M` and renders it. The text
/// depends on `zoned` alone and is taken as the name `hour_minute_of` of it;
/// jiff documents `%H` as the hour of a 24-hour clock and `%M` as the minute,
/// each zero padded, which is also claimed.
#[verifier::external_body]
pub(crate) fn zoned_hour_minute(zoned: &jiff::Zoned) -> (r: String)
    ensures
        r@ == hour_minute_of(*zoned),
        hour_minute_form(r@),
{
    zoned.strftime("%H:%M").to_string()
}

/// The civil date of `zoned`, as `jiff::Zoned::date` gives it.
pub uninterp spec fn zoned_date_of(zoned: jiff::Zoned) -> CivilDate;

/// Calls `jiff::Zoned::date` and copies its year, month and day. The date
/// depends on `zoned` alone and is taken as the name `zoned_date_of` of it;
/// a `jiff::civil::Date` always lies between -9999-01-01 and 9999-12-31 and
/// is a real calendar day, which is also claimed.
#[verifier::external_body]
pub(crate) fn zoned_date(zoned: &jiff::Zoned) -> (r: CivilDate)
    ensures
        r == zoned_date_of(*zoned),
        r.valid(),
{
    let date = zoned.date();
    CivilDate { year: date.year(), month: date.month(), day: date.day() }
}

} // verus!
