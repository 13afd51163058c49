//! Saved time zone entries, how they are shown, and the relative day
//! (Today/Tomorrow/Yesterday) of a converted time.
use vstd::prelude::*;

use crate::resolver::{
    database_id, normalize_panics, normalized_offset, offset_resolution, resolve_timezone, resolved_text,
    ResolvedTimezone,
};
use crate::text::{string_from, trim};
use crate::zones::{
    fixed_offset_zone_of, hour_minute_form, hour_minute_of, zoned_date, zoned_date_of,
    zoned_hour_minute, zoned_in_zone, zoned_in_zone_of,
};

verus! {

// ---------------------------------------------------------------------------
// Civil dates
// ---------------------------------------------------------------------------

/// A date of the proleptic Gregorian calendar, as `jiff::civil::Date` holds
/// it.
#[derive(Clone, Copy, Debug, PartialEq, Eq, Structural)]
pub struct CivilDate {
    pub year: i16,
    pub month: i8,
    pub day: i8,
}

pub open spec fn is_leap_year(y: int) -> bool {
    (y % 4 == 0 && y % 100 != 0) || y % 400 == 0
}

pub open spec fn days_in_month(y: int, m: int) -> int {
    if m == 2 {
        if is_leap_year(y) {
            29
        } else {
            28
        }
    } else if m == 4 || m == 6 || m == 9 || m == 11 {
        30
    } else {
        31
    }
}

impl CivilDate {
    /// A date jiff can represent: years -9999 to 9999.
    pub open spec fn valid(self) -> bool {
        &&& -9999 <= self.year <= 9999
        &&& 1 <= self.month <= 12
        &&& 1 <= self.day <= days_in_month(self.year as int, self.month as int)
    }
}

/// The day after `d` (`Date::tomorrow`), none after 9999-12-31.
pub open spec fn next_day(d: CivilDate) -> Option<CivilDate> {
    if (d.day as int) < days_in_month(d.year as int, d.month as int) {
        Some(CivilDate { year: d.year, month: d.month, day: (d.day + 1) as i8 })
    } else if d.month < 12 {
        Some(CivilDate { year: d.year, month: (d.month + 1) as i8, day: 1 })
    } else if d.year < 9999 {
        Some(CivilDate { year: (d.year + 1) as i16, month: 1, day: 1 })
    } else {
        None
    }
}

/// The day before `d` (`Date::yesterday`), none before -9999-01-01.
pub open spec fn prev_day(d: CivilDate) -> Option<CivilDate> {
    if d.day > 1 {
        Some(CivilDate { year: d.year, month: d.month, day: (d.day - 1) as i8 })
    } else if d.month > 1 {
        Some(
            CivilDate {
                year: d.year,
                month: (d.month - 1) as i8,
                day: days_in_month(d.year as int, d.month - 1) as i8,
            },
        )
    } else if d.year > -9999 {
        Some(CivilDate { year: (d.year - 1) as i16, month: 12, day: 31 })
    } else {
        None
    }
}

pub open spec fn today_text() -> Seq<char> {
    seq!['T', 'o', 'd', 'a', 'y']
}

pub open spec fn tomorrow_text() -> Seq<char> {
    seq!['T', 'o', 'm', 'o', 'r', 'r', 'o', 'w']
}

pub open spec fn yesterday_text() -> Seq<char> {
    seq!['Y', 'e', 's', 't', 'e', 'r', 'd', 'a', 'y']
}

/// Where `target` falls relative to `now`: the same day, the next, the
/// previous, or further away (empty text).
pub open spec fn relative_day_text(now: CivilDate, target: CivilDate) -> Seq<char> {
    if target == now {
        today_text()
    } else if next_day(now) == Some(target) {
        tomorrow_text()
    } else if prev_day(now) == Some(target) {
        yesterday_text()
    } else {
        Seq::empty()
    }
}

fn month_length(year: i16, month: i8) -> (r: i8)
    requires
        1 <= month <= 12,
    ensures
        r == days_in_month(year as int, month as int),
{
    if month == 2 {
        if (year % 4 == 0 && year % 100 != 0) || year % 400 == 0 {
            29
        } else {
            28
        }
    } else if month == 4 || month == 6 || month == 9 || month == 11 {
        30
    } else {
        31
    }
}

/// The day after `d`.
pub fn tomorrow(d: CivilDate) -> (r: Option<CivilDate>)
    requires
        d.valid(),
    ensures
        r == next_day(d),
{
    if d.day < month_length(d.year, d.month) {
        Some(CivilDate { year: d.year, month: d.month, day: d.day + 1 })
    } else if d.month < 12 {
        Some(CivilDate { year: d.year, month: d.month + 1, day: 1 })
    } else if d.year < 9999 {
        Some(CivilDate { year: d.year + 1, month: 1, day: 1 })
    } else {
        None
    }
}

/// The day before `d`.
pub fn yesterday(d: CivilDate) -> (r: Option<CivilDate>)
    requires
        d.valid(),
    ensures
        r == prev_day(d),
{
    if d.day > 1 {
        Some(CivilDate { year: d.year, month: d.month, day: d.day - 1 })
    } else if d.month > 1 {
        Some(CivilDate { year: d.year, month: d.month - 1, day: month_length(d.year, d.month - 1) })
    } else if d.year > -9999 {
        Some(CivilDate { year: d.year - 1, month: 12, day: 31 })
    } else {
        None
    }
}

/// `Today`, `Tomorrow` or `Yesterday` for where `target` falls relative to
/// `now`, and empty text for any other day.
pub fn relative_day_label(now: CivilDate, target: CivilDate) -> (r: &'static str)
    requires
        now.valid(),
    ensures
        r@ == relative_day_text(now, target),
{
    if target == now {
        proof {
            reveal_strlit("Today");
        }
        return "Today";
    }
    let is_tomorrow = match tomorrow(now) {
        Some(t) => t == target,
        None => false,
    };
    if is_tomorrow {
        proof {
            reveal_strlit("Tomorrow");
        }
        return "Tomorrow";
    }
    let is_yesterday = match yesterday(now) {
        Some(y) => y == target,
        None => false,
    };
    if is_yesterday {
        proof {
            reveal_strlit("Yesterday");
        }
        return "Yesterday";
    }
    proof {
        reveal_strlit("");
    }
    ""
}

// ---------------------------------------------------------------------------
// Entries
// ---------------------------------------------------------------------------

/// A saved time zone: a label of the user's, whether it is the favourite, and
/// the zone with its canonical identifier. It keeps a record of the text it
/// was resolved from and, for a zone resolved as an offset, of the offset.
pub struct TimezoneEntry {
    pub label: String,
    pub favorite: bool,
    tz: jiff::tz::TimeZone,
    iana_id: String,
    source: Ghost<Seq<char>>,
    offset_seconds: Ghost<Option<int>>,
}

/// A saved entry as values.
pub struct TimezoneEntryView {
    pub label: Seq<char>,
    pub favorite: bool,
    pub iana_id: Seq<char>,
    pub zone: jiff::tz::TimeZone,
    pub source: Seq<char>,
    pub offset_seconds: Option<int>,
}

impl View for TimezoneEntry {
    type V = TimezoneEntryView;

    closed spec fn view(&self) -> TimezoneEntryView {
        TimezoneEntryView {
            label: self.label@,
            favorite: self.favorite,
            iana_id: self.iana_id@,
            zone: self.tz,
            source: self.source@,
            offset_seconds: self.offset_seconds@,
        }
    }
}

/// Seconds of an optional `i32` offset, as an integer.
pub open spec fn offset_int(x: Option<i32>) -> Option<int> {
    match x {
        Some(v) => Some(v as int),
        None => None,
    }
}

/// The entry `e` was resolved from the trimmed text `text`: where it was
/// resolved as an offset, its identifier, offset and zone are those of the
/// offset; where the database gave the zone, its identifier is the zone's
/// IANA name, or `text` when the zone carries none.
pub open spec fn entry_resolved_from(e: TimezoneEntryView, text: Seq<char>) -> bool {
    &&& e.source == text
    &&& match e.offset_seconds {
        Some(x) => offset_resolution(text) == Some((e.iana_id, x)) && e.zone
            == fixed_offset_zone_of(x),
        None => e.iana_id == database_id(e.zone, text),
    }
}

/// An entry as shown in the menu: its label, the time there, and the day
/// relative to now.
pub struct FormattedEntry {
    pub label: String,
    pub time: String,
    pub relative_day: &'static str,
}

impl TimezoneEntry {
    /// The entry for an already resolved time zone.
    pub fn from_resolved(label: &str, resolved: ResolvedTimezone, favorite: bool) -> (r: Self)
        ensures
            r@.label == label@,
            r@.favorite == favorite,
            r@.iana_id == resolved.canonical_id@,
            r@.zone == resolved.timezone,
            r@.source == resolved.source@,
            r@.offset_seconds == offset_int(resolved.offset_seconds),
            resolved_text(resolved, resolved.source@) ==> entry_resolved_from(r@, resolved.source@),
    {
        let ghost offset = offset_int(resolved.offset_seconds);
        TimezoneEntry {
            label: string_from(label),
            favorite,
            tz: resolved.timezone,
            iana_id: resolved.canonical_id,
            source: resolved.source,
            offset_seconds: Ghost(offset),
        }
    }

    /// The entry for `iana_id`, or nothing when it resolves to no time zone
    /// (see `resolve_timezone`). The entry keeps what `iana_id`, trimmed,
    /// resolved to.
    pub fn try_new(label: &str, iana_id: &str, favorite: bool) -> (r: Option<Self>)
        requires
            !normalize_panics(trim(iana_id@)),
        ensures
            trim(iana_id@).len() == 0 ==> r is None,
            trim(iana_id@).len() > 0 && normalized_offset(trim(iana_id@)) is Some ==> r is Some,
            r matches Some(e) ==> e@.label == label@ && e@.favorite == favorite
                && entry_resolved_from(e@, trim(iana_id@)),
    {
        match resolve_timezone(iana_id) {
            Some(resolved) => Some(Self::from_resolved(label, resolved, favorite)),
            None => None,
        }
    }

    /// The entry's label.
    pub fn label_text(&self) -> (r: &str)
        ensures
            r@ == self@.label,
    {
        self.label.as_str()
    }

    /// Whether the entry is the favourite.
    pub fn is_favorite(&self) -> (r: bool)
        ensures
            r == self@.favorite,
    {
        self.favorite
    }

    /// The canonical identifier of the entry's time zone.
    pub fn iana_id(&self) -> (r: &str)
        ensures
            r@ == self@.iana_id,
    {
        self.iana_id.as_str()
    }

    /// The entry as shown at `now`: its label, the time of `now` in the
    /// entry's zone (`HH:MM`), and the day there relative to the day at `now`.
    pub fn format(&self, now: &jiff::Zoned) -> (r: FormattedEntry)
        ensures
            r.label@ == self@.label,
            r.time@ == hour_minute_of(zoned_in_zone_of(*now, self@.zone)),
            r.relative_day@ == relative_day_text(
                zoned_date_of(*now),
                zoned_date_of(zoned_in_zone_of(*now, self@.zone)),
            ),
            hour_minute_form(r.time@),
    {
        let converted = zoned_in_zone(now, &self.tz);
        let time = zoned_hour_minute(&converted);
        let now_date = zoned_date(now);
        let there = zoned_date(&converted);
        let relative_day = relative_day_label(now_date, there);
        FormattedEntry { label: self.label.clone(), time, relative_day }
    }
}

// ---------------------------------------------------------------------------
// Laws
// ---------------------------------------------------------------------------

/// `a` comes before `b` in the calendar.
pub open spec fn date_before(a: CivilDate, b: CivilDate) -> bool {
    ||| a.year < b.year
    ||| a.year == b.year && a.month < b.month
    ||| a.year == b.year && a.month == b.month && a.day < b.day
}

proof fn lemma_days_in_month_range(y: int, m: int)
    ensures
        28 <= days_in_month(y, m) <= 31,
{
}

/// The next day of a valid date is a valid date after it, whose previous day
/// is the date again; likewise the other way round.
pub proof fn lemma_next_prev_inverse(d: CivilDate)
    requires
        d.valid(),
    ensures
        next_day(d) matches Some(e) ==> e.valid() && date_before(d, e) && prev_day(e) == Some(d),
        prev_day(d) matches Some(e) ==> e.valid() && date_before(e, d) && next_day(e) == Some(d),
{
    lemma_days_in_month_range(d.year as int, d.month as int);
    lemma_days_in_month_range(d.year as int, d.month - 1);
    lemma_days_in_month_range(d.year - 1, 12);
    lemma_days_in_month_range(d.year + 1, 1);
}

/// A date is `Today` relative to itself, and `b` is `Tomorrow` relative to
/// `a` exactly when `a` is `Yesterday` relative to `b`.
pub proof fn lemma_relative_days_mirror(a: CivilDate, b: CivilDate)
    requires
        a.valid(),
        b.valid(),
    ensures
        relative_day_text(a, a) == today_text(),
        relative_day_text(a, b) == tomorrow_text() <==> relative_day_text(b, a) == yesterday_text(),
{
    lemma_next_prev_inverse(a);
    lemma_next_prev_inverse(b);
    assert(today_text().len() == 5);
    assert(tomorrow_text().len() == 8);
    assert(yesterday_text().len() == 9);
    if next_day(a) == Some(b) {
        assert(date_before(a, b));
        assert(next_day(b) != Some(a));
    }
    if prev_day(b) == Some(a) {
        assert(next_day(a) == Some(b));
    }
}

} // verus!
