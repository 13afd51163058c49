use cadran::timezone::{relative_day_label, tomorrow, yesterday, CivilDate, TimezoneEntry};
use jiff::civil::date;
use jiff::tz::TimeZone;

fn civil(d: jiff::civil::Date) -> CivilDate {
    CivilDate {
        year: d.year(),
        month: d.month(),
        day: d.day(),
    }
}

fn label(now: &jiff::Zoned, target: &jiff::Zoned) -> &'static str {
    relative_day_label(civil(now.date()), civil(target.date()))
}

#[test]
fn jiff_accepts_common_timezone_names() {
    let cases = vec![
        "UTC",
        "UTC+4",
        "UTC-8",
        "GMT+4",
        "GMT-8",
        "PT",
        "PST",
        "PDT",
        "America/Los_Angeles",
        "US/Pacific",
    ];
    for case in cases {
        let res = jiff::tz::TimeZone::get(case);
        println!("GET '{}': {}", case, res.is_ok());
    }
}

#[test]
fn relative_day_is_today_when_dates_match() {
    let now = date(2024, 5, 3)
        .at(12, 0, 0, 0)
        .in_tz("Europe/Paris")
        .unwrap();
    let target = now.with_time_zone(TimeZone::get("America/New_York").unwrap());

    assert_eq!(label(&now, &target), "Today");
}

#[test]
fn relative_day_is_tomorrow_across_month_and_year_boundary() {
    let now = date(2024, 12, 31)
        .at(23, 30, 0, 0)
        .in_tz("Europe/Paris")
        .unwrap();
    let target = now.with_time_zone(TimeZone::get("Asia/Tokyo").unwrap());

    assert_eq!(label(&now, &target), "Tomorrow");
}

#[test]
fn relative_day_is_tomorrow_for_paris_to_adelaide_evening() {
    let now = date(2026, 5, 3)
        .at(17, 30, 0, 0)
        .in_tz("Europe/Paris")
        .unwrap();
    let target = now.with_time_zone(TimeZone::get("Australia/Adelaide").unwrap());

    assert_eq!(target.strftime("%H:%M").to_string(), "01:00");
    assert_eq!(label(&now, &target), "Tomorrow");
}

#[test]
fn relative_day_is_yesterday_across_month_and_year_boundary() {
    let now = date(2025, 1, 1)
        .at(0, 30, 0, 0)
        .in_tz("Europe/Paris")
        .unwrap();
    let target = now.with_time_zone(TimeZone::get("America/New_York").unwrap());

    assert_eq!(label(&now, &target), "Yesterday");
}

#[test]
fn relative_day_is_blank_for_non_adjacent_dates() {
    let now = date(2025, 1, 1)
        .at(12, 0, 0, 0)
        .in_tz("Europe/Paris")
        .unwrap();
    let target = date(2025, 1, 3)
        .at(12, 0, 0, 0)
        .in_tz("Europe/Paris")
        .unwrap();

    assert_eq!(label(&now, &target), "");
}

#[test]
fn calendar_steps_agree_with_jiff() {
    let mut d = jiff::civil::Date::new(1899, 12, 20).unwrap();
    let end = jiff::civil::Date::new(2105, 3, 10).unwrap();
    while d < end {
        let next = d.tomorrow().unwrap();
        assert_eq!(tomorrow(civil(d)), Some(civil(next)));
        assert_eq!(yesterday(civil(next)), Some(civil(d)));
        d = next;
    }
    let max = civil(jiff::civil::Date::MAX);
    let min = civil(jiff::civil::Date::MIN);
    assert_eq!(tomorrow(max), None);
    assert_eq!(yesterday(min), None);
    assert_eq!(
        yesterday(CivilDate { year: -9999, month: 1, day: 2 }),
        Some(min)
    );
}

#[test]
fn relative_day_labels_mirror_each_other() {
    let a = CivilDate { year: 2024, month: 2, day: 29 };
    let b = CivilDate { year: 2024, month: 3, day: 1 };
    assert_eq!(relative_day_label(a, b), "Tomorrow");
    assert_eq!(relative_day_label(b, a), "Yesterday");
    assert_eq!(relative_day_label(a, a), "Today");
    let c = CivilDate { year: 2023, month: 2, day: 28 };
    let d = CivilDate { year: 2023, month: 3, day: 1 };
    assert_eq!(relative_day_label(c, d), "Tomorrow");
}

#[test]
fn entries_resolve_and_format() {
    let entry = TimezoneEntry::try_new("Mika", "asia/tokyo", false).unwrap();
    assert_eq!(entry.iana_id(), "Asia/Tokyo");
    assert_eq!(entry.label, "Mika");
    let offset = TimezoneEntry::try_new("Fixed", "utc+5:30", true).unwrap();
    assert_eq!(offset.iana_id(), "UTC+05:30");
    assert!(offset.favorite);
    assert!(TimezoneEntry::try_new("Nobody", "  ", false).is_none());
    assert!(TimezoneEntry::try_new("Nobody", "Not/A/Timezone", false).is_none());

    let now = date(2024, 12, 31)
        .at(23, 30, 0, 0)
        .in_tz("Europe/Paris")
        .unwrap();
    let shown = entry.format(&now);
    assert_eq!(shown.label, "Mika");
    assert_eq!(shown.time, "07:30");
    assert_eq!(shown.relative_day, "Tomorrow");
    let fixed = offset.format(&now);
    assert_eq!(fixed.time, "04:00");
    assert_eq!(fixed.relative_day, "Tomorrow");
}

#[test]
fn format_shows_the_entry_zone_not_the_clock_zone() {
    let west = TimezoneEntry::try_new("West", " gmt-5 ", false).unwrap();
    assert_eq!(west.iana_id(), "UTC-05:00");
    let now = date(2025, 3, 1).at(2, 15, 0, 0).in_tz("UTC").unwrap();
    let shown = west.format(&now);
    assert_eq!(shown.time, "21:15");
    assert_eq!(shown.relative_day, "Yesterday");
    let here = TimezoneEntry::try_new("Here", "UTC+00:00", false).unwrap();
    let same = here.format(&now);
    assert_eq!(same.time, "02:15");
    assert_eq!(same.relative_day, "Today");
}

#[test]
fn a_saved_offset_entry_restores_to_the_same_identifier() {
    let first = TimezoneEntry::try_new("Fixed", "+0930", false).unwrap();
    let again = TimezoneEntry::try_new("Fixed", first.iana_id(), false).unwrap();
    assert_eq!(again.iana_id(), first.iana_id());
    let now = date(2024, 6, 1).at(12, 0, 0, 0).in_tz("UTC").unwrap();
    assert_eq!(again.format(&now).time, first.format(&now).time);
}
