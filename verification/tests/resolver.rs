use cadran::resolver::{normalize_offset_id, normalize_offset_panics, resolve_timezone};

#[test]
fn resolves_iana_id_with_canonical_case() {
    let resolved = resolve_timezone("america/new_york").unwrap();

    assert_eq!(resolved.canonical_id, "America/New_York");
}

#[test]
fn normalizes_utc_offsets() {
    assert_eq!(normalize_offset_id("UTC+1").unwrap(), "UTC+01:00");
    assert_eq!(normalize_offset_id("gmt-8").unwrap(), "UTC-08:00");
    assert_eq!(normalize_offset_id("+0530").unwrap(), "UTC+05:30");
    assert_eq!(normalize_offset_id("-03:30").unwrap(), "UTC-03:30");
}

#[test]
fn rejects_invalid_offsets() {
    assert!(normalize_offset_id("UTC+24").is_none());
    assert!(normalize_offset_id("UTC+12:60").is_none());
    assert!(normalize_offset_id("UTC+123").is_none());
}

#[test]
fn resolves_fixed_offset_timezone() {
    let resolved = resolve_timezone("UTC+5:30").unwrap();

    assert_eq!(resolved.canonical_id, "UTC+05:30");
    assert_eq!(
        resolved.timezone.to_fixed_offset().unwrap().seconds(),
        19_800
    );
}

#[test]
fn rejects_empty_and_whitespace() {
    assert!(resolve_timezone("").is_none());
    assert!(resolve_timezone("   ").is_none());
}

#[test]
fn normalizes_bare_utc_and_gmt() {
    assert_eq!(normalize_offset_id("UTC").unwrap(), "UTC");
    assert_eq!(normalize_offset_id("gmt").unwrap(), "UTC");
    assert_eq!(normalize_offset_id("  utc  ").unwrap(), "UTC");
}

#[test]
fn rejects_nonsense_input() {
    assert!(resolve_timezone("Not/A/Timezone").is_none());
    assert!(normalize_offset_id("hello").is_none());
}

#[test]
fn normalizes_signed_hours_with_plus_inside_the_number() {
    // `u8::from_str` accepts a leading `+`, so `UTC++5` reads five hours.
    assert_eq!(normalize_offset_id("UTC++5").unwrap(), "UTC+05:00");
    assert_eq!(normalize_offset_id("UTC+1:+5").unwrap(), "UTC+01:05");
    assert!(normalize_offset_id("UTC+-5").is_none());
}

#[test]
fn normalizes_compact_and_colon_forms() {
    assert_eq!(normalize_offset_id("UTC-0").unwrap(), "UTC-00:00");
    assert_eq!(normalize_offset_id("utc+23:59").unwrap(), "UTC+23:59");
    assert_eq!(normalize_offset_id("+2359").unwrap(), "UTC+23:59");
    assert_eq!(normalize_offset_id("\t-7 ").unwrap(), "UTC-07:00");
    assert_eq!(normalize_offset_id("").unwrap(), "UTC");
}

#[test]
fn rejects_malformed_offsets() {
    assert!(normalize_offset_id("UTC+").is_none());
    assert!(normalize_offset_id("UTC+1:5").is_none());
    assert!(normalize_offset_id("UTC+1:555").is_none());
    assert!(normalize_offset_id("UTC+12345").is_none());
    assert!(normalize_offset_id("UTC*5").is_none());
    assert!(normalize_offset_id("EST").is_none());
    assert!(normalize_offset_id("UTC+é").is_none());
    assert!(normalize_offset_id("UTC+12é").is_none());
}

#[test]
fn normalized_offsets_are_fixed_points() {
    for input in ["UTC+1", "gmt-8", "+0530", "-03:30", "utc", "UTC+23:59"] {
        let once = normalize_offset_id(input).unwrap();
        let twice = normalize_offset_id(&once).unwrap();
        assert_eq!(once, twice);
    }
}

#[test]
fn detects_inputs_whose_split_would_cut_a_character() {
    // A four-byte offset whose byte 2 falls inside a character.
    assert!(normalize_offset_panics("UTC+1é1"));
    assert!(normalize_offset_panics("+€1"));
    assert!(!normalize_offset_panics("UTC+é1"));
    assert!(!normalize_offset_panics("UTC+12é"));
    assert!(!normalize_offset_panics("UTC+0530"));
    assert!(!normalize_offset_panics("hello"));
}

#[test]
fn resolves_utc_and_offsets_to_seconds() {
    let resolved = resolve_timezone(" gmt-08:00 ").unwrap();
    assert_eq!(resolved.canonical_id, "UTC-08:00");
    assert_eq!(
        resolved.timezone.to_fixed_offset().unwrap().seconds(),
        -28_800
    );
    let utc = resolve_timezone("UTC").unwrap();
    assert_eq!(utc.canonical_id, "UTC");
    assert_eq!(utc.timezone.to_fixed_offset().unwrap().seconds(), 0);
}

#[test]
fn normalizes_the_offset_forms_of_the_search_plan() {
    assert_eq!(normalize_offset_id("UTC+4").unwrap(), "UTC+04:00");
    assert_eq!(normalize_offset_id("UTC-8").unwrap(), "UTC-08:00");
    assert_eq!(normalize_offset_id("GMT+5").unwrap(), "UTC+05:00");
    assert_eq!(normalize_offset_id("+04:00").unwrap(), "UTC+04:00");
    assert_eq!(normalize_offset_id("-0800").unwrap(), "UTC-08:00");
}

#[test]
fn offset_identifiers_carry_their_seconds() {
    assert_eq!(resolve_timezone("UTC+5:30").unwrap().offset_seconds, Some(19_800));
    assert_eq!(resolve_timezone(" gmt-8 ").unwrap().offset_seconds, Some(-28_800));
    assert_eq!(resolve_timezone("+00:00").unwrap().offset_seconds, Some(0));
    assert_eq!(resolve_timezone("Asia/Tokyo").unwrap().offset_seconds, None);
}

#[test]
fn a_stored_offset_resolves_to_the_same_zone() {
    let first = resolve_timezone("+0930").unwrap();
    let again = resolve_timezone(&first.canonical_id).unwrap();
    assert_eq!(again.canonical_id, first.canonical_id);
    assert_eq!(again.offset_seconds, first.offset_seconds);
    assert_eq!(
        again.timezone.to_fixed_offset().unwrap().seconds(),
        first.timezone.to_fixed_offset().unwrap().seconds()
    );
}

#[test]
fn normalizing_ignores_case_and_padding() {
    assert_eq!(normalize_offset_id(" Utc+5:30\t"), normalize_offset_id("UTC+5:30"));
    assert_eq!(normalize_offset_id("gmt-0800"), Some("UTC-08:00".to_string()));
    assert_eq!(normalize_offset_id("+7"), Some("UTC+07:00".to_string()));
    assert_eq!(normalize_offset_id("utc"), Some("UTC".to_string()));
}
