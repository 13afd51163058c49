use cadran::search::{
    abbreviation_family, compact_match_key, extract_city, iana_id_from_display,
    initials_match_key, is_alpha_abbreviation, is_subsequence, offset_suggestions,
    TimezoneSearch,
};

#[test]
fn combo_items_contain_city_and_iana() {
    let search = TimezoneSearch::new();
    let items = search.combo_items();

    assert!(
        items.iter().any(|l| l == "Asia/Tokyo"),
        "expected Asia/Tokyo as a raw IANA combo item"
    );
    assert!(
        items.iter().any(|l| l == "Europe/Paris"),
        "expected Europe/Paris as a raw IANA combo item"
    );
}

#[test]
fn combo_items_contain_offset_suggestions() {
    let search = TimezoneSearch::new();
    let items = search.combo_items();

    assert!(items.iter().any(|l| l == "UTC-12:00"));
    assert!(items.iter().any(|l| l == "UTC+01:00"));
    assert!(items.iter().any(|l| l == "UTC+05:45"));
    assert!(items.iter().any(|l| l == "UTC+14:00"));
    assert!(items.iter().any(|l| l == "UTC-08:00"));
}

#[test]
fn combo_items_contain_explicit_family_suggestions() {
    let search = TimezoneSearch::new();
    let items = search.completions_for("ET");

    assert!(
        items.iter().any(|l| l == "America/New_York"),
        "expected an explicit ET suggestion for America/New_York"
    );
}

#[test]
fn combo_items_contain_explicit_abbreviation_suggestions() {
    let search = TimezoneSearch::new();
    let items = search.completions_for("JST");

    assert!(
        items.iter().any(|l| l == "Asia/Tokyo"),
        "expected an explicit JST suggestion for Asia/Tokyo"
    );
}

#[test]
fn completions_include_offset_and_family_matches() {
    let search = TimezoneSearch::new();

    let utc_matches = search.completions_for("UTC");
    assert_eq!(utc_matches[0], "UTC");
    assert!(utc_matches.iter().any(|l| l == "UTC+14:00"));

    assert_eq!(search.completions_for("utc+1")[0], "UTC+01:00");
    assert!(
        search
            .completions_for("ET")
            .iter()
            .any(|l| l == "America/New_York"),
        "expected ET completions to include America/New_York"
    );
    assert!(
        search
            .completions_for("ET")
            .iter()
            .any(|l| l == "America/Detroit"),
        "expected ET completions to include IANA/city text matches"
    );
}

#[test]
fn completions_return_iana_ids_for_city_matches() {
    let search = TimezoneSearch::new();

    assert!(
        search
            .completions_for("Paris")
            .iter()
            .any(|l| l == "Europe/Paris"),
        "expected city search to return the matching IANA ID"
    );
    assert!(
        search
            .completions_for("new")
            .iter()
            .any(|l| l == "America/New_York"),
        "expected New York search to return the matching IANA ID"
    );
}

#[test]
fn completions_include_fuzzy_city_matches() {
    let search = TimezoneSearch::new();

    assert!(
        search
            .completions_for("newyork")
            .iter()
            .any(|l| l == "America/New_York"),
        "expected compact city search to return America/New_York"
    );
    assert!(
        search
            .completions_for("ny")
            .iter()
            .any(|l| l == "America/New_York"),
        "expected city initials to match multi-word city names"
    );
    assert!(
        search
            .completions_for("rga")
            .iter()
            .any(|l| l == "America/Argentina/Rio_Gallegos"),
        "expected subsequence search to match compact city names"
    );
}

#[test]
fn iana_id_from_display_label() {
    assert_eq!(
        iana_id_from_display("Tokyo \u{2014} Asia/Tokyo"),
        "Asia/Tokyo"
    );
    assert_eq!(
        iana_id_from_display("New York \u{2014} America/New_York"),
        "America/New_York"
    );
}

#[test]
fn iana_id_from_raw_input() {
    assert_eq!(iana_id_from_display("Europe/Paris"), "Europe/Paris");
    assert_eq!(iana_id_from_display("Asia/Tokyo"), "Asia/Tokyo");
}

#[test]
fn list_all_available_timezones() {
    let mut available: Vec<_> = jiff::tz::db().available().collect();
    available.sort();
    for name in available {
        println!("ALL_TZ: {}", name.as_str());
    }
}

fn zones(list: &[(&str, Option<&str>)]) -> Vec<(String, Option<String>)> {
    list.iter()
        .map(|(n, a)| (n.to_string(), a.map(|a| a.to_string())))
        .collect()
}

#[test]
fn index_from_given_zones_answers_queries_exactly() {
    let search = TimezoneSearch::from_zones(zones(&[
        ("America/New_York", Some("EST")),
        ("Asia/Tokyo", Some("JST")),
        ("Europe/Paris", Some("CET")),
        ("America/Argentina/Rio_Gallegos", Some("-03")),
        ("Etc/Unknown", None),
    ]));
    assert_eq!(
        search.completions_for("et"),
        vec![
            "America/New_York",
            "Europe/Paris",
            "America/Argentina/Rio_Gallegos",
            "Etc/Unknown",
        ]
    );
    assert_eq!(search.completions_for("ny"), vec!["America/New_York"]);
    assert_eq!(search.completions_for("  JST "), vec!["Asia/Tokyo"]);
    assert_eq!(
        search.completions_for("cet"),
        vec!["Europe/Paris", "America/Argentina/Rio_Gallegos"]
    );
    assert_eq!(
        search.completions_for("rga"),
        vec!["America/Argentina/Rio_Gallegos"]
    );
    assert_eq!(
        search.completions_for("-03"),
        vec!["UTC-03:00", "America/Argentina/Rio_Gallegos"]
    );
    assert!(search.completions_for("zzz").is_empty());
}

#[test]
fn combo_items_are_suggestions_then_sorted_ids() {
    let search = TimezoneSearch::from_zones(zones(&[
        ("Europe/Paris", None),
        ("Asia/Tokyo", None),
        ("America/New_York", None),
    ]));
    let items = search.combo_items();
    let suggestions = offset_suggestions();
    assert_eq!(items.len(), suggestions.len() + 3);
    assert_eq!(&items[..suggestions.len()], &suggestions[..]);
    assert_eq!(
        &items[suggestions.len()..],
        &["America/New_York", "Asia/Tokyo", "Europe/Paris"]
    );
    assert_eq!(search.completions_for("   "), items);
}

#[test]
fn completions_drop_consecutive_repeats() {
    let search = TimezoneSearch::from_zones(zones(&[]));
    // The normalised offset and the matching suggestion are the same text.
    assert_eq!(search.completions_for("utc+14"), vec!["UTC+14:00"]);
    let utc = search.completions_for("utc");
    assert_eq!(utc[0], "UTC");
    assert_eq!(utc[1], "UTC-12:00");
    assert_eq!(utc.len(), 105);
}

#[test]
fn checked_completions_refuse_inputs_that_would_panic() {
    let search = TimezoneSearch::from_zones(zones(&[("Asia/Tokyo", Some("JST"))]));
    assert!(search.checked_completions_for("+1é1").is_none());
    assert_eq!(
        search.checked_completions_for("tokyo").unwrap(),
        vec!["Asia/Tokyo"]
    );
}

#[test]
fn offset_suggestions_cover_every_quarter_hour() {
    let s = offset_suggestions();
    assert_eq!(s.len(), 105);
    assert_eq!(s[0], "UTC");
    assert_eq!(s[1], "UTC-12:00");
    assert_eq!(s[48], "UTC-00:15");
    assert_eq!(s[49], "UTC+00:15");
    assert_eq!(s[104], "UTC+14:00");
    assert!(s.iter().any(|l| l == "UTC+05:45"));
}

#[test]
fn keys_of_city_names() {
    assert_eq!(extract_city("America/Argentina/Rio_Gallegos"), "Rio Gallegos");
    assert_eq!(extract_city("UTC"), "UTC");
    assert_eq!(extract_city("Etc/"), "");
    assert_eq!(compact_match_key("New York"), "newyork");
    assert_eq!(compact_match_key("Port-au-Prince é"), "portauprince");
    assert_eq!(initials_match_key("New York").as_deref(), Some("ny"));
    assert_eq!(initials_match_key("Port-au-Prince").as_deref(), Some("pap"));
    assert_eq!(initials_match_key("Tokyo"), None);
    assert_eq!(initials_match_key(""), None);
}

#[test]
fn abbreviations_and_families() {
    assert!(is_alpha_abbreviation("jst"));
    assert!(!is_alpha_abbreviation("+03"));
    assert!(is_alpha_abbreviation(""));
    assert_eq!(abbreviation_family("est").as_deref(), Some("et"));
    assert_eq!(abbreviation_family("pdt").as_deref(), Some("pt"));
    assert_eq!(abbreviation_family("aest").as_deref(), Some("aet"));
    assert_eq!(abbreviation_family("cest").as_deref(), Some("cet"));
    assert_eq!(abbreviation_family("jst").as_deref(), Some("jt"));
    assert_eq!(abbreviation_family("st"), None);
    assert_eq!(abbreviation_family("xst"), None);
    assert_eq!(abbreviation_family("esx"), None);
    assert_eq!(abbreviation_family("EST"), None);
}

#[test]
fn subsequences() {
    assert!(is_subsequence("rga", "riogallegos"));
    assert!(is_subsequence("", "abc"));
    assert!(!is_subsequence("abc", "acb"));
    assert!(is_subsequence("abc", "abc"));
    assert!(!is_subsequence("a", ""));
}

#[test]
fn display_labels_are_trimmed() {
    assert_eq!(iana_id_from_display("  Europe/Paris  "), "Europe/Paris");
    assert_eq!(iana_id_from_display("A \u{2014} B \u{2014} C"), "B \u{2014} C");
    assert_eq!(iana_id_from_display("A\u{2014}B"), "A\u{2014}B");
}

#[test]
fn offset_suggestions_are_already_normalized() {
    for s in offset_suggestions() {
        assert_eq!(cadran::resolver::normalize_offset_id(&s).unwrap(), s);
    }
}

#[test]
fn a_zone_is_found_by_its_identifier_and_city() {
    let search = TimezoneSearch::from_zones(zones(&[
        ("Europe/Paris", Some("CET")),
        ("Asia/Tokyo", Some("JST")),
    ]));
    assert!(search
        .completions_for("Europe/Paris")
        .iter()
        .any(|l| l == "Europe/Paris"));
    assert!(search.completions_for("tokyo").iter().any(|l| l == "Asia/Tokyo"));
}

#[test]
fn blank_queries_give_the_combo_items() {
    let search = TimezoneSearch::from_zones(zones(&[("Asia/Tokyo", Some("JST"))]));
    let items = search.combo_items();
    assert_eq!(search.completions_for(""), items);
    assert_eq!(search.completions_for(" \t "), items);
    assert_eq!(search.checked_completions_for("  ").unwrap(), items);
}

#[test]
fn subsequences_are_letters_in_order() {
    assert!(is_subsequence("rga", "riogallegos"));
    assert!(!is_subsequence("ba", "ab"));
    assert!(is_subsequence("", ""));
    assert!(!is_subsequence("aa", "a"));
}

#[test]
fn a_part_of_a_query_keeps_its_matches() {
    let search = TimezoneSearch::from_zones(zones(&[
        ("America/Argentina/Rio_Gallegos", None),
        ("Asia/Tokyo", Some("JST")),
    ]));
    assert_eq!(search.completions_for("rio gal"), vec!["America/Argentina/Rio_Gallegos"]);
    assert_eq!(search.completions_for("o ga"), vec!["America/Argentina/Rio_Gallegos"]);
    assert_eq!(search.completions_for("tokyo"), vec!["Asia/Tokyo"]);
    assert_eq!(search.completions_for("oky"), vec!["Asia/Tokyo"]);
}

#[test]
fn index_from_names_lists_them_sorted_after_the_suggestions() {
    let names = vec![
        "Europe/Paris".to_string(),
        "Asia/Tokyo".to_string(),
        "America/New_York".to_string(),
    ];
    let search = TimezoneSearch::from_zone_names(&names, None);
    let items = search.combo_items();
    let suggestions = offset_suggestions();
    assert_eq!(items.len(), suggestions.len() + names.len());
    assert_eq!(
        &items[suggestions.len()..],
        &["America/New_York", "Asia/Tokyo", "Europe/Paris"]
    );
    assert_eq!(search.completions_for("paris"), vec!["Europe/Paris"]);
}
