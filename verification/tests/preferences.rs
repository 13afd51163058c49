use cadran::preferences::{
    canonical_timezone_text, entries_from_rows, favorites_after_removal, favorites_selecting,
    first_completion, reorder_destination, reorder_target, PrefsRow,
};

fn row(label: &str, timezone: &str, favorite: bool) -> PrefsRow {
    PrefsRow {
        label: label.to_string(),
        timezone: timezone.to_string(),
        favorite,
    }
}

#[test]
fn rows_save_their_resolvable_entries() {
    let rows = vec![
        row("Sam", "London \u{2014} Europe/London", true),
        row("Empty", "   ", false),
        row("Nobody", "Not/A/Timezone", false),
        row("Leo", " utc+10 ", false),
    ];
    let entries = entries_from_rows(&rows);
    assert_eq!(entries.len(), 2);
    assert_eq!(entries[0].label, "Sam");
    assert_eq!(entries[0].iana_id(), "Europe/London");
    assert!(entries[0].favorite);
    assert_eq!(entries[1].label, "Leo");
    assert_eq!(entries[1].iana_id(), "UTC+10:00");
}

#[test]
fn fields_are_canonicalised_only_when_they_change() {
    assert_eq!(
        canonical_timezone_text("Tokyo \u{2014} asia/tokyo").as_deref(),
        Some("Asia/Tokyo")
    );
    assert_eq!(canonical_timezone_text(" utc+1 ").as_deref(), Some("UTC+01:00"));
    assert_eq!(canonical_timezone_text("Asia/Tokyo"), None);
    assert_eq!(canonical_timezone_text("   "), None);
    assert_eq!(canonical_timezone_text(" Not/A/Timezone "), None);
}

#[test]
fn drops_land_above_the_target_row() {
    assert_eq!(reorder_destination(&vec![false, false, true, true]), 2);
    assert_eq!(reorder_destination(&vec![false, false]), 2);
    assert_eq!(reorder_destination(&vec![]), 0);

    assert_eq!(reorder_target(0, 3, 4), Some(2));
    assert_eq!(reorder_target(3, 0, 4), Some(0));
    assert_eq!(reorder_target(1, 1, 4), None);
    assert_eq!(reorder_target(1, 2, 4), None);
    assert_eq!(reorder_target(5, 0, 4), None);
    assert_eq!(reorder_target(0, 4, 4), Some(3));

    let mut rows = vec!["a", "b", "c", "d"];
    let to = reorder_target(0, 3, 4).unwrap();
    let moved = rows.remove(0);
    rows.insert(to, moved);
    assert_eq!(rows, vec!["b", "c", "a", "d"]);
}

#[test]
fn the_star_stays_on_one_row() {
    assert_eq!(
        favorites_after_removal(&vec![true, false, false], 0),
        vec![true, false]
    );
    assert_eq!(
        favorites_after_removal(&vec![false, true, false], 0),
        vec![true, false]
    );
    assert_eq!(
        favorites_after_removal(&vec![false, false, true], 1),
        vec![false, true]
    );
    assert_eq!(favorites_after_removal(&vec![true], 0), Vec::<bool>::new());
    assert_eq!(favorites_selecting(3, 1), vec![false, true, false]);
}

#[test]
fn combo_box_completes_ignoring_case() {
    let items: Vec<String> = ["UTC", "UTC+01:00", "Asia/Tokyo", "Asia/Taipei"]
        .iter()
        .map(|s| s.to_string())
        .collect();
    assert_eq!(first_completion(&items, "asia/t").as_deref(), Some("Asia/Tokyo"));
    assert_eq!(first_completion(&items, "ASIA/TA").as_deref(), Some("Asia/Taipei"));
    assert_eq!(first_completion(&items, "utc+").as_deref(), Some("UTC+01:00"));
    assert_eq!(first_completion(&items, "europe"), None);
}

#[test]
fn saved_rows_restore_with_their_identifiers() {
    let rows = vec![
        row("Sam", "London \u{2014} Europe/London", true),
        row("Leo", " gmt+9:30 ", false),
    ];
    let entries = entries_from_rows(&rows);
    let stored = cadran::settings::stored_from_entries(&entries);
    let restored = cadran::settings::entries_from_stored(&stored).unwrap();
    let ids: Vec<&str> = restored.iter().map(|e| e.iana_id()).collect();
    assert_eq!(ids, vec!["Europe/London", "UTC+09:30"]);
    assert!(restored[0].favorite && !restored[1].favorite);
}
