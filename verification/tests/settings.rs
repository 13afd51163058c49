use cadran::settings::{entries_from_stored, stored_from_entries, StoredEntry};
use cadran::timezone::TimezoneEntry;

fn stored(label: &str, iana_id: &str, favorite: bool) -> StoredEntry {
    StoredEntry {
        label: label.to_string(),
        iana_id: iana_id.to_string(),
        favorite,
    }
}

#[test]
fn nothing_saved_restores_nothing() {
    assert!(entries_from_stored(&Vec::new()).is_none());
}

#[test]
fn restores_resolvable_entries_in_order() {
    let saved = vec![
        stored("Sam", "Europe/London", true),
        stored("Ghost", "Not/A/Timezone", false),
        stored("Fixed", "UTC+05:30", false),
    ];
    let restored = entries_from_stored(&saved).unwrap();
    assert_eq!(restored.len(), 2);
    assert_eq!(restored[0].label, "Sam");
    assert!(restored[0].favorite);
    assert_eq!(restored[0].iana_id(), "Europe/London");
    assert_eq!(restored[1].label, "Fixed");
    assert_eq!(restored[1].iana_id(), "UTC+05:30");
}

#[test]
fn saving_then_restoring_keeps_entries() {
    let entries = vec![
        TimezoneEntry::try_new("Mika", "asia/tokyo", false).unwrap(),
        TimezoneEntry::try_new("Ana", "gmt-5", true).unwrap(),
    ];
    let saved = stored_from_entries(&entries);
    assert_eq!(saved.len(), 2);
    assert_eq!(saved[0].iana_id, "Asia/Tokyo");
    assert_eq!(saved[1].iana_id, "UTC-05:00");
    assert!(saved[1].favorite);
    let restored = entries_from_stored(&saved).unwrap();
    assert_eq!(restored.len(), 2);
    for (a, b) in entries.iter().zip(restored.iter()) {
        assert_eq!(a.label, b.label);
        assert_eq!(a.favorite, b.favorite);
        assert_eq!(a.iana_id(), b.iana_id());
    }
}

#[test]
fn default_rows_name_five_zones() {
    let rows = cadran::settings::default_stored_entries();
    let ids: Vec<&str> = rows.iter().map(|r| r.iana_id.as_str()).collect();
    assert_eq!(
        ids,
        vec!["Europe/London", "Asia/Tokyo", "America/New_York", "Asia/Kolkata", "Australia/Sydney"]
    );
    let labels: Vec<&str> = rows.iter().map(|r| r.label.as_str()).collect();
    assert_eq!(labels, vec!["Sam", "Mika", "Ana", "Priya", "Leo"]);
    assert!(rows[0].favorite);
    assert!(rows[1..].iter().all(|r| !r.favorite));
    assert!(entries_from_stored(&rows).is_some());
}
