use cadran::menu::{menu_entry_title, status_title};
use cadran::timezone::TimezoneEntry;
use jiff::civil::date;

#[test]
fn menu_texts() {
    assert_eq!(status_title("14:32"), "\u{1F310} 14:32");
    let entry = TimezoneEntry::try_new("Ana", "America/New_York", false).unwrap();
    let now = date(2024, 5, 3)
        .at(12, 0, 0, 0)
        .in_tz("Europe/Paris")
        .unwrap();
    let shown = entry.format(&now);
    assert_eq!(
        menu_entry_title(&entry, &shown),
        "Ana \u{2014} New York    06:00  Today"
    );
}
