//! The text of the menu bar title and of the menu's time zone lines.
use vstd::prelude::*;

use crate::search::{city_of, extract_city};
use crate::text::{chars_of, string_of};
use crate::timezone::{FormattedEntry, TimezoneEntry};

verus! {

/// The menu bar title: a globe and the time.
pub open spec fn status_title_text(time: Seq<char>) -> Seq<char> {
    seq!['\u{1F310}', ' '] + time
}

/// A menu line: `label — city    time  relative-day`.
pub open spec fn menu_line_text(
    label: Seq<char>,
    city: Seq<char>,
    time: Seq<char>,
    day: Seq<char>,
) -> Seq<char> {
    label + seq![' ', '\u{2014}', ' '] + city + seq![' ', ' ', ' ', ' '] + time + seq![' ', ' '] + day
}

fn append_text(out: &mut Vec<char>, s: &str)
    ensures
        final(out)@ == old(out)@ + s@,
{
    let chars = chars_of(s);
    let ghost start = out@;
    let mut i: usize = 0;
    while i < chars.len()
        invariant
            i <= chars@.len(),
            chars@ == s@,
            out@ == start + chars@.take(i as int),
        decreases chars.len() - i,
    {
        out.push(chars[i]);
        i = i + 1;
        assert(out@ =~= start + chars@.take(i as int));
    }
    assert(chars@.take(chars@.len() as int) =~= chars@);
}

/// The menu bar title for the time of the first entry.
pub fn status_title(time: &str) -> (r: String)
    ensures
        r@ == status_title_text(time@),
{
    let mut out: Vec<char> = vec!['\u{1F310}', ' '];
    append_text(&mut out, time);
    assert(out@ =~= status_title_text(time@));
    string_of(&out)
}

/// The menu line of `entry` as `shown`, with the city of its identifier.
pub fn menu_entry_title(entry: &TimezoneEntry, shown: &FormattedEntry) -> (r: String)
    ensures
        r@ == menu_line_text(shown.label@, city_of(entry@.iana_id), shown.time@, shown.relative_day@),
{
    let city = extract_city(entry.iana_id());
    let mut out: Vec<char> = Vec::new();
    append_text(&mut out, shown.label.as_str());
    out.push(' ');
    out.push('\u{2014}');
    out.push(' ');
    append_text(&mut out, city.as_str());
    out.push(' ');
    out.push(' ');
    out.push(' ');
    out.push(' ');
    append_text(&mut out, shown.time.as_str());
    out.push(' ');
    out.push(' ');
    append_text(&mut out, shown.relative_day);
    assert(out@ =~= menu_line_text(shown.label@, city_of(entry@.iana_id), shown.time@, shown.relative_day@));
    string_of(&out)
}

} // verus!
