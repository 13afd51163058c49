//! Searching the time zone database by IANA identifier, city, abbreviation,
//! abbreviation family and fuzzy city keys, plus the fixed offset
//! suggestions offered alongside.
use vstd::prelude::*;

use crate::resolver::{
    lemma_offset_label_normalizes_to_itself, lemma_utc_normalizes_to_itself, normalize_offset_id,
    normalize_offset_panics, normalize_panics, normalized_offset, offset_label, push_two_digits,
    utc_text,
};
use crate::sorting::{
    lemma_insert_at, lemma_map_keeps_permutation, lemma_sort_by_key_sorted_permutation, lemma_sort_by_key_stable, sort_by_key,
    sorted_by_key, with_key,
};
use crate::text::{
    chars_of, contains_chars, contains_str, find_chars, find_str, is_ascii_alnum, is_ascii_alpha,
    is_subseq, lower_char, occurs_at, starts_with, starts_with_chars, string_of, subsequence, text_le,
    text_le_exec, to_lower_char, to_lowercase, trim, trim_str, unicode_lowercase, ascii_alnum,
    ascii_alpha, lemma_contains_is_subseq, lemma_contains_trans, lemma_subseq_trans,
    lemma_text_le_antisym, lemma_text_le_refl,
};
use crate::zones::{
    available_zone_names, lookup_zone, offset_abbreviation, system_time_now,
    timestamp_from_system_time, zone_database,
    zone_offset_info,
};

verus! {

// ---------------------------------------------------------------------------
// Model of the search keys
// ---------------------------------------------------------------------------

/// The part of `s` after its last `/` (all of `s` when it has none).
pub open spec fn after_last_slash(s: Seq<char>) -> Seq<char>
    decreases s.len(),
{
    if s.len() == 0 {
        s
    } else if s.last() == '/' {
        Seq::empty()
    } else {
        after_last_slash(s.drop_last()).push(s.last())
    }
}

pub open spec fn underscore_to_space(c: char) -> char {
    if c == '_' {
        ' '
    } else {
        c
    }
}

/// The city of an IANA identifier: its last segment with `_` read as a space.
pub open spec fn city_of(id: Seq<char>) -> Seq<char> {
    after_last_slash(id).map_values(|c: char| underscore_to_space(c))
}

/// The ASCII letters and digits of `s`, lowercased.
pub open spec fn compact_key(s: Seq<char>) -> Seq<char>
    decreases s.len(),
{
    if s.len() == 0 {
        Seq::empty()
    } else if is_ascii_alnum(s.last()) {
        compact_key(s.drop_last()).push(lower_char(s.last()))
    } else {
        compact_key(s.drop_last())
    }
}

/// Position `i` of `s` starts a word: a run of ASCII letters and digits.
pub open spec fn starts_word(s: Seq<char>, i: int) -> bool {
    is_ascii_alnum(s[i]) && (i == 0 || !is_ascii_alnum(s[i - 1]))
}

/// The first character of each word of `s`, lowercased.
pub open spec fn initials(s: Seq<char>) -> Seq<char>
    decreases s.len(),
{
    if s.len() == 0 {
        Seq::empty()
    } else if starts_word(s, s.len() - 1) {
        initials(s.drop_last()).push(lower_char(s.last()))
    } else {
        initials(s.drop_last())
    }
}

/// The initials of a city with at least two words.
pub open spec fn initials_key(s: Seq<char>) -> Option<Seq<char>> {
    if initials(s).len() > 1 {
        Some(initials(s))
    } else {
        None
    }
}

/// Every character is an ASCII letter.
pub open spec fn is_alpha_text(s: Seq<char>) -> bool {
    forall|i: int| 0 <= i < s.len() ==> is_ascii_alpha(#[trigger] s[i])
}

/// The stems whose standard (`…st`) and daylight (`…dt`) abbreviations share
/// a generic family abbreviation (`…t`), such as `est`/`edt` and `et`.
pub open spec fn is_family_stem(p: Seq<char>) -> bool {
    ||| p == seq!['a']
    ||| p == seq!['a', 'c']
    ||| p == seq!['a', 'e']
    ||| p == seq!['b']
    ||| p == seq!['c']
    ||| p == seq!['c', 'e']
    ||| p == seq!['e']
    ||| p == seq!['e', 'e']
    ||| p == seq!['g']
    ||| p == seq!['h']
    ||| p == seq!['i']
    ||| p == seq!['j']
    ||| p == seq!['m']
    ||| p == seq!['n']
    ||| p == seq!['p']
    ||| p == seq!['w']
    ||| p == seq!['w', 'e']
}

/// The family abbreviation of a lowercase `…st`/`…dt` abbreviation.
pub open spec fn abbreviation_family_of(s: Seq<char>) -> Option<Seq<char>> {
    if s.len() >= 2 && s.last() == 't' && (s[s.len() - 2] == 's' || s[s.len() - 2] == 'd')
        && is_family_stem(s.take(s.len() - 2)) {
        Some(s.take(s.len() - 2).push('t'))
    } else {
        None
    }
}

/// The tags an abbreviation adds: itself, lowercased, and its family.
pub open spec fn abbreviation_tags(abbreviation: Seq<char>) -> Seq<Seq<char>> {
    let l = unicode_lowercase(abbreviation);
    if is_alpha_text(l) && abbreviation_family_of(l) is Some {
        seq![l, abbreviation_family_of(l).unwrap()]
    } else {
        seq![l]
    }
}

/// A search entry as values.
pub struct EntryView {
    pub iana_id: Seq<char>,
    pub city: Seq<char>,
    pub tags: Seq<Seq<char>>,
    pub fuzzy_tags: Seq<Seq<char>>,
}

/// The entry for zone `name`, whose current abbreviation is `abbreviation`
/// when the zone could be loaded.
pub open spec fn entry_model(name: Seq<char>, abbreviation: Option<Seq<char>>) -> EntryView {
    let city = city_of(name);
    EntryView {
        iana_id: name,
        city,
        tags: seq![unicode_lowercase(name), unicode_lowercase(city)] + match abbreviation {
            Some(a) => abbreviation_tags(a),
            None => Seq::empty(),
        },
        fuzzy_tags: seq![compact_key(name), compact_key(city)] + match initials_key(city) {
            Some(k) => seq![k],
            None => Seq::empty(),
        },
    }
}

pub open spec fn city_key() -> spec_fn(EntryView) -> Seq<char> {
    |e: EntryView| e.city
}

pub open spec fn text_key() -> spec_fn(Seq<char>) -> Seq<char> {
    |s: Seq<char>| s
}

pub open spec fn zone_entry() -> spec_fn((Seq<char>, Option<Seq<char>>)) -> EntryView {
    |z: (Seq<char>, Option<Seq<char>>)| entry_model(z.0, z.1)
}

/// The entries built from `zones` (name and abbreviation of each), sorted by
/// city, entries of one city keeping the order of `zones`.
pub open spec fn search_model(zones: Seq<(Seq<char>, Option<Seq<char>>)>) -> Seq<EntryView> {
    sort_by_key(zones.map_values(zone_entry()), city_key())
}

// ---------------------------------------------------------------------------
// Model of the queries
// ---------------------------------------------------------------------------

/// Minutes east of UTC of the `k`-th signed suggestion: every quarter hour
/// from -12:00 to +14:00, skipping zero.
pub open spec fn suggestion_minutes(k: int) -> int {
    if k < 48 {
        -720 + 15 * k
    } else {
        -720 + 15 * (k + 1)
    }
}

pub open spec fn minutes_label(minutes: int) -> Seq<char> {
    let a = if minutes < 0 {
        -minutes
    } else {
        minutes
    };
    offset_label(
        if minutes < 0 {
            '-'
        } else {
            '+'
        },
        (a / 60) as u8,
        (a % 60) as u8,
    )
}

/// `UTC`, then `UTC-12:00`, `UTC-11:45`, …, `UTC-00:15`, `UTC+00:15`, …,
/// `UTC+14:00`.
pub open spec fn offset_suggestions_model() -> Seq<Seq<char>> {
    seq![utc_text()] + Seq::new(104, |k: int| minutes_label(suggestion_minutes(k)))
}

/// The sorted IANA identifiers after the offset suggestions.
pub open spec fn combo_model(entries: Seq<EntryView>) -> Seq<Seq<char>> {
    offset_suggestions_model() + sort_by_key(entries.map_values(|e: EntryView| e.iana_id), text_key())
}

/// Some tag contains `q`.
pub open spec fn tag_hit(tags: Seq<Seq<char>>, q: Seq<char>) -> bool {
    exists|i: int| 0 <= i < tags.len() && contains_str(#[trigger] tags[i], q)
}

/// Some fuzzy tag contains `fq` or has it as a subsequence.
pub open spec fn fuzzy_hit(tags: Seq<Seq<char>>, fq: Seq<char>) -> bool {
    exists|i: int|
        0 <= i < tags.len() && (contains_str(#[trigger] tags[i], fq) || is_subseq(fq, tags[i]))
}

/// Whether an entry answers the (trimmed, lowercased) query `q`.
pub open spec fn entry_matches(e: EntryView, q: Seq<char>) -> bool {
    tag_hit(e.tags, q) || (compact_key(q).len() > 0 && fuzzy_hit(e.fuzzy_tags, compact_key(q)))
}

/// The query as it is matched: trimmed and lowercased.
pub open spec fn query_text(query: Seq<char>) -> Seq<char> {
    unicode_lowercase(trim(query))
}

pub open spec fn suggestion_pred(q: Seq<char>) -> spec_fn(Seq<char>) -> bool {
    |item: Seq<char>| starts_with(unicode_lowercase(item), q)
}

pub open spec fn entry_pred(q: Seq<char>) -> spec_fn(EntryView) -> bool {
    |e: EntryView| entry_matches(e, q)
}

pub open spec fn entry_id() -> spec_fn(EntryView) -> Seq<char> {
    |e: EntryView| e.iana_id
}

/// Drops each element equal to the one before it (`Vec::dedup`).
pub open spec fn dedup(s: Seq<Seq<char>>) -> Seq<Seq<char>>
    decreases s.len(),
{
    if s.len() <= 1 {
        s
    } else if s.last() == s[s.len() - 2] {
        dedup(s.drop_last())
    } else {
        dedup(s.drop_last()).push(s.last())
    }
}

pub open spec fn option_item(o: Option<Seq<char>>) -> Seq<Seq<char>> {
    match o {
        Some(x) => seq![x],
        None => Seq::empty(),
    }
}

/// What `completions_for` returns.
pub open spec fn completions_model(entries: Seq<EntryView>, query: Seq<char>) -> Seq<Seq<char>> {
    let q = query_text(query);
    if q.len() == 0 {
        combo_model(entries)
    } else {
        dedup(
            option_item(normalized_offset(q)) + offset_suggestions_model().filter(suggestion_pred(q))
                + entries.filter(entry_pred(q)).map_values(entry_id()),
        )
    }
}

/// The separator of a display label `City — Area/City`.
pub open spec fn label_separator() -> Seq<char> {
    seq![' ', '\u{2014}', ' ']
}

/// The IANA identifier of a display label, or the trimmed input itself.
pub open spec fn display_id(display: Seq<char>) -> Seq<char> {
    match find_str(display, label_separator()) {
        Some(i) => trim(display.skip(i + 3)),
        None => trim(display),
    }
}

// ---------------------------------------------------------------------------
// Keys
// ---------------------------------------------------------------------------

/// The city of an IANA identifier: its last segment, `_` read as a space.
pub fn extract_city(iana_id: &str) -> (r: String)
    ensures
        r@ == city_of(iana_id@),
{
    let s = chars_of(iana_id);
    let mut start: usize = s.len();
    assert(s@.take(s.len() as int) =~= s@);
    assert(s@.skip(s.len() as int) =~= Seq::<char>::empty());
    assert(s@ + Seq::<char>::empty() =~= s@);
    while start > 0 && s[start - 1] != '/'
        invariant
            start <= s.len(),
            after_last_slash(s@) == after_last_slash(s@.take(start as int)) + s@.skip(
                start as int,
            ),
        decreases start,
    {
        let ghost t = s@.take(start as int);
        assert(t.drop_last() =~= s@.take(start - 1));
        assert(t.last() == s@[start - 1]);
        assert(s@.skip(start - 1) =~= seq![s@[start - 1]] + s@.skip(start as int));
        assert(after_last_slash(t.drop_last()).push(t.last()) + s@.skip(start as int)
            =~= after_last_slash(s@.take(start - 1)) + s@.skip(start - 1));
        start = start - 1;
    }
    let ghost t = s@.take(start as int);
    assert(after_last_slash(t) =~= Seq::<char>::empty()) by {
        if start > 0 {
            assert(t.last() == s@[start - 1]);
        }
    }
    let mut out: Vec<char> = Vec::new();
    let mut i: usize = start;
    let ghost tail = s@.skip(start as int);
    assert(after_last_slash(s@) =~= tail);
    while i < s.len()
        invariant
            start <= i <= s.len(),
            tail == s@.skip(start as int),
            out@ == tail.take(i - start).map_values(|c: char| underscore_to_space(c)),
        decreases s.len() - i,
    {
        let c = s[i];
        out.push(if c == '_' {
            ' '
        } else {
            c
        });
        i = i + 1;
        assert(out@ =~= tail.take(i - start).map_values(|c: char| underscore_to_space(c)));
    }
    assert(tail.take(s.len() - start) =~= tail);
    string_of(&out)
}

/// The ASCII letters and digits of `value`, lowercased.
pub fn compact_match_key(value: &str) -> (r: String)
    ensures
        r@ == compact_key(value@),
{
    let s = chars_of(value);
    string_of(&compact_chars(&s))
}

fn compact_chars(s: &Vec<char>) -> (r: Vec<char>)
    ensures
        r@ == compact_key(s@),
{
    let mut out: Vec<char> = Vec::new();
    let mut i: usize = 0;
    while i < s.len()
        invariant
            i <= s.len(),
            out@ == compact_key(s@.take(i as int)),
        decreases s.len() - i,
    {
        let ghost t = s@.take(i + 1);
        assert(t.drop_last() =~= s@.take(i as int));
        if ascii_alnum(s[i]) {
            out.push(to_lower_char(s[i]));
        }
        i = i + 1;
    }
    assert(s@.take(s.len() as int) =~= s@);
    out
}

/// The lowercased first character of each word of `value`, when there are at
/// least two words.
pub fn initials_match_key(value: &str) -> (r: Option<String>)
    ensures
        match r {
            Some(k) => initials_key(value@) == Some(k@),
            None => initials_key(value@) is None,
        },
{
    let s = chars_of(value);
    let mut out: Vec<char> = Vec::new();
    let mut i: usize = 0;
    while i < s.len()
        invariant
            i <= s.len(),
            out@ == initials(s@.take(i as int)),
        decreases s.len() - i,
    {
        let ghost t = s@.take(i + 1);
        assert(t.drop_last() =~= s@.take(i as int));
        assert(t.last() == s@[i as int]);
        assert(i > 0 ==> t[i - 1] == s@[i - 1]);
        if ascii_alnum(s[i]) && (i == 0 || !ascii_alnum(s[i - 1])) {
            out.push(to_lower_char(s[i]));
        }
        i = i + 1;
    }
    assert(s@.take(s.len() as int) =~= s@);
    if out.len() > 1 {
        Some(string_of(&out))
    } else {
        None
    }
}

/// `needle` can be read in `haystack` by skipping characters.
pub fn is_subsequence(needle: &str, haystack: &str) -> (r: bool)
    ensures
        r == is_subseq(needle@, haystack@),
{
    subsequence(&chars_of(needle), &chars_of(haystack))
}

/// Every character of `abbreviation` is an ASCII letter.
pub fn is_alpha_abbreviation(abbreviation: &str) -> (r: bool)
    ensures
        r == is_alpha_text(abbreviation@),
{
    let s = chars_of(abbreviation);
    let mut i: usize = 0;
    while i < s.len()
        invariant
            i <= s.len(),
            s@ == abbreviation@,
            forall|k: int| 0 <= k < i ==> is_ascii_alpha(s@[k]),
        decreases s.len() - i,
    {
        if !ascii_alpha(s[i]) {
            assert(abbreviation@[i as int] == s@[i as int]);
            assert(!is_ascii_alpha(abbreviation@[i as int]));
            return false;
        }
        i = i + 1;
    }
    true
}

/// Whether `p` is one of the stems of `is_family_stem`.
fn family_stem(p: &Vec<char>) -> (r: bool)
    ensures
        r == is_family_stem(p@),
{
    if p.len() == 1 {
        let c = p[0];
        let r = c == 'a' || c == 'b' || c == 'c' || c == 'e' || c == 'g' || c == 'h' || c == 'i'
            || c == 'j' || c == 'm' || c == 'n' || c == 'p' || c == 'w';
        assert(p@ =~= seq![c]);
        r
    } else if p.len() == 2 {
        let c = p[0];
        let d = p[1];
        let r = (c == 'a' && (d == 'c' || d == 'e')) || (d == 'e' && (c == 'c' || c == 'e' || c
            == 'w'));
        assert(p@ =~= seq![c, d]);
        r
    } else {
        false
    }
}

/// The family abbreviation (`et`, `pt`, …) of a lowercase standard or
/// daylight abbreviation (`est`, `pdt`, …).
pub fn abbreviation_family(abbreviation: &str) -> (r: Option<String>)
    ensures
        match r {
            Some(f) => abbreviation_family_of(abbreviation@) == Some(f@),
            None => abbreviation_family_of(abbreviation@) is None,
        },
{
    let s = chars_of(abbreviation);
    let n = s.len();
    if n < 2 || s[n - 1] != 't' || (s[n - 2] != 's' && s[n - 2] != 'd') {
        return None;
    }
    let mut stem: Vec<char> = Vec::new();
    let mut i: usize = 0;
    while i < n - 2
        invariant
            n == s.len(),
            n >= 2,
            i <= n - 2,
            stem@ == s@.take(i as int),
        decreases n - 2 - i,
    {
        stem.push(s[i]);
        i = i + 1;
        assert(stem@ =~= s@.take(i as int));
    }
    if !family_stem(&stem) {
        return None;
    }
    stem.push('t');
    Some(string_of(&stem))
}

/// `UTC` followed by every signed quarter-hour offset from `UTC-12:00` to
/// `UTC+14:00`.
pub fn offset_suggestions() -> (r: Vec<String>)
    ensures
        r.deep_view() == offset_suggestions_model(),
{
    let mut out: Vec<String> = Vec::new();
    let utc: Vec<char> = vec!['U', 'T', 'C'];
    assert(utc@ =~= utc_text());
    out.push(string_of(&utc));
    let mut k: usize = 0;
    while k < 104
        invariant
            k <= 104,
            out.deep_view() == seq![utc_text()] + Seq::new(
                k as nat,
                |j: int| minutes_label(suggestion_minutes(j)),
            ),
        decreases 104 - k,
    {
        let minutes: i32 = if k < 48 {
            -720 + 15 * (k as i32)
        } else {
            -720 + 15 * (k as i32 + 1)
        };
        assert(minutes == suggestion_minutes(k as int));
        let label = minutes_text(minutes);
        let ghost before = out.deep_view();
        out.push(label);
        assert(out.deep_view() =~= before.push(minutes_label(suggestion_minutes(k as int))));
        k = k + 1;
        assert(out.deep_view() =~= seq![utc_text()] + Seq::new(
            k as nat,
            |j: int| minutes_label(suggestion_minutes(j)),
        ));
    }
    out
}

/// `format!("UTC{sign}{:02}:{:02}", |minutes| / 60, |minutes| % 60)`.
fn minutes_text(minutes: i32) -> (r: String)
    requires
        -720 <= minutes <= 840,
    ensures
        r@ == minutes_label(minutes as int),
{
    let a: i32 = if minutes < 0 {
        -minutes
    } else {
        minutes
    };
    let sign = if minutes < 0 {
        '-'
    } else {
        '+'
    };
    let h = (a / 60) as u8;
    let m = (a % 60) as u8;
    let mut out: Vec<char> = vec!['U', 'T', 'C', sign];
    push_two_digits(&mut out, h);
    out.push(':');
    push_two_digits(&mut out, m);
    assert(out@ =~= minutes_label(minutes as int));
    string_of(&out)
}

/// The IANA identifier of a display label like `Tokyo — Asia/Tokyo`, or the
/// trimmed input when it is not such a label.
pub fn iana_id_from_display<'a>(display: &'a str) -> (r: &'a str)
    ensures
        r@ == display_id(display@),
{
    let d = chars_of(display);
    let sep: Vec<char> = vec![' ', '\u{2014}', ' '];
    assert(sep@ =~= label_separator());
    match find_chars(&d, &sep) {
        Some(i) => {
            assert(occurs_at(d@, sep@, i as int));
            assert(sep@.len() == 3);
            let n = d.len();
            assert(i + 3 <= n);
            let start = i + 3;
            let rest = display.substring_char(start, n);
            assert(rest@ =~= display@.skip(i + 3));
            trim_str(rest)
        },
        None => trim_str(display),
    }
}

// ---------------------------------------------------------------------------
// Entries and the index
// ---------------------------------------------------------------------------

/// One searchable time zone.
pub struct TimezoneSearchEntry {
    pub iana_id: String,
    pub city: String,
    tags: Vec<String>,
    fuzzy_tags: Vec<String>,
}

impl View for TimezoneSearchEntry {
    type V = EntryView;

    closed spec fn view(&self) -> EntryView {
        EntryView {
            iana_id: self.iana_id@,
            city: self.city@,
            tags: self.tags.deep_view(),
            fuzzy_tags: self.fuzzy_tags.deep_view(),
        }
    }
}

impl TimezoneSearchEntry {
    /// Whether this entry answers the (trimmed, lowercased) query: a tag
    /// contains it, or a fuzzy tag contains or spells out its compact key.
    pub fn matches_query(&self, query: &str) -> (r: bool)
        ensures
            r == entry_matches(self@, query@),
    {
        let q = chars_of(query);
        let fq = compact_chars(&q);
        let mut i: usize = 0;
        while i < self.tags.len()
            invariant
                i <= self.tags.len(),
                q@ == query@,
                forall|k: int| 0 <= k < i ==> !contains_str(#[trigger] self.tags.deep_view()[k], q@),
            decreases self.tags.len() - i,
        {
            let tag = chars_of(self.tags[i].as_str());
            if contains_chars(&tag, &q) {
                assert(self.tags.deep_view()[i as int] == tag@);
                return true;
            }
            assert(self.tags.deep_view()[i as int] == tag@);
            i = i + 1;
        }
        assert(!tag_hit(self@.tags, query@));
        if fq.len() == 0 {
            return false;
        }
        let mut j: usize = 0;
        while j < self.fuzzy_tags.len()
            invariant
                j <= self.fuzzy_tags.len(),
                fq@ == compact_key(query@),
                fq.len() > 0,
                !tag_hit(self@.tags, query@),
                forall|k: int|
                    0 <= k < j ==> !(contains_str(#[trigger] self.fuzzy_tags.deep_view()[k], fq@)
                        || is_subseq(fq@, self.fuzzy_tags.deep_view()[k])),
            decreases self.fuzzy_tags.len() - j,
        {
            let tag = chars_of(self.fuzzy_tags[j].as_str());
            assert(self.fuzzy_tags.deep_view()[j as int] == tag@);
            if contains_chars(&tag, &fq) || subsequence(&fq, &tag) {
                assert(self@.fuzzy_tags[j as int] == tag@);
                assert(fuzzy_hit(self@.fuzzy_tags, fq@));
                return true;
            }
            j = j + 1;
        }
        false
    }
}

/// The search index over the time zone database.
pub struct TimezoneSearch {
    entries: Vec<TimezoneSearchEntry>,
}

impl View for TimezoneSearch {
    type V = Seq<EntryView>;

    closed spec fn view(&self) -> Seq<EntryView> {
        self.entries@.map_values(|e: TimezoneSearchEntry| e@)
    }
}

/// The entry for zone `name`, with its current abbreviation when the zone
/// could be loaded.
fn build_entry(name: &String, abbreviation: &Option<String>) -> (r: TimezoneSearchEntry)
    ensures
        r@ == entry_model(name@, abbreviation.deep_view()),
{
    let city = extract_city(name.as_str());
    let mut tags: Vec<String> = Vec::new();
    tags.push(to_lowercase(name.as_str()));
    tags.push(to_lowercase(city.as_str()));
    let mut fuzzy_tags: Vec<String> = Vec::new();
    fuzzy_tags.push(compact_match_key(name.as_str()));
    fuzzy_tags.push(compact_match_key(city.as_str()));
    match initials_match_key(city.as_str()) {
        Some(k) => fuzzy_tags.push(k),
        None => {},
    }
    let ghost base = tags.deep_view();
    match abbreviation {
        Some(a) => {
            let lowered = to_lowercase(a.as_str());
            tags.push(lowered.clone());
            if is_alpha_abbreviation(lowered.as_str()) {
                match abbreviation_family(lowered.as_str()) {
                    Some(f) => tags.push(f),
                    None => {},
                }
            }
            assert(tags.deep_view() =~= base + abbreviation_tags(a@));
        },
        None => {
            assert(tags.deep_view() =~= base + Seq::<Seq<char>>::empty());
        },
    }
    let entry = TimezoneSearchEntry { iana_id: name.clone(), city, tags, fuzzy_tags };
    assert(entry@.fuzzy_tags =~= entry_model(name@, abbreviation.deep_view()).fuzzy_tags);
    assert(entry@.tags =~= entry_model(name@, abbreviation.deep_view()).tags);
    entry
}

impl TimezoneSearch {
    /// Builds the index from the zones of the time zone database, each with
    /// its current abbreviation when the zone loads. What the database holds
    /// is not known here; the index is `search_model` of whatever it returned.
    pub fn new() -> (r: Self)
        ensures
            exists|zones: Seq<(Seq<char>, Option<Seq<char>>)>| r@ == search_model(zones),
    {
        let now = match timestamp_from_system_time(system_time_now()) {
            Ok(ts) => Some(ts),
            Err(_) => None,
        };
        let names = available_zone_names(zone_database());
        Self::from_zone_names(&names, now)
    }

    /// Builds the index from zone names, in their order, each with its
    /// abbreviation at `now` when there is a time and the zone loads.
    pub fn from_zone_names(names: &Vec<String>, now: Option<jiff::Timestamp>) -> (r: Self)
        ensures
            exists|zones: Seq<(Seq<char>, Option<Seq<char>>)>|
                r@ == search_model(zones) && zones.map_values(
                    |z: (Seq<char>, Option<Seq<char>>)| z.0,
                ) == names.deep_view(),
    {
        let mut zones: Vec<(String, Option<String>)> = Vec::new();
        let mut i: usize = 0;
        while i < names.len()
            invariant
                i <= names.len(),
                zones.len() == i,
                forall|j: int| 0 <= j < i ==> (#[trigger] zones@[j]).0@ == names@[j]@,
            decreases names.len() - i,
        {
            let name = names[i].clone();
            let abbreviation = match now {
                Some(ts) => match lookup_zone(name.as_str()) {
                    Ok(zone) => Some(offset_abbreviation(&zone_offset_info(&zone, ts))),
                    Err(_) => None,
                },
                None => None,
            };
            zones.push((name, abbreviation));
            i = i + 1;
        }
        let ghost z = zones.deep_view();
        assert(z.map_values(|p: (Seq<char>, Option<Seq<char>>)| p.0) =~= names.deep_view());
        Self::from_zones(zones)
    }

    /// Builds the index from `(name, abbreviation)` pairs: one entry per zone,
    /// sorted by city, zones of one city in their given order.
    pub fn from_zones(zones: Vec<(String, Option<String>)>) -> (r: Self)
        ensures
            r@ == search_model(zones.deep_view()),
    {
        let ghost models = zones.deep_view().map_values(zone_entry());
        let mut entries: Vec<TimezoneSearchEntry> = Vec::new();
        let mut keys: Vec<Vec<char>> = Vec::new();
        let mut i: usize = 0;
        assert(models.take(0) =~= Seq::<EntryView>::empty());
        assert(entries@.map_values(|e: TimezoneSearchEntry| e@) =~= Seq::<EntryView>::empty());
        while i < zones.len()
            invariant
                i <= zones.len(),
                models == zones.deep_view().map_values(zone_entry()),
                entries@.len() == keys@.len(),
                forall|k: int| 0 <= k < keys@.len() ==> (#[trigger] keys@[k])@ == entries@[k]@.city,
                entries@.map_values(|e: TimezoneSearchEntry| e@) == sort_by_key(
                    models.take(i as int),
                    city_key(),
                ),
            decreases zones.len() - i,
        {
            let entry = build_entry(&zones[i].0, &zones[i].1);
            assert(models[i as int] == entry@);
            let key = chars_of(entry.city.as_str());
            let ghost view = entries@.map_values(|e: TimezoneSearchEntry| e@);
            let mut j: usize = entries.len();
            while j > 0 && !text_le_exec(&keys[j - 1], &key)
                invariant
                    j <= entries@.len(),
                    entries@.len() == keys@.len(),
                    view == entries@.map_values(|e: TimezoneSearchEntry| e@),
                    key@ == entry@.city,
                    forall|k: int| 0 <= k < keys@.len() ==> (#[trigger] keys@[k])@ == entries@[k]@.city,
                    forall|k: int| j <= k < view.len() ==> !text_le((#[trigger] view[k]).city, key@),
                decreases j,
            {
                assert(view[j - 1] == entries@[j - 1]@);
                j = j - 1;
            }
            proof {
                if j > 0 {
                    assert(view[j - 1] == entries@[j - 1]@);
                }
                lemma_insert_at(view, entry@, city_key(), j as int);
                assert(models.take(i + 1).drop_last() =~= models.take(i as int));
                assert(models.take(i + 1).last() == entry@);
            }
            let ghost entry_view = entry@;
            let ghost old_keys = keys@;
            entries.insert(j, entry);
            keys.insert(j, key);
            proof {
                assert(entries@.map_values(|e: TimezoneSearchEntry| e@) =~= view.insert(
                    j as int,
                    entry_view,
                ));
                assert forall|k: int| 0 <= k < keys@.len() implies (#[trigger] keys@[k])@
                    == entries@[k]@.city by {
                    if k < j {
                    } else if k == j {
                    } else {
                        assert(keys@[k] == old_keys[k - 1]);
                    }
                }
            }
            i = i + 1;
        }
        assert(models.take(zones.len() as int) =~= models);
        TimezoneSearch { entries }
    }

    /// The combo box items: the offset suggestions, then every IANA
    /// identifier in sorted order. City and abbreviation aliases stay
    /// searchable through `completions_for`.
    pub fn combo_items(&self) -> (r: Vec<String>)
        ensures
            r.deep_view() == combo_model(self@),
    {
        let mut items = offset_suggestions();
        let ghost all_ids = self@.map_values(|e: EntryView| e.iana_id);
        let mut ids: Vec<String> = Vec::new();
        let mut keys: Vec<Vec<char>> = Vec::new();
        let mut i: usize = 0;
        assert(all_ids.take(0) =~= Seq::<Seq<char>>::empty());
        assert(ids.deep_view() =~= Seq::<Seq<char>>::empty());
        while i < self.entries.len()
            invariant
                i <= self.entries.len(),
                all_ids == self@.map_values(|e: EntryView| e.iana_id),
                self@.len() == self.entries@.len(),
                ids@.len() == keys@.len(),
                forall|k: int| 0 <= k < keys@.len() ==> (#[trigger] keys@[k])@ == ids@[k]@,
                ids.deep_view() == sort_by_key(all_ids.take(i as int), text_key()),
            decreases self.entries.len() - i,
        {
            let id = self.entries[i].iana_id.clone();
            assert(all_ids[i as int] == id@) by {
                assert(self@[i as int] == self.entries@[i as int]@);
            }
            let key = chars_of(id.as_str());
            let ghost view = ids.deep_view();
            let mut j: usize = ids.len();
            while j > 0 && !text_le_exec(&keys[j - 1], &key)
                invariant
                    j <= ids@.len(),
                    ids@.len() == keys@.len(),
                    view == ids.deep_view(),
                    key@ == id@,
                    forall|k: int| 0 <= k < keys@.len() ==> (#[trigger] keys@[k])@ == ids@[k]@,
                    forall|k: int| j <= k < view.len() ==> !text_le(#[trigger] view[k], key@),
                decreases j,
            {
                j = j - 1;
            }
            proof {
                lemma_insert_at(view, id@, text_key(), j as int);
                assert(all_ids.take(i + 1).drop_last() =~= all_ids.take(i as int));
            }
            let ghost id_view = id@;
            let ghost old_keys = keys@;
            ids.insert(j, id);
            keys.insert(j, key);
            proof {
                assert(ids.deep_view() =~= view.insert(j as int, id_view));
                assert forall|k: int| 0 <= k < keys@.len() implies (#[trigger] keys@[k])@
                    == ids@[k]@ by {
                    if k > j {
                        assert(keys@[k] == old_keys[k - 1]);
                    }
                }
            }
            i = i + 1;
        }
        assert(all_ids.take(self.entries.len() as int) =~= all_ids);
        let ghost front = items.deep_view();
        let mut k: usize = 0;
        while k < ids.len()
            invariant
                k <= ids.len(),
                items.deep_view() == front + ids.deep_view().take(k as int),
            decreases ids.len() - k,
        {
            let ghost before = items.deep_view();
            items.push(ids[k].clone());
            assert(items.deep_view() =~= before.push(ids@[k as int]@));
            assert(ids.deep_view().take(k + 1) =~= ids.deep_view().take(k as int).push(ids@[k as int]@));
            k = k + 1;
            assert(items.deep_view() =~= front + ids.deep_view().take(k as int));
        }
        assert(ids.deep_view().take(ids.len() as int) =~= ids.deep_view());
        items
    }

    /// Completions for what the user typed. A blank query gives the combo
    /// items; otherwise the normalised offset (when the query is one), the
    /// offset suggestions it prefixes, and the IANA identifiers of matching
    /// entries, with consecutive repeats dropped.
    pub fn completions_for(&self, query: &str) -> (r: Vec<String>)
        requires
            !normalize_panics(query_text(query@)),
        ensures
            r.deep_view() == completions_model(self@, query@),
            trim(query@).len() == 0 ==> r.deep_view() == combo_model(self@),
            query_text(query@).len() > 0 ==> forall|k: int|
                0 <= k < offset_suggestions_model().len() && starts_with(
                    unicode_lowercase(#[trigger] offset_suggestions_model()[k]),
                    query_text(query@),
                ) ==> r.deep_view().contains(offset_suggestions_model()[k]),
    {
        let q = to_lowercase(trim_str(query));
        if q.as_str().unicode_len() == 0 {
            return self.combo_items();
        }
        let mut items: Vec<String> = Vec::new();
        match normalize_offset_id(q.as_str()) {
            Some(offset) => items.push(offset),
            None => {},
        }
        assert(items.deep_view() =~= option_item(normalized_offset(q@)));
        let ghost head = items.deep_view();
        let qchars = chars_of(q.as_str());
        let suggestions = offset_suggestions();
        let ghost all = suggestions.deep_view();
        let mut i: usize = 0;
        assert(all.take(0) =~= Seq::<Seq<char>>::empty());
        assert(items.deep_view() =~= head + all.take(0).filter(suggestion_pred(q@))) by {
            reveal_with_fuel(Seq::<_>::filter, 1);
        }
        while i < suggestions.len()
            invariant
                i <= suggestions.len(),
                all == suggestions.deep_view(),
                qchars@ == q@,
                items.deep_view() == head + all.take(i as int).filter(suggestion_pred(q@)),
            decreases suggestions.len() - i,
        {
            let lowered = chars_of(to_lowercase(suggestions[i].as_str()).as_str());
            let ghost before = items.deep_view();
            assert(all.take(i + 1).drop_last() =~= all.take(i as int));
            assert(all.take(i + 1).last() == suggestions[i as int]@);
            if starts_with_chars(&lowered, &qchars) {
                items.push(suggestions[i].clone());
                proof {
                    reveal_with_fuel(Seq::<_>::filter, 1);
                    assert(items.deep_view() =~= before.push(suggestions[i as int]@));
                }
            } else {
                proof {
                    reveal_with_fuel(Seq::<_>::filter, 1);
                }
            }
            i = i + 1;
        }
        assert(all.take(suggestions.len() as int) =~= all);
        let ghost middle = items.deep_view();
        let ghost entries = self@;
        let mut e: usize = 0;
        assert(entries.take(0) =~= Seq::<EntryView>::empty());
        assert(items.deep_view() =~= middle + entries.take(0).filter(entry_pred(q@)).map_values(
            entry_id(),
        )) by {
            reveal_with_fuel(Seq::<_>::filter, 1);
        }
        while e < self.entries.len()
            invariant
                e <= self.entries.len(),
                entries == self@,
                entries.len() == self.entries@.len(),
                items.deep_view() == middle + entries.take(e as int).filter(entry_pred(q@)).map_values(
                    entry_id(),
                ),
            decreases self.entries.len() - e,
        {
            let ghost before = items.deep_view();
            assert(entries.take(e + 1).drop_last() =~= entries.take(e as int));
            assert(entries[e as int] == self.entries@[e as int]@);
            assert(entries.take(e + 1).last() == self.entries@[e as int]@);
            let hit = self.entries[e].matches_query(q.as_str());
            proof {
                reveal_with_fuel(Seq::<_>::filter, 1);
            }
            if hit {
                items.push(self.entries[e].iana_id.clone());
                proof {
                    let f = entries.take(e + 1).filter(entry_pred(q@));
                    let g = entries.take(e as int).filter(entry_pred(q@));
                    assert(f == g.push(entries[e as int]));
                    assert(f.map_values(entry_id()) =~= g.map_values(entry_id()).push(
                        self.entries@[e as int].iana_id@,
                    ));
                    assert(items.deep_view() =~= before.push(self.entries@[e as int].iana_id@));
                }
            }
            e = e + 1;
        }
        assert(entries.take(self.entries.len() as int) =~= entries);
        let r = dedup_strings(&items);
        proof {
            assert forall|k: int|
                0 <= k < offset_suggestions_model().len() && starts_with(
                    unicode_lowercase(#[trigger] offset_suggestions_model()[k]),
                    query_text(query@),
                ) implies r.deep_view().contains(offset_suggestions_model()[k]) by {
                lemma_prefixed_suggestions_offered(self@, query@, k);
            }
        }
        r
    }

    /// `completions_for`, or nothing for a query on which normalising the
    /// offset would panic (see `normalize_panics`).
    pub fn checked_completions_for(&self, query: &str) -> (r: Option<Vec<String>>)
        ensures
            r is None <==> normalize_panics(query_text(query@)),
            r matches Some(items) ==> items.deep_view() == completions_model(self@, query@),
            trim(query@).len() == 0 ==> (r matches Some(items) && items.deep_view() == combo_model(
                self@,
            )),
    {
        let q = to_lowercase(trim_str(query));
        if normalize_offset_panics(q.as_str()) {
            None
        } else {
            Some(self.completions_for(query))
        }
    }
}

proof fn lemma_dedup_last(s: Seq<Seq<char>>)
    requires
        s.len() > 0,
    ensures
        dedup(s).len() > 0,
        dedup(s).last() == s.last(),
    decreases s.len(),
{
    if s.len() > 1 && s.last() == s[s.len() - 2] {
        lemma_dedup_last(s.drop_last());
    }
}

/// `Vec::dedup`: drops each string equal to the one before it.
fn dedup_strings(items: &Vec<String>) -> (r: Vec<String>)
    ensures
        r.deep_view() == dedup(items.deep_view()),
{
    let ghost s = items.deep_view();
    let mut out: Vec<String> = Vec::new();
    let mut i: usize = 0;
    assert(s.take(0) =~= Seq::<Seq<char>>::empty());
    while i < items.len()
        invariant
            i <= items.len(),
            s == items.deep_view(),
            out.deep_view() == dedup(s.take(i as int)),
            i > 0 ==> out@.len() > 0 && out@[out@.len() - 1]@ == s[i - 1],
        decreases items.len() - i,
    {
        let ghost t = s.take(i + 1);
        assert(t.drop_last() =~= s.take(i as int));
        assert(t.last() == items@[i as int]@);
        if i > 0 {
            assert(t[t.len() - 2] == s[i - 1]);
        }
        let keep = if i == 0 {
            true
        } else {
            let last = out.len() - 1;
            !(out[last] == items[i])
        };
        if keep {
            let ghost before = out.deep_view();
            out.push(items[i].clone());
            assert(out.deep_view() =~= before.push(items@[i as int]@));
        }
        proof {
            lemma_dedup_last(t);
        }
        i = i + 1;
    }
    assert(s.take(items.len() as int) =~= s);
    out
}

// ---------------------------------------------------------------------------
// Laws
// ---------------------------------------------------------------------------

/// Every offset suggestion is already a normalised identifier: it normalises
/// to itself, so picking it resolves to that fixed offset.
pub proof fn lemma_offset_suggestions_are_normalized(k: int)
    requires
        0 <= k < offset_suggestions_model().len(),
    ensures
        normalized_offset(offset_suggestions_model()[k]) == Some(offset_suggestions_model()[k]),
        !normalize_panics(offset_suggestions_model()[k]),
{
    if k == 0 {
        lemma_utc_normalizes_to_itself();
    } else {
        let minutes = suggestion_minutes(k - 1);
        assert(-720 <= minutes <= 840);
        let a = if minutes < 0 {
            -minutes
        } else {
            minutes
        };
        assert(a / 60 <= 14 && a % 60 < 60);
        lemma_offset_label_normalizes_to_itself(
            if minutes < 0 {
                '-'
            } else {
                '+'
            },
            (a / 60) as u8,
            (a % 60) as u8,
        );
    }
}

proof fn lemma_dedup_no_adjacent(s: Seq<Seq<char>>)
    ensures
        forall|i: int| 0 < i < dedup(s).len() ==> #[trigger] dedup(s)[i] != dedup(s)[i - 1],
    decreases s.len(),
{
    if s.len() > 1 {
        let t = s.drop_last();
        lemma_dedup_no_adjacent(t);
        if s.last() != s[s.len() - 2] {
            lemma_dedup_last(t);
            assert(t.last() == s[s.len() - 2]);
            let d = dedup(t);
            assert forall|i: int| 0 < i < dedup(s).len() implies #[trigger] dedup(s)[i] != dedup(s)[i - 1] by {
                if i == d.len() {
                    assert(dedup(s)[i - 1] == d.last());
                } else {
                    assert(dedup(s)[i] == d[i]);
                    assert(dedup(s)[i - 1] == d[i - 1]);
                }
            }
        }
    }
}

proof fn lemma_dedup_subset(s: Seq<Seq<char>>)
    ensures
        forall|i: int| 0 <= i < dedup(s).len() ==> s.contains(#[trigger] dedup(s)[i]),
    decreases s.len(),
{
    if s.len() > 1 {
        let t = s.drop_last();
        lemma_dedup_subset(t);
        assert forall|i: int| 0 <= i < dedup(s).len() implies s.contains(#[trigger] dedup(s)[i]) by {
            if i < dedup(t).len() {
                assert(dedup(s)[i] == dedup(t)[i]);
                let j = choose|j: int| 0 <= j < t.len() && t[j] == dedup(t)[i];
                assert(s[j] == t[j]);
            } else {
                assert(dedup(s)[i] == s.last());
                assert(s[s.len() - 1] == s.last());
            }
        }
    } else {
        assert forall|i: int| 0 <= i < dedup(s).len() implies s.contains(#[trigger] dedup(s)[i]) by {
            assert(s[i] == dedup(s)[i]);
        }
    }
}

/// For a query that is not blank, no completion repeats the one before it.
pub proof fn lemma_completions_no_adjacent_repeats(entries: Seq<EntryView>, query: Seq<char>)
    requires
        query_text(query).len() > 0,
    ensures
        forall|i: int|
            0 < i < completions_model(entries, query).len() ==> #[trigger] completions_model(
                entries,
                query,
            )[i] != completions_model(entries, query)[i - 1],
{
    let q = query_text(query);
    lemma_dedup_no_adjacent(
        option_item(normalized_offset(q)) + offset_suggestions_model().filter(suggestion_pred(q))
            + entries.filter(entry_pred(q)).map_values(entry_id()),
    );
}

/// For a query that is not blank, every completion is the query normalised
/// as an offset, an offset suggestion that starts with the query (ignoring
/// case), or the IANA identifier of an entry that matches the query.
pub proof fn lemma_completions_come_from_matches(entries: Seq<EntryView>, query: Seq<char>, i: int)
    requires
        query_text(query).len() > 0,
        0 <= i < completions_model(entries, query).len(),
    ensures
        ({
            let q = query_text(query);
            let x = completions_model(entries, query)[i];
            ||| normalized_offset(q) == Some(x)
            ||| offset_suggestions_model().contains(x) && starts_with(unicode_lowercase(x), q)
            ||| exists|k: int|
                0 <= k < entries.len() && entry_matches(#[trigger] entries[k], q) && entries[k].iana_id
                    == x
        }),
{
    let q = query_text(query);
    let a = option_item(normalized_offset(q));
    let b = offset_suggestions_model().filter(suggestion_pred(q));
    let c = entries.filter(entry_pred(q)).map_values(entry_id());
    let all = a + b + c;
    lemma_dedup_subset(all);
    let x = completions_model(entries, query)[i];
    assert(all.contains(x));
    let j = choose|j: int| 0 <= j < all.len() && all[j] == x;
    if j < a.len() {
        assert(a[j] == x);
    } else if j < a.len() + b.len() {
        let jb = j - a.len();
        assert(b[jb] == x);
        offset_suggestions_model().lemma_filter_pred(suggestion_pred(q), jb);
        assert(b.contains(x));
        offset_suggestions_model().lemma_filter_contains_rev(suggestion_pred(q), x);
    } else {
        let jc = j - a.len() - b.len();
        let f = entries.filter(entry_pred(q));
        assert(c[jc] == f[jc].iana_id);
        entries.lemma_filter_pred(entry_pred(q), jc);
        assert(f.contains(f[jc]));
        entries.lemma_filter_contains_rev(entry_pred(q), f[jc]);
        let k = choose|k: int| 0 <= k < entries.len() && entries[k] == f[jc];
        assert(entry_matches(entries[k], q) && entries[k].iana_id == x);
    }
}

/// The identifiers after the offset suggestions in the combo items are the
/// entries' identifiers, each as often as it occurs, in sorted order.
pub proof fn lemma_combo_ids_sorted(entries: Seq<EntryView>)
    ensures
        ({
            let ids = combo_model(entries).skip(offset_suggestions_model().len() as int);
            &&& combo_model(entries).take(offset_suggestions_model().len() as int)
                == offset_suggestions_model()
            &&& sorted_by_key(ids, text_key())
            &&& ids.to_multiset() == entries.map_values(|e: EntryView| e.iana_id).to_multiset()
        }),
{
    let all = entries.map_values(|e: EntryView| e.iana_id);
    lemma_sort_by_key_sorted_permutation(all, text_key());
    let n = offset_suggestions_model().len() as int;
    assert(combo_model(entries).skip(n) =~= sort_by_key(all, text_key()));
    assert(combo_model(entries).take(n) =~= offset_suggestions_model());
}

/// The index lists its entries by city, holds exactly one entry per zone it
/// was built from, and lists the zones of any one city in their given order.
pub proof fn lemma_search_model_sorted(zones: Seq<(Seq<char>, Option<Seq<char>>)>, city: Seq<char>)
    ensures
        sorted_by_key(search_model(zones), city_key()),
        search_model(zones).to_multiset() == zones.map_values(zone_entry()).to_multiset(),
        search_model(zones).filter(with_key(city_key(), city)) == zones.map_values(
            zone_entry(),
        ).filter(with_key(city_key(), city)),
{
    lemma_sort_by_key_sorted_permutation(zones.map_values(zone_entry()), city_key());
    lemma_sort_by_key_stable(zones.map_values(zone_entry()), city_key(), city);
}

/// A display label `City — Id` gives back `Id`, when the city holds no em
/// dash and `Id` has no surrounding whitespace.
pub proof fn lemma_display_label_gives_id(city: Seq<char>, id: Seq<char>)
    requires
        forall|i: int| 0 <= i < city.len() ==> city[i] != '\u{2014}',
        trim(id) == id,
    ensures
        display_id(city + label_separator() + id) == id,
{
    let d = city + label_separator() + id;
    let n = city.len() as int;
    assert(d.subrange(n, n + 3) =~= label_separator());
    assert(occurs_at(d, label_separator(), n));
    assert forall|j: int| 0 <= j < n implies !occurs_at(d, label_separator(), j) by {
        if occurs_at(d, label_separator(), j) {
            assert(d.subrange(j, j + 3)[1] == '\u{2014}');
            assert(d[j + 1] == '\u{2014}');
            if j + 1 < n {
                assert(d[j + 1] == city[j + 1]);
            } else {
                assert(d[j + 1] == ' ');
            }
        }
    }
    reveal(find_str);
    let c = choose|k: int|
        occurs_at(d, label_separator(), k) && forall|j: int| 0 <= j < k ==> !occurs_at(d, label_separator(), j);
    assert(occurs_at(d, label_separator(), c) && forall|j: int| 0 <= j < c ==> !occurs_at(d, label_separator(), j));
    assert(c == n) by {
        if c > n {
            assert(!occurs_at(d, label_separator(), n));
        }
    }
    assert(d.skip(n + 3) =~= id);
}

/// A bare identifier, without the label separator and without surrounding
/// whitespace, comes back unchanged.
pub proof fn lemma_plain_id_unchanged(id: Seq<char>)
    requires
        !contains_str(id, label_separator()),
        trim(id) == id,
    ensures
        display_id(id) == id,
{
    reveal(find_str);
}

proof fn lemma_dedup_keeps_members(s: Seq<Seq<char>>, x: Seq<char>)
    requires
        s.contains(x),
    ensures
        dedup(s).contains(x),
    decreases s.len(),
{
    if s.len() > 1 {
        let t = s.drop_last();
        if s.last() == x {
            if s.last() == s[s.len() - 2] {
                assert(t[t.len() - 1] == x);
                lemma_dedup_keeps_members(t, x);
            } else {
                assert(dedup(s)[dedup(s).len() - 1] == x);
            }
        } else {
            let j = choose|j: int| 0 <= j < s.len() && s[j] == x;
            assert(t[j] == x);
            lemma_dedup_keeps_members(t, x);
            let w = choose|w: int| 0 <= w < dedup(t).len() && dedup(t)[w] == x;
            assert(dedup(s)[w] == x);
        }
    }
}

proof fn lemma_dedup_first(s: Seq<Seq<char>>)
    requires
        s.len() > 0,
    ensures
        dedup(s).len() > 0,
        dedup(s)[0] == s[0],
    decreases s.len(),
{
    if s.len() > 1 {
        lemma_dedup_first(s.drop_last());
    }
}

/// For a query that is not blank, the identifier of every entry matching it
/// is offered, and an offset query is offered first in normalised form.
pub proof fn lemma_matches_are_offered(entries: Seq<EntryView>, query: Seq<char>, k: int)
    requires
        query_text(query).len() > 0,
        0 <= k < entries.len(),
    ensures
        entry_matches(entries[k], query_text(query)) ==> completions_model(entries, query).contains(
            entries[k].iana_id,
        ),
        normalized_offset(query_text(query)) matches Some(n) ==> completions_model(entries, query)[0]
            == n,
{
    let q = query_text(query);
    let a = option_item(normalized_offset(q));
    let b = offset_suggestions_model().filter(suggestion_pred(q));
    let f = entries.filter(entry_pred(q));
    let c = f.map_values(entry_id());
    let all = a + b + c;
    if entry_matches(entries[k], q) {
        entries.lemma_filter_contains(entry_pred(q), k);
        let j = choose|j: int| 0 <= j < f.len() && f[j] == entries[k];
        assert(c[j] == entries[k].iana_id);
        assert(all[a.len() + b.len() + j] == entries[k].iana_id);
        lemma_dedup_keeps_members(all, entries[k].iana_id);
    }
    if normalized_offset(q) is Some {
        assert(all[0] == a[0]);
        lemma_dedup_first(all);
    }
}

/// A zone's entry matches its own identifier and its own city, lowercased,
/// so searching either offers the zone.
pub proof fn lemma_zone_found_by_id_and_city(name: Seq<char>, abbreviation: Option<Seq<char>>)
    ensures
        unicode_lowercase(name).len() > 0 ==> entry_matches(entry_model(name, abbreviation), unicode_lowercase(name)),
        unicode_lowercase(city_of(name)).len() > 0 ==> entry_matches(
            entry_model(name, abbreviation),
            unicode_lowercase(city_of(name)),
        ),
{
    let e = entry_model(name, abbreviation);
    let l = unicode_lowercase(name);
    let c = unicode_lowercase(city_of(name));
    assert(e.tags[0] == l);
    assert(e.tags[1] == c);
    assert(l.subrange(0, l.len() as int) =~= l);
    assert(c.subrange(0, c.len() as int) =~= c);
    assert(occurs_at(e.tags[0], l, 0));
    assert(occurs_at(e.tags[1], c, 0));
    assert(contains_str(e.tags[0], l));
    assert(contains_str(e.tags[1], c));
}

/// A query that is blank once trimmed and lowercased completes to the combo
/// items.
pub proof fn lemma_blank_query_gives_combo_items(entries: Seq<EntryView>, query: Seq<char>)
    requires
        query_text(query).len() == 0,
    ensures
        completions_model(entries, query) == combo_model(entries),
{
}

proof fn lemma_compact_key_append(a: Seq<char>, b: Seq<char>)
    ensures
        compact_key(a + b) == compact_key(a) + compact_key(b),
    decreases b.len(),
{
    if b.len() == 0 {
        assert(a + b =~= a);
        assert(compact_key(a) + compact_key(b) =~= compact_key(a));
    } else {
        lemma_compact_key_append(a, b.drop_last());
        assert((a + b).drop_last() =~= a + b.drop_last());
        assert((a + b).last() == b.last());
        if is_ascii_alnum(b.last()) {
            assert(compact_key(a) + compact_key(b) =~= (compact_key(a) + compact_key(b.drop_last())).push(
                lower_char(b.last()),
            ));
        }
    }
}

/// The key of a part of `s` occurs in the key of `s`.
pub proof fn lemma_compact_key_of_part(s: Seq<char>, part: Seq<char>)
    requires
        contains_str(s, part),
    ensures
        contains_str(compact_key(s), compact_key(part)),
{
    let i = choose|i: int| occurs_at(s, part, i);
    let front = s.subrange(0, i);
    let back = s.subrange(i + part.len(), s.len() as int);
    assert(s =~= front + part + back);
    lemma_compact_key_append(front + part, back);
    lemma_compact_key_append(front, part);
    let k = compact_key(s);
    let f = compact_key(front);
    let p = compact_key(part);
    assert(k == f + p + compact_key(back));
    assert(k.subrange(f.len() as int, (f.len() + p.len()) as int) =~= p);
    assert(occurs_at(k, p, f.len() as int));
}

/// Shortening a query to a part of it that still holds a letter or a digit
/// never loses a match.
pub proof fn lemma_part_of_query_keeps_match(e: EntryView, q: Seq<char>, part: Seq<char>)
    requires
        entry_matches(e, q),
        contains_str(q, part),
        compact_key(part).len() > 0,
    ensures
        entry_matches(e, part),
{
    if tag_hit(e.tags, q) {
        let i = choose|i: int| 0 <= i < e.tags.len() && contains_str(#[trigger] e.tags[i], q);
        lemma_contains_trans(e.tags[i], q, part);
        assert(tag_hit(e.tags, part));
    } else {
        let cq = compact_key(q);
        let cp = compact_key(part);
        let i = choose|i: int|
            0 <= i < e.fuzzy_tags.len() && (contains_str(#[trigger] e.fuzzy_tags[i], cq) || is_subseq(
                cq,
                e.fuzzy_tags[i],
            ));
        let t = e.fuzzy_tags[i];
        if contains_str(t, cq) {
            lemma_contains_is_subseq(t, cq);
        }
        lemma_compact_key_of_part(q, part);
        lemma_contains_is_subseq(cq, cp);
        lemma_subseq_trans(cp, cq, t);
        assert(fuzzy_hit(e.fuzzy_tags, cp));
    }
}

/// Two texts in order, each holding the same texts as many times, are equal.
proof fn lemma_sorted_texts_unique(s: Seq<Seq<char>>, t: Seq<Seq<char>>)
    requires
        sorted_by_key(s, text_key()),
        sorted_by_key(t, text_key()),
        s.to_multiset() == t.to_multiset(),
    ensures
        s == t,
    decreases s.len(),
{
    broadcast use vstd::seq_lib::group_to_multiset_ensures;

    assert(s.to_multiset().len() == s.len());
    assert(t.to_multiset().len() == t.len());
    if s.len() == 0 {
        assert(s =~= t);
    } else {
        assert(t.contains(s[0])) by {
            assert(s.contains(s[0]));
            assert(s.to_multiset().count(s[0]) > 0);
        }
        assert(s.contains(t[0])) by {
            assert(t.contains(t[0]));
            assert(t.to_multiset().count(t[0]) > 0);
        }
        let j = choose|j: int| 0 <= j < t.len() && t[j] == s[0];
        let i = choose|i: int| 0 <= i < s.len() && s[i] == t[0];
        assert(text_le(t[0], s[0])) by {
            if j > 0 {
                assert(text_key()(t[0]) == t[0] && text_key()(t[j]) == t[j]);
            } else {
                lemma_text_le_refl(t[0]);
            }
        }
        assert(text_le(s[0], t[0])) by {
            if i > 0 {
                assert(text_key()(s[0]) == s[0] && text_key()(s[i]) == s[i]);
            } else {
                lemma_text_le_refl(s[0]);
            }
        }
        lemma_text_le_antisym(s[0], t[0]);
        assert(s.remove(0) =~= s.drop_first());
        assert(t.remove(0) =~= t.drop_first());
        assert(s.remove(0).to_multiset() == s.to_multiset().remove(s[0]));
        assert(t.remove(0).to_multiset() == t.to_multiset().remove(t[0]));
        assert forall|a: int, b: int| 0 <= a < b < s.drop_first().len() implies text_le(
            text_key()(#[trigger] s.drop_first()[a]),
            text_key()(#[trigger] s.drop_first()[b]),
        ) by {
            assert(text_le(text_key()(s[a + 1]), text_key()(s[b + 1])));
        }
        assert forall|a: int, b: int| 0 <= a < b < t.drop_first().len() implies text_le(
            text_key()(#[trigger] t.drop_first()[a]),
            text_key()(#[trigger] t.drop_first()[b]),
        ) by {
            assert(text_le(text_key()(t[a + 1]), text_key()(t[b + 1])));
        }
        lemma_sorted_texts_unique(s.drop_first(), t.drop_first());
        assert(s =~= seq![s[0]] + s.drop_first());
        assert(t =~= seq![t[0]] + t.drop_first());
    }
}

/// The combo items of the index built from `zones` are the offset
/// suggestions followed by the zone names in text order.
pub proof fn lemma_combo_of_index(zones: Seq<(Seq<char>, Option<Seq<char>>)>)
    ensures
        combo_model(search_model(zones)) == offset_suggestions_model() + sort_by_key(
            zones.map_values(|z: (Seq<char>, Option<Seq<char>>)| z.0),
            text_key(),
        ),
        combo_model(search_model(zones)).len() == offset_suggestions_model().len() + zones.len(),
{
    let entries = search_model(zones);
    let names = zones.map_values(|z: (Seq<char>, Option<Seq<char>>)| z.0);
    let built = zones.map_values(zone_entry());
    let ids = entries.map_values(|e: EntryView| e.iana_id);
    lemma_search_model_sorted(zones, Seq::empty());
    lemma_map_keeps_permutation(entries, built, |e: EntryView| e.iana_id);
    assert(built.map_values(|e: EntryView| e.iana_id) =~= names);
    lemma_sort_by_key_sorted_permutation(ids, text_key());
    lemma_sort_by_key_sorted_permutation(names, text_key());
    lemma_sorted_texts_unique(sort_by_key(ids, text_key()), sort_by_key(names, text_key()));
}

/// Every zone of the index is among the combo items, and is offered when its
/// identifier, or its city, is typed as it is (one without surrounding
/// blanks).
pub proof fn lemma_every_zone_is_found(zones: Seq<(Seq<char>, Option<Seq<char>>)>, k: int)
    requires
        0 <= k < zones.len(),
    ensures
        trim(zones[k].0) == zones[k].0 ==> completions_model(search_model(zones), zones[k].0).contains(
            zones[k].0,
        ),
        trim(city_of(zones[k].0)) == city_of(zones[k].0) ==> completions_model(
            search_model(zones),
            city_of(zones[k].0),
        ).contains(zones[k].0),
        combo_model(search_model(zones)).contains(zones[k].0),
{
    broadcast use vstd::seq_lib::group_to_multiset_ensures;

    let entries = search_model(zones);
    let built = zones.map_values(zone_entry());
    let name = zones[k].0;
    let e = entry_model(name, zones[k].1);
    lemma_search_model_sorted(zones, Seq::empty());
    assert(built[k] == e);
    assert(built.contains(e));
    assert(built.to_multiset().count(e) > 0);
    assert(entries.contains(e));
    let j = choose|j: int| 0 <= j < entries.len() && entries[j] == e;
    lemma_zone_found_by_id_and_city(name, zones[k].1);
    lemma_combo_ids_sorted(entries);
    let ids = entries.map_values(|x: EntryView| x.iana_id);
    let n = offset_suggestions_model().len() as int;
    let sorted_ids = combo_model(entries).skip(n);
    assert(ids[j] == name);
    assert(ids.to_multiset().count(name) > 0);
    assert(sorted_ids.contains(name));
    let p = choose|p: int| 0 <= p < sorted_ids.len() && sorted_ids[p] == name;
    assert(combo_model(entries)[n + p] == name);
    if query_text(name).len() > 0 {
        lemma_matches_are_offered(entries, name, j);
    }
    if query_text(city_of(name)).len() > 0 {
        lemma_matches_are_offered(entries, city_of(name), j);
    }
}

/// The zone `name`, with abbreviation `abbreviation`, answers the query `q`:
/// what matching its entry amounts to, stated over the zone itself.
pub open spec fn zone_answers(name: Seq<char>, abbreviation: Option<Seq<char>>, q: Seq<char>) -> bool {
    let cq = compact_key(q);
    let city = city_of(name);
    ||| contains_str(unicode_lowercase(name), q)
    ||| contains_str(unicode_lowercase(city), q)
    ||| match abbreviation {
        Some(a) => {
            let l = unicode_lowercase(a);
            ||| contains_str(l, q)
            ||| is_alpha_text(l) && abbreviation_family_of(l) is Some && contains_str(
                abbreviation_family_of(l).unwrap(),
                q,
            )
        },
        None => false,
    }
    ||| cq.len() > 0 && (is_subseq(cq, compact_key(name)) || is_subseq(cq, compact_key(city)) || (
    initials_key(city) is Some && is_subseq(cq, initials_key(city).unwrap())))
}

/// What matching a zone's entry means: the query occurs in the zone's
/// identifier, its city, its abbreviation or the abbreviation's family, all
/// lowercased; or the query holds a letter or digit and its compact key is a
/// subsequence of the compact identifier, the compact city or the city's
/// initials.
pub proof fn lemma_zone_entry_match_unfolded(
    name: Seq<char>,
    abbreviation: Option<Seq<char>>,
    q: Seq<char>,
)
    ensures
        entry_matches(entry_model(name, abbreviation), q) <==> zone_answers(name, abbreviation, q),
{
    let e = entry_model(name, abbreviation);
    let cq = compact_key(q);
    let city = city_of(name);
    if entry_matches(e, q) {
        if tag_hit(e.tags, q) {
            let i = choose|i: int| 0 <= i < e.tags.len() && contains_str(#[trigger] e.tags[i], q);
            if i >= 2 {
                let a = abbreviation.unwrap();
                let l = unicode_lowercase(a);
                assert(e.tags[i] == abbreviation_tags(a)[i - 2]);
                if i == 3 {
                    assert(is_alpha_text(l) && abbreviation_family_of(l) is Some);
                }
            }
        } else {
            let i = choose|i: int|
                0 <= i < e.fuzzy_tags.len() && (contains_str(#[trigger] e.fuzzy_tags[i], cq)
                    || is_subseq(cq, e.fuzzy_tags[i]));
            if contains_str(e.fuzzy_tags[i], cq) {
                lemma_contains_is_subseq(e.fuzzy_tags[i], cq);
            }
        }
    }
    if zone_answers(name, abbreviation, q) {
        if contains_str(unicode_lowercase(name), q) {
            assert(contains_str(e.tags[0], q));
        } else if contains_str(unicode_lowercase(city), q) {
            assert(contains_str(e.tags[1], q));
        } else if abbreviation is Some && contains_str(unicode_lowercase(abbreviation.unwrap()), q) {
            assert(contains_str(e.tags[2], q));
        } else if abbreviation is Some && is_alpha_text(unicode_lowercase(abbreviation.unwrap()))
            && abbreviation_family_of(unicode_lowercase(abbreviation.unwrap())) is Some && contains_str(
            abbreviation_family_of(unicode_lowercase(abbreviation.unwrap())).unwrap(),
            q,
        ) {
            assert(contains_str(e.tags[3], q));
        } else if is_subseq(cq, compact_key(name)) {
            assert(is_subseq(cq, e.fuzzy_tags[0]));
        } else if is_subseq(cq, compact_key(city)) {
            assert(is_subseq(cq, e.fuzzy_tags[1]));
        } else {
            assert(is_subseq(cq, e.fuzzy_tags[2]));
        }
    }
}

/// Queries that read the same once trimmed and lowercased complete alike.
pub proof fn lemma_completions_see_query_text_only(entries: Seq<EntryView>, a: Seq<char>, b: Seq<char>)
    requires
        query_text(a) == query_text(b),
    ensures
        completions_model(entries, a) == completions_model(entries, b),
{
}

/// For a query that is not blank, every offset suggestion that starts with
/// the query, both lowercased, is offered.
pub proof fn lemma_prefixed_suggestions_offered(entries: Seq<EntryView>, query: Seq<char>, k: int)
    requires
        query_text(query).len() > 0,
        0 <= k < offset_suggestions_model().len(),
        starts_with(unicode_lowercase(offset_suggestions_model()[k]), query_text(query)),
    ensures
        completions_model(entries, query).contains(offset_suggestions_model()[k]),
{
    let q = query_text(query);
    let x = offset_suggestions_model()[k];
    let a = option_item(normalized_offset(q));
    let b = offset_suggestions_model().filter(suggestion_pred(q));
    let c = entries.filter(entry_pred(q)).map_values(entry_id());
    let all = a + b + c;
    offset_suggestions_model().lemma_filter_contains(suggestion_pred(q), k);
    let j = choose|j: int| 0 <= j < b.len() && b[j] == x;
    assert(all[a.len() + j] == x);
    lemma_dedup_keeps_members(all, x);
}

} // verus!
