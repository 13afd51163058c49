//! The decisions of the preferences window: which entries its rows save,
//! what a time zone field is canonicalised to, where a dragged row lands,
//! which row holds the favourite star, and what the combo box completes.
use vstd::prelude::*;

use crate::resolver::{
    normalize_panics, normalized_offset, resolve_timezone, resolved_text, ResolvedTimezone,
};
use crate::search::{display_id, iana_id_from_display};
use crate::settings::{lemma_increasing_cover, resolves_as_offset};
use crate::text::{
    chars_of, lemma_trim_idempotent, starts_with, starts_with_chars, string_from, to_lowercase,
    trim, unicode_lowercase,
};
use crate::timezone::{entry_resolved_from, TimezoneEntry};

verus! {

// ---------------------------------------------------------------------------
// Saving rows
// ---------------------------------------------------------------------------

/// One row of the preferences window: label field, time zone field and star.
pub struct PrefsRow {
    pub label: String,
    pub timezone: String,
    pub favorite: bool,
}

/// `idx` picks, in increasing order, the rows that `entries` were saved from:
/// each saved entry has the label and star of its row and was resolved from
/// the identifier in its row's time zone field, each picked row names a zone,
/// and every row naming an offset is picked.
pub open spec fn saved_from_rows(entries: Seq<TimezoneEntry>, rows: Seq<PrefsRow>, idx: Seq<int>) -> bool {
    &&& idx.len() == entries.len()
    &&& forall|k: int|
        0 <= k < idx.len() ==> {
            &&& 0 <= #[trigger] idx[k] < rows.len()
            &&& entries[k]@.label == rows[idx[k]].label@
            &&& entries[k]@.favorite == rows[idx[k]].favorite
            &&& display_id(rows[idx[k]].timezone@).len() > 0
            &&& entry_resolved_from(entries[k]@, display_id(rows[idx[k]].timezone@))
        }
    &&& forall|k: int, l: int| 0 <= k < l < idx.len() ==> idx[k] < idx[l]
    &&& forall|i: int|
        0 <= i < rows.len() && resolves_as_offset(display_id(#[trigger] rows[i].timezone@))
            ==> idx.contains(i)
}

/// `idx` picks, in increasing order, the rows that `entries` were saved from,
/// given what each row's identifier resolved to: each picked row holds an
/// identifier that resolved, and its entry has the row's label and star and
/// the identifier and zone of that resolution.
pub open spec fn rows_saved_as(
    entries: Seq<TimezoneEntry>,
    rows: Seq<PrefsRow>,
    resolved: Seq<Option<ResolvedTimezone>>,
    idx: Seq<int>,
) -> bool {
    &&& idx.len() == entries.len()
    &&& forall|k: int|
        0 <= k < idx.len() ==> {
            &&& 0 <= #[trigger] idx[k] < rows.len()
            &&& display_id(rows[idx[k]].timezone@).len() > 0
            &&& resolved[idx[k]] is Some
            &&& entries[k]@.label == rows[idx[k]].label@
            &&& entries[k]@.favorite == rows[idx[k]].favorite
            &&& entries[k]@.iana_id == resolved[idx[k]].unwrap().canonical_id@
            &&& entries[k]@.zone == resolved[idx[k]].unwrap().timezone
            &&& entry_resolved_from(entries[k]@, display_id(rows[idx[k]].timezone@))
        }
    &&& forall|k: int, l: int| 0 <= k < l < idx.len() ==> idx[k] < idx[l]
}

/// The entries the rows save, given what the identifier in each row's time
/// zone field resolved to (`resolved[i]` for row `i`): for each row in order
/// whose field holds an identifier that resolved, the entry for that
/// resolution, with the row's label and star. Every such row is saved, and
/// no other.
pub fn entries_from_resolved_rows(rows: &Vec<PrefsRow>, resolved: Vec<Option<ResolvedTimezone>>) -> (r:
    Vec<TimezoneEntry>)
    requires
        resolved@.len() == rows@.len(),
        forall|i: int|
            0 <= i < rows@.len() ==> (#[trigger] resolved@[i] matches Some(res) ==> resolved_text(
                res,
                display_id(rows@[i].timezone@),
            )),
    ensures
        exists|idx: Seq<int>|
            #![trigger rows_saved_as(r@, rows@, resolved@, idx)]
            rows_saved_as(r@, rows@, resolved@, idx) && forall|i: int|
                0 <= i < rows@.len() && display_id(rows@[i].timezone@).len() > 0
                    && #[trigger] resolved@[i] is Some ==> idx.contains(i),
{
    let ghost all = resolved@;
    let mut rest = resolved;
    let mut entries: Vec<TimezoneEntry> = Vec::new();
    let ghost mut idx: Seq<int> = Seq::empty();
    let mut i: usize = 0;
    while i < rows.len()
        invariant
            i <= rows.len(),
            all.len() == rows@.len(),
            rest@ == all.skip(i as int),
            forall|j: int|
                0 <= j < rows@.len() ==> (#[trigger] all[j] matches Some(res) ==> resolved_text(
                    res,
                    display_id(rows@[j].timezone@),
                )),
            idx.len() == entries@.len(),
            forall|k: int|
                0 <= k < idx.len() ==> {
                    &&& 0 <= #[trigger] idx[k] < i
                    &&& display_id(rows@[idx[k]].timezone@).len() > 0
                    &&& all[idx[k]] is Some
                    &&& entries@[k]@.label == rows@[idx[k]].label@
                    &&& entries@[k]@.favorite == rows@[idx[k]].favorite
                    &&& entries@[k]@.iana_id == all[idx[k]].unwrap().canonical_id@
                    &&& entries@[k]@.zone == all[idx[k]].unwrap().timezone
                    &&& entry_resolved_from(entries@[k]@, display_id(rows@[idx[k]].timezone@))
                },
            forall|k: int, l: int| 0 <= k < l < idx.len() ==> idx[k] < idx[l],
            forall|j: int|
                0 <= j < i && display_id(rows@[j].timezone@).len() > 0 && #[trigger] all[j] is Some
                    ==> idx.contains(j),
        decreases rows.len() - i,
    {
        let row = &rows[i];
        assert(rest@[0] == all[i as int]);
        let res = rest.remove(0);
        assert(rest@ =~= all.skip(i + 1));
        let id = iana_id_from_display(row.timezone.as_str());
        if id.unicode_len() > 0 {
            match res {
                Some(found) => {
                    let entry = TimezoneEntry::from_resolved(row.label.as_str(), found, row.favorite);
                    entries.push(entry);
                    proof {
                        let old_idx = idx;
                        idx = idx.push(i as int);
                        assert(idx[idx.len() - 1] == i);
                        assert forall|j: int| 0 <= j < i && old_idx.contains(j) implies idx.contains(
                            j,
                        ) by {
                            let w = choose|w: int| 0 <= w < old_idx.len() && old_idx[w] == j;
                            assert(idx[w] == j);
                        }
                        assert(idx.contains(i as int));
                    }
                },
                None => {},
            }
        }
        i = i + 1;
    }
    assert(rows_saved_as(entries@, rows@, all, idx));
    entries
}

/// The entries the rows save: for each row in order, the entry for the
/// identifier in its time zone field (a display label counts by its
/// identifier), skipping rows with an empty field and rows that resolve to no
/// zone.
pub fn entries_from_rows(rows: &Vec<PrefsRow>) -> (r: Vec<TimezoneEntry>)
    requires
        forall|i: int|
            0 <= i < rows@.len() ==> !normalize_panics(display_id(#[trigger] rows@[i].timezone@)),
    ensures
        exists|idx: Seq<int>| saved_from_rows(r@, rows@, idx),
{
    let mut resolved: Vec<Option<ResolvedTimezone>> = Vec::new();
    let mut i: usize = 0;
    while i < rows.len()
        invariant
            i <= rows.len(),
            resolved@.len() == i,
            forall|j: int|
                0 <= j < rows@.len() ==> !normalize_panics(display_id(#[trigger] rows@[j].timezone@)),
            forall|j: int|
                0 <= j < i ==> (#[trigger] resolved@[j] matches Some(res) ==> resolved_text(
                    res,
                    display_id(rows@[j].timezone@),
                )),
            forall|j: int|
                0 <= j < i && resolves_as_offset(display_id(rows@[j].timezone@))
                    ==> #[trigger] resolved@[j] is Some,
        decreases rows.len() - i,
    {
        let id = iana_id_from_display(rows[i].timezone.as_str());
        proof {
            lemma_display_id_trimmed(rows@[i as int].timezone@);
        }
        if id.unicode_len() > 0 {
            resolved.push(resolve_timezone(id));
        } else {
            resolved.push(None);
        }
        i = i + 1;
    }
    let r = entries_from_resolved_rows(rows, resolved);
    proof {
        let idx = choose|idx: Seq<int>|
            #![trigger rows_saved_as(r@, rows@, resolved@, idx)]
            rows_saved_as(r@, rows@, resolved@, idx) && forall|i: int|
                0 <= i < rows@.len() && display_id(rows@[i].timezone@).len() > 0
                    && #[trigger] resolved@[i] is Some ==> idx.contains(i);
        assert forall|j: int|
            0 <= j < rows@.len() && resolves_as_offset(display_id(#[trigger] rows@[j].timezone@))
                implies idx.contains(j) by {
            lemma_display_id_trimmed(rows@[j].timezone@);
            assert(resolved@[j] is Some);
        }
        assert(saved_from_rows(r@, rows@, idx));
    }
    r
}

proof fn lemma_display_id_trimmed(raw: Seq<char>)
    ensures
        trim(display_id(raw)) == display_id(raw),
{
    match crate::text::find_str(raw, crate::search::label_separator()) {
        Some(i) => lemma_trim_idempotent(raw.skip(i + 3)),
        None => lemma_trim_idempotent(raw),
    }
}

// ---------------------------------------------------------------------------
// Canonicalising a time zone field
// ---------------------------------------------------------------------------

/// A time zone field holding `raw` should be rewritten: it holds an
/// identifier, and it is a display label or has surrounding whitespace.
pub open spec fn field_needs_canonical(raw: Seq<char>) -> bool {
    display_id(raw).len() > 0 && display_id(raw) != raw
}

/// What a time zone field holding `raw` is rewritten to, given what its
/// identifier resolved to: the canonical identifier when the field needs
/// rewriting and the identifier resolved, and nothing otherwise.
pub fn canonical_text_from(raw: &str, resolved: Option<ResolvedTimezone>) -> (r: Option<String>)
    ensures
        r is Some <==> field_needs_canonical(raw@) && resolved is Some,
        r matches Some(t) ==> t@ == resolved.unwrap().canonical_id@,
{
    let id = iana_id_from_display(raw);
    if id.unicode_len() == 0 || string_from(id) == string_from(raw) {
        return None;
    }
    match resolved {
        Some(res) => Some(res.canonical_id),
        None => None,
    }
}

/// The canonical identifier to show in a time zone field holding `raw`, when
/// it should change: the field is a display label or has surrounding
/// whitespace, and its identifier resolves. Nothing when it should stay.
pub fn canonical_timezone_text(raw: &str) -> (r: Option<String>)
    requires
        !normalize_panics(display_id(raw@)),
    ensures
        r is Some ==> field_needs_canonical(raw@),
        field_needs_canonical(raw@) && normalized_offset(display_id(raw@)) is Some ==> r is Some,
        r matches Some(t) ==> exists|res: ResolvedTimezone|
            resolved_text(res, display_id(raw@)) && t@ == res.canonical_id@,
{
    let id = iana_id_from_display(raw);
    proof {
        lemma_display_id_trimmed(raw@);
    }
    if id.unicode_len() == 0 || string_from(id) == string_from(raw) {
        return canonical_text_from(raw, None);
    }
    canonical_text_from(raw, resolve_timezone(id))
}

// ---------------------------------------------------------------------------
// Reordering rows by dragging
// ---------------------------------------------------------------------------

/// The row a drop lands above: the first row whose middle lies below the drop
/// point (`above[i]` tells whether the point is above row `i`'s middle), or
/// the end when there is none.
pub fn reorder_destination(above: &Vec<bool>) -> (r: usize)
    ensures
        r <= above@.len(),
        forall|i: int| 0 <= i < r ==> !above@[i],
        r < above@.len() ==> above@[r as int],
{
    let mut i: usize = 0;
    while i < above.len()
        invariant
            i <= above@.len(),
            forall|k: int| 0 <= k < i ==> !above@[k],
        decreases above.len() - i,
    {
        if above[i] {
            return i;
        }
        i = i + 1;
    }
    i
}

/// Where a row dragged from `src` and dropped above `dest` goes once it is
/// taken out, or nothing when the drop leaves the order as it is.
pub open spec fn reorder_target_of(src: int, dest: int, count: int) -> Option<int> {
    if src >= count || src == dest || src + 1 == dest {
        None
    } else if dest > src {
        Some(dest - 1)
    } else {
        Some(dest)
    }
}

/// `reorder_target_of` for a drag from row `src` to above row `dest` among
/// `count` rows.
pub fn reorder_target(src: usize, dest: usize, count: usize) -> (r: Option<usize>)
    requires
        dest <= count,
    ensures
        match r {
            Some(t) => reorder_target_of(src as int, dest as int, count as int) == Some(t as int),
            None => reorder_target_of(src as int, dest as int, count as int) is None,
        },
{
    if src >= count || src == dest || src + 1 == dest {
        None
    } else if dest > src {
        Some(dest - 1)
    } else {
        Some(dest)
    }
}

/// The rows once the row at `src` is taken out and put back at `to`.
pub open spec fn move_row<T>(rows: Seq<T>, src: int, to: int) -> Seq<T> {
    rows.remove(src).insert(to, rows[src])
}

/// A dragged row ends up immediately above the row it was dropped above (or
/// last, when dropped below every row), the other rows keep their order, and
/// a drop that changes nothing is refused.
pub proof fn lemma_reorder_lands_above_target<T>(rows: Seq<T>, src: int, dest: int)
    requires
        0 <= src < rows.len(),
        0 <= dest <= rows.len(),
    ensures
        reorder_target_of(src, dest, rows.len() as int) matches Some(to) ==> {
            let moved = move_row(rows, src, to);
            &&& moved.len() == rows.len()
            &&& moved[to] == rows[src]
            &&& dest < rows.len() ==> moved[to + 1] == rows[dest]
            &&& dest == rows.len() ==> to == rows.len() - 1
            &&& moved.remove(to) == rows.remove(src)
        },
        reorder_target_of(src, dest, rows.len() as int) is None ==> move_row(rows, src, src) == rows,
{
    match reorder_target_of(src, dest, rows.len() as int) {
        Some(to) => {
            let moved = move_row(rows, src, to);
            let rest = rows.remove(src);
            assert(moved.remove(to) =~= rest);
            if dest < rows.len() {
                if dest > src {
                    assert(rest[dest - 1] == rows[dest]);
                } else {
                    assert(rest[dest] == rows[dest]);
                }
            }
        },
        None => {
            assert(move_row(rows, src, src) =~= rows);
        },
    }
}

// ---------------------------------------------------------------------------
// The favourite star
// ---------------------------------------------------------------------------

/// Exactly one row holds the star.
pub open spec fn one_favorite(stars: Seq<bool>) -> bool {
    exists|i: int| 0 <= i < stars.len() && stars[i] && forall|j: int| 0 <= j < stars.len() && j != i ==> !stars[j]
}

/// The stars once the row `removed` is deleted: when it held the star, the
/// first remaining row takes it.
pub open spec fn stars_after_removal(stars: Seq<bool>, removed: int) -> Seq<bool> {
    let rest = stars.remove(removed);
    if stars[removed] && rest.len() > 0 {
        rest.update(0, true)
    } else {
        rest
    }
}

/// `stars_after_removal`.
pub fn favorites_after_removal(stars: &Vec<bool>, removed: usize) -> (r: Vec<bool>)
    requires
        removed < stars@.len(),
    ensures
        r@ == stars_after_removal(stars@, removed as int),
{
    let mut rest: Vec<bool> = Vec::new();
    let mut i: usize = 0;
    while i < stars.len()
        invariant
            removed < stars@.len(),
            i <= stars@.len(),
            rest@ == (if i <= removed {
                stars@.take(i as int)
            } else {
                stars@.take(i as int).remove(removed as int)
            }),
        decreases stars.len() - i,
    {
        if i != removed {
            rest.push(stars[i]);
        }
        i = i + 1;
        assert(rest@ =~= (if i <= removed {
            stars@.take(i as int)
        } else {
            stars@.take(i as int).remove(removed as int)
        }));
    }
    assert(stars@.take(stars@.len() as int) =~= stars@);
    if stars[removed] && rest.len() > 0 {
        rest.set(0, true);
    }
    rest
}

/// The stars when the row `selected` is starred: that row only.
pub fn favorites_selecting(count: usize, selected: usize) -> (r: Vec<bool>)
    ensures
        r@.len() == count,
        forall|i: int| 0 <= i < count ==> r@[i] == (i == selected),
{
    let mut stars: Vec<bool> = Vec::new();
    let mut i: usize = 0;
    while i < count
        invariant
            i <= count,
            stars@.len() == i,
            forall|k: int| 0 <= k < i ==> stars@[k] == (k == selected),
        decreases count - i,
    {
        stars.push(i == selected);
        i = i + 1;
    }
    stars
}

/// Deleting a row keeps exactly one star among the remaining rows, and
/// starring a row leaves it the only starred one.
pub proof fn lemma_one_favorite_kept(stars: Seq<bool>, removed: int, count: int, selected: int)
    requires
        0 <= removed < stars.len(),
        stars.len() > 1,
        one_favorite(stars),
        0 <= selected < count,
    ensures
        one_favorite(stars_after_removal(stars, removed)),
        one_favorite(Seq::new(count as nat, |i: int| i == selected)),
{
    let f = choose|i: int| 0 <= i < stars.len() && stars[i] && forall|j: int| 0 <= j < stars.len() && j != i ==> !stars[j];
    let r = stars_after_removal(stars, removed);
    let rest = stars.remove(removed);
    if f == removed {
        assert(r[0]);
        assert forall|j: int| 0 <= j < r.len() && j != 0 implies !r[j] by {
            if j < removed {
                assert(rest[j] == stars[j]);
            } else {
                assert(rest[j] == stars[j + 1]);
            }
        }
    } else {
        let g = if f < removed {
            f
        } else {
            f - 1
        };
        assert(r == rest);
        assert(r[g] == stars[f]);
        assert forall|j: int| 0 <= j < r.len() && j != g implies !r[j] by {
            if j < removed {
                assert(rest[j] == stars[j]);
            } else {
                assert(rest[j] == stars[j + 1]);
            }
        }
    }
    let s = Seq::new(count as nat, |i: int| i == selected);
    assert(s[selected]);
}

// ---------------------------------------------------------------------------
// Combo box completion
// ---------------------------------------------------------------------------

/// Item `k` starts with the typed text, both lowercased.
pub open spec fn completes(items: Seq<Seq<char>>, typed: Seq<char>, k: int) -> bool {
    starts_with(unicode_lowercase(items[k]), unicode_lowercase(typed))
}

/// The first item that starts with what was typed, ignoring case.
pub fn first_completion(items: &Vec<String>, typed: &str) -> (r: Option<String>)
    ensures
        match r {
            Some(s) => exists|k: int|
                0 <= k < items@.len() && s@ == items@[k]@ && completes(items.deep_view(), typed@, k)
                    && forall|j: int| 0 <= j < k ==> !completes(items.deep_view(), typed@, j),
            None => forall|k: int| 0 <= k < items@.len() ==> !completes(items.deep_view(), typed@, k),
        },
        r matches Some(s) ==> starts_with(unicode_lowercase(s@), unicode_lowercase(typed@)),
        r matches Some(s) ==> exists|k: int|
            0 <= k < items@.len() && s@ == items@[k]@ && forall|j: int|
                0 <= j < k ==> !starts_with(
                    unicode_lowercase(#[trigger] items@[j]@),
                    unicode_lowercase(typed@),
                ),
        r is None ==> forall|k: int|
            0 <= k < items@.len() ==> !starts_with(
                unicode_lowercase(#[trigger] items@[k]@),
                unicode_lowercase(typed@),
            ),
{
    let query = chars_of(to_lowercase(typed).as_str());
    let mut i: usize = 0;
    while i < items.len()
        invariant
            i <= items@.len(),
            query@ == unicode_lowercase(typed@),
            forall|j: int| 0 <= j < i ==> !completes(items.deep_view(), typed@, j),
            forall|j: int|
                0 <= j < i ==> !starts_with(
                    unicode_lowercase(#[trigger] items@[j]@),
                    unicode_lowercase(typed@),
                ),
        decreases items.len() - i,
    {
        let lowered = chars_of(to_lowercase(items[i].as_str()).as_str());
        assert(items.deep_view()[i as int] == items@[i as int]@);
        if starts_with_chars(&lowered, &query) {
            let found = items[i].clone();
            assert(completes(items.deep_view(), typed@, i as int));
            assert(found@ == items@[i as int]@);
            return Some(found);
        }
        i = i + 1;
    }
    None
}

/// When every row's field holds an identifier that resolved, saving keeps
/// every row, in order, with its label and star and the identifier and zone
/// its resolution gives.
pub proof fn lemma_all_resolved_rows_saved(
    entries: Seq<TimezoneEntry>,
    rows: Seq<PrefsRow>,
    resolved: Seq<Option<ResolvedTimezone>>,
    idx: Seq<int>,
)
    requires
        rows_saved_as(entries, rows, resolved, idx),
        forall|i: int|
            0 <= i < rows.len() && display_id(rows[i].timezone@).len() > 0
                && #[trigger] resolved[i] is Some ==> idx.contains(i),
        forall|i: int|
            0 <= i < rows.len() ==> display_id(rows[i].timezone@).len() > 0
                && #[trigger] resolved[i] is Some,
    ensures
        entries.len() == rows.len(),
        forall|k: int|
            0 <= k < entries.len() ==> {
                &&& (#[trigger] entries[k])@.label == rows[k].label@
                &&& entries[k]@.favorite == rows[k].favorite
                &&& entries[k]@.iana_id == resolved[k].unwrap().canonical_id@
                &&& entries[k]@.zone == resolved[k].unwrap().timezone
            },
{
    assert forall|i: int| 0 <= i < rows.len() implies idx.contains(i) by {
        assert(resolved[i] is Some);
    }
    lemma_increasing_cover(idx, rows.len() as int);
    assert forall|k: int| 0 <= k < entries.len() implies {
        &&& (#[trigger] entries[k])@.label == rows[k].label@
        &&& entries[k]@.favorite == rows[k].favorite
        &&& entries[k]@.iana_id == resolved[k].unwrap().canonical_id@
        &&& entries[k]@.zone == resolved[k].unwrap().timezone
    } by {
        assert(idx[k] == k);
    }
}

} // verus!
