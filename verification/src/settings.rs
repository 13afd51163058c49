//! What is saved of the time zone list, and what is restored from it.
use vstd::prelude::*;

use crate::resolver::{
    lemma_offset_resolution_round_trip, normalize_panics, normalized_offset, resolve_timezone,
    resolved_text, ResolvedTimezone,
};
use crate::text::{string_from, string_of, trim};
use crate::timezone::{entry_resolved_from, TimezoneEntry, TimezoneEntryView};

verus! {

/// One saved entry: its label, the identifier of its zone, and whether it is
/// the favourite.
pub struct StoredEntry {
    pub label: String,
    pub iana_id: String,
    pub favorite: bool,
}

/// Text that always resolves to a time zone, whatever the database holds:
/// it is not blank and it normalises as an offset.
pub open spec fn resolves_as_offset(text: Seq<char>) -> bool {
    trim(text).len() > 0 && normalized_offset(trim(text)) is Some
}

/// `idx` picks, in increasing order, the saved entries that `entries` came
/// from: each restored entry has the label and favourite flag of its saved
/// entry and was resolved from its saved identifier, trimmed, and every saved
/// entry that resolves as an offset is picked.
pub open spec fn restored_from(entries: Seq<TimezoneEntry>, stored: Seq<StoredEntry>, idx: Seq<int>) -> bool {
    &&& idx.len() == entries.len()
    &&& forall|k: int|
        0 <= k < idx.len() ==> {
            &&& 0 <= #[trigger] idx[k] < stored.len()
            &&& entries[k]@.label == stored[idx[k]].label@
            &&& entries[k]@.favorite == stored[idx[k]].favorite
            &&& trim(stored[idx[k]].iana_id@).len() > 0
            &&& entry_resolved_from(entries[k]@, trim(stored[idx[k]].iana_id@))
        }
    &&& forall|k: int, l: int| 0 <= k < l < idx.len() ==> idx[k] < idx[l]
    &&& forall|i: int|
        0 <= i < stored.len() && resolves_as_offset(#[trigger] stored[i].iana_id@) ==> idx.contains(i)
}

/// `idx` picks, in increasing order, the saved entries that `entries` came
/// from, given what each saved identifier resolved to: each picked one
/// resolved, and its entry has the saved label and favourite flag and the
/// identifier and zone of that resolution.
pub open spec fn stored_restored_as(
    entries: Seq<TimezoneEntry>,
    stored: Seq<StoredEntry>,
    resolved: Seq<Option<ResolvedTimezone>>,
    idx: Seq<int>,
) -> bool {
    &&& idx.len() == entries.len()
    &&& forall|k: int|
        0 <= k < idx.len() ==> {
            &&& 0 <= #[trigger] idx[k] < stored.len()
            &&& resolved[idx[k]] is Some
            &&& entries[k]@.label == stored[idx[k]].label@
            &&& entries[k]@.favorite == stored[idx[k]].favorite
            &&& entries[k]@.iana_id == resolved[idx[k]].unwrap().canonical_id@
            &&& entries[k]@.zone == resolved[idx[k]].unwrap().timezone
            &&& entry_resolved_from(entries[k]@, trim(stored[idx[k]].iana_id@))
        }
    &&& forall|k: int, l: int| 0 <= k < l < idx.len() ==> idx[k] < idx[l]
}

/// The entries restored from what was saved, given what each saved
/// identifier, trimmed, resolved to (`resolved[i]` for entry `i`): for each
/// saved entry in order whose identifier resolved, the entry for that
/// resolution, with the saved label and favourite flag. Every such saved
/// entry is restored, and no other.
pub fn entries_from_resolved(stored: &Vec<StoredEntry>, resolved: Vec<Option<ResolvedTimezone>>) -> (r:
    Vec<TimezoneEntry>)
    requires
        resolved@.len() == stored@.len(),
        forall|i: int|
            0 <= i < stored@.len() ==> (#[trigger] resolved@[i] matches Some(res) ==> resolved_text(
                res,
                trim(stored@[i].iana_id@),
            )),
    ensures
        exists|idx: Seq<int>|
            #![trigger stored_restored_as(r@, stored@, resolved@, idx)]
            stored_restored_as(r@, stored@, resolved@, idx) && forall|i: int|
                0 <= i < stored@.len() && #[trigger] resolved@[i] is Some ==> idx.contains(i),
{
    let ghost all = resolved@;
    let mut rest = resolved;
    let mut entries: Vec<TimezoneEntry> = Vec::new();
    let ghost mut idx: Seq<int> = Seq::empty();
    let mut i: usize = 0;
    while i < stored.len()
        invariant
            i <= stored.len(),
            all.len() == stored@.len(),
            rest@ == all.skip(i as int),
            forall|j: int|
                0 <= j < stored@.len() ==> (#[trigger] all[j] matches Some(res) ==> resolved_text(
                    res,
                    trim(stored@[j].iana_id@),
                )),
            idx.len() == entries@.len(),
            forall|k: int|
                0 <= k < idx.len() ==> {
                    &&& 0 <= #[trigger] idx[k] < i
                    &&& all[idx[k]] is Some
                    &&& entries@[k]@.label == stored@[idx[k]].label@
                    &&& entries@[k]@.favorite == stored@[idx[k]].favorite
                    &&& entries@[k]@.iana_id == all[idx[k]].unwrap().canonical_id@
                    &&& entries@[k]@.zone == all[idx[k]].unwrap().timezone
                    &&& entry_resolved_from(entries@[k]@, trim(stored@[idx[k]].iana_id@))
                },
            forall|k: int, l: int| 0 <= k < l < idx.len() ==> idx[k] < idx[l],
            forall|j: int| 0 <= j < i && #[trigger] all[j] is Some ==> idx.contains(j),
        decreases stored.len() - i,
    {
        let s = &stored[i];
        assert(rest@[0] == all[i as int]);
        let res = rest.remove(0);
        assert(rest@ =~= all.skip(i + 1));
        match res {
            Some(found) => {
                let entry = TimezoneEntry::from_resolved(s.label.as_str(), found, s.favorite);
                entries.push(entry);
                proof {
                    let old_idx = idx;
                    idx = idx.push(i as int);
                    assert(idx[idx.len() - 1] == i);
                    assert forall|j: int| 0 <= j < i && old_idx.contains(j) implies idx.contains(j) by {
                        let w = choose|w: int| 0 <= w < old_idx.len() && old_idx[w] == j;
                        assert(idx[w] == j);
                    }
                    assert(idx.contains(i as int));
                }
            },
            None => {},
        }
        i = i + 1;
    }
    assert(stored_restored_as(entries@, stored@, all, idx));
    entries
}

/// The entries to restore from what was saved: nothing when nothing was
/// saved, else every saved entry whose zone still resolves, in saved order.
pub fn entries_from_stored(stored: &Vec<StoredEntry>) -> (r: Option<Vec<TimezoneEntry>>)
    requires
        forall|i: int| 0 <= i < stored@.len() ==> !normalize_panics(trim(#[trigger] stored@[i].iana_id@)),
    ensures
        r is None <==> stored@.len() == 0,
        r matches Some(entries) ==> exists|idx: Seq<int>| restored_from(entries@, stored@, idx),
{
    if stored.len() == 0 {
        return None;
    }
    let mut resolved: Vec<Option<ResolvedTimezone>> = Vec::new();
    let mut i: usize = 0;
    while i < stored.len()
        invariant
            i <= stored.len(),
            resolved@.len() == i,
            forall|j: int| 0 <= j < stored@.len() ==> !normalize_panics(trim(#[trigger] stored@[j].iana_id@)),
            forall|j: int|
                0 <= j < i ==> (#[trigger] resolved@[j] matches Some(res) ==> resolved_text(
                    res,
                    trim(stored@[j].iana_id@),
                ) && trim(stored@[j].iana_id@).len() > 0),
            forall|j: int|
                0 <= j < i && resolves_as_offset(stored@[j].iana_id@) ==> #[trigger] resolved@[j] is Some,
        decreases stored.len() - i,
    {
        resolved.push(resolve_timezone(stored[i].iana_id.as_str()));
        i = i + 1;
    }
    let ghost rs = resolved@;
    let entries = entries_from_resolved(stored, resolved);
    let ghost idx = choose|idx: Seq<int>|
        #![trigger stored_restored_as(entries@, stored@, rs, idx)]
        stored_restored_as(entries@, stored@, rs, idx) && forall|i: int|
            0 <= i < stored@.len() && #[trigger] rs[i] is Some ==> idx.contains(i);
    proof {
        assert forall|j: int|
            0 <= j < stored@.len() && resolves_as_offset(#[trigger] stored@[j].iana_id@) implies idx.contains(j) by {
            assert(rs[j] is Some);
        }
        assert forall|k: int| 0 <= k < idx.len() implies trim(stored@[#[trigger] idx[k]].iana_id@).len() > 0 by {
            assert(rs[idx[k]] is Some);
        }
        assert(restored_from(entries@, stored@, idx));
    }
    let r = Some(entries);
    assert(r->0@ == entries@);
    assert(restored_from(r->0@, stored@, idx));
    r
}

/// What is saved of the entries: label, identifier and favourite flag of
/// each, in order.
pub fn stored_from_entries(entries: &[TimezoneEntry]) -> (r: Vec<StoredEntry>)
    ensures
        r@.len() == entries@.len(),
        forall|k: int|
            0 <= k < r@.len() ==> {
                &&& (#[trigger] r@[k]).label@ == entries@[k]@.label
                &&& r@[k].iana_id@ == entries@[k]@.iana_id
                &&& r@[k].favorite == entries@[k]@.favorite
            },
{
    let mut out: Vec<StoredEntry> = Vec::new();
    let mut i: usize = 0;
    while i < entries.len()
        invariant
            i <= entries.len(),
            out@.len() == i,
            forall|k: int|
                0 <= k < i ==> {
                    &&& (#[trigger] out@[k]).label@ == entries@[k]@.label
                    &&& out@[k].iana_id@ == entries@[k]@.iana_id
                    &&& out@[k].favorite == entries@[k]@.favorite
                },
        decreases entries.len() - i,
    {
        let e = &entries[i];
        out.push(
            StoredEntry {
                label: string_from(e.label_text()),
                iana_id: string_from(e.iana_id()),
                favorite: e.is_favorite(),
            },
        );
        i = i + 1;
    }
    out
}

/// When every saved entry resolves as an offset, restoring brings back all
/// of them, in order, with their labels and favourite flags.
pub proof fn lemma_offset_entries_all_restored(
    entries: Seq<TimezoneEntry>,
    stored: Seq<StoredEntry>,
    idx: Seq<int>,
)
    requires
        restored_from(entries, stored, idx),
        forall|i: int| 0 <= i < stored.len() ==> resolves_as_offset(#[trigger] stored[i].iana_id@),
    ensures
        entries.len() == stored.len(),
        forall|k: int|
            0 <= k < entries.len() ==> (#[trigger] entries[k])@.label == stored[k].label@
                && entries[k]@.favorite == stored[k].favorite,
{
    let n = stored.len() as int;
    assert forall|m: int| 0 <= m < n implies m < idx.len() && #[trigger] idx[m] == m by {
        lemma_restored_index(entries, stored, idx, m);
    }
    if idx.len() > n {
        assert(idx[n] < n);
        if n > 0 {
            assert(idx[n - 1] == n - 1);
            assert(idx[n - 1] < idx[n]);
        }
    }
    if n > 0 {
        lemma_restored_index(entries, stored, idx, n - 1);
    }
    assert forall|k: int| 0 <= k < entries.len() implies (#[trigger] entries[k])@.label
        == stored[k].label@ && entries[k]@.favorite == stored[k].favorite by {
        assert(idx[k] == k);
    }
}

proof fn lemma_restored_index(entries: Seq<TimezoneEntry>, stored: Seq<StoredEntry>, idx: Seq<int>, m: int)
    requires
        restored_from(entries, stored, idx),
        forall|i: int| 0 <= i < stored.len() ==> resolves_as_offset(#[trigger] stored[i].iana_id@),
        0 <= m < stored.len(),
    ensures
        m < idx.len(),
        idx[m] == m,
    decreases m,
{
    assert(resolves_as_offset(stored[m].iana_id@));
    assert(idx.contains(m));
    let w = choose|w: int| 0 <= w < idx.len() && idx[w] == m;
    if m > 0 {
        lemma_restored_index(entries, stored, idx, m - 1);
        if w < m {
            if w < m - 1 {
                assert(idx[w] < idx[m - 1]);
            }
        }
        assert(w >= m);
        if w > m {
            assert(idx[m] < idx[w]);
        }
        assert(idx[m - 1] < idx[m]);
    } else {
        if w > 0 {
            assert(idx[0] < idx[w]);
        }
    }
}

/// The entries saved when nothing has been saved yet: label, zone and
/// favourite flag.
pub open spec fn default_entries_model() -> Seq<(Seq<char>, Seq<char>, bool)> {
    seq![
        (seq!['S', 'a', 'm'], seq!['E', 'u', 'r', 'o', 'p', 'e', '/', 'L', 'o', 'n', 'd', 'o', 'n'], true),
        (seq!['M', 'i', 'k', 'a'], seq!['A', 's', 'i', 'a', '/', 'T', 'o', 'k', 'y', 'o'], false),
        (
            seq!['A', 'n', 'a'],
            seq!['A', 'm', 'e', 'r', 'i', 'c', 'a', '/', 'N', 'e', 'w', '_', 'Y', 'o', 'r', 'k'],
            false,
        ),
        (
            seq!['P', 'r', 'i', 'y', 'a'],
            seq!['A', 's', 'i', 'a', '/', 'K', 'o', 'l', 'k', 'a', 't', 'a'],
            false,
        ),
        (
            seq!['L', 'e', 'o'],
            seq!['A', 'u', 's', 't', 'r', 'a', 'l', 'i', 'a', '/', 'S', 'y', 'd', 'n', 'e', 'y'],
            false,
        ),
    ]
}

fn stored_entry(label: Vec<char>, iana_id: Vec<char>, favorite: bool) -> (r: StoredEntry)
    ensures
        r.label@ == label@,
        r.iana_id@ == iana_id@,
        r.favorite == favorite,
{
    StoredEntry { label: string_of(&label), iana_id: string_of(&iana_id), favorite }
}

/// The default entries, as saved entries to be resolved.
pub fn default_stored_entries() -> (r: Vec<StoredEntry>)
    ensures
        r@.len() == default_entries_model().len(),
        forall|k: int|
            0 <= k < r@.len() ==> (#[trigger] r@[k]).label@ == default_entries_model()[k].0
                && r@[k].iana_id@ == default_entries_model()[k].1 && r@[k].favorite
                == default_entries_model()[k].2,
{
    let mut out: Vec<StoredEntry> = Vec::new();
    out.push(stored_entry(vec!['S', 'a', 'm'], vec!['E', 'u', 'r', 'o', 'p', 'e', '/', 'L', 'o', 'n', 'd', 'o', 'n'], true));
    out.push(stored_entry(vec!['M', 'i', 'k', 'a'], vec!['A', 's', 'i', 'a', '/', 'T', 'o', 'k', 'y', 'o'], false));
    out.push(
        stored_entry(
            vec!['A', 'n', 'a'],
            vec!['A', 'm', 'e', 'r', 'i', 'c', 'a', '/', 'N', 'e', 'w', '_', 'Y', 'o', 'r', 'k'],
            false,
        ),
    );
    out.push(
        stored_entry(
            vec!['P', 'r', 'i', 'y', 'a'],
            vec!['A', 's', 'i', 'a', '/', 'K', 'o', 'l', 'k', 'a', 't', 'a'],
            false,
        ),
    );
    out.push(
        stored_entry(
            vec!['L', 'e', 'o'],
            vec!['A', 'u', 's', 't', 'r', 'a', 'l', 'i', 'a', '/', 'S', 'y', 'd', 'n', 'e', 'y'],
            false,
        ),
    );
    assert(out@[0].label@ =~= default_entries_model()[0].0);
    assert(out@[0].iana_id@ =~= default_entries_model()[0].1);
    assert(out@[1].label@ =~= default_entries_model()[1].0);
    assert(out@[1].iana_id@ =~= default_entries_model()[1].1);
    assert(out@[2].label@ =~= default_entries_model()[2].0);
    assert(out@[2].iana_id@ =~= default_entries_model()[2].1);
    assert(out@[3].label@ =~= default_entries_model()[3].0);
    assert(out@[3].iana_id@ =~= default_entries_model()[3].1);
    assert(out@[4].label@ =~= default_entries_model()[4].0);
    assert(out@[4].iana_id@ =~= default_entries_model()[4].1);
    out
}

/// An entry resolved as an offset, saved by its identifier and restored
/// again as an offset, comes back with the same identifier, offset and zone.
pub proof fn lemma_offset_entry_restored_unchanged(
    saved: TimezoneEntryView,
    text: Seq<char>,
    restored: TimezoneEntryView,
)
    requires
        entry_resolved_from(saved, text),
        saved.offset_seconds is Some,
        entry_resolved_from(restored, trim(saved.iana_id)),
        restored.offset_seconds is Some,
    ensures
        restored.iana_id == saved.iana_id,
        restored.offset_seconds == saved.offset_seconds,
        restored.zone == saved.zone,
{
    lemma_offset_resolution_round_trip(text);
}

/// Increasing positions below `n` that include every position below `n` are
/// exactly `0, 1, …, n - 1`.
pub proof fn lemma_increasing_cover(idx: Seq<int>, n: int)
    requires
        0 <= n,
        forall|k: int| 0 <= k < idx.len() ==> 0 <= #[trigger] idx[k] < n,
        forall|k: int, l: int| 0 <= k < l < idx.len() ==> idx[k] < idx[l],
        forall|i: int| 0 <= i < n ==> idx.contains(i),
    ensures
        idx.len() == n,
        forall|m: int| 0 <= m < n ==> #[trigger] idx[m] == m,
    decreases n,
{
    if n > 0 {
        assert(idx.contains(n - 1));
        let w = choose|w: int| 0 <= w < idx.len() && idx[w] == n - 1;
        assert(w == idx.len() - 1) by {
            if w < idx.len() - 1 {
                assert(idx[w] < idx[w + 1]);
            }
        }
        let p = idx.drop_last();
        assert forall|k: int| 0 <= k < p.len() implies 0 <= #[trigger] p[k] < n - 1 by {
            assert(idx[k] < idx[w]);
        }
        assert forall|i: int| 0 <= i < n - 1 implies p.contains(i) by {
            assert(idx.contains(i));
            let v = choose|v: int| 0 <= v < idx.len() && idx[v] == i;
            assert(v != w);
            assert(p[v] == i);
        }
        lemma_increasing_cover(p, n - 1);
        assert forall|m: int| 0 <= m < n implies #[trigger] idx[m] == m by {
            if m < n - 1 {
                assert(p[m] == m);
            }
        }
    } else {
        if idx.len() > 0 {
            assert(0 <= idx[0] < n);
        }
    }
}

/// When every saved identifier resolved, restoring gives back every saved
/// entry, in saved order, with its label and favourite flag and the
/// identifier and zone its resolution gives.
pub proof fn lemma_all_resolved_all_restored(
    entries: Seq<TimezoneEntry>,
    stored: Seq<StoredEntry>,
    resolved: Seq<Option<ResolvedTimezone>>,
    idx: Seq<int>,
)
    requires
        stored_restored_as(entries, stored, resolved, idx),
        forall|i: int| 0 <= i < stored.len() && #[trigger] resolved[i] is Some ==> idx.contains(i),
        forall|i: int| 0 <= i < stored.len() ==> #[trigger] resolved[i] is Some,
    ensures
        entries.len() == stored.len(),
        forall|k: int|
            0 <= k < entries.len() ==> {
                &&& (#[trigger] entries[k])@.label == stored[k].label@
                &&& entries[k]@.favorite == stored[k].favorite
                &&& entries[k]@.iana_id == resolved[k].unwrap().canonical_id@
                &&& entries[k]@.zone == resolved[k].unwrap().timezone
            },
{
    assert forall|i: int| 0 <= i < stored.len() implies idx.contains(i) by {
        assert(resolved[i] is Some);
    }
    lemma_increasing_cover(idx, stored.len() as int);
    assert forall|k: int| 0 <= k < entries.len() implies {
        &&& (#[trigger] entries[k])@.label == stored[k].label@
        &&& entries[k]@.favorite == stored[k].favorite
        &&& entries[k]@.iana_id == resolved[k].unwrap().canonical_id@
        &&& entries[k]@.zone == resolved[k].unwrap().timezone
    } by {
        assert(idx[k] == k);
    }
}

} // verus!
