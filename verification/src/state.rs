//! The record of which memory items were already stored, and where that
//! record lives on disk.
use vstd::prelude::*;
use indexmap::IndexSet;
use crate::paths::{components, components_exec, join_path, join_path_exec};
use crate::text::{chars_eq, chars_of, seqs_of, string_from_chars};
use crate::fingerprint_set::{
    fingerprint_entries, fingerprint_set_contains, fingerprint_set_insert, fingerprint_set_len,
    fingerprint_set_shift_remove_index, new_fingerprint_set,
};

verus! {

/// The most fingerprints the record keeps; older ones are dropped first.
pub const MAX_IMPORTED_FINGERPRINTS: usize = 50_000;

/// The fingerprints of the items stored so far, oldest first.
pub struct SyncState {
    pub imported_fingerprints: IndexSet<String>,
}

/// The record after `fingerprint` is marked: appended unless already
/// present, then the oldest entries dropped until at most
/// `MAX_IMPORTED_FINGERPRINTS` remain.
pub open spec fn marked(entries: Seq<Seq<char>>, fingerprint: Seq<char>) -> Seq<Seq<char>> {
    let grown = if entries.contains(fingerprint) {
        entries
    } else {
        entries.push(fingerprint)
    };
    if grown.len() > MAX_IMPORTED_FINGERPRINTS {
        grown.skip(grown.len() - MAX_IMPORTED_FINGERPRINTS)
    } else {
        grown
    }
}

impl SyncState {
    /// The fingerprints held, oldest first.
    pub open spec fn entries(&self) -> Seq<Seq<char>> {
        fingerprint_entries(self.imported_fingerprints)
    }

    /// An empty record.
    pub fn new() -> (res: Self)
        ensures
            res.entries() == Seq::<Seq<char>>::empty(),
    {
        SyncState { imported_fingerprints: new_fingerprint_set() }
    }

    /// Records that the item with `fingerprint` was stored, dropping the
    /// oldest fingerprints beyond `MAX_IMPORTED_FINGERPRINTS`.
    pub fn mark_imported(&mut self, fingerprint: String)
        ensures
            final(self).entries() == marked(old(self).entries(), fingerprint@),
    {
        let ghost value = fingerprint@;
        fingerprint_set_insert(&mut self.imported_fingerprints, fingerprint);
        let ghost grown = self.entries();
        while fingerprint_set_len(&self.imported_fingerprints) > MAX_IMPORTED_FINGERPRINTS
            invariant
                grown == (if old(self).entries().contains(value) {
                    old(self).entries()
                } else {
                    old(self).entries().push(value)
                }),
                self.entries().len() <= grown.len(),
                self.entries() == grown.skip(grown.len() - self.entries().len()),
                grown.len() > MAX_IMPORTED_FINGERPRINTS ==> self.entries().len()
                    >= MAX_IMPORTED_FINGERPRINTS,
                grown.len() <= MAX_IMPORTED_FINGERPRINTS ==> self.entries() == grown,
            decreases self.entries().len(),
        {
            let ghost before = self.entries();
            fingerprint_set_shift_remove_index(&mut self.imported_fingerprints, 0);
            assert(self.entries() =~= grown.skip(grown.len() - self.entries().len())) by {
                assert(before.remove(0) =~= before.skip(1));
            }
        }
        assert(grown.skip(0) =~= grown);
    }

    /// Whether the item with `fingerprint` was recorded as stored.
    pub fn contains(&self, fingerprint: &str) -> (res: bool)
        ensures
            res == self.entries().contains(fingerprint@),
    {
        fingerprint_set_contains(&self.imported_fingerprints, fingerprint)
    }

    /// The fingerprints held.
    pub fn imported_fingerprints(&self) -> (res: &IndexSet<String>)
        ensures
            fingerprint_entries(*res) == self.entries(),
    {
        &self.imported_fingerprints
    }

    /// Replaces every fingerprint held with `imported_fingerprints`.
    pub fn replace_imported_fingerprints(&mut self, imported_fingerprints: IndexSet<String>)
        ensures
            final(self).entries() == fingerprint_entries(imported_fingerprints),
    {
        self.imported_fingerprints = imported_fingerprints;
    }
}

impl Default for SyncState {
    fn default() -> (res: Self)
        ensures
            res.entries() == Seq::<Seq<char>>::empty(),
    {
        SyncState::new()
    }
}

/// `base` joined with each of `names` in turn.
pub open spec fn join_all(base: Seq<char>, names: Seq<Seq<char>>) -> Seq<char>
    decreases names.len(),
{
    if names.len() == 0 {
        base
    } else {
        join_path(join_all(base, names.drop_last()), names.last())
    }
}

/// Where the record lives by default: `<home>/.codex/codex-mem9/state.json`.
pub open spec fn default_state_path_spec(home: Seq<char>) -> Seq<char> {
    join_all(home, seq![".codex"@, "codex-mem9"@, "state.json"@])
}

/// Where earlier releases kept the record.
pub open spec fn legacy_state_candidates_spec(home: Seq<char>) -> Seq<Seq<char>> {
    seq![
        join_all(home, seq!["Library"@, "Application Support"@, "ai.dmego.codex-mem9"@, "state.json"@]),
        join_all(home, seq![".local"@, "share"@, "codex-mem9"@, "state.json"@]),
    ]
}

/// `base` joined with each of `names` in turn.
fn join_names(base: &str, names: &[&str]) -> (res: String)
    ensures
        res@ == join_all(base@, names@.map_values(|n: &str| n@)),
{
    let ghost nv = names@.map_values(|n: &str| n@);
    let mut out = chars_of(base);
    let mut i: usize = 0;
    assert(nv.take(0) =~= Seq::<Seq<char>>::empty());
    while i < names.len()
        invariant
            i <= names@.len(),
            nv == names@.map_values(|n: &str| n@),
            out@ == join_all(base@, nv.take(i as int)),
        decreases names@.len() - i,
    {
        assert(nv.take(i + 1).drop_last() =~= nv.take(i as int));
        assert(nv.take(i + 1).last() == names@[i as int]@);
        out = join_path_exec(out.as_slice(), chars_of(names[i]).as_slice());
        i = i + 1;
    }
    assert(nv.take(names@.len() as int) =~= nv);
    string_from_chars(out.as_slice())
}

/// Where the record lives by default.
pub fn default_state_path(home_dir: &str) -> (res: String)
    ensures
        res@ == default_state_path_spec(home_dir@),
{
    let names: [&str; 3] = [".codex", "codex-mem9", "state.json"];
    let r = join_names(home_dir, names.as_slice());
    assert(names@.map_values(|n: &str| n@) =~= seq![".codex"@, "codex-mem9"@, "state.json"@]);
    r
}

/// Where earlier releases kept the record.
pub fn legacy_state_candidates(home_dir: &str) -> (res: Vec<String>)
    ensures
        res@.map_values(|s: String| s@) == legacy_state_candidates_spec(home_dir@),
{
    let mac: [&str; 4] = ["Library", "Application Support", "ai.dmego.codex-mem9", "state.json"];
    let xdg: [&str; 4] = [".local", "share", "codex-mem9", "state.json"];
    let first = join_names(home_dir, mac.as_slice());
    let second = join_names(home_dir, xdg.as_slice());
    assert(mac@.map_values(|n: &str| n@) =~= seq![
        "Library"@,
        "Application Support"@,
        "ai.dmego.codex-mem9"@,
        "state.json"@,
    ]);
    assert(xdg@.map_values(|n: &str| n@) =~= seq![".local"@, "share"@, "codex-mem9"@, "state.json"@]);
    let mut res: Vec<String> = Vec::new();
    res.push(first);
    res.push(second);
    assert(res@.map_values(|s: String| s@) =~= legacy_state_candidates_spec(home_dir@));
    res
}

/// Two path texts name the same path (`PartialEq for Path`: same
/// components).
pub fn same_path(a: &str, b: &str) -> (res: bool)
    ensures
        res == (components(a@) == components(b@)),
{
    let ca = components_exec(chars_of(a).as_slice());
    let cb = components_exec(chars_of(b).as_slice());
    if ca.len() != cb.len() {
        assert(seqs_of(ca@).len() != seqs_of(cb@).len());
        return false;
    }
    let mut i: usize = 0;
    while i < ca.len()
        invariant
            seqs_of(ca@) == components(a@),
            seqs_of(cb@) == components(b@),
            ca@.len() == cb@.len(),
            i <= ca@.len(),
            forall|k: int| 0 <= k < i ==> ca@[k]@ == cb@[k]@,
        decreases ca@.len() - i,
    {
        if !chars_eq(ca[i].as_slice(), cb[i].as_slice()) {
            assert(seqs_of(ca@)[i as int] != seqs_of(cb@)[i as int]);
            return false;
        }
        i = i + 1;
    }
    assert(seqs_of(ca@) =~= seqs_of(cb@));
    true
}

/// The legacy record files to migrate from, when the record at `path` is
/// missing: the legacy locations under `home`, when `path` is the
/// default record path under `home`; none otherwise (or without a home).
pub open spec fn state_migration_candidates_spec(home: Option<Seq<char>>, path: Seq<char>) -> Seq<
    Seq<char>,
> {
    match home {
        Some(h) => if components(path) == components(default_state_path_spec(h)) {
            legacy_state_candidates_spec(h)
        } else {
            seq![]
        },
        None => seq![],
    }
}

/// The legacy record files to migrate from when the record at `path` is
/// missing (see `state_migration_candidates_spec`).
pub fn state_migration_candidates(home: Option<&str>, path: &str) -> (res: Vec<String>)
    ensures
        res@.map_values(|s: String| s@) == state_migration_candidates_spec(
            match home {
                Some(h) => Some(h@),
                None => None,
            },
            path@,
        ),
{
    match home {
        Some(h) => {
            let default_path = default_state_path(h);
            if same_path(path, default_path.as_str()) {
                legacy_state_candidates(h)
            } else {
                let res: Vec<String> = Vec::new();
                assert(res@.map_values(|s: String| s@) =~= Seq::<Seq<char>>::empty());
                res
            }
        },
        None => {
            let res: Vec<String> = Vec::new();
            assert(res@.map_values(|s: String| s@) =~= Seq::<Seq<char>>::empty());
            res
        },
    }
}

/// Which legacy record file to copy to the record's place: the first
/// that exists, and only when the record itself does not.
pub fn migration_source(path_exists: bool, candidate_exists: &[bool]) -> (res: Option<usize>)
    ensures
        match res {
            Some(i) => {
                &&& !path_exists
                &&& i < candidate_exists@.len()
                &&& candidate_exists@[i as int]
                &&& forall|k: int| 0 <= k < i ==> !candidate_exists@[k]
            },
            None => path_exists || forall|k: int|
                0 <= k < candidate_exists@.len() ==> !candidate_exists@[k],
        },
{
    if path_exists {
        return None;
    }
    let mut i: usize = 0;
    while i < candidate_exists.len()
        invariant
            !path_exists,
            i <= candidate_exists@.len(),
            forall|k: int| 0 <= k < i ==> !candidate_exists@[k],
        decreases candidate_exists@.len() - i,
    {
        if candidate_exists[i] {
            return Some(i);
        }
        i = i + 1;
    }
    None
}

/// Law (read after write): once a fingerprint is marked, the record
/// holds it, unless it was already there among the oldest entries beyond
/// the capacity, which marking drops.
pub proof fn lemma_marked_is_recorded(entries: Seq<Seq<char>>, fingerprint: Seq<char>)
    requires
        entries.len() <= MAX_IMPORTED_FINGERPRINTS || !entries.subrange(
            0,
            entries.len() - MAX_IMPORTED_FINGERPRINTS,
        ).contains(fingerprint),
    ensures
        marked(entries, fingerprint).contains(fingerprint),
{
    let grown = if entries.contains(fingerprint) {
        entries
    } else {
        entries.push(fingerprint)
    };
    if entries.contains(fingerprint) {
        let p = entries.index_of(fingerprint);
        entries.index_of_first_ensures(fingerprint);
        if grown.len() > MAX_IMPORTED_FINGERPRINTS {
            let cut = grown.len() - MAX_IMPORTED_FINGERPRINTS;
            if p < cut {
                assert(entries.subrange(0, cut)[p] == fingerprint);
            }
            assert(grown.skip(cut)[p - cut] == fingerprint);
        }
    } else {
        assert(grown[grown.len() - 1] == fingerprint);
        if grown.len() > MAX_IMPORTED_FINGERPRINTS {
            let cut = grown.len() - MAX_IMPORTED_FINGERPRINTS;
            assert(grown.skip(cut)[grown.len() - 1 - cut] == fingerprint);
        }
    }
}

/// The record after each of `fingerprints` is marked, in order.
pub open spec fn marked_all(entries: Seq<Seq<char>>, fingerprints: Seq<Seq<char>>) -> Seq<Seq<char>>
    decreases fingerprints.len(),
{
    if fingerprints.len() == 0 {
        entries
    } else {
        marked(marked_all(entries, fingerprints.drop_last()), fingerprints.last())
    }
}

/// Law (a whole run): while the record stays within its capacity, marking
/// a run of fingerprints keeps every entry it held and records every one
/// of them.
pub proof fn lemma_run_marks_all_recorded(entries: Seq<Seq<char>>, fingerprints: Seq<Seq<char>>)
    requires
        entries.len() + fingerprints.len() <= MAX_IMPORTED_FINGERPRINTS,
    ensures
        marked_all(entries, fingerprints).len() <= entries.len() + fingerprints.len(),
        forall|x: Seq<char>| #[trigger] entries.contains(x) ==> marked_all(entries, fingerprints).contains(x),
        forall|k: int|
            0 <= k < fingerprints.len() ==> marked_all(entries, fingerprints).contains(
                #[trigger] fingerprints[k],
            ),
    decreases fingerprints.len(),
{
    if fingerprints.len() > 0 {
        let init = fingerprints.drop_last();
        lemma_run_marks_all_recorded(entries, init);
        let prev = marked_all(entries, init);
        let f = fingerprints.last();
        let r = marked_all(entries, fingerprints);
        if prev.contains(f) {
            assert(r == prev);
        } else {
            assert(r == prev.push(f));
            assert(r[prev.len() as int] == f);
            assert forall|x: Seq<char>| #[trigger] prev.contains(x) implies r.contains(x) by {
                let i = choose|i: int| 0 <= i < prev.len() && prev[i] == x;
                assert(r[i] == x);
            }
        }
        assert forall|k: int| 0 <= k < fingerprints.len() implies r.contains(
            #[trigger] fingerprints[k],
        ) by {
            if k < init.len() {
                assert(init[k] == fingerprints[k]);
            }
        }
    }
}

/// Law (capacity): a record never holds more than
/// `MAX_IMPORTED_FINGERPRINTS` fingerprints once one is marked.
pub proof fn lemma_marked_within_capacity(entries: Seq<Seq<char>>, fingerprint: Seq<char>)
    ensures
        marked(entries, fingerprint).len() <= MAX_IMPORTED_FINGERPRINTS,
{
}

/// Law (oldest first): marking a new fingerprint on a full record drops
/// exactly the oldest entry and keeps the others in order; with room left,
/// nothing is dropped.
pub proof fn lemma_marked_evicts_oldest(entries: Seq<Seq<char>>, fingerprint: Seq<char>)
    requires
        !entries.contains(fingerprint),
        entries.len() <= MAX_IMPORTED_FINGERPRINTS,
    ensures
        entries.len() == MAX_IMPORTED_FINGERPRINTS ==> marked(entries, fingerprint)
            == entries.drop_first().push(fingerprint),
        entries.len() < MAX_IMPORTED_FINGERPRINTS ==> marked(entries, fingerprint)
            == entries.push(fingerprint),
{
    if entries.len() == MAX_IMPORTED_FINGERPRINTS {
        assert(entries.push(fingerprint).skip(1) =~= entries.drop_first().push(fingerprint));
    }
}

/// Law: marking keeps a record free of repeated fingerprints.
pub proof fn lemma_marked_no_duplicates(entries: Seq<Seq<char>>, fingerprint: Seq<char>)
    requires
        entries.no_duplicates(),
    ensures
        marked(entries, fingerprint).no_duplicates(),
{
    let grown = if entries.contains(fingerprint) {
        entries
    } else {
        entries.push(fingerprint)
    };
    assert(grown.no_duplicates()) by {
        if !entries.contains(fingerprint) {
            assert forall|i: int, j: int| 0 <= i < grown.len() && 0 <= j < grown.len() && i != j
                implies grown[i] != grown[j] by {
                if i == entries.len() as int {
                    assert(entries[j] == grown[j]);
                } else if j == entries.len() as int {
                    assert(entries[i] == grown[i]);
                }
            }
        }
    }
    if grown.len() > MAX_IMPORTED_FINGERPRINTS {
        let cut = grown.len() - MAX_IMPORTED_FINGERPRINTS;
        let kept = grown.skip(cut);
        assert forall|i: int, j: int| 0 <= i < kept.len() && 0 <= j < kept.len() && i != j implies kept[i]
            != kept[j] by {
            assert(kept[i] == grown[i + cut]);
            assert(kept[j] == grown[j + cut]);
        }
    }
}

} // verus!
