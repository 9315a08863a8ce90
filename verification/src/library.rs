use vstd::prelude::*;
use vstd::set_lib::{lemma_int_range, lemma_len_subset, lemma_map_size, set_int_range};
use crate::decimal::{decimal_text, lemma_decimal_text_injective, number_text};
use crate::keyed::{
    distinct_keys, distinct_texts, entries_map, entry_index, find_entry, find_text, has_entry, insert_text,
    lemma_entry_at, lemma_push_entry, lemma_take_entry, remove_entry, remove_text, same_text, set_entry, text_set,
};
use crate::model::{
    Diagnostic, DiagnosticLevel, DiagnosticView, copy_strings, storage_key, texts_of, ComparisonSet, ComparisonView, DeviceInfo, RememberedDevice, RememberedView,
};
use crate::text::{chars_of, string_of, trim, trim_vec};

verus! {

/// The version of the saved library layout.
pub const SCHEMA_VERSION: u32 = 2;

/// The most profiles one comparison bank may hold.
pub const MAX_COMPARISON_PROFILES: usize = 9;

/// The comparison candidate that plays the output without equalization.
pub const COMPARISON_BYPASS_ID: &'static str = "bypass";

/// The saved state of the service: its profiles (id and name), the profile
/// assigned to each output, the outputs that are bypassed, the outputs it
/// remembers, their comparison banks, and the global bypass. Each list holds
/// a key at most once.
#[derive(Debug, Clone)]
pub struct Library {
    pub schema_version: u32,
    pub profiles: Vec<(String, String)>,
    pub assignments: Vec<(String, String)>,
    pub bypassed_devices: Vec<String>,
    pub remembered_devices: Vec<(String, RememberedDevice)>,
    pub comparison_sets: Vec<(String, ComparisonSet)>,
    pub global_bypass: bool,
}

pub struct LibraryView {
    pub schema_version: u32,
    pub profiles: Map<Seq<char>, Seq<char>>,
    pub assignments: Map<Seq<char>, Seq<char>>,
    pub bypassed: Set<Seq<char>>,
    pub remembered: Map<Seq<char>, RememberedView>,
    pub comparisons: Map<Seq<char>, ComparisonView>,
    pub global_bypass: bool,
}

impl View for Library {
    type V = LibraryView;

    open spec fn view(&self) -> LibraryView {
        LibraryView {
            schema_version: self.schema_version,
            profiles: entries_map(self.profiles@),
            assignments: entries_map(self.assignments@),
            bypassed: text_set(self.bypassed_devices@),
            remembered: entries_map(self.remembered_devices@),
            comparisons: entries_map(self.comparison_sets@),
            global_bypass: self.global_bypass,
        }
    }
}

/// Whether some output of a list has the storage key.
pub open spec fn known_device(devices: Seq<DeviceInfo>, key: Seq<char>) -> bool {
    exists|i: int| 0 <= i < devices.len() && storage_key((#[trigger] devices[i]).key@) == key
}

/// The refusal for an output that is not in the list.
pub open spec fn unknown_device_message(key: Seq<char>) -> Seq<char> {
    "output "@ + key + " is not known to MassiveEQ"@
}

/// The refusal for a profile id that the library does not hold.
pub open spec fn missing_profile_message(id: Seq<char>) -> Seq<char> {
    "profile "@ + id + " does not exist"@
}

/// The library after a change of an output's assignment: the output is no
/// longer bypassed, and its comparison bank, if any, is disabled.
pub open spec fn after_assignment(
    old: LibraryView,
    assignments: Map<Seq<char>, Seq<char>>,
    key: Seq<char>,
) -> LibraryView {
    LibraryView {
        assignments,
        bypassed: old.bypassed.remove(key),
        comparisons: if old.comparisons.contains_key(key) {
            old.comparisons.insert(
                key,
                ComparisonView {
                    profile_ids: old.comparisons[key].profile_ids,
                    active_profile_id: old.comparisons[key].active_profile_id,
                    enabled: false,
                },
            )
        } else {
            old.comparisons
        },
        ..old
    }
}

/// Assigning profile `id` to output `key` (an empty id clears the
/// assignment). `stored` is what reading the stored profile gives: whether it
/// may be activated, or why it could not be read; it is consulted only when the
/// library holds the profile.
pub open spec fn assignment_result(
    old: LibraryView,
    devices: Seq<DeviceInfo>,
    key: Seq<char>,
    id: Seq<char>,
    stored: Result<bool, Seq<char>>,
) -> Result<LibraryView, Seq<char>> {
    if !known_device(devices, key) {
        Err(unknown_device_message(key))
    } else if id.len() == 0 {
        Ok(after_assignment(old, old.assignments.remove(key), key))
    } else if old.profiles.contains_key(id) {
        match stored {
            Err(e) => Err(e),
            Ok(false) => Err("profile has validation errors and cannot be assigned"@),
            Ok(true) => Ok(after_assignment(old, old.assignments.insert(key, id), key)),
        }
    } else {
        Err("profile "@ + id + " not found"@)
    }
}

impl Library {
    /// Each list holds a key at most once.
    pub open spec fn wf(&self) -> bool {
        &&& distinct_keys(self.profiles@)
        &&& distinct_keys(self.assignments@)
        &&& distinct_texts(self.bypassed_devices@)
        &&& distinct_keys(self.remembered_devices@)
        &&& distinct_keys(self.comparison_sets@)
    }

    /// An empty library.
    pub fn new() -> (r: Self)
        ensures
            r.wf(),
            r@.schema_version == SCHEMA_VERSION,
            r@.profiles == Map::<Seq<char>, Seq<char>>::empty(),
            r@.assignments == Map::<Seq<char>, Seq<char>>::empty(),
            r@.bypassed == Set::<Seq<char>>::empty(),
            r@.remembered == Map::<Seq<char>, RememberedView>::empty(),
            r@.comparisons == Map::<Seq<char>, ComparisonView>::empty(),
            !r@.global_bypass,
    {
        let r = Library {
            schema_version: SCHEMA_VERSION,
            profiles: Vec::new(),
            assignments: Vec::new(),
            bypassed_devices: Vec::new(),
            remembered_devices: Vec::new(),
            comparison_sets: Vec::new(),
            global_bypass: false,
        };
        proof {
            assert(r@.profiles =~= Map::<Seq<char>, Seq<char>>::empty());
            assert(r@.assignments =~= Map::<Seq<char>, Seq<char>>::empty());
            assert(r@.bypassed =~= Set::<Seq<char>>::empty());
            assert(r@.remembered =~= Map::<Seq<char>, RememberedView>::empty());
            assert(r@.comparisons =~= Map::<Seq<char>, ComparisonView>::empty());
        }
        r
    }

    /// The profile assigned to an output, if any.
    pub fn assignment(&self, key: &str) -> (r: Option<String>)
        requires
            self.wf(),
        ensures
            match r {
                Some(id) => self@.assignments.contains_key(key@) && self@.assignments[key@]
                    == id@,
                None => !self@.assignments.contains_key(key@),
            },
    {
        match find_entry(&self.assignments, key) {
            Some(i) => {
                proof {
                    lemma_entry_at(self.assignments@, i as int);
                }
                Some(self.assignments[i].1.clone())
            },
            None => None,
        }
    }

    /// Whether an output is bypassed.
    pub fn is_bypassed(&self, key: &str) -> (r: bool)
        ensures
            r == self@.bypassed.contains(key@),
    {
        find_text(&self.bypassed_devices, key).is_some()
    }

    /// Whether the library holds a profile.
    pub fn has_profile(&self, id: &str) -> (r: bool)
        ensures
            r == self@.profiles.contains_key(id@),
    {
        find_entry(&self.profiles, id).is_some()
    }

    /// Adds a profile, or renames it when its id is held already.
    pub fn insert_profile(&mut self, id: String, name: String)
        requires
            old(self).wf(),
        ensures
            final(self).wf(),
            final(self)@ == (LibraryView {
                profiles: old(self)@.profiles.insert(id@, name@),
                ..old(self)@
            }),
    {
        set_entry(&mut self.profiles, id, name);
    }

    /// Gives profile `id` the trimmed `name`, or refuses an unknown id.
    pub fn rename_profile(&mut self, id: &str, name: &str) -> (r: Result<(), String>)
        requires
            old(self).wf(),
        ensures
            final(self).wf(),
            match r {
                Ok(()) => old(self)@.profiles.contains_key(id@) && final(self)@ == (LibraryView {
                    profiles: old(self)@.profiles.insert(id@, trim(name@)),
                    ..old(self)@
                }),
                Err(e) => !old(self)@.profiles.contains_key(id@) && e@ == missing_profile_message(
                    id@,
                ) && final(self)@ == old(self)@,
            },
    {
        if !self.has_profile(id) {
            return Err(missing_message(id));
        }
        let trimmed = string_of(&trim_vec(&chars_of(name)));
        set_entry(&mut self.profiles, String::from_str(id), trimmed);
        Ok(())
    }

    /// Assigns a profile to an output, or clears its assignment (see
    /// [`assignment_result`]).
    pub fn assign_profile(
        &mut self,
        devices: &Vec<DeviceInfo>,
        key: &str,
        id: &str,
        stored: Result<bool, String>,
    ) -> (r: Result<(), String>)
        requires
            old(self).wf(),
        ensures
            final(self).wf(),
            match r {
                Ok(()) => assignment_result(
                    old(self)@,
                    devices@,
                    key@,
                    id@,
                    match stored {
                        Ok(b) => Ok(b),
                        Err(e) => Err(e@),
                    },
                ) == Ok::<LibraryView, Seq<char>>(final(self)@),
                Err(e) => assignment_result(
                    old(self)@,
                    devices@,
                    key@,
                    id@,
                    match stored {
                        Ok(b) => Ok(b),
                        Err(e) => Err(e@),
                    },
                ) == Err::<LibraryView, Seq<char>>(e@) && final(self)@ == old(self)@,
            },
    {
        if !device_is_known(devices, key) {
            return Err(unknown_device(key));
        }
        if id.is_empty() {
            remove_entry(&mut self.assignments, key);
        } else {
            if self.has_profile(id) {
                match stored {
                    Err(e) => {
                        return Err(e);
                    },
                    Ok(false) => {
                        return Err(
                            String::from_str("profile has validation errors and cannot be assigned"),
                        );
                    },
                    Ok(true) => {
                        set_entry(&mut self.assignments, String::from_str(key), String::from_str(id));
                    },
                }
            } else {
                let mut e = String::from_str("profile ");
                e.append(id);
                e.append(" not found");
                return Err(e);
            }
        }
        remove_text(&mut self.bypassed_devices, key);
        self.disable_comparison(key);
        Ok(())
    }

    /// Disables the comparison bank of an output, if it has one.
    fn disable_comparison(&mut self, key: &str)
        requires
            old(self).wf(),
        ensures
            final(self).wf(),
            final(self)@ == (LibraryView {
                comparisons: if old(self)@.comparisons.contains_key(key@) {
                    old(self)@.comparisons.insert(
                        key@,
                        ComparisonView {
                            profile_ids: old(self)@.comparisons[key@].profile_ids,
                            active_profile_id: old(self)@.comparisons[key@].active_profile_id,
                            enabled: false,
                        },
                    )
                } else {
                    old(self)@.comparisons
                },
                ..old(self)@
            }),
    {
        match find_entry(&self.comparison_sets, key) {
            Some(i) => {
                proof {
                    lemma_entry_at(self.comparison_sets@, i as int);
                }
                let mut c = self.comparison_sets[i].1.duplicate();
                c.enabled = false;
                set_entry(&mut self.comparison_sets, String::from_str(key), c);
            },
            None => {},
        }
    }

    /// Bypasses an output, or ends its bypass.
    pub fn set_device_bypass(&mut self, devices: &Vec<DeviceInfo>, key: &str, bypassed: bool) -> (r:
        Result<(), String>)
        requires
            old(self).wf(),
        ensures
            final(self).wf(),
            match r {
                Ok(()) => known_device(devices@, key@) && final(self)@ == (LibraryView {
                    bypassed: if bypassed {
                        old(self)@.bypassed.insert(key@)
                    } else {
                        old(self)@.bypassed.remove(key@)
                    },
                    ..old(self)@
                }),
                Err(e) => !known_device(devices@, key@) && e@ == unknown_device_message(key@)
                    && final(self)@ == old(self)@,
            },
    {
        if !device_is_known(devices, key) {
            return Err(unknown_device(key));
        }
        if bypassed {
            insert_text(&mut self.bypassed_devices, String::from_str(key));
        } else {
            remove_text(&mut self.bypassed_devices, key);
        }
        Ok(())
    }

    /// Turns the global bypass on or off.
    pub fn set_global_bypass(&mut self, bypassed: bool)
        ensures
            final(self)@ == (LibraryView { global_bypass: bypassed, ..old(self)@ }),
    {
        self.global_bypass = bypassed;
    }
}

impl Default for Library {
    /// An empty library (see [`Library::new`]).
    fn default() -> (r: Self)
        ensures
            r.wf(),
            r@.schema_version == SCHEMA_VERSION,
            r@.profiles == Map::<Seq<char>, Seq<char>>::empty(),
            r@.assignments == Map::<Seq<char>, Seq<char>>::empty(),
            r@.bypassed == Set::<Seq<char>>::empty(),
            r@.remembered == Map::<Seq<char>, RememberedView>::empty(),
            r@.comparisons == Map::<Seq<char>, ComparisonView>::empty(),
            !r@.global_bypass,
    {
        Library::new()
    }
}

/// Whether some output of the list has the storage key.
pub fn device_is_known(devices: &Vec<DeviceInfo>, key: &str) -> (r: bool)
    ensures
        r == known_device(devices@, key@),
{
    let mut i: usize = 0;
    while i < devices.len()
        invariant
            i <= devices.len(),
            forall|j: int| 0 <= j < i ==> storage_key((#[trigger] devices@[j]).key@) != key@,
        decreases devices.len() - i,
    {
        let k = devices[i].key.as_storage_key();
        if same_text(k.as_str(), key) {
            return true;
        }
        i += 1;
    }
    false
}

fn unknown_device(key: &str) -> (r: String)
    ensures
        r@ == unknown_device_message(key@),
{
    let mut e = String::from_str("output ");
    e.append(key);
    e.append(" is not known to MassiveEQ");
    e
}

fn missing_message(id: &str) -> (r: String)
    ensures
        r@ == missing_profile_message(id@),
{
    let mut e = String::from_str("profile ");
    e.append(id);
    e.append(" does not exist");
    e
}

/// The assignments that remain when profile `id` is deleted.
pub open spec fn without_profile(m: Map<Seq<char>, Seq<char>>, id: Seq<char>) -> Map<Seq<char>, Seq<char>> {
    Map::new(|k: Seq<char>| m.contains_key(k) && m[k] != id, |k: Seq<char>| m[k])
}

/// Whether some profile has the name.
pub open spec fn name_taken(profiles: Map<Seq<char>, Seq<char>>, name: Seq<char>) -> bool {
    exists|id: Seq<char>| profiles.contains_key(id) && #[trigger] profiles[id] == name
}

/// The name asked for, trimmed, or `Untitled Profile` when it is blank.
pub open spec fn base_name(requested: Seq<char>) -> Seq<char> {
    if trim(requested).len() == 0 {
        "Untitled Profile"@
    } else {
        trim(requested)
    }
}

/// A name with a number after it.
pub open spec fn numbered(base: Seq<char>, k: nat) -> Seq<char> {
    base + " "@ + decimal_text(k)
}

/// The name a new profile gets: the name asked for when no profile has it,
/// else that name numbered with the least number from 2 on that no profile has.
pub open spec fn is_unique_name(
    profiles: Map<Seq<char>, Seq<char>>,
    requested: Seq<char>,
    r: Seq<char>,
) -> bool {
    let base = base_name(requested);
    if !name_taken(profiles, base) {
        r == base
    } else {
        exists|k: nat|
            k >= 2 && r == numbered(base, k) && !name_taken(profiles, r) && forall|j: nat|
                2 <= j < k ==> name_taken(profiles, #[trigger] numbered(base, j))
    }
}

/// Whether some entry of a list of profiles has the name.
pub open spec fn listed_name(s: Seq<(String, String)>, name: Seq<char>) -> bool {
    exists|i: int| 0 <= i < s.len() && (#[trigger] s[i]).1@ == name
}

/// A name is taken exactly when some entry of the list has it.
proof fn lemma_name_taken(s: Seq<(String, String)>, name: Seq<char>)
    requires
        distinct_keys(s),
    ensures
        name_taken(entries_map(s), name) <==> exists|i: int| 0 <= i < s.len() && (#[trigger] s[i]).1@ == name,
{
    if name_taken(entries_map(s), name) {
        let id = choose|id: Seq<char>| entries_map(s).contains_key(id) && #[trigger] entries_map(s)[id] == name;
        let i = entry_index(s, id);
        assert(0 <= i < s.len() && s[i].1@ == name);
    }
    if exists|i: int| 0 <= i < s.len() && (#[trigger] s[i]).1@ == name {
        let i = choose|i: int| 0 <= i < s.len() && (#[trigger] s[i]).1@ == name;
        lemma_entry_at(s, i);
        assert(entries_map(s)[s[i].0@] == name);
    }
}

/// Distinct names can be taken by at most as many profiles as there are.
proof fn lemma_numbered_bound(s: Seq<(String, String)>, base: Seq<char>, k: nat)
    requires
        k >= 2,
        forall|j: nat| 2 <= j < k ==> listed_name(s, #[trigger] numbered(base, j)),
    ensures
        k - 2 <= s.len(),
{
    let x = set_int_range(2, k as int);
    let f = |j: int| choose|i: int| 0 <= i < s.len() && (#[trigger] s[i]).1@ == numbered(base, j as nat);
    let y = x.map(f);
    lemma_int_range(2, k as int);
    lemma_int_range(0, s.len() as int);
    assert forall|a: int| x.contains(a) implies 0 <= #[trigger] f(a) < s.len() && s[f(a)].1@ == numbered(base, a as nat) by {
        assert(2 <= (a as nat) < k);
        assert(listed_name(s, numbered(base, a as nat)));
    }
    assert(vstd::relations::injective_on(f, x)) by {
        assert forall|a: int, b: int| x.contains(a) && x.contains(b) && #[trigger] f(a) == #[trigger] f(b) implies a == b by {
            assert(numbered(base, a as nat) == numbered(base, b as nat));
            reveal_strlit(" ");
            assert(decimal_text(a as nat) =~= numbered(base, a as nat).skip((base.len() + 1) as int));
            assert(decimal_text(b as nat) =~= numbered(base, b as nat).skip((base.len() + 1) as int));
            lemma_decimal_text_injective(a as nat, b as nat);
        }
    }
    lemma_map_size(x, y, f);
    assert(y.subset_of(set_int_range(0, s.len() as int)));
    lemma_len_subset(y, set_int_range(0, s.len() as int));
}

/// Whether some entry of the list has the name.
fn name_in(s: &Vec<(String, String)>, name: &str) -> (r: bool)
    ensures
        r == exists|i: int| 0 <= i < s@.len() && (#[trigger] s@[i]).1@ == name@,
{
    let mut i: usize = 0;
    while i < s.len()
        invariant
            i <= s.len(),
            forall|j: int| 0 <= j < i ==> (#[trigger] s@[j]).1@ != name@,
        decreases s.len() - i,
    {
        if same_text(s[i].1.as_str(), name) {
            return true;
        }
        i += 1;
    }
    false
}

impl Library {
    /// Deletes a profile and every assignment of it, or refuses an unknown id.
    pub fn delete_profile(&mut self, id: &str) -> (r: Result<(), String>)
        requires
            old(self).wf(),
        ensures
            final(self).wf(),
            match r {
                Ok(()) => old(self)@.profiles.contains_key(id@) && final(self)@ == (LibraryView {
                    profiles: old(self)@.profiles.remove(id@),
                    assignments: without_profile(old(self)@.assignments, id@),
                    ..old(self)@
                }),
                Err(e) => !old(self)@.profiles.contains_key(id@) && e@ == missing_profile_message(
                    id@,
                ) && final(self)@ == old(self)@,
            },
    {
        if !self.has_profile(id) {
            return Err(missing_message(id));
        }
        remove_entry(&mut self.profiles, id);
        let ghost old_a = self.assignments@;
        let mut kept: Vec<(String, String)> = Vec::new();
        let mut i: usize = 0;
        while i < self.assignments.len()
            invariant
                i <= self.assignments.len(),
                self.assignments@ == old_a,
                distinct_keys(old_a),
                distinct_keys(kept@),
                forall|j: int| 0 <= j < kept@.len() ==> has_entry(old_a.take(i as int), (#[trigger] kept@[j]).0@),
                entries_map(kept@) == without_profile(entries_map(old_a.take(i as int)), id@),
            decreases self.assignments.len() - i,
        {
            proof {
                lemma_take_entry(old_a, i as int);
            }
            let entry_key = self.assignments[i].0.clone();
            let entry_value = self.assignments[i].1.clone();
            let ghost before = kept@;
            if !same_text(entry_value.as_str(), id) {
                proof {
                    if has_entry(kept@, entry_key@) {
                        let j = choose|j: int| 0 <= j < kept@.len() && (#[trigger] kept@[j]).0@ == entry_key@;
                        assert(has_entry(old_a.take(i as int), kept@[j].0@));
                    }
                    lemma_push_entry(kept@, (entry_key, entry_value));
                }
                kept.push((entry_key, entry_value));
            }
            proof {
                let m = entries_map(old_a.take(i as int));
                let m2 = entries_map(old_a.take(i + 1));
                assert(m2 == m.insert(old_a[i as int].0@, old_a[i as int].1@));
                assert(!m.contains_key(old_a[i as int].0@));
                assert(entries_map(kept@) =~= without_profile(m2, id@));
                assert forall|j: int| 0 <= j < kept@.len() implies has_entry(old_a.take(i + 1), (#[trigger] kept@[j]).0@) by {
                    if j < before.len() {
                        assert(kept@[j] == before[j]);
                        let w = choose|w: int| 0 <= w < old_a.take(i as int).len() && (#[trigger] old_a.take(i as int)[w]).0@ == kept@[j].0@;
                        assert(old_a.take(i + 1)[w] == old_a.take(i as int)[w]);
                    } else {
                        assert(old_a.take(i + 1)[i as int] == old_a[i as int]);
                    }
                }
            }
            i += 1;
        }
        proof {
            assert(old_a.take(i as int) =~= old_a);
        }
        self.assignments = kept;
        Ok(())
    }

    /// A name for a new profile that no profile has (see [`is_unique_name`]).
    pub fn unique_name(&self, requested: &str) -> (r: String)
        requires
            self.wf(),
            self.profiles@.len() + 2 <= u64::MAX,
        ensures
            is_unique_name(self@.profiles, requested@, r@),
    {
        let trimmed = trim_vec(&chars_of(requested));
        let base = if trimmed.len() == 0 {
            String::from_str("Untitled Profile")
        } else {
            string_of(&trimmed)
        };
        proof {
            lemma_name_taken(self.profiles@, base@);
        }
        if !name_in(&self.profiles, base.as_str()) {
            return base;
        }
        let mut k: u64 = 2;
        loop
            invariant
                2 <= k <= self.profiles@.len() + 2,
                self.wf(),
                self.profiles@.len() + 2 <= u64::MAX,
                base@ == base_name(requested@),
                name_taken(self@.profiles, base@),
                forall|j: nat| 2 <= j < k ==> listed_name(self.profiles@, #[trigger] numbered(base@, j)),
            decreases self.profiles@.len() + 2 - k,
        {
            let mut candidate = base.clone();
            candidate.append(" ");
            let digits = number_text(k);
            candidate.append(digits.as_str());
            proof {
                lemma_name_taken(self.profiles@, candidate@);
                assert(candidate@ == numbered(base@, k as nat));
            }
            if !name_in(&self.profiles, candidate.as_str()) {
                proof {
                    assert forall|j: nat| 2 <= j < k implies name_taken(self@.profiles, #[trigger] numbered(base@, j)) by {
                        lemma_name_taken(self.profiles@, numbered(base@, j));
                    }
                }
                return candidate;
            }
            proof {
                lemma_numbered_bound(self.profiles@, base@, (k + 1) as nat);
            }
            k = k + 1;
        }
    }
}

// ---------------------------------------------------------------------------
// Comparison banks.

/// The texts of a list without repeats, each where it first occurs.
pub open spec fn dedup(s: Seq<Seq<char>>) -> Seq<Seq<char>>
    decreases s.len(),
{
    if s.len() == 0 {
        s
    } else {
        let d = dedup(s.drop_last());
        if d.contains(s.last()) {
            d
        } else {
            d.push(s.last())
        }
    }
}

/// The first candidate that is neither the dry candidate nor a profile of the
/// library.
pub open spec fn first_missing(ids: Seq<Seq<char>>, profiles: Map<Seq<char>, Seq<char>>) -> Option<
    Seq<char>,
>
    decreases ids.len(),
{
    if ids.len() == 0 {
        None
    } else if ids[0] != COMPARISON_BYPASS_ID@ && !profiles.contains_key(ids[0]) {
        Some(ids[0])
    } else {
        first_missing(ids.drop_first(), profiles)
    }
}

/// The bank that output `key` gets for the requested candidates: the
/// candidates without repeats, 2 to 9 of them, each a profile of the library or
/// the dry candidate; it starts enabled, on the candidate that was active in
/// the output's bank before when that one remains, else on the first.
pub open spec fn planned_comparison(
    lib: LibraryView,
    devices: Seq<DeviceInfo>,
    key: Seq<char>,
    requested: Seq<Seq<char>>,
) -> Result<ComparisonView, Seq<char>> {
    let ids = dedup(requested);
    if !(2 <= ids.len() <= MAX_COMPARISON_PROFILES) {
        Err("choose between 2 and 9 unique comparison candidates"@)
    } else if first_missing(ids, lib.profiles) is Some {
        Err(missing_profile_message(first_missing(ids, lib.profiles)->0))
    } else {
        let active = if lib.comparisons.contains_key(key) && ids.contains(
            lib.comparisons[key].active_profile_id,
        ) {
            lib.comparisons[key].active_profile_id
        } else {
            ids[0]
        };
        if !known_device(devices, key) {
            Err("output is not known to MassiveEQ"@)
        } else {
            Ok(ComparisonView { profile_ids: ids, active_profile_id: active, enabled: true })
        }
    }
}

/// Whether a list of texts holds `k`.
fn holds_text(v: &Vec<String>, k: &str) -> (r: bool)
    ensures
        r == texts_of(v@).contains(k@),
{
    let r = find_text(v, k).is_some();
    proof {
        if r {
            let i = choose|i: int| 0 <= i < v@.len() && (#[trigger] v@[i])@ == k@;
            assert(texts_of(v@)[i] == k@);
        }
        if texts_of(v@).contains(k@) {
            let i = choose|i: int| 0 <= i < texts_of(v@).len() && texts_of(v@)[i] == k@;
            assert(v@[i]@ == k@);
        }
    }
    r
}

/// The requested candidates without repeats.
fn dedup_texts(requested: &Vec<String>) -> (r: Vec<String>)
    ensures
        texts_of(r@) == dedup(texts_of(requested@)),
{
    let mut r: Vec<String> = Vec::new();
    let mut i: usize = 0;
    while i < requested.len()
        invariant
            i <= requested.len(),
            texts_of(r@) == dedup(texts_of(requested@.take(i as int))),
        decreases requested.len() - i,
    {
        let ghost before = r@;
        proof {
            assert(texts_of(requested@.take(i + 1)).drop_last() =~= texts_of(requested@.take(i as int)));
            assert(texts_of(requested@.take(i + 1)).last() == requested@[i as int]@);
        }
        if !holds_text(&r, requested[i].as_str()) {
            r.push(requested[i].clone());
            proof {
                assert(texts_of(r@) =~= texts_of(before).push(requested@[i as int]@));
            }
        }
        i += 1;
    }
    proof {
        assert(requested@.take(i as int) =~= requested@);
    }
    r
}

impl Library {
    /// The first candidate that the library cannot play (see [`first_missing`]).
    fn find_missing(&self, ids: &Vec<String>) -> (r: Option<String>)
        requires
            self.wf(),
        ensures
            match r {
                Some(m) => first_missing(texts_of(ids@), self@.profiles) == Some(m@),
                None => first_missing(texts_of(ids@), self@.profiles) is None,
            },
    {
        let mut i: usize = 0;
        proof {
            assert(texts_of(ids@).skip(0) =~= texts_of(ids@));
        }
        while i < ids.len()
            invariant
                i <= ids.len(),
                self.wf(),
                first_missing(texts_of(ids@), self@.profiles) == first_missing(
                    texts_of(ids@).skip(i as int),
                    self@.profiles,
                ),
            decreases ids.len() - i,
        {
            let id = ids[i].as_str();
            proof {
                assert(texts_of(ids@).skip(i as int)[0] == ids@[i as int]@);
                assert(texts_of(ids@).skip(i as int).drop_first() =~= texts_of(ids@).skip(i + 1));
            }
            if !same_text(id, COMPARISON_BYPASS_ID) && !self.has_profile(id) {
                return Some(ids[i].clone());
            }
            i += 1;
        }
        proof {
            assert(texts_of(ids@).skip(i as int).len() == 0);
        }
        None
    }

    /// The comparison bank that output `key` gets for the requested
    /// candidates (see [`planned_comparison`]); nothing is stored.
    pub fn plan_comparison(&self, devices: &Vec<DeviceInfo>, key: &str, requested: &Vec<String>) -> (r:
        Result<ComparisonSet, String>)
        requires
            self.wf(),
        ensures
            match r {
                Ok(c) => planned_comparison(self@, devices@, key@, texts_of(requested@)) == Ok::<
                    ComparisonView,
                    Seq<char>,
                >(c@),
                Err(e) => planned_comparison(self@, devices@, key@, texts_of(requested@)) == Err::<
                    ComparisonView,
                    Seq<char>,
                >(e@),
            },
    {
        let ids = dedup_texts(requested);
        if !(2 <= ids.len() && ids.len() <= MAX_COMPARISON_PROFILES) {
            return Err(String::from_str("choose between 2 and 9 unique comparison candidates"));
        }
        match self.find_missing(&ids) {
            Some(m) => {
                return Err(missing_message(m.as_str()));
            },
            None => {},
        }
        let previous = match find_entry(&self.comparison_sets, key) {
            Some(i) => {
                proof {
                    lemma_entry_at(self.comparison_sets@, i as int);
                }
                let a = self.comparison_sets[i].1.active_profile_id.as_str();
                if holds_text(&ids, a) {
                    Some(self.comparison_sets[i].1.active_profile_id.clone())
                } else {
                    None
                }
            },
            None => None,
        };
        let active = match previous {
            Some(a) => a,
            None => ids[0].clone(),
        };
        proof {
            assert(texts_of(ids@)[0] == ids@[0]@);
        }
        if !device_is_known(devices, key) {
            return Err(String::from_str("output is not known to MassiveEQ"));
        }
        Ok(ComparisonSet { profile_ids: ids, active_profile_id: active, enabled: true })
    }

    /// Stores a planned comparison bank for output `key`; the output is no
    /// longer bypassed.
    pub fn store_comparison(&mut self, key: String, comparison: ComparisonSet)
        requires
            old(self).wf(),
        ensures
            final(self).wf(),
            final(self)@ == (LibraryView {
                comparisons: old(self)@.comparisons.insert(key@, comparison@),
                bypassed: old(self)@.bypassed.remove(key@),
                ..old(self)@
            }),
    {
        remove_text(&mut self.bypassed_devices, key.as_str());
        set_entry(&mut self.comparison_sets, key, comparison);
    }

    /// Makes `id` the active candidate of output `key`'s bank and enables the
    /// bank; the output is no longer bypassed.
    pub fn select_comparison_profile(&mut self, key: &str, id: &str) -> (r: Result<(), String>)
        requires
            old(self).wf(),
        ensures
            final(self).wf(),
            match r {
                Ok(()) => old(self)@.comparisons.contains_key(key@)
                    && old(self)@.comparisons[key@].profile_ids.contains(id@) && final(self)@ == (
                LibraryView {
                    comparisons: old(self)@.comparisons.insert(
                        key@,
                        ComparisonView {
                            profile_ids: old(self)@.comparisons[key@].profile_ids,
                            active_profile_id: id@,
                            enabled: true,
                        },
                    ),
                    bypassed: old(self)@.bypassed.remove(key@),
                    ..old(self)@
                }),
                Err(e) => final(self)@ == old(self)@ && if !old(self)@.comparisons.contains_key(
                    key@,
                ) {
                    e@ == "this output has no comparison bank"@
                } else {
                    !old(self)@.comparisons[key@].profile_ids.contains(id@) && e@
                        == "the requested profile is not in this comparison bank"@
                },
            },
    {
        let i = match find_entry(&self.comparison_sets, key) {
            Some(i) => i,
            None => {
                return Err(String::from_str("this output has no comparison bank"));
            },
        };
        proof {
            lemma_entry_at(self.comparison_sets@, i as int);
        }
        if !holds_text(&self.comparison_sets[i].1.profile_ids, id) {
            return Err(String::from_str("the requested profile is not in this comparison bank"));
        }
        let c = ComparisonSet {
            profile_ids: copy_strings(&self.comparison_sets[i].1.profile_ids),
            active_profile_id: String::from_str(id),
            enabled: true,
        };
        set_entry(&mut self.comparison_sets, String::from_str(key), c);
        remove_text(&mut self.bypassed_devices, key);
        Ok(())
    }

    /// Enables or disables output `key`'s bank; enabling it ends the output's
    /// bypass.
    pub fn set_comparison_enabled(&mut self, key: &str, enabled: bool) -> (r: Result<(), String>)
        requires
            old(self).wf(),
        ensures
            final(self).wf(),
            match r {
                Ok(()) => old(self)@.comparisons.contains_key(key@) && final(self)@ == (
                LibraryView {
                    comparisons: old(self)@.comparisons.insert(
                        key@,
                        ComparisonView { enabled, ..old(self)@.comparisons[key@] },
                    ),
                    bypassed: if enabled {
                        old(self)@.bypassed.remove(key@)
                    } else {
                        old(self)@.bypassed
                    },
                    ..old(self)@
                }),
                Err(e) => !old(self)@.comparisons.contains_key(key@) && e@
                    == "this output has no comparison bank"@ && final(self)@ == old(self)@,
            },
    {
        let i = match find_entry(&self.comparison_sets, key) {
            Some(i) => i,
            None => {
                return Err(String::from_str("this output has no comparison bank"));
            },
        };
        proof {
            lemma_entry_at(self.comparison_sets@, i as int);
        }
        let mut c = self.comparison_sets[i].1.duplicate();
        c.enabled = enabled;
        set_entry(&mut self.comparison_sets, String::from_str(key), c);
        if enabled {
            remove_text(&mut self.bypassed_devices, key);
        }
        Ok(())
    }

    /// Removes output `key`'s bank, if it has one.
    pub fn delete_comparison(&mut self, key: &str)
        requires
            old(self).wf(),
        ensures
            final(self).wf(),
            final(self)@ == (LibraryView {
                comparisons: old(self)@.comparisons.remove(key@),
                ..old(self)@
            }),
    {
        remove_entry(&mut self.comparison_sets, key);
    }

    /// How a comparison bank names one of its candidates: the level-matched
    /// bypass, the profile's name, or a note that the profile is gone.
    pub fn comparison_candidate_name(&self, profile_id: &str) -> (r: String)
        requires
            self.wf(),
        ensures
            r@ == (if profile_id@ == COMPARISON_BYPASS_ID@ {
                "OFF · LEVEL MATCHED"@
            } else if self@.profiles.contains_key(profile_id@) {
                self@.profiles[profile_id@]
            } else {
                "Missing profile"@
            }),
    {
        if same_text(profile_id, COMPARISON_BYPASS_ID) {
            return String::from_str("OFF · LEVEL MATCHED");
        }
        match find_entry(&self.profiles, profile_id) {
            Some(i) => {
                proof {
                    lemma_entry_at(self.profiles@, i as int);
                }
                self.profiles[i].1.clone()
            },
            None => String::from_str("Missing profile"),
        }
    }
}

// ---------------------------------------------------------------------------
// Why a profile is refused.

/// A diagnostic as `source:line: message`.
pub open spec fn diagnostic_text(d: DiagnosticView) -> Seq<char> {
    d.source + ":"@ + decimal_text(d.line) + ": "@ + d.message
}

/// The diagnostics (only the errors, when `errors_only`) as text, joined by `; `.
pub open spec fn diagnostics_text(ds: Seq<DiagnosticView>, errors_only: bool) -> Seq<char>
    decreases ds.len(),
{
    if ds.len() == 0 {
        Seq::empty()
    } else {
        let rest = diagnostics_text(ds.drop_last(), errors_only);
        let d = ds.last();
        if errors_only && d.level != DiagnosticLevel::Error {
            rest
        } else if rest.len() == 0 {
            diagnostic_text(d)
        } else {
            rest + "; "@ + diagnostic_text(d)
        }
    }
}

/// The diagnostics of a refused profile as one text (see [`diagnostics_text`]).
pub fn diagnostics_message(diagnostics: &Vec<Diagnostic>, errors_only: bool) -> (r: String)
    ensures
        r@ == diagnostics_text(Seq::new(diagnostics@.len(), |i: int| diagnostics@[i]@), errors_only),
{
    let ghost ds = Seq::new(diagnostics@.len(), |i: int| diagnostics@[i]@);
    let mut r = String::new();
    let mut i: usize = 0;
    while i < diagnostics.len()
        invariant
            i <= diagnostics.len(),
            ds == Seq::new(diagnostics@.len(), |i: int| diagnostics@[i]@),
            r@ == diagnostics_text(ds.take(i as int), errors_only),
        decreases diagnostics.len() - i,
    {
        let d = &diagnostics[i];
        proof {
            assert(ds.take(i + 1).drop_last() =~= ds.take(i as int));
            assert(ds.take(i + 1).last() == d@);
            reveal_strlit(":");
        }
        let selected = match d.level {
            DiagnosticLevel::Error => true,
            DiagnosticLevel::Warning => !errors_only,
        };
        if selected {
            if r.as_str().is_empty() {
                proof {
                    assert(r@.len() == 0);
                }
            } else {
                r.append("; ");
            }
            r.append(d.source.as_str());
            r.append(":");
            let line = number_text(d.line as u64);
            r.append(line.as_str());
            r.append(": ");
            r.append(d.message.as_str());
        }
        proof {
            let rest = diagnostics_text(ds.take(i as int), errors_only);
            if selected {
                if rest.len() == 0 {
                    assert(r@ =~= rest + diagnostic_text(d@));
                    assert(rest + diagnostic_text(d@) =~= diagnostic_text(d@));
                } else {
                    assert(r@ =~= rest + "; "@ + diagnostic_text(d@));
                }
            }
        }
        i += 1;
    }
    proof {
        assert(ds.take(i as int) =~= ds);
    }
    r
}

} // verus!
