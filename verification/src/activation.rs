//! Per-(protocol, work unit) activation timestamps.
//!
//! Each entry records the millisecond timestamp of the most recent successful
//! execution of a protocol for a work unit (or for no work unit). The store
//! persists as `.runa/activations.json`; reading and writing that file is the
//! caller's part, in the order `sorted_entries` gives.
use vstd::prelude::*;

use crate::text::{lemma_seq_lt_asymmetric, lemma_seq_lt_irreflexive, lemma_seq_lt_total,
    lemma_seq_lt_transitive, owned, seq_lt, str_eq, str_lt};

verus! {

/// Name of the activation file inside `.runa/`.
pub const ACTIVATIONS_FILENAME: &'static str = "activations.json";

/// An activation key: a protocol name and an optional work unit.
pub type ActivationKey = (Seq<char>, Option<Seq<char>>);

/// The view of an optional string.
pub open spec fn opt_string_view(s: Option<String>) -> Option<Seq<char>> {
    match s {
        Some(v) => Some(v@),
        None => None,
    }
}

/// The view of an optional string slice.
pub open spec fn opt_str_view(s: Option<&str>) -> Option<Seq<char>> {
    match s {
        Some(v) => Some(v@),
        None => None,
    }
}

/// The key of a stored entry.
pub open spec fn entry_key(e: (String, Option<String>, u64)) -> ActivationKey {
    (e.0@, opt_string_view(e.1))
}

/// Per-(protocol, work unit) activation timestamp store.
pub struct ActivationStore {
    entries: Vec<(String, Option<String>, u64)>,
}

impl ActivationStore {
    #[verifier::type_invariant]
    closed spec fn keys_distinct(&self) -> bool {
        forall|i: int, j: int| 0 <= i < j < self.entries@.len() ==> entry_key(self.entries@[i]) != entry_key(self.entries@[j])
    }

}

/// The position of the entry with key `k`.
pub closed spec fn position(es: Seq<(String, Option<String>, u64)>, k: ActivationKey) -> int {
    choose|i: int| 0 <= i < es.len() && entry_key(es[i]) == k
}

/// The map a list of entries with distinct keys denotes.
pub closed spec fn entries_view(es: Seq<(String, Option<String>, u64)>) -> Map<ActivationKey, u64> {
    Map::new(
        |k: ActivationKey| exists|i: int| 0 <= i < es.len() && entry_key(es[i]) == k,
        |k: ActivationKey| es[position(es, k)].2,
    )
}

impl View for ActivationStore {
    type V = Map<ActivationKey, u64>;

    closed spec fn view(&self) -> Map<ActivationKey, u64> {
        entries_view(self.entries@)
    }
}

/// Whether two optional strings are equal.
fn opt_str_eq(a: &Option<String>, b: Option<&str>) -> (r: bool)
    ensures
        r == (opt_string_view(*a) == opt_str_view(b)),
{
    match (a, b) {
        (None, None) => true,
        (Some(x), Some(y)) => str_eq(x.as_str(), y),
        _ => false,
    }
}

fn opt_owned(s: Option<&str>) -> (r: Option<String>)
    ensures
        opt_string_view(r) == opt_str_view(s),
{
    match s {
        Some(v) => Some(owned(v)),
        None => None,
    }
}

/// Returns the current wall-clock time as milliseconds since the Unix epoch
/// (`SystemTime::now`), or 0 when the clock reads earlier than the epoch.
/// Nothing is claimed of the value: it is the time.
#[verifier::external_body]
pub(crate) fn current_time_ms() -> u64 {
    match std::time::SystemTime::now().duration_since(std::time::UNIX_EPOCH) {
        Ok(d) => d.as_millis() as u64,
        Err(_) => 0,
    }
}

impl ActivationStore {
    /// An empty store.
    pub fn new() -> (s: ActivationStore)
        ensures
            s@ == Map::<ActivationKey, u64>::empty(),
    {
        let s = ActivationStore { entries: Vec::new() };
        assert(s@ =~= Map::<ActivationKey, u64>::empty());
        s
    }

    /// The position of the entry for `(protocol, work_unit)`, if any.
    fn find(&self, protocol: &str, work_unit: Option<&str>) -> (r: Option<usize>)
        ensures
            match r {
                Some(i) => i < self.entries@.len() && entry_key(self.entries@[i as int]) == (protocol@, opt_str_view(work_unit)),
                None => forall|i: int| 0 <= i < self.entries@.len() ==> entry_key(self.entries@[i]) != (protocol@, opt_str_view(work_unit)),
            },
    {
        let mut i: usize = 0;
        while i < self.entries.len()
            invariant
                i <= self.entries@.len(),
                forall|m: int| 0 <= m < i ==> entry_key(self.entries@[m]) != (protocol@, opt_str_view(work_unit)),
            decreases self.entries@.len() - i,
        {
            let e = &self.entries[i];
            if str_eq(e.0.as_str(), protocol) && opt_str_eq(&e.1, work_unit) {
                return Some(i);
            }
            i = i + 1;
        }
        None
    }

    /// Record an activation for `(protocol, work_unit)` at `timestamp_ms`,
    /// replacing any earlier one.
    pub fn record_at(&mut self, protocol: &str, work_unit: Option<&str>, timestamp_ms: u64)
        ensures
            final(self)@ == old(self)@.insert((protocol@, opt_str_view(work_unit)), timestamp_ms),
    {
        proof { use_type_invariant(&*self); }
        let ghost key = (protocol@, opt_str_view(work_unit));
        let ghost old_entries = self.entries@;
        let ghost old_view = self@;
        match self.find(protocol, work_unit) {
            Some(i) => {
                let entry = (owned(protocol), opt_owned(work_unit), timestamp_ms);
                let mut entries = Vec::new();
                std::mem::swap(&mut entries, &mut self.entries);
                entries.set(i, entry);
                self.entries = entries;
                proof {
                    assert(self.entries@ == old_entries.update(i as int, entry));
                    assert forall|a: int, b: int| 0 <= a < b < self.entries@.len() implies entry_key(self.entries@[a]) != entry_key(self.entries@[b]) by {
                        if a != i as int && b != i as int {
                            assert(self.entries@[a] == old_entries[a] && self.entries@[b] == old_entries[b]);
                        } else if a == i as int {
                            assert(self.entries@[b] == old_entries[b]);
                        } else {
                            assert(self.entries@[a] == old_entries[a]);
                        }
                    }
                    self.lemma_view_update(old_entries, old_view, i as int, key, timestamp_ms);
                }
            },
            None => {
                let entry = (owned(protocol), opt_owned(work_unit), timestamp_ms);
                let mut entries = Vec::new();
                std::mem::swap(&mut entries, &mut self.entries);
                entries.push(entry);
                self.entries = entries;
                proof {
                    assert(self.entries@ == old_entries.push(entry));
                    assert forall|a: int, b: int| 0 <= a < b < self.entries@.len() implies entry_key(self.entries@[a]) != entry_key(self.entries@[b]) by {
                        if b < old_entries.len() {
                            assert(self.entries@[a] == old_entries[a] && self.entries@[b] == old_entries[b]);
                        } else {
                            assert(self.entries@[a] == old_entries[a]);
                        }
                    }
                    self.lemma_view_push(old_entries, old_view, key, timestamp_ms);
                }
            },
        }
    }

    proof fn lemma_view_update(&self, old_entries: Seq<(String, Option<String>, u64)>, old_view: Map<ActivationKey, u64>, i: int, key: ActivationKey, ts: u64)
        requires
            0 <= i < old_entries.len(),
            entry_key(old_entries[i]) == key,
            forall|a: int, b: int| 0 <= a < b < old_entries.len() ==> entry_key(old_entries[a]) != entry_key(old_entries[b]),
            old_view == entries_view(old_entries),
            self.entries@.len() == old_entries.len(),
            forall|j: int| 0 <= j < old_entries.len() && j != i ==> self.entries@[j] == old_entries[j],
            entry_key(self.entries@[i]) == key,
            self.entries@[i].2 == ts,
            forall|a: int, b: int| 0 <= a < b < self.entries@.len() ==> entry_key(self.entries@[a]) != entry_key(self.entries@[b]),
        ensures
            self@ == old_view.insert(key, ts),
    {
        let es = self.entries@;
        assert forall|k: ActivationKey| #[trigger] self@.contains_key(k) <==> old_view.insert(key, ts).contains_key(k) by {
            if self@.contains_key(k) {
                let j = choose|j: int| 0 <= j < es.len() && entry_key(es[j]) == k;
                if j != i {
                    assert(entry_key(old_entries[j]) == k);
                }
            }
            if old_view.contains_key(k) && k != key {
                let j = choose|j: int| 0 <= j < old_entries.len() && entry_key(old_entries[j]) == k;
                assert(j != i);
                assert(entry_key(es[j]) == k);
            }
            if k == key {
                assert(entry_key(es[i]) == k);
            }
        }
        assert forall|k: ActivationKey| #[trigger] self@.contains_key(k) implies self@[k] == old_view.insert(key, ts)[k] by {
            let j = position(es, k);
            assert(0 <= j < es.len() && entry_key(es[j]) == k);
            if k == key {
                if j != i {
                    assert(entry_key(es[i]) == entry_key(es[j]));
                    if j < i {
                    } else {
                    }
                }
            } else {
                assert(j != i);
                assert(old_view.contains_key(k));
                let j2 = position(old_entries, k);
                if j2 != j {
                    assert(entry_key(old_entries[j]) == k);
                }
            }
        }
        assert(self@ =~= old_view.insert(key, ts));
    }

    proof fn lemma_view_push(&self, old_entries: Seq<(String, Option<String>, u64)>, old_view: Map<ActivationKey, u64>, key: ActivationKey, ts: u64)
        requires
            forall|j: int| 0 <= j < old_entries.len() ==> entry_key(old_entries[j]) != key,
            old_view == entries_view(old_entries),
            self.entries@.len() == old_entries.len() + 1,
            forall|j: int| 0 <= j < old_entries.len() ==> self.entries@[j] == old_entries[j],
            entry_key(self.entries@[old_entries.len() as int]) == key,
            self.entries@[old_entries.len() as int].2 == ts,
            forall|a: int, b: int| 0 <= a < b < self.entries@.len() ==> entry_key(self.entries@[a]) != entry_key(self.entries@[b]),
        ensures
            self@ == old_view.insert(key, ts),
    {
        let es = self.entries@;
        let n = old_entries.len() as int;
        assert forall|k: ActivationKey| #[trigger] self@.contains_key(k) <==> old_view.insert(key, ts).contains_key(k) by {
            if self@.contains_key(k) {
                let j = choose|j: int| 0 <= j < es.len() && entry_key(es[j]) == k;
                if j != n {
                    assert(entry_key(old_entries[j]) == k);
                }
            }
            if old_view.contains_key(k) && k != key {
                let j = choose|j: int| 0 <= j < old_entries.len() && entry_key(old_entries[j]) == k;
                assert(entry_key(es[j]) == k);
            }
            if k == key {
                assert(entry_key(es[n]) == k);
            }
        }
        assert forall|k: ActivationKey| #[trigger] self@.contains_key(k) implies self@[k] == old_view.insert(key, ts)[k] by {
            let j = position(es, k);
            assert(0 <= j < es.len() && entry_key(es[j]) == k);
            if k == key {
                if j != n {
                    assert(entry_key(old_entries[j]) == key);
                }
            } else {
                assert(j != n);
                assert(old_view.contains_key(k));
                let j2 = position(old_entries, k);
                if j2 != j {
                    assert(entry_key(old_entries[j]) == k);
                    assert(entry_key(es[j2]) == k);
                }
            }
        }
        assert(self@ =~= old_view.insert(key, ts));
    }

    /// Record an activation for `(protocol, work_unit)` at the current time.
    pub fn record(&mut self, protocol: &str, work_unit: Option<&str>)
        ensures
            exists|ts: u64| final(self)@ == old(self)@.insert((protocol@, opt_str_view(work_unit)), ts),
    {
        let ts = current_time_ms();
        self.record_at(protocol, work_unit, ts);
    }

    /// The activation timestamp for `(protocol, work_unit)`.
    pub fn get(&self, protocol: &str, work_unit: Option<&str>) -> (r: Option<u64>)
        ensures
            r == (if self@.contains_key((protocol@, opt_str_view(work_unit))) {
                Some(self@[(protocol@, opt_str_view(work_unit))])
            } else {
                None
            }),
    {
        proof { use_type_invariant(self); }
        let ghost key = (protocol@, opt_str_view(work_unit));
        match self.find(protocol, work_unit) {
            Some(i) => {
                proof {
                    assert(self@.contains_key(key));
                    let j = position(self.entries@, key);
                    if j != i as int {
                        assert(entry_key(self.entries@[j]) == entry_key(self.entries@[i as int]));
                    }
                }
                Some(self.entries[i].2)
            },
            None => None,
        }
    }

    /// Whether `(protocol, work_unit)` has been activated at least once.
    pub fn is_activated(&self, protocol: &str, work_unit: Option<&str>) -> (r: bool)
        ensures
            r == self@.contains_key((protocol@, opt_str_view(work_unit))),
    {
        self.get(protocol, work_unit).is_some()
    }
}

/// Activation keys in the order the activation file lists them: by protocol,
/// then by work unit with no work unit first.
pub open spec fn key_lt(a: ActivationKey, b: ActivationKey) -> bool {
    ||| seq_lt(a.0, b.0)
    ||| a.0 == b.0 && match (a.1, b.1) {
        (None, Some(_)) => true,
        (Some(x), Some(y)) => seq_lt(x, y),
        _ => false,
    }
}

proof fn lemma_key_lt_facts(a: ActivationKey, b: ActivationKey, c: ActivationKey)
    ensures
        !key_lt(a, a),
        key_lt(a, b) ==> !key_lt(b, a),
        a != b ==> key_lt(a, b) || key_lt(b, a),
        key_lt(a, b) && key_lt(b, c) ==> key_lt(a, c),
{
    lemma_seq_lt_irreflexive(a.0);
    if let Some(x) = a.1 {
        lemma_seq_lt_irreflexive(x);
    }
    if key_lt(a, b) {
        if seq_lt(a.0, b.0) {
            lemma_seq_lt_asymmetric(a.0, b.0);
        } else {
            lemma_seq_lt_irreflexive(a.0);
            if let (Some(x), Some(y)) = (a.1, b.1) {
                lemma_seq_lt_asymmetric(x, y);
            }
        }
    }
    if a != b {
        if a.0 != b.0 {
            lemma_seq_lt_total(a.0, b.0);
        } else {
            match (a.1, b.1) {
                (Some(x), Some(y)) => {
                    lemma_seq_lt_total(x, y);
                },
                _ => {},
            }
        }
    }
    if key_lt(a, b) && key_lt(b, c) {
        if seq_lt(a.0, b.0) && seq_lt(b.0, c.0) {
            lemma_seq_lt_transitive(a.0, b.0, c.0);
        } else if seq_lt(a.0, b.0) {
        } else if seq_lt(b.0, c.0) {
        } else {
            match (a.1, b.1, c.1) {
                (Some(x), Some(y), Some(z)) => {
                    lemma_seq_lt_transitive(x, y, z);
                },
                _ => {},
            }
        }
    }
}

/// The keys of a list of entries.
pub open spec fn entry_keys(es: Seq<(String, Option<String>, u64)>) -> Seq<ActivationKey> {
    es.map_values(|e: (String, Option<String>, u64)| entry_key(e))
}

/// With distinct keys, the entry with the key of position `j` is at `j`.
proof fn lemma_position(es: Seq<(String, Option<String>, u64)>, j: int)
    requires
        0 <= j < es.len(),
        forall|a: int, b: int| 0 <= a < b < es.len() ==> entry_key(es[a]) != entry_key(es[b]),
    ensures
        position(es, entry_key(es[j])) == j,
        entries_view(es).contains_key(entry_key(es[j])),
        entries_view(es)[entry_key(es[j])] == es[j].2,
{
    let i = position(es, entry_key(es[j]));
    assert(0 <= i < es.len() && entry_key(es[i]) == entry_key(es[j]));
    if i < j {
        assert(entry_key(es[i]) != entry_key(es[j]));
    } else if i > j {
        assert(entry_key(es[j]) != entry_key(es[i]));
    }
}

fn opt_lt(a: &Option<String>, b: &Option<String>) -> (r: bool)
    ensures
        r == match (opt_string_view(*a), opt_string_view(*b)) {
            (None, Some(_)) => true,
            (Some(x), Some(y)) => seq_lt(x, y),
            _ => false,
        },
{
    match (a, b) {
        (None, Some(_)) => true,
        (Some(x), Some(y)) => str_lt(x.as_str(), y.as_str()),
        _ => false,
    }
}

fn entry_lt(a: &(String, Option<String>, u64), b: &(String, Option<String>, u64)) -> (r: bool)
    ensures
        r == key_lt(entry_key(*a), entry_key(*b)),
{
    str_lt(a.0.as_str(), b.0.as_str()) || (str_eq(a.0.as_str(), b.0.as_str()) && opt_lt(&a.1, &b.1))
}

fn clone_entry(e: &(String, Option<String>, u64)) -> (r: (String, Option<String>, u64))
    ensures
        r == *e,
{
    let wu = match &e.1 {
        Some(w) => Some(w.clone()),
        None => None,
    };
    (e.0.clone(), wu, e.2)
}

fn clone_str_opt(s: &Option<String>) -> (r: Option<String>)
    ensures
        r == *s,
{
    match s {
        Some(w) => Some(w.clone()),
        None => None,
    }
}

/// Some entry below `bound` has key `(name, wu)` and timestamp `ts`.
pub open spec fn recorded_below(es: Seq<(String, Option<String>, u64)>, bound: int, name: Seq<char>, wu: Option<Seq<char>>, ts: u64) -> bool {
    exists|j: int| 0 <= j < bound && #[trigger] entry_key(es[j]) == (name, wu) && es[j].2 == ts
}

/// Some entry below `bound` equals `e`.
pub open spec fn among_below(es: Seq<(String, Option<String>, u64)>, bound: int, e: (String, Option<String>, u64)) -> bool {
    exists|j: int| 0 <= j < bound && #[trigger] es[j] == e
}

impl ActivationStore {
    /// The timestamps of the activations recorded for `work_unit` (or for no
    /// work unit), as `(protocol, timestamp)` pairs, one per protocol.
    pub fn timestamps_for_trigger_context(&self, work_unit: Option<&str>) -> (r: Vec<(String, u64)>)
        ensures
            forall|a: int, b: int| 0 <= a < b < r@.len() ==> r@[a].0@ != r@[b].0@,
            forall|k: int| 0 <= k < r@.len() ==> #[trigger] self@.contains_key((r@[k].0@, opt_str_view(work_unit)))
                && self@[(r@[k].0@, opt_str_view(work_unit))] == r@[k].1,
            forall|p: Seq<char>| #[trigger] self@.contains_key((p, opt_str_view(work_unit))) ==>
                r@.map_values(|e: (String, u64)| e.0@).contains(p),
    {
        proof { use_type_invariant(self); }
        let ghost wu = opt_str_view(work_unit);
        let ghost es = self.entries@;
        let mut r: Vec<(String, u64)> = Vec::new();
        let mut i: usize = 0;
        while i < self.entries.len()
            invariant
                es == self.entries@,
                forall|a: int, b: int| 0 <= a < b < es.len() ==> entry_key(es[a]) != entry_key(es[b]),
                wu == opt_str_view(work_unit),
                i <= es.len(),
                forall|a: int, b: int| 0 <= a < b < r@.len() ==> r@[a].0@ != r@[b].0@,
                forall|k: int| 0 <= k < r@.len() ==> #[trigger] recorded_below(es, i as int, r@[k].0@, wu, r@[k].1),
                forall|j: int| 0 <= j < i && (#[trigger] entry_key(es[j])).1 == wu ==> r@.map_values(|e: (String, u64)| e.0@).contains(es[j].0@),
            decreases es.len() - i,
        {
            let e = &self.entries[i];
            let ghost before = r@;
            if opt_str_eq(&e.1, work_unit) {
                r.push((e.0.clone(), e.2));
                proof {
                    assert forall|a: int, b: int| 0 <= a < b < r@.len() implies r@[a].0@ != r@[b].0@ by {
                        if b == r@.len() - 1 {
                            assert(r@[a] == before[a]);
                            assert(recorded_below(es, i as int, before[a].0@, wu, before[a].1));
                            let j = choose|j: int| 0 <= j < i && #[trigger] entry_key(es[j]) == (before[a].0@, wu) && es[j].2 == before[a].1;
                            assert(entry_key(es[j]) != entry_key(es[i as int]));
                        } else {
                            assert(r@[a] == before[a] && r@[b] == before[b]);
                        }
                    }
                    assert forall|k: int| 0 <= k < r@.len() implies #[trigger] recorded_below(es, i + 1, r@[k].0@, wu, r@[k].1) by {
                        if k == r@.len() - 1 {
                            assert(entry_key(es[i as int]) == (r@[k].0@, wu));
                        } else {
                            assert(r@[k] == before[k]);
                            assert(recorded_below(es, i as int, before[k].0@, wu, before[k].1));
                        }
                    }
                    assert forall|j: int| 0 <= j < i + 1 && (#[trigger] entry_key(es[j])).1 == wu implies r@.map_values(|e: (String, u64)| e.0@).contains(es[j].0@) by {
                        if j == i as int {
                            assert(r@.map_values(|e: (String, u64)| e.0@)[r@.len() - 1] == es[j].0@);
                        } else {
                            let names = before.map_values(|e: (String, u64)| e.0@);
                            assert(names.contains(es[j].0@));
                            let m = choose|m: int| 0 <= m < names.len() && names[m] == es[j].0@;
                            assert(r@.map_values(|e: (String, u64)| e.0@)[m] == es[j].0@);
                        }
                    }
                }
            } else {
                proof {
                    assert forall|k: int| 0 <= k < r@.len() implies #[trigger] recorded_below(es, i + 1, r@[k].0@, wu, r@[k].1) by {
                        assert(recorded_below(es, i as int, r@[k].0@, wu, r@[k].1));
                        let j = choose|j: int| 0 <= j < i && #[trigger] entry_key(es[j]) == (r@[k].0@, wu) && es[j].2 == r@[k].1;
                    }
                }
            }
            i = i + 1;
        }
        proof {
            assert forall|k: int| 0 <= k < r@.len() implies #[trigger] self@.contains_key((r@[k].0@, wu))
                && self@[(r@[k].0@, wu)] == r@[k].1 by {
                assert(recorded_below(es, es.len() as int, r@[k].0@, wu, r@[k].1));
                let j = choose|j: int| 0 <= j < es.len() && #[trigger] entry_key(es[j]) == (r@[k].0@, wu) && es[j].2 == r@[k].1;
                lemma_position(es, j);
            }
            assert forall|p: Seq<char>| #[trigger] self@.contains_key((p, wu)) implies r@.map_values(|e: (String, u64)| e.0@).contains(p) by {
                let j = position(es, (p, wu));
                assert(entry_key(es[j]) == (p, wu));
            }
        }
        r
    }

    /// All activations as `(protocol, work_unit, timestamp)`, ordered by
    /// protocol and then by work unit, no work unit first: the order of the
    /// activation file.
    pub fn sorted_entries(&self) -> (r: Vec<(String, Option<String>, u64)>)
        ensures
            forall|a: int, b: int| 0 <= a < b < r@.len() ==> key_lt(#[trigger] entry_key(r@[a]), #[trigger] entry_key(r@[b])),
            forall|k: int| 0 <= k < r@.len() ==> #[trigger] self@.contains_key(entry_key(r@[k])) && self@[entry_key(r@[k])] == r@[k].2,
            forall|key: ActivationKey| #[trigger] self@.contains_key(key) ==> entry_keys(r@).contains(key),
    {
        proof { use_type_invariant(self); }
        let ghost es = self.entries@;
        let mut r: Vec<(String, Option<String>, u64)> = Vec::new();
        let mut i: usize = 0;
        while i < self.entries.len()
            invariant
                es == self.entries@,
                forall|a: int, b: int| 0 <= a < b < es.len() ==> entry_key(es[a]) != entry_key(es[b]),
                i <= es.len(),
                forall|a: int, b: int| 0 <= a < b < r@.len() ==> key_lt(#[trigger] entry_key(r@[a]), #[trigger] entry_key(r@[b])),
                forall|k: int| 0 <= k < r@.len() ==> #[trigger] among_below(es, i as int, r@[k]),
                forall|j: int| 0 <= j < i ==> entry_keys(r@).contains(#[trigger] entry_key(es[j])),
            decreases es.len() - i,
        {
            let e = &self.entries[i];
            let mut p: usize = 0;
            while p < r.len() && !entry_lt(e, &r[p])
                invariant
                    p <= r@.len(),
                    forall|m: int| 0 <= m < p ==> !key_lt(entry_key(*e), #[trigger] entry_key(r@[m])),
                decreases r@.len() - p,
            {
                p = p + 1;
            }
            let ghost before = r@;
            let ghost x = entry_key(*e);
            proof {
                assert forall|m: int| 0 <= m < p implies key_lt(#[trigger] entry_key(before[m]), x) by {
                    assert(among_below(es, i as int, before[m]));
                    let j = choose|j: int| 0 <= j < i && #[trigger] es[j] == before[m];
                    assert(entry_key(es[j]) != entry_key(es[i as int]));
                    lemma_key_lt_facts(entry_key(before[m]), x, x);
                }
            }
            r.insert(p, clone_entry(e));
            proof {
                assert(r@ == before.insert(p as int, *e));
                assert forall|a: int, b: int| 0 <= a < b < r@.len() implies key_lt(#[trigger] entry_key(r@[a]), #[trigger] entry_key(r@[b])) by {
                    if b < p {
                        assert(r@[a] == before[a] && r@[b] == before[b]);
                    } else if b == p {
                        assert(r@[a] == before[a]);
                    } else if a < p {
                        assert(r@[a] == before[a] && r@[b] == before[b - 1]);
                        if a < b - 1 {
                        } else {
                            assert(false);
                        }
                    } else if a == p {
                        assert(r@[b] == before[b - 1]);
                        assert(key_lt(x, entry_key(before[p as int])));
                        if b - 1 > p {
                            assert(key_lt(entry_key(before[p as int]), entry_key(before[b - 1])));
                            lemma_key_lt_facts(x, entry_key(before[p as int]), entry_key(before[b - 1]));
                        }
                    } else {
                        assert(r@[a] == before[a - 1] && r@[b] == before[b - 1]);
                    }
                }
                assert forall|k: int| 0 <= k < r@.len() implies #[trigger] among_below(es, i + 1, r@[k]) by {
                    if k < p {
                        assert(r@[k] == before[k]);
                        assert(among_below(es, i as int, before[k]));
                    } else if k == p {
                        assert(es[i as int] == r@[k]);
                    } else {
                        assert(r@[k] == before[k - 1]);
                        assert(among_below(es, i as int, before[k - 1]));
                    }
                }
                assert forall|j: int| 0 <= j < i + 1 implies entry_keys(r@).contains(#[trigger] entry_key(es[j])) by {
                    if j == i as int {
                        assert(entry_keys(r@)[p as int] == entry_key(es[j]));
                    } else {
                        assert(entry_keys(before).contains(entry_key(es[j])));
                        let m = choose|m: int| 0 <= m < entry_keys(before).len() && entry_keys(before)[m] == entry_key(es[j]);
                        if m < p {
                            assert(entry_keys(r@)[m] == entry_key(es[j]));
                        } else {
                            assert(entry_keys(r@)[m + 1] == entry_key(es[j]));
                        }
                    }
                }
            }
            i = i + 1;
        }
        proof {
            assert forall|k: int| 0 <= k < r@.len() implies #[trigger] self@.contains_key(entry_key(r@[k])) && self@[entry_key(r@[k])] == r@[k].2 by {
                assert(among_below(es, es.len() as int, r@[k]));
                let j = choose|j: int| 0 <= j < es.len() && #[trigger] es[j] == r@[k];
                lemma_position(es, j);
            }
            assert forall|key: ActivationKey| #[trigger] self@.contains_key(key) implies entry_keys(r@).contains(key) by {
                let j = position(es, key);
                assert(entry_key(es[j]) == key);
            }
        }
        r
    }
}


/// Errors of loading or saving the activation store.
#[derive(Debug, Clone, PartialEq, Eq)]
pub enum ActivationError {
    /// Filesystem I/O failure, with its message.
    Io(String),
    /// The stored file could not be parsed or written as JSON.
    Parse(String),
}

/// The message of an activation store error.
pub open spec fn activation_error_message(e: ActivationError) -> Seq<char> {
    match e {
        ActivationError::Io(detail) => "activation store I/O error: "@ + detail@,
        ActivationError::Parse(detail) => "activation store parse error: "@ + detail@,
    }
}

impl ActivationError {
    /// Renders the error as text (the error's `Display` form).
    pub fn to_display_string(&self) -> (r: String)
        ensures
            r@ == activation_error_message(*self),
    {
        let mut out = String::new();
        match self {
            ActivationError::Io(detail) => {
                crate::text::push_str(&mut out, "activation store I/O error: ");
                crate::text::push_str(&mut out, detail.as_str());
            },
            ActivationError::Parse(detail) => {
                crate::text::push_str(&mut out, "activation store parse error: ");
                crate::text::push_str(&mut out, detail.as_str());
            },
        }
        assert(out@ =~= activation_error_message(*self));
        out
    }
}


/// Recording an activation makes its timestamp the one read back for its
/// `(protocol, work_unit)` key, over any earlier one, and leaves every other
/// key as it was.
pub proof fn law_record_then_get(before: ActivationStore, after: ActivationStore, key: ActivationKey, timestamp_ms: u64, other: ActivationKey)
    requires
        after@ == before@.insert(key, timestamp_ms),
    ensures
        after@.contains_key(key),
        after@[key] == timestamp_ms,
        other != key ==> after@.contains_key(other) == before@.contains_key(other),
        other != key && before@.contains_key(other) ==> after@[other] == before@[other],
{
}

} // verus!
