//! Artifact state tracking: validation status, content hashes and paths of
//! artifact instances, and the scan gaps of the current process.
//!
//! The store is kept in memory; persisting each recorded state as JSON under
//! the store directory is the caller's part.
use vstd::prelude::*;

use crate::hash::{content_hash_of, raw_content_hash};
use crate::json::{JsonValue, canonical_json, canonical_text, get, json_get};
use crate::model::ArtifactType;
use crate::activation::current_time_ms;
use crate::text::{contains_str, insert_sorted_string, lemma_seq_lt_asymmetric, lemma_seq_lt_irreflexive, lemma_seq_lt_total,
    lemma_seq_lt_transitive, owned, seq_lt, sorted_le, str_eq, str_lt, views};
use crate::validation::{ValidationError, Violation};

verus! {

/// Validation status of an artifact instance.
#[derive(Debug, Clone, PartialEq)]
pub enum ValidationStatus {
    /// The artifact conforms to its schema.
    Valid,
    /// The artifact violates its schema.
    Invalid(Vec<Violation>),
    /// The artifact file could not be parsed as JSON.
    Malformed(String),
    /// The artifact needs revalidation.
    Stale,
}

/// The recorded state of a single artifact instance.
#[derive(Debug, Clone, PartialEq)]
pub struct ArtifactState {
    /// Filesystem path of the artifact source.
    pub path: String,
    /// Current validation status.
    pub status: ValidationStatus,
    /// Milliseconds since the Unix epoch when last recorded.
    pub last_modified_ms: u64,
    /// Content hash in the form `sha256:<hex>`.
    pub content_hash: String,
    /// Schema hash in the form `sha256:<hex>`.
    pub schema_hash: String,
    /// Work unit this artifact belongs to.
    pub work_unit: Option<String>,
}

/// Errors that can occur during store operations.
#[derive(Debug, Clone, PartialEq)]
pub enum StoreError {
    /// The artifact type is not registered in this store.
    UnknownArtifactType(String),
    /// The artifact type's schema is malformed.
    InvalidSchema { artifact_type: String, detail: String },
    /// Filesystem I/O failure, with its message.
    Io(String),
    /// JSON serialization or deserialization failure.
    Serialization(String),
}

/// The message of a store error.
pub open spec fn store_error_message(e: StoreError) -> Seq<char> {
    match e {
        StoreError::UnknownArtifactType(name) => "unknown artifact type: '"@ + name@ + "'"@,
        StoreError::InvalidSchema { artifact_type, detail } =>
            "invalid schema for artifact type '"@ + artifact_type@ + "': "@ + detail@,
        StoreError::Io(detail) => "I/O error: "@ + detail@,
        StoreError::Serialization(detail) => "serialization error: "@ + detail@,
    }
}

impl StoreError {
    /// Renders the error as text (the error's `Display` form).
    pub fn to_display_string(&self) -> (r: String)
        ensures
            r@ == store_error_message(*self),
    {
        let mut out = String::new();
        match self {
            StoreError::UnknownArtifactType(name) => {
                crate::text::push_str(&mut out, "unknown artifact type: '");
                crate::text::push_str(&mut out, name.as_str());
                crate::text::push_str(&mut out, "'");
            },
            StoreError::InvalidSchema { artifact_type, detail } => {
                crate::text::push_str(&mut out, "invalid schema for artifact type '");
                crate::text::push_str(&mut out, artifact_type.as_str());
                crate::text::push_str(&mut out, "': ");
                crate::text::push_str(&mut out, detail.as_str());
            },
            StoreError::Io(detail) => {
                crate::text::push_str(&mut out, "I/O error: ");
                crate::text::push_str(&mut out, detail.as_str());
            },
            StoreError::Serialization(detail) => {
                crate::text::push_str(&mut out, "serialization error: ");
                crate::text::push_str(&mut out, detail.as_str());
            },
        }
        assert(out@ =~= store_error_message(*self));
        out
    }
}

/// An instance key: artifact type and instance id.
pub type InstanceKey = (Seq<char>, Seq<char>);

/// Instance keys in order: by artifact type, then by instance id.
pub open spec fn ikey_lt(a: InstanceKey, b: InstanceKey) -> bool {
    seq_lt(a.0, b.0) || (a.0 == b.0 && seq_lt(a.1, b.1))
}

pub proof fn lemma_ikey_lt_facts(a: InstanceKey, b: InstanceKey, c: InstanceKey)
    ensures
        !ikey_lt(a, a),
        ikey_lt(a, b) ==> !ikey_lt(b, a),
        a != b ==> ikey_lt(a, b) || ikey_lt(b, a),
        ikey_lt(a, b) && ikey_lt(b, c) ==> ikey_lt(a, c),
{
    lemma_seq_lt_irreflexive(a.0);
    lemma_seq_lt_irreflexive(a.1);
    if ikey_lt(a, b) {
        if seq_lt(a.0, b.0) {
            lemma_seq_lt_asymmetric(a.0, b.0);
        } else {
            lemma_seq_lt_asymmetric(a.1, b.1);
        }
    }
    if a != b {
        if a.0 != b.0 {
            lemma_seq_lt_total(a.0, b.0);
        } else {
            lemma_seq_lt_total(a.1, b.1);
        }
    }
    if ikey_lt(a, b) && ikey_lt(b, c) {
        if seq_lt(a.0, b.0) && seq_lt(b.0, c.0) {
            lemma_seq_lt_transitive(a.0, b.0, c.0);
        } else if !seq_lt(a.0, b.0) && !seq_lt(b.0, c.0) {
            lemma_seq_lt_transitive(a.1, b.1, c.1);
        }
    }
}

/// The key of a stored entry.
pub open spec fn ekey(e: (String, String, ArtifactState)) -> InstanceKey {
    (e.0@, e.1@)
}

/// Entries strictly ordered by key.
pub open spec fn sorted_entries(es: Seq<(String, String, ArtifactState)>) -> bool {
    forall|a: int, b: int| 0 <= a < b < es.len() ==> ikey_lt(#[trigger] ekey(es[a]), #[trigger] ekey(es[b]))
}

/// The position of the entry with key `k`.
pub closed spec fn epos(es: Seq<(String, String, ArtifactState)>, k: InstanceKey) -> int {
    choose|i: int| 0 <= i < es.len() && ekey(es[i]) == k
}

/// The map a list of entries with distinct keys denotes.
pub closed spec fn entries_map(es: Seq<(String, String, ArtifactState)>) -> Map<InstanceKey, ArtifactState> {
    Map::new(
        |k: InstanceKey| exists|i: int| 0 <= i < es.len() && ekey(es[i]) == k,
        |k: InstanceKey| es[epos(es, k)].2,
    )
}

/// An instance of work unit `state_wu` is in scope of the filter: no filter
/// admits every instance; a filter admits its own work unit's instances and
/// instances of no work unit.
pub open spec fn in_scope(state_wu: Option<String>, filter: Option<Seq<char>>) -> bool {
    match filter {
        None => true,
        Some(wu) => state_wu is None || state_wu->0@ == wu,
    }
}

/// The view of an optional string slice.
pub open spec fn opt_str(s: Option<&str>) -> Option<Seq<char>> {
    match s {
        Some(v) => Some(v@),
        None => None,
    }
}

/// Tracks artifact instances and the scan gaps of the current process.
pub struct ArtifactStore {
    artifact_types: Vec<ArtifactType>,
    artifacts: Vec<(String, String, ArtifactState)>,
    type_level_scan_gaps: Vec<String>,
    instance_level_scan_gaps: Vec<(String, String)>,
}

impl ArtifactStore {
    #[verifier::type_invariant]
    closed spec fn sorted(&self) -> bool {
        sorted_entries(self.artifacts@)
    }

    /// The registered artifact types.
    pub closed spec fn types(&self) -> Seq<ArtifactType> {
        self.artifact_types@
    }

    /// The artifact types with a type-level scan gap.
    pub closed spec fn type_gaps(&self) -> Seq<Seq<char>> {
        views(self.type_level_scan_gaps@)
    }

    /// The instances with a scan gap.
    pub closed spec fn instance_gaps(&self) -> Seq<InstanceKey> {
        self.instance_level_scan_gaps@.map_values(|g: (String, String)| (g.0@, g.1@))
    }

    /// `t` is a registered artifact type.
    pub open spec fn registered(&self, t: Seq<char>) -> bool {
        exists|i: int| 0 <= i < self.types().len() && #[trigger] self.types()[i].name@ == t
    }

    /// The instance `(t, id)` is recorded and in scope of `wu`.
    pub open spec fn matching(&self, t: Seq<char>, wu: Option<Seq<char>>, id: Seq<char>) -> bool {
        self@.contains_key((t, id)) && in_scope(self@[(t, id)].work_unit, wu)
    }

    /// Every recorded instance of type `t` in scope of `wu` is valid, and
    /// there is at least one.
    pub open spec fn all_valid(&self, t: Seq<char>, wu: Option<Seq<char>>) -> bool {
        &&& exists|id: Seq<char>| #[trigger] self.matching(t, wu, id)
        &&& forall|id: Seq<char>| #[trigger] self.matching(t, wu, id) ==> self@[(t, id)].status is Valid
    }

    /// Some recorded instance of type `t` in scope of `wu` is invalid or malformed.
    pub open spec fn any_invalid(&self, t: Seq<char>, wu: Option<Seq<char>>) -> bool {
        exists|id: Seq<char>| #[trigger] self.matching(t, wu, id)
            && (self@[(t, id)].status is Invalid || self@[(t, id)].status is Malformed)
    }

    /// A type-level gap for `t`, or an instance-level gap on an instance of `t`.
    pub open spec fn has_gap_for_type(&self, t: Seq<char>) -> bool {
        self.type_gaps().contains(t) || exists|i: int| 0 <= i < self.instance_gaps().len() && #[trigger] self.instance_gaps()[i].0 == t
    }
}

impl View for ArtifactStore {
    type V = Map<InstanceKey, ArtifactState>;

    closed spec fn view(&self) -> Map<InstanceKey, ArtifactState> {
        entries_map(self.artifacts@)
    }
}

/// With sorted entries, the entry with the key of position `j` is at `j`.
proof fn lemma_epos(es: Seq<(String, String, ArtifactState)>, j: int)
    requires
        0 <= j < es.len(),
        sorted_entries(es),
    ensures
        epos(es, ekey(es[j])) == j,
        entries_map(es).contains_key(ekey(es[j])),
        entries_map(es)[ekey(es[j])] == es[j].2,
{
    let i = epos(es, ekey(es[j]));
    assert(0 <= i < es.len() && ekey(es[i]) == ekey(es[j]));
    if i < j {
        assert(ikey_lt(ekey(es[i]), ekey(es[j])));
        lemma_ikey_lt_facts(ekey(es[i]), ekey(es[i]), ekey(es[i]));
    } else if i > j {
        assert(ikey_lt(ekey(es[j]), ekey(es[i])));
        lemma_ikey_lt_facts(ekey(es[i]), ekey(es[i]), ekey(es[i]));
    }
}

fn opt_str_eq(a: &Option<String>, b: Option<&str>) -> (r: bool)
    ensures
        r == (match a { Some(x) => Some(x@), None => None::<Seq<char>> } == opt_str(b)),
{
    match (a, b) {
        (None, None) => true,
        (Some(x), Some(y)) => str_eq(x.as_str(), y),
        _ => false,
    }
}

/// Whether an instance of work unit `state_wu` is in scope of `filter`.
fn scoped(state_wu: &Option<String>, filter: Option<&str>) -> (r: bool)
    ensures
        r == in_scope(*state_wu, opt_str(filter)),
{
    match filter {
        None => true,
        Some(wu) => match state_wu {
            None => true,
            Some(s) => str_eq(s.as_str(), wu),
        },
    }
}

impl ArtifactStore {
    /// An empty store for the given artifact types.
    pub fn new(artifact_types: Vec<ArtifactType>) -> (s: ArtifactStore)
        ensures
            s@ == Map::<InstanceKey, ArtifactState>::empty(),
            s.types() == artifact_types@,
            s.type_gaps().len() == 0,
            s.instance_gaps().len() == 0,
    {
        let s = ArtifactStore {
            artifact_types,
            artifacts: Vec::new(),
            type_level_scan_gaps: Vec::new(),
            instance_level_scan_gaps: Vec::new(),
        };
        assert(s@ =~= Map::<InstanceKey, ArtifactState>::empty());
        assert(s.type_gaps() =~= Seq::<Seq<char>>::empty());
        assert(s.instance_gaps() =~= Seq::<InstanceKey>::empty());
        s
    }

    /// The position of the first entry whose key is not below `(t, id)`.
    fn lower_bound(&self, t: &str, id: &str) -> (p: usize)
        ensures
            p <= self.artifacts@.len(),
            forall|m: int| 0 <= m < p ==> ikey_lt(#[trigger] ekey(self.artifacts@[m]), (t@, id@)),
            p < self.artifacts@.len() ==> !ikey_lt(ekey(self.artifacts@[p as int]), (t@, id@)),
    {
        proof { use_type_invariant(self); }
        let mut p: usize = 0;
        while p < self.artifacts.len() && (str_lt(self.artifacts[p].0.as_str(), t)
            || (str_eq(self.artifacts[p].0.as_str(), t) && str_lt(self.artifacts[p].1.as_str(), id)))
            invariant
                p <= self.artifacts@.len(),
                forall|m: int| 0 <= m < p ==> ikey_lt(#[trigger] ekey(self.artifacts@[m]), (t@, id@)),
            decreases self.artifacts@.len() - p,
        {
            p = p + 1;
        }
        p
    }

    /// The position of the entry `(t, id)`, if recorded.
    fn find(&self, t: &str, id: &str) -> (r: Option<usize>)
        ensures
            match r {
                Some(i) => i < self.artifacts@.len() && ekey(self.artifacts@[i as int]) == (t@, id@)
                    && self@.contains_key((t@, id@)) && self@[(t@, id@)] == self.artifacts@[i as int].2,
                None => !self@.contains_key((t@, id@)),
            },
    {
        proof { use_type_invariant(self); }
        let p = self.lower_bound(t, id);
        if p < self.artifacts.len() && str_eq(self.artifacts[p].0.as_str(), t) && str_eq(self.artifacts[p].1.as_str(), id) {
            proof {
                lemma_epos(self.artifacts@, p as int);
            }
            Some(p)
        } else {
            proof {
                let es = self.artifacts@;
                if self@.contains_key((t@, id@)) {
                    let i = epos(es, (t@, id@));
                    assert(0 <= i < es.len() && ekey(es[i]) == (t@, id@));
                    if i < p {
                        assert(ikey_lt(ekey(es[i]), (t@, id@)));
                        lemma_ikey_lt_facts((t@, id@), (t@, id@), (t@, id@));
                    } else if i > p {
                        assert(ikey_lt(ekey(es[p as int]), ekey(es[i])));
                        lemma_ikey_lt_facts(ekey(es[p as int]), (t@, id@), (t@, id@));
                    }
                }
            }
            None
        }
    }

    /// Whether `t` is a registered artifact type.
    pub fn is_registered(&self, t: &str) -> (r: bool)
        ensures
            r == self.registered(t@),
    {
        let mut i: usize = 0;
        while i < self.artifact_types.len()
            invariant
                i <= self.types().len(),
                forall|m: int| 0 <= m < i ==> self.types()[m].name@ != t@,
            decreases self.types().len() - i,
        {
            if str_eq(self.artifact_types[i].name.as_str(), t) {
                assert(self.types()[i as int].name@ == t@);
                return true;
            }
            i = i + 1;
        }
        false
    }

    /// Record the state of instance `(artifact_type, instance_id)`, replacing
    /// any earlier state. Fails, changing nothing, when the type is not
    /// registered.
    pub fn record_state(&mut self, artifact_type: &str, instance_id: &str, state: ArtifactState) -> (r: Result<(), StoreError>)
        ensures
            match r {
                Ok(_) => old(self).registered(artifact_type@)
                    && final(self)@ == old(self)@.insert((artifact_type@, instance_id@), state),
                Err(e) => !old(self).registered(artifact_type@) && e is UnknownArtifactType && e->UnknownArtifactType_0@ == artifact_type@
                    && final(self)@ == old(self)@,
            },
            final(self).types() == old(self).types(),
            final(self).type_gaps() == old(self).type_gaps(),
            final(self).instance_gaps() == old(self).instance_gaps(),
    {
        if !self.is_registered(artifact_type) {
            return Err(StoreError::UnknownArtifactType(owned(artifact_type)));
        }
        self.insert_entry(artifact_type, instance_id, state);
        Ok(())
    }

    fn insert_entry(&mut self, artifact_type: &str, instance_id: &str, state: ArtifactState)
        ensures
            final(self)@ == old(self)@.insert((artifact_type@, instance_id@), state),
            final(self).types() == old(self).types(),
            final(self).type_gaps() == old(self).type_gaps(),
            final(self).instance_gaps() == old(self).instance_gaps(),
    {
        proof { use_type_invariant(&*self); }
        let ghost key = (artifact_type@, instance_id@);
        let ghost old_es = self.artifacts@;
        let p = self.lower_bound(artifact_type, instance_id);
        let replace = p < self.artifacts.len() && str_eq(self.artifacts[p].0.as_str(), artifact_type)
            && str_eq(self.artifacts[p].1.as_str(), instance_id);
        let entry = (owned(artifact_type), owned(instance_id), state);
        let mut es = Vec::new();
        std::mem::swap(&mut es, &mut self.artifacts);
        if replace {
            es.set(p, entry);
        } else {
            es.insert(p, entry);
        }
        proof {
            if replace {
                assert(es@ == old_es.update(p as int, entry));
                assert forall|a: int, b: int| 0 <= a < b < es@.len() implies ikey_lt(#[trigger] ekey(es@[a]), #[trigger] ekey(es@[b])) by {
                    assert(ekey(es@[a]) == ekey(old_es[a]));
                    assert(ekey(es@[b]) == ekey(old_es[b]));
                }
                lemma_map_update(old_es, es@, p as int, key, state);
            } else {
                assert(es@ == old_es.insert(p as int, entry));
                if p < old_es.len() {
                    assert(!ikey_lt(ekey(old_es[p as int]), key));
                    assert(ekey(old_es[p as int]) != key);
                    lemma_ikey_lt_facts(key, ekey(old_es[p as int]), key);
                }
                assert forall|a: int, b: int| 0 <= a < b < es@.len() implies ikey_lt(#[trigger] ekey(es@[a]), #[trigger] ekey(es@[b])) by {
                    if b < p {
                        assert(es@[a] == old_es[a] && es@[b] == old_es[b]);
                    } else if b == p {
                        assert(es@[a] == old_es[a]);
                    } else if a < p {
                        assert(es@[a] == old_es[a] && es@[b] == old_es[b - 1]);
                        if a < b - 1 {
                        } else {
                            assert(false);
                        }
                    } else if a == p {
                        assert(es@[b] == old_es[b - 1]);
                        if b - 1 > p {
                            assert(ikey_lt(ekey(old_es[p as int]), ekey(old_es[b - 1])));
                            lemma_ikey_lt_facts(key, ekey(old_es[p as int]), ekey(old_es[b - 1]));
                        }
                    } else {
                        assert(es@[a] == old_es[a - 1] && es@[b] == old_es[b - 1]);
                    }
                }
                lemma_map_insert(old_es, es@, p as int, key, state);
            }
        }
        self.artifacts = es;
    }
}

proof fn lemma_map_update(old_es: Seq<(String, String, ArtifactState)>, es: Seq<(String, String, ArtifactState)>, p: int, key: InstanceKey, state: ArtifactState)
    requires
        sorted_entries(old_es),
        sorted_entries(es),
        0 <= p < old_es.len(),
        ekey(old_es[p]) == key,
        es.len() == old_es.len(),
        forall|j: int| 0 <= j < es.len() && j != p ==> es[j] == old_es[j],
        ekey(es[p]) == key,
        es[p].2 == state,
    ensures
        entries_map(es) == entries_map(old_es).insert(key, state),
{
    let m0 = entries_map(old_es);
    let m1 = entries_map(es);
    assert forall|k: InstanceKey| #[trigger] m1.contains_key(k) <==> m0.insert(key, state).contains_key(k) by {
        if m1.contains_key(k) {
            let j = epos(es, k);
            if j != p {
                assert(ekey(old_es[j]) == k);
            }
        }
        if m0.contains_key(k) {
            let j = epos(old_es, k);
            if j != p {
                assert(ekey(es[j]) == k);
            } else {
                assert(ekey(es[p]) == k);
            }
        }
        if k == key {
            assert(ekey(es[p]) == k);
        }
    }
    assert forall|k: InstanceKey| #[trigger] m1.contains_key(k) implies m1[k] == m0.insert(key, state)[k] by {
        let j = epos(es, k);
        lemma_epos(es, j);
        if k != key {
            assert(j != p);
            lemma_epos(old_es, j);
            assert(ekey(old_es[j]) == k);
        } else {
            lemma_epos(es, p);
        }
    }
    assert(m1 =~= m0.insert(key, state));
}

proof fn lemma_map_insert(old_es: Seq<(String, String, ArtifactState)>, es: Seq<(String, String, ArtifactState)>, p: int, key: InstanceKey, state: ArtifactState)
    requires
        sorted_entries(old_es),
        sorted_entries(es),
        0 <= p <= old_es.len(),
        es.len() == old_es.len() + 1,
        forall|j: int| 0 <= j < p ==> es[j] == old_es[j],
        forall|j: int| p < j < es.len() ==> es[j] == old_es[j - 1],
        ekey(es[p]) == key,
        es[p].2 == state,
    ensures
        entries_map(es) == entries_map(old_es).insert(key, state),
{
    let m0 = entries_map(old_es);
    let m1 = entries_map(es);
    assert forall|k: InstanceKey| #[trigger] m1.contains_key(k) <==> m0.insert(key, state).contains_key(k) by {
        if m1.contains_key(k) {
            let j = epos(es, k);
            if j < p {
                assert(ekey(old_es[j]) == k);
            } else if j > p {
                assert(ekey(old_es[j - 1]) == k);
            }
        }
        if m0.contains_key(k) {
            let j = epos(old_es, k);
            if j < p {
                assert(ekey(es[j]) == k);
            } else {
                assert(ekey(es[j + 1]) == k);
            }
        }
        if k == key {
            assert(ekey(es[p]) == k);
        }
    }
    assert forall|k: InstanceKey| #[trigger] m1.contains_key(k) implies m1[k] == m0.insert(key, state)[k] by {
        let j = epos(es, k);
        lemma_epos(es, j);
        if k != key {
            assert(j != p);
            if j < p {
                lemma_epos(old_es, j);
                assert(ekey(old_es[j]) == k);
            } else {
                lemma_epos(old_es, j - 1);
                assert(ekey(old_es[j - 1]) == k);
            }
        } else {
            lemma_epos(es, p);
        }
    }
    assert(m1 =~= m0.insert(key, state));
}

/// The instance ids of a list of `(id, state)` pairs.
pub open spec fn pair_ids(r: Seq<(&str, &ArtifactState)>) -> Seq<Seq<char>> {
    r.map_values(|e: (&str, &ArtifactState)| e.0@)
}

impl ArtifactStore {
    /// The current state of instance `(artifact_type, instance_id)`.
    pub fn get(&self, artifact_type: &str, instance_id: &str) -> (r: Option<&ArtifactState>)
        ensures
            match r {
                Some(st) => self@.contains_key((artifact_type@, instance_id@)) && *st == self@[(artifact_type@, instance_id@)],
                None => !self@.contains_key((artifact_type@, instance_id@)),
            },
    {
        match self.find(artifact_type, instance_id) {
            Some(i) => Some(&self.artifacts[i].2),
            None => None,
        }
    }

    /// True only if every instance of the type in scope of `work_unit` is
    /// valid and there is at least one. Without a work unit every instance is
    /// in scope; with one, that work unit's instances and those of no work
    /// unit are.
    pub fn is_valid(&self, artifact_type: &str, work_unit: Option<&str>) -> (r: bool)
        ensures
            r == self.all_valid(artifact_type@, opt_str(work_unit)),
    {
        proof { use_type_invariant(self); }
        let ghost es = self.artifacts@;
        let ghost t = artifact_type@;
        let ghost wu = opt_str(work_unit);
        let mut count: usize = 0;
        let mut i: usize = 0;
        while i < self.artifacts.len()
            invariant
                es == self.artifacts@,
                sorted_entries(es),
                t == artifact_type@,
                wu == opt_str(work_unit),
                i <= es.len(),
                count <= i,
                count > 0 ==> exists|m: int| 0 <= m < i && es[m].0@ == t && #[trigger] in_scope(es[m].2.work_unit, wu),
                count == 0 ==> forall|m: int| 0 <= m < i ==> !(es[m].0@ == t && #[trigger] in_scope(es[m].2.work_unit, wu)),
                forall|m: int| 0 <= m < i && es[m].0@ == t && #[trigger] in_scope(es[m].2.work_unit, wu) ==> es[m].2.status is Valid,
            decreases es.len() - i,
        {
            let e = &self.artifacts[i];
            if str_eq(e.0.as_str(), artifact_type) && scoped(&e.2.work_unit, work_unit) {
                match e.2.status {
                    ValidationStatus::Valid => {},
                    _ => {
                        proof {
                            lemma_epos(es, i as int);
                            assert(self.matching(t, wu, e.1@));
                        }
                        return false;
                    },
                }
                count = count + 1;
            }
            i = i + 1;
        }
        proof {
            if count > 0 {
                let m = choose|m: int| 0 <= m < i && es[m].0@ == t && #[trigger] in_scope(es[m].2.work_unit, wu);
                lemma_epos(es, m);
                assert(self.matching(t, wu, es[m].1@));
            }
            assert forall|id: Seq<char>| #[trigger] self.matching(t, wu, id) implies self@[(t, id)].status is Valid by {
                let j = epos(es, (t, id));
                lemma_epos(es, j);
                assert(in_scope(es[j].2.work_unit, wu));
            }
            if count == 0 {
                assert forall|id: Seq<char>| !#[trigger] self.matching(t, wu, id) by {
                    if self.matching(t, wu, id) {
                        let j = epos(es, (t, id));
                        lemma_epos(es, j);
                        assert(in_scope(es[j].2.work_unit, wu));
                    }
                }
            }
        }
        count > 0
    }

    /// True if some instance of the type in scope of `work_unit` is invalid
    /// or malformed.
    pub fn has_any_invalid(&self, artifact_type: &str, work_unit: Option<&str>) -> (r: bool)
        ensures
            r == self.any_invalid(artifact_type@, opt_str(work_unit)),
    {
        proof { use_type_invariant(self); }
        let ghost es = self.artifacts@;
        let ghost t = artifact_type@;
        let ghost wu = opt_str(work_unit);
        let mut i: usize = 0;
        while i < self.artifacts.len()
            invariant
                es == self.artifacts@,
                sorted_entries(es),
                t == artifact_type@,
                wu == opt_str(work_unit),
                i <= es.len(),
                forall|m: int| 0 <= m < i && es[m].0@ == t && #[trigger] in_scope(es[m].2.work_unit, wu)
                    ==> !(es[m].2.status is Invalid || es[m].2.status is Malformed),
            decreases es.len() - i,
        {
            let e = &self.artifacts[i];
            if str_eq(e.0.as_str(), artifact_type) && scoped(&e.2.work_unit, work_unit) {
                let bad = match e.2.status {
                    ValidationStatus::Invalid(_) => true,
                    ValidationStatus::Malformed(_) => true,
                    _ => false,
                };
                if bad {
                    proof {
                        lemma_epos(es, i as int);
                        assert(self.matching(t, wu, e.1@));
                    }
                    return true;
                }
            }
            i = i + 1;
        }
        proof {
            assert forall|id: Seq<char>| #[trigger] self.matching(t, wu, id)
                implies !(self@[(t, id)].status is Invalid || self@[(t, id)].status is Malformed) by {
                let j = epos(es, (t, id));
                lemma_epos(es, j);
                assert(in_scope(es[j].2.work_unit, wu));
            }
        }
        false
    }

    /// The `(instance_id, state)` pairs of the type in scope of `work_unit`,
    /// sorted by instance id.
    pub fn instances_of(&self, artifact_type: &str, work_unit: Option<&str>) -> (r: Vec<(&str, &ArtifactState)>)
        ensures
            forall|a: int, b: int| 0 <= a < b < r@.len() ==> seq_lt(#[trigger] r@[a].0@, #[trigger] r@[b].0@),
            forall|k: int| 0 <= k < r@.len() ==> #[trigger] self.matching(artifact_type@, opt_str(work_unit), r@[k].0@)
                && *r@[k].1 == self@[(artifact_type@, r@[k].0@)],
            forall|id: Seq<char>| #[trigger] self.matching(artifact_type@, opt_str(work_unit), id) ==> pair_ids(r@).contains(id),
    {
        proof { use_type_invariant(self); }
        let ghost es = self.artifacts@;
        let ghost t = artifact_type@;
        let ghost wu = opt_str(work_unit);
        let mut r: Vec<(&str, &ArtifactState)> = Vec::new();
        let ghost mut src: Seq<int> = Seq::empty();
        let mut i: usize = 0;
        while i < self.artifacts.len()
            invariant
                es == self.artifacts@,
                sorted_entries(es),
                t == artifact_type@,
                wu == opt_str(work_unit),
                i <= es.len(),
                src.len() == r@.len(),
                forall|a: int, b: int| 0 <= a < b < src.len() ==> src[a] < src[b],
                forall|k: int| 0 <= k < src.len() ==> 0 <= #[trigger] src[k] < i && es[src[k]].0@ == t
                    && in_scope(es[src[k]].2.work_unit, wu) && r@[k].0@ == es[src[k]].1@ && *r@[k].1 == es[src[k]].2,
                forall|m: int| 0 <= m < i && es[m].0@ == t && #[trigger] in_scope(es[m].2.work_unit, wu) ==> pair_ids(r@).contains(es[m].1@),
            decreases es.len() - i,
        {
            let e = &self.artifacts[i];
            if str_eq(e.0.as_str(), artifact_type) && scoped(&e.2.work_unit, work_unit) {
                let ghost before = r@;
                r.push((e.1.as_str(), &e.2));
                proof {
                    src = src.push(i as int);
                    assert forall|m: int| 0 <= m < i + 1 && es[m].0@ == t && #[trigger] in_scope(es[m].2.work_unit, wu) implies pair_ids(r@).contains(es[m].1@) by {
                        if m == i as int {
                            assert(pair_ids(r@)[r@.len() - 1] == es[m].1@);
                        } else {
                            assert(pair_ids(before).contains(es[m].1@));
                            let q = choose|q: int| 0 <= q < pair_ids(before).len() && pair_ids(before)[q] == es[m].1@;
                            assert(pair_ids(r@)[q] == es[m].1@);
                        }
                    }
                    assert forall|k: int| 0 <= k < src.len() implies 0 <= #[trigger] src[k] < i + 1 && es[src[k]].0@ == t
                        && in_scope(es[src[k]].2.work_unit, wu) && r@[k].0@ == es[src[k]].1@ && *r@[k].1 == es[src[k]].2 by {
                        if k < src.len() - 1 {
                            assert(r@[k] == before[k]);
                        }
                    }
                }
            }
            i = i + 1;
        }
        proof {
            assert forall|a: int, b: int| 0 <= a < b < r@.len() implies seq_lt(#[trigger] r@[a].0@, #[trigger] r@[b].0@) by {
                let (ia, ib) = (src[a], src[b]);
                assert(ikey_lt(ekey(es[ia]), ekey(es[ib])));
                lemma_seq_lt_irreflexive(t);
            }
            assert forall|k: int| 0 <= k < r@.len() implies #[trigger] self.matching(t, wu, r@[k].0@)
                && *r@[k].1 == self@[(t, r@[k].0@)] by {
                lemma_epos(es, src[k]);
            }
            assert forall|id: Seq<char>| #[trigger] self.matching(t, wu, id) implies pair_ids(r@).contains(id) by {
                let j = epos(es, (t, id));
                lemma_epos(es, j);
                assert(in_scope(es[j].2.work_unit, wu));
            }
        }
        r
    }

    /// The latest modification time among the instances of the type in scope
    /// of `work_unit`, if there is any.
    pub fn latest_modification_ms(&self, artifact_type: &str, work_unit: Option<&str>) -> (r: Option<u64>)
        ensures
            match r {
                None => forall|id: Seq<char>| !#[trigger] self.matching(artifact_type@, opt_str(work_unit), id),
                Some(m) => (exists|id: Seq<char>| #[trigger] self.matching(artifact_type@, opt_str(work_unit), id)
                    && self@[(artifact_type@, id)].last_modified_ms == m)
                    && forall|id: Seq<char>| #[trigger] self.matching(artifact_type@, opt_str(work_unit), id)
                        ==> self@[(artifact_type@, id)].last_modified_ms <= m,
            },
    {
        proof { use_type_invariant(self); }
        let ghost es = self.artifacts@;
        let ghost t = artifact_type@;
        let ghost wu = opt_str(work_unit);
        let mut best: Option<u64> = None;
        let mut i: usize = 0;
        while i < self.artifacts.len()
            invariant
                es == self.artifacts@,
                sorted_entries(es),
                t == artifact_type@,
                wu == opt_str(work_unit),
                i <= es.len(),
                best is None ==> forall|m: int| 0 <= m < i ==> !(es[m].0@ == t && #[trigger] in_scope(es[m].2.work_unit, wu)),
                best is Some ==> exists|m: int| 0 <= m < i && es[m].0@ == t && #[trigger] in_scope(es[m].2.work_unit, wu)
                    && es[m].2.last_modified_ms == best->0,
                best is Some ==> forall|m: int| 0 <= m < i && es[m].0@ == t && #[trigger] in_scope(es[m].2.work_unit, wu)
                    ==> es[m].2.last_modified_ms <= best->0,
            decreases es.len() - i,
        {
            let e = &self.artifacts[i];
            if str_eq(e.0.as_str(), artifact_type) && scoped(&e.2.work_unit, work_unit) {
                let ts = e.2.last_modified_ms;
                best = match best {
                    None => Some(ts),
                    Some(b) => if ts > b { Some(ts) } else { Some(b) },
                };
            }
            i = i + 1;
        }
        proof {
            match best {
                None => {
                    assert forall|id: Seq<char>| !#[trigger] self.matching(t, wu, id) by {
                        if self.matching(t, wu, id) {
                            let j = epos(es, (t, id));
                            lemma_epos(es, j);
                            assert(in_scope(es[j].2.work_unit, wu));
                        }
                    }
                },
                Some(b) => {
                    let m = choose|m: int| 0 <= m < es.len() && es[m].0@ == t && #[trigger] in_scope(es[m].2.work_unit, wu)
                        && es[m].2.last_modified_ms == b;
                    lemma_epos(es, m);
                    assert(self.matching(t, wu, es[m].1@));
                    assert forall|id: Seq<char>| #[trigger] self.matching(t, wu, id) implies self@[(t, id)].last_modified_ms <= b by {
                        let j = epos(es, (t, id));
                        lemma_epos(es, j);
                        assert(in_scope(es[j].2.work_unit, wu));
                    }
                },
            }
        }
        best
    }
}

impl ArtifactStore {
    /// Set the status of instance `(artifact_type, instance_id)` to stale;
    /// no change when it is not recorded.
    pub fn invalidate(&mut self, artifact_type: &str, instance_id: &str)
        ensures
            old(self)@.contains_key((artifact_type@, instance_id@)) ==> final(self)@ == old(self)@.insert(
                (artifact_type@, instance_id@),
                ArtifactState { status: ValidationStatus::Stale, ..old(self)@[(artifact_type@, instance_id@)] },
            ),
            !old(self)@.contains_key((artifact_type@, instance_id@)) ==> final(self)@ == old(self)@,
            final(self).types() == old(self).types(),
            final(self).type_gaps() == old(self).type_gaps(),
            final(self).instance_gaps() == old(self).instance_gaps(),
    {
        match self.find(artifact_type, instance_id) {
            Some(i) => {
                let ghost before = self@;
                let (t, id, mut st) = self.remove_at(i);
                st.status = ValidationStatus::Stale;
                self.insert_entry(t.as_str(), id.as_str(), st);
                proof {
                    assert(before.remove((artifact_type@, instance_id@)).insert((artifact_type@, instance_id@), st)
                        =~= before.insert((artifact_type@, instance_id@), st));
                }
            },
            None => {},
        }
    }

    /// Replace the stored path of instance `(artifact_type, instance_id)`;
    /// no change when it is not recorded.
    pub fn update_path(&mut self, artifact_type: &str, instance_id: &str, path: &str)
        ensures
            old(self)@.contains_key((artifact_type@, instance_id@)) ==> final(self)@ == old(self)@.insert(
                (artifact_type@, instance_id@),
                ArtifactState { path: final(self)@[(artifact_type@, instance_id@)].path, ..old(self)@[(artifact_type@, instance_id@)] },
            ) && final(self)@[(artifact_type@, instance_id@)].path@ == path@,
            !old(self)@.contains_key((artifact_type@, instance_id@)) ==> final(self)@ == old(self)@,
            final(self).types() == old(self).types(),
            final(self).type_gaps() == old(self).type_gaps(),
            final(self).instance_gaps() == old(self).instance_gaps(),
    {
        match self.find(artifact_type, instance_id) {
            Some(i) => {
                if str_eq(self.artifacts[i].2.path.as_str(), path) {
                    proof {
                        assert(old(self)@.insert((artifact_type@, instance_id@), old(self)@[(artifact_type@, instance_id@)]) =~= old(self)@);
                    }
                    return;
                }
                let ghost before = self@;
                let (t, id, mut st) = self.remove_at(i);
                st.path = owned(path);
                self.insert_entry(t.as_str(), id.as_str(), st);
                proof {
                    assert(before.remove((artifact_type@, instance_id@)).insert((artifact_type@, instance_id@), st)
                        =~= before.insert((artifact_type@, instance_id@), st));
                }
            },
            None => {},
        }
    }

    /// Take out the entry at position `i`.
    fn remove_at(&mut self, i: usize) -> (e: (String, String, ArtifactState))
        requires
            i < old(self).artifacts@.len(),
        ensures
            e == old(self).artifacts@[i as int],
            old(self)@.contains_key(ekey(e)) && old(self)@[ekey(e)] == e.2,
            final(self)@ == old(self)@.remove(ekey(e)),
            final(self).types() == old(self).types(),
            final(self).type_gaps() == old(self).type_gaps(),
            final(self).instance_gaps() == old(self).instance_gaps(),
    {
        proof { use_type_invariant(&*self); }
        let ghost old_es = self.artifacts@;
        let ghost key = ekey(old_es[i as int]);
        proof {
            lemma_epos(old_es, i as int);
        }
        let mut es = Vec::new();
        std::mem::swap(&mut es, &mut self.artifacts);
        let e = es.remove(i);
        proof {
            assert(es@ == old_es.remove(i as int));
            assert forall|a: int, b: int| 0 <= a < b < es@.len() implies ikey_lt(#[trigger] ekey(es@[a]), #[trigger] ekey(es@[b])) by {
                let a2 = if a < i { a } else { a + 1 };
                let b2 = if b < i { b } else { b + 1 };
                assert(es@[a] == old_es[a2] && es@[b] == old_es[b2]);
            }
            let m0 = entries_map(old_es);
            let m1 = entries_map(es@);
            assert forall|k: InstanceKey| #[trigger] m1.contains_key(k) <==> m0.remove(key).contains_key(k) by {
                if m1.contains_key(k) {
                    let j = epos(es@, k);
                    let j2 = if j < i { j } else { j + 1 };
                    assert(es@[j] == old_es[j2]);
                    if k == key {
                        assert(ekey(old_es[j2]) == ekey(old_es[i as int]));
                        lemma_epos(old_es, j2);
                    }
                }
                if m0.contains_key(k) && k != key {
                    let j = epos(old_es, k);
                    assert(j != i);
                    let j1 = if j < i { j } else { j - 1 };
                    assert(es@[j1] == old_es[j]);
                }
            }
            assert forall|k: InstanceKey| #[trigger] m1.contains_key(k) implies m1[k] == m0.remove(key)[k] by {
                let j = epos(es@, k);
                lemma_epos(es@, j);
                let j2 = if j < i { j } else { j + 1 };
                assert(es@[j] == old_es[j2]);
                lemma_epos(old_es, j2);
            }
            assert(m1 =~= m0.remove(key));
        }
        self.artifacts = es;
        e
    }

    /// Remove instance `(artifact_type, instance_id)`; no change when it is
    /// not recorded.
    pub fn remove(&mut self, artifact_type: &str, instance_id: &str)
        ensures
            final(self)@ == old(self)@.remove((artifact_type@, instance_id@)),
            final(self).types() == old(self).types(),
            final(self).type_gaps() == old(self).type_gaps(),
            final(self).instance_gaps() == old(self).instance_gaps(),
    {
        match self.find(artifact_type, instance_id) {
            Some(i) => {
                let _ = self.remove_at(i);
            },
            None => {
                proof {
                    assert(self@.remove((artifact_type@, instance_id@)) =~= self@);
                }
            },
        }
    }

    /// The `(artifact_type, instance_id)` keys of all recorded instances, sorted.
    pub fn all_instance_keys(&self) -> (r: Vec<(String, String)>)
        ensures
            forall|a: int, b: int| 0 <= a < b < r@.len() ==> ikey_lt((#[trigger] r@[a].0@, r@[a].1@), (#[trigger] r@[b].0@, r@[b].1@)),
            forall|k: int| 0 <= k < r@.len() ==> #[trigger] self@.contains_key((r@[k].0@, r@[k].1@)),
            forall|key: InstanceKey| #[trigger] self@.contains_key(key) ==> r@.map_values(|e: (String, String)| (e.0@, e.1@)).contains(key),
    {
        proof { use_type_invariant(self); }
        let ghost es = self.artifacts@;
        let mut r: Vec<(String, String)> = Vec::new();
        let mut i: usize = 0;
        while i < self.artifacts.len()
            invariant
                es == self.artifacts@,
                sorted_entries(es),
                i <= es.len(),
                r@.len() == i,
                forall|k: int| 0 <= k < i ==> (#[trigger] r@[k].0@, r@[k].1@) == ekey(es[k]),
            decreases es.len() - i,
        {
            r.push((self.artifacts[i].0.clone(), self.artifacts[i].1.clone()));
            i = i + 1;
        }
        proof {
            assert forall|k: int| 0 <= k < r@.len() implies #[trigger] self@.contains_key((r@[k].0@, r@[k].1@)) by {
                lemma_epos(es, k);
            }
            assert forall|key: InstanceKey| #[trigger] self@.contains_key(key) implies r@.map_values(|e: (String, String)| (e.0@, e.1@)).contains(key) by {
                let j = epos(es, key);
                assert(r@.map_values(|e: (String, String)| (e.0@, e.1@))[j] == key);
            }
        }
        r
    }

    /// Forget the scan gaps of an earlier scan.
    pub fn clear_scan_gaps(&mut self)
        ensures
            final(self)@ == old(self)@,
            final(self).types() == old(self).types(),
            final(self).type_gaps().len() == 0,
            final(self).instance_gaps().len() == 0,
    {
        proof { use_type_invariant(&*self); }
        self.type_level_scan_gaps = Vec::new();
        self.instance_level_scan_gaps = Vec::new();
        assert(self.type_gaps() =~= Seq::<Seq<char>>::empty());
        assert(self.instance_gaps() =~= Seq::<InstanceKey>::empty());
    }

    /// Note that the type's directory could not be fully scanned.
    pub fn mark_type_scan_gap(&mut self, artifact_type: &str)
        ensures
            final(self)@ == old(self)@,
            final(self).types() == old(self).types(),
            final(self).type_gaps() == old(self).type_gaps().push(artifact_type@),
            final(self).instance_gaps() == old(self).instance_gaps(),
    {
        proof { use_type_invariant(&*self); }
        let mut gaps = Vec::new();
        std::mem::swap(&mut gaps, &mut self.type_level_scan_gaps);
        gaps.push(owned(artifact_type));
        self.type_level_scan_gaps = gaps;
        assert(self.type_gaps() =~= old(self).type_gaps().push(artifact_type@));
    }

    /// Note that an instance could not be read during the scan.
    pub fn mark_instance_scan_gap(&mut self, artifact_type: &str, instance_id: &str)
        ensures
            final(self)@ == old(self)@,
            final(self).types() == old(self).types(),
            final(self).type_gaps() == old(self).type_gaps(),
            final(self).instance_gaps() == old(self).instance_gaps().push((artifact_type@, instance_id@)),
    {
        proof { use_type_invariant(&*self); }
        let mut gaps = Vec::new();
        std::mem::swap(&mut gaps, &mut self.instance_level_scan_gaps);
        gaps.push((owned(artifact_type), owned(instance_id)));
        self.instance_level_scan_gaps = gaps;
        assert(self.instance_gaps() =~= old(self).instance_gaps().push((artifact_type@, instance_id@)));
    }

    /// Whether the type has a scan gap, of the type or of one of its instances.
    pub fn has_any_scan_gap_for_type(&self, artifact_type: &str) -> (r: bool)
        ensures
            r == self.has_gap_for_type(artifact_type@),
    {
        let mut i: usize = 0;
        while i < self.type_level_scan_gaps.len()
            invariant
                i <= self.type_gaps().len(),
                forall|m: int| 0 <= m < i ==> self.type_gaps()[m] != artifact_type@,
            decreases self.type_gaps().len() - i,
        {
            if str_eq(self.type_level_scan_gaps[i].as_str(), artifact_type) {
                assert(self.type_gaps()[i as int] == artifact_type@);
                return true;
            }
            i = i + 1;
        }
        let mut j: usize = 0;
        while j < self.instance_level_scan_gaps.len()
            invariant
                j <= self.instance_gaps().len(),
                forall|m: int| 0 <= m < self.type_gaps().len() ==> self.type_gaps()[m] != artifact_type@,
                forall|m: int| 0 <= m < j ==> self.instance_gaps()[m].0 != artifact_type@,
            decreases self.instance_gaps().len() - j,
        {
            if str_eq(self.instance_level_scan_gaps[j].0.as_str(), artifact_type) {
                assert(self.instance_gaps()[j as int].0 == artifact_type@);
                return true;
            }
            j = j + 1;
        }
        false
    }

    /// Whether a scan gap of the type affects the evaluation of a work unit;
    /// every scan gap of the type does.
    pub fn scan_gap_affects_work_unit(&self, artifact_type: &str, work_unit: Option<&str>) -> (r: bool)
        ensures
            r == self.has_gap_for_type(artifact_type@),
    {
        self.has_any_scan_gap_for_type(artifact_type)
    }

    /// The registered artifact type with the given name (the last one
    /// registered under it).
    pub fn artifact_type(&self, name: &str) -> (r: Option<&ArtifactType>)
        ensures
            match r {
                Some(t) => exists|i: int| 0 <= i < self.types().len() && *t == self.types()[i] && t.name@ == name@
                    && forall|j: int| i < j < self.types().len() ==> self.types()[j].name@ != name@,
                None => !self.registered(name@),
            },
    {
        let mut i: usize = self.artifact_types.len();
        while i > 0
            invariant
                i <= self.types().len(),
                forall|j: int| i <= j < self.types().len() ==> self.types()[j].name@ != name@,
            decreases i,
        {
            if str_eq(self.artifact_types[i - 1].name.as_str(), name) {
                return Some(&self.artifact_types[i - 1]);
            }
            i = i - 1;
        }
        None
    }
}


/// What is recorded for an instance is what is read back for it, and
/// recording leaves every other instance as it was.
pub proof fn law_record_then_get(before: ArtifactStore, after: ArtifactStore, key: InstanceKey, state: ArtifactState, other: InstanceKey)
    requires
        after@ == before@.insert(key, state),
    ensures
        after@.contains_key(key),
        after@[key] == state,
        other != key ==> after@.contains_key(other) == before@.contains_key(other),
        other != key && before@.contains_key(other) ==> after@[other] == before@[other],
{
}

/// A removed instance is no longer read back; other instances stay.
pub proof fn law_remove_then_get(before: ArtifactStore, after: ArtifactStore, key: InstanceKey, other: InstanceKey)
    requires
        after@ == before@.remove(key),
    ensures
        !after@.contains_key(key),
        other != key ==> after@.contains_key(other) == before@.contains_key(other),
        other != key && before@.contains_key(other) ==> after@[other] == before@[other],
{
}


// ---------------------------------------------------------------------------
// Recording documents.
// ---------------------------------------------------------------------------

/// The content hash of a JSON document: that of its canonical text.
pub open spec fn json_hash(v: JsonValue) -> Seq<char> {
    content_hash_of(vstd::utf8::encode_utf8(canonical_text(v)))
}

/// The content hash of a JSON document: `sha256:` and the hex digest of its
/// canonical text.
pub fn content_hash(value: &JsonValue) -> (r: String)
    ensures
        r@ == json_hash(*value),
{
    let canonical = canonical_json(value);
    raw_content_hash(canonical.as_str().as_bytes())
}

/// The work unit a document declares: its `work_unit` string member.
pub open spec fn declared_work_unit(v: JsonValue) -> Option<Seq<char>> {
    match json_get(v, "work_unit"@) {
        Some(JsonValue::Str(s)) => Some(s@),
        _ => None,
    }
}

pub(crate) fn declared_work_unit_exec(data: &JsonValue) -> (r: Option<String>)
    ensures
        match r {
            Some(w) => declared_work_unit(*data) == Some(w@),
            None => declared_work_unit(*data) is None,
        },
{
    match get(data, "work_unit") {
        Some(JsonValue::Str(s)) => Some(s.clone()),
        _ => None,
    }
}

impl ArtifactStore {
    /// The schema of the registered type named `t` (its last registration).
    pub open spec fn schema_of(&self, t: Seq<char>) -> JsonValue {
        let i = choose|i: int| 0 <= i < self.types().len() && self.types()[i].name@ == t
            && forall|j: int| i < j < self.types().len() ==> self.types()[j].name@ != t;
        self.types()[i].schema
    }

    proof fn lemma_schema_of(&self, t: Seq<char>, i: int)
        requires
            0 <= i < self.types().len(),
            self.types()[i].name@ == t,
            forall|j: int| i < j < self.types().len() ==> self.types()[j].name@ != t,
        ensures
            self.schema_of(t) == self.types()[i].schema,
    {
        let c = choose|c: int| 0 <= c < self.types().len() && self.types()[c].name@ == t
            && forall|j: int| c < j < self.types().len() ==> self.types()[j].name@ != t;
        if c < i {
            assert(self.types()[i].name@ != t);
        }
        if c > i {
            assert(self.types()[c].name@ != t);
        }
    }

    /// The schema hash of a registered type: the content hash of its schema.
    pub fn schema_hash_for(&self, artifact_type: &str) -> (r: Result<String, StoreError>)
        ensures
            match r {
                Ok(h) => self.registered(artifact_type@) && h@ == json_hash(self.schema_of(artifact_type@)),
                Err(e) => !self.registered(artifact_type@) && e is UnknownArtifactType && e->UnknownArtifactType_0@ == artifact_type@,
            },
    {
        match self.artifact_type(artifact_type) {
            Some(at) => {
                proof {
                    let i = choose|i: int| 0 <= i < self.types().len() && *at == self.types()[i] && at.name@ == artifact_type@
                        && forall|j: int| i < j < self.types().len() ==> self.types()[j].name@ != artifact_type@;
                    self.lemma_schema_of(artifact_type@, i);
                }
                Ok(content_hash(&at.schema))
            },
            None => Err(StoreError::UnknownArtifactType(owned(artifact_type))),
        }
    }

    /// Record a parsed document with the outcome of validating it against
    /// its type's schema: valid, invalid with the violations, or an error
    /// when the schema itself is invalid. The state holds the path, the
    /// status, the timestamp, the content and schema hashes and the work
    /// unit the document declares.
    pub fn record_with_timestamp(&mut self, artifact_type: &str, instance_id: &str, path: &str, data: &JsonValue,
        validation: Result<(), ValidationError>, timestamp_ms: u64) -> (r: Result<(), StoreError>)
        ensures
            final(self).types() == old(self).types(),
            final(self).type_gaps() == old(self).type_gaps(),
            final(self).instance_gaps() == old(self).instance_gaps(),
            !old(self).registered(artifact_type@) ==> (r matches Err(StoreError::UnknownArtifactType(t)) && t@ == artifact_type@
                && final(self)@ == old(self)@),
            old(self).registered(artifact_type@) && validation is Err && validation->Err_0 is InvalidSchema
                ==> (r matches Err(StoreError::InvalidSchema { artifact_type: at2, detail: d2 })
                && at2@ == validation->Err_0->InvalidSchema_artifact_type@ && d2@ == validation->Err_0->InvalidSchema_detail@
                && final(self)@ == old(self)@),
            old(self).registered(artifact_type@) && !(validation is Err && validation->Err_0 is InvalidSchema) ==> {
                let st = final(self)@[(artifact_type@, instance_id@)];
                &&& r is Ok
                &&& final(self)@ == old(self)@.insert((artifact_type@, instance_id@), st)
                &&& st.path@ == path@
                &&& match validation {
                    Ok(()) => st.status is Valid,
                    Err(ValidationError::InvalidArtifact { violations, .. }) => st.status == ValidationStatus::Invalid(violations),
                    _ => true,
                }
                &&& st.last_modified_ms == timestamp_ms
                &&& st.content_hash@ == json_hash(*data)
                &&& st.schema_hash@ == json_hash(old(self).schema_of(artifact_type@))
                &&& opt_string_view(st.work_unit) == declared_work_unit(*data)
            },
    {
        let schema_hash = match self.schema_hash_for(artifact_type) {
            Ok(h) => h,
            Err(e) => {
                return Err(e);
            },
        };
        let status = match validation {
            Ok(()) => ValidationStatus::Valid,
            Err(ValidationError::InvalidArtifact { violations, .. }) => ValidationStatus::Invalid(violations),
            Err(ValidationError::InvalidSchema { artifact_type, detail }) => {
                return Err(StoreError::InvalidSchema { artifact_type, detail });
            },
        };
        let state = ArtifactState {
            path: owned(path),
            status,
            last_modified_ms: timestamp_ms,
            content_hash: content_hash(data),
            schema_hash,
            work_unit: declared_work_unit_exec(data),
        };
        let ghost expected = state;
        let r = self.record_state(artifact_type, instance_id, state);
        proof {
            assert(self@[(artifact_type@, instance_id@)] == expected);
        }
        r
    }

    /// Record an instance whose file is not valid JSON: its status carries
    /// the parser's message and its content hash is that of the raw bytes.
    pub fn record_malformed_with_timestamp(&mut self, artifact_type: &str, instance_id: &str, path: &str, raw_bytes: &[u8],
        error: String, timestamp_ms: u64, work_unit: Option<String>) -> (r: Result<(), StoreError>)
        ensures
            final(self).types() == old(self).types(),
            final(self).type_gaps() == old(self).type_gaps(),
            final(self).instance_gaps() == old(self).instance_gaps(),
            !old(self).registered(artifact_type@) ==> (r matches Err(StoreError::UnknownArtifactType(t)) && t@ == artifact_type@
                && final(self)@ == old(self)@),
            old(self).registered(artifact_type@) ==> {
                let st = final(self)@[(artifact_type@, instance_id@)];
                &&& r is Ok
                &&& final(self)@ == old(self)@.insert((artifact_type@, instance_id@), st)
                &&& st.path@ == path@
                &&& st.status == ValidationStatus::Malformed(error)
                &&& st.last_modified_ms == timestamp_ms
                &&& st.content_hash@ == content_hash_of(raw_bytes@)
                &&& st.schema_hash@ == json_hash(old(self).schema_of(artifact_type@))
                &&& st.work_unit == work_unit
            },
    {
        let schema_hash = match self.schema_hash_for(artifact_type) {
            Ok(h) => h,
            Err(e) => {
                return Err(e);
            },
        };
        let state = ArtifactState {
            path: owned(path),
            status: ValidationStatus::Malformed(error),
            last_modified_ms: timestamp_ms,
            content_hash: raw_content_hash(raw_bytes),
            schema_hash,
            work_unit,
        };
        let ghost expected = state;
        let r = self.record_state(artifact_type, instance_id, state);
        proof {
            assert(self@[(artifact_type@, instance_id@)] == expected);
        }
        r
    }
}

impl ArtifactStore {
    /// Record a parsed document, stamped with the current time, with the
    /// outcome of validating it; as `record_with_timestamp`, where nothing is
    /// claimed of the time read.
    pub fn record(&mut self, artifact_type: &str, instance_id: &str, path: &str, data: &JsonValue,
        validation: Result<(), ValidationError>) -> (r: Result<(), StoreError>)
        ensures
            final(self).types() == old(self).types(),
            final(self).type_gaps() == old(self).type_gaps(),
            final(self).instance_gaps() == old(self).instance_gaps(),
            !old(self).registered(artifact_type@) ==> (r matches Err(StoreError::UnknownArtifactType(t)) && t@ == artifact_type@
                && final(self)@ == old(self)@),
            old(self).registered(artifact_type@) && validation is Err && validation->Err_0 is InvalidSchema
                ==> (r matches Err(StoreError::InvalidSchema { artifact_type: at2, detail: d2 })
                && at2@ == validation->Err_0->InvalidSchema_artifact_type@ && d2@ == validation->Err_0->InvalidSchema_detail@
                && final(self)@ == old(self)@),
            old(self).registered(artifact_type@) && !(validation is Err && validation->Err_0 is InvalidSchema) ==> {
                let st = final(self)@[(artifact_type@, instance_id@)];
                &&& r is Ok
                &&& final(self)@ == old(self)@.insert((artifact_type@, instance_id@), st)
                &&& st.path@ == path@
                &&& match validation {
                    Ok(()) => st.status is Valid,
                    Err(ValidationError::InvalidArtifact { violations, .. }) => st.status == ValidationStatus::Invalid(violations),
                    _ => true,
                }
                &&& st.content_hash@ == json_hash(*data)
                &&& st.schema_hash@ == json_hash(old(self).schema_of(artifact_type@))
                &&& opt_string_view(st.work_unit) == declared_work_unit(*data)
            },
    {
        let now = current_time_ms();
        self.record_with_timestamp(artifact_type, instance_id, path, data, validation, now)
    }

    /// Record a file that is not valid JSON, stamped with the current time
    /// and with no work unit; as `record_malformed_with_timestamp`, where
    /// nothing is claimed of the time read.
    pub fn record_malformed(&mut self, artifact_type: &str, instance_id: &str, path: &str, raw_bytes: &[u8],
        error: String) -> (r: Result<(), StoreError>)
        ensures
            final(self).types() == old(self).types(),
            final(self).type_gaps() == old(self).type_gaps(),
            final(self).instance_gaps() == old(self).instance_gaps(),
            !old(self).registered(artifact_type@) ==> (r matches Err(StoreError::UnknownArtifactType(t)) && t@ == artifact_type@
                && final(self)@ == old(self)@),
            old(self).registered(artifact_type@) ==> {
                let st = final(self)@[(artifact_type@, instance_id@)];
                &&& r is Ok
                &&& final(self)@ == old(self)@.insert((artifact_type@, instance_id@), st)
                &&& st.path@ == path@
                &&& st.status == ValidationStatus::Malformed(error)
                &&& st.content_hash@ == content_hash_of(raw_bytes@)
                &&& st.schema_hash@ == json_hash(old(self).schema_of(artifact_type@))
                &&& st.work_unit is None
            },
    {
        let now = current_time_ms();
        self.record_malformed_with_timestamp(artifact_type, instance_id, path, raw_bytes, error, now, None)
    }

    /// The names of the registered artifact types, sorted, each once.
    pub fn artifact_type_names(&self) -> (r: Vec<String>)
        ensures
            sorted_le(views(r@)),
            views(r@).no_duplicates(),
            forall|t: Seq<char>| views(r@).contains(t) <==> self.registered(t),
    {
        let mut names: Vec<String> = Vec::new();
        let mut i: usize = 0;
        while i < self.artifact_types.len()
            invariant
                i <= self.types().len(),
                self.types() == self.artifact_types@,
                sorted_le(views(names@)),
                views(names@).no_duplicates(),
                forall|t: Seq<char>| views(names@).contains(t) <==>
                    exists|k: int| 0 <= k < i && #[trigger] self.types()[k].name@ == t,
            decreases self.types().len() - i,
        {
            let name = &self.artifact_types[i].name;
            let ghost before = views(names@);
            if !contains_str(&names, name.as_str()) {
                insert_sorted_string(&mut names, name.clone());
                proof {
                    broadcast use vstd::multiset::group_multiset_axioms;
                    let after = views(names@);
                    before.to_multiset_ensures();
                    after.to_multiset_ensures();
                    before.lemma_multiset_has_no_duplicates();
                    assert forall|x: Seq<char>| after.to_multiset().contains(x) implies after.to_multiset().count(x) == 1 by {
                        if x == name@ {
                            assert(before.to_multiset().count(x) == 0);
                        } else {
                            assert(before.to_multiset().contains(x));
                        }
                    }
                    after.lemma_multiset_has_no_duplicates_conv();
                    assert forall|t: Seq<char>| after.contains(t) <==>
                        exists|k: int| 0 <= k < i + 1 && #[trigger] self.types()[k].name@ == t by {
                        assert(after.to_multiset() == before.to_multiset().insert(name@));
                        if after.contains(t) && t != name@ {
                            assert(after.to_multiset().count(t) > 0);
                            assert(before.to_multiset().count(t) == after.to_multiset().count(t));
                            assert(before.contains(t));
                            let k0 = choose|k: int| 0 <= k < i && #[trigger] self.types()[k].name@ == t;
                            assert(0 <= k0 < i + 1 && self.types()[k0].name@ == t);
                        }
                        if t == name@ {
                            assert(after.to_multiset().count(t) > 0);
                            assert(self.types()[i as int].name@ == t);
                        }
                        if exists|k: int| 0 <= k < i + 1 && #[trigger] self.types()[k].name@ == t {
                            if t != name@ {
                                let k = choose|k: int| 0 <= k < i + 1 && #[trigger] self.types()[k].name@ == t;
                                assert(k < i);
                                assert(before.contains(t));
                                assert(before.to_multiset().count(t) > 0);
                            }
                        }
                    }
                }
            } else {
                proof {
                    assert forall|t: Seq<char>| views(names@).contains(t) <==>
                        exists|k: int| 0 <= k < i + 1 && #[trigger] self.types()[k].name@ == t by {
                        if exists|k: int| 0 <= k < i + 1 && #[trigger] self.types()[k].name@ == t {
                            let k = choose|k: int| 0 <= k < i + 1 && #[trigger] self.types()[k].name@ == t;
                            if k < i {
                                assert(exists|k2: int| 0 <= k2 < i && #[trigger] self.types()[k2].name@ == t);
                            }
                        }
                    }
                }
            }
            i = i + 1;
        }
        names
    }
}

/// The view of an optional owned string.
pub open spec fn opt_string_view(s: Option<String>) -> Option<Seq<char>> {
    match s {
        Some(v) => Some(v@),
        None => None,
    }
}

} // verus!
