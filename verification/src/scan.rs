//! What a workspace scan observed: new, modified, revalidated, invalid,
//! malformed, unreadable and removed artifact instances.
//!
//! Walking the workspace and reading the files is the caller's part; these
//! are the values the runtime's decisions read.
use vstd::prelude::*;

use crate::hash::{content_hash_of, raw_content_hash};
use crate::json::JsonValue;
use crate::store::{ArtifactState, ArtifactStore, InstanceKey, StoreError, ValidationStatus, content_hash, declared_work_unit, ikey_lt,
    declared_work_unit_exec, json_hash, opt_string_view, store_error_message};
use crate::text::{lemma_insert_sorted, lemma_insert_sorted_le, lemma_seq_le_facts, lemma_seq_lt_asymmetric, lemma_seq_lt_irreflexive,
    lemma_seq_lt_total, lemma_seq_lt_transitive, owned, push_str, seq_le, seq_lt, sorted_le, str_eq, str_lt, strictly_sorted, views,
    insert_sorted_string};
use crate::activation::current_time_ms;
use crate::validation::{ValidationError, Violation};

verus! {

/// An artifact instance a scan saw.
#[derive(Debug, Clone, PartialEq)]
pub struct ArtifactRef {
    pub artifact_type: String,
    pub instance_id: String,
    pub path: String,
    /// The work unit the instance declares, if any.
    pub work_unit: Option<String>,
}

/// An instance that parsed but violates its schema.
#[derive(Debug, Clone, PartialEq)]
pub struct InvalidArtifact {
    pub artifact_type: String,
    pub instance_id: String,
    pub path: String,
    pub work_unit: Option<String>,
    pub violations: Vec<Violation>,
}

/// An instance whose file is not valid JSON.
#[derive(Debug, Clone, PartialEq)]
pub struct MalformedArtifact {
    pub artifact_type: String,
    pub instance_id: String,
    pub path: String,
    pub work_unit: Option<String>,
    pub error: String,
}

/// A workspace entry that could not be read.
#[derive(Debug, Clone, PartialEq)]
pub struct UnreadableArtifact {
    pub path: String,
    pub error: String,
}

/// An artifact type whose directory could be read only in part.
#[derive(Debug, Clone, PartialEq)]
pub struct PartiallyScannedType {
    pub artifact_type: String,
    pub unreadable_entries: usize,
}

/// Everything one scan of the workspace observed.
#[derive(Debug, Clone, PartialEq)]
pub struct ScanResult {
    pub new: Vec<ArtifactRef>,
    pub modified: Vec<ArtifactRef>,
    pub revalidated: Vec<ArtifactRef>,
    pub invalid: Vec<InvalidArtifact>,
    pub malformed: Vec<MalformedArtifact>,
    pub unreadable: Vec<UnreadableArtifact>,
    pub partially_scanned_types: Vec<PartiallyScannedType>,
    pub removed: Vec<ArtifactRef>,
    pub unrecognized_dirs: Vec<String>,
}

impl Default for ScanResult {
    /// A scan that observed nothing.
    fn default() -> (r: ScanResult)
        ensures
            r.new@.len() == 0,
            r.modified@.len() == 0,
            r.revalidated@.len() == 0,
            r.invalid@.len() == 0,
            r.malformed@.len() == 0,
            r.unreadable@.len() == 0,
            r.partially_scanned_types@.len() == 0,
            r.removed@.len() == 0,
            r.unrecognized_dirs@.len() == 0,
    {
        ScanResult {
            new: Vec::new(),
            modified: Vec::new(),
            revalidated: Vec::new(),
            invalid: Vec::new(),
            malformed: Vec::new(),
            unreadable: Vec::new(),
            partially_scanned_types: Vec::new(),
            removed: Vec::new(),
            unrecognized_dirs: Vec::new(),
        }
    }
}

/// Why a scan could not run.
#[derive(Debug, Clone, PartialEq)]
pub enum ScanError {
    /// Filesystem I/O failure, with its message.
    Io(String),
    /// The store refused a recorded state.
    Store(StoreError),
    /// The workspace directory does not exist, though the store holds state.
    WorkspaceMissing(String),
}

/// The message of a scan error.
pub open spec fn scan_error_message(e: ScanError) -> Seq<char> {
    match e {
        ScanError::Io(detail) => "I/O error: "@ + detail@,
        ScanError::Store(err) => store_error_message(err),
        ScanError::WorkspaceMissing(path) => "workspace directory is missing: "@ + path@,
    }
}

impl ScanError {
    /// Renders the error as text (the error's `Display` form).
    pub fn to_display_string(&self) -> (r: String)
        ensures
            r@ == scan_error_message(*self),
    {
        match self {
            ScanError::Io(detail) => {
                let mut out = String::new();
                push_str(&mut out, "I/O error: ");
                push_str(&mut out, detail.as_str());
                assert(out@ =~= scan_error_message(*self));
                out
            },
            ScanError::Store(err) => err.to_display_string(),
            ScanError::WorkspaceMissing(path) => {
                let mut out = String::new();
                push_str(&mut out, "workspace directory is missing: ");
                push_str(&mut out, path.as_str());
                assert(out@ =~= scan_error_message(*self));
                out
            },
        }
    }
}


// ---------------------------------------------------------------------------
// Reconciling one artifact file with the store.
// ---------------------------------------------------------------------------

/// How a scanned file compares with what the store recorded for it.
#[derive(Debug, Clone, Copy, PartialEq, Eq, Structural)]
pub enum ScanDisposition {
    /// Nothing is recorded for the instance.
    New,
    /// Its content hash changed.
    Modified,
    /// Its content is the same but its type's schema changed.
    Revalidated,
    /// Neither changed.
    Unchanged,
}

/// The recorded state of a key, if any.
pub open spec fn recorded(m: Map<InstanceKey, ArtifactState>, k: InstanceKey) -> Option<ArtifactState> {
    if m.contains_key(k) { Some(m[k]) } else { None }
}

/// The disposition of a file with content hash `new_hash`, its type's
/// schema hash being `schema_hash`.
pub open spec fn disposition(existing: Option<ArtifactState>, new_hash: Seq<char>, schema_hash: Seq<char>) -> ScanDisposition {
    match existing {
        None => ScanDisposition::New,
        Some(st) => if st.content_hash@ != new_hash {
            ScanDisposition::Modified
        } else if st.schema_hash@ != schema_hash {
            ScanDisposition::Revalidated
        } else {
            ScanDisposition::Unchanged
        },
    }
}

/// Compare a file's content hash and its type's schema hash with the
/// recorded state.
pub fn classify_disposition(existing: Option<&ArtifactState>, new_hash: &str, current_schema_hash: &str) -> (r: ScanDisposition)
    ensures
        r == disposition(match existing { Some(st) => Some(*st), None => None }, new_hash@, current_schema_hash@),
{
    match existing {
        None => ScanDisposition::New,
        Some(state) => {
            if !str_eq(state.content_hash.as_str(), new_hash) {
                ScanDisposition::Modified
            } else if !str_eq(state.schema_hash.as_str(), current_schema_hash) {
                ScanDisposition::Revalidated
            } else {
                ScanDisposition::Unchanged
            }
        },
    }
}

/// `r` names instance `id` of type `t` at `path`, of work unit `wu`.
pub open spec fn is_ref(r: ArtifactRef, t: Seq<char>, id: Seq<char>, path: Seq<char>, wu: Option<Seq<char>>) -> bool {
    &&& r.artifact_type@ == t
    &&& r.instance_id@ == id
    &&& r.path@ == path
    &&& opt_string_view(r.work_unit) == wu
}

/// `after` is `before` with one reference to `(t, id)` appended.
pub open spec fn ref_appended(before: Seq<ArtifactRef>, after: Seq<ArtifactRef>, t: Seq<char>, id: Seq<char>, path: Seq<char>, wu: Option<Seq<char>>) -> bool {
    &&& after.len() == before.len() + 1
    &&& after.take(before.len() as int) == before
    &&& is_ref(after.last(), t, id, path, wu)
}

/// The state recorded for a parsed document: its path, the status its
/// validation gives, the timestamp, its content hash, the schema hash and
/// the work unit it declares.
pub open spec fn json_state(st: ArtifactState, path: Seq<char>, data: JsonValue, validation: Result<(), ValidationError>, ts: u64, schema_hash: Seq<char>) -> bool {
    &&& st.path@ == path
    &&& match validation {
        Ok(()) => st.status is Valid,
        Err(ValidationError::InvalidArtifact { violations, .. }) => st.status == ValidationStatus::Invalid(violations),
        Err(ValidationError::InvalidSchema { .. }) => false,
    }
    &&& st.last_modified_ms == ts
    &&& st.content_hash@ == json_hash(data)
    &&& st.schema_hash@ == schema_hash
    &&& opt_string_view(st.work_unit) == declared_work_unit(data)
}

/// Whether reconciling a parsed document records a new state: for a new,
/// modified or revalidated file, and for an unchanged one whose record lacks
/// the work unit the document now declares.
pub open spec fn json_records(existing: Option<ArtifactState>, d: ScanDisposition, data: JsonValue) -> bool {
    d != ScanDisposition::Unchanged || (existing is Some && existing->0.work_unit is None && declared_work_unit(data) is Some)
}

/// The timestamp a recorded state keeps: the scan's for new and modified
/// files, the earlier one otherwise.
pub open spec fn kept_timestamp(existing: Option<ArtifactState>, d: ScanDisposition, scan_ms: u64) -> u64 {
    if d == ScanDisposition::New || d == ScanDisposition::Modified { scan_ms } else { existing->0.last_modified_ms }
}

/// The list a disposition reports a file in, if any.
pub open spec fn reported_in(result: ScanResult, d: ScanDisposition) -> Seq<ArtifactRef> {
    match d {
        ScanDisposition::New => result.new@,
        ScanDisposition::Modified => result.modified@,
        ScanDisposition::Revalidated => result.revalidated@,
        ScanDisposition::Unchanged => Seq::empty(),
    }
}

/// The lists of a result other than those a disposition reports in are as
/// they were.
pub open spec fn others_unchanged(before: ScanResult, after: ScanResult, d: ScanDisposition) -> bool {
    &&& d != ScanDisposition::New ==> after.new == before.new
    &&& d != ScanDisposition::Modified ==> after.modified == before.modified
    &&& d != ScanDisposition::Revalidated ==> after.revalidated == before.revalidated
    &&& after.unreadable == before.unreadable
    &&& after.partially_scanned_types == before.partially_scanned_types
    &&& after.removed == before.removed
    &&& after.unrecognized_dirs == before.unrecognized_dirs
}

fn push_ref(list: &mut Vec<ArtifactRef>, artifact_type: &str, instance_id: &str, path: &str, work_unit: &Option<String>)
    ensures
        ref_appended(old(list)@, final(list)@, artifact_type@, instance_id@, path@, opt_string_view(*work_unit)),
{
    let wu = match work_unit {
        Some(w) => Some(w.clone()),
        None => None,
    };
    let ghost before = list@;
    list.push(ArtifactRef { artifact_type: owned(artifact_type), instance_id: owned(instance_id), path: owned(path), work_unit: wu });
    assert(list@.take(before.len() as int) =~= before);
}

/// Reconcile one file that parsed as JSON with the store, given the outcome
/// of validating it against its type's schema.
///
/// New and modified files are recorded with the scan's timestamp and
/// revalidated ones with their earlier timestamp, each reported in its
/// list; an unchanged file is recorded again only to fill in a work unit
/// its record lacks, and otherwise only its path is refreshed. A file whose
/// recorded state is invalid is reported as invalid.
pub fn handle_json_artifact(store: &mut ArtifactStore, artifact_type: &str, instance_id: &str, path: &str, data: &JsonValue,
    validation: Result<(), ValidationError>, scan_timestamp_ms: u64, result: &mut ScanResult) -> (r: Result<(), ScanError>)
    ensures
        final(store).types() == old(store).types(),
        final(store).type_gaps() == old(store).type_gaps(),
        final(store).instance_gaps() == old(store).instance_gaps(),
        ({
            let key = (artifact_type@, instance_id@);
            let existing = recorded(old(store)@, key);
            let schema_hash = json_hash(old(store).schema_of(artifact_type@));
            let d = disposition(existing, json_hash(*data), schema_hash);
            let wu = declared_work_unit(*data);
            if !old(store).registered(artifact_type@) {
                &&& r matches Err(ScanError::Store(StoreError::UnknownArtifactType(t))) && t@ == artifact_type@
                &&& final(store)@ == old(store)@
                &&& *final(result) == *old(result)
            } else if json_records(existing, d, *data) && validation is Err && validation->Err_0 is InvalidSchema {
                &&& r matches Err(ScanError::Store(StoreError::InvalidSchema { artifact_type: a, detail: x }))
                    && a@ == validation->Err_0->InvalidSchema_artifact_type@ && x@ == validation->Err_0->InvalidSchema_detail@
                &&& final(store)@ == old(store)@
                &&& *final(result) == *old(result)
            } else {
                let st = final(store)@[key];
                &&& r is Ok
                &&& final(store)@ == old(store)@.insert(key, st)
                &&& if json_records(existing, d, *data) {
                    json_state(st, path@, *data, validation, kept_timestamp(existing, d, scan_timestamp_ms), schema_hash)
                } else if existing->0.path@ != path@ {
                    st == ArtifactState { path: st.path, ..existing->0 } && st.path@ == path@
                } else {
                    st == existing->0
                }
                &&& d != ScanDisposition::Unchanged ==> ref_appended(reported_in(*old(result), d), reported_in(*final(result), d),
                    artifact_type@, instance_id@, path@, wu)
                &&& others_unchanged(*old(result), *final(result), d)
                &&& final(result).malformed == old(result).malformed
                &&& if st.status is Invalid {
                    &&& final(result).invalid@.len() == old(result).invalid@.len() + 1
                    &&& final(result).invalid@.take(old(result).invalid@.len() as int) == old(result).invalid@
                    &&& final(result).invalid@.last().artifact_type@ == artifact_type@
                    &&& final(result).invalid@.last().instance_id@ == instance_id@
                    &&& final(result).invalid@.last().path@ == path@
                    &&& opt_string_view(final(result).invalid@.last().work_unit) == opt_string_view(st.work_unit)
                    &&& final(result).invalid@.last().violations@ == st.status->Invalid_0@
                } else {
                    final(result).invalid == old(result).invalid
                }
            }
        }),
{
    let ghost key = (artifact_type@, instance_id@);
    let new_hash = content_hash(data);
    let current_schema_hash = match store.schema_hash_for(artifact_type) {
        Ok(h) => h,
        Err(e) => {
            return Err(ScanError::Store(e));
        },
    };
    let (ex_ts, ex_wu_none, ex_path_same) = match store.get(artifact_type, instance_id) {
        Some(st) => (st.last_modified_ms, st.work_unit.is_none(), str_eq(st.path.as_str(), path)),
        None => (0, false, false),
    };
    let d = classify_disposition(store.get(artifact_type, instance_id), new_hash.as_str(), current_schema_hash.as_str());
    let data_wu = declared_work_unit_exec(data);
    match d {
        ScanDisposition::New => {
            match store.record_with_timestamp(artifact_type, instance_id, path, data, validation, scan_timestamp_ms) {
                Ok(()) => {},
                Err(e) => {
                    return Err(ScanError::Store(e));
                },
            }
            push_ref(&mut result.new, artifact_type, instance_id, path, &data_wu);
        },
        ScanDisposition::Modified => {
            match store.record_with_timestamp(artifact_type, instance_id, path, data, validation, scan_timestamp_ms) {
                Ok(()) => {},
                Err(e) => {
                    return Err(ScanError::Store(e));
                },
            }
            push_ref(&mut result.modified, artifact_type, instance_id, path, &data_wu);
        },
        ScanDisposition::Revalidated => {
            match store.record_with_timestamp(artifact_type, instance_id, path, data, validation, ex_ts) {
                Ok(()) => {},
                Err(e) => {
                    return Err(ScanError::Store(e));
                },
            }
            push_ref(&mut result.revalidated, artifact_type, instance_id, path, &data_wu);
        },
        ScanDisposition::Unchanged => {
            if ex_wu_none && data_wu.is_some() {
                match store.record_with_timestamp(artifact_type, instance_id, path, data, validation, ex_ts) {
                    Ok(()) => {},
                    Err(e) => {
                        return Err(ScanError::Store(e));
                    },
                }
            } else if !ex_path_same {
                store.update_path(artifact_type, instance_id, path);
            } else {
                proof {
                    assert(store@ =~= store@.insert(key, store@[key]));
                }
            }
        },
    }
    match store.get(artifact_type, instance_id) {
        Some(st) => {
            match &st.status {
                ValidationStatus::Invalid(violations) => {
                    let mut copies: Vec<Violation> = Vec::new();
                    let mut i: usize = 0;
                    while i < violations.len()
                        invariant
                            i <= violations@.len(),
                            copies@ == violations@.take(i as int),
                        decreases violations@.len() - i,
                    {
                        copies.push(violations[i].duplicate());
                        proof {
                            assert(violations@.take(i + 1) =~= violations@.take(i as int).push(violations@[i as int]));
                        }
                        i = i + 1;
                    }
                    proof {
                        assert(violations@.take(violations@.len() as int) =~= violations@);
                    }
                    let wu = match &st.work_unit {
                        Some(w) => Some(w.clone()),
                        None => None,
                    };
                    let ghost before = result.invalid@;
                    result.invalid.push(InvalidArtifact {
                        artifact_type: owned(artifact_type),
                        instance_id: owned(instance_id),
                        path: owned(path),
                        work_unit: wu,
                        violations: copies,
                    });
                    proof {
                        assert(result.invalid@.take(before.len() as int) =~= before);
                    }
                },
                _ => {},
            }
        },
        None => {},
    }
    Ok(())
}


/// Reconcile one file that is not valid JSON with the store.
///
/// It is recorded as malformed, with the hash of its raw bytes and the work
/// unit its earlier record had, under the same dispositions as a parsed
/// file, and always reported as malformed.
pub fn handle_malformed_artifact(store: &mut ArtifactStore, artifact_type: &str, instance_id: &str, path: &str, bytes: &[u8],
    error: String, scan_timestamp_ms: u64, result: &mut ScanResult) -> (r: Result<(), ScanError>)
    ensures
        final(store).types() == old(store).types(),
        final(store).type_gaps() == old(store).type_gaps(),
        final(store).instance_gaps() == old(store).instance_gaps(),
        ({
            let key = (artifact_type@, instance_id@);
            let existing = recorded(old(store)@, key);
            let schema_hash = json_hash(old(store).schema_of(artifact_type@));
            let d = disposition(existing, content_hash_of(bytes@), schema_hash);
            let wu = match existing { Some(st) => opt_string_view(st.work_unit), None => None };
            if !old(store).registered(artifact_type@) {
                &&& r matches Err(ScanError::Store(StoreError::UnknownArtifactType(t))) && t@ == artifact_type@
                &&& final(store)@ == old(store)@
                &&& *final(result) == *old(result)
            } else {
                let st = final(store)@[key];
                &&& r is Ok
                &&& final(store)@ == old(store)@.insert(key, st)
                &&& if d != ScanDisposition::Unchanged {
                    &&& st.path@ == path@
                    &&& st.status == ValidationStatus::Malformed(error)
                    &&& st.last_modified_ms == kept_timestamp(existing, d, scan_timestamp_ms)
                    &&& st.content_hash@ == content_hash_of(bytes@)
                    &&& st.schema_hash@ == schema_hash
                    &&& opt_string_view(st.work_unit) == wu
                } else if existing->0.path@ != path@ {
                    st == ArtifactState { path: st.path, ..existing->0 } && st.path@ == path@
                } else {
                    st == existing->0
                }
                &&& d != ScanDisposition::Unchanged ==> ref_appended(reported_in(*old(result), d), reported_in(*final(result), d),
                    artifact_type@, instance_id@, path@, wu)
                &&& others_unchanged(*old(result), *final(result), d)
                &&& final(result).invalid == old(result).invalid
                &&& final(result).malformed@.len() == old(result).malformed@.len() + 1
                &&& final(result).malformed@.take(old(result).malformed@.len() as int) == old(result).malformed@
                &&& final(result).malformed@.last().artifact_type@ == artifact_type@
                &&& final(result).malformed@.last().instance_id@ == instance_id@
                &&& final(result).malformed@.last().path@ == path@
                &&& opt_string_view(final(result).malformed@.last().work_unit) == wu
                &&& final(result).malformed@.last().error == error
            }
        }),
{
    let ghost key = (artifact_type@, instance_id@);
    let new_hash = raw_content_hash(bytes);
    let current_schema_hash = match store.schema_hash_for(artifact_type) {
        Ok(h) => h,
        Err(e) => {
            return Err(ScanError::Store(e));
        },
    };
    let (ex_ts, ex_path_same, previous_work_unit) = match store.get(artifact_type, instance_id) {
        Some(st) => (st.last_modified_ms, str_eq(st.path.as_str(), path), match &st.work_unit {
            Some(w) => Some(w.clone()),
            None => None,
        }),
        None => (0, false, None),
    };
    let d = classify_disposition(store.get(artifact_type, instance_id), new_hash.as_str(), current_schema_hash.as_str());
    let wu_for_record = match &previous_work_unit {
        Some(w) => Some(w.clone()),
        None => None,
    };
    match d {
        ScanDisposition::New => {
            let _ = store.record_malformed_with_timestamp(artifact_type, instance_id, path, bytes, error.clone(), scan_timestamp_ms, wu_for_record);
            push_ref(&mut result.new, artifact_type, instance_id, path, &previous_work_unit);
        },
        ScanDisposition::Modified => {
            let _ = store.record_malformed_with_timestamp(artifact_type, instance_id, path, bytes, error.clone(), scan_timestamp_ms, wu_for_record);
            push_ref(&mut result.modified, artifact_type, instance_id, path, &previous_work_unit);
        },
        ScanDisposition::Revalidated => {
            let _ = store.record_malformed_with_timestamp(artifact_type, instance_id, path, bytes, error.clone(), ex_ts, wu_for_record);
            push_ref(&mut result.revalidated, artifact_type, instance_id, path, &previous_work_unit);
        },
        ScanDisposition::Unchanged => {
            if !ex_path_same {
                store.update_path(artifact_type, instance_id, path);
            } else {
                proof {
                    assert(store@ =~= store@.insert(key, store@[key]));
                }
            }
        },
    }
    let ghost before = result.malformed@;
    result.malformed.push(MalformedArtifact {
        artifact_type: owned(artifact_type),
        instance_id: owned(instance_id),
        path: owned(path),
        work_unit: previous_work_unit,
        error,
    });
    proof {
        assert(result.malformed@.take(before.len() as int) =~= before);
    }
    Ok(())
}


// ---------------------------------------------------------------------------
// What the caller observed of the workspace.
// ---------------------------------------------------------------------------

/// What reading one instance file gave.
#[derive(Debug)]
pub enum FileContent {
    /// The file could not be read; the error's message.
    Unreadable(String),
    /// The file parsed as JSON, with the outcome of validating it against
    /// its type's schema.
    Parsed { data: JsonValue, validation: Result<(), ValidationError> },
    /// The file is not valid JSON: its raw bytes and the parser's message.
    Malformed { bytes: Vec<u8>, error: String },
}

/// One entry of an artifact type's directory.
#[derive(Debug)]
pub enum TypeDirEntry {
    /// The entry, or its file type, could not be read.
    Unreadable { path: String, error: String },
    /// A regular file: its path, its name and what reading it gave.
    File { path: String, file_name: String, content: FileContent },
}

/// The listing of an artifact type's directory.
#[derive(Debug)]
pub enum TypeDirListing {
    /// The directory could not be listed; the error's message.
    Unreadable(String),
    /// Its entries.
    Entries(Vec<TypeDirEntry>),
}

/// A directory directly under the workspace.
#[derive(Debug)]
pub struct WorkspaceDir {
    /// The directory's name.
    pub name: String,
    /// Its path.
    pub path: String,
    /// What listing it gave.
    pub listing: TypeDirListing,
}

/// The workspace as observed.
#[derive(Debug)]
pub enum Workspace {
    /// The workspace directory does not exist; its path.
    Missing(String),
    /// Its subdirectories.
    Dirs(Vec<WorkspaceDir>),
}

/// The instance id a file name gives: the name without its `.json`
/// extension; no id when the extension is not `json` or nothing precedes it.
pub open spec fn json_instance_id(name: Seq<char>) -> Option<Seq<char>> {
    if name.len() > 5 && name.skip(name.len() - 5) == ".json"@ {
        Some(name.take(name.len() - 5))
    } else {
        None
    }
}

/// The instance id of an instance file's name, if it is one.
pub fn instance_id_of(file_name: &str) -> (r: Option<String>)
    ensures
        opt_string_view(r) == json_instance_id(file_name@),
{
    let n = file_name.unicode_len();
    proof {
        reveal_strlit(".json");
    }
    if n > 5 {
        let suffix = file_name.substring_char(n - 5, n);
        assert(suffix@ =~= file_name@.skip(n - 5));
        if str_eq(suffix, ".json") {
            let stem = file_name.substring_char(0, n - 5);
            assert(stem@ =~= file_name@.take(n - 5));
            return Some(owned(stem));
        }
    }
    None
}

/// A one-element sequence for `Some`, an empty one for `None`.
pub open spec fn opt_seq<A>(o: Option<A>) -> Seq<A> {
    match o {
        Some(a) => seq![a],
        None => Seq::empty(),
    }
}

/// The instance key an entry of type `t`'s directory names, if it is an
/// instance file.
pub open spec fn entry_key(t: Seq<char>, e: TypeDirEntry) -> Option<InstanceKey> {
    match e {
        TypeDirEntry::File { file_name, .. } => match json_instance_id(file_name@) {
            Some(id) => Some((t, id)),
            None => None,
        },
        _ => None,
    }
}

/// The path and error an entry is reported unreadable with, if it is.
pub open spec fn entry_unreadable(e: TypeDirEntry) -> Option<(Seq<char>, Seq<char>)> {
    match e {
        TypeDirEntry::Unreadable { path, error } => Some((path@, error@)),
        TypeDirEntry::File { path, file_name, content } => match content {
            FileContent::Unreadable(error) => if json_instance_id(file_name@) is Some {
                Some((path@, error@))
            } else {
                None
            },
            _ => None,
        },
    }
}

/// The type-level gap an entry of type `t`'s directory leaves, if any.
pub open spec fn entry_type_gap(t: Seq<char>, e: TypeDirEntry) -> Option<Seq<char>> {
    if e is Unreadable { Some(t) } else { None }
}

/// The instance whose file could not be read, if the entry is one.
pub open spec fn entry_instance_gap(t: Seq<char>, e: TypeDirEntry) -> Option<InstanceKey> {
    match e {
        TypeDirEntry::File { content: FileContent::Unreadable(_), .. } => entry_key(t, e),
        _ => None,
    }
}

/// The instance whose file was read and reconciled with the store, if the
/// entry is one.
pub open spec fn entry_recorded(t: Seq<char>, e: TypeDirEntry) -> Option<InstanceKey> {
    match e {
        TypeDirEntry::File { content: FileContent::Unreadable(_), .. } => None,
        _ => entry_key(t, e),
    }
}

/// The entry parsed, and validating it found its type's schema invalid.
pub open spec fn entry_invalid_schema(t: Seq<char>, e: TypeDirEntry) -> bool {
    &&& entry_key(t, e) is Some
    &&& e matches TypeDirEntry::File { content: FileContent::Parsed { validation: Err(ValidationError::InvalidSchema { .. }), .. }, .. }
}

/// The instance keys the entries name, in order.
pub open spec fn keys_of(t: Seq<char>, es: Seq<TypeDirEntry>) -> Seq<InstanceKey>
    decreases es.len(),
{
    if es.len() == 0 { Seq::empty() } else { keys_of(t, es.drop_last()) + opt_seq(entry_key(t, es.last())) }
}

/// The unreadable reports the entries give, in order.
pub open spec fn unreadables_of(es: Seq<TypeDirEntry>) -> Seq<(Seq<char>, Seq<char>)>
    decreases es.len(),
{
    if es.len() == 0 { Seq::empty() } else { unreadables_of(es.drop_last()) + opt_seq(entry_unreadable(es.last())) }
}

/// The type-level gaps the entries leave, in order.
pub open spec fn type_gaps_of(t: Seq<char>, es: Seq<TypeDirEntry>) -> Seq<Seq<char>>
    decreases es.len(),
{
    if es.len() == 0 { Seq::empty() } else { type_gaps_of(t, es.drop_last()) + opt_seq(entry_type_gap(t, es.last())) }
}

/// The instance-level gaps the entries leave, in order.
pub open spec fn instance_gaps_of(t: Seq<char>, es: Seq<TypeDirEntry>) -> Seq<InstanceKey>
    decreases es.len(),
{
    if es.len() == 0 { Seq::empty() } else { instance_gaps_of(t, es.drop_last()) + opt_seq(entry_instance_gap(t, es.last())) }
}

/// The instances the entries reconcile with the store, in order.
pub open spec fn recorded_of(t: Seq<char>, es: Seq<TypeDirEntry>) -> Seq<InstanceKey>
    decreases es.len(),
{
    if es.len() == 0 { Seq::empty() } else { recorded_of(t, es.drop_last()) + opt_seq(entry_recorded(t, es.last())) }
}

/// The entries of a listing; none for an unreadable directory.
pub open spec fn listing_entries(l: TypeDirListing) -> Seq<TypeDirEntry> {
    match l {
        TypeDirListing::Entries(es) => es@,
        TypeDirListing::Unreadable(_) => Seq::empty(),
    }
}

/// The unreadable reports a directory at `dir_path` gives.
pub open spec fn listing_unreadables(dir_path: Seq<char>, l: TypeDirListing) -> Seq<(Seq<char>, Seq<char>)> {
    match l {
        TypeDirListing::Unreadable(error) => seq![(dir_path, error@)],
        TypeDirListing::Entries(es) => unreadables_of(es@),
    }
}

/// The type-level gaps a directory of type `t` leaves.
pub open spec fn listing_type_gaps(t: Seq<char>, l: TypeDirListing) -> Seq<Seq<char>> {
    match l {
        TypeDirListing::Unreadable(_) => seq![t],
        TypeDirListing::Entries(es) => type_gaps_of(t, es@),
    }
}

/// A directory of type `t` holds an entry whose validation found the
/// schema invalid.
pub open spec fn listing_invalid_schema(t: Seq<char>, l: TypeDirListing) -> bool {
    exists|i: int| 0 <= i < listing_entries(l).len() && #[trigger] entry_invalid_schema(t, listing_entries(l)[i])
}

/// Every key of `keys` is recorded in `m`.
pub open spec fn all_recorded(m: Map<InstanceKey, ArtifactState>, keys: Seq<InstanceKey>) -> bool {
    forall|k: InstanceKey| keys.contains(k) ==> #[trigger] m.contains_key(k)
}

/// `after` records what `before` does for every key outside `keys`.
pub open spec fn agrees_outside(before: Map<InstanceKey, ArtifactState>, after: Map<InstanceKey, ArtifactState>, keys: Seq<InstanceKey>) -> bool {
    forall|k: InstanceKey| !keys.contains(k) ==> (#[trigger] after.contains_key(k) == before.contains_key(k)
        && (before.contains_key(k) ==> after[k] == before[k]))
}

/// The views of the unreadable reports of a result.
pub open spec fn unreadable_views(s: Seq<UnreadableArtifact>) -> Seq<(Seq<char>, Seq<char>)> {
    s.map_values(|u: UnreadableArtifact| (u.path@, u.error@))
}

/// The views of a list of instance keys.
pub open spec fn key_views(s: Seq<(String, String)>) -> Seq<InstanceKey> {
    s.map_values(|k: (String, String)| (k.0@, k.1@))
}


/// Each of the gathered sequences of a prefix one entry longer is that of
/// the shorter prefix and what the entry adds.
proof fn lemma_gather_step(t: Seq<char>, es: Seq<TypeDirEntry>, i: int)
    requires
        0 <= i < es.len(),
    ensures
        keys_of(t, es.take(i + 1)) == keys_of(t, es.take(i)) + opt_seq(entry_key(t, es[i])),
        unreadables_of(es.take(i + 1)) == unreadables_of(es.take(i)) + opt_seq(entry_unreadable(es[i])),
        type_gaps_of(t, es.take(i + 1)) == type_gaps_of(t, es.take(i)) + opt_seq(entry_type_gap(t, es[i])),
        instance_gaps_of(t, es.take(i + 1)) == instance_gaps_of(t, es.take(i)) + opt_seq(entry_instance_gap(t, es[i])),
        recorded_of(t, es.take(i + 1)) == recorded_of(t, es.take(i)) + opt_seq(entry_recorded(t, es[i])),
{
    assert(es.take(i + 1).drop_last() =~= es.take(i));
    assert(es.take(i + 1).last() == es[i]);
}

fn push_unreadable(list: &mut Vec<UnreadableArtifact>, path: &str, error: &str)
    ensures
        unreadable_views(final(list)@) == unreadable_views(old(list)@).push((path@, error@)),
{
    list.push(UnreadableArtifact { path: owned(path), error: owned(error) });
    assert(unreadable_views(list@) =~= unreadable_views(old(list)@).push((path@, error@)));
}

/// The disposition a read entry gets against the state `existing`
/// recorded for its instance, its type's schema hash being `sh`.
pub open spec fn entry_disposition(e: TypeDirEntry, existing: Option<ArtifactState>, sh: Seq<char>) -> ScanDisposition {
    match e {
        TypeDirEntry::File { content: FileContent::Parsed { data, .. }, .. } => disposition(existing, json_hash(data), sh),
        TypeDirEntry::File { content: FileContent::Malformed { bytes, .. }, .. } => disposition(existing, content_hash_of(bytes@), sh),
        _ => ScanDisposition::Unchanged,
    }
}

/// The path of an entry.
pub open spec fn entry_path(e: TypeDirEntry) -> Seq<char> {
    match e {
        TypeDirEntry::File { path, .. } => path@,
        TypeDirEntry::Unreadable { path, .. } => path@,
    }
}

/// The work unit a read entry is reported with: the one a parsed document
/// declares, or the one the earlier record of a malformed file had.
pub open spec fn entry_work_unit(e: TypeDirEntry, existing: Option<ArtifactState>) -> Option<Seq<char>> {
    match e {
        TypeDirEntry::File { content: FileContent::Parsed { data, .. }, .. } => declared_work_unit(data),
        _ => match existing {
            Some(st) => opt_string_view(st.work_unit),
            None => None,
        },
    }
}

/// `st` is the state a read entry leaves for its instance, from the state
/// `existing` recorded before: as `handle_json_artifact` records a parsed
/// document (with that file's validation outcome), and as
/// `handle_malformed_artifact` records a malformed file.
pub open spec fn entry_state(e: TypeDirEntry, existing: Option<ArtifactState>, st: ArtifactState, scan_ms: u64, sh: Seq<char>) -> bool {
    let d = entry_disposition(e, existing, sh);
    let refreshed = if existing->0.path@ != entry_path(e) {
        st == ArtifactState { path: st.path, ..existing->0 } && st.path@ == entry_path(e)
    } else {
        st == existing->0
    };
    match e {
        TypeDirEntry::File { path, content: FileContent::Parsed { data, validation }, .. } =>
            if json_records(existing, d, data) {
                json_state(st, path@, data, validation, kept_timestamp(existing, d, scan_ms), sh)
            } else {
                refreshed
            },
        TypeDirEntry::File { path, content: FileContent::Malformed { bytes, error }, .. } =>
            if d != ScanDisposition::Unchanged {
                &&& st.path@ == path@
                &&& st.status == ValidationStatus::Malformed(error)
                &&& st.last_modified_ms == kept_timestamp(existing, d, scan_ms)
                &&& st.content_hash@ == content_hash_of(bytes@)
                &&& st.schema_hash@ == sh
                &&& opt_string_view(st.work_unit) == entry_work_unit(e, existing)
            } else {
                refreshed
            },
        _ => true,
    }
}

/// Between `before` and `after`, a reference to `(t, id)` at `path` with
/// work unit `wu` was appended to the list disposition `d` reports in.
pub open spec fn reported_after(before: ScanResult, after: ScanResult, d: ScanDisposition, t: Seq<char>, id: Seq<char>,
    path: Seq<char>, wu: Option<Seq<char>>) -> bool {
    exists|m: int| reported_in(before, d).len() <= m < reported_in(after, d).len()
        && is_ref(#[trigger] reported_in(after, d)[m], t, id, path, wu)
}

/// Between `before` and `after`, `(t, id)` at `path` was reported invalid.
pub open spec fn invalid_after(before: ScanResult, after: ScanResult, t: Seq<char>, id: Seq<char>, path: Seq<char>) -> bool {
    exists|m: int| before.invalid@.len() <= m < after.invalid@.len() && (#[trigger] after.invalid@[m]).artifact_type@ == t
        && after.invalid@[m].instance_id@ == id && after.invalid@[m].path@ == path
}

/// Between `before` and `after`, `(t, id)` at `path` was reported malformed.
pub open spec fn malformed_after(before: ScanResult, after: ScanResult, t: Seq<char>, id: Seq<char>, path: Seq<char>) -> bool {
    exists|m: int| before.malformed@.len() <= m < after.malformed@.len() && (#[trigger] after.malformed@[m]).artifact_type@ == t
        && after.malformed@[m].instance_id@ == id && after.malformed@[m].path@ == path
}

/// What reconciling a read entry of type `t`, naming instance `id`, leaves:
/// the state `st` of its instance, from the state `existing` recorded
/// before, and its reports between `before` and `after`: in its
/// disposition's list when it changed, as invalid when its state is, and as
/// malformed when the file is.
#[verifier::opaque]
pub open spec fn entry_outcome(t: Seq<char>, id: Seq<char>, e: TypeDirEntry, existing: Option<ArtifactState>, st: ArtifactState,
    before: ScanResult, after: ScanResult, scan_ms: u64, sh: Seq<char>) -> bool {
    let d = entry_disposition(e, existing, sh);
    &&& entry_state(e, existing, st, scan_ms, sh)
    &&& d != ScanDisposition::Unchanged ==> reported_after(before, after, d, t, id, entry_path(e), entry_work_unit(e, existing))
    &&& (e matches TypeDirEntry::File { content: FileContent::Parsed { .. }, .. }) && st.status is Invalid
        ==> invalid_after(before, after, t, id, entry_path(e))
    &&& (e matches TypeDirEntry::File { content: FileContent::Malformed { .. }, .. }) ==> malformed_after(before, after, t, id, entry_path(e))
}

/// No other entry of `es` is reconciled for the instance entry `i` names.
pub open spec fn sole_entry(t: Seq<char>, es: Seq<TypeDirEntry>, i: int) -> bool {
    forall|j: int| 0 <= j < es.len() && j != i ==> #[trigger] entry_recorded(t, es[j]) != entry_recorded(t, es[i])
}

/// `after` keeps every report of `before`, in its lists of changed,
/// invalid and malformed instances.
pub open spec fn reports_kept(before: ScanResult, after: ScanResult) -> bool {
    &&& before.new@.len() <= after.new@.len() && after.new@.take(before.new@.len() as int) == before.new@
    &&& before.modified@.len() <= after.modified@.len() && after.modified@.take(before.modified@.len() as int) == before.modified@
    &&& before.revalidated@.len() <= after.revalidated@.len()
        && after.revalidated@.take(before.revalidated@.len() as int) == before.revalidated@
    &&& before.invalid@.len() <= after.invalid@.len() && after.invalid@.take(before.invalid@.len() as int) == before.invalid@
    &&& before.malformed@.len() <= after.malformed@.len() && after.malformed@.take(before.malformed@.len() as int) == before.malformed@
}

/// Reports made between `a` and `b` stand in `c` when `c` keeps `b`'s.
proof fn lemma_reports_carry(t: Seq<char>, id: Seq<char>, e: TypeDirEntry, existing: Option<ArtifactState>, st: ArtifactState,
    a: ScanResult, b: ScanResult, c: ScanResult, scan_ms: u64, sh: Seq<char>)
    requires
        entry_outcome(t, id, e, existing, st, a, b, scan_ms, sh),
        reports_kept(b, c),
    ensures
        entry_outcome(t, id, e, existing, st, a, c, scan_ms, sh),
{
    reveal(entry_outcome);
    let d = entry_disposition(e, existing, sh);
    if d != ScanDisposition::Unchanged {
        let m = choose|m: int| reported_in(a, d).len() <= m < reported_in(b, d).len()
            && is_ref(#[trigger] reported_in(b, d)[m], t, id, entry_path(e), entry_work_unit(e, existing));
        assert(reported_in(c, d).take(reported_in(b, d).len() as int) == reported_in(b, d));
        assert(reported_in(c, d)[m] == reported_in(b, d)[m]);
    }
    if (e matches TypeDirEntry::File { content: FileContent::Parsed { .. }, .. }) && st.status is Invalid {
        let m = choose|m: int| a.invalid@.len() <= m < b.invalid@.len() && (#[trigger] b.invalid@[m]).artifact_type@ == t
            && b.invalid@[m].instance_id@ == id && b.invalid@[m].path@ == entry_path(e);
        assert(c.invalid@[m] == c.invalid@.take(b.invalid@.len() as int)[m]);
    }
    if e matches TypeDirEntry::File { content: FileContent::Malformed { .. }, .. } {
        let m = choose|m: int| a.malformed@.len() <= m < b.malformed@.len() && (#[trigger] b.malformed@[m]).artifact_type@ == t
            && b.malformed@[m].instance_id@ == id && b.malformed@[m].path@ == entry_path(e);
        assert(c.malformed@[m] == c.malformed@.take(b.malformed@.len() as int)[m]);
    }
}

/// Reports kept compose.
proof fn lemma_reports_kept_trans(a: ScanResult, b: ScanResult, c: ScanResult)
    requires
        reports_kept(a, b),
        reports_kept(b, c),
    ensures
        reports_kept(a, c),
{
    assert(c.new@.take(a.new@.len() as int) =~= c.new@.take(b.new@.len() as int).take(a.new@.len() as int));
    assert(c.modified@.take(a.modified@.len() as int) =~= c.modified@.take(b.modified@.len() as int).take(a.modified@.len() as int));
    assert(c.revalidated@.take(a.revalidated@.len() as int)
        =~= c.revalidated@.take(b.revalidated@.len() as int).take(a.revalidated@.len() as int));
    assert(c.invalid@.take(a.invalid@.len() as int) =~= c.invalid@.take(b.invalid@.len() as int).take(a.invalid@.len() as int));
    assert(c.malformed@.take(a.malformed@.len() as int) =~= c.malformed@.take(b.malformed@.len() as int).take(a.malformed@.len() as int));
}

/// An instance a prefix of the entries reconciles is named by one of them.
proof fn lemma_recorded_index(t: Seq<char>, es: Seq<TypeDirEntry>, i: int, k: InstanceKey)
    requires
        0 <= i <= es.len(),
        recorded_of(t, es.take(i)).contains(k),
    ensures
        exists|j: int| 0 <= j < i && #[trigger] entry_recorded(t, es[j]) == Some(k),
    decreases i,
{
    if i > 0 {
        lemma_gather_step(t, es, i - 1);
        let pre = recorded_of(t, es.take(i - 1));
        let r = recorded_of(t, es.take(i));
        let m = choose|m: int| 0 <= m < r.len() && r[m] == k;
        if m < pre.len() {
            assert(pre[m] == k);
            lemma_recorded_index(t, es, i - 1, k);
        } else {
            assert(entry_recorded(t, es[i - 1]) == Some(k));
        }
    } else {
        assert(recorded_of(t, es.take(0)) =~= Seq::<InstanceKey>::empty());
    }
}

/// A result keeps its own reports.
proof fn lemma_reports_kept_refl(r: ScanResult)
    ensures
        reports_kept(r, r),
{
    assert(r.new@.take(r.new@.len() as int) =~= r.new@);
    assert(r.modified@.take(r.modified@.len() as int) =~= r.modified@);
    assert(r.revalidated@.take(r.revalidated@.len() as int) =~= r.revalidated@);
    assert(r.invalid@.take(r.invalid@.len() as int) =~= r.invalid@);
    assert(r.malformed@.take(r.malformed@.len() as int) =~= r.malformed@);
}

/// Reports made between `b` and `c` were made between `a` and `c` when `b`
/// keeps `a`'s.
proof fn lemma_outcome_widen(t: Seq<char>, id: Seq<char>, e: TypeDirEntry, existing: Option<ArtifactState>, st: ArtifactState,
    a: ScanResult, b: ScanResult, c: ScanResult, scan_ms: u64, sh: Seq<char>)
    requires
        entry_outcome(t, id, e, existing, st, b, c, scan_ms, sh),
        reports_kept(a, b),
    ensures
        entry_outcome(t, id, e, existing, st, a, c, scan_ms, sh),
{
    reveal(entry_outcome);
    let d = entry_disposition(e, existing, sh);
    if d != ScanDisposition::Unchanged {
        let m = choose|m: int| reported_in(b, d).len() <= m < reported_in(c, d).len()
            && is_ref(#[trigger] reported_in(c, d)[m], t, id, entry_path(e), entry_work_unit(e, existing));
        assert(reported_in(a, d).len() <= reported_in(b, d).len());
    }
    if (e matches TypeDirEntry::File { content: FileContent::Parsed { .. }, .. }) && st.status is Invalid {
        let m = choose|m: int| b.invalid@.len() <= m < c.invalid@.len() && (#[trigger] c.invalid@[m]).artifact_type@ == t
            && c.invalid@[m].instance_id@ == id && c.invalid@[m].path@ == entry_path(e);
        assert(a.invalid@.len() <= m);
    }
    if e matches TypeDirEntry::File { content: FileContent::Malformed { .. }, .. } {
        let m = choose|m: int| b.malformed@.len() <= m < c.malformed@.len() && (#[trigger] c.malformed@[m]).artifact_type@ == t
            && c.malformed@[m].instance_id@ == id && c.malformed@[m].path@ == entry_path(e);
        assert(a.malformed@.len() <= m);
    }
}

/// Reconciling one file keeps the earlier reports: it appends at most one
/// to its disposition's list and to the lists of invalid and malformed
/// instances.
proof fn lemma_step_kept(before: ScanResult, after: ScanResult, d: ScanDisposition)
    requires
        d != ScanDisposition::Unchanged ==> reported_in(after, d).len() == reported_in(before, d).len() + 1
            && reported_in(after, d).take(reported_in(before, d).len() as int) == reported_in(before, d),
        others_unchanged(before, after, d),
        after.invalid == before.invalid || (after.invalid@.len() == before.invalid@.len() + 1
            && after.invalid@.take(before.invalid@.len() as int) == before.invalid@),
        after.malformed == before.malformed || (after.malformed@.len() == before.malformed@.len() + 1
            && after.malformed@.take(before.malformed@.len() as int) == before.malformed@),
    ensures
        reports_kept(before, after),
{
    lemma_reports_kept_refl(before);
}

/// A result whose lists of changed, invalid and malformed instances are
/// those of another keeps its reports.
proof fn lemma_same_reports(before: ScanResult, after: ScanResult)
    requires
        after.new == before.new,
        after.modified == before.modified,
        after.revalidated == before.revalidated,
        after.invalid == before.invalid,
        after.malformed == before.malformed,
    ensures
        reports_kept(before, after),
{
    lemma_reports_kept_refl(before);
}

/// The outcomes of the entries before `i` stand after entry `i` is
/// reconciled, and entry `i`'s own joins them when no other entry names
/// its instance.
proof fn lemma_outcomes_step(t: Seq<char>, es: Seq<TypeDirEntry>, i: int, old_map: Map<InstanceKey, ArtifactState>,
    store_before: Map<InstanceKey, ArtifactState>, store_after: Map<InstanceKey, ArtifactState>, old_res: ScanResult,
    res_before: ScanResult, res_after: ScanResult, scan_ms: u64, sh: Seq<char>, touched: Option<InstanceKey>)
    requires
        0 <= i < es.len(),
        forall|j: int| 0 <= j < i && sole_entry(t, es, j) && #[trigger] entry_recorded(t, es[j]) is Some ==> {
            let k = entry_recorded(t, es[j])->0;
            entry_outcome(t, k.1, es[j], recorded(old_map, k), store_before[k], old_res, res_before, scan_ms, sh)
        },
        reports_kept(old_res, res_before),
        reports_kept(res_before, res_after),
        touched is None ==> store_after == store_before && entry_recorded(t, es[i]) is None,
        touched is Some ==> {
            let k = touched->0;
            &&& entry_recorded(t, es[i]) == touched
            &&& store_after == store_before.insert(k, store_after[k])
            &&& entry_outcome(t, k.1, es[i], recorded(store_before, k), store_after[k], res_before, res_after, scan_ms, sh)
        },
        agrees_outside(old_map, store_before, recorded_of(t, es.take(i))),
    ensures
        forall|j: int| 0 <= j < i + 1 && sole_entry(t, es, j) && #[trigger] entry_recorded(t, es[j]) is Some ==> {
            let k = entry_recorded(t, es[j])->0;
            entry_outcome(t, k.1, es[j], recorded(old_map, k), store_after[k], old_res, res_after, scan_ms, sh)
        },
{
    assert forall|j: int| 0 <= j < i + 1 && sole_entry(t, es, j) && #[trigger] entry_recorded(t, es[j]) is Some implies {
        let k = entry_recorded(t, es[j])->0;
        entry_outcome(t, k.1, es[j], recorded(old_map, k), store_after[k], old_res, res_after, scan_ms, sh)
    } by {
        let k = entry_recorded(t, es[j])->0;
        if j < i {
            if touched is Some {
                assert(entry_recorded(t, es[i]) != entry_recorded(t, es[j]));
                assert(k != touched->0);
            }
            assert(store_after[k] == store_before[k]);
            lemma_reports_carry(t, k.1, es[j], recorded(old_map, k), store_after[k], old_res, res_before, res_after, scan_ms, sh);
        } else {
            assert(touched == Some(k));
            assert(!recorded_of(t, es.take(i)).contains(k)) by {
                if recorded_of(t, es.take(i)).contains(k) {
                    lemma_recorded_index(t, es, i, k);
                    let j2 = choose|j2: int| 0 <= j2 < i && #[trigger] entry_recorded(t, es[j2]) == Some(k);
                    assert(entry_recorded(t, es[j2]) != entry_recorded(t, es[j]));
                }
            }
            assert(recorded(store_before, k) == recorded(old_map, k));
            lemma_outcome_widen(t, k.1, es[j], recorded(old_map, k), store_after[k], old_res, res_before, res_after, scan_ms, sh);
        }
    }
}

/// The store agrees with the one it started from outside the instances
/// reconciled so far, and records all of them, after one more entry.
proof fn lemma_agree_step(rn: Seq<InstanceKey>, rec_before: Seq<InstanceKey>, touched: Option<InstanceKey>,
    store_before: Map<InstanceKey, ArtifactState>, store_after: Map<InstanceKey, ArtifactState>, old_map: Map<InstanceKey, ArtifactState>)
    requires
        touched is None ==> rn == rec_before,
        touched is Some ==> rn == rec_before.push(touched->0),
        touched is None ==> store_after == store_before,
        touched is Some ==> store_after == store_before.insert(touched->0, store_after[touched->0]),
        all_recorded(store_before, rec_before),
        agrees_outside(old_map, store_before, rec_before),
    ensures
        all_recorded(store_after, rn),
        agrees_outside(old_map, store_after, rn),
{
    assert forall|k: InstanceKey| rn.contains(k) implies #[trigger] store_after.contains_key(k) by {
        let m = choose|m: int| 0 <= m < rn.len() && #[trigger] rn[m] == k;
        if m < rec_before.len() {
            assert(rec_before[m] == k);
        }
    }
    assert forall|k: InstanceKey| !rn.contains(k) implies (#[trigger] store_after.contains_key(k)
        == old_map.contains_key(k) && (old_map.contains_key(k) ==> store_after[k] == old_map[k])) by {
        if rec_before.contains(k) {
            let m = choose|m: int| 0 <= m < rec_before.len() && #[trigger] rec_before[m] == k;
            assert(rn[m] == k);
        }
        if touched is Some {
            assert(rn[rn.len() - 1] == touched->0);
        }
        assert(store_before.contains_key(k) == old_map.contains_key(k));
    }
}

/// Reconcile the listing of artifact type `artifact_type`'s directory,
/// at `dir_path`, with the store, returning how many of its entries could
/// not be read.
///
/// An unlistable directory leaves a type-level gap and is reported
/// unreadable. Each unreadable entry does the same. Each instance file is
/// noted as seen; one that cannot be read leaves an instance-level gap and
/// is reported unreadable, keeping its recorded state; one that was read
/// is reconciled with the store as `handle_json_artifact` or
/// `handle_malformed_artifact` does. Other files are ignored. The first
/// failure to record a parsed file (its type's schema is invalid) ends the
/// scan of the directory with that error.
#[verifier::rlimit(100)]
fn scan_type_dir(store: &mut ArtifactStore, artifact_type: &str, dir_path: &str, listing: TypeDirListing, scan_timestamp_ms: u64,
    seen: &mut Vec<(String, String)>, result: &mut ScanResult) -> (r: Result<usize, ScanError>)
    requires
        old(store).registered(artifact_type@),
    ensures
        final(store).types() == old(store).types(),
        r is Err ==> r->Err_0 is Store && listing_invalid_schema(artifact_type@, listing),
        !listing_invalid_schema(artifact_type@, listing) ==> r is Ok,
        r is Ok ==> key_views(final(seen)@) == key_views(old(seen)@) + keys_of(artifact_type@, listing_entries(listing)),
        r is Ok ==> r->Ok_0 == listing_unreadables(dir_path@, listing).len(),
        r is Ok ==> unreadable_views(final(result).unreadable@) == unreadable_views(old(result).unreadable@)
            + listing_unreadables(dir_path@, listing),
        r is Ok ==> final(store).type_gaps() == old(store).type_gaps() + listing_type_gaps(artifact_type@, listing),
        r is Ok ==> final(store).instance_gaps() == old(store).instance_gaps() + instance_gaps_of(artifact_type@, listing_entries(listing)),
        r is Ok ==> all_recorded(final(store)@, recorded_of(artifact_type@, listing_entries(listing))),
        r is Ok ==> agrees_outside(old(store)@, final(store)@, recorded_of(artifact_type@, listing_entries(listing))),
        r is Ok ==> final(result).partially_scanned_types == old(result).partially_scanned_types,
        r is Ok ==> final(result).removed == old(result).removed,
        r is Ok ==> final(result).unrecognized_dirs == old(result).unrecognized_dirs,
        r is Ok ==> reports_kept(*old(result), *final(result)),
        r is Ok ==> forall|i: int| 0 <= i < listing_entries(listing).len() && sole_entry(artifact_type@, listing_entries(listing), i)
            && #[trigger] entry_recorded(artifact_type@, listing_entries(listing)[i]) is Some ==> {
                let k = entry_recorded(artifact_type@, listing_entries(listing)[i])->0;
                entry_outcome(artifact_type@, k.1, listing_entries(listing)[i], recorded(old(store)@, k), final(store)@[k],
                    *old(result), *final(result), scan_timestamp_ms, json_hash(old(store).schema_of(artifact_type@)))
            },
{
    let ghost t = artifact_type@;
    let ghost l0 = listing;
    let ghost sh = json_hash(old(store).schema_of(artifact_type@));
    match listing {
        TypeDirListing::Unreadable(error) => {
            store.mark_type_scan_gap(artifact_type);
            push_unreadable(&mut result.unreadable, dir_path, error.as_str());
            proof {
                let es = listing_entries(l0);
                assert(es =~= Seq::<TypeDirEntry>::empty());
                assert(keys_of(t, es) =~= Seq::<InstanceKey>::empty());
                assert(instance_gaps_of(t, es) =~= Seq::<InstanceKey>::empty());
                assert(recorded_of(t, es) =~= Seq::<InstanceKey>::empty());
                assert(key_views(seen@) =~= key_views(old(seen)@) + keys_of(t, es));
                assert(store.instance_gaps() =~= old(store).instance_gaps() + instance_gaps_of(t, es));
                assert(store.type_gaps() =~= old(store).type_gaps() + listing_type_gaps(t, l0));
                assert(unreadable_views(result.unreadable@) =~= unreadable_views(old(result).unreadable@) + listing_unreadables(dir_path@, l0));
                assert forall|k: InstanceKey| !recorded_of(t, listing_entries(l0)).contains(k) implies (#[trigger] store@.contains_key(k)
                    == old(store)@.contains_key(k) && (old(store)@.contains_key(k) ==> store@[k] == old(store)@[k])) by {
                    assert(store@ == old(store)@);
                }
                assert(agrees_outside(old(store)@, store@, recorded_of(t, listing_entries(l0))));
                lemma_reports_kept_refl(*result);
            }
            Ok(1)
        },
        TypeDirListing::Entries(entries) => {
            let ghost es = entries@;
            let n = entries.len();
            assert(es.len() == n);
            let mut rest = entries;
            let mut count: usize = 0;
            let mut i: usize = 0;
            proof {
                assert(es.take(0) =~= Seq::<TypeDirEntry>::empty());
                assert(es.skip(0) =~= es);
                assert(key_views(seen@) =~= key_views(old(seen)@) + keys_of(t, es.take(0)));
                assert(unreadable_views(result.unreadable@) =~= unreadable_views(old(result).unreadable@) + unreadables_of(es.take(0)));
                assert(store.type_gaps() =~= old(store).type_gaps() + type_gaps_of(t, es.take(0)));
                assert(store.instance_gaps() =~= old(store).instance_gaps() + instance_gaps_of(t, es.take(0)));
                lemma_reports_kept_refl(*result);
            }
            while rest.len() > 0
                invariant
                    i <= es.len(),
                    es.len() <= usize::MAX,
                    rest@ == es.skip(i as int),
                    t == artifact_type@,
                    listing_entries(l0) == es,
                    l0 == listing,
                    store.types() == old(store).types(),
                    store.registered(t),
                    key_views(seen@) == key_views(old(seen)@) + keys_of(t, es.take(i as int)),
                    count == unreadables_of(es.take(i as int)).len(),
                    count <= i,
                    unreadable_views(result.unreadable@) == unreadable_views(old(result).unreadable@) + unreadables_of(es.take(i as int)),
                    store.type_gaps() == old(store).type_gaps() + type_gaps_of(t, es.take(i as int)),
                    store.instance_gaps() == old(store).instance_gaps() + instance_gaps_of(t, es.take(i as int)),
                    all_recorded(store@, recorded_of(t, es.take(i as int))),
                    agrees_outside(old(store)@, store@, recorded_of(t, es.take(i as int))),
                    result.partially_scanned_types == old(result).partially_scanned_types,
                    result.removed == old(result).removed,
                    result.unrecognized_dirs == old(result).unrecognized_dirs,
                    sh == json_hash(old(store).schema_of(t)),
                    reports_kept(*old(result), *result),
                    forall|j: int| 0 <= j < i && sole_entry(t, es, j) && #[trigger] entry_recorded(t, es[j]) is Some ==> {
                        let k = entry_recorded(t, es[j])->0;
                        entry_outcome(t, k.1, es[j], recorded(old(store)@, k), store@[k], *old(result), *result, scan_timestamp_ms, sh)
                    },
                decreases es.len() - i,
            {
                let entry = rest.remove(0);
                let ghost e = entry;
                proof {
                    assert(es.skip(i as int)[0] == es[i as int]);
                    assert(e == es[i as int]);
                    assert(rest@ =~= es.skip(i + 1));
                    lemma_gather_step(t, es, i as int);
                }
                let ghost store_before = store@;
                let ghost result_before = *result;
                let ghost rec_before = recorded_of(t, es.take(i as int));
                let ghost mut touched: Option<InstanceKey> = None;
                proof {
                    assert(agrees_outside(old(store)@, store_before, rec_before));
                    assert(all_recorded(store_before, rec_before));
                }
                match entry {
                    TypeDirEntry::Unreadable { path, error } => {
                        store.mark_type_scan_gap(artifact_type);
                        push_unreadable(&mut result.unreadable, path.as_str(), error.as_str());
                        count = count + 1;
                        proof {
                            lemma_same_reports(result_before, *result);
                            assert(type_gaps_of(t, es.take(i + 1)) =~= type_gaps_of(t, es.take(i as int)).push(t));
                            assert(keys_of(t, es.take(i + 1)) =~= keys_of(t, es.take(i as int)));
                            assert(instance_gaps_of(t, es.take(i + 1)) =~= instance_gaps_of(t, es.take(i as int)));
                            assert(recorded_of(t, es.take(i + 1)) =~= recorded_of(t, es.take(i as int)));
                            assert(unreadables_of(es.take(i + 1)) =~= unreadables_of(es.take(i as int)).push((path@, error@)));
                        }
                    },
                    TypeDirEntry::File { path, file_name, content } => {
                        match instance_id_of(file_name.as_str()) {
                            None => {
                                proof {
                                    lemma_same_reports(result_before, *result);
                                    assert(keys_of(t, es.take(i + 1)) =~= keys_of(t, es.take(i as int)));
                                    assert(type_gaps_of(t, es.take(i + 1)) =~= type_gaps_of(t, es.take(i as int)));
                                    assert(instance_gaps_of(t, es.take(i + 1)) =~= instance_gaps_of(t, es.take(i as int)));
                                    assert(recorded_of(t, es.take(i + 1)) =~= recorded_of(t, es.take(i as int)));
                                    assert(unreadables_of(es.take(i + 1)) =~= unreadables_of(es.take(i as int)));
                                }
                            },
                            Some(id) => {
                                let ghost key = (t, id@);
                                let ghost seen_before = seen@;
                                seen.push((owned(artifact_type), owned(id.as_str())));
                                proof {
                                    assert(key_views(seen@) =~= key_views(seen_before).push(key));
                                    assert(keys_of(t, es.take(i + 1)) =~= keys_of(t, es.take(i as int)).push(key));
                                    assert(type_gaps_of(t, es.take(i + 1)) =~= type_gaps_of(t, es.take(i as int)));
                                }
                                match content {
                                    FileContent::Unreadable(error) => {
                                        store.mark_instance_scan_gap(artifact_type, id.as_str());
                                        push_unreadable(&mut result.unreadable, path.as_str(), error.as_str());
                                        count = count + 1;
                                        proof {
                                            lemma_same_reports(result_before, *result);
                                            assert(instance_gaps_of(t, es.take(i + 1)) =~= instance_gaps_of(t, es.take(i as int)).push(key));
                                            assert(recorded_of(t, es.take(i + 1)) =~= recorded_of(t, es.take(i as int)));
                                            assert(unreadables_of(es.take(i + 1)) =~= unreadables_of(es.take(i as int)).push((path@, error@)));
                                        }
                                    },
                                    FileContent::Parsed { data, validation } => {
                                        let ghost v = validation;
                                        match handle_json_artifact(store, artifact_type, id.as_str(), path.as_str(), &data, validation,
                                            scan_timestamp_ms, result) {
                                            Ok(()) => {
                                                proof {
                                                    touched = Some(key);
                                                    lemma_step_kept(result_before, *result,
                                                        disposition(recorded(store_before, key), json_hash(data), sh));
                                                    assert(entry_outcome(t, id@, e, recorded(store_before, key), store@[key], result_before,
                                                        *result, scan_timestamp_ms, sh)) by {
                                                        reveal(entry_outcome);
                                                    }
                                                }
                                            },
                                            Err(err) => {
                                                proof {
                                                    assert(entry_invalid_schema(t, es[i as int]));
                                                    assert(listing_entries(l0)[i as int] == es[i as int]);
                                                    assert(listing_invalid_schema(t, l0));
                                                }
                                                return Err(err);
                                            },
                                        }
                                        proof {
                                            assert(instance_gaps_of(t, es.take(i + 1)) =~= instance_gaps_of(t, es.take(i as int)));
                                            assert(recorded_of(t, es.take(i + 1)) =~= recorded_of(t, es.take(i as int)).push(key));
                                            assert(unreadables_of(es.take(i + 1)) =~= unreadables_of(es.take(i as int)));
                                        }
                                    },
                                    FileContent::Malformed { bytes, error } => {
                                        let ghost err_g = error;
                                        let _ = handle_malformed_artifact(store, artifact_type, id.as_str(), path.as_str(), bytes.as_slice(),
                                            error, scan_timestamp_ms, result);
                                        proof {
                                            touched = Some(key);
                                            let ex = recorded(store_before, key);
                                            let d = disposition(ex, content_hash_of(bytes@), sh);
                                            lemma_step_kept(result_before, *result, d);
                                            assert(entry_disposition(e, ex, sh) == d);
                                            assert(entry_path(e) == path@);
                                            if d != ScanDisposition::Unchanged {
                                                let m = reported_in(result_before, d).len() as int;
                                                assert(reported_in(*result, d)[m] == reported_in(*result, d).last());
                                                assert(is_ref(reported_in(*result, d)[m], t, id@, path@, entry_work_unit(e, ex)));
                                            }
                                            let mm = result_before.malformed@.len() as int;
                                            assert(result.malformed@[mm] == result.malformed@.last());
                                            assert(malformed_after(result_before, *result, t, id@, path@));
                                            assert(entry_state(e, ex, store@[key], scan_timestamp_ms, sh));
                                            assert(entry_outcome(t, id@, e, recorded(store_before, key), store@[key], result_before,
                                                *result, scan_timestamp_ms, sh)) by {
                                                reveal(entry_outcome);
                                            }
                                            assert(instance_gaps_of(t, es.take(i + 1)) =~= instance_gaps_of(t, es.take(i as int)));
                                            assert(recorded_of(t, es.take(i + 1)) =~= recorded_of(t, es.take(i as int)).push(key));
                                            assert(unreadables_of(es.take(i + 1)) =~= unreadables_of(es.take(i as int)));
                                        }
                                    },
                                }
                            },
                        }
                    },
                }
                proof {
                    let rn = recorded_of(t, es.take(i + 1));
                    assert(touched is None ==> rn == rec_before);
                    assert(touched is Some ==> rn == rec_before.push(touched->0));
                    assert(touched is None ==> store@ == store_before);
                    assert(touched is Some ==> store@ == store_before.insert(touched->0, store@[touched->0]));
                    lemma_agree_step(rn, rec_before, touched, store_before, store@, old(store)@);
                    lemma_reports_kept_trans(*old(result), result_before, *result);
                    lemma_outcomes_step(t, es, i as int, old(store)@, store_before, store@, *old(result), result_before, *result,
                        scan_timestamp_ms, sh, touched);
                }
                i = i + 1;
            }
            proof {
                assert(es.take(i as int) =~= es);
                assert(listing_entries(l0) == es);
                assert forall|k: InstanceKey| recorded_of(t, es).contains(k) implies #[trigger] store@.contains_key(k) by {
                    assert(es.take(i as int) == es);
                }
                assert forall|k: InstanceKey| !recorded_of(t, listing_entries(l0)).contains(k) implies (#[trigger] store@.contains_key(k)
                    == old(store)@.contains_key(k) && (old(store)@.contains_key(k) ==> store@[k] == old(store)@[k])) by {
                    assert(es.take(i as int) == es);
                    assert(!recorded_of(t, es.take(i as int)).contains(k));
                }
                assert(listing_unreadables(dir_path@, l0) == unreadables_of(es));
                assert(listing_type_gaps(t, l0) == type_gaps_of(t, es));
                assert(agrees_outside(old(store)@, store@, recorded_of(t, listing_entries(l0))));
            }
            Ok(count)
        },
    }
}


// ---------------------------------------------------------------------------
// Ordering the reports of a scan.
// ---------------------------------------------------------------------------

/// The paths of unreadable reports.
pub open spec fn unreadable_paths(s: Seq<UnreadableArtifact>) -> Seq<Seq<char>> {
    s.map_values(|u: UnreadableArtifact| u.path@)
}

/// Order unreadable reports by path, keeping reports of one path in the
/// order they came.
fn sort_unreadable(v: Vec<UnreadableArtifact>) -> (r: Vec<UnreadableArtifact>)
    ensures
        sorted_le(unreadable_paths(r@)),
        unreadable_views(r@).to_multiset() == unreadable_views(v@).to_multiset(),
{
    let ghost vs = v@;
    let mut rest = v;
    let mut r: Vec<UnreadableArtifact> = Vec::new();
    let ghost mut i: int = 0;
    proof {
        assert(vs.skip(0) =~= vs);
        assert(unreadable_views(r@) =~= unreadable_views(vs.take(0)));
    }
    while rest.len() > 0
        invariant
            0 <= i <= vs.len(),
            rest@ == vs.skip(i),
            sorted_le(unreadable_paths(r@)),
            unreadable_views(r@).to_multiset() == unreadable_views(vs.take(i)).to_multiset(),
        decreases vs.len() - i,
    {
        let u = rest.remove(0);
        proof {
            assert(vs.skip(i)[0] == vs[i]);
            assert(rest@ =~= vs.skip(i + 1));
        }
        let ghost ks = unreadable_paths(r@);
        let mut p: usize = 0;
        while p < r.len() && !str_lt(u.path.as_str(), r[p].path.as_str())
            invariant
                p <= r@.len(),
                ks == unreadable_paths(r@),
                forall|m: int| 0 <= m < p ==> seq_le(#[trigger] ks[m], u.path@),
            decreases r@.len() - p,
        {
            proof {
                assert(ks[p as int] == r@[p as int].path@);
                lemma_seq_le_facts(u.path@, ks[p as int], u.path@);
            }
            p = p + 1;
        }
        proof {
            assert forall|m: int| p <= m < ks.len() implies seq_le(u.path@, #[trigger] ks[m]) by {
                assert(ks[p as int] == r@[p as int].path@);
                if m > p {
                    lemma_seq_le_facts(u.path@, ks[p as int], ks[m]);
                    lemma_seq_le_facts(u.path@, u.path@, ks[m]);
                }
            }
            lemma_insert_sorted_le(ks, p as int, u.path@);
        }
        let ghost uv = unreadable_views(r@);
        let ghost item = (u.path@, u.error@);
        let ghost ui = u;
        r.insert(p, u);
        proof {
            assert(unreadable_paths(r@) =~= ks.insert(p as int, ui.path@));
            assert(unreadable_views(r@) =~= uv.insert(p as int, item));
            vstd::seq_lib::to_multiset_insert(uv, p as int, item);
            assert(unreadable_views(vs.take(i + 1)) =~= unreadable_views(vs.take(i)).push(item));
            vstd::seq_lib::to_multiset_build(unreadable_views(vs.take(i)), item);
            i = i + 1;
        }
    }
    proof {
        assert(vs.take(i) =~= vs);
    }
    r
}

/// The artifact types of partial-scan reports.
pub open spec fn partial_types(s: Seq<PartiallyScannedType>) -> Seq<Seq<char>> {
    s.map_values(|p: PartiallyScannedType| p.artifact_type@)
}

/// The number of unreadable entries reported for type `u`; 0 when it is
/// not reported.
pub open spec fn partial_count(s: Seq<PartiallyScannedType>, u: Seq<char>) -> int {
    if exists|i: int| 0 <= i < s.len() && #[trigger] s[i].artifact_type@ == u {
        s[partial_index(s, u)].unreadable_entries as int
    } else {
        0
    }
}

/// The position of a report of type `u`.
pub open spec fn partial_index(s: Seq<PartiallyScannedType>, u: Seq<char>) -> int {
    choose|i: int| 0 <= i < s.len() && #[trigger] s[i].artifact_type@ == u
}

/// `n`, or the largest `usize` when it is larger.
pub open spec fn capped(n: int) -> int {
    if n > usize::MAX { usize::MAX as int } else { n }
}

/// In a list with strictly increasing types, the count of an entry's type
/// is that entry's count.
proof fn lemma_partial_count(s: Seq<PartiallyScannedType>, j: int)
    requires
        strictly_sorted(partial_types(s)),
        0 <= j < s.len(),
    ensures
        partial_count(s, s[j].artifact_type@) == s[j].unreadable_entries as int,
{
    let u = s[j].artifact_type@;
    let ks = partial_types(s);
    assert(ks[j] == u);
    assert(exists|i: int| 0 <= i < s.len() && #[trigger] s[i].artifact_type@ == u);
    let i = partial_index(s, u);
    assert(ks[i] == u);
    if i < j {
        assert(seq_lt(ks[i], ks[j]));
        lemma_seq_lt_irreflexive(u);
    } else if i > j {
        assert(seq_lt(ks[j], ks[i]));
        lemma_seq_lt_irreflexive(u);
    }
    assert(i == j);
}

/// Add `n` unreadable entries to type `t`'s partial-scan report, creating
/// it in its sorted place when there is none.
fn add_partial(list: &mut Vec<PartiallyScannedType>, t: &str, n: usize)
    requires
        n > 0,
        strictly_sorted(partial_types(old(list)@)),
        forall|i: int| 0 <= i < old(list)@.len() ==> #[trigger] old(list)@[i].unreadable_entries > 0,
    ensures
        strictly_sorted(partial_types(final(list)@)),
        forall|i: int| 0 <= i < final(list)@.len() ==> #[trigger] final(list)@[i].unreadable_entries > 0,
        forall|u: Seq<char>| #[trigger] partial_count(final(list)@, u)
            == if u == t@ { capped(partial_count(old(list)@, u) + n) } else { partial_count(old(list)@, u) },
{
    let ghost old_list = list@;
    let ghost ks = partial_types(list@);
    let mut p: usize = 0;
    while p < list.len() && str_lt(list[p].artifact_type.as_str(), t)
        invariant
            p <= list@.len(),
            list@ == old_list,
            ks == partial_types(list@),
            forall|m: int| 0 <= m < p ==> seq_lt(#[trigger] ks[m], t@),
        decreases list@.len() - p,
    {
        assert(ks[p as int] == list@[p as int].artifact_type@);
        p = p + 1;
    }
    if p < list.len() && str_eq(list[p].artifact_type.as_str(), t) {
        let updated = PartiallyScannedType {
            artifact_type: list[p].artifact_type.clone(),
            unreadable_entries: list[p].unreadable_entries.saturating_add(n),
        };
        list.set(p, updated);
        proof {
            assert(partial_types(list@) =~= ks);
            lemma_partial_count(old_list, p as int);
            lemma_partial_count(list@, p as int);
            assert forall|u: Seq<char>| #[trigger] partial_count(list@, u)
                == if u == t@ { capped(partial_count(old_list, u) + n) } else { partial_count(old_list, u) } by {
                if u != t@ {
                    if exists|i: int| 0 <= i < old_list.len() && #[trigger] old_list[i].artifact_type@ == u {
                        let i = choose|i: int| 0 <= i < old_list.len() && #[trigger] old_list[i].artifact_type@ == u;
                        lemma_partial_count(old_list, i);
                        lemma_partial_count(list@, i);
                        assert(list@[i].artifact_type@ == u);
                    } else {
                        assert forall|i: int| 0 <= i < list@.len() implies #[trigger] list@[i].artifact_type@ != u by {
                            assert(old_list[i].artifact_type@ != u);
                        }
                    }
                }
            }
        }
    } else {
        proof {
            assert forall|m: int| p <= m < ks.len() implies seq_lt(t@, #[trigger] ks[m]) by {
                assert(ks[p as int] == old_list[p as int].artifact_type@);
                lemma_seq_lt_total(ks[p as int], t@);
                lemma_seq_lt_asymmetric(t@, ks[p as int]);
                if m > p {
                    assert(seq_lt(ks[p as int], ks[m]));
                    lemma_seq_lt_transitive(t@, ks[p as int], ks[m]);
                }
            }
            if p < ks.len() {
                assert(seq_lt(t@, ks[p as int]));
            }
            lemma_insert_sorted(ks, p as int, t@);
        }
        let item = PartiallyScannedType { artifact_type: owned(t), unreadable_entries: n };
        list.insert(p, item);
        proof {
            assert(partial_types(list@) =~= ks.insert(p as int, t@));
            assert forall|u: Seq<char>| #[trigger] partial_count(list@, u)
                == if u == t@ { capped(partial_count(old_list, u) + n) } else { partial_count(old_list, u) } by {
                if u == t@ {
                    lemma_partial_count(list@, p as int);
                    assert forall|i: int| 0 <= i < old_list.len() implies #[trigger] old_list[i].artifact_type@ != u by {
                        assert(ks[i] == old_list[i].artifact_type@);
                        if i < p {
                            lemma_seq_lt_irreflexive(u);
                        } else {
                            lemma_seq_lt_irreflexive(u);
                        }
                    }
                } else if exists|i: int| 0 <= i < old_list.len() && #[trigger] old_list[i].artifact_type@ == u {
                    let i = choose|i: int| 0 <= i < old_list.len() && #[trigger] old_list[i].artifact_type@ == u;
                    lemma_partial_count(old_list, i);
                    let j = if i < p { i } else { i + 1 };
                    assert(list@[j] == old_list[i]);
                    lemma_partial_count(list@, j);
                } else {
                    assert forall|i: int| 0 <= i < list@.len() implies #[trigger] list@[i].artifact_type@ != u by {
                        if i < p {
                            assert(list@[i] == old_list[i]);
                        } else if i > p {
                            assert(list@[i] == old_list[i - 1]);
                        }
                    }
                }
            }
        }
    }
}

/// Whether type `t` has a partial-scan report.
fn has_partial(list: &Vec<PartiallyScannedType>, t: &str) -> (r: bool)
    ensures
        r == exists|i: int| 0 <= i < list@.len() && #[trigger] list@[i].artifact_type@ == t@,
{
    let mut i: usize = 0;
    while i < list.len()
        invariant
            i <= list@.len(),
            forall|m: int| 0 <= m < i ==> #[trigger] list@[m].artifact_type@ != t@,
        decreases list@.len() - i,
    {
        if str_eq(list[i].artifact_type.as_str(), t) {
            return true;
        }
        i = i + 1;
    }
    false
}

/// Whether `(t, id)` is among the keys.
fn has_key(keys: &Vec<(String, String)>, t: &str, id: &str) -> (r: bool)
    ensures
        r == key_views(keys@).contains((t@, id@)),
{
    let mut i: usize = 0;
    while i < keys.len()
        invariant
            i <= keys@.len(),
            forall|m: int| 0 <= m < i ==> #[trigger] key_views(keys@)[m] != (t@, id@),
        decreases keys@.len() - i,
    {
        if str_eq(keys[i].0.as_str(), t) && str_eq(keys[i].1.as_str(), id) {
            assert(key_views(keys@)[i as int] == (t@, id@));
            return true;
        }
        i = i + 1;
    }
    false
}


// ---------------------------------------------------------------------------
// What a scan of the whole workspace observes.
// ---------------------------------------------------------------------------

/// The names of the directories that are no registered artifact type.
pub open spec fn unrecognized_of(st: ArtifactStore, ds: Seq<WorkspaceDir>) -> Seq<Seq<char>>
    decreases ds.len(),
{
    if ds.len() == 0 {
        Seq::empty()
    } else {
        unrecognized_of(st, ds.drop_last()) + if st.registered(ds.last().name@) { Seq::empty() } else { seq![ds.last().name@] }
    }
}

/// The instance keys the directories of registered types name, in order.
pub open spec fn seen_of(st: ArtifactStore, ds: Seq<WorkspaceDir>) -> Seq<InstanceKey>
    decreases ds.len(),
{
    if ds.len() == 0 {
        Seq::empty()
    } else {
        seen_of(st, ds.drop_last()) + if st.registered(ds.last().name@) {
            keys_of(ds.last().name@, listing_entries(ds.last().listing))
        } else {
            Seq::empty()
        }
    }
}

/// The instances the directories of registered types reconcile with the store.
pub open spec fn recorded_all(st: ArtifactStore, ds: Seq<WorkspaceDir>) -> Seq<InstanceKey>
    decreases ds.len(),
{
    if ds.len() == 0 {
        Seq::empty()
    } else {
        recorded_all(st, ds.drop_last()) + if st.registered(ds.last().name@) {
            recorded_of(ds.last().name@, listing_entries(ds.last().listing))
        } else {
            Seq::empty()
        }
    }
}

/// The unreadable reports of the directories of registered types, in order.
pub open spec fn unreadables_all(st: ArtifactStore, ds: Seq<WorkspaceDir>) -> Seq<(Seq<char>, Seq<char>)>
    decreases ds.len(),
{
    if ds.len() == 0 {
        Seq::empty()
    } else {
        unreadables_all(st, ds.drop_last()) + if st.registered(ds.last().name@) {
            listing_unreadables(ds.last().path@, ds.last().listing)
        } else {
            Seq::empty()
        }
    }
}

/// The type-level gaps the directories of registered types leave, in order.
pub open spec fn type_gaps_all(st: ArtifactStore, ds: Seq<WorkspaceDir>) -> Seq<Seq<char>>
    decreases ds.len(),
{
    if ds.len() == 0 {
        Seq::empty()
    } else {
        type_gaps_all(st, ds.drop_last()) + if st.registered(ds.last().name@) {
            listing_type_gaps(ds.last().name@, ds.last().listing)
        } else {
            Seq::empty()
        }
    }
}

/// The instance-level gaps the directories of registered types leave, in order.
pub open spec fn instance_gaps_all(st: ArtifactStore, ds: Seq<WorkspaceDir>) -> Seq<InstanceKey>
    decreases ds.len(),
{
    if ds.len() == 0 {
        Seq::empty()
    } else {
        instance_gaps_all(st, ds.drop_last()) + if st.registered(ds.last().name@) {
            instance_gaps_of(ds.last().name@, listing_entries(ds.last().listing))
        } else {
            Seq::empty()
        }
    }
}

/// How many entries of type `t`'s directories could not be read.
pub open spec fn gap_total(st: ArtifactStore, ds: Seq<WorkspaceDir>, t: Seq<char>) -> int
    decreases ds.len(),
{
    if ds.len() == 0 {
        0
    } else {
        gap_total(st, ds.drop_last(), t) + if st.registered(ds.last().name@) && ds.last().name@ == t {
            listing_unreadables(ds.last().path@, ds.last().listing).len() as int
        } else {
            0
        }
    }
}

/// Some directory of a registered type holds an entry whose validation
/// found the type's schema invalid.
pub open spec fn any_invalid_schema(st: ArtifactStore, ds: Seq<WorkspaceDir>) -> bool {
    exists|i: int| 0 <= i < ds.len() && st.registered(ds[i].name@) && #[trigger] listing_invalid_schema(ds[i].name@, ds[i].listing)
}

/// An instance the scan removes: recorded before, of a type whose
/// directories were read in full, and named by no file.
pub open spec fn removable(st: ArtifactStore, ds: Seq<WorkspaceDir>, k: InstanceKey) -> bool {
    &&& st@.contains_key(k)
    &&& gap_total(st, ds, k.0) == 0
    &&& !seen_of(st, ds).contains(k)
}

/// The instance keys of a list of references.
pub open spec fn ref_keys(s: Seq<ArtifactRef>) -> Seq<InstanceKey> {
    s.map_values(|r: ArtifactRef| (r.artifact_type@, r.instance_id@))
}

/// A result that observed nothing.
pub open spec fn empty_result(r: ScanResult) -> bool {
    &&& r.new@.len() == 0
    &&& r.modified@.len() == 0
    &&& r.revalidated@.len() == 0
    &&& r.invalid@.len() == 0
    &&& r.malformed@.len() == 0
    &&& r.unreadable@.len() == 0
    &&& r.partially_scanned_types@.len() == 0
    &&& r.removed@.len() == 0
    &&& r.unrecognized_dirs@.len() == 0
}

/// An instance reconciled with the store is one a file names.
proof fn lemma_recorded_named(t: Seq<char>, es: Seq<TypeDirEntry>, k: InstanceKey)
    requires
        recorded_of(t, es).contains(k),
    ensures
        keys_of(t, es).contains(k),
    decreases es.len(),
{
    let pre = es.drop_last();
    let rp = recorded_of(t, pre);
    let r = recorded_of(t, es);
    let m = choose|m: int| 0 <= m < r.len() && r[m] == k;
    if m < rp.len() {
        assert(rp[m] == k);
        lemma_recorded_named(t, pre, k);
        let q = choose|q: int| 0 <= q < keys_of(t, pre).len() && keys_of(t, pre)[q] == k;
        assert(keys_of(t, es)[q] == k);
    } else {
        assert(entry_recorded(t, es.last()) == Some(k));
        assert(keys_of(t, es)[keys_of(t, pre).len() as int] == k);
    }
}

/// Every instance a scan reconciles with the store is one it saw.
proof fn lemma_recorded_seen(st: ArtifactStore, ds: Seq<WorkspaceDir>, k: InstanceKey)
    requires
        recorded_all(st, ds).contains(k),
    ensures
        seen_of(st, ds).contains(k),
    decreases ds.len(),
{
    let pre = ds.drop_last();
    let rp = recorded_all(st, pre);
    let r = recorded_all(st, ds);
    let m = choose|m: int| 0 <= m < r.len() && r[m] == k;
    if m < rp.len() {
        assert(rp[m] == k);
        lemma_recorded_seen(st, pre, k);
        let q = choose|q: int| 0 <= q < seen_of(st, pre).len() && seen_of(st, pre)[q] == k;
        assert(seen_of(st, ds)[q] == k);
    } else {
        let d = ds.last();
        let rd = recorded_of(d.name@, listing_entries(d.listing));
        assert(rd[m - rp.len()] == k);
        lemma_recorded_named(d.name@, listing_entries(d.listing), k);
        let kd = keys_of(d.name@, listing_entries(d.listing));
        let q = choose|q: int| 0 <= q < kd.len() && kd[q] == k;
        assert(seen_of(st, ds)[seen_of(st, pre).len() + q] == k);
    }
}


/// Each gathered sequence of a prefix one directory longer is that of the
/// shorter prefix and what the directory adds.
proof fn lemma_dirs_step(st: ArtifactStore, ds: Seq<WorkspaceDir>, i: int)
    requires
        0 <= i < ds.len(),
    ensures
        ({
            let d = ds[i];
            let reg = st.registered(d.name@);
            let pre = ds.take(i);
            let cur = ds.take(i + 1);
            &&& unrecognized_of(st, cur) == unrecognized_of(st, pre) + if reg { Seq::empty() } else { seq![d.name@] }
            &&& seen_of(st, cur) == seen_of(st, pre) + if reg { keys_of(d.name@, listing_entries(d.listing)) } else { Seq::empty() }
            &&& recorded_all(st, cur) == recorded_all(st, pre) + if reg { recorded_of(d.name@, listing_entries(d.listing)) } else { Seq::empty() }
            &&& unreadables_all(st, cur) == unreadables_all(st, pre) + if reg { listing_unreadables(d.path@, d.listing) } else { Seq::empty() }
            &&& type_gaps_all(st, cur) == type_gaps_all(st, pre) + if reg { listing_type_gaps(d.name@, d.listing) } else { Seq::empty() }
            &&& instance_gaps_all(st, cur) == instance_gaps_all(st, pre) + if reg { instance_gaps_of(d.name@, listing_entries(d.listing)) } else { Seq::empty() }
            &&& forall|t: Seq<char>| #[trigger] gap_total(st, cur, t) == gap_total(st, pre, t) + if reg && d.name@ == t {
                listing_unreadables(d.path@, d.listing).len() as int
            } else {
                0
            }
        }),
{
    assert(ds.take(i + 1).drop_last() =~= ds.take(i));
    assert(ds.take(i + 1).last() == ds[i]);
}

/// No directory has a negative number of unreadable entries.
proof fn lemma_gap_total_nonneg(st: ArtifactStore, ds: Seq<WorkspaceDir>, t: Seq<char>)
    ensures
        gap_total(st, ds, t) >= 0,
    decreases ds.len(),
{
    if ds.len() > 0 {
        lemma_gap_total_nonneg(st, ds.drop_last(), t);
    }
}

/// What reconciling a read entry of type `t`, naming instance `id`, left
/// in a finished scan: the state `st` of its instance, from the state
/// `existing` recorded before the scan, and its reports in `res`: in its
/// disposition's list when it changed, as invalid when it parsed and its
/// state is invalid, and as malformed when the file is.
#[verifier::opaque]
pub open spec fn file_outcome(t: Seq<char>, id: Seq<char>, e: TypeDirEntry, existing: Option<ArtifactState>, st: ArtifactState,
    res: ScanResult, scan_ms: u64, sh: Seq<char>) -> bool {
    let d = entry_disposition(e, existing, sh);
    &&& entry_state(e, existing, st, scan_ms, sh)
    &&& d != ScanDisposition::Unchanged ==> exists|m: int| 0 <= m < reported_in(res, d).len()
        && is_ref(#[trigger] reported_in(res, d)[m], t, id, entry_path(e), entry_work_unit(e, existing))
    &&& (e matches TypeDirEntry::File { content: FileContent::Parsed { .. }, .. }) && st.status is Invalid
        ==> exists|m: int| 0 <= m < res.invalid@.len() && (#[trigger] res.invalid@[m]).artifact_type@ == t
            && res.invalid@[m].instance_id@ == id && res.invalid@[m].path@ == entry_path(e)
    &&& (e matches TypeDirEntry::File { content: FileContent::Malformed { .. }, .. })
        ==> exists|m: int| 0 <= m < res.malformed@.len() && (#[trigger] res.malformed@[m]).artifact_type@ == t
            && res.malformed@[m].instance_id@ == id && res.malformed@[m].path@ == entry_path(e)
}

/// No other directory of `ds` has the name of directory `a`.
pub open spec fn dir_sole(ds: Seq<WorkspaceDir>, a: int) -> bool {
    forall|b: int| 0 <= b < ds.len() && b != a ==> (#[trigger] ds[b]).name@ != ds[a].name@
}

/// Every read entry of the first `n` directories that is of a registered
/// type, the only entry of the only directory of its name to name its
/// instance, left its instance recorded in `fin` and what `file_outcome`
/// states, from the store `st` the scan started with, in `fin` and the
/// result `res`.
#[verifier::opaque]
pub open spec fn files_reconciled_below(st: ArtifactStore, fin: ArtifactStore, ds: Seq<WorkspaceDir>, n: int, res: ScanResult,
    scan_ms: u64) -> bool {
    forall|a: int, i: int| 0 <= a < n && dir_sole(ds, a) && st.registered(ds[a].name@)
        && 0 <= i < listing_entries(ds[a].listing).len() && sole_entry(ds[a].name@, listing_entries(ds[a].listing), i)
        && #[trigger] entry_recorded(ds[a].name@, listing_entries(ds[a].listing)[i]) is Some ==> {
            let t = ds[a].name@;
            let e = listing_entries(ds[a].listing)[i];
            let k = entry_recorded(t, e)->0;
            &&& fin@.contains_key(k)
            &&& file_outcome(t, k.1, e, recorded(st@, k), fin@[k], res, scan_ms, json_hash(st.schema_of(t)))
        }
}

/// What a finished scan of the directories `ds` left of each file it
/// read, as `files_reconciled_below` states for all of them.
pub open spec fn files_reconciled(st: ArtifactStore, fin: ArtifactStore, ds: Seq<WorkspaceDir>, res: ScanResult, scan_ms: u64) -> bool {
    files_reconciled_below(st, fin, ds, ds.len() as int, res, scan_ms)
}

/// An entry that names an instance adds it to those its directory
/// reconciles.
proof fn lemma_entry_in_recorded(t: Seq<char>, es: Seq<TypeDirEntry>, i: int)
    requires
        0 <= i < es.len(),
        entry_recorded(t, es[i]) is Some,
    ensures
        recorded_of(t, es).contains(entry_recorded(t, es[i])->0),
    decreases es.len(),
{
    let pre = es.drop_last();
    if i < es.len() - 1 {
        assert(pre[i] == es[i]);
        lemma_entry_in_recorded(t, pre, i);
        let r = recorded_of(t, pre);
        let m = choose|m: int| 0 <= m < r.len() && r[m] == entry_recorded(t, es[i])->0;
        assert(recorded_of(t, es)[m] == r[m]);
    } else {
        assert(es.last() == es[i]);
        assert(recorded_of(t, es)[recorded_of(t, pre).len() as int] == entry_recorded(t, es[i])->0);
    }
}

/// An instance a directory of a registered type reconciles is among those
/// all the directories reconcile.
proof fn lemma_dir_in_recorded_all(st: ArtifactStore, ds: Seq<WorkspaceDir>, a: int, k: InstanceKey)
    requires
        0 <= a < ds.len(),
        st.registered(ds[a].name@),
        recorded_of(ds[a].name@, listing_entries(ds[a].listing)).contains(k),
    ensures
        recorded_all(st, ds).contains(k),
    decreases ds.len(),
{
    let pre = ds.drop_last();
    if a < ds.len() - 1 {
        assert(pre[a] == ds[a]);
        lemma_dir_in_recorded_all(st, pre, a, k);
        let r = recorded_all(st, pre);
        let m = choose|m: int| 0 <= m < r.len() && r[m] == k;
        assert(recorded_all(st, ds)[m] == r[m]);
    } else {
        assert(ds.last() == ds[a]);
        let rd = recorded_of(ds[a].name@, listing_entries(ds[a].listing));
        let m = choose|m: int| 0 <= m < rd.len() && rd[m] == k;
        assert(recorded_all(st, ds)[recorded_all(st, pre).len() + m] == k);
    }
}

/// The files of the first `i + 1` directories are reconciled once
/// directory `i` is.
proof fn lemma_dirs_files_step(st: ArtifactStore, ds: Seq<WorkspaceDir>, i: int, store_before: ArtifactStore, store_after: ArtifactStore,
    res_before: ScanResult, res_after: ScanResult, scan_ms: u64)
    requires
        0 <= i < ds.len(),
        store_before.types() == st.types(),
        files_reconciled_below(st, store_before, ds, i, res_before, scan_ms),
        reports_kept(res_before, res_after),
        agrees_outside(st@, store_before@, recorded_all(st, ds.take(i))),
        !st.registered(ds[i].name@) ==> store_after@ == store_before@,
        st.registered(ds[i].name@) ==> {
            let t = ds[i].name@;
            let es = listing_entries(ds[i].listing);
            &&& all_recorded(store_after@, recorded_of(t, es))
            &&& agrees_outside(store_before@, store_after@, recorded_of(t, es))
            &&& forall|j: int| 0 <= j < es.len() && sole_entry(t, es, j) && #[trigger] entry_recorded(t, es[j]) is Some ==> {
                let k = entry_recorded(t, es[j])->0;
                entry_outcome(t, k.1, es[j], recorded(store_before@, k), store_after@[k], res_before, res_after, scan_ms,
                    json_hash(store_before.schema_of(t)))
            }
        },
    ensures
        files_reconciled_below(st, store_after, ds, i + 1, res_after, scan_ms),
{
    reveal(files_reconciled_below);
    assert forall|a: int, j: int| 0 <= a < i + 1 && dir_sole(ds, a) && st.registered(ds[a].name@)
        && 0 <= j < listing_entries(ds[a].listing).len() && sole_entry(ds[a].name@, listing_entries(ds[a].listing), j)
        && #[trigger] entry_recorded(ds[a].name@, listing_entries(ds[a].listing)[j]) is Some implies {
            let t = ds[a].name@;
            let e = listing_entries(ds[a].listing)[j];
            let k = entry_recorded(t, e)->0;
            &&& store_after@.contains_key(k)
            &&& file_outcome(t, k.1, e, recorded(st@, k), store_after@[k], res_after, scan_ms, json_hash(st.schema_of(t)))
        } by {
        let t = ds[a].name@;
        let e = listing_entries(ds[a].listing)[j];
        let k = entry_recorded(t, e)->0;
        if a < i {
            if st.registered(ds[i].name@) {
                assert(ds[i].name@ != t);
                if recorded_of(ds[i].name@, listing_entries(ds[i].listing)).contains(k) {
                    lemma_recorded_type(ds[i].name@, listing_entries(ds[i].listing), k);
                }
            }
            assert(store_after@.contains_key(k) && store_after@[k] == store_before@[k]);
            lemma_file_outcome_carry(t, k.1, e, recorded(st@, k), store_after@[k], res_before, res_after, scan_ms,
                json_hash(st.schema_of(t)));
        } else {
            let es = listing_entries(ds[i].listing);
            lemma_entry_in_recorded(t, es, j);
            assert(!recorded_all(st, ds.take(i)).contains(k)) by {
                if recorded_all(st, ds.take(i)).contains(k) {
                    lemma_recorded_all_dir(st, ds.take(i), k);
                    let b = choose|b: int| 0 <= b < ds.take(i).len() && (#[trigger] ds.take(i)[b]).name@ == k.0;
                    assert(ds.take(i)[b] == ds[b]);
                    assert(ds[b].name@ != ds[i].name@);
                }
            }
            assert(recorded(store_before@, k) == recorded(st@, k));
            assert(store_before.schema_of(t) == st.schema_of(t));
            lemma_outcome_finished(t, k.1, e, recorded(st@, k), store_after@[k], res_before, res_after, scan_ms, json_hash(st.schema_of(t)));
        }
    }
}

/// A finished outcome of an entry stands in any result that keeps the
/// reports.
proof fn lemma_file_outcome_carry(t: Seq<char>, id: Seq<char>, e: TypeDirEntry, existing: Option<ArtifactState>, st: ArtifactState,
    b: ScanResult, c: ScanResult, scan_ms: u64, sh: Seq<char>)
    requires
        file_outcome(t, id, e, existing, st, b, scan_ms, sh),
        reports_kept(b, c),
    ensures
        file_outcome(t, id, e, existing, st, c, scan_ms, sh),
{
    reveal(file_outcome);
    let d = entry_disposition(e, existing, sh);
    if d != ScanDisposition::Unchanged {
        let m = choose|m: int| 0 <= m < reported_in(b, d).len()
            && is_ref(#[trigger] reported_in(b, d)[m], t, id, entry_path(e), entry_work_unit(e, existing));
        assert(reported_in(c, d).take(reported_in(b, d).len() as int) == reported_in(b, d));
        assert(reported_in(c, d)[m] == reported_in(b, d)[m]);
    }
    if (e matches TypeDirEntry::File { content: FileContent::Parsed { .. }, .. }) && st.status is Invalid {
        let m = choose|m: int| 0 <= m < b.invalid@.len() && (#[trigger] b.invalid@[m]).artifact_type@ == t
            && b.invalid@[m].instance_id@ == id && b.invalid@[m].path@ == entry_path(e);
        assert(c.invalid@[m] == c.invalid@.take(b.invalid@.len() as int)[m]);
    }
    if e matches TypeDirEntry::File { content: FileContent::Malformed { .. }, .. } {
        let m = choose|m: int| 0 <= m < b.malformed@.len() && (#[trigger] b.malformed@[m]).artifact_type@ == t
            && b.malformed@[m].instance_id@ == id && b.malformed@[m].path@ == entry_path(e);
        assert(c.malformed@[m] == c.malformed@.take(b.malformed@.len() as int)[m]);
    }
}

/// The reports an entry made during a directory's scan are in the result.
proof fn lemma_outcome_finished(t: Seq<char>, id: Seq<char>, e: TypeDirEntry, existing: Option<ArtifactState>, st: ArtifactState,
    a: ScanResult, b: ScanResult, scan_ms: u64, sh: Seq<char>)
    requires
        entry_outcome(t, id, e, existing, st, a, b, scan_ms, sh),
    ensures
        file_outcome(t, id, e, existing, st, b, scan_ms, sh),
{
    reveal(entry_outcome);
    reveal(file_outcome);
    let d = entry_disposition(e, existing, sh);
    if d != ScanDisposition::Unchanged {
        let m = choose|m: int| reported_in(a, d).len() <= m < reported_in(b, d).len()
            && is_ref(#[trigger] reported_in(b, d)[m], t, id, entry_path(e), entry_work_unit(e, existing));
    }
    if (e matches TypeDirEntry::File { content: FileContent::Parsed { .. }, .. }) && st.status is Invalid {
        let m = choose|m: int| a.invalid@.len() <= m < b.invalid@.len() && (#[trigger] b.invalid@[m]).artifact_type@ == t
            && b.invalid@[m].instance_id@ == id && b.invalid@[m].path@ == entry_path(e);
    }
    if e matches TypeDirEntry::File { content: FileContent::Malformed { .. }, .. } {
        let m = choose|m: int| a.malformed@.len() <= m < b.malformed@.len() && (#[trigger] b.malformed@[m]).artifact_type@ == t
            && b.malformed@[m].instance_id@ == id && b.malformed@[m].path@ == entry_path(e);
    }
}

/// Every instance a directory of type `t` reconciles is of type `t`.
proof fn lemma_recorded_type(t: Seq<char>, es: Seq<TypeDirEntry>, k: InstanceKey)
    requires
        recorded_of(t, es).contains(k),
    ensures
        k.0 == t,
    decreases es.len(),
{
    let pre = es.drop_last();
    let r = recorded_of(t, es);
    let m = choose|m: int| 0 <= m < r.len() && r[m] == k;
    if m < recorded_of(t, pre).len() {
        assert(recorded_of(t, pre)[m] == k);
        lemma_recorded_type(t, pre, k);
    }
}

/// Every instance the directories reconcile is of the type a directory
/// names.
proof fn lemma_recorded_all_dir(st: ArtifactStore, ds: Seq<WorkspaceDir>, k: InstanceKey)
    requires
        recorded_all(st, ds).contains(k),
    ensures
        exists|b: int| 0 <= b < ds.len() && (#[trigger] ds[b]).name@ == k.0,
    decreases ds.len(),
{
    let pre = ds.drop_last();
    let r = recorded_all(st, ds);
    let m = choose|m: int| 0 <= m < r.len() && r[m] == k;
    if m < recorded_all(st, pre).len() {
        assert(recorded_all(st, pre)[m] == k);
        lemma_recorded_all_dir(st, pre, k);
        let b = choose|b: int| 0 <= b < pre.len() && (#[trigger] pre[b]).name@ == k.0;
        assert(ds[b] == pre[b]);
    } else {
        let d = ds.last();
        assert(recorded_of(d.name@, listing_entries(d.listing))[m - recorded_all(st, pre).len()] == k);
        lemma_recorded_type(d.name@, listing_entries(d.listing), k);
        assert(ds[ds.len() - 1] == d);
    }
}

/// Removing the instances no file names keeps what the files left.
proof fn lemma_files_after_removal(st: ArtifactStore, mid: ArtifactStore, fin: ArtifactStore, ds: Seq<WorkspaceDir>,
    res_mid: ScanResult, res: ScanResult, scan_ms: u64)
    requires
        files_reconciled(st, mid, ds, res_mid, scan_ms),
        reports_kept(res_mid, res),
        forall|k: InstanceKey| #[trigger] fin@.contains_key(k) == (mid@.contains_key(k) && !removable(st, ds, k)),
        forall|k: InstanceKey| #[trigger] fin@.contains_key(k) ==> fin@[k] == mid@[k],
    ensures
        files_reconciled(st, fin, ds, res, scan_ms),
{
    reveal(files_reconciled_below);
    assert forall|a: int, i: int| 0 <= a < ds.len() && dir_sole(ds, a) && st.registered(ds[a].name@)
        && 0 <= i < listing_entries(ds[a].listing).len() && sole_entry(ds[a].name@, listing_entries(ds[a].listing), i)
        && #[trigger] entry_recorded(ds[a].name@, listing_entries(ds[a].listing)[i]) is Some implies {
            let t = ds[a].name@;
            let e = listing_entries(ds[a].listing)[i];
            let k = entry_recorded(t, e)->0;
            &&& fin@.contains_key(k)
            &&& file_outcome(t, k.1, e, recorded(st@, k), fin@[k], res, scan_ms, json_hash(st.schema_of(t)))
        } by {
        let t = ds[a].name@;
        let es = listing_entries(ds[a].listing);
        let e = es[i];
        let k = entry_recorded(t, e)->0;
        lemma_entry_in_recorded(t, es, i);
        lemma_dir_in_recorded_all(st, ds, a, k);
        lemma_recorded_seen(st, ds, k);
        assert(!removable(st, ds, k));
        assert(fin@.contains_key(k));
        lemma_file_outcome_carry(t, k.1, e, recorded(st@, k), fin@[k], res_mid, res, scan_ms, json_hash(st.schema_of(t)));
    }
}

/// The file outcomes stand in any result that keeps the reports.
proof fn lemma_files_below_carry(st: ArtifactStore, fin: ArtifactStore, ds: Seq<WorkspaceDir>, n: int, a: ScanResult, b: ScanResult,
    scan_ms: u64)
    requires
        files_reconciled_below(st, fin, ds, n, a, scan_ms),
        reports_kept(a, b),
    ensures
        files_reconciled_below(st, fin, ds, n, b, scan_ms),
{
    reveal(files_reconciled_below);
    assert forall|x: int, i: int| 0 <= x < n && dir_sole(ds, x) && st.registered(ds[x].name@)
        && 0 <= i < listing_entries(ds[x].listing).len() && sole_entry(ds[x].name@, listing_entries(ds[x].listing), i)
        && #[trigger] entry_recorded(ds[x].name@, listing_entries(ds[x].listing)[i]) is Some implies {
            let t = ds[x].name@;
            let e = listing_entries(ds[x].listing)[i];
            let k = entry_recorded(t, e)->0;
            &&& fin@.contains_key(k)
            &&& file_outcome(t, k.1, e, recorded(st@, k), fin@[k], b, scan_ms, json_hash(st.schema_of(t)))
        } by {
        let t = ds[x].name@;
        let e = listing_entries(ds[x].listing)[i];
        let k = entry_recorded(t, e)->0;
        lemma_file_outcome_carry(t, k.1, e, recorded(st@, k), fin@[k], a, b, scan_ms, json_hash(st.schema_of(t)));
    }
}

/// Agreement outside the instances reconciled so far, and their being
/// recorded, extend over one more directory's.
proof fn lemma_agree_compose(st: Map<InstanceKey, ArtifactState>, before: Map<InstanceKey, ArtifactState>,
    after: Map<InstanceKey, ArtifactState>, rec_before: Seq<InstanceKey>, rd: Seq<InstanceKey>)
    requires
        all_recorded(before, rec_before),
        agrees_outside(st, before, rec_before),
        all_recorded(after, rd),
        agrees_outside(before, after, rd),
    ensures
        all_recorded(after, rec_before + rd),
        agrees_outside(st, after, rec_before + rd),
{
    let rn = rec_before + rd;
    assert forall|k: InstanceKey| rn.contains(k) implies #[trigger] after.contains_key(k) by {
        let m = choose|m: int| 0 <= m < rn.len() && #[trigger] rn[m] == k;
        if m < rec_before.len() {
            assert(rec_before[m] == k);
            assert(before.contains_key(k));
            if !rd.contains(k) {
                assert(after.contains_key(k) == before.contains_key(k));
            }
        } else {
            assert(rd[m - rec_before.len()] == k);
        }
    }
    assert forall|k: InstanceKey| !rn.contains(k) implies (#[trigger] after.contains_key(k) == st.contains_key(k)
        && (st.contains_key(k) ==> after[k] == st[k])) by {
        if rec_before.contains(k) {
            let m = choose|m: int| 0 <= m < rec_before.len() && #[trigger] rec_before[m] == k;
            assert(rn[m] == k);
        }
        if rd.contains(k) {
            let m = choose|m: int| 0 <= m < rd.len() && #[trigger] rd[m] == k;
            assert(rn[rec_before.len() + m] == k);
        }
        assert(!rec_before.contains(k) && !rd.contains(k));
        assert(after.contains_key(k) == before.contains_key(k));
        assert(before.contains_key(k) == st.contains_key(k));
        if st.contains_key(k) {
            assert(before[k] == st[k]);
            assert(after[k] == before[k]);
        }
    }
    assert(agrees_outside(st, after, rn));
    assert(all_recorded(after, rn));
}

/// What a completed scan of directories `ds` establishes, from the store
/// `st` it started with, of the store `fin` it leaves and its result `res`.
pub open spec fn scan_outcome(st: ArtifactStore, fin: ArtifactStore, ds: Seq<WorkspaceDir>, res: ScanResult) -> bool {
    &&& fin.types() == st.types()
    &&& fin.type_gaps() == type_gaps_all(st, ds)
    &&& fin.instance_gaps() == instance_gaps_all(st, ds)
    &&& all_recorded(fin@, recorded_all(st, ds))
    &&& forall|k: InstanceKey| removable(st, ds, k) ==> !#[trigger] fin@.contains_key(k)
    &&& forall|k: InstanceKey| !recorded_all(st, ds).contains(k) && !removable(st, ds, k)
        ==> (#[trigger] fin@.contains_key(k) == st@.contains_key(k) && (st@.contains_key(k) ==> fin@[k] == st@[k]))
    &&& sorted_le(views(res.unrecognized_dirs@))
    &&& views(res.unrecognized_dirs@).to_multiset() == unrecognized_of(st, ds).to_multiset()
    &&& sorted_le(unreadable_paths(res.unreadable@))
    &&& unreadable_views(res.unreadable@).to_multiset() == unreadables_all(st, ds).to_multiset()
    &&& strictly_sorted(partial_types(res.partially_scanned_types@))
    &&& forall|i: int| 0 <= i < res.partially_scanned_types@.len() ==> #[trigger] res.partially_scanned_types@[i].unreadable_entries > 0
    &&& forall|u: Seq<char>| #[trigger] partial_count(res.partially_scanned_types@, u) == capped(gap_total(st, ds, u))
    &&& forall|a: int, b: int| 0 <= a < b < res.removed@.len()
        ==> ikey_lt(#[trigger] ref_keys(res.removed@)[a], #[trigger] ref_keys(res.removed@)[b])
    &&& forall|k: InstanceKey| #![trigger ref_keys(res.removed@).contains(k)] #![trigger removable(st, ds, k)]
        ref_keys(res.removed@).contains(k) <==> removable(st, ds, k)
    &&& forall|a: int| 0 <= a < res.removed@.len() ==> {
        let k = #[trigger] ref_keys(res.removed@)[a];
        &&& res.removed@[a].path@ == st@[k].path@
        &&& opt_string_view(res.removed@[a].work_unit) == opt_string_view(st@[k].work_unit)
    }
}


/// Scan the observed workspace, reconciling the store with it, at the
/// given timestamp.
///
/// The scan gaps of an earlier scan are forgotten first. A missing
/// workspace is an empty one while the store records nothing, and an error
/// otherwise. Directories that are no registered artifact type are
/// reported by name; the others are reconciled as `scan_type_dir` does.
/// Then every recorded instance of a type whose directories were read in
/// full and that no file names is removed and reported. Unrecognized
/// directories and unreadable reports are ordered by name and path,
/// partial-scan reports by type, removals by type and instance id.
#[verifier::rlimit(100)]
pub fn scan_at(workspace: Workspace, store: &mut ArtifactStore, scan_timestamp_ms: u64) -> (r: Result<ScanResult, ScanError>)
    ensures
        final(store).types() == old(store).types(),
        workspace is Missing ==> {
            &&& final(store)@ == old(store)@
            &&& final(store).type_gaps().len() == 0
            &&& final(store).instance_gaps().len() == 0
            &&& old(store)@.dom().is_empty() ==> (r is Ok && empty_result(r->Ok_0))
            &&& !old(store)@.dom().is_empty() ==> (r matches Err(ScanError::WorkspaceMissing(p)) && p@ == workspace->Missing_0@)
        },
        workspace is Dirs ==> (r is Err ==> r->Err_0 is Store && any_invalid_schema(*old(store), workspace->Dirs_0@)),
        workspace is Dirs ==> (!any_invalid_schema(*old(store), workspace->Dirs_0@) ==> r is Ok),
        workspace is Dirs && r is Ok ==> scan_outcome(*old(store), *final(store), workspace->Dirs_0@, r->Ok_0),
        workspace is Dirs && r is Ok ==> files_reconciled(*old(store), *final(store), workspace->Dirs_0@, r->Ok_0, scan_timestamp_ms),
{
    let ghost st = *store;
    store.clear_scan_gaps();
    let keys = store.all_instance_keys();
    let ghost kv = key_views(keys@);
    proof {
        assert forall|k: InstanceKey| #[trigger] st@.contains_key(k) implies kv.contains(k) by {
            assert(keys@.map_values(|e: (String, String)| (e.0@, e.1@)).contains(k));
            assert(kv =~= keys@.map_values(|e: (String, String)| (e.0@, e.1@)));
        }
        assert forall|m: int| 0 <= m < kv.len() implies #[trigger] st@.contains_key(kv[m]) by {
            assert(kv[m] == (keys@[m].0@, keys@[m].1@));
        }
        assert forall|a: int, b: int| 0 <= a < b < kv.len() implies ikey_lt(#[trigger] kv[a], #[trigger] kv[b]) by {
            assert(kv[a] == (keys@[a].0@, keys@[a].1@));
            assert(kv[b] == (keys@[b].0@, keys@[b].1@));
        }
    }
    let mut result = ScanResult::default();
    match workspace {
        Workspace::Missing(path) => {
            if keys.len() == 0 {
                proof {
                    assert forall|k: InstanceKey| !st@.contains_key(k) by {
                        if st@.contains_key(k) {
                            assert(kv.contains(k));
                        }
                    }
                    assert(st@.dom() =~= Set::<InstanceKey>::empty());
                }
                return Ok(result);
            }
            proof {
                assert(st@.contains_key(kv[0]));
            }
            Err(ScanError::WorkspaceMissing(path))
        },
        Workspace::Dirs(dirs) => {
            let ghost ds = dirs@;
            let mut rest = dirs;
            let mut seen: Vec<(String, String)> = Vec::new();
            let ghost mut i: int = 0;
            proof {
                assert(ds.skip(0) =~= ds);
                assert(ds.take(0) =~= Seq::<WorkspaceDir>::empty());
                assert(key_views(seen@) =~= Seq::<InstanceKey>::empty());
                assert(store.type_gaps() =~= Seq::<Seq<char>>::empty());
                assert(store.instance_gaps() =~= Seq::<InstanceKey>::empty());
                assert(unreadable_views(result.unreadable@) =~= Seq::<(Seq<char>, Seq<char>)>::empty());
                assert(views(result.unrecognized_dirs@) =~= Seq::<Seq<char>>::empty());
                assert(partial_types(result.partially_scanned_types@) =~= Seq::<Seq<char>>::empty());
                assert forall|u: Seq<char>| #[trigger] partial_count(result.partially_scanned_types@, u)
                    == capped(gap_total(st, ds.take(0), u)) by {
                }
                assert(files_reconciled_below(st, *store, ds, 0, result, scan_timestamp_ms)) by {
                    reveal(files_reconciled_below);
                }
            }
            while rest.len() > 0
                invariant
                    0 <= i <= ds.len(),
                    rest@ == ds.skip(i),
                    st == *old(store),
                    workspace is Dirs && ds == workspace->Dirs_0@,
                    store.types() == st.types(),
                    key_views(seen@) == seen_of(st, ds.take(i)),
                    store.type_gaps() == type_gaps_all(st, ds.take(i)),
                    store.instance_gaps() == instance_gaps_all(st, ds.take(i)),
                    all_recorded(store@, recorded_all(st, ds.take(i))),
                    agrees_outside(st@, store@, recorded_all(st, ds.take(i))),
                    unreadable_views(result.unreadable@) == unreadables_all(st, ds.take(i)),
                    sorted_le(views(result.unrecognized_dirs@)),
                    views(result.unrecognized_dirs@).to_multiset() == unrecognized_of(st, ds.take(i)).to_multiset(),
                    strictly_sorted(partial_types(result.partially_scanned_types@)),
                    forall|m: int| 0 <= m < result.partially_scanned_types@.len()
                        ==> #[trigger] result.partially_scanned_types@[m].unreadable_entries > 0,
                    forall|u: Seq<char>| #[trigger] partial_count(result.partially_scanned_types@, u)
                        == capped(gap_total(st, ds.take(i), u)),
                    result.removed@.len() == 0,
                    files_reconciled_below(st, *store, ds, i, result, scan_timestamp_ms),
                decreases ds.len() - i,
            {
                let d = rest.remove(0);
                proof {
                    assert(ds.skip(i)[0] == ds[i]);
                    assert(rest@ =~= ds.skip(i + 1));
                    lemma_dirs_step(st, ds, i);
                }
                let ghost dg = d;
                let WorkspaceDir { name, path, listing } = d;
                let ghost store_before = store@;
                let ghost store_before_s = *store;
                let ghost result_before = result;
                let ghost rec_before = recorded_all(st, ds.take(i));
                if store.is_registered(name.as_str()) {
                    let ghost seen_before = key_views(seen@);
                    let ghost uv_before = unreadable_views(result.unreadable@);
                    let ghost partial_before = result.partially_scanned_types@;
                    let count = match scan_type_dir(store, name.as_str(), path.as_str(), listing, scan_timestamp_ms, &mut seen, &mut result) {
                        Ok(c) => c,
                        Err(e) => {
                            proof {
                                assert(st.registered(ds[i].name@) && listing_invalid_schema(ds[i].name@, ds[i].listing));
                                assert(any_invalid_schema(st, ds));
                            }
                            return Err(e);
                        },
                    };
                    let ghost partial_mid = result.partially_scanned_types@;
                    let ghost result_mid = result;
                    let ghost store_mid_s = *store;
                    if count > 0 {
                        add_partial(&mut result.partially_scanned_types, name.as_str(), count);
                    }
                    proof {
                        lemma_same_reports(result_mid, result);
                        assert(store_mid_s == *store);
                        lemma_dirs_files_step(st, ds, i, store_before_s, *store, result_before, result_mid, scan_timestamp_ms);
                        lemma_files_below_carry(st, *store, ds, i + 1, result_mid, result, scan_timestamp_ms);
                        let es = listing_entries(dg.listing);
                        let rd = recorded_of(dg.name@, es);
                        let rn = recorded_all(st, ds.take(i + 1));
                        assert(rn == rec_before + rd);
                        lemma_agree_compose(st@, store_before, store@, rec_before, rd);
                        assert(unrecognized_of(st, ds.take(i + 1)) =~= unrecognized_of(st, ds.take(i)));
                        assert forall|u: Seq<char>| #[trigger] partial_count(result.partially_scanned_types@, u)
                            == capped(gap_total(st, ds.take(i + 1), u)) by {
                            lemma_gap_total_nonneg(st, ds.take(i), u);
                            assert(gap_total(st, ds.take(i + 1), u) == gap_total(st, ds.take(i), u)
                                + if dg.name@ == u { count as int } else { 0 });
                        }
                    }
                } else {
                    let ghost nm = name@;
                    let ghost uv = views(result.unrecognized_dirs@);
                    insert_sorted_string(&mut result.unrecognized_dirs, name);
                    proof {
                        lemma_same_reports(result_before, result);
                        lemma_dirs_files_step(st, ds, i, store_before_s, *store, result_before, result, scan_timestamp_ms);
                        assert(unrecognized_of(st, ds.take(i + 1)) == unrecognized_of(st, ds.take(i)).push(nm));
                        vstd::seq_lib::to_multiset_build(unrecognized_of(st, ds.take(i)), nm);
                        assert(seen_of(st, ds.take(i + 1)) =~= seen_of(st, ds.take(i)));
                        assert(recorded_all(st, ds.take(i + 1)) =~= recorded_all(st, ds.take(i)));
                        assert(unreadables_all(st, ds.take(i + 1)) =~= unreadables_all(st, ds.take(i)));
                        assert(type_gaps_all(st, ds.take(i + 1)) =~= type_gaps_all(st, ds.take(i)));
                        assert(instance_gaps_all(st, ds.take(i + 1)) =~= instance_gaps_all(st, ds.take(i)));
                        assert forall|u: Seq<char>| #[trigger] partial_count(result.partially_scanned_types@, u)
                            == capped(gap_total(st, ds.take(i + 1), u)) by {
                            assert(gap_total(st, ds.take(i + 1), u) == gap_total(st, ds.take(i), u));
                        }
                    }
                }
                proof {
                    i = i + 1;
                }
            }
            proof {
                assert(ds.take(i) =~= ds);
            }
            let ghost res_end = result;
            proof {
                assert(i == ds.len());
            }
            let mut unsorted: Vec<UnreadableArtifact> = Vec::new();
            std::mem::swap(&mut unsorted, &mut result.unreadable);
            result.unreadable = sort_unreadable(unsorted);
            let ghost mid = store@;
            let ghost mid_s = *store;
            let ghost res_mid = result;
            proof {
                lemma_same_reports(res_end, res_mid);
                lemma_files_below_carry(st, mid_s, ds, ds.len() as int, res_end, res_mid, scan_timestamp_ms);
                assert(files_reconciled(st, mid_s, ds, res_mid, scan_timestamp_ms));
            }
            let mut j: usize = 0;
            while j < keys.len()
                invariant
                    j <= keys@.len(),
                    kv == key_views(keys@),
                    forall|a: int, b: int| 0 <= a < b < kv.len() ==> ikey_lt(#[trigger] kv[a], #[trigger] kv[b]),
                    forall|m: int| 0 <= m < kv.len() ==> #[trigger] st@.contains_key(kv[m]),
                    forall|k: InstanceKey| #[trigger] st@.contains_key(k) ==> kv.contains(k),
                    store.types() == st.types(),
                    store.type_gaps() == type_gaps_all(st, ds),
                    store.instance_gaps() == instance_gaps_all(st, ds),
                    all_recorded(mid, recorded_all(st, ds)),
                    agrees_outside(st@, mid, recorded_all(st, ds)),
                    forall|k: InstanceKey| #[trigger] store@.contains_key(k)
                        == (mid.contains_key(k) && !(removable(st, ds, k) && kv.take(j as int).contains(k))),
                    forall|k: InstanceKey| #[trigger] store@.contains_key(k) ==> store@[k] == mid[k],
                    key_views(seen@) == seen_of(st, ds),
                    sorted_le(views(result.unrecognized_dirs@)),
                    views(result.unrecognized_dirs@).to_multiset() == unrecognized_of(st, ds).to_multiset(),
                    sorted_le(unreadable_paths(result.unreadable@)),
                    unreadable_views(result.unreadable@).to_multiset() == unreadables_all(st, ds).to_multiset(),
                    strictly_sorted(partial_types(result.partially_scanned_types@)),
                    forall|m: int| 0 <= m < result.partially_scanned_types@.len()
                        ==> #[trigger] result.partially_scanned_types@[m].unreadable_entries > 0,
                    forall|u: Seq<char>| #[trigger] partial_count(result.partially_scanned_types@, u) == capped(gap_total(st, ds, u)),
                    forall|a: int, b: int| 0 <= a < b < result.removed@.len()
                        ==> ikey_lt(#[trigger] ref_keys(result.removed@)[a], #[trigger] ref_keys(result.removed@)[b]),
                    forall|a: int| 0 <= a < result.removed@.len()
                        ==> exists|m: int| 0 <= m < j && #[trigger] ref_keys(result.removed@)[a] == kv[m],
                    result.new == res_mid.new,
                    result.modified == res_mid.modified,
                    result.revalidated == res_mid.revalidated,
                    result.invalid == res_mid.invalid,
                    result.malformed == res_mid.malformed,
                    mid == mid_s@,
                    forall|k: InstanceKey| #[trigger] ref_keys(result.removed@).contains(k)
                        <==> (removable(st, ds, k) && kv.take(j as int).contains(k)),
                    forall|a: int| 0 <= a < result.removed@.len() ==> {
                        let k = #[trigger] ref_keys(result.removed@)[a];
                        &&& result.removed@[a].path@ == st@[k].path@
                        &&& opt_string_view(result.removed@[a].work_unit) == opt_string_view(st@[k].work_unit)
                    },
                decreases keys@.len() - j,
            {
                let t = keys[j].0.as_str();
                let id = keys[j].1.as_str();
                let ghost k = (t@, id@);
                let ghost done = kv.take(j as int);
                let ghost removed_before = result.removed@;
                let ghost store_before = store@;
                proof {
                    assert(kv[j as int] == k);
                    assert(kv.take(j + 1) =~= done.push(k));
                    lemma_gap_total_nonneg(st, ds, t@);
                    assert(st@.contains_key(kv[j as int]));
                    assert(!done.contains(k)) by {
                        if done.contains(k) {
                            let m = choose|m: int| 0 <= m < done.len() && done[m] == k;
                            assert(kv[m] == k);
                            assert(ikey_lt(kv[m], kv[j as int]));
                            crate::store::lemma_ikey_lt_facts(k, k, k);
                        }
                    }
                }
                proof {
                    assert forall|x: InstanceKey| #[trigger] kv.take(j + 1).contains(x) <==> (done.contains(x) || x == k) by {
                        let kt = kv.take(j + 1);
                        if kt.contains(x) {
                            let a = choose|a: int| 0 <= a < kt.len() && #[trigger] kt[a] == x;
                            if a < j {
                                assert(done[a] == x);
                            }
                        }
                        if done.contains(x) {
                            let a = choose|a: int| 0 <= a < done.len() && #[trigger] done[a] == x;
                            assert(kt[a] == x);
                        }
                        if x == k {
                            assert(kt[j as int] == k);
                        }
                    }
                }
                let partial = has_partial(&result.partially_scanned_types, t);
                let named = has_key(&seen, t, id);
                proof {
                    if partial {
                        let m = choose|m: int| 0 <= m < result.partially_scanned_types@.len()
                            && #[trigger] result.partially_scanned_types@[m].artifact_type@ == t@;
                        lemma_partial_count(result.partially_scanned_types@, m);
                    } else {
                        assert(partial_count(result.partially_scanned_types@, t@) == 0);
                    }
                    assert(partial == (gap_total(st, ds, t@) > 0));
                    assert(removable(st, ds, k) == (!partial && !named));
                }
                if !partial && !named {
                    proof {
                        if recorded_all(st, ds).contains(k) {
                            lemma_recorded_seen(st, ds, k);
                            assert(seen_of(st, ds).contains(k));
                            assert(key_views(seen@).contains(k));
                            assert(named);
                        }
                        assert(!recorded_all(st, ds).contains(k));
                        assert(st@.contains_key(k));
                        assert(mid.contains_key(k) == st@.contains_key(k));
                        assert(mid.contains_key(k) && mid[k] == st@[k]);
                    }
                    match store.get(t, id) {
                        Some(state) => {
                            let state_path = owned(state.path.as_str());
                            let state_wu = match &state.work_unit {
                                Some(w) => Some(owned(w.as_str())),
                                None => None,
                            };
                            store.remove(t, id);
                            result.removed.push(ArtifactRef {
                                artifact_type: owned(t),
                                instance_id: owned(id),
                                path: state_path,
                                work_unit: state_wu,
                            });
                            proof {
                                let rk = ref_keys(result.removed@);
                                assert(rk =~= ref_keys(removed_before).push(k));
                                assert forall|a: int, b: int| 0 <= a < b < rk.len() implies ikey_lt(#[trigger] rk[a], #[trigger] rk[b]) by {
                                    if b == rk.len() - 1 {
                                        assert(ref_keys(removed_before)[a] == rk[a]);
                                        let m = choose|m: int| 0 <= m < j && #[trigger] ref_keys(removed_before)[a] == kv[m];
                                        assert(ikey_lt(kv[m], kv[j as int]));
                                    } else {
                                        assert(ref_keys(removed_before)[a] == rk[a]);
                                        assert(ref_keys(removed_before)[b] == rk[b]);
                                    }
                                }
                                assert forall|a: int| 0 <= a < rk.len() implies exists|m: int| 0 <= m < j + 1 && #[trigger] rk[a] == kv[m] by {
                                    if a == rk.len() - 1 {
                                        assert(rk[a] == kv[j as int]);
                                    } else {
                                        assert(ref_keys(removed_before)[a] == rk[a]);
                                        let m = choose|m: int| 0 <= m < j && #[trigger] ref_keys(removed_before)[a] == kv[m];
                                        assert(rk[a] == kv[m]);
                                    }
                                }
                                assert forall|x: InstanceKey| #[trigger] rk.contains(x)
                                    <==> (removable(st, ds, x) && kv.take(j + 1).contains(x)) by {
                                    if x == k {
                                        assert(rk[rk.len() - 1] == k);
                                        assert(kv.take(j + 1).contains(k));
                                    } else {
                                        if rk.contains(x) {
                                            let a = choose|a: int| 0 <= a < rk.len() && rk[a] == x;
                                            assert(ref_keys(removed_before)[a] == x);
                                            assert(ref_keys(removed_before).contains(x));
                                            assert(done.contains(x));
                                        }
                                        if removable(st, ds, x) && kv.take(j + 1).contains(x) {
                                            assert(done.contains(x));
                                            assert(ref_keys(removed_before).contains(x));
                                            let b = choose|b: int| 0 <= b < ref_keys(removed_before).len()
                                                && ref_keys(removed_before)[b] == x;
                                            assert(rk[b] == x);
                                        }
                                    }
                                }
                                assert forall|a: int| 0 <= a < rk.len() implies {
                                    let x = #[trigger] rk[a];
                                    &&& result.removed@[a].path@ == st@[x].path@
                                    &&& opt_string_view(result.removed@[a].work_unit) == opt_string_view(st@[x].work_unit)
                                } by {
                                    if a < rk.len() - 1 {
                                        assert(ref_keys(removed_before)[a] == rk[a]);
                                        assert(result.removed@[a] == removed_before[a]);
                                    }
                                }
                            }
                        },
                        None => {
                            proof {
                                assert(false);
                            }
                        },
                    }
                } else {
                    proof {
                        assert forall|x: InstanceKey| #[trigger] ref_keys(result.removed@).contains(x)
                            <==> (removable(st, ds, x) && kv.take(j + 1).contains(x)) by {
                        }
                    }
                }
                proof {
                    assert(store@ == store_before || (removable(st, ds, k) && store@ == store_before.remove(k)));
                    assert(store@ == store_before ==> !removable(st, ds, k));
                    assert forall|x: InstanceKey| #[trigger] store@.contains_key(x)
                        == (mid.contains_key(x) && !(removable(st, ds, x) && kv.take(j + 1).contains(x))) by {
                        assert(kv.take(j + 1).contains(x) <==> (done.contains(x) || x == k));
                        assert(store_before.contains_key(x) == (mid.contains_key(x) && !(removable(st, ds, x) && done.contains(x))));
                    }
                }
                j = j + 1;
            }
            proof {
                assert(kv.take(kv.len() as int) =~= kv);
                assert forall|k: InstanceKey| removable(st, ds, k) implies !#[trigger] store@.contains_key(k) by {
                    assert(kv.contains(k));
                }
                assert forall|k: InstanceKey| #![trigger ref_keys(result.removed@).contains(k)] #![trigger removable(st, ds, k)]
                    ref_keys(result.removed@).contains(k) <==> removable(st, ds, k) by {
                    if removable(st, ds, k) {
                        assert(kv.contains(k));
                    }
                }
                assert forall|k: InstanceKey| !recorded_all(st, ds).contains(k) && !removable(st, ds, k)
                    implies (#[trigger] store@.contains_key(k) == st@.contains_key(k) && (st@.contains_key(k) ==> store@[k] == st@[k])) by {
                    assert(store@.contains_key(k) == mid.contains_key(k));
                    assert(mid.contains_key(k) == st@.contains_key(k));
                }
                assert forall|k: InstanceKey| recorded_all(st, ds).contains(k) implies #[trigger] store@.contains_key(k) by {
                    lemma_recorded_seen(st, ds, k);
                    assert(mid.contains_key(k));
                }
                assert(scan_outcome(st, *store, ds, result));
                lemma_same_reports(res_mid, result);
                lemma_files_after_removal(st, mid_s, *store, ds, res_mid, result, scan_timestamp_ms);
            }
            Ok(result)
        },
    }
}


/// Scan the observed workspace, reconciling the store with it at the
/// current time, as `scan_at` does.
pub fn scan(workspace: Workspace, store: &mut ArtifactStore) -> (r: Result<ScanResult, ScanError>)
    ensures
        final(store).types() == old(store).types(),
        workspace is Missing ==> {
            &&& final(store)@ == old(store)@
            &&& final(store).type_gaps().len() == 0
            &&& final(store).instance_gaps().len() == 0
            &&& old(store)@.dom().is_empty() ==> (r is Ok && empty_result(r->Ok_0))
            &&& !old(store)@.dom().is_empty() ==> (r matches Err(ScanError::WorkspaceMissing(p)) && p@ == workspace->Missing_0@)
        },
        workspace is Dirs ==> (r is Err ==> r->Err_0 is Store && any_invalid_schema(*old(store), workspace->Dirs_0@)),
        workspace is Dirs ==> (!any_invalid_schema(*old(store), workspace->Dirs_0@) ==> r is Ok),
        workspace is Dirs && r is Ok ==> scan_outcome(*old(store), *final(store), workspace->Dirs_0@, r->Ok_0),
        workspace is Dirs && r is Ok ==> exists|scan_ms: u64|
            #[trigger] files_reconciled(*old(store), *final(store), workspace->Dirs_0@, r->Ok_0, scan_ms),
{
    let scan_timestamp_ms = current_time_ms();
    scan_at(workspace, store, scan_timestamp_ms)
}

/// A directory's unreadable entries are its gaps: each leaves a type-level
/// gap of its type or an instance-level gap on an instance of its type.
proof fn lemma_dir_gaps(t: Seq<char>, es: Seq<TypeDirEntry>)
    ensures
        unreadables_of(es).len() == type_gaps_of(t, es).len() + instance_gaps_of(t, es).len(),
        forall|m: int| 0 <= m < type_gaps_of(t, es).len() ==> #[trigger] type_gaps_of(t, es)[m] == t,
        forall|m: int| 0 <= m < instance_gaps_of(t, es).len() ==> (#[trigger] instance_gaps_of(t, es)[m]).0 == t,
    decreases es.len(),
{
    if es.len() > 0 {
        let pre = es.drop_last();
        lemma_dir_gaps(t, pre);
        let tg = type_gaps_of(t, es);
        let ig = instance_gaps_of(t, es);
        assert forall|m: int| 0 <= m < tg.len() implies #[trigger] tg[m] == t by {
            if m < type_gaps_of(t, pre).len() {
                assert(tg[m] == type_gaps_of(t, pre)[m]);
            }
        }
        assert forall|m: int| 0 <= m < ig.len() implies (#[trigger] ig[m]).0 == t by {
            if m < instance_gaps_of(t, pre).len() {
                assert(ig[m] == instance_gaps_of(t, pre)[m]);
            }
        }
    }
}

/// A type has a gap among those the directories leave exactly when some
/// entry of its directories could not be read.
proof fn lemma_all_gaps(st: ArtifactStore, ds: Seq<WorkspaceDir>, u: Seq<char>)
    ensures
        (type_gaps_all(st, ds).contains(u) || exists|m: int| 0 <= m < instance_gaps_all(st, ds).len()
            && #[trigger] instance_gaps_all(st, ds)[m].0 == u) <==> gap_total(st, ds, u) > 0,
        gap_total(st, ds, u) >= 0,
    decreases ds.len(),
{
    if ds.len() > 0 {
        let pre = ds.drop_last();
        let d = ds.last();
        lemma_all_gaps(st, pre, u);
        let tp = type_gaps_all(st, pre);
        let ip = instance_gaps_all(st, pre);
        let tg = type_gaps_all(st, ds);
        let ig = instance_gaps_all(st, ds);
        if st.registered(d.name@) {
            let es = listing_entries(d.listing);
            lemma_dir_gaps(d.name@, es);
            let td = listing_type_gaps(d.name@, d.listing);
            let id = instance_gaps_of(d.name@, es);
            assert(tg == tp + td);
            assert(ig == ip + id);
            let n = listing_unreadables(d.path@, d.listing).len();
            assert(n == td.len() + id.len());
            if gap_total(st, ds, u) > 0 {
                if gap_total(st, pre, u) > 0 {
                    if tp.contains(u) {
                        let m = choose|m: int| 0 <= m < tp.len() && tp[m] == u;
                        assert(tg[m] == u);
                    } else {
                        let m = choose|m: int| 0 <= m < ip.len() && #[trigger] ip[m].0 == u;
                        assert(ig[m] == ip[m]);
                    }
                } else {
                    assert(d.name@ == u && n > 0);
                    if td.len() > 0 {
                        assert(td[0] == u);
                        assert(tg[tp.len() as int] == td[0]);
                    } else {
                        assert(id[0].0 == u);
                        assert(ig[ip.len() as int] == id[0]);
                    }
                }
            }
            if tg.contains(u) {
                let m = choose|m: int| 0 <= m < tg.len() && tg[m] == u;
                if m < tp.len() {
                    assert(tp[m] == u);
                } else {
                    assert(td[m - tp.len()] == u);
                }
            }
            if exists|m: int| 0 <= m < ig.len() && #[trigger] ig[m].0 == u {
                let m = choose|m: int| 0 <= m < ig.len() && #[trigger] ig[m].0 == u;
                if m < ip.len() {
                    assert(ip[m] == ig[m]);
                } else {
                    assert(id[m - ip.len()] == ig[m]);
                }
            }
        } else {
            assert(tg =~= tp);
            assert(ig =~= ip);
        }
    }
}

/// After a scan, a type has a scan gap exactly when some entry of its
/// directories could not be read, which is exactly when the scan reports
/// the type as partially scanned; such a type's instances are not removed.
pub proof fn law_scan_gap_iff_partial(st: ArtifactStore, fin: ArtifactStore, ds: Seq<WorkspaceDir>, res: ScanResult, t: Seq<char>)
    requires
        scan_outcome(st, fin, ds, res),
    ensures
        fin.has_gap_for_type(t) <==> gap_total(st, ds, t) > 0,
        fin.has_gap_for_type(t) <==> exists|i: int| 0 <= i < res.partially_scanned_types@.len()
            && #[trigger] res.partially_scanned_types@[i].artifact_type@ == t,
        fin.has_gap_for_type(t) ==> forall|id: Seq<char>| !#[trigger] removable(st, ds, (t, id)),
{
    lemma_all_gaps(st, ds, t);
    let ps = res.partially_scanned_types@;
    if exists|i: int| 0 <= i < ps.len() && #[trigger] ps[i].artifact_type@ == t {
        let i = choose|i: int| 0 <= i < ps.len() && #[trigger] ps[i].artifact_type@ == t;
        lemma_partial_count(ps, i);
    } else {
        assert(partial_count(ps, t) == 0);
    }
}

} // verus!
