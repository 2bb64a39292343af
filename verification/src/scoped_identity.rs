//! Errors of canonical scoped work-unit identity validation.
use vstd::prelude::*;

use crate::entry::{WORK_UNIT_ARTIFACT_TYPE, parse_u64, parse_u64_text};
use crate::store::{ArtifactStore, ValidationStatus};
use crate::forge_address::{ForgeAddressError, ForgeErrorView, ForgeProject, ForgeTracker, forge_error_message, handle_tracker_identity,
    handle_work_unit_identity, tracker_identity_from_handle, u64_member, u64_member_exec, work_unit_identity_from_handle};
use crate::json::{JsonValue, get, json_get};
use crate::text::{decimal, join, join_strings, owned, push_decimal, push_str, seq_lt, str_eq, strictly_sorted, views};

verus! {

/// Why a scoped work unit or a recorded work-unit root is not acceptable.
#[derive(Debug, Clone, PartialEq, Eq)]
pub enum ScopedWorkUnitError {
    NonCanonical { supplied: String, available: Vec<String> },
    TrackerNumberParseFailure { instance_id: String },
    TrackerNumberDisagreement { instance_id: String, handle_number: u64 },
    DuplicateTrackerRoots { first_instance_id: String, duplicate_instance_id: String, tracker_identity: String },
    DeploymentDisagreement { instance_id: String, handle_identity: String, configured_identities: Vec<String> },
    ForgeAddress(ForgeAddressError),
    WorkUnitScanIncomplete,
}

/// The message of a scoped work-unit error.
pub open spec fn scoped_error_message(e: ScopedWorkUnitError) -> Seq<char> {
    match e {
        ScopedWorkUnitError::NonCanonical { supplied, available } => "scoped work unit '"@ + supplied@
            + "' is not a recorded canonical work-unit id; available canonical work-unit ids: "@ + join(views(available@), ", "@),
        ScopedWorkUnitError::TrackerNumberParseFailure { instance_id } => "work-unit instance id '"@ + instance_id@
            + "' does not contain a parseable tracker number"@,
        ScopedWorkUnitError::TrackerNumberDisagreement { instance_id, handle_number } => "work-unit instance id '"@ + instance_id@
            + "' disagrees with tracker handle number "@ + decimal(handle_number as nat),
        ScopedWorkUnitError::DuplicateTrackerRoots { first_instance_id, duplicate_instance_id, tracker_identity } =>
            "work-unit instances '"@ + first_instance_id@ + "' and '"@ + duplicate_instance_id@ + "' share tracker identity "@
                + tracker_identity@,
        ScopedWorkUnitError::DeploymentDisagreement { instance_id, handle_identity, configured_identities } =>
            "work-unit instance '"@ + instance_id@ + "' belongs to "@ + handle_identity@
                + ", which does not resolve to a configured tracker identity (configured: "@
                + join(views(configured_identities@), ", "@) + ")"@,
        ScopedWorkUnitError::ForgeAddress(error) => forge_error_message(error@),
        ScopedWorkUnitError::WorkUnitScanIncomplete =>
            "the 'work-unit' artifact type was only partially scanned; the ticket cannot be resolved without complete work-unit scan trust"@,
    }
}

impl ScopedWorkUnitError {
    /// Renders the error as text (the error's `Display` form).
    pub fn to_display_string(&self) -> (r: String)
        ensures
            r@ == scoped_error_message(*self),
    {
        match self {
            ScopedWorkUnitError::NonCanonical { supplied, available } => {
                let mut out = owned("scoped work unit '");
                push_str(&mut out, supplied.as_str());
                push_str(&mut out, "' is not a recorded canonical work-unit id; available canonical work-unit ids: ");
                let list = join_strings(available, ", ");
                push_str(&mut out, list.as_str());
                assert(out@ =~= scoped_error_message(*self));
                out
            },
            ScopedWorkUnitError::TrackerNumberParseFailure { instance_id } => {
                let mut out = owned("work-unit instance id '");
                push_str(&mut out, instance_id.as_str());
                push_str(&mut out, "' does not contain a parseable tracker number");
                assert(out@ =~= scoped_error_message(*self));
                out
            },
            ScopedWorkUnitError::TrackerNumberDisagreement { instance_id, handle_number } => {
                let mut out = owned("work-unit instance id '");
                push_str(&mut out, instance_id.as_str());
                push_str(&mut out, "' disagrees with tracker handle number ");
                push_decimal(&mut out, *handle_number);
                assert(out@ =~= scoped_error_message(*self));
                out
            },
            ScopedWorkUnitError::DuplicateTrackerRoots { first_instance_id, duplicate_instance_id, tracker_identity } => {
                let mut out = owned("work-unit instances '");
                push_str(&mut out, first_instance_id.as_str());
                push_str(&mut out, "' and '");
                push_str(&mut out, duplicate_instance_id.as_str());
                push_str(&mut out, "' share tracker identity ");
                push_str(&mut out, tracker_identity.as_str());
                assert(out@ =~= scoped_error_message(*self));
                out
            },
            ScopedWorkUnitError::DeploymentDisagreement { instance_id, handle_identity, configured_identities } => {
                let mut out = owned("work-unit instance '");
                push_str(&mut out, instance_id.as_str());
                push_str(&mut out, "' belongs to ");
                push_str(&mut out, handle_identity.as_str());
                push_str(&mut out, ", which does not resolve to a configured tracker identity (configured: ");
                let list = join_strings(configured_identities, ", ");
                push_str(&mut out, list.as_str());
                push_str(&mut out, ")");
                assert(out@ =~= scoped_error_message(*self));
                out
            },
            ScopedWorkUnitError::ForgeAddress(error) => error.to_display_string(),
            ScopedWorkUnitError::WorkUnitScanIncomplete => owned(
                "the 'work-unit' artifact type was only partially scanned; the ticket cannot be resolved without complete work-unit scan trust",
            ),
        }
    }
}


/// The logical content of a scoped work-unit error.
pub enum ScopedErrorView {
    NonCanonical { supplied: Seq<char>, available: Seq<Seq<char>> },
    TrackerNumberParseFailure { instance_id: Seq<char> },
    TrackerNumberDisagreement { instance_id: Seq<char>, handle_number: u64 },
    DuplicateTrackerRoots { first_instance_id: Seq<char>, duplicate_instance_id: Seq<char>, tracker_identity: Seq<char> },
    DeploymentDisagreement { instance_id: Seq<char>, handle_identity: Seq<char>, configured_identities: Seq<Seq<char>> },
    ForgeAddress(ForgeErrorView),
    WorkUnitScanIncomplete,
}

impl View for ScopedWorkUnitError {
    type V = ScopedErrorView;

    open spec fn view(&self) -> ScopedErrorView {
        match self {
            ScopedWorkUnitError::NonCanonical { supplied, available } =>
                ScopedErrorView::NonCanonical { supplied: supplied@, available: views(available@) },
            ScopedWorkUnitError::TrackerNumberParseFailure { instance_id } =>
                ScopedErrorView::TrackerNumberParseFailure { instance_id: instance_id@ },
            ScopedWorkUnitError::TrackerNumberDisagreement { instance_id, handle_number } =>
                ScopedErrorView::TrackerNumberDisagreement { instance_id: instance_id@, handle_number: *handle_number },
            ScopedWorkUnitError::DuplicateTrackerRoots { first_instance_id, duplicate_instance_id, tracker_identity } =>
                ScopedErrorView::DuplicateTrackerRoots {
                    first_instance_id: first_instance_id@,
                    duplicate_instance_id: duplicate_instance_id@,
                    tracker_identity: tracker_identity@,
                },
            ScopedWorkUnitError::DeploymentDisagreement { instance_id, handle_identity, configured_identities } =>
                ScopedErrorView::DeploymentDisagreement {
                    instance_id: instance_id@,
                    handle_identity: handle_identity@,
                    configured_identities: views(configured_identities@),
                },
            ScopedWorkUnitError::ForgeAddress(e) => ScopedErrorView::ForgeAddress(e@),
            ScopedWorkUnitError::WorkUnitScanIncomplete => ScopedErrorView::WorkUnitScanIncomplete,
        }
    }
}

/// The parsed content of a valid work-unit instance's file; `None` when the
/// file could not be read or parsed.
#[derive(Debug)]
pub struct WorkUnitDocument {
    pub instance_id: String,
    pub data: Option<JsonValue>,
}

/// The position of the first `-` in `s`, or its length.
pub open spec fn dash_index(s: Seq<char>) -> int
    decreases s.len(),
{
    if s.len() == 0 {
        0
    } else if s[0] == '-' {
        0
    } else {
        1 + dash_index(s.drop_first())
    }
}

proof fn lemma_dash_index(s: Seq<char>)
    ensures
        0 <= dash_index(s) <= s.len(),
        dash_index(s) < s.len() ==> s[dash_index(s)] == '-',
        forall|k: int| 0 <= k < dash_index(s) ==> s[k] != '-',
    decreases s.len(),
{
    if s.len() > 0 && s[0] != '-' {
        lemma_dash_index(s.drop_first());
        assert forall|k: int| 0 <= k < dash_index(s) implies s[k] != '-' by {
            if k > 0 {
                assert(s[k] == s.drop_first()[k - 1]);
            }
        }
    }
}

/// The tracker number an instance id carries: after `work-unit-`, up to the
/// next `-`, parsed as an unsigned 64-bit number.
pub open spec fn instance_number(id: Seq<char>) -> Option<int> {
    if id.len() >= 10 && id.take(10) == "work-unit-"@ {
        let rest = id.skip(10);
        parse_u64(rest.take(dash_index(rest)))
    } else {
        None
    }
}

/// The tracker number an instance id carries.
pub fn instance_work_unit_number(instance_id: &str) -> (r: Option<u64>)
    ensures
        match r {
            Some(n) => instance_number(instance_id@) == Some(n as int),
            None => instance_number(instance_id@) is None,
        },
{
    let n = instance_id.unicode_len();
    proof {
        reveal_strlit("work-unit-");
    }
    if n < 10 {
        return None;
    }
    let head = instance_id.substring_char(0, 10);
    if !str_eq(head, "work-unit-") {
        assert(head@ =~= instance_id@.take(10));
        return None;
    }
    assert(head@ =~= instance_id@.take(10));
    let rest = instance_id.substring_char(10, n);
    assert(rest@ =~= instance_id@.skip(10));
    let m = rest.unicode_len();
    proof {
        lemma_dash_index(rest@);
    }
    let mut i: usize = 0;
    while i < m && rest.get_char(i) != '-'
        invariant
            i <= m,
            m == rest@.len(),
            i <= dash_index(rest@),
            0 <= dash_index(rest@) <= rest@.len(),
            dash_index(rest@) < rest@.len() ==> rest@[dash_index(rest@)] == '-',
            forall|k: int| 0 <= k < dash_index(rest@) ==> rest@[k] != '-',
        decreases m - i,
    {
        i = i + 1;
    }
    let number = rest.substring_char(0, i);
    assert(number@ =~= rest@.take(dash_index(rest@)));
    parse_u64_text(number)
}

/// The disagreement of a handle's tracker identity with the configured
/// trackers, if any: none when no tracker is configured or one has it.
pub open spec fn deployment_disagreement(instance_id: Seq<char>, handle_identity: Seq<char>, trackers: Seq<ForgeTracker>) -> Option<ScopedErrorView> {
    if trackers.len() == 0 || exists|k: int| 0 <= k < trackers.len() && #[trigger] trackers[k].identity@ == handle_identity {
        None
    } else {
        Some(ScopedErrorView::DeploymentDisagreement {
            instance_id,
            handle_identity,
            configured_identities: trackers.map_values(|t: ForgeTracker| t.identity@),
        })
    }
}

/// Check a handle's tracker identity against the configured trackers.
pub fn validate_deployment_identity(instance_id: &str, handle_identity: &str, project: &ForgeProject) -> (r: Result<(), ScopedWorkUnitError>)
    ensures
        match deployment_disagreement(instance_id@, handle_identity@, project.trackers@) {
            None => r is Ok,
            Some(e) => r is Err && r->Err_0@ == e,
        },
{
    if project.trackers.len() == 0 {
        return Ok(());
    }
    match project.tracker_by_identity(handle_identity) {
        Some(_) => Ok(()),
        None => {
            let mut configured: Vec<String> = Vec::new();
            let mut i: usize = 0;
            while i < project.trackers.len()
                invariant
                    i <= project.trackers@.len(),
                    views(configured@) == project.trackers@.take(i as int).map_values(|t: ForgeTracker| t.identity@),
                decreases project.trackers@.len() - i,
            {
                let ghost before = views(configured@);
                configured.push(project.trackers[i].identity.clone());
                proof {
                    assert(views(configured@) =~= before.push(project.trackers@[i as int].identity@));
                    assert(project.trackers@.take(i + 1) =~= project.trackers@.take(i as int).push(project.trackers@[i as int]));
                    assert(project.trackers@.take(i + 1).map_values(|t: ForgeTracker| t.identity@)
                        =~= project.trackers@.take(i as int).map_values(|t: ForgeTracker| t.identity@).push(project.trackers@[i as int].identity@));
                }
                i = i + 1;
            }
            proof {
                assert(project.trackers@.take(i as int) =~= project.trackers@);
            }
            Err(ScopedWorkUnitError::DeploymentDisagreement {
                instance_id: owned(instance_id),
                handle_identity: owned(handle_identity),
                configured_identities: configured,
            })
        },
    }
}

/// What checking one more document does to the tracker roots seen so far
/// (work-unit identity to instance id): the document is skipped unless its
/// handle is an object with a numeric `number`; the instance id must carry
/// that number; a handle that states a tracker and a work-unit identity
/// adds a root, which must be new and of a configured tracker.
pub open spec fn root_step(roots: Map<Seq<char>, Seq<char>>, d: WorkUnitDocument, trackers: Seq<ForgeTracker>) -> Result<Map<Seq<char>, Seq<char>>, ScopedErrorView> {
    let id = d.instance_id@;
    match d.data {
        None => Ok(roots),
        Some(data) => match json_get(data, "handle"@) {
            Some(h) => if !(h is Object) {
                Ok(roots)
            } else {
                match u64_member(h, "number"@) {
                    None => Ok(roots),
                    Some(hn) => match instance_number(id) {
                        None => Err(ScopedErrorView::TrackerNumberParseFailure { instance_id: id }),
                        Some(inum) => if inum != hn {
                            Err(ScopedErrorView::TrackerNumberDisagreement { instance_id: id, handle_number: hn as u64 })
                        } else {
                            match handle_tracker_identity(h) {
                                Err(e) => Err(ScopedErrorView::ForgeAddress(e)),
                                Ok(None) => Ok(roots),
                                Ok(Some(ti)) => match handle_work_unit_identity(h) {
                                    Err(e) => Err(ScopedErrorView::ForgeAddress(e)),
                                    Ok(None) => Ok(roots),
                                    Ok(Some(wi)) => if roots.contains_key(wi) {
                                        Err(ScopedErrorView::DuplicateTrackerRoots {
                                            first_instance_id: roots[wi],
                                            duplicate_instance_id: id,
                                            tracker_identity: wi,
                                        })
                                    } else {
                                        match deployment_disagreement(id, ti, trackers) {
                                            Some(e) => Err(e),
                                            None => Ok(roots.insert(wi, id)),
                                        }
                                    },
                                },
                            }
                        },
                    },
                }
            },
            None => Ok(roots),
        },
    }
}

/// The outcome of checking the documents in order: the first error, or the
/// tracker roots they state.
pub open spec fn tracker_scan(docs: Seq<WorkUnitDocument>, trackers: Seq<ForgeTracker>) -> Result<Map<Seq<char>, Seq<char>>, ScopedErrorView>
    decreases docs.len(),
{
    if docs.len() == 0 {
        Ok(Map::empty())
    } else {
        match tracker_scan(docs.drop_last(), trackers) {
            Err(e) => Err(e),
            Ok(roots) => root_step(roots, docs.last(), trackers),
        }
    }
}

fn find_root(roots: &Vec<(String, String)>, identity: &str) -> (r: Option<usize>)
    ensures
        match r {
            Some(k) => k < roots@.len() && roots@[k as int].0@ == identity@,
            None => forall|m: int| 0 <= m < roots@.len() ==> roots@[m].0@ != identity@,
        },
{
    let mut k: usize = 0;
    while k < roots.len()
        invariant
            k <= roots@.len(),
            forall|m: int| 0 <= m < k ==> roots@[m].0@ != identity@,
        decreases roots@.len() - k,
    {
        if str_eq(roots[k].0.as_str(), identity) {
            return Some(k);
        }
        k = k + 1;
    }
    None
}

/// The map a list of roots with distinct identities denotes.
pub open spec fn roots_map(roots: Seq<(String, String)>) -> Map<Seq<char>, Seq<char>>
    decreases roots.len(),
{
    if roots.len() == 0 {
        Map::empty()
    } else {
        roots_map(roots.drop_last()).insert(roots.last().0@, roots.last().1@)
    }
}

proof fn lemma_roots_map(roots: Seq<(String, String)>)
    requires
        forall|a: int, b: int| 0 <= a < b < roots.len() ==> (#[trigger] roots[a]).0@ != (#[trigger] roots[b]).0@,
    ensures
        forall|m: int| 0 <= m < roots.len() ==> roots_map(roots).contains_key(#[trigger] roots[m].0@)
            && roots_map(roots)[roots[m].0@] == roots[m].1@,
        forall|k: Seq<char>| #[trigger] roots_map(roots).contains_key(k) ==> exists|m: int| 0 <= m < roots.len() && roots[m].0@ == k,
    decreases roots.len(),
{
    if roots.len() > 0 {
        let pre = roots.drop_last();
        assert forall|a: int, b: int| 0 <= a < b < pre.len() implies (#[trigger] pre[a]).0@ != (#[trigger] pre[b]).0@ by {
            assert(pre[a] == roots[a] && pre[b] == roots[b]);
        }
        lemma_roots_map(pre);
        let last = roots.len() - 1;
        assert forall|m: int| 0 <= m < roots.len() implies roots_map(roots).contains_key(#[trigger] roots[m].0@)
            && roots_map(roots)[roots[m].0@] == roots[m].1@ by {
            if m < last {
                assert(pre[m] == roots[m]);
                assert(roots[m].0@ != roots[last].0@);
            }
        }
        assert forall|k: Seq<char>| #[trigger] roots_map(roots).contains_key(k) implies exists|m: int| 0 <= m < roots.len()
            && roots[m].0@ == k by {
            if k != roots[last].0@ {
                assert(roots_map(pre).contains_key(k));
                let m = choose|m: int| 0 <= m < pre.len() && pre[m].0@ == k;
                assert(roots[m] == pre[m]);
            }
        }
    }
}

/// Once checking a prefix of the documents fails, checking all of them
/// fails with the same error.
proof fn lemma_scan_error_stays(docs: Seq<WorkUnitDocument>, p: Seq<ForgeTracker>, j: int)
    requires
        0 <= j <= docs.len(),
        tracker_scan(docs.take(j), p) is Err,
    ensures
        tracker_scan(docs, p) == tracker_scan(docs.take(j), p),
    decreases docs.len() - j,
{
    if j < docs.len() {
        assert(docs.take(j + 1).drop_last() =~= docs.take(j));
        lemma_scan_error_stays(docs, p, j + 1);
    } else {
        assert(docs.take(j) =~= docs);
    }
}

/// Check the tracker roots of the valid work-unit instances, given as their
/// documents in instance-id order: every handle's number agrees with its
/// instance id, no two instances share a work-unit identity, and every
/// handle's tracker is configured.
pub fn validate_tracker_content(docs: &Vec<WorkUnitDocument>, project: &ForgeProject) -> (r: Result<(), ScopedWorkUnitError>)
    ensures
        match tracker_scan(docs@, project.trackers@) {
            Ok(_) => r is Ok,
            Err(e) => r is Err && r->Err_0@ == e,
        },
{
    let mut roots: Vec<(String, String)> = Vec::new();
    let mut i: usize = 0;
    proof {
        assert(docs@.take(0) =~= Seq::<WorkUnitDocument>::empty());
        reveal_strlit("handle");
        reveal_strlit("number");
    }
    while i < docs.len()
        invariant
            i <= docs@.len(),
            tracker_scan(docs@.take(i as int), project.trackers@) == Ok::<Map<Seq<char>, Seq<char>>, ScopedErrorView>(roots_map(roots@)),
            forall|a: int, b: int| 0 <= a < b < roots@.len() ==> (#[trigger] roots@[a]).0@ != (#[trigger] roots@[b]).0@,
        decreases docs@.len() - i,
    {
        let d = &docs[i];
        let ghost rm = roots_map(roots@);
        proof {
            assert(docs@.take(i + 1).drop_last() =~= docs@.take(i as int));
            assert(docs@.take(i + 1).last() == *d);
        }
        let id = d.instance_id.as_str();
        let data = match &d.data {
            None => {
                i = i + 1;
                continue;
            },
            Some(data) => data,
        };
        let h = match get(data, "handle") {
            Some(h) => h,
            None => {
                i = i + 1;
                continue;
            },
        };
        let is_object = match h {
            JsonValue::Object(_) => true,
            _ => false,
        };
        if !is_object {
            i = i + 1;
            continue;
        }
        let hn = match u64_member_exec(h, "number") {
            Some(hn) => hn,
            None => {
                i = i + 1;
                continue;
            },
        };
        let inum = match instance_work_unit_number(id) {
            Some(n) => n,
            None => {
                proof {
                    lemma_scan_error_stays(docs@, project.trackers@, i + 1);
                }
                return Err(ScopedWorkUnitError::TrackerNumberParseFailure { instance_id: owned(id) });
            },
        };
        if inum != hn {
            proof {
                lemma_scan_error_stays(docs@, project.trackers@, i + 1);
            }
            return Err(ScopedWorkUnitError::TrackerNumberDisagreement { instance_id: owned(id), handle_number: hn });
        }
        let ti = match tracker_identity_from_handle(h) {
            Err(e) => {
                proof {
                    lemma_scan_error_stays(docs@, project.trackers@, i + 1);
                }
                return Err(ScopedWorkUnitError::ForgeAddress(e));
            },
            Ok(None) => {
                i = i + 1;
                continue;
            },
            Ok(Some(ti)) => ti,
        };
        let wi = match work_unit_identity_from_handle(h) {
            Err(e) => {
                proof {
                    lemma_scan_error_stays(docs@, project.trackers@, i + 1);
                }
                return Err(ScopedWorkUnitError::ForgeAddress(e));
            },
            Ok(None) => {
                i = i + 1;
                continue;
            },
            Ok(Some(wi)) => wi,
        };
        match find_root(&roots, wi.as_str()) {
            Some(k) => {
                proof {
                    lemma_roots_map(roots@);
                    assert(roots_map(roots@).contains_key(roots@[k as int].0@));
                    assert(tracker_scan(docs@.take(i + 1), project.trackers@) is Err);
                    lemma_scan_error_stays(docs@, project.trackers@, i + 1);
                }
                return Err(ScopedWorkUnitError::DuplicateTrackerRoots {
                    first_instance_id: roots[k].1.clone(),
                    duplicate_instance_id: owned(id),
                    tracker_identity: wi,
                });
            },
            None => {
                proof {
                    lemma_roots_map(roots@);
                    if roots_map(roots@).contains_key(wi@) {
                        let m = choose|m: int| 0 <= m < roots@.len() && roots@[m].0@ == wi@;
                    }
                }
            },
        }
        match validate_deployment_identity(id, ti.as_str(), project) {
            Err(e) => {
                proof {
                    lemma_scan_error_stays(docs@, project.trackers@, i + 1);
                }
                return Err(e);
            },
            Ok(()) => {},
        }
        let ghost before = roots@;
        roots.push((wi, owned(id)));
        proof {
            assert(roots@.drop_last() =~= before);
            assert(roots_map(roots@) == roots_map(before).insert(wi@, id@));
            assert forall|a: int, b: int| 0 <= a < b < roots@.len() implies (#[trigger] roots@[a]).0@ != (#[trigger] roots@[b]).0@ by {
                if b < before.len() {
                    assert(roots@[a] == before[a] && roots@[b] == before[b]);
                } else {
                    assert(roots@[a] == before[a]);
                }
            }
        }
        i = i + 1;
    }
    proof {
        assert(docs@.take(i as int) =~= docs@);
    }
    Ok(())
}

/// Check the tracker roots against the configured trackers.
pub fn validate_tracker_consistency(docs: &Vec<WorkUnitDocument>, project: &ForgeProject) -> (r: Result<(), ScopedWorkUnitError>)
    ensures
        match tracker_scan(docs@, project.trackers@) {
            Ok(_) => r is Ok,
            Err(e) => r is Err && r->Err_0@ == e,
        },
{
    validate_tracker_content(docs, project)
}


/// The document's handle states the work-unit identity `target`.
pub open spec fn doc_has_identity(d: WorkUnitDocument, target: Seq<char>) -> bool {
    match d.data {
        Some(data) => match json_get(data, "handle"@) {
            Some(h) => h is Object && handle_work_unit_identity(h) == Ok::<Option<Seq<char>>, ForgeErrorView>(Some(target)),
            None => false,
        },
        None => false,
    }
}

/// The first work-unit instance whose handle states the work-unit identity
/// `target`, among the valid instances' documents in instance-id order.
pub fn find_work_unit_by_tracker_identity(docs: &Vec<WorkUnitDocument>, target: &str) -> (r: Option<String>)
    ensures
        match r {
            Some(id) => exists|k: int| 0 <= k < docs@.len() && #[trigger] doc_has_identity(docs@[k], target@)
                && id@ == docs@[k].instance_id@ && forall|j: int| 0 <= j < k ==> !doc_has_identity(docs@[j], target@),
            None => forall|k: int| 0 <= k < docs@.len() ==> !#[trigger] doc_has_identity(docs@[k], target@),
        },
{
    proof {
        reveal_strlit("handle");
    }
    let mut i: usize = 0;
    while i < docs.len()
        invariant
            i <= docs@.len(),
            forall|j: int| 0 <= j < i ==> !#[trigger] doc_has_identity(docs@[j], target@),
        decreases docs@.len() - i,
    {
        let d = &docs[i];
        match &d.data {
            Some(data) => match get(data, "handle") {
                Some(h) => {
                    let is_object = match h {
                        JsonValue::Object(_) => true,
                        _ => false,
                    };
                    if is_object {
                        match work_unit_identity_from_handle(h) {
                            Ok(Some(identity)) => {
                                if str_eq(identity.as_str(), target) {
                                    assert(doc_has_identity(docs@[i as int], target@));
                                    return Some(d.instance_id.clone());
                                }
                            },
                            _ => {},
                        }
                    }
                },
                None => {},
            },
            None => {},
        }
        i = i + 1;
    }
    None
}

/// The `(instance id, path)` of every valid work-unit instance, ordered by
/// instance id: the files whose documents the tracker checks read.
pub fn work_unit_sources(store: &ArtifactStore) -> (r: Vec<(String, String)>)
    ensures
        forall|a: int, b: int| 0 <= a < b < r@.len() ==> seq_lt(#[trigger] r@[a].0@, #[trigger] r@[b].0@),
        forall|k: int| 0 <= k < r@.len() ==> {
            let key = (WORK_UNIT_ARTIFACT_TYPE@, #[trigger] r@[k].0@);
            &&& store@.contains_key(key)
            &&& store@[key].status is Valid
            &&& r@[k].1@ == store@[key].path@
        },
        forall|id: Seq<char>| #[trigger] store@.contains_key((WORK_UNIT_ARTIFACT_TYPE@, id))
            && store@[(WORK_UNIT_ARTIFACT_TYPE@, id)].status is Valid ==> exists|k: int| 0 <= k < r@.len() && r@[k].0@ == id,
{
    let pairs = store.instances_of(WORK_UNIT_ARTIFACT_TYPE, None);
    let ghost t = WORK_UNIT_ARTIFACT_TYPE@;
    let mut out: Vec<(String, String)> = Vec::new();
    let mut j: usize = 0;
    while j < pairs.len()
        invariant
            j <= pairs@.len(),
            t == WORK_UNIT_ARTIFACT_TYPE@,
            forall|a: int, b: int| 0 <= a < b < pairs@.len() ==> seq_lt(#[trigger] pairs@[a].0@, #[trigger] pairs@[b].0@),
            forall|k: int| 0 <= k < pairs@.len() ==> #[trigger] store.matching(t, None, pairs@[k].0@)
                && *pairs@[k].1 == store@[(t, pairs@[k].0@)],
            forall|a: int| 0 <= a < out@.len() ==> exists|m: int| 0 <= m < j && #[trigger] out@[a].0@ == pairs@[m].0@,
            forall|a: int, b: int| 0 <= a < b < out@.len() ==> seq_lt(#[trigger] out@[a].0@, #[trigger] out@[b].0@),
            forall|k: int| 0 <= k < out@.len() ==> {
                let key = (t, #[trigger] out@[k].0@);
                &&& store@.contains_key(key)
                &&& store@[key].status is Valid
                &&& out@[k].1@ == store@[key].path@
            },
            forall|m: int| 0 <= m < j && (#[trigger] pairs@[m]).1.status is Valid
                ==> exists|a: int| 0 <= a < out@.len() && out@[a].0@ == pairs@[m].0@,
        decreases pairs@.len() - j,
    {
        let (id, state) = pairs[j];
        let ghost before = out@;
        proof {
            assert(store.matching(t, None, pairs@[j as int].0@));
        }
        if matches!(state.status, ValidationStatus::Valid) {
            out.push((owned(id), state.path.clone()));
            proof {
                let n = out@.len() - 1;
                assert forall|a: int, b: int| 0 <= a < b < out@.len() implies seq_lt(#[trigger] out@[a].0@, #[trigger] out@[b].0@) by {
                    if b == n {
                        assert(before[a] == out@[a]);
                        let m = choose|m: int| 0 <= m < j && #[trigger] before[a].0@ == pairs@[m].0@;
                        assert(seq_lt(pairs@[m].0@, pairs@[j as int].0@));
                    } else {
                        assert(before[a] == out@[a] && before[b] == out@[b]);
                    }
                }
                assert forall|a: int| 0 <= a < out@.len() implies exists|m: int| 0 <= m < j + 1
                    && #[trigger] out@[a].0@ == pairs@[m].0@ by {
                    if a == n {
                        assert(out@[a].0@ == pairs@[j as int].0@);
                    } else {
                        assert(before[a] == out@[a]);
                        let m = choose|m: int| 0 <= m < j && #[trigger] before[a].0@ == pairs@[m].0@;
                    }
                }
                assert forall|m: int| 0 <= m < j + 1 && (#[trigger] pairs@[m]).1.status is Valid
                    implies exists|a: int| 0 <= a < out@.len() && out@[a].0@ == pairs@[m].0@ by {
                    if m == j {
                        assert(out@[n].0@ == pairs@[m].0@);
                    } else {
                        let a = choose|a: int| 0 <= a < before.len() && before[a].0@ == pairs@[m].0@;
                        assert(out@[a] == before[a]);
                    }
                }
                assert forall|k: int| 0 <= k < out@.len() implies {
                    let key = (t, #[trigger] out@[k].0@);
                    &&& store@.contains_key(key)
                    &&& store@[key].status is Valid
                    &&& out@[k].1@ == store@[key].path@
                } by {
                    if k < n {
                        assert(out@[k] == before[k]);
                    }
                }
            }
        }
        j = j + 1;
    }
    proof {
        assert forall|id: Seq<char>| #[trigger] store@.contains_key((t, id)) && store@[(t, id)].status is Valid
            implies exists|k: int| 0 <= k < out@.len() && out@[k].0@ == id by {
            assert(store.matching(t, None, id));
            assert(crate::store::pair_ids(pairs@).contains(id));
            let m = choose|m: int| 0 <= m < crate::store::pair_ids(pairs@).len() && crate::store::pair_ids(pairs@)[m] == id;
            assert(pairs@[m].0@ == id);
            assert(pairs@[m].1.status is Valid);
        }
    }
    out
}

/// Check a scoped work unit against the recorded work-unit instances: it
/// must be one of their ids, unless none is recorded; then the tracker roots
/// are checked as `validate_tracker_content` does on `docs`, the documents
/// of the valid work-unit instances.
pub fn validate_scoped_work_unit_with_project(store: &ArtifactStore, supplied: &str, project: &ForgeProject,
    docs: &Vec<WorkUnitDocument>) -> (r: Result<(), ScopedWorkUnitError>)
    ensures
        ({
            let t = WORK_UNIT_ARTIFACT_TYPE@;
            let none_recorded = forall|id: Seq<char>| !#[trigger] store@.contains_key((t, id));
            if none_recorded || store@.contains_key((t, supplied@)) {
                match tracker_scan(docs@, project.trackers@) {
                    Ok(_) => r is Ok,
                    Err(e) => r is Err && r->Err_0@ == e,
                }
            } else {
                &&& r matches Err(ScopedWorkUnitError::NonCanonical { supplied: s, available: a })
                &&& s@ == supplied@
                &&& strictly_sorted(views(a@))
                &&& forall|id: Seq<char>| #[trigger] views(a@).contains(id) <==> store@.contains_key((t, id))
            }
        }),
{
    let pairs = store.instances_of(WORK_UNIT_ARTIFACT_TYPE, None);
    let ghost t = WORK_UNIT_ARTIFACT_TYPE@;
    let mut available: Vec<String> = Vec::new();
    let mut found = false;
    let mut j: usize = 0;
    while j < pairs.len()
        invariant
            j <= pairs@.len(),
            t == WORK_UNIT_ARTIFACT_TYPE@,
            forall|a: int, b: int| 0 <= a < b < pairs@.len() ==> seq_lt(#[trigger] pairs@[a].0@, #[trigger] pairs@[b].0@),
            forall|k: int| 0 <= k < pairs@.len() ==> #[trigger] store.matching(t, None, pairs@[k].0@),
            available@.len() == j,
            forall|k: int| 0 <= k < j ==> #[trigger] available@[k]@ == pairs@[k].0@,
            found == exists|k: int| 0 <= k < j && #[trigger] pairs@[k].0@ == supplied@,
        decreases pairs@.len() - j,
    {
        if str_eq(pairs[j].0, supplied) {
            found = true;
        }
        available.push(owned(pairs[j].0));
        j = j + 1;
    }
    proof {
        assert forall|id: Seq<char>| #[trigger] views(available@).contains(id) <==> store@.contains_key((t, id)) by {
            if views(available@).contains(id) {
                let k = choose|k: int| 0 <= k < views(available@).len() && views(available@)[k] == id;
                assert(store.matching(t, None, pairs@[k].0@));
            }
            if store@.contains_key((t, id)) {
                assert(store.matching(t, None, id));
                assert(crate::store::pair_ids(pairs@).contains(id));
                let m = choose|m: int| 0 <= m < crate::store::pair_ids(pairs@).len() && crate::store::pair_ids(pairs@)[m] == id;
                assert(views(available@)[m] == id);
            }
        }
        assert forall|a: int, b: int| 0 <= a < b < views(available@).len() implies seq_lt(#[trigger] views(available@)[a],
            #[trigger] views(available@)[b]) by {
            assert(views(available@)[a] == pairs@[a].0@);
            assert(views(available@)[b] == pairs@[b].0@);
        }
        if found {
            let k = choose|k: int| 0 <= k < j && #[trigger] pairs@[k].0@ == supplied@;
            assert(store.matching(t, None, pairs@[k].0@));
        }
        if store@.contains_key((t, supplied@)) {
            assert(views(available@).contains(supplied@));
            let k = choose|k: int| 0 <= k < views(available@).len() && views(available@)[k] == supplied@;
            assert(pairs@[k].0@ == supplied@);
        }
        if available@.len() > 0 {
            assert(views(available@)[0] == available@[0]@);
            assert(available@[0]@ == pairs@[0].0@);
            assert(store.matching(t, None, pairs@[0].0@));
            assert(store@.contains_key((t, views(available@)[0])));
        } else {
            assert forall|id: Seq<char>| !#[trigger] store@.contains_key((t, id)) by {
                if store@.contains_key((t, id)) {
                    assert(views(available@).contains(id));
                }
            }
        }
    }
    if available.len() == 0 || found {
        return validate_tracker_content(docs, project);
    }
    Err(ScopedWorkUnitError::NonCanonical { supplied: owned(supplied), available })
}

/// Check a scoped work unit without forge configuration.
pub fn validate_scoped_work_unit(store: &ArtifactStore, supplied: &str, docs: &Vec<WorkUnitDocument>) -> (r: Result<(), ScopedWorkUnitError>)
    ensures
        ({
            let t = WORK_UNIT_ARTIFACT_TYPE@;
            let none_recorded = forall|id: Seq<char>| !#[trigger] store@.contains_key((t, id));
            if none_recorded || store@.contains_key((t, supplied@)) {
                match tracker_scan(docs@, Seq::<ForgeTracker>::empty()) {
                    Ok(_) => r is Ok,
                    Err(e) => r is Err && r->Err_0@ == e,
                }
            } else {
                &&& r matches Err(ScopedWorkUnitError::NonCanonical { supplied: s, available: a })
                &&& s@ == supplied@
                &&& strictly_sorted(views(a@))
                &&& forall|id: Seq<char>| #[trigger] views(a@).contains(id) <==> store@.contains_key((t, id))
            }
        }),
{
    let project = ForgeProject { instances: Vec::new(), repositories: Vec::new(), trackers: Vec::new() };
    validate_scoped_work_unit_with_project(store, supplied, &project, docs)
}

} // verus!
