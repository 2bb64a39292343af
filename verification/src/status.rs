//! The status of every protocol candidate: ready, blocked or waiting, with
//! the inputs a ready one would read, the failures that block one and the
//! conditions one waits on.
use vstd::prelude::*;

use crate::enforcement::ArtifactFailure;
use crate::graph::{CycleError, DependencyGraph};
use crate::selection::{CandidateStatus, ClassifiedCandidate, EvaluationScope, EvaluationTopology, classification_holds,
    classify_candidates, find_protocol, first_named, lookup, resolve_evaluation_topology, slots, str_views, topology_resolved};
use crate::model::ProtocolDeclaration;
use crate::store::{ArtifactStore, ValidationStatus, opt_str};
use crate::scan::ScanResult;
use crate::store::opt_string_view;
use crate::text::{clone_strings, decimal, join, owned, push_str, seq_lt, sorted_strings, str_eq, strictly_sorted, u64_to_string, views};

verus! {

/// Where a candidate stands.
#[derive(Debug, Clone, Copy, PartialEq, Eq, Structural)]
pub enum ProtocolStatus {
    Ready,
    Blocked,
    Waiting,
}

/// Whether a candidate's trigger is satisfied.
#[derive(Debug, Clone, Copy, PartialEq, Eq, Structural)]
pub enum TriggerState {
    Satisfied,
    NotSatisfied,
}

/// An artifact instance a ready candidate would read.
#[derive(Debug, Clone, PartialEq)]
pub struct InputEntry {
    pub artifact_type: String,
    pub instance_id: String,
    /// The instance's path, relative to the working directory when it lies
    /// below it.
    pub path: String,
    /// `requires` or `accepts`.
    pub relationship: String,
}

/// Why a candidate is blocked on an artifact type.
#[derive(Debug, Clone, PartialEq)]
pub struct FailureEntry {
    pub artifact_type: String,
    /// `scan_incomplete`, `missing`, `invalid` or `stale`.
    pub reason: String,
}

/// One evaluated candidate.
#[derive(Debug, Clone, PartialEq)]
pub struct ProtocolEntry {
    pub name: String,
    pub work_unit: Option<String>,
    pub status: ProtocolStatus,
    pub trigger: TriggerState,
    pub inputs: Vec<InputEntry>,
    pub precondition_failures: Vec<FailureEntry>,
    pub unsatisfied_conditions: Vec<String>,
}

/// What a scan's result means for evaluation: the artifact types whose
/// evaluation cannot be trusted, and the warnings to show.
#[derive(Debug, Clone, PartialEq)]
pub struct ScanFindings {
    /// Sorted, without repetition.
    pub affected_types: Vec<String>,
    pub warnings: Vec<String>,
}

/// The path `path` relative to `base` as `Path::strip_prefix` gives it,
/// rendered by `Path::display`; `None` when `base` is not a prefix of it.
pub uninterp spec fn stripped_path(path: Seq<char>, base: Seq<char>) -> Option<Seq<char>>;

/// `std::path::Path::strip_prefix`, with the remainder rendered by
/// `Path::display`. The result is named, not stated: it is a function of
/// the two paths alone, compared component by component.
#[verifier::external_body]
fn strip_path_prefix(path: &str, base: &str) -> (r: Option<String>)
    ensures
        opt_string_view(r) == stripped_path(path@, base@),
{
    match std::path::Path::new(path).strip_prefix(base) {
        Ok(rest) => Some(rest.display().to_string()),
        Err(_) => None,
    }
}

/// How a path is displayed: relative to the working directory when it lies
/// below it, else as it is.
pub open spec fn shown_path(path: Seq<char>, working_dir: Seq<char>) -> Seq<char> {
    match stripped_path(path, working_dir) {
        Some(rel) => rel,
        None => path,
    }
}

/// The path as displayed relative to the working directory.
pub fn display_path(path: &str, working_dir: &str) -> (r: String)
    ensures
        r@ == shown_path(path@, working_dir@),
{
    match strip_path_prefix(path, working_dir) {
        Some(rel) => rel,
        None => owned(path),
    }
}

/// The position of the first `/` in `s`, or its length.
pub open spec fn slash_index(s: Seq<char>) -> int
    decreases s.len(),
{
    if s.len() == 0 {
        0
    } else if s[0] == '/' {
        0
    } else {
        1 + slash_index(s.drop_first())
    }
}

/// The first component of a relative path as displayed: what precedes its
/// first separator; the root for a path that starts with one; none for the
/// empty path.
pub open spec fn first_component(rel: Seq<char>) -> Option<Seq<char>> {
    if rel.len() == 0 {
        None
    } else if rel[0] == '/' {
        Some(seq!['/'])
    } else {
        Some(rel.take(slash_index(rel)))
    }
}

proof fn lemma_slash_index(s: Seq<char>)
    ensures
        0 <= slash_index(s) <= s.len(),
        slash_index(s) < s.len() ==> s[slash_index(s)] == '/',
        forall|k: int| 0 <= k < slash_index(s) ==> s[k] != '/',
    decreases s.len(),
{
    if s.len() > 0 && s[0] != '/' {
        lemma_slash_index(s.drop_first());
        assert forall|k: int| 0 <= k < slash_index(s) implies s[k] != '/' by {
            if k > 0 {
                assert(s[k] == s.drop_first()[k - 1]);
            }
        }
    }
}

/// The first component of a relative path.
pub fn first_path_component(rel: &str) -> (r: Option<String>)
    ensures
        opt_string_view(r) == first_component(rel@),
{
    let n = rel.unicode_len();
    if n == 0 {
        return None;
    }
    if rel.get_char(0) == '/' {
        let mut out = String::new();
        crate::text::push_char(&mut out, '/');
        assert(out@ =~= seq!['/']);
        return Some(out);
    }
    proof {
        lemma_slash_index(rel@);
    }
    let mut i: usize = 0;
    while i < n && rel.get_char(i) != '/'
        invariant
            i <= n,
            n == rel@.len(),
            forall|k: int| 0 <= k < i ==> rel@[k] != '/',
            i <= slash_index(rel@),
            0 <= slash_index(rel@) <= rel@.len(),
            slash_index(rel@) < rel@.len() ==> rel@[slash_index(rel@)] == '/',
        decreases n - i,
    {
        i = i + 1;
    }
    let head = rel.substring_char(0, i);
    assert(head@ =~= rel@.take(slash_index(rel@)));
    Some(owned(head))
}

/// The artifact type an unreadable path belongs to: the first component of
/// its path relative to the workspace.
pub open spec fn type_of_path(path: Seq<char>, workspace_dir: Seq<char>) -> Option<Seq<char>> {
    match stripped_path(path, workspace_dir) {
        Some(rel) => first_component(rel),
        None => None,
    }
}

/// The artifact type a path under the workspace belongs to.
pub fn artifact_type_from_path(path: &str, workspace_dir: &str) -> (r: Option<String>)
    ensures
        opt_string_view(r) == type_of_path(path@, workspace_dir@),
{
    match strip_path_prefix(path, workspace_dir) {
        Some(rel) => first_path_component(rel.as_str()),
        None => None,
    }
}

/// The type and reason of a precondition failure.
pub open spec fn failure_view(f: ArtifactFailure) -> (Seq<char>, Seq<char>) {
    match f {
        ArtifactFailure::Missing { artifact_type, .. } => (artifact_type@, "missing"@),
        ArtifactFailure::Invalid { artifact_type, .. } => (artifact_type@, "invalid"@),
        ArtifactFailure::Stale { artifact_type, .. } => (artifact_type@, "stale"@),
    }
}

/// The type and reason of a failure entry.
pub open spec fn entry_view(e: FailureEntry) -> (Seq<char>, Seq<char>) {
    (e.artifact_type@, e.reason@)
}

/// The failure entry of a precondition failure.
pub fn failure_entry(failure: &ArtifactFailure) -> (r: FailureEntry)
    ensures
        entry_view(r) == failure_view(*failure),
{
    proof {
        reveal_strlit("missing");
        reveal_strlit("invalid");
        reveal_strlit("stale");
    }
    match failure {
        ArtifactFailure::Missing { artifact_type, .. } => FailureEntry { artifact_type: artifact_type.clone(), reason: owned("missing") },
        ArtifactFailure::Invalid { artifact_type, .. } => FailureEntry { artifact_type: artifact_type.clone(), reason: owned("invalid") },
        ArtifactFailure::Stale { artifact_type, .. } => FailureEntry { artifact_type: artifact_type.clone(), reason: owned("stale") },
    }
}

/// The warning for a partially scanned type.
pub open spec fn partial_warning(t: Seq<char>, n: nat) -> Seq<char> {
    "artifact type '"@ + t + "' was only partially scanned: "@ + decimal(n) + " unreadable entr"@
        + if n == 1 { "y"@ } else { "ies"@ }
}

/// A scan result's findings: the partially scanned types and the types of
/// the unreadable paths are affected; each partially scanned type gives a
/// warning, in the result's order.
pub fn collect_scan_findings(scan_result: &ScanResult, workspace_dir: &str) -> (r: ScanFindings)
    ensures
        strictly_sorted(views(r.affected_types@)),
        forall|t: Seq<char>| #![trigger views(r.affected_types@).contains(t)]
            views(r.affected_types@).contains(t) <==> (
            (exists|i: int| 0 <= i < scan_result.partially_scanned_types@.len()
                && #[trigger] scan_result.partially_scanned_types@[i].artifact_type@ == t)
            || (exists|i: int| 0 <= i < scan_result.unreadable@.len()
                && #[trigger] type_of_path(scan_result.unreadable@[i].path@, workspace_dir@) == Some(t))),
        r.warnings@.len() == scan_result.partially_scanned_types@.len(),
        forall|i: int| 0 <= i < r.warnings@.len() ==> #[trigger] r.warnings@[i]@ == partial_warning(
            scan_result.partially_scanned_types@[i].artifact_type@,
            scan_result.partially_scanned_types@[i].unreadable_entries as nat),
{
    let partial = &scan_result.partially_scanned_types;
    let unreadable = &scan_result.unreadable;
    let mut types: Vec<String> = Vec::new();
    let mut warnings: Vec<String> = Vec::new();
    proof {
        reveal_strlit("artifact type '");
        reveal_strlit("' was only partially scanned: ");
        reveal_strlit(" unreadable entr");
        reveal_strlit("y");
        reveal_strlit("ies");
    }
    let mut i: usize = 0;
    while i < partial.len()
        invariant
            i <= partial@.len(),
            types@.len() == i,
            warnings@.len() == i,
            forall|k: int| 0 <= k < i ==> #[trigger] types@[k]@ == partial@[k].artifact_type@,
            forall|k: int| 0 <= k < i ==> #[trigger] warnings@[k]@ == partial_warning(partial@[k].artifact_type@,
                partial@[k].unreadable_entries as nat),
        decreases partial@.len() - i,
    {
        let p = &partial[i];
        types.push(p.artifact_type.clone());
        let mut w = owned("artifact type '");
        push_str(&mut w, p.artifact_type.as_str());
        push_str(&mut w, "' was only partially scanned: ");
        let n = u64_to_string(p.unreadable_entries as u64);
        push_str(&mut w, n.as_str());
        push_str(&mut w, " unreadable entr");
        if p.unreadable_entries == 1 {
            push_str(&mut w, "y");
        } else {
            push_str(&mut w, "ies");
        }
        assert(w@ =~= partial_warning(p.artifact_type@, p.unreadable_entries as nat));
        warnings.push(w);
        i = i + 1;
    }
    let ghost np = types@.len();
    let mut j: usize = 0;
    while j < unreadable.len()
        invariant
            j <= unreadable@.len(),
            np == partial@.len(),
            types@.len() >= np,
            forall|k: int| 0 <= k < np ==> #[trigger] types@[k]@ == partial@[k].artifact_type@,
            forall|k: int| #![trigger types@[k]] np <= k < types@.len() ==> exists|m: int| 0 <= m < j
                && #[trigger] type_of_path(unreadable@[m].path@, workspace_dir@) == Some(types@[k]@),
            forall|m: int| 0 <= m < j && #[trigger] type_of_path(unreadable@[m].path@, workspace_dir@) is Some
                ==> views(types@).contains(type_of_path(unreadable@[m].path@, workspace_dir@)->0),
        decreases unreadable@.len() - j,
    {
        let ghost before = types@;
        match artifact_type_from_path(unreadable[j].path.as_str(), workspace_dir) {
            Some(t) => {
                types.push(t);
                proof {
                    assert(views(types@)[types@.len() - 1] == types@[types@.len() - 1]@);
                    assert forall|m: int| 0 <= m < j + 1 && #[trigger] type_of_path(unreadable@[m].path@, workspace_dir@) is Some
                        implies views(types@).contains(type_of_path(unreadable@[m].path@, workspace_dir@)->0) by {
                        if m < j {
                            let x = type_of_path(unreadable@[m].path@, workspace_dir@)->0;
                            let q = choose|q: int| 0 <= q < views(before).len() && views(before)[q] == x;
                            assert(views(types@)[q] == x);
                        }
                    }
                    assert forall|k: int| #![trigger types@[k]] np <= k < types@.len() implies exists|m: int| 0 <= m < j + 1
                        && #[trigger] type_of_path(unreadable@[m].path@, workspace_dir@) == Some(types@[k]@) by {
                        if k == types@.len() - 1 {
                            assert(type_of_path(unreadable@[j as int].path@, workspace_dir@) == Some(types@[k]@));
                        } else {
                            assert(types@[k] == before[k]);
                        }
                    }
                }
            },
            None => {},
        }
        j = j + 1;
    }
    let affected = sorted_strings(&types);
    proof {
        assert forall|t: Seq<char>| #![trigger views(affected@).contains(t)]
            views(affected@).contains(t) <==> (
            (exists|i: int| 0 <= i < partial@.len() && #[trigger] partial@[i].artifact_type@ == t)
            || (exists|i: int| 0 <= i < unreadable@.len() && #[trigger] type_of_path(unreadable@[i].path@, workspace_dir@) == Some(t))) by {
            if views(types@).contains(t) {
                let k = choose|k: int| 0 <= k < views(types@).len() && views(types@)[k] == t;
                assert(types@[k]@ == t);
                if k < np {
                    assert(partial@[k].artifact_type@ == t);
                }
            }
            if exists|i: int| 0 <= i < partial@.len() && #[trigger] partial@[i].artifact_type@ == t {
                let i = choose|i: int| 0 <= i < partial@.len() && #[trigger] partial@[i].artifact_type@ == t;
                assert(views(types@)[i] == t);
            }
        }
    }
    ScanFindings { affected_types: affected, warnings }
}


/// `g` lists the valid instances of type `t` in scope of `wu`, one entry
/// each, ordered by instance id, each with its displayed path and the
/// relationship `rel`.
pub open spec fn input_group(g: Seq<InputEntry>, store: ArtifactStore, t: Seq<char>, wu: Option<Seq<char>>, wd: Seq<char>, rel: Seq<char>) -> bool {
    &&& forall|a: int, b: int| 0 <= a < b < g.len() ==> seq_lt(#[trigger] g[a].instance_id@, #[trigger] g[b].instance_id@)
    &&& forall|a: int| 0 <= a < g.len() ==> {
        let e = #[trigger] g[a];
        &&& e.artifact_type@ == t
        &&& e.relationship@ == rel
        &&& store.matching(t, wu, e.instance_id@)
        &&& store@[(t, e.instance_id@)].status is Valid
        &&& e.path@ == shown_path(store@[(t, e.instance_id@)].path@, wd)
    }
    &&& forall|id: Seq<char>| #[trigger] store.matching(t, wu, id) && store@[(t, id)].status is Valid
        ==> exists|a: int| 0 <= a < g.len() && #[trigger] g[a].instance_id@ == id
}

/// The groups one after another.
pub open spec fn concat_groups(gs: Seq<Seq<InputEntry>>) -> Seq<InputEntry>
    decreases gs.len(),
{
    if gs.len() == 0 { Seq::empty() } else { concat_groups(gs.drop_last()) + gs.last() }
}

/// The type and relationship of a protocol's `k`-th input group: its
/// required types, then its accepted ones.
pub open spec fn input_slot(p: ProtocolDeclaration, k: int) -> (Seq<char>, Seq<char>) {
    if k < p.requires@.len() {
        (p.requires@[k]@, "requires"@)
    } else {
        (p.accepts@[k - p.requires@.len()]@, "accepts"@)
    }
}

/// `inputs` is a group per required type, then per accepted type; the
/// group of an affected type is empty.
pub open spec fn inputs_hold(p: ProtocolDeclaration, store: ArtifactStore, wd: Seq<char>, affected: Seq<Seq<char>>,
    wu: Option<Seq<char>>, inputs: Seq<InputEntry>) -> bool {
    exists|gs: Seq<Seq<InputEntry>>| {
        &&& gs.len() == p.requires@.len() + p.accepts@.len()
        &&& inputs == concat_groups(gs)
        &&& forall|k: int| 0 <= k < gs.len() ==> {
            let slot = input_slot(p, k);
            if affected.contains(slot.0) {
                (#[trigger] gs[k]).len() == 0
            } else {
                input_group(gs[k], store, slot.0, wu, wd, slot.1)
            }
        }
    }
}

/// The input entries of the valid instances of type `t` in scope of
/// `work_unit`, ordered by instance id.
fn input_group_of(store: &ArtifactStore, t: &str, work_unit: Option<&str>, working_dir: &str, rel: &str) -> (r: Vec<InputEntry>)
    ensures
        input_group(r@, *store, t@, opt_str(work_unit), working_dir@, rel@),
{
    let pairs = store.instances_of(t, work_unit);
    let ghost wu = opt_str(work_unit);
    let mut out: Vec<InputEntry> = Vec::new();
    let mut j: usize = 0;
    while j < pairs.len()
        invariant
            j <= pairs@.len(),
            wu == opt_str(work_unit),
            forall|a: int, b: int| 0 <= a < b < pairs@.len() ==> seq_lt(#[trigger] pairs@[a].0@, #[trigger] pairs@[b].0@),
            forall|k: int| 0 <= k < pairs@.len() ==> #[trigger] store.matching(t@, wu, pairs@[k].0@)
                && *pairs@[k].1 == store@[(t@, pairs@[k].0@)],
            forall|a: int| 0 <= a < out@.len() ==> exists|m: int| 0 <= m < j && #[trigger] out@[a].instance_id@ == pairs@[m].0@,
            forall|a: int, b: int| 0 <= a < b < out@.len() ==> seq_lt(#[trigger] out@[a].instance_id@, #[trigger] out@[b].instance_id@),
            forall|a: int| 0 <= a < out@.len() ==> {
                let e = #[trigger] out@[a];
                &&& e.artifact_type@ == t@
                &&& e.relationship@ == rel@
                &&& store.matching(t@, wu, e.instance_id@)
                &&& store@[(t@, e.instance_id@)].status is Valid
                &&& e.path@ == shown_path(store@[(t@, e.instance_id@)].path@, working_dir@)
            },
            forall|m: int| 0 <= m < j && (#[trigger] pairs@[m]).1.status is Valid
                ==> exists|a: int| 0 <= a < out@.len() && #[trigger] out@[a].instance_id@ == pairs@[m].0@,
        decreases pairs@.len() - j,
    {
        let (id, state) = pairs[j];
        let ghost before = out@;
        proof {
            assert(store.matching(t@, wu, pairs@[j as int].0@));
        }
        if matches!(state.status, ValidationStatus::Valid) {
            out.push(InputEntry {
                artifact_type: owned(t),
                instance_id: owned(id),
                path: display_path(state.path.as_str(), working_dir),
                relationship: owned(rel),
            });
            proof {
                let n = out@.len() - 1;
                assert forall|a: int, b: int| 0 <= a < b < out@.len() implies seq_lt(#[trigger] out@[a].instance_id@,
                    #[trigger] out@[b].instance_id@) by {
                    assert(out@[a] == before[a] || a == n);
                    if b == n {
                        assert(before[a] == out@[a]);
                        let m = choose|m: int| 0 <= m < j && #[trigger] before[a].instance_id@ == pairs@[m].0@;
                        assert(seq_lt(pairs@[m].0@, pairs@[j as int].0@));
                    } else {
                        assert(before[a] == out@[a]);
                        assert(before[b] == out@[b]);
                    }
                }
                assert forall|a: int| 0 <= a < out@.len() implies exists|m: int| 0 <= m < j + 1
                    && #[trigger] out@[a].instance_id@ == pairs@[m].0@ by {
                    if a == n {
                        assert(out@[a].instance_id@ == pairs@[j as int].0@);
                    } else {
                        assert(before[a] == out@[a]);
                        let m = choose|m: int| 0 <= m < j && #[trigger] before[a].instance_id@ == pairs@[m].0@;
                    }
                }
                assert forall|m: int| 0 <= m < j + 1 && (#[trigger] pairs@[m]).1.status is Valid
                    implies exists|a: int| 0 <= a < out@.len() && #[trigger] out@[a].instance_id@ == pairs@[m].0@ by {
                    if m == j {
                        assert(out@[n].instance_id@ == pairs@[m].0@);
                    } else {
                        let a = choose|a: int| 0 <= a < before.len() && #[trigger] before[a].instance_id@ == pairs@[m].0@;
                        assert(out@[a] == before[a]);
                    }
                }
                assert forall|a: int| 0 <= a < out@.len() implies {
                    let e = #[trigger] out@[a];
                    &&& e.artifact_type@ == t@
                    &&& e.relationship@ == rel@
                    &&& store.matching(t@, wu, e.instance_id@)
                    &&& store@[(t@, e.instance_id@)].status is Valid
                    &&& e.path@ == shown_path(store@[(t@, e.instance_id@)].path@, working_dir@)
                } by {
                    if a < n {
                        assert(out@[a] == before[a]);
                    }
                }
            }
        }
        j = j + 1;
    }
    proof {
        assert forall|id: Seq<char>| #[trigger] store.matching(t@, wu, id) && store@[(t@, id)].status is Valid
            implies exists|a: int| 0 <= a < out@.len() && #[trigger] out@[a].instance_id@ == id by {
            assert(crate::store::pair_ids(pairs@).contains(id));
            let m = choose|m: int| 0 <= m < crate::store::pair_ids(pairs@).len() && crate::store::pair_ids(pairs@)[m] == id;
            assert(pairs@[m].0@ == id);
            assert(pairs@[m].1.status is Valid);
        }
    }
    out
}


/// Append the input group of type `t` with relationship `rel`, the group
/// an affected type being empty.
fn push_group(out: &mut Vec<InputEntry>, store: &ArtifactStore, t: &str, rel: &str, working_dir: &str, affected_types: &Vec<String>,
    work_unit: Option<&str>) -> (g: Ghost<Seq<InputEntry>>)
    ensures
        final(out)@ == old(out)@ + g@,
        if views(affected_types@).contains(t@) {
            g@.len() == 0
        } else {
            input_group(g@, *store, t@, opt_str(work_unit), working_dir@, rel@)
        },
{
    let mut g = if crate::text::contains_str(affected_types, t) {
        Vec::new()
    } else {
        input_group_of(store, t, work_unit, working_dir, rel)
    };
    let ghost gv = g@;
    out.append(&mut g);
    Ghost(gv)
}

/// The instances a ready candidate of `protocol` would read: the valid
/// instances in scope of each required type, then of each accepted type,
/// skipping the affected types.
pub fn collect_inputs(protocol: &ProtocolDeclaration, store: &ArtifactStore, working_dir: &str, affected_types: &Vec<String>,
    work_unit: Option<&str>) -> (r: Vec<InputEntry>)
    ensures
        inputs_hold(*protocol, *store, working_dir@, views(affected_types@), opt_str(work_unit), r@),
{
    let ghost p = *protocol;
    let ghost aff = views(affected_types@);
    let ghost wu = opt_str(work_unit);
    let nr = protocol.requires.len();
    let mut out: Vec<InputEntry> = Vec::new();
    let ghost mut gs: Seq<Seq<InputEntry>> = Seq::empty();
    proof {
        reveal_strlit("requires");
        reveal_strlit("accepts");
    }
    let mut k: usize = 0;
    while k < nr
        invariant
            k <= nr,
            nr == p.requires@.len(),
            p == *protocol,
            aff == views(affected_types@),
            wu == opt_str(work_unit),
            gs.len() == k,
            out@ == concat_groups(gs),
            forall|m: int| 0 <= m < k ==> {
                let slot = input_slot(p, m);
                if aff.contains(slot.0) {
                    (#[trigger] gs[m]).len() == 0
                } else {
                    input_group(gs[m], *store, slot.0, wu, working_dir@, slot.1)
                }
            },
        decreases nr - k,
    {
        let t = protocol.requires[k].as_str();
        proof {
            assert(input_slot(p, k as int) == (t@, "requires"@));
        }
        let Ghost(gv) = push_group(&mut out, store, t, "requires", working_dir, affected_types, work_unit);
        proof {
            let ng = gs.push(gv);
            assert(ng.drop_last() =~= gs);
            assert forall|m: int| 0 <= m < k + 1 implies {
                let slot = input_slot(p, m);
                if aff.contains(slot.0) {
                    (#[trigger] ng[m]).len() == 0
                } else {
                    input_group(ng[m], *store, slot.0, wu, working_dir@, slot.1)
                }
            } by {
                if m < k {
                    assert(ng[m] == gs[m]);
                }
            }
            gs = ng;
        }
        k = k + 1;
    }
    let na = protocol.accepts.len();
    let mut k: usize = 0;
    while k < na
        invariant
            k <= na,
            nr == p.requires@.len(),
            na == p.accepts@.len(),
            p == *protocol,
            aff == views(affected_types@),
            wu == opt_str(work_unit),
            gs.len() == nr + k,
            out@ == concat_groups(gs),
            forall|m: int| 0 <= m < nr + k ==> {
                let slot = input_slot(p, m);
                if aff.contains(slot.0) {
                    (#[trigger] gs[m]).len() == 0
                } else {
                    input_group(gs[m], *store, slot.0, wu, working_dir@, slot.1)
                }
            },
        decreases na - k,
    {
        let t = protocol.accepts[k].as_str();
        proof {
            assert(input_slot(p, nr + k) == (t@, "accepts"@));
        }
        let Ghost(gv) = push_group(&mut out, store, t, "accepts", working_dir, affected_types, work_unit);
        proof {
            let ng = gs.push(gv);
            assert(ng.drop_last() =~= gs);
            assert forall|m: int| 0 <= m < nr + k + 1 implies {
                let slot = input_slot(p, m);
                if aff.contains(slot.0) {
                    (#[trigger] ng[m]).len() == 0
                } else {
                    input_group(ng[m], *store, slot.0, wu, working_dir@, slot.1)
                }
            } by {
                if m < nr + k {
                    assert(ng[m] == gs[m]);
                }
            }
            gs = ng;
        }
        k = k + 1;
    }
    proof {
        assert(inputs_hold(p, *store, working_dir@, aff, wu, out@));
    }
    out
}


/// The result of evaluating every protocol candidate.
#[derive(Debug, Clone, PartialEq)]
pub struct EvaluatedProtocols {
    pub topology: EvaluationTopology,
    pub cycle: Option<CycleError>,
    pub ready: Vec<ProtocolEntry>,
    pub blocked: Vec<ProtocolEntry>,
    pub waiting: Vec<ProtocolEntry>,
}

impl EvaluatedProtocols {
    /// The entries in reporting order: ready, then blocked, then waiting.
    pub fn ordered_entries(&self) -> (r: Vec<&ProtocolEntry>)
        ensures
            r@.len() == self.ready@.len() + self.blocked@.len() + self.waiting@.len(),
            forall|i: int| 0 <= i < r@.len() ==> *#[trigger] r@[i] == (self.ready@ + self.blocked@ + self.waiting@)[i],
    {
        let ghost all = self.ready@ + self.blocked@ + self.waiting@;
        let mut r: Vec<&ProtocolEntry> = Vec::new();
        let mut i: usize = 0;
        while i < self.ready.len()
            invariant
                i <= self.ready@.len(),
                all == self.ready@ + self.blocked@ + self.waiting@,
                r@.len() == i,
                forall|k: int| 0 <= k < r@.len() ==> *#[trigger] r@[k] == all[k],
            decreases self.ready@.len() - i,
        {
            r.push(&self.ready[i]);
            i = i + 1;
        }
        let mut i: usize = 0;
        while i < self.blocked.len()
            invariant
                i <= self.blocked@.len(),
                all == self.ready@ + self.blocked@ + self.waiting@,
                r@.len() == self.ready@.len() + i,
                forall|k: int| 0 <= k < r@.len() ==> *#[trigger] r@[k] == all[k],
            decreases self.blocked@.len() - i,
        {
            r.push(&self.blocked[i]);
            i = i + 1;
        }
        let mut i: usize = 0;
        while i < self.waiting.len()
            invariant
                i <= self.waiting@.len(),
                all == self.ready@ + self.blocked@ + self.waiting@,
                r@.len() == self.ready@.len() + self.blocked@.len() + i,
                forall|k: int| 0 <= k < r@.len() ==> *#[trigger] r@[k] == all[k],
            decreases self.waiting@.len() - i,
        {
            r.push(&self.waiting[i]);
            i = i + 1;
        }
        r
    }
}

/// The condition a cycle imposes: its message.
pub open spec fn cycle_condition(cycle: Option<CycleError>) -> Option<Seq<char>> {
    match cycle {
        Some(c) => Some("dependency cycle detected: "@ + join(views(c.path@), " -> "@)),
        None => None,
    }
}

/// The protocol is on the cycle.
pub open spec fn in_cycle(cycle: Option<CycleError>, name: Seq<char>) -> bool {
    cycle is Some && views(cycle->0.path@).contains(name)
}

/// The names on an optional cycle.
pub open spec fn cycle_names(cycle: Option<CycleError>) -> Option<Seq<Seq<char>>> {
    match cycle {
        Some(c) => Some(views(c.path@)),
        None => None,
    }
}

/// The trigger state of a satisfied or unsatisfied trigger.
pub open spec fn trigger_state(satisfied: bool) -> TriggerState {
    if satisfied { TriggerState::Satisfied } else { TriggerState::NotSatisfied }
}

/// The types and reasons of failure entries.
pub open spec fn failure_views(s: Seq<FailureEntry>) -> Seq<(Seq<char>, Seq<char>)> {
    s.map_values(|e: FailureEntry| entry_view(e))
}

/// A blocked candidate's failures: each scan-incomplete type, then each
/// precondition failure not already listed with the same type and reason.
pub open spec fn blocked_failures(scan_incomplete: Seq<Seq<char>>, failures: Seq<ArtifactFailure>) -> Seq<(Seq<char>, Seq<char>)>
    decreases failures.len(),
{
    if failures.len() == 0 {
        scan_incomplete.map_values(|t: Seq<char>| (t, "scan_incomplete"@))
    } else {
        let prev = blocked_failures(scan_incomplete, failures.drop_last());
        let f = failure_view(failures.last());
        if prev.contains(f) { prev } else { prev.push(f) }
    }
}

/// A waiting candidate's conditions: its own, and the cycle's when it is on
/// the cycle and does not list it yet.
pub open spec fn waiting_conditions(unsatisfied: Seq<Seq<char>>, cond: Option<Seq<char>>, on_cycle: bool) -> Seq<Seq<char>> {
    match cond {
        Some(c) => if on_cycle && !unsatisfied.contains(c) { unsatisfied.push(c) } else { unsatisfied },
        None => unsatisfied,
    }
}

/// `e` is the entry of classified candidate `c` of protocol `p`: a ready
/// candidate on the cycle waits on the cycle; another ready one lists its
/// inputs; a blocked one lists its failures; a waiting one its conditions.
pub open spec fn entry_holds(p: ProtocolDeclaration, store: ArtifactStore, wd: Seq<char>, affected: Seq<Seq<char>>,
    cycle: Option<CycleError>, c: ClassifiedCandidate, e: ProtocolEntry) -> bool {
    let on_cycle = in_cycle(cycle, c.protocol_name@);
    &&& e.name@ == c.protocol_name@
    &&& opt_string_view(e.work_unit) == opt_string_view(c.work_unit)
    &&& e.trigger == trigger_state(c.trigger_satisfied)
    &&& match c.status {
        CandidateStatus::Ready => if on_cycle {
            &&& e.status == ProtocolStatus::Waiting
            &&& e.inputs@.len() == 0
            &&& e.precondition_failures@.len() == 0
            &&& views(e.unsatisfied_conditions@) == seq![cycle_condition(cycle)->0]
        } else {
            &&& e.status == ProtocolStatus::Ready
            &&& inputs_hold(p, store, wd, affected, opt_string_view(c.work_unit), e.inputs@)
            &&& e.precondition_failures@.len() == 0
            &&& e.unsatisfied_conditions@.len() == 0
        },
        CandidateStatus::Blocked { precondition_failures, scan_incomplete_types } => {
            &&& e.status == ProtocolStatus::Blocked
            &&& e.inputs@.len() == 0
            &&& e.unsatisfied_conditions@.len() == 0
            &&& failure_views(e.precondition_failures@) == blocked_failures(views(scan_incomplete_types@), precondition_failures@)
        },
        CandidateStatus::Waiting { unsatisfied_conditions } => {
            &&& e.status == ProtocolStatus::Waiting
            &&& e.inputs@.len() == 0
            &&& e.precondition_failures@.len() == 0
            &&& views(e.unsatisfied_conditions@) == waiting_conditions(views(unsatisfied_conditions@), cycle_condition(cycle), on_cycle)
        },
    }
}

/// The entries with the given status, in order.
pub open spec fn with_status(es: Seq<ProtocolEntry>, s: ProtocolStatus) -> Seq<ProtocolEntry>
    decreases es.len(),
{
    if es.len() == 0 {
        Seq::empty()
    } else {
        let prev = with_status(es.drop_last(), s);
        if es.last().status == s { prev.push(es.last()) } else { prev }
    }
}

/// Whether the failures list the type and reason.
fn has_failure(failures: &Vec<FailureEntry>, fe: &FailureEntry) -> (r: bool)
    ensures
        r == failure_views(failures@).contains(entry_view(*fe)),
{
    let mut i: usize = 0;
    while i < failures.len()
        invariant
            i <= failures@.len(),
            forall|k: int| 0 <= k < i ==> #[trigger] failure_views(failures@)[k] != entry_view(*fe),
        decreases failures@.len() - i,
    {
        if str_eq(failures[i].artifact_type.as_str(), fe.artifact_type.as_str()) && str_eq(failures[i].reason.as_str(), fe.reason.as_str()) {
            assert(failure_views(failures@)[i as int] == entry_view(*fe));
            return true;
        }
        i = i + 1;
    }
    false
}

/// The failures of a blocked candidate.
fn blocked_failure_entries(scan_incomplete_types: &Vec<String>, precondition_failures: &Vec<ArtifactFailure>) -> (r: Vec<FailureEntry>)
    ensures
        failure_views(r@) == blocked_failures(views(scan_incomplete_types@), precondition_failures@),
{
    let ghost sit = views(scan_incomplete_types@);
    let mut out: Vec<FailureEntry> = Vec::new();
    proof {
        reveal_strlit("scan_incomplete");
    }
    let mut i: usize = 0;
    while i < scan_incomplete_types.len()
        invariant
            i <= scan_incomplete_types@.len(),
            sit == views(scan_incomplete_types@),
            failure_views(out@) == sit.take(i as int).map_values(|t: Seq<char>| (t, "scan_incomplete"@)),
        decreases scan_incomplete_types@.len() - i,
    {
        let ghost before = out@;
        out.push(FailureEntry { artifact_type: scan_incomplete_types[i].clone(), reason: owned("scan_incomplete") });
        proof {
            assert(failure_views(out@) =~= failure_views(before).push((sit[i as int], "scan_incomplete"@)));
            assert(sit.take(i + 1) =~= sit.take(i as int).push(sit[i as int]));
            assert(sit.take(i + 1).map_values(|t: Seq<char>| (t, "scan_incomplete"@))
                =~= sit.take(i as int).map_values(|t: Seq<char>| (t, "scan_incomplete"@)).push((sit[i as int], "scan_incomplete"@)));
        }
        i = i + 1;
    }
    proof {
        assert(sit.take(i as int) =~= sit);
    }
    let ghost pf = precondition_failures@;
    let mut j: usize = 0;
    proof {
        assert(pf.take(0) =~= Seq::<ArtifactFailure>::empty());
    }
    while j < precondition_failures.len()
        invariant
            j <= pf.len(),
            pf == precondition_failures@,
            failure_views(out@) == blocked_failures(sit, pf.take(j as int)),
        decreases pf.len() - j,
    {
        let fe = failure_entry(&precondition_failures[j]);
        proof {
            assert(pf.take(j + 1).drop_last() =~= pf.take(j as int));
            assert(pf.take(j + 1).last() == pf[j as int]);
        }
        if !has_failure(&out, &fe) {
            let ghost before = out@;
            out.push(fe);
            proof {
                assert(failure_views(out@) =~= failure_views(before).push(entry_view(fe)));
            }
        }
        j = j + 1;
    }
    proof {
        assert(pf.take(j as int) =~= pf);
    }
    out
}

/// A slot's protocol is the first of its name.
proof fn lemma_slots_first(ps: Seq<ProtocolDeclaration>, order: Seq<Seq<char>>, scope: EvaluationScope, k: int)
    requires
        0 <= k < slots(ps, order, scope).len(),
    ensures
        0 <= slots(ps, order, scope)[k].0 < ps.len(),
        lookup(ps, ps[slots(ps, order, scope)[k].0].name@) == Some(slots(ps, order, scope)[k].0),
    decreases order.len(),
{
    let prev = slots(ps, order.drop_last(), scope);
    if k < prev.len() {
        lemma_slots_first(ps, order.drop_last(), scope, k);
    } else {
        let name = order.last();
        let i = choose|i: int| #[trigger] first_named(ps, name, i);
        assert(first_named(ps, ps[i].name@, i));
        let c = choose|c: int| #[trigger] first_named(ps, ps[i].name@, c);
        if c < i {
            assert(ps[c].name@ != name);
        } else if c > i {
            assert(ps[i].name@ != ps[i].name@);
        }
    }
}

/// What an evaluation in the given topology yields: every protocol
/// candidate of the scope, in the topology's status order, classified as
/// `classify_candidates` does (the affected types of the scan findings being
/// the partially scanned ones), its entry as `entry_holds` states (the
/// topology's cycle deciding which candidates wait on it), and the entries
/// sorted into ready, blocked and waiting ones.
pub open spec fn evaluation_holds(ps: Seq<ProtocolDeclaration>, store: ArtifactStore, working_dir: Seq<char>,
    scan_findings: ScanFindings, scope: EvaluationScope, topology: EvaluationTopology, r: EvaluatedProtocols) -> bool {
    &&& cycle_names(r.cycle) == cycle_names(topology.cycle)
    &&& cycle_condition(r.cycle) == cycle_condition(topology.cycle)
    &&& ({
        let sl = slots(ps, views(topology.status_order@), scope);
        let affected = views(scan_findings.affected_types@);
        exists|cs: Seq<ClassifiedCandidate>, es: Seq<ProtocolEntry>| {
            &&& cs.len() == sl.len()
            &&& es.len() == sl.len()
            &&& forall|k: int| 0 <= k < sl.len() ==> classification_holds(ps[sl[k].0], store, sl[k].1, affected, #[trigger] cs[k])
            &&& forall|k: int| 0 <= k < sl.len() ==> entry_holds(ps[sl[k].0], store, working_dir, affected, topology.cycle,
                cs[k], #[trigger] es[k])
            &&& r.ready@ == with_status(es, ProtocolStatus::Ready)
            &&& r.blocked@ == with_status(es, ProtocolStatus::Blocked)
            &&& r.waiting@ == with_status(es, ProtocolStatus::Waiting)
        }
    })
}

/// Evaluate every protocol candidate of the scope: resolve the topology of
/// the dependency graph for the scope, then evaluate in it.
pub fn evaluate_protocols(protocols: &[ProtocolDeclaration], graph: &DependencyGraph, store: &ArtifactStore, working_dir: &str,
    scan_findings: &ScanFindings, scope: EvaluationScope) -> (r: EvaluatedProtocols)
    ensures
        topology_resolved(protocols@, *graph, scope, r.topology),
        evaluation_holds(protocols@, *store, working_dir@, *scan_findings, scope, r.topology, r),
{
    let topology = resolve_evaluation_topology(protocols, graph, scope);
    evaluate_protocols_with_topology(protocols, store, working_dir, scan_findings, scope, topology)
}

/// Evaluate every protocol candidate of the scope in a given topology, and
/// sort the entries into ready, blocked and waiting ones.
pub fn evaluate_protocols_with_topology(protocols: &[ProtocolDeclaration], store: &ArtifactStore, working_dir: &str,
    scan_findings: &ScanFindings, scope: EvaluationScope, topology: EvaluationTopology) -> (r: EvaluatedProtocols)
    ensures
        r.topology == topology,
        evaluation_holds(protocols@, *store, working_dir@, *scan_findings, scope, topology, r),
{
    let ghost ps = protocols@;
    let ghost sl = slots(ps, views(topology.status_order@), scope);
    let ghost affected = views(scan_findings.affected_types@);
    let mut order: Vec<&str> = Vec::new();
    let mut i: usize = 0;
    while i < topology.status_order.len()
        invariant
            i <= topology.status_order@.len(),
            str_views(order@) == views(topology.status_order@).take(i as int),
        decreases topology.status_order@.len() - i,
    {
        let ghost before = str_views(order@);
        order.push(topology.status_order[i].as_str());
        proof {
            let vs = views(topology.status_order@);
            assert(vs[i as int] == topology.status_order@[i as int]@);
            assert(str_views(order@) =~= before.push(vs[i as int]));
            assert(vs.take(i + 1) =~= vs.take(i as int).push(vs[i as int]));
        }
        i = i + 1;
    }
    proof {
        assert(views(topology.status_order@).take(i as int) =~= views(topology.status_order@));
    }
    let classified = classify_candidates(protocols, store, order.as_slice(), &scan_findings.affected_types, scope);
    let cycle: Option<CycleError> = match &topology.cycle {
        Some(c) => Some(CycleError { path: clone_strings(&c.path) }),
        None => None,
    };
    let cond: Option<String> = match &topology.cycle {
        Some(c) => Some(c.to_display_string()),
        None => None,
    };
    let ghost tc = topology.cycle;
    let mut ready: Vec<ProtocolEntry> = Vec::new();
    let mut blocked: Vec<ProtocolEntry> = Vec::new();
    let mut waiting: Vec<ProtocolEntry> = Vec::new();
    let ghost mut es: Seq<ProtocolEntry> = Seq::empty();
    proof {
        reveal_strlit("dependency cycle detected: ");
        reveal_strlit(" -> ");
    }
    let mut k: usize = 0;
    while k < classified.len()
        invariant
            k <= classified@.len(),
            classified@.len() == sl.len(),
            ps == protocols@,
            sl == slots(ps, views(topology.status_order@), scope),
            affected == views(scan_findings.affected_types@),
            tc == topology.cycle,
            cycle_names(cycle) == cycle_names(tc),
            match cond { Some(c) => cycle_condition(tc) == Some(c@), None => cycle_condition(tc) is None },
            forall|m: int| 0 <= m < sl.len() ==> classification_holds(ps[sl[m].0], *store, sl[m].1, affected, #[trigger] classified@[m]),
            es.len() == k,
            forall|m: int| 0 <= m < k ==> entry_holds(ps[sl[m].0], *store, working_dir@, affected, tc, classified@[m], #[trigger] es[m]),
            ready@ == with_status(es, ProtocolStatus::Ready),
            blocked@ == with_status(es, ProtocolStatus::Blocked),
            waiting@ == with_status(es, ProtocolStatus::Waiting),
        decreases classified@.len() - k,
    {
        let c = &classified[k];
        proof {
            lemma_slots_first(ps, views(topology.status_order@), scope, k as int);
        }
        let pi = match find_protocol(protocols, c.protocol_name.as_str()) {
            Some(pi) => pi,
            None => {
                proof {
                    assert(false);
                }
                k = k + 1;
                continue;
            },
        };
        let protocol = &protocols[pi];
        let trigger = if c.trigger_satisfied { TriggerState::Satisfied } else { TriggerState::NotSatisfied };
        let on_cycle = match &topology.cycle {
            Some(cy) => crate::text::contains_str(&cy.path, c.protocol_name.as_str()),
            None => false,
        };
        let work_unit = match &c.work_unit {
            Some(w) => Some(w.clone()),
            None => None,
        };
        let entry = match &c.status {
            CandidateStatus::Ready => {
                if on_cycle {
                    let mut conds: Vec<String> = Vec::new();
                    match &cond {
                        Some(text) => conds.push(text.clone()),
                        None => {},
                    }
                    proof {
                        assert(views(conds@) =~= seq![cycle_condition(tc)->0]);
                    }
                    ProtocolEntry {
                        name: c.protocol_name.clone(),
                        work_unit,
                        status: ProtocolStatus::Waiting,
                        trigger,
                        inputs: Vec::new(),
                        precondition_failures: Vec::new(),
                        unsatisfied_conditions: conds,
                    }
                } else {
                    let wu: Option<&str> = match &c.work_unit {
                        Some(w) => Some(w.as_str()),
                        None => None,
                    };
                    ProtocolEntry {
                        name: c.protocol_name.clone(),
                        work_unit,
                        status: ProtocolStatus::Ready,
                        trigger,
                        inputs: collect_inputs(protocol, store, working_dir, &scan_findings.affected_types, wu),
                        precondition_failures: Vec::new(),
                        unsatisfied_conditions: Vec::new(),
                    }
                }
            },
            CandidateStatus::Blocked { precondition_failures, scan_incomplete_types } => {
                ProtocolEntry {
                    name: c.protocol_name.clone(),
                    work_unit,
                    status: ProtocolStatus::Blocked,
                    trigger,
                    inputs: Vec::new(),
                    precondition_failures: blocked_failure_entries(scan_incomplete_types, precondition_failures),
                    unsatisfied_conditions: Vec::new(),
                }
            },
            CandidateStatus::Waiting { unsatisfied_conditions } => {
                let mut conds = clone_strings(unsatisfied_conditions);
                match &cond {
                    Some(text) => {
                        if on_cycle && !crate::text::contains_str(&conds, text.as_str()) {
                            let ghost before = views(conds@);
                            conds.push(text.clone());
                            proof {
                                assert(views(conds@) =~= before.push(text@));
                            }
                        }
                    },
                    None => {},
                }
                ProtocolEntry {
                    name: c.protocol_name.clone(),
                    work_unit,
                    status: ProtocolStatus::Waiting,
                    trigger,
                    inputs: Vec::new(),
                    precondition_failures: Vec::new(),
                    unsatisfied_conditions: conds,
                }
            },
        };
        proof {
            assert(entry_holds(ps[sl[k as int].0], *store, working_dir@, affected, tc, classified@[k as int], entry));
        }
        let ghost ne = es.push(entry);
        proof {
            assert(ne.drop_last() =~= es);
            assert(ne.last() == entry);
        }
        match entry.status {
            ProtocolStatus::Ready => ready.push(entry),
            ProtocolStatus::Blocked => blocked.push(entry),
            ProtocolStatus::Waiting => waiting.push(entry),
        }
        proof {
            assert forall|m: int| 0 <= m < k + 1 implies entry_holds(ps[sl[m].0], *store, working_dir@, affected, tc,
                classified@[m], #[trigger] ne[m]) by {
                if m < k {
                    assert(ne[m] == es[m]);
                }
            }
            es = ne;
        }
        k = k + 1;
    }
    proof {
        assert(classified@.len() == sl.len());
    }
    EvaluatedProtocols { topology, cycle, ready, blocked, waiting }
}


/// An input as reported in the state document.
#[derive(Debug, Clone, PartialEq)]
pub struct InputJson {
    pub artifact_type: String,
    pub instance_id: String,
    pub path: String,
    pub relationship: String,
}

/// A failure as reported in the state document.
#[derive(Debug, Clone, PartialEq)]
pub struct FailureJson {
    pub artifact_type: String,
    pub reason: String,
}

/// A candidate as reported in the state document: empty lists are left out.
#[derive(Debug, Clone, PartialEq)]
pub struct ProtocolJson {
    pub name: String,
    pub work_unit: Option<String>,
    pub status: ProtocolStatus,
    pub trigger: TriggerState,
    pub inputs: Option<Vec<InputJson>>,
    pub precondition_failures: Option<Vec<FailureJson>>,
    pub unsatisfied_conditions: Option<Vec<String>>,
}

/// The state document: its version, the methodology, the scan warnings and
/// every candidate.
#[derive(Debug, Clone, PartialEq)]
pub struct StateJson<'a> {
    pub version: u32,
    pub methodology: &'a str,
    pub scan_warnings: Vec<String>,
    pub protocols: Vec<ProtocolJson>,
}

/// The fields of an input entry.
pub open spec fn input_view(e: InputEntry) -> (Seq<char>, Seq<char>, Seq<char>, Seq<char>) {
    (e.artifact_type@, e.instance_id@, e.path@, e.relationship@)
}

/// The fields of a reported input.
pub open spec fn input_json_view(e: InputJson) -> (Seq<char>, Seq<char>, Seq<char>, Seq<char>) {
    (e.artifact_type@, e.instance_id@, e.path@, e.relationship@)
}

/// The fields of a reported failure.
pub open spec fn failure_json_view(e: FailureJson) -> (Seq<char>, Seq<char>) {
    (e.artifact_type@, e.reason@)
}

/// `j` reports entry `e`: the same fields, each empty list left out.
pub open spec fn reports(e: ProtocolEntry, j: ProtocolJson) -> bool {
    &&& j.name@ == e.name@
    &&& opt_string_view(j.work_unit) == opt_string_view(e.work_unit)
    &&& j.status == e.status
    &&& j.trigger == e.trigger
    &&& match j.inputs {
        None => e.inputs@.len() == 0,
        Some(v) => e.inputs@.len() > 0 && v@.map_values(|x: InputJson| input_json_view(x))
            == e.inputs@.map_values(|x: InputEntry| input_view(x)),
    }
    &&& match j.precondition_failures {
        None => e.precondition_failures@.len() == 0,
        Some(v) => e.precondition_failures@.len() > 0 && v@.map_values(|x: FailureJson| failure_json_view(x))
            == failure_views(e.precondition_failures@),
    }
    &&& match j.unsatisfied_conditions {
        None => e.unsatisfied_conditions@.len() == 0,
        Some(v) => e.unsatisfied_conditions@.len() > 0 && views(v@) == views(e.unsatisfied_conditions@),
    }
}

/// The report of one entry.
pub fn protocol_json(entry: &ProtocolEntry) -> (r: ProtocolJson)
    ensures
        reports(*entry, r),
{
    let inputs = if entry.inputs.len() == 0 {
        None
    } else {
        let mut v: Vec<InputJson> = Vec::new();
        let mut i: usize = 0;
        while i < entry.inputs.len()
            invariant
                i <= entry.inputs@.len(),
                v@.map_values(|x: InputJson| input_json_view(x)) == entry.inputs@.take(i as int).map_values(|x: InputEntry| input_view(x)),
            decreases entry.inputs@.len() - i,
        {
            let e = &entry.inputs[i];
            let ghost before = v@;
            v.push(InputJson {
                artifact_type: e.artifact_type.clone(),
                instance_id: e.instance_id.clone(),
                path: e.path.clone(),
                relationship: e.relationship.clone(),
            });
            proof {
                assert(v@.map_values(|x: InputJson| input_json_view(x))
                    =~= before.map_values(|x: InputJson| input_json_view(x)).push(input_view(*e)));
                assert(entry.inputs@.take(i + 1) =~= entry.inputs@.take(i as int).push(*e));
                assert(entry.inputs@.take(i + 1).map_values(|x: InputEntry| input_view(x))
                    =~= entry.inputs@.take(i as int).map_values(|x: InputEntry| input_view(x)).push(input_view(*e)));
            }
            i = i + 1;
        }
        proof {
            assert(entry.inputs@.take(i as int) =~= entry.inputs@);
        }
        Some(v)
    };
    let failures = if entry.precondition_failures.len() == 0 {
        None
    } else {
        let mut v: Vec<FailureJson> = Vec::new();
        let mut i: usize = 0;
        while i < entry.precondition_failures.len()
            invariant
                i <= entry.precondition_failures@.len(),
                v@.map_values(|x: FailureJson| failure_json_view(x)) == failure_views(entry.precondition_failures@.take(i as int)),
            decreases entry.precondition_failures@.len() - i,
        {
            let e = &entry.precondition_failures[i];
            let ghost before = v@;
            v.push(FailureJson { artifact_type: e.artifact_type.clone(), reason: e.reason.clone() });
            proof {
                assert(v@.map_values(|x: FailureJson| failure_json_view(x))
                    =~= before.map_values(|x: FailureJson| failure_json_view(x)).push(entry_view(*e)));
                assert(entry.precondition_failures@.take(i + 1) =~= entry.precondition_failures@.take(i as int).push(*e));
                assert(failure_views(entry.precondition_failures@.take(i + 1))
                    =~= failure_views(entry.precondition_failures@.take(i as int)).push(entry_view(*e)));
            }
            i = i + 1;
        }
        proof {
            assert(entry.precondition_failures@.take(i as int) =~= entry.precondition_failures@);
        }
        Some(v)
    };
    let conditions = if entry.unsatisfied_conditions.len() == 0 {
        None
    } else {
        Some(clone_strings(&entry.unsatisfied_conditions))
    };
    let work_unit = match &entry.work_unit {
        Some(w) => Some(w.clone()),
        None => None,
    };
    ProtocolJson {
        name: entry.name.clone(),
        work_unit,
        status: entry.status,
        trigger: entry.trigger,
        inputs,
        precondition_failures: failures,
        unsatisfied_conditions: conditions,
    }
}

impl EvaluatedProtocols {
    /// The reports of the entries, in reporting order.
    pub fn json_protocols(&self) -> (r: Vec<ProtocolJson>)
        ensures
            r@.len() == self.ready@.len() + self.blocked@.len() + self.waiting@.len(),
            forall|i: int| 0 <= i < r@.len() ==> reports((self.ready@ + self.blocked@ + self.waiting@)[i], #[trigger] r@[i]),
    {
        let entries = self.ordered_entries();
        let mut out: Vec<ProtocolJson> = Vec::new();
        let mut i: usize = 0;
        while i < entries.len()
            invariant
                i <= entries@.len(),
                entries@.len() == self.ready@.len() + self.blocked@.len() + self.waiting@.len(),
                forall|k: int| 0 <= k < entries@.len() ==> *#[trigger] entries@[k] == (self.ready@ + self.blocked@ + self.waiting@)[k],
                out@.len() == i,
                forall|k: int| 0 <= k < i ==> reports((self.ready@ + self.blocked@ + self.waiting@)[k], #[trigger] out@[k]),
            decreases entries@.len() - i,
        {
            out.push(protocol_json(entries[i]));
            i = i + 1;
        }
        out
    }
}

/// A ready entry is never one on the cycle, and it lists exactly the inputs
/// its protocol would read; an entry on the cycle that was ready waits on
/// the cycle alone.
pub proof fn law_ready_entry_off_cycle(p: ProtocolDeclaration, store: ArtifactStore, wd: Seq<char>, affected: Seq<Seq<char>>,
    cycle: Option<CycleError>, c: ClassifiedCandidate, e: ProtocolEntry)
    requires
        entry_holds(p, store, wd, affected, cycle, c, e),
    ensures
        e.status == ProtocolStatus::Ready ==> !in_cycle(cycle, e.name@) && c.status is Ready
            && inputs_hold(p, store, wd, affected, opt_string_view(c.work_unit), e.inputs@),
        c.status is Ready && in_cycle(cycle, e.name@) ==> e.status == ProtocolStatus::Waiting
            && views(e.unsatisfied_conditions@) == seq![cycle_condition(cycle)->0],
{
}

/// Every evaluated entry is reported in exactly one of the three lists.
pub proof fn law_entries_partitioned(es: Seq<ProtocolEntry>)
    ensures
        with_status(es, ProtocolStatus::Ready).len() + with_status(es, ProtocolStatus::Blocked).len()
            + with_status(es, ProtocolStatus::Waiting).len() == es.len(),
    decreases es.len(),
{
    if es.len() > 0 {
        law_entries_partitioned(es.drop_last());
    }
}

} // verus!
