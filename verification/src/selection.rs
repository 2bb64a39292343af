//! Scope-driven protocol readiness evaluation and candidate classification.
//!
//! Protocols are evaluated in topological order to find which
//! `(protocol, work_unit)` pairs are ready to run, blocked on preconditions
//! or an incomplete scan, or waiting on their trigger.
use vstd::prelude::*;

use crate::enforcement::{ArtifactFailure, enforce_preconditions, failures_for, present, Relationship};
use crate::graph::{CycleError, DependencyGraph};
use crate::model::{ProtocolDeclaration, TriggerCondition, display_condition};
use crate::scan::{ArtifactRef, InvalidArtifact, MalformedArtifact, ScanResult};
use crate::store::{ArtifactStore, opt_str};
use crate::text::{clone_strings, contains_str, lemma_sorted_unique, owned, sorted_strings, str_eq, strictly_sorted, views};
use crate::trigger::{TriggerContext, TriggerResult, completion_ts, derived_completion_timestamp, evaluate as evaluate_trigger, latest,
    latest_of, outcome};

verus! {

/// Which protocols an evaluation covers: the unscoped ones, or the scoped
/// ones for one work unit.
#[derive(Debug, Clone, Copy, PartialEq, Eq)]
pub enum EvaluationScope<'a> {
    Unscoped,
    Scoped(&'a str),
}

/// The orders in which protocols are reported and executed.
#[derive(Debug, Clone, PartialEq)]
pub struct EvaluationTopology {
    pub status_order: Vec<String>,
    pub execution_order: Vec<String>,
    pub cycle: Option<CycleError>,
}

/// A `(protocol, work_unit)` pair that is ready for execution.
#[derive(Debug, Clone, PartialEq)]
pub struct Candidate {
    pub protocol_name: String,
    pub work_unit: Option<String>,
}

/// Classification of a `(protocol, work_unit)` candidate.
#[derive(Debug, Clone, PartialEq)]
pub enum CandidateStatus {
    /// Trigger satisfied, preconditions pass, outputs not current.
    Ready,
    /// Trigger satisfied but preconditions fail, or the scan is incomplete.
    Blocked {
        precondition_failures: Vec<ArtifactFailure>,
        scan_incomplete_types: Vec<String>,
    },
    /// Trigger not satisfied, or outputs are already current.
    Waiting { unsatisfied_conditions: Vec<String> },
}

/// A `(protocol, work_unit)` pair with its classification and scan trust.
#[derive(Debug, Clone, PartialEq)]
pub struct ClassifiedCandidate {
    pub protocol_name: String,
    pub work_unit: Option<String>,
    pub status: CandidateStatus,
    pub trigger_satisfied: bool,
    pub scan_trust: ScanTrust,
}

/// Whether a candidate's trigger evaluation can be trusted, and which
/// partially scanned types make it untrustworthy.
#[derive(Debug, Clone, PartialEq)]
pub struct ScanTrust {
    pub trusted: bool,
    pub incomplete_types: Vec<String>,
}

/// How an input type's modification times count toward freshness.
#[derive(Debug, Clone, Copy, PartialEq, Eq)]
pub enum FreshnessInputMode {
    /// Every recorded instance counts, whatever its validation status.
    AnyRecorded,
}

// ---------------------------------------------------------------------------
// The artifact types a protocol reads.
// ---------------------------------------------------------------------------

/// The condition names artifact type `t`.
pub open spec fn mentions(c: TriggerCondition, t: Seq<char>) -> bool
    decreases c,
{
    match c {
        TriggerCondition::OnArtifact { name } => name@ == t,
        TriggerCondition::OnChange { name } => name@ == t,
        TriggerCondition::OnInvalid { name } => name@ == t,
        TriggerCondition::AllOf { conditions } => mentions_any(conditions@, t),
        TriggerCondition::AnyOf { conditions } => mentions_any(conditions@, t),
    }
}

/// Some condition of the list names artifact type `t`.
pub open spec fn mentions_any(cs: Seq<TriggerCondition>, t: Seq<char>) -> bool
    decreases cs,
{
    if cs.len() == 0 {
        false
    } else {
        mentions(cs[0], t) || mentions_any(cs.drop_first(), t)
    }
}

/// Some of the first `n` conditions of the list names artifact type `t`.
pub open spec fn mentions_within(cs: Seq<TriggerCondition>, n: int, t: Seq<char>) -> bool {
    exists|i: int| 0 <= i < n && #[trigger] mentions(cs[i], t)
}

proof fn lemma_mentions_within_step(cs: Seq<TriggerCondition>, n: int, t: Seq<char>)
    requires
        0 <= n,
    ensures
        mentions_within(cs, n + 1, t) <==> (mentions_within(cs, n, t) || mentions(cs[n], t)),
{
    if mentions_within(cs, n + 1, t) {
        let i = choose|i: int| 0 <= i < n + 1 && #[trigger] mentions(cs[i], t);
        if i < n {
            assert(mentions_within(cs, n, t));
        }
    }
    if mentions(cs[n], t) {
        assert(mentions_within(cs, n + 1, t));
    }
}

proof fn lemma_mentions_any(cs: Seq<TriggerCondition>, t: Seq<char>)
    ensures
        mentions_any(cs, t) <==> mentions_within(cs, cs.len() as int, t),
    decreases cs.len(),
{
    if cs.len() > 0 {
        let rest = cs.drop_first();
        lemma_mentions_any(rest, t);
        assert(mentions_any(cs, t) == (mentions(cs[0], t) || mentions_any(rest, t)));
        if mentions_within(rest, rest.len() as int, t) {
            let i = choose|i: int| 0 <= i < rest.len() && #[trigger] mentions(rest[i], t);
            assert(cs[i + 1] == rest[i]);
            assert(mentions(cs[i + 1], t));
        }
        if mentions(cs[0], t) {
            assert(mentions_within(cs, cs.len() as int, t));
        }
        if mentions_within(cs, cs.len() as int, t) {
            let i = choose|i: int| 0 <= i < cs.len() && #[trigger] mentions(cs[i], t);
            if i > 0 {
                assert(cs[i] == rest[i - 1]);
                assert(mentions(rest[i - 1], t));
            }
        }
    }
}

/// A type is an input of the protocol: its trigger names it or the protocol
/// requires it.
pub open spec fn relevant(p: ProtocolDeclaration, t: Seq<char>) -> bool {
    mentions(p.trigger, t) || views(p.requires@).contains(t)
}

/// Adds `name` to `out` unless it is already there.
fn push_unique(out: &mut Vec<String>, name: &str)
    ensures
        views(old(out)@).no_duplicates() ==> views(final(out)@).no_duplicates(),
        forall|t: Seq<char>| views(final(out)@).contains(t) <==> (views(old(out)@).contains(t) || t == name@),
        views(old(out)@).contains(name@) ==> views(final(out)@) == views(old(out)@),
        !views(old(out)@).contains(name@) ==> views(final(out)@) == views(old(out)@).push(name@),
{
    if !contains_str(out, name) {
        let ghost before = views(out@);
        let s = owned(name);
        out.push(s);
        proof {
            assert(views(out@) =~= before.push(name@));
            assert forall|t: Seq<char>| views(out@).contains(t) <==> (before.contains(t) || t == name@) by {
                if t == name@ {
                    assert(views(out@)[before.len() as int] == t);
                }
                if before.contains(t) {
                    let k = choose|k: int| 0 <= k < before.len() && before[k] == t;
                    assert(views(out@)[k] == t);
                }
                if views(out@).contains(t) && t != name@ {
                    let k = choose|k: int| 0 <= k < views(out@).len() && views(out@)[k] == t;
                    assert(before[k] == t);
                }
            }
        }
    }
}

/// Collects the artifact type names of a trigger condition tree, those of
/// `OnArtifact`, `OnChange` and `OnInvalid`, into `out`, each once.
pub fn trigger_artifact_types(condition: &TriggerCondition, out: &mut Vec<String>)
    ensures
        views(old(out)@).no_duplicates() ==> views(final(out)@).no_duplicates(),
        forall|t: Seq<char>| views(final(out)@).contains(t) <==> (views(old(out)@).contains(t) || mentions(*condition, t)),
    decreases condition,
{
    match condition {
        TriggerCondition::OnArtifact { name } => {
            push_unique(out, name.as_str());
            assert forall|t: Seq<char>| #[trigger] views(out@).contains(t) <==> (views(old(out)@).contains(t) || mentions(*condition, t)) by {
                assert(mentions(*condition, t) <==> t == name@);
            }
        },
        TriggerCondition::OnChange { name } => {
            push_unique(out, name.as_str());
            assert forall|t: Seq<char>| #[trigger] views(out@).contains(t) <==> (views(old(out)@).contains(t) || mentions(*condition, t)) by {
                assert(mentions(*condition, t) <==> t == name@);
            }
        },
        TriggerCondition::OnInvalid { name } => {
            push_unique(out, name.as_str());
            assert forall|t: Seq<char>| #[trigger] views(out@).contains(t) <==> (views(old(out)@).contains(t) || mentions(*condition, t)) by {
                assert(mentions(*condition, t) <==> t == name@);
            }
        },
        TriggerCondition::AllOf { conditions } => {
            collect_list_types(conditions, out);
            assert forall|t: Seq<char>| #[trigger] views(out@).contains(t) <==> (views(old(out)@).contains(t) || mentions(*condition, t)) by {
                assert(mentions(*condition, t) <==> mentions_any(conditions@, t));
            }
        },
        TriggerCondition::AnyOf { conditions } => {
            collect_list_types(conditions, out);
            assert forall|t: Seq<char>| #[trigger] views(out@).contains(t) <==> (views(old(out)@).contains(t) || mentions(*condition, t)) by {
                assert(mentions(*condition, t) <==> mentions_any(conditions@, t));
            }
        },
    }
}

fn collect_list_types(conditions: &Vec<TriggerCondition>, out: &mut Vec<String>)
    ensures
        views(old(out)@).no_duplicates() ==> views(final(out)@).no_duplicates(),
        forall|t: Seq<char>| views(final(out)@).contains(t) <==> (views(old(out)@).contains(t) || mentions_any(conditions@, t)),
    decreases conditions,
{
    let ghost start = views(out@);
    let mut i: usize = 0;
    while i < conditions.len()
        invariant
            i <= conditions.len(),
            start == views(old(out)@),
            start.no_duplicates() ==> views(out@).no_duplicates(),
            forall|t: Seq<char>| #[trigger] views(out@).contains(t) <==> (start.contains(t) || mentions_within(conditions@, i as int, t)),
        decreases conditions.len() - i,
    {
        proof {
            assert(decreases_to!(conditions => conditions@));
            assert(decreases_to!(conditions@ => conditions@[i as int]));
        }
        let ghost before = views(out@);
        trigger_artifact_types(&conditions[i], out);
        proof {
            assert forall|t: Seq<char>| #[trigger] views(out@).contains(t) <==> (start.contains(t) || mentions_within(conditions@, i + 1, t)) by {
                lemma_mentions_within_step(conditions@, i as int, t);
                assert(before.contains(t) <==> (start.contains(t) || mentions_within(conditions@, i as int, t)));
            }
        }
        i = i + 1;
    }
    proof {
        assert forall|t: Seq<char>| #[trigger] views(out@).contains(t) <==> (start.contains(t) || mentions_any(conditions@, t)) by {
            lemma_mentions_any(conditions@, t);
        }
    }
}


/// The artifact types whose changes bear on the protocol's freshness: those
/// its trigger names and those it requires, each once.
pub fn protocol_relevant_input_types(protocol: &ProtocolDeclaration) -> (r: Vec<String>)
    ensures
        views(r@).no_duplicates(),
        forall|t: Seq<char>| views(r@).contains(t) <==> relevant(*protocol, t),
{
    let mut out: Vec<String> = Vec::new();
    proof {
        assert(views(out@) =~= Seq::<Seq<char>>::empty());
    }
    trigger_artifact_types(&protocol.trigger, &mut out);
    let mut i: usize = 0;
    while i < protocol.requires.len()
        invariant
            i <= protocol.requires@.len(),
            views(out@).no_duplicates(),
            forall|t: Seq<char>| #[trigger] views(out@).contains(t) <==> (mentions(protocol.trigger, t)
                || views(protocol.requires@.take(i as int)).contains(t)),
        decreases protocol.requires@.len() - i,
    {
        let ghost before = views(out@);
        push_unique(&mut out, protocol.requires[i].as_str());
        proof {
            let pre = views(protocol.requires@.take(i as int));
            let cur = views(protocol.requires@.take(i + 1));
            assert(cur =~= pre.push(protocol.requires@[i as int]@));
            assert forall|t: Seq<char>| #[trigger] views(out@).contains(t) <==> (mentions(protocol.trigger, t) || cur.contains(t)) by {
                if cur.contains(t) && t != protocol.requires@[i as int]@ {
                    let k = choose|k: int| 0 <= k < cur.len() && cur[k] == t;
                    assert(pre[k] == t);
                }
                if pre.contains(t) {
                    let k = choose|k: int| 0 <= k < pre.len() && pre[k] == t;
                    assert(cur[k] == t);
                }
                if t == protocol.requires@[i as int]@ {
                    assert(cur[i as int] == t);
                }
            }
        }
        i = i + 1;
    }
    proof {
        assert(protocol.requires@.take(protocol.requires@.len() as int) =~= protocol.requires@);
    }
    out
}

/// The type names of a list of freshness inputs.
pub open spec fn input_names(r: Seq<(String, FreshnessInputMode)>) -> Seq<Seq<char>> {
    r.map_values(|e: (String, FreshnessInputMode)| e.0@)
}

/// The freshness inputs of a protocol: each input type once, with how its
/// modification times count.
pub fn protocol_freshness_inputs(protocol: &ProtocolDeclaration) -> (r: Vec<(String, FreshnessInputMode)>)
    ensures
        input_names(r@).no_duplicates(),
        forall|t: Seq<char>| input_names(r@).contains(t) <==> relevant(*protocol, t),
        forall|k: int| 0 <= k < r@.len() ==> (#[trigger] r@[k]).1 == FreshnessInputMode::AnyRecorded,
{
    let types = protocol_relevant_input_types(protocol);
    let mut r: Vec<(String, FreshnessInputMode)> = Vec::new();
    let mut i: usize = 0;
    while i < types.len()
        invariant
            i <= types@.len(),
            input_names(r@) == views(types@).take(i as int),
            forall|k: int| 0 <= k < r@.len() ==> (#[trigger] r@[k]).1 == FreshnessInputMode::AnyRecorded,
        decreases types@.len() - i,
    {
        let ghost before = r@;
        let item = (types[i].clone(), FreshnessInputMode::AnyRecorded);
        r.push(item);
        proof {
            assert(r@ == before.push(item));
            assert(item.0@ == views(types@)[i as int]);
            assert(input_names(r@) =~= input_names(before).push(item.0@));
            assert(views(types@).take(i + 1) =~= views(types@).take(i as int).push(item.0@));
        }
        i = i + 1;
    }
    proof {
        assert(views(types@).take(types@.len() as int) =~= views(types@));
    }
    r
}

/// The work unit of a change is compatible with the candidate's: an
/// unscoped candidate sees every change, a scoped one its own and unscoped
/// changes.
pub open spec fn work_unit_compatible(change: Option<Seq<char>>, candidate: Option<Seq<char>>) -> bool {
    match candidate {
        None => true,
        Some(k) => match change {
            None => true,
            Some(c) => c == k,
        },
    }
}

fn scan_change_affects_candidate(artifact_type: &str, change_work_unit: Option<&str>, candidate_work_unit: Option<&str>, relevant_types: &Vec<String>) -> (r: bool)
    ensures
        r == (views(relevant_types@).contains(artifact_type@) && work_unit_compatible(opt_str(change_work_unit), opt_str(candidate_work_unit))),
{
    contains_str(relevant_types, artifact_type) && match candidate_work_unit {
        None => true,
        Some(candidate) => match change_work_unit {
            None => true,
            Some(change) => str_eq(change, candidate),
        },
    }
}

/// The view of an optional owned string.
pub open spec fn opt_string(s: Option<String>) -> Option<Seq<char>> {
    match s {
        Some(v) => Some(v@),
        None => None,
    }
}

/// A change of type `t` in work unit `change` bears on the protocol's
/// candidate for `wu`.
pub open spec fn change_bears(p: ProtocolDeclaration, wu: Option<Seq<char>>, t: Seq<char>, change: Option<Seq<char>>) -> bool {
    relevant(p, t) && work_unit_compatible(change, wu)
}

/// Some reference of the list bears on the protocol's candidate for `wu`.
pub open spec fn refs_bear(p: ProtocolDeclaration, wu: Option<Seq<char>>, refs: Seq<ArtifactRef>) -> bool {
    exists|k: int| 0 <= k < refs.len() && #[trigger] change_bears(p, wu, refs[k].artifact_type@, opt_string(refs[k].work_unit))
}

/// A scan result holds a change that bears on the protocol's candidate for
/// `wu`: a new, modified, revalidated, removed, invalid or malformed
/// instance of an input type in a compatible work unit.
pub open spec fn scan_bears(p: ProtocolDeclaration, wu: Option<Seq<char>>, scan: ScanResult) -> bool {
    ||| refs_bear(p, wu, scan.new@)
    ||| refs_bear(p, wu, scan.modified@)
    ||| refs_bear(p, wu, scan.revalidated@)
    ||| refs_bear(p, wu, scan.removed@)
    ||| exists|k: int| 0 <= k < scan.invalid@.len()
        && #[trigger] change_bears(p, wu, scan.invalid@[k].artifact_type@, opt_string(scan.invalid@[k].work_unit))
    ||| exists|k: int| 0 <= k < scan.malformed@.len()
        && #[trigger] change_bears(p, wu, scan.malformed@[k].artifact_type@, opt_string(scan.malformed@[k].work_unit))
}

/// Every new, modified, revalidated, removed, invalid or malformed instance
/// of a type the protocol requires or its trigger names, in a work unit
/// compatible with the candidate's (either is unscoped, or they are the
/// same), is a relevant input change: `protocol_relevant_inputs_changed`
/// answers true for the scan.
pub proof fn law_listed_input_change_counts(p: ProtocolDeclaration, wu: Option<Seq<char>>, scan: ScanResult)
    ensures
        forall|k: int| #![trigger scan.new@[k]] 0 <= k < scan.new@.len()
            && (views(p.requires@).contains(scan.new@[k].artifact_type@) || mentions(p.trigger, scan.new@[k].artifact_type@))
                && (wu is Some && scan.new@[k].work_unit is Some ==> scan.new@[k].work_unit->Some_0@ == wu->Some_0)
            ==> scan_bears(p, wu, scan),
        forall|k: int| #![trigger scan.modified@[k]] 0 <= k < scan.modified@.len()
            && (views(p.requires@).contains(scan.modified@[k].artifact_type@) || mentions(p.trigger, scan.modified@[k].artifact_type@))
                && (wu is Some && scan.modified@[k].work_unit is Some ==> scan.modified@[k].work_unit->Some_0@ == wu->Some_0)
            ==> scan_bears(p, wu, scan),
        forall|k: int| #![trigger scan.revalidated@[k]] 0 <= k < scan.revalidated@.len()
            && (views(p.requires@).contains(scan.revalidated@[k].artifact_type@) || mentions(p.trigger, scan.revalidated@[k].artifact_type@))
                && (wu is Some && scan.revalidated@[k].work_unit is Some ==> scan.revalidated@[k].work_unit->Some_0@ == wu->Some_0)
            ==> scan_bears(p, wu, scan),
        forall|k: int| #![trigger scan.removed@[k]] 0 <= k < scan.removed@.len()
            && (views(p.requires@).contains(scan.removed@[k].artifact_type@) || mentions(p.trigger, scan.removed@[k].artifact_type@))
                && (wu is Some && scan.removed@[k].work_unit is Some ==> scan.removed@[k].work_unit->Some_0@ == wu->Some_0)
            ==> scan_bears(p, wu, scan),
        forall|k: int| #![trigger scan.invalid@[k]] 0 <= k < scan.invalid@.len()
            && (views(p.requires@).contains(scan.invalid@[k].artifact_type@) || mentions(p.trigger, scan.invalid@[k].artifact_type@))
                && (wu is Some && scan.invalid@[k].work_unit is Some ==> scan.invalid@[k].work_unit->Some_0@ == wu->Some_0)
            ==> scan_bears(p, wu, scan),
        forall|k: int| #![trigger scan.malformed@[k]] 0 <= k < scan.malformed@.len()
            && (views(p.requires@).contains(scan.malformed@[k].artifact_type@) || mentions(p.trigger, scan.malformed@[k].artifact_type@))
                && (wu is Some && scan.malformed@[k].work_unit is Some ==> scan.malformed@[k].work_unit->Some_0@ == wu->Some_0)
            ==> scan_bears(p, wu, scan),
{
    assert forall|k: int| #![trigger scan.new@[k]] 0 <= k < scan.new@.len()
        && (views(p.requires@).contains(scan.new@[k].artifact_type@) || mentions(p.trigger, scan.new@[k].artifact_type@))
            && (wu is Some && scan.new@[k].work_unit is Some ==> scan.new@[k].work_unit->Some_0@ == wu->Some_0)
        implies scan_bears(p, wu, scan) by {
        assert(change_bears(p, wu, scan.new@[k].artifact_type@, opt_string(scan.new@[k].work_unit)));
    }
    assert forall|k: int| #![trigger scan.modified@[k]] 0 <= k < scan.modified@.len()
        && (views(p.requires@).contains(scan.modified@[k].artifact_type@) || mentions(p.trigger, scan.modified@[k].artifact_type@))
            && (wu is Some && scan.modified@[k].work_unit is Some ==> scan.modified@[k].work_unit->Some_0@ == wu->Some_0)
        implies scan_bears(p, wu, scan) by {
        assert(change_bears(p, wu, scan.modified@[k].artifact_type@, opt_string(scan.modified@[k].work_unit)));
    }
    assert forall|k: int| #![trigger scan.revalidated@[k]] 0 <= k < scan.revalidated@.len()
        && (views(p.requires@).contains(scan.revalidated@[k].artifact_type@) || mentions(p.trigger, scan.revalidated@[k].artifact_type@))
            && (wu is Some && scan.revalidated@[k].work_unit is Some ==> scan.revalidated@[k].work_unit->Some_0@ == wu->Some_0)
        implies scan_bears(p, wu, scan) by {
        assert(change_bears(p, wu, scan.revalidated@[k].artifact_type@, opt_string(scan.revalidated@[k].work_unit)));
    }
    assert forall|k: int| #![trigger scan.removed@[k]] 0 <= k < scan.removed@.len()
        && (views(p.requires@).contains(scan.removed@[k].artifact_type@) || mentions(p.trigger, scan.removed@[k].artifact_type@))
            && (wu is Some && scan.removed@[k].work_unit is Some ==> scan.removed@[k].work_unit->Some_0@ == wu->Some_0)
        implies scan_bears(p, wu, scan) by {
        assert(change_bears(p, wu, scan.removed@[k].artifact_type@, opt_string(scan.removed@[k].work_unit)));
    }
    assert forall|k: int| #![trigger scan.invalid@[k]] 0 <= k < scan.invalid@.len()
        && (views(p.requires@).contains(scan.invalid@[k].artifact_type@) || mentions(p.trigger, scan.invalid@[k].artifact_type@))
            && (wu is Some && scan.invalid@[k].work_unit is Some ==> scan.invalid@[k].work_unit->Some_0@ == wu->Some_0)
        implies scan_bears(p, wu, scan) by {
        assert(change_bears(p, wu, scan.invalid@[k].artifact_type@, opt_string(scan.invalid@[k].work_unit)));
    }
    assert forall|k: int| #![trigger scan.malformed@[k]] 0 <= k < scan.malformed@.len()
        && (views(p.requires@).contains(scan.malformed@[k].artifact_type@) || mentions(p.trigger, scan.malformed@[k].artifact_type@))
            && (wu is Some && scan.malformed@[k].work_unit is Some ==> scan.malformed@[k].work_unit->Some_0@ == wu->Some_0)
        implies scan_bears(p, wu, scan) by {
        assert(change_bears(p, wu, scan.malformed@[k].artifact_type@, opt_string(scan.malformed@[k].work_unit)));
    }
}

/// A scan none of whose new, modified, revalidated, removed, invalid or
/// malformed instances is of a type the protocol requires or its trigger
/// names in a compatible work unit holds no relevant input change:
/// `protocol_relevant_inputs_changed` answers false for it, whatever it
/// lists as unreadable, partially scanned or unrecognized.
pub proof fn law_other_changes_do_not_count(p: ProtocolDeclaration, wu: Option<Seq<char>>, scan: ScanResult)
    requires
        forall|k: int| #![trigger scan.new@[k]] 0 <= k < scan.new@.len() ==>
            !((views(p.requires@).contains(scan.new@[k].artifact_type@) || mentions(p.trigger, scan.new@[k].artifact_type@))
              && (wu is Some && scan.new@[k].work_unit is Some ==> scan.new@[k].work_unit->Some_0@ == wu->Some_0)),
        forall|k: int| #![trigger scan.modified@[k]] 0 <= k < scan.modified@.len() ==>
            !((views(p.requires@).contains(scan.modified@[k].artifact_type@) || mentions(p.trigger, scan.modified@[k].artifact_type@))
              && (wu is Some && scan.modified@[k].work_unit is Some ==> scan.modified@[k].work_unit->Some_0@ == wu->Some_0)),
        forall|k: int| #![trigger scan.revalidated@[k]] 0 <= k < scan.revalidated@.len() ==>
            !((views(p.requires@).contains(scan.revalidated@[k].artifact_type@) || mentions(p.trigger, scan.revalidated@[k].artifact_type@))
              && (wu is Some && scan.revalidated@[k].work_unit is Some ==> scan.revalidated@[k].work_unit->Some_0@ == wu->Some_0)),
        forall|k: int| #![trigger scan.removed@[k]] 0 <= k < scan.removed@.len() ==>
            !((views(p.requires@).contains(scan.removed@[k].artifact_type@) || mentions(p.trigger, scan.removed@[k].artifact_type@))
              && (wu is Some && scan.removed@[k].work_unit is Some ==> scan.removed@[k].work_unit->Some_0@ == wu->Some_0)),
        forall|k: int| #![trigger scan.invalid@[k]] 0 <= k < scan.invalid@.len() ==>
            !((views(p.requires@).contains(scan.invalid@[k].artifact_type@) || mentions(p.trigger, scan.invalid@[k].artifact_type@))
              && (wu is Some && scan.invalid@[k].work_unit is Some ==> scan.invalid@[k].work_unit->Some_0@ == wu->Some_0)),
        forall|k: int| #![trigger scan.malformed@[k]] 0 <= k < scan.malformed@.len() ==>
            !((views(p.requires@).contains(scan.malformed@[k].artifact_type@) || mentions(p.trigger, scan.malformed@[k].artifact_type@))
              && (wu is Some && scan.malformed@[k].work_unit is Some ==> scan.malformed@[k].work_unit->Some_0@ == wu->Some_0)),
    ensures
        !scan_bears(p, wu, scan),
{
    if exists|k: int| 0 <= k < scan.new@.len() && #[trigger] change_bears(p, wu, scan.new@[k].artifact_type@, opt_string(scan.new@[k].work_unit)) {
        let k = choose|k: int| 0 <= k < scan.new@.len() && #[trigger] change_bears(p, wu, scan.new@[k].artifact_type@, opt_string(scan.new@[k].work_unit));
        assert(views(p.requires@).contains(scan.new@[k].artifact_type@) || mentions(p.trigger, scan.new@[k].artifact_type@));
    }
    if exists|k: int| 0 <= k < scan.modified@.len() && #[trigger] change_bears(p, wu, scan.modified@[k].artifact_type@, opt_string(scan.modified@[k].work_unit)) {
        let k = choose|k: int| 0 <= k < scan.modified@.len() && #[trigger] change_bears(p, wu, scan.modified@[k].artifact_type@, opt_string(scan.modified@[k].work_unit));
        assert(views(p.requires@).contains(scan.modified@[k].artifact_type@) || mentions(p.trigger, scan.modified@[k].artifact_type@));
    }
    if exists|k: int| 0 <= k < scan.revalidated@.len() && #[trigger] change_bears(p, wu, scan.revalidated@[k].artifact_type@, opt_string(scan.revalidated@[k].work_unit)) {
        let k = choose|k: int| 0 <= k < scan.revalidated@.len() && #[trigger] change_bears(p, wu, scan.revalidated@[k].artifact_type@, opt_string(scan.revalidated@[k].work_unit));
        assert(views(p.requires@).contains(scan.revalidated@[k].artifact_type@) || mentions(p.trigger, scan.revalidated@[k].artifact_type@));
    }
    if exists|k: int| 0 <= k < scan.removed@.len() && #[trigger] change_bears(p, wu, scan.removed@[k].artifact_type@, opt_string(scan.removed@[k].work_unit)) {
        let k = choose|k: int| 0 <= k < scan.removed@.len() && #[trigger] change_bears(p, wu, scan.removed@[k].artifact_type@, opt_string(scan.removed@[k].work_unit));
        assert(views(p.requires@).contains(scan.removed@[k].artifact_type@) || mentions(p.trigger, scan.removed@[k].artifact_type@));
    }
    if exists|k: int| 0 <= k < scan.invalid@.len() && #[trigger] change_bears(p, wu, scan.invalid@[k].artifact_type@, opt_string(scan.invalid@[k].work_unit)) {
        let k = choose|k: int| 0 <= k < scan.invalid@.len() && #[trigger] change_bears(p, wu, scan.invalid@[k].artifact_type@, opt_string(scan.invalid@[k].work_unit));
        assert(views(p.requires@).contains(scan.invalid@[k].artifact_type@) || mentions(p.trigger, scan.invalid@[k].artifact_type@));
    }
    if exists|k: int| 0 <= k < scan.malformed@.len() && #[trigger] change_bears(p, wu, scan.malformed@[k].artifact_type@, opt_string(scan.malformed@[k].work_unit)) {
        let k = choose|k: int| 0 <= k < scan.malformed@.len() && #[trigger] change_bears(p, wu, scan.malformed@[k].artifact_type@, opt_string(scan.malformed@[k].work_unit));
        assert(views(p.requires@).contains(scan.malformed@[k].artifact_type@) || mentions(p.trigger, scan.malformed@[k].artifact_type@));
    }
}

fn opt_as_str(s: &Option<String>) -> (r: Option<&str>)
    ensures
        opt_str(r) == opt_string(*s),
{
    match s {
        Some(v) => Some(v.as_str()),
        None => None,
    }
}

fn any_ref_bears(refs: &Vec<ArtifactRef>, work_unit: Option<&str>, relevant_types: &Vec<String>, Ghost(p): Ghost<ProtocolDeclaration>) -> (r: bool)
    requires
        forall|t: Seq<char>| views(relevant_types@).contains(t) <==> relevant(p, t),
    ensures
        r == refs_bear(p, opt_str(work_unit), refs@),
{
    let mut i: usize = 0;
    while i < refs.len()
        invariant
            i <= refs@.len(),
            forall|t: Seq<char>| views(relevant_types@).contains(t) <==> relevant(p, t),
            forall|k: int| 0 <= k < i ==> !#[trigger] change_bears(p, opt_str(work_unit), refs@[k].artifact_type@, opt_string(refs@[k].work_unit)),
        decreases refs@.len() - i,
    {
        let a = &refs[i];
        if scan_change_affects_candidate(a.artifact_type.as_str(), opt_as_str(&a.work_unit), work_unit, relevant_types) {
            assert(change_bears(p, opt_str(work_unit), refs@[i as int].artifact_type@, opt_string(refs@[i as int].work_unit)));
            return true;
        }
        i = i + 1;
    }
    false
}

/// Whether a scan observed a change to an input type of the protocol that
/// bears on its candidate for `work_unit`.
pub fn protocol_relevant_inputs_changed(protocol: &ProtocolDeclaration, work_unit: Option<&str>, scan_result: &ScanResult) -> (r: bool)
    ensures
        r == scan_bears(*protocol, opt_str(work_unit), *scan_result),
{
    let relevant_types = protocol_relevant_input_types(protocol);
    let ghost p = *protocol;
    let ghost wu = opt_str(work_unit);
    if any_ref_bears(&scan_result.new, work_unit, &relevant_types, Ghost(p))
        || any_ref_bears(&scan_result.modified, work_unit, &relevant_types, Ghost(p))
        || any_ref_bears(&scan_result.revalidated, work_unit, &relevant_types, Ghost(p))
        || any_ref_bears(&scan_result.removed, work_unit, &relevant_types, Ghost(p)) {
        return true;
    }
    let mut i: usize = 0;
    while i < scan_result.invalid.len()
        invariant
            p == *protocol,
            wu == opt_str(work_unit),
            i <= scan_result.invalid@.len(),
            forall|t: Seq<char>| views(relevant_types@).contains(t) <==> relevant(p, t),
            forall|k: int| 0 <= k < i ==> !#[trigger] change_bears(p, wu, scan_result.invalid@[k].artifact_type@, opt_string(scan_result.invalid@[k].work_unit)),
        decreases scan_result.invalid@.len() - i,
    {
        let a = &scan_result.invalid[i];
        if scan_change_affects_candidate(a.artifact_type.as_str(), opt_as_str(&a.work_unit), work_unit, &relevant_types) {
            assert(change_bears(p, wu, scan_result.invalid@[i as int].artifact_type@, opt_string(scan_result.invalid@[i as int].work_unit)));
            return true;
        }
        i = i + 1;
    }
    let mut j: usize = 0;
    while j < scan_result.malformed.len()
        invariant
            p == *protocol,
            wu == opt_str(work_unit),
            j <= scan_result.malformed@.len(),
            forall|t: Seq<char>| views(relevant_types@).contains(t) <==> relevant(p, t),
            forall|k: int| 0 <= k < j ==> !#[trigger] change_bears(p, wu, scan_result.malformed@[k].artifact_type@, opt_string(scan_result.malformed@[k].work_unit)),
        decreases scan_result.malformed@.len() - j,
    {
        let a = &scan_result.malformed[j];
        if scan_change_affects_candidate(a.artifact_type.as_str(), opt_as_str(&a.work_unit), work_unit, &relevant_types) {
            assert(change_bears(p, wu, scan_result.malformed@[j as int].artifact_type@, opt_string(scan_result.malformed@[j as int].work_unit)));
            return true;
        }
        j = j + 1;
    }
    false
}


// ---------------------------------------------------------------------------
// Trigger trust: is the trigger's verdict reliable given partial scans?
// ---------------------------------------------------------------------------

/// What a trust evaluation gives: whether the condition is satisfied,
/// whether that verdict can be trusted, and the partially scanned types that
/// make it untrustworthy.
pub type TrustView = (bool, bool, Seq<Seq<char>>);

/// The condition is satisfied in the context.
pub open spec fn sat(c: TriggerCondition, p: ProtocolDeclaration, store: ArtifactStore, wu: Option<Seq<char>>, partial: Seq<Seq<char>>) -> bool {
    outcome(c, store, wu, completion_ts(store, p, wu, partial)) is None
}

/// `t` followed by the entries of `vs` it does not hold yet, in order, each
/// once.
pub open spec fn append_unique(t: Seq<Seq<char>>, vs: Seq<Seq<char>>) -> Seq<Seq<char>>
    decreases vs.len(),
{
    if vs.len() == 0 {
        t
    } else {
        let prev = append_unique(t, vs.drop_last());
        if prev.contains(vs.last()) {
            prev
        } else {
            prev.push(vs.last())
        }
    }
}

/// The verdict of a primitive condition: it is untrustworthy when its type
/// was partially scanned and the verdict is one a missing instance could
/// change.
pub open spec fn primitive_trust(satisfied: bool, affected: bool, unsure_unsatisfied: bool, unsure_satisfied: bool, t: Seq<char>) -> TrustView {
    let untrusted = affected && (if satisfied { unsure_satisfied } else { unsure_unsatisfied });
    (satisfied, !untrusted, if untrusted { seq![t] } else { Seq::empty() })
}

/// Whether a child's scan types are collected: `0` every untrusted child,
/// `1` the satisfied untrusted ones, `2` the unsatisfied untrusted ones.
pub open spec fn picks(sel: int, e: TrustView) -> bool {
    if sel == 0 {
        !e.1
    } else if sel == 1 {
        e.0 && !e.1
    } else {
        !e.0 && !e.1
    }
}

/// The scan types of the picked children, merged in order, each once.
pub open spec fn gather(ch: Seq<TrustView>, sel: int) -> Seq<Seq<char>>
    decreases ch.len(),
{
    if ch.len() == 0 {
        Seq::empty()
    } else {
        let prev = gather(ch.drop_last(), sel);
        if picks(sel, ch.last()) {
            append_unique(prev, ch.last().2)
        } else {
            prev
        }
    }
}

/// The trust verdict of `all_of` from those of its children: satisfied when
/// all are; a trusted unsatisfied child settles it as unsatisfied.
pub open spec fn combine_all(ch: Seq<TrustView>) -> TrustView {
    if forall|k: int| 0 <= k < ch.len() ==> (#[trigger] ch[k]).0 {
        (true, forall|k: int| 0 <= k < ch.len() ==> (#[trigger] ch[k]).1, gather(ch, 0))
    } else if exists|k: int| 0 <= k < ch.len() && !(#[trigger] ch[k]).0 && ch[k].1 {
        (false, true, Seq::empty())
    } else {
        (false, false, gather(ch, 0))
    }
}

/// The trust verdict of `any_of` from those of its children: a trusted
/// satisfied child settles it as satisfied; an empty `any_of` is trusted and
/// unsatisfied.
pub open spec fn combine_any(ch: Seq<TrustView>) -> TrustView {
    if ch.len() == 0 {
        (false, true, Seq::empty())
    } else if exists|k: int| 0 <= k < ch.len() && (#[trigger] ch[k]).0 && ch[k].1 {
        (true, true, Seq::empty())
    } else if exists|k: int| 0 <= k < ch.len() && (#[trigger] ch[k]).0 {
        (true, false, gather(ch, 1))
    } else if forall|k: int| 0 <= k < ch.len() ==> (#[trigger] ch[k]).1 {
        (false, true, Seq::empty())
    } else {
        (false, false, gather(ch, 2))
    }
}

/// The trust verdict of a condition, with `affected` the partially scanned
/// types. `on_artifact` is unsure either way, `on_invalid` only when
/// unsatisfied, `on_change` only when unsatisfied.
pub open spec fn trust(c: TriggerCondition, p: ProtocolDeclaration, store: ArtifactStore, wu: Option<Seq<char>>, partial: Seq<Seq<char>>, affected: Seq<Seq<char>>) -> TrustView
    decreases c,
{
    match c {
        TriggerCondition::OnArtifact { name } =>
            primitive_trust(sat(c, p, store, wu, partial), affected.contains(name@), true, true, name@),
        TriggerCondition::OnInvalid { name } =>
            primitive_trust(sat(c, p, store, wu, partial), affected.contains(name@), true, false, name@),
        TriggerCondition::OnChange { name } =>
            primitive_trust(sat(c, p, store, wu, partial), affected.contains(name@), true, false, name@),
        TriggerCondition::AllOf { conditions } => combine_all(trust_list(conditions@, p, store, wu, partial, affected)),
        TriggerCondition::AnyOf { conditions } => combine_any(trust_list(conditions@, p, store, wu, partial, affected)),
    }
}

/// The trust verdicts of a list of conditions.
pub open spec fn trust_list(cs: Seq<TriggerCondition>, p: ProtocolDeclaration, store: ArtifactStore, wu: Option<Seq<char>>, partial: Seq<Seq<char>>, affected: Seq<Seq<char>>) -> Seq<TrustView>
    decreases cs,
{
    if cs.len() == 0 {
        Seq::empty()
    } else {
        seq![trust(cs[0], p, store, wu, partial, affected)] + trust_list(cs.drop_first(), p, store, wu, partial, affected)
    }
}

proof fn lemma_trust_list(cs: Seq<TriggerCondition>, p: ProtocolDeclaration, store: ArtifactStore, wu: Option<Seq<char>>, partial: Seq<Seq<char>>, affected: Seq<Seq<char>>)
    ensures
        trust_list(cs, p, store, wu, partial, affected).len() == cs.len(),
        forall|i: int| 0 <= i < cs.len() ==> #[trigger] trust_list(cs, p, store, wu, partial, affected)[i] == trust(cs[i], p, store, wu, partial, affected),
    decreases cs.len(),
{
    if cs.len() > 0 {
        lemma_trust_list(cs.drop_first(), p, store, wu, partial, affected);
        let l = trust_list(cs, p, store, wu, partial, affected);
        let r = trust_list(cs.drop_first(), p, store, wu, partial, affected);
        assert forall|i: int| 0 <= i < cs.len() implies #[trigger] l[i] == trust(cs[i], p, store, wu, partial, affected) by {
            if i > 0 {
                assert(l[i] == r[i - 1]);
                assert(cs.drop_first()[i - 1] == cs[i]);
            }
        }
    }
}

struct TriggerEvaluation {
    satisfied: bool,
    trusted: bool,
    scan_types: Vec<String>,
}

spec fn tv(e: TriggerEvaluation) -> TrustView {
    (e.satisfied, e.trusted, views(e.scan_types@))
}

spec fn tvs(es: Seq<TriggerEvaluation>) -> Seq<TrustView> {
    es.map_values(|e: TriggerEvaluation| tv(e))
}

/// Appends to `target` the entries of `values` it does not hold yet.
fn append_unique_into(target: &mut Vec<String>, values: &Vec<String>)
    ensures
        views(final(target)@) == append_unique(views(old(target)@), views(values@)),
{
    let ghost start = views(target@);
    let mut i: usize = 0;
    while i < values.len()
        invariant
            i <= values@.len(),
            start == views(old(target)@),
            views(target@) == append_unique(start, views(values@).take(i as int)),
        decreases values@.len() - i,
    {
        let ghost vs = views(values@).take(i + 1);
        proof {
            assert(vs.drop_last() =~= views(values@).take(i as int));
            assert(vs.last() == values@[i as int]@);
        }
        push_unique(target, values[i].as_str());
        i = i + 1;
    }
    proof {
        assert(views(values@).take(values@.len() as int) =~= views(values@));
    }
}

fn gather_exec(children: &Vec<TriggerEvaluation>, sel: u8) -> (r: Vec<String>)
    requires
        sel <= 2,
    ensures
        views(r@) == gather(tvs(children@), sel as int),
{
    let mut acc: Vec<String> = Vec::new();
    let mut i: usize = 0;
    proof {
        assert(views(acc@) =~= gather(tvs(children@).take(0), sel as int));
    }
    while i < children.len()
        invariant
            sel <= 2,
            i <= children@.len(),
            views(acc@) == gather(tvs(children@).take(i as int), sel as int),
        decreases children@.len() - i,
    {
        let c = &children[i];
        let ghost ch = tvs(children@).take(i + 1);
        proof {
            assert(ch.drop_last() =~= tvs(children@).take(i as int));
            assert(ch.last() == tv(*c));
        }
        let pick = if sel == 0 {
            !c.trusted
        } else if sel == 1 {
            c.satisfied && !c.trusted
        } else {
            !c.satisfied && !c.trusted
        };
        if pick {
            append_unique_into(&mut acc, &c.scan_types);
        }
        i = i + 1;
    }
    proof {
        assert(tvs(children@).take(children@.len() as int) =~= tvs(children@));
    }
    acc
}

fn combine_all_exec(children: Vec<TriggerEvaluation>) -> (r: TriggerEvaluation)
    ensures
        tv(r) == combine_all(tvs(children@)),
{
    let ghost ch = tvs(children@);
    let mut all_satisfied = true;
    let mut all_trusted = true;
    let mut settled = false;
    let mut i: usize = 0;
    while i < children.len()
        invariant
            i <= children@.len(),
            ch == tvs(children@),
            all_satisfied == forall|k: int| 0 <= k < i ==> (#[trigger] ch[k]).0,
            all_trusted == forall|k: int| 0 <= k < i ==> (#[trigger] ch[k]).1,
            settled == exists|k: int| 0 <= k < i && !(#[trigger] ch[k]).0 && ch[k].1,
        decreases children@.len() - i,
    {
        let c = &children[i];
        proof {
            assert(ch[i as int] == tv(*c));
        }
        if !c.satisfied {
            all_satisfied = false;
            if c.trusted {
                settled = true;
            }
        }
        if !c.trusted {
            all_trusted = false;
        }
        i = i + 1;
    }
    if all_satisfied {
        let scan_types = gather_exec(&children, 0);
        TriggerEvaluation { satisfied: true, trusted: all_trusted, scan_types }
    } else if settled {
        let r = TriggerEvaluation { satisfied: false, trusted: true, scan_types: Vec::new() };
        assert(views(r.scan_types@) =~= Seq::<Seq<char>>::empty());
        r
    } else {
        let scan_types = gather_exec(&children, 0);
        TriggerEvaluation { satisfied: false, trusted: false, scan_types }
    }
}

fn combine_any_exec(children: Vec<TriggerEvaluation>) -> (r: TriggerEvaluation)
    ensures
        tv(r) == combine_any(tvs(children@)),
{
    let ghost ch = tvs(children@);
    if children.len() == 0 {
        let r = TriggerEvaluation { satisfied: false, trusted: true, scan_types: Vec::new() };
        assert(views(r.scan_types@) =~= Seq::<Seq<char>>::empty());
        return r;
    }
    let mut sure_satisfied = false;
    let mut any_satisfied = false;
    let mut all_trusted = true;
    let mut i: usize = 0;
    while i < children.len()
        invariant
            i <= children@.len(),
            ch == tvs(children@),
            sure_satisfied == exists|k: int| 0 <= k < i && (#[trigger] ch[k]).0 && ch[k].1,
            any_satisfied == exists|k: int| 0 <= k < i && (#[trigger] ch[k]).0,
            all_trusted == forall|k: int| 0 <= k < i ==> (#[trigger] ch[k]).1,
        decreases children@.len() - i,
    {
        let c = &children[i];
        proof {
            assert(ch[i as int] == tv(*c));
        }
        if c.satisfied {
            any_satisfied = true;
            if c.trusted {
                sure_satisfied = true;
            }
        }
        if !c.trusted {
            all_trusted = false;
        }
        i = i + 1;
    }
    if sure_satisfied {
        let r = TriggerEvaluation { satisfied: true, trusted: true, scan_types: Vec::new() };
        assert(views(r.scan_types@) =~= Seq::<Seq<char>>::empty());
        r
    } else if any_satisfied {
        let scan_types = gather_exec(&children, 1);
        TriggerEvaluation { satisfied: true, trusted: false, scan_types }
    } else if all_trusted {
        let r = TriggerEvaluation { satisfied: false, trusted: true, scan_types: Vec::new() };
        assert(views(r.scan_types@) =~= Seq::<Seq<char>>::empty());
        assert(forall|k: int| 0 <= k < ch.len() ==> (#[trigger] ch[k]).1);
        r
    } else {
        let scan_types = gather_exec(&children, 2);
        TriggerEvaluation { satisfied: false, trusted: false, scan_types }
    }
}

fn primitive_trigger_eval(condition: &TriggerCondition, protocol: &ProtocolDeclaration, context: &TriggerContext, affected: bool,
    unsure_unsatisfied: bool, unsure_satisfied: bool, artifact_type: &str) -> (r: TriggerEvaluation)
    ensures
        tv(r) == primitive_trust(sat(*condition, *protocol, *context.store, opt_str(context.work_unit), views(context.partially_scanned_types@)),
            affected, unsure_unsatisfied, unsure_satisfied, artifact_type@),
{
    let satisfied = match evaluate_trigger(condition, protocol, context) {
        TriggerResult::Satisfied => true,
        TriggerResult::NotSatisfied(_) => false,
    };
    let untrusted = if affected {
        if satisfied { unsure_satisfied } else { unsure_unsatisfied }
    } else {
        false
    };
    let mut scan_types: Vec<String> = Vec::new();
    if untrusted {
        scan_types.push(owned(artifact_type));
    }
    let r = TriggerEvaluation { satisfied, trusted: !untrusted, scan_types };
    proof {
        if untrusted {
            assert(views(r.scan_types@) =~= seq![artifact_type@]);
        } else {
            assert(views(r.scan_types@) =~= Seq::<Seq<char>>::empty());
        }
    }
    r
}

fn evaluate_trigger_trust(condition: &TriggerCondition, protocol: &ProtocolDeclaration, context: &TriggerContext, affected_types: &Vec<String>) -> (r: TriggerEvaluation)
    ensures
        tv(r) == trust(*condition, *protocol, *context.store, opt_str(context.work_unit), views(context.partially_scanned_types@), views(affected_types@)),
    decreases condition,
{
    match condition {
        TriggerCondition::OnArtifact { name } => {
            let affected = contains_str(affected_types, name.as_str());
            primitive_trigger_eval(condition, protocol, context, affected, true, true, name.as_str())
        },
        TriggerCondition::OnInvalid { name } => {
            let affected = contains_str(affected_types, name.as_str());
            primitive_trigger_eval(condition, protocol, context, affected, true, false, name.as_str())
        },
        TriggerCondition::OnChange { name } => {
            // A partially scanned output only makes freshness suppression
            // untrustworthy; it never blocks the trigger itself.
            let affected = contains_str(affected_types, name.as_str());
            primitive_trigger_eval(condition, protocol, context, affected, true, false, name.as_str())
        },
        TriggerCondition::AllOf { conditions } => {
            let children = evaluate_list_trust(conditions, protocol, context, affected_types);
            combine_all_exec(children)
        },
        TriggerCondition::AnyOf { conditions } => {
            let children = evaluate_list_trust(conditions, protocol, context, affected_types);
            combine_any_exec(children)
        },
    }
}

fn evaluate_list_trust(conditions: &Vec<TriggerCondition>, protocol: &ProtocolDeclaration, context: &TriggerContext, affected_types: &Vec<String>) -> (r: Vec<TriggerEvaluation>)
    ensures
        tvs(r@) == trust_list(conditions@, *protocol, *context.store, opt_str(context.work_unit), views(context.partially_scanned_types@), views(affected_types@)),
    decreases conditions,
{
    let ghost tl = trust_list(conditions@, *protocol, *context.store, opt_str(context.work_unit), views(context.partially_scanned_types@), views(affected_types@));
    proof {
        lemma_trust_list(conditions@, *protocol, *context.store, opt_str(context.work_unit), views(context.partially_scanned_types@), views(affected_types@));
    }
    let mut r: Vec<TriggerEvaluation> = Vec::new();
    let mut i: usize = 0;
    while i < conditions.len()
        invariant
            i <= conditions@.len(),
            tl.len() == conditions@.len(),
            tl == trust_list(conditions@, *protocol, *context.store, opt_str(context.work_unit), views(context.partially_scanned_types@), views(affected_types@)),
            forall|k: int| 0 <= k < conditions@.len() ==> #[trigger] tl[k] == trust(conditions@[k], *protocol, *context.store,
                opt_str(context.work_unit), views(context.partially_scanned_types@), views(affected_types@)),
            tvs(r@) == tl.take(i as int),
        decreases conditions@.len() - i,
    {
        proof {
            assert(decreases_to!(conditions => conditions@));
            assert(decreases_to!(conditions@ => conditions@[i as int]));
        }
        let e = evaluate_trigger_trust(&conditions[i], protocol, context, affected_types);
        let ghost before = r@;
        r.push(e);
        proof {
            assert(tvs(r@) =~= tvs(before).push(tv(e)));
            assert(tl.take(i + 1) =~= tl.take(i as int).push(tl[i as int]));
        }
        i = i + 1;
    }
    proof {
        assert(tl.take(conditions@.len() as int) =~= tl);
    }
    r
}


// ---------------------------------------------------------------------------
// Input types a partial scan leaves untrusted.
// ---------------------------------------------------------------------------

/// The entries of `ts` that were only partially scanned, in order.
pub open spec fn partial_only(ts: Seq<Seq<char>>, partial: Seq<Seq<char>>) -> Seq<Seq<char>>
    decreases ts.len(),
{
    if ts.len() == 0 {
        Seq::empty()
    } else {
        let prev = partial_only(ts.drop_last(), partial);
        if partial.contains(ts.last()) {
            prev.push(ts.last())
        } else {
            prev
        }
    }
}

/// Appends to `acc` the partially scanned entries of `values` it does not
/// hold yet.
fn append_partially_scanned(acc: &mut Vec<String>, values: &Vec<String>, partially_scanned_types: &Vec<String>)
    ensures
        views(final(acc)@) == append_unique(views(old(acc)@), partial_only(views(values@), views(partially_scanned_types@))),
{
    let ghost start = views(acc@);
    let ghost partial = views(partially_scanned_types@);
    let mut i: usize = 0;
    while i < values.len()
        invariant
            i <= values@.len(),
            start == views(old(acc)@),
            partial == views(partially_scanned_types@),
            views(acc@) == append_unique(start, partial_only(views(values@).take(i as int), partial)),
        decreases values@.len() - i,
    {
        let ghost vs = views(values@).take(i + 1);
        let ghost prev = partial_only(views(values@).take(i as int), partial);
        proof {
            assert(vs.drop_last() =~= views(values@).take(i as int));
            assert(vs.last() == values@[i as int]@);
        }
        if contains_str(partially_scanned_types, values[i].as_str()) {
            proof {
                assert(partial_only(vs, partial) == prev.push(vs.last()));
                assert(prev.push(vs.last()).drop_last() =~= prev);
            }
            push_unique(acc, values[i].as_str());
        }
        i = i + 1;
    }
    proof {
        assert(views(values@).take(values@.len() as int) =~= views(values@));
    }
}

/// The required types of the protocol that were only partially scanned, in
/// order, each once.
pub fn precondition_scan_incomplete_types(protocol: &ProtocolDeclaration, partially_scanned_types: &Vec<String>) -> (r: Vec<String>)
    ensures
        views(r@) == append_unique(Seq::empty(), partial_only(views(protocol.requires@), views(partially_scanned_types@))),
{
    let mut types: Vec<String> = Vec::new();
    proof {
        assert(views(types@) =~= Seq::<Seq<char>>::empty());
    }
    append_partially_scanned(&mut types, &protocol.requires, partially_scanned_types);
    types
}

fn trigger_scan_incomplete_failures(protocol: &ProtocolDeclaration, partially_scanned_types: &Vec<String>, trigger_scan_types: &Vec<String>) -> (r: Vec<String>)
    ensures
        views(r@) == append_unique(views(trigger_scan_types@), partial_only(views(protocol.requires@), views(partially_scanned_types@))),
{
    let mut types = crate::text::clone_strings(trigger_scan_types);
    append_partially_scanned(&mut types, &protocol.requires, partially_scanned_types);
    types
}

/// The types the condition names, in lexicographic order.
pub open spec fn sorted_mentions(c: TriggerCondition) -> Seq<Seq<char>> {
    choose|s: Seq<Seq<char>>| strictly_sorted(s) && forall|t: Seq<char>| s.contains(t) <==> mentions(c, t)
}

/// The partially scanned input types of a protocol: its required types in
/// order, then the types its trigger names in lexicographic order, each once.
pub open spec fn protocol_scan_failures(p: ProtocolDeclaration, partial: Seq<Seq<char>>) -> Seq<Seq<char>> {
    append_unique(append_unique(Seq::empty(), partial_only(views(p.requires@), partial)), partial_only(sorted_mentions(p.trigger), partial))
}

/// The input types of the protocol that were only partially scanned: its
/// required types in order, then the types its trigger names in
/// lexicographic order, each once.
pub fn protocol_scan_incomplete_types(protocol: &ProtocolDeclaration, partially_scanned_types: &Vec<String>) -> (r: Vec<String>)
    ensures
        views(r@) == protocol_scan_failures(*protocol, views(partially_scanned_types@)),
{
    let mut trigger_types: Vec<String> = Vec::new();
    trigger_artifact_types(&protocol.trigger, &mut trigger_types);
    let sorted = sorted_strings(&trigger_types);
    let mut incomplete = precondition_scan_incomplete_types(protocol, partially_scanned_types);
    append_partially_scanned(&mut incomplete, &sorted, partially_scanned_types);
    proof {
        let s = views(sorted@);
        assert(strictly_sorted(s) && forall|t: Seq<char>| s.contains(t) <==> mentions(protocol.trigger, t));
        let c = sorted_mentions(protocol.trigger);
        lemma_sorted_unique(s, c);
    }
    incomplete
}


// ---------------------------------------------------------------------------
// Output freshness.
// ---------------------------------------------------------------------------

/// An output type whose scan is incomplete gives no evidence of currentness.
pub open spec fn output_untrusted(store: ArtifactStore, t: Seq<char>, partial: Seq<Seq<char>>) -> bool {
    store.has_gap_for_type(t) || partial.contains(t)
}

/// The protocol's outputs are current for `wu`: it has outputs, none of its
/// produced types and none of its present optional types is untrusted by a
/// scan, its completion time is known, and no input type was modified after
/// it.
pub open spec fn is_current(p: ProtocolDeclaration, store: ArtifactStore, wu: Option<Seq<char>>, partial: Seq<Seq<char>>) -> bool {
    &&& !(p.produces@.len() == 0 && p.may_produce@.len() == 0)
    &&& forall|k: int| 0 <= k < p.produces@.len() ==> !output_untrusted(store, #[trigger] p.produces@[k]@, partial)
    &&& forall|k: int| 0 <= k < p.may_produce@.len() && #[trigger] present(store, p.may_produce@[k]@, wu)
        ==> !output_untrusted(store, p.may_produce@[k]@, partial)
    &&& completion_ts(store, p, wu, partial) is Some
    &&& forall|t: Seq<char>| #[trigger] relevant(p, t) ==> match latest_of(store, t, wu) {
        None => true,
        Some(l) => l <= completion_ts(store, p, wu, partial)->0,
    }
}

fn protocol_is_current(protocol: &ProtocolDeclaration, store: &ArtifactStore, freshness_inputs: &Vec<(String, FreshnessInputMode)>,
    work_unit: Option<&str>, partially_scanned_types: &Vec<String>) -> (r: bool)
    requires
        forall|t: Seq<char>| input_names(freshness_inputs@).contains(t) <==> relevant(*protocol, t),
    ensures
        r == is_current(*protocol, *store, opt_str(work_unit), views(partially_scanned_types@)),
{
    let ghost wu = opt_str(work_unit);
    let ghost partial = views(partially_scanned_types@);
    if protocol.produces.len() == 0 && protocol.may_produce.len() == 0 {
        return false;
    }
    let mut i: usize = 0;
    while i < protocol.produces.len()
        invariant
            i <= protocol.produces@.len(),
            partial == views(partially_scanned_types@),
            forall|k: int| 0 <= k < i ==> !output_untrusted(*store, #[trigger] protocol.produces@[k]@, partial),
        decreases protocol.produces@.len() - i,
    {
        let t = protocol.produces[i].as_str();
        if store.scan_gap_affects_work_unit(t, work_unit) || contains_str(partially_scanned_types, t) {
            assert(output_untrusted(*store, protocol.produces@[i as int]@, partial));
            return false;
        }
        i = i + 1;
    }
    let mut j: usize = 0;
    while j < protocol.may_produce.len()
        invariant
            j <= protocol.may_produce@.len(),
            wu == opt_str(work_unit),
            partial == views(partially_scanned_types@),
            forall|k: int| 0 <= k < j && #[trigger] present(*store, protocol.may_produce@[k]@, wu)
                ==> !output_untrusted(*store, protocol.may_produce@[k]@, partial),
        decreases protocol.may_produce@.len() - j,
    {
        let t = protocol.may_produce[j].as_str();
        let instances = store.instances_of(t, work_unit);
        proof {
            if present(*store, t@, wu) {
                let id = choose|id: Seq<char>| #[trigger] store.matching(t@, wu, id);
                assert(crate::store::pair_ids(instances@).contains(id));
            }
            if instances.len() > 0 {
                assert(store.matching(t@, wu, instances@[0].0@));
            }
        }
        if instances.len() > 0 && (store.scan_gap_affects_work_unit(t, work_unit) || contains_str(partially_scanned_types, t)) {
            assert(present(*store, protocol.may_produce@[j as int]@, wu));
            return false;
        }
        j = j + 1;
    }
    let output_timestamp = match derived_completion_timestamp(protocol, store, work_unit, partially_scanned_types) {
        Some(ts) => ts,
        None => {
            return false;
        },
    };
    let mut m: usize = 0;
    while m < freshness_inputs.len()
        invariant
            m <= freshness_inputs@.len(),
            wu == opt_str(work_unit),
            forall|t: Seq<char>| input_names(freshness_inputs@).contains(t) <==> relevant(*protocol, t),
            completion_ts(*store, *protocol, wu, views(partially_scanned_types@)) == Some(output_timestamp as int),
            forall|k: int| 0 <= k < m ==> match #[trigger] latest_of(*store, input_names(freshness_inputs@)[k], wu) {
                None => true,
                Some(l) => l <= output_timestamp,
            },
        decreases freshness_inputs@.len() - m,
    {
        let t = freshness_inputs[m].0.as_str();
        assert(input_names(freshness_inputs@)[m as int] == t@);
        match latest(store, t, work_unit) {
            Some(l) => {
                if l > output_timestamp {
                    proof {
                        assert(input_names(freshness_inputs@).contains(t@));
                        assert(relevant(*protocol, t@));
                    }
                    return false;
                }
            },
            None => {},
        }
        m = m + 1;
    }
    proof {
        assert forall|t: Seq<char>| #[trigger] relevant(*protocol, t) implies match latest_of(*store, t, wu) {
            None => true,
            Some(l) => l <= completion_ts(*store, *protocol, wu, partial)->0,
        } by {
            assert(input_names(freshness_inputs@).contains(t));
            let k = choose|k: int| 0 <= k < input_names(freshness_inputs@).len() && input_names(freshness_inputs@)[k] == t;
        }
    }
    true
}


// ---------------------------------------------------------------------------
// Why a trigger is not satisfied.
// ---------------------------------------------------------------------------

/// The reasons a condition is not satisfied: nothing when it is; for
/// `all_of` and a non-empty `any_of`, the reasons of their children in
/// order; otherwise the condition and its reason.
pub open spec fn unsatisfied(c: TriggerCondition, p: ProtocolDeclaration, store: ArtifactStore, wu: Option<Seq<char>>, partial: Seq<Seq<char>>) -> Seq<Seq<char>>
    decreases c,
{
    match outcome(c, store, wu, completion_ts(store, p, wu, partial)) {
        None => Seq::empty(),
        Some(reason) => match c {
            TriggerCondition::AllOf { conditions } => unsatisfied_list(conditions@, p, store, wu, partial),
            TriggerCondition::AnyOf { conditions } => if conditions@.len() == 0 {
                seq![display_condition(c) + ": "@ + reason]
            } else {
                unsatisfied_list(conditions@, p, store, wu, partial)
            },
            _ => seq![display_condition(c) + ": "@ + reason],
        },
    }
}

/// The reasons of a list of conditions, concatenated in order.
pub open spec fn unsatisfied_list(cs: Seq<TriggerCondition>, p: ProtocolDeclaration, store: ArtifactStore, wu: Option<Seq<char>>, partial: Seq<Seq<char>>) -> Seq<Seq<char>>
    decreases cs,
{
    if cs.len() == 0 {
        Seq::empty()
    } else {
        unsatisfied(cs[0], p, store, wu, partial) + unsatisfied_list(cs.drop_first(), p, store, wu, partial)
    }
}

proof fn lemma_unsatisfied_list_take(cs: Seq<TriggerCondition>, i: int, p: ProtocolDeclaration, store: ArtifactStore, wu: Option<Seq<char>>, partial: Seq<Seq<char>>)
    requires
        0 <= i < cs.len(),
    ensures
        unsatisfied_list(cs.take(i + 1), p, store, wu, partial) == unsatisfied_list(cs.take(i), p, store, wu, partial) + unsatisfied(cs[i], p, store, wu, partial),
    decreases i,
{
    if i == 0 {
        let t = cs.take(1);
        assert(t.drop_first() =~= Seq::<TriggerCondition>::empty());
        assert(cs.take(0) =~= Seq::<TriggerCondition>::empty());
        assert(unsatisfied_list(t.drop_first(), p, store, wu, partial) =~= Seq::<Seq<char>>::empty());
        assert(unsatisfied_list(t, p, store, wu, partial) =~= unsatisfied(cs[0], p, store, wu, partial));
        assert(unsatisfied_list(cs.take(0), p, store, wu, partial) =~= Seq::<Seq<char>>::empty());
    } else {
        let rest = cs.drop_first();
        lemma_unsatisfied_list_take(rest, i - 1, p, store, wu, partial);
        assert(cs.take(i + 1).drop_first() =~= rest.take(i));
        assert(cs.take(i).drop_first() =~= rest.take(i - 1));
        assert(cs.take(i + 1)[0] == cs[0]);
        assert(cs.take(i)[0] == cs[0]);
        assert(rest[i - 1] == cs[i]);
        let a = unsatisfied(cs[0], p, store, wu, partial);
        let b = unsatisfied_list(rest.take(i - 1), p, store, wu, partial);
        let c = unsatisfied(cs[i], p, store, wu, partial);
        assert(a + (b + c) =~= (a + b) + c);
    }
}

fn condition_with_reason(condition: &TriggerCondition, reason: &String) -> (r: Vec<String>)
    ensures
        views(r@) == seq![display_condition(*condition) + ": "@ + reason@],
{
    let mut line = condition.to_display_string();
    crate::text::push_str(&mut line, ": ");
    crate::text::push_str(&mut line, reason.as_str());
    let mut r: Vec<String> = Vec::new();
    r.push(line);
    assert(views(r@) =~= seq![display_condition(*condition) + ": "@ + reason@]);
    r
}

/// The reasons a trigger condition is not satisfied, for display.
pub fn collect_unsatisfied_conditions(condition: &TriggerCondition, protocol: &ProtocolDeclaration, context: &TriggerContext) -> (r: Vec<String>)
    ensures
        views(r@) == unsatisfied(*condition, *protocol, *context.store, opt_str(context.work_unit), views(context.partially_scanned_types@)),
    decreases condition,
{
    match evaluate_trigger(condition, protocol, context) {
        TriggerResult::Satisfied => {
            let r: Vec<String> = Vec::new();
            assert(views(r@) =~= Seq::<Seq<char>>::empty());
            r
        },
        TriggerResult::NotSatisfied(reason) => match condition {
            TriggerCondition::AllOf { conditions } => collect_list_unsatisfied(conditions, protocol, context),
            TriggerCondition::AnyOf { conditions } => {
                if conditions.len() == 0 {
                    condition_with_reason(condition, &reason)
                } else {
                    collect_list_unsatisfied(conditions, protocol, context)
                }
            },
            _ => condition_with_reason(condition, &reason),
        },
    }
}

fn collect_list_unsatisfied(conditions: &Vec<TriggerCondition>, protocol: &ProtocolDeclaration, context: &TriggerContext) -> (r: Vec<String>)
    ensures
        views(r@) == unsatisfied_list(conditions@, *protocol, *context.store, opt_str(context.work_unit), views(context.partially_scanned_types@)),
    decreases conditions,
{
    let ghost wu = opt_str(context.work_unit);
    let ghost partial = views(context.partially_scanned_types@);
    let mut r: Vec<String> = Vec::new();
    let mut i: usize = 0;
    proof {
        assert(conditions@.take(0) =~= Seq::<TriggerCondition>::empty());
        assert(views(r@) =~= Seq::<Seq<char>>::empty());
    }
    while i < conditions.len()
        invariant
            i <= conditions@.len(),
            wu == opt_str(context.work_unit),
            partial == views(context.partially_scanned_types@),
            views(r@) == unsatisfied_list(conditions@.take(i as int), *protocol, *context.store, wu, partial),
        decreases conditions@.len() - i,
    {
        proof {
            assert(decreases_to!(conditions => conditions@));
            assert(decreases_to!(conditions@ => conditions@[i as int]));
        }
        let part = collect_unsatisfied_conditions(&conditions[i], protocol, context);
        let ghost before = views(r@);
        let mut k: usize = 0;
        while k < part.len()
            invariant
                k <= part@.len(),
                views(r@) == before + views(part@).take(k as int),
            decreases part@.len() - k,
        {
            let ghost prev = r@;
            let item = part[k].clone();
            r.push(item);
            proof {
                assert(item@ == part@[k as int]@);
                assert(views(r@) =~= views(prev).push(item@));
                assert(views(part@).take(k + 1) =~= views(part@).take(k as int).push(part@[k as int]@));
                assert(views(r@) =~= before + views(part@).take(k + 1));
            }
            k = k + 1;
        }
        proof {
            assert(views(part@).take(part@.len() as int) =~= views(part@));
            lemma_unsatisfied_list_take(conditions@, i as int, *protocol, *context.store, wu, partial);
        }
        i = i + 1;
    }
    proof {
        assert(conditions@.take(conditions@.len() as int) =~= conditions@);
    }
    r
}


// ---------------------------------------------------------------------------
// Candidate classification.
// ---------------------------------------------------------------------------

/// The work unit a protocol is evaluated for in the scope, if it is in scope:
/// unscoped protocols once without a work unit, scoped ones for the scope's
/// work unit.
pub open spec fn scope_work_unit(p: ProtocolDeclaration, scope: EvaluationScope) -> Option<Option<Seq<char>>> {
    match scope {
        EvaluationScope::Unscoped => if !p.scoped { Some(None) } else { None },
        EvaluationScope::Scoped(w) => if p.scoped { Some(Some(w@)) } else { None },
    }
}

/// The work units the protocol is evaluated for in the scope: none, or one.
pub fn candidate_work_units_for_scope(protocol: &ProtocolDeclaration, scope: EvaluationScope) -> (r: Vec<Option<String>>)
    ensures
        match scope_work_unit(*protocol, scope) {
            None => r@.len() == 0,
            Some(w) => r@.len() == 1 && opt_string(r@[0]) == w,
        },
{
    let mut r: Vec<Option<String>> = Vec::new();
    match scope {
        EvaluationScope::Unscoped => {
            if !protocol.scoped {
                r.push(None);
            }
        },
        EvaluationScope::Scoped(work_unit) => {
            if protocol.scoped {
                r.push(Some(owned(work_unit)));
            }
        },
    }
    r
}

fn protocol_in_scope(protocol: &ProtocolDeclaration, scope: EvaluationScope) -> (r: bool)
    ensures
        r == scope_work_unit(*protocol, scope) is Some,
{
    match scope {
        EvaluationScope::Unscoped => !protocol.scoped,
        EvaluationScope::Scoped(_) => protocol.scoped,
    }
}

/// The names of the protocols of `ps` that lie outside the scope, in
/// declaration order.
pub open spec fn out_of_scope_names(ps: Seq<ProtocolDeclaration>, scope: EvaluationScope) -> Seq<Seq<char>>
    decreases ps.len(),
{
    if ps.len() == 0 {
        Seq::empty()
    } else if scope_work_unit(ps.last(), scope) is Some {
        out_of_scope_names(ps.drop_last(), scope)
    } else {
        out_of_scope_names(ps.drop_last(), scope).push(ps.last().name@)
    }
}

/// The names of the protocols of `ps` in the scope that `members` holds, in
/// declaration order.
pub open spec fn in_scope_members(ps: Seq<ProtocolDeclaration>, scope: EvaluationScope, members: Seq<Seq<char>>) -> Seq<Seq<char>>
    decreases ps.len(),
{
    if ps.len() == 0 {
        Seq::empty()
    } else if scope_work_unit(ps.last(), scope) is Some && members.contains(ps.last().name@) {
        in_scope_members(ps.drop_last(), scope, members).push(ps.last().name@)
    } else {
        in_scope_members(ps.drop_last(), scope, members)
    }
}

/// A name is left out of the evaluation exactly when some protocol of that
/// name lies outside the scope: an unscoped evaluation leaves out the scoped
/// protocols, a scoped one the unscoped protocols.
pub proof fn law_out_of_scope_names(ps: Seq<ProtocolDeclaration>, scope: EvaluationScope, t: Seq<char>)
    ensures
        out_of_scope_names(ps, scope).contains(t) <==> exists|i: int| 0 <= i < ps.len() && #[trigger] ps[i].name@ == t
            && ps[i].scoped == (scope is Unscoped),
    decreases ps.len(),
{
    if ps.len() > 0 {
        let rest = ps.drop_last();
        law_out_of_scope_names(rest, scope, t);
        let prev = out_of_scope_names(rest, scope);
        if exists|i: int| 0 <= i < ps.len() && #[trigger] ps[i].name@ == t && ps[i].scoped == (scope is Unscoped) {
            let i = choose|i: int| 0 <= i < ps.len() && #[trigger] ps[i].name@ == t && ps[i].scoped == (scope is Unscoped);
            if i < ps.len() - 1 {
                assert(rest[i] == ps[i]);
                assert(prev.contains(t));
                if !(scope_work_unit(ps.last(), scope) is Some) {
                    assert(out_of_scope_names(ps, scope) == prev.push(ps.last().name@));
                    assert(out_of_scope_names(ps, scope)[prev.index_of(t)] == t);
                }
            } else {
                assert(out_of_scope_names(ps, scope) == prev.push(ps.last().name@));
                assert(out_of_scope_names(ps, scope)[prev.len() as int] == t);
            }
        }
        if out_of_scope_names(ps, scope).contains(t) {
            if !(scope_work_unit(ps.last(), scope) is Some) && t == ps.last().name@ {
                assert(ps[ps.len() - 1].name@ == t);
            } else {
                if !(scope_work_unit(ps.last(), scope) is Some) {
                    let k = choose|k: int| 0 <= k < out_of_scope_names(ps, scope).len() && out_of_scope_names(ps, scope)[k] == t;
                    assert(k < prev.len());
                    assert(prev[k] == t);
                }
                assert(prev.contains(t));
                let i = choose|i: int| 0 <= i < rest.len() && #[trigger] rest[i].name@ == t && rest[i].scoped == (scope is Unscoped);
                assert(ps[i] == rest[i]);
            }
        }
    }
}

/// A name is reported after the others, among the members of a cycle,
/// exactly when the cycle holds it and some protocol of that name lies in
/// the scope.
pub proof fn law_in_scope_members(ps: Seq<ProtocolDeclaration>, scope: EvaluationScope, members: Seq<Seq<char>>, t: Seq<char>)
    ensures
        in_scope_members(ps, scope, members).contains(t) <==> members.contains(t) && exists|i: int| 0 <= i < ps.len()
            && #[trigger] ps[i].name@ == t && ps[i].scoped == (scope is Scoped),
    decreases ps.len(),
{
    if ps.len() > 0 {
        let rest = ps.drop_last();
        law_in_scope_members(rest, scope, members, t);
        let prev = in_scope_members(rest, scope, members);
        let keep = scope_work_unit(ps.last(), scope) is Some && members.contains(ps.last().name@);
        if members.contains(t) && exists|i: int| 0 <= i < ps.len() && #[trigger] ps[i].name@ == t && ps[i].scoped == (scope is Scoped) {
            let i = choose|i: int| 0 <= i < ps.len() && #[trigger] ps[i].name@ == t && ps[i].scoped == (scope is Scoped);
            if i < ps.len() - 1 {
                assert(rest[i] == ps[i]);
                assert(prev.contains(t));
                if keep {
                    assert(in_scope_members(ps, scope, members) == prev.push(ps.last().name@));
                    assert(in_scope_members(ps, scope, members)[prev.index_of(t)] == t);
                }
            } else {
                assert(in_scope_members(ps, scope, members) == prev.push(ps.last().name@));
                assert(in_scope_members(ps, scope, members)[prev.len() as int] == t);
            }
        }
        if in_scope_members(ps, scope, members).contains(t) {
            if keep && t == ps.last().name@ {
                assert(ps[ps.len() - 1].name@ == t);
            } else {
                if keep {
                    let k = choose|k: int| 0 <= k < in_scope_members(ps, scope, members).len() && in_scope_members(ps, scope, members)[k] == t;
                    assert(k < prev.len());
                    assert(prev[k] == t);
                }
                assert(prev.contains(t));
                let i = choose|i: int| 0 <= i < rest.len() && #[trigger] rest[i].name@ == t && rest[i].scoped == (scope is Scoped);
                assert(ps[i] == rest[i]);
            }
        }
    }
}

/// `names` lists the names of the protocols `ord` of the graph, in order.
pub open spec fn names_of_order(g: DependencyGraph, names: Seq<Seq<char>>, ord: Seq<usize>) -> bool {
    &&& names.len() == ord.len()
    &&& forall|k: int| 0 <= k < ord.len() ==> #[trigger] names[k] == g.name(ord[k] as int)
}

/// What the orders of an evaluation are: with the out-of-scope protocols
/// left out, either every remaining protocol in an order that respects hard
/// dependencies, reported and executed alike; or a hard cycle among them,
/// the remaining protocols outside the cycle executed in such an order as
/// far as one exists, and reported followed by the in-scope members of the
/// cycle in declaration order.
pub open spec fn topology_resolved(ps: Seq<ProtocolDeclaration>, g: DependencyGraph, scope: EvaluationScope,
    t: EvaluationTopology) -> bool {
    let ex = out_of_scope_names(ps, scope);
    &&& g.soft_orderable(ex) ==> t.cycle is None
    &&& match t.cycle {
        None => {
            &&& views(t.status_order@) == views(t.execution_order@)
            &&& exists|ord: Seq<usize>| #[trigger] g.order_within(ex, ord) && g.covers_within(ex, ord)
                && g.respects_within(false, ex, ord) && (g.soft_orderable(ex) ==> g.respects_within(true, ex, ord))
                && names_of_order(g, views(t.execution_order@), ord)
        },
        Some(c) => {
            &&& exists|cyc: Seq<usize>| #[trigger] g.is_hard_cycle_within(ex, cyc) && names_of_order(g, views(c.path@), cyc)
            &&& exists|ord: Seq<usize>| #[trigger] g.order_within(ex + views(c.path@), ord)
                && g.respects_within(false, ex + views(c.path@), ord) && g.stuck_within(false, ex + views(c.path@), ord)
                && names_of_order(g, views(t.execution_order@), ord)
            &&& views(t.status_order@) == views(t.execution_order@) + in_scope_members(ps, scope, views(c.path@))
        },
    }
}

/// The names of the protocols outside the scope, in declaration order.
fn out_of_scope_protocol_names(protocols: &[ProtocolDeclaration], scope: EvaluationScope) -> (r: Vec<String>)
    ensures
        views(r@) == out_of_scope_names(protocols@, scope),
{
    let mut r: Vec<String> = Vec::new();
    let mut i: usize = 0;
    while i < protocols.len()
        invariant
            i <= protocols@.len(),
            views(r@) == out_of_scope_names(protocols@.subrange(0, i as int), scope),
        decreases protocols@.len() - i,
    {
        let ghost before = r@;
        proof {
            assert(protocols@.subrange(0, i + 1).drop_last() =~= protocols@.subrange(0, i as int));
            assert(protocols@.subrange(0, i + 1).last() == protocols@[i as int]);
        }
        if !protocol_in_scope(&protocols[i], scope) {
            r.push(owned(protocols[i].name.as_str()));
            proof {
                assert(views(r@) =~= views(before).push(protocols@[i as int].name@));
            }
        }
        i = i + 1;
    }
    proof {
        assert(protocols@.subrange(0, protocols@.len() as int) =~= protocols@);
    }
    r
}

/// The names of the protocols in the scope that `members` holds, in
/// declaration order.
fn in_scope_member_names(protocols: &[ProtocolDeclaration], scope: EvaluationScope, members: &Vec<String>) -> (r: Vec<String>)
    ensures
        views(r@) == in_scope_members(protocols@, scope, views(members@)),
{
    let mut r: Vec<String> = Vec::new();
    let mut i: usize = 0;
    while i < protocols.len()
        invariant
            i <= protocols@.len(),
            views(r@) == in_scope_members(protocols@.subrange(0, i as int), scope, views(members@)),
        decreases protocols@.len() - i,
    {
        let ghost before = r@;
        proof {
            assert(protocols@.subrange(0, i + 1).drop_last() =~= protocols@.subrange(0, i as int));
            assert(protocols@.subrange(0, i + 1).last() == protocols@[i as int]);
        }
        if protocol_in_scope(&protocols[i], scope) && contains_str(members, protocols[i].name.as_str()) {
            r.push(owned(protocols[i].name.as_str()));
            proof {
                assert(views(r@) =~= views(before).push(protocols@[i as int].name@));
            }
        }
        i = i + 1;
    }
    proof {
        assert(protocols@.subrange(0, protocols@.len() as int) =~= protocols@);
    }
    r
}

/// The list `a` followed by the list `b`.
fn concat_strings(a: &Vec<String>, b: &Vec<String>) -> (r: Vec<String>)
    ensures
        views(r@) == views(a@) + views(b@),
{
    let mut r = clone_strings(a);
    let mut k: usize = 0;
    while k < b.len()
        invariant
            k <= b@.len(),
            views(r@) == views(a@) + views(b@.subrange(0, k as int)),
        decreases b@.len() - k,
    {
        let ghost before = r@;
        r.push(owned(b[k].as_str()));
        proof {
            assert(views(r@) =~= views(before).push(b@[k as int]@));
            assert(views(b@.subrange(0, k + 1)) =~= views(b@.subrange(0, k as int)).push(b@[k as int]@));
        }
        k = k + 1;
    }
    proof {
        assert(b@.subrange(0, b@.len() as int) =~= b@);
    }
    r
}

/// Names given element by element as views.
proof fn lemma_names_as_views(g: DependencyGraph, names: Seq<String>, ord: Seq<usize>)
    requires
        names.len() == ord.len(),
        forall|k: int| 0 <= k < ord.len() ==> #[trigger] names[k]@ == g.name(ord[k] as int),
    ensures
        names_of_order(g, views(names), ord),
{
    assert forall|k: int| 0 <= k < ord.len() implies #[trigger] views(names)[k] == g.name(ord[k] as int) by {
        assert(names[k]@ == g.name(ord[k] as int));
    }
}

/// The orders in which the protocols of the scope are reported and executed:
/// the out-of-scope protocols are left out; when a hard cycle remains, its
/// members are left out of execution and reported after the others.
pub fn resolve_evaluation_topology(protocols: &[ProtocolDeclaration], graph: &DependencyGraph, scope: EvaluationScope)
    -> (r: EvaluationTopology)
    ensures
        topology_resolved(protocols@, *graph, scope, r),
{
    let excluded = out_of_scope_protocol_names(protocols, scope);
    let ghost ex = out_of_scope_names(protocols@, scope);
    match graph.topological_order_filtered(&excluded) {
        Ok(order) => {
            let status_order = clone_strings(&order);
            proof {
                let ord = choose|ord: Seq<usize>| #[trigger] graph.order_within(views(excluded@), ord)
                    && graph.covers_within(views(excluded@), ord) && graph.respects_within(false, views(excluded@), ord)
                    && (graph.soft_orderable(views(excluded@)) ==> graph.respects_within(true, views(excluded@), ord))
                    && order@.len() == ord.len() && forall|k: int| 0 <= k < ord.len() ==> #[trigger] order@[k]@ == graph.name(ord[k] as int);
                lemma_names_as_views(*graph, order@, ord);
                assert(graph.order_within(ex, ord));
            }
            EvaluationTopology { status_order, execution_order: order, cycle: None }
        },
        Err(cycle) => {
            let combined = concat_strings(&excluded, &cycle.path);
            let execution_order = graph.topological_order_excluding(&combined);
            let members = in_scope_member_names(protocols, scope, &cycle.path);
            let status_order = concat_strings(&execution_order, &members);
            proof {
                let cyc = choose|cyc: Seq<usize>| #[trigger] graph.is_hard_cycle_within(views(excluded@), cyc)
                    && cycle.path@.len() == cyc.len() && forall|k: int| 0 <= k < cyc.len() ==> #[trigger] cycle.path@[k]@ == graph.name(cyc[k] as int);
                lemma_names_as_views(*graph, cycle.path@, cyc);
                assert(graph.is_hard_cycle_within(ex, cyc));
                let ord = choose|ord: Seq<usize>| #[trigger] graph.order_within(views(combined@), ord)
                    && graph.respects_within(false, views(combined@), ord) && graph.stuck_within(false, views(combined@), ord)
                    && execution_order@.len() == ord.len() && forall|k: int| 0 <= k < ord.len() ==> #[trigger] execution_order@[k]@ == graph.name(ord[k] as int);
                lemma_names_as_views(*graph, execution_order@, ord);
                assert(graph.order_within(ex + views(cycle.path@), ord));
            }
            EvaluationTopology { status_order, execution_order, cycle: Some(cycle) }
        },
    }
}

/// `i` is the first protocol of the list with the given name.
pub open spec fn first_named(ps: Seq<ProtocolDeclaration>, name: Seq<char>, i: int) -> bool {
    &&& 0 <= i < ps.len()
    &&& ps[i].name@ == name
    &&& forall|j: int| 0 <= j < i ==> (#[trigger] ps[j]).name@ != name
}

/// The position of the first protocol with the given name, if any.
pub open spec fn lookup(ps: Seq<ProtocolDeclaration>, name: Seq<char>) -> Option<int> {
    if exists|i: int| #[trigger] first_named(ps, name, i) {
        Some(choose|i: int| #[trigger] first_named(ps, name, i))
    } else {
        None
    }
}

/// The names of a list of string slices.
pub open spec fn str_views(s: Seq<&str>) -> Seq<Seq<char>> {
    s.map_values(|x: &str| x@)
}

/// The `(protocol position, work unit)` pairs evaluated for an order: for
/// each name in order that names a protocol in scope, that protocol with its
/// work unit.
pub open spec fn slots(ps: Seq<ProtocolDeclaration>, order: Seq<Seq<char>>, scope: EvaluationScope) -> Seq<(int, Option<Seq<char>>)>
    decreases order.len(),
{
    if order.len() == 0 {
        Seq::empty()
    } else {
        let prev = slots(ps, order.drop_last(), scope);
        match lookup(ps, order.last()) {
            None => prev,
            Some(i) => match scope_work_unit(ps[i], scope) {
                None => prev,
                Some(w) => prev.push((i, w)),
            },
        }
    }
}

/// Every required type has instances in scope and all are valid.
pub open spec fn preconditions_hold(store: ArtifactStore, p: ProtocolDeclaration, wu: Option<Seq<char>>) -> bool {
    forall|k: int| 0 <= k < p.requires@.len() ==> store.all_valid(#[trigger] p.requires@[k]@, wu)
}

/// `fs` are the precondition failures `enforce_preconditions` reports.
pub open spec fn precondition_failures(store: ArtifactStore, p: ProtocolDeclaration, wu: Option<Seq<char>>, fs: Seq<ArtifactFailure>) -> bool {
    if preconditions_hold(store, p, wu) {
        fs.len() == 0
    } else {
        failures_for(store, wu, views(p.requires@), Relationship::Requires, fs)
    }
}

/// The untrusted trigger types, then the partially scanned required types.
pub open spec fn trigger_failures(p: ProtocolDeclaration, partial: Seq<Seq<char>>, te: TrustView) -> Seq<Seq<char>> {
    append_unique(te.2, partial_only(views(p.requires@), partial))
}

/// The partially scanned required types, each once.
pub open spec fn readiness_failures(p: ProtocolDeclaration, partial: Seq<Seq<char>>) -> Seq<Seq<char>> {
    append_unique(Seq::empty(), partial_only(views(p.requires@), partial))
}

/// The status a candidate gets. With the trigger satisfied: ready when no
/// input type is untrusted, the preconditions hold and the outputs are not
/// current; waiting when the outputs are current; blocked otherwise. With
/// the trigger unsatisfied: waiting, with the reasons, unless an untrusted
/// scan leaves the verdict open, which blocks it.
pub open spec fn status_holds(p: ProtocolDeclaration, store: ArtifactStore, wu: Option<Seq<char>>, partial: Seq<Seq<char>>, te: TrustView, st: CandidateStatus) -> bool {
    let tf = trigger_failures(p, partial, te);
    if te.0 {
        let all = append_unique(protocol_scan_failures(p, partial), tf);
        if all.len() == 0 && preconditions_hold(store, p, wu) {
            if is_current(p, store, wu, partial) {
                st matches CandidateStatus::Waiting { unsatisfied_conditions }
                    && views(unsatisfied_conditions@) == seq!["outputs are current"@]
            } else {
                st is Ready
            }
        } else {
            st matches CandidateStatus::Blocked { precondition_failures: pf, scan_incomplete_types: sf }
                && views(sf@) == all && precondition_failures(store, p, wu, pf@)
        }
    } else if tf.len() == 0 && readiness_failures(p, partial).len() == 0 {
        st matches CandidateStatus::Waiting { unsatisfied_conditions }
            && views(unsatisfied_conditions@) == unsatisfied(p.trigger, p, store, wu, partial)
    } else {
        st matches CandidateStatus::Blocked { precondition_failures: pf, scan_incomplete_types: sf }
            && views(sf@) == append_unique(readiness_failures(p, partial), tf) && precondition_failures(store, p, wu, pf@)
    }
}

/// The classification of protocol `p` for work unit `wu`.
pub open spec fn classification_holds(p: ProtocolDeclaration, store: ArtifactStore, wu: Option<Seq<char>>, partial: Seq<Seq<char>>, c: ClassifiedCandidate) -> bool {
    let te = trust(p.trigger, p, store, wu, partial, partial);
    &&& c.protocol_name@ == p.name@
    &&& opt_string(c.work_unit) == wu
    &&& c.trigger_satisfied == te.0
    &&& c.scan_trust.trusted == te.1
    &&& views(c.scan_trust.incomplete_types@) == te.2
    &&& status_holds(p, store, wu, partial, te, c.status)
}

fn opt_clone(s: &Option<String>) -> (r: Option<String>)
    ensures
        opt_string(r) == opt_string(*s),
{
    match s {
        Some(v) => Some(v.clone()),
        None => None,
    }
}

fn precondition_failure_list(protocol: &ProtocolDeclaration, store: &ArtifactStore, work_unit: Option<&str>) -> (r: Vec<ArtifactFailure>)
    ensures
        precondition_failures(*store, *protocol, opt_str(work_unit), r@),
{
    match enforce_preconditions(protocol, store, work_unit) {
        Ok(()) => Vec::new(),
        Err(err) => err.failures,
    }
}

fn classify_one(protocol: &ProtocolDeclaration, store: &ArtifactStore, wu: &Option<String>, partially_scanned_types: &Vec<String>,
    protocol_scan_failures_v: &Vec<String>, readiness_scan_failures: &Vec<String>, freshness_inputs: &Vec<(String, FreshnessInputMode)>) -> (r: ClassifiedCandidate)
    requires
        views(protocol_scan_failures_v@) == protocol_scan_failures(*protocol, views(partially_scanned_types@)),
        views(readiness_scan_failures@) == readiness_failures(*protocol, views(partially_scanned_types@)),
        forall|t: Seq<char>| input_names(freshness_inputs@).contains(t) <==> relevant(*protocol, t),
    ensures
        classification_holds(*protocol, *store, opt_string(*wu), views(partially_scanned_types@), r),
{
    let ghost partial = views(partially_scanned_types@);
    let ghost w = opt_string(*wu);
    let wu_ref = opt_as_str(wu);
    let context = TriggerContext { store, work_unit: wu_ref, partially_scanned_types };
    let trigger_eval = evaluate_trigger_trust(&protocol.trigger, protocol, &context, partially_scanned_types);
    let ghost te = trust(protocol.trigger, *protocol, *store, w, partial, partial);
    assert(tv(trigger_eval) == te);
    let scan_trust = ScanTrust { trusted: trigger_eval.trusted, incomplete_types: crate::text::clone_strings(&trigger_eval.scan_types) };
    let trigger_scan_failures = trigger_scan_incomplete_failures(protocol, partially_scanned_types, &trigger_eval.scan_types);
    assert(views(trigger_scan_failures@) == trigger_failures(*protocol, partial, te));
    let status = if trigger_eval.satisfied {
        let mut all_scan_failures = crate::text::clone_strings(protocol_scan_failures_v);
        append_unique_into(&mut all_scan_failures, &trigger_scan_failures);
        let precondition_failures = precondition_failure_list(protocol, store, wu_ref);
        if all_scan_failures.len() == 0 && precondition_failures.len() == 0 {
            proof {
                if !preconditions_hold(*store, *protocol, w) {
                    lemma_failures_nonempty(*store, w, views(protocol.requires@), precondition_failures@);
                    assert forall|k: int| 0 <= k < protocol.requires@.len() implies store.all_valid(#[trigger] protocol.requires@[k]@, w) by {
                        assert(views(protocol.requires@)[k] == protocol.requires@[k]@);
                    }
                }
            }
            if protocol_is_current(protocol, store, freshness_inputs, wu_ref, partially_scanned_types) {
                let mut reasons: Vec<String> = Vec::new();
                reasons.push(owned("outputs are current"));
                assert(views(reasons@) =~= seq!["outputs are current"@]);
                let st = CandidateStatus::Waiting { unsatisfied_conditions: reasons };
                assert(status_holds(*protocol, *store, w, partial, te, st));
                st
            } else {
                let st = CandidateStatus::Ready;
                assert(status_holds(*protocol, *store, w, partial, te, st));
                st
            }
        } else {
            proof {
                if preconditions_hold(*store, *protocol, w) {
                    assert(precondition_failures@.len() == 0);
                }
            }
            let st = CandidateStatus::Blocked { precondition_failures, scan_incomplete_types: all_scan_failures };
            assert(status_holds(*protocol, *store, w, partial, te, st));
            st
        }
    } else if trigger_scan_failures.len() == 0 && readiness_scan_failures.len() == 0 {
        let reasons = collect_unsatisfied_conditions(&protocol.trigger, protocol, &context);
        let st = CandidateStatus::Waiting { unsatisfied_conditions: reasons };
        assert(status_holds(*protocol, *store, w, partial, te, st));
        st
    } else {
        let mut all_scan_failures = crate::text::clone_strings(readiness_scan_failures);
        append_unique_into(&mut all_scan_failures, &trigger_scan_failures);
        let precondition_failures = precondition_failure_list(protocol, store, wu_ref);
        let st = CandidateStatus::Blocked { precondition_failures, scan_incomplete_types: all_scan_failures };
        assert(status_holds(*protocol, *store, w, partial, te, st));
        st
    };
    ClassifiedCandidate {
        protocol_name: protocol.name.clone(),
        work_unit: opt_clone(wu),
        status,
        trigger_satisfied: trigger_eval.satisfied,
        scan_trust,
    }
}

proof fn lemma_failures_nonempty(store: ArtifactStore, wu: Option<Seq<char>>, types: Seq<Seq<char>>, fs: Seq<ArtifactFailure>)
    requires
        failures_for(store, wu, types, Relationship::Requires, fs),
        fs.len() == 0,
    ensures
        forall|k: int| 0 <= k < types.len() ==> store.all_valid(#[trigger] types[k], wu),
    decreases types.len(),
{
    if types.len() > 0 {
        lemma_failures_nonempty(store, wu, types.drop_last(), fs);
        assert forall|k: int| 0 <= k < types.len() implies store.all_valid(#[trigger] types[k], wu) by {
            if k < types.len() - 1 {
                assert(types.drop_last()[k] == types[k]);
            }
        }
    }
}


pub(crate) fn find_protocol<'a>(protocols: &'a [ProtocolDeclaration], name: &str) -> (r: Option<usize>)
    ensures
        match r {
            None => lookup(protocols@, name@) is None,
            Some(i) => lookup(protocols@, name@) == Some(i as int) && i < protocols@.len(),
        },
{
    let mut i: usize = 0;
    while i < protocols.len()
        invariant
            i <= protocols@.len(),
            forall|j: int| 0 <= j < i ==> (#[trigger] protocols@[j]).name@ != name@,
        decreases protocols@.len() - i,
    {
        if str_eq(protocols[i].name.as_str(), name) {
            proof {
                assert(first_named(protocols@, name@, i as int));
                let c = choose|c: int| #[trigger] first_named(protocols@, name@, c);
                if c < i {
                    assert(protocols@[c].name@ != name@);
                }
                if c > i {
                    assert(protocols@[i as int].name@ != name@);
                }
            }
            return Some(i);
        }
        i = i + 1;
    }
    proof {
        if exists|c: int| #[trigger] first_named(protocols@, name@, c) {
            let c = choose|c: int| #[trigger] first_named(protocols@, name@, c);
            assert(protocols@[c].name@ != name@);
        }
    }
    None
}

/// Classify every `(protocol, work_unit)` pair of the scope as ready,
/// blocked or waiting.
///
/// Protocols are taken in the given order (the first declaration of each
/// name), each with the work unit of the scope it is in; the classification
/// follows from trigger satisfaction and trust, scan completeness,
/// preconditions and output freshness.
pub fn classify_candidates(protocols: &[ProtocolDeclaration], store: &ArtifactStore, topological_order: &[&str],
    partially_scanned_types: &Vec<String>, scope: EvaluationScope) -> (r: Vec<ClassifiedCandidate>)
    ensures
        r@.len() == slots(protocols@, str_views(topological_order@), scope).len(),
        forall|k: int| 0 <= k < r@.len() ==> classification_holds(protocols@[slots(protocols@, str_views(topological_order@), scope)[k].0],
            *store, slots(protocols@, str_views(topological_order@), scope)[k].1, views(partially_scanned_types@), #[trigger] r@[k]),
{
    let ghost ps = protocols@;
    let ghost order = str_views(topological_order@);
    let ghost partial = views(partially_scanned_types@);
    let mut classified: Vec<ClassifiedCandidate> = Vec::new();
    let mut oi: usize = 0;
    while oi < topological_order.len()
        invariant
            oi <= topological_order@.len(),
            ps == protocols@,
            order == str_views(topological_order@),
            partial == views(partially_scanned_types@),
            classified@.len() == slots(ps, order.take(oi as int), scope).len(),
            forall|k: int| 0 <= k < classified@.len() ==> classification_holds(ps[slots(ps, order.take(oi as int), scope)[k].0],
                *store, slots(ps, order.take(oi as int), scope)[k].1, partial, #[trigger] classified@[k]),
        decreases topological_order@.len() - oi,
    {
        let name: &str = topological_order[oi];
        let ghost prev = slots(ps, order.take(oi as int), scope);
        let ghost cur_order = order.take(oi + 1);
        proof {
            assert(cur_order.drop_last() =~= order.take(oi as int));
            assert(cur_order.last() == name@);
        }
        match find_protocol(protocols, name) {
            None => {},
            Some(pi) => {
                let protocol = &protocols[pi];
                let work_units = candidate_work_units_for_scope(protocol, scope);
                if work_units.len() > 0 {
                    let protocol_scan_failures_v = protocol_scan_incomplete_types(protocol, partially_scanned_types);
                    let readiness_scan_failures = precondition_scan_incomplete_types(protocol, partially_scanned_types);
                    let freshness_inputs = protocol_freshness_inputs(protocol);
                    let c = classify_one(protocol, store, &work_units[0], partially_scanned_types, &protocol_scan_failures_v,
                        &readiness_scan_failures, &freshness_inputs);
                    let ghost before = classified@;
                    classified.push(c);
                    proof {
                        let cur = slots(ps, cur_order, scope);
                        assert(cur == prev.push((pi as int, opt_string(work_units@[0]))));
                        assert forall|k: int| 0 <= k < classified@.len() implies classification_holds(ps[cur[k].0],
                            *store, cur[k].1, partial, #[trigger] classified@[k]) by {
                            if k < before.len() {
                                assert(cur[k] == prev[k]);
                                assert(classified@[k] == before[k]);
                            }
                        }
                    }
                }
            },
        }
        oi = oi + 1;
    }
    proof {
        assert(order.take(topological_order@.len() as int) =~= order);
    }
    classified
}

/// The candidate is ready: its trigger is satisfied, no input type is
/// untrusted, its preconditions hold and its outputs are not current.
pub open spec fn is_ready(p: ProtocolDeclaration, store: ArtifactStore, wu: Option<Seq<char>>, partial: Seq<Seq<char>>) -> bool {
    let te = trust(p.trigger, p, store, wu, partial, partial);
    &&& te.0
    &&& append_unique(protocol_scan_failures(p, partial), trigger_failures(p, partial, te)).len() == 0
    &&& preconditions_hold(store, p, wu)
    &&& !is_current(p, store, wu, partial)
}

/// The slots whose candidates are ready, in order.
pub open spec fn ready_slots(ps: Seq<ProtocolDeclaration>, store: ArtifactStore, partial: Seq<Seq<char>>, sl: Seq<(int, Option<Seq<char>>)>) -> Seq<(int, Option<Seq<char>>)>
    decreases sl.len(),
{
    if sl.len() == 0 {
        Seq::empty()
    } else {
        let prev = ready_slots(ps, store, partial, sl.drop_last());
        if is_ready(ps[sl.last().0], store, sl.last().1, partial) {
            prev.push(sl.last())
        } else {
            prev
        }
    }
}

/// Discover the `(protocol, work_unit)` pairs that are ready for execution,
/// in the given protocol order: those `classify_candidates` classifies as
/// ready.
pub fn discover_ready_candidates(protocols: &[ProtocolDeclaration], store: &ArtifactStore, topological_order: &[&str],
    partially_scanned_types: &Vec<String>, scope: EvaluationScope) -> (r: Vec<Candidate>)
    ensures
        ({
            let rs = ready_slots(protocols@, *store, views(partially_scanned_types@), slots(protocols@, str_views(topological_order@), scope));
            &&& r@.len() == rs.len()
            &&& forall|k: int| 0 <= k < r@.len() ==> (#[trigger] r@[k]).protocol_name@ == protocols@[rs[k].0].name@
                && opt_string(r@[k].work_unit) == rs[k].1
        }),
{
    let classified = classify_candidates(protocols, store, topological_order, partially_scanned_types, scope);
    let ghost ps = protocols@;
    let ghost partial = views(partially_scanned_types@);
    let ghost sl = slots(protocols@, str_views(topological_order@), scope);
    let mut r: Vec<Candidate> = Vec::new();
    let mut i: usize = 0;
    while i < classified.len()
        invariant
            i <= classified@.len(),
            ps == protocols@,
            partial == views(partially_scanned_types@),
            classified@.len() == sl.len(),
            forall|k: int| 0 <= k < classified@.len() ==> classification_holds(ps[sl[k].0], *store, sl[k].1, partial, #[trigger] classified@[k]),
            r@.len() == ready_slots(ps, *store, partial, sl.take(i as int)).len(),
            forall|k: int| 0 <= k < r@.len() ==> (#[trigger] r@[k]).protocol_name@ == ps[ready_slots(ps, *store, partial, sl.take(i as int))[k].0].name@
                && opt_string(r@[k].work_unit) == ready_slots(ps, *store, partial, sl.take(i as int))[k].1,
        decreases classified@.len() - i,
    {
        let c = &classified[i];
        let ghost s = sl.take(i + 1);
        let ghost prev = ready_slots(ps, *store, partial, sl.take(i as int));
        proof {
            assert(s.drop_last() =~= sl.take(i as int));
            assert(s.last() == sl[i as int]);
            assert(classification_holds(ps[sl[i as int].0], *store, sl[i as int].1, partial, classified@[i as int]));
            let p = ps[sl[i as int].0];
            let wu = sl[i as int].1;
            let te = trust(p.trigger, p, *store, wu, partial, partial);
            assert((c.status is Ready) == is_ready(p, *store, wu, partial));
        }
        match c.status {
            CandidateStatus::Ready => {
                let ghost before = r@;
                r.push(Candidate { protocol_name: c.protocol_name.clone(), work_unit: opt_clone(&c.work_unit) });
                proof {
                    let cur = ready_slots(ps, *store, partial, s);
                    assert(cur == prev.push(sl[i as int]));
                    assert forall|k: int| 0 <= k < r@.len() implies (#[trigger] r@[k]).protocol_name@ == ps[cur[k].0].name@
                        && opt_string(r@[k].work_unit) == cur[k].1 by {
                        if k < before.len() {
                            assert(r@[k] == before[k]);
                            assert(cur[k] == prev[k]);
                        }
                    }
                }
            },
            _ => {},
        }
        i = i + 1;
    }
    proof {
        assert(sl.take(sl.len() as int) =~= sl);
    }
    r
}


// ---------------------------------------------------------------------------
// Laws.
// ---------------------------------------------------------------------------

proof fn lemma_append_unique_empty(t: Seq<Seq<char>>, vs: Seq<Seq<char>>)
    ensures
        (append_unique(t, vs).len() == 0) <==> (t.len() == 0 && vs.len() == 0),
        append_unique(t, vs).len() >= t.len(),
    decreases vs.len(),
{
    if vs.len() > 0 {
        lemma_append_unique_empty(t, vs.drop_last());
        let prev = append_unique(t, vs.drop_last());
        if prev.contains(vs.last()) {
            assert(prev.len() > 0);
        }
    }
}

proof fn lemma_gather_empty(ch: Seq<TrustView>, sel: int)
    ensures
        (gather(ch, sel).len() == 0) <==> forall|k: int| 0 <= k < ch.len() && picks(sel, #[trigger] ch[k]) ==> ch[k].2.len() == 0,
    decreases ch.len(),
{
    if ch.len() > 0 {
        lemma_gather_empty(ch.drop_last(), sel);
        let prev = gather(ch.drop_last(), sel);
        if picks(sel, ch.last()) {
            lemma_append_unique_empty(prev, ch.last().2);
        }
        if forall|k: int| 0 <= k < ch.len() && picks(sel, #[trigger] ch[k]) ==> ch[k].2.len() == 0 {
            assert forall|k: int| 0 <= k < ch.drop_last().len() && picks(sel, #[trigger] ch.drop_last()[k]) implies ch.drop_last()[k].2.len() == 0 by {
                assert(ch.drop_last()[k] == ch[k]);
            }
            assert(picks(sel, ch[ch.len() - 1]) ==> ch[ch.len() - 1].2.len() == 0);
        }
        if gather(ch, sel).len() == 0 {
            assert forall|k: int| 0 <= k < ch.len() && picks(sel, #[trigger] ch[k]) implies ch[k].2.len() == 0 by {
                if k < ch.len() - 1 {
                    assert(ch.drop_last()[k] == ch[k]);
                }
            }
        }
    }
}

proof fn lemma_trust_list_law(cs: Seq<TriggerCondition>, p: ProtocolDeclaration, store: ArtifactStore, wu: Option<Seq<char>>, partial: Seq<Seq<char>>, affected: Seq<Seq<char>>)
    ensures
        forall|i: int| 0 <= i < trust_list(cs, p, store, wu, partial, affected).len()
            ==> (#[trigger] trust_list(cs, p, store, wu, partial, affected)[i]).1
                == (trust_list(cs, p, store, wu, partial, affected)[i].2.len() == 0),
    decreases cs,
{
    lemma_trust_list(cs, p, store, wu, partial, affected);
    let l = trust_list(cs, p, store, wu, partial, affected);
    assert forall|i: int| 0 <= i < l.len() implies (#[trigger] l[i]).1 == (l[i].2.len() == 0) by {
        assert(decreases_to!(cs => cs[i]));
        law_trust_matches_untrusted_types(cs[i], p, store, wu, partial, affected);
    }
}

/// A trigger verdict is trusted exactly when no partially scanned type
/// makes it untrustworthy: the trust evaluation names such types whenever it
/// reports the verdict as untrusted, and only then.
pub proof fn law_trust_matches_untrusted_types(c: TriggerCondition, p: ProtocolDeclaration, store: ArtifactStore, wu: Option<Seq<char>>,
    partial: Seq<Seq<char>>, affected: Seq<Seq<char>>)
    ensures
        trust(c, p, store, wu, partial, affected).1 == (trust(c, p, store, wu, partial, affected).2.len() == 0),
    decreases c,
{
    match c {
        TriggerCondition::AllOf { conditions } => {
            let ch = trust_list(conditions@, p, store, wu, partial, affected);
            lemma_trust_list_law(conditions@, p, store, wu, partial, affected);
            lemma_gather_empty(ch, 0);
            if exists|k: int| 0 <= k < ch.len() && !(#[trigger] ch[k]).0 {
                let k = choose|k: int| 0 <= k < ch.len() && !(#[trigger] ch[k]).0;
                if !ch[k].1 {
                    assert(picks(0, ch[k]));
                }
            }
            if !(forall|k: int| 0 <= k < ch.len() ==> (#[trigger] ch[k]).1) {
                let k = choose|k: int| 0 <= k < ch.len() && !(#[trigger] ch[k]).1;
                assert(picks(0, ch[k]));
            }
        },
        TriggerCondition::AnyOf { conditions } => {
            let ch = trust_list(conditions@, p, store, wu, partial, affected);
            lemma_trust_list_law(conditions@, p, store, wu, partial, affected);
            lemma_gather_empty(ch, 1);
            lemma_gather_empty(ch, 2);
            if exists|k: int| 0 <= k < ch.len() && (#[trigger] ch[k]).0 {
                let k = choose|k: int| 0 <= k < ch.len() && (#[trigger] ch[k]).0;
                if !ch[k].1 {
                    assert(picks(1, ch[k]));
                }
            }
            if !(forall|k: int| 0 <= k < ch.len() ==> (#[trigger] ch[k]).1) {
                let k = choose|k: int| 0 <= k < ch.len() && !(#[trigger] ch[k]).1;
                if !ch[k].0 {
                    assert(picks(2, ch[k]));
                }
            }
        },
        _ => {},
    }
}

/// A ready candidate's trigger is satisfied, its verdict trusted, and no
/// partially scanned type is held against it.
pub proof fn law_ready_candidate_is_trusted(p: ProtocolDeclaration, store: ArtifactStore, wu: Option<Seq<char>>, partial: Seq<Seq<char>>,
    c: ClassifiedCandidate)
    requires
        classification_holds(p, store, wu, partial, c),
        c.status is Ready,
    ensures
        c.trigger_satisfied,
        c.scan_trust.trusted,
        views(c.scan_trust.incomplete_types@).len() == 0,
        preconditions_hold(store, p, wu),
        !is_current(p, store, wu, partial),
{
    let te = trust(p.trigger, p, store, wu, partial, partial);
    let tf = trigger_failures(p, partial, te);
    lemma_append_unique_empty(protocol_scan_failures(p, partial), tf);
    lemma_append_unique_empty(te.2, partial_only(views(p.requires@), partial));
    law_trust_matches_untrusted_types(p.trigger, p, store, wu, partial, partial);
}

/// A candidate is classified ready exactly when it is ready, so the pairs
/// `discover_ready_candidates` returns are those `classify_candidates`
/// classifies as ready.
pub proof fn law_classified_ready_iff_ready(p: ProtocolDeclaration, store: ArtifactStore, wu: Option<Seq<char>>, partial: Seq<Seq<char>>,
    c: ClassifiedCandidate)
    requires
        classification_holds(p, store, wu, partial, c),
    ensures
        (c.status is Ready) == is_ready(p, store, wu, partial),
{
}

} // verus!
