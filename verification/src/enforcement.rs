//! Pre- and post-execution enforcement of protocol contracts.
//!
//! - Pre-execution: every `requires` artifact type must have instances, all valid.
//! - Post-execution: every `produces` artifact type must have instances, all
//!   valid; `may_produce` types are checked only when instances exist.
//! - `accepts` types are never checked.
use vstd::prelude::*;

use crate::model::ProtocolDeclaration;
use crate::store::{ArtifactState, ArtifactStore, ValidationStatus, opt_str, pair_ids};
use crate::text::{decimal, owned, push_decimal, push_str, seq_lt, views};
use crate::validation::Violation;

verus! {

/// The declared relationship between a protocol and an artifact type.
#[derive(Debug, Clone, Copy, PartialEq, Eq, Structural)]
pub enum Relationship {
    Requires,
    Produces,
    MayProduce,
}

/// Why a single artifact type failed enforcement.
#[derive(Debug, Clone, PartialEq)]
pub enum ArtifactFailure {
    /// No instances of this artifact type exist in the store.
    Missing { artifact_type: String, relationship: Relationship },
    /// At least one instance exists but fails schema validation.
    Invalid { artifact_type: String, relationship: Relationship, violations: Vec<Violation> },
    /// At least one instance exists but is stale.
    Stale { artifact_type: String, relationship: Relationship, stale_count: usize },
}

/// The phase of enforcement that failed.
#[derive(Debug, Clone, Copy, PartialEq, Eq, Structural)]
pub enum Phase {
    Pre,
    Post,
}

/// A protocol's contracts are not satisfied: every failing artifact type.
#[derive(Debug, Clone, PartialEq)]
pub struct EnforcementError {
    pub skill_name: String,
    pub phase: Phase,
    pub failures: Vec<ArtifactFailure>,
}

/// The logical content of a violation.
pub struct ViolationView {
    pub artifact_type: Seq<char>,
    pub description: Seq<char>,
    pub schema_path: Seq<char>,
    pub instance_path: Seq<char>,
}

/// The view of a violation.
pub open spec fn violation_view(v: Violation) -> ViolationView {
    ViolationView {
        artifact_type: v.artifact_type@,
        description: v.description@,
        schema_path: v.schema_path@,
        instance_path: v.instance_path@,
    }
}

/// The views of a list of violations.
pub open spec fn violation_views(vs: Seq<Violation>) -> Seq<ViolationView> {
    vs.map_values(|v: Violation| violation_view(v))
}

/// The violations an instance of type `t` contributes: its schema
/// violations, or one `<parse>` violation when it is malformed.
pub open spec fn status_violations(t: Seq<char>, st: ArtifactState) -> Seq<ViolationView> {
    match st.status {
        ValidationStatus::Invalid(vs) => violation_views(vs@),
        ValidationStatus::Malformed(e) => seq![ViolationView {
            artifact_type: t,
            description: "malformed JSON: "@ + e@,
            schema_path: "<parse>"@,
            instance_path: Seq::empty(),
        }],
        _ => Seq::empty(),
    }
}

/// The violations of a list of instance states, in order.
pub open spec fn all_violations(t: Seq<char>, states: Seq<ArtifactState>) -> Seq<ViolationView>
    decreases states.len(),
{
    if states.len() == 0 {
        Seq::empty()
    } else {
        all_violations(t, states.drop_last()) + status_violations(t, states.last())
    }
}

/// The number of stale states in a list.
pub open spec fn stale_count(states: Seq<ArtifactState>) -> nat
    decreases states.len(),
{
    if states.len() == 0 {
        0
    } else {
        stale_count(states.drop_last()) + if states.last().status is Stale { 1nat } else { 0nat }
    }
}

/// `ids` lists the instances of type `t` in scope of `wu`, in id order.
pub open spec fn listing(store: ArtifactStore, t: Seq<char>, wu: Option<Seq<char>>, ids: Seq<Seq<char>>) -> bool {
    &&& forall|a: int, b: int| 0 <= a < b < ids.len() ==> seq_lt(#[trigger] ids[a], #[trigger] ids[b])
    &&& forall|k: int| 0 <= k < ids.len() ==> #[trigger] store.matching(t, wu, ids[k])
    &&& forall|id: Seq<char>| #[trigger] store.matching(t, wu, id) ==> ids.contains(id)
}

/// The states of the listed instances.
pub open spec fn listed_states(store: ArtifactStore, t: Seq<char>, ids: Seq<Seq<char>>) -> Seq<ArtifactState> {
    ids.map_values(|id: Seq<char>| store@[(t, id)])
}

/// `f` is the failure of type `t` under `rel` whose listed instances have
/// the given states.
pub open spec fn failure_for(t: Seq<char>, rel: Relationship, states: Seq<ArtifactState>, f: ArtifactFailure) -> bool {
    if states.len() == 0 {
        f == ArtifactFailure::Missing { artifact_type: f->Missing_artifact_type, relationship: rel }
            && f->Missing_artifact_type@ == t
    } else if all_violations(t, states).len() > 0 {
        f is Invalid && f->Invalid_artifact_type@ == t && f->Invalid_relationship == rel
            && violation_views(f->Invalid_violations@) == all_violations(t, states)
    } else {
        f is Stale && f->Stale_artifact_type@ == t && f->Stale_relationship == rel
            && f->Stale_stale_count == stale_count(states)
    }
}

/// What checking type `t` under `rel` against `store` gives: nothing when
/// every instance in scope is valid and there is one, else the failure.
pub open spec fn check_result(store: ArtifactStore, t: Seq<char>, wu: Option<Seq<char>>, rel: Relationship, r: Option<ArtifactFailure>) -> bool {
    if store.all_valid(t, wu) {
        r is None
    } else {
        r is Some && exists|ids: Seq<Seq<char>>| #[trigger] listing(store, t, wu, ids)
            && failure_for(t, rel, listed_states(store, t, ids), r->0)
    }
}

fn malformed_violation(artifact_type: &str, error: &String) -> (v: Violation)
    ensures
        violation_view(v) == (ViolationView {
            artifact_type: artifact_type@,
            description: "malformed JSON: "@ + error@,
            schema_path: "<parse>"@,
            instance_path: Seq::empty(),
        }),
{
    let mut description = owned("malformed JSON: ");
    push_str(&mut description, error.as_str());
    let v = Violation {
        artifact_type: owned(artifact_type),
        description,
        schema_path: owned("<parse>"),
        instance_path: String::new(),
    };
    assert(v.instance_path@ =~= Seq::<char>::empty());
    v
}

/// Check a single artifact type against the store: `None` when all its
/// instances in scope are valid, else why not.
pub fn check_artifact(store: &ArtifactStore, artifact_type: &str, relationship: Relationship, work_unit: Option<&str>) -> (r: Option<ArtifactFailure>)
    ensures
        check_result(*store, artifact_type@, opt_str(work_unit), relationship, r),
{
    if store.is_valid(artifact_type, work_unit) {
        return None;
    }
    let instances = store.instances_of(artifact_type, work_unit);
    let ghost t = artifact_type@;
    let ghost wu = opt_str(work_unit);
    let ghost ids = pair_ids(instances@);
    let ghost states = listed_states(*store, t, ids);
    proof {
        assert(listing(*store, t, wu, ids));
        assert forall|m: int| 0 <= m < instances@.len() implies *instances@[m].1 == store@[(t, instances@[m].0@)] by {
            assert(store.matching(t, wu, instances@[m].0@));
        }
    }
    if instances.len() == 0 {
        let f = ArtifactFailure::Missing { artifact_type: owned(artifact_type), relationship };
        proof {
            assert(states.len() == 0);
        }
        return Some(f);
    }
    let mut violations: Vec<Violation> = Vec::new();
    let mut count: usize = 0;
    let mut k: usize = 0;
    while k < instances.len()
        invariant
            k <= instances@.len(),
            ids == pair_ids(instances@),
            states == listed_states(*store, t, ids),
            t == artifact_type@,
            forall|m: int| 0 <= m < instances@.len() ==> *instances@[m].1 == store@[(t, instances@[m].0@)],
            violation_views(violations@) == all_violations(t, states.take(k as int)),
            count == stale_count(states.take(k as int)),
            count <= k,
        decreases instances@.len() - k,
    {
        let st = instances[k].1;
        let ghost before = violations@;
        proof {
            let s1 = states.take(k + 1);
            assert(s1.drop_last() =~= states.take(k as int));
            assert(s1.last() == states[k as int]);
            assert(states[k as int] == *st);
        }
        match &st.status {
            ValidationStatus::Invalid(vs) => {
                let mut j: usize = 0;
                while j < vs.len()
                    invariant
                        j <= vs@.len(),
                        violation_views(violations@) == violation_views(before) + violation_views(vs@.subrange(0, j as int)),
                    decreases vs@.len() - j,
                {
                    let ghost prev = violations@;
                    let d = vs[j].duplicate();
                    violations.push(d);
                    assert(violation_views(violations@) =~= violation_views(prev).push(violation_view(d)));
                    assert(violation_views(vs@.subrange(0, j + 1)) =~= violation_views(vs@.subrange(0, j as int)).push(violation_view(vs@[j as int])));
                    assert(violation_views(violations@) =~= violation_views(before) + violation_views(vs@.subrange(0, j + 1)));
                    j = j + 1;
                }
                assert(vs@.subrange(0, vs@.len() as int) =~= vs@);
            },
            ValidationStatus::Malformed(error) => {
                violations.push(malformed_violation(artifact_type, error));
                assert(violation_views(violations@) =~= violation_views(before) + status_violations(t, *st));
            },
            ValidationStatus::Stale => {
                count = count + 1;
                assert(violation_views(violations@) =~= violation_views(before) + status_violations(t, *st));
            },
            ValidationStatus::Valid => {
                assert(violation_views(violations@) =~= violation_views(before) + status_violations(t, *st));
            },
        }
        k = k + 1;
    }
    proof {
        assert(states.take(instances@.len() as int) =~= states);
    }
    if violations.len() > 0 {
        Some(ArtifactFailure::Invalid { artifact_type: owned(artifact_type), relationship, violations })
    } else {
        Some(ArtifactFailure::Stale { artifact_type: owned(artifact_type), relationship, stale_count: count })
    }
}

/// `fs` are the failures of checking `types` in order under `rel`: one for
/// each type that is not valid, none for the valid ones.
pub open spec fn failures_for(store: ArtifactStore, wu: Option<Seq<char>>, types: Seq<Seq<char>>, rel: Relationship, fs: Seq<ArtifactFailure>) -> bool
    decreases types.len(),
{
    if types.len() == 0 {
        fs.len() == 0
    } else if store.all_valid(types.last(), wu) {
        failures_for(store, wu, types.drop_last(), rel, fs)
    } else {
        fs.len() > 0 && failures_for(store, wu, types.drop_last(), rel, fs.drop_last())
            && check_result(store, types.last(), wu, rel, Some(fs.last()))
    }
}

/// Some instance of type `t` is in scope of `wu`.
pub open spec fn present(store: ArtifactStore, t: Seq<char>, wu: Option<Seq<char>>) -> bool {
    exists|id: Seq<char>| #[trigger] store.matching(t, wu, id)
}

/// `fs` are the failures of checking the `may_produce` types in order: absent
/// types are skipped; present ones fail unless valid.
pub open spec fn optional_failures_for(store: ArtifactStore, wu: Option<Seq<char>>, types: Seq<Seq<char>>, fs: Seq<ArtifactFailure>) -> bool
    decreases types.len(),
{
    if types.len() == 0 {
        fs.len() == 0
    } else if !present(store, types.last(), wu) || store.all_valid(types.last(), wu) {
        optional_failures_for(store, wu, types.drop_last(), fs)
    } else {
        fs.len() > 0 && optional_failures_for(store, wu, types.drop_last(), fs.drop_last())
            && check_result(store, types.last(), wu, Relationship::MayProduce, Some(fs.last()))
    }
}

proof fn lemma_no_failures(store: ArtifactStore, wu: Option<Seq<char>>, types: Seq<Seq<char>>, rel: Relationship, fs: Seq<ArtifactFailure>)
    requires
        failures_for(store, wu, types, rel, fs),
    ensures
        fs.len() == 0 <==> forall|k: int| 0 <= k < types.len() ==> store.all_valid(#[trigger] types[k], wu),
    decreases types.len(),
{
    if types.len() > 0 {
        let init = types.drop_last();
        if store.all_valid(types.last(), wu) {
            lemma_no_failures(store, wu, init, rel, fs);
            if fs.len() == 0 {
                assert forall|k: int| 0 <= k < types.len() implies store.all_valid(#[trigger] types[k], wu) by {
                    if k < types.len() - 1 {
                        assert(init[k] == types[k]);
                    }
                }
            } else {
                let k = choose|k: int| 0 <= k < init.len() && !store.all_valid(#[trigger] init[k], wu);
                assert(types[k] == init[k]);
            }
        } else {
            assert(!store.all_valid(types[types.len() - 1], wu));
        }
    }
}

proof fn lemma_no_optional_failures(store: ArtifactStore, wu: Option<Seq<char>>, types: Seq<Seq<char>>, fs: Seq<ArtifactFailure>)
    requires
        optional_failures_for(store, wu, types, fs),
    ensures
        fs.len() == 0 <==> forall|k: int| 0 <= k < types.len() && #[trigger] present(store, types[k], wu) ==> store.all_valid(types[k], wu),
    decreases types.len(),
{
    if types.len() > 0 {
        let init = types.drop_last();
        if !present(store, types.last(), wu) || store.all_valid(types.last(), wu) {
            lemma_no_optional_failures(store, wu, init, fs);
            if fs.len() == 0 {
                assert forall|k: int| 0 <= k < types.len() && #[trigger] present(store, types[k], wu) implies store.all_valid(types[k], wu) by {
                    if k < types.len() - 1 {
                        assert(init[k] == types[k]);
                    }
                }
            } else {
                let k = choose|k: int| 0 <= k < init.len() && #[trigger] present(store, init[k], wu) && !store.all_valid(init[k], wu);
                assert(types[k] == init[k]);
            }
        } else {
            assert(present(store, types[types.len() - 1], wu));
        }
    }
}

/// Check a list of artifact types under `rel`, collecting the failures.
fn check_all(store: &ArtifactStore, types: &Vec<String>, rel: Relationship, work_unit: Option<&str>, failures: &mut Vec<ArtifactFailure>)
    ensures
        exists|fs: Seq<ArtifactFailure>| failures_for(*store, opt_str(work_unit), views(types@), rel, fs)
            && final(failures)@ == old(failures)@ + fs,
{
    let ghost start = failures@;
    let mut k: usize = 0;
    while k < types.len()
        invariant
            k <= types@.len(),
            failures_for(*store, opt_str(work_unit), views(types@).take(k as int), rel, failures@.subrange(start.len() as int, failures@.len() as int)),
            start.len() <= failures@.len(),
            failures@.subrange(0, start.len() as int) == start,
        decreases types@.len() - k,
    {
        let ghost before = failures@;
        proof {
            let t1 = views(types@).take(k + 1);
            assert(t1.drop_last() =~= views(types@).take(k as int));
            assert(t1.last() == types@[k as int]@);
        }
        match check_artifact(store, types[k].as_str(), rel, work_unit) {
            Some(f) => {
                failures.push(f);
                proof {
                    let fs1 = failures@.subrange(start.len() as int, failures@.len() as int);
                    assert(fs1.drop_last() =~= before.subrange(start.len() as int, before.len() as int));
                    assert(fs1.last() == f);
                    assert(failures@.subrange(0, start.len() as int) =~= start);
                }
            },
            None => {},
        }
        k = k + 1;
    }
    proof {
        assert(views(types@).take(types@.len() as int) =~= views(types@));
        assert(failures@ =~= start + failures@.subrange(start.len() as int, failures@.len() as int));
    }
}

/// Check that all `requires` artifacts exist and are valid.
///
/// `Ok` exactly when every required artifact type has at least one instance
/// in scope of `work_unit` and all of them are valid; otherwise the error
/// lists a failure for each required type that is not, in order. `accepts`
/// types are not checked.
pub fn enforce_preconditions(skill: &ProtocolDeclaration, store: &ArtifactStore, work_unit: Option<&str>) -> (r: Result<(), EnforcementError>)
    ensures
        r is Ok <==> forall|k: int| 0 <= k < skill.requires@.len() ==> store.all_valid(#[trigger] skill.requires@[k]@, opt_str(work_unit)),
        r is Err ==> r->Err_0.skill_name@ == skill.name@ && r->Err_0.phase == Phase::Pre
            && failures_for(*store, opt_str(work_unit), views(skill.requires@), Relationship::Requires, r->Err_0.failures@),
{
    let mut failures: Vec<ArtifactFailure> = Vec::new();
    check_all(store, &skill.requires, Relationship::Requires, work_unit, &mut failures);
    proof {
        let fs = choose|fs: Seq<ArtifactFailure>| failures_for(*store, opt_str(work_unit), views(skill.requires@), Relationship::Requires, fs)
            && failures@ == Seq::<ArtifactFailure>::empty() + fs;
        assert(failures@ =~= fs);
        lemma_no_failures(*store, opt_str(work_unit), views(skill.requires@), Relationship::Requires, fs);
        let wu = opt_str(work_unit);
        let ts = views(skill.requires@);
        if forall|k: int| 0 <= k < ts.len() ==> store.all_valid(#[trigger] ts[k], wu) {
            assert forall|k: int| 0 <= k < skill.requires@.len() implies store.all_valid(#[trigger] skill.requires@[k]@, wu) by {
                assert(ts[k] == skill.requires@[k]@);
            }
        }
        if forall|k: int| 0 <= k < skill.requires@.len() ==> store.all_valid(#[trigger] skill.requires@[k]@, wu) {
            assert forall|k: int| 0 <= k < ts.len() implies store.all_valid(#[trigger] ts[k], wu) by {
                assert(ts[k] == skill.requires@[k]@);
            }
        }
    }
    if failures.len() == 0 {
        Ok(())
    } else {
        Err(EnforcementError { skill_name: skill.name.clone(), phase: Phase::Pre, failures })
    }
}

/// Check that all `produces` artifacts exist and are valid, and that the
/// `may_produce` artifacts that exist are valid.
///
/// `Ok` exactly when every produced type has at least one instance in scope
/// and all are valid, and every `may_produce` type with instances in scope
/// has only valid ones; otherwise the error lists the failures, produced
/// types first.
pub fn enforce_postconditions(skill: &ProtocolDeclaration, store: &ArtifactStore, work_unit: Option<&str>) -> (r: Result<(), EnforcementError>)
    ensures
        r is Ok <==> (forall|k: int| 0 <= k < skill.produces@.len() ==> store.all_valid(#[trigger] skill.produces@[k]@, opt_str(work_unit)))
            && (forall|k: int| 0 <= k < skill.may_produce@.len() && #[trigger] present(*store, skill.may_produce@[k]@, opt_str(work_unit))
                ==> store.all_valid(skill.may_produce@[k]@, opt_str(work_unit))),
        r is Err ==> r->Err_0.skill_name@ == skill.name@ && r->Err_0.phase == Phase::Post
            && exists|fs1: Seq<ArtifactFailure>, fs2: Seq<ArtifactFailure>|
                #[trigger] failures_for(*store, opt_str(work_unit), views(skill.produces@), Relationship::Produces, fs1)
                && #[trigger] optional_failures_for(*store, opt_str(work_unit), views(skill.may_produce@), fs2)
                && r->Err_0.failures@ == fs1 + fs2,
{
    let mut failures: Vec<ArtifactFailure> = Vec::new();
    check_all(store, &skill.produces, Relationship::Produces, work_unit, &mut failures);
    let ghost fs1 = failures@;
    let ghost wu = opt_str(work_unit);
    let ghost types = views(skill.may_produce@);
    let mut k: usize = 0;
    while k < skill.may_produce.len()
        invariant
            k <= skill.may_produce@.len(),
            types == views(skill.may_produce@),
            wu == opt_str(work_unit),
            fs1.len() <= failures@.len(),
            failures@.subrange(0, fs1.len() as int) == fs1,
            optional_failures_for(*store, wu, types.take(k as int), failures@.subrange(fs1.len() as int, failures@.len() as int)),
        decreases skill.may_produce@.len() - k,
    {
        let t = skill.may_produce[k].as_str();
        let ghost before = failures@;
        proof {
            let t1 = types.take(k + 1);
            assert(t1.drop_last() =~= types.take(k as int));
            assert(t1.last() == t@);
        }
        let instances = store.instances_of(t, work_unit);
        proof {
            if present(*store, t@, wu) {
                let id = choose|id: Seq<char>| #[trigger] store.matching(t@, wu, id);
                assert(pair_ids(instances@).contains(id));
            }
            if instances@.len() > 0 {
                assert(store.matching(t@, wu, instances@[0].0@));
            }
        }
        if instances.len() > 0 {
            match check_artifact(store, t, Relationship::MayProduce, work_unit) {
                Some(f) => {
                    failures.push(f);
                    proof {
                        let fs2 = failures@.subrange(fs1.len() as int, failures@.len() as int);
                        assert(fs2.drop_last() =~= before.subrange(fs1.len() as int, before.len() as int));
                        assert(fs2.last() == f);
                        assert(failures@.subrange(0, fs1.len() as int) =~= fs1);
                    }
                },
                None => {},
            }
        }
        k = k + 1;
    }
    proof {
        assert(types.take(types.len() as int) =~= types);
        let fs2 = failures@.subrange(fs1.len() as int, failures@.len() as int);
        assert(failures@ =~= fs1 + fs2);
        let fs1c = choose|fs: Seq<ArtifactFailure>| failures_for(*store, wu, views(skill.produces@), Relationship::Produces, fs)
            && fs1 == Seq::<ArtifactFailure>::empty() + fs;
        assert(fs1 =~= fs1c);
        lemma_no_failures(*store, wu, views(skill.produces@), Relationship::Produces, fs1);
        lemma_no_optional_failures(*store, wu, types, fs2);
        let ps = views(skill.produces@);
        if forall|k: int| 0 <= k < ps.len() ==> store.all_valid(#[trigger] ps[k], wu) {
            assert forall|k: int| 0 <= k < skill.produces@.len() implies store.all_valid(#[trigger] skill.produces@[k]@, wu) by {
                assert(ps[k] == skill.produces@[k]@);
            }
        }
        if forall|k: int| 0 <= k < skill.produces@.len() ==> store.all_valid(#[trigger] skill.produces@[k]@, wu) {
            assert forall|k: int| 0 <= k < ps.len() implies store.all_valid(#[trigger] ps[k], wu) by {
                assert(ps[k] == skill.produces@[k]@);
            }
        }
        if forall|k: int| 0 <= k < types.len() && #[trigger] present(*store, types[k], wu) ==> store.all_valid(types[k], wu) {
            assert forall|k: int| 0 <= k < skill.may_produce@.len() && #[trigger] present(*store, skill.may_produce@[k]@, wu) implies store.all_valid(skill.may_produce@[k]@, wu) by {
                assert(types[k] == skill.may_produce@[k]@);
            }
        }
        if forall|k: int| 0 <= k < skill.may_produce@.len() && #[trigger] present(*store, skill.may_produce@[k]@, wu) ==> store.all_valid(skill.may_produce@[k]@, wu) {
            assert forall|k: int| 0 <= k < types.len() && #[trigger] present(*store, types[k], wu) implies store.all_valid(types[k], wu) by {
                assert(types[k] == skill.may_produce@[k]@);
            }
        }
        assert(optional_failures_for(*store, wu, types, fs2));
    }
    if failures.len() == 0 {
        Ok(())
    } else {
        Err(EnforcementError { skill_name: skill.name.clone(), phase: Phase::Post, failures })
    }
}

// ---------------------------------------------------------------------------
// Messages.
// ---------------------------------------------------------------------------

/// The lines a list of violations adds: `schema_path: description` each.
pub open spec fn violation_lines(vs: Seq<Violation>) -> Seq<char>
    decreases vs.len(),
{
    if vs.len() == 0 {
        Seq::empty()
    } else {
        violation_lines(vs.drop_last()) + "\n      "@ + vs.last().schema_path@ + ": "@ + vs.last().description@
    }
}

/// `Missing` failures of `may_produce` types are never reported.
pub open spec fn displayable(f: ArtifactFailure) -> bool {
    !(f is Missing && f->Missing_relationship == Relationship::MayProduce)
}

/// The first line of an `Invalid` failure.
pub open spec fn invalid_prefix(t: Seq<char>, rel: Relationship) -> Seq<char> {
    match rel {
        Relationship::Requires => "requires artifact type '"@ + t + "' which exists but fails validation"@,
        Relationship::Produces => "declares it produces artifact type '"@ + t + "' which exists but is invalid"@,
        Relationship::MayProduce => "may_produce artifact type '"@ + t + "' which exists but is invalid"@,
    }
}

/// The start of a `Stale` failure.
pub open spec fn stale_prefix(t: Seq<char>, rel: Relationship) -> Seq<char> {
    match rel {
        Relationship::Requires => "requires artifact type '"@ + t + "' which is stale"@,
        Relationship::Produces => "declares it produces artifact type '"@ + t + "' which is stale"@,
        Relationship::MayProduce => "may_produce artifact type '"@ + t + "' which is stale"@,
    }
}

/// ` (<n> instance(s) need(s) revalidation)`.
pub open spec fn stale_suffix(n: nat) -> Seq<char> {
    " ("@ + decimal(n) + " instance"@ + (if n == 1 { Seq::empty() } else { "s"@ })
        + " need"@ + (if n == 1 { "s"@ } else { Seq::empty() }) + " revalidation)"@
}

/// The message of an artifact failure.
pub open spec fn failure_message(f: ArtifactFailure) -> Seq<char> {
    match f {
        ArtifactFailure::Missing { artifact_type, relationship } => if relationship == Relationship::Requires {
            "requires artifact type '"@ + artifact_type@ + "' which is missing"@
        } else {
            "declares it produces artifact type '"@ + artifact_type@ + "' which is missing after execution"@
        },
        ArtifactFailure::Invalid { artifact_type, relationship, violations } =>
            invalid_prefix(artifact_type@, relationship) + violation_lines(violations@),
        ArtifactFailure::Stale { artifact_type, relationship, stale_count } =>
            stale_prefix(artifact_type@, relationship) + stale_suffix(stale_count as nat),
    }
}

impl ArtifactFailure {
    /// Renders the failure as text (the failure's `Display` form).
    pub fn to_display_string(&self) -> (r: String)
        requires
            displayable(*self),
        ensures
            r@ == failure_message(*self),
    {
        let mut out = String::new();
        self.write_message(&mut out);
        assert(out@ =~= failure_message(*self));
        out
    }

    #[verifier::rlimit(40)]
    fn write_message(&self, out: &mut String)
        requires
            displayable(*self),
        ensures
            final(out)@ == old(out)@ + failure_message(*self),
    {
        let ghost start = out@;
        match self {
            ArtifactFailure::Missing { artifact_type, relationship } => {
                match relationship {
                    Relationship::Requires => {
                        push_str(out, "requires artifact type '");
                        push_str(out, artifact_type.as_str());
                        push_str(out, "' which is missing");
                    },
                    _ => {
                        push_str(out, "declares it produces artifact type '");
                        push_str(out, artifact_type.as_str());
                        push_str(out, "' which is missing after execution");
                    },
                }
            },
            ArtifactFailure::Invalid { artifact_type, relationship, violations } => {
                match relationship {
                    Relationship::Requires => {
                        push_str(out, "requires artifact type '");
                        push_str(out, artifact_type.as_str());
                        push_str(out, "' which exists but fails validation");
                    },
                    Relationship::Produces => {
                        push_str(out, "declares it produces artifact type '");
                        push_str(out, artifact_type.as_str());
                        push_str(out, "' which exists but is invalid");
                    },
                    Relationship::MayProduce => {
                        push_str(out, "may_produce artifact type '");
                        push_str(out, artifact_type.as_str());
                        push_str(out, "' which exists but is invalid");
                    },
                }
                let ghost mid = out@;
                let mut i: usize = 0;
                while i < violations.len()
                    invariant
                        i <= violations@.len(),
                        out@ == mid + violation_lines(violations@.subrange(0, i as int)),
                    decreases violations@.len() - i,
                {
                    push_str(out, "\n      ");
                    push_str(out, violations[i].schema_path.as_str());
                    push_str(out, ": ");
                    push_str(out, violations[i].description.as_str());
                    proof {
                        let s1 = violations@.subrange(0, i + 1);
                        assert(s1.drop_last() =~= violations@.subrange(0, i as int));
                        assert(s1.last() == violations@[i as int]);
                    }
                    i = i + 1;
                }
                assert(violations@.subrange(0, violations@.len() as int) =~= violations@);
            },
            ArtifactFailure::Stale { artifact_type, relationship, stale_count } => {
                match relationship {
                    Relationship::Requires => {
                        push_str(out, "requires artifact type '");
                        push_str(out, artifact_type.as_str());
                        push_str(out, "' which is stale");
                    },
                    Relationship::Produces => {
                        push_str(out, "declares it produces artifact type '");
                        push_str(out, artifact_type.as_str());
                        push_str(out, "' which is stale");
                    },
                    Relationship::MayProduce => {
                        push_str(out, "may_produce artifact type '");
                        push_str(out, artifact_type.as_str());
                        push_str(out, "' which is stale");
                    },
                }
                push_str(out, " (");
                push_decimal(out, *stale_count as u64);
                push_str(out, " instance");
                if *stale_count != 1 {
                    push_str(out, "s");
                }
                push_str(out, " need");
                if *stale_count == 1 {
                    push_str(out, "s");
                }
                push_str(out, " revalidation)");
            },
        }
        assert(out@ =~= start + failure_message(*self));
    }
}

/// The label of an enforcement phase.
pub open spec fn phase_label(p: Phase) -> Seq<char> {
    match p {
        Phase::Pre => "pre-execution"@,
        Phase::Post => "post-execution"@,
    }
}

/// The lines a list of failures adds: `  - <failure>` each.
pub open spec fn failure_lines(fs: Seq<ArtifactFailure>) -> Seq<char>
    decreases fs.len(),
{
    if fs.len() == 0 {
        Seq::empty()
    } else {
        failure_lines(fs.drop_last()) + "\n  - "@ + failure_message(fs.last())
    }
}

/// The message of an enforcement error.
pub open spec fn enforcement_message(e: EnforcementError) -> Seq<char> {
    "enforcement failed for skill '"@ + e.skill_name@ + "' ("@ + phase_label(e.phase) + "):"@ + failure_lines(e.failures@)
}

impl EnforcementError {
    /// Renders the error as text (the error's `Display` form).
    pub fn to_display_string(&self) -> (r: String)
        requires
            forall|k: int| 0 <= k < self.failures@.len() ==> #[trigger] displayable(self.failures@[k]),
        ensures
            r@ == enforcement_message(*self),
    {
        let mut out = owned("enforcement failed for skill '");
        push_str(&mut out, self.skill_name.as_str());
        push_str(&mut out, "' (");
        match self.phase {
            Phase::Pre => push_str(&mut out, "pre-execution"),
            Phase::Post => push_str(&mut out, "post-execution"),
        }
        push_str(&mut out, "):");
        let ghost mid = out@;
        let mut i: usize = 0;
        while i < self.failures.len()
            invariant
                i <= self.failures@.len(),
                forall|k: int| 0 <= k < self.failures@.len() ==> #[trigger] displayable(self.failures@[k]),
                out@ == mid + failure_lines(self.failures@.subrange(0, i as int)),
            decreases self.failures@.len() - i,
        {
            push_str(&mut out, "\n  - ");
            assert(displayable(self.failures@[i as int]));
            self.failures[i].write_message(&mut out);
            proof {
                let s1 = self.failures@.subrange(0, i + 1);
                assert(s1.drop_last() =~= self.failures@.subrange(0, i as int));
                assert(s1.last() == self.failures@[i as int]);
            }
            i = i + 1;
        }
        assert(self.failures@.subrange(0, self.failures@.len() as int) =~= self.failures@);
        assert(out@ =~= enforcement_message(*self));
        out
    }
}

} // verus!
