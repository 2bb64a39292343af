//! Trigger condition evaluation against the artifact store.
use vstd::prelude::*;

use crate::enforcement::{enforce_postconditions, present};
use crate::model::{ProtocolDeclaration, TriggerCondition};
use crate::store::{ArtifactStore, ValidationStatus, opt_str, pair_ids};
use crate::text::{join, owned, push_str, contains_str, views};

verus! {

/// Outcome of evaluating a trigger condition against current state.
#[derive(Debug, Clone, PartialEq)]
pub enum TriggerResult {
    /// The condition is met; the protocol should activate.
    Satisfied,
    /// The condition is not met, with a human-readable reason.
    NotSatisfied(String),
}

/// The state trigger evaluation reads: the store, the work unit in scope and
/// the artifact types a scan could only partially read.
pub struct TriggerContext<'a> {
    pub store: &'a ArtifactStore,
    pub work_unit: Option<&'a str>,
    pub partially_scanned_types: &'a Vec<String>,
}

/// `m` is the latest modification time of the instances of `t` in scope of `wu`.
pub open spec fn latest_is(store: ArtifactStore, t: Seq<char>, wu: Option<Seq<char>>, m: int) -> bool {
    &&& exists|id: Seq<char>| #[trigger] store.matching(t, wu, id) && store@[(t, id)].last_modified_ms == m
    &&& forall|id: Seq<char>| #[trigger] store.matching(t, wu, id) ==> store@[(t, id)].last_modified_ms <= m
}

/// The latest modification time of the instances of `t` in scope of `wu`,
/// when there is one.
pub open spec fn latest_of(store: ArtifactStore, t: Seq<char>, wu: Option<Seq<char>>) -> Option<int> {
    if present(store, t, wu) {
        Some(choose|m: int| latest_is(store, t, wu, m))
    } else {
        None
    }
}

/// The post-execution contract of the protocol holds.
pub open spec fn postconditions_hold(store: ArtifactStore, p: ProtocolDeclaration, wu: Option<Seq<char>>) -> bool {
    &&& forall|k: int| 0 <= k < p.produces@.len() ==> store.all_valid(#[trigger] p.produces@[k]@, wu)
    &&& forall|k: int| 0 <= k < p.may_produce@.len() && #[trigger] present(store, p.may_produce@[k]@, wu)
        ==> store.all_valid(p.may_produce@[k]@, wu)
}

/// The protocol's outputs give no completion evidence: it produces nothing,
/// an output type has a scan gap or was only partially scanned, or its
/// post-execution contract fails.
pub open spec fn completion_unknown(store: ArtifactStore, p: ProtocolDeclaration, wu: Option<Seq<char>>, partial: Seq<Seq<char>>) -> bool {
    ||| p.produces@.len() == 0
    ||| exists|k: int| 0 <= k < p.produces@.len() && (store.has_gap_for_type(#[trigger] p.produces@[k]@)
        || partial.contains(p.produces@[k]@))
    ||| !postconditions_hold(store, p, wu)
}

/// `m` is the oldest of the latest modification times of the produced types.
pub open spec fn is_completion_ts(store: ArtifactStore, p: ProtocolDeclaration, wu: Option<Seq<char>>, m: int) -> bool {
    &&& exists|k: int| 0 <= k < p.produces@.len() && #[trigger] latest_is(store, p.produces@[k]@, wu, m)
    &&& forall|k: int, m2: int| 0 <= k < p.produces@.len() && #[trigger] latest_is(store, p.produces@[k]@, wu, m2) ==> m <= m2
}

/// When the protocol's outputs were last completed: the oldest of the
/// latest modification times of its produced types, unless completion is
/// unknown.
pub open spec fn completion_ts(store: ArtifactStore, p: ProtocolDeclaration, wu: Option<Seq<char>>, partial: Seq<Seq<char>>) -> Option<int> {
    if completion_unknown(store, p, wu, partial) {
        None
    } else {
        Some(choose|m: int| is_completion_ts(store, p, wu, m))
    }
}

proof fn lemma_latest_unique(store: ArtifactStore, t: Seq<char>, wu: Option<Seq<char>>, a: int, b: int)
    requires
        latest_is(store, t, wu, a),
        latest_is(store, t, wu, b),
    ensures
        a == b,
{
    let ia = choose|id: Seq<char>| #[trigger] store.matching(t, wu, id) && store@[(t, id)].last_modified_ms == a;
    let ib = choose|id: Seq<char>| #[trigger] store.matching(t, wu, id) && store@[(t, id)].last_modified_ms == b;
}

/// The latest modification time of a type's instances in scope.
pub(crate) fn latest(store: &ArtifactStore, t: &str, work_unit: Option<&str>) -> (r: Option<u64>)
    ensures
        match r {
            None => !present(*store, t@, opt_str(work_unit)),
            Some(m) => latest_is(*store, t@, opt_str(work_unit), m as int) && latest_of(*store, t@, opt_str(work_unit)) == Some(m as int),
        },
{
    let r = store.latest_modification_ms(t, work_unit);
    proof {
        let wu = opt_str(work_unit);
        match r {
            None => {},
            Some(m) => {
                let id = choose|id: Seq<char>| #[trigger] store.matching(t@, wu, id) && store@[(t@, id)].last_modified_ms == m;
                assert(present(*store, t@, wu));
                assert(latest_is(*store, t@, wu, m as int));
                let c = choose|c: int| latest_is(*store, t@, wu, c);
                lemma_latest_unique(*store, t@, wu, c, m as int);
            },
        }
    }
    r
}

/// When the protocol's outputs were last completed, if that is known: the
/// oldest of the latest modification times of its produced types.
pub fn derived_completion_timestamp(protocol: &ProtocolDeclaration, store: &ArtifactStore, work_unit: Option<&str>, partially_scanned_types: &Vec<String>) -> (r: Option<u64>)
    ensures
        match r {
            None => completion_ts(*store, *protocol, opt_str(work_unit), views(partially_scanned_types@)) is None,
            Some(m) => completion_ts(*store, *protocol, opt_str(work_unit), views(partially_scanned_types@)) == Some(m as int),
        },
{
    let ghost wu = opt_str(work_unit);
    let ghost partial = views(partially_scanned_types@);
    if protocol.produces.len() == 0 {
        return None;
    }
    let mut k: usize = 0;
    while k < protocol.produces.len()
        invariant
            k <= protocol.produces@.len(),
            partial == views(partially_scanned_types@),
            forall|j: int| 0 <= j < k ==> !(store.has_gap_for_type(#[trigger] protocol.produces@[j]@) || partial.contains(protocol.produces@[j]@)),
        decreases protocol.produces@.len() - k,
    {
        let t = protocol.produces[k].as_str();
        if store.scan_gap_affects_work_unit(t, work_unit)
            || (contains_str(partially_scanned_types, t) && !store.has_any_scan_gap_for_type(t)) {
            return None;
        }
        k = k + 1;
    }
    if enforce_postconditions(protocol, store, work_unit).is_err() {
        return None;
    }
    let mut best: Option<u64> = None;
    let mut k: usize = 0;
    while k < protocol.produces.len()
        invariant
            k <= protocol.produces@.len(),
            wu == opt_str(work_unit),
            postconditions_hold(*store, *protocol, wu),
            best is None <==> k == 0,
            best is Some ==> exists|j: int| 0 <= j < k && #[trigger] latest_is(*store, protocol.produces@[j]@, wu, best->0 as int),
            best is Some ==> forall|j: int, m2: int| 0 <= j < k && #[trigger] latest_is(*store, protocol.produces@[j]@, wu, m2) ==> best->0 <= m2,
        decreases protocol.produces@.len() - k,
    {
        let t = protocol.produces[k].as_str();
        proof {
            assert(store.all_valid(protocol.produces@[k as int]@, wu));
        }
        match latest(store, t, work_unit) {
            Some(m) => {
                proof {
                    assert forall|m2: int| #[trigger] latest_is(*store, t@, wu, m2) implies m <= m2 by {
                        lemma_latest_unique(*store, t@, wu, m as int, m2);
                    }
                }
                best = match best {
                    None => Some(m),
                    Some(b) => if m < b { Some(m) } else { Some(b) },
                };
            },
            None => {
                proof {
                    let id = choose|id: Seq<char>| #[trigger] store.matching(t@, wu, id);
                }
            },
        }
        k = k + 1;
    }
    proof {
        let m = best->0 as int;
        assert(is_completion_ts(*store, *protocol, wu, m));
        let c = choose|c: int| is_completion_ts(*store, *protocol, wu, c);
        let kc = choose|kc: int| 0 <= kc < protocol.produces@.len() && #[trigger] latest_is(*store, protocol.produces@[kc]@, wu, c);
        let km = choose|km: int| 0 <= km < protocol.produces@.len() && #[trigger] latest_is(*store, protocol.produces@[km]@, wu, m);
        assert(c <= m);
        assert(m <= c);
    }
    best
}

/// Some instance of `t` in scope of `wu` is invalid, malformed or stale.
pub open spec fn any_unusable(store: ArtifactStore, t: Seq<char>, wu: Option<Seq<char>>) -> bool {
    exists|id: Seq<char>| #[trigger] store.matching(t, wu, id) && !(store@[(t, id)].status is Valid)
}

/// What evaluating a condition gives: `None` when it is satisfied, else the
/// reason it is not. `comp` is the protocol's completion time.
pub open spec fn outcome(c: TriggerCondition, store: ArtifactStore, wu: Option<Seq<char>>, comp: Option<int>) -> Option<Seq<char>>
    decreases c,
{
    match c {
        TriggerCondition::OnArtifact { name } => if store.all_valid(name@, wu) {
            None
        } else if !present(store, name@, wu) {
            Some("no valid instances of artifact type '"@ + name@ + "' exist"@)
        } else if any_unusable(store, name@, wu) {
            Some("artifact type '"@ + name@ + "' has invalid, malformed, or stale instances"@)
        } else {
            Some("artifact type '"@ + name@ + "' is not valid"@)
        },
        TriggerCondition::OnChange { name } => match latest_of(store, name@, wu) {
            None => Some("no instances of artifact type '"@ + name@ + "' exist"@),
            Some(l) => match comp {
                None => None,
                Some(c) => if l > c {
                    None
                } else {
                    Some("artifact type '"@ + name@ + "' has not changed since protocol outputs were last updated"@)
                },
            },
        },
        TriggerCondition::OnInvalid { name } => if store.any_invalid(name@, wu) {
            None
        } else {
            Some("no invalid instances of artifact type '"@ + name@ + "'"@)
        },
        TriggerCondition::AllOf { conditions } => first_failure(conditions@, store, wu, comp),
        TriggerCondition::AnyOf { conditions } => if conditions@.len() == 0 {
            Some("any_of with no conditions"@)
        } else {
            match all_reasons(conditions@, store, wu, comp) {
                None => None,
                Some(reasons) => Some("none satisfied: "@ + join(reasons, "; "@)),
            }
        },
    }
}

/// The outcome of the first condition that is not satisfied, if any.
pub open spec fn first_failure(cs: Seq<TriggerCondition>, store: ArtifactStore, wu: Option<Seq<char>>, comp: Option<int>) -> Option<Seq<char>>
    decreases cs,
{
    if cs.len() == 0 {
        None
    } else {
        match outcome(cs[0], store, wu, comp) {
            Some(r) => Some(r),
            None => first_failure(cs.drop_first(), store, wu, comp),
        }
    }
}

/// The reasons of all conditions when none is satisfied; `None` as soon as
/// one is.
pub open spec fn all_reasons(cs: Seq<TriggerCondition>, store: ArtifactStore, wu: Option<Seq<char>>, comp: Option<int>) -> Option<Seq<Seq<char>>>
    decreases cs,
{
    if cs.len() == 0 {
        Some(Seq::empty())
    } else {
        match outcome(cs[0], store, wu, comp) {
            None => None,
            Some(r) => match all_reasons(cs.drop_first(), store, wu, comp) {
                None => None,
                Some(rs) => Some(seq![r] + rs),
            },
        }
    }
}

/// The outcome a trigger result stands for.
pub open spec fn result_outcome(r: TriggerResult) -> Option<Seq<char>> {
    match r {
        TriggerResult::Satisfied => None,
        TriggerResult::NotSatisfied(reason) => Some(reason@),
    }
}

/// Evaluate whether a trigger condition is satisfied given current state.
pub fn evaluate(condition: &TriggerCondition, protocol: &ProtocolDeclaration, context: &TriggerContext) -> (r: TriggerResult)
    ensures
        result_outcome(r) == outcome(*condition, *context.store, opt_str(context.work_unit),
            completion_ts(*context.store, *protocol, opt_str(context.work_unit), views(context.partially_scanned_types@))),
    decreases condition,
{
    let ghost wu = opt_str(context.work_unit);
    let ghost comp = completion_ts(*context.store, *protocol, wu, views(context.partially_scanned_types@));
    let store = context.store;
    match condition {
        TriggerCondition::OnArtifact { name } => {
            if store.is_valid(name.as_str(), context.work_unit) {
                return TriggerResult::Satisfied;
            }
            let instances = store.instances_of(name.as_str(), context.work_unit);
            if instances.len() == 0 {
                proof {
                    if present(*store, name@, wu) {
                        let id = choose|id: Seq<char>| #[trigger] store.matching(name@, wu, id);
                        assert(pair_ids(instances@).contains(id));
                    }
                }
                let mut msg = owned("no valid instances of artifact type '");
                push_str(&mut msg, name.as_str());
                push_str(&mut msg, "' exist");
                return TriggerResult::NotSatisfied(msg);
            }
            proof {
                assert(store.matching(name@, wu, instances@[0].0@));
            }
            let mut k: usize = 0;
            let mut unusable = false;
            while k < instances.len()
                invariant
                    k <= instances@.len(),
                    wu == opt_str(context.work_unit),
                    forall|m: int| 0 <= m < instances@.len() ==> #[trigger] store.matching(name@, wu, instances@[m].0@)
                        && *instances@[m].1 == store@[(name@, instances@[m].0@)],
                    forall|id: Seq<char>| #[trigger] store.matching(name@, wu, id) ==> pair_ids(instances@).contains(id),
                    unusable ==> any_unusable(*store, name@, wu),
                    !unusable ==> forall|m: int| 0 <= m < k ==> (#[trigger] instances@[m]).1.status is Valid,
                decreases instances@.len() - k,
            {
                match instances[k].1.status {
                    ValidationStatus::Valid => {},
                    _ => {
                        proof {
                            assert(store.matching(name@, wu, instances@[k as int].0@));
                        }
                        unusable = true;
                    },
                }
                k = k + 1;
            }
            proof {
                if !unusable && any_unusable(*store, name@, wu) {
                    let id = choose|id: Seq<char>| #[trigger] store.matching(name@, wu, id) && !(store@[(name@, id)].status is Valid);
                    assert(pair_ids(instances@).contains(id));
                    let m = choose|m: int| 0 <= m < pair_ids(instances@).len() && pair_ids(instances@)[m] == id;
                    assert(instances@[m].1.status is Valid);
                    assert(store.matching(name@, wu, instances@[m].0@));
                }
            }
            if unusable {
                let mut msg = owned("artifact type '");
                push_str(&mut msg, name.as_str());
                push_str(&mut msg, "' has invalid, malformed, or stale instances");
                TriggerResult::NotSatisfied(msg)
            } else {
                let mut msg = owned("artifact type '");
                push_str(&mut msg, name.as_str());
                push_str(&mut msg, "' is not valid");
                TriggerResult::NotSatisfied(msg)
            }
        },
        TriggerCondition::OnChange { name } => {
            match latest(store, name.as_str(), context.work_unit) {
                None => {
                    let mut msg = owned("no instances of artifact type '");
                    push_str(&mut msg, name.as_str());
                    push_str(&mut msg, "' exist");
                    TriggerResult::NotSatisfied(msg)
                },
                Some(l) => {
                    match derived_completion_timestamp(protocol, store, context.work_unit, context.partially_scanned_types) {
                        None => TriggerResult::Satisfied,
                        Some(c) => {
                            if l > c {
                                TriggerResult::Satisfied
                            } else {
                                let mut msg = owned("artifact type '");
                                push_str(&mut msg, name.as_str());
                                push_str(&mut msg, "' has not changed since protocol outputs were last updated");
                                TriggerResult::NotSatisfied(msg)
                            }
                        },
                    }
                },
            }
        },
        TriggerCondition::OnInvalid { name } => {
            if store.has_any_invalid(name.as_str(), context.work_unit) {
                TriggerResult::Satisfied
            } else {
                let mut msg = owned("no invalid instances of artifact type '");
                push_str(&mut msg, name.as_str());
                push_str(&mut msg, "'");
                TriggerResult::NotSatisfied(msg)
            }
        },
        TriggerCondition::AllOf { conditions } => {
            let mut i: usize = 0;
            assert(conditions@.skip(0) =~= conditions@);
            while i < conditions.len()
                invariant
                    i <= conditions@.len(),
                    wu == opt_str(context.work_unit),
                    comp == completion_ts(*context.store, *protocol, wu, views(context.partially_scanned_types@)),
                    *condition == (TriggerCondition::AllOf { conditions: *conditions }),
                    store == context.store,
                    first_failure(conditions@, *store, wu, comp) == first_failure(conditions@.skip(i as int), *store, wu, comp),
                decreases conditions@.len() - i,
            {
                proof {
                    assert(decreases_to!(condition => conditions));
                    assert(decreases_to!(conditions => conditions@));
                    assert(decreases_to!(conditions@ => conditions@[i as int]));
                }
                let result = evaluate(&conditions[i], protocol, context);
                proof {
                    let t = conditions@.skip(i as int);
                    assert(t[0] == conditions@[i as int]);
                    assert(t.drop_first() =~= conditions@.skip(i + 1));
                }
                match result {
                    TriggerResult::NotSatisfied(_) => {
                        return result;
                    },
                    TriggerResult::Satisfied => {},
                }
                i = i + 1;
            }
            TriggerResult::Satisfied
        },
        TriggerCondition::AnyOf { conditions } => {
            if conditions.len() == 0 {
                return TriggerResult::NotSatisfied(owned("any_of with no conditions"));
            }
            let mut reasons: Vec<String> = Vec::new();
            let mut i: usize = 0;
            assert(conditions@.skip(0) =~= conditions@);
            while i < conditions.len()
                invariant
                    i <= conditions@.len(),
                    wu == opt_str(context.work_unit),
                    comp == completion_ts(*context.store, *protocol, wu, views(context.partially_scanned_types@)),
                    *condition == (TriggerCondition::AnyOf { conditions: *conditions }),
                    store == context.store,
                    all_reasons(conditions@, *store, wu, comp) == match all_reasons(conditions@.skip(i as int), *store, wu, comp) {
                        None => None,
                        Some(rs) => Some(views(reasons@) + rs),
                    },
                decreases conditions@.len() - i,
            {
                proof {
                    assert(decreases_to!(condition => conditions));
                    assert(decreases_to!(conditions => conditions@));
                    assert(decreases_to!(conditions@ => conditions@[i as int]));
                }
                let result = evaluate(&conditions[i], protocol, context);
                proof {
                    let t = conditions@.skip(i as int);
                    assert(t[0] == conditions@[i as int]);
                    assert(t.drop_first() =~= conditions@.skip(i + 1));
                }
                match result {
                    TriggerResult::Satisfied => {
                        return TriggerResult::Satisfied;
                    },
                    TriggerResult::NotSatisfied(reason) => {
                        let ghost before = views(reasons@);
                        reasons.push(reason);
                        proof {
                            assert(views(reasons@) =~= before.push(reason@));
                            let rest = all_reasons(conditions@.skip(i + 1), *store, wu, comp);
                            if let Some(rs) = rest {
                                assert(before + (seq![reason@] + rs) =~= before.push(reason@) + rs);
                            }
                        }
                    },
                }
                i = i + 1;
            }
            proof {
                assert(conditions@.skip(conditions@.len() as int).len() == 0);
                assert(views(reasons@) + Seq::<Seq<char>>::empty() =~= views(reasons@));
            }
            let mut msg = owned("none satisfied: ");
            let joined = crate::text::join_strings(&reasons, "; ");
            push_str(&mut msg, joined.as_str());
            TriggerResult::NotSatisfied(msg)
        },
    }
}

} // verus!
