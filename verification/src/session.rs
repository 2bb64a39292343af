//! The decisions of a scoped session: which step it holds, which step comes
//! next, whether the current step may complete, and which steps the session
//! skips for its lifetime.
//!
//! A session holds at most one current `(protocol, work_unit)` step. The next
//! step is the first ready candidate that the session has not exhausted; a
//! step may complete while it is ready or while it waits only because its
//! outputs are current; a completed step is exhausted when its inputs did not
//! change while it ran, and released from exhaustion when they did.
use vstd::prelude::*;

use crate::context::{ContextInjection, build_context, context_holds};
use crate::enforcement::{EnforcementError, Phase, enforce_postconditions, present};
use crate::entry::{AcquisitionBlock, EntryError, TicketRef, check_acquisition_admissible, discover_acquisition_surface,
    lemma_producers_in_range, producers, promise_resolved, resolve_promise};
use crate::forge_address::ForgeProject;
use crate::scoped_identity::WorkUnitDocument;
use crate::model::ProtocolDeclaration;
use crate::scan::ScanError;
use crate::scoped_identity::ScopedWorkUnitError;
use crate::selection::{find_protocol, first_named, lookup, preconditions_hold, readiness_failures};
use crate::status::{EvaluatedProtocols, ProtocolEntry, ProtocolJson, TriggerState, reports};
use crate::store::{ArtifactStore, StoreError, opt_str, opt_string_view};
use crate::text::{owned, str_eq, views};

verus! {

/// The step a session holds: a protocol and the work unit it runs for.
#[derive(Debug, Clone, PartialEq)]
pub struct CurrentStep {
    pub protocol: String,
    pub work_unit: Option<String>,
}

/// How the next step is chosen.
#[derive(Debug, Clone, Copy, PartialEq, Eq, Structural)]
pub enum StepSelector {
    /// The first ready candidate the session has not exhausted.
    FirstReady,
}

/// Why a session operation failed.
#[derive(Debug, Clone, PartialEq)]
pub enum SessionError {
    /// The project could not be loaded; the loader's message.
    Project(String),
    Scan(ScanError),
    WorkUnitScope(ScopedWorkUnitError),
    Entry(EntryError),
    /// A scoped session needs a work unit.
    MissingWorkUnit,
    /// The session holds no step.
    NoCurrentStep,
    /// The current step's protocol is not in the manifest.
    CurrentStepMissing(String),
    /// The current step is no longer ready.
    CurrentStepNotReady(String),
    /// The caller's check refused the step, with its message.
    CurrentStepUnservable(String),
    Precondition(EnforcementError),
    /// The acquisition protocol reads partially scanned types.
    ScanIncomplete { protocol: String, types: Vec<String> },
    Postcondition(EnforcementError),
    Record(StoreError),
}

/// What a session reports of itself after a scan.
#[derive(Debug, Clone, PartialEq)]
pub struct SessionReadiness {
    pub version: u32,
    pub methodology: String,
    pub scan_warnings: Vec<String>,
    pub current_step: Option<CurrentStep>,
    pub protocols: Vec<ProtocolJson>,
}

/// The result of advancing a session by one step.
#[derive(Debug, Clone, PartialEq)]
pub struct AdvanceOutcome {
    pub version: u32,
    pub completed_step: CurrentStep,
    pub next_step: Option<CurrentStep>,
    pub readiness: SessionReadiness,
}

/// A session operation's payload and whether it moved the current step.
#[derive(Debug, Clone, PartialEq)]
pub struct SessionTransition<T> {
    pub payload: T,
    pub current_step_changed: bool,
}

/// The key of a step: its protocol's name and its work unit.
pub open spec fn step_key(s: CurrentStep) -> (Seq<char>, Option<Seq<char>>) {
    (s.protocol@, opt_string_view(s.work_unit))
}

/// The key of an evaluated candidate.
pub open spec fn entry_key(e: ProtocolEntry) -> (Seq<char>, Option<Seq<char>>) {
    (e.name@, opt_string_view(e.work_unit))
}

/// The key of an optional step.
pub open spec fn opt_step_key(o: Option<CurrentStep>) -> Option<(Seq<char>, Option<Seq<char>>)> {
    match o {
        Some(s) => Some(step_key(s)),
        None => None,
    }
}

/// The keys of a list of steps.
pub open spec fn step_keys(ex: Seq<CurrentStep>) -> Set<(Seq<char>, Option<Seq<char>>)> {
    Set::new(|k: (Seq<char>, Option<Seq<char>>)| exists|i: int| 0 <= i < ex.len() && step_key(#[trigger] ex[i]) == k)
}

/// Candidate `i` of `ready` is the first that the exhausted steps `ex` do
/// not hold.
pub open spec fn first_open(ready: Seq<ProtocolEntry>, ex: Set<(Seq<char>, Option<Seq<char>>)>, i: int) -> bool {
    &&& 0 <= i < ready.len()
    &&& !ex.contains(entry_key(ready[i]))
    &&& forall|j: int| 0 <= j < i ==> ex.contains(#[trigger] entry_key(ready[j]))
}

/// The candidate waits only because its outputs are current.
pub open spec fn outputs_current(e: ProtocolEntry) -> bool {
    &&& e.trigger == TriggerState::Satisfied
    &&& e.unsatisfied_conditions@.len() > 0
    &&& e.unsatisfied_conditions@[0]@ == "outputs are current"@
}

/// The step may complete: it is ready, or waits only because its outputs
/// are current.
pub open spec fn can_complete(s: CurrentStep, ready: Seq<ProtocolEntry>, waiting: Seq<ProtocolEntry>) -> bool {
    ||| exists|i: int| 0 <= i < ready.len() && entry_key(#[trigger] ready[i]) == step_key(s)
    ||| exists|i: int| 0 <= i < waiting.len() && entry_key(#[trigger] waiting[i]) == step_key(s)
        && outputs_current(waiting[i])
}

fn opt_string_eq(a: &Option<String>, b: &Option<String>) -> (r: bool)
    ensures
        r == (opt_string_view(*a) == opt_string_view(*b)),
{
    match (a, b) {
        (Some(x), Some(y)) => str_eq(x.as_str(), y.as_str()),
        (None, None) => true,
        _ => false,
    }
}

fn clone_opt(a: &Option<String>) -> (r: Option<String>)
    ensures
        opt_string_view(r) == opt_string_view(*a),
{
    match a {
        Some(x) => Some(x.clone()),
        None => None,
    }
}

impl CurrentStep {
    /// A copy of the step.
    pub fn duplicate(&self) -> (r: CurrentStep)
        ensures
            step_key(r) == step_key(*self),
    {
        CurrentStep { protocol: self.protocol.clone(), work_unit: clone_opt(&self.work_unit) }
    }

    /// Two steps are the same step when their protocols and work units agree.
    pub fn same_step(&self, other: &CurrentStep) -> (r: bool)
        ensures
            r == (step_key(*self) == step_key(*other)),
    {
        str_eq(self.protocol.as_str(), other.protocol.as_str()) && opt_string_eq(&self.work_unit, &other.work_unit)
    }
}

/// Whether the steps `ex` hold the step keyed `(name, wu)`.
fn holds_key(ex: &Vec<CurrentStep>, name: &String, wu: &Option<String>) -> (r: bool)
    ensures
        r == step_keys(ex@).contains((name@, opt_string_view(*wu))),
{
    let mut i: usize = 0;
    while i < ex.len()
        invariant
            i <= ex@.len(),
            forall|k: int| 0 <= k < i ==> step_key(#[trigger] ex@[k]) != (name@, opt_string_view(*wu)),
        decreases ex@.len() - i,
    {
        if str_eq(ex[i].protocol.as_str(), name.as_str()) && opt_string_eq(&ex[i].work_unit, wu) {
            assert(step_keys(ex@).contains((name@, opt_string_view(*wu)))) by {
                assert(step_key(ex@[i as int]) == (name@, opt_string_view(*wu)));
            }
            return true;
        }
        i = i + 1;
    }
    false
}

/// The next step: the first ready candidate that the exhausted steps do not
/// hold; none when every ready candidate is exhausted; an error when that
/// candidate's protocol is not among `protocols`.
pub fn select_next(protocols: &Vec<ProtocolDeclaration>, ready: &Vec<ProtocolEntry>, exhausted: &Vec<CurrentStep>)
    -> (r: Result<Option<CurrentStep>, SessionError>)
    ensures
        (r is Ok && r->Ok_0 is None) <==> (forall|i: int| 0 <= i < ready@.len() ==> step_keys(exhausted@).contains(#[trigger] entry_key(ready@[i]))),
        r matches Ok(Some(s)) ==> exists|i: int| #[trigger] first_open(ready@, step_keys(exhausted@), i) && step_key(s) == entry_key(ready@[i])
            && lookup(protocols@, ready@[i].name@) is Some,
        r matches Err(e) ==> exists|i: int| #[trigger] first_open(ready@, step_keys(exhausted@), i)
            && lookup(protocols@, ready@[i].name@) is None && e == SessionError::CurrentStepMissing(ready@[i].name),
{
    let mut i: usize = 0;
    while i < ready.len()
        invariant
            i <= ready@.len(),
            forall|j: int| 0 <= j < i ==> step_keys(exhausted@).contains(#[trigger] entry_key(ready@[j])),
        decreases ready@.len() - i,
    {
        let entry = &ready[i];
        if !holds_key(exhausted, &entry.name, &entry.work_unit) {
            assert(first_open(ready@, step_keys(exhausted@), i as int));
            match find_protocol(protocols.as_slice(), entry.name.as_str()) {
                Some(_) => {
                    return Ok(Some(CurrentStep { protocol: entry.name.clone(), work_unit: clone_opt(&entry.work_unit) }));
                },
                None => {
                    return Err(SessionError::CurrentStepMissing(entry.name.clone()));
                },
            }
        }
        i = i + 1;
    }
    proof {
        assert forall|k: int| #[trigger] first_open(ready@, step_keys(exhausted@), k) implies false by {
            assert(step_keys(exhausted@).contains(entry_key(ready@[k])));
        }
    }
    Ok(None)
}

/// Whether some candidate of `entries` has the key of `step`, and, when
/// `only_current_outputs`, waits only because its outputs are current.
fn has_entry(entries: &Vec<ProtocolEntry>, step: &CurrentStep, only_current_outputs: bool) -> (r: bool)
    ensures
        r == exists|i: int| 0 <= i < entries@.len() && entry_key(#[trigger] entries@[i]) == step_key(*step)
            && (only_current_outputs ==> outputs_current(entries@[i])),
{
    let mut i: usize = 0;
    while i < entries.len()
        invariant
            i <= entries@.len(),
            forall|k: int| 0 <= k < i ==> !(entry_key(#[trigger] entries@[k]) == step_key(*step)
                && (only_current_outputs ==> outputs_current(entries@[k]))),
        decreases entries@.len() - i,
    {
        let e = &entries[i];
        if str_eq(e.name.as_str(), step.protocol.as_str()) && opt_string_eq(&e.work_unit, &step.work_unit) {
            let current = e.trigger == TriggerState::Satisfied && e.unsatisfied_conditions.len() > 0
                && str_eq(e.unsatisfied_conditions[0].as_str(), "outputs are current");
            if !only_current_outputs || current {
                assert(entry_key(entries@[i as int]) == step_key(*step));
                return true;
            }
        }
        i = i + 1;
    }
    false
}

/// The current step may complete when it is ready, or when it waits only
/// because its outputs are current; otherwise it is no longer ready.
pub fn ensure_current_step_can_complete(step: &CurrentStep, evaluated: &EvaluatedProtocols) -> (r: Result<(), SessionError>)
    ensures
        r is Ok <==> can_complete(*step, evaluated.ready@, evaluated.waiting@),
        r matches Err(e) ==> e == SessionError::CurrentStepNotReady(step.protocol),
{
    proof {
        reveal_strlit("outputs are current");
    }
    if has_entry(&evaluated.ready, step, false) {
        return Ok(());
    }
    if has_entry(&evaluated.waiting, step, true) {
        return Ok(());
    }
    Err(SessionError::CurrentStepNotReady(step.protocol.clone()))
}

/// The protocol of the current step: an error when the session holds no
/// step, or when the step's protocol is not among `protocols`.
pub fn current_protocol<'a>(protocols: &'a Vec<ProtocolDeclaration>, current: &Option<CurrentStep>)
    -> (r: Result<&'a ProtocolDeclaration, SessionError>)
    ensures
        current is None ==> r == Err::<&ProtocolDeclaration, SessionError>(SessionError::NoCurrentStep),
        current matches Some(s) ==> match lookup(protocols@, s.protocol@) {
            Some(i) => r matches Ok(p) && *p == protocols@[i],
            None => r == Err::<&ProtocolDeclaration, SessionError>(SessionError::CurrentStepMissing(s.protocol)),
        },
{
    match current {
        None => Err(SessionError::NoCurrentStep),
        Some(s) => match find_protocol(protocols.as_slice(), s.protocol.as_str()) {
            Some(i) => Ok(&protocols[i]),
            None => Err(SessionError::CurrentStepMissing(s.protocol.clone())),
        },
    }
}

/// Record the outcome of completing `step`: the session exhausts it when
/// its inputs did not change while it ran, and releases it when they did.
pub fn refresh_exhaustion(exhausted: &mut Vec<CurrentStep>, step: &CurrentStep, inputs_unchanged: bool)
    ensures
        inputs_unchanged ==> step_keys(final(exhausted)@) == step_keys(old(exhausted)@).insert(step_key(*step)),
        !inputs_unchanged ==> step_keys(final(exhausted)@) == step_keys(old(exhausted)@).remove(step_key(*step)),
{
    let ghost k0 = step_key(*step);
    let ghost before = step_keys(exhausted@);
    let mut kept: Vec<CurrentStep> = Vec::new();
    let mut i: usize = 0;
    while i < exhausted.len()
        invariant
            i <= exhausted@.len(),
            before == step_keys(exhausted@),
            k0 == step_key(*step),
            step_keys(kept@) == step_keys(exhausted@.subrange(0, i as int)).remove(k0),
        decreases exhausted@.len() - i,
    {
        let ghost prev = kept@;
        if !exhausted[i].same_step(step) {
            kept.push(exhausted[i].duplicate());
        }
        proof {
            let sub = exhausted@.subrange(0, i as int);
            let sub1 = exhausted@.subrange(0, i as int + 1);
            assert forall|k: (Seq<char>, Option<Seq<char>>)| step_keys(kept@).contains(k)
                <==> step_keys(sub1).remove(k0).contains(k) by {
                if step_keys(kept@).contains(k) {
                    let j = choose|j: int| 0 <= j < kept@.len() && step_key(#[trigger] kept@[j]) == k;
                    if j < prev.len() {
                        assert(step_key(prev[j]) == k);
                        assert(step_keys(prev).contains(k));
                        let m = choose|m: int| 0 <= m < sub.len() && step_key(#[trigger] sub[m]) == k;
                        assert(sub1[m] == sub[m]);
                    } else {
                        assert(sub1[i as int] == exhausted@[i as int]);
                    }
                }
                if step_keys(sub1).remove(k0).contains(k) {
                    let m = choose|m: int| 0 <= m < sub1.len() && step_key(#[trigger] sub1[m]) == k;
                    if m < i {
                        assert(sub[m] == sub1[m]);
                        assert(step_keys(sub).contains(k));
                        assert(step_keys(prev).contains(k));
                        let j = choose|j: int| 0 <= j < prev.len() && step_key(#[trigger] prev[j]) == k;
                        assert(kept@[j] == prev[j]);
                    } else {
                        assert(step_key(kept@[prev.len() as int]) == k);
                    }
                }
            }
            assert(step_keys(kept@) =~= step_keys(sub1).remove(k0));
        }
        i = i + 1;
    }
    proof {
        assert(exhausted@.subrange(0, exhausted@.len() as int) =~= exhausted@);
    }
    if inputs_unchanged {
        let ghost prev = kept@;
        kept.push(step.duplicate());
        proof {
            assert forall|k: (Seq<char>, Option<Seq<char>>)| step_keys(kept@).contains(k)
                <==> before.insert(k0).contains(k) by {
                if step_keys(kept@).contains(k) {
                    let j = choose|j: int| 0 <= j < kept@.len() && step_key(#[trigger] kept@[j]) == k;
                    if j < prev.len() {
                        assert(step_key(prev[j]) == k);
                        assert(step_keys(prev).contains(k));
                    }
                }
                if before.insert(k0).contains(k) {
                    if k == k0 {
                        assert(step_key(kept@[prev.len() as int]) == k);
                    } else {
                        assert(step_keys(prev).contains(k));
                        let j = choose|j: int| 0 <= j < prev.len() && step_key(#[trigger] prev[j]) == k;
                        assert(kept@[j] == prev[j]);
                    }
                }
            }
            assert(step_keys(kept@) =~= before.insert(k0));
        }
    }
    *exhausted = kept;
}

/// Whether a transition moved the current step: the steps before and
/// after differ, compared by protocol and work unit.
pub fn current_step_changed(before: &Option<CurrentStep>, after: &Option<CurrentStep>) -> (r: bool)
    ensures
        r == match (*before, *after) {
            (None, None) => false,
            (Some(a), Some(b)) => step_key(a) != step_key(b),
            _ => true,
        },
{
    match (before, after) {
        (None, None) => false,
        (Some(a), Some(b)) => !a.same_step(b),
        _ => true,
    }
}

/// The session's report after a scan: version 1, the methodology, the scan
/// warnings, the current step and every evaluated candidate in reporting
/// order.
pub fn readiness_from(methodology: &str, scan_warnings: Vec<String>, current_step: &Option<CurrentStep>,
    evaluated: &EvaluatedProtocols) -> (r: SessionReadiness)
    ensures
        r.version == 1,
        r.methodology@ == methodology@,
        r.scan_warnings == scan_warnings,
        match (r.current_step, *current_step) {
            (None, None) => true,
            (Some(a), Some(b)) => step_key(a) == step_key(b),
            _ => false,
        },
        r.protocols@.len() == evaluated.ready@.len() + evaluated.blocked@.len() + evaluated.waiting@.len(),
        forall|i: int| 0 <= i < r.protocols@.len() ==>
            reports((evaluated.ready@ + evaluated.blocked@ + evaluated.waiting@)[i], #[trigger] r.protocols@[i]),
{
    let step = match current_step {
        Some(s) => Some(s.duplicate()),
        None => None,
    };
    SessionReadiness {
        version: 1,
        methodology: owned(methodology),
        scan_warnings,
        current_step: step,
        protocols: evaluated.json_protocols(),
    }
}


/// The protocol a step names, when `protocols` declares it.
pub open spec fn step_protocol(protocols: Seq<ProtocolDeclaration>, s: CurrentStep) -> Option<ProtocolDeclaration> {
    match lookup(protocols, s.protocol@) {
        Some(i) => Some(protocols[i]),
        None => None,
    }
}

/// The postconditions of `p` hold for `wu`: every produced type has
/// instances in scope, all valid, and every optional output present in
/// scope is valid.
pub open spec fn postconditions_hold(p: ProtocolDeclaration, store: ArtifactStore, wu: Option<Seq<char>>) -> bool {
    &&& forall|k: int| 0 <= k < p.produces@.len() ==> store.all_valid(#[trigger] p.produces@[k]@, wu)
    &&& forall|k: int| 0 <= k < p.may_produce@.len() && #[trigger] present(store, p.may_produce@[k]@, wu)
        ==> store.all_valid(p.may_produce@[k]@, wu)
}

/// The exhausted keys after completing `s`: with it when its inputs did not
/// change while it ran, without it when they did.
pub open spec fn exhausted_after(keys: Set<(Seq<char>, Option<Seq<char>>)>, s: CurrentStep, inputs_unchanged: bool)
    -> Set<(Seq<char>, Option<Seq<char>>)> {
    if inputs_unchanged {
        keys.insert(step_key(s))
    } else {
        keys.remove(step_key(s))
    }
}

/// `r` is the step selected from `ready` past the exhausted keys `ex`, for
/// a selection that did not fail: none when every ready candidate is
/// exhausted, otherwise the first open one.
pub open spec fn selected(ready: Seq<ProtocolEntry>, ex: Set<(Seq<char>, Option<Seq<char>>)>, r: Option<CurrentStep>) -> bool {
    match r {
        None => forall|i: int| 0 <= i < ready.len() ==> ex.contains(#[trigger] entry_key(ready[i])),
        Some(s) => exists|i: int| #[trigger] first_open(ready, ex, i) && step_key(s) == entry_key(ready[i]),
    }
}

/// The protocol handed to the caller's check for a selected step.
pub open spec fn checked_protocol(protocols: Seq<ProtocolDeclaration>, step: Option<CurrentStep>) -> Option<ProtocolDeclaration> {
    match step {
        Some(s) => step_protocol(protocols, s),
        None => None,
    }
}

/// The protocol a reference points to, when there is one.
pub open spec fn opt_deref(p: Option<&ProtocolDeclaration>) -> Option<ProtocolDeclaration> {
    match p {
        Some(x) => Some(*x),
        None => None,
    }
}

/// The caller's check may answer `v` when handed `p` and `store`.
pub open spec fn checked_by<F: FnOnce(Option<&ProtocolDeclaration>, &ArtifactStore) -> Result<(), String>>(
    f: F, p: Option<ProtocolDeclaration>, store: &ArtifactStore, v: Result<(), String>) -> bool {
    exists|q: Option<&ProtocolDeclaration>, w: Result<(), String>| opt_deref(q) == p && #[trigger] f.ensures((q, store), w)
        && (w is Ok <==> v is Ok) && (w is Err ==> w->Err_0 == v->Err_0)
}

/// Hand the selected step's protocol (none when no step is selected) and
/// the store to the caller's check; its refusal makes the step unservable.
fn validate_selected_step<F>(protocols: &Vec<ProtocolDeclaration>, store: &ArtifactStore, step: Option<CurrentStep>,
    validate_step: F) -> (r: Result<Option<CurrentStep>, SessionError>)
    where F: FnOnce(Option<&ProtocolDeclaration>, &ArtifactStore) -> Result<(), String>,
    requires
        forall|p: Option<&ProtocolDeclaration>| validate_step.requires((p, store)),
        step matches Some(s) ==> lookup(protocols@, s.protocol@) is Some,
    ensures
        r matches Ok(v) ==> v == step && checked_by(validate_step, checked_protocol(protocols@, step), store, Ok(())),
        r matches Err(e) ==> e matches SessionError::CurrentStepUnservable(m)
            && checked_by(validate_step, checked_protocol(protocols@, step), store, Err(m)),
{
    let protocol: Option<&ProtocolDeclaration> = match &step {
        Some(st) => match find_protocol(protocols.as_slice(), st.protocol.as_str()) {
            Some(i) => Some(&protocols[i]),
            None => None,
        },
        None => None,
    };
    assert(opt_deref(protocol) == checked_protocol(protocols@, step));
    let verdict = validate_step(protocol, store);
    assert(validate_step.ensures((protocol, store), verdict));
    assert(checked_by(validate_step, checked_protocol(protocols@, step), store, verdict));
    match verdict {
        Ok(()) => Ok(step),
        Err(m) => Err(SessionError::CurrentStepUnservable(m)),
    }
}

/// A session scoped to one work unit: the manifest's protocols, the
/// current step and the steps it has exhausted.
pub struct SessionState {
    methodology: String,
    protocols: Vec<ProtocolDeclaration>,
    work_unit: String,
    promise: Option<TicketRef>,
    current_step: Option<CurrentStep>,
    exhausted: Vec<CurrentStep>,
}

impl SessionState {
    /// The manifest's protocols.
    pub closed spec fn protocols_view(&self) -> Seq<ProtocolDeclaration> {
        self.protocols@
    }

    /// The methodology's name.
    pub closed spec fn methodology_view(&self) -> Seq<char> {
        self.methodology@
    }

    /// The work unit the session is scoped to.
    pub closed spec fn work_unit_view(&self) -> Seq<char> {
        self.work_unit@
    }

    /// The ticket whose work unit the session waits to bind, while its scope
    /// is promised; none once the scope is bound.
    pub closed spec fn promise_view(&self) -> Option<TicketRef> {
        self.promise
    }

    /// The step the session holds.
    pub closed spec fn current_view(&self) -> Option<CurrentStep> {
        self.current_step
    }

    /// The keys of the steps the session has exhausted.
    pub closed spec fn exhausted_view(&self) -> Set<(Seq<char>, Option<Seq<char>>)> {
        step_keys(self.exhausted@)
    }

    /// Open a session for `work_unit` over an evaluation of the workspace
    /// scoped to it: an error without a work unit; otherwise the first ready
    /// candidate becomes the current step (none when nothing is ready), once
    /// the caller's check accepts it.
    pub fn open_with_validator<F>(methodology: String, protocols: Vec<ProtocolDeclaration>, work_unit: Option<String>,
        store: &ArtifactStore, evaluated: &EvaluatedProtocols, validate_step: F) -> (r: Result<SessionState, SessionError>)
        where F: FnOnce(Option<&ProtocolDeclaration>, &ArtifactStore) -> Result<(), String>,
        requires
            forall|p: Option<&ProtocolDeclaration>| validate_step.requires((p, store)),
        ensures
            work_unit is None ==> r == Err::<SessionState, SessionError>(SessionError::MissingWorkUnit),
            work_unit matches Some(w) ==> match r {
                Ok(st) => {
                    &&& st.work_unit_view() == w@
                    &&& st.promise_view() is None
                    &&& st.methodology_view() == methodology@
                    &&& st.protocols_view() == protocols@
                    &&& st.exhausted_view() == Set::<(Seq<char>, Option<Seq<char>>)>::empty()
                    &&& selected(evaluated.ready@, Set::empty(), st.current_view())
                    &&& (st.current_view() matches Some(s) ==> step_protocol(protocols@, s) is Some)
                    &&& checked_by(validate_step, checked_protocol(protocols@, st.current_view()), store, Ok(()))
                },
                Err(e) => (e matches SessionError::CurrentStepMissing(n)
                    && exists|i: int| #[trigger] first_open(evaluated.ready@, Set::empty(), i)
                        && lookup(protocols@, evaluated.ready@[i].name@) is None && n == evaluated.ready@[i].name)
                    || (e is CurrentStepUnservable),
            },
    {
        let work_unit = match work_unit {
            Some(w) => w,
            None => {
                return Err(SessionError::MissingWorkUnit);
            },
        };
        let exhausted: Vec<CurrentStep> = Vec::new();
        proof {
            assert(step_keys(exhausted@) =~= Set::<(Seq<char>, Option<Seq<char>>)>::empty());
        }
        let next = match select_next(&protocols, &evaluated.ready, &exhausted) {
            Ok(n) => n,
            Err(e) => {
                return Err(e);
            },
        };
        proof {
            if next is Some {
                let s = next->Some_0;
                let i = choose|i: int| #[trigger] first_open(evaluated.ready@, step_keys(exhausted@), i)
                    && step_key(s) == entry_key(evaluated.ready@[i]) && lookup(protocols@, evaluated.ready@[i].name@) is Some;
                assert(s.protocol@ == evaluated.ready@[i].name@);
            }
        }
        let current = match validate_selected_step(&protocols, store, next, validate_step) {
            Ok(c) => c,
            Err(e) => {
                return Err(e);
            },
        };
        Ok(SessionState { methodology, protocols, work_unit, promise: None, current_step: current, exhausted })
    }

    /// The step the session holds.
    pub fn current_step(&self) -> (r: Option<&CurrentStep>)
        ensures
            match (r, self.current_view()) {
                (None, None) => true,
                (Some(a), Some(b)) => *a == b,
                _ => false,
            },
    {
        match &self.current_step {
            Some(s) => Some(s),
            None => None,
        }
    }

    /// The protocol of the current step; an error when the session holds no
    /// step or the manifest no longer declares its protocol.
    pub fn current_protocol(&self) -> (r: Result<&ProtocolDeclaration, SessionError>)
        ensures
            self.current_view() is None ==> r == Err::<&ProtocolDeclaration, SessionError>(SessionError::NoCurrentStep),
            self.current_view() matches Some(s) ==> match step_protocol(self.protocols_view(), s) {
                Some(p) => r matches Ok(q) && *q == p,
                None => r == Err::<&ProtocolDeclaration, SessionError>(SessionError::CurrentStepMissing(s.protocol)),
            },
    {
        current_protocol(&self.protocols, &self.current_step)
    }

    /// Report the session after a fresh evaluation: when it holds no step,
    /// the first ready candidate past the exhausted ones becomes the current
    /// step, once the caller's check accepts it; a held step is kept. Any
    /// failure leaves the session unchanged.
    pub fn readiness<F>(&mut self, store: &ArtifactStore, evaluated: &EvaluatedProtocols, scan_warnings: Vec<String>,
        validate_step: F) -> (r: Result<SessionTransition<SessionReadiness>, SessionError>)
        where F: FnOnce(Option<&ProtocolDeclaration>, &ArtifactStore) -> Result<(), String>,
        requires
            forall|p: Option<&ProtocolDeclaration>| validate_step.requires((p, store)),
        ensures
            r is Err ==> *final(self) == *old(self),
            final(self).protocols_view() == old(self).protocols_view(),
            final(self).methodology_view() == old(self).methodology_view(),
            final(self).work_unit_view() == old(self).work_unit_view(),
            final(self).exhausted_view() == old(self).exhausted_view(),
            old(self).current_view() is Some ==> r is Ok && final(self).current_view() == old(self).current_view(),
            old(self).current_view() is None ==> match r {
                Ok(_) => selected(evaluated.ready@, old(self).exhausted_view(), final(self).current_view())
                    && checked_by(validate_step, checked_protocol(old(self).protocols_view(), final(self).current_view()), store, Ok(())),
                Err(e) => (e matches SessionError::CurrentStepMissing(n) && exists|i: int|
                        #[trigger] first_open(evaluated.ready@, old(self).exhausted_view(), i)
                        && lookup(old(self).protocols_view(), evaluated.ready@[i].name@) is None
                        && n == evaluated.ready@[i].name)
                    || e is CurrentStepUnservable,
            },
            r matches Ok(t) ==> {
                &&& t.current_step_changed == (old(self).current_view() is None && final(self).current_view() is Some)
                &&& t.payload.version == 1
                &&& t.payload.methodology@ == old(self).methodology_view()
                &&& t.payload.scan_warnings == scan_warnings
                &&& opt_step_key(t.payload.current_step) == opt_step_key(final(self).current_view())
                &&& t.payload.protocols@.len() == evaluated.ready@.len() + evaluated.blocked@.len() + evaluated.waiting@.len()
                &&& forall|i: int| 0 <= i < t.payload.protocols@.len() ==>
                    reports((evaluated.ready@ + evaluated.blocked@ + evaluated.waiting@)[i], #[trigger] t.payload.protocols@[i])
            },
    {
        let mut changed = false;
        if self.current_step.is_none() {
            let next = match select_next(&self.protocols, &evaluated.ready, &self.exhausted) {
                Ok(n) => n,
                Err(e) => {
                    assert(e matches SessionError::CurrentStepMissing(n) && exists|i: int|
                        #[trigger] first_open(evaluated.ready@, step_keys(self.exhausted@), i)
                        && lookup(self.protocols@, evaluated.ready@[i].name@) is None && n == evaluated.ready@[i].name);
                    assert(old(self).exhausted_view() == step_keys(self.exhausted@));
                    assert(old(self).protocols_view() == self.protocols@);
                    return Err(e);
                },
            };
            proof {
                if next is Some {
                    let n = next->Some_0;
                    let i = choose|i: int| #[trigger] first_open(evaluated.ready@, step_keys(self.exhausted@), i)
                        && step_key(n) == entry_key(evaluated.ready@[i]) && lookup(self.protocols@, evaluated.ready@[i].name@) is Some;
                    assert(n.protocol@ == evaluated.ready@[i].name@);
                }
            }
            let next = match validate_selected_step(&self.protocols, store, next, validate_step) {
                Ok(n) => n,
                Err(e) => {
                    return Err(e);
                },
            };
            changed = next.is_some();
            self.current_step = next;
        }
        let payload = readiness_from(self.methodology.as_str(), scan_warnings, &self.current_step, evaluated);
        Ok(SessionTransition { payload, current_step_changed: changed })
    }

    /// The context of the current step, over a fresh evaluation of the
    /// workspace and the store it was made from: an error when the session
    /// holds no step, when the step can no longer complete or when the
    /// manifest no longer declares its protocol; otherwise the step's
    /// protocol invoked for the session's work unit.
    pub fn next_context(&self, store: &ArtifactStore, evaluated: &EvaluatedProtocols) -> (r: Result<ContextInjection, SessionError>)
        ensures
            self.current_view() is None ==> r == Err::<ContextInjection, SessionError>(SessionError::NoCurrentStep),
            self.current_view() matches Some(s) ==> {
                &&& !can_complete(s, evaluated.ready@, evaluated.waiting@)
                    ==> r == Err::<ContextInjection, SessionError>(SessionError::CurrentStepNotReady(s.protocol))
                &&& can_complete(s, evaluated.ready@, evaluated.waiting@) ==> match step_protocol(self.protocols_view(), s) {
                    None => r == Err::<ContextInjection, SessionError>(SessionError::CurrentStepMissing(s.protocol)),
                    Some(p) => r matches Ok(c) && context_holds(p, *store, Some(self.work_unit_view()), c),
                }
            },
    {
        let cur: &CurrentStep = match &self.current_step {
            Some(s) => s,
            None => {
                return Err(SessionError::NoCurrentStep);
            },
        };
        match ensure_current_step_can_complete(cur, evaluated) {
            Ok(()) => {},
            Err(e) => {
                return Err(e);
            },
        }
        let protocol = match current_protocol(&self.protocols, &self.current_step) {
            Ok(p) => p,
            Err(e) => {
                return Err(e);
            },
        };
        Ok(build_context(protocol, store, Some(self.work_unit.as_str())))
    }

    /// Advance the session by one step, as one operation, over a fresh
    /// evaluation of the workspace and the store it was made from.
    ///
    /// The current step must be able to complete and its postconditions must
    /// hold; the step is then exhausted when `inputs_unchanged` (its inputs
    /// did not change while it ran) and released otherwise; the next step is
    /// the first ready candidate past the exhausted ones, once the caller's
    /// check accepts it. Any failure leaves the session unchanged.
    pub fn advance_with_validator<F>(&mut self, store: &ArtifactStore, evaluated: &EvaluatedProtocols, scan_warnings: Vec<String>,
        inputs_unchanged: bool, validate_step: F) -> (r: Result<SessionTransition<AdvanceOutcome>, SessionError>)
        where F: FnOnce(Option<&ProtocolDeclaration>, &ArtifactStore) -> Result<(), String>,
        requires
            forall|p: Option<&ProtocolDeclaration>| validate_step.requires((p, store)),
        ensures
            r is Err ==> *final(self) == *old(self),
            final(self).protocols_view() == old(self).protocols_view(),
            final(self).methodology_view() == old(self).methodology_view(),
            final(self).work_unit_view() == old(self).work_unit_view(),
            final(self).promise_view() == old(self).promise_view(),
            old(self).current_view() is None ==> r == Err::<SessionTransition<AdvanceOutcome>, SessionError>(SessionError::NoCurrentStep),
            old(self).current_view() matches Some(s) ==> {
                let staged = exhausted_after(old(self).exhausted_view(), s, inputs_unchanged);
                &&& !can_complete(s, evaluated.ready@, evaluated.waiting@)
                    ==> r == Err::<SessionTransition<AdvanceOutcome>, SessionError>(SessionError::CurrentStepNotReady(s.protocol))
                &&& can_complete(s, evaluated.ready@, evaluated.waiting@) ==> match step_protocol(old(self).protocols_view(), s) {
                    None => r == Err::<SessionTransition<AdvanceOutcome>, SessionError>(SessionError::CurrentStepMissing(s.protocol)),
                    Some(p) => {
                    &&& (r matches Err(SessionError::Postcondition(_)) <==> !postconditions_hold(p, *store, opt_string_view(s.work_unit)))
                    &&& (r matches Err(SessionError::Postcondition(e)) ==> e.skill_name@ == p.name@ && e.phase == Phase::Post)
                    &&& postconditions_hold(p, *store, opt_string_view(s.work_unit)) ==> match r {
                        Ok(t) => {
                            &&& selected(evaluated.ready@, staged, final(self).current_view())
                            &&& final(self).exhausted_view() == staged
                            &&& step_key(t.payload.completed_step) == step_key(s)
                            &&& opt_step_key(t.payload.next_step) == opt_step_key(final(self).current_view())
                            &&& t.payload.version == 1
                            &&& t.payload.readiness.version == 1
                            &&& t.payload.readiness.methodology@ == old(self).methodology_view()
                            &&& t.payload.readiness.scan_warnings == scan_warnings
                            &&& t.payload.readiness.protocols@.len()
                                == evaluated.ready@.len() + evaluated.blocked@.len() + evaluated.waiting@.len()
                            &&& t.current_step_changed == match final(self).current_view() {
                                Some(n) => step_key(n) != step_key(s),
                                None => true,
                            }
                            &&& checked_by(validate_step, checked_protocol(old(self).protocols_view(), final(self).current_view()), store, Ok(()))
                        },
                        Err(e) => (e matches SessionError::CurrentStepMissing(n) && exists|i: int|
                                #[trigger] first_open(evaluated.ready@, staged, i)
                                && lookup(old(self).protocols_view(), evaluated.ready@[i].name@) is None
                                && n == evaluated.ready@[i].name)
                            || e is CurrentStepUnservable,
                    }
                    },
                }
            },
    {
        let cur: &CurrentStep = match &self.current_step {
            Some(s) => s,
            None => {
                return Err(SessionError::NoCurrentStep);
            },
        };
        match ensure_current_step_can_complete(cur, evaluated) {
            Ok(()) => {},
            Err(e) => {
                return Err(e);
            },
        }
        let completed = cur.duplicate();
        let protocol = match current_protocol(&self.protocols, &self.current_step) {
            Ok(p) => p,
            Err(e) => {
                return Err(e);
            },
        };
        let wu: Option<&str> = match &completed.work_unit {
            Some(w) => Some(w.as_str()),
            None => None,
        };
        assert(opt_str(wu) == opt_string_view(completed.work_unit));
        assert(step_protocol(self.protocols@, completed) == Some(*protocol));
        match enforce_postconditions(protocol, store, wu) {
            Ok(()) => {
                assert(postconditions_hold(*protocol, *store, opt_string_view(completed.work_unit)));
                assert(postconditions_hold(*protocol, *store, opt_string_view(cur.work_unit)));
            },
            Err(e) => {
                return Err(SessionError::Postcondition(e));
            },
        }
        let mut staged: Vec<CurrentStep> = clone_steps(&self.exhausted);
        refresh_exhaustion(&mut staged, &completed, inputs_unchanged);
        assert(step_keys(staged@) == exhausted_after(step_keys(self.exhausted@), completed, inputs_unchanged));
        let next = match select_next(&self.protocols, &evaluated.ready, &staged) {
            Ok(n) => n,
            Err(e) => {
                assert(e matches SessionError::CurrentStepMissing(n) && exists|i: int|
                    #[trigger] first_open(evaluated.ready@, exhausted_after(step_keys(self.exhausted@), completed, inputs_unchanged), i)
                    && lookup(self.protocols@, evaluated.ready@[i].name@) is None && n == evaluated.ready@[i].name);
                assert(exhausted_after(step_keys(self.exhausted@), completed, inputs_unchanged)
                    == exhausted_after(old(self).exhausted_view(), *cur, inputs_unchanged));
                assert(can_complete(*cur, evaluated.ready@, evaluated.waiting@));
                assert(step_protocol(old(self).protocols_view(), *cur) == Some(*protocol));
                assert(postconditions_hold(*protocol, *store, opt_string_view(cur.work_unit)));
                return Err(e);
            },
        };
        proof {
            if next is Some {
                let n = next->Some_0;
                let i = choose|i: int| #[trigger] first_open(evaluated.ready@, step_keys(staged@), i)
                    && step_key(n) == entry_key(evaluated.ready@[i]) && lookup(self.protocols@, evaluated.ready@[i].name@) is Some;
                assert(n.protocol@ == evaluated.ready@[i].name@);
            }
        }
        let next = match validate_selected_step(&self.protocols, store, next, validate_step) {
            Ok(n) => n,
            Err(e) => {
                return Err(e);
            },
        };
        let changed = current_step_changed(&self.current_step, &next);
        let readiness = readiness_from(self.methodology.as_str(), scan_warnings, &next, evaluated);
        let next_copy = match &next {
            Some(n) => Some(n.duplicate()),
            None => None,
        };
        self.current_step = next;
        self.exhausted = staged;
        let payload = AdvanceOutcome { version: 1, completed_step: completed, next_step: next_copy, readiness };
        Ok(SessionTransition { payload, current_step_changed: changed })
    }
}

/// A copy of a list of steps.
fn clone_steps(v: &Vec<CurrentStep>) -> (r: Vec<CurrentStep>)
    ensures
        step_keys(r@) == step_keys(v@),
{
    let mut r: Vec<CurrentStep> = Vec::new();
    let mut i: usize = 0;
    while i < v.len()
        invariant
            i <= v@.len(),
            r@.len() == i,
            forall|k: int| 0 <= k < i ==> step_key(#[trigger] r@[k]) == step_key(v@[k]),
        decreases v@.len() - i,
    {
        r.push(v[i].duplicate());
        i = i + 1;
    }
    assert forall|key: (Seq<char>, Option<Seq<char>>)| step_keys(r@).contains(key) <==> step_keys(v@).contains(key) by {
        if step_keys(r@).contains(key) {
            let k = choose|k: int| 0 <= k < r@.len() && step_key(#[trigger] r@[k]) == key;
            assert(step_key(v@[k]) == key);
        }
        if step_keys(v@).contains(key) {
            let k = choose|k: int| 0 <= k < v@.len() && step_key(#[trigger] v@[k]) == key;
            assert(step_key(r@[k]) == key);
        }
    }
    assert(step_keys(r@) =~= step_keys(v@));
    r
}

/// A step that the session has exhausted is never selected again while it
/// stays exhausted: after completing `step` with unchanged inputs, the next
/// selection over any ready list returns another step or none.
pub proof fn law_exhausted_step_not_reselected(before: Seq<CurrentStep>, after: Seq<CurrentStep>, step: CurrentStep,
    ready: Seq<ProtocolEntry>, i: int)
    requires
        step_keys(after) == step_keys(before).insert(step_key(step)),
        first_open(ready, step_keys(after), i),
    ensures
        entry_key(ready[i]) != step_key(step),
{
    assert(step_keys(after).contains(step_key(step)));
}

/// Some protocol of the list bears a name, so a first one does.
proof fn lemma_named_has_first(ps: Seq<ProtocolDeclaration>, name: Seq<char>, k: int)
    requires
        0 <= k < ps.len(),
        ps[k].name@ == name,
    ensures
        exists|i: int| #[trigger] first_named(ps, name, i),
    decreases k,
{
    if exists|j: int| 0 <= j < k && (#[trigger] ps[j]).name@ == name {
        let j = choose|j: int| 0 <= j < k && (#[trigger] ps[j]).name@ == name;
        lemma_named_has_first(ps, name, j);
    } else {
        assert(first_named(ps, name, k));
    }
}

impl SessionState {
    /// Open a session in a promised scope, for a forge ticket whose work unit
    /// is not recorded yet: the methodology's acquisition surface (the one
    /// unscoped protocol that produces the `work-unit` artifact) becomes the
    /// current step, unscoped, once its preconditions hold, none of its
    /// required types was partially scanned and the caller's check accepts
    /// it. The ticket stands in for the acquisition's trigger.
    pub fn open_entry_with_validator<F>(methodology: String, protocols: Vec<ProtocolDeclaration>, ticket: TicketRef,
        store: &ArtifactStore, partially_scanned_types: &Vec<String>, validate_step: F) -> (r: Result<SessionState, SessionError>)
        where F: FnOnce(Option<&ProtocolDeclaration>, &ArtifactStore) -> Result<(), String>,
        requires
            forall|p: Option<&ProtocolDeclaration>| validate_step.requires((p, store)),
        ensures
            producers(protocols@, false).len() == 0 ==> r matches Err(SessionError::Entry(EntryError::NoAcquisitionSurface { .. })),
            producers(protocols@, false).len() > 1 ==> r matches Err(SessionError::Entry(EntryError::AmbiguousAcquisitionSurface { .. })),
            producers(protocols@, false).len() == 1 ==> {
                let acq = protocols@[producers(protocols@, false)[0]];
                let missing = readiness_failures(acq, views(partially_scanned_types@));
                &&& !preconditions_hold(*store, acq, None) ==> (r matches Err(SessionError::Precondition(e))
                    && e.skill_name@ == acq.name@ && e.phase == Phase::Pre)
                &&& preconditions_hold(*store, acq, None) && missing.len() > 0 ==> (r matches Err(SessionError::ScanIncomplete { protocol, types })
                    && protocol@ == acq.name@ && views(types@) == missing)
                &&& preconditions_hold(*store, acq, None) && missing.len() == 0 ==> match r {
                    Ok(st) => {
                        &&& st.promise_view() == Some(ticket)
                        &&& st.methodology_view() == methodology@
                        &&& st.protocols_view() == protocols@
                        &&& st.exhausted_view() == Set::<(Seq<char>, Option<Seq<char>>)>::empty()
                        &&& st.current_view() matches Some(s) && s.protocol@ == acq.name@ && s.work_unit is None
                        &&& checked_by(validate_step, checked_protocol(protocols@, st.current_view()), store, Ok(()))
                    },
                    Err(e) => e is CurrentStepUnservable,
                }
            },
    {
        let acquisition: &ProtocolDeclaration = match discover_acquisition_surface(&protocols) {
            Ok(a) => a,
            Err(e) => {
                return Err(SessionError::Entry(e));
            },
        };
        let ghost k = producers(protocols@, false)[0];
        proof {
            lemma_producers_in_range(protocols@, false);
        }
        match check_acquisition_admissible(acquisition, store, partially_scanned_types) {
            Ok(()) => {},
            Err(AcquisitionBlock::Precondition(e)) => {
                return Err(SessionError::Precondition(e));
            },
            Err(AcquisitionBlock::ScanIncomplete(types)) => {
                return Err(SessionError::ScanIncomplete { protocol: owned(acquisition.name.as_str()), types });
            },
        }
        let step = CurrentStep { protocol: owned(acquisition.name.as_str()), work_unit: None };
        proof {
            lemma_named_has_first(protocols@, step.protocol@, k);
        }
        let exhausted: Vec<CurrentStep> = Vec::new();
        proof {
            assert(step_keys(exhausted@) =~= Set::<(Seq<char>, Option<Seq<char>>)>::empty());
        }
        let current = match validate_selected_step(&protocols, store, Some(step), validate_step) {
            Ok(c) => c,
            Err(e) => {
                return Err(e);
            },
        };
        Ok(SessionState { methodology, protocols, work_unit: String::new(), promise: Some(ticket), current_step: current, exhausted })
    }

    /// Bind a promised scope to its work unit: resolve the ticket against
    /// the store and `docs`, the documents of the valid work-unit instances
    /// in instance-id order. A bound session is left as it is. The scope
    /// stays promised, and the session unchanged, on any error: the
    /// resolution's own, or an unresolved reference when no work unit states
    /// the ticket's identity.
    pub fn bind_promise(&mut self, store: &ArtifactStore, project: &ForgeProject, docs: &Vec<WorkUnitDocument>)
        -> (r: Result<(), SessionError>)
        ensures
            old(self).promise_view() is None ==> r is Ok && *final(self) == *old(self),
            old(self).promise_view() matches Some(t) ==> exists|res: Result<Option<String>, ScopedWorkUnitError>|
                #[trigger] promise_resolved(*store, *project, t, docs@, res) && match res {
                    Err(e) => r == Err::<(), SessionError>(SessionError::WorkUnitScope(e)) && *final(self) == *old(self),
                    Ok(None) => (r matches Err(SessionError::Entry(EntryError::Unresolved { reference })) && reference@ == t.display@)
                        && *final(self) == *old(self),
                    Ok(Some(id)) => {
                        &&& r is Ok
                        &&& final(self).work_unit_view() == id@
                        &&& final(self).promise_view() is None
                        &&& final(self).protocols_view() == old(self).protocols_view()
                        &&& final(self).methodology_view() == old(self).methodology_view()
                        &&& final(self).current_view() == old(self).current_view()
                        &&& final(self).exhausted_view() == old(self).exhausted_view()
                    },
                },
    {
        let resolved = match &self.promise {
            None => {
                return Ok(());
            },
            Some(t) => resolve_promise(store, project, t, docs),
        };
        match resolved {
            Err(e) => Err(SessionError::WorkUnitScope(e)),
            Ok(None) => {
                let reference = match &self.promise {
                    Some(t) => owned(t.display.as_str()),
                    None => String::new(),
                };
                Err(SessionError::Entry(EntryError::Unresolved { reference }))
            },
            Ok(Some(id)) => {
                self.work_unit = id;
                self.promise = None;
                Ok(())
            },
        }
    }
}

} // verus!
