//! Cold-start entry from a forge ticket reference.
//!
//! A ticket reference ("runa#14", "#14", "14") is parsed into a tracker
//! selector and a number and bound to a configured tracker's identity. The
//! acquisition surface is the sole unscoped protocol that produces the
//! `work-unit` artifact. The runtime never reads ticket content.
use vstd::prelude::*;

use crate::forge_address::{ForgeAddressError, ForgeErrorView, ForgeProject, forge_error_message, tracker_not_selected,
    tracker_selected};
use crate::enforcement::{EnforcementError, Phase, Relationship, displayable, enforce_preconditions, enforcement_message, failures_for};
use crate::model::ProtocolDeclaration;
use crate::selection::{precondition_scan_incomplete_types, preconditions_hold, readiness_failures};
use crate::scoped_identity::{ScopedWorkUnitError, WorkUnitDocument, doc_has_identity, find_work_unit_by_tracker_identity, tracker_scan,
    validate_tracker_consistency};
use crate::store::ArtifactStore;
use crate::text::{decimal, is_ws, join, join_strings, owned, push_decimal, push_str, trim, trim_str, views};

verus! {

/// Artifact type the runtime treats as the scope-identity seed.
pub const WORK_UNIT_ARTIFACT_TYPE: &'static str = "work-unit";

/// A forge ticket reference resolved against the configured trackers.
#[derive(Debug, Clone, PartialEq, Eq)]
pub struct TicketRef {
    pub number: u64,
    pub tracker_identity: String,
    pub work_unit_identity: String,
    pub display: String,
}

/// Errors raised while opening a session from a forge ticket reference.
#[derive(Debug, Clone, PartialEq, Eq)]
pub enum EntryError {
    /// The reference does not parse as a supported ticket form.
    InvalidReference { supplied: String },
    ForgeAddress(ForgeAddressError),
    /// No unscoped protocol declares the `work-unit` artifact as an output.
    NoAcquisitionSurface { scoped_producers: Vec<String> },
    /// More than one unscoped protocol declares the `work-unit` artifact.
    AmbiguousAcquisitionSurface { candidates: Vec<String> },
    /// Acquisition completed but materialized no matching work unit.
    Unresolved { reference: String },
}

// ---------------------------------------------------------------------------
// Reference grammar.
// ---------------------------------------------------------------------------

/// A decimal digit.
pub open spec fn is_digit(c: char) -> bool {
    '0' <= c <= '9'
}

/// The value of a string of decimal digits.
pub open spec fn digits_value(s: Seq<char>) -> int
    decreases s.len(),
{
    if s.len() == 0 {
        0
    } else {
        digits_value(s.drop_last()) * 10 + (s.last() as int - '0' as int)
    }
}

/// The digits of an unsigned number: without its leading `+`, if any.
pub open spec fn unsigned_body(s: Seq<char>) -> Seq<char> {
    if s.len() > 0 && s[0] == '+' {
        s.drop_first()
    } else {
        s
    }
}

/// Every character is a decimal digit.
pub open spec fn all_digits(s: Seq<char>) -> bool {
    forall|i: int| 0 <= i < s.len() ==> is_digit(#[trigger] s[i])
}

/// What `u64::from_str` gives: an optional `+` and at least one digit, whose
/// value fits in 64 bits.
pub open spec fn parse_u64(s: Seq<char>) -> Option<int> {
    let body = unsigned_body(s);
    if body.len() == 0 || !all_digits(body) {
        None
    } else if digits_value(body) > u64::MAX {
        None
    } else {
        Some(digits_value(body))
    }
}

/// A ticket number: the trimmed text parses as a positive 64-bit number.
pub open spec fn ticket_number(s: Seq<char>) -> Option<int> {
    let t = trim(s);
    if t.len() == 0 {
        None
    } else {
        match parse_u64(t) {
            Some(n) => if n > 0 { Some(n) } else { None },
            None => None,
        }
    }
}

/// The position of the first `#`.
pub open spec fn first_hash(s: Seq<char>, p: int) -> bool {
    0 <= p < s.len() && s[p] == '#' && forall|i: int| 0 <= i < p ==> s[i] != '#'
}

/// The parse of a reference: `<tracker>#N` with a non-empty tracker name
/// without `/`, or `#N`, or `N`; the number from `ticket_number`.
pub open spec fn parse_reference(raw: Seq<char>) -> Option<(int, Option<Seq<char>>)> {
    let t = trim(raw);
    if exists|p: int| #[trigger] first_hash(t, p) && p > 0 {
        let p = choose|p: int| #[trigger] first_hash(t, p) && p > 0;
        let repository = t.subrange(0, p);
        match ticket_number(t.subrange(p + 1, t.len() as int)) {
            None => None,
            Some(n) => if repository.contains('/') { None } else { Some((n, Some(repository))) },
        }
    } else {
        let rest = if t.len() > 0 && t[0] == '#' { t.drop_first() } else { t };
        match ticket_number(rest) {
            None => None,
            Some(n) => Some((n, None)),
        }
    }
}

/// Parse a decimal 64-bit unsigned number as `u64::from_str` does: an
/// optional `+` and at least one digit, the value fitting in 64 bits.
pub fn parse_u64_text(v: &str) -> (r: Option<u64>)
    ensures
        match r {
            Some(n) => parse_u64(v@) == Some(n as int),
            None => parse_u64(v@) is None,
        },
{
    let n = v.unicode_len();
    if n == 0 {
        return None;
    }
    let mut i: usize = 0;
    if v.get_char(0) == '+' {
        i = 1;
    }
    let ghost body = unsigned_body(v@);
    proof {
        assert(body =~= v@.skip(i as int));
    }
    if i == n {
        return None;
    }
    let start = i;
    let mut acc: u64 = 0;
    let mut overflow = false;
    while i < n
        invariant
            n == v@.len(),
            start <= i <= n,
            start < n,
            body == v@.skip(start as int),
            body == unsigned_body(v@),
            forall|k: int| start <= k < i ==> is_digit(v@[k]),
            !overflow ==> acc as int == digits_value(v@.subrange(start as int, i as int)),
            overflow ==> digits_value(v@.subrange(start as int, i as int)) > u64::MAX,
        decreases n - i,
    {
        let c = v.get_char(i);
        if !('0' <= c && c <= '9') {
            proof {
                assert(body[i - start] == c);
                assert(!is_digit(body[i - start]));
                assert(!all_digits(body));
            }
            return None;
        }
        let d = (c as u32 - '0' as u32) as u64;
        proof {
            let s1 = v@.subrange(start as int, i + 1);
            assert(s1.drop_last() =~= v@.subrange(start as int, i as int));
            assert(s1.last() == c);
            lemma_digits_value_nonneg(v@.subrange(start as int, i as int));
        }
        if !overflow {
            if acc > (u64::MAX - d) / 10 {
                overflow = true;
                assert(acc * 10 + d > u64::MAX) by (nonlinear_arith)
                    requires acc > (u64::MAX - d) / 10, d <= 9;
            } else {
                assert(acc * 10 + d <= u64::MAX) by (nonlinear_arith)
                    requires acc <= (u64::MAX - d) / 10, d <= 9;
                acc = acc * 10 + d;
            }
        }
        i = i + 1;
    }
    proof {
        assert(v@.subrange(start as int, n as int) =~= body);
        assert forall|k: int| 0 <= k < body.len() implies is_digit(#[trigger] body[k]) by {
            assert(body[k] == v@[start + k]);
        }
    }
    if overflow {
        None
    } else {
        Some(acc)
    }
}

/// Parse a ticket number (see `ticket_number`).
fn parse_number(value: &str) -> (r: Option<u64>)
    ensures
        match r {
            Some(n) => ticket_number(value@) == Some(n as int),
            None => ticket_number(value@) is None,
        },
{
    let v = trim_str(value);
    if v.unicode_len() == 0 {
        return None;
    }
    match parse_u64_text(v) {
        Some(n) => if n == 0 { None } else { Some(n) },
        None => None,
    }
}

proof fn lemma_digits_value_nonneg(s: Seq<char>)
    requires
        forall|k: int| 0 <= k < s.len() ==> is_digit(s[k]),
    ensures
        digits_value(s) >= 0,
    decreases s.len(),
{
    if s.len() > 0 {
        lemma_digits_value_nonneg(s.drop_last());
    }
}

/// A parsed reference: the number and the tracker it names, if any.
struct ParsedReference {
    number: u64,
    tracker_selector: Option<String>,
}

fn contains_char(s: &str, c: char) -> (r: bool)
    ensures
        r == s@.contains(c),
{
    let n = s.unicode_len();
    let mut i: usize = 0;
    while i < n
        invariant
            n == s@.len(),
            i <= n,
            forall|k: int| 0 <= k < i ==> s@[k] != c,
        decreases n - i,
    {
        if s.get_char(i) == c {
            return true;
        }
        i = i + 1;
    }
    false
}

fn invalid_reference(raw: &str) -> (e: EntryError)
    ensures
        e is InvalidReference && e->InvalidReference_supplied@ == raw@,
{
    EntryError::InvalidReference { supplied: owned(raw) }
}

fn parse_ticket_reference(raw: &str) -> (r: Result<ParsedReference, EntryError>)
    ensures
        match parse_reference(raw@) {
            None => r is Err && r->Err_0 is InvalidReference && r->Err_0->InvalidReference_supplied@ == raw@,
            Some((n, sel)) => r is Ok && r->Ok_0.number == n && match r->Ok_0.tracker_selector {
                Some(s) => sel == Some(s@),
                None => sel is None,
            },
        },
{
    let t = trim_str(raw);
    let n = t.unicode_len();
    let mut p: usize = 0;
    while p < n && t.get_char(p) != '#'
        invariant
            n == t@.len(),
            p <= n,
            forall|i: int| 0 <= i < p ==> t@[i] != '#',
        decreases n - p,
    {
        p = p + 1;
    }
    proof {
        if p < n {
            assert(first_hash(t@, p as int));
            assert forall|q: int| #[trigger] first_hash(t@, q) implies q == p by {
                if q < p {
                    assert(t@[q] != '#');
                } else if q > p {
                    assert(t@[p as int] != '#');
                }
            }
        } else {
            assert forall|q: int| !#[trigger] first_hash(t@, q) by {
                if 0 <= q < t@.len() {
                    assert(t@[q] != '#');
                }
            }
        }
    }
    if p < n && p > 0 {
        let repository = t.substring_char(0, p);
        let tail = t.substring_char(p + 1, n);
        let number = match parse_number(tail) {
            Some(number) => number,
            None => {
                return Err(invalid_reference(raw));
            },
        };
        if contains_char(repository, '/') {
            return Err(invalid_reference(raw));
        }
        return Ok(ParsedReference { number, tracker_selector: Some(owned(repository)) });
    }
    let rest = if n > 0 && t.get_char(0) == '#' {
        t.substring_char(1, n)
    } else {
        t
    };
    proof {
        if n > 0 && t@[0] == '#' {
            assert(rest@ =~= t@.drop_first());
        }
    }
    match parse_number(rest) {
        Some(number) => Ok(ParsedReference { number, tracker_selector: None }),
        None => Err(invalid_reference(raw)),
    }
}

/// The selector of an optional tracker name.
pub open spec fn selector_view(s: Option<String>) -> Option<Seq<char>> {
    match s {
        Some(v) => Some(v@),
        None => None,
    }
}

/// Parse a forge ticket reference and bind it to a configured tracker.
///
/// The grammar accepts `N`, `#N` or `<tracker>#N` with `N` a positive
/// number; a bare reference is accepted only when exactly one tracker is
/// configured. The work-unit identity is the tracker identity, `#` and the
/// number; the display form is the tracker id, `#` and the number.
pub fn resolve_ticket_reference(raw: &str, project: &ForgeProject) -> (r: Result<TicketRef, EntryError>)
    ensures
        match parse_reference(raw@) {
            None => r is Err && r->Err_0 is InvalidReference && r->Err_0->InvalidReference_supplied@ == raw@,
            Some((n, sel)) => match r {
                Ok(ticket) => ticket.number == n && exists|k: int| #[trigger] tracker_selected(*project, sel, k)
                    && ticket.tracker_identity@ == project.trackers@[k].identity@
                    && ticket.work_unit_identity@ == project.trackers@[k].identity@ + "#"@ + decimal(n as nat)
                    && ticket.display@ == project.trackers@[k].id@ + "#"@ + decimal(n as nat),
                Err(e) => e is ForgeAddress && tracker_not_selected(*project, sel, e->ForgeAddress_0@),
            },
        },
{
    let parsed = match parse_ticket_reference(raw) {
        Ok(p) => p,
        Err(e) => {
            return Err(e);
        },
    };
    let selector: Option<&str> = match &parsed.tracker_selector {
        Some(s) => Some(s.as_str()),
        None => None,
    };
    let number = parsed.number;
    match project.tracker(selector) {
        Ok(tracker) => {
            let mut work_unit_identity = tracker.identity.clone();
            push_str(&mut work_unit_identity, "#");
            push_decimal(&mut work_unit_identity, number);
            let mut display = tracker.id.clone();
            push_str(&mut display, "#");
            push_decimal(&mut display, number);
            Ok(TicketRef { number, tracker_identity: tracker.identity.clone(), work_unit_identity, display })
        },
        Err(e) => Err(EntryError::ForgeAddress(e)),
    }
}

// ---------------------------------------------------------------------------
// Acquisition surface.
// ---------------------------------------------------------------------------

/// The protocol declares `work-unit` among its outputs.
pub open spec fn produces_work_unit(p: ProtocolDeclaration) -> bool {
    p.output_types().contains(WORK_UNIT_ARTIFACT_TYPE@)
}

/// The positions of the protocols that produce `work-unit` and are scoped
/// (or unscoped), in order.
pub open spec fn producers(ps: Seq<ProtocolDeclaration>, scoped: bool) -> Seq<int>
    decreases ps.len(),
{
    if ps.len() == 0 {
        Seq::empty()
    } else if produces_work_unit(ps.last()) && ps.last().scoped == scoped {
        producers(ps.drop_last(), scoped).push(ps.len() - 1)
    } else {
        producers(ps.drop_last(), scoped)
    }
}

/// Every position `producers` lists is a position of the list.
pub proof fn lemma_producers_in_range(ps: Seq<ProtocolDeclaration>, scoped: bool)
    ensures
        forall|j: int| 0 <= j < producers(ps, scoped).len() ==> 0 <= #[trigger] producers(ps, scoped)[j] < ps.len(),
    decreases ps.len(),
{
    if ps.len() > 0 {
        let rest = producers(ps.drop_last(), scoped);
        lemma_producers_in_range(ps.drop_last(), scoped);
        assert forall|j: int| 0 <= j < producers(ps, scoped).len() implies 0 <= #[trigger] producers(ps, scoped)[j] < ps.len() by {
            if j < rest.len() {
                assert(0 <= rest[j] < ps.len() - 1);
                assert(producers(ps, scoped)[j] == rest[j]);
            }
        }
    }
}

/// The names of the protocols at the given positions.
pub open spec fn names_at(ps: Seq<ProtocolDeclaration>, idx: Seq<int>) -> Seq<Seq<char>> {
    idx.map_values(|i: int| ps[i].name@)
}

proof fn lemma_producers_bounded(ps: Seq<ProtocolDeclaration>, scoped: bool)
    ensures
        forall|k: int| 0 <= k < producers(ps, scoped).len() ==> 0 <= #[trigger] producers(ps, scoped)[k] < ps.len(),
    decreases ps.len(),
{
    if ps.len() > 0 {
        lemma_producers_bounded(ps.drop_last(), scoped);
        let init = producers(ps.drop_last(), scoped);
        assert forall|k: int| 0 <= k < producers(ps, scoped).len() implies 0 <= #[trigger] producers(ps, scoped)[k] < ps.len() by {
            if k < init.len() {
                assert(producers(ps, scoped)[k] == init[k]);
            }
        }
    }
}

fn produces_work_unit_exec(p: &ProtocolDeclaration) -> (r: bool)
    ensures
        r == produces_work_unit(*p),
{
    let a = crate::text::contains_str(&p.produces, WORK_UNIT_ARTIFACT_TYPE);
    let b = crate::text::contains_str(&p.may_produce, WORK_UNIT_ARTIFACT_TYPE);
    proof {
        let x = views(p.produces@);
        let y = views(p.may_produce@);
        let w = WORK_UNIT_ARTIFACT_TYPE@;
        if a {
            let k = choose|k: int| 0 <= k < x.len() && x[k] == w;
            assert((x + y)[k] == w);
        } else if b {
            let k = choose|k: int| 0 <= k < y.len() && y[k] == w;
            assert((x + y)[x.len() + k] == w);
        } else if (x + y).contains(w) {
            let k = choose|k: int| 0 <= k < (x + y).len() && (x + y)[k] == w;
            if k < x.len() {
                assert(x[k] == w);
            } else {
                assert(y[k - x.len()] == w);
            }
        }
    }
    a || b
}

/// Discover the single unscoped protocol that produces the `work-unit`
/// artifact.
///
/// With none, the error names the scoped producers; with several, it names
/// the unscoped candidates; both in declaration order.
pub fn discover_acquisition_surface(protocols: &Vec<ProtocolDeclaration>) -> (r: Result<&ProtocolDeclaration, EntryError>)
    ensures
        ({
            let unscoped = producers(protocols@, false);
            if unscoped.len() == 1 {
                r is Ok && *r->Ok_0 == protocols@[unscoped[0]]
            } else if unscoped.len() == 0 {
                r is Err && r->Err_0 is NoAcquisitionSurface
                    && views(r->Err_0->NoAcquisitionSurface_scoped_producers@) == names_at(protocols@, producers(protocols@, true))
            } else {
                r is Err && r->Err_0 is AmbiguousAcquisitionSurface
                    && views(r->Err_0->AmbiguousAcquisitionSurface_candidates@) == names_at(protocols@, unscoped)
            }
        }),
{
    let mut unscoped: Vec<usize> = Vec::new();
    let mut scoped_names: Vec<String> = Vec::new();
    let mut unscoped_names: Vec<String> = Vec::new();
    let mut i: usize = 0;
    while i < protocols.len()
        invariant
            i <= protocols@.len(),
            unscoped@.map_values(|u: usize| u as int) == producers(protocols@.take(i as int), false),
            views(unscoped_names@) == names_at(protocols@, producers(protocols@.take(i as int), false)),
            views(scoped_names@) == names_at(protocols@, producers(protocols@.take(i as int), true)),
            forall|k: int| 0 <= k < unscoped@.len() ==> (#[trigger] unscoped@[k] as int) < i,
        decreases protocols@.len() - i,
    {
        let p = &protocols[i];
        let ghost pre = protocols@.take(i as int);
        let ghost cur = protocols@.take(i + 1);
        proof {
            assert(cur.drop_last() =~= pre);
            assert(cur.last() == protocols@[i as int]);
            lemma_producers_bounded(pre, false);
            lemma_producers_bounded(pre, true);
        }
        if produces_work_unit_exec(p) {
            if p.scoped {
                let ghost before = views(scoped_names@);
                scoped_names.push(p.name.clone());
                proof {
                    assert(views(scoped_names@) =~= before.push(p.name@));
                    let idx = producers(pre, true);
                    assert(names_at(protocols@, idx.push(i as int)) =~= names_at(protocols@, idx).push(protocols@[i as int].name@));
                    assert forall|k: int| 0 <= k < idx.len() implies #[trigger] protocols@[idx[k]] == pre[idx[k]] by {}
                }
            } else {
                let ghost before = views(unscoped_names@);
                let ghost ub = unscoped@;
                unscoped.push(i);
                unscoped_names.push(p.name.clone());
                proof {
                    assert(views(unscoped_names@) =~= before.push(p.name@));
                    let idx = producers(pre, false);
                    assert(names_at(protocols@, idx.push(i as int)) =~= names_at(protocols@, idx).push(protocols@[i as int].name@));
                    assert(unscoped@.map_values(|u: usize| u as int) =~= ub.map_values(|u: usize| u as int).push(i as int));
                }
            }
        }
        i = i + 1;
    }
    proof {
        assert(protocols@.take(protocols@.len() as int) =~= protocols@);
    }
    if unscoped.len() == 1 {
        proof {
            assert(unscoped@.map_values(|u: usize| u as int)[0] == unscoped@[0] as int);
        }
        Ok(&protocols[unscoped[0]])
    } else if unscoped.len() == 0 {
        Err(EntryError::NoAcquisitionSurface { scoped_producers: scoped_names })
    } else {
        Err(EntryError::AmbiguousAcquisitionSurface { candidates: unscoped_names })
    }
}


// ---------------------------------------------------------------------------
// Error messages.
// ---------------------------------------------------------------------------

/// The message of an entry error.
pub open spec fn entry_error_message(e: EntryError) -> Seq<char> {
    match e {
        EntryError::InvalidReference { supplied } => "'"@ + supplied@
            + "' is not a recognized forge ticket reference; expected a ticket number, '#N', or '<tracker>#N'"@,
        EntryError::ForgeAddress(error) => forge_error_message(error@),
        EntryError::NoAcquisitionSurface { scoped_producers } => if scoped_producers@.len() == 0 {
            "methodology declares no unscoped producer of 'work-unit'; cold-start ticket entry is unavailable"@
        } else {
            "methodology declares no unscoped producer of 'work-unit'; cold-start ticket entry is unavailable"@
                + " (scoped producers: "@ + join(views(scoped_producers@), ", "@) + ")"@
        },
        EntryError::AmbiguousAcquisitionSurface { candidates } => "more than one unscoped protocol produces 'work-unit' ("@
            + join(views(candidates@), ", "@) + "); cold-start ticket entry requires a single acquisition surface"@,
        EntryError::Unresolved { reference } => "acquisition from ticket "@ + reference@
            + " completed but produced no 'work-unit' matching the reference"@,
    }
}

impl EntryError {
    /// Renders the error as text (the error's `Display` form).
    pub fn to_display_string(&self) -> (r: String)
        ensures
            r@ == entry_error_message(*self),
    {
        match self {
            EntryError::InvalidReference { supplied } => {
                let mut out = owned("'");
                push_str(&mut out, supplied.as_str());
                push_str(&mut out, "' is not a recognized forge ticket reference; expected a ticket number, '#N', or '<tracker>#N'");
                assert(out@ =~= entry_error_message(*self));
                out
            },
            EntryError::ForgeAddress(error) => error.to_display_string(),
            EntryError::NoAcquisitionSurface { scoped_producers } => {
                let mut out = owned("methodology declares no unscoped producer of 'work-unit'; cold-start ticket entry is unavailable");
                if scoped_producers.len() > 0 {
                    push_str(&mut out, " (scoped producers: ");
                    let joined = join_strings(scoped_producers, ", ");
                    push_str(&mut out, joined.as_str());
                    push_str(&mut out, ")");
                }
                assert(out@ =~= entry_error_message(*self));
                out
            },
            EntryError::AmbiguousAcquisitionSurface { candidates } => {
                let mut out = owned("more than one unscoped protocol produces 'work-unit' (");
                let joined = join_strings(candidates, ", ");
                push_str(&mut out, joined.as_str());
                push_str(&mut out, "); cold-start ticket entry requires a single acquisition surface");
                assert(out@ =~= entry_error_message(*self));
                out
            },
            EntryError::Unresolved { reference } => {
                let mut out = owned("acquisition from ticket ");
                push_str(&mut out, reference.as_str());
                push_str(&mut out, " completed but produced no 'work-unit' matching the reference");
                assert(out@ =~= entry_error_message(*self));
                out
            },
        }
    }
}

// ---------------------------------------------------------------------------
// Admission of a cold-start acquisition.
// ---------------------------------------------------------------------------

/// Why a cold-start acquisition is not admissible.
#[derive(Debug)]
pub enum AcquisitionBlock {
    /// A required input is missing or invalid.
    Precondition(EnforcementError),
    /// Required input types were only partially scanned.
    ScanIncomplete(Vec<String>),
}

/// The message of an acquisition block.
pub open spec fn acquisition_block_message(b: AcquisitionBlock) -> Seq<char> {
    match b {
        AcquisitionBlock::Precondition(error) => enforcement_message(error),
        AcquisitionBlock::ScanIncomplete(types) => "acquisition input artifact type(s) "@ + join(views(types@), ", "@)
            + " were only partially scanned"@,
    }
}

impl AcquisitionBlock {
    /// Renders the block as text (its `Display` form).
    pub fn to_display_string(&self) -> (r: String)
        requires
            self is Precondition ==> forall|k: int| 0 <= k < self->Precondition_0.failures@.len()
                ==> #[trigger] displayable(self->Precondition_0.failures@[k]),
        ensures
            r@ == acquisition_block_message(*self),
    {
        match self {
            AcquisitionBlock::Precondition(error) => error.to_display_string(),
            AcquisitionBlock::ScanIncomplete(types) => {
                let mut out = owned("acquisition input artifact type(s) ");
                let joined = join_strings(types, ", ");
                push_str(&mut out, joined.as_str());
                push_str(&mut out, " were only partially scanned");
                assert(out@ =~= acquisition_block_message(*self));
                out
            },
        }
    }
}

/// The single admission gate of a cold-start acquisition.
///
/// The operator's reference stands in for the acquisition protocol's
/// trigger; every other readiness gate still holds: its preconditions, with
/// no work unit, and scan trust over its required inputs. Output currentness
/// is not consulted.
pub fn check_acquisition_admissible(acquisition: &ProtocolDeclaration, store: &ArtifactStore, partially_scanned_types: &Vec<String>) -> (r: Result<(), AcquisitionBlock>)
    ensures
        r is Ok <==> preconditions_hold(*store, *acquisition, None)
            && readiness_failures(*acquisition, views(partially_scanned_types@)).len() == 0,
        !preconditions_hold(*store, *acquisition, None) ==> (r matches Err(AcquisitionBlock::Precondition(e))
            && e.skill_name@ == acquisition.name@ && e.phase == Phase::Pre
            && failures_for(*store, None, views(acquisition.requires@), Relationship::Requires, e.failures@)),
        preconditions_hold(*store, *acquisition, None) && readiness_failures(*acquisition, views(partially_scanned_types@)).len() > 0
            ==> (r matches Err(AcquisitionBlock::ScanIncomplete(types))
            && views(types@) == readiness_failures(*acquisition, views(partially_scanned_types@))),
{
    match enforce_preconditions(acquisition, store, None) {
        Ok(()) => {},
        Err(error) => {
            return Err(AcquisitionBlock::Precondition(error));
        },
    }
    let incomplete = precondition_scan_incomplete_types(acquisition, partially_scanned_types);
    if incomplete.len() > 0 {
        return Err(AcquisitionBlock::ScanIncomplete(incomplete));
    }
    Ok(())
}


/// What resolving a ticket's promise gives: the tracker-consistency error
/// of the documents, else the first work unit whose handle states the
/// ticket's work-unit identity, else an error when the `work-unit` type was
/// partially scanned, else none.
pub open spec fn promise_resolved(store: ArtifactStore, project: ForgeProject, ticket: TicketRef, docs: Seq<WorkUnitDocument>,
    r: Result<Option<String>, ScopedWorkUnitError>) -> bool {
    match tracker_scan(docs, project.trackers@) {
        Err(e) => r is Err && r->Err_0@ == e,
        Ok(_) => {
            let target = ticket.work_unit_identity@;
            if exists|k: int| 0 <= k < docs.len() && #[trigger] doc_has_identity(docs[k], target) {
                r matches Ok(Some(id)) && exists|k: int| 0 <= k < docs.len() && #[trigger] doc_has_identity(docs[k], target)
                    && id@ == docs[k].instance_id@ && forall|j: int| 0 <= j < k ==> !doc_has_identity(docs[j], target)
            } else if store.has_gap_for_type(WORK_UNIT_ARTIFACT_TYPE@) {
                r matches Err(ScopedWorkUnitError::WorkUnitScanIncomplete)
            } else {
                r matches Ok(None)
            }
        },
    }
}

/// Resolve a ticket reference to the work unit it names, if it exists.
///
/// The tracker roots are checked first, as `validate_tracker_consistency`
/// does on `docs`, the documents of the valid work-unit instances in
/// instance-id order. The work unit is the first whose handle states the
/// ticket's work-unit identity. Without one, a partially scanned
/// `work-unit` type is an error, since an unreadable instance could hide
/// it; otherwise there is none.
pub fn resolve_promise(store: &ArtifactStore, project: &ForgeProject, ticket: &TicketRef, docs: &Vec<WorkUnitDocument>)
    -> (r: Result<Option<String>, ScopedWorkUnitError>)
    ensures
        promise_resolved(*store, *project, *ticket, docs@, r),
{
    match validate_tracker_consistency(docs, project) {
        Err(e) => {
            return Err(e);
        },
        Ok(()) => {},
    }
    match find_work_unit_by_tracker_identity(docs, ticket.work_unit_identity.as_str()) {
        Some(id) => Ok(Some(id)),
        None => {
            if store.has_any_scan_gap_for_type(WORK_UNIT_ARTIFACT_TYPE) {
                Err(ScopedWorkUnitError::WorkUnitScanIncomplete)
            } else {
                Ok(None)
            }
        },
    }
}

} // verus!
