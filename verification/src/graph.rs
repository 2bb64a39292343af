//! Dependency graph over protocol declarations: execution ordering, cycle
//! detection and blocked-protocol identification.
//!
//! Edges run from a protocol to the protocols it depends on. A protocol that
//! `requires` an artifact type depends *hard* on the protocol that `produces`
//! it; it depends *soft* on every protocol that only `may_produce` it. An
//! `accepts` relationship always gives soft edges.
use vstd::prelude::*;

use crate::model::ProtocolDeclaration;
use crate::text::{contains_str, owned, push_str, str_eq, str_lt, seq_lt, views, join, lemma_seq_lt_total,
    lemma_seq_lt_transitive, strictly_sorted, lemma_insert_sorted, lemma_sorted_unique};

verus! {

/// A cycle was detected in the hard dependency graph.
#[derive(Debug, Clone, PartialEq, Eq)]
pub struct CycleError {
    /// Protocol names forming the cycle. Each depends on the next, and the last
    /// element depends on the first.
    pub path: Vec<String>,
}

/// Errors that can occur when building a dependency graph.
#[derive(Debug, Clone, PartialEq, Eq)]
pub enum GraphError {
    /// A protocol name appears more than once in the input.
    DuplicateSkill(String),
    /// Two protocols declare the same artifact type in `produces`.
    ConflictingProducers { artifact_type: String, first: String, second: String },
}

// ---------------------------------------------------------------------------
// The graph a list of declarations determines.
// ---------------------------------------------------------------------------

/// The names of the declared protocols, in declaration order.
pub open spec fn decl_names(ps: Seq<ProtocolDeclaration>) -> Seq<Seq<char>> {
    ps.map_values(|p: ProtocolDeclaration| p.name@)
}

/// Protocol `j` declares artifact type `a` in `produces`.
pub open spec fn produces_type(ps: Seq<ProtocolDeclaration>, j: int, a: Seq<char>) -> bool {
    views(ps[j].produces@).contains(a)
}

/// Protocol `j` declares artifact type `a` in `may_produce`.
pub open spec fn may_produce_type(ps: Seq<ProtocolDeclaration>, j: int, a: Seq<char>) -> bool {
    views(ps[j].may_produce@).contains(a)
}

/// Some declared protocol `produces` artifact type `a`.
pub open spec fn has_producer(ps: Seq<ProtocolDeclaration>, a: Seq<char>) -> bool {
    exists|j: int| 0 <= j < ps.len() && produces_type(ps, j, a)
}

/// Protocol `j` is a producer that an input `a` of another protocol attaches to
/// with a soft edge when reached through `requires`: `a` has no hard producer
/// and `j` may produce it.
pub open spec fn soft_source(ps: Seq<ProtocolDeclaration>, j: int, a: Seq<char>) -> bool {
    !has_producer(ps, a) && may_produce_type(ps, j, a)
}

/// Protocol `i` depends hard on protocol `j`: some type `i` requires is produced by `j`.
pub open spec fn hard_edge(ps: Seq<ProtocolDeclaration>, i: int, j: int) -> bool {
    &&& i != j
    &&& exists|a: Seq<char>| views(ps[i].requires@).contains(a) && produces_type(ps, j, a)
}

/// Protocol `i` depends soft on protocol `j`.
pub open spec fn soft_edge(ps: Seq<ProtocolDeclaration>, i: int, j: int) -> bool {
    &&& i != j
    &&& {
        ||| exists|a: Seq<char>| views(ps[i].requires@).contains(a) && soft_source(ps, j, a)
        ||| exists|a: Seq<char>|
            views(ps[i].accepts@).contains(a) && (produces_type(ps, j, a) || soft_source(ps, j, a))
    }
}

/// Some earlier protocol already carries the name of protocol `j`.
pub open spec fn duplicate_at(ps: Seq<ProtocolDeclaration>, j: int) -> bool {
    exists|i: int| 0 <= i < j && ps[i].name@ == ps[j].name@
}

/// All protocol names are distinct.
pub open spec fn names_distinct(ps: Seq<ProtocolDeclaration>) -> bool {
    forall|j: int| 0 <= j < ps.len() ==> !duplicate_at(ps, j)
}

/// Position `(i2, k2)` of a `produces` entry comes before position `(i, k)`.
pub open spec fn pos_before(i2: int, k2: int, i: int, k: int) -> bool {
    i2 < i || (i2 == i && k2 < k)
}

/// A valid position of a `produces` entry.
pub open spec fn produces_pos(ps: Seq<ProtocolDeclaration>, i: int, k: int) -> bool {
    0 <= i < ps.len() && 0 <= k < ps[i].produces@.len()
}

/// The `produces` entry at position `(i, k)` repeats an earlier entry, which
/// sits at `(i2, k2)`.
pub open spec fn repeats_at(ps: Seq<ProtocolDeclaration>, i: int, k: int, i2: int, k2: int) -> bool {
    &&& produces_pos(ps, i, k)
    &&& produces_pos(ps, i2, k2)
    &&& pos_before(i2, k2, i, k)
    &&& ps[i2].produces@[k2]@ == ps[i].produces@[k]@
}

/// The `produces` entry at `(i, k)` repeats some earlier entry.
pub open spec fn conflict_at(ps: Seq<ProtocolDeclaration>, i: int, k: int) -> bool {
    exists|i2: int, k2: int| repeats_at(ps, i, k, i2, k2)
}

/// No artifact type is declared in `produces` twice.
pub open spec fn producers_distinct(ps: Seq<ProtocolDeclaration>) -> bool {
    forall|i: int, k: int| produces_pos(ps, i, k) ==> !conflict_at(ps, i, k)
}

/// The error `build` reports for `ps`, when it reports one.
pub open spec fn build_error_matches(ps: Seq<ProtocolDeclaration>, e: GraphError) -> bool {
    match e {
        GraphError::DuplicateSkill(name) => {
            exists|j: int|
                #![trigger ps[j]]
                0 <= j < ps.len() && duplicate_at(ps, j) && (forall|j2: int|
                    0 <= j2 < j ==> !duplicate_at(ps, j2)) && name@ == ps[j].name@
        },
        GraphError::ConflictingProducers { artifact_type, first, second } => {
            &&& names_distinct(ps)
            &&& exists|i: int, k: int, i2: int, k2: int|
                #![trigger repeats_at(ps, i, k, i2, k2)]
                repeats_at(ps, i, k, i2, k2) && (forall|i3: int, k3: int|
                    produces_pos(ps, i3, k3) && pos_before(i3, k3, i, k) ==> !conflict_at(
                        ps,
                        i3,
                        k3,
                    )) && artifact_type@ == ps[i].produces@[k]@ && first@ == ps[i2].name@
                    && second@ == ps[i].name@
        },
    }
}

/// Which of the four edge relations a list enumerates: the hard (`0`) or soft
/// (`1`) dependencies of `fixed`, or the protocols that depend hard (`2`) or
/// soft (`3`) on `fixed`.
pub open spec fn related(ps: Seq<ProtocolDeclaration>, kind: int, fixed: int, x: int) -> bool {
    if kind == 0 {
        hard_edge(ps, fixed, x)
    } else if kind == 1 {
        soft_edge(ps, fixed, x)
    } else if kind == 2 {
        hard_edge(ps, x, fixed)
    } else {
        soft_edge(ps, x, fixed)
    }
}

/// The list holds exactly the indices `x` below `|ps|` that are related to
/// `fixed`, in increasing order.
pub open spec fn exactly_increasing(s: Seq<usize>, ps: Seq<ProtocolDeclaration>, kind: int, fixed: int) -> bool {
    &&& forall|a: int, b: int| 0 <= a < b < s.len() ==> s[a] < s[b]
    &&& forall|a: int| 0 <= a < s.len() ==> (s[a] as int) < ps.len() && related(ps, kind, fixed, s[a] as int)
    &&& forall|x: int| 0 <= x < ps.len() && #[trigger] related(ps, kind, fixed, x) ==> s.contains(x as usize)
}

/// A directed dependency graph computed from protocol declarations.
///
/// Protocols are identified by their position in the declaration list.
pub struct DependencyGraph {
    skill_names: Vec<String>,
    requires_per_skill: Vec<Vec<String>>,
    hard_deps: Vec<Vec<usize>>,
    soft_deps: Vec<Vec<usize>>,
    hard_dependents: Vec<Vec<usize>>,
    soft_dependents: Vec<Vec<usize>>,
}

/// No index appears twice in the list and all lie below `n`.
pub open spec fn index_list(s: Seq<usize>, n: int) -> bool {
    &&& forall|a: int, b: int| 0 <= a < b < s.len() ==> s[a] < s[b]
    &&& forall|a: int| 0 <= a < s.len() ==> (s[a] as int) < n
}

impl DependencyGraph {
    /// Number of protocols in the graph.
    pub closed spec fn size(&self) -> int {
        self.skill_names@.len() as int
    }

    /// Name of protocol `i`.
    pub closed spec fn name(&self, i: int) -> Seq<char> {
        self.skill_names@[i]@
    }

    /// Names of all protocols, by index.
    pub closed spec fn names(&self) -> Seq<Seq<char>> {
        views(self.skill_names@)
    }

    /// The artifact types protocol `i` requires, in declaration order.
    pub closed spec fn requires_of(&self, i: int) -> Seq<Seq<char>> {
        views(self.requires_per_skill@[i]@)
    }

    /// Protocol `i` depends hard on protocol `j`.
    pub closed spec fn hard(&self, i: int, j: int) -> bool {
        0 <= i < self.size() && self.hard_deps@[i]@.contains(j as usize)
    }

    /// Protocol `i` depends soft on protocol `j`.
    pub closed spec fn soft(&self, i: int, j: int) -> bool {
        0 <= i < self.size() && self.soft_deps@[i]@.contains(j as usize)
    }

    /// Protocol `i` depends on protocol `j` by a hard edge, or also by a soft
    /// edge when `include_soft` holds.
    pub open spec fn edge(&self, include_soft: bool, i: int, j: int) -> bool {
        self.hard(i, j) || (include_soft && self.soft(i, j))
    }

    /// The hard dependencies of protocol `i`, in increasing index order.
    pub closed spec fn hard_deps_of(&self, i: int) -> Seq<usize> {
        self.hard_deps@[i]@
    }

    /// The protocols that depend hard on protocol `i`, in increasing index order.
    pub closed spec fn hard_dependents_of(&self, i: int) -> Seq<usize> {
        self.hard_dependents@[i]@
    }

    #[verifier::type_invariant]
    closed spec fn wf(&self) -> bool {
        let n = self.skill_names@.len() as int;
        &&& self.requires_per_skill@.len() == n
        &&& self.hard_deps@.len() == n
        &&& self.soft_deps@.len() == n
        &&& self.hard_dependents@.len() == n
        &&& self.soft_dependents@.len() == n
        &&& forall|i: int| 0 <= i < n ==> #[trigger] index_list(self.hard_deps@[i]@, n)
        &&& forall|i: int| 0 <= i < n ==> #[trigger] index_list(self.soft_deps@[i]@, n)
        &&& forall|i: int| 0 <= i < n ==> #[trigger] index_list(self.hard_dependents@[i]@, n)
        &&& forall|i: int| 0 <= i < n ==> #[trigger] index_list(self.soft_dependents@[i]@, n)
        &&& forall|i: int| 0 <= i < n ==> !self.hard_deps@[i]@.contains(i as usize)
        &&& forall|i: int| 0 <= i < n ==> !self.soft_deps@[i]@.contains(i as usize)
        &&& forall|i: int, j: int| 0 <= i < j < n ==> self.skill_names@[i]@ != self.skill_names@[j]@
        &&& forall|i: int, j: int|
            0 <= i < n && 0 <= j < n ==> (#[trigger] self.hard_deps@[i]@.contains(j as usize)
                <==> #[trigger] self.hard_dependents@[j]@.contains(i as usize))
        &&& forall|i: int, j: int|
            0 <= i < n && 0 <= j < n ==> (#[trigger] self.soft_deps@[i]@.contains(j as usize)
                <==> #[trigger] self.soft_dependents@[j]@.contains(i as usize))
    }

    /// The graph's names, requirements and edges are those the declarations determine.
    pub open spec fn built_from(&self, ps: Seq<ProtocolDeclaration>) -> bool {
        &&& self.size() == ps.len()
        &&& self.names() == decl_names(ps)
        &&& forall|i: int| 0 <= i < ps.len() ==> #[trigger] self.requires_of(i) == views(ps[i].requires@)
        &&& forall|i: int| 0 <= i < ps.len() ==> exactly_increasing(#[trigger] self.hard_deps_of(i), ps, 0, i)
        &&& forall|j: int| 0 <= j < ps.len() ==> exactly_increasing(#[trigger] self.hard_dependents_of(j), ps, 2, j)
        &&& forall|i: int, j: int| 0 <= i < ps.len() && 0 <= j < ps.len() ==> (#[trigger] self.hard(i, j) <==> hard_edge(ps, i, j))
        &&& forall|i: int, j: int| 0 <= i < ps.len() && 0 <= j < ps.len() ==> (#[trigger] self.soft(i, j) <==> soft_edge(ps, i, j))
    }
}

// ---------------------------------------------------------------------------
// Building.
// ---------------------------------------------------------------------------

fn is_hard_edge(ps: &Vec<ProtocolDeclaration>, i: usize, j: usize) -> (r: bool)
    requires
        i < ps.len(),
        j < ps.len(),
    ensures
        r == hard_edge(ps@, i as int, j as int),
{
    if i == j {
        return false;
    }
    let reqs = &ps[i].requires;
    let mut k: usize = 0;
    while k < reqs.len()
        invariant
            i < ps.len(),
            j < ps.len(),
            i != j,
            reqs == &ps@[i as int].requires,
            k <= reqs.len(),
            forall|m: int| 0 <= m < k ==> !produces_type(ps@, j as int, reqs@[m]@),
        decreases reqs.len() - k,
    {
        if contains_str(&ps[j].produces, reqs[k].as_str()) {
            assert(views(reqs@)[k as int] == reqs@[k as int]@);
            assert(views(ps@[i as int].requires@).contains(reqs@[k as int]@));
            assert(produces_type(ps@, j as int, reqs@[k as int]@));
            return true;
        }
        k = k + 1;
    }
    proof {
        if hard_edge(ps@, i as int, j as int) {
            let a = choose|a: Seq<char>| views(ps@[i as int].requires@).contains(a) && produces_type(ps@, j as int, a);
            let m = choose|m: int| 0 <= m < views(reqs@).len() && views(reqs@)[m] == a;
            assert(reqs@[m]@ == a);
        }
    }
    false
}

fn has_hard_producer(ps: &Vec<ProtocolDeclaration>, a: &str) -> (r: bool)
    ensures
        r == has_producer(ps@, a@),
{
    let mut j: usize = 0;
    while j < ps.len()
        invariant
            j <= ps.len(),
            forall|m: int| 0 <= m < j ==> !produces_type(ps@, m, a@),
        decreases ps.len() - j,
    {
        if contains_str(&ps[j].produces, a) {
            assert(produces_type(ps@, j as int, a@));
            return true;
        }
        j = j + 1;
    }
    false
}

fn is_soft_source(ps: &Vec<ProtocolDeclaration>, j: usize, a: &str) -> (r: bool)
    requires
        j < ps.len(),
    ensures
        r == soft_source(ps@, j as int, a@),
{
    !has_hard_producer(ps, a) && contains_str(&ps[j].may_produce, a)
}

fn is_soft_edge(ps: &Vec<ProtocolDeclaration>, i: usize, j: usize) -> (r: bool)
    requires
        i < ps.len(),
        j < ps.len(),
    ensures
        r == soft_edge(ps@, i as int, j as int),
{
    if i == j {
        return false;
    }
    let reqs = &ps[i].requires;
    let mut k: usize = 0;
    while k < reqs.len()
        invariant
            i < ps.len(),
            j < ps.len(),
            i != j,
            reqs == &ps@[i as int].requires,
            k <= reqs.len(),
            forall|m: int| 0 <= m < k ==> !soft_source(ps@, j as int, reqs@[m]@),
        decreases reqs.len() - k,
    {
        if is_soft_source(ps, j, reqs[k].as_str()) {
            assert(views(reqs@)[k as int] == reqs@[k as int]@);
            assert(views(ps@[i as int].requires@).contains(reqs@[k as int]@));
            assert(soft_source(ps@, j as int, reqs@[k as int]@));
            return true;
        }
        k = k + 1;
    }
    let accs = &ps[i].accepts;
    let mut k: usize = 0;
    while k < accs.len()
        invariant
            i < ps.len(),
            j < ps.len(),
            i != j,
            accs == &ps@[i as int].accepts,
            k <= accs.len(),
            forall|m: int| 0 <= m < k ==> !(produces_type(ps@, j as int, accs@[m]@) || soft_source(ps@, j as int, accs@[m]@)),
        decreases accs.len() - k,
    {
        if contains_str(&ps[j].produces, accs[k].as_str()) || is_soft_source(ps, j, accs[k].as_str()) {
            assert(views(accs@)[k as int] == accs@[k as int]@);
            assert(views(ps@[i as int].accepts@).contains(accs@[k as int]@));
            assert(produces_type(ps@, j as int, accs@[k as int]@) || soft_source(ps@, j as int, accs@[k as int]@));
            return true;
        }
        k = k + 1;
    }
    proof {
        let ii = i as int;
        let jj = j as int;
        if exists|a: Seq<char>| views(ps@[ii].requires@).contains(a) && soft_source(ps@, jj, a) {
            let a = choose|a: Seq<char>| views(ps@[ii].requires@).contains(a) && soft_source(ps@, jj, a);
            let m = choose|m: int| 0 <= m < views(reqs@).len() && views(reqs@)[m] == a;
            assert(reqs@[m]@ == a);
        }
        if exists|a: Seq<char>| views(ps@[ii].accepts@).contains(a) && (produces_type(ps@, jj, a) || soft_source(ps@, jj, a)) {
            let a = choose|a: Seq<char>| views(ps@[ii].accepts@).contains(a) && (produces_type(ps@, jj, a) || soft_source(ps@, jj, a));
            let m = choose|m: int| 0 <= m < views(accs@).len() && views(accs@)[m] == a;
            assert(accs@[m]@ == a);
        }
    }
    false
}

/// The first duplicated protocol name, if any.
fn find_duplicate(ps: &Vec<ProtocolDeclaration>) -> (r: Option<usize>)
    ensures
        match r {
            Some(j) => j < ps.len() && duplicate_at(ps@, j as int) && forall|j2: int| 0 <= j2 < j ==> !duplicate_at(ps@, j2),
            None => names_distinct(ps@),
        },
{
    let mut j: usize = 0;
    while j < ps.len()
        invariant
            j <= ps.len(),
            forall|j2: int| 0 <= j2 < j ==> !duplicate_at(ps@, j2),
        decreases ps.len() - j,
    {
        let mut i: usize = 0;
        while i < j
            invariant
                j < ps.len(),
                i <= j,
                forall|j2: int| 0 <= j2 < j ==> !duplicate_at(ps@, j2),
                forall|i2: int| 0 <= i2 < i ==> ps@[i2].name@ != ps@[j as int].name@,
            decreases j - i,
        {
            if str_eq(ps[i].name.as_str(), ps[j].name.as_str()) {
                assert(ps@[i as int].name@ == ps@[j as int].name@);
                assert(duplicate_at(ps@, j as int));
                return Some(j);
            }
            i = i + 1;
        }
        j = j + 1;
    }
    None
}

/// An earlier `produces` entry equal to the one at `(i, k)`, if any.
fn find_earlier_producer(ps: &Vec<ProtocolDeclaration>, i: usize, k: usize) -> (r: Option<(usize, usize)>)
    requires
        produces_pos(ps@, i as int, k as int),
    ensures
        r is Some ==> repeats_at(ps@, i as int, k as int, r.unwrap().0 as int, r.unwrap().1 as int),
        r is None ==> !conflict_at(ps@, i as int, k as int),
{
    let a = ps[i].produces[k].as_str();
    let mut i2: usize = 0;
    while i2 <= i
        invariant
            produces_pos(ps@, i as int, k as int),
            i < ps.len(),
            a@ == ps@[i as int].produces@[k as int]@,
            i2 <= i + 1,
            forall|i3: int, k3: int| 0 <= i3 < i2 && #[trigger] repeats_at(ps@, i as int, k as int, i3, k3) ==> false,
        decreases i + 1 - i2,
    {
        let list = &ps[i2].produces;
        let bound = if i2 == i { k } else { list.len() };
        let mut k2: usize = 0;
        while k2 < bound
            invariant
                produces_pos(ps@, i as int, k as int),
                i < ps.len(),
                a@ == ps@[i as int].produces@[k as int]@,
                i2 <= i,
                list == &ps@[i2 as int].produces,
                bound == if i2 == i { k as int } else { list@.len() as int },
                bound <= list@.len(),
                k2 <= bound,
                forall|k3: int| 0 <= k3 < k2 ==> list@[k3]@ != a@,
            decreases bound - k2,
        {
            if str_eq(list[k2].as_str(), a) {
                assert(repeats_at(ps@, i as int, k as int, i2 as int, k2 as int));
                return Some((i2, k2));
            }
            k2 = k2 + 1;
        }
        assert forall|k3: int| #[trigger] repeats_at(ps@, i as int, k as int, i2 as int, k3) implies false by {
            assert(list@[k3]@ == a@);
        }
        i2 = i2 + 1;
    }
    proof {
        if conflict_at(ps@, i as int, k as int) {
            let (i3, k3) = choose|i3: int, k3: int| repeats_at(ps@, i as int, k as int, i3, k3);
            assert(repeats_at(ps@, i as int, k as int, i3, k3));
        }
    }
    None
}

/// The first `produces` entry that repeats an earlier one, with the protocol
/// that declared the earlier one.
fn find_conflict(ps: &Vec<ProtocolDeclaration>) -> (r: Option<(usize, usize, usize, usize)>)
    ensures
        r is Some ==> repeats_at(ps@, r.unwrap().0 as int, r.unwrap().1 as int, r.unwrap().2 as int, r.unwrap().3 as int),
        r is Some ==> forall|i3: int, k3: int|
            produces_pos(ps@, i3, k3) && pos_before(i3, k3, r.unwrap().0 as int, r.unwrap().1 as int) ==> !conflict_at(ps@, i3, k3),
        r is None ==> producers_distinct(ps@),
{
    let mut i: usize = 0;
    while i < ps.len()
        invariant
            i <= ps.len(),
            forall|i3: int, k3: int| produces_pos(ps@, i3, k3) && i3 < i ==> !conflict_at(ps@, i3, k3),
        decreases ps.len() - i,
    {
        let mut k: usize = 0;
        while k < ps[i].produces.len()
            invariant
                i < ps.len(),
                k <= ps@[i as int].produces@.len(),
                forall|i3: int, k3: int| produces_pos(ps@, i3, k3) && pos_before(i3, k3, i as int, k as int) ==> !conflict_at(ps@, i3, k3),
            decreases ps@[i as int].produces@.len() - k,
        {
            match find_earlier_producer(ps, i, k) {
                Some((i2, k2)) => {
                    return Some((i, k, i2, k2));
                },
                None => {},
            }
            k = k + 1;
        }
        i = i + 1;
    }
    None
}

fn relation_list(ps: &Vec<ProtocolDeclaration>, kind: u8, fixed: usize) -> (r: Vec<usize>)
    requires
        fixed < ps.len(),
        kind < 4,
    ensures
        exactly_increasing(r@, ps@, kind as int, fixed as int),
{
    let mut r: Vec<usize> = Vec::new();
    let mut x: usize = 0;
    while x < ps.len()
        invariant
            fixed < ps.len(),
            kind < 4,
            x <= ps.len(),
            forall|a: int, b: int| 0 <= a < b < r@.len() ==> r@[a] < r@[b],
            forall|a: int| 0 <= a < r@.len() ==> r@[a] < x && related(ps@, kind as int, fixed as int, r@[a] as int),
            forall|y: int| 0 <= y < x && #[trigger] related(ps@, kind as int, fixed as int, y) ==> r@.contains(y as usize),
        decreases ps.len() - x,
    {
        let ghost old_r = r@;
        let e = if kind == 0 {
            is_hard_edge(ps, fixed, x)
        } else if kind == 1 {
            is_soft_edge(ps, fixed, x)
        } else if kind == 2 {
            is_hard_edge(ps, x, fixed)
        } else {
            is_soft_edge(ps, x, fixed)
        };
        assert(e == related(ps@, kind as int, fixed as int, x as int));
        if e {
            r.push(x);
            assert(r@[r@.len() - 1] == x);
        }
        proof {
            assert forall|y: int| 0 <= y < x + 1 && #[trigger] related(ps@, kind as int, fixed as int, y) implies r@.contains(y as usize) by {
                if y < x {
                    assert(old_r.contains(y as usize));
                    let q = choose|q: int| 0 <= q < old_r.len() && old_r[q] == y as usize;
                    assert(r@[q] == y as usize);
                } else {
                    assert(r@[r@.len() - 1] == y as usize);
                }
            }
        }
        x = x + 1;
    }
    r
}

/// A list enumerating one relation contains `x` exactly when `x` is related.
proof fn lemma_exactly_contains(s: Seq<usize>, ps: Seq<ProtocolDeclaration>, kind: int, fixed: int, x: int)
    requires
        exactly_increasing(s, ps, kind, fixed),
        0 <= x < ps.len(),
        x <= usize::MAX,
    ensures
        s.contains(x as usize) <==> related(ps, kind, fixed, x),
{
    if s.contains(x as usize) {
        let q = choose|q: int| 0 <= q < s.len() && s[q] == x as usize;
        assert(related(ps, kind, fixed, s[q] as int));
    }
}

impl DependencyGraph {
    /// Build a dependency graph from protocol declarations.
    ///
    /// Fails when two protocols share a name, or when two `produces` entries
    /// name the same artifact type; the error names the first offending entry
    /// in declaration order. Required artifacts with no producer are external
    /// dependencies and give no edge.
    pub fn build(skills: &Vec<ProtocolDeclaration>) -> (r: Result<DependencyGraph, GraphError>)
        ensures
            match r {
                Ok(g) => names_distinct(skills@) && producers_distinct(skills@) && g.built_from(skills@),
                Err(e) => build_error_matches(skills@, e),
            },
            r is Ok <==> names_distinct(skills@) && producers_distinct(skills@),
    {
        let n = skills.len();
        match find_duplicate(skills) {
            Some(j) => {
                return Err(GraphError::DuplicateSkill(skills[j].name.clone()));
            },
            None => {},
        }
        match find_conflict(skills) {
            Some((i, k, i2, k2)) => {
                let e = GraphError::ConflictingProducers {
                    artifact_type: skills[i].produces[k].clone(),
                    first: skills[i2].name.clone(),
                    second: skills[i].name.clone(),
                };
                assert(repeats_at(skills@, i as int, k as int, i2 as int, k2 as int));
                return Err(e);
            },
            None => {},
        }
        let mut skill_names: Vec<String> = Vec::new();
        let mut requires_per_skill: Vec<Vec<String>> = Vec::new();
        let mut hard_deps: Vec<Vec<usize>> = Vec::new();
        let mut soft_deps: Vec<Vec<usize>> = Vec::new();
        let mut hard_dependents: Vec<Vec<usize>> = Vec::new();
        let mut soft_dependents: Vec<Vec<usize>> = Vec::new();
        let mut idx: usize = 0;
        while idx < n
            invariant
                n == skills.len(),
                idx <= n,
                skill_names@.len() == idx,
                requires_per_skill@.len() == idx,
                hard_deps@.len() == idx,
                soft_deps@.len() == idx,
                hard_dependents@.len() == idx,
                soft_dependents@.len() == idx,
                forall|i: int| 0 <= i < idx ==> #[trigger] skill_names@[i]@ == skills@[i].name@,
                forall|i: int| 0 <= i < idx ==> #[trigger] views(requires_per_skill@[i]@) == views(skills@[i].requires@),
                forall|i: int| 0 <= i < idx ==> exactly_increasing(#[trigger] hard_deps@[i]@, skills@, 0, i),
                forall|i: int| 0 <= i < idx ==> exactly_increasing(#[trigger] soft_deps@[i]@, skills@, 1, i),
                forall|j: int| 0 <= j < idx ==> exactly_increasing(#[trigger] hard_dependents@[j]@, skills@, 2, j),
                forall|j: int| 0 <= j < idx ==> exactly_increasing(#[trigger] soft_dependents@[j]@, skills@, 3, j),
            decreases n - idx,
        {
            skill_names.push(skills[idx].name.clone());
            requires_per_skill.push(crate::text::clone_strings(&skills[idx].requires));
            hard_deps.push(relation_list(skills, 0, idx));
            soft_deps.push(relation_list(skills, 1, idx));
            hard_dependents.push(relation_list(skills, 2, idx));
            soft_dependents.push(relation_list(skills, 3, idx));
            idx = idx + 1;
        }
        proof {
            let ps = skills@;
            let nn = n as int;
            assert forall|i: int| 0 <= i < nn implies #[trigger] index_list(hard_deps@[i]@, nn) by {
                assert(exactly_increasing(hard_deps@[i]@, ps, 0, i));
            }
            assert forall|i: int| 0 <= i < nn implies #[trigger] index_list(soft_deps@[i]@, nn) by {
                assert(exactly_increasing(soft_deps@[i]@, ps, 1, i));
            }
            assert forall|i: int| 0 <= i < nn implies #[trigger] index_list(hard_dependents@[i]@, nn) by {
                assert(exactly_increasing(hard_dependents@[i]@, ps, 2, i));
            }
            assert forall|i: int| 0 <= i < nn implies #[trigger] index_list(soft_dependents@[i]@, nn) by {
                assert(exactly_increasing(soft_dependents@[i]@, ps, 3, i));
            }
            assert forall|i: int| 0 <= i < nn implies !hard_deps@[i]@.contains(i as usize) by {
                lemma_exactly_contains(hard_deps@[i]@, ps, 0, i, i);
            }
            assert forall|i: int| 0 <= i < nn implies !soft_deps@[i]@.contains(i as usize) by {
                lemma_exactly_contains(soft_deps@[i]@, ps, 1, i, i);
            }
            assert forall|i: int, j: int| 0 <= i < nn && 0 <= j < nn implies (#[trigger] hard_deps@[i]@.contains(j as usize)
                <==> #[trigger] hard_dependents@[j]@.contains(i as usize)) && (hard_deps@[i]@.contains(j as usize) <==> hard_edge(ps, i, j)) by {
                lemma_exactly_contains(hard_deps@[i]@, ps, 0, i, j);
                lemma_exactly_contains(hard_dependents@[j]@, ps, 2, j, i);
            }
            assert forall|i: int, j: int| 0 <= i < nn && 0 <= j < nn implies (#[trigger] soft_deps@[i]@.contains(j as usize)
                <==> #[trigger] soft_dependents@[j]@.contains(i as usize)) && (soft_deps@[i]@.contains(j as usize) <==> soft_edge(ps, i, j)) by {
                lemma_exactly_contains(soft_deps@[i]@, ps, 1, i, j);
                lemma_exactly_contains(soft_dependents@[j]@, ps, 3, j, i);
            }
            assert(views(skill_names@) =~= decl_names(ps));
            assert forall|i: int, j: int| 0 <= i < j < nn implies skill_names@[i]@ != skill_names@[j]@ by {
                assert(!duplicate_at(ps, j));
            }
        }
        let g = DependencyGraph {
            skill_names,
            requires_per_skill,
            hard_deps,
            soft_deps,
            hard_dependents,
            soft_dependents,
        };
        proof {
            let ps = skills@;
            assert(g.size() == ps.len());
            assert(g.names() == decl_names(ps));
            assert forall|i: int| 0 <= i < ps.len() implies #[trigger] g.requires_of(i) == views(ps[i].requires@) by {
                assert(views(g.requires_per_skill@[i]@) == views(ps[i].requires@));
            }
            assert forall|i: int| 0 <= i < ps.len() implies exactly_increasing(#[trigger] g.hard_deps_of(i), ps, 0, i) by {}
            assert forall|j: int| 0 <= j < ps.len() implies exactly_increasing(#[trigger] g.hard_dependents_of(j), ps, 2, j) by {}
            assert forall|i: int, j: int| 0 <= i < ps.len() && 0 <= j < ps.len() implies (#[trigger] g.hard(i, j) <==> hard_edge(ps, i, j)) by {
                lemma_exactly_contains(g.hard_deps@[i]@, ps, 0, i, j);
            }
            assert forall|i: int, j: int| 0 <= i < ps.len() && 0 <= j < ps.len() implies (#[trigger] g.soft(i, j) <==> soft_edge(ps, i, j)) by {
                lemma_exactly_contains(g.soft_deps@[i]@, ps, 1, i, j);
            }
        }
        Ok(g)
    }
}


// ---------------------------------------------------------------------------
// Kahn's algorithm.
// ---------------------------------------------------------------------------

/// Number of entries of `list` that are not in `placed`.
pub open spec fn count_out(list: Seq<usize>, placed: Set<usize>) -> nat
    decreases list.len(),
{
    if list.len() == 0 {
        0
    } else {
        count_out(list.drop_last(), placed) + if placed.contains(list.last()) { 0nat } else { 1nat }
    }
}

proof fn lemma_count_out_empty(list: Seq<usize>)
    ensures
        count_out(list, Set::empty()) == list.len(),
    decreases list.len(),
{
    if list.len() > 0 {
        lemma_count_out_empty(list.drop_last());
    }
}

proof fn lemma_count_out_zero(list: Seq<usize>, placed: Set<usize>)
    ensures
        count_out(list, placed) == 0 <==> forall|k: int| 0 <= k < list.len() ==> placed.contains(#[trigger] list[k]),
    decreases list.len(),
{
    if list.len() > 0 {
        lemma_count_out_zero(list.drop_last(), placed);
        if count_out(list, placed) == 0 {
            assert forall|k: int| 0 <= k < list.len() implies placed.contains(#[trigger] list[k]) by {
                if k < list.len() - 1 {
                    assert(list.drop_last()[k] == list[k]);
                }
            }
        }
        if forall|k: int| 0 <= k < list.len() ==> placed.contains(#[trigger] list[k]) {
            assert forall|k: int| 0 <= k < list.drop_last().len() implies placed.contains(#[trigger] list.drop_last()[k]) by {
                assert(list.drop_last()[k] == list[k]);
            }
            assert(placed.contains(list[list.len() - 1]));
        }
    }
}

proof fn lemma_count_out_insert(list: Seq<usize>, placed: Set<usize>, u: usize)
    requires
        forall|a: int, b: int| 0 <= a < b < list.len() ==> list[a] != list[b],
        !placed.contains(u),
    ensures
        count_out(list, placed.insert(u)) + (if list.contains(u) { 1nat } else { 0nat }) == count_out(list, placed),
    decreases list.len(),
{
    if list.len() > 0 {
        let init = list.drop_last();
        lemma_count_out_insert(init, placed, u);
        if list.last() == u {
            if init.contains(u) {
                let q = choose|q: int| 0 <= q < init.len() && init[q] == u;
                assert(list[q] == list[list.len() - 1]);
            }
        } else {
            if list.contains(u) {
                let q = choose|q: int| 0 <= q < list.len() && list[q] == u;
                assert(init[q] == u);
            }
            if init.contains(u) {
                let q = choose|q: int| 0 <= q < init.len() && init[q] == u;
                assert(list[q] == u);
            }
        }
    }
}

/// A list of distinct values below `n` has at most `n` entries.
proof fn lemma_distinct_bounded(s: Seq<usize>, n: int)
    requires
        0 <= n,
        s.no_duplicates(),
        forall|k: int| 0 <= k < s.len() ==> (s[k] as int) < n,
    ensures
        s.len() <= n,
    decreases n,
{
    if n == 0 {
        if s.len() > 0 {
            assert((s[0] as int) < 0);
        }
    } else {
        let top = (n - 1) as usize;
        if s.contains(top) {
            let q = choose|q: int| 0 <= q < s.len() && s[q] == top;
            let t = s.subrange(0, q) + s.subrange(q + 1, s.len() as int);
            assert(t.len() == s.len() - 1);
            assert forall|k: int| 0 <= k < t.len() implies (t[k] as int) < n - 1 by {
                if k < q {
                    assert(t[k] == s[k]);
                } else {
                    assert(t[k] == s[k + 1]);
                }
            }
            assert(t.no_duplicates()) by {
                assert forall|a: int, b: int| 0 <= a < t.len() && 0 <= b < t.len() && a != b implies t[a] != t[b] by {
                    let a2 = if a < q { a } else { a + 1 };
                    let b2 = if b < q { b } else { b + 1 };
                    assert(t[a] == s[a2]);
                    assert(t[b] == s[b2]);
                }
            }
            lemma_distinct_bounded(t, n - 1);
        } else {
            assert forall|k: int| 0 <= k < s.len() implies (s[k] as int) < n - 1 by {
                assert(s[k] != top);
            }
            lemma_distinct_bounded(s, n - 1);
        }
    }
}

/// A list of distinct values that contains every value below `n` has at least `n` entries.
proof fn lemma_covering_long(s: Seq<usize>, n: int)
    requires
        0 <= n <= usize::MAX + 1,
        s.no_duplicates(),
        forall|v: usize| (v as int) < n ==> #[trigger] s.contains(v),
    ensures
        s.len() >= n,
    decreases n,
{
    if n > 0 {
        let top = (n - 1) as usize;
        assert(s.contains(top));
        let q = choose|q: int| 0 <= q < s.len() && s[q] == top;
        let t = s.subrange(0, q) + s.subrange(q + 1, s.len() as int);
            assert(t.len() == s.len() - 1);
        assert(t.no_duplicates()) by {
            assert forall|a: int, b: int| 0 <= a < t.len() && 0 <= b < t.len() && a != b implies t[a] != t[b] by {
                let a2 = if a < q { a } else { a + 1 };
                let b2 = if b < q { b } else { b + 1 };
                assert(t[a] == s[a2]);
                assert(t[b] == s[b2]);
            }
        }
        assert forall|v: usize| (v as int) < n - 1 implies #[trigger] t.contains(v) by {
            assert(s.contains(v));
            let r = choose|r: int| 0 <= r < s.len() && s[r] == v;
            assert(r != q);
            if r < q {
                assert(t[r] == s[r]);
            } else {
                assert(t[r - 1] == s[r]);
            }
        }
        lemma_covering_long(t, n - 1);
    }
}

/// Strictly increasing lists hold no value twice.
proof fn lemma_increasing_distinct(s: Seq<usize>)
    requires
        forall|a: int, b: int| 0 <= a < b < s.len() ==> s[a] < s[b],
    ensures
        s.no_duplicates(),
        forall|a: int, b: int| 0 <= a < b < s.len() ==> s[a] != s[b],
{
}

impl DependencyGraph {
    /// The in-degree counters Kahn's algorithm keeps, for the nodes `placed` so far.
    closed spec fn counters_exact(&self, include_soft: bool, placed: Set<usize>, hard_in: Seq<usize>, soft_in: Seq<usize>) -> bool {
        let n = self.size();
        &&& hard_in.len() == n
        &&& soft_in.len() == n
        &&& forall|v: int| 0 <= v < n ==> #[trigger] hard_in[v] == count_out(self.hard_deps@[v]@, placed)
        &&& forall|v: int| 0 <= v < n ==> #[trigger] soft_in[v] == if include_soft { count_out(self.soft_deps@[v]@, placed) } else { 0 }
    }

    /// Every node of `order` comes after all the nodes it depends on.
    pub open spec fn respects(&self, include_soft: bool, order: Seq<usize>) -> bool {
        forall|p: int, d: int| 0 <= p < order.len() && #[trigger] self.edge(include_soft, order[p] as int, d) ==> order.subrange(0, p).contains(d as usize)
    }

    /// Node `v` depends on some node that `order` does not hold.
    pub open spec fn waits_on_unplaced(&self, include_soft: bool, order: Seq<usize>, v: int) -> bool {
        exists|d: int| #[trigger] self.edge(include_soft, v, d) && 0 <= d < self.size() && !order.contains(d as usize)
    }

    /// Run Kahn's algorithm and return the nodes it could place, in order.
    ///
    /// Every placed node comes after all the nodes it depends on; when not all
    /// nodes are placed, each unplaced node depends on another unplaced node.
    fn kahns_prefix(&self, include_soft: bool) -> (order: Vec<usize>)
        ensures
            order@.no_duplicates(),
            forall|k: int| 0 <= k < order@.len() ==> (order@[k] as int) < self.size(),
            self.respects(include_soft, order@),
            order@.len() < self.size() ==> forall|v: int| 0 <= v < self.size() && !order@.contains(v as usize) ==>
                #[trigger] self.waits_on_unplaced(include_soft, order@, v),
    {
        proof { use_type_invariant(self); }
        let n = self.skill_names.len();
        let mut hard_in: Vec<usize> = Vec::new();
        let mut soft_in: Vec<usize> = Vec::new();
        let mut i: usize = 0;
        while i < n
            invariant
                n == self.size(),
                self.wf(),
                i <= n,
                hard_in@.len() == i,
                soft_in@.len() == i,
                forall|v: int| 0 <= v < i ==> #[trigger] hard_in@[v] == count_out(self.hard_deps@[v]@, Set::empty()),
                forall|v: int| 0 <= v < i ==> #[trigger] soft_in@[v] == if include_soft { count_out(self.soft_deps@[v]@, Set::empty()) } else { 0 },
            decreases n - i,
        {
            proof {
                lemma_count_out_empty(self.hard_deps@[i as int]@);
                lemma_count_out_empty(self.soft_deps@[i as int]@);
            }
            hard_in.push(self.hard_deps[i].len());
            if include_soft {
                soft_in.push(self.soft_deps[i].len());
            } else {
                soft_in.push(0);
            }
            i = i + 1;
        }
        let mut queue: Vec<usize> = Vec::new();
        let mut i: usize = 0;
        while i < n
            invariant
                n == self.size(),
                self.wf(),
                i <= n,
                self.counters_exact(include_soft, Set::empty(), hard_in@, soft_in@),
                queue@.no_duplicates(),
                forall|k: int| 0 <= k < queue@.len() ==> (queue@[k] as int) < i && hard_in@[queue@[k] as int] == 0 && soft_in@[queue@[k] as int] == 0,
                forall|v: int| 0 <= v < i && hard_in@[v] == 0 && soft_in@[v] == 0 ==> queue@.contains(v as usize),
            decreases n - i,
        {
            let ghost q_before = queue@;
            if hard_in[i] == 0 && soft_in[i] == 0 {
                queue.push(i);
                assert(queue@[queue@.len() - 1] == i);
            }
            proof {
                assert forall|v: int| 0 <= v < i + 1 && hard_in@[v] == 0 && soft_in@[v] == 0 implies queue@.contains(v as usize) by {
                    if v < i {
                        let k = choose|k: int| 0 <= k < q_before.len() && q_before[k] == v as usize;
                        assert(queue@[k] == v as usize);
                    } else {
                        assert(queue@[queue@.len() - 1] == i);
                    }
                }
                assert(queue@.no_duplicates()) by {
                    assert forall|a: int, b: int| 0 <= a < queue@.len() && 0 <= b < queue@.len() && a != b implies queue@[a] != queue@[b] by {
                        if a < q_before.len() && b < q_before.len() {
                            assert(queue@[a] == q_before[a]);
                            assert(queue@[b] == q_before[b]);
                        }
                    }
                }
            }
            i = i + 1;
        }
        let mut order: Vec<usize> = Vec::new();
        let ghost mut placed: Set<usize> = Set::empty();
        while queue.len() > 0
            invariant
                n == self.size(),
                self.wf(),
                self.counters_exact(include_soft, placed, hard_in@, soft_in@),
                order@.no_duplicates(),
                forall|k: int| 0 <= k < order@.len() ==> (order@[k] as int) < n,
                forall|x: usize| placed.contains(x) <==> order@.contains(x),
                self.respects(include_soft, order@),
                queue@.no_duplicates(),
                forall|k: int| 0 <= k < queue@.len() ==> (queue@[k] as int) < n && !placed.contains(queue@[k]) && hard_in@[queue@[k] as int] == 0 && soft_in@[queue@[k] as int] == 0,
                forall|v: int| 0 <= v < n && !placed.contains(v as usize) && hard_in@[v] == 0 && soft_in@[v] == 0 ==> queue@.contains(v as usize),
            decreases n - order@.len(),
        {
            let ghost old_queue = queue@;
            let node = queue.pop().unwrap();
            assert(node == old_queue.last());
            let ghost placed_old = placed;
            let ghost order_old = order@;
            proof {
                // All of `node`'s dependencies are already placed.
                lemma_count_out_zero(self.hard_deps@[node as int]@, placed_old);
                lemma_count_out_zero(self.soft_deps@[node as int]@, placed_old);
                assert forall|p: int, d: int| 0 <= p < order_old.len() + 1 && #[trigger] self.edge(include_soft, order_old.push(node)[p] as int, d)
                    implies order_old.push(node).subrange(0, p).contains(d as usize) by {
                    if p < order_old.len() {
                        assert(order_old.push(node)[p] == order_old[p]);
                        assert(order_old.push(node).subrange(0, p) =~= order_old.subrange(0, p));
                    } else {
                        assert(order_old.push(node).subrange(0, p) =~= order_old);
                        if self.hard(node as int, d) {
                            let q = choose|q: int| 0 <= q < self.hard_deps@[node as int]@.len() && self.hard_deps@[node as int]@[q] == d as usize;
                            assert(placed_old.contains(self.hard_deps@[node as int]@[q]));
                        } else {
                            let q = choose|q: int| 0 <= q < self.soft_deps@[node as int]@.len() && self.soft_deps@[node as int]@[q] == d as usize;
                            assert(placed_old.contains(self.soft_deps@[node as int]@[q]));
                        }
                    }
                }
                assert(!order_old.contains(node));
                placed = placed.insert(node);
            }
            order.push(node);
            proof {
                assert(order@ == order_old.push(node));
                assert forall|x: usize| placed.contains(x) <==> order@.contains(x) by {
                    if order@.contains(x) && x != node {
                        let q = choose|q: int| 0 <= q < order@.len() && order@[q] == x;
                        assert(order_old[q] == x);
                    }
                    if order_old.contains(x) {
                        let q = choose|q: int| 0 <= q < order_old.len() && order_old[q] == x;
                        assert(order@[q] == x);
                    }
                    if x == node {
                        assert(order@[order@.len() - 1] == node);
                    }
                }
                assert(order@.no_duplicates()) by {
                    assert forall|a: int, b: int| 0 <= a < order@.len() && 0 <= b < order@.len() && a != b implies order@[a] != order@[b] by {
                        if a == order_old.len() as int {
                            assert(order_old[b] == order@[b]);
                        } else if b == order_old.len() as int {
                            assert(order_old[a] == order@[a]);
                        }
                    }
                }
                assert forall|k: int| 0 <= k < queue@.len() implies queue@[k] != node by {
                    assert(old_queue[k] == queue@[k]);
                }
                lemma_distinct_bounded(order@, n as int);
                assert forall|v: int| 0 <= v < n && !placed.contains(v as usize) && hard_in@[v] == 0 && soft_in@[v] == 0 implies queue@.contains(v as usize) by {
                    assert(old_queue.contains(v as usize));
                    let k = choose|k: int| 0 <= k < old_queue.len() && old_queue[k] == v as usize;
                    assert(k != old_queue.len() - 1);
                    assert(queue@[k] == v as usize);
                }
            }
            // Decrease the hard counters of the protocols that depend hard on `node`.
            let deps = &self.hard_dependents[node];
            let mut t: usize = 0;
            while t < deps.len()
                invariant
                    n == self.size(),
                    self.wf(),
                    (node as int) < n,
                    deps == &self.hard_dependents@[node as int],
                    t <= deps@.len(),
                    !placed_old.contains(node),
                    placed == placed_old.insert(node),
                    forall|x: usize| placed.contains(x) <==> order@.contains(x),
                    forall|x: usize| placed_old.contains(x) <==> order_old.contains(x),
                    order@ == order_old.push(node),
                    self.respects(include_soft, order@),
                    hard_in@.len() == n,
                    soft_in@.len() == n,
                    forall|v: int| 0 <= v < n ==> #[trigger] hard_in@[v] == count_out(self.hard_deps@[v]@, placed_old) - (if deps@.subrange(0, t as int).contains(v as usize) { 1int } else { 0int }),
                    forall|v: int| 0 <= v < n ==> #[trigger] soft_in@[v] == if include_soft { count_out(self.soft_deps@[v]@, placed_old) } else { 0 },
                    queue@.no_duplicates(),
                    forall|k: int| 0 <= k < queue@.len() ==> (queue@[k] as int) < n && !placed.contains(queue@[k]) && hard_in@[queue@[k] as int] == 0 && soft_in@[queue@[k] as int] == 0,
                    forall|v: int| 0 <= v < n && !placed.contains(v as usize) && hard_in@[v] == 0 && soft_in@[v] == 0 ==> queue@.contains(v as usize),
                decreases deps@.len() - t,
            {
                let w = deps[t];
                proof {
                    assert(index_list(self.hard_dependents@[node as int]@, n as int));
                    lemma_increasing_distinct(deps@);
                    let s0 = deps@.subrange(0, t as int);
                    if s0.contains(w) {
                        let q = choose|q: int| 0 <= q < s0.len() && s0[q] == w;
                        assert(deps@[q] == w);
                    }
                    assert(deps@[t as int] == w);
                    assert((w as int) < n);
                    assert(self.hard_dependents@[node as int]@.contains((w as int) as usize));
                    assert(self.hard_deps@[w as int]@.contains((node as int) as usize));
                    let q = choose|q: int| 0 <= q < self.hard_deps@[w as int]@.len() && self.hard_deps@[w as int]@[q] == node;
                    assert(index_list(self.hard_deps@[w as int]@, n as int));
                    lemma_increasing_distinct(self.hard_deps@[w as int]@);
                    lemma_count_out_insert(self.hard_deps@[w as int]@, placed_old, node);
                    // `w` is not placed yet: it depends on `node`, which was not placed.
                    if placed_old.contains(w) {
                        let p = choose|p: int| 0 <= p < order_old.len() && order_old[p] == w;
                        assert(order@[p] == w);
                        assert(self.edge(include_soft, order@[p] as int, node as int));
                        let pre = order@.subrange(0, p);
                        let r = choose|r: int| 0 <= r < pre.len() && pre[r] == node;
                        assert(order_old[r] == node);
                    }
                    assert(w != node);
                    assert(hard_in@[w as int] >= 1);
                    assert forall|k: int| 0 <= k < queue@.len() implies queue@[k] != w by {
                        if queue@[k] == w {
                            assert(hard_in@[queue@[k] as int] == 0);
                        }
                    }
                }
                let old_h = hard_in[w];
                hard_in.set(w, old_h - 1);
                proof {
                    assert forall|v: int| 0 <= v < n implies #[trigger] hard_in@[v] == count_out(self.hard_deps@[v]@, placed_old) - (if deps@.subrange(0, t + 1).contains(v as usize) { 1int } else { 0int }) by {
                        let s1 = deps@.subrange(0, t + 1);
                        let s0 = deps@.subrange(0, t as int);
                        if s1.contains(v as usize) && v != w as int {
                            let q = choose|q: int| 0 <= q < s1.len() && s1[q] == v as usize;
                            assert(s0[q] == v as usize);
                        }
                        if s0.contains(v as usize) {
                            let q = choose|q: int| 0 <= q < s0.len() && s0[q] == v as usize;
                            assert(s1[q] == v as usize);
                        }
                        if v == w as int {
                            assert(s1[t as int] == w);
                        }
                    }
                }
                if hard_in[w] == 0 && soft_in[w] == 0 {
                    let ghost q_before = queue@;
                    queue.push(w);
                    proof {
                        assert(queue@ == q_before.push(w));
                        assert forall|k: int| 0 <= k < q_before.len() implies q_before[k] != w by {}
                        assert(queue@.no_duplicates()) by {
                            assert forall|a: int, b: int| 0 <= a < queue@.len() && 0 <= b < queue@.len() && a != b implies queue@[a] != queue@[b] by {
                                if a < q_before.len() && b < q_before.len() {
                                    assert(queue@[a] == q_before[a]);
                                    assert(queue@[b] == q_before[b]);
                                }
                            }
                        }
                        assert forall|v: int| 0 <= v < n && !placed.contains(v as usize) && hard_in@[v] == 0 && soft_in@[v] == 0 implies queue@.contains(v as usize) by {
                            if v == w as int {
                                assert(queue@[queue@.len() - 1] == w);
                            } else {
                                let k = choose|k: int| 0 <= k < q_before.len() && q_before[k] == v as usize;
                                assert(queue@[k] == v as usize);
                            }
                        }
                    }
                }
                t = t + 1;
            }
            proof {
                assert(deps@.subrange(0, deps@.len() as int) =~= deps@);
                assert forall|v: int| 0 <= v < n implies #[trigger] hard_in@[v] == count_out(self.hard_deps@[v]@, placed) by {
                    assert(index_list(self.hard_deps@[v]@, n as int));
                    lemma_increasing_distinct(self.hard_deps@[v]@);
                    lemma_count_out_insert(self.hard_deps@[v]@, placed_old, node);
                    assert(self.hard_deps@[v]@.contains(node) <==> self.hard_dependents@[node as int]@.contains(v as usize));
                }
            }
            if include_soft {
                let sdeps = &self.soft_dependents[node];
                let mut t: usize = 0;
                while t < sdeps.len()
                    invariant
                        n == self.size(),
                        self.wf(),
                        include_soft,
                        (node as int) < n,
                        sdeps == &self.soft_dependents@[node as int],
                        t <= sdeps@.len(),
                        !placed_old.contains(node),
                        placed == placed_old.insert(node),
                        forall|x: usize| placed.contains(x) <==> order@.contains(x),
                        forall|x: usize| placed_old.contains(x) <==> order_old.contains(x),
                        order@ == order_old.push(node),
                        self.respects(include_soft, order@),
                        hard_in@.len() == n,
                        soft_in@.len() == n,
                        forall|v: int| 0 <= v < n ==> #[trigger] hard_in@[v] == count_out(self.hard_deps@[v]@, placed),
                        forall|v: int| 0 <= v < n ==> #[trigger] soft_in@[v] == count_out(self.soft_deps@[v]@, placed_old) - (if sdeps@.subrange(0, t as int).contains(v as usize) { 1int } else { 0int }),
                        queue@.no_duplicates(),
                        forall|k: int| 0 <= k < queue@.len() ==> (queue@[k] as int) < n && !placed.contains(queue@[k]) && hard_in@[queue@[k] as int] == 0 && soft_in@[queue@[k] as int] == 0,
                        forall|v: int| 0 <= v < n && !placed.contains(v as usize) && hard_in@[v] == 0 && soft_in@[v] == 0 ==> queue@.contains(v as usize),
                    decreases sdeps@.len() - t,
                {
                    let w = sdeps[t];
                    proof {
                        assert(index_list(self.soft_dependents@[node as int]@, n as int));
                        lemma_increasing_distinct(sdeps@);
                        let s0 = sdeps@.subrange(0, t as int);
                        if s0.contains(w) {
                            let q = choose|q: int| 0 <= q < s0.len() && s0[q] == w;
                            assert(sdeps@[q] == w);
                        }
                        assert(sdeps@[t as int] == w);
                        assert((w as int) < n);
                        assert(self.soft_dependents@[node as int]@.contains((w as int) as usize));
                        assert(self.soft_deps@[w as int]@.contains((node as int) as usize));
                        assert(index_list(self.soft_deps@[w as int]@, n as int));
                        lemma_increasing_distinct(self.soft_deps@[w as int]@);
                        lemma_count_out_insert(self.soft_deps@[w as int]@, placed_old, node);
                        if placed_old.contains(w) {
                            let p = choose|p: int| 0 <= p < order_old.len() && order_old[p] == w;
                            assert(order@[p] == w);
                            assert(self.edge(include_soft, order@[p] as int, node as int));
                            let pre = order@.subrange(0, p);
                            let r = choose|r: int| 0 <= r < pre.len() && pre[r] == node;
                            assert(order_old[r] == node);
                        }
                        assert(w != node);
                        assert(soft_in@[w as int] >= 1);
                        assert forall|k: int| 0 <= k < queue@.len() implies queue@[k] != w by {
                            if queue@[k] == w {
                                assert(soft_in@[queue@[k] as int] == 0);
                            }
                        }
                    }
                    let old_s = soft_in[w];
                    soft_in.set(w, old_s - 1);
                    proof {
                        assert forall|v: int| 0 <= v < n implies #[trigger] soft_in@[v] == count_out(self.soft_deps@[v]@, placed_old) - (if sdeps@.subrange(0, t + 1).contains(v as usize) { 1int } else { 0int }) by {
                            let s1 = sdeps@.subrange(0, t + 1);
                            let s0 = sdeps@.subrange(0, t as int);
                            if s1.contains(v as usize) && v != w as int {
                                let q = choose|q: int| 0 <= q < s1.len() && s1[q] == v as usize;
                                assert(s0[q] == v as usize);
                            }
                            if s0.contains(v as usize) {
                                let q = choose|q: int| 0 <= q < s0.len() && s0[q] == v as usize;
                                assert(s1[q] == v as usize);
                            }
                            if v == w as int {
                                assert(s1[t as int] == w);
                            }
                        }
                    }
                    if hard_in[w] == 0 && soft_in[w] == 0 {
                        let ghost q_before = queue@;
                        queue.push(w);
                        proof {
                            assert(queue@ == q_before.push(w));
                            assert forall|k: int| 0 <= k < q_before.len() implies q_before[k] != w by {}
                            assert(queue@.no_duplicates()) by {
                                assert forall|a: int, b: int| 0 <= a < queue@.len() && 0 <= b < queue@.len() && a != b implies queue@[a] != queue@[b] by {
                                    if a < q_before.len() && b < q_before.len() {
                                        assert(queue@[a] == q_before[a]);
                                        assert(queue@[b] == q_before[b]);
                                    }
                                }
                            }
                            assert forall|v: int| 0 <= v < n && !placed.contains(v as usize) && hard_in@[v] == 0 && soft_in@[v] == 0 implies queue@.contains(v as usize) by {
                                if v == w as int {
                                    assert(queue@[queue@.len() - 1] == w);
                                } else {
                                    let k = choose|k: int| 0 <= k < q_before.len() && q_before[k] == v as usize;
                                    assert(queue@[k] == v as usize);
                                }
                            }
                        }
                    }
                    t = t + 1;
                }
                proof {
                    assert(sdeps@.subrange(0, sdeps@.len() as int) =~= sdeps@);
                    assert forall|v: int| 0 <= v < n implies #[trigger] soft_in@[v] == count_out(self.soft_deps@[v]@, placed) by {
                        assert(index_list(self.soft_deps@[v]@, n as int));
                        lemma_increasing_distinct(self.soft_deps@[v]@);
                        lemma_count_out_insert(self.soft_deps@[v]@, placed_old, node);
                        assert(self.soft_deps@[v]@.contains(node) <==> self.soft_dependents@[node as int]@.contains(v as usize));
                    }
                }
            }
        }
        proof {
            if order@.len() < n {
                assert forall|v: int| 0 <= v < n && !order@.contains(v as usize) implies
                    #[trigger] self.waits_on_unplaced(include_soft, order@, v) by {
                    assert(!placed.contains(v as usize));
                    if queue@.contains(v as usize) {
                        let k = choose|k: int| 0 <= k < queue@.len() && queue@[k] == v as usize;
                    }
                    if hard_in@[v] != 0 {
                        lemma_count_out_zero(self.hard_deps@[v]@, placed);
                        let k = choose|k: int| 0 <= k < self.hard_deps@[v]@.len() && !placed.contains(#[trigger] self.hard_deps@[v]@[k]);
                        let d = self.hard_deps@[v]@[k] as int;
                        assert(index_list(self.hard_deps@[v]@, n as int));
                        assert(self.hard(v, d));
                        assert(self.edge(include_soft, v, d));
                    } else {
                        lemma_count_out_zero(self.soft_deps@[v]@, placed);
                        let k = choose|k: int| 0 <= k < self.soft_deps@[v]@.len() && !placed.contains(#[trigger] self.soft_deps@[v]@[k]);
                        let d = self.soft_deps@[v]@[k] as int;
                        assert(index_list(self.soft_deps@[v]@, n as int));
                        assert(self.soft(v, d));
                        assert(self.edge(include_soft, v, d));
                    }
                }
            }
        }
        order
    }
}


/// A list of distinct values below `n` that misses some value below `n` is
/// shorter than `n`.
proof fn lemma_missing_value_short(s: Seq<usize>, n: int, v: usize)
    requires
        0 <= n,
        (v as int) < n,
        s.no_duplicates(),
        forall|k: int| 0 <= k < s.len() ==> (s[k] as int) < n,
        !s.contains(v),
    ensures
        s.len() < n,
{
    let t = s.map_values(|x: usize| if x > v { (x - 1) as usize } else { x });
    assert forall|k: int| 0 <= k < t.len() implies (t[k] as int) < n - 1 by {
        assert(s[k] != v);
    }
    assert(t.no_duplicates()) by {
        assert forall|a: int, b: int| 0 <= a < t.len() && 0 <= b < t.len() && a != b implies t[a] != t[b] by {
            assert(s[a] != s[b]);
            assert(s[a] != v);
            assert(s[b] != v);
        }
    }
    lemma_distinct_bounded(t, n - 1);
}

impl DependencyGraph {
    /// `ord` lists every protocol exactly once.
    pub open spec fn is_full_order(&self, ord: Seq<usize>) -> bool {
        &&& ord.len() == self.size()
        &&& ord.no_duplicates()
        &&& forall|k: int| 0 <= k < ord.len() ==> (ord[k] as int) < self.size()
    }

    /// Some order of all protocols puts each after the protocols it depends on
    /// (hard edges, and also soft edges when `include_soft` holds).
    pub open spec fn acyclic(&self, include_soft: bool) -> bool {
        exists|ord: Seq<usize>| #[trigger] self.is_full_order(ord) && self.respects(include_soft, ord)
    }

    /// `cyc` is a cycle of hard edges: distinct protocols, each depending hard
    /// on the next, the last depending hard on the first.
    pub open spec fn is_hard_cycle(&self, cyc: Seq<usize>) -> bool {
        &&& cyc.len() > 0
        &&& cyc.no_duplicates()
        &&& forall|k: int| 0 <= k < cyc.len() ==> (cyc[k] as int) < self.size()
        &&& forall|k: int| 0 <= k < cyc.len() - 1 ==> #[trigger] self.hard(cyc[k] as int, cyc[k + 1] as int)
        &&& self.hard(cyc.last() as int, cyc[0] as int)
    }

    /// A full order contains every protocol.
    proof fn lemma_full_order_covers(&self, ord: Seq<usize>, v: usize)
        requires
            self.is_full_order(ord),
            (v as int) < self.size(),
        ensures
            ord.contains(v),
    {
        if !ord.contains(v) {
            lemma_missing_value_short(ord, self.size(), v);
        }
    }

    /// Every protocol of `s` depends on some protocol of `s`.
    pub open spec fn waits_within(&self, include_soft: bool, s: Set<usize>) -> bool {
        forall|v: usize| #[trigger] s.contains(v) ==> exists|d: usize| #[trigger] self.edge(include_soft, v as int, d as int) && s.contains(d)
    }

    /// No protocol of a set whose members all wait on members stands at any
    /// position of a respecting full order.
    proof fn lemma_waiting_set_unordered(&self, include_soft: bool, s: Set<usize>, ord: Seq<usize>, p: int)
        requires
            self.waits_within(include_soft, s),
            self.is_full_order(ord),
            self.respects(include_soft, ord),
            0 <= p < ord.len(),
        ensures
            !s.contains(ord[p]),
        decreases p,
    {
        let u = ord[p];
        if s.contains(u) {
            let d = choose|d: usize| #[trigger] self.edge(include_soft, u as int, d as int) && s.contains(d);
            assert(self.edge(include_soft, ord[p] as int, d as int));
            let pre = ord.subrange(0, p);
            assert(pre.contains(d));
            let q = choose|q: int| 0 <= q < pre.len() && pre[q] == d;
            assert(ord[q] == d);
            self.lemma_waiting_set_unordered(include_soft, s, ord, q);
        }
    }

    /// A set of protocols that all wait on members of the set admits no
    /// respecting order of all protocols, once it holds some protocol.
    proof fn lemma_waiting_set_not_acyclic(&self, include_soft: bool, s: Set<usize>, v: usize)
        requires
            self.waits_within(include_soft, s),
            s.contains(v),
            (v as int) < self.size(),
        ensures
            !self.acyclic(include_soft),
    {
        if self.acyclic(include_soft) {
            let ord = choose|ord: Seq<usize>| #[trigger] self.is_full_order(ord) && self.respects(include_soft, ord);
            self.lemma_full_order_covers(ord, v);
            let p = choose|p: int| 0 <= p < ord.len() && ord[p] == v;
            self.lemma_waiting_set_unordered(include_soft, s, ord, p);
        }
    }

    /// The protocols an order leaves out all wait on protocols it leaves out,
    /// when each of them waits on an unplaced protocol.
    proof fn lemma_unplaced_waits_within(&self, include_soft: bool, order: Seq<usize>, s: Set<usize>)
        requires
            forall|v: int| 0 <= v < self.size() && !order.contains(v as usize) ==>
                #[trigger] self.waits_on_unplaced(include_soft, order, v),
            forall|v: usize| #[trigger] s.contains(v) <==> (v as int) < self.size() && !order.contains(v),
        ensures
            self.waits_within(include_soft, s),
    {
        assert forall|v: usize| #[trigger] s.contains(v) implies exists|d: usize| #[trigger] self.edge(include_soft, v as int, d as int) && s.contains(d) by {
            assert(self.waits_on_unplaced(include_soft, order, v as int));
            let d = choose|d: int| #[trigger] self.edge(include_soft, v as int, d) && 0 <= d < self.size() && !order.contains(d as usize);
            assert(self.edge(include_soft, v as int, (d as usize) as int));
            assert(s.contains(d as usize));
        }
    }

    /// When an order leaves out some protocol and every protocol it leaves out
    /// waits on another one it leaves out, no order of all protocols respects
    /// the edges.
    proof fn lemma_stuck_not_acyclic(&self, include_soft: bool, order: Seq<usize>)
        requires
            order.no_duplicates(),
            forall|k: int| 0 <= k < order.len() ==> (order[k] as int) < self.size(),
            order.len() < self.size(),
            forall|v: int| 0 <= v < self.size() && !order.contains(v as usize) ==>
                #[trigger] self.waits_on_unplaced(include_soft, order, v),
        ensures
            !self.acyclic(include_soft),
    {
        let u = self.lemma_some_unplaced(order);
        let s = Set::new(|v: usize| (v as int) < self.size() && !order.contains(v));
        self.lemma_unplaced_waits_within(include_soft, order, s);
        self.lemma_waiting_set_not_acyclic(include_soft, s, u);
    }

    /// A list of distinct protocols shorter than the graph leaves one out.
    proof fn lemma_some_unplaced(&self, order: Seq<usize>) -> (u: usize)
        requires
            order.no_duplicates(),
            order.len() < self.size(),
        ensures
            (u as int) < self.size(),
            !order.contains(u),
    {
        assert(self.size() == self.skill_names.len());
        if forall|v: usize| (v as int) < self.size() ==> #[trigger] order.contains(v) {
            lemma_covering_long(order, self.size());
        }
        choose|v: usize| (v as int) < self.size() && !#[trigger] order.contains(v)
    }

    /// Kahn's algorithm: an order of all protocols respecting the edges, or
    /// `None` when there is none.
    fn kahns_sort(&self, include_soft: bool) -> (r: Option<Vec<usize>>)
        ensures
            match r {
                Some(ord) => self.is_full_order(ord@) && self.respects(include_soft, ord@),
                None => !self.acyclic(include_soft),
            },
    {
        proof { use_type_invariant(self); }
        let order = self.kahns_prefix(include_soft);
        if order.len() == self.skill_names.len() {
            Some(order)
        } else {
            proof {
                lemma_distinct_bounded(order@, self.size());
                self.lemma_stuck_not_acyclic(include_soft, order@);
            }
            None
        }
    }

    /// The names of the protocols at the given indices.
    fn names_at(&self, idx: &Vec<usize>) -> (r: Vec<String>)
        requires
            forall|k: int| 0 <= k < idx@.len() ==> (idx@[k] as int) < self.size(),
        ensures
            r@.len() == idx@.len(),
            forall|k: int| 0 <= k < idx@.len() ==> #[trigger] r@[k]@ == self.name(idx@[k] as int),
    {
        let mut r: Vec<String> = Vec::new();
        let mut k: usize = 0;
        while k < idx.len()
            invariant
                k <= idx@.len(),
                r@.len() == k,
                forall|m: int| 0 <= m < idx@.len() ==> (idx@[m] as int) < self.size(),
                forall|m: int| 0 <= m < k ==> #[trigger] r@[m]@ == self.name(idx@[m] as int),
            decreases idx@.len() - k,
        {
            r.push(self.skill_names[idx[k]].clone());
            k = k + 1;
        }
        r
    }
}

impl DependencyGraph {
    /// Extract a cycle of hard edges from the protocols that Kahn's algorithm
    /// on hard edges could not place (`placed_order` is what it placed).
    ///
    /// Starting from the lowest-numbered unplaced protocol, it follows the
    /// first unplaced dependency of each protocol until one repeats; the
    /// cycle runs from that protocol's first occurrence. This is the cycle a
    /// depth-first search over the protocols and their dependencies, both in
    /// index order, reports.
    fn extract_cycle(&self, placed_order: &Vec<usize>) -> (e: CycleError)
        requires
            placed_order@.no_duplicates(),
            forall|k: int| 0 <= k < placed_order@.len() ==> (placed_order@[k] as int) < self.size(),
            placed_order@.len() < self.size(),
            forall|v: int| 0 <= v < self.size() && !placed_order@.contains(v as usize) ==>
                #[trigger] self.waits_on_unplaced(false, placed_order@, v),
        ensures
            exists|cyc: Seq<usize>|
                #[trigger] self.is_hard_cycle(cyc) && e.path@.len() == cyc.len() && (forall|k: int|
                    0 <= k < cyc.len() ==> #[trigger] e.path@[k]@ == self.name(cyc[k] as int))
                    && forall|k: int| 0 <= k < cyc.len() ==> !placed_order@.contains(#[trigger] cyc[k]),
    {
        proof { use_type_invariant(self); }
        let n = self.skill_names.len();
        let ghost order = placed_order@;
        let mut placed: Vec<bool> = Vec::new();
        let mut v: usize = 0;
        while v < n
            invariant
                v <= n,
                placed@.len() == v,
                forall|u: int| 0 <= u < v ==> !placed@[u],
            decreases n - v,
        {
            placed.push(false);
            v = v + 1;
        }
        let mut k: usize = 0;
        while k < placed_order.len()
            invariant
                n == self.size(),
                order == placed_order@,
                forall|m: int| 0 <= m < order.len() ==> (order[m] as int) < n,
                k <= order.len(),
                placed@.len() == n,
                forall|u: int| 0 <= u < n ==> (#[trigger] placed@[u] <==> order.subrange(0, k as int).contains(u as usize)),
            decreases order.len() - k,
        {
            let u = placed_order[k];
            placed.set(u, true);
            proof {
                assert forall|w: int| 0 <= w < n implies (#[trigger] placed@[w] <==> order.subrange(0, k + 1).contains(w as usize)) by {
                    let s0 = order.subrange(0, k as int);
                    let s1 = order.subrange(0, k + 1);
                    if s0.contains(w as usize) {
                        let q = choose|q: int| 0 <= q < s0.len() && s0[q] == w as usize;
                        assert(s1[q] == w as usize);
                    }
                    if s1.contains(w as usize) && w != u as int {
                        let q = choose|q: int| 0 <= q < s1.len() && s1[q] == w as usize;
                        assert(s0[q] == w as usize);
                    }
                    if w == u as int {
                        assert(s1[k as int] == u);
                    }
                }
            }
            k = k + 1;
        }
        assert(order.subrange(0, order.len() as int) =~= order);
        // The lowest-numbered protocol left unplaced.
        let mut start: usize = 0;
        while start < n && placed[start]
            invariant
                n == self.size(),
                start <= n,
                placed@.len() == n,
                forall|u: int| 0 <= u < start ==> placed@[u],
            decreases n - start,
        {
            start = start + 1;
        }
        proof {
            if start == n {
                assert forall|u: usize| (u as int) < n implies #[trigger] order.contains(u) by {
                    assert(placed@[u as int]);
                }
                lemma_covering_long(order, n as int);
            }
        }
        let mut path: Vec<usize> = Vec::new();
        path.push(start);
        let mut cur: usize = start;
        loop
            invariant
                n == self.size(),
                self.wf(),
                order == placed_order@,
                placed@.len() == n,
                forall|u: int| 0 <= u < n ==> (#[trigger] placed@[u] <==> order.contains(u as usize)),
                forall|w: int| 0 <= w < n && !order.contains(w as usize) ==> #[trigger] self.waits_on_unplaced(false, order, w),
                path@.len() > 0,
                path@.no_duplicates(),
                forall|m: int| 0 <= m < path@.len() ==> (path@[m] as int) < n && !placed@[path@[m] as int],
                forall|m: int| 0 <= m < path@.len() - 1 ==> #[trigger] self.hard(path@[m] as int, path@[m + 1] as int),
                cur == path@.last(),
            decreases n - path@.len(),
        {
            // The first dependency of `cur` left unplaced.
            let deps = &self.hard_deps[cur];
            proof {
                assert(index_list(self.hard_deps@[cur as int]@, n as int));
            }
            let mut t: usize = 0;
            while t < deps.len() && placed[deps[t]]
                invariant
                    n == self.size(),
                    placed@.len() == n,
                    deps == &self.hard_deps@[cur as int],
                    index_list(deps@, n as int),
                    t <= deps@.len(),
                    forall|m: int| 0 <= m < t ==> placed@[deps@[m] as int],
                decreases deps@.len() - t,
            {
                t = t + 1;
            }
            proof {
                if t == deps.len() {
                    assert(!placed@[cur as int]);
                    assert(self.waits_on_unplaced(false, order, cur as int));
                    let d = choose|d: int| #[trigger] self.edge(false, cur as int, d) && 0 <= d < self.size() && !order.contains(d as usize);
                    assert(self.hard(cur as int, d));
                    let m = choose|m: int| 0 <= m < deps@.len() && deps@[m] == d as usize;
                    assert(placed@[deps@[m] as int]);
                }
            }
            let d = deps[t];
            proof {
                assert(self.hard_deps@[cur as int]@.contains(d));
                assert(self.hard(cur as int, d as int));
            }
            // Where `d` already stands on the path, if anywhere.
            let mut q: usize = 0;
            while q < path.len() && path[q] != d
                invariant
                    q <= path@.len(),
                    forall|m: int| 0 <= m < q ==> path@[m] != d,
                decreases path@.len() - q,
            {
                q = q + 1;
            }
            if q < path.len() {
                let mut cyc: Vec<usize> = Vec::new();
                let mut m: usize = q;
                while m < path.len()
                    invariant
                        q <= m <= path@.len(),
                        cyc@ == path@.subrange(q as int, m as int),
                    decreases path@.len() - m,
                {
                    cyc.push(path[m]);
                    m = m + 1;
                }
                proof {
                    let c = cyc@;
                    assert(c == path@.subrange(q as int, path@.len() as int));
                    assert forall|a: int, b: int| 0 <= a < c.len() && 0 <= b < c.len() && a != b implies c[a] != c[b] by {
                        assert(c[a] == path@[q + a]);
                        assert(c[b] == path@[q + b]);
                    }
                    assert forall|a: int| 0 <= a < c.len() - 1 implies #[trigger] self.hard(c[a] as int, c[a + 1] as int) by {
                        assert(c[a] == path@[q + a]);
                        assert(c[a + 1] == path@[q + a + 1]);
                        assert(self.hard(path@[q + a] as int, path@[(q + a) + 1] as int));
                    }
                    assert(c.last() == cur);
                    assert(c[0] == d);
                    assert(self.is_hard_cycle(c));
                    assert forall|a: int| 0 <= a < c.len() implies !order.contains(#[trigger] c[a]) by {
                        assert(c[a] == path@[q + a]);
                        assert(!placed@[path@[q + a] as int]);
                    }
                }
                let names = self.names_at(&cyc);
                return CycleError { path: names };
            }
            let ghost old_path = path@;
            path.push(d);
            proof {
                assert(path@ == old_path.push(d));
                assert forall|a: int, b: int| 0 <= a < path@.len() && 0 <= b < path@.len() && a != b implies path@[a] != path@[b] by {
                    if a < old_path.len() && b < old_path.len() {
                        assert(path@[a] == old_path[a]);
                        assert(path@[b] == old_path[b]);
                    }
                }
                assert forall|m: int| 0 <= m < path@.len() - 1 implies #[trigger] self.hard(path@[m] as int, path@[m + 1] as int) by {
                    if m < old_path.len() - 1 {
                        assert(path@[m] == old_path[m]);
                        assert(path@[m + 1] == old_path[m + 1]);
                    } else {
                        assert(path@[m] == cur);
                        assert(path@[m + 1] == d);
                    }
                }
                lemma_distinct_bounded(path@, n as int);
            }
            cur = d;
        }
    }

    /// Return the protocols in a valid execution order.
    ///
    /// Uses Kahn's algorithm on the combined hard and soft edges. If those
    /// contain a cycle, it retries on hard edges only. A cycle of hard edges
    /// gives `CycleError`; a cycle that needs soft edges is ignored and the
    /// hard-edge order is returned.
    pub fn topological_order(&self) -> (r: Result<Vec<String>, CycleError>)
        ensures
            match r {
                Ok(names) => exists|ord: Seq<usize>|
                    #[trigger] self.is_full_order(ord) && self.respects(false, ord) && (self.acyclic(true) ==> self.respects(true, ord))
                        && names@.len() == ord.len() && forall|k: int| 0 <= k < ord.len() ==> #[trigger] names@[k]@ == self.name(ord[k] as int),
                Err(e) => exists|cyc: Seq<usize>|
                    #[trigger] self.is_hard_cycle(cyc) && e.path@.len() == cyc.len() && forall|k: int|
                        0 <= k < cyc.len() ==> #[trigger] e.path@[k]@ == self.name(cyc[k] as int),
            },
            r is Ok <==> self.acyclic(false),
    {
        proof { use_type_invariant(self); }
        match self.kahns_sort(true) {
            Some(ord) => {
                proof {
                    assert forall|p: int, d: int| 0 <= p < ord@.len() && #[trigger] self.edge(false, ord@[p] as int, d) implies ord@.subrange(0, p).contains(d as usize) by {
                        assert(self.edge(true, ord@[p] as int, d));
                    }
                    assert(self.is_full_order(ord@) && self.respects(false, ord@));
                }
                let names = self.names_at(&ord);
                return Ok(names);
            },
            None => {},
        }
        let order = self.kahns_prefix(false);
        if order.len() == self.skill_names.len() {
            let names = self.names_at(&order);
            proof {
                assert(self.is_full_order(order@) && self.respects(false, order@));
            }
            return Ok(names);
        }
        proof {
            lemma_distinct_bounded(order@, self.size());
            self.lemma_stuck_not_acyclic(false, order@);
        }
        Err(self.extract_cycle(&order))
    }
}

// ---------------------------------------------------------------------------
// Orders of the protocols outside an excluded set.
// ---------------------------------------------------------------------------

impl DependencyGraph {
    /// Protocol `v` is named in the excluded names `ex`.
    pub open spec fn masked(&self, ex: Seq<Seq<char>>, v: int) -> bool {
        ex.contains(self.name(v))
    }

    /// `order` lists distinct protocols, none of them excluded.
    pub open spec fn order_within(&self, ex: Seq<Seq<char>>, order: Seq<usize>) -> bool {
        &&& order.no_duplicates()
        &&& forall|k: int| 0 <= k < order.len() ==> (order[k] as int) < self.size() && !self.masked(ex, order[k] as int)
    }

    /// Every protocol of `order` comes after the protocols it depends on that
    /// are not excluded.
    pub open spec fn respects_within(&self, include_soft: bool, ex: Seq<Seq<char>>, order: Seq<usize>) -> bool {
        forall|p: int, d: int| 0 <= p < order.len() && 0 <= d < self.size() && #[trigger] self.edge(include_soft, order[p] as int, d)
            && !self.masked(ex, d) ==> order.subrange(0, p).contains(d as usize)
    }

    /// Every protocol that is not excluded is in `order`.
    pub open spec fn covers_within(&self, ex: Seq<Seq<char>>, order: Seq<usize>) -> bool {
        forall|v: int| 0 <= v < self.size() && !self.masked(ex, v) ==> order.contains(v as usize)
    }

    /// Every protocol that is not excluded and not in `order` depends on
    /// another such protocol.
    pub open spec fn stuck_within(&self, include_soft: bool, ex: Seq<Seq<char>>, order: Seq<usize>) -> bool {
        forall|v: int| 0 <= v < self.size() && !self.masked(ex, v) && !order.contains(v as usize) ==>
            exists|d: int| 0 <= d < self.size() && #[trigger] self.edge(include_soft, v, d) && !self.masked(ex, d)
                && !order.contains(d as usize)
    }

    /// `cyc` is a cycle of hard edges among protocols that are not excluded.
    pub open spec fn is_hard_cycle_within(&self, ex: Seq<Seq<char>>, cyc: Seq<usize>) -> bool {
        &&& self.is_hard_cycle(cyc)
        &&& forall|k: int| 0 <= k < cyc.len() ==> !self.masked(ex, cyc[k] as int)
    }

    /// Some order of every protocol that is not excluded comes after the
    /// protocols each depends on by hard and by soft edges, that are not
    /// excluded: no cycle runs through hard and soft edges among them.
    pub open spec fn soft_orderable(&self, ex: Seq<Seq<char>>) -> bool {
        exists|ord: Seq<usize>| #[trigger] self.order_within(ex, ord) && self.covers_within(ex, ord)
            && self.respects_within(true, ex, ord)
    }

    /// A covering order that respects hard and soft edges shows the
    /// protocols that are not excluded can be ordered by both.
    pub proof fn law_soft_order_witnesses(&self, ex: Seq<Seq<char>>, ord: Seq<usize>)
        requires
            self.order_within(ex, ord),
            self.covers_within(ex, ord),
            self.respects_within(true, ex, ord),
        ensures
            self.soft_orderable(ex),
    {
    }

    /// When some order of the protocols that are not excluded respects the
    /// edges, a placement that leaves each unplaced protocol depending on
    /// another unplaced one has placed every protocol that is not excluded:
    /// placing stops short only on a cycle.
    pub proof fn law_stuck_placement_is_complete(&self, include_soft: bool, ex: Seq<Seq<char>>, ord: Seq<usize>, placed: Seq<usize>)
        requires
            self.order_within(ex, ord),
            self.covers_within(ex, ord),
            self.respects_within(include_soft, ex, ord),
            self.stuck_within(include_soft, ex, placed),
        ensures
            self.covers_within(ex, placed),
    {
        self.lemma_prefix_placed(include_soft, ex, ord, placed, ord.len() as int);
        assert forall|v: int| 0 <= v < self.size() && !self.masked(ex, v) implies placed.contains(v as usize) by {
            let j = choose|j: int| 0 <= j < ord.len() && ord[j] == v as usize;
            assert(placed.contains(ord[j]));
        }
    }

    /// Every protocol among the first `q` of a respecting order is placed,
    /// when each unplaced protocol depends on another unplaced one.
    proof fn lemma_prefix_placed(&self, include_soft: bool, ex: Seq<Seq<char>>, ord: Seq<usize>, placed: Seq<usize>, q: int)
        requires
            self.order_within(ex, ord),
            self.respects_within(include_soft, ex, ord),
            self.stuck_within(include_soft, ex, placed),
            0 <= q <= ord.len(),
        ensures
            forall|j: int| 0 <= j < q ==> placed.contains(#[trigger] ord[j]),
        decreases q,
    {
        if q > 0 {
            self.lemma_prefix_placed(include_soft, ex, ord, placed, q - 1);
            let w = ord[q - 1];
            if !placed.contains(w) {
                assert((w as int) < self.size() && !self.masked(ex, w as int));
                assert((w as int) as usize == w);
                let d = choose|d: int| 0 <= d < self.size() && #[trigger] self.edge(include_soft, w as int, d) && !self.masked(ex, d)
                    && !placed.contains(d as usize);
                let pre = ord.subrange(0, q - 1);
                assert(pre.contains(d as usize));
                let j = choose|j: int| 0 <= j < pre.len() && #[trigger] pre[j] == d as usize;
                assert(ord[j] == d as usize);
                assert(placed.contains(ord[j]));
            }
        }
    }

    /// Whether every dependency of `v` in `deps` is excluded or placed; when
    /// not, one that is neither.
    fn deps_settled(deps: &Vec<usize>, mask: &Vec<bool>, placed: &Vec<bool>) -> (r: Option<usize>)
        requires
            mask@.len() == placed@.len(),
            forall|k: int| 0 <= k < deps@.len() ==> (deps@[k] as int) < mask@.len(),
        ensures
            match r {
                None => forall|k: int| 0 <= k < deps@.len() ==> mask@[deps@[k] as int] || placed@[deps@[k] as int],
                Some(d) => deps@.contains(d) && (d as int) < mask@.len() && !mask@[d as int] && !placed@[d as int],
            },
    {
        let mut k: usize = 0;
        while k < deps.len()
            invariant
                k <= deps@.len(),
                mask@.len() == placed@.len(),
                forall|m: int| 0 <= m < deps@.len() ==> (deps@[m] as int) < mask@.len(),
                forall|m: int| 0 <= m < k ==> mask@[deps@[m] as int] || placed@[deps@[m] as int],
            decreases deps@.len() - k,
        {
            let d = deps[k];
            if !mask[d] && !placed[d] {
                assert(deps@[k as int] == d);
                return Some(d);
            }
            k = k + 1;
        }
        None
    }

    /// Place the protocols that are not excluded, each once every protocol it
    /// depends on that is not excluded is placed, taking the lowest-numbered
    /// such protocol first, until none can be placed.
    #[verifier::rlimit(100)]
    fn place_within(&self, include_soft: bool, excluded: &Vec<String>) -> (r: (Vec<usize>, bool))
        ensures
            self.order_within(views(excluded@), r.0@),
            self.respects_within(include_soft, views(excluded@), r.0@),
            self.stuck_within(include_soft, views(excluded@), r.0@),
            r.1 == self.covers_within(views(excluded@), r.0@),
    {
        proof { use_type_invariant(self); }
        let ghost ex = views(excluded@);
        let n = self.skill_names.len();
        let mut mask: Vec<bool> = Vec::new();
        let mut placed: Vec<bool> = Vec::new();
        let mut v: usize = 0;
        while v < n
            invariant
                n == self.size(),
                ex == views(excluded@),
                v <= n,
                mask@.len() == v,
                placed@.len() == v,
                forall|u: int| 0 <= u < v ==> mask@[u] == self.masked(ex, u) && !placed@[u],
            decreases n - v,
        {
            let m = contains_str(excluded, self.skill_names[v].as_str());
            let ghost mask_before = mask@;
            let ghost placed_before = placed@;
            mask.push(m);
            placed.push(false);
            proof {
                assert(m == self.masked(ex, v as int));
                assert forall|u: int| 0 <= u < v + 1 implies mask@[u] == self.masked(ex, u) && !placed@[u] by {
                    if u < v {
                        assert(mask@[u] == mask_before[u]);
                        assert(placed@[u] == placed_before[u]);
                    }
                }
            }
            v = v + 1;
        }
        let mut order: Vec<usize> = Vec::new();
        loop
            invariant
                n == self.size(),
                self.wf(),
                mask@.len() == n,
                placed@.len() == n,
                forall|u: int| 0 <= u < n ==> mask@[u] == self.masked(ex, u),
                forall|u: int| 0 <= u < n ==> (#[trigger] placed@[u] <==> order@.contains(u as usize)),
                self.order_within(ex, order@),
                self.respects_within(include_soft, ex, order@),
                order@.len() <= n,
            ensures
                self.order_within(ex, order@),
                self.respects_within(include_soft, ex, order@),
                self.stuck_within(include_soft, ex, order@),
            decreases n - order@.len(),
        {
            match self.find_ready(include_soft, &mask, &placed) {
                None => {
                    proof {
                        assert forall|u: int| 0 <= u < self.size() && !self.masked(ex, u) && !order@.contains(u as usize) implies
                            exists|d: int| 0 <= d < self.size() && #[trigger] self.edge(include_soft, u, d) && !self.masked(ex, d)
                                && !order@.contains(d as usize) by {
                            assert(!placed@[u]);
                            let d = choose|d: int| 0 <= d < n && #[trigger] self.edge(include_soft, u, d) && !mask@[d] && !placed@[d];
                            assert(!order@.contains(d as usize));
                        }
                    }
                    break;
                },
                Some(w) => {
                    let ghost old_order = order@;
                    proof {
                        assert(!old_order.contains(w));
                        if old_order.len() == n {
                            self.lemma_full_covers_all(old_order, w);
                        }
                    }
                    order.push(w);
                    placed.set(w, true);
                    proof {
                        assert(order@ == old_order.push(w));
                        assert forall|u: int| 0 <= u < n implies (#[trigger] placed@[u] <==> order@.contains(u as usize)) by {
                            if u == w as int {
                                assert(order@[old_order.len() as int] == w);
                            } else {
                                if order@.contains(u as usize) {
                                    let k = choose|k: int| 0 <= k < order@.len() && order@[k] == u as usize;
                                    assert(k < old_order.len());
                                    assert(old_order[k] == u as usize);
                                }
                                if old_order.contains(u as usize) {
                                    let k = choose|k: int| 0 <= k < old_order.len() && old_order[k] == u as usize;
                                    assert(order@[k] == u as usize);
                                }
                            }
                        }
                        assert(order@.no_duplicates()) by {
                            assert forall|a: int, b: int| 0 <= a < order@.len() && 0 <= b < order@.len() && a != b
                                implies order@[a] != order@[b] by {
                                if a < old_order.len() && b < old_order.len() {
                                } else if a == old_order.len() {
                                    assert(old_order[b] == order@[b]);
                                } else {
                                    assert(old_order[a] == order@[a]);
                                }
                            }
                        }
                        assert forall|k: int| 0 <= k < order@.len() implies (order@[k] as int) < self.size()
                            && !self.masked(ex, order@[k] as int) by {
                            if k < old_order.len() {
                                assert(order@[k] == old_order[k]);
                            }
                        }
                        assert forall|q: int, d: int| 0 <= q < order@.len() && 0 <= d < self.size()
                            && #[trigger] self.edge(include_soft, order@[q] as int, d) && !self.masked(ex, d)
                            implies order@.subrange(0, q).contains(d as usize) by {
                            if q < old_order.len() {
                                assert(order@[q] == old_order[q]);
                                assert(order@.subrange(0, q) =~= old_order.subrange(0, q));
                            } else {
                                assert(order@.subrange(0, q) =~= old_order);
                                assert(placed@[d] || d == w as int);
                                assert(d != w as int) by {
                                    if d == w as int {
                                        assert(self.hard_deps@[w as int]@.contains(w) || self.soft_deps@[w as int]@.contains(w));
                                    }
                                }
                            }
                        }
                        lemma_distinct_bounded(order@, n as int);
                    }
                },
            }
        }
        let mut v: usize = 0;
        while v < n
            invariant
                n == self.size(),
                v <= n,
                mask@.len() == n,
                placed@.len() == n,
                forall|u: int| 0 <= u < n ==> mask@[u] == self.masked(ex, u),
                ex == views(excluded@),
                self.order_within(ex, order@),
                self.respects_within(include_soft, ex, order@),
                self.stuck_within(include_soft, ex, order@),
                forall|u: int| 0 <= u < n ==> (#[trigger] placed@[u] <==> order@.contains(u as usize)),
                forall|u: int| 0 <= u < v && !self.masked(ex, u) ==> order@.contains(u as usize),
            decreases n - v,
        {
            if !mask[v] && !placed[v] {
                return (order, false);
            }
            v = v + 1;
        }
        (order, true)
    }

    /// A protocol that is neither excluded nor placed and waits on no such
    /// protocol, lowest-numbered first; none when every such protocol waits
    /// on another.
    fn find_ready(&self, include_soft: bool, mask: &Vec<bool>, placed: &Vec<bool>) -> (r: Option<usize>)
        requires
            mask@.len() == self.size(),
            placed@.len() == self.size(),
        ensures
            match r {
                Some(w) => (w as int) < self.size() && !mask@[w as int] && !placed@[w as int]
                    && forall|d: int| 0 <= d < self.size() && #[trigger] self.edge(include_soft, w as int, d) ==> mask@[d] || placed@[d],
                None => forall|u: int| 0 <= u < self.size() && !mask@[u] && !placed@[u] ==>
                    exists|d: int| 0 <= d < self.size() && #[trigger] self.edge(include_soft, u, d) && !mask@[d] && !placed@[d],
            },
    {
        proof { use_type_invariant(self); }
        let n = self.skill_names.len();
        let mut v: usize = 0;
        while v < n
            invariant
                n == self.size(),
                self.wf(),
                v <= n,
                mask@.len() == n,
                placed@.len() == n,
                forall|u: int| 0 <= u < v && !mask@[u] && !placed@[u] ==>
                    exists|d: int| 0 <= d < n && #[trigger] self.edge(include_soft, u, d) && !mask@[d] && !placed@[d],
            decreases n - v,
        {
            if !mask[v] && !placed[v] {
                proof {
                    assert(index_list(self.hard_deps@[v as int]@, n as int));
                    assert(index_list(self.soft_deps@[v as int]@, n as int));
                }
                let h = Self::deps_settled(&self.hard_deps[v], mask, placed);
                let s = if include_soft { Self::deps_settled(&self.soft_deps[v], mask, placed) } else { None };
                match (h, s) {
                    (None, None) => {
                        proof {
                            assert forall|d: int| 0 <= d < self.size() && #[trigger] self.edge(include_soft, v as int, d)
                                implies mask@[d] || placed@[d] by {
                                if self.hard(v as int, d) {
                                    let k = choose|k: int| 0 <= k < self.hard_deps@[v as int]@.len()
                                        && self.hard_deps@[v as int]@[k] == d as usize;
                                } else {
                                    let k = choose|k: int| 0 <= k < self.soft_deps@[v as int]@.len()
                                        && self.soft_deps@[v as int]@[k] == d as usize;
                                }
                            }
                        }
                        return Some(v);
                    },
                    (Some(d), _) => {
                        assert(self.hard(v as int, d as int));
                        assert(self.edge(include_soft, v as int, d as int));
                    },
                    (None, Some(d)) => {
                        assert(self.soft(v as int, d as int));
                        assert(self.edge(include_soft, v as int, d as int));
                    },
                }
            }
            v = v + 1;
        }
        None
    }

    /// A list of distinct protocols as long as the graph holds every protocol.
    proof fn lemma_full_covers_all(&self, order: Seq<usize>, w: usize)
        requires
            order.no_duplicates(),
            forall|k: int| 0 <= k < order.len() ==> (order[k] as int) < self.size(),
            order.len() == self.size(),
            (w as int) < self.size(),
        ensures
            order.contains(w),
    {
        assert(self.is_full_order(order));
        self.lemma_full_order_covers(order, w);
    }

    /// The protocols placed outside the excluded set followed by the excluded
    /// ones are distinct, and hold exactly the protocols of either list.
    proof fn lemma_join_layout(&self, ex: Seq<Seq<char>>, hard: Seq<usize>, masked: Seq<usize>)
        requires
            self.order_within(ex, hard),
            masked.no_duplicates(),
            forall|k: int| 0 <= k < masked.len() ==> (masked[k] as int) < self.size() && self.masked(ex, masked[k] as int),
        ensures
            (hard + masked).no_duplicates(),
            forall|k: int| 0 <= k < (hard + masked).len() ==> ((hard + masked)[k] as int) < self.size(),
            forall|u: usize| #[trigger] (hard + masked).contains(u) <==> (hard.contains(u) || masked.contains(u)),
    {
        let po = hard + masked;
        assert forall|a: int, b: int| 0 <= a < po.len() && 0 <= b < po.len() && a != b implies po[a] != po[b] by {
            if a < hard.len() && b < hard.len() {
            } else if a >= hard.len() && b >= hard.len() {
                assert(masked[a - hard.len()] == po[a]);
                assert(masked[b - hard.len()] == po[b]);
            } else if a < hard.len() {
                assert(!self.masked(ex, po[a] as int));
                assert(self.masked(ex, masked[b - hard.len()] as int));
            } else {
                assert(!self.masked(ex, po[b] as int));
                assert(self.masked(ex, masked[a - hard.len()] as int));
            }
        }
        assert forall|m: int| 0 <= m < po.len() implies (po[m] as int) < self.size() by {
            if m >= hard.len() {
                assert(po[m] == masked[m - hard.len()]);
            }
        }
        assert forall|u: usize| #[trigger] po.contains(u) <==> (hard.contains(u) || masked.contains(u)) by {
            if po.contains(u) {
                let m = choose|m: int| 0 <= m < po.len() && po[m] == u;
                if m >= hard.len() {
                    assert(masked[m - hard.len()] == u);
                }
            }
            if hard.contains(u) {
                let m = choose|m: int| 0 <= m < hard.len() && hard[m] == u;
                assert(po[m] == u);
            }
            if masked.contains(u) {
                let m = choose|m: int| 0 <= m < masked.len() && masked[m] == u;
                assert(po[hard.len() + m] == u);
            }
        }
    }

    /// The protocols placed by hard edges outside the excluded set, followed
    /// by the excluded ones, leave out a protocol, and each protocol they
    /// leave out depends by a hard edge on another one left out.
    proof fn lemma_join_stuck(&self, ex: Seq<Seq<char>>, hard: Seq<usize>, masked: Seq<usize>)
        requires
            self.order_within(ex, hard),
            self.stuck_within(false, ex, hard),
            !self.covers_within(ex, hard),
            masked.no_duplicates(),
            forall|k: int| 0 <= k < masked.len() ==> (masked[k] as int) < self.size() && self.masked(ex, masked[k] as int),
            forall|v: int| 0 <= v < self.size() && self.masked(ex, v) ==> masked.contains(v as usize),
        ensures
            (hard + masked).no_duplicates(),
            forall|k: int| 0 <= k < (hard + masked).len() ==> ((hard + masked)[k] as int) < self.size(),
            (hard + masked).len() < self.size(),
            forall|v: int| 0 <= v < self.size() && !(hard + masked).contains(v as usize) ==>
                #[trigger] self.waits_on_unplaced(false, hard + masked, v),
            forall|v: int| 0 <= v < self.size() && self.masked(ex, v) ==> (hard + masked).contains(v as usize),
    {
        let po = hard + masked;
        assert(self.size() <= usize::MAX) by {
            assert(self.size() == self.skill_names.len());
        }
        self.lemma_join_layout(ex, hard, masked);
        let u0 = choose|u: int| 0 <= u < self.size() && !self.masked(ex, u) && !hard.contains(u as usize);
        if masked.contains(u0 as usize) {
            let k = choose|k: int| 0 <= k < masked.len() && masked[k] == u0 as usize;
            assert(self.masked(ex, masked[k] as int));
        }
        assert(!po.contains(u0 as usize));
        lemma_distinct_bounded(po, self.size());
        if po.len() >= self.size() {
            assert(self.is_full_order(po));
            self.lemma_full_order_covers(po, u0 as usize);
        }
        assert forall|w: int| 0 <= w < self.size() && !po.contains(w as usize) implies
            #[trigger] self.waits_on_unplaced(false, po, w) by {
            assert(!masked.contains(w as usize));
            assert(!self.masked(ex, w));
            assert(!hard.contains(w as usize));
            let d = choose|d: int| 0 <= d < self.size() && #[trigger] self.edge(false, w, d) && !self.masked(ex, d)
                && !hard.contains(d as usize);
            if masked.contains(d as usize) {
                let k = choose|k: int| 0 <= k < masked.len() && masked[k] == d as usize;
                assert(self.masked(ex, masked[k] as int));
            }
            assert(!po.contains(d as usize));
            assert(self.edge(false, w, d) && 0 <= d < self.size() && !po.contains(d as usize));
        }
        assert forall|v: int| 0 <= v < self.size() && self.masked(ex, v) implies po.contains(v as usize) by {
            assert(masked.contains(v as usize));
        }
    }
}

impl DependencyGraph {
    /// The protocol indices, in increasing order, whose names `excluded`
    /// holds.
    fn masked_indices(&self, excluded: &Vec<String>) -> (r: Vec<usize>)
        ensures
            r@.no_duplicates(),
            forall|k: int| 0 <= k < r@.len() ==> (r@[k] as int) < self.size() && self.masked(views(excluded@), r@[k] as int),
            forall|v: int| 0 <= v < self.size() && self.masked(views(excluded@), v) ==> r@.contains(v as usize),
    {
        let n = self.skill_names.len();
        let mut r: Vec<usize> = Vec::new();
        let mut v: usize = 0;
        while v < n
            invariant
                n == self.size(),
                v <= n,
                forall|a: int, b: int| 0 <= a < b < r@.len() ==> r@[a] < r@[b],
                forall|k: int| 0 <= k < r@.len() ==> (r@[k] as int) < v && self.masked(views(excluded@), r@[k] as int),
                forall|u: int| 0 <= u < v && self.masked(views(excluded@), u) ==> r@.contains(u as usize),
            decreases n - v,
        {
            if contains_str(excluded, self.skill_names[v].as_str()) {
                let ghost before = r@;
                r.push(v);
                proof {
                    assert forall|u: int| 0 <= u < v + 1 && self.masked(views(excluded@), u) implies r@.contains(u as usize) by {
                        if u < v {
                            let k = choose|k: int| 0 <= k < before.len() && before[k] == u as usize;
                            assert(r@[k] == u as usize);
                        } else {
                            assert(r@[before.len() as int] == v);
                        }
                    }
                }
            }
            v = v + 1;
        }
        r
    }

    /// The protocols whose names `excluded` does not hold, in an order
    /// where each comes after the protocols it depends on that are not
    /// excluded (soft edges too when such an order exists, else hard edges
    /// only); a cycle of hard edges among them when there is no such order.
    #[verifier::rlimit(100)]
    pub fn topological_order_filtered(&self, excluded: &Vec<String>) -> (r: Result<Vec<String>, CycleError>)
        ensures
            self.soft_orderable(views(excluded@)) ==> r is Ok,
            match r {
                Ok(names) => exists|ord: Seq<usize>| #[trigger] self.order_within(views(excluded@), ord)
                    && self.covers_within(views(excluded@), ord) && self.respects_within(false, views(excluded@), ord)
                    && (self.soft_orderable(views(excluded@)) ==> self.respects_within(true, views(excluded@), ord))
                    && names@.len() == ord.len() && forall|k: int| 0 <= k < ord.len() ==> #[trigger] names@[k]@ == self.name(ord[k] as int),
                Err(e) => exists|cyc: Seq<usize>| #[trigger] self.is_hard_cycle_within(views(excluded@), cyc)
                    && e.path@.len() == cyc.len() && forall|k: int| 0 <= k < cyc.len() ==> #[trigger] e.path@[k]@ == self.name(cyc[k] as int),
            },
    {
        let ghost ex = views(excluded@);
        let (combined, complete) = self.place_within(true, excluded);
        if complete {
            proof { self.lemma_soft_order_respects_hard(ex, combined@); }
            return Ok(self.names_at(&combined));
        }
        let (hard, complete) = self.place_within(false, excluded);
        proof {
            if self.soft_orderable(ex) {
                let ord = choose|ord: Seq<usize>| #[trigger] self.order_within(ex, ord) && self.covers_within(ex, ord)
                    && self.respects_within(true, ex, ord);
                self.law_stuck_placement_is_complete(true, ex, ord, combined@);
            }
        }
        if complete {
            return Ok(self.names_at(&hard));
        }
        Err(self.cycle_outside(excluded, &hard))
    }

    /// A cycle of hard edges among the protocols that are not excluded, when
    /// placing them by hard edges left some out.
    #[verifier::rlimit(100)]
    fn cycle_outside(&self, excluded: &Vec<String>, hard: &Vec<usize>) -> (e: CycleError)
        requires
            self.order_within(views(excluded@), hard@),
            self.stuck_within(false, views(excluded@), hard@),
            !self.covers_within(views(excluded@), hard@),
        ensures
            exists|cyc: Seq<usize>| #[trigger] self.is_hard_cycle_within(views(excluded@), cyc)
                && e.path@.len() == cyc.len() && forall|k: int| 0 <= k < cyc.len() ==> #[trigger] e.path@[k]@ == self.name(cyc[k] as int),
    {
        proof { use_type_invariant(self); }
        let ghost ex = views(excluded@);
        let masked = self.masked_indices(excluded);
        let mut placed_order: Vec<usize> = Vec::new();
        let mut k: usize = 0;
        while k < hard.len()
            invariant
                k <= hard@.len(),
                placed_order@ == hard@.subrange(0, k as int),
            decreases hard@.len() - k,
        {
            placed_order.push(hard[k]);
            k = k + 1;
        }
        let mut k: usize = 0;
        while k < masked.len()
            invariant
                k <= masked@.len(),
                placed_order@ == hard@ + masked@.subrange(0, k as int),
            decreases masked@.len() - k,
        {
            placed_order.push(masked[k]);
            proof {
                assert(masked@.subrange(0, k + 1) =~= masked@.subrange(0, k as int).push(masked@[k as int]));
            }
            k = k + 1;
        }
        proof {
            assert(masked@.subrange(0, masked@.len() as int) =~= masked@);
            self.lemma_join_stuck(ex, hard@, masked@);
        }
        let e = self.extract_cycle(&placed_order);
        proof {
            let cyc = choose|cyc: Seq<usize>| #[trigger] self.is_hard_cycle(cyc) && e.path@.len() == cyc.len() && (forall|k: int|
                0 <= k < cyc.len() ==> #[trigger] e.path@[k]@ == self.name(cyc[k] as int))
                && forall|k: int| 0 <= k < cyc.len() ==> !placed_order@.contains(#[trigger] cyc[k]);
            assert forall|k: int| 0 <= k < cyc.len() implies !self.masked(ex, cyc[k] as int) by {
                assert(!placed_order@.contains(cyc[k]));
                if self.masked(ex, cyc[k] as int) {
                    assert((hard@ + masked@).contains(cyc[k]));
                }
            }
            assert(self.is_hard_cycle_within(ex, cyc));
        }
        e
    }

    /// An order that respects hard and soft edges respects the hard ones.
    proof fn lemma_soft_order_respects_hard(&self, ex: Seq<Seq<char>>, order: Seq<usize>)
        requires
            self.respects_within(true, ex, order),
        ensures
            self.respects_within(false, ex, order),
    {
        assert forall|p: int, d: int| 0 <= p < order.len() && 0 <= d < self.size()
            && #[trigger] self.edge(false, order[p] as int, d) && !self.masked(ex, d)
            implies order.subrange(0, p).contains(d as usize) by {
            assert(self.edge(true, order[p] as int, d));
        }
    }

    /// The protocols whose names `excluded` does not hold that can be
    /// ordered: each after the protocols it depends on by hard edges that are
    /// not excluded. Every such protocol left out depends on another one left
    /// out, so all are listed when no hard cycle remains among them.
    pub fn topological_order_excluding(&self, excluded: &Vec<String>) -> (r: Vec<String>)
        ensures
            exists|ord: Seq<usize>| #[trigger] self.order_within(views(excluded@), ord)
                && self.respects_within(false, views(excluded@), ord) && self.stuck_within(false, views(excluded@), ord)
                && r@.len() == ord.len() && forall|k: int| 0 <= k < ord.len() ==> #[trigger] r@[k]@ == self.name(ord[k] as int),
    {
        let (order, _) = self.place_within(false, excluded);
        self.names_at(&order)
    }
}

// ---------------------------------------------------------------------------
// Queries.
// ---------------------------------------------------------------------------

/// The entries of `reqs` that `available` does not hold, in order.
pub open spec fn missing_from(reqs: Seq<Seq<char>>, available: Seq<Seq<char>>) -> Seq<Seq<char>>
    decreases reqs.len(),
{
    if reqs.len() == 0 {
        Seq::empty()
    } else if available.contains(reqs.last()) {
        missing_from(reqs.drop_last(), available)
    } else {
        missing_from(reqs.drop_last(), available).push(reqs.last())
    }
}

/// The names of a list of `(name, missing)` entries.
pub open spec fn entry_names(r: Seq<(String, Vec<String>)>) -> Seq<Seq<char>> {
    r.map_values(|e: (String, Vec<String>)| e.0@)
}

impl DependencyGraph {
    /// The artifact types protocol `i` requires that `available` does not hold.
    pub open spec fn missing_of(&self, i: int, available: Seq<Seq<char>>) -> Seq<Seq<char>> {
        missing_from(self.requires_of(i), available)
    }

    /// Protocol `i` has a required artifact type that `available` does not hold.
    pub open spec fn is_blocked(&self, i: int, available: Seq<Seq<char>>) -> bool {
        self.missing_of(i, available).len() > 0
    }

    /// Some protocol named `name` is blocked, and `missing` is what it lacks.
    pub open spec fn blocked_entry(&self, available: Seq<Seq<char>>, name: Seq<char>, missing: Seq<Seq<char>>) -> bool {
        self.blocked_entry_below(available, self.size(), name, missing)
    }

    /// Some protocol below index `bound` named `name` is blocked, and
    /// `missing` is what it lacks.
    pub open spec fn blocked_entry_below(&self, available: Seq<Seq<char>>, bound: int, name: Seq<char>, missing: Seq<Seq<char>>) -> bool {
        exists|i: int|
            0 <= i < bound && #[trigger] self.name(i) == name && self.is_blocked(i, available)
                && missing == self.missing_of(i, available)
    }

    /// Some protocol named `name` is blocked.
    pub open spec fn blocked_name(&self, available: Seq<Seq<char>>, name: Seq<char>) -> bool {
        exists|i: int| 0 <= i < self.size() && #[trigger] self.name(i) == name && self.is_blocked(i, available)
    }

    /// Protocol names are distinct.
    proof fn lemma_names_distinct(&self, i: int, j: int)
        requires
            self.wf(),
            0 <= i < self.size(),
            0 <= j < self.size(),
            i != j,
        ensures
            self.name(i) != self.name(j),
    {
        if i > j {
            assert(self.skill_names@[j]@ != self.skill_names@[i]@);
        }
    }

    /// The index of the protocol with the given name.
    fn find_index(&self, skill_name: &str) -> (r: Option<usize>)
        ensures
            match r {
                Some(i) => (i as int) < self.size() && self.name(i as int) == skill_name@,
                None => forall|i: int| 0 <= i < self.size() ==> self.name(i) != skill_name@,
            },
    {
        let mut i: usize = 0;
        while i < self.skill_names.len()
            invariant
                i <= self.skill_names@.len(),
                forall|k: int| 0 <= k < i ==> self.name(k) != skill_name@,
            decreases self.skill_names@.len() - i,
        {
            if str_eq(self.skill_names[i].as_str(), skill_name) {
                return Some(i);
            }
            i = i + 1;
        }
        None
    }

    /// The names of the protocols the named protocol depends on by hard edges,
    /// in declaration order; empty for an unknown name.
    pub fn dependencies_of(&self, skill_name: &str) -> (r: Vec<String>)
        ensures
            forall|i: int| 0 <= i < self.size() && #[trigger] self.name(i) == skill_name@ ==> {
                &&& r@.len() == self.hard_deps_of(i).len()
                &&& forall|k: int| 0 <= k < r@.len() ==> #[trigger] r@[k]@ == self.name(self.hard_deps_of(i)[k] as int)
            },
            (forall|i: int| 0 <= i < self.size() ==> self.name(i) != skill_name@) ==> r@.len() == 0,
    {
        proof { use_type_invariant(self); }
        match self.find_index(skill_name) {
            Some(idx) => {
                proof {
                    assert(index_list(self.hard_deps@[idx as int]@, self.size()));
                    assert forall|i: int| 0 <= i < self.size() && #[trigger] self.name(i) == skill_name@ implies i == idx as int by {
                        if i != idx as int {
                            self.lemma_names_distinct(i, idx as int);
                        }
                    }
                }
                self.names_at(&self.hard_deps[idx])
            },
            None => Vec::new(),
        }
    }

    /// The names of the protocols that depend on the named protocol by hard
    /// edges, in declaration order; empty for an unknown name.
    pub fn dependents_of(&self, skill_name: &str) -> (r: Vec<String>)
        ensures
            forall|i: int| 0 <= i < self.size() && #[trigger] self.name(i) == skill_name@ ==> {
                &&& r@.len() == self.hard_dependents_of(i).len()
                &&& forall|k: int| 0 <= k < r@.len() ==> #[trigger] r@[k]@ == self.name(self.hard_dependents_of(i)[k] as int)
            },
            (forall|i: int| 0 <= i < self.size() ==> self.name(i) != skill_name@) ==> r@.len() == 0,
    {
        proof { use_type_invariant(self); }
        match self.find_index(skill_name) {
            Some(idx) => {
                proof {
                    assert(index_list(self.hard_dependents@[idx as int]@, self.size()));
                    assert forall|i: int| 0 <= i < self.size() && #[trigger] self.name(i) == skill_name@ implies i == idx as int by {
                        if i != idx as int {
                            self.lemma_names_distinct(i, idx as int);
                        }
                    }
                }
                self.names_at(&self.hard_dependents[idx])
            },
            None => Vec::new(),
        }
    }

    /// The required artifact types of protocol `i` that `available` does not hold.
    fn missing_requires(&self, i: usize, available: &Vec<String>) -> (r: Vec<String>)
        requires
            (i as int) < self.size(),
        ensures
            views(r@) == self.missing_of(i as int, views(available@)),
    {
        proof { use_type_invariant(self); }
        let reqs = &self.requires_per_skill[i];
        let ghost avail = views(available@);
        let mut out: Vec<String> = Vec::new();
        let mut k: usize = 0;
        while k < reqs.len()
            invariant
                k <= reqs@.len(),
                avail == views(available@),
                views(out@) == missing_from(views(reqs@.subrange(0, k as int)), avail),
            decreases reqs@.len() - k,
        {
            let ghost before = views(reqs@.subrange(0, k as int));
            let present = contains_str(available, reqs[k].as_str());
            let ghost after = views(reqs@.subrange(0, k + 1));
            assert(after.drop_last() =~= before);
            assert(after.last() == reqs@[k as int]@);
            if !present {
                out.push(reqs[k].clone());
                assert(views(out@) =~= missing_from(before, avail).push(reqs@[k as int]@));
            }
            k = k + 1;
        }
        assert(reqs@.subrange(0, reqs@.len() as int) =~= reqs@);
        out
    }

    /// Return `(name, missing artifact types)` for each protocol that has
    /// unmet `requires`: the required types `available` does not hold, in the
    /// order they are required. Results are sorted by protocol name.
    ///
    /// `accepts` never blocks a protocol.
    pub fn blocked_skills_with_reasons(&self, available: &Vec<String>) -> (r: Vec<(String, Vec<String>)>)
        ensures
            strictly_sorted(entry_names(r@)),
            forall|k: int| 0 <= k < r@.len() ==> #[trigger] self.blocked_entry(views(available@), r@[k].0@, views(r@[k].1@)),
            forall|i: int| 0 <= i < self.size() && #[trigger] self.is_blocked(i, views(available@)) ==>
                entry_names(r@).contains(self.name(i)),
    {
        proof { use_type_invariant(self); }
        let ghost avail = views(available@);
        let mut r: Vec<(String, Vec<String>)> = Vec::new();
        let mut idx: usize = 0;
        while idx < self.skill_names.len()
            invariant
                self.wf(),
                avail == views(available@),
                idx <= self.size(),
                strictly_sorted(entry_names(r@)),
                forall|k: int| 0 <= k < r@.len() ==> #[trigger] self.blocked_entry_below(avail, idx as int, r@[k].0@, views(r@[k].1@)),
                forall|i: int| 0 <= i < idx && #[trigger] self.is_blocked(i, avail) ==> entry_names(r@).contains(self.name(i)),
            decreases self.size() - idx,
        {
            let missing = self.missing_requires(idx, available);
            if missing.len() > 0 {
                let name = &self.skill_names[idx];
                let ghost x = name@;
                let ghost ks = entry_names(r@);
                // Position: after every entry whose name sorts before `name`.
                let mut p: usize = 0;
                while p < r.len() && !str_lt(name.as_str(), r[p].0.as_str())
                    invariant
                        p <= r@.len(),
                        x == name@,
                        ks == entry_names(r@),
                        forall|m: int| 0 <= m < p ==> !seq_lt(x, #[trigger] ks[m]),
                    decreases r@.len() - p,
                {
                    assert(ks[p as int] == r@[p as int].0@);
                    p = p + 1;
                }
                proof {
                    assert forall|m: int| 0 <= m < p implies seq_lt(#[trigger] ks[m], x) by {
                        assert(self.blocked_entry_below(avail, idx as int, r@[m].0@, views(r@[m].1@)));
                        let i = choose|i: int| 0 <= i < idx && #[trigger] self.name(i) == r@[m].0@ && self.is_blocked(i, avail)
                            && views(r@[m].1@) == self.missing_of(i, avail);
                        assert(ks[m] == r@[m].0@);
                        self.lemma_names_distinct(i, idx as int);
                        assert(!seq_lt(x, ks[m]));
                        lemma_seq_lt_total(ks[m], x);
                    }
                    if p < r@.len() {
                        assert(ks[p as int] == r@[p as int].0@);
                    }
                    lemma_insert_sorted(ks, p as int, x);
                }
                let ghost old_r = r@;
                r.insert(p, (name.clone(), missing));
                proof {
                    assert(entry_names(r@) =~= ks.insert(p as int, x));
                    assert forall|k: int| 0 <= k < r@.len() implies #[trigger] self.blocked_entry_below(avail, idx + 1, r@[k].0@, views(r@[k].1@)) by {
                        if k < p {
                            assert(r@[k] == old_r[k]);
                            assert(self.blocked_entry_below(avail, idx as int, old_r[k].0@, views(old_r[k].1@)));
                        } else if k == p {
                            assert(self.name(idx as int) == r@[k].0@);
                        } else {
                            assert(r@[k] == old_r[k - 1]);
                            assert(self.blocked_entry_below(avail, idx as int, old_r[k - 1].0@, views(old_r[k - 1].1@)));
                        }
                    }
                    assert forall|i: int| 0 <= i < idx + 1 && #[trigger] self.is_blocked(i, avail) implies entry_names(r@).contains(self.name(i)) by {
                        if i == idx as int {
                            assert(entry_names(r@)[p as int] == x);
                        } else {
                            assert(ks.contains(self.name(i)));
                            let m = choose|m: int| 0 <= m < ks.len() && ks[m] == self.name(i);
                            if m < p {
                                assert(entry_names(r@)[m] == ks[m]);
                            } else {
                                assert(entry_names(r@)[m + 1] == ks[m]);
                            }
                        }
                    }
                }
            } else {
                proof {
                    assert forall|k: int| 0 <= k < r@.len() implies #[trigger] self.blocked_entry_below(avail, idx + 1, r@[k].0@, views(r@[k].1@)) by {
                        assert(self.blocked_entry_below(avail, idx as int, r@[k].0@, views(r@[k].1@)));
                    }
                    assert forall|i: int| 0 <= i < idx + 1 && #[trigger] self.is_blocked(i, avail) implies entry_names(r@).contains(self.name(i)) by {
                        if i == idx as int {
                            assert(views(missing@).len() == 0);
                        }
                    }
                }
            }
            idx = idx + 1;
        }
        proof {
            assert forall|k: int| 0 <= k < r@.len() implies #[trigger] self.blocked_entry(avail, r@[k].0@, views(r@[k].1@)) by {
                assert(self.blocked_entry_below(avail, self.size(), r@[k].0@, views(r@[k].1@)));
            }
        }
        r
    }

    /// Return the names of the protocols whose `requires` are not all in
    /// `available`, sorted by name.
    pub fn blocked_skills(&self, available: &Vec<String>) -> (r: Vec<String>)
        ensures
            strictly_sorted(views(r@)),
            forall|k: int| 0 <= k < r@.len() ==> #[trigger] self.blocked_name(views(available@), r@[k]@),
            forall|i: int| 0 <= i < self.size() && #[trigger] self.is_blocked(i, views(available@)) ==>
                views(r@).contains(self.name(i)),
    {
        let entries = self.blocked_skills_with_reasons(available);
        let mut r: Vec<String> = Vec::new();
        let mut k: usize = 0;
        while k < entries.len()
            invariant
                k <= entries@.len(),
                r@.len() == k,
                forall|m: int| 0 <= m < k ==> #[trigger] r@[m]@ == entries@[m].0@,
            decreases entries@.len() - k,
        {
            r.push(entries[k].0.clone());
            k = k + 1;
        }
        proof {
            assert(views(r@) =~= entry_names(entries@));
            assert forall|k: int| 0 <= k < r@.len() implies #[trigger] self.blocked_name(views(available@), r@[k]@) by {
                assert(r@[k]@ == entries@[k].0@);
                assert(self.blocked_entry(views(available@), entries@[k].0@, views(entries@[k].1@)));
            }
        }
        r
    }
}

// ---------------------------------------------------------------------------
// Messages.
// ---------------------------------------------------------------------------

/// The message of a graph error.
pub open spec fn graph_error_message(e: GraphError) -> Seq<char> {
    match e {
        GraphError::DuplicateSkill(name) => "duplicate skill name '"@ + name@ + "'"@,
        GraphError::ConflictingProducers { artifact_type, first, second } =>
            "artifact type '"@ + artifact_type@ + "' is produced by both '"@ + first@ + "' and '"@ + second@ + "'"@,
    }
}

impl GraphError {
    /// Renders the error as text (the error's `Display` form).
    pub fn to_display_string(&self) -> (r: String)
        ensures
            r@ == graph_error_message(*self),
    {
        let mut out = String::new();
        match self {
            GraphError::DuplicateSkill(name) => {
                push_str(&mut out, "duplicate skill name '");
                push_str(&mut out, name.as_str());
                push_str(&mut out, "'");
            },
            GraphError::ConflictingProducers { artifact_type, first, second } => {
                push_str(&mut out, "artifact type '");
                push_str(&mut out, artifact_type.as_str());
                push_str(&mut out, "' is produced by both '");
                push_str(&mut out, first.as_str());
                push_str(&mut out, "' and '");
                push_str(&mut out, second.as_str());
                push_str(&mut out, "'");
            },
        }
        assert(out@ =~= graph_error_message(*self));
        out
    }
}

impl CycleError {
    /// Renders the error as text (the error's `Display` form):
    /// `dependency cycle detected: ` and the path joined by ` -> `.
    pub fn to_display_string(&self) -> (r: String)
        ensures
            r@ == "dependency cycle detected: "@ + join(views(self.path@), " -> "@),
    {
        let mut out = owned("dependency cycle detected: ");
        let joined = crate::text::join_strings(&self.path, " -> ");
        push_str(&mut out, joined.as_str());
        out
    }
}

// ---------------------------------------------------------------------------
// Laws.
// ---------------------------------------------------------------------------

/// An artifact type is missing exactly when it is required and not available;
/// a protocol is blocked exactly when one of its required types is not available.
pub proof fn law_missing_is_required_and_unavailable(reqs: Seq<Seq<char>>, available: Seq<Seq<char>>)
    ensures
        forall|x: Seq<char>| #[trigger] missing_from(reqs, available).contains(x) <==> reqs.contains(x) && !available.contains(x),
        missing_from(reqs, available).len() > 0 <==> exists|x: Seq<char>| #[trigger] reqs.contains(x) && !available.contains(x),
    decreases reqs.len(),
{
    if reqs.len() > 0 {
        let init = reqs.drop_last();
        law_missing_is_required_and_unavailable(init, available);
        assert forall|x: Seq<char>| #[trigger] missing_from(reqs, available).contains(x) <==> reqs.contains(x) && !available.contains(x) by {
            if reqs.contains(x) && !available.contains(x) {
                let q = choose|q: int| 0 <= q < reqs.len() && reqs[q] == x;
                if q < reqs.len() - 1 {
                    assert(init[q] == x);
                    assert(init.contains(x));
                } else {
                    assert(missing_from(reqs, available) == missing_from(init, available).push(x));
                    assert(missing_from(reqs, available)[missing_from(init, available).len() as int] == x);
                }
            }
            if init.contains(x) {
                let q = choose|q: int| 0 <= q < init.len() && init[q] == x;
                assert(reqs[q] == x);
            }
            if !available.contains(reqs.last()) {
                let m = missing_from(init, available);
                if m.push(reqs.last()).contains(x) {
                    let q = choose|q: int| 0 <= q < m.len() + 1 && m.push(reqs.last())[q] == x;
                    if q < m.len() {
                        assert(m[q] == x);
                    } else {
                        assert(reqs[reqs.len() - 1] == x);
                    }
                }
                if m.contains(x) {
                    let q = choose|q: int| 0 <= q < m.len() && m[q] == x;
                    assert(m.push(reqs.last())[q] == x);
                }
            }
        }
        if missing_from(reqs, available).len() > 0 {
            let x = missing_from(reqs, available)[0];
            assert(missing_from(reqs, available).contains(x));
        }
        if exists|x: Seq<char>| #[trigger] reqs.contains(x) && !available.contains(x) {
            let x = choose|x: Seq<char>| #[trigger] reqs.contains(x) && !available.contains(x);
            assert(missing_from(reqs, available).contains(x));
        }
    }
}

/// A cycle of hard edges rules out every order of the protocols that puts
/// each after its hard dependencies, so `topological_order` reports an error
/// exactly when such a cycle exists.
pub proof fn law_hard_cycle_has_no_order(g: DependencyGraph, cyc: Seq<usize>)
    requires
        g.is_hard_cycle(cyc),
    ensures
        !g.acyclic(false),
{
    let s = cyc.to_set();
    lemma_cycle_waits_within(g, cyc, s);
    assert(s.contains(cyc[0]));
    g.lemma_waiting_set_not_acyclic(false, s, cyc[0]);
}

/// Every protocol of a cycle waits on the next one.
#[verifier::rlimit(50)]
proof fn lemma_cycle_waits_within(g: DependencyGraph, cyc: Seq<usize>, s: Set<usize>)
    requires
        g.is_hard_cycle(cyc),
        s == cyc.to_set(),
    ensures
        g.waits_within(false, s),
{
    assert forall|v: usize| #[trigger] s.contains(v) implies exists|d: usize| #[trigger] g.edge(false, v as int, d as int) && s.contains(d) by {
        assert(cyc.contains(v));
        let k = choose|k: int| 0 <= k < cyc.len() && cyc[k] == v;
        let next = if k < cyc.len() - 1 { k + 1 } else { 0 };
        if k < cyc.len() - 1 {
            assert(g.hard(cyc[k] as int, cyc[k + 1] as int));
        }
        assert(g.hard(v as int, cyc[next] as int));
        assert(cyc.contains(cyc[next]));
        assert(s.contains(cyc[next]));
        assert(g.edge(false, v as int, cyc[next] as int) && s.contains(cyc[next]));
    }
}

/// The names `blocked_skills` lists are, in the same order, the names of
/// the entries `blocked_skills_with_reasons` lists: each result is the
/// blocked protocols' names, sorted, without repeats.
pub proof fn law_blocked_names_agree(g: DependencyGraph, available: Seq<Seq<char>>, names: Seq<Seq<char>>,
    entries: Seq<(String, Vec<String>)>)
    requires
        strictly_sorted(entry_names(entries)),
        forall|k: int| 0 <= k < entries.len() ==> #[trigger] g.blocked_entry(available, entries[k].0@, views(entries[k].1@)),
        forall|i: int| 0 <= i < g.size() && #[trigger] g.is_blocked(i, available) ==> entry_names(entries).contains(g.name(i)),
        strictly_sorted(names),
        forall|k: int| 0 <= k < names.len() ==> #[trigger] g.blocked_name(available, names[k]),
        forall|i: int| 0 <= i < g.size() && #[trigger] g.is_blocked(i, available) ==> names.contains(g.name(i)),
    ensures
        names == entry_names(entries),
{
    let en = entry_names(entries);
    assert forall|t: Seq<char>| names.contains(t) <==> en.contains(t) by {
        if names.contains(t) {
            let k = choose|k: int| 0 <= k < names.len() && names[k] == t;
            assert(g.blocked_name(available, names[k]));
            let i = choose|i: int| 0 <= i < g.size() && #[trigger] g.name(i) == t && g.is_blocked(i, available);
            assert(en.contains(g.name(i)));
        }
        if en.contains(t) {
            let k = choose|k: int| 0 <= k < en.len() && en[k] == t;
            assert(en[k] == entries[k].0@);
            assert(g.blocked_entry(available, entries[k].0@, views(entries[k].1@)));
            let i = choose|i: int| 0 <= i < g.size() && #[trigger] g.name(i) == t && g.is_blocked(i, available)
                && views(entries[k].1@) == g.missing_of(i, available);
            assert(names.contains(g.name(i)));
        }
    }
    lemma_sorted_unique(names, en);
}

/// Protocol `i` lists `j` among its hard dependencies exactly when `j` lists
/// `i` among its hard dependents, and both hold exactly when `i` requires an
/// artifact type that `j` produces.
pub proof fn law_dependencies_mirror_dependents(g: DependencyGraph, ps: Seq<ProtocolDeclaration>, i: int, j: int)
    requires
        g.built_from(ps),
        0 <= i < ps.len(),
        0 <= j < ps.len(),
    ensures
        g.hard_deps_of(i).contains(j as usize) <==> hard_edge(ps, i, j),
        g.hard_dependents_of(j).contains(i as usize) <==> hard_edge(ps, i, j),
        !g.hard_deps_of(i).contains(i as usize),
{
    assert(ps.len() == g.size());
    assert(g.size() <= usize::MAX) by {
        assert(g.size() == g.skill_names.len());
    }
    lemma_exactly_contains(g.hard_deps_of(i), ps, 0, i, j);
    lemma_exactly_contains(g.hard_dependents_of(j), ps, 2, j, i);
    lemma_exactly_contains(g.hard_deps_of(i), ps, 0, i, i);
}

} // verus!
