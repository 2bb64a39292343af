//! Agent-facing context injection and prompt rendering.
//!
//! [`build_context`] gathers the valid inputs of a ready protocol from the
//! store; [`render_context_prompt`] turns the context, with the content of
//! each input as the caller read it, into prose.
use vstd::prelude::*;

use crate::json::JsonValue;
use crate::model::ProtocolDeclaration;
use crate::store::{ArtifactState, ArtifactStore, ValidationStatus, opt_str, pair_ids};
use crate::text::{decimal, join, join_strings, owned, push_char, push_decimal, push_str, views};

verus! {

/// Whether an input is a hard dependency (`Requires`) or an optional input
/// (`Accepts`) of the protocol being invoked.
#[derive(Debug, Clone, Copy, PartialEq, Eq, Structural)]
pub enum ArtifactRelationship {
    Requires,
    Accepts,
}

/// A valid artifact instance available to the agent, with the path to
/// reopen its content.
#[derive(Debug, Clone, PartialEq)]
pub struct ArtifactRef {
    pub artifact_type: String,
    pub instance_id: String,
    pub path: String,
    pub display_path: String,
    pub content_hash: String,
    pub relationship: ArtifactRelationship,
}

/// The shareable form of an [`ArtifactRef`]: it shows `display_path` and
/// leaves out the internal path.
#[derive(Debug, Clone, PartialEq)]
pub struct ArtifactRefView {
    pub artifact_type: String,
    pub instance_id: String,
    pub display_path: String,
    pub content_hash: String,
    pub relationship: ArtifactRelationship,
}

/// The artifact types the agent is expected to produce.
#[derive(Debug, Clone, PartialEq)]
pub struct ExpectedOutputs {
    /// Types that must be delivered; postconditions fail if missing.
    pub produces: Vec<String>,
    /// Types that may be delivered; validated if present.
    pub may_produce: Vec<String>,
}

/// The complete agent-facing context of one protocol invocation.
#[derive(Debug, Clone, PartialEq)]
pub struct ContextInjection {
    pub protocol: String,
    pub work_unit: Option<String>,
    pub instructions: String,
    pub inputs: Vec<ArtifactRef>,
    pub expected_outputs: ExpectedOutputs,
}

/// The shareable form of a [`ContextInjection`], with [`ArtifactRefView`]
/// inputs.
#[derive(Debug, Clone, PartialEq)]
pub struct ContextInjectionView {
    pub protocol: String,
    pub work_unit: Option<String>,
    pub instructions: String,
    pub inputs: Vec<ArtifactRefView>,
    pub expected_outputs: ExpectedOutputs,
}

/// The view of an optional owned string.
pub open spec fn opt_view(s: Option<String>) -> Option<Seq<char>> {
    match s {
        Some(v) => Some(v@),
        None => None,
    }
}

fn clone_opt(s: &Option<String>) -> (r: Option<String>)
    ensures
        opt_view(r) == opt_view(*s),
{
    match s {
        Some(v) => Some(v.clone()),
        None => None,
    }
}

impl ArtifactRef {
    /// The shareable form of the reference.
    pub fn to_view(&self) -> (r: ArtifactRefView)
        ensures
            r.artifact_type@ == self.artifact_type@,
            r.instance_id@ == self.instance_id@,
            r.display_path@ == self.display_path@,
            r.content_hash@ == self.content_hash@,
            r.relationship == self.relationship,
    {
        ArtifactRefView {
            artifact_type: self.artifact_type.clone(),
            instance_id: self.instance_id.clone(),
            display_path: self.display_path.clone(),
            content_hash: self.content_hash.clone(),
            relationship: self.relationship,
        }
    }
}

impl ContextInjection {
    /// The shareable form of the context.
    pub fn to_view(&self) -> (r: ContextInjectionView)
        ensures
            r.protocol@ == self.protocol@,
            opt_view(r.work_unit) == opt_view(self.work_unit),
            r.instructions@ == self.instructions@,
            r.inputs@.len() == self.inputs@.len(),
            forall|k: int| 0 <= k < r.inputs@.len() ==> {
                let v = #[trigger] r.inputs@[k];
                let a = self.inputs@[k];
                &&& v.artifact_type@ == a.artifact_type@
                &&& v.instance_id@ == a.instance_id@
                &&& v.display_path@ == a.display_path@
                &&& v.content_hash@ == a.content_hash@
                &&& v.relationship == a.relationship
            },
            views(r.expected_outputs.produces@) == views(self.expected_outputs.produces@),
            views(r.expected_outputs.may_produce@) == views(self.expected_outputs.may_produce@),
    {
        let mut inputs: Vec<ArtifactRefView> = Vec::new();
        let mut i: usize = 0;
        while i < self.inputs.len()
            invariant
                i <= self.inputs@.len(),
                inputs@.len() == i,
                forall|k: int| 0 <= k < i ==> {
                    let v = #[trigger] inputs@[k];
                    let a = self.inputs@[k];
                    &&& v.artifact_type@ == a.artifact_type@
                    &&& v.instance_id@ == a.instance_id@
                    &&& v.display_path@ == a.display_path@
                    &&& v.content_hash@ == a.content_hash@
                    &&& v.relationship == a.relationship
                },
            decreases self.inputs@.len() - i,
        {
            inputs.push(self.inputs[i].to_view());
            i = i + 1;
        }
        ContextInjectionView {
            protocol: self.protocol.clone(),
            work_unit: clone_opt(&self.work_unit),
            instructions: self.instructions.clone(),
            inputs,
            expected_outputs: ExpectedOutputs {
                produces: crate::text::clone_strings(&self.expected_outputs.produces),
                may_produce: crate::text::clone_strings(&self.expected_outputs.may_produce),
            },
        }
    }
}

// ---------------------------------------------------------------------------
// Building the context.
// ---------------------------------------------------------------------------

/// `r` is a reference to instance `id` of type `t` with its recorded state.
pub open spec fn ref_of(r: ArtifactRef, t: Seq<char>, id: Seq<char>, st: ArtifactState, rel: ArtifactRelationship) -> bool {
    &&& r.artifact_type@ == t
    &&& r.instance_id@ == id
    &&& r.path@ == st.path@
    &&& r.display_path@ == st.path@
    &&& r.content_hash@ == st.content_hash@
    &&& r.relationship == rel
}

/// The ids of the valid instances of `t` in scope of `wu`, in increasing
/// order.
pub open spec fn valid_ids(store: ArtifactStore, t: Seq<char>, wu: Option<Seq<char>>, ids: Seq<Seq<char>>) -> bool {
    &&& forall|a: int, b: int| 0 <= a < b < ids.len() ==> crate::text::seq_lt(#[trigger] ids[a], #[trigger] ids[b])
    &&& forall|id: Seq<char>| ids.contains(id) <==> (store.matching(t, wu, id) && store@[(t, id)].status is Valid)
}

/// `refs` are, type by type in the order of `types`, the references to the
/// valid instances of each type in scope of `wu`, by increasing id.
pub open spec fn refs_for(store: ArtifactStore, wu: Option<Seq<char>>, types: Seq<Seq<char>>, rel: ArtifactRelationship, refs: Seq<ArtifactRef>) -> bool
    decreases types.len(),
{
    if types.len() == 0 {
        refs.len() == 0
    } else {
        let t = types.last();
        exists|n: int, ids: Seq<Seq<char>>| #![trigger valid_ids(store, t, wu, ids), refs.subrange(0, n)]
            0 <= n <= refs.len() && refs.len() - n == ids.len()
            && valid_ids(store, t, wu, ids)
            && refs_for(store, wu, types.drop_last(), rel, refs.subrange(0, n))
            && forall|k: int| 0 <= k < ids.len() ==> ref_of(#[trigger] refs[n + k], t, ids[k], store@[(t, ids[k])], rel)
    }
}

fn collect_inputs(target: &mut Vec<ArtifactRef>, store: &ArtifactStore, artifact_types: &Vec<String>, relationship: ArtifactRelationship, work_unit: Option<&str>)
    ensures
        final(target)@.subrange(0, old(target)@.len() as int) == old(target)@,
        old(target)@.len() <= final(target)@.len(),
        refs_for(*store, opt_str(work_unit), views(artifact_types@), relationship,
            final(target)@.subrange(old(target)@.len() as int, final(target)@.len() as int)),
{
    let ghost start = target@;
    let ghost wu = opt_str(work_unit);
    let mut i: usize = 0;
    proof {
        assert(target@.subrange(start.len() as int, target@.len() as int) =~= Seq::<ArtifactRef>::empty());
        assert(views(artifact_types@).take(0) =~= Seq::<Seq<char>>::empty());
    }
    while i < artifact_types.len()
        invariant
            i <= artifact_types@.len(),
            wu == opt_str(work_unit),
            start.len() <= target@.len(),
            target@.subrange(0, start.len() as int) == start,
            refs_for(*store, wu, views(artifact_types@).take(i as int), relationship, target@.subrange(start.len() as int, target@.len() as int)),
        decreases artifact_types@.len() - i,
    {
        let t = artifact_types[i].as_str();
        let instances = store.instances_of(t, work_unit);
        let ghost mid = target@;
        let ghost ids_all = pair_ids(instances@);
        let ghost mut ids: Seq<Seq<char>> = Seq::empty();
        let mut j: usize = 0;
        while j < instances.len()
            invariant
                j <= instances@.len(),
                wu == opt_str(work_unit),
                start.len() <= mid.len(),
                mid.subrange(0, start.len() as int) == start,
                mid.len() <= target@.len(),
                target@.subrange(0, mid.len() as int) == mid,
                target@.len() - mid.len() == ids.len(),
                forall|a: int, b: int| 0 <= a < b < instances@.len() ==> crate::text::seq_lt(#[trigger] instances@[a].0@, #[trigger] instances@[b].0@),
                forall|k: int| 0 <= k < instances@.len() ==> #[trigger] store.matching(t@, wu, instances@[k].0@)
                    && *instances@[k].1 == store@[(t@, instances@[k].0@)],
                forall|k: int| 0 <= k < ids.len() ==> ref_of(#[trigger] target@[mid.len() + k], t@, ids[k], store@[(t@, ids[k])], relationship),
                forall|a: int, b: int| 0 <= a < b < ids.len() ==> crate::text::seq_lt(#[trigger] ids[a], #[trigger] ids[b]),
                forall|id: Seq<char>| ids.contains(id) <==> exists|k: int| 0 <= k < j && #[trigger] instances@[k].0@ == id
                    && instances@[k].1.status is Valid,
                forall|k: int| #![trigger ids[k]] 0 <= k < ids.len() ==> exists|m: int| 0 <= m < j && #[trigger] instances@[m].0@ == ids[k],
            decreases instances@.len() - j,
        {
            let (instance_id, state) = instances[j];
            match state.status {
                ValidationStatus::Valid => {
                    let r = ArtifactRef {
                        artifact_type: owned(t),
                        instance_id: owned(instance_id),
                        path: state.path.clone(),
                        display_path: state.path.clone(),
                        content_hash: state.content_hash.clone(),
                        relationship,
                    };
                    let ghost before = target@;
                    proof {
                        assert(store.matching(t@, wu, instances@[j as int].0@));
                        assert(*state == store@[(t@, instance_id@)]);
                        assert(ref_of(r, t@, instance_id@, store@[(t@, instance_id@)], relationship));
                    }
                    target.push(r);
                    proof {
                        let old_ids = ids;
                        assert(target@[(mid.len() + old_ids.len()) as int] == r);
                        ids = ids.push(instance_id@);
                        assert(target@.subrange(0, mid.len() as int) =~= before.subrange(0, mid.len() as int));
                        assert forall|k: int| 0 <= k < ids.len() implies ref_of(#[trigger] target@[mid.len() + k], t@, ids[k], store@[(t@, ids[k])], relationship) by {
                            if k < old_ids.len() {
                                assert(target@[mid.len() + k] == before[mid.len() + k]);
                            }
                        }
                        assert forall|a: int, b: int| 0 <= a < b < ids.len() implies crate::text::seq_lt(#[trigger] ids[a], #[trigger] ids[b]) by {
                            if b == ids.len() - 1 && a < b {
                                let m = choose|m: int| 0 <= m < j && #[trigger] instances@[m].0@ == old_ids[a];
                                assert(crate::text::seq_lt(instances@[m].0@, instances@[j as int].0@));
                            }
                        }
                        assert forall|id: Seq<char>| ids.contains(id) <==> exists|k: int| 0 <= k < j + 1 && #[trigger] instances@[k].0@ == id
                            && instances@[k].1.status is Valid by {
                            if ids.contains(id) {
                                let q = choose|q: int| 0 <= q < ids.len() && ids[q] == id;
                                if q < old_ids.len() {
                                    assert(old_ids.contains(id));
                                } else {
                                    assert(instances@[j as int].0@ == id);
                                }
                            }
                            if exists|k: int| 0 <= k < j + 1 && #[trigger] instances@[k].0@ == id && instances@[k].1.status is Valid {
                                let k = choose|k: int| 0 <= k < j + 1 && #[trigger] instances@[k].0@ == id && instances@[k].1.status is Valid;
                                if k < j {
                                    assert(old_ids.contains(id));
                                    let q = choose|q: int| 0 <= q < old_ids.len() && old_ids[q] == id;
                                    assert(ids[q] == id);
                                } else {
                                    assert(ids[old_ids.len() as int] == id);
                                }
                            }
                        }
                        assert forall|k: int| #![trigger ids[k]] 0 <= k < ids.len() implies exists|m: int| 0 <= m < j + 1 && #[trigger] instances@[m].0@ == ids[k] by {
                            if k == old_ids.len() {
                                assert(instances@[j as int].0@ == ids[k]);
                            } else {
                                let m = choose|m: int| 0 <= m < j && #[trigger] instances@[m].0@ == old_ids[k];
                            }
                        }
                    }
                },
                _ => {
                    proof {
                        assert forall|id: Seq<char>| ids.contains(id) <==> exists|k: int| 0 <= k < j + 1 && #[trigger] instances@[k].0@ == id
                            && instances@[k].1.status is Valid by {
                            if exists|k: int| 0 <= k < j + 1 && #[trigger] instances@[k].0@ == id && instances@[k].1.status is Valid {
                                let k = choose|k: int| 0 <= k < j + 1 && #[trigger] instances@[k].0@ == id && instances@[k].1.status is Valid;
                                assert(k < j);
                            }
                        }
                    }
                },
            }
            j = j + 1;
        }
        proof {
            let tv = views(artifact_types@).take(i + 1);
            assert(tv.drop_last() =~= views(artifact_types@).take(i as int));
            assert(tv.last() == t@);
            assert(valid_ids(*store, t@, wu, ids)) by {
                assert forall|id: Seq<char>| ids.contains(id) <==> (store.matching(t@, wu, id) && store@[(t@, id)].status is Valid) by {
                    if store.matching(t@, wu, id) {
                        assert(pair_ids(instances@).contains(id));
                        let k = choose|k: int| 0 <= k < pair_ids(instances@).len() && pair_ids(instances@)[k] == id;
                        assert(instances@[k].0@ == id);
                    }
                    if ids.contains(id) {
                        let k = choose|k: int| 0 <= k < instances@.len() && #[trigger] instances@[k].0@ == id && instances@[k].1.status is Valid;
                        assert(store.matching(t@, wu, instances@[k].0@));
                    }
                }
            }
            let all = target@.subrange(start.len() as int, target@.len() as int);
            let n = mid.len() - start.len();
            assert(all.subrange(0, n) =~= mid.subrange(start.len() as int, mid.len() as int));
            assert forall|k: int| 0 <= k < ids.len() implies ref_of(#[trigger] all[n + k], t@, ids[k], store@[(t@, ids[k])], relationship) by {
                assert(all[n + k] == target@[mid.len() + k]);
            }
            assert(refs_for(*store, wu, tv, relationship, all));
            assert(target@.subrange(0, start.len() as int) =~= mid.subrange(0, start.len() as int));
        }
        i = i + 1;
    }
    proof {
        assert(views(artifact_types@).take(artifact_types@.len() as int) =~= views(artifact_types@));
    }
}

/// `r` is the context of invoking `protocol` for `wu`: its name, work
/// unit and instructions, the valid required inputs then the valid accepted
/// ones in scope, and the expected outputs.
pub open spec fn context_holds(protocol: ProtocolDeclaration, store: ArtifactStore, wu: Option<Seq<char>>, r: ContextInjection) -> bool {
    &&& r.protocol@ == protocol.name@
    &&& opt_view(r.work_unit) == wu
    &&& r.instructions@ == match protocol.instructions {
        Some(s) => s@,
        None => Seq::empty(),
    }
    &&& exists|n: int| #![trigger r.inputs@.subrange(0, n)]
        0 <= n <= r.inputs@.len()
        && refs_for(store, wu, views(protocol.requires@), ArtifactRelationship::Requires, r.inputs@.subrange(0, n))
        && refs_for(store, wu, views(protocol.accepts@), ArtifactRelationship::Accepts, r.inputs@.subrange(n, r.inputs@.len() as int))
    &&& views(r.expected_outputs.produces@) == views(protocol.produces@)
    &&& views(r.expected_outputs.may_produce@) == views(protocol.may_produce@)
}

/// Build the agent-facing context of one protocol invocation: the valid
/// instances of its required types, then of its accepted types, each type
/// in declaration order and each type's instances by id, with the
/// protocol's instructions (empty when it has none) and expected outputs.
pub fn build_context(protocol: &ProtocolDeclaration, store: &ArtifactStore, work_unit: Option<&str>) -> (r: ContextInjection)
    ensures
        context_holds(*protocol, *store, opt_str(work_unit), r),
{
    let mut inputs: Vec<ArtifactRef> = Vec::new();
    collect_inputs(&mut inputs, store, &protocol.requires, ArtifactRelationship::Requires, work_unit);
    let ghost n = inputs@.len();
    let ghost first = inputs@;
    proof {
        assert(inputs@.subrange(0, inputs@.len() as int) =~= inputs@);
    }
    collect_inputs(&mut inputs, store, &protocol.accepts, ArtifactRelationship::Accepts, work_unit);
    let instructions = match &protocol.instructions {
        Some(s) => s.clone(),
        None => String::new(),
    };
    let wu = match work_unit {
        Some(w) => Some(owned(w)),
        None => None,
    };
    let r = ContextInjection {
        protocol: protocol.name.clone(),
        work_unit: wu,
        instructions,
        inputs,
        expected_outputs: ExpectedOutputs {
            produces: crate::text::clone_strings(&protocol.produces),
            may_produce: crate::text::clone_strings(&protocol.may_produce),
        },
    };
    proof {
        assert(r.inputs@.subrange(0, n as int) == first);
        assert(refs_for(*store, opt_str(work_unit), views(protocol.requires@), ArtifactRelationship::Requires, r.inputs@.subrange(0, n as int)));
    }
    r
}


// ---------------------------------------------------------------------------
// Prose rendering of JSON content.
// ---------------------------------------------------------------------------

/// The ASCII upper-case form of a lower-case letter.
pub open spec fn upper(c: char) -> char {
    ((c as int) - 32) as char
}

/// The character a key character shows as: `_` becomes a space.
pub open spec fn key_char(c: char) -> char {
    if c == '_' { ' ' } else { c }
}

/// A key as a label: underscores become spaces and a leading ASCII
/// lower-case letter is capitalised.
pub open spec fn humanize(key: Seq<char>) -> Seq<char> {
    Seq::new(key.len(), |i: int| if i == 0 && 'a' <= key_char(key[0]) <= 'z' { upper(key_char(key[0])) } else { key_char(key[i]) })
}

fn upper_ascii(c: char) -> (r: char)
    requires
        'a' <= c <= 'z',
    ensures
        r == upper(c),
{
    let b = c as u8;
    (b - 32) as char
}

/// The label of a JSON member key (`work_unit` becomes `Work unit`).
pub fn humanize_key(key: &str) -> (r: String)
    ensures
        r@ == humanize(key@),
{
    let n = key.unicode_len();
    let mut out = String::new();
    let mut i: usize = 0;
    while i < n
        invariant
            n == key@.len(),
            i <= n,
            out@ == humanize(key@).take(i as int),
        decreases n - i,
    {
        let c = key.get_char(i);
        let d = if c == '_' { ' ' } else { c };
        let e = if i == 0 && 'a' <= d && d <= 'z' { upper_ascii(d) } else { d };
        push_char(&mut out, e);
        proof {
            assert(humanize(key@).take(i + 1) =~= humanize(key@).take(i as int).push(e));
        }
        i = i + 1;
    }
    proof {
        assert(humanize(key@).take(n as int) =~= humanize(key@));
    }
    out
}

/// Two spaces per indentation level.
pub open spec fn indentation(n: nat) -> Seq<char> {
    Seq::new(2 * n, |i: int| ' ')
}

/// The inline text of a scalar JSON value.
pub open spec fn inline_text(v: JsonValue) -> Seq<char> {
    match v {
        JsonValue::Null => "null"@,
        JsonValue::Bool(b) => if b { "true"@ } else { "false"@ },
        JsonValue::Number(n) => n@,
        JsonValue::Str(s) => s@,
        _ => Seq::empty(),
    }
}

/// An object or an array.
pub open spec fn is_container(v: JsonValue) -> bool {
    v is Array || v is Object
}

/// How deeply containers nest in a value.
pub open spec fn json_depth(v: JsonValue) -> nat
    decreases v,
{
    match v {
        JsonValue::Array(items) => 1 + items_depth(items@),
        JsonValue::Object(members) => 1 + members_depth(members@),
        _ => 0,
    }
}

/// The deepest nesting among a list of values.
pub open spec fn items_depth(items: Seq<JsonValue>) -> nat
    decreases items,
{
    if items.len() == 0 {
        0
    } else {
        let d = json_depth(items.last());
        let rest = items_depth(items.drop_last());
        if d > rest { d } else { rest }
    }
}

/// The deepest nesting among the values of a list of members.
pub open spec fn members_depth(members: Seq<(String, JsonValue)>) -> nat
    decreases members,
{
    if members.len() == 0 {
        0
    } else {
        let d = json_depth(members.last().1);
        let rest = members_depth(members.drop_last());
        if d > rest { d } else { rest }
    }
}

proof fn lemma_items_depth(items: Seq<JsonValue>, k: int)
    requires
        0 <= k < items.len(),
    ensures
        json_depth(items[k]) <= items_depth(items),
    decreases items.len(),
{
    if k < items.len() - 1 {
        lemma_items_depth(items.drop_last(), k);
        assert(items.drop_last()[k] == items[k]);
    }
}

proof fn lemma_members_depth(members: Seq<(String, JsonValue)>, k: int)
    requires
        0 <= k < members.len(),
    ensures
        json_depth(members[k].1) <= members_depth(members),
    decreases members.len(),
{
    if k < members.len() - 1 {
        lemma_members_depth(members.drop_last(), k);
        assert(members.drop_last()[k] == members[k]);
    }
}

/// The prose of a JSON value at an indentation level: an object gives a
/// line per member, an array a numbered line per item, containers nested one
/// level deeper under their label; a scalar gives its inline text.
pub open spec fn prose(v: JsonValue, indent: nat) -> Seq<char>
    decreases v,
{
    match v {
        JsonValue::Object(members) => join(member_lines(members@, indent), "\n"@),
        JsonValue::Array(items) => join(item_lines(items@, indent), "\n"@),
        _ => indentation(indent) + inline_text(v),
    }
}

/// The lines of a list of object members.
pub open spec fn member_lines(members: Seq<(String, JsonValue)>, indent: nat) -> Seq<Seq<char>>
    decreases members,
{
    if members.len() == 0 {
        Seq::empty()
    } else {
        let (key, val) = members.last();
        let label = indentation(indent) + "**"@ + humanize(key@);
        member_lines(members.drop_last(), indent) + if is_container(val) {
            seq![label + ":**"@, prose(val, indent + 1)]
        } else {
            seq![label + ":** "@ + inline_text(val)]
        }
    }
}

/// The lines of a list of array items, numbered from one.
pub open spec fn item_lines(items: Seq<JsonValue>, indent: nat) -> Seq<Seq<char>>
    decreases items,
{
    if items.len() == 0 {
        Seq::empty()
    } else {
        let item = items.last();
        let num = indentation(indent) + decimal(items.len());
        item_lines(items.drop_last(), indent) + if is_container(item) {
            seq![num + "."@, prose(item, indent + 1)]
        } else {
            seq![num + ". "@ + inline_text(item)]
        }
    }
}

fn push_indentation(out: &mut String, indent: usize)
    ensures
        final(out)@ == old(out)@ + indentation(indent as nat),
{
    let mut i: usize = 0;
    while i < indent
        invariant
            i <= indent,
            out@ == old(out)@ + indentation(i as nat),
        decreases indent - i,
    {
        push_str(out, "  ");
        proof {
            assert(indentation((i + 1) as nat) =~= indentation(i as nat) + "  "@) by {
                reveal_strlit("  ");
            }
        }
        i = i + 1;
    }
}

fn push_inline(out: &mut String, value: &JsonValue)
    ensures
        final(out)@ == old(out)@ + inline_text(*value),
{
    match value {
        JsonValue::Null => push_str(out, "null"),
        JsonValue::Bool(b) => {
            if *b {
                push_str(out, "true");
            } else {
                push_str(out, "false");
            }
        },
        JsonValue::Number(n) => push_str(out, n.as_str()),
        JsonValue::Str(s) => push_str(out, s.as_str()),
        _ => {
            assert(inline_text(*value) =~= Seq::<char>::empty());
        },
    }
}

/// Convert a JSON value to human-readable prose.
pub fn json_to_prose(value: &JsonValue, indent: usize) -> (r: String)
    requires
        indent + json_depth(*value) <= usize::MAX,
    ensures
        r@ == prose(*value, indent as nat),
    decreases value,
{
    match value {
        JsonValue::Object(members) => {
            let lines = member_lines_exec(members, indent);
            join_strings(&lines, "\n")
        },
        JsonValue::Array(items) => {
            let lines = item_lines_exec(items, indent);
            join_strings(&lines, "\n")
        },
        _ => {
            let mut out = String::new();
            push_indentation(&mut out, indent);
            push_inline(&mut out, value);
            out
        },
    }
}

fn is_container_exec(v: &JsonValue) -> (r: bool)
    ensures
        r == is_container(*v),
{
    match v {
        JsonValue::Array(_) => true,
        JsonValue::Object(_) => true,
        _ => false,
    }
}

fn member_lines_exec(members: &Vec<(String, JsonValue)>, indent: usize) -> (r: Vec<String>)
    requires
        indent + 1 + members_depth(members@) <= usize::MAX,
    ensures
        views(r@) == member_lines(members@, indent as nat),
    decreases members,
{
    let mut lines: Vec<String> = Vec::new();
    let mut i: usize = 0;
    proof {
        assert(members@.take(0) =~= Seq::<(String, JsonValue)>::empty());
        assert(views(lines@) =~= Seq::<Seq<char>>::empty());
    }
    while i < members.len()
        invariant
            i <= members@.len(),
            indent + 1 + members_depth(members@) <= usize::MAX,
            views(lines@) == member_lines(members@.take(i as int), indent as nat),
        decreases members@.len() - i,
    {
        let ghost ms = members@.take(i + 1);
        proof {
            assert(ms.drop_last() =~= members@.take(i as int));
            assert(ms.last() == members@[i as int]);
            lemma_members_depth(members@, i as int);
            assert(decreases_to!(members => members@));
            assert(decreases_to!(members@ => members@[i as int]));
            assert(decreases_to!(members@[i as int] => members@[i as int].1));
        }
        let key = &members[i].0;
        let val = &members[i].1;
        let mut label = String::new();
        push_indentation(&mut label, indent);
        push_str(&mut label, "**");
        let h = humanize_key(key.as_str());
        push_str(&mut label, h.as_str());
        let ghost before = views(lines@);
        if is_container_exec(val) {
            push_str(&mut label, ":**");
            lines.push(label);
            let nested = json_to_prose(val, indent + 1);
            lines.push(nested);
            proof {
                assert(views(lines@) =~= before + seq![label@, nested@]);
            }
        } else {
            push_str(&mut label, ":** ");
            push_inline(&mut label, val);
            lines.push(label);
            proof {
                assert(views(lines@) =~= before + seq![label@]);
            }
        }
        i = i + 1;
    }
    proof {
        assert(members@.take(members@.len() as int) =~= members@);
    }
    lines
}

fn item_lines_exec(items: &Vec<JsonValue>, indent: usize) -> (r: Vec<String>)
    requires
        indent + 1 + items_depth(items@) <= usize::MAX,
    ensures
        views(r@) == item_lines(items@, indent as nat),
    decreases items,
{
    let mut lines: Vec<String> = Vec::new();
    let mut i: usize = 0;
    proof {
        assert(items@.take(0) =~= Seq::<JsonValue>::empty());
        assert(views(lines@) =~= Seq::<Seq<char>>::empty());
    }
    while i < items.len()
        invariant
            i <= items@.len(),
            indent + 1 + items_depth(items@) <= usize::MAX,
            views(lines@) == item_lines(items@.take(i as int), indent as nat),
        decreases items@.len() - i,
    {
        let ghost its = items@.take(i + 1);
        proof {
            assert(its.drop_last() =~= items@.take(i as int));
            assert(its.last() == items@[i as int]);
            lemma_items_depth(items@, i as int);
            assert(decreases_to!(items => items@));
            assert(decreases_to!(items@ => items@[i as int]));
        }
        let item = &items[i];
        let mut num = String::new();
        push_indentation(&mut num, indent);
        push_decimal(&mut num, (i + 1) as u64);
        let ghost before = views(lines@);
        if is_container_exec(item) {
            push_str(&mut num, ".");
            lines.push(num);
            let nested = json_to_prose(item, indent + 1);
            lines.push(nested);
            proof {
                assert(views(lines@) =~= before + seq![num@, nested@]);
            }
        } else {
            push_str(&mut num, ". ");
            push_inline(&mut num, item);
            lines.push(num);
            proof {
                assert(views(lines@) =~= before + seq![num@]);
            }
        }
        i = i + 1;
    }
    proof {
        assert(items@.take(items@.len() as int) =~= items@);
    }
    lines
}


// ---------------------------------------------------------------------------
// The prompt.
// ---------------------------------------------------------------------------

/// The content of an input as the caller read it from its path.
#[derive(Debug, PartialEq)]
pub enum ArtifactBody {
    /// The file parsed as JSON.
    Json(JsonValue),
    /// The file was read but is not valid JSON; the parser's message.
    Unparsable(String),
    /// The file could not be read; the error's message.
    Unreadable(String),
}

/// A JSON body nests shallowly enough to be indented.
pub open spec fn body_renderable(b: ArtifactBody) -> bool {
    b is Json ==> json_depth(b->Json_0) < usize::MAX
}

/// What an input's content adds under its heading.
pub open spec fn body_text(b: ArtifactBody) -> Seq<char> {
    match b {
        ArtifactBody::Json(v) => "\n"@ + prose(v, 0),
        ArtifactBody::Unparsable(e) => "\n(Could not parse artifact: "@ + e@ + ")"@,
        ArtifactBody::Unreadable(e) => "\n(Could not read artifact: "@ + e@ + ")"@,
    }
}

/// The section of one input: its type and id, then its content.
pub open spec fn input_text(a: ArtifactRef, b: ArtifactBody) -> Seq<char> {
    "\n### "@ + a.artifact_type@ + " — "@ + a.instance_id@ + body_text(b)
}

fn render_input(input: &ArtifactRef, body: &ArtifactBody) -> (r: String)
    requires
        body_renderable(*body),
    ensures
        r@ == input_text(*input, *body),
{
    let mut out = owned("\n### ");
    push_str(&mut out, input.artifact_type.as_str());
    push_str(&mut out, " — ");
    push_str(&mut out, input.instance_id.as_str());
    match body {
        ArtifactBody::Json(value) => {
            push_str(&mut out, "\n");
            let p = json_to_prose(value, 0);
            push_str(&mut out, p.as_str());
        },
        ArtifactBody::Unparsable(e) => {
            push_str(&mut out, "\n(Could not parse artifact: ");
            push_str(&mut out, e.as_str());
            push_str(&mut out, ")");
        },
        ArtifactBody::Unreadable(e) => {
            push_str(&mut out, "\n(Could not read artifact: ");
            push_str(&mut out, e.as_str());
            push_str(&mut out, ")");
        },
    }
    assert(out@ =~= input_text(*input, *body));
    out
}

/// The sections of the inputs with the given relationship, in order.
pub open spec fn inputs_text(inputs: Seq<ArtifactRef>, bodies: Seq<ArtifactBody>, rel: ArtifactRelationship) -> Seq<Seq<char>>
    decreases inputs.len(),
{
    if inputs.len() == 0 {
        Seq::empty()
    } else {
        let prev = inputs_text(inputs.drop_last(), bodies, rel);
        if inputs.last().relationship == rel {
            prev.push(input_text(inputs.last(), bodies[inputs.len() - 1]))
        } else {
            prev
        }
    }
}

/// The heading of the prompt.
pub open spec fn prompt_heading(ctx: ContextInjection) -> Seq<char> {
    match opt_view(ctx.work_unit) {
        Some(w) => "# Protocol: "@ + ctx.protocol@ + " (work_unit="@ + w + ")"@,
        None => "# Protocol: "@ + ctx.protocol@,
    }
}

/// A titled group of sections, or nothing when it has none.
pub open spec fn titled(title: Seq<char>, sections: Seq<Seq<char>>) -> Seq<Seq<char>> {
    if sections.len() == 0 {
        Seq::empty()
    } else {
        seq![title] + sections
    }
}

/// The sections of the prompt, in order: the heading; the instructions,
/// when there are any; the required inputs; the accepted inputs; what to
/// deliver; the tool guidance.
pub open spec fn prompt_sections(ctx: ContextInjection, bodies: Seq<ArtifactBody>) -> Seq<Seq<char>> {
    let instructions = if ctx.instructions@.len() == 0 {
        Seq::empty()
    } else {
        seq!["\n## Protocol instructions"@, ctx.instructions@]
    };
    let must = if ctx.expected_outputs.produces@.len() == 0 {
        Seq::empty()
    } else {
        seq!["\nYou must produce: "@ + join(views(ctx.expected_outputs.produces@), ", "@)]
    };
    let may = if ctx.expected_outputs.may_produce@.len() == 0 {
        Seq::empty()
    } else {
        seq!["You may also produce: "@ + join(views(ctx.expected_outputs.may_produce@), ", "@)]
    };
    seq![prompt_heading(ctx)] + instructions
        + titled("\n## What you've been given"@, inputs_text(ctx.inputs@, bodies, ArtifactRelationship::Requires))
        + titled("\n## Additional context"@, inputs_text(ctx.inputs@, bodies, ArtifactRelationship::Accepts))
        + seq!["\n## What you need to deliver"@] + must + may
        + seq!["\nTo deliver each required output, call the tool with the matching name and fill in the required fields."@]
}

fn push_section(sections: &mut Vec<String>, s: String)
    ensures
        views(final(sections)@) == views(old(sections)@).push(s@),
{
    let ghost before = sections@;
    sections.push(s);
    assert(views(sections@) =~= views(before).push(s@));
}

fn push_inputs(sections: &mut Vec<String>, context: &ContextInjection, bodies: &Vec<ArtifactBody>, rel: ArtifactRelationship, title: &str)
    requires
        bodies@.len() == context.inputs@.len(),
        forall|k: int| 0 <= k < bodies@.len() ==> body_renderable(#[trigger] bodies@[k]),
    ensures
        views(final(sections)@) == views(old(sections)@) + titled(title@, inputs_text(context.inputs@, bodies@, rel)),
{
    let ghost start = views(sections@);
    let mut rendered: Vec<String> = Vec::new();
    let mut i: usize = 0;
    proof {
        assert(context.inputs@.take(0) =~= Seq::<ArtifactRef>::empty());
        assert(views(rendered@) =~= Seq::<Seq<char>>::empty());
    }
    while i < context.inputs.len()
        invariant
            i <= context.inputs@.len(),
            bodies@.len() == context.inputs@.len(),
            forall|k: int| 0 <= k < bodies@.len() ==> body_renderable(#[trigger] bodies@[k]),
            views(rendered@) == inputs_text(context.inputs@.take(i as int), bodies@, rel),
        decreases context.inputs@.len() - i,
    {
        let ghost t = context.inputs@.take(i + 1);
        proof {
            assert(t.drop_last() =~= context.inputs@.take(i as int));
            assert(t.last() == context.inputs@[i as int]);
            assert(body_renderable(bodies@[i as int]));
        }
        if context.inputs[i].relationship == rel {
            let text = render_input(&context.inputs[i], &bodies[i]);
            push_section(&mut rendered, text);
        }
        i = i + 1;
    }
    proof {
        assert(context.inputs@.take(context.inputs@.len() as int) =~= context.inputs@);
    }
    if rendered.len() > 0 {
        push_section(sections, owned(title));
        let mut k: usize = 0;
        let ghost mid = views(sections@);
        while k < rendered.len()
            invariant
                k <= rendered@.len(),
                views(sections@) == mid + views(rendered@).take(k as int),
            decreases rendered@.len() - k,
        {
            let item = rendered[k].clone();
            push_section(sections, item);
            proof {
                assert(views(rendered@).take(k + 1) =~= views(rendered@).take(k as int).push(rendered@[k as int]@));
            }
            k = k + 1;
        }
        proof {
            assert(views(rendered@).take(rendered@.len() as int) =~= views(rendered@));
            assert(views(sections@) =~= views(old(sections)@) + titled(title@, inputs_text(context.inputs@, bodies@, rel)));
        }
    } else {
        assert(views(sections@) =~= views(old(sections)@) + titled(title@, inputs_text(context.inputs@, bodies@, rel)));
    }
}

/// Render the agent-facing context as prose.
///
/// `bodies` holds, for each input in order, its content as read from its
/// path: parsed JSON is rendered as prose, and a read or parse failure is
/// rendered inline in place of the content.
#[verifier::rlimit(40)]
pub fn render_context_prompt(context: &ContextInjection, bodies: &Vec<ArtifactBody>) -> (r: String)
    requires
        bodies@.len() == context.inputs@.len(),
        forall|k: int| 0 <= k < bodies@.len() ==> body_renderable(#[trigger] bodies@[k]),
    ensures
        r@ == join(prompt_sections(*context, bodies@), "\n"@),
{
    let mut sections: Vec<String> = Vec::new();
    let mut heading = owned("# Protocol: ");
    push_str(&mut heading, context.protocol.as_str());
    match &context.work_unit {
        Some(work_unit) => {
            push_str(&mut heading, " (work_unit=");
            push_str(&mut heading, work_unit.as_str());
            push_str(&mut heading, ")");
        },
        None => {},
    }
    assert(heading@ =~= prompt_heading(*context));
    push_section(&mut sections, heading);
    if context.instructions.unicode_len() > 0 {
        push_section(&mut sections, owned("\n## Protocol instructions"));
        push_section(&mut sections, context.instructions.clone());
    }
    push_inputs(&mut sections, context, bodies, ArtifactRelationship::Requires, "\n## What you've been given");
    push_inputs(&mut sections, context, bodies, ArtifactRelationship::Accepts, "\n## Additional context");
    push_section(&mut sections, owned("\n## What you need to deliver"));
    if context.expected_outputs.produces.len() > 0 {
        let mut line = owned("\nYou must produce: ");
        let list = join_strings(&context.expected_outputs.produces, ", ");
        push_str(&mut line, list.as_str());
        push_section(&mut sections, line);
    }
    if context.expected_outputs.may_produce.len() > 0 {
        let mut line = owned("You may also produce: ");
        let list = join_strings(&context.expected_outputs.may_produce, ", ");
        push_str(&mut line, list.as_str());
        push_section(&mut sections, line);
    }
    push_section(&mut sections, owned("\nTo deliver each required output, call the tool with the matching name and fill in the required fields."));
    assert(views(sections@) =~= prompt_sections(*context, bodies@));
    join_strings(&sections, "\n")
}

} // verus!
