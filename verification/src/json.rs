//! A plain JSON document model, held by the library wherever the runtime
//! reads JSON content (artifact instances, schemas and forge responses),
//! with its compact text form.
use vstd::prelude::*;

use crate::hash::{hex_char_lower, hex_digit_lower};
use crate::text::{push_char, push_str};

verus! {

/// A JSON value. Numbers keep the literal text that denotes them; object
/// members keep their order of appearance.
#[derive(Debug, PartialEq)]
pub enum JsonValue {
    Null,
    Bool(bool),
    Number(String),
    Str(String),
    Array(Vec<JsonValue>),
    Object(Vec<(String, JsonValue)>),
}

/// How a character appears inside a JSON string: quotes, backslashes and
/// control characters are escaped, every other character stands for itself.
pub open spec fn escape_char(c: char) -> Seq<char> {
    if c == '"' {
        seq!['\\', '"']
    } else if c == '\\' {
        seq!['\\', '\\']
    } else if c == '\n' {
        seq!['\\', 'n']
    } else if c == '\r' {
        seq!['\\', 'r']
    } else if c == '\t' {
        seq!['\\', 't']
    } else if (c as u32) == 0x08 {
        seq!['\\', 'b']
    } else if (c as u32) == 0x0C {
        seq!['\\', 'f']
    } else if (c as u32) < 0x20 {
        seq!['\\', 'u', '0', '0', hex_digit_lower(((c as u32) / 16) as u8), hex_digit_lower(((c as u32) % 16) as u8)]
    } else {
        seq![c]
    }
}

/// A JSON string literal with the given content.
pub open spec fn quoted(s: Seq<char>) -> Seq<char> {
    seq!['"'] + escaped(s) + seq!['"']
}

/// The escaped characters of a string's content.
pub open spec fn escaped(s: Seq<char>) -> Seq<char>
    decreases s.len(),
{
    if s.len() == 0 {
        Seq::empty()
    } else {
        escaped(s.drop_last()) + escape_char(s.last())
    }
}

/// The compact JSON text of a value, as `serde_json::to_string` writes it.
pub open spec fn json_text(v: JsonValue) -> Seq<char>
    decreases v,
{
    match v {
        JsonValue::Null => seq!['n', 'u', 'l', 'l'],
        JsonValue::Bool(b) => if b { seq!['t', 'r', 'u', 'e'] } else { seq!['f', 'a', 'l', 's', 'e'] },
        JsonValue::Number(n) => n@,
        JsonValue::Str(s) => quoted(s@),
        JsonValue::Array(items) => seq!['['] + items_text(items@) + seq![']'],
        JsonValue::Object(members) => seq!['{'] + members_text(members@) + seq!['}'],
    }
}

/// The texts of a list of values, separated by commas.
pub open spec fn items_text(items: Seq<JsonValue>) -> Seq<char>
    decreases items,
{
    if items.len() == 0 {
        Seq::empty()
    } else if items.len() == 1 {
        json_text(items[0])
    } else {
        items_text(items.drop_last()) + seq![','] + json_text(items.last())
    }
}

/// The texts of a list of members, `"key":value`, separated by commas.
pub open spec fn members_text(members: Seq<(String, JsonValue)>) -> Seq<char>
    decreases members,
{
    if members.len() == 0 {
        Seq::empty()
    } else if members.len() == 1 {
        quoted(members[0].0@) + seq![':'] + json_text(members[0].1)
    } else {
        members_text(members.drop_last()) + seq![','] + quoted(members.last().0@) + seq![':'] + json_text(members.last().1)
    }
}

fn push_escaped_char(out: &mut String, c: char)
    ensures
        final(out)@ == old(out)@ + escape_char(c),
{
    let u = c as u32;
    if c == '"' {
        push_char(out, '\\');
        push_char(out, '"');
    } else if c == '\\' {
        push_char(out, '\\');
        push_char(out, '\\');
    } else if c == '\n' {
        push_char(out, '\\');
        push_char(out, 'n');
    } else if c == '\r' {
        push_char(out, '\\');
        push_char(out, 'r');
    } else if c == '\t' {
        push_char(out, '\\');
        push_char(out, 't');
    } else if u == 0x08 {
        push_char(out, '\\');
        push_char(out, 'b');
    } else if u == 0x0C {
        push_char(out, '\\');
        push_char(out, 'f');
    } else if u < 0x20 {
        push_char(out, '\\');
        push_char(out, 'u');
        push_char(out, '0');
        push_char(out, '0');
        push_char(out, hex_char_lower((u / 16) as u8));
        push_char(out, hex_char_lower((u % 16) as u8));
    } else {
        push_char(out, c);
    }
    assert(out@ =~= old(out)@ + escape_char(c));
}

fn push_quoted(out: &mut String, s: &str)
    ensures
        final(out)@ == old(out)@ + quoted(s@),
{
    push_char(out, '"');
    let n = s.unicode_len();
    let ghost start = out@;
    let mut i: usize = 0;
    proof {
        assert(s@.take(0) =~= Seq::<char>::empty());
        assert(out@ =~= start + escaped(s@.take(0)));
    }
    while i < n
        invariant
            n == s@.len(),
            i <= n,
            out@ == start + escaped(s@.take(i as int)),
        decreases n - i,
    {
        let c = s.get_char(i);
        push_escaped_char(out, c);
        proof {
            let t = s@.take(i + 1);
            assert(t.drop_last() =~= s@.take(i as int));
            assert(t.last() == c);
        }
        i = i + 1;
    }
    proof {
        assert(s@.take(n as int) =~= s@);
    }
    push_char(out, '"');
    assert(out@ =~= old(out)@ + quoted(s@));
}

/// Appends the compact JSON text of a value.
pub fn write_json(out: &mut String, value: &JsonValue)
    ensures
        final(out)@ == old(out)@ + json_text(*value),
    decreases value,
{
    match value {
        JsonValue::Null => {
            push_str(out, "null");
            proof { reveal_strlit("null"); }
        },
        JsonValue::Bool(b) => {
            if *b {
                push_str(out, "true");
                proof { reveal_strlit("true"); }
            } else {
                push_str(out, "false");
                proof { reveal_strlit("false"); }
            }
        },
        JsonValue::Number(n) => push_str(out, n.as_str()),
        JsonValue::Str(s) => push_quoted(out, s.as_str()),
        JsonValue::Array(items) => {
            push_char(out, '[');
            write_items(out, items);
            push_char(out, ']');
        },
        JsonValue::Object(members) => {
            push_char(out, '{');
            write_members(out, members);
            push_char(out, '}');
        },
    }
    assert(out@ =~= old(out)@ + json_text(*value));
}

fn write_items(out: &mut String, items: &Vec<JsonValue>)
    ensures
        final(out)@ == old(out)@ + items_text(items@),
    decreases items,
{
    let ghost start = out@;
    let mut i: usize = 0;
    proof {
        assert(items@.take(0) =~= Seq::<JsonValue>::empty());
        assert(out@ =~= start + items_text(items@.take(0)));
    }
    while i < items.len()
        invariant
            i <= items@.len(),
            start == old(out)@,
            out@ == start + items_text(items@.take(i as int)),
        decreases items@.len() - i,
    {
        proof {
            assert(decreases_to!(items => items@));
            assert(decreases_to!(items@ => items@[i as int]));
        }
        let ghost before = out@;
        if i > 0 {
            push_char(out, ',');
        }
        write_json(out, &items[i]);
        proof {
            let t = items@.take(i + 1);
            assert(t.drop_last() =~= items@.take(i as int));
            assert(t.last() == items@[i as int]);
            if i == 0 {
                assert(t.len() == 1 && t[0] == items@[0]);
                assert(items_text(items@.take(0)) =~= Seq::<char>::empty());
            }
            assert(out@ =~= start + items_text(t));
        }
        i = i + 1;
    }
    proof {
        assert(items@.take(items@.len() as int) =~= items@);
    }
}

fn write_members(out: &mut String, members: &Vec<(String, JsonValue)>)
    ensures
        final(out)@ == old(out)@ + members_text(members@),
    decreases members,
{
    let ghost start = out@;
    let mut i: usize = 0;
    proof {
        assert(members@.take(0) =~= Seq::<(String, JsonValue)>::empty());
        assert(out@ =~= start + members_text(members@.take(0)));
    }
    while i < members.len()
        invariant
            i <= members@.len(),
            start == old(out)@,
            out@ == start + members_text(members@.take(i as int)),
        decreases members@.len() - i,
    {
        proof {
            assert(decreases_to!(members => members@));
            assert(decreases_to!(members@ => members@[i as int]));
            assert(decreases_to!(members@[i as int] => members@[i as int].1));
        }
        if i > 0 {
            push_char(out, ',');
        }
        push_quoted(out, members[i].0.as_str());
        push_char(out, ':');
        write_json(out, &members[i].1);
        proof {
            let t = members@.take(i + 1);
            assert(t.drop_last() =~= members@.take(i as int));
            assert(t.last() == members@[i as int]);
            if i == 0 {
                assert(t.len() == 1 && t[0] == members@[0]);
                assert(members_text(members@.take(0)) =~= Seq::<char>::empty());
            }
            assert(out@ =~= start + members_text(t));
        }
        i = i + 1;
    }
    proof {
        assert(members@.take(members@.len() as int) =~= members@);
    }
}

/// The compact JSON text of a value.
pub fn to_json_string(value: &JsonValue) -> (r: String)
    ensures
        r@ == json_text(*value),
{
    let mut out = String::new();
    write_json(&mut out, value);
    out
}


// ---------------------------------------------------------------------------
// Canonical text: object members sorted by key, at every level.
// ---------------------------------------------------------------------------

/// `order` with member position `j` inserted after every position whose key
/// does not sort after `j`'s key (a stable insertion).
pub open spec fn insert_by_key(ms: Seq<(String, JsonValue)>, order: Seq<int>, j: int) -> Seq<int>
    decreases order.len(),
{
    if order.len() == 0 {
        seq![j]
    } else if crate::text::seq_lt(ms[j].0@, ms[order.last()].0@) {
        insert_by_key(ms, order.drop_last(), j).push(order.last())
    } else {
        order.push(j)
    }
}

/// The positions of the members of first `n` members in stable key order.
pub open spec fn key_order(ms: Seq<(String, JsonValue)>, n: int) -> Seq<int>
    decreases n,
{
    if n <= 0 {
        Seq::empty()
    } else {
        insert_by_key(ms, key_order(ms, n - 1), n - 1)
    }
}

/// The canonical JSON text of a value: compact, with every object's members
/// in key order.
pub open spec fn canonical_text(v: JsonValue) -> Seq<char>
    decreases v,
{
    match v {
        JsonValue::Array(items) => seq!['['] + canonical_items(items@) + seq![']'],
        JsonValue::Object(members) => seq!['{'] + canonical_members(members@, key_order(members@, members@.len() as int), 0) + seq!['}'],
        _ => json_text(v),
    }
}

/// The canonical texts of a list of values, separated by commas.
pub open spec fn canonical_items(items: Seq<JsonValue>) -> Seq<char>
    decreases items,
{
    if items.len() == 0 {
        Seq::empty()
    } else if items.len() == 1 {
        canonical_text(items[0])
    } else {
        canonical_items(items.drop_last()) + seq![','] + canonical_text(items.last())
    }
}

/// The canonical texts of the members at positions `order[k..]`, separated
/// by commas.
pub open spec fn canonical_members(ms: Seq<(String, JsonValue)>, order: Seq<int>, k: int) -> Seq<char>
    decreases ms, order.len() - k,
{
    if k < 0 || k >= order.len() {
        Seq::empty()
    } else {
        let j = order[k];
        let head = if 0 <= j < ms.len() { quoted(ms[j].0@) + seq![':'] + canonical_text(ms[j].1) } else { Seq::empty() };
        let sep = if k + 1 < order.len() { seq![','] } else { Seq::empty() };
        head + sep + canonical_members(ms, order, k + 1)
    }
}

proof fn lemma_insert_by_key(ms: Seq<(String, JsonValue)>, order: Seq<int>, j: int, p: int)
    requires
        0 <= p <= order.len(),
        forall|k: int| p <= k < order.len() ==> crate::text::seq_lt(ms[j].0@, #[trigger] ms[order[k]].0@),
        p > 0 ==> !crate::text::seq_lt(ms[j].0@, ms[order[p - 1]].0@),
    ensures
        insert_by_key(ms, order, j) == order.take(p).push(j) + order.skip(p),
    decreases order.len(),
{
    if order.len() == 0 {
        assert(order.take(p).push(j) + order.skip(p) =~= seq![j]);
    } else if p == order.len() {
        assert(order.take(p) =~= order);
        assert(order.take(p).push(j) + order.skip(p) =~= order.push(j));
    } else {
        let o = order.drop_last();
        assert forall|k: int| p <= k < o.len() implies crate::text::seq_lt(ms[j].0@, #[trigger] ms[o[k]].0@) by {
            assert(o[k] == order[k]);
        }
        if p > 0 {
            assert(o[p - 1] == order[p - 1]);
        }
        assert(crate::text::seq_lt(ms[j].0@, ms[order[order.len() - 1]].0@));
        lemma_insert_by_key(ms, o, j, p);
        assert(o.take(p).push(j) + o.skip(p) + seq![order.last()] =~= order.take(p).push(j) + order.skip(p));
    }
}

proof fn lemma_key_order_indices(ms: Seq<(String, JsonValue)>, n: int)
    requires
        0 <= n,
    ensures
        key_order(ms, n).len() == n,
        forall|k: int| 0 <= k < n ==> 0 <= #[trigger] key_order(ms, n)[k] < n,
    decreases n,
{
    if n > 0 {
        lemma_key_order_indices(ms, n - 1);
        lemma_insert_by_key_indices(ms, key_order(ms, n - 1), n - 1, n);
    }
}

proof fn lemma_insert_by_key_indices(ms: Seq<(String, JsonValue)>, order: Seq<int>, j: int, bound: int)
    requires
        0 <= j < bound,
        forall|k: int| 0 <= k < order.len() ==> 0 <= #[trigger] order[k] < bound,
    ensures
        insert_by_key(ms, order, j).len() == order.len() + 1,
        forall|k: int| 0 <= k < insert_by_key(ms, order, j).len() ==> 0 <= #[trigger] insert_by_key(ms, order, j)[k] < bound,
    decreases order.len(),
{
    if order.len() > 0 && crate::text::seq_lt(ms[j].0@, ms[order.last()].0@) {
        let o = order.drop_last();
        assert forall|k: int| 0 <= k < o.len() implies 0 <= #[trigger] o[k] < bound by {
            assert(o[k] == order[k]);
        }
        lemma_insert_by_key_indices(ms, o, j, bound);
        let r = insert_by_key(ms, order, j);
        let r0 = insert_by_key(ms, o, j);
        assert forall|k: int| 0 <= k < r.len() implies 0 <= #[trigger] r[k] < bound by {
            if k < r0.len() {
                assert(r[k] == r0[k]);
            }
        }
    } else if order.len() > 0 {
        let r = insert_by_key(ms, order, j);
        assert forall|k: int| 0 <= k < r.len() implies 0 <= #[trigger] r[k] < bound by {
            if k < order.len() {
                assert(r[k] == order[k]);
            }
        }
    }
}

fn key_order_exec(members: &Vec<(String, JsonValue)>) -> (r: Vec<usize>)
    ensures
        r@.len() == members@.len(),
        r@.map_values(|i: usize| i as int) == key_order(members@, members@.len() as int),
        forall|k: int| 0 <= k < r@.len() ==> (#[trigger] r@[k]) < members@.len(),
{
    let ghost ms = members@;
    let mut order: Vec<usize> = Vec::new();
    let mut i: usize = 0;
    proof {
        assert(order@.map_values(|i: usize| i as int) =~= key_order(ms, 0));
    }
    while i < members.len()
        invariant
            ms == members@,
            i <= ms.len(),
            order@.len() == i,
            order@.map_values(|i: usize| i as int) == key_order(ms, i as int),
            forall|k: int| 0 <= k < order@.len() ==> (#[trigger] order@[k]) < i,
        decreases ms.len() - i,
    {
        let ghost o = key_order(ms, i as int);
        let mut p: usize = i;
        while p > 0 && crate::text::str_lt(members[i].0.as_str(), members[order[p - 1]].0.as_str())
            invariant
                ms == members@,
                i < ms.len(),
                p <= order@.len(),
                order@.len() == i,
                o == order@.map_values(|i: usize| i as int),
                forall|k: int| 0 <= k < order@.len() ==> (#[trigger] order@[k]) < i,
                forall|k: int| p <= k < o.len() ==> crate::text::seq_lt(ms[i as int].0@, #[trigger] ms[o[k]].0@),
            decreases p,
        {
            assert(o[p - 1] == order@[p - 1] as int);
            p = p - 1;
        }
        proof {
            if p > 0 {
                assert(o[p - 1] == order@[p - 1] as int);
            }
            lemma_insert_by_key(ms, o, i as int, p as int);
        }
        let ghost before = order@;
        order.insert(p, i);
        proof {
            assert(order@.map_values(|i: usize| i as int) =~= o.take(p as int).push(i as int) + o.skip(p as int));
            assert forall|k: int| 0 <= k < order@.len() implies (#[trigger] order@[k]) < i + 1 by {
                if k < p {
                    assert(order@[k] == before[k]);
                } else if k > p {
                    assert(order@[k] == before[k - 1]);
                }
            }
        }
        i = i + 1;
    }
    order
}

/// Appends the canonical JSON text of a value.
pub fn write_canonical(out: &mut String, value: &JsonValue)
    ensures
        final(out)@ == old(out)@ + canonical_text(*value),
    decreases value,
{
    match value {
        JsonValue::Array(items) => {
            push_char(out, '[');
            write_canonical_items(out, items);
            push_char(out, ']');
            assert(out@ =~= old(out)@ + canonical_text(*value));
        },
        JsonValue::Object(members) => {
            push_char(out, '{');
            let order = key_order_exec(members);
            write_canonical_members(out, members, &order);
            push_char(out, '}');
            assert(out@ =~= old(out)@ + canonical_text(*value));
        },
        _ => {
            write_json(out, value);
            assert(canonical_text(*value) == json_text(*value));
        },
    }
}

fn write_canonical_items(out: &mut String, items: &Vec<JsonValue>)
    ensures
        final(out)@ == old(out)@ + canonical_items(items@),
    decreases items,
{
    let ghost start = out@;
    let mut i: usize = 0;
    proof {
        assert(items@.take(0) =~= Seq::<JsonValue>::empty());
        assert(out@ =~= start + canonical_items(items@.take(0)));
    }
    while i < items.len()
        invariant
            i <= items@.len(),
            start == old(out)@,
            out@ == start + canonical_items(items@.take(i as int)),
        decreases items@.len() - i,
    {
        proof {
            assert(decreases_to!(items => items@));
            assert(decreases_to!(items@ => items@[i as int]));
        }
        if i > 0 {
            push_char(out, ',');
        }
        write_canonical(out, &items[i]);
        proof {
            let t = items@.take(i + 1);
            assert(t.drop_last() =~= items@.take(i as int));
            assert(t.last() == items@[i as int]);
            if i == 0 {
                assert(t.len() == 1 && t[0] == items@[0]);
                assert(canonical_items(items@.take(0)) =~= Seq::<char>::empty());
            }
            assert(out@ =~= start + canonical_items(t));
        }
        i = i + 1;
    }
    proof {
        assert(items@.take(items@.len() as int) =~= items@);
    }
}

fn write_canonical_members(out: &mut String, members: &Vec<(String, JsonValue)>, order: &Vec<usize>)
    requires
        order@.len() == members@.len(),
        forall|k: int| 0 <= k < order@.len() ==> (#[trigger] order@[k]) < members@.len(),
    ensures
        final(out)@ == old(out)@ + canonical_members(members@, order@.map_values(|i: usize| i as int), 0),
    decreases members,
{
    let ghost ms = members@;
    let ghost ord = order@.map_values(|i: usize| i as int);
    let ghost start = out@;
    let mut k: usize = 0;
    proof {
        assert(start + canonical_members(ms, ord, 0) == out@ + canonical_members(ms, ord, 0));
    }
    while k < order.len()
        invariant
            ms == members@,
            ord == order@.map_values(|i: usize| i as int),
            order@.len() == ms.len(),
            forall|q: int| 0 <= q < order@.len() ==> (#[trigger] order@[q]) < ms.len(),
            k <= order@.len(),
            start == old(out)@,
            start + canonical_members(ms, ord, 0) == out@ + canonical_members(ms, ord, k as int),
        decreases order@.len() - k,
    {
        let j = order[k];
        let ghost before = out@;
        proof {
            assert(ord[k as int] == j as int);
            assert(decreases_to!(members => members@));
            assert(decreases_to!(members@ => members@[j as int]));
            assert(decreases_to!(members@[j as int] => members@[j as int].1));
        }
        push_quoted(out, members[j].0.as_str());
        push_char(out, ':');
        write_canonical(out, &members[j].1);
        if k + 1 < order.len() {
            push_char(out, ',');
        }
        proof {
            let head = quoted(ms[j as int].0@) + seq![':'] + canonical_text(ms[j as int].1);
            let sep: Seq<char> = if k + 1 < ord.len() { seq![','] } else { Seq::empty() };
            assert(canonical_members(ms, ord, k as int) == head + sep + canonical_members(ms, ord, k + 1));
            assert(out@ =~= before + head + sep);
        }
        k = k + 1;
    }
    proof {
        assert(canonical_members(ms, ord, order@.len() as int) =~= Seq::<char>::empty());
    }
}

/// The canonical JSON text of a value.
pub fn canonical_json(value: &JsonValue) -> (r: String)
    ensures
        r@ == canonical_text(*value),
{
    let mut out = String::new();
    write_canonical(&mut out, value);
    out
}


/// The value of the first member named `key` of an object.
pub open spec fn json_get(v: JsonValue, key: Seq<char>) -> Option<JsonValue> {
    match v {
        JsonValue::Object(members) => member_get(members@, key),
        _ => None,
    }
}

/// The value of the first member named `key`.
pub open spec fn member_get(ms: Seq<(String, JsonValue)>, key: Seq<char>) -> Option<JsonValue>
    decreases ms.len(),
{
    if ms.len() == 0 {
        None
    } else if ms[0].0@ == key {
        Some(ms[0].1)
    } else {
        member_get(ms.drop_first(), key)
    }
}

/// The value of the first member named `key` of an object.
pub fn get<'a>(value: &'a JsonValue, key: &str) -> (r: Option<&'a JsonValue>)
    ensures
        match r {
            Some(v) => json_get(*value, key@) == Some(*v),
            None => json_get(*value, key@) is None,
        },
{
    match value {
        JsonValue::Object(members) => {
            let ghost ms = members@;
            let mut i: usize = 0;
            assert(ms.skip(0) =~= ms);
            while i < members.len()
                invariant
                    ms == members@,
                    json_get(*value, key@) == member_get(ms, key@),
                    i <= ms.len(),
                    member_get(ms, key@) == member_get(ms.skip(i as int), key@),
                decreases ms.len() - i,
            {
                proof {
                    assert(ms.skip(i as int)[0] == ms[i as int]);
                    assert(ms.skip(i as int).drop_first() =~= ms.skip(i + 1));
                }
                if crate::text::str_eq(members[i].0.as_str(), key) {
                    assert(member_get(ms.skip(i as int), key@) == Some(ms[i as int].1));
                    return Some(&members[i].1);
                }
                i = i + 1;
            }
            assert(ms.skip(ms.len() as int) =~= Seq::<(String, JsonValue)>::empty());
            None
        },
        _ => None,
    }
}

} // verus!
