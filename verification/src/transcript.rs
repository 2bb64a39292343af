//! Session transcript settings, event routing and redaction.
//!
//! Transcript capture is opt-in through `RUNA_TRANSCRIPT_DIR`. When enabled,
//! producers append JSON Lines events under the configured root, separated by
//! deployment, work unit and run. Reading the environment and writing the
//! events are the caller's part; this module decides what is written where.
use vstd::prelude::*;

use crate::hash::{content_hash_of, hex_char_upper, hex_digit_upper, raw_content_hash};
use crate::json::JsonValue;
use crate::forge_address::{ForgeProject, repository_selected};
use crate::project::{DeploymentConfig, TranscriptConfig};
use crate::store::opt_string_view;
use crate::text::{join, join_strings, owned, push_char, push_str, split_on, split_seq, str_eq, trim, trim_str, trimmed_nonempty,
    trimmed_nonempty_strings, views};

verus! {

/// Environment variable naming the transcript root directory.
pub const TRANSCRIPT_DIR_ENV: &'static str = "RUNA_TRANSCRIPT_DIR";
/// Environment variable listing the environment variables to redact.
pub const REDACT_ENV_ENV: &'static str = "RUNA_TRANSCRIPT_REDACT_ENV";
/// Environment variable naming the deployment.
pub const DEPLOYMENT_ENV: &'static str = "RUNA_TRANSCRIPT_DEPLOYMENT";
/// Environment variable naming the run.
pub const RUN_ID_ENV: &'static str = "RUNA_TRANSCRIPT_RUN_ID";
/// Name of the events file of a run.
pub const EVENTS_FILE_NAME: &'static str = "events.jsonl";
/// Work-unit path component of unscoped events.
pub const UNSCOPED_WORK_UNIT_COMPONENT: &'static str = "_unscoped";
/// Deployment of events whose deployment is unknown.
pub const UNKNOWN_DEPLOYMENT: &'static str = "unknown";

/// Resolved transcript settings. Paths are kept as text.
#[derive(Debug, Clone, PartialEq, Eq)]
pub struct TranscriptSettings {
    pub dir: Option<String>,
    pub redact_env: Vec<String>,
    pub deployment: Option<String>,
    pub run_id: Option<String>,
}

impl Default for TranscriptSettings {
    fn default() -> (r: TranscriptSettings)
        ensures
            r.dir is None,
            r.redact_env@.len() == 0,
            r.deployment is None,
            r.run_id is None,
    {
        TranscriptSettings { dir: None, redact_env: Vec::new(), deployment: None, run_id: None }
    }
}

/// Whether transcript capture is enabled: a transcript directory is set.
pub fn capture_enabled_with_settings(settings: &TranscriptSettings) -> (r: bool)
    ensures
        r == settings.dir is Some,
{
    settings.dir.is_some()
}

/// A non-empty optional string.
pub open spec fn present(s: Option<String>) -> bool {
    s is Some && s->0@.len() > 0
}

/// The environment a child process needs to keep writing to the same
/// transcript: the directory, the redacted variables (comma-joined) and,
/// when a directory is set, the non-empty deployment and run id.
pub open spec fn transcript_env_spec(settings: TranscriptSettings) -> Seq<(Seq<char>, Seq<char>)> {
    let dir_part = if settings.dir is Some {
        seq![(TRANSCRIPT_DIR_ENV@, settings.dir->0@)]
    } else {
        Seq::empty()
    };
    let redact_part = if settings.redact_env@.len() > 0 {
        seq![(REDACT_ENV_ENV@, join(views(settings.redact_env@), ","@))]
    } else {
        Seq::empty()
    };
    let deployment_part = if settings.dir is Some && present(settings.deployment) {
        seq![(DEPLOYMENT_ENV@, settings.deployment->0@)]
    } else {
        Seq::empty()
    };
    let run_part = if settings.dir is Some && present(settings.run_id) {
        seq![(RUN_ID_ENV@, settings.run_id->0@)]
    } else {
        Seq::empty()
    };
    dir_part + redact_part + deployment_part + run_part
}

/// Views of a list of string pairs.
pub open spec fn pair_views(v: Seq<(String, String)>) -> Seq<(Seq<char>, Seq<char>)> {
    v.map_values(|p: (String, String)| (p.0@, p.1@))
}

fn push_pair(env: &mut Vec<(String, String)>, name: &str, value: String)
    ensures
        pair_views(final(env)@) == pair_views(old(env)@).push((name@, value@)),
{
    env.push((owned(name), value));
    assert(pair_views(env@) =~= pair_views(old(env)@).push((name@, value@)));
}

/// The environment variables that carry these settings to a child process.
pub fn transcript_env_from_settings(settings: &TranscriptSettings) -> (r: Vec<(String, String)>)
    ensures
        pair_views(r@) == transcript_env_spec(*settings),
{
    let mut env: Vec<(String, String)> = Vec::new();
    let ghost mut expected: Seq<(Seq<char>, Seq<char>)> = Seq::empty();
    assert(pair_views(env@) =~= expected);
    if let Some(dir) = &settings.dir {
        push_pair(&mut env, TRANSCRIPT_DIR_ENV, dir.clone());
    }
    if settings.redact_env.len() > 0 {
        push_pair(&mut env, REDACT_ENV_ENV, join_strings(&settings.redact_env, ","));
    }
    if settings.dir.is_some() {
        if let Some(deployment) = &settings.deployment {
            if deployment.as_str().unicode_len() > 0 {
                push_pair(&mut env, DEPLOYMENT_ENV, deployment.clone());
            }
        }
        if let Some(run_id) = &settings.run_id {
            if run_id.as_str().unicode_len() > 0 {
                push_pair(&mut env, RUN_ID_ENV, run_id.clone());
            }
        }
    }
    assert(pair_views(env@) =~= transcript_env_spec(*settings));
    env
}

/// The settings with the run id replaced.
pub fn with_run_id(settings: &TranscriptSettings, run_id: String) -> (r: TranscriptSettings)
    ensures
        r.dir == settings.dir,
        r.redact_env@ == settings.redact_env@,
        r.deployment == settings.deployment,
        r.run_id == Some(run_id),
{
    TranscriptSettings {
        dir: clone_opt(&settings.dir),
        redact_env: clone_vec(&settings.redact_env),
        deployment: clone_opt(&settings.deployment),
        run_id: Some(run_id),
    }
}

fn clone_opt(s: &Option<String>) -> (r: Option<String>)
    ensures
        r == *s,
{
    match s {
        Some(v) => Some(v.clone()),
        None => None,
    }
}

fn clone_vec(v: &Vec<String>) -> (r: Vec<String>)
    ensures
        r@ == v@,
{
    let mut r: Vec<String> = Vec::new();
    let mut i: usize = 0;
    while i < v.len()
        invariant
            i <= v@.len(),
            r@ == v@.subrange(0, i as int),
        decreases v@.len() - i,
    {
        r.push(v[i].clone());
        assert(r@ =~= v@.subrange(0, i + 1));
        i = i + 1;
    }
    assert(r@ =~= v@);
    r
}

// ---------------------------------------------------------------------------
// Path components.
// ---------------------------------------------------------------------------

/// Bytes that stand for themselves in a path component.
pub open spec fn unreserved(b: u8) -> bool {
    (65 <= b <= 90) || (97 <= b <= 122) || (48 <= b <= 57) || b == 45 || b == 95 || b == 46
}

/// The encoding of one byte; dots are encoded too in a component of dots only.
pub open spec fn encode_byte(b: u8, only_dots: bool) -> Seq<char> {
    if b == 46 && only_dots {
        "%2E"@
    } else if unreserved(b) {
        seq![b as char]
    } else {
        seq!['%', hex_digit_upper(b / 16), hex_digit_upper(b % 16)]
    }
}

/// The encodings of a sequence of bytes, concatenated.
pub open spec fn encode_bytes(bs: Seq<u8>, only_dots: bool) -> Seq<char>
    decreases bs.len(),
{
    if bs.len() == 0 {
        Seq::empty()
    } else {
        encode_bytes(bs.drop_last(), only_dots) + encode_byte(bs.last(), only_dots)
    }
}

/// A path component that names `s` and cannot navigate: `_empty` for the
/// empty string; otherwise each UTF-8 byte outside `[A-Za-z0-9._-]` as `%XX`,
/// and a component of dots only entirely as `%2E`s.
pub open spec fn encoded_component(s: Seq<char>) -> Seq<char> {
    let bs = vstd::utf8::encode_utf8(s);
    if s.len() == 0 {
        "_empty"@
    } else {
        encode_bytes(bs, forall|i: int| 0 <= i < bs.len() ==> bs[i] == 46)
    }
}

/// Encode a value as a single path component.
pub fn encode_path_component(value: &str) -> (r: String)
    ensures
        r@ == encoded_component(value@),
{
    proof {
        reveal_strlit("_empty");
        reveal_strlit("%2E");
    }
    if value.unicode_len() == 0 {
        return owned("_empty");
    }
    let bytes = value.as_bytes();
    let n = bytes.len();
    let mut k: usize = 0;
    while k < n && bytes[k] == 46
        invariant
            n == bytes@.len(),
            k <= n,
            forall|i: int| 0 <= i < k ==> bytes@[i] == 46,
        decreases n - k,
    {
        k = k + 1;
    }
    let only_dots = k == n;
    let ghost od = forall|i: int| 0 <= i < bytes@.len() ==> bytes@[i] == 46;
    assert(only_dots == od);
    let mut out = String::new();
    let mut i: usize = 0;
    while i < n
        invariant
            n == bytes@.len(),
            i <= n,
            only_dots == od,
            out@ == encode_bytes(bytes@.subrange(0, i as int), od),
        decreases n - i,
    {
        let b = bytes[i];
        if b == 46 && only_dots {
            push_str(&mut out, "%2E");
        } else if (65 <= b && b <= 90) || (97 <= b && b <= 122) || (48 <= b && b <= 57) || b == 45 || b == 95 || b == 46 {
            push_char(&mut out, b as char);
        } else {
            push_char(&mut out, '%');
            push_char(&mut out, hex_char_upper(b / 16));
            push_char(&mut out, hex_char_upper(b % 16));
        }
        proof {
            let s1 = bytes@.subrange(0, i + 1);
            assert(s1.drop_last() =~= bytes@.subrange(0, i as int));
            assert(s1.last() == b);
            assert(out@ =~= encode_bytes(s1, od));
        }
        i = i + 1;
    }
    assert(bytes@.subrange(0, n as int) =~= bytes@);
    out
}

/// `base` joined with a relative path, as `Path::join` joins them.
pub open spec fn path_join(base: Seq<char>, rel: Seq<char>) -> Seq<char> {
    if base.len() == 0 {
        rel
    } else if base.last() == '/' {
        base + rel
    } else {
        base + "/"@ + rel
    }
}

fn push_path(base: &mut String, rel: &str)
    ensures
        final(base)@ == path_join(old(base)@, rel@),
{
    let n = base.as_str().unicode_len();
    if n == 0 {
        push_str(base, rel);
    } else if base.as_str().get_char(n - 1) == '/' {
        push_str(base, rel);
    } else {
        push_str(base, "/");
        push_str(base, rel);
    }
}

/// The events file of a run: `<root>/deployments/<deployment>/work-units/
/// <work unit or _unscoped>/runs/<run>/events.jsonl`, each variable part
/// encoded as one path component.
pub open spec fn event_path(root: Seq<char>, deployment: Seq<char>, work_unit: Seq<char>, run_id: Seq<char>) -> Seq<char> {
    path_join(root, "deployments/"@ + encoded_component(deployment) + "/work-units/"@ + encoded_component(work_unit)
        + "/runs/"@ + encoded_component(run_id) + "/"@ + EVENTS_FILE_NAME@)
}

/// The events file for the given deployment, work unit and run.
fn event_file_path_for(root: &str, deployment: &str, work_unit: Option<&str>, run_id: &str) -> (r: String)
    ensures
        r@ == event_path(root@, deployment@, match work_unit { Some(w) => w@, None => UNSCOPED_WORK_UNIT_COMPONENT@ }, run_id@),
{
    let wu = match work_unit {
        Some(w) => w,
        None => UNSCOPED_WORK_UNIT_COMPONENT,
    };
    let mut rel = owned("deployments/");
    push_str(&mut rel, encode_path_component(deployment).as_str());
    push_str(&mut rel, "/work-units/");
    push_str(&mut rel, encode_path_component(wu).as_str());
    push_str(&mut rel, "/runs/");
    push_str(&mut rel, encode_path_component(run_id).as_str());
    push_str(&mut rel, "/");
    push_str(&mut rel, EVENTS_FILE_NAME);
    let mut path = owned(root);
    push_path(&mut path, rel.as_str());
    path
}

/// The events file an event of `work_unit` goes to, when capture is enabled.
/// The deployment defaults to `unknown`; a missing or empty run id falls back
/// to `process_run_id`, the id of the current process's run.
pub fn event_file_path(settings: &TranscriptSettings, work_unit: Option<&str>, process_run_id: &str) -> (r: Option<String>)
    ensures
        match settings.dir {
            None => r is None,
            Some(dir) => r is Some && r->0@ == event_path(
                dir@,
                match settings.deployment { Some(d) => d@, None => UNKNOWN_DEPLOYMENT@ },
                match work_unit { Some(w) => w@, None => UNSCOPED_WORK_UNIT_COMPONENT@ },
                if present(settings.run_id) { settings.run_id->0@ } else { process_run_id@ },
            ),
        },
{
    let dir = match &settings.dir {
        Some(d) => d,
        None => {
            return None;
        },
    };
    let deployment = match &settings.deployment {
        Some(d) => d.as_str(),
        None => UNKNOWN_DEPLOYMENT,
    };
    let run_id = match &settings.run_id {
        Some(r) => {
            if r.as_str().unicode_len() > 0 {
                r.as_str()
            } else {
                process_run_id
            }
        },
        None => process_run_id,
    };
    Some(event_file_path_for(dir.as_str(), deployment, work_unit, run_id))
}

// ---------------------------------------------------------------------------
// Redaction.
// ---------------------------------------------------------------------------

/// `s` with every non-overlapping occurrence of `pat`, leftmost first,
/// replaced by `rep`, as `str::replace` does (an empty pattern matches
/// before every character and at the end).
pub open spec fn replace_all(s: Seq<char>, pat: Seq<char>, rep: Seq<char>) -> Seq<char>
    decreases s.len(),
{
    if pat.len() == 0 {
        if s.len() == 0 {
            rep
        } else {
            rep + seq![s[0]] + replace_all(s.drop_first(), pat, rep)
        }
    } else if s.len() == 0 {
        Seq::empty()
    } else if pat.len() <= s.len() && s.take(pat.len() as int) == pat {
        rep + replace_all(s.skip(pat.len() as int), pat, rep)
    } else {
        seq![s[0]] + replace_all(s.drop_first(), pat, rep)
    }
}

/// Whether `pat` occurs in `s` at character position `i`.
fn matches_at(s: &str, n: usize, i: usize, pat: &str, m: usize) -> (r: bool)
    requires
        n == s@.len(),
        m == pat@.len(),
        i + m <= n,
    ensures
        r == (s@.subrange(i as int, i + m) == pat@),
{
    let mut j: usize = 0;
    while j < m
        invariant
            n == s@.len(),
            m == pat@.len(),
            i + m <= n,
            j <= m,
            forall|k: int| 0 <= k < j ==> s@[i + k] == pat@[k],
        decreases m - j,
    {
        if s.get_char(i + j) != pat.get_char(j) {
            assert(s@.subrange(i as int, i + m)[j as int] != pat@[j as int]);
            return false;
        }
        j = j + 1;
    }
    assert(s@.subrange(i as int, i + m) =~= pat@);
    true
}

/// `s` with every occurrence of `pat` replaced by `rep` (`str::replace`).
pub fn replace_str(s: &str, pat: &str, rep: &str) -> (r: String)
    ensures
        r@ == replace_all(s@, pat@, rep@),
{
    let n = s.unicode_len();
    let m = pat.unicode_len();
    let mut out = String::new();
    let mut i: usize = 0;
    assert(s@.skip(0) =~= s@);
    while i < n
        invariant
            n == s@.len(),
            m == pat@.len(),
            i <= n,
            out@ + replace_all(s@.skip(i as int), pat@, rep@) == replace_all(s@, pat@, rep@),
        decreases n - i,
    {
        let ghost t = s@.skip(i as int);
        proof {
            assert(t[0] == s@[i as int]);
            assert(t.drop_first() =~= s@.skip(i + 1));
        }
        if m == 0 {
            push_str(&mut out, rep);
            push_char(&mut out, s.get_char(i));
            proof {
                assert(out@ + replace_all(s@.skip(i + 1), pat@, rep@) =~= replace_all(s@, pat@, rep@));
            }
            i = i + 1;
        } else if m <= n - i && matches_at(s, n, i, pat, m) {
            push_str(&mut out, rep);
            proof {
                assert(t.take(m as int) =~= s@.subrange(i as int, i + m));
                assert(t.skip(m as int) =~= s@.skip(i + m));
                assert(out@ + replace_all(s@.skip(i + m), pat@, rep@) =~= replace_all(s@, pat@, rep@));
            }
            i = i + m;
        } else {
            proof {
                if m <= t.len() {
                    assert(t.take(m as int) =~= s@.subrange(i as int, i + m));
                }
            }
            push_char(&mut out, s.get_char(i));
            proof {
                assert(out@ + replace_all(s@.skip(i + 1), pat@, rep@) =~= replace_all(s@, pat@, rep@));
            }
            i = i + 1;
        }
    }
    proof {
        assert(s@.skip(n as int).len() == 0);
    }
    if m == 0 {
        push_str(&mut out, rep);
    }
    proof {
        assert(out@ =~= replace_all(s@, pat@, rep@));
    }
    out
}

/// The marker a redacted value of variable `name` becomes.
pub open spec fn redaction_marker(name: Seq<char>) -> Seq<char> {
    "[REDACTED:"@ + name + "]"@
}

/// `text` with each redaction applied in order: every occurrence of the
/// variable's value replaced by its marker.
pub open spec fn redact_spec(text: Seq<char>, redactions: Seq<(Seq<char>, Seq<char>)>) -> Seq<char>
    decreases redactions.len(),
{
    if redactions.len() == 0 {
        text
    } else {
        replace_all(redact_spec(text, redactions.drop_last()), redactions.last().1, redaction_marker(redactions.last().0))
    }
}

/// Replace the values of redacted variables by markers, one variable after
/// another; `redactions` holds `(name, value)` pairs.
pub fn redact_text(text: &str, redactions: &Vec<(String, String)>) -> (r: String)
    ensures
        r@ == redact_spec(text@, pair_views(redactions@)),
{
    let mut redacted = owned(text);
    let mut i: usize = 0;
    while i < redactions.len()
        invariant
            i <= redactions@.len(),
            redacted@ == redact_spec(text@, pair_views(redactions@.subrange(0, i as int))),
        decreases redactions@.len() - i,
    {
        let mut marker = owned("[REDACTED:");
        push_str(&mut marker, redactions[i].0.as_str());
        push_str(&mut marker, "]");
        let next = replace_str(redacted.as_str(), redactions[i].1.as_str(), marker.as_str());
        proof {
            let rs = pair_views(redactions@.subrange(0, i + 1));
            assert(rs.drop_last() =~= pair_views(redactions@.subrange(0, i as int)));
            assert(rs.last() == (redactions@[i as int].0@, redactions@[i as int].1@));
        }
        redacted = next;
        i = i + 1;
    }
    assert(redactions@.subrange(0, redactions@.len() as int) =~= redactions@);
    redacted
}

/// `w` is `v` with `redact_spec` applied to every string value; object keys,
/// numbers, booleans and nulls stay as they are.
pub open spec fn redacted_json(v: JsonValue, w: JsonValue, redactions: Seq<(Seq<char>, Seq<char>)>) -> bool
    decreases v,
{
    match v {
        JsonValue::Null => w is Null,
        JsonValue::Bool(b) => w == JsonValue::Bool(b),
        JsonValue::Number(n) => w is Number && w->Number_0@ == n@,
        JsonValue::Str(s) => w is Str && w->Str_0@ == redact_spec(s@, redactions),
        JsonValue::Array(xs) => w is Array && redacted_list(xs@, w->Array_0@, redactions),
        JsonValue::Object(xs) => w is Object && redacted_members(xs@, w->Object_0@, redactions),
    }
}

/// Element by element, `ys` is `xs` redacted.
pub open spec fn redacted_list(xs: Seq<JsonValue>, ys: Seq<JsonValue>, redactions: Seq<(Seq<char>, Seq<char>)>) -> bool
    decreases xs,
{
    &&& xs.len() == ys.len()
    &&& xs.len() > 0 ==> redacted_list(xs.drop_last(), ys.drop_last(), redactions)
        && redacted_json(xs.last(), ys.last(), redactions)
}

/// Member by member, `ys` is `xs` with the values redacted and the keys kept.
pub open spec fn redacted_members(xs: Seq<(String, JsonValue)>, ys: Seq<(String, JsonValue)>, redactions: Seq<(Seq<char>, Seq<char>)>) -> bool
    decreases xs,
{
    &&& xs.len() == ys.len()
    &&& xs.len() > 0 ==> redacted_members(xs.drop_last(), ys.drop_last(), redactions)
        && ys.last().0@ == xs.last().0@ && redacted_json(xs.last().1, ys.last().1, redactions)
}

/// Apply `redact_text` to every string value of a JSON value.
pub fn redact_value(value: &JsonValue, redactions: &Vec<(String, String)>) -> (r: JsonValue)
    ensures
        redacted_json(*value, r, pair_views(redactions@)),
    decreases value,
{
    match value {
        JsonValue::Null => JsonValue::Null,
        JsonValue::Bool(b) => JsonValue::Bool(*b),
        JsonValue::Number(n) => JsonValue::Number(n.clone()),
        JsonValue::Str(s) => JsonValue::Str(redact_text(s.as_str(), redactions)),
        JsonValue::Array(xs) => JsonValue::Array(redact_list(xs, redactions)),
        JsonValue::Object(xs) => JsonValue::Object(redact_members(xs, redactions)),
    }
}

fn redact_list(xs: &Vec<JsonValue>, redactions: &Vec<(String, String)>) -> (r: Vec<JsonValue>)
    ensures
        redacted_list(xs@, r@, pair_views(redactions@)),
    decreases xs,
{
    let mut out: Vec<JsonValue> = Vec::new();
    let mut i: usize = 0;
    while i < xs.len()
        invariant
            i <= xs@.len(),
            redacted_list(xs@.take(i as int), out@, pair_views(redactions@)),
        decreases xs@.len() - i,
    {
        proof {
            assert(decreases_to!(xs => xs@));
            assert(decreases_to!(xs@ => xs@[i as int]));
        }
        let v = redact_value(&xs[i], redactions);
        let ghost before = out@;
        out.push(v);
        proof {
            let t = xs@.take(i + 1);
            assert(t.drop_last() =~= xs@.take(i as int));
            assert(out@.drop_last() =~= before);
            assert(t.last() == xs@[i as int]);
        }
        i = i + 1;
    }
    assert(xs@.take(xs@.len() as int) =~= xs@);
    out
}

fn redact_members(xs: &Vec<(String, JsonValue)>, redactions: &Vec<(String, String)>) -> (r: Vec<(String, JsonValue)>)
    ensures
        redacted_members(xs@, r@, pair_views(redactions@)),
    decreases xs,
{
    let mut out: Vec<(String, JsonValue)> = Vec::new();
    let mut i: usize = 0;
    while i < xs.len()
        invariant
            i <= xs@.len(),
            redacted_members(xs@.take(i as int), out@, pair_views(redactions@)),
        decreases xs@.len() - i,
    {
        proof {
            assert(decreases_to!(xs => xs@));
            assert(decreases_to!(xs@ => xs@[i as int]));
            assert(decreases_to!(xs@[i as int] => xs@[i as int].1));
        }
        let v = redact_value(&xs[i].1, redactions);
        let key = xs[i].0.clone();
        let ghost before = out@;
        out.push((key, v));
        proof {
            let t = xs@.take(i + 1);
            assert(t.drop_last() =~= xs@.take(i as int));
            assert(out@.drop_last() =~= before);
            assert(t.last() == xs@[i as int]);
        }
        i = i + 1;
    }
    assert(xs@.take(xs@.len() as int) =~= xs@);
    out
}


proof fn lemma_encode_bytes_shape(bs: Seq<u8>, only_dots: bool)
    ensures
        encode_bytes(bs, only_dots).len() >= bs.len(),
        forall|k: int| 0 <= k < encode_bytes(bs, only_dots).len() ==> #[trigger] encode_bytes(bs, only_dots)[k] != '/',
        (exists|j: int| 0 <= j < bs.len() && bs[j] != 46) ==> exists|k: int| 0 <= k < encode_bytes(bs, only_dots).len()
            && #[trigger] encode_bytes(bs, only_dots)[k] != '.',
        only_dots && bs.len() > 0 && bs[0] == 46 ==> encode_bytes(bs, only_dots)[0] == '%',
    decreases bs.len(),
{
    reveal_strlit("%2E");
    if bs.len() > 0 {
        let prev = bs.drop_last();
        lemma_encode_bytes_shape(prev, only_dots);
        let b = bs.last();
        let e = encode_byte(b, only_dots);
        let all = encode_bytes(bs, only_dots);
        let pe = encode_bytes(prev, only_dots);
        assert(all == pe + e);
        assert(e.len() >= 1);
        assert forall|k: int| 0 <= k < all.len() implies #[trigger] all[k] != '/' by {
            if k < pe.len() {
                assert(all[k] == pe[k]);
            } else {
                assert(all[k] == e[k - pe.len()]);
                if !(b == 46 && only_dots) && unreserved(b) {
                    assert(e[0] == b as char);
                } else if !(b == 46 && only_dots) {
                    let d1 = b / 16;
                    let d2 = b % 16;
                    assert(hex_digit_upper(d1) != '/') by {
                        if d1 < 10 {} else {}
                    }
                    assert(hex_digit_upper(d2) != '/') by {
                        if d2 < 10 {} else {}
                    }
                }
            }
        }
        if exists|j: int| 0 <= j < bs.len() && bs[j] != 46 {
            let j = choose|j: int| 0 <= j < bs.len() && bs[j] != 46;
            if j < bs.len() - 1 {
                assert(prev[j] != 46);
                let k = choose|k: int| 0 <= k < pe.len() && #[trigger] pe[k] != '.';
                assert(all[k] == pe[k]);
            } else {
                assert(all[pe.len() as int] == e[0]);
                if unreserved(b) {
                    assert(e[0] == b as char);
                } else {
                    assert(e[0] == '%');
                }
            }
        }
        if only_dots && bs.len() > 0 && bs[0] == 46 {
            if prev.len() > 0 {
                assert(prev[0] == bs[0]);
                assert(all[0] == pe[0]);
            } else {
                assert(all[0] == e[0]);
                if b == 46 {
                    assert(e[0] == '%');
                } else if unreserved(b) {
                    assert(e[0] == b as char);
                }
            }
        }
    }
}

/// An encoded path component always names a single directory entry: it is
/// not empty, holds no `/`, and is neither `.` nor `..`.
pub proof fn law_encoded_component_cannot_navigate(s: Seq<char>)
    ensures
        encoded_component(s).len() > 0,
        !encoded_component(s).contains('/'),
        encoded_component(s) != "."@,
        encoded_component(s) != ".."@,
{
    reveal_strlit("_empty");
    reveal_strlit(".");
    reveal_strlit("..");
    let e = encoded_component(s);
    if s.len() == 0 {
        assert(e == "_empty"@);
        assert(e[0] == '_');
        if e.contains('/') {
            let k = choose|k: int| 0 <= k < e.len() && e[k] == '/';
        }
    } else {
        let bs = vstd::utf8::encode_utf8(s);
        assert(bs =~= vstd::utf8::encode_scalar(s[0] as u32) + vstd::utf8::encode_utf8(s.drop_first()));
        assert(bs.len() > 0);
        let od = forall|i: int| 0 <= i < bs.len() ==> bs[i] == 46;
        lemma_encode_bytes_shape(bs, od);
        if e.contains('/') {
            let k = choose|k: int| 0 <= k < e.len() && e[k] == '/';
        }
        if od {
            assert(bs[0] == 46);
            assert(e[0] == '%');
        } else {
            let j = choose|j: int| !(0 <= j < bs.len() ==> bs[j] == 46);
            let k = choose|k: int| 0 <= k < e.len() && #[trigger] e[k] != '.';
        }
    }
}


/// The transcript variables of the environment as read: each one's value
/// when it is set.
#[derive(Debug, Clone, PartialEq, Eq)]
pub struct TranscriptEnv {
    pub dir: Option<String>,
    pub redact_env: Option<String>,
    pub deployment: Option<String>,
    pub run_id: Option<String>,
}

/// A value that is set and not empty.
pub open spec fn nonempty(o: Option<String>) -> Option<Seq<char>> {
    match o {
        Some(v) => if v@.len() > 0 { Some(v@) } else { None },
        None => None,
    }
}

/// `path` joined onto `base` (`Path::join`): an absolute path replaces the
/// base; otherwise a separator is put between them unless the base is
/// empty or ends with one.
pub open spec fn joined_path(base: Seq<char>, path: Seq<char>) -> Seq<char> {
    if path.len() > 0 && path[0] == '/' {
        path
    } else if base.len() == 0 || base.last() == '/' {
        base + path
    } else {
        base + seq!['/'] + path
    }
}

/// The identity of a deployment that names no forge repository: `project:`
/// and the content hash of its canonical working directory.
pub open spec fn project_identity(canonical_dir: Seq<char>) -> Seq<char> {
    "project:"@ + content_hash_of(vstd::utf8::encode_utf8(canonical_dir))
}

/// The deployment identity: the selected forge repository's identity when
/// the project declares repositories and the selector picks one, else the
/// project's own.
pub open spec fn deployment_holds(forge: ForgeProject, selector: Option<Seq<char>>, canonical_dir: Seq<char>, dep: Seq<char>) -> bool {
    if forge.repositories@.len() > 0 && exists|k: int| #[trigger] repository_selected(forge, selector, k) {
        exists|k: int| #[trigger] repository_selected(forge, selector, k) && dep == forge.repositories@[k].identity@
    } else {
        dep == project_identity(canonical_dir)
    }
}

/// The transcript directory: the environment's, else the configured one,
/// trimmed and resolved against the working directory, when not empty.
pub open spec fn settings_dir(env: TranscriptEnv, working_dir: Seq<char>, config: TranscriptConfig) -> Option<Seq<char>> {
    match nonempty(env.dir) {
        Some(d) => Some(d),
        None => match config.dir {
            Some(c) => if trim(c@).len() > 0 { Some(joined_path(working_dir, trim(c@))) } else { None },
            None => None,
        },
    }
}

/// The redacted variable names: the environment's comma-separated list,
/// else the configured names, trimmed, empty ones dropped.
pub open spec fn settings_redactions(env: TranscriptEnv, config: TranscriptConfig) -> Seq<Seq<char>> {
    match nonempty(env.redact_env) {
        Some(names) => trimmed_nonempty(split_seq(names, ',')),
        None => trimmed_nonempty(views(config.redact_env@)),
    }
}

/// The transcript settings the environment and configuration give.
pub open spec fn settings_hold(env: TranscriptEnv, working_dir: Seq<char>, canonical_dir: Seq<char>, config: TranscriptConfig,
    deployment: DeploymentConfig, forge: ForgeProject, r: TranscriptSettings) -> bool {
    &&& opt_string_view(r.dir) == settings_dir(env, working_dir, config)
    &&& views(r.redact_env@) == settings_redactions(env, config)
    &&& match nonempty(env.deployment) {
        Some(d) => r.deployment matches Some(x) && x@ == d,
        None => r.deployment matches Some(x) && deployment_holds(forge, opt_string_view(deployment.repository), canonical_dir, x@),
    }
    &&& opt_string_view(r.run_id) == nonempty(env.run_id)
}

fn nonempty_owned(o: &Option<String>) -> (r: Option<String>)
    ensures
        opt_string_view(r) == nonempty(*o),
{
    match o {
        Some(v) => if v.unicode_len() > 0 { Some(v.clone()) } else { None },
        None => None,
    }
}

/// `path` joined onto `base`.
pub fn join_path(base: &str, path: &str) -> (r: String)
    ensures
        r@ == joined_path(base@, path@),
{
    let n = base.unicode_len();
    if path.unicode_len() > 0 && path.get_char(0) == '/' {
        return owned(path);
    }
    let mut out = owned(base);
    if !(n == 0 || base.get_char(n - 1) == '/') {
        push_char(&mut out, '/');
    }
    push_str(&mut out, path);
    out
}

/// The identity of a deployment that names no forge repository.
pub fn project_deployment_identity(canonical_dir: &str) -> (r: String)
    ensures
        r@ == project_identity(canonical_dir@),
{
    let mut out = owned("project:");
    let hash = raw_content_hash(canonical_dir.as_bytes());
    push_str(&mut out, hash.as_str());
    proof {
        reveal_strlit("project:");
    }
    out
}

/// The deployment identity of a project.
fn deployment_identity(canonical_dir: &str, deployment: &DeploymentConfig, forge: &ForgeProject) -> (r: String)
    ensures
        deployment_holds(*forge, opt_string_view(deployment.repository), canonical_dir@, r@),
{
    if forge.repositories.len() == 0 {
        return project_deployment_identity(canonical_dir);
    }
    let selector: Option<&str> = match &deployment.repository {
        Some(s) => Some(s.as_str()),
        None => None,
    };
    match forge.deployment_identity(selector) {
        Ok(identity) => identity,
        Err(_) => {
            proof {
                assert forall|k: int| !#[trigger] repository_selected(*forge, opt_string_view(deployment.repository), k) by {
                    if repository_selected(*forge, opt_string_view(deployment.repository), k) {
                        match deployment.repository {
                            Some(sel) => {
                                assert(forge.repositories@[k].id@ == sel@);
                            },
                            None => {},
                        }
                    }
                }
            }
            project_deployment_identity(canonical_dir)
        },
    }
}

/// The transcript settings from the environment's transcript variables and
/// the project's configuration: a set variable wins over the configuration;
/// a configured directory is trimmed and resolved against the working
/// directory; configured redactions are trimmed, dropping empty ones; the
/// deployment is the project's forge or working-directory identity when
/// the environment sets none. `canonical_dir` is the working directory
/// with its links resolved.
pub fn resolve_transcript_settings_from(env: &TranscriptEnv, working_dir: &str, canonical_dir: &str, config: &TranscriptConfig,
    deployment: &DeploymentConfig, forge: &ForgeProject) -> (r: TranscriptSettings)
    ensures
        settings_hold(*env, working_dir@, canonical_dir@, *config, *deployment, *forge, r),
{
    let dir = match nonempty_owned(&env.dir) {
        Some(d) => Some(d),
        None => match &config.dir {
            Some(c) => {
                let t = trim_str(c.as_str());
                if t.unicode_len() > 0 { Some(join_path(working_dir, t)) } else { None }
            },
            None => None,
        },
    };
    let redact_env = match nonempty_owned(&env.redact_env) {
        Some(names) => {
            let parts = split_on(names.as_str(), ',');
            trimmed_nonempty_strings(&parts)
        },
        None => trimmed_nonempty_strings(&config.redact_env),
    };
    let dep = match nonempty_owned(&env.deployment) {
        Some(d) => d,
        None => deployment_identity(canonical_dir, deployment, forge),
    };
    TranscriptSettings { dir, redact_env, deployment: Some(dep), run_id: nonempty_owned(&env.run_id) }
}

/// The transcript settings of a project without forge or deployment
/// configuration.
pub fn resolve_transcript_settings(env: &TranscriptEnv, working_dir: &str, canonical_dir: &str, config: &TranscriptConfig) -> (r: TranscriptSettings)
    ensures
        opt_string_view(r.dir) == settings_dir(*env, working_dir@, *config),
        views(r.redact_env@) == settings_redactions(*env, *config),
        r.deployment matches Some(x) && x@ == match nonempty(env.deployment) {
            Some(d) => d,
            None => project_identity(canonical_dir@),
        },
        opt_string_view(r.run_id) == nonempty(env.run_id),
{
    let deployment = DeploymentConfig::default();
    let forge = ForgeProject { instances: Vec::new(), repositories: Vec::new(), trackers: Vec::new() };
    resolve_transcript_settings_from(env, working_dir, canonical_dir, config, &deployment, &forge)
}

} // verus!
