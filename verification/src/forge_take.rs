//! Taking a forge issue as a work unit: which forge to read, and how an
//! issue becomes a `work-unit` artifact.
//!
//! Reading the issue over HTTP, validating the artifact against its schema
//! and writing it to the workspace are the caller's part.
use vstd::prelude::*;

use crate::entry::{parse_u64, parse_u64_text};
use crate::json::{JsonValue, get, json_get, json_text, to_json_string};
use crate::entry::WORK_UNIT_ARTIFACT_TYPE;
use crate::model::ArtifactType;
use crate::project::ForgeConfig;
use crate::store::StoreError;
use crate::text::{decimal, is_ws, owned, push_char, trim, trim_end, trim_start, trim_str};
use crate::validation::ValidationError;

verus! {

/// The forge variables that select where work units come from.
pub const FORGE_TYPE_VAR: &'static str = "GROUNDWORK_FORGE_TYPE";
/// The variable naming the owner of the forge repository.
pub const FORGE_OWNER_VAR: &'static str = "GROUNDWORK_FORGE_OWNER";
/// The variable naming the forge repository.
pub const FORGE_NAME_VAR: &'static str = "GROUNDWORK_FORGE_NAME";
/// The variable holding the numeric SourceHut tracker id.
pub const FORGE_TRACKER_ID_VAR: &'static str = "GROUNDWORK_FORGE_TRACKER_ID";

/// The forge a project takes its work units from.
#[derive(Debug, Clone, PartialEq, Eq)]
pub enum ResolvedForge {
    Github { owner: String, name: String },
    Sourcehut { owner: String, name: String, tracker_id: u64 },
}

/// Why taking a work unit failed.
#[derive(Debug, Clone, PartialEq)]
pub enum TakeError {
    MissingForgeField(&'static str),
    InvalidTrackerId(String),
    UnsupportedForgeType(String),
    MissingCredential(&'static str),
    MissingWorkUnitArtifactType,
    MissingResponseField(&'static str),
    ForgeApi(String),
    PullRequestNotWorkUnit(u64),
    EmptyIssueBody,
    MissingAcceptanceCriteria,
    Validation(ValidationError),
    Store(StoreError),
    /// Filesystem I/O failure, with its message.
    Io(String),
    /// JSON serialization failure, with its message.
    Serialization(String),
}

/// The view of an environment: `(name, value)` pairs.
pub open spec fn env_view(env: Seq<(String, String)>) -> Seq<(Seq<char>, Seq<char>)> {
    env.map_values(|e: (String, String)| (e.0@, e.1@))
}

/// The value of the first entry named `key`, if any.
pub open spec fn env_get(env: Seq<(Seq<char>, Seq<char>)>, key: Seq<char>) -> Option<Seq<char>>
    decreases env.len(),
{
    if env.len() == 0 {
        None
    } else if env[0].0 == key {
        Some(env[0].1)
    } else {
        env_get(env.drop_first(), key)
    }
}

/// The ASCII lower-case form of a character.
pub open spec fn lower_char(c: char) -> char {
    if 'A' <= c <= 'Z' { ((c as int) + 32) as char } else { c }
}

/// The ASCII lower-case form of a text (`str::to_ascii_lowercase`).
pub open spec fn ascii_lower(s: Seq<char>) -> Seq<char> {
    s.map_values(|c: char| lower_char(c))
}

/// A configured field: its trimmed value, when that is not empty.
pub open spec fn field_value(v: Option<Seq<char>>) -> Option<Seq<char>> {
    match v {
        Some(s) => if trim(s).len() > 0 { Some(trim(s)) } else { None },
        None => None,
    }
}

/// The forge type an environment selects: its non-blank value in lower
/// case, `github` by default.
pub open spec fn forge_type_of(env: Seq<(Seq<char>, Seq<char>)>) -> Seq<char> {
    match env_get(env, FORGE_TYPE_VAR@) {
        Some(v) => if trim(v).len() > 0 { ascii_lower(v) } else { "github"@ },
        None => "github"@,
    }
}

fn lookup<'a>(env: &'a Vec<(String, String)>, key: &str) -> (r: Option<&'a str>)
    ensures
        match r {
            Some(v) => env_get(env_view(env@), key@) == Some(v@),
            None => env_get(env_view(env@), key@) is None,
        },
{
    let ghost ev = env_view(env@);
    let mut i: usize = 0;
    assert(ev.skip(0) =~= ev);
    while i < env.len()
        invariant
            i <= env@.len(),
            ev == env_view(env@),
            env_get(ev, key@) == env_get(ev.skip(i as int), key@),
        decreases env@.len() - i,
    {
        let ghost rest = ev.skip(i as int);
        proof {
            assert(rest[0] == (env@[i as int].0@, env@[i as int].1@));
            assert(rest.drop_first() =~= ev.skip(i + 1));
        }
        if crate::text::str_eq(env[i].0.as_str(), key) {
            return Some(env[i].1.as_str());
        }
        i = i + 1;
    }
    proof {
        assert(ev.skip(env@.len() as int) =~= Seq::<(Seq<char>, Seq<char>)>::empty());
    }
    None
}

fn to_ascii_lower(s: &str) -> (r: String)
    ensures
        r@ == ascii_lower(s@),
{
    let n = s.unicode_len();
    let mut out = String::new();
    let mut i: usize = 0;
    while i < n
        invariant
            n == s@.len(),
            i <= n,
            out@ == ascii_lower(s@).take(i as int),
        decreases n - i,
    {
        let c = s.get_char(i);
        let d = if 'A' <= c && c <= 'Z' {
            let b = c as u8;
            (b + 32) as char
        } else {
            c
        };
        push_char(&mut out, d);
        proof {
            assert(ascii_lower(s@).take(i + 1) =~= ascii_lower(s@).take(i as int).push(d));
        }
        i = i + 1;
    }
    proof {
        assert(ascii_lower(s@).take(n as int) =~= ascii_lower(s@));
    }
    out
}

fn required_config_field(value: Option<&str>, field: &'static str) -> (r: Result<String, TakeError>)
    ensures
        match field_value(match value { Some(v) => Some(v@), None => None }) {
            Some(v) => r is Ok && r->Ok_0@ == v,
            None => r matches Err(TakeError::MissingForgeField(f)) && f == field,
        },
{
    match value {
        Some(v) => {
            let t = trim_str(v);
            if t.unicode_len() > 0 {
                Ok(owned(t))
            } else {
                Err(TakeError::MissingForgeField(field))
            }
        },
        None => Err(TakeError::MissingForgeField(field)),
    }
}

impl ResolvedForge {
    /// Resolve the forge from forge variables given as `(name, value)`
    /// pairs: the type (`github` unless a non-blank type is given; matched in
    /// lower case), the owner and name (required, trimmed), and for SourceHut
    /// the numeric tracker id. The owner is checked before the name, both
    /// before the type.
    pub fn from_environment(environment: &Vec<(String, String)>) -> (r: Result<ResolvedForge, TakeError>)
        ensures
            ({
                let env = env_view(environment@);
                let owner = field_value(env_get(env, FORGE_OWNER_VAR@));
                let name = field_value(env_get(env, FORGE_NAME_VAR@));
                let ft = forge_type_of(env);
                if owner is None {
                    r matches Err(TakeError::MissingForgeField(f)) && f@ == "owner"@
                } else if name is None {
                    r matches Err(TakeError::MissingForgeField(f)) && f@ == "name"@
                } else if ft == "github"@ {
                    r matches Ok(ResolvedForge::Github { owner: o, name: n }) && o@ == owner->0 && n@ == name->0
                } else if ft == "sourcehut"@ {
                    match field_value(env_get(env, FORGE_TRACKER_ID_VAR@)) {
                        None => r matches Err(TakeError::MissingForgeField(f)) && f@ == "tracker_id"@,
                        Some(t) => match parse_u64(t) {
                            None => r matches Err(TakeError::InvalidTrackerId(v)) && v@ == t,
                            Some(id) => r matches Ok(ResolvedForge::Sourcehut { owner: o, name: n, tracker_id }) && o@ == owner->0
                                && n@ == name->0 && tracker_id == id,
                        },
                    }
                } else {
                    r matches Err(TakeError::UnsupportedForgeType(v)) && v@ == ft
                }
            }),
    {
        let forge_type = match lookup(environment, FORGE_TYPE_VAR) {
            Some(v) => if trim_str(v).unicode_len() > 0 { to_ascii_lower(v) } else { owned("github") },
            None => owned("github"),
        };
        let owner = match required_config_field(lookup(environment, FORGE_OWNER_VAR), "owner") {
            Ok(v) => v,
            Err(e) => {
                proof { reveal_strlit("owner"); }
                return Err(e);
            },
        };
        let name = match required_config_field(lookup(environment, FORGE_NAME_VAR), "name") {
            Ok(v) => v,
            Err(e) => {
                proof { reveal_strlit("name"); }
                return Err(e);
            },
        };
        if crate::text::str_eq(forge_type.as_str(), "github") {
            Ok(ResolvedForge::Github { owner, name })
        } else if crate::text::str_eq(forge_type.as_str(), "sourcehut") {
            let tracker_id = match required_config_field(lookup(environment, FORGE_TRACKER_ID_VAR), "tracker_id") {
                Ok(v) => v,
                Err(e) => {
                    proof { reveal_strlit("tracker_id"); }
                    return Err(e);
                },
            };
            match parse_u64_text(tracker_id.as_str()) {
                Some(id) => Ok(ResolvedForge::Sourcehut { owner, name, tracker_id: id }),
                None => Err(TakeError::InvalidTrackerId(tracker_id)),
            }
        } else {
            Err(TakeError::UnsupportedForgeType(forge_type))
        }
    }

    /// Resolve the forge from the `[forge]` settings alone.
    pub fn from_config(config: &ForgeConfig) -> (r: Result<ResolvedForge, TakeError>)
        ensures
            ({
                let env = take_environment(*config, Seq::empty());
                let owner = field_value(env_get(env, FORGE_OWNER_VAR@));
                let name = field_value(env_get(env, FORGE_NAME_VAR@));
                let ft = forge_type_of(env);
                if owner is None {
                    r matches Err(TakeError::MissingForgeField(f)) && f@ == "owner"@
                } else if name is None {
                    r matches Err(TakeError::MissingForgeField(f)) && f@ == "name"@
                } else if ft == "github"@ {
                    r matches Ok(ResolvedForge::Github { owner: o, name: n }) && o@ == owner->0 && n@ == name->0
                } else if ft == "sourcehut"@ {
                    match field_value(env_get(env, FORGE_TRACKER_ID_VAR@)) {
                        None => r matches Err(TakeError::MissingForgeField(f)) && f@ == "tracker_id"@,
                        Some(t) => match parse_u64(t) {
                            None => r matches Err(TakeError::InvalidTrackerId(v)) && v@ == t,
                            Some(id) => r matches Ok(ResolvedForge::Sourcehut { owner: o, name: n, tracker_id }) && o@ == owner->0
                                && n@ == name->0 && tracker_id == id,
                        },
                    }
                } else {
                    r matches Err(TakeError::UnsupportedForgeType(v)) && v@ == ft
                }
            }),
    {
        let environment = resolve_take_forge_environment(config, &Vec::new());
        proof {
            assert(env_view(Seq::<(String, String)>::empty()) =~= Seq::<(Seq<char>, Seq<char>)>::empty());
        }
        ResolvedForge::from_environment(&environment)
    }
}

/// The value a variable takes: the process's non-empty value, else the
/// configured trimmed non-empty value.
pub open spec fn layered(process: Option<Seq<char>>, configured: Option<String>) -> Option<Seq<char>> {
    match process {
        Some(p) if p.len() > 0 => Some(p),
        _ => match configured {
            Some(c) => if trim(c@).len() > 0 { Some(trim(c@)) } else { None },
            None => None,
        },
    }
}

/// An entry for a variable that has a value.
pub open spec fn entry_for(name: Seq<char>, value: Option<Seq<char>>) -> Seq<(Seq<char>, Seq<char>)> {
    match value {
        Some(v) => seq![(name, v)],
        None => Seq::empty(),
    }
}

/// The forge variables of a take: the process's values over the configured
/// ones, with the type `github` when neither gives one.
pub open spec fn take_environment(config: ForgeConfig, process: Seq<(Seq<char>, Seq<char>)>) -> Seq<(Seq<char>, Seq<char>)> {
    let ft = match layered(env_get(process, FORGE_TYPE_VAR@), config.forge_type) {
        Some(v) => v,
        None => "github"@,
    };
    seq![(FORGE_TYPE_VAR@, ft)]
        + entry_for(FORGE_OWNER_VAR@, layered(env_get(process, FORGE_OWNER_VAR@), config.owner))
        + entry_for(FORGE_NAME_VAR@, layered(env_get(process, FORGE_NAME_VAR@), config.name))
        + entry_for(FORGE_TRACKER_ID_VAR@, layered(env_get(process, FORGE_TRACKER_ID_VAR@), config.tracker_id))
}

fn layered_value(process: &Vec<(String, String)>, name: &str, configured: &Option<String>) -> (r: Option<String>)
    ensures
        match r {
            Some(v) => layered(env_get(env_view(process@), name@), *configured) == Some(v@),
            None => layered(env_get(env_view(process@), name@), *configured) is None,
        },
{
    match lookup(process, name) {
        Some(p) => {
            if p.unicode_len() > 0 {
                return Some(owned(p));
            }
        },
        None => {},
    }
    match configured {
        Some(c) => {
            let t = trim_str(c.as_str());
            if t.unicode_len() > 0 { Some(owned(t)) } else { None }
        },
        None => None,
    }
}

fn push_entry(env: &mut Vec<(String, String)>, name: &str, value: Option<String>)
    ensures
        env_view(final(env)@) == env_view(old(env)@) + entry_for(name@, match value { Some(v) => Some(v@), None => None }),
{
    let ghost before = env_view(env@);
    match value {
        Some(v) => {
            env.push((owned(name), v));
            assert(env_view(env@) =~= before + entry_for(name@, Some(v@)));
        },
        None => {
            assert(env_view(env@) =~= before + Seq::<(Seq<char>, Seq<char>)>::empty());
        },
    }
}

/// The forge variables of a take from the process's values of the forge
/// variables, given as `(name, value)` pairs, and the `[forge]` settings.
pub fn resolve_take_forge_environment(config: &ForgeConfig, process: &Vec<(String, String)>) -> (r: Vec<(String, String)>)
    ensures
        env_view(r@) == take_environment(*config, env_view(process@)),
{
    let mut env: Vec<(String, String)> = Vec::new();
    let ft = match layered_value(process, FORGE_TYPE_VAR, &config.forge_type) {
        Some(v) => v,
        None => owned("github"),
    };
    env.push((owned(FORGE_TYPE_VAR), ft));
    proof {
        assert(env_view(env@) =~= seq![(FORGE_TYPE_VAR@, ft@)]);
    }
    let owner = layered_value(process, FORGE_OWNER_VAR, &config.owner);
    push_entry(&mut env, FORGE_OWNER_VAR, owner);
    let name = layered_value(process, FORGE_NAME_VAR, &config.name);
    push_entry(&mut env, FORGE_NAME_VAR, name);
    let tracker_id = layered_value(process, FORGE_TRACKER_ID_VAR, &config.tracker_id);
    push_entry(&mut env, FORGE_TRACKER_ID_VAR, tracker_id);
    env
}


// ---------------------------------------------------------------------------
// Acceptance criteria in an issue body.
// ---------------------------------------------------------------------------

/// The pieces of `s` between newlines; the last is what follows the final
/// newline (possibly empty).
pub open spec fn split_newlines(s: Seq<char>) -> Seq<Seq<char>>
    decreases s.len(),
{
    if s.len() == 0 {
        seq![Seq::empty()]
    } else {
        let p = split_newlines(s.drop_last());
        if s.last() == '\n' {
            p.push(Seq::empty())
        } else {
            p.update(p.len() - 1, p.last().push(s.last()))
        }
    }
}

proof fn lemma_split_nonempty(s: Seq<char>)
    ensures
        split_newlines(s).len() > 0,
    decreases s.len(),
{
    if s.len() > 0 {
        lemma_split_nonempty(s.drop_last());
    }
}

/// A line without the `\r` of a `\r\n` ending.
pub open spec fn strip_cr(l: Seq<char>) -> Seq<char> {
    if l.len() > 0 && l.last() == '\r' { l.drop_last() } else { l }
}

/// The lines of a text as `str::lines` gives them: split at `\n` or
/// `\r\n`, the final line ending optional.
pub open spec fn text_lines(s: Seq<char>) -> Seq<Seq<char>> {
    let p = split_newlines(s);
    let done = p.drop_last().map_values(|l: Seq<char>| strip_cr(l));
    if p.last().len() > 0 { done.push(p.last()) } else { done }
}

fn text_lines_exec(s: &str) -> (r: Vec<String>)
    ensures
        crate::text::views(r@) == text_lines(s@),
{
    let n = s.unicode_len();
    let mut done: Vec<String> = Vec::new();
    let mut cur = String::new();
    let mut i: usize = 0;
    proof {
        assert(s@.take(0) =~= Seq::<char>::empty());
        assert(crate::text::views(done@) =~= split_newlines(s@.take(0)).drop_last().map_values(|l: Seq<char>| strip_cr(l)));
    }
    while i < n
        invariant
            n == s@.len(),
            i <= n,
            split_newlines(s@.take(i as int)).len() > 0,
            crate::text::views(done@) == split_newlines(s@.take(i as int)).drop_last().map_values(|l: Seq<char>| strip_cr(l)),
            cur@ == split_newlines(s@.take(i as int)).last(),
        decreases n - i,
    {
        let c = s.get_char(i);
        let ghost t = s@.take(i + 1);
        let ghost p = split_newlines(s@.take(i as int));
        proof {
            assert(t.drop_last() =~= s@.take(i as int));
            assert(t.last() == c);
        }
        if c == '\n' {
            let m = cur.unicode_len();
            let line = if m > 0 && cur.get_char(m - 1) == '\r' {
                owned(cur.as_str().substring_char(0, m - 1))
            } else {
                owned(cur.as_str())
            };
            proof {
                if m > 0 && cur@[m - 1] == '\r' {
                    assert(cur@.subrange(0, m - 1) =~= cur@.drop_last());
                }
            }
            let ghost before = crate::text::views(done@);
            done.push(line);
            cur = String::new();
            proof {
                let q = split_newlines(t);
                assert(q == p.push(Seq::<char>::empty()));
                assert(q.drop_last() =~= p);
                assert(p =~= p.drop_last().push(p.last()));
                assert(crate::text::views(done@) =~= before.push(strip_cr(p.last())));
                assert(q.drop_last().map_values(|l: Seq<char>| strip_cr(l)) =~= p.drop_last().map_values(|l: Seq<char>| strip_cr(l)).push(strip_cr(p.last())));
            }
        } else {
            push_char(&mut cur, c);
            proof {
                let q = split_newlines(t);
                assert(q == p.update(p.len() - 1, p.last().push(c)));
                assert(q.drop_last() =~= p.drop_last());
            }
        }
        i = i + 1;
    }
    proof {
        assert(s@.take(n as int) =~= s@);
    }
    if cur.unicode_len() > 0 {
        let ghost before = crate::text::views(done@);
        done.push(cur);
        proof {
            assert(crate::text::views(done@) =~= before.push(split_newlines(s@).last()));
        }
    }
    done
}

/// `s` without its leading copies of `c`.
pub open spec fn trim_start_char(s: Seq<char>, c: char) -> Seq<char>
    decreases s.len(),
{
    if s.len() > 0 && s[0] == c { trim_start_char(s.drop_first(), c) } else { s }
}

/// `s` without its trailing copies of `c`.
pub open spec fn trim_end_char(s: Seq<char>, c: char) -> Seq<char>
    decreases s.len(),
{
    if s.len() > 0 && s.last() == c { trim_end_char(s.drop_last(), c) } else { s }
}

fn trim_start_char_exec(s: &str, c: char) -> (r: &str)
    ensures
        r@ == trim_start_char(s@, c),
{
    let n = s.unicode_len();
    let mut a: usize = 0;
    proof {
        assert(s@.skip(0) =~= s@);
    }
    while a < n && s.get_char(a) == c
        invariant
            n == s@.len(),
            a <= n,
            trim_start_char(s@, c) == trim_start_char(s@.skip(a as int), c),
        decreases n - a,
    {
        proof {
            assert(s@.skip(a as int).drop_first() =~= s@.skip(a + 1));
        }
        a = a + 1;
    }
    let r = s.substring_char(a, n);
    proof {
        assert(r@ =~= s@.skip(a as int));
    }
    r
}

fn trim_end_char_exec(s: &str, c: char) -> (r: &str)
    ensures
        r@ == trim_end_char(s@, c),
{
    let n = s.unicode_len();
    let mut b: usize = n;
    proof {
        assert(s@.take(n as int) =~= s@);
    }
    while b > 0 && s.get_char(b - 1) == c
        invariant
            n == s@.len(),
            b <= n,
            trim_end_char(s@, c) == trim_end_char(s@.take(b as int), c),
        decreases b,
    {
        proof {
            assert(s@.take(b as int).drop_last() =~= s@.take(b - 1));
        }
        b = b - 1;
    }
    let r = s.substring_char(0, b);
    proof {
        assert(r@ =~= s@.take(b as int));
    }
    r
}

/// A line as a heading: trimmed, without leading `#` and trailing `:`, in
/// lower case.
pub open spec fn normalized_heading(line: Seq<char>) -> Seq<char> {
    ascii_lower(trim(trim_end_char(trim(trim_start_char(trim(line), '#')), ':')))
}

fn normalized_heading_exec(line: &str) -> (r: String)
    ensures
        r@ == normalized_heading(line@),
{
    let a = trim_str(line);
    let b = trim_start_char_exec(a, '#');
    let c = trim_str(b);
    let d = trim_end_char_exec(c, ':');
    let e = trim_str(d);
    to_ascii_lower(e)
}

/// The line introduces acceptance criteria.
pub open spec fn is_acceptance_heading(line: Seq<char>) -> bool {
    let h = normalized_heading(line);
    ||| h == "acceptance criteria"@
    ||| h == "verification criteria"@
    ||| h == "verification gate"@
    ||| h == "what must be true"@
}

/// Lowering a character keeps whitespace, `#` and `:` what they are, and
/// lowering twice is lowering once.
proof fn lemma_lower_char(c: char)
    ensures
        is_ws(lower_char(c)) == is_ws(c),
        (lower_char(c) == '#') == (c == '#'),
        (lower_char(c) == ':') == (c == ':'),
        lower_char(lower_char(c)) == lower_char(c),
{
    if 'A' <= c <= 'Z' {
        assert(('a' as u32) <= (lower_char(c) as u32) <= ('z' as u32));
    }
}

proof fn lemma_lower_first(s: Seq<char>)
    requires
        s.len() > 0,
    ensures
        ascii_lower(s).drop_first() == ascii_lower(s.drop_first()),
        ascii_lower(s).drop_last() == ascii_lower(s.drop_last()),
        ascii_lower(s)[0] == lower_char(s[0]),
        ascii_lower(s).last() == lower_char(s.last()),
{
    assert(ascii_lower(s).drop_first() =~= ascii_lower(s.drop_first()));
    assert(ascii_lower(s).drop_last() =~= ascii_lower(s.drop_last()));
}

proof fn lemma_lower_trim_start(s: Seq<char>)
    ensures
        trim_start(ascii_lower(s)) == ascii_lower(trim_start(s)),
    decreases s.len(),
{
    if s.len() > 0 {
        lemma_lower_first(s);
        lemma_lower_char(s[0]);
        lemma_lower_trim_start(s.drop_first());
    }
}

proof fn lemma_lower_trim_end(s: Seq<char>)
    ensures
        trim_end(ascii_lower(s)) == ascii_lower(trim_end(s)),
    decreases s.len(),
{
    if s.len() > 0 {
        lemma_lower_first(s);
        lemma_lower_char(s.last());
        lemma_lower_trim_end(s.drop_last());
    }
}

proof fn lemma_lower_trim(s: Seq<char>)
    ensures
        trim(ascii_lower(s)) == ascii_lower(trim(s)),
{
    lemma_lower_trim_start(s);
    lemma_lower_trim_end(trim_start(s));
}

proof fn lemma_lower_trim_hashes(s: Seq<char>)
    ensures
        trim_start_char(ascii_lower(s), '#') == ascii_lower(trim_start_char(s, '#')),
    decreases s.len(),
{
    if s.len() > 0 {
        lemma_lower_first(s);
        lemma_lower_char(s[0]);
        lemma_lower_trim_hashes(s.drop_first());
    }
}

proof fn lemma_lower_trim_colons(s: Seq<char>)
    ensures
        trim_end_char(ascii_lower(s), ':') == ascii_lower(trim_end_char(s, ':')),
    decreases s.len(),
{
    if s.len() > 0 {
        lemma_lower_first(s);
        lemma_lower_char(s.last());
        lemma_lower_trim_colons(s.drop_last());
    }
}

proof fn lemma_lower_twice(s: Seq<char>)
    ensures
        ascii_lower(ascii_lower(s)) == ascii_lower(s),
{
    assert forall|k: int| 0 <= k < s.len() implies ascii_lower(ascii_lower(s))[k] == ascii_lower(s)[k] by {
        lemma_lower_char(s[k]);
    }
    assert(ascii_lower(ascii_lower(s)) =~= ascii_lower(s));
}

/// Headings are read without regard to ASCII case: a line and its lower-case
/// form normalise alike, so they introduce acceptance criteria alike.
pub proof fn law_heading_ignores_case(line: Seq<char>)
    ensures
        normalized_heading(ascii_lower(line)) == normalized_heading(line),
        is_acceptance_heading(ascii_lower(line)) == is_acceptance_heading(line),
{
    let a = trim(line);
    lemma_lower_trim(line);
    let b = trim_start_char(a, '#');
    lemma_lower_trim_hashes(a);
    let c = trim(b);
    lemma_lower_trim(b);
    let d = trim_end_char(c, ':');
    lemma_lower_trim_colons(c);
    let e = trim(d);
    lemma_lower_trim(d);
    lemma_lower_twice(e);
}

fn is_acceptance_heading_exec(line: &str) -> (r: bool)
    ensures
        r == is_acceptance_heading(line@),
{
    let h = normalized_heading_exec(line);
    let s = h.as_str();
    crate::text::str_eq(s, "acceptance criteria") || crate::text::str_eq(s, "verification criteria")
        || crate::text::str_eq(s, "verification gate") || crate::text::str_eq(s, "what must be true")
}

/// `s` starts with `p`.
pub open spec fn starts_with(s: Seq<char>, p: Seq<char>) -> bool {
    p.len() <= s.len() && s.take(p.len() as int) == p
}

/// The position of the first `". "` in `s`.
pub open spec fn first_dot_space(s: Seq<char>, p: int) -> bool {
    &&& 0 <= p && p + 1 < s.len()
    &&& s[p] == '.' && s[p + 1] == ' '
    &&& forall|q: int| 0 <= q < p ==> !(#[trigger] s[q] == '.' && s[q + 1] == ' ')
}

/// Every character is an ASCII digit.
pub open spec fn ascii_digits(s: Seq<char>) -> bool {
    forall|k: int| 0 <= k < s.len() ==> '0' <= #[trigger] s[k] <= '9'
}

/// The text of a Markdown list item (`- `, `* `, `+ ` or `<digits>. `),
/// trimmed.
pub open spec fn list_item(line: Seq<char>) -> Option<Seq<char>> {
    if starts_with(line, "- "@) || starts_with(line, "* "@) || starts_with(line, "+ "@) {
        Some(trim(line.skip(2)))
    } else if exists|p: int| #[trigger] first_dot_space(line, p) {
        let p = choose|p: int| #[trigger] first_dot_space(line, p);
        if ascii_digits(line.take(p)) { Some(trim(line.skip(p + 2))) } else { None }
    } else {
        None
    }
}

/// A line that starts with `- `, `* ` or `+ ` is a list item whose text is
/// the rest of the line, trimmed.
pub proof fn law_bullet_items(x: Seq<char>)
    ensures
        list_item("- "@ + x) == Some(trim(x)),
        list_item("* "@ + x) == Some(trim(x)),
        list_item("+ "@ + x) == Some(trim(x)),
{
    reveal_strlit("- ");
    reveal_strlit("* ");
    reveal_strlit("+ ");
    assert(("- "@ + x).take(2) =~= "- "@);
    assert(("- "@ + x).skip(2) =~= x);
    assert(("* "@ + x).take(2) =~= "* "@);
    assert(("* "@ + x).skip(2) =~= x);
    assert(("+ "@ + x).take(2) =~= "+ "@);
    assert(("+ "@ + x).skip(2) =~= x);
}

/// A line of ASCII digits followed by `. ` is a numbered list item whose
/// text is the rest of the line, trimmed.
pub proof fn law_numbered_items(d: Seq<char>, x: Seq<char>)
    requires
        ascii_digits(d),
    ensures
        list_item(d + ". "@ + x) == Some(trim(x)),
{
    reveal_strlit(". ");
    reveal_strlit("- ");
    reveal_strlit("* ");
    reveal_strlit("+ ");
    let line = d + ". "@ + x;
    let p = d.len() as int;
    assert(line[p] == '.' && line[p + 1] == ' ');
    assert forall|q: int| 0 <= q < p implies !(#[trigger] line[q] == '.' && line[q + 1] == ' ') by {
        assert(line[q] == d[q]);
    }
    assert(first_dot_space(line, p));
    let c = choose|q: int| #[trigger] first_dot_space(line, q);
    if c < p {
        assert(line[c] == d[c]);
    }
    if c > p {
        assert(!(line[p] == '.' && line[p + 1] == ' '));
    }
    assert(c == p);
    assert(line.take(p) =~= d);
    assert(line.skip(p + 2) =~= x);
    if p > 0 {
        assert(line[0] == d[0]);
    }
    assert(!starts_with(line, "- "@)) by {
        if starts_with(line, "- "@) {
            assert(line.take(2)[0] == line[0]);
        }
    }
    assert(!starts_with(line, "* "@)) by {
        if starts_with(line, "* "@) {
            assert(line.take(2)[0] == line[0]);
        }
    }
    assert(!starts_with(line, "+ "@)) by {
        if starts_with(line, "+ "@) {
            assert(line.take(2)[0] == line[0]);
        }
    }
}

fn starts_with_exec(s: &str, p: &str) -> (r: bool)
    ensures
        r == starts_with(s@, p@),
{
    let n = s.unicode_len();
    let m = p.unicode_len();
    if m > n {
        return false;
    }
    let head = s.substring_char(0, m);
    proof {
        assert(head@ =~= s@.take(m as int));
    }
    crate::text::str_eq(head, p)
}

fn list_item_exec(line: &str) -> (r: Option<&str>)
    ensures
        match r {
            Some(item) => list_item(line@) == Some(item@),
            None => list_item(line@) is None,
        },
{
    let n = line.unicode_len();
    if starts_with_exec(line, "- ") || starts_with_exec(line, "* ") || starts_with_exec(line, "+ ") {
        proof {
            reveal_strlit("- ");
            reveal_strlit("* ");
            reveal_strlit("+ ");
        }
        let rest = line.substring_char(2, n);
        proof {
            assert(rest@ =~= line@.skip(2));
        }
        return Some(trim_str(rest));
    }
    let mut p: usize = 0;
    while p < n && p + 1 < n && !(line.get_char(p) == '.' && line.get_char(p + 1) == ' ')
        invariant
            n == line@.len(),
            p <= n,
            forall|q: int| 0 <= q < p ==> !(#[trigger] line@[q] == '.' && line@[q + 1] == ' '),
        decreases n - p,
    {
        p = p + 1;
    }
    if p >= n || p + 1 >= n {
        proof {
            if exists|q: int| #[trigger] first_dot_space(line@, q) {
                let q = choose|q: int| #[trigger] first_dot_space(line@, q);
                assert(line@[q] == '.' && line@[q + 1] == ' ');
            }
        }
        return None;
    }
    proof {
        assert(first_dot_space(line@, p as int));
        let c = choose|q: int| #[trigger] first_dot_space(line@, q);
        if c < p {
            assert(line@[c] == '.' && line@[c + 1] == ' ');
        }
        if c > p {
            assert(!(line@[p as int] == '.' && line@[p + 1] == ' '));
        }
    }
    let ghost expected = if ascii_digits(line@.take(p as int)) { Some(trim(line@.skip(p + 2))) } else { None };
    assert(list_item(line@) == expected);
    let mut k: usize = 0;
    while k < p
        invariant
            p + 1 < n,
            n == line@.len(),
            list_item(line@) == expected,
            expected == if ascii_digits(line@.take(p as int)) { Some(trim(line@.skip(p + 2))) } else { None },
            k <= p,
            forall|j: int| 0 <= j < k ==> '0' <= #[trigger] line@[j] <= '9',
        decreases p - k,
    {
        let c = line.get_char(k);
        if !('0' <= c && c <= '9') {
            proof {
                assert(line@.take(p as int)[k as int] == c);
            }
            return None;
        }
        k = k + 1;
    }
    let rest = line.substring_char(p + 2, n);
    proof {
        assert(rest@ =~= line@.skip(p + 2));
        assert forall|j: int| 0 <= j < line@.take(p as int).len() implies '0' <= #[trigger] line@.take(p as int)[j] <= '9' by {
            assert(line@.take(p as int)[j] == line@[j]);
        }
    }
    Some(trim_str(rest))
}

/// A (trimmed) line ends the criteria list: it is not a list item and ends
/// with `:` or starts with `#`.
pub open spec fn looks_like_heading(line: Seq<char>) -> bool {
    list_item(line) is None && line.len() > 0 && (line.last() == ':' || line[0] == '#')
}

/// The list items under a heading: blank lines are skipped, a heading ends
/// the list, other lines that are not items are ignored.
pub open spec fn criteria_after(lines: Seq<Seq<char>>) -> Seq<Seq<char>>
    decreases lines.len(),
{
    if lines.len() == 0 {
        Seq::empty()
    } else {
        let t = trim(lines[0]);
        if t.len() == 0 {
            criteria_after(lines.drop_first())
        } else if looks_like_heading(t) {
            Seq::empty()
        } else {
            match list_item(t) {
                Some(item) => seq![item] + criteria_after(lines.drop_first()),
                None => criteria_after(lines.drop_first()),
            }
        }
    }
}

/// The criteria of the first acceptance heading at or after `from` that
/// has a non-empty list.
pub open spec fn criteria_from(lines: Seq<Seq<char>>, from: int) -> Option<Seq<Seq<char>>>
    decreases lines.len() - from,
{
    if from < 0 || from >= lines.len() {
        None
    } else if is_acceptance_heading(lines[from]) && criteria_after(lines.skip(from + 1)).len() > 0 {
        Some(criteria_after(lines.skip(from + 1)))
    } else {
        criteria_from(lines, from + 1)
    }
}

/// The acceptance criteria of an issue body, if it has any.
pub open spec fn acceptance_criteria(body: Seq<char>) -> Option<Seq<Seq<char>>> {
    criteria_from(text_lines(body), 0)
}

/// Before `i`, no line normalises to an acceptance heading name with list
/// items under it.
proof fn lemma_criteria_skip_to(ls: Seq<Seq<char>>, j: int, i: int)
    requires
        0 <= j <= i,
        i <= ls.len(),
        forall|m: int| j <= m < i ==> {
            let h = normalized_heading(#[trigger] ls[m]);
            !((h == "acceptance criteria"@ || h == "verification criteria"@ || h == "verification gate"@ || h == "what must be true"@) && criteria_after(ls.skip(m + 1)).len() > 0)
        },
    ensures
        criteria_from(ls, j) == criteria_from(ls, i),
    decreases i - j,
{
    if j < i {
        let h = normalized_heading(ls[j]);
        assert(!((h == "acceptance criteria"@ || h == "verification criteria"@ || h == "verification gate"@ || h == "what must be true"@) && criteria_after(ls.skip(j + 1)).len() > 0));
        lemma_criteria_skip_to(ls, j + 1, i);
    }
}

/// The acceptance criteria of an issue body are the list items under its
/// first line whose normalised heading (trimmed, without leading `#` and
/// trailing `:`, in lower case) is `acceptance criteria`, `verification
/// criteria`, `verification gate` or `what must be true` and that has list
/// items under it.
pub proof fn law_first_listed_acceptance_heading(body: Seq<char>, i: int)
    requires
        0 <= i < text_lines(body).len(),
        ({
            let h = normalized_heading(text_lines(body)[i]);
            (h == "acceptance criteria"@ || h == "verification criteria"@ || h == "verification gate"@ || h == "what must be true"@)
        }),
        criteria_after(text_lines(body).skip(i + 1)).len() > 0,
        forall|j: int| 0 <= j < i ==> {
            let h = normalized_heading(#[trigger] text_lines(body)[j]);
            !((h == "acceptance criteria"@ || h == "verification criteria"@ || h == "verification gate"@ || h == "what must be true"@) && criteria_after(text_lines(body).skip(j + 1)).len() > 0)
        },
    ensures
        acceptance_criteria(body) == Some(criteria_after(text_lines(body).skip(i + 1))),
{
    let ls = text_lines(body);
    lemma_criteria_skip_to(ls, 0, i);
}

/// An issue body none of whose lines normalises to an acceptance heading
/// name with list items under it has no acceptance criteria.
pub proof fn law_no_listed_acceptance_heading(body: Seq<char>)
    requires
        forall|j: int| 0 <= j < text_lines(body).len() ==> {
            let h = normalized_heading(#[trigger] text_lines(body)[j]);
            !((h == "acceptance criteria"@ || h == "verification criteria"@ || h == "verification gate"@ || h == "what must be true"@) && criteria_after(text_lines(body).skip(j + 1)).len() > 0)
        },
    ensures
        acceptance_criteria(body) is None,
{
    let ls = text_lines(body);
    lemma_criteria_skip_to(ls, 0, ls.len() as int);
}

fn criteria_after_exec(lines: &Vec<String>, start: usize) -> (r: Vec<String>)
    requires
        start <= lines@.len(),
    ensures
        crate::text::views(r@) == criteria_after(crate::text::views(lines@).skip(start as int)),
{
    let ghost ls = crate::text::views(lines@);
    let mut acc: Vec<String> = Vec::new();
    let mut j: usize = start;
    proof {
        assert(crate::text::views(acc@) =~= Seq::<Seq<char>>::empty());
        assert(Seq::<Seq<char>>::empty() + criteria_after(ls.skip(j as int)) =~= criteria_after(ls.skip(j as int)));
    }
    while j < lines.len()
        invariant
            ls == crate::text::views(lines@),
            start <= j <= lines@.len(),
            criteria_after(ls.skip(start as int)) == crate::text::views(acc@) + criteria_after(ls.skip(j as int)),
        decreases lines@.len() - j,
    {
        let ghost rest = ls.skip(j as int);
        proof {
            assert(rest[0] == lines@[j as int]@);
            assert(rest.drop_first() =~= ls.skip(j + 1));
        }
        let t = trim_str(lines[j].as_str());
        if t.unicode_len() == 0 {
            j = j + 1;
            continue;
        }
        let item = list_item_exec(t);
        let n = t.unicode_len();
        let heading = item.is_none() && (t.get_char(n - 1) == ':' || t.get_char(0) == '#');
        if heading {
            proof {
                assert(criteria_after(rest) =~= Seq::<Seq<char>>::empty());
                assert(crate::text::views(acc@) + Seq::<Seq<char>>::empty() =~= crate::text::views(acc@));
            }
            return acc;
        }
        match item {
            Some(it) => {
                let ghost before = crate::text::views(acc@);
                acc.push(owned(it));
                proof {
                    assert(crate::text::views(acc@) =~= before.push(it@));
                    assert(before + (seq![it@] + criteria_after(ls.skip(j + 1))) =~= before.push(it@) + criteria_after(ls.skip(j + 1)));
                }
            },
            None => {},
        }
        j = j + 1;
    }
    proof {
        assert(ls.skip(lines@.len() as int) =~= Seq::<Seq<char>>::empty());
        assert(crate::text::views(acc@) + Seq::<Seq<char>>::empty() =~= crate::text::views(acc@));
    }
    acc
}

/// The acceptance criteria of an issue body: the list under the first
/// acceptance heading (`Acceptance criteria`, `Verification criteria`,
/// `Verification gate` or `What must be true`, any `#` prefix, `:` suffix
/// or case) that has list items.
pub fn extract_acceptance_criteria(body: &str) -> (r: Result<Vec<String>, TakeError>)
    ensures
        match acceptance_criteria(body@) {
            Some(cs) => r is Ok && crate::text::views(r->Ok_0@) == cs,
            None => r matches Err(TakeError::MissingAcceptanceCriteria),
        },
{
    let lines = text_lines_exec(body);
    let ghost ls = crate::text::views(lines@);
    let mut index: usize = 0;
    while index < lines.len()
        invariant
            ls == crate::text::views(lines@),
            ls == text_lines(body@),
            index <= lines@.len(),
            criteria_from(ls, 0) == criteria_from(ls, index as int),
        decreases lines@.len() - index,
    {
        proof {
            assert(ls[index as int] == lines@[index as int]@);
        }
        if is_acceptance_heading_exec(lines[index].as_str()) {
            let criteria = criteria_after_exec(&lines, index + 1);
            if criteria.len() > 0 {
                return Ok(criteria);
            }
        }
        index = index + 1;
    }
    Err(TakeError::MissingAcceptanceCriteria)
}


// ---------------------------------------------------------------------------
// Issues and the work units they become.
// ---------------------------------------------------------------------------

/// Where a taken issue lives on its forge.
#[derive(Debug, Clone, PartialEq, Eq)]
pub enum ForgeHandle {
    Github { url: String, number: u64 },
    Sourcehut { tracker_id: u64, number: u64 },
}

/// An issue read from a forge.
#[derive(Debug, Clone, PartialEq, Eq)]
pub struct ForgeIssue {
    pub title: String,
    pub body: String,
    pub handle: ForgeHandle,
}

/// The value is the JSON string `s`.
pub open spec fn is_text(v: JsonValue, s: Seq<char>) -> bool {
    v matches JsonValue::Str(x) && x@ == s
}

/// The value is the JSON number `n`.
pub open spec fn is_count(v: JsonValue, n: u64) -> bool {
    v matches JsonValue::Number(x) && x@ == decimal(n as nat)
}

/// `v` is the JSON form of the handle: its forge tag, number and URL or
/// tracker id, keys in order.
pub open spec fn handle_json(h: ForgeHandle, v: JsonValue) -> bool {
    &&& v is Object
    &&& v->Object_0@.len() == 3
    &&& v->Object_0@[0].0@ == "forge_tag"@
    &&& v->Object_0@[1].0@ == "number"@
    &&& match h {
        ForgeHandle::Github { url, number } => is_text(v->Object_0@[0].1, "github"@) && is_count(v->Object_0@[1].1, number)
            && v->Object_0@[2].0@ == "url"@ && is_text(v->Object_0@[2].1, url@),
        ForgeHandle::Sourcehut { tracker_id, number } => is_text(v->Object_0@[0].1, "sourcehut"@) && is_count(v->Object_0@[1].1, number)
            && v->Object_0@[2].0@ == "tracker_id"@ && is_count(v->Object_0@[2].1, tracker_id),
    }
}

/// `v` is the work-unit document of an issue: its acceptance criteria,
/// description, handle and title, keys in order.
pub open spec fn work_unit_json(title: Seq<char>, description: Seq<char>, criteria: Seq<Seq<char>>, h: ForgeHandle, v: JsonValue) -> bool {
    &&& v is Object
    &&& v->Object_0@.len() == 4
    &&& v->Object_0@[0].0@ == "acceptance_criteria"@
    &&& v->Object_0@[0].1 is Array
    &&& v->Object_0@[0].1->Array_0@.len() == criteria.len()
    &&& forall|k: int| 0 <= k < criteria.len() ==> is_text(#[trigger] v->Object_0@[0].1->Array_0@[k], criteria[k])
    &&& v->Object_0@[1].0@ == "description"@
    &&& is_text(v->Object_0@[1].1, description)
    &&& v->Object_0@[2].0@ == "handle"@
    &&& handle_json(h, v->Object_0@[2].1)
    &&& v->Object_0@[3].0@ == "title"@
    &&& is_text(v->Object_0@[3].1, title)
}

fn count_json(n: u64) -> (r: JsonValue)
    ensures
        is_count(r, n),
{
    JsonValue::Number(crate::text::u64_to_string(n))
}

fn text_json(s: &str) -> (r: JsonValue)
    ensures
        is_text(r, s@),
{
    JsonValue::Str(owned(s))
}

impl ForgeHandle {
    /// The JSON form of the handle.
    pub fn to_json(&self) -> (r: JsonValue)
        ensures
            handle_json(*self, r),
    {
        match self {
            ForgeHandle::Github { url, number } => {
                let mut members: Vec<(String, JsonValue)> = Vec::new();
                members.push((owned("forge_tag"), text_json("github")));
                members.push((owned("number"), count_json(*number)));
                members.push((owned("url"), text_json(url.as_str())));
                JsonValue::Object(members)
            },
            ForgeHandle::Sourcehut { tracker_id, number } => {
                let mut members: Vec<(String, JsonValue)> = Vec::new();
                members.push((owned("forge_tag"), text_json("sourcehut")));
                members.push((owned("number"), count_json(*number)));
                members.push((owned("tracker_id"), count_json(*tracker_id)));
                JsonValue::Object(members)
            },
        }
    }
}

impl ForgeIssue {
    /// The work-unit document of the issue: the body, trimmed, is its
    /// description and must not be empty; its acceptance criteria must be
    /// found in it.
    pub fn into_work_unit(self) -> (r: Result<JsonValue, TakeError>)
        ensures
            trim(self.body@).len() == 0 ==> r matches Err(TakeError::EmptyIssueBody),
            trim(self.body@).len() > 0 ==> match acceptance_criteria(trim(self.body@)) {
                None => r matches Err(TakeError::MissingAcceptanceCriteria),
                Some(cs) => r is Ok && work_unit_json(self.title@, trim(self.body@), cs, self.handle, r->Ok_0),
            },
    {
        let description = trim_str(self.body.as_str());
        if description.unicode_len() == 0 {
            return Err(TakeError::EmptyIssueBody);
        }
        let criteria = match extract_acceptance_criteria(description) {
            Ok(c) => c,
            Err(e) => {
                return Err(e);
            },
        };
        let mut items: Vec<JsonValue> = Vec::new();
        let mut i: usize = 0;
        while i < criteria.len()
            invariant
                i <= criteria@.len(),
                items@.len() == i,
                forall|k: int| 0 <= k < i ==> is_text(#[trigger] items@[k], criteria@[k]@),
            decreases criteria@.len() - i,
        {
            items.push(text_json(criteria[i].as_str()));
            i = i + 1;
        }
        let mut members: Vec<(String, JsonValue)> = Vec::new();
        members.push((owned("acceptance_criteria"), JsonValue::Array(items)));
        members.push((owned("description"), text_json(description)));
        members.push((owned("handle"), self.handle.to_json()));
        members.push((owned("title"), text_json(self.title.as_str())));
        let r = JsonValue::Object(members);
        proof {
            assert forall|k: int| 0 <= k < criteria@.len() implies is_text(#[trigger] r->Object_0@[0].1->Array_0@[k], crate::text::views(criteria@)[k]) by {
                assert(crate::text::views(criteria@)[k] == criteria@[k]@);
            }
        }
        Ok(r)
    }
}

// ---------------------------------------------------------------------------
// Reading forge responses.
// ---------------------------------------------------------------------------

/// The number a JSON number text denotes when it is a non-negative integer
/// that fits in 64 bits.
pub open spec fn json_u64(text: Seq<char>) -> Option<int> {
    if text.len() > 0 && ascii_digits(text) { parse_u64(text) } else { None }
}

fn required_string<'a>(value: &'a JsonValue, field: &'static str) -> (r: Result<&'a str, TakeError>)
    ensures
        match json_get(*value, field@) {
            Some(JsonValue::Str(s)) => r is Ok && r->Ok_0@ == s@,
            _ => r matches Err(TakeError::MissingResponseField(f)) && f == field,
        },
{
    match get(value, field) {
        Some(JsonValue::Str(s)) => Ok(s.as_str()),
        _ => Err(TakeError::MissingResponseField(field)),
    }
}

pub(crate) fn json_u64_exec(text: &str) -> (r: Option<u64>)
    ensures
        match r {
            Some(n) => json_u64(text@) == Some(n as int),
            None => json_u64(text@) is None,
        },
{
    let n = text.unicode_len();
    if n == 0 {
        return None;
    }
    let mut k: usize = 0;
    while k < n
        invariant
            n == text@.len(),
            k <= n,
            forall|j: int| 0 <= j < k ==> '0' <= #[trigger] text@[j] <= '9',
        decreases n - k,
    {
        let c = text.get_char(k);
        if !('0' <= c && c <= '9') {
            return None;
        }
        k = k + 1;
    }
    parse_u64_text(text)
}

fn required_u64(value: &JsonValue, field: &'static str) -> (r: Result<u64, TakeError>)
    ensures
        match json_get(*value, field@) {
            Some(JsonValue::Number(t)) => match json_u64(t@) {
                Some(n) => r is Ok && r->Ok_0 as int == n,
                None => r matches Err(TakeError::MissingResponseField(f)) && f == field,
            },
            _ => r matches Err(TakeError::MissingResponseField(f)) && f == field,
        },
{
    match get(value, field) {
        Some(JsonValue::Number(t)) => match json_u64_exec(t.as_str()) {
            Some(n) => Ok(n),
            None => Err(TakeError::MissingResponseField(field)),
        },
        _ => Err(TakeError::MissingResponseField(field)),
    }
}

/// The text of a string member, when it is one.
pub open spec fn text_field(v: JsonValue, key: Seq<char>) -> Option<Seq<char>> {
    match json_get(v, key) {
        Some(JsonValue::Str(s)) => Some(s@),
        _ => None,
    }
}

/// The number of a non-negative integer member, when it is one.
pub open spec fn count_field(v: JsonValue, key: Seq<char>) -> Option<int> {
    match json_get(v, key) {
        Some(JsonValue::Number(t)) => json_u64(t@),
        _ => None,
    }
}

/// Read a GitHub issue response: its number, then whether it is a pull
/// request, then its title, body and URL.
pub fn parse_github_issue(value: &JsonValue) -> (r: Result<ForgeIssue, TakeError>)
    ensures
        match count_field(*value, "number"@) {
            None => r matches Err(TakeError::MissingResponseField(f)) && f@ == "number"@,
            Some(number) => if json_get(*value, "pull_request"@) is Some {
                r matches Err(TakeError::PullRequestNotWorkUnit(n)) && n == number
            } else if text_field(*value, "title"@) is None {
                r matches Err(TakeError::MissingResponseField(f)) && f@ == "title"@
            } else if text_field(*value, "body"@) is None {
                r matches Err(TakeError::MissingResponseField(f)) && f@ == "body"@
            } else if text_field(*value, "html_url"@) is None {
                r matches Err(TakeError::MissingResponseField(f)) && f@ == "html_url"@
            } else {
                &&& r is Ok
                &&& r->Ok_0.title@ == text_field(*value, "title"@)->0
                &&& r->Ok_0.body@ == text_field(*value, "body"@)->0
                &&& r->Ok_0.handle is Github
                &&& r->Ok_0.handle->Github_url@ == text_field(*value, "html_url"@)->0
                &&& r->Ok_0.handle->Github_number == number
            },
        },
{
    let number = match required_u64(value, "number") {
        Ok(n) => n,
        Err(e) => {
            proof { reveal_strlit("number"); }
            return Err(e);
        },
    };
    if get(value, "pull_request").is_some() {
        return Err(TakeError::PullRequestNotWorkUnit(number));
    }
    let title = match required_string(value, "title") {
        Ok(t) => t,
        Err(e) => {
            proof { reveal_strlit("title"); }
            return Err(e);
        },
    };
    let body = match required_string(value, "body") {
        Ok(t) => t,
        Err(e) => {
            proof { reveal_strlit("body"); }
            return Err(e);
        },
    };
    let url = match required_string(value, "html_url") {
        Ok(t) => t,
        Err(e) => {
            proof { reveal_strlit("html_url"); }
            return Err(e);
        },
    };
    Ok(ForgeIssue { title: owned(title), body: owned(body), handle: ForgeHandle::Github { url: owned(url), number } })
}


/// The ticket a SourceHut response carries, under
/// `data.user.tracker.ticket`.
pub open spec fn sourcehut_ticket(v: JsonValue) -> Option<JsonValue> {
    match json_get(v, "data"@) {
        Some(d) => match json_get(d, "user"@) {
            Some(u) => match json_get(u, "tracker"@) {
                Some(t) => json_get(t, "ticket"@),
                None => None,
            },
            None => None,
        },
        None => None,
    }
}

/// The errors a SourceHut response reports: a non-empty `errors` array.
pub open spec fn reported_errors(v: JsonValue) -> bool {
    match json_get(v, "errors"@) {
        Some(JsonValue::Array(items)) => items@.len() > 0,
        _ => false,
    }
}

/// Read a SourceHut ticket response: reported errors first, then the
/// ticket's subject, body and id; the handle carries the configured tracker
/// id.
pub fn parse_sourcehut_issue(value: &JsonValue, tracker_id: u64) -> (r: Result<ForgeIssue, TakeError>)
    ensures
        if reported_errors(*value) {
            r matches Err(TakeError::ForgeApi(text)) && text@ == json_text(json_get(*value, "errors"@)->0)
        } else {
            match sourcehut_ticket(*value) {
                None => r matches Err(TakeError::MissingResponseField(f)) && f@ == "data.user.tracker.ticket"@,
                Some(ticket) => if text_field(ticket, "subject"@) is None {
                    r matches Err(TakeError::MissingResponseField(f)) && f@ == "subject"@
                } else if text_field(ticket, "body"@) is None {
                    r matches Err(TakeError::MissingResponseField(f)) && f@ == "body"@
                } else if count_field(ticket, "id"@) is None {
                    r matches Err(TakeError::MissingResponseField(f)) && f@ == "id"@
                } else {
                    &&& r is Ok
                    &&& r->Ok_0.title@ == text_field(ticket, "subject"@)->0
                    &&& r->Ok_0.body@ == text_field(ticket, "body"@)->0
                    &&& r->Ok_0.handle is Sourcehut
                    &&& r->Ok_0.handle->Sourcehut_tracker_id == tracker_id
                    &&& r->Ok_0.handle->Sourcehut_number as int == count_field(ticket, "id"@)->0
                },
            }
        },
{
    match get(value, "errors") {
        Some(errors) => {
            match errors {
                JsonValue::Array(items) => {
                    if items.len() > 0 {
                        return Err(TakeError::ForgeApi(to_json_string(errors)));
                    }
                },
                _ => {},
            }
        },
        None => {},
    }
    let missing = "data.user.tracker.ticket";
    proof { reveal_strlit("data.user.tracker.ticket"); }
    let data = match get(value, "data") {
        Some(d) => d,
        None => {
            return Err(TakeError::MissingResponseField(missing));
        },
    };
    let user = match get(data, "user") {
        Some(u) => u,
        None => {
            return Err(TakeError::MissingResponseField(missing));
        },
    };
    let tracker = match get(user, "tracker") {
        Some(t) => t,
        None => {
            return Err(TakeError::MissingResponseField(missing));
        },
    };
    let ticket = match get(tracker, "ticket") {
        Some(t) => t,
        None => {
            return Err(TakeError::MissingResponseField(missing));
        },
    };
    let title = match required_string(ticket, "subject") {
        Ok(t) => t,
        Err(e) => {
            proof { reveal_strlit("subject"); }
            return Err(e);
        },
    };
    let body = match required_string(ticket, "body") {
        Ok(t) => t,
        Err(e) => {
            proof { reveal_strlit("body"); }
            return Err(e);
        },
    };
    let number = match required_u64(ticket, "id") {
        Ok(n) => n,
        Err(e) => {
            proof { reveal_strlit("id"); }
            return Err(e);
        },
    };
    Ok(ForgeIssue { title: owned(title), body: owned(body), handle: ForgeHandle::Sourcehut { tracker_id, number } })
}

/// The credential variables of a forge, in order of preference.
pub fn credential_names(forge: &ResolvedForge) -> (r: Vec<&'static str>)
    ensures
        r@.len() == 2,
        forge is Github ==> r@[0]@ == "GITHUB_TOKEN"@ && r@[1]@ == "GH_TOKEN"@,
        forge is Sourcehut ==> r@[0]@ == "SOURCEHUT_TOKEN"@ && r@[1]@ == "SRHT_TOKEN"@,
{
    let mut names: Vec<&'static str> = Vec::new();
    match forge {
        ResolvedForge::Github { .. } => {
            names.push("GITHUB_TOKEN");
            names.push("GH_TOKEN");
        },
        ResolvedForge::Sourcehut { .. } => {
            names.push("SOURCEHUT_TOKEN");
            names.push("SRHT_TOKEN");
        },
    }
    names
}

/// The first of the named credentials with a non-empty value, from the
/// values the process has for them as `(name, value)` pairs.
pub fn required_credential(values: &Vec<(String, String)>, names: &Vec<&'static str>) -> (r: Result<String, TakeError>)
    requires
        names@.len() > 0,
    ensures
        match first_credential(env_view(values@), names@, 0) {
            Some(v) => r is Ok && r->Ok_0@ == v,
            None => r matches Err(TakeError::MissingCredential(n)) && n == names@[0],
        },
{
    let mut i: usize = 0;
    while i < names.len()
        invariant
            i <= names@.len(),
            first_credential(env_view(values@), names@, 0) == first_credential(env_view(values@), names@, i as int),
        decreases names@.len() - i,
    {
        match lookup(values, names[i]) {
            Some(v) => {
                if v.unicode_len() > 0 {
                    return Ok(owned(v));
                }
            },
            None => {},
        }
        i = i + 1;
    }
    Err(TakeError::MissingCredential(names[0]))
}

/// The first non-empty value among the names from position `i` on.
pub open spec fn first_credential(values: Seq<(Seq<char>, Seq<char>)>, names: Seq<&'static str>, i: int) -> Option<Seq<char>>
    decreases names.len() - i,
{
    if i < 0 || i >= names.len() {
        None
    } else {
        match env_get(values, names[i]@) {
            Some(v) => if v.len() > 0 { Some(v) } else { first_credential(values, names, i + 1) },
            None => first_credential(values, names, i + 1),
        }
    }
}


/// The `work-unit` artifact type of a methodology (its first declaration).
pub fn find_work_unit_type(artifact_types: &Vec<ArtifactType>) -> (r: Result<&ArtifactType, TakeError>)
    ensures
        match r {
            Ok(t) => exists|i: int| 0 <= i < artifact_types@.len() && *t == artifact_types@[i]
                && t.name@ == WORK_UNIT_ARTIFACT_TYPE@
                && forall|j: int| 0 <= j < i ==> (#[trigger] artifact_types@[j]).name@ != WORK_UNIT_ARTIFACT_TYPE@,
            Err(e) => e is MissingWorkUnitArtifactType
                && forall|j: int| 0 <= j < artifact_types@.len() ==> (#[trigger] artifact_types@[j]).name@ != WORK_UNIT_ARTIFACT_TYPE@,
        },
{
    let mut i: usize = 0;
    while i < artifact_types.len()
        invariant
            i <= artifact_types@.len(),
            forall|j: int| 0 <= j < i ==> (#[trigger] artifact_types@[j]).name@ != WORK_UNIT_ARTIFACT_TYPE@,
        decreases artifact_types@.len() - i,
    {
        if crate::text::str_eq(artifact_types[i].name.as_str(), WORK_UNIT_ARTIFACT_TYPE) {
            return Ok(&artifact_types[i]);
        }
        i = i + 1;
    }
    Err(TakeError::MissingWorkUnitArtifactType)
}

} // verus!
