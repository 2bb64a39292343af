//! Canonical forge-address contract.
//!
//! A forge-addressed value is a resource on a declared forge instance. The
//! instance is the sole home of the forge type and service hosts; resources
//! only point at an instance and carry resource-local coordinates.
use vstd::prelude::*;

use crate::forge_take::json_u64;
use crate::json::{JsonValue, get, json_get, json_text, to_json_string};
use crate::text::{decimal, is_ws, owned, push_decimal, push_str, str_eq, trim, trim_end, trim_start, trim_str, views};

verus! {

/// Environment variable carrying the serialized forge-address payload.
pub const FORGE_ADDRESSES_ENV: &'static str = "RUNA_FORGE_ADDRESSES";

/// Version of the serialized forge-address payload.
pub const PAYLOAD_SCHEMA_VERSION: u32 = 1;

/// The kinds of forge the runtime addresses.
#[derive(Debug, Clone, Copy, PartialEq, Eq, Hash, Structural)]
pub enum ForgeType {
    Github,
    Sourcehut,
}

/// The name of a forge type.
pub open spec fn forge_type_name(t: ForgeType) -> Seq<char> {
    match t {
        ForgeType::Github => "github"@,
        ForgeType::Sourcehut => "sourcehut"@,
    }
}

/// The forge type a trimmed name denotes, if any.
pub open spec fn forge_type_named(name: Seq<char>) -> Option<ForgeType> {
    if name == "github"@ {
        Some(ForgeType::Github)
    } else if name == "sourcehut"@ {
        Some(ForgeType::Sourcehut)
    } else {
        None
    }
}

/// Parsing the name of a forge type gives that type back.
pub proof fn law_forge_type_name_round_trip(t: ForgeType)
    ensures
        forge_type_named(trim(forge_type_name(t))) == Some(t),
{
    reveal_strlit("github");
    reveal_strlit("sourcehut");
    let s = forge_type_name(t);
    assert(!is_ws(s[0]));
    assert(trim_start(s) == s);
    assert(!is_ws(s.last()));
    assert(trim_end(s) == s);
}

/// The logical content of a forge-address error.
pub enum ForgeErrorView {
    UnsupportedForgeType { forge_type: Seq<char> },
    MissingServiceHost { instance: Seq<char>, forge_type: Seq<char>, service: Seq<char> },
    UnexpectedServiceHost { instance: Seq<char>, field: Seq<char> },
    DuplicateId { kind: Seq<char>, id: Seq<char> },
    UnknownInstance { resource_kind: Seq<char>, resource: Seq<char>, instance: Seq<char> },
    MissingSourcehutTrackerId { tracker: Seq<char> },
    AmbiguousBareTrackerReference,
    UnknownRepositorySelector(Seq<char>),
    UnknownTrackerSelector(Seq<char>),
    MissingDeploymentRepository,
    AmbiguousDeploymentRepository,
    MalformedPayload(Seq<char>),
}

/// Errors in forge-address configuration or lookups.
#[derive(Debug, Clone, PartialEq, Eq)]
pub enum ForgeAddressError {
    UnsupportedForgeType { forge_type: String },
    MissingServiceHost { instance: String, forge_type: String, service: &'static str },
    UnexpectedServiceHost { instance: String, field: &'static str },
    DuplicateId { kind: &'static str, id: String },
    UnknownInstance { resource_kind: &'static str, resource: String, instance: String },
    MissingSourcehutTrackerId { tracker: String },
    AmbiguousBareTrackerReference,
    UnknownRepositorySelector(String),
    UnknownTrackerSelector(String),
    MissingDeploymentRepository,
    AmbiguousDeploymentRepository,
    MalformedPayload(String),
}

impl View for ForgeAddressError {
    type V = ForgeErrorView;

    open spec fn view(&self) -> ForgeErrorView {
        match self {
            ForgeAddressError::UnsupportedForgeType { forge_type } =>
                ForgeErrorView::UnsupportedForgeType { forge_type: forge_type@ },
            ForgeAddressError::MissingServiceHost { instance, forge_type, service } =>
                ForgeErrorView::MissingServiceHost { instance: instance@, forge_type: forge_type@, service: service@ },
            ForgeAddressError::UnexpectedServiceHost { instance, field } =>
                ForgeErrorView::UnexpectedServiceHost { instance: instance@, field: field@ },
            ForgeAddressError::DuplicateId { kind, id } => ForgeErrorView::DuplicateId { kind: kind@, id: id@ },
            ForgeAddressError::UnknownInstance { resource_kind, resource, instance } =>
                ForgeErrorView::UnknownInstance { resource_kind: resource_kind@, resource: resource@, instance: instance@ },
            ForgeAddressError::MissingSourcehutTrackerId { tracker } =>
                ForgeErrorView::MissingSourcehutTrackerId { tracker: tracker@ },
            ForgeAddressError::AmbiguousBareTrackerReference => ForgeErrorView::AmbiguousBareTrackerReference,
            ForgeAddressError::UnknownRepositorySelector(s) => ForgeErrorView::UnknownRepositorySelector(s@),
            ForgeAddressError::UnknownTrackerSelector(s) => ForgeErrorView::UnknownTrackerSelector(s@),
            ForgeAddressError::MissingDeploymentRepository => ForgeErrorView::MissingDeploymentRepository,
            ForgeAddressError::AmbiguousDeploymentRepository => ForgeErrorView::AmbiguousDeploymentRepository,
            ForgeAddressError::MalformedPayload(s) => ForgeErrorView::MalformedPayload(s@),
        }
    }
}

impl ForgeType {
    /// Parse a forge type name, ignoring surrounding whitespace.
    pub fn parse(value: &str) -> (r: Result<ForgeType, ForgeAddressError>)
        ensures
            match forge_type_named(trim(value@)) {
                Some(t) => r == Ok::<ForgeType, ForgeAddressError>(t),
                None => r is Err && r->Err_0@ == (ForgeErrorView::UnsupportedForgeType { forge_type: trim(value@) }),
            },
    {
        let t = trim_str(value);
        proof {
            reveal_strlit("github");
            reveal_strlit("sourcehut");
        }
        if str_eq(t, "github") {
            Ok(ForgeType::Github)
        } else if str_eq(t, "sourcehut") {
            Ok(ForgeType::Sourcehut)
        } else {
            Err(ForgeAddressError::UnsupportedForgeType { forge_type: owned(t) })
        }
    }

    /// The name of this forge type.
    pub fn as_str(self) -> (r: &'static str)
        ensures
            r@ == forge_type_name(self),
    {
        match self {
            ForgeType::Github => "github",
            ForgeType::Sourcehut => "sourcehut",
        }
    }
}

/// The service hosts of a forge instance.
#[derive(Debug, Clone, PartialEq, Eq)]
pub struct ServiceHosts {
    pub git: String,
    pub tracker: String,
}

/// A declared forge instance.
#[derive(Debug, Clone, PartialEq, Eq)]
pub struct ForgeInstance {
    pub id: String,
    pub forge_type: ForgeType,
    pub services: ServiceHosts,
}

/// The identity prefix of an instance with the given type and hosts.
pub open spec fn identity_prefix_of(t: ForgeType, git: Seq<char>, tracker: Seq<char>) -> Seq<char> {
    match t {
        ForgeType::Github => "github@"@ + git,
        ForgeType::Sourcehut => "sourcehut@git="@ + git + ",tracker="@ + tracker,
    }
}

impl ForgeInstance {
    /// The identity prefix of this instance.
    pub open spec fn prefix(&self) -> Seq<char> {
        identity_prefix_of(self.forge_type, self.services.git@, self.services.tracker@)
    }

    /// The prefix shared by the identities of this instance's resources:
    /// `github@<host>` or `sourcehut@git=<git>,tracker=<tracker>`.
    pub fn identity_prefix(&self) -> (r: String)
        ensures
            r@ == self.prefix(),
    {
        match self.forge_type {
            ForgeType::Github => {
                let mut out = owned("github@");
                push_str(&mut out, self.services.git.as_str());
                out
            },
            ForgeType::Sourcehut => {
                let mut out = owned("sourcehut@git=");
                push_str(&mut out, self.services.git.as_str());
                push_str(&mut out, ",tracker=");
                push_str(&mut out, self.services.tracker.as_str());
                out
            },
        }
    }
}

/// A repository on a forge instance.
#[derive(Debug, Clone, PartialEq, Eq)]
pub struct ForgeRepository {
    pub id: String,
    pub instance: String,
    pub owner: String,
    pub name: String,
    pub identity: String,
}

/// An issue tracker on a forge instance.
#[derive(Debug, Clone, PartialEq, Eq)]
pub struct ForgeTracker {
    pub id: String,
    pub instance: String,
    pub owner: String,
    pub name: String,
    pub tracker_id: Option<String>,
    pub repository: Option<String>,
    pub identity: String,
}

/// The resolved forge-address set of a project.
#[derive(Debug, Clone, PartialEq, Eq, Default)]
pub struct ForgeProject {
    pub instances: Vec<ForgeInstance>,
    pub repositories: Vec<ForgeRepository>,
    pub trackers: Vec<ForgeTracker>,
}

/// Forge-address configuration as declared, before resolution.
#[derive(Debug, Clone, PartialEq, Eq, Default)]
pub struct RawForges {
    pub instances: Vec<RawForgeInstance>,
    pub repositories: Vec<RawRepository>,
    pub trackers: Vec<RawTracker>,
}

/// A forge instance as declared.
#[derive(Debug, Clone, PartialEq, Eq)]
pub struct RawForgeInstance {
    pub id: String,
    pub forge_type: String,
    pub host: Option<String>,
    pub git_host: Option<String>,
    pub tracker_host: Option<String>,
}

/// A repository as declared.
#[derive(Debug, Clone, PartialEq, Eq)]
pub struct RawRepository {
    pub id: String,
    pub instance: String,
    pub owner: String,
    pub name: String,
}

/// A tracker as declared.
#[derive(Debug, Clone, PartialEq, Eq)]
pub struct RawTracker {
    pub id: String,
    pub instance: String,
    pub owner: String,
    pub name: String,
    pub tracker_id: Option<String>,
}

// ---------------------------------------------------------------------------
// What resolution produces.
// ---------------------------------------------------------------------------

/// The error, if any, of resolving one declared instance.
pub open spec fn instance_error(ri: RawForgeInstance) -> Option<ForgeErrorView> {
    let name = trim(ri.forge_type@);
    match forge_type_named(name) {
        None => Some(ForgeErrorView::UnsupportedForgeType { forge_type: name }),
        Some(ForgeType::Github) => {
            if ri.git_host is Some {
                Some(ForgeErrorView::UnexpectedServiceHost { instance: ri.id@, field: "git_host"@ })
            } else if ri.tracker_host is Some {
                Some(ForgeErrorView::UnexpectedServiceHost { instance: ri.id@, field: "tracker_host"@ })
            } else if ri.host is None {
                Some(ForgeErrorView::MissingServiceHost { instance: ri.id@, forge_type: "github"@, service: "shared"@ })
            } else {
                None
            }
        },
        Some(ForgeType::Sourcehut) => {
            if ri.host is Some {
                Some(ForgeErrorView::UnexpectedServiceHost { instance: ri.id@, field: "host"@ })
            } else if ri.git_host is None {
                Some(ForgeErrorView::MissingServiceHost { instance: ri.id@, forge_type: "sourcehut"@, service: "git"@ })
            } else if ri.tracker_host is None {
                Some(ForgeErrorView::MissingServiceHost { instance: ri.id@, forge_type: "sourcehut"@, service: "tracker"@ })
            } else {
                None
            }
        },
    }
}

/// `inst` is what a declared instance without error resolves to.
pub open spec fn instance_resolves(ri: RawForgeInstance, inst: ForgeInstance) -> bool {
    &&& inst.id@ == ri.id@
    &&& forge_type_named(trim(ri.forge_type@)) == Some(inst.forge_type)
    &&& match inst.forge_type {
        ForgeType::Github => inst.services.git@ == ri.host->0@ && inst.services.tracker@ == ri.host->0@,
        ForgeType::Sourcehut => inst.services.git@ == ri.git_host->0@ && inst.services.tracker@ == ri.tracker_host->0@,
    }
}

/// The ids of a list of declared instances.
pub open spec fn raw_instance_ids(s: Seq<RawForgeInstance>) -> Seq<Seq<char>> {
    s.map_values(|r: RawForgeInstance| r.id@)
}

/// The first error among declared instances: a repeated id or an instance
/// that does not resolve, in declaration order.
pub open spec fn instances_error(s: Seq<RawForgeInstance>) -> Option<ForgeErrorView>
    decreases s.len(),
{
    if s.len() == 0 {
        None
    } else if instances_error(s.drop_last()) is Some {
        instances_error(s.drop_last())
    } else if raw_instance_ids(s.drop_last()).contains(s.last().id@) {
        Some(ForgeErrorView::DuplicateId { kind: "instance"@, id: s.last().id@ })
    } else {
        instance_error(s.last())
    }
}

/// The position of the first declared instance with the given id.
pub open spec fn instance_index(s: Seq<RawForgeInstance>, id: Seq<char>) -> Option<int> {
    if raw_instance_ids(s).contains(id) {
        Some(raw_instance_ids(s).index_of(id))
    } else {
        None
    }
}

/// The forge type of the declared instance with the given id.
pub open spec fn instance_type(s: Seq<RawForgeInstance>, id: Seq<char>) -> ForgeType {
    forge_type_named(trim(s[instance_index(s, id)->0].forge_type@))->0
}

/// The ids of a list of declared repositories.
pub open spec fn raw_repository_ids(s: Seq<RawRepository>) -> Seq<Seq<char>> {
    s.map_values(|r: RawRepository| r.id@)
}

/// The first error among declared repositories.
pub open spec fn repositories_error(insts: Seq<RawForgeInstance>, s: Seq<RawRepository>) -> Option<ForgeErrorView>
    decreases s.len(),
{
    if s.len() == 0 {
        None
    } else if repositories_error(insts, s.drop_last()) is Some {
        repositories_error(insts, s.drop_last())
    } else if raw_repository_ids(s.drop_last()).contains(s.last().id@) {
        Some(ForgeErrorView::DuplicateId { kind: "repository"@, id: s.last().id@ })
    } else if instance_index(insts, s.last().instance@) is None {
        Some(ForgeErrorView::UnknownInstance { resource_kind: "repository"@, resource: s.last().id@, instance: s.last().instance@ })
    } else {
        None
    }
}

/// The ids of the repositories that live on GitHub instances, which double
/// as trackers, in declaration order.
pub open spec fn github_repository_ids(insts: Seq<RawForgeInstance>, s: Seq<RawRepository>) -> Seq<Seq<char>>
    decreases s.len(),
{
    if s.len() == 0 {
        Seq::empty()
    } else if instance_type(insts, s.last().instance@) == ForgeType::Github {
        github_repository_ids(insts, s.drop_last()).push(s.last().id@)
    } else {
        github_repository_ids(insts, s.drop_last())
    }
}

/// The first repeated id among the GitHub repositories' trackers.
pub open spec fn derived_trackers_error(ids: Seq<Seq<char>>) -> Option<ForgeErrorView>
    decreases ids.len(),
{
    if ids.len() == 0 {
        None
    } else if derived_trackers_error(ids.drop_last()) is Some {
        derived_trackers_error(ids.drop_last())
    } else if ids.drop_last().contains(ids.last()) {
        Some(ForgeErrorView::DuplicateId { kind: "tracker"@, id: ids.last() })
    } else {
        None
    }
}

/// The ids of a list of declared trackers.
pub open spec fn raw_tracker_ids(s: Seq<RawTracker>) -> Seq<Seq<char>> {
    s.map_values(|r: RawTracker| r.id@)
}

/// The first error among declared trackers, given the ids the GitHub
/// repositories already took.
pub open spec fn trackers_error(insts: Seq<RawForgeInstance>, taken: Seq<Seq<char>>, s: Seq<RawTracker>) -> Option<ForgeErrorView>
    decreases s.len(),
{
    if s.len() == 0 {
        None
    } else if trackers_error(insts, taken, s.drop_last()) is Some {
        trackers_error(insts, taken, s.drop_last())
    } else if taken.contains(s.last().id@) || raw_tracker_ids(s.drop_last()).contains(s.last().id@) {
        Some(ForgeErrorView::DuplicateId { kind: "tracker"@, id: s.last().id@ })
    } else if instance_index(insts, s.last().instance@) is None {
        Some(ForgeErrorView::UnknownInstance { resource_kind: "tracker"@, resource: s.last().id@, instance: s.last().instance@ })
    } else if instance_type(insts, s.last().instance@) == ForgeType::Sourcehut && s.last().tracker_id is None {
        Some(ForgeErrorView::MissingSourcehutTrackerId { tracker: s.last().id@ })
    } else {
        None
    }
}

/// The first error of resolving a forge-address configuration, in the order
/// instances, repositories, trackers.
pub open spec fn resolve_error(raw: RawForges) -> Option<ForgeErrorView> {
    let insts = raw.instances@;
    let repos = raw.repositories@;
    let gh = github_repository_ids(insts, repos);
    if instances_error(insts) is Some {
        instances_error(insts)
    } else if repositories_error(insts, repos) is Some {
        repositories_error(insts, repos)
    } else if derived_trackers_error(gh) is Some {
        derived_trackers_error(gh)
    } else {
        trackers_error(insts, gh, raw.trackers@)
    }
}

/// The owner as a resource on a forge of type `t` records it: sourcehut
/// owners carry exactly one leading `~`.
pub open spec fn canonical_owner(t: ForgeType, owner: Seq<char>) -> Seq<char> {
    match t {
        ForgeType::Github => owner,
        ForgeType::Sourcehut => seq!['~'] + strip_leading_tildes(owner),
    }
}

/// The sequence without its leading `~` characters.
pub open spec fn strip_leading_tildes(s: Seq<char>) -> Seq<char>
    decreases s.len(),
{
    if s.len() > 0 && s[0] == '~' {
        strip_leading_tildes(s.drop_first())
    } else {
        s
    }
}

/// The resolved instance a resource names, given the resolved instances
/// `insts` of the declared instances `raw_insts`.
pub open spec fn resolved_instance(insts: Seq<ForgeInstance>, raw_insts: Seq<RawForgeInstance>, instance: Seq<char>) -> ForgeInstance {
    insts[instance_index(raw_insts, instance)->0]
}

/// `repo` is what a declared repository resolves to.
pub open spec fn repository_resolves(insts: Seq<ForgeInstance>, raw_insts: Seq<RawForgeInstance>, rr: RawRepository, repo: ForgeRepository) -> bool {
    let inst = resolved_instance(insts, raw_insts, rr.instance@);
    &&& repo.id@ == rr.id@
    &&& repo.instance@ == rr.instance@
    &&& repo.name@ == rr.name@
    &&& repo.owner@ == canonical_owner(inst.forge_type, rr.owner@)
    &&& repo.identity@ == inst.prefix() + "/repo/"@ + repo.owner@ + "/"@ + rr.name@
}

/// `t` is the tracker a GitHub repository `repo` doubles as.
pub open spec fn repository_tracker(insts: Seq<ForgeInstance>, raw_insts: Seq<RawForgeInstance>, repo: ForgeRepository, t: ForgeTracker) -> bool {
    let inst = resolved_instance(insts, raw_insts, repo.instance@);
    &&& t.id@ == repo.id@
    &&& t.instance@ == repo.instance@
    &&& t.owner@ == repo.owner@
    &&& t.name@ == repo.name@
    &&& t.tracker_id is None
    &&& t.repository is Some && t.repository->0@ == repo.id@
    &&& t.identity@ == inst.prefix() + "/tracker/"@ + repo.owner@ + "/"@ + repo.name@
}

/// `t` is what a declared tracker resolves to.
pub open spec fn tracker_resolves(insts: Seq<ForgeInstance>, raw_insts: Seq<RawForgeInstance>, rt: RawTracker, t: ForgeTracker) -> bool {
    let inst = resolved_instance(insts, raw_insts, rt.instance@);
    &&& t.id@ == rt.id@
    &&& t.instance@ == rt.instance@
    &&& t.name@ == rt.name@
    &&& t.owner@ == canonical_owner(inst.forge_type, rt.owner@)
    &&& t.repository is None
    &&& match inst.forge_type {
        ForgeType::Github => t.tracker_id is None && t.identity@ == inst.prefix() + "/tracker/"@ + t.owner@ + "/"@ + rt.name@,
        ForgeType::Sourcehut => t.tracker_id is Some && t.tracker_id->0@ == rt.tracker_id->0@
            && t.identity@ == inst.prefix() + "/tracker/"@ + t.owner@ + "/"@ + rt.name@ + "/"@ + rt.tracker_id->0@,
    }
}

/// The repository with the given id.
pub open spec fn repository_with_id(repos: Seq<ForgeRepository>, id: Seq<char>) -> ForgeRepository {
    repos[repos.map_values(|r: ForgeRepository| r.id@).index_of(id)]
}

/// `p` is the project a configuration without error resolves to.
pub open spec fn project_resolves(raw: RawForges, p: ForgeProject) -> bool {
    let gh = github_repository_ids(raw.instances@, raw.repositories@);
    let insts = p.instances@;
    let raw_insts = raw.instances@;
    &&& insts.len() == raw_insts.len()
    &&& forall|k: int| 0 <= k < insts.len() ==> #[trigger] instance_resolves(raw_insts[k], insts[k])
    &&& p.repositories@.len() == raw.repositories@.len()
    &&& forall|k: int| 0 <= k < p.repositories@.len() ==> #[trigger] repository_resolves(insts, raw_insts, raw.repositories@[k], p.repositories@[k])
    &&& p.trackers@.len() == gh.len() + raw.trackers@.len()
    &&& forall|k: int| 0 <= k < gh.len() ==> #[trigger] repository_tracker(insts, raw_insts, repository_with_id(p.repositories@, gh[k]), p.trackers@[k])
    &&& forall|m: int| 0 <= m < raw.trackers@.len() ==> #[trigger] tracker_resolves(insts, raw_insts, raw.trackers@[m], p.trackers@[gh.len() + m])
}

// ---------------------------------------------------------------------------
// Resolution.
// ---------------------------------------------------------------------------

proof fn lemma_strip_tildes_skip(s: Seq<char>, a: int)
    requires
        0 <= a <= s.len(),
        forall|k: int| 0 <= k < a ==> s[k] == '~',
        a < s.len() ==> s[a] != '~',
    ensures
        strip_leading_tildes(s) == s.skip(a),
    decreases a,
{
    if a == 0 {
        assert(s.skip(0) =~= s);
    } else {
        let t = s.drop_first();
        assert forall|k: int| 0 <= k < a - 1 implies t[k] == '~' by {
            assert(t[k] == s[k + 1]);
        }
        if a - 1 < t.len() {
            assert(t[a - 1] == s[a]);
        }
        lemma_strip_tildes_skip(t, a - 1);
        assert(t.skip(a - 1) =~= s.skip(a));
    }
}

/// The owner as recorded on a resource of a forge of type `forge_type`.
fn canonical_resource_owner(forge_type: ForgeType, owner: &str) -> (r: String)
    ensures
        r@ == canonical_owner(forge_type, owner@),
{
    match forge_type {
        ForgeType::Github => owned(owner),
        ForgeType::Sourcehut => {
            let n = owner.unicode_len();
            let mut a: usize = 0;
            while a < n && owner.get_char(a) == '~'
                invariant
                    n == owner@.len(),
                    a <= n,
                    forall|k: int| 0 <= k < a ==> owner@[k] == '~',
                decreases n - a,
            {
                a = a + 1;
            }
            proof {
                lemma_strip_tildes_skip(owner@, a as int);
            }
            let rest = owner.substring_char(a, n);
            let mut out = owned("~");
            push_str(&mut out, rest);
            proof {
                reveal_strlit("~");
                assert(rest@ =~= owner@.skip(a as int));
                assert(out@ =~= seq!['~'] + strip_leading_tildes(owner@));
            }
            out
        },
    }
}

fn clone_opt(s: &Option<String>) -> (r: Option<String>)
    ensures
        r == *s,
{
    match s {
        Some(v) => Some(v.clone()),
        None => None,
    }
}

/// Resolve one declared instance.
fn resolve_instance(raw: &RawForgeInstance) -> (r: Result<ForgeInstance, ForgeAddressError>)
    ensures
        match r {
            Ok(inst) => instance_error(*raw) is None && instance_resolves(*raw, inst),
            Err(e) => instance_error(*raw) == Some(e@),
        },
{
    proof {
        reveal_strlit("git_host");
        reveal_strlit("tracker_host");
        reveal_strlit("host");
        reveal_strlit("shared");
        reveal_strlit("git");
        reveal_strlit("tracker");
        reveal_strlit("github");
        reveal_strlit("sourcehut");
    }
    let forge_type = match ForgeType::parse(raw.forge_type.as_str()) {
        Ok(t) => t,
        Err(e) => {
            return Err(e);
        },
    };
    let services = match forge_type {
        ForgeType::Github => {
            if raw.git_host.is_some() {
                return Err(ForgeAddressError::UnexpectedServiceHost { instance: raw.id.clone(), field: "git_host" });
            }
            if raw.tracker_host.is_some() {
                return Err(ForgeAddressError::UnexpectedServiceHost { instance: raw.id.clone(), field: "tracker_host" });
            }
            match &raw.host {
                Some(host) => ServiceHosts { git: host.clone(), tracker: host.clone() },
                None => {
                    return Err(ForgeAddressError::MissingServiceHost {
                        instance: raw.id.clone(),
                        forge_type: owned(forge_type.as_str()),
                        service: "shared",
                    });
                },
            }
        },
        ForgeType::Sourcehut => {
            if raw.host.is_some() {
                return Err(ForgeAddressError::UnexpectedServiceHost { instance: raw.id.clone(), field: "host" });
            }
            let git = match &raw.git_host {
                Some(h) => h.clone(),
                None => {
                    return Err(ForgeAddressError::MissingServiceHost {
                        instance: raw.id.clone(),
                        forge_type: owned(forge_type.as_str()),
                        service: "git",
                    });
                },
            };
            let tracker = match &raw.tracker_host {
                Some(h) => h.clone(),
                None => {
                    return Err(ForgeAddressError::MissingServiceHost {
                        instance: raw.id.clone(),
                        forge_type: owned(forge_type.as_str()),
                        service: "tracker",
                    });
                },
            };
            ServiceHosts { git, tracker }
        },
    };
    Ok(ForgeInstance { id: raw.id.clone(), forge_type, services })
}

/// Without an error, declared instance ids are distinct and each instance resolves.
proof fn lemma_instances_ok(s: Seq<RawForgeInstance>)
    requires
        instances_error(s) is None,
    ensures
        forall|a: int, b: int| 0 <= a < b < s.len() ==> s[a].id@ != s[b].id@,
        forall|k: int| 0 <= k < s.len() ==> #[trigger] instance_error(s[k]) is None,
    decreases s.len(),
{
    if s.len() > 0 {
        let init = s.drop_last();
        lemma_instances_ok(init);
        assert forall|a: int, b: int| 0 <= a < b < s.len() implies s[a].id@ != s[b].id@ by {
            if b == s.len() - 1 {
                assert(raw_instance_ids(init)[a] == s[a].id@);
            } else {
                assert(init[a] == s[a] && init[b] == s[b]);
            }
        }
        assert forall|k: int| 0 <= k < s.len() implies #[trigger] instance_error(s[k]) is None by {
            if k < s.len() - 1 {
                assert(init[k] == s[k]);
            }
        }
    }
}

/// The first error of a prefix is the first error of the whole list.
proof fn lemma_instances_error_prefix(s: Seq<RawForgeInstance>, k: int)
    requires
        0 <= k <= s.len(),
        instances_error(s.take(k)) is Some,
    ensures
        instances_error(s) == instances_error(s.take(k)),
    decreases s.len() - k,
{
    if k < s.len() {
        assert(s.take(k + 1).drop_last() =~= s.take(k));
        lemma_instances_error_prefix(s, k + 1);
    } else {
        assert(s.take(k) =~= s);
    }
}

/// With distinct ids, the instance named by the id of position `j` is at `j`.
proof fn lemma_instance_index(s: Seq<RawForgeInstance>, j: int)
    requires
        0 <= j < s.len(),
        forall|a: int, b: int| 0 <= a < b < s.len() ==> s[a].id@ != s[b].id@,
    ensures
        instance_index(s, s[j].id@) == Some(j),
{
    let ids = raw_instance_ids(s);
    assert(ids[j] == s[j].id@);
    assert(ids.contains(s[j].id@));
    let i = ids.index_of(s[j].id@);
    assert(ids[i] == s[i].id@);
    if i < j {
        assert(s[i].id@ != s[j].id@);
    } else if i > j {
        assert(s[j].id@ != s[i].id@);
    }
}

/// The position of the first resolved instance with the given id.
fn find_instance(insts: &Vec<ForgeInstance>, id: &str) -> (r: Option<usize>)
    ensures
        match r {
            Some(j) => j < insts@.len() && insts@[j as int].id@ == id@ && forall|m: int| 0 <= m < j ==> insts@[m].id@ != id@,
            None => forall|m: int| 0 <= m < insts@.len() ==> insts@[m].id@ != id@,
        },
{
    let mut j: usize = 0;
    while j < insts.len()
        invariant
            j <= insts@.len(),
            forall|m: int| 0 <= m < j ==> insts@[m].id@ != id@,
        decreases insts@.len() - j,
    {
        if str_eq(insts[j].id.as_str(), id) {
            return Some(j);
        }
        j = j + 1;
    }
    None
}

/// Resolve the declared instances, stopping at the first error.
fn resolve_instances(raw: &Vec<RawForgeInstance>) -> (r: Result<Vec<ForgeInstance>, ForgeAddressError>)
    ensures
        match r {
            Ok(insts) => instances_error(raw@) is None && insts@.len() == raw@.len()
                && forall|k: int| 0 <= k < raw@.len() ==> #[trigger] instance_resolves(raw@[k], insts@[k]),
            Err(e) => instances_error(raw@) == Some(e@),
        },
{
    let mut insts: Vec<ForgeInstance> = Vec::new();
    let mut k: usize = 0;
    while k < raw.len()
        invariant
            k <= raw@.len(),
            instances_error(raw@.take(k as int)) is None,
            insts@.len() == k,
            forall|j: int| 0 <= j < k ==> #[trigger] instance_resolves(raw@[j], insts@[j]),
        decreases raw@.len() - k,
    {
        let ri = &raw[k];
        let ghost pre = raw@.take(k as int);
        let ghost cur = raw@.take(k + 1);
        proof {
            assert(cur.drop_last() =~= pre);
            assert(cur.last() == raw@[k as int]);
        }
        match find_instance(&insts, ri.id.as_str()) {
            Some(j) => {
                proof {
                    reveal_strlit("instance");
                    assert(instance_resolves(raw@[j as int], insts@[j as int]));
                    assert(pre[j as int] == raw@[j as int]);
                    assert(raw_instance_ids(pre)[j as int] == raw@[j as int].id@);
                    assert(raw_instance_ids(pre).contains(ri.id@));
                    lemma_instances_error_prefix(raw@, k + 1);
                }
                return Err(ForgeAddressError::DuplicateId { kind: "instance", id: ri.id.clone() });
            },
            None => {},
        }
        proof {
            if raw_instance_ids(pre).contains(ri.id@) {
                let m = choose|m: int| 0 <= m < raw_instance_ids(pre).len() && raw_instance_ids(pre)[m] == ri.id@;
                assert(pre[m] == raw@[m]);
                assert(instance_resolves(raw@[m], insts@[m]));
                assert(insts@[m].id@ == raw@[m].id@);
            }
        }
        match resolve_instance(ri) {
            Ok(inst) => {
                insts.push(inst);
            },
            Err(e) => {
                proof {
                    lemma_instances_error_prefix(raw@, k + 1);
                }
                return Err(e);
            },
        }
        k = k + 1;
    }
    assert(raw@.take(raw@.len() as int) =~= raw@);
    Ok(insts)
}

proof fn lemma_repositories_error_prefix(insts: Seq<RawForgeInstance>, s: Seq<RawRepository>, k: int)
    requires
        0 <= k <= s.len(),
        repositories_error(insts, s.take(k)) is Some,
    ensures
        repositories_error(insts, s) == repositories_error(insts, s.take(k)),
    decreases s.len() - k,
{
    if k < s.len() {
        assert(s.take(k + 1).drop_last() =~= s.take(k));
        lemma_repositories_error_prefix(insts, s, k + 1);
    } else {
        assert(s.take(k) =~= s);
    }
}

/// The instance a resource names, given resolved instances: its position
/// among the declared instances, when there is one.
fn lookup_instance(raw_insts: &Vec<RawForgeInstance>, insts: &Vec<ForgeInstance>, id: &str) -> (r: Option<usize>)
    requires
        instances_error(raw_insts@) is None,
        insts@.len() == raw_insts@.len(),
        forall|k: int| 0 <= k < raw_insts@.len() ==> #[trigger] instance_resolves(raw_insts@[k], insts@[k]),
    ensures
        match r {
            Some(j) => instance_index(raw_insts@, id@) == Some(j as int) && (j as int) < insts@.len()
                && resolved_instance(insts@, raw_insts@, id@) == insts@[j as int],
            None => instance_index(raw_insts@, id@) is None,
        },
{
    let r = find_instance(insts, id);
    proof {
        lemma_instances_ok(raw_insts@);
        match r {
            Some(j) => {
                assert(instance_resolves(raw_insts@[j as int], insts@[j as int]));
                lemma_instance_index(raw_insts@, j as int);
            },
            None => {
                if raw_instance_ids(raw_insts@).contains(id@) {
                    let m = choose|m: int| 0 <= m < raw_instance_ids(raw_insts@).len() && raw_instance_ids(raw_insts@)[m] == id@;
                    assert(instance_resolves(raw_insts@[m], insts@[m]));
                }
            },
        }
    }
    r
}

/// The position of the first repository with the given id.
fn find_repository(repos: &Vec<ForgeRepository>, id: &str) -> (r: Option<usize>)
    ensures
        match r {
            Some(j) => j < repos@.len() && repos@[j as int].id@ == id@,
            None => forall|m: int| 0 <= m < repos@.len() ==> repos@[m].id@ != id@,
        },
{
    let mut j: usize = 0;
    while j < repos.len()
        invariant
            j <= repos@.len(),
            forall|m: int| 0 <= m < j ==> repos@[m].id@ != id@,
        decreases repos@.len() - j,
    {
        if str_eq(repos[j].id.as_str(), id) {
            return Some(j);
        }
        j = j + 1;
    }
    None
}

/// Resolve the declared repositories, stopping at the first error.
fn resolve_repositories(raw_insts: &Vec<RawForgeInstance>, insts: &Vec<ForgeInstance>, raw: &Vec<RawRepository>) -> (r: Result<Vec<ForgeRepository>, ForgeAddressError>)
    requires
        instances_error(raw_insts@) is None,
        insts@.len() == raw_insts@.len(),
        forall|k: int| 0 <= k < raw_insts@.len() ==> #[trigger] instance_resolves(raw_insts@[k], insts@[k]),
    ensures
        match r {
            Ok(repos) => repositories_error(raw_insts@, raw@) is None && repos@.len() == raw@.len()
                && forall|k: int| 0 <= k < raw@.len() ==> #[trigger] repository_resolves(insts@, raw_insts@, raw@[k], repos@[k]),
            Err(e) => repositories_error(raw_insts@, raw@) == Some(e@),
        },
{
    let mut repos: Vec<ForgeRepository> = Vec::new();
    let mut k: usize = 0;
    while k < raw.len()
        invariant
            instances_error(raw_insts@) is None,
            insts@.len() == raw_insts@.len(),
            forall|i: int| 0 <= i < raw_insts@.len() ==> #[trigger] instance_resolves(raw_insts@[i], insts@[i]),
            k <= raw@.len(),
            repositories_error(raw_insts@, raw@.take(k as int)) is None,
            repos@.len() == k,
            forall|j: int| 0 <= j < k ==> #[trigger] repository_resolves(insts@, raw_insts@, raw@[j], repos@[j]),
        decreases raw@.len() - k,
    {
        let rr = &raw[k];
        let ghost pre = raw@.take(k as int);
        let ghost cur = raw@.take(k + 1);
        proof {
            assert(cur.drop_last() =~= pre);
            assert(cur.last() == raw@[k as int]);
            reveal_strlit("repository");
            reveal_strlit("/repo/");
            reveal_strlit("/");
        }
        match find_repository(&repos, rr.id.as_str()) {
            Some(j) => {
                proof {
                    assert(repository_resolves(insts@, raw_insts@, raw@[j as int], repos@[j as int]));
                    assert(pre[j as int] == raw@[j as int]);
                    assert(raw_repository_ids(pre)[j as int] == raw@[j as int].id@);
                    assert(raw_repository_ids(pre).contains(rr.id@));
                    lemma_repositories_error_prefix(raw_insts@, raw@, k + 1);
                }
                return Err(ForgeAddressError::DuplicateId { kind: "repository", id: rr.id.clone() });
            },
            None => {},
        }
        proof {
            if raw_repository_ids(pre).contains(rr.id@) {
                let m = choose|m: int| 0 <= m < raw_repository_ids(pre).len() && raw_repository_ids(pre)[m] == rr.id@;
                assert(pre[m] == raw@[m]);
                assert(repository_resolves(insts@, raw_insts@, raw@[m], repos@[m]));
            }
        }
        let idx = match lookup_instance(raw_insts, insts, rr.instance.as_str()) {
            Some(i) => i,
            None => {
                proof {
                    lemma_repositories_error_prefix(raw_insts@, raw@, k + 1);
                }
                return Err(ForgeAddressError::UnknownInstance {
                    resource_kind: "repository",
                    resource: rr.id.clone(),
                    instance: rr.instance.clone(),
                });
            },
        };
        let inst = &insts[idx];
        let owner = canonical_resource_owner(inst.forge_type, rr.owner.as_str());
        let mut identity = inst.identity_prefix();
        push_str(&mut identity, "/repo/");
        push_str(&mut identity, owner.as_str());
        push_str(&mut identity, "/");
        push_str(&mut identity, rr.name.as_str());
        repos.push(ForgeRepository {
            id: rr.id.clone(),
            instance: rr.instance.clone(),
            owner,
            name: rr.name.clone(),
            identity,
        });
        proof {
            assert(repository_resolves(insts@, raw_insts@, raw@[k as int], repos@[k as int]));
        }
        k = k + 1;
    }
    assert(raw@.take(raw@.len() as int) =~= raw@);
    Ok(repos)
}

/// Without an error, declared repository ids are distinct and every
/// repository names a declared instance.
proof fn lemma_repositories_ok(insts: Seq<RawForgeInstance>, s: Seq<RawRepository>)
    requires
        repositories_error(insts, s) is None,
    ensures
        forall|a: int, b: int| 0 <= a < b < s.len() ==> s[a].id@ != s[b].id@,
        forall|k: int| 0 <= k < s.len() ==> #[trigger] instance_index(insts, s[k].instance@) is Some,
    decreases s.len(),
{
    if s.len() > 0 {
        let init = s.drop_last();
        lemma_repositories_ok(insts, init);
        assert forall|a: int, b: int| 0 <= a < b < s.len() implies s[a].id@ != s[b].id@ by {
            if b == s.len() - 1 {
                assert(raw_repository_ids(init)[a] == s[a].id@);
            } else {
                assert(init[a] == s[a] && init[b] == s[b]);
            }
        }
        assert forall|k: int| 0 <= k < s.len() implies #[trigger] instance_index(insts, s[k].instance@) is Some by {
            if k < s.len() - 1 {
                assert(init[k] == s[k]);
            }
        }
    }
}

/// With distinct ids, the repository with the id of position `k` is at `k`.
proof fn lemma_repository_with_id(repos: Seq<ForgeRepository>, k: int)
    requires
        0 <= k < repos.len(),
        forall|a: int, b: int| 0 <= a < b < repos.len() ==> repos[a].id@ != repos[b].id@,
    ensures
        repository_with_id(repos, repos[k].id@) == repos[k],
{
    let ids = repos.map_values(|r: ForgeRepository| r.id@);
    assert(ids[k] == repos[k].id@);
    assert(ids.contains(repos[k].id@));
    let i = ids.index_of(repos[k].id@);
    assert(ids[i] == repos[i].id@);
    if i < k {
        assert(repos[i].id@ != repos[k].id@);
    } else if i > k {
        assert(repos[k].id@ != repos[i].id@);
    }
}

/// The resolved instance type of a declared instance is its declared type.
proof fn lemma_instance_type(raw_insts: Seq<RawForgeInstance>, insts: Seq<ForgeInstance>, id: Seq<char>)
    requires
        insts.len() == raw_insts.len(),
        forall|k: int| 0 <= k < raw_insts.len() ==> #[trigger] instance_resolves(raw_insts[k], insts[k]),
        instance_index(raw_insts, id) is Some,
    ensures
        resolved_instance(insts, raw_insts, id).forge_type == instance_type(raw_insts, id),
{
    let i = instance_index(raw_insts, id)->0;
    assert(raw_instance_ids(raw_insts)[i] == id);
    assert(instance_resolves(raw_insts[i], insts[i]));
}

proof fn lemma_derived_error_prefix(ids: Seq<Seq<char>>, k: int)
    requires
        0 <= k <= ids.len(),
        derived_trackers_error(ids.take(k)) is Some,
    ensures
        derived_trackers_error(ids) == derived_trackers_error(ids.take(k)),
    decreases ids.len() - k,
{
    if k < ids.len() {
        assert(ids.take(k + 1).drop_last() =~= ids.take(k));
        lemma_derived_error_prefix(ids, k + 1);
    } else {
        assert(ids.take(k) =~= ids);
    }
}

proof fn lemma_github_ids_prefix(insts: Seq<RawForgeInstance>, s: Seq<RawRepository>, k: int)
    requires
        0 <= k <= s.len(),
    ensures
        github_repository_ids(insts, s.take(k)).len() <= github_repository_ids(insts, s).len(),
        github_repository_ids(insts, s.take(k)) == github_repository_ids(insts, s).take(github_repository_ids(insts, s.take(k)).len() as int),
    decreases s.len() - k,
{
    if k < s.len() {
        assert(s.take(k + 1).drop_last() =~= s.take(k));
        lemma_github_ids_prefix(insts, s, k + 1);
        let a = github_repository_ids(insts, s.take(k));
        let b = github_repository_ids(insts, s.take(k + 1));
        let full = github_repository_ids(insts, s);
        if b.len() == a.len() + 1 {
            assert(b.drop_last() == a);
            assert(a =~= full.take(a.len() as int));
        } else {
            assert(a == b);
        }
    } else {
        assert(s.take(k) =~= s);
        let full = github_repository_ids(insts, s);
        assert(full.take(full.len() as int) =~= full);
    }
}

/// The position of the first tracker with the given id.
fn find_tracker(ts: &Vec<ForgeTracker>, id: &str) -> (r: Option<usize>)
    ensures
        match r {
            Some(j) => j < ts@.len() && ts@[j as int].id@ == id@,
            None => forall|m: int| 0 <= m < ts@.len() ==> ts@[m].id@ != id@,
        },
{
    let mut j: usize = 0;
    while j < ts.len()
        invariant
            j <= ts@.len(),
            forall|m: int| 0 <= m < j ==> ts@[m].id@ != id@,
        decreases ts@.len() - j,
    {
        if str_eq(ts[j].id.as_str(), id) {
            return Some(j);
        }
        j = j + 1;
    }
    None
}

/// The trackers the GitHub repositories double as, in declaration order.
fn derive_trackers(
    raw_insts: &Vec<RawForgeInstance>,
    insts: &Vec<ForgeInstance>,
    raw_repos: &Vec<RawRepository>,
    repos: &Vec<ForgeRepository>,
) -> (r: Result<Vec<ForgeTracker>, ForgeAddressError>)
    requires
        instances_error(raw_insts@) is None,
        insts@.len() == raw_insts@.len(),
        forall|k: int| 0 <= k < raw_insts@.len() ==> #[trigger] instance_resolves(raw_insts@[k], insts@[k]),
        repositories_error(raw_insts@, raw_repos@) is None,
        repos@.len() == raw_repos@.len(),
        forall|k: int| 0 <= k < raw_repos@.len() ==> #[trigger] repository_resolves(insts@, raw_insts@, raw_repos@[k], repos@[k]),
    ensures
        match r {
            Ok(ts) => {
                let gh = github_repository_ids(raw_insts@, raw_repos@);
                &&& derived_trackers_error(gh) is None
                &&& ts@.len() == gh.len()
                &&& forall|k: int| 0 <= k < gh.len() ==> ts@[k].id@ == #[trigger] gh[k]
                &&& forall|k: int| 0 <= k < gh.len() ==> #[trigger] repository_tracker(insts@, raw_insts@, repository_with_id(repos@, gh[k]), ts@[k])
            },
            Err(e) => derived_trackers_error(github_repository_ids(raw_insts@, raw_repos@)) == Some(e@),
        },
{
    proof {
        lemma_repositories_ok(raw_insts@, raw_repos@);
        assert forall|a: int, b: int| 0 <= a < b < repos@.len() implies repos@[a].id@ != repos@[b].id@ by {
            assert(repository_resolves(insts@, raw_insts@, raw_repos@[a], repos@[a]));
            assert(repository_resolves(insts@, raw_insts@, raw_repos@[b], repos@[b]));
        }
        reveal_strlit("tracker");
        reveal_strlit("/tracker/");
        reveal_strlit("/");
    }
    let ghost full = github_repository_ids(raw_insts@, raw_repos@);
    let mut ts: Vec<ForgeTracker> = Vec::new();
    let mut k: usize = 0;
    while k < repos.len()
        invariant
            instances_error(raw_insts@) is None,
            insts@.len() == raw_insts@.len(),
            forall|i: int| 0 <= i < raw_insts@.len() ==> #[trigger] instance_resolves(raw_insts@[i], insts@[i]),
            repos@.len() == raw_repos@.len(),
            forall|i: int| 0 <= i < raw_repos@.len() ==> #[trigger] repository_resolves(insts@, raw_insts@, raw_repos@[i], repos@[i]),
            forall|i: int| 0 <= i < raw_repos@.len() ==> #[trigger] instance_index(raw_insts@, raw_repos@[i].instance@) is Some,
            forall|a: int, b: int| 0 <= a < b < repos@.len() ==> repos@[a].id@ != repos@[b].id@,
            full == github_repository_ids(raw_insts@, raw_repos@),
            k <= repos@.len(),
            derived_trackers_error(github_repository_ids(raw_insts@, raw_repos@.take(k as int))) is None,
            ts@.len() == github_repository_ids(raw_insts@, raw_repos@.take(k as int)).len(),
            forall|t: int| 0 <= t < ts@.len() ==> ts@[t].id@ == #[trigger] github_repository_ids(raw_insts@, raw_repos@.take(k as int))[t],
            forall|t: int| 0 <= t < ts@.len() ==> #[trigger] repository_tracker(insts@, raw_insts@, repository_with_id(repos@, github_repository_ids(raw_insts@, raw_repos@.take(k as int))[t]), ts@[t]),
        decreases repos@.len() - k,
    {
        let repo = &repos[k];
        let ghost pre = raw_repos@.take(k as int);
        let ghost cur = raw_repos@.take(k + 1);
        let ghost gpre = github_repository_ids(raw_insts@, pre);
        proof {
            assert(cur.drop_last() =~= pre);
            assert(cur.last() == raw_repos@[k as int]);
            assert(repository_resolves(insts@, raw_insts@, raw_repos@[k as int], repos@[k as int]));
            assert(instance_index(raw_insts@, raw_repos@[k as int].instance@) is Some);
            lemma_instance_type(raw_insts@, insts@, raw_repos@[k as int].instance@);
        }
        let idx = lookup_instance(raw_insts, insts, repo.instance.as_str()).unwrap();
        let inst = &insts[idx];
        if inst.forge_type == ForgeType::Github {
            match find_tracker(&ts, repo.id.as_str()) {
                Some(j) => {
                    proof {
                        assert(gpre[j as int] == repo.id@);
                        assert(gpre.contains(repo.id@));
                        let gcur = github_repository_ids(raw_insts@, cur);
                        assert(gcur == gpre.push(repo.id@));
                        assert(gcur.drop_last() =~= gpre);
                        lemma_github_ids_prefix(raw_insts@, raw_repos@, k + 1);
                        lemma_derived_error_prefix(full, gcur.len() as int);
                    }
                    return Err(ForgeAddressError::DuplicateId { kind: "tracker", id: repo.id.clone() });
                },
                None => {},
            }
            let mut identity = inst.identity_prefix();
            push_str(&mut identity, "/tracker/");
            push_str(&mut identity, repo.owner.as_str());
            push_str(&mut identity, "/");
            push_str(&mut identity, repo.name.as_str());
            let ghost ts_before = ts@;
            ts.push(ForgeTracker {
                id: repo.id.clone(),
                instance: repo.instance.clone(),
                owner: repo.owner.clone(),
                name: repo.name.clone(),
                tracker_id: None,
                repository: Some(repo.id.clone()),
                identity,
            });
            proof {
                let gcur = github_repository_ids(raw_insts@, cur);
                assert(gcur == gpre.push(repo.id@));
                assert(gcur.drop_last() =~= gpre);
                if gpre.contains(repo.id@) {
                    let m = choose|m: int| 0 <= m < gpre.len() && gpre[m] == repo.id@;
                    assert(ts_before[m].id@ == gpre[m]);
                }
                lemma_repository_with_id(repos@, k as int);
                assert forall|t: int| 0 <= t < ts@.len() implies ts@[t].id@ == #[trigger] gcur[t] by {
                    if t < ts_before.len() {
                        assert(ts@[t] == ts_before[t]);
                        assert(gcur[t] == gpre[t]);
                    }
                }
                assert forall|t: int| 0 <= t < ts@.len() implies #[trigger] repository_tracker(insts@, raw_insts@, repository_with_id(repos@, gcur[t]), ts@[t]) by {
                    if t < ts_before.len() {
                        assert(ts@[t] == ts_before[t]);
                        assert(gcur[t] == gpre[t]);
                        assert(repository_tracker(insts@, raw_insts@, repository_with_id(repos@, gpre[t]), ts_before[t]));
                    } else {
                        assert(gcur[t] == repo.id@);
                    }
                }
            }
        } else {
            proof {
                let gcur = github_repository_ids(raw_insts@, cur);
                assert(gcur == gpre);
            }
        }
        k = k + 1;
    }
    assert(raw_repos@.take(repos@.len() as int) =~= raw_repos@);
    Ok(ts)
}

proof fn lemma_trackers_error_prefix(insts: Seq<RawForgeInstance>, taken: Seq<Seq<char>>, s: Seq<RawTracker>, k: int)
    requires
        0 <= k <= s.len(),
        trackers_error(insts, taken, s.take(k)) is Some,
    ensures
        trackers_error(insts, taken, s) == trackers_error(insts, taken, s.take(k)),
    decreases s.len() - k,
{
    if k < s.len() {
        assert(s.take(k + 1).drop_last() =~= s.take(k));
        lemma_trackers_error_prefix(insts, taken, s, k + 1);
    } else {
        assert(s.take(k) =~= s);
    }
}

/// Resolve the declared trackers, given the trackers the GitHub repositories
/// already provide, stopping at the first error.
fn resolve_raw_trackers(
    raw_insts: &Vec<RawForgeInstance>,
    insts: &Vec<ForgeInstance>,
    derived: &Vec<ForgeTracker>,
    Ghost(taken): Ghost<Seq<Seq<char>>>,
    raw: &Vec<RawTracker>,
) -> (r: Result<Vec<ForgeTracker>, ForgeAddressError>)
    requires
        instances_error(raw_insts@) is None,
        insts@.len() == raw_insts@.len(),
        forall|k: int| 0 <= k < raw_insts@.len() ==> #[trigger] instance_resolves(raw_insts@[k], insts@[k]),
        derived@.len() == taken.len(),
        forall|k: int| 0 <= k < taken.len() ==> derived@[k].id@ == #[trigger] taken[k],
    ensures
        match r {
            Ok(ts) => trackers_error(raw_insts@, taken, raw@) is None && ts@.len() == raw@.len()
                && forall|m: int| 0 <= m < raw@.len() ==> #[trigger] tracker_resolves(insts@, raw_insts@, raw@[m], ts@[m]),
            Err(e) => trackers_error(raw_insts@, taken, raw@) == Some(e@),
        },
{
    proof {
        reveal_strlit("tracker");
        reveal_strlit("/tracker/");
        reveal_strlit("/");
    }
    let mut ts: Vec<ForgeTracker> = Vec::new();
    let mut k: usize = 0;
    while k < raw.len()
        invariant
            instances_error(raw_insts@) is None,
            insts@.len() == raw_insts@.len(),
            forall|i: int| 0 <= i < raw_insts@.len() ==> #[trigger] instance_resolves(raw_insts@[i], insts@[i]),
            derived@.len() == taken.len(),
            forall|i: int| 0 <= i < taken.len() ==> derived@[i].id@ == #[trigger] taken[i],
            k <= raw@.len(),
            trackers_error(raw_insts@, taken, raw@.take(k as int)) is None,
            ts@.len() == k,
            forall|j: int| 0 <= j < k ==> #[trigger] tracker_resolves(insts@, raw_insts@, raw@[j], ts@[j]),
        decreases raw@.len() - k,
    {
        let rt = &raw[k];
        let ghost pre = raw@.take(k as int);
        let ghost cur = raw@.take(k + 1);
        proof {
            assert(cur.drop_last() =~= pre);
            assert(cur.last() == raw@[k as int]);
        }
        let dup_derived = find_tracker(derived, rt.id.as_str());
        let dup_raw = find_tracker(&ts, rt.id.as_str());
        if dup_derived.is_some() || dup_raw.is_some() {
            proof {
                match dup_derived {
                    Some(j) => {
                        assert(taken[j as int] == rt.id@);
                    },
                    None => {
                        let j = dup_raw->0;
                        assert(tracker_resolves(insts@, raw_insts@, raw@[j as int], ts@[j as int]));
                        assert(pre[j as int] == raw@[j as int]);
                        assert(raw_tracker_ids(pre)[j as int] == rt.id@);
                    },
                }
                lemma_trackers_error_prefix(raw_insts@, taken, raw@, k + 1);
            }
            return Err(ForgeAddressError::DuplicateId { kind: "tracker", id: rt.id.clone() });
        }
        proof {
            if taken.contains(rt.id@) {
                let m = choose|m: int| 0 <= m < taken.len() && taken[m] == rt.id@;
                assert(derived@[m].id@ == taken[m]);
            }
            if raw_tracker_ids(pre).contains(rt.id@) {
                let m = choose|m: int| 0 <= m < raw_tracker_ids(pre).len() && raw_tracker_ids(pre)[m] == rt.id@;
                assert(pre[m] == raw@[m]);
                assert(tracker_resolves(insts@, raw_insts@, raw@[m], ts@[m]));
            }
        }
        let idx = match lookup_instance(raw_insts, insts, rt.instance.as_str()) {
            Some(i) => i,
            None => {
                proof {
                    lemma_trackers_error_prefix(raw_insts@, taken, raw@, k + 1);
                }
                return Err(ForgeAddressError::UnknownInstance {
                    resource_kind: "tracker",
                    resource: rt.id.clone(),
                    instance: rt.instance.clone(),
                });
            },
        };
        proof {
            lemma_instance_type(raw_insts@, insts@, rt.instance@);
        }
        let inst = &insts[idx];
        let owner = canonical_resource_owner(inst.forge_type, rt.owner.as_str());
        let mut identity = inst.identity_prefix();
        push_str(&mut identity, "/tracker/");
        push_str(&mut identity, owner.as_str());
        push_str(&mut identity, "/");
        push_str(&mut identity, rt.name.as_str());
        let tracker_id = match inst.forge_type {
            ForgeType::Github => None,
            ForgeType::Sourcehut => {
                match &rt.tracker_id {
                    Some(tid) => {
                        push_str(&mut identity, "/");
                        push_str(&mut identity, tid.as_str());
                        Some(tid.clone())
                    },
                    None => {
                        proof {
                            lemma_trackers_error_prefix(raw_insts@, taken, raw@, k + 1);
                        }
                        return Err(ForgeAddressError::MissingSourcehutTrackerId { tracker: rt.id.clone() });
                    },
                }
            },
        };
        ts.push(ForgeTracker {
            id: rt.id.clone(),
            instance: rt.instance.clone(),
            owner,
            name: rt.name.clone(),
            tracker_id,
            repository: None,
            identity,
        });
        proof {
            assert(tracker_resolves(insts@, raw_insts@, raw@[k as int], ts@[k as int]));
        }
        k = k + 1;
    }
    assert(raw@.take(raw@.len() as int) =~= raw@);
    Ok(ts)
}

impl ForgeProject {
    /// Resolve a declared forge-address configuration.
    ///
    /// Instance ids, repository ids and tracker ids must each be unique (a
    /// GitHub repository also declares a tracker of the same id); every
    /// resource must name a declared instance; GitHub instances declare one
    /// shared `host`, sourcehut instances a `git_host` and a `tracker_host`;
    /// sourcehut trackers need a `tracker_id`. The first violation, in the
    /// order instances, repositories, trackers, is the error.
    pub fn resolve(raw: RawForges) -> (r: Result<ForgeProject, ForgeAddressError>)
        ensures
            match r {
                Ok(p) => resolve_error(raw) is None && project_resolves(raw, p),
                Err(e) => resolve_error(raw) == Some(e@),
            },
    {
        let instances = match resolve_instances(&raw.instances) {
            Ok(v) => v,
            Err(e) => {
                return Err(e);
            },
        };
        let repositories = match resolve_repositories(&raw.instances, &instances, &raw.repositories) {
            Ok(v) => v,
            Err(e) => {
                return Err(e);
            },
        };
        let ghost gh = github_repository_ids(raw.instances@, raw.repositories@);
        let mut trackers = match derive_trackers(&raw.instances, &instances, &raw.repositories, &repositories) {
            Ok(v) => v,
            Err(e) => {
                return Err(e);
            },
        };
        let raw_trackers = match resolve_raw_trackers(&raw.instances, &instances, &trackers, Ghost(gh), &raw.trackers) {
            Ok(v) => v,
            Err(e) => {
                return Err(e);
            },
        };
        let ghost derived = trackers@;
        let ghost raw_ts = raw_trackers@;
        let mut raw_trackers = raw_trackers;
        trackers.append(&mut raw_trackers);
        assert(trackers@ == derived + raw_ts);
        let p = ForgeProject { instances, repositories, trackers };
        proof {
            assert forall|k: int| 0 <= k < gh.len() implies #[trigger] repository_tracker(p.instances@, raw.instances@, repository_with_id(p.repositories@, gh[k]), p.trackers@[k]) by {
                assert(p.trackers@[k] == derived[k]);
            }
            assert forall|q: int| 0 <= q < raw.trackers@.len() implies #[trigger] tracker_resolves(p.instances@, raw.instances@, raw.trackers@[q], p.trackers@[gh.len() + q]) by {
                assert(p.trackers@[gh.len() + q] == raw_ts[q]);
            }
        }
        Ok(p)
    }
}

// ---------------------------------------------------------------------------
// Lookups.
// ---------------------------------------------------------------------------

/// The position of the first repository whose id is `id`.
pub open spec fn first_repository(p: ForgeProject, id: Seq<char>, k: int) -> bool {
    0 <= k < p.repositories@.len() && p.repositories@[k].id@ == id
        && forall|m: int| 0 <= m < k ==> p.repositories@[m].id@ != id
}

/// The position of the first tracker whose id is `id`.
pub open spec fn first_tracker(p: ForgeProject, id: Seq<char>, k: int) -> bool {
    0 <= k < p.trackers@.len() && p.trackers@[k].id@ == id
        && forall|m: int| 0 <= m < k ==> p.trackers@[m].id@ != id
}

/// Position `k` holds the repository a selector picks: the first one with
/// that id, or the only repository when there is no selector.
pub open spec fn repository_selected(p: ForgeProject, selector: Option<Seq<char>>, k: int) -> bool {
    match selector {
        Some(sel) => first_repository(p, sel, k),
        None => p.repositories@.len() == 1 && k == 0,
    }
}

/// The selector picks no repository, and `e` says so.
pub open spec fn repository_not_selected(p: ForgeProject, selector: Option<Seq<char>>, e: ForgeErrorView) -> bool {
    match selector {
        Some(sel) => (forall|m: int| 0 <= m < p.repositories@.len() ==> p.repositories@[m].id@ != sel)
            && e == ForgeErrorView::UnknownRepositorySelector(sel),
        None => p.repositories@.len() != 1 && e == ForgeErrorView::UnknownRepositorySelector("<missing>"@),
    }
}

/// Position `k` holds the tracker a selector picks: the first one with that
/// id, or the only tracker when there is no selector.
pub open spec fn tracker_selected(p: ForgeProject, selector: Option<Seq<char>>, k: int) -> bool {
    match selector {
        Some(sel) => first_tracker(p, sel, k),
        None => p.trackers@.len() == 1 && k == 0,
    }
}

/// The selector picks no tracker, and `e` says why.
pub open spec fn tracker_not_selected(p: ForgeProject, selector: Option<Seq<char>>, e: ForgeErrorView) -> bool {
    match selector {
        Some(sel) => (forall|m: int| 0 <= m < p.trackers@.len() ==> p.trackers@[m].id@ != sel)
            && e == ForgeErrorView::UnknownTrackerSelector(sel),
        None => if p.trackers@.len() == 0 {
            e == ForgeErrorView::UnknownTrackerSelector("<missing>"@)
        } else {
            p.trackers@.len() > 1 && e == ForgeErrorView::AmbiguousBareTrackerReference
        },
    }
}

/// The view of an optional string slice.
pub open spec fn opt_view(s: Option<&str>) -> Option<Seq<char>> {
    match s {
        Some(v) => Some(v@),
        None => None,
    }
}

impl ForgeProject {
    /// The repository named by `selector`, or the only repository when no
    /// selector is given.
    pub fn repository(&self, selector: Option<&str>) -> (r: Result<&ForgeRepository, ForgeAddressError>)
        ensures
            match r {
                Ok(repo) => exists|k: int| #[trigger] repository_selected(*self, opt_view(selector), k) && *repo == self.repositories@[k],
                Err(e) => repository_not_selected(*self, opt_view(selector), e@),
            },
    {
        match selector {
            Some(sel) => {
                let mut k: usize = 0;
                while k < self.repositories.len()
                    invariant
                        selector == Some(sel),
                        k <= self.repositories@.len(),
                        forall|m: int| 0 <= m < k ==> self.repositories@[m].id@ != sel@,
                    decreases self.repositories@.len() - k,
                {
                    if str_eq(self.repositories[k].id.as_str(), sel) {
                        assert(repository_selected(*self, opt_view(selector), k as int));
                        return Ok(&self.repositories[k]);
                    }
                    k = k + 1;
                }
                Err(ForgeAddressError::UnknownRepositorySelector(owned(sel)))
            },
            None => {
                proof {
                    reveal_strlit("<missing>");
                }
                if self.repositories.len() == 1 {
                    assert(repository_selected(*self, opt_view(selector), 0));
                    Ok(&self.repositories[0])
                } else {
                    Err(ForgeAddressError::UnknownRepositorySelector(owned("<missing>")))
                }
            },
        }
    }

    /// The tracker named by `selector`, or the only tracker when no selector
    /// is given; a bare reference is ambiguous with several trackers.
    pub fn tracker(&self, selector: Option<&str>) -> (r: Result<&ForgeTracker, ForgeAddressError>)
        ensures
            match r {
                Ok(t) => exists|k: int| #[trigger] tracker_selected(*self, opt_view(selector), k) && *t == self.trackers@[k],
                Err(e) => tracker_not_selected(*self, opt_view(selector), e@),
            },
    {
        match selector {
            Some(sel) => {
                let mut k: usize = 0;
                while k < self.trackers.len()
                    invariant
                        selector == Some(sel),
                        k <= self.trackers@.len(),
                        forall|m: int| 0 <= m < k ==> self.trackers@[m].id@ != sel@,
                    decreases self.trackers@.len() - k,
                {
                    if str_eq(self.trackers[k].id.as_str(), sel) {
                        assert(tracker_selected(*self, opt_view(selector), k as int));
                        return Ok(&self.trackers[k]);
                    }
                    k = k + 1;
                }
                Err(ForgeAddressError::UnknownTrackerSelector(owned(sel)))
            },
            None => {
                proof {
                    reveal_strlit("<missing>");
                }
                if self.trackers.len() == 1 {
                    assert(tracker_selected(*self, opt_view(selector), 0));
                    Ok(&self.trackers[0])
                } else if self.trackers.len() == 0 {
                    Err(ForgeAddressError::UnknownTrackerSelector(owned("<missing>")))
                } else {
                    Err(ForgeAddressError::AmbiguousBareTrackerReference)
                }
            },
        }
    }

    /// The first instance with the given id.
    pub fn instance(&self, id: &str) -> (r: Option<&ForgeInstance>)
        ensures
            match r {
                Some(inst) => exists|k: int| 0 <= k < self.instances@.len() && *inst == self.instances@[k]
                    && self.instances@[k].id@ == id@ && forall|m: int| 0 <= m < k ==> self.instances@[m].id@ != id@,
                None => forall|m: int| 0 <= m < self.instances@.len() ==> self.instances@[m].id@ != id@,
            },
    {
        match find_instance(&self.instances, id) {
            Some(k) => Some(&self.instances[k]),
            None => None,
        }
    }

    /// The identity of the deployment repository `selector` picks.
    pub fn deployment_identity(&self, selector: Option<&str>) -> (r: Result<String, ForgeAddressError>)
        ensures
            match r {
                Ok(identity) => exists|k: int| #[trigger] repository_selected(*self, opt_view(selector), k)
                    && identity@ == self.repositories@[k].identity@,
                Err(e) => repository_not_selected(*self, opt_view(selector), e@),
            },
    {
        match self.repository(selector) {
            Ok(repo) => Ok(repo.identity.clone()),
            Err(e) => Err(e),
        }
    }

    /// The identity of work unit `number` on the tracker `tracker_selector`
    /// picks: the tracker identity, `#` and the number.
    pub fn work_unit_identity(&self, tracker_selector: Option<&str>, number: u64) -> (r: Result<String, ForgeAddressError>)
        ensures
            match r {
                Ok(identity) => exists|k: int| #[trigger] tracker_selected(*self, opt_view(tracker_selector), k)
                    && identity@ == self.trackers@[k].identity@ + "#"@ + decimal(number as nat),
                Err(e) => tracker_not_selected(*self, opt_view(tracker_selector), e@),
            },
    {
        match self.tracker(tracker_selector) {
            Ok(t) => {
                let mut out = t.identity.clone();
                push_str(&mut out, "#");
                push_decimal(&mut out, number);
                Ok(out)
            },
            Err(e) => Err(e),
        }
    }

    /// The first tracker with the given identity.
    pub fn tracker_by_identity(&self, identity: &str) -> (r: Option<&ForgeTracker>)
        ensures
            match r {
                Some(t) => exists|k: int| 0 <= k < self.trackers@.len() && *t == self.trackers@[k]
                    && self.trackers@[k].identity@ == identity@ && forall|m: int| 0 <= m < k ==> self.trackers@[m].identity@ != identity@,
                None => forall|m: int| 0 <= m < self.trackers@.len() ==> self.trackers@[m].identity@ != identity@,
            },
    {
        let mut k: usize = 0;
        while k < self.trackers.len()
            invariant
                k <= self.trackers@.len(),
                forall|m: int| 0 <= m < k ==> self.trackers@[m].identity@ != identity@,
            decreases self.trackers@.len() - k,
        {
            if str_eq(self.trackers[k].identity.as_str(), identity) {
                return Some(&self.trackers[k]);
            }
            k = k + 1;
        }
        None
    }
}

} // verus!

verus! {

/// The message of a forge-address error.
pub open spec fn forge_error_message(e: ForgeErrorView) -> Seq<char> {
    match e {
        ForgeErrorView::UnsupportedForgeType { forge_type } =>
            "unsupported forge type '"@ + forge_type + "'; expected one of: github, sourcehut"@,
        ForgeErrorView::MissingServiceHost { instance, forge_type, service } =>
            "forge instance '"@ + instance + "' of type '"@ + forge_type + "' is missing required "@ + service + " service host"@,
        ForgeErrorView::UnexpectedServiceHost { instance, field } =>
            "forge instance '"@ + instance + "' declares unsupported service host field '"@ + field + "' for its type"@,
        ForgeErrorView::DuplicateId { kind, id } => "duplicate forge "@ + kind + " id '"@ + id + "'"@,
        ForgeErrorView::UnknownInstance { resource_kind, resource, instance } =>
            "forge "@ + resource_kind + " '"@ + resource + "' references unknown instance '"@ + instance + "'"@,
        ForgeErrorView::MissingSourcehutTrackerId { tracker } =>
            "sourcehut tracker '"@ + tracker + "' is missing required tracker_id"@,
        ForgeErrorView::AmbiguousBareTrackerReference =>
            "bare ticket reference is ambiguous because the project declares more than one tracker; qualify it with '<tracker>#<number>'"@,
        ForgeErrorView::UnknownRepositorySelector(selector) =>
            "repository selector '"@ + selector + "' does not name a configured repository"@,
        ForgeErrorView::UnknownTrackerSelector(selector) =>
            "tracker selector '"@ + selector + "' does not name a configured tracker"@,
        ForgeErrorView::MissingDeploymentRepository =>
            "transcript deployment requires [deployment].repository or exactly one configured repository"@,
        ForgeErrorView::AmbiguousDeploymentRepository =>
            "transcript deployment is ambiguous because the project declares multiple repositories; set [deployment].repository"@,
        ForgeErrorView::MalformedPayload(detail) => "malformed forge address payload: "@ + detail,
    }
}

impl ForgeAddressError {
    /// Renders the error as text (the error's `Display` form).
    pub fn to_display_string(&self) -> (r: String)
        ensures
            r@ == forge_error_message(self@),
    {
        let mut out = String::new();
        match self {
            ForgeAddressError::UnsupportedForgeType { forge_type } => {
                push_str(&mut out, "unsupported forge type '");
                push_str(&mut out, forge_type.as_str());
                push_str(&mut out, "'; expected one of: github, sourcehut");
            },
            ForgeAddressError::MissingServiceHost { instance, forge_type, service } => {
                push_str(&mut out, "forge instance '");
                push_str(&mut out, instance.as_str());
                push_str(&mut out, "' of type '");
                push_str(&mut out, forge_type.as_str());
                push_str(&mut out, "' is missing required ");
                push_str(&mut out, service);
                push_str(&mut out, " service host");
            },
            ForgeAddressError::UnexpectedServiceHost { instance, field } => {
                push_str(&mut out, "forge instance '");
                push_str(&mut out, instance.as_str());
                push_str(&mut out, "' declares unsupported service host field '");
                push_str(&mut out, field);
                push_str(&mut out, "' for its type");
            },
            ForgeAddressError::DuplicateId { kind, id } => {
                push_str(&mut out, "duplicate forge ");
                push_str(&mut out, kind);
                push_str(&mut out, " id '");
                push_str(&mut out, id.as_str());
                push_str(&mut out, "'");
            },
            ForgeAddressError::UnknownInstance { resource_kind, resource, instance } => {
                push_str(&mut out, "forge ");
                push_str(&mut out, resource_kind);
                push_str(&mut out, " '");
                push_str(&mut out, resource.as_str());
                push_str(&mut out, "' references unknown instance '");
                push_str(&mut out, instance.as_str());
                push_str(&mut out, "'");
            },
            ForgeAddressError::MissingSourcehutTrackerId { tracker } => {
                push_str(&mut out, "sourcehut tracker '");
                push_str(&mut out, tracker.as_str());
                push_str(&mut out, "' is missing required tracker_id");
            },
            ForgeAddressError::AmbiguousBareTrackerReference => {
                push_str(&mut out, "bare ticket reference is ambiguous because the project declares more than one tracker; qualify it with '<tracker>#<number>'");
            },
            ForgeAddressError::UnknownRepositorySelector(selector) => {
                push_str(&mut out, "repository selector '");
                push_str(&mut out, selector.as_str());
                push_str(&mut out, "' does not name a configured repository");
            },
            ForgeAddressError::UnknownTrackerSelector(selector) => {
                push_str(&mut out, "tracker selector '");
                push_str(&mut out, selector.as_str());
                push_str(&mut out, "' does not name a configured tracker");
            },
            ForgeAddressError::MissingDeploymentRepository => {
                push_str(&mut out, "transcript deployment requires [deployment].repository or exactly one configured repository");
            },
            ForgeAddressError::AmbiguousDeploymentRepository => {
                push_str(&mut out, "transcript deployment is ambiguous because the project declares multiple repositories; set [deployment].repository");
            },
            ForgeAddressError::MalformedPayload(detail) => {
                push_str(&mut out, "malformed forge address payload: ");
                push_str(&mut out, detail.as_str());
            },
        }
        assert(out@ =~= forge_error_message(self@));
        out
    }
}

/// The environment that carries a forge-address payload: the payload under
/// `RUNA_FORGE_ADDRESSES`, or the error that serializing it gave.
pub fn payload_env_from_json_result(payload_json: Result<String, ForgeAddressError>) -> (r: Result<Vec<(String, String)>, ForgeAddressError>)
    ensures
        match payload_json {
            Ok(json) => r is Ok && r->Ok_0@.len() == 1 && r->Ok_0@[0].0@ == FORGE_ADDRESSES_ENV@ && r->Ok_0@[0].1 == json,
            Err(e) => r == Err::<Vec<(String, String)>, ForgeAddressError>(e),
        },
{
    match payload_json {
        Ok(json) => {
            let mut env: Vec<(String, String)> = Vec::new();
            env.push((owned(FORGE_ADDRESSES_ENV), json));
            Ok(env)
        },
        Err(e) => Err(e),
    }
}


proof fn lemma_strip_leading_tildes(s: Seq<char>)
    ensures
        strip_leading_tildes(strip_leading_tildes(s)) == strip_leading_tildes(s),
        strip_leading_tildes(seq!['~'] + s) == strip_leading_tildes(s),
        strip_leading_tildes(s).len() == 0 || strip_leading_tildes(s)[0] != '~',
    decreases s.len(),
{
    assert((seq!['~'] + s).drop_first() =~= s);
    if s.len() > 0 && s[0] == '~' {
        lemma_strip_leading_tildes(s.drop_first());
    }
}

/// A SourceHut owner is canonical with exactly one leading `~` whether it
/// is written with tildes or without; canonicalizing twice changes nothing.
pub proof fn law_canonical_owner_single_tilde(t: ForgeType, owner: Seq<char>)
    ensures
        canonical_owner(t, canonical_owner(t, owner)) == canonical_owner(t, owner),
        t == ForgeType::Sourcehut ==> canonical_owner(t, seq!['~'] + owner) == canonical_owner(t, owner),
        t == ForgeType::Sourcehut ==> canonical_owner(t, owner)[0] == '~'
            && (canonical_owner(t, owner).len() == 1 || canonical_owner(t, owner)[1] != '~'),
{
    lemma_strip_leading_tildes(owner);
    if t == ForgeType::Sourcehut {
        let c = seq!['~'] + strip_leading_tildes(owner);
        lemma_strip_leading_tildes(strip_leading_tildes(owner));
        assert(strip_leading_tildes(c) == strip_leading_tildes(strip_leading_tildes(owner)));
    }
}


// ---------------------------------------------------------------------------
// The serialized forge-address payload.
// ---------------------------------------------------------------------------

/// Member `k` of object `v` is the string `s` under `key`.
pub open spec fn text_member(v: JsonValue, k: int, key: Seq<char>, s: Seq<char>) -> bool {
    &&& v->Object_0@[k].0@ == key
    &&& v->Object_0@[k].1 matches JsonValue::Str(x) && x@ == s
}

/// `v` is the JSON form of service hosts.
pub open spec fn services_json(h: ServiceHosts, v: JsonValue) -> bool {
    &&& v is Object
    &&& v->Object_0@.len() == 2
    &&& text_member(v, 0, "git"@, h.git@)
    &&& text_member(v, 1, "tracker"@, h.tracker@)
}

/// `v` is the JSON form of an instance, keys sorted.
pub open spec fn instance_json(i: ForgeInstance, v: JsonValue) -> bool {
    &&& v is Object
    &&& v->Object_0@.len() == 3
    &&& text_member(v, 0, "id"@, i.id@)
    &&& v->Object_0@[1].0@ == "services"@
    &&& services_json(i.services, v->Object_0@[1].1)
    &&& text_member(v, 2, "type"@, forge_type_name(i.forge_type))
}

/// `v` is the JSON form of a repository, keys sorted.
pub open spec fn repository_json(r: ForgeRepository, v: JsonValue) -> bool {
    &&& v is Object
    &&& v->Object_0@.len() == 5
    &&& text_member(v, 0, "id"@, r.id@)
    &&& text_member(v, 1, "identity"@, r.identity@)
    &&& text_member(v, 2, "instance"@, r.instance@)
    &&& text_member(v, 3, "name"@, r.name@)
    &&& text_member(v, 4, "owner"@, r.owner@)
}

/// `v` is the JSON form of a tracker, keys sorted: its repository is
/// `null` when it has none, its tracker id left out when it has none.
pub open spec fn tracker_json(t: ForgeTracker, v: JsonValue) -> bool {
    &&& v is Object
    &&& v->Object_0@.len() == if t.tracker_id is Some { 7int } else { 6int }
    &&& text_member(v, 0, "id"@, t.id@)
    &&& text_member(v, 1, "identity"@, t.identity@)
    &&& text_member(v, 2, "instance"@, t.instance@)
    &&& text_member(v, 3, "name"@, t.name@)
    &&& text_member(v, 4, "owner"@, t.owner@)
    &&& v->Object_0@[5].0@ == "repository"@
    &&& match t.repository {
        Some(r) => v->Object_0@[5].1 matches JsonValue::Str(x) && x@ == r@,
        None => v->Object_0@[5].1 is Null,
    }
    &&& match t.tracker_id {
        Some(id) => text_member(v, 6, "tracker_id"@, id@),
        None => true,
    }
}

/// `v` is the forge-address payload of `p`: its instances, repositories,
/// schema version and trackers, keys sorted at every level.
pub open spec fn payload_json_holds(p: ForgeProject, v: JsonValue) -> bool {
    &&& v is Object
    &&& v->Object_0@.len() == 4
    &&& v->Object_0@[0].0@ == "instances"@
    &&& v->Object_0@[0].1 matches JsonValue::Array(xs) && xs@.len() == p.instances@.len()
        && forall|k: int| 0 <= k < xs@.len() ==> instance_json(p.instances@[k], #[trigger] xs@[k])
    &&& v->Object_0@[1].0@ == "repositories"@
    &&& v->Object_0@[1].1 matches JsonValue::Array(xs) && xs@.len() == p.repositories@.len()
        && forall|k: int| 0 <= k < xs@.len() ==> repository_json(p.repositories@[k], #[trigger] xs@[k])
    &&& v->Object_0@[2].0@ == "schema_version"@
    &&& v->Object_0@[2].1 matches JsonValue::Number(n) && n@ == decimal(PAYLOAD_SCHEMA_VERSION as nat)
    &&& v->Object_0@[3].0@ == "trackers"@
    &&& v->Object_0@[3].1 matches JsonValue::Array(xs) && xs@.len() == p.trackers@.len()
        && forall|k: int| 0 <= k < xs@.len() ==> tracker_json(p.trackers@[k], #[trigger] xs@[k])
}

fn text_value(s: &str) -> (r: JsonValue)
    ensures
        r matches JsonValue::Str(x) && x@ == s@,
{
    JsonValue::Str(owned(s))
}

fn instance_value(i: &ForgeInstance) -> (r: JsonValue)
    ensures
        instance_json(*i, r),
{
    let mut services: Vec<(String, JsonValue)> = Vec::new();
    services.push((owned("git"), text_value(i.services.git.as_str())));
    services.push((owned("tracker"), text_value(i.services.tracker.as_str())));
    let mut members: Vec<(String, JsonValue)> = Vec::new();
    members.push((owned("id"), text_value(i.id.as_str())));
    members.push((owned("services"), JsonValue::Object(services)));
    members.push((owned("type"), text_value(i.forge_type.as_str())));
    proof {
        reveal_strlit("git");
        reveal_strlit("tracker");
        reveal_strlit("id");
        reveal_strlit("services");
        reveal_strlit("type");
    }
    JsonValue::Object(members)
}

fn repository_value(r: &ForgeRepository) -> (v: JsonValue)
    ensures
        repository_json(*r, v),
{
    let mut members: Vec<(String, JsonValue)> = Vec::new();
    members.push((owned("id"), text_value(r.id.as_str())));
    members.push((owned("identity"), text_value(r.identity.as_str())));
    members.push((owned("instance"), text_value(r.instance.as_str())));
    members.push((owned("name"), text_value(r.name.as_str())));
    members.push((owned("owner"), text_value(r.owner.as_str())));
    proof {
        reveal_strlit("id");
        reveal_strlit("identity");
        reveal_strlit("instance");
        reveal_strlit("name");
        reveal_strlit("owner");
    }
    JsonValue::Object(members)
}

fn tracker_value(t: &ForgeTracker) -> (v: JsonValue)
    ensures
        tracker_json(*t, v),
{
    let mut members: Vec<(String, JsonValue)> = Vec::new();
    members.push((owned("id"), text_value(t.id.as_str())));
    members.push((owned("identity"), text_value(t.identity.as_str())));
    members.push((owned("instance"), text_value(t.instance.as_str())));
    members.push((owned("name"), text_value(t.name.as_str())));
    members.push((owned("owner"), text_value(t.owner.as_str())));
    let repository = match &t.repository {
        Some(r) => text_value(r.as_str()),
        None => JsonValue::Null,
    };
    members.push((owned("repository"), repository));
    match &t.tracker_id {
        Some(id) => members.push((owned("tracker_id"), text_value(id.as_str()))),
        None => {},
    }
    proof {
        reveal_strlit("id");
        reveal_strlit("identity");
        reveal_strlit("instance");
        reveal_strlit("name");
        reveal_strlit("owner");
        reveal_strlit("repository");
        reveal_strlit("tracker_id");
    }
    JsonValue::Object(members)
}

impl ForgeProject {
    /// The forge-address payload as a JSON value.
    pub fn payload_value(&self) -> (r: JsonValue)
        ensures
            payload_json_holds(*self, r),
    {
        let mut instances: Vec<JsonValue> = Vec::new();
        let mut i: usize = 0;
        while i < self.instances.len()
            invariant
                i <= self.instances@.len(),
                instances@.len() == i,
                forall|k: int| 0 <= k < i ==> instance_json(self.instances@[k], #[trigger] instances@[k]),
            decreases self.instances@.len() - i,
        {
            instances.push(instance_value(&self.instances[i]));
            i = i + 1;
        }
        let mut repositories: Vec<JsonValue> = Vec::new();
        let mut i: usize = 0;
        while i < self.repositories.len()
            invariant
                i <= self.repositories@.len(),
                repositories@.len() == i,
                forall|k: int| 0 <= k < i ==> repository_json(self.repositories@[k], #[trigger] repositories@[k]),
            decreases self.repositories@.len() - i,
        {
            repositories.push(repository_value(&self.repositories[i]));
            i = i + 1;
        }
        let mut trackers: Vec<JsonValue> = Vec::new();
        let mut i: usize = 0;
        while i < self.trackers.len()
            invariant
                i <= self.trackers@.len(),
                trackers@.len() == i,
                forall|k: int| 0 <= k < i ==> tracker_json(self.trackers@[k], #[trigger] trackers@[k]),
            decreases self.trackers@.len() - i,
        {
            trackers.push(tracker_value(&self.trackers[i]));
            i = i + 1;
        }
        let mut version = String::new();
        push_decimal(&mut version, PAYLOAD_SCHEMA_VERSION as u64);
        let mut members: Vec<(String, JsonValue)> = Vec::new();
        members.push((owned("instances"), JsonValue::Array(instances)));
        members.push((owned("repositories"), JsonValue::Array(repositories)));
        members.push((owned("schema_version"), JsonValue::Number(version)));
        members.push((owned("trackers"), JsonValue::Array(trackers)));
        proof {
            reveal_strlit("instances");
            reveal_strlit("repositories");
            reveal_strlit("schema_version");
            reveal_strlit("trackers");
        }
        JsonValue::Object(members)
    }

    /// The forge-address payload as compact JSON text.
    pub fn payload_json(&self) -> (r: Result<String, ForgeAddressError>)
        ensures
            r is Ok,
            exists|v: JsonValue| #[trigger] payload_json_holds(*self, v) && r->Ok_0@ == json_text(v),
    {
        let v = self.payload_value();
        Ok(to_json_string(&v))
    }
}

/// The environment that carries a project's forge-address payload: the
/// payload's JSON text under `RUNA_FORGE_ADDRESSES`.
pub fn payload_env(project: &ForgeProject) -> (r: Result<Vec<(String, String)>, ForgeAddressError>)
    ensures
        r is Ok,
        r->Ok_0@.len() == 1,
        r->Ok_0@[0].0@ == FORGE_ADDRESSES_ENV@,
        exists|v: JsonValue| #[trigger] payload_json_holds(*project, v) && r->Ok_0@[0].1@ == json_text(v),
{
    payload_env_from_json_result(project.payload_json())
}


// ---------------------------------------------------------------------------
// Reading a work unit's forge handle.
// ---------------------------------------------------------------------------

/// The string a member holds, if it is a string.
pub open spec fn str_member(v: JsonValue, key: Seq<char>) -> Option<Seq<char>> {
    match json_get(v, key) {
        Some(JsonValue::Str(s)) => Some(s@),
        _ => None,
    }
}

/// The number a member holds, if it is an unsigned 64-bit integer (`Value::as_u64`).
pub open spec fn u64_member(v: JsonValue, key: Seq<char>) -> Option<int> {
    match json_get(v, key) {
        Some(JsonValue::Number(t)) => json_u64(t@),
        _ => None,
    }
}

/// The forge type a handle's `forge_tag` names; none without a string tag.
pub open spec fn handle_forge_type(h: JsonValue) -> Result<Option<ForgeType>, ForgeErrorView> {
    match str_member(h, "forge_tag"@) {
        None => Ok(None),
        Some(tag) => match forge_type_named(trim(tag)) {
            Some(t) => Ok(Some(t)),
            None => Err(ForgeErrorView::UnsupportedForgeType { forge_type: trim(tag) }),
        },
    }
}

/// The tracker identity a handle states, once its forge tag is checked.
pub open spec fn handle_tracker_identity(h: JsonValue) -> Result<Option<Seq<char>>, ForgeErrorView> {
    match handle_forge_type(h) {
        Err(e) => Err(e),
        Ok(_) => Ok(str_member(h, "tracker_identity"@)),
    }
}

/// The work-unit identity of a tracker identity and ticket number.
pub open spec fn joined_identity(tracker_identity: Seq<char>, number: int) -> Seq<char> {
    tracker_identity + "#"@ + decimal(number as nat)
}

/// The work-unit identity a handle states or implies: its
/// `work_unit_identity`, which must agree with its tracker identity and
/// number when it has both, or else its tracker identity and number joined.
pub open spec fn handle_work_unit_identity(h: JsonValue) -> Result<Option<Seq<char>>, ForgeErrorView> {
    match handle_forge_type(h) {
        Err(e) => Err(e),
        Ok(_) => {
            let ti = str_member(h, "tracker_identity"@);
            let n = u64_member(h, "number"@);
            match str_member(h, "work_unit_identity"@) {
                Some(id) => if ti is Some && n is Some && id != joined_identity(ti->0, n->0) {
                    Err(ForgeErrorView::MalformedPayload("work_unit_identity '"@ + id
                        + "' disagrees with tracker_identity and number; expected '"@ + joined_identity(ti->0, n->0) + "'"@))
                } else {
                    Ok(Some(id))
                },
                None => if ti is Some && n is Some { Ok(Some(joined_identity(ti->0, n->0))) } else { Ok(None) },
            }
        },
    }
}

fn str_member_exec<'a>(v: &'a JsonValue, key: &str) -> (r: Option<&'a str>)
    ensures
        opt_view(r) == str_member(*v, key@),
{
    match get(v, key) {
        Some(JsonValue::Str(s)) => Some(s.as_str()),
        _ => None,
    }
}

pub(crate) fn u64_member_exec(v: &JsonValue, key: &str) -> (r: Option<u64>)
    ensures
        match r {
            Some(n) => u64_member(*v, key@) == Some(n as int),
            None => u64_member(*v, key@) is None,
        },
{
    match get(v, key) {
        Some(JsonValue::Number(t)) => crate::forge_take::json_u64_exec(t.as_str()),
        _ => None,
    }
}

/// The forge type a handle's tag names.
pub fn forge_type_from_handle(handle: &JsonValue) -> (r: Result<Option<ForgeType>, ForgeAddressError>)
    ensures
        match handle_forge_type(*handle) {
            Ok(o) => r == Ok::<Option<ForgeType>, ForgeAddressError>(o),
            Err(e) => r is Err && r->Err_0@ == e,
        },
{
    proof {
        reveal_strlit("forge_tag");
    }
    match str_member_exec(handle, "forge_tag") {
        None => Ok(None),
        Some(tag) => match ForgeType::parse(tag) {
            Ok(t) => Ok(Some(t)),
            Err(e) => Err(e),
        },
    }
}

/// The tracker identity a handle states.
pub fn tracker_identity_from_handle(handle: &JsonValue) -> (r: Result<Option<String>, ForgeAddressError>)
    ensures
        match handle_tracker_identity(*handle) {
            Ok(o) => r is Ok && crate::store::opt_string_view(r->Ok_0) == o,
            Err(e) => r is Err && r->Err_0@ == e,
        },
{
    match forge_type_from_handle(handle) {
        Err(e) => Err(e),
        Ok(_) => match str_member_exec(handle, "tracker_identity") {
            Some(t) => Ok(Some(owned(t))),
            None => Ok(None),
        },
    }
}

fn joined_identity_exec(tracker_identity: &str, number: u64) -> (r: String)
    ensures
        r@ == joined_identity(tracker_identity@, number as int),
{
    let mut out = owned(tracker_identity);
    crate::text::push_char(&mut out, '#');
    push_decimal(&mut out, number);
    proof {
        reveal_strlit("#");
        assert(out@ =~= joined_identity(tracker_identity@, number as int));
    }
    out
}

/// The work-unit identity a handle states or implies.
pub fn work_unit_identity_from_handle(handle: &JsonValue) -> (r: Result<Option<String>, ForgeAddressError>)
    ensures
        match handle_work_unit_identity(*handle) {
            Ok(o) => r is Ok && crate::store::opt_string_view(r->Ok_0) == o,
            Err(e) => r is Err && r->Err_0@ == e,
        },
{
    match forge_type_from_handle(handle) {
        Err(e) => {
            return Err(e);
        },
        Ok(_) => {},
    }
    let ti = str_member_exec(handle, "tracker_identity");
    let n = u64_member_exec(handle, "number");
    match str_member_exec(handle, "work_unit_identity") {
        Some(id) => {
            match (ti, n) {
                (Some(t), Some(num)) => {
                    let expected = joined_identity_exec(t, num);
                    if !str_eq(id, expected.as_str()) {
                        let mut detail = owned("work_unit_identity '");
                        push_str(&mut detail, id);
                        push_str(&mut detail, "' disagrees with tracker_identity and number; expected '");
                        push_str(&mut detail, expected.as_str());
                        push_str(&mut detail, "'");
                        proof {
                            reveal_strlit("work_unit_identity '");
                            reveal_strlit("' disagrees with tracker_identity and number; expected '");
                            reveal_strlit("'");
                        }
                        return Err(ForgeAddressError::MalformedPayload(detail));
                    }
                },
                _ => {},
            }
            Ok(Some(owned(id)))
        },
        None => match (ti, n) {
            (Some(t), Some(num)) => Ok(Some(joined_identity_exec(t, num))),
            _ => Ok(None),
        },
    }
}

} // verus!
