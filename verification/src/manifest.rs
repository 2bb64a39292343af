//! Structural validation of a methodology manifest and the locations of the
//! files its layout convention names.
//!
//! Reading the TOML text and the layout's files is the caller's part; the
//! names it declares are checked here, and the paths it reads are derived
//! here.
use vstd::prelude::*;

use crate::model::Manifest;
use crate::selection::str_views;
use crate::text::{owned, push_str, str_eq};
use crate::transcript::{join_path, joined_path};

verus! {

/// Why a manifest was refused.
#[derive(Debug, Clone, PartialEq, Eq)]
pub enum ManifestError {
    /// The manifest file could not be read; the error's message.
    Io(String),
    /// The TOML did not map onto the manifest's structure; the parser's message.
    Parse(String),
    /// An artifact type name is unsafe as a layout-derived path component.
    InvalidArtifactTypeName(String),
    /// Two artifact types share a name.
    DuplicateArtifactType(String),
    /// A protocol name is unsafe as a layout-derived path component.
    InvalidProtocolName(String),
    /// Two protocols share a name.
    DuplicateProtocolName(String),
    /// A schema file is missing at its conventional location.
    SchemaNotFound { artifact_type: String, expected_path: String },
    /// A schema file holds invalid JSON.
    SchemaInvalidJson { artifact_type: String, path: String, detail: String },
    /// An instruction file is missing at its conventional location.
    InstructionFileNotFound { protocol: String, expected_path: String },
}

/// The message of a manifest error.
pub open spec fn manifest_error_message(e: ManifestError) -> Seq<char> {
    match e {
        ManifestError::Io(d) => "failed to read manifest: "@ + d@,
        ManifestError::Parse(d) => "invalid manifest: "@ + d@,
        ManifestError::InvalidArtifactTypeName(n) => "invalid artifact type name '"@ + n@
            + "': names must not contain '/', '\\', or '..'"@,
        ManifestError::DuplicateArtifactType(n) => "duplicate artifact type name: "@ + n@,
        ManifestError::InvalidProtocolName(n) => "invalid protocol name '"@ + n@
            + "': names must not contain '/', '\\', or '..'"@,
        ManifestError::DuplicateProtocolName(n) => "duplicate protocol name: "@ + n@,
        ManifestError::SchemaNotFound { artifact_type, expected_path } => "schema file not found for artifact type '"@
            + artifact_type@ + "' at expected location: "@ + expected_path@,
        ManifestError::SchemaInvalidJson { artifact_type, path, detail } => "invalid JSON in schema file for artifact type '"@
            + artifact_type@ + "': "@ + path@ + ": "@ + detail@,
        ManifestError::InstructionFileNotFound { protocol, expected_path } => "instruction file not found for protocol '"@
            + protocol@ + "' at expected location: "@ + expected_path@,
    }
}

impl ManifestError {
    /// Renders the error as text (the error's `Display` form).
    pub fn to_display_string(&self) -> (r: String)
        ensures
            r@ == manifest_error_message(*self),
    {
        let mut out = String::new();
        match self {
            ManifestError::Io(d) => {
                push_str(&mut out, "failed to read manifest: ");
                push_str(&mut out, d.as_str());
            },
            ManifestError::Parse(d) => {
                push_str(&mut out, "invalid manifest: ");
                push_str(&mut out, d.as_str());
            },
            ManifestError::InvalidArtifactTypeName(n) => {
                push_str(&mut out, "invalid artifact type name '");
                push_str(&mut out, n.as_str());
                push_str(&mut out, "': names must not contain '/', '\\', or '..'");
            },
            ManifestError::DuplicateArtifactType(n) => {
                push_str(&mut out, "duplicate artifact type name: ");
                push_str(&mut out, n.as_str());
            },
            ManifestError::InvalidProtocolName(n) => {
                push_str(&mut out, "invalid protocol name '");
                push_str(&mut out, n.as_str());
                push_str(&mut out, "': names must not contain '/', '\\', or '..'");
            },
            ManifestError::DuplicateProtocolName(n) => {
                push_str(&mut out, "duplicate protocol name: ");
                push_str(&mut out, n.as_str());
            },
            ManifestError::SchemaNotFound { artifact_type, expected_path } => {
                push_str(&mut out, "schema file not found for artifact type '");
                push_str(&mut out, artifact_type.as_str());
                push_str(&mut out, "' at expected location: ");
                push_str(&mut out, expected_path.as_str());
            },
            ManifestError::SchemaInvalidJson { artifact_type, path, detail } => {
                push_str(&mut out, "invalid JSON in schema file for artifact type '");
                push_str(&mut out, artifact_type.as_str());
                push_str(&mut out, "': ");
                push_str(&mut out, path.as_str());
                push_str(&mut out, ": ");
                push_str(&mut out, detail.as_str());
            },
            ManifestError::InstructionFileNotFound { protocol, expected_path } => {
                push_str(&mut out, "instruction file not found for protocol '");
                push_str(&mut out, protocol.as_str());
                push_str(&mut out, "' at expected location: ");
                push_str(&mut out, expected_path.as_str());
            },
        }
        assert(out@ =~= manifest_error_message(*self));
        out
    }
}

/// `name` holds `..`.
pub open spec fn has_dot_dot(name: Seq<char>) -> bool {
    exists|i: int| 0 <= i < name.len() - 1 && #[trigger] name[i] == '.' && name[i + 1] == '.'
}

/// A name is safe as a path component of the layout: not empty, not `.`,
/// without `/`, `\` or `..`.
pub open spec fn layout_name_ok(name: Seq<char>) -> bool {
    &&& name.len() > 0
    &&& name != seq!['.']
    &&& !name.contains('/')
    &&& !name.contains('\\')
    &&& !has_dot_dot(name)
}

/// Whether a name is safe as a path component of the layout.
pub fn is_layout_name(name: &str) -> (r: bool)
    ensures
        r == layout_name_ok(name@),
{
    let n = name.unicode_len();
    if n == 0 {
        return false;
    }
    if n == 1 && name.get_char(0) == '.' {
        assert(name@ =~= seq!['.']);
        return false;
    }
    let mut i: usize = 0;
    while i < n
        invariant
            n == name@.len(),
            i <= n,
            forall|k: int| 0 <= k < i ==> name@[k] != '/' && name@[k] != '\\',
            forall|k: int| 0 <= k < i && k < n - 1 ==> !(#[trigger] name@[k] == '.' && name@[k + 1] == '.'),
        decreases n - i,
    {
        let c = name.get_char(i);
        if c == '/' || c == '\\' {
            return false;
        }
        if c == '.' && i + 1 < n && name.get_char(i + 1) == '.' {
            return false;
        }
        i = i + 1;
    }
    proof {
        if name@ == seq!['.'] {
            assert(n == 1 && name@[0] == '.');
        }
    }
    true
}

/// Position `k` of `names` is the first that is unsafe or repeats an
/// earlier name.
pub open spec fn name_fails(names: Seq<Seq<char>>, k: int) -> bool {
    !layout_name_ok(names[k]) || names.take(k).contains(names[k])
}

/// The first failing position of `names`, with the error it gives, checks
/// every position before it passes.
pub open spec fn first_failure(names: Seq<Seq<char>>, k: int) -> bool {
    &&& 0 <= k < names.len()
    &&& name_fails(names, k)
    &&& forall|j: int| 0 <= j < k ==> !#[trigger] name_fails(names, j)
}

/// The names of the manifest's artifact types.
pub open spec fn type_names(m: Manifest) -> Seq<Seq<char>> {
    m.artifact_types@.map_values(|t: crate::model::ArtifactType| t.name@)
}

/// The names of the manifest's protocols.
pub open spec fn protocol_names(m: Manifest) -> Seq<Seq<char>> {
    m.protocols@.map_values(|p: crate::model::ProtocolDeclaration| p.name@)
}

fn seen_before(names: &Vec<&str>, k: usize, name: &str) -> (r: bool)
    requires
        k <= names@.len(),
    ensures
        r == str_views(names@.take(k as int)).contains(name@),
{
    let ghost vs = str_views(names@.take(k as int));
    let mut i: usize = 0;
    while i < k
        invariant
            i <= k,
            k <= names@.len(),
            vs == str_views(names@.take(k as int)),
            forall|j: int| 0 <= j < i ==> vs[j] != name@,
        decreases k - i,
    {
        if str_eq(names[i], name) {
            assert(vs[i as int] == name@);
            return true;
        }
        i = i + 1;
    }
    false
}

/// The first failing position of a list of names, if any.
fn check_names(names: &Vec<&str>) -> (r: Option<(usize, bool)>)
    ensures
        match r {
            Some((k, unsafe_name)) => first_failure(str_views(names@), k as int)
                && unsafe_name == !layout_name_ok(names@[k as int]@),
            None => forall|k: int| 0 <= k < names@.len() ==> !#[trigger] name_fails(str_views(names@), k),
        },
{
    let ghost vs = str_views(names@);
    let mut k: usize = 0;
    while k < names.len()
        invariant
            k <= names@.len(),
            vs == str_views(names@),
            forall|j: int| 0 <= j < k ==> !#[trigger] name_fails(vs, j),
        decreases names@.len() - k,
    {
        let ok = is_layout_name(names[k]);
        let dup = seen_before(names, k, names[k]);
        proof {
            assert(vs[k as int] == names@[k as int]@);
            assert(vs.take(k as int) =~= str_views(names@.take(k as int)));
        }
        if !ok || dup {
            return Some((k, !ok));
        }
        k = k + 1;
    }
    None
}

/// Check that the manifest's artifact type names, then its protocol names,
/// are safe as layout path components and distinct. The first failing name
/// gives the error: an unsafe name is invalid, a repeated one a duplicate.
pub fn validate_manifest(manifest: &Manifest) -> (r: Result<(), ManifestError>)
    ensures
        ({
            let ts = type_names(*manifest);
            let ps = protocol_names(*manifest);
            if exists|k: int| #[trigger] first_failure(ts, k) {
                exists|k: int| #[trigger] first_failure(ts, k) && if !layout_name_ok(ts[k]) {
                    r matches Err(ManifestError::InvalidArtifactTypeName(n)) && n@ == ts[k]
                } else {
                    r matches Err(ManifestError::DuplicateArtifactType(n)) && n@ == ts[k]
                }
            } else if exists|k: int| #[trigger] first_failure(ps, k) {
                exists|k: int| #[trigger] first_failure(ps, k) && if !layout_name_ok(ps[k]) {
                    r matches Err(ManifestError::InvalidProtocolName(n)) && n@ == ps[k]
                } else {
                    r matches Err(ManifestError::DuplicateProtocolName(n)) && n@ == ps[k]
                }
            } else {
                r is Ok
            }
        }),
{
    let ghost ts = type_names(*manifest);
    let ghost ps = protocol_names(*manifest);
    let mut names: Vec<&str> = Vec::new();
    let mut i: usize = 0;
    while i < manifest.artifact_types.len()
        invariant
            i <= manifest.artifact_types@.len(),
            str_views(names@) == ts.take(i as int),
            ts == type_names(*manifest),
        decreases manifest.artifact_types@.len() - i,
    {
        let ghost before = names@;
        names.push(manifest.artifact_types[i].name.as_str());
        proof {
            assert(str_views(names@) =~= str_views(before).push(ts[i as int]));
            assert(ts.take(i + 1) =~= ts.take(i as int).push(ts[i as int]));
        }
        i = i + 1;
    }
    proof {
        assert(ts.take(i as int) =~= ts);
    }
    match check_names(&names) {
        Some((k, unsafe_name)) => {
            proof {
                assert(names@[k as int]@ == ts[k as int]);
            }
            if unsafe_name {
                return Err(ManifestError::InvalidArtifactTypeName(owned(names[k])));
            } else {
                return Err(ManifestError::DuplicateArtifactType(owned(names[k])));
            }
        },
        None => {
            proof {
                assert forall|k: int| !#[trigger] first_failure(ts, k) by {
                    if 0 <= k < ts.len() {
                        assert(!name_fails(ts, k));
                    }
                }
            }
        },
    }
    let mut pnames: Vec<&str> = Vec::new();
    let mut i: usize = 0;
    while i < manifest.protocols.len()
        invariant
            i <= manifest.protocols@.len(),
            str_views(pnames@) == ps.take(i as int),
            ps == protocol_names(*manifest),
        decreases manifest.protocols@.len() - i,
    {
        let ghost before = pnames@;
        pnames.push(manifest.protocols[i].name.as_str());
        proof {
            assert(str_views(pnames@) =~= str_views(before).push(ps[i as int]));
            assert(ps.take(i + 1) =~= ps.take(i as int).push(ps[i as int]));
        }
        i = i + 1;
    }
    proof {
        assert(ps.take(i as int) =~= ps);
    }
    match check_names(&pnames) {
        Some((k, unsafe_name)) => {
            proof {
                assert(pnames@[k as int]@ == ps[k as int]);
            }
            if unsafe_name {
                Err(ManifestError::InvalidProtocolName(owned(pnames[k])))
            } else {
                Err(ManifestError::DuplicateProtocolName(owned(pnames[k])))
            }
        },
        None => {
            proof {
                assert forall|k: int| !#[trigger] first_failure(ps, k) by {
                    if 0 <= k < ps.len() {
                        assert(!name_fails(ps, k));
                    }
                }
            }
            Ok(())
        },
    }
}

/// Where the layout puts an artifact type's schema:
/// `schemas/<name>.schema.json` under the manifest's directory.
pub open spec fn schema_location(manifest_dir: Seq<char>, name: Seq<char>) -> Seq<char> {
    joined_path(joined_path(manifest_dir, "schemas"@), name + ".schema.json"@)
}

/// Where the layout puts a protocol's instructions:
/// `protocols/<name>/PROTOCOL.md` under the manifest's directory.
pub open spec fn instruction_location(manifest_dir: Seq<char>, name: Seq<char>) -> Seq<char> {
    joined_path(joined_path(joined_path(manifest_dir, "protocols"@), name), "PROTOCOL.md"@)
}

/// The path of an artifact type's schema file.
pub fn schema_path(manifest_dir: &str, name: &str) -> (r: String)
    ensures
        r@ == schema_location(manifest_dir@, name@),
{
    let dir = join_path(manifest_dir, "schemas");
    let mut file = owned(name);
    push_str(&mut file, ".schema.json");
    join_path(dir.as_str(), file.as_str())
}

/// The path of a protocol's instruction file.
pub fn instruction_path(manifest_dir: &str, name: &str) -> (r: String)
    ensures
        r@ == instruction_location(manifest_dir@, name@),
{
    let dir = join_path(manifest_dir, "protocols");
    let sub = join_path(dir.as_str(), name);
    join_path(sub.as_str(), "PROTOCOL.md")
}

} // verus!
