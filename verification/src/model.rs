//! Core types of a methodology: artifact types, protocol declarations and
//! trigger conditions.
use vstd::prelude::*;

use crate::json::JsonValue;
use crate::text::{push_str, views};

verus! {

/// A methodology's complete registration with the runtime: its artifact
/// types and protocol declarations.
#[derive(Debug, PartialEq)]
pub struct Manifest {
    /// Methodology name.
    pub name: String,
    /// Artifact types declared by this methodology.
    pub artifact_types: Vec<ArtifactType>,
    /// Protocols declared by this methodology.
    pub protocols: Vec<ProtocolDeclaration>,
}

/// A named category of work product with a machine-checkable schema contract.
#[derive(Debug, PartialEq)]
pub struct ArtifactType {
    /// Unique identifier within the methodology.
    pub name: String,
    /// JSON Schema defining what a valid instance contains.
    pub schema: JsonValue,
}

/// A protocol's declared relationship to artifacts and its activation condition.
#[derive(Debug, PartialEq)]
pub struct ProtocolDeclaration {
    /// Unique identifier for the protocol.
    pub name: String,
    /// Artifact types that must exist and validate before execution.
    pub requires: Vec<String>,
    /// Artifact types consumed if available; the protocol operates without them.
    pub accepts: Vec<String>,
    /// Artifact types that must exist and validate after execution.
    pub produces: Vec<String>,
    /// Artifact types that may be produced; validated if present.
    pub may_produce: Vec<String>,
    /// Whether the protocol runs once per work unit rather than once overall.
    pub scoped: bool,
    /// Condition that activates this protocol.
    pub trigger: TriggerCondition,
    /// The protocol's instruction content, when it has been loaded.
    pub instructions: Option<String>,
}

impl ProtocolDeclaration {
    /// The artifact types this protocol may write: `produces`, then `may_produce`.
    pub open spec fn output_types(&self) -> Seq<Seq<char>> {
        views(self.produces@) + views(self.may_produce@)
    }
}

/// Defines when the runtime should activate a protocol.
///
/// Primitive conditions test artifact state; composite conditions combine
/// them with `AllOf` and `AnyOf`, to any depth.
#[derive(Debug, PartialEq)]
pub enum TriggerCondition {
    /// The named artifact exists and satisfies its schema.
    OnArtifact { name: String },
    /// The named artifact is newer than the protocol's current output artifacts.
    OnChange { name: String },
    /// The named artifact exists but fails schema validation.
    OnInvalid { name: String },
    /// All conditions must be satisfied.
    AllOf { conditions: Vec<TriggerCondition> },
    /// At least one condition must be satisfied.
    AnyOf { conditions: Vec<TriggerCondition> },
}

/// The textual rendering of a trigger condition, e.g.
/// `all_of(on_artifact(X), any_of(on_invalid(Z)))`.
pub open spec fn display_condition(c: TriggerCondition) -> Seq<char>
    decreases c,
{
    match c {
        TriggerCondition::OnArtifact { name } => "on_artifact("@ + name@ + ")"@,
        TriggerCondition::OnChange { name } => "on_change("@ + name@ + ")"@,
        TriggerCondition::OnInvalid { name } => "on_invalid("@ + name@ + ")"@,
        TriggerCondition::AllOf { conditions } => "all_of("@ + display_list(conditions@) + ")"@,
        TriggerCondition::AnyOf { conditions } => "any_of("@ + display_list(conditions@) + ")"@,
    }
}

/// The renderings of a list of conditions, separated by `", "`.
pub open spec fn display_list(cs: Seq<TriggerCondition>) -> Seq<char>
    decreases cs,
{
    if cs.len() == 0 {
        Seq::empty()
    } else if cs.len() == 1 {
        display_condition(cs[0])
    } else {
        display_list(cs.drop_last()) + ", "@ + display_condition(cs.last())
    }
}

impl TriggerCondition {
    /// Renders the condition as text (the condition's `Display` form).
    pub fn to_display_string(&self) -> (r: String)
        ensures
            r@ == display_condition(*self),
    {
        let mut out = String::new();
        self.write_display(&mut out);
        assert(out@ =~= display_condition(*self));
        out
    }

    fn write_display(&self, out: &mut String)
        ensures
            final(out)@ == old(out)@ + display_condition(*self),
        decreases self,
    {
        match self {
            TriggerCondition::OnArtifact { name } => {
                push_str(out, "on_artifact(");
                push_str(out, name.as_str());
                push_str(out, ")");
            },
            TriggerCondition::OnChange { name } => {
                push_str(out, "on_change(");
                push_str(out, name.as_str());
                push_str(out, ")");
            },
            TriggerCondition::OnInvalid { name } => {
                push_str(out, "on_invalid(");
                push_str(out, name.as_str());
                push_str(out, ")");
            },
            TriggerCondition::AllOf { conditions } => {
                push_str(out, "all_of(");
                write_list(conditions, out);
                push_str(out, ")");
            },
            TriggerCondition::AnyOf { conditions } => {
                push_str(out, "any_of(");
                write_list(conditions, out);
                push_str(out, ")");
            },
        }
        assert(out@ =~= old(out)@ + display_condition(*self));
    }
}

fn write_list(conditions: &Vec<TriggerCondition>, out: &mut String)
    ensures
        final(out)@ == old(out)@ + display_list(conditions@),
    decreases conditions,
{
    let mut i: usize = 0;
    while i < conditions.len()
        invariant
            i <= conditions.len(),
            out@ == old(out)@ + display_list(conditions@.subrange(0, i as int)),
        decreases conditions.len() - i,
    {
        let ghost before = out@;
        if i > 0 {
            push_str(out, ", ");
        }
        proof {
            assert(decreases_to!(conditions => conditions@));
            assert(decreases_to!(conditions@ => conditions@[i as int]));
        }
        conditions[i].write_display(out);
        proof {
            let s = conditions@.subrange(0, i + 1);
            assert(s.drop_last() =~= conditions@.subrange(0, i as int));
            assert(s.last() == conditions@[i as int]);
            if i == 0 {
                assert(display_list(conditions@.subrange(0, 0)) =~= Seq::<char>::empty());
            }
            assert(out@ =~= old(out)@ + display_list(s));
        }
        i = i + 1;
    }
    assert(conditions@.subrange(0, conditions.len() as int) =~= conditions@);
}

} // verus!
