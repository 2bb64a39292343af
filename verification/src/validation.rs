//! Schema-validation outcomes of artifact instances.
use vstd::prelude::*;

verus! {

/// A single schema violation found in an artifact instance.
#[derive(Debug, Clone, PartialEq, Eq)]
pub struct Violation {
    /// The artifact type whose schema was violated.
    pub artifact_type: String,
    /// What is wrong.
    pub description: String,
    /// JSON pointer into the schema.
    pub schema_path: String,
    /// JSON pointer into the instance.
    pub instance_path: String,
}

/// Why validating an artifact instance failed.
#[derive(Debug, Clone, PartialEq, Eq)]
pub enum ValidationError {
    /// The instance violates its schema.
    InvalidArtifact { artifact_type: String, violations: Vec<Violation> },
    /// The schema itself is malformed.
    InvalidSchema { artifact_type: String, detail: String },
}

impl Violation {
    /// A copy of the violation.
    pub fn duplicate(&self) -> (r: Violation)
        ensures
            r == *self,
    {
        Violation {
            artifact_type: self.artifact_type.clone(),
            description: self.description.clone(),
            schema_path: self.schema_path.clone(),
            instance_path: self.instance_path.clone(),
        }
    }
}


} // verus!
