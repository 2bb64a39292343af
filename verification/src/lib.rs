//! Core library of the runa cognitive runtime: the data model, dependency
//! graph, artifact-state store, trigger evaluation, contract enforcement and
//! the decision logic of the runtime, with their behaviour stated and proved.
use vstd::prelude::*;

pub mod activation;
pub mod context;
pub mod enforcement;
pub mod entry;
pub mod forge_address;
pub mod forge_take;
pub mod graph;
pub mod hash;
pub mod json;
pub mod logging;
pub mod manifest;
pub mod model;
pub mod project;
pub mod scan;
pub mod scoped_identity;
pub mod selection;
pub mod session;
pub mod status;
pub mod store;
pub mod text;
pub mod transcript;
pub mod trigger;
pub mod validation;

verus! {

/// The version of this package.
pub const PACKAGE_VERSION: &'static str = "0.1.0";

/// The library's version, that of its package.
pub fn version() -> (r: &'static str)
    ensures
        r@ == PACKAGE_VERSION@,
        r@.len() > 0,
{
    proof {
        reveal_strlit("0.1.0");
    }
    PACKAGE_VERSION
}

} // verus!
