use vstd::prelude::*;

verus! {

/// Identification of one configuration document: its name and version.
#[derive(Debug, Clone, PartialEq, Eq)]
pub struct ConfigMeta {
    pub name: String,
    pub version: i32,
    pub version_name: String,
}

/// The closed set of data types a raw parameter may declare for its value.
#[derive(Debug, Clone, Copy, PartialEq, Eq, Structural)]
pub enum ParamType {
    Int,
    Dec,
    Str,
    Bool,
    Dt,
}

} // verus!
