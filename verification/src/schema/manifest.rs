//! The module manifest document.

use vstd::prelude::*;

verus! {

/// The root document of a module: the slots it provides and requires,
/// and its configuration entries, each mapping held in key order.
#[derive(Debug, Clone, PartialEq)]
pub struct Manifest {
    pub description: String,
    pub metadata: Metadata,
    pub provides: Vec<(String, ProvidesEntry)>,
    pub requires: Vec<(String, RequiresEntry)>,
    pub enable_external_mqtt: bool,
    pub config: Vec<(String, ConfigEntry)>,
    pub errors: Vec<ErrorEntry>,
}

/// A provided slot: the interface it implements, a description, and
/// slot-level configuration entries in key order.
#[derive(Debug, Clone, PartialEq)]
pub struct ProvidesEntry {
    pub interface: String,
    pub description: String,
    pub config: Vec<(String, ConfigEntry)>,
}

/// A required slot: the interface it depends on.
#[derive(Debug, Clone, PartialEq)]
pub struct RequiresEntry {
    pub interface: String,
}

/// License and authorship metadata of a module.
#[derive(Debug, Clone, PartialEq)]
pub struct Metadata {
    pub license: String,
    pub authors: Vec<String>,
}

/// One configuration entry: its kind and an optional description.
#[derive(Debug, Clone, PartialEq)]
pub struct ConfigEntry {
    pub description: Option<String>,
    pub value: ConfigEnum,
}

/// The kind of a configuration entry, with kind-specific defaults and
/// bounds.  The bounds are advisory metadata: nothing here re-validates
/// them.  A floating-point entry's default and bounds are kept only by
/// the document reader, not in this model; resolution never reads them.
#[derive(Debug, Clone, PartialEq)]
pub enum ConfigEnum {
    Boolean { default: Option<bool> },
    String { default: Option<String>, min_length: Option<i32>, max_length: Option<i32> },
    Integer { default: Option<i64>, minimum: Option<i64>, maximum: Option<i64> },
    Number,
}

/// A reference to an error list used by the module.
#[derive(Debug, Clone, PartialEq)]
pub struct ErrorEntry {
    pub reference: String,
}

} // verus!
