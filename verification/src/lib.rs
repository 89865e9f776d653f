//! Resolution core of a YAML interface-definition compiler.
//!
//! The library parses type reference strings, resolves the transitive
//! closure of named types reachable from a module manifest, and builds
//! the flat render context that a template engine turns into source
//! text.  Reading the documents from disk and rendering the context are
//! left to the surrounding program; everything in here works on plain
//! values and is verified.

use vstd::prelude::*;

pub mod context;
pub mod laws;
pub mod refset;
pub mod render;
pub mod resolve;
pub mod repo;
pub mod schema;
pub mod text;
pub mod typeref;

verus! {

/// Collects the inputs of one generation run: the manifest document's
/// location, the schema roots searched in order, and where the output
/// goes.  The surrounding program reads the documents and writes the
/// generated text; this type only carries the choices.
#[derive(Debug, Clone)]
pub struct Builder {
    pub manifest_path: String,
    pub everest_core: Vec<String>,
    pub out_dir: Option<String>,
}

impl Builder {
    /// A builder for the given manifest and schema roots, with no
    /// output directory chosen yet.
    pub fn new(manifest_path: String, everest_core: Vec<String>) -> (r: Self)
        ensures
            r.manifest_path == manifest_path,
            r.everest_core == everest_core,
            r.out_dir is None,
    {
        Builder { manifest_path, everest_core, out_dir: Option::None }
    }

    /// The same builder with the output directory chosen.
    pub fn out_dir(self, path: String) -> (r: Self)
        ensures
            r.manifest_path == self.manifest_path,
            r.everest_core == self.everest_core,
            r.out_dir == Option::Some(path),
    {
        Builder {
            manifest_path: self.manifest_path,
            everest_core: self.everest_core,
            out_dir: Option::Some(path),
        }
    }
}

/// A failure of schema resolution.  Every variant carries the name or
/// reference string that locates the offending schema source.
#[derive(Debug, PartialEq)]
pub enum Error {
    /// A document or a local type name was not found in any search root.
    NotFound(String),
    /// The same logical document name parsed successfully in more than
    /// one search root.
    Ambiguous(String),
    /// A type reference string is missing the `#/` separator, or has
    /// more than one.
    MalformedReference(String),
    /// A definition contradicts the schema rules: an object carries both
    /// a reference and inline properties, or a named string type lacks
    /// enumerated items.
    SchemaConflict(String),
}

} // verus!
