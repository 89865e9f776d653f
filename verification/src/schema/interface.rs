//! Interface and data-type documents, and the recursive argument
//! grammar shared by both.
//!
//! Mappings that the documents keep in key order are held as vectors of
//! key/value pairs, in that order.

use vstd::prelude::*;

verus! {

/// Options of a string-kinded node: it may reference a named enum type,
/// and a named string type carries its enumerated items.
#[derive(Debug, PartialEq)]
pub struct StringOptions {
    pub object_reference: Option<String>,
    pub enum_items: Option<Vec<String>>,
}

/// Options of an object-kinded node: either a reference to a named
/// object type, or inline properties with the list of required property
/// names; carrying both at once is a schema conflict.
#[derive(Debug, PartialEq)]
pub struct ObjectOptions {
    pub object_reference: Option<String>,
    pub properties: Vec<(String, Variable)>,
    pub required: Vec<String>,
}

/// Options of an array-kinded node: the item type, when declared.
#[derive(Debug, PartialEq)]
pub struct ArrayOptions {
    pub items: Option<Box<Variable>>,
}

/// One scalar kind of the closed, recursive type grammar.
#[derive(Debug, PartialEq)]
pub enum Type {
    Null,
    Boolean,
    String(StringOptions),
    Number,
    Integer,
    Object(ObjectOptions),
    Array(ArrayOptions),
}

/// A single scalar kind, or a union of several; a union collapses to an
/// opaque dynamic value.
#[derive(Debug, PartialEq)]
pub enum Argument {
    Single(Type),
    Multiple(Vec<Type>),
}

/// An argument grammar node together with an optional description.
#[derive(Debug, PartialEq)]
pub struct Variable {
    pub description: Option<String>,
    pub arg: Argument,
}

/// A command of an interface: ordered arguments and an optional result.
#[derive(Debug, PartialEq)]
pub struct Command {
    pub description: String,
    pub arguments: Vec<(String, Variable)>,
    pub result: Option<Variable>,
}

/// A named contract document: published variables and commands.
#[derive(Debug, PartialEq)]
pub struct Interface {
    pub description: String,
    pub vars: Vec<(String, Variable)>,
    pub cmds: Vec<(String, Command)>,
}

/// A catalogue document mapping local type names to their definitions;
/// one document corresponds to one module-path segment chain.
#[derive(Debug, PartialEq)]
pub struct DataTypes {
    pub types: Vec<(String, Variable)>,
}

} // verus!
