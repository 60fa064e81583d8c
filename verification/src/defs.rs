//! Definition tables handed to the semantic stage: functions, variables
//! and types known by name. The parser core only produces these carriers;
//! resolving and checking them belongs to the consumer.

use vstd::prelude::*;

use std::collections::HashMap;

verus! {

/// All function definitions known so far, by name.
#[derive(Debug)]
pub struct FnDefinitions {
    pub map: HashMap<String, FnDefinition>,
}

/// One named function: possibly several signatures sharing the name.
#[derive(Debug)]
pub struct FnDefinition {
    pub overdrives: Vec<FnSign>,
}

/// One signature of a function: its mangled name, result type and
/// parameters.
#[derive(Debug)]
pub struct FnSign {
    pub mangle: String,
    pub ty: String,
    pub params: Vec<Parameter>,
}

/// One declared parameter.
#[derive(Debug)]
pub struct Parameter {
    pub name: String,
    pub var_def: VarDefinition,
}

/// All variable definitions in scope, by name.
#[derive(Debug)]
pub struct VarDefinitions {
    pub map: HashMap<String, VarDefinition>,
}

/// One defined variable: its type.
#[derive(Debug)]
pub struct VarDefinition {
    pub ty: String,
}

/// All type definitions known so far, by name.
#[derive(Debug)]
pub struct TypeDefinitions {
    pub map: HashMap<String, TypeDefinition>,
}

/// One defined type.
#[derive(Debug)]
pub struct TypeDefinition {}

impl FnDefinition {
    pub fn new(overdrives: Vec<FnSign>) -> (d: FnDefinition)
        ensures
            d.overdrives == overdrives,
    {
        FnDefinition { overdrives }
    }
}

impl VarDefinition {
    pub fn new(ty: String) -> (d: VarDefinition)
        ensures
            d.ty == ty,
    {
        VarDefinition { ty }
    }
}

} // verus!
