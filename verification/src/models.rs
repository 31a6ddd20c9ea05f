//! The request payload shapes of the scaffold service.
//!
//! The HTTP boundary deserializes into its own mirror of these types;
//! inside the library they are plain data.

use vstd::prelude::*;

use std::collections::HashMap;

verus! {

/// A contract together with its generation options.
#[allow(dead_code)]
#[derive(Debug)]
pub struct ContractWithOptions {
    contract: Contract,
    opts: ContractOptions,
}

/// A contract definition as the wizard submits it.
#[allow(dead_code)]
#[derive(Debug)]
pub struct Contract {
    license: String,
    security_contact: String,
    ownable: bool,
    documentations: Vec<String>,
    constructor_args: Vec<ConstructorArg>,
    constructor_code: Vec<String>,
    implemented_traits_map: HashMap<String, String>,
    free_functions_map: HashMap<String, String>,
    variables_map: HashMap<String, String>,
    use_clauses_map: HashMap<String, String>,
    errors_map: HashMap<String, String>,
    derives_set: HashMap<String, String>,
    name: String,
}

/// One constructor argument: its name and type.
#[allow(dead_code)]
#[derive(Debug)]
pub struct ConstructorArg {
    name: String,
    arg_type: String,
}

/// The options chosen for a contract.
#[allow(dead_code)]
#[derive(Debug)]
pub struct ContractOptions {
    kind: String,
    name: String,
    symbol: String,
    burnable: bool,
    pausable: bool,
    upgradeable: bool,
    premint: Option<String>,
    mintable: bool,
    access: Option<String>,
    info: Option<Info>,
}

/// Licensing information attached to the options.
#[allow(dead_code)]
#[derive(Debug)]
pub struct Info {
    license: String,
}

} // verus!
