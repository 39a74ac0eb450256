//! Names of functions on the chain.

use vstd::prelude::*;
use crate::types::Address;

verus! {

/// A function of a module on the chain, by the address of the module and
/// the two names.
#[derive(Debug)]
pub struct FunctionInfo {
    pub module_address: Address,
    pub module_name: String,
    pub function_name: String,
}

impl FunctionInfo {
    pub fn new(module_address: Address, module_name: String, function_name: String) -> (info: Self)
        ensures
            info.module_address == module_address,
            info.module_name == module_name,
            info.function_name == function_name,
    {
        FunctionInfo { module_address, module_name, function_name }
    }
}

} // verus!
