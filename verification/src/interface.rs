//! The description of an interface: the functions that a guest offers and the
//! identity under which it offers them.

use vstd::prelude::*;

verus! {

/// One function of an interface. Its name is also the name of the guest
/// export that runs it.
#[derive(Clone, Debug, PartialEq, Eq)]
pub struct FunctionSignature {
    /// The function's name.
    pub name: String,
    /// The types of its parameters, in order.
    pub params: Vec<String>,
    /// The type of its result, if it has one.
    pub output: Option<String>,
}

impl FunctionSignature {
    /// The number of parameters.
    pub open spec fn arity(&self) -> nat {
        self.params@.len()
    }

    /// Whether the function returns a value.
    pub open spec fn has_result(&self) -> bool {
        self.output is Some
    }
}

} // verus!
