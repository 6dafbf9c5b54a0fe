//! Call signatures for natively compiled functions. The native-code
//! emission itself is a consumer of the finished graph and lives outside
//! this library; these types describe how such a function is entered.

use vstd::prelude::*;

use crate::function::FunctionIdent;

verus! {

/// How a compiled function is called.
#[derive(Clone, Copy, PartialEq, Eq, Structural, Debug)]
pub enum CallType {
    /// Takes an environment and one argument per arity.
    Function { arity: usize },
    /// Takes an environment and the returned term.
    Continuation,
}

/// The identity and calling shape of one compiled function.
#[derive(Clone, Copy, PartialEq, Eq, Structural, Debug)]
pub struct CallSig {
    pub ident: FunctionIdent,
    pub typ: CallType,
}

impl CallSig {
    /// A signature for the given function and call shape.
    pub fn new(ident: FunctionIdent, typ: CallType) -> (r: CallSig)
        ensures
            r.ident == ident,
            r.typ == typ,
    {
        CallSig { ident, typ }
    }
}

} // verus!
