//! Opaque integer handles for expression nodes and types.
use vstd::prelude::*;

verus! {

/// Handle of a type in the universe of a knowledge base.
#[derive(Clone, Copy, PartialEq, Eq, Structural, Debug, Hash)]
pub struct TypeIdx(pub u32);

/// Handle of an expression node (or of a bound variable, shared by its occurrences).
#[derive(Clone, Copy, PartialEq, Eq, Structural, Debug, Hash)]
pub struct ExprIdx(pub u32);

impl From<u32> for TypeIdx {
    fn from(x: u32) -> (r: TypeIdx)
        ensures
            r.0 == x,
    {
        TypeIdx(x)
    }
}

impl vstd::std_specs::convert::FromSpecImpl<u32> for TypeIdx {
    open spec fn obeys_from_spec() -> bool {
        true
    }

    open spec fn from_spec(x: u32) -> TypeIdx {
        TypeIdx(x)
    }
}

impl From<u32> for ExprIdx {
    fn from(x: u32) -> (r: ExprIdx)
        ensures
            r.0 == x,
    {
        ExprIdx(x)
    }
}

impl vstd::std_specs::convert::FromSpecImpl<u32> for ExprIdx {
    open spec fn obeys_from_spec() -> bool {
        true
    }

    open spec fn from_spec(x: u32) -> ExprIdx {
        ExprIdx(x)
    }
}

impl From<TypeIdx> for u32 {
    fn from(t: TypeIdx) -> (r: u32)
        ensures
            r == t.0,
    {
        t.0
    }
}

impl vstd::std_specs::convert::FromSpecImpl<TypeIdx> for u32 {
    open spec fn obeys_from_spec() -> bool {
        true
    }

    open spec fn from_spec(t: TypeIdx) -> u32 {
        t.0
    }
}

impl From<ExprIdx> for u32 {
    fn from(e: ExprIdx) -> (r: u32)
        ensures
            r == e.0,
    {
        e.0
    }
}

impl vstd::std_specs::convert::FromSpecImpl<ExprIdx> for u32 {
    open spec fn obeys_from_spec() -> bool {
        true
    }

    open spec fn from_spec(e: ExprIdx) -> u32 {
        e.0
    }
}

} // verus!
