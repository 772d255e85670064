//! Stable integer identities for the things the compiler talks about.

use vstd::prelude::*;

verus! {

/// Identity of a source module.
#[derive(Clone, Copy, PartialEq, Eq, Structural, Debug, Hash)]
pub struct Module(pub u32);

/// The implicit prelude, searched after an unqualified lookup fails.
pub open spec fn spec_prelude() -> Module {
    Module(0)
}

/// The implicit prelude, searched after an unqualified lookup fails.
#[verifier::when_used_as_spec(spec_prelude)]
pub fn prelude() -> (r: Module)
    ensures
        r == spec_prelude(),
{
    Module(0)
}

#[derive(Clone, Copy, PartialEq, Eq, Structural, Debug, Hash)]
pub struct Func(pub u32);

#[derive(Clone, Copy, PartialEq, Eq, Structural, Debug, Hash)]
pub struct Trait(pub u32);

#[derive(Clone, Copy, PartialEq, Eq, Structural, Debug, Hash)]
pub struct Method(pub u32);

#[derive(Clone, Copy, PartialEq, Eq, Structural, Debug, Hash)]
pub struct Sum(pub u32);

#[derive(Clone, Copy, PartialEq, Eq, Structural, Debug, Hash)]
pub struct SumVariant(pub u32);

#[derive(Clone, Copy, PartialEq, Eq, Structural, Debug, Hash)]
pub struct Val(pub u32);

#[derive(Clone, Copy, PartialEq, Eq, Structural, Debug, Hash)]
pub struct Record(pub u32);

#[derive(Clone, Copy, PartialEq, Eq, Structural, Debug, Hash)]
pub struct RecordField(pub u32);

#[derive(Clone, Copy, PartialEq, Eq, Structural, Debug, Hash)]
pub struct Impl(pub u32);

#[derive(Clone, Copy, PartialEq, Eq, Structural, Debug, Hash)]
pub struct Lambda(pub u32);

#[derive(Clone, Copy, PartialEq, Eq, Structural, Debug, Hash)]
pub struct Param(pub u32);

/// A name bound by a pattern.
#[derive(Clone, Copy, PartialEq, Eq, Structural, Debug, Hash)]
pub struct Bind(pub u32);

/// A read-only data item (a string literal, for one).
#[derive(Clone, Copy, PartialEq, Eq, Structural, Debug, Hash)]
pub struct ReadOnly(pub u32);

/// Identity of a leaf of a decision tree, and of the branch body it selects.
#[derive(Clone, Copy, PartialEq, Eq, Structural, Debug, Hash)]
pub struct DecisionTreeTail(pub u32);

impl View for SumVariant {
    type V = SumVariant;

    open spec fn view(&self) -> SumVariant {
        *self
    }
}

/// A type declaration of any kind.
#[derive(Clone, Copy, PartialEq, Eq, Structural, Debug, Hash)]
pub enum TypeKind {
    Record(Record),
    Sum(Sum),
    Trait(Trait),
}

/// A key together with the module that hosts it.
#[derive(Clone, Copy, PartialEq, Eq, Structural, Debug, Hash)]
pub struct M<K> {
    pub module: Module,
    pub value: K,
}

impl Module {
    /// Qualifies `value` with this module.
    pub fn m<K>(self, value: K) -> (r: M<K>)
        ensures
            r.module == self,
            r.value == value,
    {
        M { module: self, value }
    }
}

} // verus!
