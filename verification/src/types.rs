//! Integer widths and the monomorphic types that lowered values carry.

use vstd::prelude::*;

verus! {

/// A width in bits.
#[derive(Clone, Copy, PartialEq, Eq, Structural, Debug, Hash)]
pub struct Bitsize(pub u8);

/// Signedness and width of an integer type.
#[derive(Clone, Copy, PartialEq, Eq, Structural, Debug, Hash)]
pub struct IntSize {
    pub signed: bool,
    pub bitsize: Bitsize,
}

impl IntSize {
    pub fn new(signed: bool, bits: u8) -> (r: IntSize)
        ensures
            r == (IntSize { signed, bitsize: Bitsize(bits) }),
    {
        IntSize { signed, bitsize: Bitsize(bits) }
    }

    pub open spec fn spec_bits(&self) -> u8 {
        self.bitsize.0
    }

    #[verifier::when_used_as_spec(spec_bits)]
    pub fn bits(&self) -> (r: u8)
        ensures
            r == self.bitsize.0,
    {
        self.bitsize.0
    }
}

/// Key of a monomorphised record, tuple or sum in the type table.
#[derive(Clone, Copy, PartialEq, Eq, Structural, Debug, Hash)]
pub struct MonoTypeKey(pub u32);

/// Key of the signature of a function in the type table.
#[derive(Clone, Copy, PartialEq, Eq, Structural, Debug, Hash)]
pub struct SignatureKey(pub u32);

/// A type after monomorphisation.
#[derive(Clone, Copy, PartialEq, Eq, Structural, Debug, Hash)]
pub enum MonoType {
    Int(IntSize),
    /// The address of a byte, or of what the instruction that reads through
    /// it names.
    Pointer,
    /// The address of a record, tuple or sum.
    PointerTo(MonoTypeKey),
    /// The address of a function of the given signature.
    FnPointer(SignatureKey),
    /// The payload of a sum, wide enough for its largest variant.
    SumDataCast { largest: u32 },
    Monomorphised(MonoTypeKey),
    Unreachable,
}

/// A type as the front-end hands it over: a generic of the enclosing
/// definition, by position, or a type that is already concrete.
#[derive(Clone, Copy, PartialEq, Eq, Structural, Debug, Hash)]
pub enum Type {
    Generic(u32),
    Mono(MonoType),
}

} // verus!
