//! The table of monomorphised records, tuples and sums, and what it says of
//! their fields and sizes.

use crate::key::RecordField;
use crate::types::{Bitsize, IntSize, MonoType, MonoTypeKey, SignatureKey, Type};
use vstd::prelude::*;

verus! {

/// The size of an address, in bits.
pub const POINTER_BITS: u32 = 64;

/// What a function takes and what it returns.
#[derive(Debug)]
pub struct Signature {
    pub params: Vec<MonoType>,
    pub returns: MonoType,
}

/// The fields of every monomorphised record, tuple and sum, by key, and the
/// signatures of the functions that are pointed to. A sum has two fields,
/// its tag and its payload.
#[derive(Debug)]
pub struct MonoTypes {
    pub records: Vec<Vec<MonoType>>,
    pub signatures: Vec<Signature>,
}

/// What a pointer of type `ty` points to: a byte, for a plain pointer.
pub open spec fn pointee(ty: MonoType) -> Option<MonoType> {
    match ty {
        MonoType::Pointer => Some(MonoType::Int(IntSize { signed: false, bitsize: Bitsize(8) })),
        MonoType::PointerTo(key) => Some(MonoType::Monomorphised(key)),
        _ => None,
    }
}

/// What a pointer of type `ty` points to, if it is a pointer.
pub fn deref(ty: MonoType) -> (r: Option<MonoType>)
    ensures
        r == pointee(ty),
{
    match ty {
        MonoType::Pointer => Some(MonoType::Int(IntSize::new(false, 8))),
        MonoType::PointerTo(key) => Some(MonoType::Monomorphised(key)),
        _ => None,
    }
}

/// Whether two lists of types are the same.
pub fn same_types(a: &Vec<MonoType>, b: &Vec<MonoType>) -> (r: bool)
    ensures
        r == (a@ == b@),
{
    if a.len() != b.len() {
        return false;
    }
    let mut i: usize = 0;
    while i < a.len()
        invariant
            i <= a.len(),
            a.len() == b.len(),
            forall|j: int| 0 <= j < i ==> a[j] == b[j],
        decreases a.len() - i,
    {
        if a[i] != b[i] {
            return false;
        }
        i += 1;
    }
    assert(a@ =~= b@);
    true
}

impl MonoTypes {
    /// Whether the table has the key.
    pub open spec fn has(&self, key: MonoTypeKey) -> bool {
        key.0 < self.records.len()
    }

    /// The types of the fields of `key`, in declaration order.
    pub open spec fn fields_of(&self, key: MonoTypeKey) -> Seq<MonoType> {
        self.records[key.0 as int]@
    }

    /// A field holds only what was defined before the type it is a field of,
    /// so that no type holds itself.
    pub open spec fn wf(&self) -> bool {
        forall|k: int, f: int|
            0 <= k < self.records.len() && 0 <= f < self.records[k].len() ==> match (
            #[trigger] self.records[k][f]) {
                MonoType::Monomorphised(inner) => inner.0 < k,
                _ => true,
            }
    }

    /// The size in bits of the fields of `key` from field `from` on.
    pub open spec fn bits_from(&self, key: MonoTypeKey, from: int) -> nat
        decreases key.0, self.fields_of(key).len() - from,
    {
        if self.has(key) && 0 <= from < self.fields_of(key).len() {
            let here = match self.fields_of(key)[from] {
                MonoType::Monomorphised(inner) => if inner.0 < key.0 {
                    self.bits_from(inner, 0)
                } else {
                    0
                },
                other => plain_bits(other),
            };
            here + self.bits_from(key, from + 1)
        } else {
            0
        }
    }

    /// The size in bits of a value of type `ty`.
    pub open spec fn bits(&self, ty: MonoType) -> nat {
        match ty {
            MonoType::Monomorphised(key) => self.bits_from(key, 0),
            other => plain_bits(other),
        }
    }

    /// What a function pointer of type `ty` returns when called.
    pub open spec fn returned(&self, ty: MonoType) -> Option<MonoType> {
        match ty {
            MonoType::FnPointer(sig) => if sig.0 < self.signatures.len() {
                Some(self.signatures[sig.0 as int].returns)
            } else {
                None
            },
            _ => None,
        }
    }

    /// The first type from key `from` on whose fields are exactly `elems`.
    pub open spec fn tuple_of(&self, elems: Seq<MonoType>, from: int) -> Option<int>
        decreases self.records.len() - from,
    {
        if 0 <= from < self.records.len() {
            if self.records[from]@ == elems {
                Some(from)
            } else {
                self.tuple_of(elems, from + 1)
            }
        } else {
            None
        }
    }

    pub fn new() -> (r: MonoTypes)
        ensures
            r.records@.len() == 0,
            r.signatures@.len() == 0,
            r.wf(),
    {
        MonoTypes { records: Vec::new(), signatures: Vec::new() }
    }

    /// Notes the signature of a function that is pointed to.
    pub fn sign(&mut self, params: Vec<MonoType>, returns: MonoType) -> (r: Option<SignatureKey>)
        requires
            old(self).wf(),
        ensures
            final(self).wf(),
            final(self).records == old(self).records,
            match r {
                Some(key) => key.0 == old(self).signatures.len() && final(self).signatures@
                    == old(self).signatures@.push(Signature { params, returns }),
                None => old(self).signatures.len() > u32::MAX && final(self).signatures
                    == old(self).signatures,
            },
    {
        if self.signatures.len() > u32::MAX as usize {
            return None;
        }
        let key = SignatureKey(self.signatures.len() as u32);
        self.signatures.push(Signature { params, returns });
        Some(key)
    }

    /// What a function pointer of type `ty` returns when called, if `ty`
    /// is the type of a function pointer.
    pub fn returns_of(&self, ty: MonoType) -> (r: Option<MonoType>)
        ensures
            r == self.returned(ty),
    {
        match ty {
            MonoType::FnPointer(sig) => if (sig.0 as usize) < self.signatures.len() {
                Some(self.signatures[sig.0 as usize].returns)
            } else {
                None
            },
            _ => None,
        }
    }

    /// The first type whose fields are exactly `elems`: the type of the
    /// tuple of values of these types.
    pub fn find_tuple(&self, elems: &Vec<MonoType>) -> (r: Option<MonoTypeKey>)
        requires
            self.records.len() <= u32::MAX,
        ensures
            match r {
                Some(key) => self.tuple_of(elems@, 0) == Some(key.0 as int),
                None => self.tuple_of(elems@, 0) is None,
            },
    {
        let mut i: usize = 0;
        while i < self.records.len()
            invariant
                i <= self.records.len(),
                self.records.len() <= u32::MAX,
                self.tuple_of(elems@, i as int) == self.tuple_of(elems@, 0),
            decreases self.records.len() - i,
        {
            if same_types(&self.records[i], elems) {
                return Some(MonoTypeKey(i as u32));
            }
            i += 1;
        }
        None
    }

    /// Defines a record, tuple or sum by its fields.
    pub fn define(&mut self, fields: Vec<MonoType>) -> (r: Option<MonoTypeKey>)
        requires
            old(self).wf(),
        ensures
            final(self).wf(),
            r is Some <==> old(self).records.len() <= u32::MAX && forall|f: int|
                0 <= f < fields.len() ==> match #[trigger] fields[f] {
                    MonoType::Monomorphised(inner) => old(self).has(inner),
                    _ => true,
                },
            match r {
                Some(key) => final(self).records@ == old(self).records@.push(fields) && key
                    == MonoTypeKey(old(self).records.len() as u32),
                None => true,
            },
            r is None ==> final(self).records@ == old(self).records@,
    {
        if self.records.len() > u32::MAX as usize {
            return None;
        }
        let mut f: usize = 0;
        while f < fields.len()
            invariant
                f <= fields.len(),
                *self == *old(self),
                self.wf(),
                self.records.len() <= u32::MAX,
                forall|g: int|
                    0 <= g < f ==> match #[trigger] fields[g] {
                        MonoType::Monomorphised(inner) => self.has(inner),
                        _ => true,
                    },
            decreases fields.len() - f,
        {
            if let MonoType::Monomorphised(inner) = fields[f] {
                if inner.0 as usize >= self.records.len() {
                    assert(!self.has(inner));
                    return None;
                }
            }
            f += 1;
        }
        let key = MonoTypeKey(self.records.len() as u32);
        self.records.push(fields);
        proof {
            assert forall|k: int, g: int|
                0 <= k < self.records.len() && 0 <= g < self.records[k].len() implies match (
            #[trigger] self.records[k][g]) {
                MonoType::Monomorphised(inner) => inner.0 < k,
                _ => true,
            } by {
                if k < old(self).records.len() {
                    assert(self.records[k][g] == old(self).records[k][g]);
                } else {
                    assert(self.records[k][g] == fields[g]);
                }
            }
        }
        Some(key)
    }

    /// How many fields `key` has.
    pub fn fields(&self, key: MonoTypeKey) -> (r: usize)
        requires
            self.has(key),
        ensures
            r == self.fields_of(key).len(),
    {
        self.records[key.0 as usize].len()
    }

    /// The type of a field.
    pub fn type_of_field(&self, key: MonoTypeKey, field: RecordField) -> (r: MonoType)
        requires
            self.has(key),
            field.0 < self.fields_of(key).len(),
        ensures
            r == self.fields_of(key)[field.0 as int],
    {
        self.records[key.0 as usize][field.0 as usize]
    }

    /// The size in bits of a record, tuple or sum.
    pub fn size_of_defined(&self, key: MonoTypeKey) -> (r: u32)
        requires
            self.wf(),
            self.has(key),
            self.bits_from(key, 0) <= u32::MAX,
        ensures
            r == self.bits_from(key, 0),
        decreases key.0,
    {
        let fields = &self.records[key.0 as usize];
        let mut total: u32 = 0;
        let mut f: usize = 0;
        while f < fields.len()
            invariant
                f <= fields.len(),
                self.wf(),
                self.has(key),
                *fields == self.records[key.0 as int],
                total + self.bits_from(key, f as int) == self.bits_from(key, 0),
                self.bits_from(key, 0) <= u32::MAX,
            decreases fields.len() - f,
        {
            let here = match fields[f] {
                MonoType::Monomorphised(inner) => {
                    assert(inner.0 < key.0);
                    self.size_of_defined(inner)
                },
                other => plain_size(other),
            };
            total = total + here;
            f += 1;
        }
        total
    }

    /// The size in bits of a value of type `ty`.
    pub fn size_of(&self, ty: &MonoType) -> (r: u32)
        requires
            self.wf(),
            match *ty {
                MonoType::Monomorphised(key) => self.has(key),
                _ => true,
            },
            self.bits(*ty) <= u32::MAX,
        ensures
            r == self.bits(*ty),
    {
        match *ty {
            MonoType::Monomorphised(key) => self.size_of_defined(key),
            other => plain_size(other),
        }
    }
}

/// The size in bits of a type that is no record, tuple or sum.
pub open spec fn plain_bits(ty: MonoType) -> nat {
    match ty {
        MonoType::Int(size) => size.bitsize.0 as nat,
        MonoType::Pointer => POINTER_BITS as nat,
        MonoType::PointerTo(_) => POINTER_BITS as nat,
        MonoType::FnPointer(_) => POINTER_BITS as nat,
        MonoType::SumDataCast { largest } => largest as nat,
        MonoType::Monomorphised(_) => 0,
        MonoType::Unreachable => 0,
    }
}

fn plain_size(ty: MonoType) -> (r: u32)
    ensures
        r == plain_bits(ty),
{
    match ty {
        MonoType::Int(size) => size.bitsize.0 as u32,
        MonoType::Pointer => POINTER_BITS,
        MonoType::PointerTo(_) => POINTER_BITS,
        MonoType::FnPointer(_) => POINTER_BITS,
        MonoType::SumDataCast { largest } => largest,
        MonoType::Monomorphised(_) => 0,
        MonoType::Unreachable => 0,
    }
}

/// Whether `ty` names only generics among `generics`.
pub open spec fn covers(generics: Seq<MonoType>, ty: Type) -> bool {
    match ty {
        Type::Generic(i) => i < generics.len(),
        Type::Mono(_) => true,
    }
}

/// The type that `ty` is once its generic is replaced by what stands for it.
pub open spec fn applied(generics: Seq<MonoType>, ty: Type) -> MonoType {
    match ty {
        Type::Generic(i) => generics[i as int],
        Type::Mono(m) => m,
    }
}

/// The types that stand for the generics of a definition, by position, and
/// for `self` in a trait implementation.
#[derive(Debug)]
pub struct TypeMap {
    pub self_: Option<MonoType>,
    pub generics: Vec<MonoType>,
}

impl TypeMap {
    pub fn new() -> (r: TypeMap)
        ensures
            r.self_ is None,
            r.generics@.len() == 0,
    {
        TypeMap { self_: None, generics: Vec::new() }
    }

    /// Whether `ty` names only generics that the map has.
    pub open spec fn covers(&self, ty: Type) -> bool {
        covers(self.generics@, ty)
    }

    /// The type that `ty` is once its generic is replaced.
    pub open spec fn applied(&self, ty: Type) -> MonoType {
        applied(self.generics@, ty)
    }

    /// Replaces the generic in `ty`.
    pub fn apply(&self, ty: &Type) -> (r: MonoType)
        requires
            self.covers(*ty),
        ensures
            r == self.applied(*ty),
    {
        match *ty {
            Type::Generic(i) => self.generics[i as usize],
            Type::Mono(m) => m,
        }
    }
}

/// Whether `ty` names only generics among `params`.
pub open spec fn instantiable(ty: Type, params: Seq<Type>) -> bool {
    match ty {
        Type::Generic(i) => i < params.len(),
        Type::Mono(_) => true,
    }
}

/// `ty` with its generic replaced by the parameter in its place.
pub open spec fn instantiated(ty: Type, params: Seq<Type>) -> Type {
    match ty {
        Type::Generic(i) => params[i as int],
        Type::Mono(_) => ty,
    }
}

/// Replaces the generic in `ty` by the parameter in its place.
pub fn instantiate(ty: Type, params: &Vec<Type>) -> (r: Type)
    requires
        instantiable(ty, params@),
    ensures
        r == instantiated(ty, params@),
{
    match ty {
        Type::Generic(i) => params[i as usize],
        Type::Mono(_) => ty,
    }
}

} // verus!
