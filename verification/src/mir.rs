//! What lowering reads of the typed program: expressions, the parameter
//! types of sum variants, the trait implementations and the typings of
//! functions.

use crate::key::{Func, Impl, Lambda, M, Method, ReadOnly, RecordField, Trait, Val};
use crate::ssa::{MonoFunc, Value};
use crate::mono::TypeMap;
use crate::tree::{DecTree, Local};
use crate::types::{IntSize, MonoType, MonoTypeKey, Type};
use vstd::prelude::*;

verus! {

/// What a name in the function namespace turned out to be, for a call.
#[derive(Clone, Copy, PartialEq, Eq, Structural, Debug)]
pub enum ResolvedNFunc {
    /// A function from outside the program, and what it returns.
    Extern(M<Func>, MonoType),
    /// A function of the program, and what it returns.
    Static(MonoFunc, MonoType),
    /// The constructor of a variant of a sum: its tag, the size of the
    /// payload of the sum in bits, and the sum.
    Sum { tag: Value, payload_size: u32, ty: MonoTypeKey },
    /// A static value that holds a function, and its type.
    Val(M<Val>, MonoType),
}

/// An expression of the typed program.
#[derive(Debug)]
pub enum Expr {
    /// The value of a local.
    Yield(Local),
    Int(IntSize, i128),
    UInt(IntSize, u128),
    Bool(bool),
    ReadOnly(ReadOnly),
    /// An integer of the first width taken to the second.
    IntCast(Box<Expr>, IntSize, IntSize),
    /// One of `eq`, `lt` and `gt` on two integers.
    Compare(&'static str, Box<Expr>, Box<Expr>),
    /// One of `plus`, `minus`, `mul` and `div` on two numbers.
    Num(&'static str, Box<Expr>, Box<Expr>),
    /// A field of a record.
    Access(Box<Expr>, MonoTypeKey, RecordField),
    /// A record built of its fields, which are given in any order.
    Record(MonoTypeKey, Vec<(RecordField, Expr)>),
    /// The address of the static value that the expression calls on.
    ValToRef(Box<Expr>),
    /// What a pointer points to.
    Deref(Box<Expr>),
    /// A tuple of the values of the expressions.
    Tuple(Vec<Expr>),
    /// A lambda as a value: an object of what it captured and itself.
    YieldLambda(Lambda),
    /// A call of a lambda on the given arguments.
    CallLambda(Lambda, Vec<Expr>),
    /// A call of what a local holds: a function pointer or a closure.
    CallLocal(Local, Vec<Expr>),
    /// A write of the second value through the first, a pointer.
    Write(Box<Expr>, Box<Expr>),
    /// The size of a type, in bytes.
    SizeOf(Type),
    /// A call of a function that has been resolved, on the given arguments.
    CallFunc(ResolvedNFunc, Vec<Expr>),
    /// A match on a value: its decision tree, the bodies of its branches by
    /// tail, and for each tail how many leaves of the tree lead to it.
    Match(Box<Expr>, Box<DecTree>, Vec<Expr>, Vec<u16>),
    Abort,
}

/// How much there is to lower in an expression; a match weighs more than
/// its bodies together.
pub open spec fn expr_size(e: Expr) -> nat
    decreases e,
{
    match e {
        Expr::IntCast(inner, _, _) => 1 + expr_size(*inner),
        Expr::Compare(_, left, right) => 1 + expr_size(*left) + expr_size(*right),
        Expr::Num(_, left, right) => 1 + expr_size(*left) + expr_size(*right),
        Expr::Access(object, _, _) => 1 + expr_size(*object),
        Expr::Write(pointer, value) => 1 + expr_size(*pointer) + expr_size(*value),
        Expr::Record(_, fields) => 1 + fields_size(fields, 0),
        Expr::ValToRef(_) => 1,
        Expr::CallFunc(_, params) => 1 + bodies_size(params, 0),
        Expr::Deref(inner) => 1 + expr_size(*inner),
        Expr::Tuple(elems) => 1 + bodies_size(elems, 0),
        Expr::CallLocal(_, params) => 1 + bodies_size(params, 0),
        Expr::CallLambda(_, params) => 1 + bodies_size(params, 0),
        Expr::Match(on, _, branches, _) => 2 + expr_size(*on) + bodies_size(branches, 0),
        _ => 1,
    }
}

/// How much there is to lower in the bodies from index `from` on.
pub open spec fn bodies_size(bodies: Vec<Expr>, from: int) -> nat
    decreases bodies, bodies.len() - from,
{
    if 0 <= from < bodies.len() {
        expr_size(bodies[from]) + bodies_size(bodies, from + 1)
    } else {
        0
    }
}

/// How much there is to lower in the fields from index `from` on.
pub open spec fn fields_size(fields: Vec<(RecordField, Expr)>, from: int) -> nat
    decreases fields, fields.len() - from,
{
    if 0 <= from < fields.len() {
        expr_size(fields[from].1) + fields_size(fields, from + 1)
    } else {
        0
    }
}

/// Each field weighs no more than the fields together.
pub proof fn lemma_field_size(fields: Vec<(RecordField, Expr)>, from: int, at: int)
    requires
        0 <= from <= at < fields.len(),
    ensures
        expr_size(fields[at].1) <= fields_size(fields, from),
    decreases at - from,
{
    if from < at {
        lemma_field_size(fields, from + 1, at);
    }
}

/// The place of the field `field` among `fields` from index `from` on.
pub open spec fn place_of_field(fields: Seq<RecordField>, field: RecordField, from: int) -> Option<int>
    decreases fields.len() - from,
{
    if 0 <= from < fields.len() {
        if fields[from] == field {
            Some(from)
        } else {
            place_of_field(fields, field, from + 1)
        }
    } else {
        None
    }
}

/// Where the place of a field is known, it is a place of that field.
pub proof fn lemma_place_of_field(fields: Seq<RecordField>, field: RecordField, from: int)
    requires
        0 <= from,
    ensures
        match place_of_field(fields, field, from) {
            Some(at) => from <= at < fields.len() && fields[at] == field,
            None => true,
        },
    decreases fields.len() - from,
{
    if from < fields.len() && fields[from] != field {
        lemma_place_of_field(fields, field, from + 1);
    }
}

/// There is something to lower in every expression.
pub proof fn lemma_expr_size_positive(e: Expr)
    ensures
        expr_size(e) >= 1,
{
}

/// Each body weighs no more than the bodies together.
pub proof fn lemma_body_size(bodies: Vec<Expr>, from: int, at: int)
    requires
        0 <= from <= at < bodies.len(),
    ensures
        expr_size(bodies[at]) <= bodies_size(bodies, from),
    decreases at - from,
{
    if from < at {
        lemma_body_size(bodies, from + 1, at);
    }
}

/// Where a function to call comes from.
#[derive(Clone, Copy, PartialEq, Eq, Structural, Debug)]
pub enum FuncOrigin {
    Defined(Func),
    Method(Impl, Method),
    Lambda(Lambda),
}

/// What is known of a function before monomorphisation.
#[derive(Clone, Copy, PartialEq, Eq, Structural, Debug)]
pub struct FuncDef {
    pub returns: Type,
}

/// A trait implementation: the trait, the patterns of its parameters and of
/// the implementing type over `generics` generics, and the function behind
/// each method, where it has one of its own.
#[derive(Debug)]
pub struct ImplDef {
    pub trait_: Trait,
    pub trait_params: Vec<Type>,
    pub impltor: Type,
    pub generics: u32,
    pub methods: Vec<Option<Func>>,
}

/// The typed program, as far as lowering reads it.
#[derive(Debug)]
pub struct Mir {
    pub funcs: Vec<FuncDef>,
    /// The parameter types of each variant of each sum.
    pub variant_types: Vec<Vec<Vec<Type>>>,
    /// The trait implementations in the order of their declaration.
    pub impls: Vec<ImplDef>,
    /// The length in bytes of each read-only data item.
    pub read_only: Vec<u64>,
    /// What is known of each lambda.
    pub lambdas: Vec<FuncDef>,
}

/// What has been found out of the generics of an implementation.
pub type Assignments = Seq<Option<MonoType>>;

/// `assign` after the pattern was held against `ty`: a concrete pattern
/// must be `ty`; a generic takes `ty` if it stood for nothing and must
/// stand for `ty` if it stood for something.
pub open spec fn unify(assign: Assignments, pattern: Type, ty: MonoType) -> Option<Assignments> {
    match pattern {
        Type::Mono(m) => if m == ty {
            Some(assign)
        } else {
            None
        },
        Type::Generic(i) => if i >= assign.len() {
            None
        } else {
            match assign[i as int] {
                None => Some(assign.update(i as int, Some(ty))),
                Some(held) => if held == ty {
                    Some(assign)
                } else {
                    None
                },
            }
        },
    }
}

/// `assign` after the patterns from index `from` on were held against the
/// types in their places.
pub open spec fn unify_all(
    assign: Assignments,
    patterns: Seq<Type>,
    types: Seq<MonoType>,
    from: int,
) -> Option<Assignments>
    decreases patterns.len() - from,
{
    if 0 <= from < patterns.len() {
        match unify(assign, patterns[from], types[from]) {
            Some(next) => unify_all(next, patterns, types, from + 1),
            None => None,
        }
    } else {
        Some(assign)
    }
}

impl ImplDef {
    /// What the generics of the implementation stand for where it is one of
    /// `trait_` with the parameters `params` for the type `impltor`.
    pub open spec fn applies(&self, trait_: Trait, params: Seq<MonoType>, impltor: MonoType) -> Option<
        Assignments,
    > {
        if self.trait_ == trait_ && self.trait_params.len() == params.len() {
            match unify_all(
                Seq::new(self.generics as nat, |i: int| None),
                self.trait_params@,
                params,
                0,
            ) {
                Some(assign) => unify(assign, self.impltor, impltor),
                None => None,
            }
        } else {
            None
        }
    }

    /// Holds the implementation against a trait, its parameters and a type.
    pub fn check(&self, trait_: Trait, params: &Vec<MonoType>, impltor: MonoType) -> (r: Option<
        Vec<Option<MonoType>>,
    >)
        ensures
            r is Some <==> self.applies(trait_, params@, impltor) is Some,
            r is Some ==> r->0@ == self.applies(trait_, params@, impltor)->0,
    {
        if !(self.trait_.0 == trait_.0 && self.trait_params.len() == params.len()) {
            return None;
        }
        let mut assign: Vec<Option<MonoType>> = Vec::new();
        let mut g: u32 = 0;
        while g < self.generics
            invariant
                g <= self.generics,
                assign@ == Seq::new(g as nat, |i: int| None::<MonoType>),
            decreases self.generics - g,
        {
            assign.push(None);
            g += 1;
            assert(assign@ =~= Seq::new(g as nat, |i: int| None::<MonoType>));
        }
        let ghost start = assign@;
        let mut i: usize = 0;
        while i < params.len()
            invariant
                i <= params.len(),
                self.trait_params.len() == params.len(),
                self.trait_ == trait_,
                start == Seq::new(self.generics as nat, |i: int| None::<MonoType>),
                unify_all(assign@, self.trait_params@, params@, i as int) == unify_all(
                    start,
                    self.trait_params@,
                    params@,
                    0,
                ),
            decreases params.len() - i,
        {
            if !hold(&mut assign, self.trait_params[i], params[i]) {
                return None;
            }
            i += 1;
        }
        if !hold(&mut assign, self.impltor, impltor) {
            return None;
        }
        Some(assign)
    }
}

/// Holds a pattern against a type and notes what its generic stands for.
fn hold(assign: &mut Vec<Option<MonoType>>, pattern: Type, ty: MonoType) -> (r: bool)
    ensures
        r == unify(old(assign)@, pattern, ty) is Some,
        r ==> final(assign)@ == unify(old(assign)@, pattern, ty)->0,
{
    match pattern {
        Type::Mono(m) => m == ty,
        Type::Generic(i) => {
            if i as usize >= assign.len() {
                return false;
            }
            match assign[i as usize] {
                None => {
                    assign[i as usize] = Some(ty);
                    true
                },
                Some(held) => held == ty,
            }
        },
    }
}

impl Mir {
    /// The first implementation, in the order of declaration, of `trait_`
    /// with the parameters `params` for the type `impltor`.
    pub open spec fn implementation(&self, trait_: Trait, params: Seq<MonoType>, impltor: MonoType) -> Option<
        int,
    > {
        if exists|i: int| self.found_at(trait_, params, impltor, i) {
            Some(choose|i: int| self.found_at(trait_, params, impltor, i))
        } else {
            None
        }
    }

    /// Whether implementation `i` applies and none before it does.
    pub open spec fn found_at(&self, trait_: Trait, params: Seq<MonoType>, impltor: MonoType, i: int) -> bool {
        &&& 0 <= i < self.impls.len()
        &&& self.impls[i].applies(trait_, params, impltor) is Some
        &&& forall|j: int| 0 <= j < i ==> (#[trigger] self.impls[j]).applies(trait_, params, impltor) is None
    }

    /// Finds the implementation of `trait_` with the parameters `params` for
    /// the type `impltor`, and what its generics stand for. Of several that
    /// apply, the one declared first is taken.
    pub fn find(&self, trait_: Trait, params: &Vec<MonoType>, impltor: MonoType) -> (r: Option<
        (Impl, TypeMap),
    >)
        requires
            self.impls.len() <= u32::MAX,
        ensures
            r is Some <==> self.implementation(trait_, params@, impltor) is Some,
            match r {
                Some((imp, tmap)) => {
                    &&& self.implementation(trait_, params@, impltor) == Some(imp.0 as int)
                    &&& tmap.self_ == Some(impltor)
                    &&& tmap.generics@ == settled(
                        self.impls[imp.0 as int].applies(trait_, params@, impltor)->0,
                    )
                },
                None => true,
            },
    {
        let mut i: usize = 0;
        while i < self.impls.len()
            invariant
                i <= self.impls.len(),
                self.impls.len() <= u32::MAX,
                forall|j: int|
                    0 <= j < i ==> (#[trigger] self.impls[j]).applies(trait_, params@, impltor) is None,
            decreases self.impls.len() - i,
        {
            if let Some(assign) = self.impls[i].check(trait_, params, impltor) {
                assert(self.found_at(trait_, params@, impltor, i as int));
                assert forall|k: int| self.found_at(trait_, params@, impltor, k) implies k == i by {
                    if k < i {
                        assert(self.impls[k].applies(trait_, params@, impltor) is None);
                    }
                    if k > i {
                        assert(self.impls[i as int].applies(trait_, params@, impltor) is None);
                    }
                }
                let generics = settle(&assign);
                return Some((Impl(i as u32), TypeMap { self_: Some(impltor), generics }));
            }
            i += 1;
        }
        assert forall|k: int| !self.found_at(trait_, params@, impltor, k) by {
            if 0 <= k < self.impls.len() {
                assert(self.impls[k].applies(trait_, params@, impltor) is None);
            }
        }
        None
    }
}

/// What each generic stands for, one that nothing was found out of standing
/// for a type that has no values.
pub open spec fn settled(assign: Assignments) -> Seq<MonoType> {
    Seq::new(
        assign.len(),
        |i: int|
            match assign[i] {
                Some(ty) => ty,
                None => MonoType::Unreachable,
            },
    )
}

fn settle(assign: &Vec<Option<MonoType>>) -> (r: Vec<MonoType>)
    ensures
        r@ == settled(assign@),
{
    let mut out: Vec<MonoType> = Vec::new();
    let mut i: usize = 0;
    while i < assign.len()
        invariant
            i <= assign.len(),
            out@ == settled(assign@).take(i as int),
        decreases assign.len() - i,
    {
        let ty = match assign[i] {
            Some(ty) => ty,
            None => MonoType::Unreachable,
        };
        out.push(ty);
        assert(out@ =~= settled(assign@).take(i + 1));
        i += 1;
    }
    assert(settled(assign@).take(assign@.len() as int) =~= settled(assign@));
    out
}

} // verus!
