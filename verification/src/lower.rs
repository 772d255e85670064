//! Lowering of one function: the state that the lowering of expressions and
//! of matches share, and the small steps both are made of.

use crate::key::{Method, Trait};
use crate::mir::{FuncOrigin, Mir};
use crate::mono::{same_types, MonoTypes, TypeMap};
use crate::ssa::{Blocks, MonoFunc, Ssa, Value};
use crate::types::{MonoType, MonoTypeKey};
use std::collections::HashMap;
use vstd::prelude::*;

verus! {

broadcast use vstd::std_specs::hash::group_hash_axioms;

/// The built-in items that lowering calls on.
#[derive(Clone, Copy, Debug)]
pub struct Info {
    /// The trait of what a list pattern can match on.
    pub listable: Trait,
    /// Its method that splits a list into head and tail, or nothing.
    pub listable_split: Method,
    /// The type of strings.
    pub string: MonoType,
    /// A pair of strings.
    pub string_pair: MonoTypeKey,
    /// A byte and a string.
    pub byte_and_string: MonoTypeKey,
    /// A function together with what it captured.
    pub closure: MonoTypeKey,
    /// Makes a string of read-only bytes and their count.
    pub string_from_raw: MonoFunc,
    pub string_equals: MonoFunc,
    pub string_len: MonoFunc,
    pub string_split_at: MonoFunc,
    pub string_split_first: MonoFunc,
    pub string_split_while: MonoFunc,
}

/// A function as it is lowered: where it comes from and what its generics
/// and `self` stand for.
#[derive(Debug)]
pub struct FuncInst {
    pub origin: FuncOrigin,
    pub self_: Option<MonoType>,
    pub generics: Vec<MonoType>,
    pub returns: MonoType,
}

/// What a `FuncInst` is.
pub ghost struct Inst {
    pub origin: FuncOrigin,
    pub self_: Option<MonoType>,
    pub generics: Seq<MonoType>,
    pub returns: MonoType,
}

impl View for FuncInst {
    type V = Inst;

    open spec fn view(&self) -> Inst {
        Inst {
            origin: self.origin,
            self_: self.self_,
            generics: self.generics@,
            returns: self.returns,
        }
    }
}

/// The lowering of one function.
pub struct FuncLower<'a> {
    pub mir: &'a Mir,
    pub types: &'a MonoTypes,
    pub info: Info,
    /// What the generics of the function being lowered stand for.
    pub tmap: TypeMap,
    /// Whether the function takes what it captured as its first parameter.
    pub has_captures: bool,
    pub ssa: Blocks,
    /// The value of each binding that is in scope.
    pub bindmap: HashMap<u32, Value>,
    /// The functions that lowering has asked for so far.
    pub funcs: Vec<FuncInst>,
}

/// What lowering reads and never changes.
pub ghost struct Cx {
    pub mir: Mir,
    pub types: MonoTypes,
    pub info: Info,
    pub tmap: TypeMap,
    pub has_captures: bool,
}

/// What lowering changes of a function.
pub ghost struct Func {
    pub ssa: Ssa,
    pub binds: Map<u32, Value>,
    pub funcs: Seq<Inst>,
}

/// The place of the instance of `origin` with the given generics and
/// `self` among `funcs` from index `from` on, or the length of `funcs`.
pub open spec fn place_of(
    funcs: Seq<Inst>,
    origin: FuncOrigin,
    self_: Option<MonoType>,
    generics: Seq<MonoType>,
    from: int,
) -> int
    decreases funcs.len() - from,
{
    if 0 <= from < funcs.len() {
        if funcs[from].origin == origin && funcs[from].self_ == self_ && funcs[from].generics
            == generics {
            from
        } else {
            place_of(funcs, origin, self_, generics, from + 1)
        }
    } else {
        funcs.len() as int
    }
}

impl Cx {
    /// The definition behind `func`, if it has one.
    pub open spec fn root_of(self, func: FuncOrigin) -> Option<int> {
        match func {
            FuncOrigin::Defined(f) => if f.0 < self.mir.funcs.len() {
                Some(f.0 as int)
            } else {
                None
            },
            FuncOrigin::Method(imp, method) => if imp.0 < self.mir.impls.len() && method.0
                < self.mir.impls[imp.0 as int].methods.len() {
                match self.mir.impls[imp.0 as int].methods[method.0 as int] {
                    Some(f) => if f.0 < self.mir.funcs.len() {
                        Some(f.0 as int)
                    } else {
                        None
                    },
                    None => None,
                }
            } else {
                None
            },
            FuncOrigin::Lambda(_) => None,
        }
    }

    /// Whether `func` can be called with the given generics: it has a
    /// definition, and the generic that it returns is among them.
    pub open spec fn callable(self, func: FuncOrigin, generics: Seq<MonoType>) -> bool {
        match self.root_of(func) {
            Some(f) => crate::mono::covers(generics, self.mir.funcs[f].returns),
            None => false,
        }
    }

    /// What `func` returns with the given generics.
    pub open spec fn returns_of(self, func: FuncOrigin, generics: Seq<MonoType>) -> MonoType {
        crate::mono::applied(generics, self.mir.funcs[self.root_of(func)->0].returns)
    }
}

impl Func {
    /// The function that a call of `func` goes to where `self` and its
    /// generics stand for the given types.
    pub open spec fn mfunc_of(
        self,
        func: FuncOrigin,
        self_: Option<MonoType>,
        generics: Seq<MonoType>,
    ) -> MonoFunc {
        MonoFunc(place_of(self.funcs, func, self_, generics, 0) as usize)
    }

    /// With the instance of `func` for the given types, if it was not asked
    /// for before.
    pub open spec fn call_to_mfunc(
        self,
        cx: Cx,
        func: FuncOrigin,
        self_: Option<MonoType>,
        generics: Seq<MonoType>,
    ) -> Func {
        if place_of(self.funcs, func, self_, generics, 0) < self.funcs.len() {
            self
        } else {
            Func {
                funcs: self.funcs.push(
                    Inst { origin: func, self_, generics, returns: cx.returns_of(func, generics) },
                ),
                ..self
            }
        }
    }

    /// With another state of the blocks.
    pub open spec fn with_ssa(self, ssa: Ssa) -> Func {
        Func { ssa, ..self }
    }
}

impl<'a> FuncLower<'a> {
    /// What this lowering reads.
    pub open spec fn cx(&self) -> Cx {
        Cx {
            mir: *self.mir,
            types: *self.types,
            info: self.info,
            tmap: self.tmap,
            has_captures: self.has_captures,
        }
    }

    /// The instances asked for so far.
    pub open spec fn insts(&self) -> Seq<Inst> {
        Seq::new(self.funcs.len() as nat, |i: int| self.funcs[i]@)
    }
}

impl<'a> View for FuncLower<'a> {
    type V = Func;

    open spec fn view(&self) -> Func {
        Func { ssa: self.ssa@, binds: self.bindmap@, funcs: self.insts() }
    }
}

impl<'a> FuncLower<'a> {
    /// Starts the lowering of a function of `params` parameters.
    pub fn new(
        mir: &'a Mir,
        types: &'a MonoTypes,
        info: Info,
        tmap: TypeMap,
        has_captures: bool,
        params: u32,
    ) -> (r: FuncLower<'a>)
        ensures
            r.cx() == (Cx { mir: *mir, types: *types, info, tmap, has_captures }),
            r@.ssa == Ssa::start(params),
            r@.ssa.wf(),
            r@.binds == Map::<u32, Value>::empty(),
            r@.funcs == Seq::<Inst>::empty(),
    {
        let r = FuncLower {
            mir,
            types,
            info,
            tmap,
            has_captures,
            ssa: Blocks::new(params),
            bindmap: HashMap::new(),
            funcs: Vec::new(),
        };
        assert(r@.funcs =~= Seq::<Inst>::empty());
        r
    }

    /// The blocks being written.
    pub fn ssa(&mut self) -> (r: &mut Blocks)
        ensures
            *r == old(self).ssa,
            *final(self) == (FuncLower { ssa: *final(r), ..*old(self) }),
    {
        &mut self.ssa
    }

    /// The type of a value.
    pub fn type_of_value(&self, value: Value) -> (r: MonoType)
        ensures
            r == self@.ssa.type_of(value),
    {
        self.ssa.type_of(value)
    }

    /// The definition behind `func`.
    fn root_fdef(&self, func: FuncOrigin) -> (r: Option<usize>)
        ensures
            match r {
                Some(f) => self.cx().root_of(func) == Some(f as int),
                None => self.cx().root_of(func) is None,
            },
    {
        match func {
            FuncOrigin::Defined(f) => if (f.0 as usize) < self.mir.funcs.len() {
                Some(f.0 as usize)
            } else {
                None
            },
            FuncOrigin::Method(imp, method) => {
                if (imp.0 as usize) < self.mir.impls.len() && (method.0 as usize)
                    < self.mir.impls[imp.0 as usize].methods.len() {
                    match self.mir.impls[imp.0 as usize].methods[method.0 as usize] {
                        Some(f) => if (f.0 as usize) < self.mir.funcs.len() {
                            Some(f.0 as usize)
                        } else {
                            None
                        },
                        None => None,
                    }
                } else {
                    None
                }
            },
            FuncOrigin::Lambda(_) => None,
        }
    }

    /// The monomorphised function that a call of `func` goes to where its
    /// generics stand for what `tmap` says, and what it returns. The
    /// function is added to those asked for, unless it is among them.
    pub fn call_to_mfunc(&mut self, func: FuncOrigin, tmap: TypeMap) -> (r: (MonoFunc, MonoType))
        requires
            old(self).cx().callable(func, tmap.generics@),
        ensures
            final(self).cx() == old(self).cx(),
            final(self)@ == old(self)@.call_to_mfunc(
                old(self).cx(),
                func,
                tmap.self_,
                tmap.generics@,
            ),
            r.0 == old(self)@.mfunc_of(func, tmap.self_, tmap.generics@),
            r.1 == old(self).cx().returns_of(func, tmap.generics@),
    {
        let fdef = match self.root_fdef(func) {
            Some(f) => f,
            None => 0,
        };
        let ret = tmap.apply(&self.mir.funcs[fdef].returns);
        let mut i: usize = 0;
        while i < self.funcs.len()
            invariant
                i <= self.funcs.len(),
                *self == *old(self),
                ret == old(self).cx().returns_of(func, tmap.generics@),
                place_of(self@.funcs, func, tmap.self_, tmap.generics@, i as int) == place_of(
                    self@.funcs,
                    func,
                    tmap.self_,
                    tmap.generics@,
                    0,
                ),
            decreases self.funcs.len() - i,
        {
            let inst = &self.funcs[i];
            if inst.origin == func && inst.self_ == tmap.self_ && same_types(
                &inst.generics,
                &tmap.generics,
            ) {
                return (MonoFunc(i), ret);
            }
            i += 1;
        }
        let mfunc = MonoFunc(self.funcs.len());
        let inst = FuncInst { origin: func, self_: tmap.self_, generics: tmap.generics, returns: ret };
        self.funcs.push(inst);
        assert(self@.funcs =~= old(self)@.call_to_mfunc(
            old(self).cx(),
            func,
            tmap.self_,
            tmap.generics@,
        ).funcs);
        (mfunc, ret)
    }

    /// Finds the implementation of `trait_` with the parameters `trtp` for
    /// the type `impltor`, and what its generics stand for. Of several that
    /// apply, the one declared first is taken.
    pub fn find_implementation(&self, trait_: Trait, trtp: &Vec<MonoType>, impltor: MonoType) -> (r:
        Option<(crate::key::Impl, TypeMap)>)
        requires
            self.mir.impls.len() <= u32::MAX,
        ensures
            r is Some <==> self.mir.implementation(trait_, trtp@, impltor) is Some,
            match r {
                Some((imp, tmap)) => {
                    &&& self.mir.implementation(trait_, trtp@, impltor) == Some(imp.0 as int)
                    &&& tmap.self_ == Some(impltor)
                    &&& tmap.generics@ == crate::mir::settled(
                        self.mir.impls[imp.0 as int].applies(trait_, trtp@, impltor)->0,
                    )
                },
                None => true,
            },
    {
        self.mir.find(trait_, trtp, impltor)
    }
}

} // verus!
