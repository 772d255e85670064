//! The lowering of expressions, and of a match as one of them.

use crate::key::{RecordField, Sum};
use crate::lower::FuncLower;
use crate::mir::{
    bodies_size, expr_size, fields_size, lemma_body_size, place_of_field, Expr, ResolvedNFunc,
};
use crate::pat::{
    lambda_call_lowered,
    closure_called, data_field, deref_lowered, local_call_lowered, tuple_lowered, tupled,
    types_of, vtable_field,
    access_lowered, address_lowered, all_named, byte, call_lowered, cast_lowered, compare_lowered,
    in_order, lower_all, lower_expr, lower_fields, names_of, num_lowered, record_lowered, run_step,
    size_lowered, spec_word, state, word, write_lowered, Bodies, Branches, Pat, PatLower, PatState,
};
use crate::ssa::{Block, Comparison, Entry, Value};
use crate::tree::{DecTree, Local, Tail, Tree};
use crate::types::{MonoType, MonoTypeKey};
use vstd::prelude::*;

verus! {

impl<'a> FuncLower<'a> {
    /// Starts the lowering of a match with the given branch bodies and, for
    /// each of them, the count of leaves that lead to it.
    pub fn to_pat_lower<'f, 'v>(&'f mut self, branches: &'v Vec<Expr>, pred: &'v Vec<u16>) -> (r:
        PatLower<'f, 'v, 'a>)
        ensures
            *r.f == *old(self),
            *final(r.f) == *final(self),
            r.bodies@ == (Bodies { branches: *branches, predecessors: pred@ }),
            r.st@ == Pat::start(branches.len() as nat),
    {
        let mut expressions: Vec<Option<Block>> = Vec::new();
        let mut i: usize = 0;
        while i < branches.len()
            invariant
                i <= branches.len(),
                expressions@ == Seq::new(i as nat, |k: int| None::<Block>),
            decreases branches.len() - i,
        {
            expressions.push(None);
            i += 1;
            assert(expressions@ =~= Seq::new(i as nat, |k: int| None::<Block>));
        }
        let st = PatState {
            expressions,
            constructors: Vec::new(),
            map: Vec::new(),
            continuation_block: None,
            continuation_value: None,
            can_skip_continuation: true,
            lowered: Ghost(Seq::new(branches.len() as nat, |i: int| 0nat)),
            jumped: Ghost(Seq::new(branches.len() as nat, |i: int| 0nat)),
        };
        assert(st@.constructors =~= Seq::empty());
        PatLower { f: self, bodies: Branches { branches, predecessors: pred }, st }
    }

    /// Lowers an expression and hands back the value that stands for its
    /// result.
    pub fn expr_to_value(&mut self, expr: &Expr) -> (r: Value)
        requires
            lower_expr(old(self).cx(), old(self)@, *expr).ok,
        ensures
            final(self)@ == lower_expr(old(self).cx(), old(self)@, *expr).f,
            r == lower_expr(old(self).cx(), old(self)@, *expr).value,
            final(self).cx() == old(self).cx(),
        decreases expr_size(*expr), Tree::End(Tail::Poison), 0nat, 0nat,
    {
        reveal(cast_lowered);
        reveal(compare_lowered);
        reveal(num_lowered);
        reveal(access_lowered);
        reveal(write_lowered);
        reveal(size_lowered);
        reveal(address_lowered);
        match expr {
            Expr::Yield(local) => self.yield_to_value(*local),
            Expr::Int(size, n) => Value::Int(*n, *size),
            Expr::UInt(size, n) => Value::UInt(*n, *size),
            Expr::Bool(b) => Value::UInt(
                if *b {
                    1
                } else {
                    0
                },
                byte(),
            ),
            Expr::ReadOnly(ro) => Value::ReadOnly(*ro),
            Expr::IntCast(inner, from, to) => {
                let inner = self.expr_to_value(inner);
                let ty = MonoType::Int(*to);
                if from.bitsize.0 == to.bitsize.0 {
                    inner
                } else if from.bitsize.0 < to.bitsize.0 {
                    self.ssa.extend(inner, from.signed, ty)
                } else {
                    self.ssa.reduce(inner, ty)
                }
            },
            Expr::Compare(name, left, right) => {
                let left = self.expr_to_value(left);
                let right = self.expr_to_value(right);
                let size = match self.type_of_value(left) {
                    MonoType::Int(size) => size,
                    _ => word(),
                };
                let how = if crate::names::str_eq(name, "eq") {
                    Comparison::Equal
                } else if crate::names::str_eq(name, "lt") {
                    Comparison::Less
                } else {
                    Comparison::Greater
                };
                self.ssa.compare(how, left, right, size)
            },
            Expr::Num(name, left, right) => {
                let left = self.expr_to_value(left);
                let right = self.expr_to_value(right);
                let ty = self.type_of_value(left);
                let op = if crate::names::str_eq(name, "plus") {
                    crate::ssa::Arith::Add
                } else if crate::names::str_eq(name, "minus") {
                    crate::ssa::Arith::Sub
                } else if crate::names::str_eq(name, "mul") {
                    crate::ssa::Arith::Mul
                } else {
                    crate::ssa::Arith::Div
                };
                self.ssa.num(op, left, right, ty)
            },
            Expr::Access(object, key, field) => {
                let value = self.expr_to_value(object);
                let ty = self.types.type_of_field(*key, *field);
                self.ssa.field(value, *key, *field, ty)
            },
            Expr::Write(pointer, value) => {
                let pointer = self.expr_to_value(pointer);
                let value = self.expr_to_value(value);
                self.ssa.write(pointer, value)
            },
            Expr::SizeOf(ty) => {
                let ty = self.tmap.apply(ty);
                let size = self.types.size_of(&ty) / 8;
                Value::Int(size as i128, word())
            },
            Expr::Match(on, tree, branches, predecessors) => {
                let on = self.expr_to_value(on);
                let pat = self.to_pat_lower(branches, predecessors);
                pat.run(on, tree)
            },
            Expr::Record(key, fields) => self.record(*key, fields),
            Expr::ValToRef(val) => match &**val {
                Expr::CallFunc(ResolvedNFunc::Val(key, _), _) => self.ssa.val_to_ref(*key),
                _ => Value::Int(0, word()),
            },
            Expr::CallFunc(func, params) => self.call_nfunc(*func, params),
            Expr::Deref(inner) => {
                reveal(deref_lowered);
                let inner = self.expr_to_value(inner);
                let ty = match crate::mono::deref(self.type_of_value(inner)) {
                    Some(ty) => ty,
                    None => MonoType::Unreachable,
                };
                self.ssa.deref(inner, ty)
            },
            Expr::Tuple(elems) => {
                reveal(tuple_lowered);
                let params = self.params_to_values(elems);
                self.elems_to_tuple(params)
            },
            Expr::YieldLambda(lambda) => {
                let (mfunc, captures, _) = self.morphise_lambda(*lambda);
                self.dyn_lambda(mfunc, captures)
            },
            Expr::CallLambda(lambda, params) => self.call_lambda(*lambda, params),
            Expr::CallLocal(local, params) => self.call_local(*local, params),
            Expr::Abort => Value::Int(1, word()),
        }
    }

    /// Lowers expressions one after the other and hands back their values.
    pub fn params_to_values(&mut self, params: &Vec<Expr>) -> (r: Vec<Value>)
        requires
            lower_all(old(self).cx(), old(self)@, *params, 0, Seq::empty()).ok,
        ensures
            final(self)@ == lower_all(old(self).cx(), old(self)@, *params, 0, Seq::empty()).f,
            r@ == lower_all(old(self).cx(), old(self)@, *params, 0, Seq::empty()).values,
            final(self).cx() == old(self).cx(),
        decreases bodies_size(*params, 0), Tree::End(Tail::Poison), 1nat, 1nat,
    {
        let ghost whole = lower_all(old(self).cx(), old(self)@, *params, 0, Seq::empty());
        let mut out: Vec<Value> = Vec::new();
        let mut i: usize = 0;
        while i < params.len()
            invariant
                i <= params.len(),
                self.cx() == old(self).cx(),
                whole.ok,
                lower_all(self.cx(), self@, *params, i as int, out@) == whole,
            decreases params.len() - i,
        {
            proof {
                crate::mir::lemma_expr_size_positive(params[i as int]);
                lemma_body_size(*params, 0, i as int);
            }
            let v = self.expr_to_value(&params[i]);
            out.push(v);
            i += 1;
        }
        out
    }

    /// Lowers the fields of a record in the order in which they are given.
    fn fields_to_values(&mut self, fields: &Vec<(RecordField, Expr)>) -> (r: Vec<Value>)
        requires
            lower_fields(old(self).cx(), old(self)@, *fields, 0, Seq::empty()).ok,
        ensures
            final(self)@ == lower_fields(old(self).cx(), old(self)@, *fields, 0, Seq::empty()).f,
            r@ == lower_fields(old(self).cx(), old(self)@, *fields, 0, Seq::empty()).values,
            r@.len() == fields.len(),
            final(self).cx() == old(self).cx(),
        decreases fields_size(*fields, 0), Tree::End(Tail::Poison), 1nat, 1nat,
    {
        let ghost whole = lower_fields(old(self).cx(), old(self)@, *fields, 0, Seq::empty());
        let mut out: Vec<Value> = Vec::new();
        let mut i: usize = 0;
        while i < fields.len()
            invariant
                i <= fields.len(),
                out@.len() == i,
                self.cx() == old(self).cx(),
                whole.ok,
                lower_fields(self.cx(), self@, *fields, i as int, out@) == whole,
            decreases fields.len() - i,
        {
            proof {
                crate::mir::lemma_expr_size_positive(fields[i as int].1);
                crate::mir::lemma_field_size(*fields, 0, i as int);
            }
            let v = self.expr_to_value(&fields[i].1);
            out.push(v);
            i += 1;
        }
        out
    }

    /// The first place at which `fields` names `field`.
    fn position(fields: &Vec<(RecordField, Expr)>, field: RecordField) -> (r: Option<usize>)
        ensures
            match r {
                Some(at) => place_of_field(names_of(*fields), field, 0) == Some(at as int) && at
                    < fields.len(),
                None => place_of_field(names_of(*fields), field, 0) is None,
            },
    {
        let mut i: usize = 0;
        while i < fields.len()
            invariant
                i <= fields.len(),
                place_of_field(names_of(*fields), field, i as int) == place_of_field(
                    names_of(*fields),
                    field,
                    0,
                ),
            decreases fields.len() - i,
        {
            if fields[i].0.0 == field.0 {
                return Some(i);
            }
            i += 1;
        }
        None
    }

    /// Lowers a record: its fields in the order in which they are given,
    /// and then the record built of their values in the order of the fields.
    fn record(&mut self, key: MonoTypeKey, fields: &Vec<(RecordField, Expr)>) -> (r: Value)
        requires
            lower_expr(old(self).cx(), old(self)@, Expr::Record(key, *fields)).ok,
        ensures
            final(self)@ == lower_expr(old(self).cx(), old(self)@, Expr::Record(key, *fields)).f,
            r == lower_expr(old(self).cx(), old(self)@, Expr::Record(key, *fields)).value,
            final(self).cx() == old(self).cx(),
        decreases fields_size(*fields, 0), Tree::End(Tail::Poison), 1nat, 2nat,
    {
        reveal(record_lowered);
        let values = self.fields_to_values(fields);
        let ghost names = names_of(*fields);
        let mut sorted: Vec<Value> = Vec::new();
        let mut i: usize = 0;
        while i < fields.len()
            invariant
                i <= fields.len(),
                fields.len() <= u32::MAX,
                values@.len() == fields.len(),
                names == names_of(*fields),
                all_named(names),
                sorted@ == in_order(names, values@).take(i as int),
            decreases fields.len() - i,
        {
            let field = RecordField(i as u32);
            proof {
                assert(place_of_field(names, RecordField(i as u32), 0) is Some);
            }
            let at = match Self::position(fields, field) {
                Some(at) => at,
                None => 0,
            };
            sorted.push(values[at]);
            assert(sorted@ =~= in_order(names, values@).take(i + 1));
            i += 1;
        }
        assert(in_order(names, values@).take(fields.len() as int) =~= in_order(names, values@));
        self.ssa.construct(sorted, MonoType::Monomorphised(key))
    }

    /// The types of values.
    fn types_of(&self, values: &Vec<Value>) -> (r: Vec<MonoType>)
        ensures
            r@ == types_of(self@.ssa, values@),
    {
        let mut out: Vec<MonoType> = Vec::new();
        let mut i: usize = 0;
        while i < values.len()
            invariant
                i <= values.len(),
                out@ == types_of(self@.ssa, values@).take(i as int),
            decreases values.len() - i,
        {
            out.push(self.type_of_value(values[i]));
            assert(out@ =~= types_of(self@.ssa, values@).take(i + 1));
            i += 1;
        }
        assert(types_of(self@.ssa, values@).take(values@.len() as int) =~= types_of(
            self@.ssa,
            values@,
        ));
        out
    }

    /// Builds a tuple of values.
    pub fn elems_to_tuple(&mut self, elems: Vec<Value>) -> (r: Value)
        requires
            tupled(old(self).cx(), old(self)@.ssa, elems@).ok,
        ensures
            final(self)@ == old(self)@.with_ssa(tupled(old(self).cx(), old(self)@.ssa, elems@).ssa),
            r == tupled(old(self).cx(), old(self)@.ssa, elems@).value,
            final(self).cx() == old(self).cx(),
    {
        reveal(tupled);
        let types = self.types_of(&elems);
        let key = match self.types.find_tuple(&types) {
            Some(key) => key,
            None => MonoTypeKey(0),
        };
        self.ssa.construct(elems, MonoType::Monomorphised(key))
    }

    /// Lowers a call of the closure object `obj` of type `objty`.
    pub fn call_closure(&mut self, objty: MonoTypeKey, obj: Value, params: Vec<Value>) -> (r: Value)
        requires
            closure_called(old(self).cx(), old(self)@.ssa, objty, obj, params@).ok,
        ensures
            final(self)@ == old(self)@.with_ssa(
                closure_called(old(self).cx(), old(self)@.ssa, objty, obj, params@).ssa,
            ),
            r == closure_called(old(self).cx(), old(self)@.ssa, objty, obj, params@).value,
            final(self).cx() == old(self).cx(),
    {
        reveal(closure_called);
        let objptr_type = self.types.type_of_field(objty, data_field());
        let vtable_ptr_type = self.types.type_of_field(objty, vtable_field());

        let objptr = self.ssa.field(obj, objty, data_field(), objptr_type);
        let vtableptr = self.ssa.field(obj, objty, vtable_field(), vtable_ptr_type);
        let vtable_type = match crate::mono::deref(vtable_ptr_type) {
            Some(ty) => ty,
            None => MonoType::Unreachable,
        };
        let vtable = self.ssa.deref(vtableptr, vtable_type);

        let call = RecordField(0);
        let vtable_key = match vtable_type {
            MonoType::Monomorphised(key) => key,
            _ => MonoTypeKey(0),
        };
        let ty = self.types.type_of_field(vtable_key, call);
        let ret = match self.types.returns_of(ty) {
            Some(ret) => ret,
            None => MonoType::Unreachable,
        };
        let fnptr = self.ssa.field(vtable, vtable_key, call, ty);

        let param_tuple = self.elems_to_tuple(params);

        let call_method_params = vec![objptr, param_tuple];
        assert(call_method_params@ =~= seq![objptr, param_tuple]);
        self.ssa.call(fnptr, call_method_params, ret)
    }

    /// Lowers a call of a lambda: the arguments, then the lambda and what
    /// it captured, which is handed to it as its first argument.
    fn call_lambda(&mut self, lambda: crate::key::Lambda, params: &Vec<Expr>) -> (r: Value)
        requires
            lower_expr(old(self).cx(), old(self)@, Expr::CallLambda(lambda, *params)).ok,
        ensures
            final(self)@ == lower_expr(old(self).cx(), old(self)@, Expr::CallLambda(lambda, *params)).f,
            r == lower_expr(old(self).cx(), old(self)@, Expr::CallLambda(lambda, *params)).value,
            final(self).cx() == old(self).cx(),
        decreases bodies_size(*params, 0), Tree::End(Tail::Poison), 1nat, 2nat,
    {
        reveal(lambda_call_lowered);
        let mut params = self.params_to_values(params);
        let ghost given = params@;
        let (mfunc, captures, ty) = self.morphise_lambda(lambda);
        // what was captured is the first parameter
        params.insert(0, captures);
        assert(params@ =~= seq![captures] + given);
        self.call_func(mfunc, params, ty)
    }

    /// Lowers a call of what a local holds.
    fn call_local(&mut self, local: Local, params: &Vec<Expr>) -> (r: Value)
        requires
            lower_expr(old(self).cx(), old(self)@, Expr::CallLocal(local, *params)).ok,
        ensures
            final(self)@ == lower_expr(old(self).cx(), old(self)@, Expr::CallLocal(local, *params)).f,
            r == lower_expr(old(self).cx(), old(self)@, Expr::CallLocal(local, *params)).value,
            final(self).cx() == old(self).cx(),
        decreases bodies_size(*params, 0), Tree::End(Tail::Poison), 1nat, 2nat,
    {
        reveal(local_call_lowered);
        let params = self.params_to_values(params);
        let to_call = self.yield_to_value(local);
        let ty = self.type_of_value(to_call);
        match ty {
            MonoType::FnPointer(_) => {
                let ret = match self.types.returns_of(ty) {
                    Some(ret) => ret,
                    None => MonoType::Unreachable,
                };
                self.ssa.call(to_call, params, ret)
            },
            MonoType::Monomorphised(mk) => self.call_closure(mk, to_call, params),
            _ => to_call,
        }
    }

    /// Lowers a call of a function that has been resolved.
    pub fn call_nfunc(&mut self, func: ResolvedNFunc, params: &Vec<Expr>) -> (r: Value)
        requires
            lower_expr(old(self).cx(), old(self)@, Expr::CallFunc(func, *params)).ok,
        ensures
            final(self)@ == lower_expr(old(self).cx(), old(self)@, Expr::CallFunc(func, *params)).f,
            r == lower_expr(old(self).cx(), old(self)@, Expr::CallFunc(func, *params)).value,
            final(self).cx() == old(self).cx(),
        decreases bodies_size(*params, 0), Tree::End(Tail::Poison), 1nat, 2nat,
    {
        reveal(call_lowered);
        let ghost count = params.len();
        let params = self.params_to_values(params);
        match func {
            ResolvedNFunc::Extern(key, ret) => self.ssa.call_extern(key, params, ret),
            ResolvedNFunc::Static(mfunc, ret) => self.ssa.call(Value::FuncPtr(mfunc), params, ret),
            ResolvedNFunc::Sum { tag, payload_size, ty } => {
                let parameters = self.ssa.construct(
                    params,
                    MonoType::SumDataCast { largest: payload_size },
                );
                let parts = vec![tag, parameters];
                assert(parts@ =~= seq![tag, parameters]);
                self.ssa.construct(parts, MonoType::Monomorphised(ty))
            },
            ResolvedNFunc::Val(key, ty) => {
                let v = self.ssa.val_to_ref(key);
                self.ssa.deref(v, ty)
            },
        }
    }
}

impl<'a> FuncLower<'a> {
    /// Lowers an expression as the result of the function: the current
    /// block ends with a return of its value.
    pub fn expr_to_flow(&mut self, expr: &Expr)
        requires
            lower_expr(old(self).cx(), old(self)@, *expr).ok,
            lower_expr(old(self).cx(), old(self)@, *expr).f.ssa.wf(),
        ensures
            final(self)@ == ({
                let lowered = lower_expr(old(self).cx(), old(self)@, *expr);
                lowered.f.with_ssa(lowered.f.ssa.return_(lowered.value))
            }),
            final(self).cx() == old(self).cx(),
    {
        let value = self.expr_to_value(expr);
        self.ssa.return_(value);
    }

    /// The value of an expression that is a local or a literal, for which
    /// nothing needs to be written; of any other expression, nothing.
    pub fn expr_to_value_no_side_effects(&mut self, expr: &Expr) -> (r: Option<Value>)
        requires
            simple(*expr) ==> lower_expr(old(self).cx(), old(self)@, *expr).ok,
        ensures
            *final(self) == *old(self),
            r == (if simple(*expr) {
                Some(lower_expr(old(self).cx(), old(self)@, *expr).value)
            } else {
                None
            }),
    {
        match expr {
            Expr::Yield(local) => Some(self.yield_to_value(*local)),
            Expr::Int(size, n) => Some(Value::Int(*n, *size)),
            Expr::UInt(size, n) => Some(Value::UInt(*n, *size)),
            Expr::Bool(b) => Some(
                Value::UInt(
                    if *b {
                        1
                    } else {
                        0
                    },
                    byte(),
                ),
            ),
            _ => None,
        }
    }

    /// Puts a value on the heap and hands back its address. A value of no
    /// size is put nowhere, and its address is zero.
    pub fn heap_alloc(&mut self, value: Value, ty: MonoType) -> (r: Value)
        requires
            crate::pat::sized(old(self).cx(), ty),
        ensures
            final(self)@ == (if old(self).types.bits(ty) == 0 {
                old(self)@
            } else {
                old(self)@.with_ssa(
                    old(self)@.ssa.emit(
                        Entry::Alloc { size: old(self).types.bits(ty) as u32 },
                        MonoType::Pointer,
                    ).emit(
                        Entry::Write(old(self)@.ssa.next_value(), value),
                        MonoType::Unreachable,
                    ),
                )
            }),
            r == (if old(self).types.bits(ty) == 0 {
                Value::UInt(0, spec_word())
            } else {
                old(self)@.ssa.next_value()
            }),
            final(self).cx() == old(self).cx(),
    {
        let size = self.types.size_of(&ty);
        if size == 0 {
            Value::UInt(0, word())
        } else {
            let ptr = self.ssa.heap(size);
            self.ssa.write(ptr, value);
            ptr
        }
    }
}

/// Whether an expression is a local or a literal.
pub open spec fn simple(e: Expr) -> bool {
    e is Yield || e is Int || e is UInt || e is Bool
}

impl<'f, 'v, 'a> PatLower<'f, 'v, 'a> {
    /// Lowers the match on the value `on` by the decision tree `tree` and
    /// hands back the value of the match.
    pub fn run(self, on: Value, tree: &DecTree) -> (r: Value)
        requires
            run_step(old(self.f).cx(), self.bodies@, state(*old(self.f), self.st), on, tree@).ok,
        ensures
            final(self.f)@ == run_step(
                old(self.f).cx(),
                self.bodies@,
                state(*old(self.f), self.st),
                on,
                tree@,
            ).f,
            r == run_step(
                old(self.f).cx(),
                self.bodies@,
                state(*old(self.f), self.st),
                on,
                tree@,
            ).value,
            final(self.f).cx() == old(self.f).cx(),
        decreases self.bodies@.weight(), tree@, 5nat, 0nat,
    {
        let mut me = self;
        Self::tree(me.f, me.bodies, &mut me.st, on, tree);
        if me.st.can_skip_continuation {
            match me.st.continuation_value {
                Some(value) => value,
                None => on,
            }
        } else {
            match me.st.continuation_block {
                Some((block, con_ty)) => {
                    me.f.ssa.switch_to_block(block);
                    let added = me.f.ssa.add_block_param(block, con_ty);
                    match me.f.ssa.get_block_param(block, 0) {
                        Some(param) => param,
                        None => added,
                    }
                },
                None => on,
            }
        }
    }
}

} // verus!
