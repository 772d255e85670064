//! The small steps of function lowering that the lowering of patterns is made of.

use crate::key::RecordField;
use crate::lower::{FuncInst, FuncLower};
use crate::mir::FuncOrigin;
use crate::pat::{
    byte, lambda_returns, morphised, place_of_lambda, returned_by, spec_byte, spec_word, word,
    yielded,
};
use crate::ssa::{Entry, MonoFunc, Value};
use crate::types::{IntSize, MonoType, MonoTypeKey};
use vstd::prelude::*;

verus! {

impl<'a> FuncLower<'a> {
    /// The value of a local.
    pub fn yield_to_value(&self, local: crate::tree::Local) -> (r: Value)
        requires
            yielded(self.cx(), self@, local).ok,
        ensures
            r == yielded(self.cx(), self@, local).value,
    {
        broadcast use vstd::std_specs::hash::group_hash_axioms;

        match local {
            crate::tree::Local::Param(pid) => {
                if self.has_captures {
                    Value::BlockParam(crate::ssa::BlockParam(pid.0 + 1))
                } else {
                    Value::BlockParam(crate::ssa::BlockParam(pid.0))
                }
            },
            crate::tree::Local::Binding(bind) => match self.bindmap.get(&bind.0) {
                Some(value) => *value,
                None => Value::Int(0, word()),
            },
        }
    }

    /// Calls the function `f`.
    pub(crate) fn call_func(&mut self, f: MonoFunc, params: Vec<Value>, ret: MonoType) -> (r: Value)
        ensures
            final(self)@ == old(self)@.with_ssa(old(self)@.ssa.called(f, params@, ret)),
            r == old(self)@.ssa.next_value(),
            final(self).cx() == old(self).cx(),
    {
        self.ssa.call(Value::FuncPtr(f), params, ret)
    }

    /// Calls a function that gives a pair and reads both halves.
    pub(crate) fn call_pair(
        &mut self,
        f: MonoFunc,
        params: Vec<Value>,
        pair: MonoTypeKey,
        left: MonoType,
        right: MonoType,
    ) -> (r: [Value; 2])
        ensures
            final(self)@ == old(self)@.with_ssa(old(self)@.ssa.halved(f, params@, pair, left, right)),
            r[0] == old(self)@.ssa.second_value(),
            r[1] == old(self)@.ssa.third_value(),
            final(self).cx() == old(self).cx(),
    {
        let both = self.call_func(f, params, MonoType::Monomorphised(pair));
        let lhs = self.ssa.field(both, pair, RecordField(0), left);
        let rhs = self.ssa.field(both, pair, RecordField(1), right);
        [lhs, rhs]
    }

    /// A count as a value, and its width.
    pub fn uint(&self, n: i128) -> (r: (Value, IntSize))
        ensures
            r.0 == Value::Int(n, spec_word()),
            r.1 == spec_word(),
    {
        (Value::Int(n, word()), word())
    }

    /// The string that a read-only data item holds, and its length.
    pub fn string_from_ro(&mut self, key: crate::key::ReadOnly) -> (r: (Value, Value))
        requires
            key.0 < old(self).mir.read_only.len(),
        ensures
            final(self)@ == old(self)@.with_ssa(
                old(self)@.ssa.called(
                    old(self).info.string_from_raw,
                    seq![Value::ReadOnly(key), r.1],
                    old(self).info.string,
                ),
            ),
            r.0 == old(self)@.ssa.next_value(),
            r.1 == Value::Int(old(self).mir.read_only[key.0 as int] as i128, spec_word()),
            final(self).cx() == old(self).cx(),
    {
        let len = Value::Int(self.mir.read_only[key.0 as usize] as i128, word());
        let params = vec![Value::ReadOnly(key), len];
        assert(params@ =~= seq![Value::ReadOnly(key), len]);
        let made = self.call_func(self.info.string_from_raw, params, self.info.string);
        (made, len)
    }

    /// Whether two strings hold the same bytes.
    pub fn string_equals(&mut self, pair: [Value; 2]) -> (r: Value)
        ensures
            final(self)@ == old(self)@.with_ssa(
                old(self)@.ssa.called(
                    old(self).info.string_equals,
                    seq![pair[0], pair[1]],
                    crate::ssa::spec_truth(),
                ),
            ),
            r == old(self)@.ssa.next_value(),
            final(self).cx() == old(self).cx(),
    {
        let params = vec![pair[0], pair[1]];
        assert(params@ =~= seq![pair[0], pair[1]]);
        self.call_func(self.info.string_equals, params, crate::ssa::truth())
    }

    /// The length of a string in bytes.
    pub fn string_len(&mut self, string: Value) -> (r: Value)
        ensures
            final(self)@ == old(self)@.with_ssa(
                old(self)@.ssa.called(
                    old(self).info.string_len,
                    seq![string],
                    MonoType::Int(spec_word()),
                ),
            ),
            r == old(self)@.ssa.next_value(),
            final(self).cx() == old(self).cx(),
    {
        let params = vec![string];
        assert(params@ =~= seq![string]);
        self.call_func(self.info.string_len, params, MonoType::Int(word()))
    }

    /// The first `at` bytes of a string, and the rest.
    pub fn string_split_at(&mut self, on: Value, at: Value) -> (r: [Value; 2])
        ensures
            final(self)@ == old(self)@.with_ssa(
                old(self)@.ssa.halved(
                    old(self).info.string_split_at,
                    seq![on, at],
                    old(self).info.string_pair,
                    old(self).info.string,
                    old(self).info.string,
                ),
            ),
            r[0] == old(self)@.ssa.second_value(),
            r[1] == old(self)@.ssa.third_value(),
            final(self).cx() == old(self).cx(),
    {
        let params = vec![on, at];
        assert(params@ =~= seq![on, at]);
        self.call_pair(
            self.info.string_split_at,
            params,
            self.info.string_pair,
            self.info.string,
            self.info.string,
        )
    }

    /// The first byte of a string, and the rest.
    pub fn string_split_first(&mut self, on: Value) -> (r: [Value; 2])
        ensures
            final(self)@ == old(self)@.with_ssa(
                old(self)@.ssa.halved(
                    old(self).info.string_split_first,
                    seq![on],
                    old(self).info.byte_and_string,
                    MonoType::Int(spec_byte()),
                    old(self).info.string,
                ),
            ),
            r[0] == old(self)@.ssa.second_value(),
            r[1] == old(self)@.ssa.third_value(),
            final(self).cx() == old(self).cx(),
    {
        let params = vec![on];
        assert(params@ =~= seq![on]);
        self.call_pair(
            self.info.string_split_first,
            params,
            self.info.byte_and_string,
            MonoType::Int(byte()),
            self.info.string,
        )
    }

    /// The longest start of a string of which `f` holds byte by byte, and
    /// the rest.
    pub fn string_split_while(&mut self, on: Value, f: Value) -> (r: [Value; 2])
        ensures
            final(self)@ == old(self)@.with_ssa(
                old(self)@.ssa.halved(
                    old(self).info.string_split_while,
                    seq![on, f],
                    old(self).info.string_pair,
                    old(self).info.string,
                    old(self).info.string,
                ),
            ),
            r[0] == old(self)@.ssa.second_value(),
            r[1] == old(self)@.ssa.third_value(),
            final(self).cx() == old(self).cx(),
    {
        let params = vec![on, f];
        assert(params@ =~= seq![on, f]);
        self.call_pair(
            self.info.string_split_while,
            params,
            self.info.string_pair,
            self.info.string,
            self.info.string,
        )
    }

    /// The same for a function that is known when the program is lowered.
    pub fn string_split_while_static(&mut self, on: Value, mfunc: MonoFunc) -> (r: [Value; 2])
        ensures
            final(self)@ == old(self)@.with_ssa(
                old(self)@.ssa.halved(
                    old(self).info.string_split_while,
                    seq![on, Value::FuncPtr(mfunc)],
                    old(self).info.string_pair,
                    old(self).info.string,
                    old(self).info.string,
                ),
            ),
            r[0] == old(self)@.ssa.second_value(),
            r[1] == old(self)@.ssa.third_value(),
            final(self).cx() == old(self).cx(),
    {
        self.string_split_while(on, Value::FuncPtr(mfunc))
    }

    /// The instance of a lambda, which is added to the functions asked for
    /// unless it is among them, and what the lambda captured, which is nothing.
    pub fn morphise_lambda(&mut self, lambda: crate::key::Lambda) -> (r: (MonoFunc, Value, MonoType))
        requires
            lambda_returns(old(self).cx(), lambda) is Some,
        ensures
            r.0 == MonoFunc(place_of_lambda(old(self)@, lambda) as usize),
            r.1 == old(self)@.ssa.next_value(),
            r.2 == returned_by(old(self).cx(), lambda),
            final(self)@ == morphised(old(self).cx(), old(self)@, lambda),
            final(self).cx() == old(self).cx(),
    {
        let origin = FuncOrigin::Lambda(lambda);
        let ret = self.tmap.apply(&self.mir.lambdas[lambda.0 as usize].returns);
        let mut i: usize = 0;
        let mut found: Option<usize> = None;
        while found.is_none() && i < self.funcs.len()
            invariant
                i <= self.funcs.len(),
                *self == *old(self),
                ret == returned_by(self.cx(), lambda),
                match found {
                    Some(at) => at == place_of_lambda(self@, lambda) && at < self.funcs.len(),
                    None => crate::lower::place_of(self@.funcs, origin, None, Seq::empty(), i as int)
                        == place_of_lambda(self@, lambda),
                },
            decreases self.funcs.len() - i, (if found is None { 1nat } else { 0nat }),
        {
            let inst = &self.funcs[i];
            if inst.origin == origin && inst.self_.is_none() && inst.generics.len() == 0 {
                assert(inst.generics@ =~= Seq::empty());
                found = Some(i);
            } else {
                i += 1;
            }
        }
        let mfunc = match found {
            Some(at) => MonoFunc(at),
            None => {
                let at = self.funcs.len();
                self.funcs.push(
                    FuncInst { origin, self_: None, generics: Vec::new(), returns: ret },
                );
                MonoFunc(at)
            },
        };
        proof {
            if found is None {
                assert(self@.funcs =~= old(self)@.funcs.push(
                    crate::lower::Inst {
                        origin: FuncOrigin::Lambda(lambda),
                        self_: None,
                        generics: Seq::empty(),
                        returns: ret,
                    },
                ));
            } else {
                assert(self@.funcs =~= old(self)@.funcs);
            }
        }
        let captures = self.ssa.construct(Vec::new(), MonoType::Pointer);
        (mfunc, captures, ret)
    }

    /// What a lambda returns, where the program knows the lambda and what
    /// its generics stand for.
    pub fn lambda_returns(&self, lambda: crate::key::Lambda) -> (r: Option<MonoType>)
        ensures
            r == lambda_returns(self.cx(), lambda),
    {
        if (lambda.0 as usize) < self.mir.lambdas.len() {
            let ty = self.mir.lambdas[lambda.0 as usize].returns;
            match ty {
                crate::types::Type::Generic(i) => if (i as usize) < self.tmap.generics.len() {
                    Some(self.tmap.apply(&ty))
                } else {
                    None
                },
                crate::types::Type::Mono(m) => Some(m),
            }
        } else {
            None
        }
    }

    /// An object built of a function and of what it captured.
    pub fn dyn_lambda(&mut self, mfunc: MonoFunc, captures: Value) -> (r: Value)
        ensures
            final(self)@ == old(self)@.with_ssa(
                old(self)@.ssa.with_args(seq![captures, Value::FuncPtr(mfunc)]).emit(
                    Entry::Construct(
                        old(self)@.ssa.next_args(seq![captures, Value::FuncPtr(mfunc)]),
                    ),
                    MonoType::Monomorphised(old(self).info.closure),
                ),
            ),
            r == old(self)@.ssa.next_value(),
            final(self).cx() == old(self).cx(),
    {
        let parts = vec![captures, Value::FuncPtr(mfunc)];
        assert(parts@ =~= seq![captures, Value::FuncPtr(mfunc)]);
        self.ssa.construct(parts, MonoType::Monomorphised(self.info.closure))
    }
}

} // verus!
