//! The pattern-match lowerer: walks the decision tree of one `match` and
//! writes the blocks that test the matched value, bind what the patterns
//! name and run the body of the branch that applies.

use crate::key::{Bind, Impl, M, RecordField, Sum, SumVariant};
use crate::lower::{Cx, Func, FuncLower};
use crate::mir::{
    bodies_size, expr_size, fields_size, place_of_field, Expr, FuncOrigin, ResolvedNFunc,
};
use crate::mono::{instantiable, instantiated};
use crate::range::Range;
use crate::ssa::{BitOffset, Block, Comparison, Entry, MonoFunc, Ssa, V, Value};
use crate::tree::{PointTable, StrCheck, Tail, Tree};
use crate::types::{IntSize, MonoType, MonoTypeKey, Type};
use vstd::prelude::*;

pub mod ends;
pub mod exact;
pub mod expr;
pub mod facts;
pub mod grows;
pub mod ints;
pub mod leaves;
pub mod list;
pub mod once;
pub mod steps;
pub mod string;
pub mod sum;
pub mod walk;
pub mod ways;

verus! {

/// What the walk of one decision tree keeps.
pub struct PatState {
    /// The block of each branch body that a leaf has asked for.
    pub expressions: Vec<Option<Block>>,
    /// The values still to be visited: a stack of queues, one queue for
    /// each value that was taken apart.
    pub constructors: Vec<Vec<Value>>,
    /// The values seen so far, by depth.
    pub map: Vec<Value>,
    /// The block in which the branches meet, and the type of what they hand it.
    pub continuation_block: Option<(Block, MonoType)>,
    /// What the only branch gave, where there is only one.
    pub continuation_value: Option<Value>,
    /// Whether no test with more than one arm was met yet.
    pub can_skip_continuation: bool,
    /// How often the body of each branch has been lowered.
    pub lowered: Ghost<Seq<nat>>,
    /// How many leaves have jumped to the body of each branch.
    pub jumped: Ghost<Seq<nat>>,
}

/// What a `PatState` is.
pub ghost struct Pat {
    pub expressions: Seq<Option<Block>>,
    pub constructors: Seq<Seq<Value>>,
    pub map: Seq<Value>,
    pub continuation_block: Option<(Block, MonoType)>,
    pub continuation_value: Option<Value>,
    pub can_skip: bool,
    /// How often the body of each branch has been lowered.
    pub lowered: Seq<nat>,
    /// How many leaves have jumped to the body of each branch.
    pub jumps: Seq<nat>,
}

/// The queues of a stack of queues.
pub open spec fn queues(constructors: Vec<Vec<Value>>) -> Seq<Seq<Value>> {
    Seq::new(constructors.len() as nat, |i: int| constructors[i]@)
}

impl View for PatState {
    type V = Pat;

    open spec fn view(&self) -> Pat {
        Pat {
            expressions: self.expressions@,
            constructors: queues(self.constructors),
            map: self.map@,
            continuation_block: self.continuation_block,
            continuation_value: self.continuation_value,
            can_skip: self.can_skip_continuation,
            lowered: self.lowered@,
            jumps: self.jumped@,
        }
    }
}

/// The bodies of the branches of one match, by tail, and for each tail how
/// many leaves lead to it.
pub ghost struct Bodies {
    pub branches: Vec<Expr>,
    pub predecessors: Seq<u16>,
}

impl Bodies {
    /// How much there is to lower in the bodies, and one more.
    pub open spec fn weight(self) -> nat {
        1 + bodies_size(self.branches, 0)
    }
}

/// The state of the lowering of a match: that of the function and that of
/// the walk.
pub ghost struct St {
    pub f: Func,
    pub p: Pat,
}

/// A state, and whether it was reached without meeting anything that the
/// lowerer takes for granted and does not find.
pub ghost struct Out {
    pub s: St,
    pub ok: bool,
}

/// A value, the state in which it was lowered, and whether that state was
/// reached without meeting anything that the lowerer takes for granted and
/// does not find.
pub ghost struct Lowered {
    pub f: Func,
    pub value: Value,
    pub ok: bool,
}

/// What a branching test saves to start each of its arms from.
pub ghost struct Reset {
    pub constructors: Seq<Seq<Value>>,
    pub map: Seq<Value>,
}

impl Pat {
    /// The state in which the walk of a match with `tails` bodies starts.
    pub open spec fn start(tails: nat) -> Pat {
        Pat {
            expressions: Seq::new(tails, |i: int| None),
            constructors: Seq::empty(),
            map: Seq::empty(),
            continuation_block: None,
            continuation_value: None,
            can_skip: true,
            lowered: Seq::new(tails, |i: int| 0nat),
            jumps: Seq::new(tails, |i: int| 0nat),
        }
    }

    /// With one more jump of a leaf to the body of `tail` counted.
    pub open spec fn jumped(self, tail: int) -> Pat {
        Pat { jumps: self.jumps.update(tail, self.jumps[tail] + 1), ..self }
    }

    /// With one more lowering of the body of `tail` counted.
    pub open spec fn counted(self, tail: int) -> Pat {
        Pat { lowered: self.lowered.update(tail, self.lowered[tail] + 1), ..self }
    }
}

impl St {
    pub open spec fn with_ssa(self, ssa: Ssa) -> St {
        St { f: Func { ssa, ..self.f }, ..self }
    }

    pub open spec fn ssa(self) -> Ssa {
        self.f.ssa
    }

    /// With one more instruction in the current block.
    pub open spec fn emit(self, entry: Entry, ty: MonoType) -> St {
        self.with_ssa(self.f.ssa.emit(entry, ty))
    }

    /// With `value` as the value seen at the next depth.
    pub open spec fn seen(self, value: Value) -> St {
        St { p: Pat { map: self.p.map.push(value), ..self.p }, ..self }
    }

    /// With one more queue of values to visit.
    pub open spec fn queued(self, queue: Seq<Value>) -> St {
        St { p: Pat { constructors: self.p.constructors.push(queue), ..self.p }, ..self }
    }

    /// With `can_skip` cleared unless `keep`.
    pub open spec fn skipping(self, keep: bool) -> St {
        St { p: Pat { can_skip: self.p.can_skip && keep, ..self.p }, ..self }
    }

    /// What a branching test saves.
    pub open spec fn make_reset(self) -> Reset {
        Reset { constructors: self.p.constructors, map: self.p.map }
    }

    /// Back at what `point` saved, and on in `block`.
    pub open spec fn reset(self, block: Block, point: Reset) -> St {
        St {
            f: Func { ssa: self.f.ssa.switch_to_block(block), ..self.f },
            p: Pat { constructors: point.constructors, map: point.map, ..self.p },
        }
    }

    /// With a new block, in which the walk goes on.
    pub open spec fn enter_new_block(self) -> St {
        self.with_ssa(self.f.ssa.new_block(0).switch_to_block(self.f.ssa.next_block()))
    }
}

/// The key of a record, tuple or sum type.
pub open spec fn key_of(ty: MonoType) -> Option<MonoTypeKey> {
    match ty {
        MonoType::Monomorphised(key) => Some(key),
        _ => None,
    }
}

/// The blocks with a read of each field of `on` from field `from` on.
pub open spec fn fields_read(ssa: Ssa, on: Value, key: MonoTypeKey, fields: Seq<MonoType>, from: int) -> Ssa
    decreases fields.len() - from,
{
    if 0 <= from < fields.len() {
        fields_read(
            ssa.emit(Entry::Field { of: on, key, field: RecordField(from as u32) }, fields[from]),
            on,
            key,
            fields,
            from + 1,
        )
    } else {
        ssa
    }
}

/// The results of `count` instructions in a row, the first of which is
/// instruction `first`.
pub open spec fn results(first: int, count: int) -> Seq<Value> {
    Seq::new(count as nat, |i: int| Value::V(V((first + i) as usize)))
}

/// The values that a jump into the block of a leaf hands over: for each
/// binding of the leaf the value that was seen at its depth.
pub open spec fn bound_values(map: Seq<Value>, table: Seq<(Bind, usize)>) -> Seq<Value> {
    Seq::new(table.len(), |i: int| map[table[i].1 as int])
}

/// Whether every binding of the leaf names a depth at which a value was seen.
pub open spec fn depths_seen(map: Seq<Value>, table: Seq<(Bind, usize)>) -> bool {
    forall|i: int| 0 <= i < table.len() ==> (#[trigger] table[i]).1 < map.len()
}

/// The width of lengths and counts.
pub open spec fn spec_word() -> IntSize {
    IntSize { signed: false, bitsize: crate::types::Bitsize(64) }
}

/// The width of lengths and counts.
#[verifier::when_used_as_spec(spec_word)]
pub fn word() -> (r: IntSize)
    ensures
        r == spec_word(),
{
    IntSize::new(false, 64)
}

/// The width of a byte.
pub open spec fn spec_byte() -> IntSize {
    IntSize { signed: false, bitsize: crate::types::Bitsize(8) }
}

/// The width of a byte.
#[verifier::when_used_as_spec(spec_byte)]
pub fn byte() -> (r: IntSize)
    ensures
        r == spec_byte(),
{
    IntSize::new(false, 8)
}

impl Ssa {
    /// With a call of the function `f`.
    pub open spec fn called(self, f: MonoFunc, params: Seq<Value>, ret: MonoType) -> Ssa {
        self.with_args(params).emit(Entry::Call(Value::FuncPtr(f), self.next_args(params)), ret)
    }

    /// With a call of `f` that gives a pair, and a read of each half. The
    /// halves are the second and the third result from here.
    pub open spec fn halved(
        self,
        f: MonoFunc,
        params: Seq<Value>,
        pair: MonoTypeKey,
        left: MonoType,
        right: MonoType,
    ) -> Ssa {
        self.called(f, params, MonoType::Monomorphised(pair)).emit(
            Entry::Field { of: self.next_value(), key: pair, field: RecordField(0) },
            left,
        ).emit(Entry::Field { of: self.next_value(), key: pair, field: RecordField(1) }, right)
    }

    /// The result after the next.
    pub open spec fn second_value(self) -> Value {
        Value::V(V((self.entries.len() + 1) as usize))
    }

    /// The result after that.
    pub open spec fn third_value(self) -> Value {
        Value::V(V((self.entries.len() + 2) as usize))
    }

}

/// The value of a local: a parameter of the function, by its position
/// after what the function captured, which can be had in the entry block
/// only; or what a binding was bound to.
pub open spec fn yielded(cx: Cx, f: Func, local: crate::tree::Local) -> Lowered {
    match local {
        crate::tree::Local::Param(pid) => Lowered {
            f,
            value: Value::BlockParam(
                crate::ssa::BlockParam(
                    if cx.has_captures {
                        (pid.0 + 1) as u32
                    } else {
                        pid.0
                    },
                ),
            ),
            ok: f.ssa.current == Block::entry() && (cx.has_captures ==> pid.0 < u32::MAX),
        },
        crate::tree::Local::Binding(bind) => Lowered {
            f,
            value: f.binds[bind.0],
            ok: f.binds.contains_key(bind.0),
        },
    }
}

/// The comparison that a built-in name stands for.
pub open spec fn comparison_of(name: Seq<char>) -> Option<Comparison> {
    if name == "eq"@ {
        Some(Comparison::Equal)
    } else if name == "lt"@ {
        Some(Comparison::Less)
    } else if name == "gt"@ {
        Some(Comparison::Greater)
    } else {
        None
    }
}

/// The arithmetic operation that a built-in name stands for.
pub open spec fn arith_of(name: Seq<char>) -> Option<crate::ssa::Arith> {
    if name == "plus"@ {
        Some(crate::ssa::Arith::Add)
    } else if name == "minus"@ {
        Some(crate::ssa::Arith::Sub)
    } else if name == "mul"@ {
        Some(crate::ssa::Arith::Mul)
    } else if name == "div"@ {
        Some(crate::ssa::Arith::Div)
    } else {
        None
    }
}

/// A cast of an integer that has been lowered: nothing for a cast to the
/// same width, else a widening by the sign of where it comes from, or a
/// narrowing.
#[verifier::opaque]
pub open spec fn cast_lowered(inner: Lowered, from: IntSize, to: IntSize) -> Lowered {
    let ty = MonoType::Int(to);
    if from.bitsize.0 == to.bitsize.0 {
        inner
    } else if from.bitsize.0 < to.bitsize.0 {
        Lowered {
            f: inner.f.with_ssa(inner.f.ssa.emit(Entry::Extend(inner.value, from.signed), ty)),
            value: inner.f.ssa.next_value(),
            ok: inner.ok,
        }
    } else {
        Lowered {
            f: inner.f.with_ssa(inner.f.ssa.emit(Entry::Reduce(inner.value), ty)),
            value: inner.f.ssa.next_value(),
            ok: inner.ok,
        }
    }
}

/// A comparison of two integers that have been lowered, of the width of
/// the first.
#[verifier::opaque]
pub open spec fn compare_lowered(name: Seq<char>, left: Lowered, right: Lowered) -> Lowered {
    let how = comparison_of(name);
    let size = match right.f.ssa.type_of(left.value) {
        MonoType::Int(size) => Some(size),
        _ => None,
    };
    Lowered {
        f: right.f.with_ssa(
            right.f.ssa.emit(
                Entry::Compare(how->0, left.value, right.value, size->0),
                crate::ssa::spec_truth(),
            ),
        ),
        value: right.f.ssa.next_value(),
        ok: left.ok && right.ok && how is Some && size is Some,
    }
}

/// An arithmetic operation on two numbers that have been lowered, of the
/// type of the first.
#[verifier::opaque]
pub open spec fn num_lowered(name: Seq<char>, left: Lowered, right: Lowered) -> Lowered {
    let op = arith_of(name);
    let ty = right.f.ssa.type_of(left.value);
    Lowered {
        f: right.f.with_ssa(right.f.ssa.emit(Entry::Num(op->0, left.value, right.value), ty)),
        value: right.f.ssa.next_value(),
        ok: left.ok && right.ok && op is Some,
    }
}

/// A read of a field of a record that has been lowered.
#[verifier::opaque]
pub open spec fn access_lowered(cx: Cx, object: Lowered, key: MonoTypeKey, field: RecordField) -> Lowered {
    Lowered {
        f: object.f.with_ssa(
            object.f.ssa.emit(
                Entry::Field { of: object.value, key, field },
                cx.types.fields_of(key)[field.0 as int],
            ),
        ),
        value: object.f.ssa.next_value(),
        ok: object.ok && cx.types.has(key) && field.0 < cx.types.fields_of(key).len(),
    }
}

/// A write of a value through a pointer, both of which have been lowered.
#[verifier::opaque]
pub open spec fn write_lowered(pointer: Lowered, value: Lowered) -> Lowered {
    Lowered {
        f: value.f.with_ssa(
            value.f.ssa.emit(Entry::Write(pointer.value, value.value), MonoType::Unreachable),
        ),
        value: value.f.ssa.next_value(),
        ok: pointer.ok && value.ok,
    }
}

/// The size of a type in bytes, as a literal.
#[verifier::opaque]
pub open spec fn size_lowered(cx: Cx, f: Func, ty: Type) -> Lowered {
    let mono = cx.tmap.applied(ty);
    Lowered {
        f,
        value: Value::Int((cx.types.bits(mono) / 8) as i128, spec_word()),
        ok: cx.tmap.covers(ty) && sized(cx, mono),
    }
}

/// A record built of the values of its fields, which have been lowered in
/// the order in which they were given and are put in the order of the fields.
#[verifier::opaque]
pub open spec fn record_lowered(key: MonoTypeKey, names: Seq<RecordField>, given: LoweredAll) -> Lowered {
    let ssa = given.f.ssa;
    let sorted = in_order(names, given.values);
    Lowered {
        f: given.f.with_ssa(
            ssa.with_args(sorted).emit(
                Entry::Construct(ssa.next_args(sorted)),
                MonoType::Monomorphised(key),
            ),
        ),
        value: ssa.next_value(),
        ok: given.ok && all_named(names) && names.len() <= u32::MAX,
    }
}

/// The address of the static value that an expression calls on.
#[verifier::opaque]
pub open spec fn address_lowered(f: Func, val: Expr) -> Lowered {
    match val {
        Expr::CallFunc(ResolvedNFunc::Val(key, _), _) => Lowered {
            f: f.with_ssa(f.ssa.emit(Entry::ValToRef(key), MonoType::Pointer)),
            value: f.ssa.next_value(),
            ok: true,
        },
        _ => Lowered { f, value: Value::Int(0, spec_word()), ok: false },
    }
}

/// A call of a function that has been resolved, on `count` arguments that
/// have been lowered: of a function of the program or from outside it, the
/// call; of the constructor of a variant, the arguments as one payload and
/// then the tag and the payload as the sum; of a static value, which takes
/// no arguments, a read through its address.
#[verifier::opaque]
pub open spec fn call_lowered(func: ResolvedNFunc, count: nat, args: LoweredAll) -> Lowered {
    let ssa = args.f.ssa;
    match func {
        ResolvedNFunc::Extern(key, ret) => Lowered {
            f: args.f.with_ssa(
                ssa.with_args(args.values).emit(
                    Entry::CallExtern(key, ssa.next_args(args.values)),
                    ret,
                ),
            ),
            value: ssa.next_value(),
            ok: args.ok,
        },
        ResolvedNFunc::Static(mfunc, ret) => Lowered {
            f: args.f.with_ssa(ssa.called(mfunc, args.values, ret)),
            value: ssa.next_value(),
            ok: args.ok,
        },
        ResolvedNFunc::Sum { tag, payload_size, ty } => {
            let payload = ssa.with_args(args.values).emit(
                Entry::Construct(ssa.next_args(args.values)),
                MonoType::SumDataCast { largest: payload_size },
            );
            let parts = seq![tag, ssa.next_value()];
            Lowered {
                f: args.f.with_ssa(
                    payload.with_args(parts).emit(
                        Entry::Construct(payload.next_args(parts)),
                        MonoType::Monomorphised(ty),
                    ),
                ),
                value: ssa.second_value(),
                ok: args.ok,
            }
        },
        ResolvedNFunc::Val(key, ty) => Lowered {
            f: args.f.with_ssa(
                ssa.emit(Entry::ValToRef(key), MonoType::Pointer).emit(
                    Entry::Deref(ssa.next_value()),
                    ty,
                ),
            ),
            value: ssa.second_value(),
            ok: args.ok && count == 0,
        },
    }
}

/// A read through a pointer that has been lowered, of the type that the
/// pointer points to.
#[verifier::opaque]
pub open spec fn deref_lowered(inner: Lowered) -> Lowered {
    let ty = crate::mono::pointee(inner.f.ssa.type_of(inner.value));
    Lowered {
        f: inner.f.with_ssa(inner.f.ssa.emit(Entry::Deref(inner.value), ty->0)),
        value: inner.f.ssa.next_value(),
        ok: inner.ok && ty is Some,
    }
}

/// The types of values.
pub open spec fn types_of(ssa: Ssa, values: Seq<Value>) -> Seq<MonoType> {
    Seq::new(values.len(), |i: int| ssa.type_of(values[i]))
}

/// The blocks after some steps, the value of the last of them, and whether
/// the lowerer found all that it takes for granted.
pub ghost struct Written {
    pub ssa: Ssa,
    pub value: Value,
    pub ok: bool,
}

/// A tuple of values: built as the first type of the table whose fields
/// have the types of the values.
#[verifier::opaque]
pub open spec fn tupled(cx: Cx, ssa: Ssa, elems: Seq<Value>) -> Written {
    let key = cx.types.tuple_of(types_of(ssa, elems), 0);
    Written {
        ssa: ssa.with_args(elems).emit(
            Entry::Construct(ssa.next_args(elems)),
            MonoType::Monomorphised(MonoTypeKey(key->0 as u32)),
        ),
        value: ssa.next_value(),
        ok: key is Some && cx.types.records.len() <= u32::MAX,
    }
}

/// The field of a closure object that holds the address of what it captured.
pub open spec fn spec_data_field() -> RecordField {
    RecordField(0)
}

/// The field of a closure object that holds the address of its table of
/// functions.
pub open spec fn spec_vtable_field() -> RecordField {
    RecordField(1)
}

/// The field of a closure object that holds the address of what it captured.
#[verifier::when_used_as_spec(spec_data_field)]
pub fn data_field() -> (r: RecordField)
    ensures
        r == spec_data_field(),
{
    RecordField(0)
}

/// The field of a closure object that holds the address of its table of
/// functions.
#[verifier::when_used_as_spec(spec_vtable_field)]
pub fn vtable_field() -> (r: RecordField)
    ensures
        r == spec_vtable_field(),
{
    RecordField(1)
}

/// A call of the closure object `obj` of type `objty` on `params`: the
/// address of what it captured and the address of its table of functions
/// are read from the object; the table is read through its address and the
/// function from its first field; the function is called on what was
/// captured and on the parameters as one tuple.
#[verifier::opaque]
pub open spec fn closure_called(cx: Cx, ssa: Ssa, objty: MonoTypeKey, obj: Value, params: Seq<Value>) -> Written {
    let fields = cx.types.fields_of(objty);
    let objptr_type = fields[0];
    let vtable_ptr_type = fields[1];
    let vtable_type = crate::mono::pointee(vtable_ptr_type);
    let vtable_key = key_of(vtable_type->0);
    let fn_type = cx.types.fields_of(vtable_key->0)[0];
    let ret = cx.types.returned(fn_type);
    let objptr = ssa.next_value();
    let vtableptr = ssa.second_value();
    let vtable = ssa.third_value();
    let fnptr = Value::V(V((ssa.entries.len() + 3) as usize));
    let read = ssa.emit(
        Entry::Field { of: obj, key: objty, field: spec_data_field() },
        objptr_type,
    ).emit(Entry::Field { of: obj, key: objty, field: spec_vtable_field() }, vtable_ptr_type).emit(
        Entry::Deref(vtableptr),
        vtable_type->0,
    ).emit(Entry::Field { of: vtable, key: vtable_key->0, field: RecordField(0) }, fn_type);
    let tuple = tupled(cx, read, params);
    let args = seq![objptr, tuple.value];
    Written {
        ssa: tuple.ssa.with_args(args).emit(Entry::Call(fnptr, tuple.ssa.next_args(args)), ret->0),
        value: tuple.ssa.next_value(),
        ok: cx.types.has(objty) && fields.len() >= 2 && objptr_type == MonoType::Pointer
            && vtable_type is Some && vtable_key is Some && cx.types.has(vtable_key->0)
            && cx.types.fields_of(vtable_key->0).len() >= 1 && ret is Some && tuple.ok,
    }
}

/// A call of what a local holds on arguments that have been lowered: of a
/// function pointer, the call; of a closure object, what `closure_called`
/// says. The local is read after the arguments are lowered.
#[verifier::opaque]
pub open spec fn local_call_lowered(cx: Cx, local: crate::tree::Local, args: LoweredAll) -> Lowered {
    let callee = yielded(cx, args.f, local);
    let ssa = args.f.ssa;
    match ssa.type_of(callee.value) {
        MonoType::FnPointer(sig) => {
            let ret = cx.types.returned(MonoType::FnPointer(sig));
            Lowered {
                f: args.f.with_ssa(
                    ssa.with_args(args.values).emit(
                        Entry::Call(callee.value, ssa.next_args(args.values)),
                        ret->0,
                    ),
                ),
                value: ssa.next_value(),
                ok: args.ok && callee.ok && ret is Some,
            }
        },
        MonoType::Monomorphised(objty) => {
            let called = closure_called(cx, ssa, objty, callee.value, args.values);
            Lowered {
                f: args.f.with_ssa(called.ssa),
                value: called.value,
                ok: args.ok && callee.ok && called.ok,
            }
        },
        _ => Lowered { f: args.f, value: callee.value, ok: false },
    }
}

/// A tuple of values that have been lowered.
#[verifier::opaque]
pub open spec fn tuple_lowered(cx: Cx, elems: LoweredAll) -> Lowered {
    let built = tupled(cx, elems.f.ssa, elems.values);
    Lowered { f: elems.f.with_ssa(built.ssa), value: built.value, ok: elems.ok && built.ok }
}

/// A literal for a boolean: a byte that is one or zero.
pub open spec fn bool_value(b: bool) -> Value {
    Value::UInt(
        if b {
            1
        } else {
            0
        },
        spec_byte(),
    )
}

/// The lowering of an expression: the blocks after it, the value that
/// stands for its result, and whether the lowerer found all that it takes
/// for granted. The parts of an expression are lowered from left to right.
pub open spec fn lower_expr(cx: Cx, f: Func, e: Expr) -> Lowered
    decreases expr_size(e), Tree::End(Tail::Poison), 0nat, 0nat,
{
    match e {
        Expr::Yield(local) => yielded(cx, f, local),
        Expr::Int(size, n) => Lowered { f, value: Value::Int(n, size), ok: true },
        Expr::UInt(size, n) => Lowered { f, value: Value::UInt(n, size), ok: true },
        Expr::Bool(b) => Lowered { f, value: bool_value(b), ok: true },
        Expr::ReadOnly(ro) => Lowered { f, value: Value::ReadOnly(ro), ok: true },
        Expr::IntCast(inner, from, to) => cast_lowered(lower_expr(cx, f, *inner), from, to),
        Expr::Compare(name, left, right) => {
            let left = lower_expr(cx, f, *left);
            compare_lowered(name@, left, lower_expr(cx, left.f, *right))
        },
        Expr::Num(name, left, right) => {
            let left = lower_expr(cx, f, *left);
            num_lowered(name@, left, lower_expr(cx, left.f, *right))
        },
        Expr::Access(object, key, field) => access_lowered(
            cx,
            lower_expr(cx, f, *object),
            key,
            field,
        ),
        Expr::Write(pointer, value) => {
            let pointer = lower_expr(cx, f, *pointer);
            write_lowered(pointer, lower_expr(cx, pointer.f, *value))
        },
        Expr::SizeOf(ty) => size_lowered(cx, f, ty),
        Expr::Match(on, tree, branches, predecessors) => {
            let on = lower_expr(cx, f, *on);
            let m = Bodies { branches, predecessors: predecessors@ };
            let run = run_step(
                cx,
                m,
                St { f: on.f, p: Pat::start(branches.len() as nat) },
                on.value,
                tree@,
            );
            Lowered { f: run.f, value: run.value, ok: on.ok && run.ok }
        },
        Expr::Record(key, fields) => record_lowered(
            key,
            names_of(fields),
            lower_fields(cx, f, fields, 0, Seq::empty()),
        ),
        Expr::ValToRef(val) => address_lowered(f, *val),
        Expr::Deref(inner) => deref_lowered(lower_expr(cx, f, *inner)),
        Expr::Tuple(elems) => tuple_lowered(cx, lower_all(cx, f, elems, 0, Seq::empty())),
        Expr::YieldLambda(lambda) => Lowered {
            f: dyn_lambda(cx, f, lambda),
            value: f.ssa.second_value(),
            ok: lambda_returns(cx, lambda) is Some,
        },
        Expr::CallLambda(lambda, params) => lambda_call_lowered(
            cx,
            lambda,
            lower_all(cx, f, params, 0, Seq::empty()),
        ),
        Expr::CallLocal(local, params) => local_call_lowered(
            cx,
            local,
            lower_all(cx, f, params, 0, Seq::empty()),
        ),
        Expr::CallFunc(func, params) => call_lowered(
            func,
            params.len() as nat,
            lower_all(cx, f, params, 0, Seq::empty()),
        ),
        Expr::Abort => Lowered { f, value: Value::Int(1, spec_word()), ok: true },
    }
}

/// The fields that a record expression names, in the order in which it
/// gives them.
pub open spec fn names_of(fields: Vec<(RecordField, Expr)>) -> Seq<RecordField> {
    Seq::new(fields.len() as nat, |i: int| fields[i].0)
}

/// Whether each of the fields `0`, `1` and so on up to the count of `names`
/// is among `names`.
pub open spec fn all_named(names: Seq<RecordField>) -> bool {
    forall|i: int|
        0 <= i < names.len() ==> (#[trigger] place_of_field(names, RecordField(i as u32), 0)) is Some
}

/// The values in the order of the fields: in place `i` the value that was
/// given for field `i`, by the first of the names that names that field.
pub open spec fn in_order(names: Seq<RecordField>, values: Seq<Value>) -> Seq<Value> {
    Seq::new(names.len(), |i: int| values[place_of_field(names, RecordField(i as u32), 0)->0])
}

/// The lowering of the expressions of the fields from index `from` on, one
/// after the other, behind the values `before` of those before them.
pub open spec fn lower_fields(
    cx: Cx,
    f: Func,
    fields: Vec<(RecordField, Expr)>,
    from: int,
    before: Seq<Value>,
) -> LoweredAll
    decreases fields_size(fields, from), Tree::End(Tail::Poison), 1nat, 0nat,
{
    if 0 <= from < fields.len() && expr_size(fields[from].1) >= 1 {
        let here = lower_expr(cx, f, fields[from].1);
        let rest = lower_fields(cx, here.f, fields, from + 1, before.push(here.value));
        LoweredAll { f: rest.f, values: rest.values, ok: here.ok && rest.ok }
    } else {
        LoweredAll { f, values: before, ok: true }
    }
}

/// Values, the state in which the last of them was lowered, and whether
/// the lowerer found all that it takes for granted.
pub ghost struct LoweredAll {
    pub f: Func,
    pub values: Seq<Value>,
    pub ok: bool,
}

/// The lowering of the expressions from index `from` on, one after the
/// other, behind the values `before` of those before them.
pub open spec fn lower_all(cx: Cx, f: Func, exprs: Vec<Expr>, from: int, before: Seq<Value>) -> LoweredAll
    decreases bodies_size(exprs, from), Tree::End(Tail::Poison), 1nat, 0nat,
{
    if 0 <= from < exprs.len() && expr_size(exprs[from]) >= 1 {
        let here = lower_expr(cx, f, exprs[from]);
        let rest = lower_all(cx, here.f, exprs, from + 1, before.push(here.value));
        LoweredAll { f: rest.f, values: rest.values, ok: here.ok && rest.ok }
    } else {
        LoweredAll { f, values: before, ok: true }
    }
}

/// Whether the size of `ty` can be asked for: the table has it and its size
/// can be counted in 32 bits.
pub open spec fn sized(cx: Cx, ty: MonoType) -> bool {
    &&& cx.types.wf()
    &&& match ty {
        MonoType::Monomorphised(key) => cx.types.has(key),
        _ => true,
    }
    &&& cx.types.bits(ty) <= u32::MAX
}

/// The lowering of a whole match on the value `on`: the walk of the tree,
/// and then the value of the match.
pub open spec fn run_step(cx: Cx, m: Bodies, s: St, on: Value, tree: Tree) -> Lowered
    decreases m.weight(), tree, 5nat, 0nat,
{
    match_value(tree_step(cx, m, s, on, tree))
}

/// The value of a match whose tree was walked. Where no test had more than
/// one arm, that is what the only body gave. Else it is the parameter of
/// the block in which the branches meet, and the blocks go on there.
pub open spec fn match_value(walked: Out) -> Lowered {
    let p = walked.s.p;
    if p.can_skip {
        Lowered {
            f: walked.s.f,
            value: p.continuation_value->0,
            ok: walked.ok && p.continuation_block is None && p.continuation_value is Some,
        }
    } else {
        let (block, ty) = p.continuation_block->0;
        let ssa = walked.s.f.ssa.switch_to_block(block).add_block_param(block, ty);
        Lowered {
            f: walked.s.f.with_ssa(ssa),
            value: match ssa.block_param(block, 0, 0) {
                Some(param) => param,
                None => walked.s.f.ssa.next_value(),
            },
            ok: walked.ok && p.continuation_value is None && p.continuation_block is Some
                && walked.s.f.ssa.has(block),
        }
    }
}

/// The walk of the tree `tree` for the value `on`: the value is noted as
/// seen, and the walk goes on by the kind of node.
pub open spec fn tree_step(cx: Cx, m: Bodies, s: St, on: Value, tree: Tree) -> Out
    decreases m.weight(), tree, 1nat, 0nat,
{
    let s = s.seen(on);
    match tree {
        Tree::Record { next } => fields_step(cx, m, s, on, *next),
        Tree::Tuple { next } => fields_step(cx, m, s, on, *next),
        Tree::List { .. } => list_step(cx, m, s, on, tree),
        Tree::Ints { .. } => ints_step(cx, m, s, on, tree),
        Tree::Bools(_) => bools_step(cx, m, s, on, tree),
        Tree::Sum { .. } => sum_step(cx, m, s, on, tree),
        Tree::String { .. } => string_step(cx, m, s, on, tree),
        Tree::Wildcard { next } => next_step(cx, m, s, *next),
        Tree::Opaque { next } => next_step(cx, m, s, *next),
        Tree::End(_) => tail_step(cx, m, s, tree),
    }
}

/// The walk goes on with the next value that is still to be visited. Where
/// none is left, the tree must have come to a leaf.
pub open spec fn next_step(cx: Cx, m: Bodies, s: St, tree: Tree) -> Out
    decreases m.weight(), tree, 2nat, s.p.constructors.len(),
{
    if s.p.constructors.len() == 0 {
        match tree {
            Tree::End(_) => tail_step(cx, m, s, tree),
            _ => Out { s, ok: false },
        }
    } else {
        let queue = s.p.constructors.last();
        if queue.len() > 0 {
            let rest = s.p.constructors.update(s.p.constructors.len() - 1, queue.drop_first());
            tree_step(cx, m, St { p: Pat { constructors: rest, ..s.p }, ..s }, queue[0], tree)
        } else {
            next_step(
                cx,
                m,
                St { p: Pat { constructors: s.p.constructors.drop_last(), ..s.p }, ..s },
                tree,
            )
        }
    }
}

/// A record or tuple is taken apart: each field is read, in declaration
/// order, and the fields are queued to be visited.
pub open spec fn fields_step(cx: Cx, m: Bodies, s: St, on: Value, next: Tree) -> Out
    decreases m.weight(), next, 3nat, 0nat,
{
    let key = key_of(s.ssa().type_of(on));
    let fields = cx.types.fields_of(key->0);
    let first = s.ssa().entries.len() as int;
    let read = s.with_ssa(fields_read(s.ssa(), on, key->0, fields, 0)).queued(
        results(first, fields.len() as int),
    );
    let walked = next_step(cx, m, read, next);
    Out {
        s: walked.s,
        ok: walked.ok && key is Some && cx.types.has(key->0) && fields.len() <= u32::MAX,
    }
}

/// A leaf. A reached leaf jumps to the block of its body, which is made
/// when the first leaf asks for it, and hands over what its bindings stand
/// for; the body is lowered once the last leaf has jumped.
pub open spec fn tail_step(cx: Cx, m: Bodies, s: St, leaf: Tree) -> Out
    decreases m.weight(), leaf, 0nat, 1nat,
    when leaf is End
{
    match leaf->End_0 {
        Tail::Poison => Out { s, ok: true },
        Tail::Unreached(_) => Out { s, ok: true },
        Tail::Reached(table, _, tail) => {
            let t = tail.0 as int;
            let fresh = s.p.expressions[t] is None;
            let block = if fresh {
                s.ssa().next_block()
            } else {
                s.p.expressions[t]->0
            };
            let made = if fresh {
                St {
                    f: Func { ssa: s.ssa().new_block(table.len() as u32), ..s.f },
                    p: Pat { expressions: s.p.expressions.update(t, Some(block)), ..s.p },
                }
            } else {
                s
            };
            let jumped = St {
                p: made.p.jumped(t),
                ..made.with_ssa(made.ssa().jump(block, bound_values(s.p.map, table)))
            };
            let here = t < s.p.expressions.len() && t < m.branches.len() && t
                < m.predecessors.len() && table.len() <= u32::MAX && depths_seen(s.p.map, table)
                && s.ssa().wf() && made.ssa().has(block);
            let lowered = branch_step(cx, m, jumped, leaf);
            Out { s: lowered.s, ok: here && lowered.ok }
        },
    }
}

/// The blocks and bindings after each binding of `table` from index `from`
/// on was made a parameter of `block`, of the type of the value seen at its
/// depth.
pub open spec fn bind_params(s: St, block: Block, table: Seq<(Bind, usize)>, from: int) -> St
    decreases table.len() - from,
{
    if 0 <= from < table.len() {
        let (bind, depth) = table[from];
        let ty = s.ssa().type_of(s.p.map[depth as int]);
        let param = s.ssa().next_value();
        bind_params(
            St {
                f: Func {
                    ssa: s.ssa().add_block_param(block, ty),
                    binds: s.f.binds.insert(bind.0, param),
                    ..s.f
                },
                ..s
            },
            block,
            table,
            from + 1,
        )
    } else {
        s
    }
}

/// The block in which the branches meet, made when the first branch asks
/// for it, for a value of the type that this branch gives.
pub open spec fn continuation(s: St, ty: MonoType) -> (St, Block) {
    match s.p.continuation_block {
        Some((block, _)) => (s, block),
        None => (
            St {
                f: Func { ssa: s.ssa().new_block(1), ..s.f },
                p: Pat { continuation_block: Some((s.ssa().next_block(), ty)), ..s.p },
            },
            s.ssa().next_block(),
        ),
    }
}

/// The body of `tail` is lowered if the jump just made was the last that
/// leads to it: the bindings become parameters of its block, the body is
/// lowered there, and its value is kept or handed to the block in which the
/// branches meet.
pub open spec fn branch_step(cx: Cx, m: Bodies, s: St, leaf: Tree) -> Out
    decreases m.weight(), leaf, 0nat, 0nat,
    when leaf is End && leaf->End_0 is Reached
{
    let table = leaf->End_0->Reached_0;
    let t = leaf->End_0->Reached_2.0 as int;
    let block = s.p.expressions[t]->0;
    if s.ssa().blocks[block.0 as int].predecessors == m.predecessors[t] as usize {
        let inside = entered_body(s, block, table, t);
        if 0 <= t < m.branches.len() && expr_size(m.branches[t]) < m.weight() {
            let body = lower_expr(cx, inside.f, m.branches[t]);
            let given = body_yields(St { f: body.f, ..inside }, body.value);
            Out { s: given.s, ok: body.ok && given.ok }
        } else {
            Out { s, ok: false }
        }
    } else {
        Out { s, ok: true }
    }
}

/// The state in which the body of `tail` is lowered: its bindings are
/// parameters of its block, the blocks go on there, and the lowering is
/// counted.
#[verifier::opaque]
pub open spec fn entered_body(s: St, block: Block, table: Seq<(Bind, usize)>, tail: int) -> St {
    let bound = bind_params(s, block, table, 0);
    St { p: bound.p.counted(tail), ..bound.with_ssa(bound.ssa().switch_to_block(block)) }
}

/// What a branch gave is kept, where there is only one branch, or else
/// handed to the block in which the branches meet.
#[verifier::opaque]
pub open spec fn body_yields(after: St, value: Value) -> Out {
    if after.p.can_skip {
        Out {
            s: St { p: Pat { continuation_value: Some(value), ..after.p }, ..after },
            ok: true,
        }
    } else {
        let (made, con) = continuation(after, after.ssa().type_of(value));
        Out { s: made.with_ssa(made.ssa().jump(con, seq![value])), ok: after.ssa().wf() }
    }
}

/// A test on an integer: each arm in turn, up to the arm that takes all
/// that is left.
pub open spec fn ints_step(cx: Cx, m: Bodies, s: St, on: Value, tree: Tree) -> Out
    decreases m.weight(), tree, 0nat, tree->Ints_next.len() + 1,
{
    let s = s.skipping(tree->Ints_next.len() == 1);
    ints_from(cx, m, s, on, tree, 0, s.make_reset())
}

/// The check that `on` lies in `range`: equality for a single value; else
/// less than the value after its end and, unless the range starts at the
/// least value of the type, greater than the value before its start.
pub open spec fn range_check(ssa: Ssa, on: Value, intsize: IntSize, range: Range) -> Ssa {
    if range.end == range.start {
        ssa.emit(
            Entry::Compare(Comparison::Equal, on, Value::Int(range.end, intsize), intsize),
            crate::ssa::spec_truth(),
        )
    } else {
        let below = ssa.emit(
            Entry::Compare(
                Comparison::Less,
                on,
                Value::Int((range.end + 1) as i128, intsize),
                intsize,
            ),
            crate::ssa::spec_truth(),
        );
        if range.con.min != range.start {
            let above = below.emit(
                Entry::Compare(
                    Comparison::Greater,
                    on,
                    Value::Int((range.start - 1) as i128, intsize),
                    intsize,
                ),
                crate::ssa::spec_truth(),
            );
            above.emit(Entry::BitAnd(ssa.next_value(), below.next_value()), above.type_of(on))
        } else {
            below
        }
    }
}

/// The value of the check that `range_check` writes.
pub open spec fn range_checked(ssa: Ssa, range: Range) -> Value {
    if range.end != range.start && range.con.min != range.start {
        ssa.third_value()
    } else {
        ssa.next_value()
    }
}

/// The arms of an integer test from arm `i` on.
pub open spec fn ints_from(cx: Cx, m: Bodies, s: St, on: Value, tree: Tree, i: int, point: Reset) -> Out
    decreases m.weight(), tree, 0nat, tree->Ints_next.len() - i,
    when tree is Ints
{
    let intsize = tree->intsize;
    let arms = tree->Ints_next;
    if 0 <= i < arms.len() {
        let (range, next) = arms[i];
        if range.end == range.con.max {
            next_step(cx, m, s, next)
        } else {
            let on_true = s.ssa().next_block();
            let on_false = Block((s.ssa().blocks.len() + 1) as usize);
            let blocks = s.ssa().new_block(0).new_block(0);
            let checked = range_check(blocks, on, intsize, range);
            let chosen = checked.select(range_checked(blocks, range), on_true, on_false);
            let walked = next_step(cx, m, s.with_ssa(chosen.switch_to_block(on_true)), next);
            let rest = ints_from(cx, m, walked.s.reset(on_false, point), on, tree, i + 1, point);
            Out {
                s: rest.s,
                ok: walked.ok && rest.ok && s.ssa().wf() && range.end < i128::MAX && range.start
                    > i128::MIN,
            }
        }
    } else {
        Out { s, ok: true }
    }
}

/// A test on a boolean: a choice between two blocks, the arm for `true`
/// walked in the first and the other arm, from the same start, in the second.
pub open spec fn bools_step(cx: Cx, m: Bodies, s: St, on: Value, tree: Tree) -> Out
    decreases m.weight(), tree, 0nat, 0nat,
    when tree is Bools
{
    let arms = tree->Bools_0;
    let s = s.skipping(false);
    if arms.len() == 2 {
        let truthy = if arms[0].0 {
            arms[0]
        } else {
            arms[1]
        };
        let falsey = if arms[0].0 {
            arms[1]
        } else {
            arms[0]
        };
        let point = s.make_reset();
        let on_true = s.ssa().next_block();
        let on_false = Block((s.ssa().blocks.len() + 1) as usize);
        let chosen = s.ssa().new_block(0).new_block(0).select(on, on_true, on_false);
        let first = next_step(cx, m, s.with_ssa(chosen.switch_to_block(on_true)), truthy.1);
        let second = next_step(cx, m, first.s.reset(on_false, point), falsey.1);
        Out { s: second.s, ok: first.ok && second.ok && s.ssa().wf() }
    } else {
        Out { s, ok: false }
    }
}

/// A state, the blocks made for the arms walked so far, and whether the
/// lowerer found all that it takes for granted.
pub ghost struct Tabled {
    pub s: St,
    pub blocks: Seq<Block>,
    pub ok: bool,
}

/// Whether the variants of the arms are in order and without a gap.
pub open spec fn variants_in_order(arms: Seq<(SumVariant, Tree)>) -> bool {
    forall|i: int| 0 <= i < arms.len() - 1 ==> (#[trigger] arms[i]).0.0 + 1 == arms[i + 1].0.0
}

/// The parameter types of variant `var` of `sum`, where the program has them.
pub open spec fn variant_types(cx: Cx, sum: M<Sum>, var: SumVariant) -> Option<Seq<Type>> {
    if sum.value.0 < cx.mir.variant_types.len() && var.0 < cx.mir.variant_types[sum.value.0 as int].len() {
        Some(cx.mir.variant_types[sum.value.0 as int][var.0 as int]@)
    } else {
        None
    }
}

/// Whether the parameters of a variant from index `from` on, the first of
/// them at the bit offset `offset`, can be read from the payload: their
/// types are known once the generics are replaced, and their sizes can be
/// asked for and added up in 32 bits.
pub open spec fn payload_ok(cx: Cx, raw: Seq<Type>, params: Seq<Type>, from: int, offset: nat) -> bool
    decreases raw.len() - from,
{
    if 0 <= from < raw.len() {
        let ty = cx.tmap.applied(instantiated(raw[from], params));
        &&& instantiable(raw[from], params)
        &&& cx.tmap.covers(instantiated(raw[from], params))
        &&& sized(cx, ty)
        &&& offset + cx.types.bits(ty) <= u32::MAX
        &&& payload_ok(cx, raw, params, from + 1, offset + cx.types.bits(ty))
    } else {
        true
    }
}

/// The blocks with a read of each parameter of a variant from index `from`
/// on out of the payload `data`, the first of them at the bit offset
/// `offset` and each right behind the one before it.
pub open spec fn payload_read(
    cx: Cx,
    ssa: Ssa,
    data: Value,
    raw: Seq<Type>,
    params: Seq<Type>,
    from: int,
    offset: nat,
) -> Ssa
    decreases raw.len() - from,
{
    if 0 <= from < raw.len() {
        let ty = cx.tmap.applied(instantiated(raw[from], params));
        payload_read(
            cx,
            ssa.emit(Entry::SumField { of: data, offset: BitOffset(offset as u32) }, ty),
            data,
            raw,
            params,
            from + 1,
            offset + cx.types.bits(ty),
        )
    } else {
        ssa
    }
}

/// A test on the variant of a sum: its tag and its payload are read; for
/// each arm a block is made in which the parameters of the variant are
/// read out of the payload and queued, and the arm is walked; a jump table
/// on the tag ends the block in which the test began.
pub open spec fn sum_step(cx: Cx, m: Bodies, s: St, on: Value, tree: Tree) -> Out
    decreases m.weight(), tree, 0nat, tree->Sum_next.len() + 1,
{
    let arms = tree->Sum_next;
    let s = s.skipping(arms.len() == 1);
    let oblock = s.ssa().current;
    let key = key_of(s.ssa().type_of(on));
    let fields = cx.types.fields_of(key->0);
    let read = s.ssa().emit(
        Entry::Field { of: on, key: key->0, field: RecordField(0) },
        MonoType::Int(crate::ssa::spec_tag_size()),
    ).emit(Entry::Field { of: on, key: key->0, field: RecordField(1) }, fields[1]);
    let tag = s.ssa().next_value();
    let data = s.ssa().second_value();
    let walked = sum_from(cx, m, s.with_ssa(read), oblock, data, tree, 0, Seq::empty());
    Out {
        s: walked.s.with_ssa(walked.s.ssa().jump_table(tag, walked.blocks)),
        ok: walked.ok && key is Some && cx.types.has(key->0) && fields.len() >= 2
            && variants_in_order(arms) && walked.s.ssa().wf(),
    }
}

/// The arms of a test on a sum from arm `i` on.
pub open spec fn sum_from(
    cx: Cx,
    m: Bodies,
    s: St,
    oblock: Block,
    data: Value,
    tree: Tree,
    i: int,
    blocks: Seq<Block>,
) -> Tabled
    decreases m.weight(), tree, 0nat, tree->Sum_next.len() - i,
    when tree is Sum
{
    let sum = tree->sum;
    let params = tree->params;
    let arms = tree->Sum_next;
    if 0 <= i < arms.len() {
        let (var, next) = arms[i];
        let vblock = s.ssa().next_block();
        let inside = s.enter_new_block();
        let point = inside.make_reset();
        let raw = variant_types(cx, sum, var);
        let first = inside.ssa().entries.len() as int;
        let read = inside.with_ssa(payload_read(cx, inside.ssa(), data, raw->0, params, 0, 0)).queued(
            results(first, raw->0.len() as int),
        );
        let walked = next_step(cx, m, read, next);
        let rest = sum_from(
            cx,
            m,
            walked.s.reset(oblock, point),
            oblock,
            data,
            tree,
            i + 1,
            blocks.push(vblock),
        );
        Tabled {
            s: rest.s,
            blocks: rest.blocks,
            ok: walked.ok && rest.ok && raw is Some && payload_ok(cx, raw->0, params, 0, 0),
        }
    } else {
        Tabled { s, blocks, ok: true }
    }
}

/// The first arm from index `from` on that stands for the variant `constr`.
pub open spec fn arm_of(arms: Seq<(SumVariant, Tree)>, constr: SumVariant, from: int) -> Option<int>
    decreases arms.len() - from,
{
    if 0 <= from < arms.len() {
        if arms[from].0 == constr {
            Some(from)
        } else {
            arm_of(arms, constr, from + 1)
        }
    } else {
        None
    }
}

/// A test on a list: the list is split by the implementation of the trait
/// of lists for its type; the tag and the payload of what the split gives
/// are read and the tag is held against that of the variant with a value.
/// In a block of its own the arm for `Cons` is walked, the head read at the
/// start of the payload and the tail right behind it; in another block the
/// arm for `Nil`. A choice on the tag ends the block in which the test began.
pub open spec fn list_step(cx: Cx, m: Bodies, s: St, on: Value, tree: Tree) -> Out
    decreases m.weight(), tree, 0nat, 0nat,
    when tree is List
{
    let ty = tree->ty;
    let elem = tree->elem;
    let arms = tree->List_next;
    let s = s.skipping(false);
    let oblock = s.ssa().current;
    let listmt = cx.tmap.applied(ty);
    let innermt = cx.tmap.applied(elem);
    let found = cx.mir.implementation(cx.info.listable, seq![innermt], listmt);
    let imp = Impl(found->0 as u32);
    let generics = crate::mir::settled(
        cx.mir.impls[found->0].applies(cx.info.listable, seq![innermt], listmt)->0,
    );
    let split = FuncOrigin::Method(imp, cx.info.listable_split);
    let ret = cx.returns_of(split, generics);
    let mfunc = s.f.mfunc_of(split, Some(listmt), generics);
    let asked = St { f: s.f.call_to_mfunc(cx, split, Some(listmt), generics), ..s };
    let maybe = asked.ssa().next_value();
    let tag = asked.ssa().second_value();
    let data = asked.ssa().third_value();
    let is_just = Value::V(V((asked.ssa().entries.len() + 3) as usize));
    let key = key_of(ret);
    let largest = (cx.types.bits_from(key->0, 0) - crate::ssa::spec_tag_size().bitsize.0) as u32;
    let read = asked.ssa().called(mfunc, seq![on], ret).emit(
        Entry::Field { of: maybe, key: key->0, field: RecordField(0) },
        MonoType::Int(crate::ssa::spec_tag_size()),
    ).emit(
        Entry::Field { of: maybe, key: key->0, field: RecordField(1) },
        MonoType::SumDataCast { largest },
    ).emit(
        Entry::Compare(Comparison::Equal, tag, Value::spec_maybe_just(), crate::ssa::spec_tag_size()),
        crate::ssa::spec_truth(),
    );
    let here = cx.tmap.covers(ty) && cx.tmap.covers(elem) && cx.mir.impls.len() <= u32::MAX
        && found is Some && cx.callable(split, generics) && key is Some && cx.types.wf()
        && cx.types.has(key->0) && crate::ssa::spec_tag_size().bitsize.0 <= cx.types.bits_from(
        key->0,
        0,
    ) <= u32::MAX && sized(cx, innermt);
    let cons = arm_of(arms, crate::tree::spec_list_cons(), 0);
    let nil = arm_of(arms, crate::tree::spec_list_nil(), 0);
    if cons is Some && nil is Some && 0 <= cons->0 < arms.len() && 0 <= nil->0 < arms.len() {
        let con_block = read.next_block();
        let in_cons = asked.with_ssa(read).enter_new_block();
        let cons_point = in_cons.make_reset();
        let taken = in_cons.with_ssa(
            in_cons.ssa().emit(Entry::SumField { of: data, offset: BitOffset(0) }, innermt).emit(
                Entry::SumField { of: data, offset: BitOffset(cx.types.bits(innermt) as u32) },
                listmt,
            ),
        ).queued(seq![in_cons.ssa().next_value(), in_cons.ssa().second_value()]);
        let first = next_step(cx, m, taken, arms[cons->0].1);
        let back = first.s.reset(oblock, cons_point);
        let nil_block = back.ssa().next_block();
        let in_nil = back.enter_new_block();
        let nil_point = in_nil.make_reset();
        let second = next_step(cx, m, in_nil.queued(Seq::empty()), arms[nil->0].1);
        let done = second.s.reset(oblock, nil_point);
        Out {
            s: done.with_ssa(done.ssa().select(is_just, con_block, nil_block)),
            ok: here && first.ok && second.ok && done.ssa().wf(),
        }
    } else {
        Out { s, ok: false }
    }
}

/// A state, what is left of the string that is matched, and whether the
/// lowerer found all that it takes for granted.
pub ghost struct Threaded {
    pub s: St,
    pub on: Value,
    pub ok: bool,
}

impl St {
    /// With a choice on `value` between a new block, in which the walk goes
    /// on, and `falsely`.
    pub open spec fn pass_or(self, value: Value, falsely: Block) -> St {
        self.with_ssa(
            self.ssa().new_block(0).select(value, self.ssa().next_block(), falsely).switch_to_block(
                self.ssa().next_block(),
            ),
        )
    }

    /// With an object built of a lambda: see `Func::dyn_lambda`.
    pub open spec fn dyn_lambda(self, cx: Cx, lambda: crate::key::Lambda) -> St {
        St { f: dyn_lambda(cx, self.f, lambda), ..self }
    }
}

/// With the instance of the lambda among the functions asked for, and what
/// it captured, which is nothing, built as a value.
pub open spec fn morphised(cx: Cx, f: Func, lambda: crate::key::Lambda) -> Func {
    let place = place_of_lambda(f, lambda);
    Func {
        ssa: f.ssa.with_args(Seq::empty()).emit(
            Entry::Construct(f.ssa.next_args(Seq::empty())),
            MonoType::Pointer,
        ),
        funcs: if place < f.funcs.len() {
            f.funcs
        } else {
            f.funcs.push(
                crate::lower::Inst {
                    origin: FuncOrigin::Lambda(lambda),
                    self_: None,
                    generics: Seq::empty(),
                    returns: returned_by(cx, lambda),
                },
            )
        },
        ..f
    }
}

/// The type of what a lambda returns.
pub open spec fn returned_by(cx: Cx, lambda: crate::key::Lambda) -> MonoType {
    match lambda_returns(cx, lambda) {
        Some(ty) => ty,
        None => MonoType::Unreachable,
    }
}

/// With the instance of the lambda among the functions asked for, and an
/// object built of what it captured and of the function itself. The
/// object is the second result from here.
pub open spec fn dyn_lambda(cx: Cx, f: Func, lambda: crate::key::Lambda) -> Func {
    let made = morphised(cx, f, lambda);
    let parts = seq![
        f.ssa.next_value(),
        Value::FuncPtr(MonoFunc(place_of_lambda(f, lambda) as usize)),
    ];
    made.with_ssa(
        made.ssa.with_args(parts).emit(
            Entry::Construct(made.ssa.next_args(parts)),
            MonoType::Monomorphised(cx.info.closure),
        ),
    )
}

/// What a lambda returns, where the program knows the lambda and what its
/// generics stand for.
pub open spec fn lambda_returns(cx: Cx, lambda: crate::key::Lambda) -> Option<MonoType> {
    if lambda.0 < cx.mir.lambdas.len() && cx.tmap.covers(cx.mir.lambdas[lambda.0 as int].returns) {
        Some(cx.tmap.applied(cx.mir.lambdas[lambda.0 as int].returns))
    } else {
        None
    }
}

/// A call of a lambda on arguments that have been lowered: the lambda is
/// called on what it captured and then on the arguments.
#[verifier::opaque]
pub open spec fn lambda_call_lowered(cx: Cx, lambda: crate::key::Lambda, args: LoweredAll) -> Lowered {
    let made = morphised(cx, args.f, lambda);
    let params = seq![args.f.ssa.next_value()] + args.values;
    Lowered {
        f: made.with_ssa(
            made.ssa.called(
                MonoFunc(place_of_lambda(args.f, lambda) as usize),
                params,
                returned_by(cx, lambda),
            ),
        ),
        value: made.ssa.next_value(),
        ok: args.ok && lambda_returns(cx, lambda) is Some,
    }
}

/// The place of the instance of a lambda among the functions asked for.
pub open spec fn place_of_lambda(f: Func, lambda: crate::key::Lambda) -> int {
    crate::lower::place_of(f.funcs, FuncOrigin::Lambda(lambda), None, Seq::empty(), 0)
}

/// One step of a string pattern on what is left of the string. Each step
/// notes one value as seen; a step that can fail ends the block with a
/// choice between a new block, in which the next step follows, and `falsely`.
pub open spec fn check_step(cx: Cx, s: St, on: Value, falsely: Block, check: StrCheck, is_last: bool) -> Threaded {
    let info = cx.info;
    let ssa = s.ssa();
    match check {
        StrCheck::Literal(key) => {
            let len = Value::Int(cx.mir.read_only[key.0 as int] as i128, spec_word());
            let made = ssa.called(info.string_from_raw, seq![Value::ReadOnly(key), len], info.string);
            let literal = ssa.next_value();
            let ok = key.0 < cx.mir.read_only.len() && ssa.wf();
            if is_last {
                // all that is left must be the literal
                let held = made.called(info.string_equals, seq![on, literal], crate::ssa::spec_truth());
                Threaded {
                    s: s.with_ssa(held).seen(literal).pass_or(made.next_value(), falsely),
                    on,
                    ok,
                }
            } else {
                // what is left must start with the literal
                let cut = made.halved(
                    info.string_split_at,
                    seq![on, len],
                    info.string_pair,
                    info.string,
                    info.string,
                );
                let held = cut.called(
                    info.string_equals,
                    seq![made.second_value(), literal],
                    crate::ssa::spec_truth(),
                );
                Threaded {
                    s: s.with_ssa(held).seen(literal).pass_or(cut.next_value(), falsely),
                    on: made.third_value(),
                    ok,
                }
            }
        },
        StrCheck::Take(bytes) => {
            let at = Value::Int(bytes as i128, spec_word());
            let cut = ssa.halved(
                info.string_split_at,
                seq![on, at],
                info.string_pair,
                info.string,
                info.string,
            );
            let counted = cut.called(
                info.string_len,
                seq![ssa.second_value()],
                MonoType::Int(spec_word()),
            );
            let held = counted.emit(
                Entry::Compare(Comparison::Equal, at, cut.next_value(), spec_word()),
                crate::ssa::spec_truth(),
            );
            Threaded {
                s: s.with_ssa(held).seen(ssa.second_value()).pass_or(counted.next_value(), falsely),
                on: ssa.third_value(),
                ok: ssa.wf(),
            }
        },
        StrCheck::TakeExcess => Threaded { s: s.seen(on), on, ok: is_last },
        StrCheck::TakeByte => {
            let cut = ssa.halved(
                info.string_split_first,
                seq![on],
                info.byte_and_string,
                MonoType::Int(spec_byte()),
                info.string,
            );
            let held = cut.emit(
                Entry::Compare(
                    Comparison::Equal,
                    ssa.second_value(),
                    Value::Int(0, spec_byte()),
                    spec_byte(),
                ),
                crate::ssa::spec_truth(),
            );
            Threaded {
                s: s.with_ssa(held).seen(ssa.second_value()).pass_or(cut.next_value(), falsely),
                on: ssa.third_value(),
                ok: ssa.wf(),
            }
        },
        StrCheck::TakeWhileLocal(local) => {
            let f = yielded(cx, s.f, local);
            let cut = ssa.halved(
                info.string_split_while,
                seq![on, f.value],
                info.string_pair,
                info.string,
                info.string,
            );
            Threaded { s: s.with_ssa(cut).seen(ssa.second_value()), on: ssa.third_value(), ok: f.ok }
        },
        StrCheck::TakeWhileFunc(func) => {
            let origin = FuncOrigin::Defined(func.value);
            let mfunc = s.f.mfunc_of(origin, Some(info.string), Seq::empty());
            let asked = s.f.call_to_mfunc(cx, origin, Some(info.string), Seq::empty());
            let cut = ssa.halved(
                info.string_split_while,
                seq![on, Value::FuncPtr(mfunc)],
                info.string_pair,
                info.string,
                info.string,
            );
            Threaded {
                s: St { f: Func { ssa: cut, ..asked }, ..s }.seen(ssa.second_value()),
                on: ssa.third_value(),
                ok: cx.callable(origin, Seq::empty()),
            }
        },
        StrCheck::TakeWhileLambda(lambda) => {
            let built = s.dyn_lambda(cx, lambda);
            let f = ssa.second_value();
            let cut = built.ssa().halved(
                info.string_split_while,
                seq![on, f],
                info.string_pair,
                info.string,
                info.string,
            );
            Threaded {
                s: built.with_ssa(cut).seen(built.ssa().second_value()),
                on: built.ssa().third_value(),
                ok: lambda_returns(cx, lambda) is Some,
            }
        },
    }
}

/// The steps of a string pattern from step `i` on.
pub open spec fn checks_from(cx: Cx, s: St, on: Value, falsely: Block, checks: Seq<StrCheck>, i: int) -> Threaded
    decreases checks.len() - i,
{
    if 0 <= i < checks.len() {
        let here = check_step(cx, s, on, falsely, checks[i], i == checks.len() - 1);
        let rest = checks_from(cx, here.s, here.on, falsely, checks, i + 1);
        Threaded { s: rest.s, on: rest.on, ok: here.ok && rest.ok }
    } else {
        Threaded { s, on, ok: true }
    }
}

/// A test on a string: the steps of each arm are made in a row; where a
/// step fails, the next arm is tried from the same start; where all steps
/// of an arm pass, the arm is walked. After the last arm comes what
/// matches any string.
pub open spec fn string_step(cx: Cx, m: Bodies, s: St, on: Value, tree: Tree) -> Out
    decreases m.weight(), tree, 0nat, tree->String_next.len() + 1,
{
    // the steps note what they see themselves
    let s = St { p: Pat { map: s.p.map.drop_last(), ..s.p }, ..s }.skipping(false);
    string_from(cx, m, s, on, tree, 0, s.make_reset())
}

/// The arms of a test on a string from arm `i` on, and then what matches
/// any string.
pub open spec fn string_from(cx: Cx, m: Bodies, s: St, on: Value, tree: Tree, i: int, point: Reset) -> Out
    decreases m.weight(), tree, 0nat, tree->String_next.len() - i,
    when tree is String
{
    match tree {
        Tree::String { next: arms, wildcard_next } => {
            if 0 <= i < arms.len() {
                let falsely = s.ssa().next_block();
                let checked = checks_from(
                    cx,
                    s.with_ssa(s.ssa().new_block(0)),
                    on,
                    falsely,
                    arms[i].0,
                    0,
                );
                let walked = next_step(cx, m, checked.s, arms[i].1);
                let rest = string_from(cx, m, walked.s.reset(falsely, point), on, tree, i + 1, point);
                Out { s: rest.s, ok: checked.ok && walked.ok && rest.ok }
            } else {
                next_step(cx, m, s, *wildcard_next)
            }
        },
        _ => Out { s, ok: false },
    }
}

/// The bodies of the branches of one match, by tail, and for each tail how
/// many leaves lead to it.
#[derive(Clone, Copy, Debug)]
pub struct Branches<'v> {
    pub branches: &'v Vec<Expr>,
    pub predecessors: &'v Vec<u16>,
}

impl<'v> View for Branches<'v> {
    type V = Bodies;

    open spec fn view(&self) -> Bodies {
        Bodies { branches: *self.branches, predecessors: self.predecessors@ }
    }
}

/// What a branching test saves to start each of its arms from.
pub(crate) struct ResetPoint {
    pub(crate) constructors: Vec<Vec<Value>>,
    pub(crate) map: Vec<Value>,
}

impl View for ResetPoint {
    type V = Reset;

    closed spec fn view(&self) -> Reset {
        Reset { constructors: queues(self.constructors), map: self.map@ }
    }
}

fn copy_queues(from: &Vec<Vec<Value>>) -> (r: Vec<Vec<Value>>)
    ensures
        queues(r) == queues(*from),
{
    let mut out: Vec<Vec<Value>> = Vec::new();
    let mut i: usize = 0;
    while i < from.len()
        invariant
            i <= from.len(),
            out.len() == i,
            forall|j: int| 0 <= j < i ==> (#[trigger] out[j])@ == from[j]@,
        decreases from.len() - i,
    {
        out.push(crate::tree::copy_of(&from[i]));
        i += 1;
    }
    assert(queues(out) =~= queues(*from));
    out
}

impl ResetPoint {
    pub(crate) fn duplicate(&self) -> (r: ResetPoint)
        ensures
            r@ == self@,
    {
        ResetPoint {
            constructors: copy_queues(&self.constructors),
            map: crate::tree::copy_of(&self.map),
        }
    }
}

/// The lowering of one match.
pub struct PatLower<'f, 'v, 'a> {
    pub f: &'f mut FuncLower<'a>,
    pub bodies: Branches<'v>,
    pub st: PatState,
}

/// The state of a lowering.
pub open spec fn state(f: FuncLower, st: PatState) -> St {
    St { f: f@, p: st@ }
}

impl<'f, 'v, 'a> PatLower<'f, 'v, 'a> {
    pub(crate) fn make_reset(st: &PatState) -> (r: ResetPoint)
        ensures
            r@ == (Reset { constructors: st@.constructors, map: st@.map }),
    {
        ResetPoint {
            constructors: copy_queues(&st.constructors),
            map: crate::tree::copy_of(&st.map),
        }
    }

    pub(crate) fn reset(f: &mut FuncLower<'a>, st: &mut PatState, block: Block, point: ResetPoint)
        ensures
            state(*final(f), *final(st)) == state(*old(f), *old(st)).reset(block, point@),
            final(f).cx() == old(f).cx(),
    {
        f.ssa.switch_to_block(block);
        st.map = point.map;
        st.constructors = point.constructors;
    }

    /// The block in which the branches meet. It is made when the first
    /// branch asks for it, with one parameter, of the type `ty` of what that
    /// branch gives.
    pub fn get_continuation(&mut self, ty: MonoType) -> (r: Block)
        ensures
            state(*final(self).f, final(self).st) == continuation(
                state(*old(self).f, old(self).st),
                ty,
            ).0,
            r == continuation(state(*old(self).f, old(self).st), ty).1,
            *final(final(self).f) == *final(old(self).f),
            final(self).f.cx() == old(self).f.cx(),
            final(self).bodies == old(self).bodies,
    {
        Self::continuation_of(self.f, &mut self.st, ty)
    }

    pub(crate) fn continuation_of(f: &mut FuncLower<'a>, st: &mut PatState, ty: MonoType) -> (r: Block)
        ensures
            state(*final(f), *final(st)) == continuation(state(*old(f), *old(st)), ty).0,
            r == continuation(state(*old(f), *old(st)), ty).1,
            final(f).cx() == old(f).cx(),
    {
        match st.continuation_block {
            Some((block, _)) => block,
            None => {
                let block = f.ssa.new_block(1);
                st.continuation_block = Some((block, ty));
                block
            },
        }
    }

    /// The values that a jump into the block of a leaf hands over.
    pub(crate) fn bound(st: &PatState, table: &PointTable) -> (r: Vec<Value>)
        requires
            depths_seen(st@.map, table@),
        ensures
            r@ == bound_values(st@.map, table@),
    {
        let mut out: Vec<Value> = Vec::new();
        let mut i: usize = 0;
        while i < table.binds.len()
            invariant
                i <= table.binds.len(),
                depths_seen(st@.map, table@),
                out@ == bound_values(st@.map, table@).take(i as int),
            decreases table.binds.len() - i,
        {
            let depth = table.binds[i].1;
            assert(table@[i as int].1 < st@.map.len());
            out.push(st.map[depth]);
            assert(out@ =~= bound_values(st@.map, table@).take(i + 1));
            i += 1;
        }
        assert(bound_values(st@.map, table@).take(table@.len() as int) =~= bound_values(
            st@.map,
            table@,
        ));
        out
    }

    /// Makes each binding of the leaf a parameter of the block of its body.
    pub(crate) fn bind(f: &mut FuncLower<'a>, st: &PatState, block: Block, table: &PointTable)
        requires
            depths_seen(st@.map, table@),
            old(f)@.ssa.has(block),
        ensures
            state(*final(f), *st) == bind_params(state(*old(f), *st), block, table@, 0),
            final(f).cx() == old(f).cx(),
            final(f)@.ssa.blocks.len() == old(f)@.ssa.blocks.len(),
    {
        let mut i: usize = 0;
        while i < table.binds.len()
            invariant
                i <= table.binds.len(),
                depths_seen(st@.map, table@),
                f@.ssa.has(block),
                f.cx() == old(f).cx(),
                f@.ssa.blocks.len() == old(f)@.ssa.blocks.len(),
                bind_params(state(*f, *st), block, table@, i as int) == bind_params(
                    state(*old(f), *st),
                    block,
                    table@,
                    0,
                ),
            decreases table.binds.len() - i,
        {
            let (bind, depth) = table.binds[i];
            assert(table@[i as int].1 < st@.map.len());
            let v = st.map[depth];
            let ty = f.type_of_value(v);
            let bparam = f.ssa.add_block_param(block, ty);
            f.bindmap.insert(bind.0, bparam);
            i += 1;
        }
    }
}

} // verus!
