//! A match is entered through the block in which it starts, and left
//! through none of the blocks that it makes: lowering ends no other block
//! that was there before, and the blocks that it ends lead to blocks that
//! it made. The proof, step by step along the walk.

use crate::key::Bind;
use crate::lower::{Cx, Func};
use crate::mir::{bodies_size, expr_size, fields_size, Expr};
use crate::pat::exact::{
    fits, lemma_access, lemma_address, lemma_call, lemma_cast, lemma_compare, lemma_deref,
    lemma_lambda_call, lemma_local_call, lemma_num, lemma_record, lemma_size, lemma_tuple,
    lemma_write, only_emits, tail_of,
};
use crate::pat::grows;
use crate::pat::once::unwalked;
use crate::pat::{
    arm_of, bind_params, bools_step, branch_step, check_step, checks_from, continuation,
    fields_read, fields_step, ints_from, ints_step, key_of, list_step, lower_all, lower_expr,
    lower_fields, next_step, payload_read, range_check, run_step, string_from,
    string_step, sum_from, sum_step, tail_step, tree_step, variant_types, Bodies, Pat, Reset, St,
};
use crate::range::Range;
use crate::ssa::{Block, ControlFlow, Ssa, Value};
use crate::tree::{StrCheck, Tail, Tree};
use crate::types::{IntSize, MonoType, MonoTypeKey, Type};
use vstd::prelude::*;

verus! {

/// Whether `block` is the block in which lowering went on at `base`, or a
/// block that was made since.
pub open spec fn within(base: Ssa, block: Block) -> bool {
    block == base.current || block.0 >= base.blocks.len()
}

/// Whether an ending leads to blocks made since `base` only.
pub open spec fn ends_inside(base: Ssa, flow: ControlFlow) -> bool {
    match flow {
        ControlFlow::Open => true,
        ControlFlow::Return(_) => true,
        ControlFlow::Jump(to, _) => to.0 >= base.blocks.len(),
        ControlFlow::Select { on_true, on_false, .. } => on_true.0 >= base.blocks.len()
            && on_false.0 >= base.blocks.len(),
        ControlFlow::JumpTable(_, table) => table.start >= base.targets.len(),
    }
}

/// Whether an ending leads to blocks that there are, and its jump table is
/// written out.
pub open spec fn ends_well(ssa: Ssa, flow: ControlFlow) -> bool {
    match flow {
        ControlFlow::Open => true,
        ControlFlow::Return(_) => true,
        ControlFlow::Jump(to, _) => to.0 < ssa.blocks.len(),
        ControlFlow::Select { on_true, on_false, .. } => on_true.0 < ssa.blocks.len() && on_false.0
            < ssa.blocks.len(),
        ControlFlow::JumpTable(_, table) => table.start + table.len <= ssa.targets.len(),
    }
}

/// Whether every block ends well and the jump tables hold blocks that
/// there are.
pub open spec fn sound(ssa: Ssa) -> bool {
    &&& forall|a: int| 0 <= a < ssa.blocks.len() ==> ends_well(ssa, (#[trigger] ssa.blocks[a]).flow)
    &&& forall|i: int| 0 <= i < ssa.targets.len() ==> (#[trigger] ssa.targets[i]).0 < ssa.blocks.len()
}

/// What lowering that goes on from `base` keeps: no block and no jump
/// table goes; every block but the one in which it went on ends as it did;
/// lowering goes on in that block or in one made since; the blocks made
/// since, and the block in which it went on if that is ended anew, lead to
/// blocks made since; and if all blocks ended well, they still do.
pub open spec fn kept(base: Ssa, after: Ssa) -> bool {
    &&& base.blocks.len() <= after.blocks.len()
    &&& base.targets.len() <= after.targets.len()
    &&& forall|i: int| 0 <= i < base.targets.len() ==> #[trigger] after.targets[i] == base.targets[i]
    &&& forall|b: int|
        0 <= b < base.blocks.len() && b != base.current.0 ==> (#[trigger] after.blocks[b]).flow
            == base.blocks[b].flow
    &&& within(base, after.current)
    &&& forall|i: int|
        base.targets.len() <= i < after.targets.len() ==> (#[trigger] after.targets[i]).0
            >= base.blocks.len()
    &&& forall|b: int|
        base.blocks.len() <= b < after.blocks.len() ==> ends_inside(
            base,
            (#[trigger] after.blocks[b]).flow,
        )
    &&& base.wf() ==> after.blocks[base.current.0 as int].flow
        == base.blocks[base.current.0 as int].flow || ends_inside(
        base,
        after.blocks[base.current.0 as int].flow,
    )
    &&& sound(base) ==> sound(after)
}

/// Whether `block` was made since `base` and is there.
pub open spec fn made_since(base: Ssa, ssa: Ssa, block: Block) -> bool {
    base.blocks.len() <= block.0 < ssa.blocks.len()
}

/// What holds along the walk of a match that started at `base`: what
/// `kept` says, and the blocks of the bodies and the block in which the
/// branches meet were made since.
pub open spec fn homed(base: Ssa, s: St) -> bool {
    &&& kept(base, s.ssa())
    &&& forall|t: int|
        0 <= t < s.p.expressions.len() ==> match #[trigger] s.p.expressions[t] {
            Some(block) => made_since(base, s.ssa(), block),
            None => true,
        }
    &&& match s.p.continuation_block {
        Some((block, _)) => made_since(base, s.ssa(), block),
        None => true,
    }
}

pub(crate) proof fn lemma_kept_twice(a: Ssa, b: Ssa, c: Ssa)
    requires
        kept(a, b),
        kept(b, c),
    ensures
        kept(a, c),
{
    assert forall|x: int| 0 <= x < a.blocks.len() && x != a.current.0 implies (#[trigger] c.blocks[x]).flow
        == a.blocks[x].flow by {
        assert(b.blocks[x].flow == a.blocks[x].flow);
        assert(x != b.current.0);
    }
    assert forall|i: int| 0 <= i < a.targets.len() implies #[trigger] c.targets[i] == a.targets[i] by {
        assert(b.targets[i] == a.targets[i]);
    }
    assert forall|i: int| a.targets.len() <= i < c.targets.len() implies (#[trigger] c.targets[i]).0
        >= a.blocks.len() by {
        if i < b.targets.len() {
            assert(c.targets[i] == b.targets[i]);
        }
    }
    assert forall|x: int| a.blocks.len() <= x < c.blocks.len() implies ends_inside(
        a,
        (#[trigger] c.blocks[x]).flow,
    ) by {
        if x >= b.blocks.len() {
            assert(ends_inside(b, c.blocks[x].flow));
            lemma_inside_sooner(a, b, c.blocks[x].flow);
        } else if x != b.current.0 {
            assert(c.blocks[x].flow == b.blocks[x].flow);
            assert(ends_inside(a, b.blocks[x].flow));
        } else {
            assert(b.wf());
            assert(ends_inside(a, b.blocks[x].flow));
            if c.blocks[x].flow != b.blocks[x].flow {
                lemma_inside_sooner(a, b, c.blocks[x].flow);
            }
        }
    }
    if a.wf() {
        let y = a.current.0 as int;
        if y != b.current.0 {
            assert(c.blocks[y].flow == b.blocks[y].flow);
        } else {
            assert(b.wf());
            if c.blocks[y].flow != b.blocks[y].flow {
                lemma_inside_sooner(a, b, c.blocks[y].flow);
            }
        }
    }
}

/// What leads to blocks made since a later state leads to blocks made since
/// an earlier one.
pub(crate) proof fn lemma_inside_sooner(a: Ssa, b: Ssa, flow: ControlFlow)
    requires
        a.blocks.len() <= b.blocks.len(),
        a.targets.len() <= b.targets.len(),
        ends_inside(b, flow),
    ensures
        ends_inside(a, flow),
{
}

pub(crate) proof fn lemma_kept_emits(base: Ssa, a: Ssa, b: Ssa)
    requires
        kept(base, a),
        only_emits(a, b),
    ensures
        kept(base, b),
{
}

pub(crate) proof fn lemma_kept_switched(base: Ssa, a: Ssa, block: Block)
    requires
        kept(base, a),
        within(base, block),
    ensures
        kept(base, a.switch_to_block(block)),
{
    assert(a.switch_to_block(block).blocks == a.blocks);
}

pub(crate) proof fn lemma_kept_new_block(base: Ssa, a: Ssa, params: u32)
    requires
        kept(base, a),
    ensures
        kept(base, a.new_block(params)),
        a.new_block(params).blocks.len() == a.blocks.len() + 1,
        a.new_block(params).current == a.current,
        a.new_block(params).targets == a.targets,
{
    let made = a.new_block(params);
    assert forall|b: int| 0 <= b < a.blocks.len() implies #[trigger] made.blocks[b] == a.blocks[b] by {}
    if sound(a) {
        assert forall|x: int| 0 <= x < made.blocks.len() implies ends_well(
            made,
            (#[trigger] made.blocks[x]).flow,
        ) by {
            if x < a.blocks.len() {
                assert(ends_well(a, a.blocks[x].flow));
            }
        }
        assert forall|i: int| 0 <= i < made.targets.len() implies (#[trigger] made.targets[i]).0
            < made.blocks.len() by {
            assert(a.targets[i].0 < a.blocks.len());
        }
    }
}

pub(crate) proof fn lemma_kept_ended(base: Ssa, a: Ssa, flow: ControlFlow)
    requires
        kept(base, a),
        a.wf(),
        ends_inside(base, flow),
        ends_well(a, flow),
    ensures
        kept(base, a.end(flow)),
        a.end(flow).blocks.len() == a.blocks.len(),
        a.end(flow).current == a.current,
        a.end(flow).targets == a.targets,
{
    let ended = a.end(flow);
    assert forall|b: int| 0 <= b < a.blocks.len() && b != a.current.0 implies #[trigger] ended.blocks[b]
        == a.blocks[b] by {}
    if sound(a) {
        assert forall|x: int| 0 <= x < ended.blocks.len() implies ends_well(
            ended,
            (#[trigger] ended.blocks[x]).flow,
        ) by {
            if x != a.current.0 {
                assert(ends_well(a, a.blocks[x].flow));
            }
        }
    }
}

pub(crate) proof fn lemma_kept_entered(base: Ssa, a: Ssa, block: Block)
    requires
        kept(base, a),
    ensures
        kept(base, a.enter(block)),
        a.enter(block).blocks.len() == a.blocks.len(),
        a.enter(block).current == a.current,
        a.enter(block).targets == a.targets,
{
    let entered = a.enter(block);
    assert forall|b: int| 0 <= b < a.blocks.len() implies (#[trigger] entered.blocks[b]).flow
        == a.blocks[b].flow by {}
    if sound(a) {
        assert forall|x: int| 0 <= x < entered.blocks.len() implies ends_well(
            entered,
            (#[trigger] entered.blocks[x]).flow,
        ) by {
            assert(ends_well(a, a.blocks[x].flow));
        }
    }
}

pub(crate) proof fn lemma_kept_entered_all(base: Ssa, a: Ssa, blocks: Seq<Block>, i: int)
    requires
        kept(base, a),
        0 <= i,
    ensures
        kept(base, a.enter_all(blocks, i)),
        a.enter_all(blocks, i).blocks.len() == a.blocks.len(),
        a.enter_all(blocks, i).current == a.current,
        a.enter_all(blocks, i).targets == a.targets,
    decreases blocks.len() - i,
{
    if i < blocks.len() {
        lemma_kept_entered(base, a, blocks[i]);
        lemma_kept_entered_all(base, a.enter(blocks[i]), blocks, i + 1);
    }
}

pub(crate) proof fn lemma_kept_jumped(base: Ssa, a: Ssa, block: Block, params: Seq<Value>)
    requires
        kept(base, a),
        a.wf(),
        made_since(base, a, block),
    ensures
        kept(base, a.jump(block, params)),
        a.jump(block, params).blocks.len() == a.blocks.len(),
        a.jump(block, params).current == a.current,
        a.jump(block, params).targets == a.targets,
{
    let flow = ControlFlow::Jump(block, a.next_args(params));
    lemma_kept_emits(base, a, a.with_args(params));
    lemma_kept_ended(base, a.with_args(params), flow);
    lemma_kept_entered(base, a.with_args(params).end(flow), block);
}

pub(crate) proof fn lemma_kept_selected(base: Ssa, a: Ssa, value: Value, on_true: Block, on_false: Block)
    requires
        kept(base, a),
        a.wf(),
        made_since(base, a, on_true),
        made_since(base, a, on_false),
    ensures
        kept(base, a.select(value, on_true, on_false)),
        a.select(value, on_true, on_false).blocks.len() == a.blocks.len(),
        a.select(value, on_true, on_false).current == a.current,
        a.select(value, on_true, on_false).targets == a.targets,
{
    let ended = a.end(ControlFlow::Select { value, on_true, on_false });
    lemma_kept_ended(base, a, ControlFlow::Select { value, on_true, on_false });
    lemma_kept_entered(base, ended, on_true);
    lemma_kept_entered(base, ended.enter(on_true), on_false);
}

pub(crate) proof fn lemma_kept_jump_tabled(base: Ssa, a: Ssa, on: Value, blocks: Seq<Block>)
    requires
        kept(base, a),
        a.wf(),
        a.targets.len() + blocks.len() <= usize::MAX,
        forall|k: int| 0 <= k < blocks.len() ==> made_since(base, a, #[trigger] blocks[k]),
    ensures
        kept(base, a.jump_table(on, blocks)),
        a.jump_table(on, blocks).blocks.len() == a.blocks.len(),
        a.jump_table(on, blocks).current == a.current,
{
    let table = crate::ssa::Args { start: a.targets.len() as usize, len: blocks.len() as usize };
    let longer = Ssa { targets: a.targets + blocks, ..a };
    assert(kept(base, longer)) by {
        assert forall|i: int| 0 <= i < base.targets.len() implies #[trigger] longer.targets[i]
            == base.targets[i] by {
            assert(longer.targets[i] == a.targets[i]);
        }
        assert forall|i: int| base.targets.len() <= i < longer.targets.len() implies (
        #[trigger] longer.targets[i]).0 >= base.blocks.len() by {
            if i < a.targets.len() {
                assert(longer.targets[i] == a.targets[i]);
            } else {
                assert(longer.targets[i] == blocks[i - a.targets.len()]);
            }
        }
        if sound(a) {
            assert forall|x: int| 0 <= x < longer.blocks.len() implies ends_well(
                longer,
                (#[trigger] longer.blocks[x]).flow,
            ) by {
                assert(ends_well(a, a.blocks[x].flow));
            }
            assert forall|i: int| 0 <= i < longer.targets.len() implies (
            #[trigger] longer.targets[i]).0 < longer.blocks.len() by {
                if i < a.targets.len() {
                    assert(longer.targets[i] == a.targets[i]);
                } else {
                    assert(longer.targets[i] == blocks[i - a.targets.len()]);
                }
            }
        }
    }
    lemma_kept_ended(base, longer, ControlFlow::JumpTable(on, table));
    lemma_kept_entered_all(base, longer.end(ControlFlow::JumpTable(on, table)), blocks, 0);
}

pub(crate) proof fn lemma_kept_param(base: Ssa, a: Ssa, block: Block, ty: crate::types::MonoType)
    requires
        kept(base, a),
        a.has(block),
    ensures
        kept(base, a.add_block_param(block, ty)),
        a.add_block_param(block, ty).blocks.len() == a.blocks.len(),
        a.add_block_param(block, ty).current == a.current,
        a.add_block_param(block, ty).targets == a.targets,
{
    let next = a.add_block_param(block, ty);
    assert forall|b: int| 0 <= b < a.blocks.len() implies (#[trigger] next.blocks[b]).flow
        == a.blocks[b].flow by {}
    if sound(a) {
        assert forall|x: int| 0 <= x < next.blocks.len() implies ends_well(
            next,
            (#[trigger] next.blocks[x]).flow,
        ) by {
            assert(ends_well(a, a.blocks[x].flow));
        }
    }
}

pub(crate) proof fn lemma_fields_read(ssa: Ssa, on: Value, key: MonoTypeKey, fields: Seq<MonoType>, from: int)
    requires
        0 <= from,
    ensures
        only_emits(ssa, fields_read(ssa, on, key, fields, from)),
    decreases fields.len() - from,
{
    if from < fields.len() {
        lemma_fields_read(
            ssa.emit(
                crate::ssa::Entry::Field {
                    of: on,
                    key,
                    field: crate::key::RecordField(from as u32),
                },
                fields[from],
            ),
            on,
            key,
            fields,
            from + 1,
        );
    }
}

pub(crate) proof fn lemma_payload_read(
    cx: Cx,
    ssa: Ssa,
    data: Value,
    raw: Seq<Type>,
    params: Seq<Type>,
    from: int,
    offset: nat,
)
    requires
        0 <= from,
    ensures
        only_emits(ssa, payload_read(cx, ssa, data, raw, params, from, offset)),
    decreases raw.len() - from,
{
    if from < raw.len() {
        let ty = cx.tmap.applied(crate::mono::instantiated(raw[from], params));
        lemma_payload_read(
            cx,
            ssa.emit(
                crate::ssa::Entry::SumField {
                    of: data,
                    offset: crate::ssa::BitOffset(offset as u32),
                },
                ty,
            ),
            data,
            raw,
            params,
            from + 1,
            offset + cx.types.bits(ty),
        );
    }
}

pub(crate) proof fn lemma_range_checked(ssa: Ssa, on: Value, intsize: IntSize, range: Range)
    ensures
        only_emits(ssa, range_check(ssa, on, intsize, range)),
{
}

pub(crate) proof fn lemma_params_bound(
    base: Ssa,
    s: St,
    block: Block,
    table: Seq<(Bind, usize)>,
    from: int,
)
    requires
        0 <= from,
        s.ssa().has(block),
        kept(base, s.ssa()),
    ensures
        ({
            let bound = bind_params(s, block, table, from);
            &&& bound.p == s.p
            &&& kept(base, bound.ssa())
            &&& bound.ssa().current == s.ssa().current
            &&& bound.ssa().blocks.len() == s.ssa().blocks.len()
        }),
    decreases table.len() - from,
{
    if from < table.len() {
        let (bind, depth) = table[from];
        let ty = s.ssa().type_of(s.p.map[depth as int]);
        let next = St {
            f: Func {
                ssa: s.ssa().add_block_param(block, ty),
                binds: s.f.binds.insert(bind.0, s.ssa().next_value()),
                ..s.f
            },
            ..s
        };
        lemma_kept_param(base, s.ssa(), block, ty);
        lemma_params_bound(base, next, block, table, from + 1);
    }
}

/// A part of the walk that leaves the blocks, the jump tables, the blocks
/// of the bodies and the block in which the branches meet as they were
/// keeps what holds along the walk.
pub(crate) proof fn lemma_local(base: Ssa, s: St, next: St)
    requires
        homed(base, s),
        only_emits(s.ssa(), next.ssa()),
        next.p.expressions == s.p.expressions,
        next.p.continuation_block == s.p.continuation_block,
    ensures
        homed(base, next),
{
}

/// The same of a part that makes blocks or ends the block in which it is.
pub(crate) proof fn lemma_moved(base: Ssa, s: St, next: St)
    requires
        homed(base, s),
        kept(base, next.ssa()),
        s.ssa().blocks.len() <= next.ssa().blocks.len(),
        next.p.expressions == s.p.expressions,
        next.p.continuation_block == s.p.continuation_block,
    ensures
        homed(base, next),
{
    assert forall|t: int| 0 <= t < next.p.expressions.len() implies match #[trigger] next.p.expressions[t] {
        Some(block) => made_since(base, next.ssa(), block),
        None => true,
    } by {
        assert(s.p.expressions[t] == next.p.expressions[t]);
    }
}

/// The lowering of an expression ends no block that was there but the one
/// in which it starts, goes on in that block or in a block that it made,
/// and lets the blocks that it made lead to blocks that it made.
pub proof fn lemma_expr_kept(cx: Cx, f: Func, e: Expr)
    requires
        lower_expr(cx, f, e).ok,
        fits(lower_expr(cx, f, e).f.ssa),
    ensures
        kept(f.ssa, lower_expr(cx, f, e).f.ssa),
    decreases expr_size(e), Tree::End(Tail::Poison), 0nat, 0nat,
{
    match e {
        Expr::IntCast(inner, from, to) => {
            let lowered = lower_expr(cx, f, *inner);
            lemma_cast(lowered, from, to);
            lemma_expr_kept(cx, f, *inner);
            lemma_kept_emits(f.ssa, lowered.f.ssa, lower_expr(cx, f, e).f.ssa);
        },
        Expr::Compare(name, left, right) => {
            let l = lower_expr(cx, f, *left);
            let r = lower_expr(cx, l.f, *right);
            lemma_compare(name@, l, r);
            grows::lemma_expr_grows(cx, l.f, *right);
            lemma_expr_kept(cx, f, *left);
            lemma_expr_kept(cx, l.f, *right);
            lemma_kept_twice(f.ssa, l.f.ssa, r.f.ssa);
            lemma_kept_emits(f.ssa, r.f.ssa, lower_expr(cx, f, e).f.ssa);
        },
        Expr::Num(name, left, right) => {
            let l = lower_expr(cx, f, *left);
            let r = lower_expr(cx, l.f, *right);
            lemma_num(name@, l, r);
            grows::lemma_expr_grows(cx, l.f, *right);
            lemma_expr_kept(cx, f, *left);
            lemma_expr_kept(cx, l.f, *right);
            lemma_kept_twice(f.ssa, l.f.ssa, r.f.ssa);
            lemma_kept_emits(f.ssa, r.f.ssa, lower_expr(cx, f, e).f.ssa);
        },
        Expr::Access(object, key, field) => {
            let lowered = lower_expr(cx, f, *object);
            lemma_access(cx, lowered, key, field);
            lemma_expr_kept(cx, f, *object);
            lemma_kept_emits(f.ssa, lowered.f.ssa, lower_expr(cx, f, e).f.ssa);
        },
        Expr::Write(pointer, value) => {
            let p = lower_expr(cx, f, *pointer);
            let v = lower_expr(cx, p.f, *value);
            lemma_write(p, v);
            grows::lemma_expr_grows(cx, p.f, *value);
            lemma_expr_kept(cx, f, *pointer);
            lemma_expr_kept(cx, p.f, *value);
            lemma_kept_twice(f.ssa, p.f.ssa, v.f.ssa);
            lemma_kept_emits(f.ssa, v.f.ssa, lower_expr(cx, f, e).f.ssa);
        },
        Expr::SizeOf(ty) => {
            lemma_size(cx, f, ty);
        },
        Expr::ValToRef(val) => {
            lemma_address(f, *val);
        },
        Expr::Record(key, fields) => {
            let given = lower_fields(cx, f, fields, 0, Seq::empty());
            lemma_record(key, crate::pat::names_of(fields), given);
            lemma_fields_kept(cx, f, fields, 0, Seq::empty());
            lemma_kept_emits(f.ssa, given.f.ssa, lower_expr(cx, f, e).f.ssa);
        },
        Expr::CallFunc(func, params) => {
            let args = lower_all(cx, f, params, 0, Seq::empty());
            lemma_call(func, params.len() as nat, args);
            lemma_all_kept(cx, f, params, 0, Seq::empty());
            lemma_kept_emits(f.ssa, args.f.ssa, lower_expr(cx, f, e).f.ssa);
        },
        Expr::Deref(inner) => {
            let lowered = lower_expr(cx, f, *inner);
            lemma_deref(lowered);
            lemma_expr_kept(cx, f, *inner);
            lemma_kept_emits(f.ssa, lowered.f.ssa, lower_expr(cx, f, e).f.ssa);
        },
        Expr::Tuple(elems) => {
            let args = lower_all(cx, f, elems, 0, Seq::empty());
            lemma_tuple(cx, args);
            lemma_all_kept(cx, f, elems, 0, Seq::empty());
            lemma_kept_emits(f.ssa, args.f.ssa, lower_expr(cx, f, e).f.ssa);
        },
        Expr::CallLambda(lambda, params) => {
            let args = lower_all(cx, f, params, 0, Seq::empty());
            lemma_lambda_call(cx, lambda, args);
            lemma_all_kept(cx, f, params, 0, Seq::empty());
            lemma_kept_emits(f.ssa, args.f.ssa, lower_expr(cx, f, e).f.ssa);
        },
        Expr::CallLocal(local, params) => {
            let args = lower_all(cx, f, params, 0, Seq::empty());
            lemma_local_call(cx, local, args);
            lemma_all_kept(cx, f, params, 0, Seq::empty());
            lemma_kept_emits(f.ssa, args.f.ssa, lower_expr(cx, f, e).f.ssa);
        },
        Expr::Match(matched, tree, branches, predecessors) => {
            let on = lower_expr(cx, f, *matched);
            let m = Bodies { branches, predecessors: predecessors@ };
            let s = St { f: on.f, p: Pat::start(branches.len() as nat) };
            grows::lemma_run_grows(cx, m, s, on.value, tree@);
            lemma_expr_kept(cx, f, *matched);
            lemma_run(cx, m, s, on.value, tree@);
            lemma_kept_twice(f.ssa, on.f.ssa, run_step(cx, m, s, on.value, tree@).f.ssa);
        },
        _ => {},
    }
}

/// The same of expressions lowered one after the other.
pub proof fn lemma_all_kept(cx: Cx, f: Func, exprs: Vec<Expr>, from: int, before: Seq<Value>)
    requires
        lower_all(cx, f, exprs, from, before).ok,
        fits(lower_all(cx, f, exprs, from, before).f.ssa),
    ensures
        kept(f.ssa, lower_all(cx, f, exprs, from, before).f.ssa),
    decreases bodies_size(exprs, from), Tree::End(Tail::Poison), 1nat, 0nat,
{
    if 0 <= from < exprs.len() && expr_size(exprs[from]) >= 1 {
        let here = lower_expr(cx, f, exprs[from]);
        grows::lemma_all_grow(cx, here.f, exprs, from + 1, before.push(here.value));
        lemma_expr_kept(cx, f, exprs[from]);
        lemma_all_kept(cx, here.f, exprs, from + 1, before.push(here.value));
        lemma_kept_twice(
            f.ssa,
            here.f.ssa,
            lower_all(cx, here.f, exprs, from + 1, before.push(here.value)).f.ssa,
        );
    }
}

/// The same of the fields of a record.
pub proof fn lemma_fields_kept(
    cx: Cx,
    f: Func,
    fields: Vec<(crate::key::RecordField, Expr)>,
    from: int,
    before: Seq<Value>,
)
    requires
        lower_fields(cx, f, fields, from, before).ok,
        fits(lower_fields(cx, f, fields, from, before).f.ssa),
    ensures
        kept(f.ssa, lower_fields(cx, f, fields, from, before).f.ssa),
    decreases fields_size(fields, from), Tree::End(Tail::Poison), 1nat, 0nat,
{
    if 0 <= from < fields.len() && expr_size(fields[from].1) >= 1 {
        let here = lower_expr(cx, f, fields[from].1);
        grows::lemma_fields_grow(cx, here.f, fields, from + 1, before.push(here.value));
        lemma_expr_kept(cx, f, fields[from].1);
        lemma_fields_kept(cx, here.f, fields, from + 1, before.push(here.value));
        lemma_kept_twice(
            f.ssa,
            here.f.ssa,
            lower_fields(cx, here.f, fields, from + 1, before.push(here.value)).f.ssa,
        );
    }
}

/// The lowering of a match ends no block that was there but the one in
/// which it starts, goes on in that block or in a block that it made, and
/// lets the blocks that it made lead to blocks that it made.
pub proof fn lemma_run(cx: Cx, m: Bodies, s: St, on: Value, tree: Tree)
    requires
        unwalked(s),
        run_step(cx, m, s, on, tree).ok,
        fits(run_step(cx, m, s, on, tree).f.ssa),
    ensures
        homed(s.ssa(), tree_step(cx, m, s, on, tree).s),
        kept(s.ssa(), run_step(cx, m, s, on, tree).f.ssa),
    decreases m.weight(), tree, 5nat, 0nat,
{
    let base = s.ssa();
    let walked = tree_step(cx, m, s, on, tree);
    assert(homed(base, s));
    lemma_tree(cx, m, base, s, on, tree);
    if !walked.s.p.can_skip {
        let (block, ty) = walked.s.p.continuation_block->0;
        lemma_kept_switched(base, walked.s.ssa(), block);
        lemma_kept_param(base, walked.s.ssa().switch_to_block(block), block, ty);
    }
}

/// The walk of a decision tree keeps what holds along the walk.
pub proof fn lemma_tree(cx: Cx, m: Bodies, base: Ssa, s: St, on: Value, tree: Tree)
    requires
        homed(base, s),
        tree_step(cx, m, s, on, tree).ok,
        fits(tree_step(cx, m, s, on, tree).s.ssa()),
    ensures
        homed(base, tree_step(cx, m, s, on, tree).s),
    decreases m.weight(), tree, 1nat, 0nat,
{
    let seen = s.seen(on);
    lemma_local(base, s, seen);
    match tree {
        Tree::Record { next } => lemma_fields(cx, m, base, seen, on, *next),
        Tree::Tuple { next } => lemma_fields(cx, m, base, seen, on, *next),
        Tree::List { .. } => lemma_list(cx, m, base, seen, on, tree),
        Tree::Ints { .. } => lemma_ints(cx, m, base, seen, on, tree),
        Tree::Bools(_) => lemma_bools(cx, m, base, seen, on, tree),
        Tree::Sum { .. } => lemma_sum(cx, m, base, seen, on, tree),
        Tree::String { .. } => lemma_string(cx, m, base, seen, on, tree),
        Tree::Wildcard { next } => lemma_next(cx, m, base, seen, *next),
        Tree::Opaque { next } => lemma_next(cx, m, base, seen, *next),
        Tree::End(_) => lemma_tail(cx, m, base, seen, tree),
    }
}

proof fn lemma_next(cx: Cx, m: Bodies, base: Ssa, s: St, tree: Tree)
    requires
        homed(base, s),
        next_step(cx, m, s, tree).ok,
        fits(next_step(cx, m, s, tree).s.ssa()),
    ensures
        homed(base, next_step(cx, m, s, tree).s),
    decreases m.weight(), tree, 2nat, s.p.constructors.len(),
{
    if s.p.constructors.len() == 0 {
        match tree {
            Tree::End(_) => lemma_tail(cx, m, base, s, tree),
            _ => {},
        }
    } else {
        let queue = s.p.constructors.last();
        if queue.len() > 0 {
            let rest = s.p.constructors.update(s.p.constructors.len() - 1, queue.drop_first());
            let popped = St { p: Pat { constructors: rest, ..s.p }, ..s };
            lemma_local(base, s, popped);
            lemma_tree(cx, m, base, popped, queue[0], tree);
        } else {
            let popped = St { p: Pat { constructors: s.p.constructors.drop_last(), ..s.p }, ..s };
            lemma_local(base, s, popped);
            lemma_next(cx, m, base, popped, tree);
        }
    }
}

proof fn lemma_fields(cx: Cx, m: Bodies, base: Ssa, s: St, on: Value, next: Tree)
    requires
        homed(base, s),
        fields_step(cx, m, s, on, next).ok,
        fits(fields_step(cx, m, s, on, next).s.ssa()),
    ensures
        homed(base, fields_step(cx, m, s, on, next).s),
    decreases m.weight(), next, 3nat, 0nat,
{
    let key = key_of(s.ssa().type_of(on));
    let fields = cx.types.fields_of(key->0);
    let first = s.ssa().entries.len() as int;
    lemma_fields_read(s.ssa(), on, key->0, fields, 0);
    let read = s.with_ssa(fields_read(s.ssa(), on, key->0, fields, 0)).queued(
        crate::pat::results(first, fields.len() as int),
    );
    lemma_local(base, s, read);
    lemma_next(cx, m, base, read, next);
}

proof fn lemma_tail(cx: Cx, m: Bodies, base: Ssa, s: St, leaf: Tree)
    requires
        leaf is End,
        homed(base, s),
        tail_step(cx, m, s, leaf).ok,
        fits(tail_step(cx, m, s, leaf).s.ssa()),
    ensures
        homed(base, tail_step(cx, m, s, leaf).s),
    decreases m.weight(), leaf, 0nat, 1nat,
{
    match leaf->End_0 {
        Tail::Reached(table, _, tail) => {
            let t = tail.0 as int;
            let fresh = s.p.expressions[t] is None;
            let block = if fresh {
                s.ssa().next_block()
            } else {
                s.p.expressions[t]->0
            };
            let made = if fresh {
                St {
                    f: Func { ssa: s.ssa().new_block(table.len() as u32), ..s.f },
                    p: Pat { expressions: s.p.expressions.update(t, Some(block)), ..s.p },
                }
            } else {
                s
            };
            let args = crate::pat::bound_values(s.p.map, table);
            let jumped = St { p: made.p.jumped(t), ..made.with_ssa(made.ssa().jump(block, args)) };
            assert(tail_of(leaf) == t);
            // what follows the jump takes no block away, so the blocks can be counted here
            grows::lemma_branch(cx, m, jumped, leaf);
            grows::lemma_jumped(made.ssa(), block, args);
            assert(fits(jumped.ssa()));
            lemma_kept_new_block(base, s.ssa(), table.len() as u32);
            assert(homed(base, made)) by {
                if fresh {
                    assert forall|other: int| 0 <= other < made.p.expressions.len() implies match #[trigger] made.p.expressions[other] {
                        Some(b) => b.0 >= base.blocks.len(),
                        None => true,
                    } by {
                        if other != t {
                            assert(made.p.expressions[other] == s.p.expressions[other]);
                        }
                    }
                }
            }
            lemma_kept_jumped(base, made.ssa(), block, args);
            lemma_moved(base, made, jumped);
            lemma_branch(cx, m, base, jumped, leaf);
        },
        _ => {},
    }
}

proof fn lemma_entered_body(base: Ssa, s: St, block: Block, table: Seq<(Bind, usize)>, tail: int)
    requires
        homed(base, s),
        s.ssa().has(block),
        0 <= tail < s.p.expressions.len(),
        s.p.expressions[tail] == Some(block),
    ensures
        homed(base, crate::pat::entered_body(s, block, table, tail)),
{
    reveal(crate::pat::entered_body);
    lemma_params_bound(base, s, block, table, 0);
    let bound = bind_params(s, block, table, 0);
    lemma_kept_switched(base, bound.ssa(), block);
}

proof fn lemma_body_yields(base: Ssa, after: St, value: Value)
    requires
        homed(base, after),
        crate::pat::body_yields(after, value).ok,
        fits(crate::pat::body_yields(after, value).s.ssa()),
    ensures
        homed(base, crate::pat::body_yields(after, value).s),
{
    reveal(crate::pat::body_yields);
    if !after.p.can_skip {
        let (made, con) = continuation(after, after.ssa().type_of(value));
        grows::lemma_jumped(made.ssa(), con, seq![value]);
        lemma_kept_new_block(base, after.ssa(), 1);
        assert(homed(base, made));
        lemma_kept_jumped(base, made.ssa(), con, seq![value]);
    }
}

proof fn lemma_branch(cx: Cx, m: Bodies, base: Ssa, s: St, leaf: Tree)
    requires
        leaf is End,
        leaf->End_0 is Reached,
        homed(base, s),
        0 <= tail_of(leaf) < s.p.expressions.len(),
        s.p.expressions[tail_of(leaf)] is Some,
        s.ssa().has(s.p.expressions[tail_of(leaf)]->0),
        branch_step(cx, m, s, leaf).ok,
        fits(branch_step(cx, m, s, leaf).s.ssa()),
    ensures
        homed(base, branch_step(cx, m, s, leaf).s),
    decreases m.weight(), leaf, 0nat, 0nat,
{
    let table = leaf->End_0->Reached_0;
    let t = tail_of(leaf);
    let block = s.p.expressions[t]->0;
    if s.ssa().blocks[block.0 as int].predecessors == m.predecessors[t] as usize {
        let inside = crate::pat::entered_body(s, block, table, t);
        lemma_entered_body(base, s, block, table, t);
        let body = lower_expr(cx, inside.f, m.branches[t]);
        let after = St { f: body.f, ..inside };
        grows::lemma_body_yields(after, body.value);
        lemma_expr_kept(cx, inside.f, m.branches[t]);
        lemma_kept_twice(base, inside.ssa(), after.ssa());
        lemma_moved(base, inside, after);
        lemma_body_yields(base, after, body.value);
    }
}

proof fn lemma_ints(cx: Cx, m: Bodies, base: Ssa, s: St, on: Value, tree: Tree)
    requires
        tree is Ints,
        homed(base, s),
        ints_step(cx, m, s, on, tree).ok,
        fits(ints_step(cx, m, s, on, tree).s.ssa()),
    ensures
        homed(base, ints_step(cx, m, s, on, tree).s),
    decreases m.weight(), tree, 0nat, tree->Ints_next.len() + 1,
{
    let skipped = s.skipping(tree->Ints_next.len() == 1);
    lemma_local(base, s, skipped);
    lemma_ints_from(cx, m, base, skipped, on, tree, 0, skipped.make_reset());
}

/// A choice between two blocks that were just made, and on in the first.
proof fn lemma_chosen(base: Ssa, ssa: Ssa, checked: Ssa, value: Value)
    requires
        kept(base, ssa),
        ssa.wf(),
        ssa.blocks.len() + 2 <= usize::MAX,
        only_emits(ssa.new_block(0).new_block(0), checked),
    ensures
        kept(
            base,
            checked.select(
                value,
                ssa.next_block(),
                Block((ssa.blocks.len() + 1) as usize),
            ).switch_to_block(ssa.next_block()),
        ),
        within(base, Block((ssa.blocks.len() + 1) as usize)),
{
    let on_true = ssa.next_block();
    let on_false = Block((ssa.blocks.len() + 1) as usize);
    lemma_kept_new_block(base, ssa, 0);
    lemma_kept_new_block(base, ssa.new_block(0), 0);
    lemma_kept_emits(base, ssa.new_block(0).new_block(0), checked);
    lemma_kept_selected(base, checked, value, on_true, on_false);
    lemma_kept_switched(base, checked.select(value, on_true, on_false), on_true);
}

proof fn lemma_reset(base: Ssa, s: St, block: Block, point: Reset)
    requires
        homed(base, s),
        within(base, block),
    ensures
        homed(base, s.reset(block, point)),
{
    lemma_kept_switched(base, s.ssa(), block);
}

proof fn lemma_ints_from(
    cx: Cx,
    m: Bodies,
    base: Ssa,
    s: St,
    on: Value,
    tree: Tree,
    i: int,
    point: Reset,
)
    requires
        tree is Ints,
        homed(base, s),
        ints_from(cx, m, s, on, tree, i, point).ok,
        fits(ints_from(cx, m, s, on, tree, i, point).s.ssa()),
    ensures
        homed(base, ints_from(cx, m, s, on, tree, i, point).s),
    decreases m.weight(), tree, 0nat, tree->Ints_next.len() - i,
{
    let intsize = tree->intsize;
    let arms = tree->Ints_next;
    if 0 <= i < arms.len() {
        let (range, next) = arms[i];
        if range.end == range.con.max {
            lemma_next(cx, m, base, s, next);
        } else {
            let on_true = s.ssa().next_block();
            let on_false = Block((s.ssa().blocks.len() + 1) as usize);
            let blocks = s.ssa().new_block(0).new_block(0);
            let checked = range_check(blocks, on, intsize, range);
            lemma_range_checked(blocks, on, intsize, range);
            let value = crate::pat::range_checked(blocks, range);
            let inside = s.with_ssa(checked.select(value, on_true, on_false).switch_to_block(on_true));
            let walked = next_step(cx, m, inside, next);
            let back = walked.s.reset(on_false, point);
            let rest = ints_from(cx, m, back, on, tree, i + 1, point);
            // nothing that follows takes a block away, so the blocks can be counted here
            grows::lemma_selected(checked, value, on_true, on_false);
            grows::lemma_next(cx, m, inside, next);
            grows::lemma_ints_from(cx, m, back, on, tree, i + 1, point);
            lemma_chosen(base, s.ssa(), checked, value);
            lemma_moved(base, s, inside);
            lemma_next(cx, m, base, inside, next);
            lemma_reset(base, walked.s, on_false, point);
            lemma_ints_from(cx, m, base, back, on, tree, i + 1, point);
        }
    }
}

proof fn lemma_bools(cx: Cx, m: Bodies, base: Ssa, s: St, on: Value, tree: Tree)
    requires
        tree is Bools,
        homed(base, s),
        bools_step(cx, m, s, on, tree).ok,
        fits(bools_step(cx, m, s, on, tree).s.ssa()),
    ensures
        homed(base, bools_step(cx, m, s, on, tree).s),
    decreases m.weight(), tree, 0nat, 0nat,
{
    let arms = tree->Bools_0;
    let skipped = s.skipping(false);
    lemma_local(base, s, skipped);
    if arms.len() == 2 {
        let truthy = if arms[0].0 {
            arms[0]
        } else {
            arms[1]
        };
        let falsey = if arms[0].0 {
            arms[1]
        } else {
            arms[0]
        };
        let point = skipped.make_reset();
        let on_true = skipped.ssa().next_block();
        let on_false = Block((skipped.ssa().blocks.len() + 1) as usize);
        let blocks = skipped.ssa().new_block(0).new_block(0);
        let inside = skipped.with_ssa(blocks.select(on, on_true, on_false).switch_to_block(on_true));
        let first = next_step(cx, m, inside, truthy.1);
        let back = first.s.reset(on_false, point);
        let second = next_step(cx, m, back, falsey.1);
        grows::lemma_selected(blocks, on, on_true, on_false);
        grows::lemma_next(cx, m, inside, truthy.1);
        grows::lemma_next(cx, m, back, falsey.1);
        lemma_chosen(base, skipped.ssa(), blocks, on);
        lemma_moved(base, skipped, inside);
        lemma_next(cx, m, base, inside, truthy.1);
        lemma_reset(base, first.s, on_false, point);
        lemma_next(cx, m, base, back, falsey.1);
    }
}

proof fn lemma_sum(cx: Cx, m: Bodies, base: Ssa, s: St, on: Value, tree: Tree)
    requires
        tree is Sum,
        homed(base, s),
        sum_step(cx, m, s, on, tree).ok,
        fits(sum_step(cx, m, s, on, tree).s.ssa()),
    ensures
        homed(base, sum_step(cx, m, s, on, tree).s),
    decreases m.weight(), tree, 0nat, tree->Sum_next.len() + 1,
{
    let arms = tree->Sum_next;
    let skipped = s.skipping(arms.len() == 1);
    lemma_local(base, s, skipped);
    let oblock = skipped.ssa().current;
    let key = key_of(skipped.ssa().type_of(on));
    let fields = cx.types.fields_of(key->0);
    let read = skipped.ssa().emit(
        crate::ssa::Entry::Field { of: on, key: key->0, field: crate::key::RecordField(0) },
        MonoType::Int(crate::ssa::spec_tag_size()),
    ).emit(
        crate::ssa::Entry::Field { of: on, key: key->0, field: crate::key::RecordField(1) },
        fields[1],
    );
    let tag = skipped.ssa().next_value();
    let start = skipped.with_ssa(read);
    let data = skipped.ssa().second_value();
    lemma_local(base, skipped, start);
    let walked = sum_from(cx, m, start, oblock, data, tree, 0, Seq::empty());
    grows::lemma_jump_tabled(walked.s.ssa(), tag, walked.blocks);
    lemma_tabled(walked.s.ssa(), tag, walked.blocks);
    lemma_sum_from(cx, m, base, start, oblock, data, tree, 0, Seq::empty());
    let done = walked.s.with_ssa(walked.s.ssa().jump_table(tag, walked.blocks));
    lemma_kept_jump_tabled(base, walked.s.ssa(), tag, walked.blocks);
    lemma_moved(base, walked.s, done);
}

/// A jump into a block leaves the jump tables as they were.
proof fn lemma_entered_all(a: Ssa, blocks: Seq<Block>, i: int)
    requires
        0 <= i,
    ensures
        a.enter_all(blocks, i).targets == a.targets,
    decreases blocks.len() - i,
{
    if i < blocks.len() {
        lemma_entered_all(a.enter(blocks[i]), blocks, i + 1);
    }
}

/// A jump table is as long as the blocks that it was made of are many.
proof fn lemma_tabled(a: Ssa, on: Value, blocks: Seq<Block>)
    ensures
        a.jump_table(on, blocks).targets.len() == a.targets.len() + blocks.len(),
{
    let table = crate::ssa::Args { start: a.targets.len() as usize, len: blocks.len() as usize };
    let longer = Ssa { targets: a.targets + blocks, ..a };
    lemma_entered_all(longer.end(ControlFlow::JumpTable(on, table)), blocks, 0);
}

proof fn lemma_sum_from(
    cx: Cx,
    m: Bodies,
    base: Ssa,
    s: St,
    oblock: Block,
    data: Value,
    tree: Tree,
    i: int,
    blocks: Seq<Block>,
)
    requires
        tree is Sum,
        homed(base, s),
        within(base, oblock),
        forall|k: int| 0 <= k < blocks.len() ==> made_since(base, s.ssa(), #[trigger] blocks[k]),
        sum_from(cx, m, s, oblock, data, tree, i, blocks).ok,
        fits(sum_from(cx, m, s, oblock, data, tree, i, blocks).s.ssa()),
    ensures
        homed(base, sum_from(cx, m, s, oblock, data, tree, i, blocks).s),
        forall|k: int|
            0 <= k < sum_from(cx, m, s, oblock, data, tree, i, blocks).blocks.len()
                ==> made_since(
                base,
                sum_from(cx, m, s, oblock, data, tree, i, blocks).s.ssa(),
                #[trigger] sum_from(cx, m, s, oblock, data, tree, i, blocks).blocks[k],
            ),
    decreases m.weight(), tree, 0nat, tree->Sum_next.len() - i,
{
    let sum = tree->sum;
    let params = tree->params;
    let arms = tree->Sum_next;
    if 0 <= i < arms.len() {
        let (var, next) = arms[i];
        let vblock = s.ssa().next_block();
        let inside = s.enter_new_block();
        let point = inside.make_reset();
        let raw = variant_types(cx, sum, var);
        let first = inside.ssa().entries.len() as int;
        lemma_payload_read(cx, inside.ssa(), data, raw->0, params, 0, 0);
        let read = inside.with_ssa(payload_read(cx, inside.ssa(), data, raw->0, params, 0, 0)).queued(
            crate::pat::results(first, raw->0.len() as int),
        );
        let more = blocks.push(vblock);
        let walked = next_step(cx, m, read, next);
        let back = walked.s.reset(oblock, point);
        // nothing that follows takes a block away, so the blocks can be counted here
        grows::lemma_next(cx, m, read, next);
        grows::lemma_sum_from(cx, m, back, oblock, data, tree, i + 1, more);
        lemma_kept_new_block(base, s.ssa(), 0);
        lemma_kept_switched(base, s.ssa().new_block(0), vblock);
        lemma_moved(base, s, inside);
        lemma_local(base, inside, read);
        lemma_next(cx, m, base, read, next);
        lemma_reset(base, walked.s, oblock, point);
        assert forall|k: int| 0 <= k < more.len() implies made_since(
            base,
            back.ssa(),
            #[trigger] more[k],
        ) by {
            if k < blocks.len() {
                assert(more[k] == blocks[k]);
            }
        }
        lemma_sum_from(cx, m, base, back, oblock, data, tree, i + 1, more);
    }
}

proof fn lemma_list(cx: Cx, m: Bodies, base: Ssa, s: St, on: Value, tree: Tree)
    requires
        tree is List,
        homed(base, s),
        list_step(cx, m, s, on, tree).ok,
        fits(list_step(cx, m, s, on, tree).s.ssa()),
    ensures
        homed(base, list_step(cx, m, s, on, tree).s),
    decreases m.weight(), tree, 0nat, 0nat,
{
    let ty = tree->ty;
    let elem = tree->elem;
    let arms = tree->List_next;
    let skipped = s.skipping(false);
    lemma_local(base, s, skipped);
    let oblock = skipped.ssa().current;
    let listmt = cx.tmap.applied(ty);
    let innermt = cx.tmap.applied(elem);
    let found = cx.mir.implementation(cx.info.listable, seq![innermt], listmt);
    let imp = crate::key::Impl(found->0 as u32);
    let generics = crate::mir::settled(
        cx.mir.impls[found->0].applies(cx.info.listable, seq![innermt], listmt)->0,
    );
    let split = crate::mir::FuncOrigin::Method(imp, cx.info.listable_split);
    let ret = cx.returns_of(split, generics);
    let mfunc = skipped.f.mfunc_of(split, Some(listmt), generics);
    let asked = St { f: skipped.f.call_to_mfunc(cx, split, Some(listmt), generics), ..skipped };
    lemma_local(base, skipped, asked);
    let maybe = asked.ssa().next_value();
    let tag = asked.ssa().second_value();
    let data = asked.ssa().third_value();
    let key = key_of(ret);
    let largest = (cx.types.bits_from(key->0, 0) - crate::ssa::spec_tag_size().bitsize.0) as u32;
    let read = asked.ssa().called(mfunc, seq![on], ret).emit(
        crate::ssa::Entry::Field { of: maybe, key: key->0, field: crate::key::RecordField(0) },
        MonoType::Int(crate::ssa::spec_tag_size()),
    ).emit(
        crate::ssa::Entry::Field { of: maybe, key: key->0, field: crate::key::RecordField(1) },
        MonoType::SumDataCast { largest },
    ).emit(
        crate::ssa::Entry::Compare(
            crate::ssa::Comparison::Equal,
            tag,
            Value::spec_maybe_just(),
            crate::ssa::spec_tag_size(),
        ),
        crate::ssa::spec_truth(),
    );
    let cons = arm_of(arms, crate::tree::spec_list_cons(), 0);
    let nil = arm_of(arms, crate::tree::spec_list_nil(), 0);
    if cons is Some && nil is Some && 0 <= cons->0 < arms.len() && 0 <= nil->0 < arms.len() {
        let con_block = read.next_block();
        let tested = asked.with_ssa(read);
        let in_cons = tested.enter_new_block();
        let cons_point = in_cons.make_reset();
        let taken = in_cons.with_ssa(
            in_cons.ssa().emit(
                crate::ssa::Entry::SumField { of: data, offset: crate::ssa::BitOffset(0) },
                innermt,
            ).emit(
                crate::ssa::Entry::SumField {
                    of: data,
                    offset: crate::ssa::BitOffset(cx.types.bits(innermt) as u32),
                },
                listmt,
            ),
        ).queued(seq![in_cons.ssa().next_value(), in_cons.ssa().second_value()]);
        let first = next_step(cx, m, taken, arms[cons->0].1);
        let back = first.s.reset(oblock, cons_point);
        let nil_block = back.ssa().next_block();
        let in_nil = back.enter_new_block();
        let nil_point = in_nil.make_reset();
        let queued = in_nil.queued(Seq::empty());
        let second = next_step(cx, m, queued, arms[nil->0].1);
        let done = second.s.reset(oblock, nil_point);
        let is_just = Value::V(crate::ssa::V((asked.ssa().entries.len() + 3) as usize));
        let chosen = done.with_ssa(done.ssa().select(is_just, con_block, nil_block));
        // nothing that follows takes a block away, so the blocks can be counted here
        grows::lemma_selected(done.ssa(), is_just, con_block, nil_block);
        grows::lemma_next(cx, m, queued, arms[nil->0].1);
        grows::lemma_next(cx, m, taken, arms[cons->0].1);

        lemma_local(base, asked, tested);
        lemma_kept_new_block(base, tested.ssa(), 0);
        lemma_kept_switched(base, tested.ssa().new_block(0), con_block);
        lemma_moved(base, tested, in_cons);
        lemma_local(base, in_cons, taken);
        lemma_next(cx, m, base, taken, arms[cons->0].1);
        lemma_reset(base, first.s, oblock, cons_point);
        lemma_kept_new_block(base, back.ssa(), 0);
        lemma_kept_switched(base, back.ssa().new_block(0), nil_block);
        lemma_moved(base, back, in_nil);
        lemma_local(base, in_nil, queued);
        lemma_next(cx, m, base, queued, arms[nil->0].1);
        lemma_reset(base, second.s, oblock, nil_point);
        lemma_kept_selected(base, done.ssa(), is_just, con_block, nil_block);
        lemma_moved(base, done, chosen);
    }
}

/// A choice between a block that is made for it, in which the walk goes
/// on, and another.
proof fn lemma_pass_or(base: Ssa, before: St, s: St, value: Value, falsely: Block)
    requires
        homed(base, before),
        only_emits(before.ssa(), s.ssa()),
        s.p.expressions == before.p.expressions,
        s.p.continuation_block == before.p.continuation_block,
        s.ssa().wf(),
        s.ssa().blocks.len() < usize::MAX,
        made_since(base, s.ssa(), falsely),
    ensures
        homed(base, s.pass_or(value, falsely)),
{
    let fresh = s.ssa().next_block();
    lemma_local(base, before, s);
    lemma_kept_new_block(base, s.ssa(), 0);
    lemma_kept_selected(base, s.ssa().new_block(0), value, fresh, falsely);
    lemma_kept_switched(base, s.ssa().new_block(0).select(value, fresh, falsely), fresh);
}

proof fn lemma_check(
    cx: Cx,
    base: Ssa,
    s: St,
    on: Value,
    falsely: Block,
    check: StrCheck,
    is_last: bool,
)
    requires
        homed(base, s),
        made_since(base, s.ssa(), falsely),
        check_step(cx, s, on, falsely, check, is_last).ok,
        fits(check_step(cx, s, on, falsely, check, is_last).s.ssa()),
    ensures
        homed(base, check_step(cx, s, on, falsely, check, is_last).s),
{
    let info = cx.info;
    let ssa = s.ssa();
    match check {
        StrCheck::Literal(key) => {
            let len = Value::Int(cx.mir.read_only[key.0 as int] as i128, crate::pat::spec_word());
            let made = ssa.called(
                info.string_from_raw,
                seq![Value::ReadOnly(key), len],
                info.string,
            );
            let literal = ssa.next_value();
            if is_last {
                let held = made.called(
                    info.string_equals,
                    seq![on, literal],
                    crate::ssa::spec_truth(),
                );
                lemma_pass_or(base, s, s.with_ssa(held).seen(literal), made.next_value(), falsely);
            } else {
                let cut = made.halved(
                    info.string_split_at,
                    seq![on, len],
                    info.string_pair,
                    info.string,
                    info.string,
                );
                let held = cut.called(
                    info.string_equals,
                    seq![made.second_value(), literal],
                    crate::ssa::spec_truth(),
                );
                lemma_pass_or(base, s, s.with_ssa(held).seen(literal), cut.next_value(), falsely);
            }
        },
        StrCheck::Take(bytes) => {
            let at = Value::Int(bytes as i128, crate::pat::spec_word());
            let cut = ssa.halved(
                info.string_split_at,
                seq![on, at],
                info.string_pair,
                info.string,
                info.string,
            );
            let counted = cut.called(
                info.string_len,
                seq![ssa.second_value()],
                MonoType::Int(crate::pat::spec_word()),
            );
            let held = counted.emit(
                crate::ssa::Entry::Compare(
                    crate::ssa::Comparison::Equal,
                    at,
                    cut.next_value(),
                    crate::pat::spec_word(),
                ),
                crate::ssa::spec_truth(),
            );
            lemma_pass_or(
                base,
                s,
                s.with_ssa(held).seen(ssa.second_value()),
                counted.next_value(),
                falsely,
            );
        },
        StrCheck::TakeExcess => {
            lemma_local(base, s, s.seen(on));
        },
        StrCheck::TakeByte => {
            let cut = ssa.halved(
                info.string_split_first,
                seq![on],
                info.byte_and_string,
                MonoType::Int(crate::pat::spec_byte()),
                info.string,
            );
            let held = cut.emit(
                crate::ssa::Entry::Compare(
                    crate::ssa::Comparison::Equal,
                    ssa.second_value(),
                    Value::Int(0, crate::pat::spec_byte()),
                    crate::pat::spec_byte(),
                ),
                crate::ssa::spec_truth(),
            );
            lemma_pass_or(
                base,
                s,
                s.with_ssa(held).seen(ssa.second_value()),
                cut.next_value(),
                falsely,
            );
        },
        StrCheck::TakeWhileLocal(_) => {
            let next = check_step(cx, s, on, falsely, check, is_last).s;
            lemma_local(base, s, next);
        },
        StrCheck::TakeWhileFunc(_) => {
            let next = check_step(cx, s, on, falsely, check, is_last).s;
            lemma_local(base, s, next);
        },
        StrCheck::TakeWhileLambda(lambda) => {
            let built = s.dyn_lambda(cx, lambda);
            lemma_local(base, s, built);
            let next = check_step(cx, s, on, falsely, check, is_last).s;
            lemma_local(base, built, next);
        },
    }
}

proof fn lemma_checks(
    cx: Cx,
    m: Bodies,
    base: Ssa,
    s: St,
    on: Value,
    falsely: Block,
    checks: Seq<StrCheck>,
    i: int,
)
    requires
        homed(base, s),
        made_since(base, s.ssa(), falsely),
        checks_from(cx, s, on, falsely, checks, i).ok,
        fits(checks_from(cx, s, on, falsely, checks, i).s.ssa()),
    ensures
        homed(base, checks_from(cx, s, on, falsely, checks, i).s),
    decreases checks.len() - i,
{
    if 0 <= i < checks.len() {
        let here = check_step(cx, s, on, falsely, checks[i], i == checks.len() - 1);
        grows::lemma_checks(cx, m, here.s, here.on, falsely, checks, i + 1);
        grows::lemma_check(cx, m, s, on, falsely, checks[i], i == checks.len() - 1);
        lemma_check(cx, base, s, on, falsely, checks[i], i == checks.len() - 1);
        lemma_checks(cx, m, base, here.s, here.on, falsely, checks, i + 1);
    }
}

proof fn lemma_string(cx: Cx, m: Bodies, base: Ssa, s: St, on: Value, tree: Tree)
    requires
        tree is String,
        homed(base, s),
        string_step(cx, m, s, on, tree).ok,
        fits(string_step(cx, m, s, on, tree).s.ssa()),
    ensures
        homed(base, string_step(cx, m, s, on, tree).s),
    decreases m.weight(), tree, 0nat, tree->String_next.len() + 1,
{
    let start = St { p: Pat { map: s.p.map.drop_last(), ..s.p }, ..s }.skipping(false);
    lemma_local(base, s, start);
    lemma_string_from(cx, m, base, start, on, tree, 0, start.make_reset());
}

proof fn lemma_string_from(
    cx: Cx,
    m: Bodies,
    base: Ssa,
    s: St,
    on: Value,
    tree: Tree,
    i: int,
    point: Reset,
)
    requires
        tree is String,
        homed(base, s),
        string_from(cx, m, s, on, tree, i, point).ok,
        fits(string_from(cx, m, s, on, tree, i, point).s.ssa()),
    ensures
        homed(base, string_from(cx, m, s, on, tree, i, point).s),
    decreases m.weight(), tree, 0nat, tree->String_next.len() - i,
{
    match tree {
        Tree::String { next: arms, wildcard_next } => {
            if 0 <= i < arms.len() {
                let falsely = s.ssa().next_block();
                let made = s.with_ssa(s.ssa().new_block(0));
                let checked = checks_from(cx, made, on, falsely, arms[i].0, 0);
                let walked = next_step(cx, m, checked.s, arms[i].1);
                let back = walked.s.reset(falsely, point);
                // nothing that follows takes a block away, so the blocks can be counted here
                grows::lemma_checks(cx, m, made, on, falsely, arms[i].0, 0);
                grows::lemma_next(cx, m, checked.s, arms[i].1);
                grows::lemma_string_from(cx, m, back, on, tree, i + 1, point);
                lemma_kept_new_block(base, s.ssa(), 0);
                lemma_moved(base, s, made);
                lemma_checks(cx, m, base, made, on, falsely, arms[i].0, 0);
                lemma_next(cx, m, base, checked.s, arms[i].1);
                lemma_reset(base, walked.s, falsely, point);
                lemma_string_from(cx, m, base, back, on, tree, i + 1, point);
            } else {
                lemma_next(cx, m, base, s, *wildcard_next);
            }
        },
        _ => {},
    }
}

/// Whether block `a` may hand over to block `b`: it ends in a jump to `b`,
/// in a choice of which `b` is one side, or in a jump table that holds `b`.
pub open spec fn leads(ssa: Ssa, a: int, b: int) -> bool {
    0 <= a < ssa.blocks.len() && match ssa.blocks[a].flow {
        ControlFlow::Open => false,
        ControlFlow::Jump(to, _) => to.0 == b,
        ControlFlow::Select { on_true, on_false, .. } => on_true.0 == b || on_false.0 == b,
        ControlFlow::JumpTable(_, table) => exists|i: int|
            table.start <= i < table.start + table.len && i < ssa.targets.len() && (
            #[trigger] ssa.targets[i]).0 == b,
        ControlFlow::Return(_) => false,
    }
}

/// A way through the blocks: each block of `path` may hand over to the next.
pub open spec fn way(ssa: Ssa, path: Seq<int>) -> bool {
    forall|i: int| 0 <= i < path.len() - 1 ==> leads(ssa, #[trigger] path[i], path[i + 1])
}

/// Whether the blocks that are ended lead to blocks that there are, and
/// their jump tables are written out; nothing is asked of the block in
/// which lowering goes on.
pub open spec fn sealed(ssa: Ssa) -> bool {
    forall|a: int|
        0 <= a < ssa.blocks.len() && a != ssa.current.0 ==> match (#[trigger] ssa.blocks[a]).flow {
            ControlFlow::Open => true,
            ControlFlow::Jump(to, _) => to.0 < ssa.blocks.len(),
            ControlFlow::Select { on_true, on_false, .. } => on_true.0 < ssa.blocks.len()
                && on_false.0 < ssa.blocks.len(),
            ControlFlow::JumpTable(_, table) => table.start + table.len <= ssa.targets.len()
                && forall|i: int|
                table.start <= i < table.start + table.len ==> (#[trigger] ssa.targets[i]).0
                    < ssa.blocks.len(),
            ControlFlow::Return(_) => true,
        }
}

/// Where lowering went on from `base`, every way from a block that was
/// there into a block that was made since leads through the block in which
/// lowering went on at `base`.
pub proof fn lemma_ways_lead_through(base: Ssa, after: Ssa, path: Seq<int>)
    requires
        sealed(base),
        kept(base, after),
        way(after, path),
        path.len() >= 1,
        0 <= path[0] < base.blocks.len(),
        path.last() >= base.blocks.len(),
    ensures
        path.contains(base.current.0 as int),
    decreases path.len(),
{
    if path.len() >= 2 {
        let before = path.drop_last();
        let a = before.last();
        let b = path.last();
        assert(a == path[path.len() - 2]);
        assert(leads(after, a, b));
        if a >= base.blocks.len() {
            assert forall|i: int| 0 <= i < before.len() - 1 implies leads(
                after,
                #[trigger] before[i],
                before[i + 1],
            ) by {
                assert(before[i] == path[i] && before[i + 1] == path[i + 1]);
            }
            lemma_ways_lead_through(base, after, before);
            let at = choose|at: int| 0 <= at < before.len() && before[at] == base.current.0 as int;
            assert(path[at] == base.current.0 as int);
        } else if a == base.current.0 {
            assert(path[path.len() - 2] == base.current.0 as int);
        } else {
            assert(after.blocks[a].flow == base.blocks[a].flow);
            match base.blocks[a].flow {
                ControlFlow::JumpTable(_, table) => {
                    let i = choose|i: int|
                        table.start <= i < table.start + table.len && i < after.targets.len() && (
                        #[trigger] after.targets[i]).0 == b;
                    assert(after.targets[i] == base.targets[i]);
                    assert(base.targets[i].0 < base.blocks.len());
                },
                _ => {},
            }
            assert(false);
        }
    }
}

/// The blocks of a function that has only its entry block all end well.
pub proof fn lemma_start_is_sound(params: u32)
    ensures
        sound(Ssa::start(params)),
        Ssa::start(params).wf(),
{
}

/// Blocks that all end well are sealed.
pub proof fn lemma_sound_is_sealed(ssa: Ssa)
    requires
        sound(ssa),
    ensures
        sealed(ssa),
{
    assert forall|a: int| 0 <= a < ssa.blocks.len() && a != ssa.current.0 implies match (
    #[trigger] ssa.blocks[a]).flow {
        ControlFlow::Open => true,
        ControlFlow::Jump(to, _) => to.0 < ssa.blocks.len(),
        ControlFlow::Select { on_true, on_false, .. } => on_true.0 < ssa.blocks.len() && on_false.0
            < ssa.blocks.len(),
        ControlFlow::JumpTable(_, table) => table.start + table.len <= ssa.targets.len()
            && forall|i: int|
            table.start <= i < table.start + table.len ==> (#[trigger] ssa.targets[i]).0
                < ssa.blocks.len(),
        ControlFlow::Return(_) => true,
    } by {
        assert(ends_well(ssa, ssa.blocks[a].flow));
    }
}

/// Where lowering went on from `base`, a block that was made since hands
/// over to blocks that were made since only; and so does the block in
/// which lowering went on at `base`, if it was ended since.
pub proof fn lemma_ways_stay_inside(base: Ssa, after: Ssa, a: int, b: int)
    requires
        kept(base, after),
        leads(after, a, b),
        a >= base.blocks.len() || (base.wf() && a == base.current.0 && after.blocks[a].flow
            != base.blocks[a].flow),
    ensures
        b >= base.blocks.len(),
{
    assert(ends_inside(base, after.blocks[a].flow));
}

/// A match is entered through the block in which it starts. Its lowering
/// ends no other block that was there before, and where the match has a
/// test with more than one arm, the block in which its branches meet, and
/// in which lowering goes on, was made by it. So every way from a block
/// that was there before into a block that the match made leads through
/// the block in which the match started.
pub proof fn lemma_match_is_entered_where_it_starts(
    cx: Cx,
    m: Bodies,
    f: Func,
    on: Value,
    tree: Tree,
    path: Seq<int>,
)
    requires
        run_step(cx, m, St { f, p: Pat::start(m.branches.len() as nat) }, on, tree).ok,
        fits(run_step(cx, m, St { f, p: Pat::start(m.branches.len() as nat) }, on, tree).f.ssa),
        sealed(f.ssa),
        way(run_step(cx, m, St { f, p: Pat::start(m.branches.len() as nat) }, on, tree).f.ssa, path),
        path.len() >= 1,
        0 <= path[0] < f.ssa.blocks.len(),
        path.last() >= f.ssa.blocks.len(),
    ensures
        path.contains(f.ssa.current.0 as int),
{
    let s = St { f, p: Pat::start(m.branches.len() as nat) };
    lemma_run(cx, m, s, on, tree);
    lemma_ways_lead_through(f.ssa, run_step(cx, m, s, on, tree).f.ssa, path);
}

/// A match is left through none of the blocks that it makes. Every block
/// that was there before but the one in which the match starts ends as it
/// did; every block that the match made hands over to blocks that the
/// match made only; where the match has a test with more than one arm,
/// lowering goes on in such a block, the one in which its branches meet;
/// and if every block ended in blocks that there are before the match, so
/// it is after.
pub proof fn lemma_match_is_not_left(cx: Cx, m: Bodies, f: Func, on: Value, tree: Tree)
    requires
        run_step(cx, m, St { f, p: Pat::start(m.branches.len() as nat) }, on, tree).ok,
        fits(run_step(cx, m, St { f, p: Pat::start(m.branches.len() as nat) }, on, tree).f.ssa),
    ensures
        ({
            let s = St { f, p: Pat::start(m.branches.len() as nat) };
            let walked = tree_step(cx, m, s, on, tree).s;
            let run = run_step(cx, m, s, on, tree).f.ssa;
            &&& forall|a: int|
                0 <= a < f.ssa.blocks.len() && a != f.ssa.current.0 ==> (#[trigger] run.blocks[a]).flow
                    == f.ssa.blocks[a].flow
            &&& forall|a: int, b: int|
                a >= f.ssa.blocks.len() && #[trigger] leads(run, a, b) ==> b >= f.ssa.blocks.len()
            &&& !walked.p.can_skip ==> f.ssa.blocks.len() <= run.current.0 < run.blocks.len()
            &&& sound(f.ssa) ==> sound(run)
        }),
{
    let s = St { f, p: Pat::start(m.branches.len() as nat) };
    let run = run_step(cx, m, s, on, tree).f.ssa;
    lemma_run(cx, m, s, on, tree);
    assert forall|a: int, b: int| a >= f.ssa.blocks.len() && #[trigger] leads(run, a, b) implies b
        >= f.ssa.blocks.len() by {
        lemma_ways_stay_inside(f.ssa, run, a, b);
    }
}

} // verus!
