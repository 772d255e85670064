//! Lowering takes no block and no jump table away. The proof, step by step
//! along the walk.

use crate::key::Bind;
use crate::lower::{Cx, Func};
use crate::mir::{bodies_size, expr_size, Expr};
use crate::pat::{
    arm_of, bind_params, bools_step, branch_step, check_step, checks_from, continuation,
    fields_read, fields_step, ints_from, ints_step, key_of, list_step, lower_all, lower_expr,
    match_value, next_step, payload_read, range_check, run_step, string_from, string_step,
    sum_from, sum_step, tail_step, tree_step, variant_types, Bodies, Pat, Reset, St,
};
use crate::range::Range;
use crate::ssa::{Block, Ssa, Value};
use crate::tree::{StrCheck, Tail, Tree};
use crate::types::{IntSize, MonoType, MonoTypeKey, Type};
use vstd::prelude::*;

verus! {

/// No block and no jump table has gone, and a block that was ended is ended.
pub open spec fn grown(before: Ssa, after: Ssa) -> bool {
    &&& before.blocks.len() <= after.blocks.len()
    &&& before.targets.len() <= after.targets.len()
    &&& forall|b: int|
        0 <= b < before.blocks.len() && !(before.blocks[b].flow is Open) ==> !((
        #[trigger] after.blocks[b]).flow is Open)
}

pub(crate) proof fn lemma_grown_twice(a: Ssa, b: Ssa, c: Ssa)
    requires
        grown(a, b),
        grown(b, c),
    ensures
        grown(a, c),
{
}

pub(crate) proof fn lemma_entered(ssa: Ssa, block: Block)
    ensures
        grown(ssa, ssa.enter(block)),
        ssa.enter(block).blocks.len() == ssa.blocks.len(),
{
}

pub(crate) proof fn lemma_entered_all(ssa: Ssa, blocks: Seq<Block>, i: int)
    requires
        0 <= i,
    ensures
        grown(ssa, ssa.enter_all(blocks, i)),
    decreases blocks.len() - i,
{
    if i < blocks.len() {
        lemma_entered(ssa, blocks[i]);
        lemma_entered_all(ssa.enter(blocks[i]), blocks, i + 1);
        lemma_grown_twice(ssa, ssa.enter(blocks[i]), ssa.enter(blocks[i]).enter_all(blocks, i + 1));
    }
}

pub(crate) proof fn lemma_jumped(ssa: Ssa, block: Block, params: Seq<Value>)
    requires
        ssa.wf(),
    ensures
        grown(ssa, ssa.jump(block, params)),
        ssa.jump(block, params).blocks.len() == ssa.blocks.len(),
        ssa.jump(block, params).current == ssa.current,
{
    let ended = ssa.with_args(params).end(crate::ssa::ControlFlow::Jump(block, ssa.next_args(params)));
    lemma_entered(ended, block);
}

pub(crate) proof fn lemma_selected(ssa: Ssa, value: Value, on_true: Block, on_false: Block)
    requires
        ssa.wf(),
    ensures
        grown(ssa, ssa.select(value, on_true, on_false)),
        ssa.select(value, on_true, on_false).blocks.len() == ssa.blocks.len(),
        ssa.select(value, on_true, on_false).current == ssa.current,
{
    let ended = ssa.end(crate::ssa::ControlFlow::Select { value, on_true, on_false });
    lemma_entered(ended, on_true);
    lemma_entered(ended.enter(on_true), on_false);
    lemma_grown_twice(ended, ended.enter(on_true), ended.enter(on_true).enter(on_false));
}

pub(crate) proof fn lemma_jump_tabled(ssa: Ssa, on: Value, blocks: Seq<Block>)
    requires
        ssa.wf(),
    ensures
        grown(ssa, ssa.jump_table(on, blocks)),
{
    let table = crate::ssa::Args { start: ssa.targets.len() as usize, len: blocks.len() as usize };
    let ended = Ssa { targets: ssa.targets + blocks, ..ssa }.end(
        crate::ssa::ControlFlow::JumpTable(on, table),
    );
    lemma_entered_all(ended, blocks, 0);
}

pub(crate) proof fn lemma_fields_read(ssa: Ssa, on: Value, key: MonoTypeKey, fields: Seq<MonoType>, from: int)
    requires
        0 <= from,
    ensures
        fields_read(ssa, on, key, fields, from).blocks == ssa.blocks,
        fields_read(ssa, on, key, fields, from).current == ssa.current,
        fields_read(ssa, on, key, fields, from).targets == ssa.targets,
    decreases fields.len() - from,
{
    if from < fields.len() {
        lemma_fields_read(
            ssa.emit(
                crate::ssa::Entry::Field {
                    of: on,
                    key,
                    field: crate::key::RecordField(from as u32),
                },
                fields[from],
            ),
            on,
            key,
            fields,
            from + 1,
        );
    }
}

pub(crate) proof fn lemma_payload_read(
    cx: Cx,
    ssa: Ssa,
    data: Value,
    raw: Seq<Type>,
    params: Seq<Type>,
    from: int,
    offset: nat,
)
    requires
        0 <= from,
    ensures
        payload_read(cx, ssa, data, raw, params, from, offset).blocks == ssa.blocks,
        payload_read(cx, ssa, data, raw, params, from, offset).current == ssa.current,
        payload_read(cx, ssa, data, raw, params, from, offset).targets == ssa.targets,
    decreases raw.len() - from,
{
    if from < raw.len() {
        let ty = cx.tmap.applied(crate::mono::instantiated(raw[from], params));
        lemma_payload_read(
            cx,
            ssa.emit(
                crate::ssa::Entry::SumField {
                    of: data,
                    offset: crate::ssa::BitOffset(offset as u32),
                },
                ty,
            ),
            data,
            raw,
            params,
            from + 1,
            offset + cx.types.bits(ty),
        );
    }
}

pub(crate) proof fn lemma_params_bound(s: St, block: Block, table: Seq<(Bind, usize)>, from: int)
    requires
        0 <= from,
        s.ssa().has(block),
    ensures
        ({
            let bound = bind_params(s, block, table, from);
            &&& bound.p == s.p
            &&& bound.f.funcs == s.f.funcs
            &&& bound.ssa().current == s.ssa().current
            &&& bound.ssa().blocks.len() == s.ssa().blocks.len()
            &&& bound.ssa().targets == s.ssa().targets
            &&& grown(s.ssa(), bound.ssa())
        }),
    decreases table.len() - from,
{
    if from < table.len() {
        let (bind, depth) = table[from];
        let ty = s.ssa().type_of(s.p.map[depth as int]);
        let next = St {
            f: Func {
                ssa: s.ssa().add_block_param(block, ty),
                binds: s.f.binds.insert(bind.0, s.ssa().next_value()),
                ..s.f
            },
            ..s
        };
        assert(grown(s.ssa(), next.ssa()));
        lemma_params_bound(next, block, table, from + 1);
        lemma_grown_twice(s.ssa(), next.ssa(), bind_params(next, block, table, from + 1).ssa());
    }
}

/// The lowering of an expression takes no block away.
pub proof fn lemma_expr_grows(cx: Cx, f: Func, e: Expr)
    requires
        lower_expr(cx, f, e).ok,
    ensures
        grown(f.ssa, lower_expr(cx, f, e).f.ssa),
    decreases expr_size(e), Tree::End(Tail::Poison), 0nat, 0nat,
{
    reveal(crate::pat::cast_lowered);
    reveal(crate::pat::compare_lowered);
    reveal(crate::pat::num_lowered);
    reveal(crate::pat::access_lowered);
    reveal(crate::pat::write_lowered);
    reveal(crate::pat::size_lowered);
    reveal(crate::pat::address_lowered);
    reveal(crate::pat::record_lowered);
    reveal(crate::pat::call_lowered);
    reveal(crate::pat::deref_lowered);
    reveal(crate::pat::tuple_lowered);
    reveal(crate::pat::local_call_lowered);
    reveal(crate::pat::closure_called);
    reveal(crate::pat::tupled);
    reveal(crate::pat::lambda_call_lowered);
    match e {
        Expr::IntCast(inner, _, _) => {
            lemma_expr_grows(cx, f, *inner);
        },
        Expr::Compare(_, left, right) => {
            lemma_expr_grows(cx, f, *left);
            let l = lower_expr(cx, f, *left);
            lemma_expr_grows(cx, l.f, *right);
            lemma_grown_twice(f.ssa, l.f.ssa, lower_expr(cx, l.f, *right).f.ssa);
        },
        Expr::Num(_, left, right) => {
            lemma_expr_grows(cx, f, *left);
            let l = lower_expr(cx, f, *left);
            lemma_expr_grows(cx, l.f, *right);
            lemma_grown_twice(f.ssa, l.f.ssa, lower_expr(cx, l.f, *right).f.ssa);
        },
        Expr::Access(object, _, _) => {
            lemma_expr_grows(cx, f, *object);
        },
        Expr::Write(pointer, value) => {
            lemma_expr_grows(cx, f, *pointer);
            let p = lower_expr(cx, f, *pointer);
            lemma_expr_grows(cx, p.f, *value);
            lemma_grown_twice(f.ssa, p.f.ssa, lower_expr(cx, p.f, *value).f.ssa);
        },
        Expr::Record(_, fields) => {
            lemma_fields_grow(cx, f, fields, 0, Seq::empty());
            let given = crate::pat::lower_fields(cx, f, fields, 0, Seq::empty());
            lemma_grown_twice(f.ssa, given.f.ssa, lower_expr(cx, f, e).f.ssa);
        },
        Expr::Deref(inner) => {
            lemma_expr_grows(cx, f, *inner);
        },
        Expr::Tuple(elems) => {
            lemma_all_grow(cx, f, elems, 0, Seq::empty());
        },
        Expr::CallLocal(_, params) => {
            lemma_all_grow(cx, f, params, 0, Seq::empty());
        },
        Expr::CallLambda(_, params) => {
            lemma_all_grow(cx, f, params, 0, Seq::empty());
        },
        Expr::CallFunc(func, params) => {
            lemma_all_grow(cx, f, params, 0, Seq::empty());
            let args = lower_all(cx, f, params, 0, Seq::empty());
            lemma_grown_twice(f.ssa, args.f.ssa, lower_expr(cx, f, e).f.ssa);
        },
        Expr::Match(on, tree, branches, predecessors) => {
            lemma_expr_grows(cx, f, *on);
            let on = lower_expr(cx, f, *on);
            let m = Bodies { branches, predecessors: predecessors@ };
            let s = St { f: on.f, p: Pat::start(branches.len() as nat) };
            lemma_run_grows(cx, m, s, on.value, tree@);
            lemma_grown_twice(f.ssa, on.f.ssa, run_step(cx, m, s, on.value, tree@).f.ssa);
        },
        _ => {},
    }
}

/// The same of expressions lowered one after the other.
pub proof fn lemma_all_grow(cx: Cx, f: Func, exprs: Vec<Expr>, from: int, before: Seq<Value>)
    requires
        lower_all(cx, f, exprs, from, before).ok,
    ensures
        grown(f.ssa, lower_all(cx, f, exprs, from, before).f.ssa),
    decreases bodies_size(exprs, from), Tree::End(Tail::Poison), 1nat, 0nat,
{
    if 0 <= from < exprs.len() && expr_size(exprs[from]) >= 1 {
        lemma_expr_grows(cx, f, exprs[from]);
        let here = lower_expr(cx, f, exprs[from]);
        lemma_all_grow(cx, here.f, exprs, from + 1, before.push(here.value));
        lemma_grown_twice(
            f.ssa,
            here.f.ssa,
            lower_all(cx, here.f, exprs, from + 1, before.push(here.value)).f.ssa,
        );
    }
}

/// The same of the fields of a record.
pub proof fn lemma_fields_grow(
    cx: Cx,
    f: Func,
    fields: Vec<(crate::key::RecordField, Expr)>,
    from: int,
    before: Seq<Value>,
)
    requires
        crate::pat::lower_fields(cx, f, fields, from, before).ok,
    ensures
        grown(f.ssa, crate::pat::lower_fields(cx, f, fields, from, before).f.ssa),
    decreases crate::mir::fields_size(fields, from), Tree::End(Tail::Poison), 1nat, 0nat,
{
    if 0 <= from < fields.len() && expr_size(fields[from].1) >= 1 {
        lemma_expr_grows(cx, f, fields[from].1);
        let here = lower_expr(cx, f, fields[from].1);
        lemma_fields_grow(cx, here.f, fields, from + 1, before.push(here.value));
        lemma_grown_twice(
            f.ssa,
            here.f.ssa,
            crate::pat::lower_fields(cx, here.f, fields, from + 1, before.push(here.value)).f.ssa,
        );
    }
}

/// The lowering of a match takes no block away.
pub proof fn lemma_run_grows(cx: Cx, m: Bodies, s: St, on: Value, tree: Tree)
    requires
        run_step(cx, m, s, on, tree).ok,
    ensures
        grown(s.ssa(), run_step(cx, m, s, on, tree).f.ssa),
    decreases m.weight(), tree, 5nat, 0nat,
{
    lemma_tree(cx, m, s, on, tree);
    let walked = tree_step(cx, m, s, on, tree);
    lemma_grown_twice(s.ssa(), walked.s.ssa(), match_value(walked).f.ssa);
}

/// The walk of a decision tree takes no block away.
pub proof fn lemma_tree(cx: Cx, m: Bodies, s: St, on: Value, tree: Tree)
    requires
        tree_step(cx, m, s, on, tree).ok,
    ensures
        grown(s.ssa(), tree_step(cx, m, s, on, tree).s.ssa()),
    decreases m.weight(), tree, 1nat, 0nat,
{
    let seen = s.seen(on);
    assert(grown(s.ssa(), seen.ssa()));
    match tree {
        Tree::Record { next } => lemma_fields(cx, m, seen, on, *next),
        Tree::Tuple { next } => lemma_fields(cx, m, seen, on, *next),
        Tree::List { .. } => lemma_list(cx, m, seen, on, tree),
        Tree::Ints { .. } => lemma_ints(cx, m, seen, on, tree),
        Tree::Bools(_) => lemma_bools(cx, m, seen, on, tree),
        Tree::Sum { .. } => lemma_sum(cx, m, seen, on, tree),
        Tree::String { .. } => lemma_string(cx, m, seen, on, tree),
        Tree::Wildcard { next } => lemma_next(cx, m, seen, *next),
        Tree::Opaque { next } => lemma_next(cx, m, seen, *next),
        Tree::End(_) => lemma_tail(cx, m, seen, tree),
    }
}

pub(crate) proof fn lemma_next(cx: Cx, m: Bodies, s: St, tree: Tree)
    requires
        next_step(cx, m, s, tree).ok,
    ensures
        grown(s.ssa(), next_step(cx, m, s, tree).s.ssa()),
    decreases m.weight(), tree, 2nat, s.p.constructors.len(),
{
    if s.p.constructors.len() == 0 {
        match tree {
            Tree::End(_) => lemma_tail(cx, m, s, tree),
            _ => {},
        }
    } else {
        let queue = s.p.constructors.last();
        if queue.len() > 0 {
            let rest = s.p.constructors.update(s.p.constructors.len() - 1, queue.drop_first());
            let popped = St { p: Pat { constructors: rest, ..s.p }, ..s };
            assert(grown(s.ssa(), popped.ssa()));
            lemma_tree(cx, m, popped, queue[0], tree);
        } else {
            let popped = St { p: Pat { constructors: s.p.constructors.drop_last(), ..s.p }, ..s };
            assert(grown(s.ssa(), popped.ssa()));
            lemma_next(cx, m, popped, tree);
        }
    }
}

pub(crate) proof fn lemma_fields(cx: Cx, m: Bodies, s: St, on: Value, next: Tree)
    requires
        fields_step(cx, m, s, on, next).ok,
    ensures
        grown(s.ssa(), fields_step(cx, m, s, on, next).s.ssa()),
    decreases m.weight(), next, 3nat, 0nat,
{
    let key = key_of(s.ssa().type_of(on));
    let fields = cx.types.fields_of(key->0);
    let first = s.ssa().entries.len() as int;
    lemma_fields_read(s.ssa(), on, key->0, fields, 0);
    let read = s.with_ssa(fields_read(s.ssa(), on, key->0, fields, 0)).queued(
        crate::pat::results(first, fields.len() as int),
    );
    assert(grown(s.ssa(), read.ssa()));
    lemma_next(cx, m, read, next);
    lemma_grown_twice(s.ssa(), read.ssa(), next_step(cx, m, read, next).s.ssa());
}

pub(crate) proof fn lemma_tail(cx: Cx, m: Bodies, s: St, leaf: Tree)
    requires
        leaf is End,
        tail_step(cx, m, s, leaf).ok,
    ensures
        grown(s.ssa(), tail_step(cx, m, s, leaf).s.ssa()),
    decreases m.weight(), leaf, 0nat, 1nat,
{
    match leaf->End_0 {
        Tail::Reached(table, _, tail) => {
            let t = tail.0 as int;
            let fresh = s.p.expressions[t] is None;
            let block = if fresh {
                s.ssa().next_block()
            } else {
                s.p.expressions[t]->0
            };
            let made = if fresh {
                St {
                    f: Func { ssa: s.ssa().new_block(table.len() as u32), ..s.f },
                    p: Pat { expressions: s.p.expressions.update(t, Some(block)), ..s.p },
                }
            } else {
                s
            };
            let jumped = St {
                p: made.p.jumped(t),
                ..made.with_ssa(made.ssa().jump(block, crate::pat::bound_values(s.p.map, table)))
            };
            lemma_jumped(made.ssa(), block, crate::pat::bound_values(s.p.map, table));
            assert(grown(made.ssa(), jumped.ssa()));
            lemma_branch(cx, m, jumped, leaf);
            lemma_grown_twice(
                made.ssa(),
                jumped.ssa(),
                branch_step(cx, m, jumped, leaf).s.ssa(),
            );
            lemma_grown_twice(s.ssa(), made.ssa(), branch_step(cx, m, jumped, leaf).s.ssa());
        },
        _ => {},
    }
}

pub(crate) proof fn lemma_entered_body(s: St, block: Block, table: Seq<(Bind, usize)>, tail: int)
    requires
        s.ssa().has(block),
    ensures
        grown(s.ssa(), crate::pat::entered_body(s, block, table, tail).ssa()),
        crate::pat::entered_body(s, block, table, tail).ssa().blocks.len() == s.ssa().blocks.len(),
{
    reveal(crate::pat::entered_body);
    lemma_params_bound(s, block, table, 0);
}

pub(crate) proof fn lemma_body_yields(after: St, value: Value)
    requires
        crate::pat::body_yields(after, value).ok,
    ensures
        grown(after.ssa(), crate::pat::body_yields(after, value).s.ssa()),
{
    reveal(crate::pat::body_yields);
    if !after.p.can_skip {
        let (made, con) = continuation(after, after.ssa().type_of(value));
        lemma_jumped(made.ssa(), con, seq![value]);
        lemma_grown_twice(after.ssa(), made.ssa(), made.ssa().jump(con, seq![value]));
    }
}

pub(crate) proof fn lemma_branch(cx: Cx, m: Bodies, s: St, leaf: Tree)
    requires
        leaf is End,
        leaf->End_0 is Reached,
        s.p.expressions[crate::pat::exact::tail_of(leaf)] is Some,
        s.ssa().has(s.p.expressions[crate::pat::exact::tail_of(leaf)]->0),
        branch_step(cx, m, s, leaf).ok,
    ensures
        grown(s.ssa(), branch_step(cx, m, s, leaf).s.ssa()),
    decreases m.weight(), leaf, 0nat, 0nat,
{
    let table = leaf->End_0->Reached_0;
    let t = crate::pat::exact::tail_of(leaf);
    let block = s.p.expressions[t]->0;
    if s.ssa().blocks[block.0 as int].predecessors == m.predecessors[t] as usize {
        let inside = crate::pat::entered_body(s, block, table, t);
        lemma_entered_body(s, block, table, t);
        lemma_expr_grows(cx, inside.f, m.branches[t]);
        let body = lower_expr(cx, inside.f, m.branches[t]);
        let after = St { f: body.f, ..inside };
        lemma_body_yields(after, body.value);
        lemma_grown_twice(s.ssa(), inside.ssa(), after.ssa());
        lemma_grown_twice(s.ssa(), after.ssa(), crate::pat::body_yields(after, body.value).s.ssa());
    }
}

pub(crate) proof fn lemma_reset(m: Bodies, s: St, block: Block, point: Reset)
    ensures
        grown(s.ssa(), s.reset(block, point).ssa()),
{
}

pub(crate) proof fn lemma_ints(cx: Cx, m: Bodies, s: St, on: Value, tree: Tree)
    requires
        tree is Ints,
        ints_step(cx, m, s, on, tree).ok,
    ensures
        grown(s.ssa(), ints_step(cx, m, s, on, tree).s.ssa()),
    decreases m.weight(), tree, 0nat, tree->Ints_next.len() + 1,
{
    let skipped = s.skipping(tree->Ints_next.len() == 1);
    assert(grown(s.ssa(), skipped.ssa()));
    lemma_ints_from(cx, m, skipped, on, tree, 0, skipped.make_reset());
}

pub(crate) proof fn lemma_range_checked(ssa: Ssa, on: Value, intsize: IntSize, range: Range)
    ensures
        range_check(ssa, on, intsize, range).blocks == ssa.blocks,
        range_check(ssa, on, intsize, range).current == ssa.current,
        range_check(ssa, on, intsize, range).targets == ssa.targets,
{
}

pub(crate) proof fn lemma_ints_from(cx: Cx, m: Bodies, s: St, on: Value, tree: Tree, i: int, point: Reset)
    requires
        tree is Ints,
        ints_from(cx, m, s, on, tree, i, point).ok,
    ensures
        grown(s.ssa(), ints_from(cx, m, s, on, tree, i, point).s.ssa()),
    decreases m.weight(), tree, 0nat, tree->Ints_next.len() - i,
{
    let intsize = tree->intsize;
    let arms = tree->Ints_next;
    if 0 <= i < arms.len() {
        let (range, next) = arms[i];
        if range.end == range.con.max {
            lemma_next(cx, m, s, next);
        } else {
            let on_true = s.ssa().next_block();
            let on_false = Block((s.ssa().blocks.len() + 1) as usize);
            let blocks = s.ssa().new_block(0).new_block(0);
            let checked = range_check(blocks, on, intsize, range);
            lemma_range_checked(blocks, on, intsize, range);
            let chosen = checked.select(crate::pat::range_checked(blocks, range), on_true, on_false);
            lemma_selected(checked, crate::pat::range_checked(blocks, range), on_true, on_false);
            let inside = s.with_ssa(chosen.switch_to_block(on_true));
            assert(grown(s.ssa(), inside.ssa())) by {
                lemma_grown_twice(s.ssa(), checked, chosen);
            }
            assert(grown(s.ssa(), inside.ssa()));
            lemma_next(cx, m, inside, next);
            let walked = next_step(cx, m, inside, next);
            lemma_reset(m, walked.s, on_false, point);
            let back = walked.s.reset(on_false, point);
            lemma_ints_from(cx, m, back, on, tree, i + 1, point);
            let rest = ints_from(cx, m, back, on, tree, i + 1, point);
            lemma_grown_twice(walked.s.ssa(), back.ssa(), rest.s.ssa());
            lemma_grown_twice(inside.ssa(), walked.s.ssa(), rest.s.ssa());
            lemma_grown_twice(s.ssa(), inside.ssa(), rest.s.ssa());
        }
    }
}

pub(crate) proof fn lemma_bools(cx: Cx, m: Bodies, s: St, on: Value, tree: Tree)
    requires
        tree is Bools,
        bools_step(cx, m, s, on, tree).ok,
    ensures
        grown(s.ssa(), bools_step(cx, m, s, on, tree).s.ssa()),
    decreases m.weight(), tree, 0nat, 0nat,
{
    let arms = tree->Bools_0;
    let skipped = s.skipping(false);
    assert(grown(s.ssa(), skipped.ssa()));
    if arms.len() == 2 {
        let truthy = if arms[0].0 {
            arms[0]
        } else {
            arms[1]
        };
        let falsey = if arms[0].0 {
            arms[1]
        } else {
            arms[0]
        };
        let point = skipped.make_reset();
        let on_true = skipped.ssa().next_block();
        let on_false = Block((skipped.ssa().blocks.len() + 1) as usize);
        let blocks = skipped.ssa().new_block(0).new_block(0);
        lemma_selected(blocks, on, on_true, on_false);
        let chosen = blocks.select(on, on_true, on_false);
        let inside = skipped.with_ssa(chosen.switch_to_block(on_true));
        assert(grown(s.ssa(), inside.ssa())) by {
            lemma_grown_twice(s.ssa(), blocks, chosen);
        }
        assert(grown(skipped.ssa(), inside.ssa()));
        lemma_next(cx, m, inside, truthy.1);
        let first = next_step(cx, m, inside, truthy.1);
        lemma_reset(m, first.s, on_false, point);
        let back = first.s.reset(on_false, point);
        lemma_next(cx, m, back, falsey.1);
        let second = next_step(cx, m, back, falsey.1);
        lemma_grown_twice(first.s.ssa(), back.ssa(), second.s.ssa());
        lemma_grown_twice(inside.ssa(), first.s.ssa(), second.s.ssa());
        lemma_grown_twice(s.ssa(), inside.ssa(), second.s.ssa());
    }
}

pub(crate) proof fn lemma_sum(cx: Cx, m: Bodies, s: St, on: Value, tree: Tree)
    requires
        tree is Sum,
        sum_step(cx, m, s, on, tree).ok,
    ensures
        grown(s.ssa(), sum_step(cx, m, s, on, tree).s.ssa()),
    decreases m.weight(), tree, 0nat, tree->Sum_next.len() + 1,
{
    let arms = tree->Sum_next;
    let skipped = s.skipping(arms.len() == 1);
    assert(grown(s.ssa(), skipped.ssa()));
    let oblock = skipped.ssa().current;
    let key = key_of(skipped.ssa().type_of(on));
    let fields = cx.types.fields_of(key->0);
    let read = skipped.ssa().emit(
        crate::ssa::Entry::Field { of: on, key: key->0, field: crate::key::RecordField(0) },
        MonoType::Int(crate::ssa::spec_tag_size()),
    ).emit(
        crate::ssa::Entry::Field { of: on, key: key->0, field: crate::key::RecordField(1) },
        fields[1],
    );
    let tag = skipped.ssa().next_value();
    let data = skipped.ssa().second_value();
    let start = skipped.with_ssa(read);
    assert(grown(skipped.ssa(), start.ssa()));
    lemma_sum_from(cx, m, start, oblock, data, tree, 0, Seq::empty());
    let walked = sum_from(cx, m, start, oblock, data, tree, 0, Seq::empty());
    lemma_jump_tabled(walked.s.ssa(), tag, walked.blocks);
    let done = walked.s.with_ssa(walked.s.ssa().jump_table(tag, walked.blocks));
    assert(grown(walked.s.ssa(), done.ssa()));
    lemma_grown_twice(start.ssa(), walked.s.ssa(), done.ssa());
    lemma_grown_twice(s.ssa(), start.ssa(), done.ssa());
}

pub(crate) proof fn lemma_sum_from(
    cx: Cx,
    m: Bodies,
    s: St,
    oblock: Block,
    data: Value,
    tree: Tree,
    i: int,
    blocks: Seq<Block>,
)
    requires
        tree is Sum,
        sum_from(cx, m, s, oblock, data, tree, i, blocks).ok,
    ensures
        grown(s.ssa(), sum_from(cx, m, s, oblock, data, tree, i, blocks).s.ssa()),
    decreases m.weight(), tree, 0nat, tree->Sum_next.len() - i,
{
    let sum = tree->sum;
    let params = tree->params;
    let arms = tree->Sum_next;
    if 0 <= i < arms.len() {
        let (var, next) = arms[i];
        let vblock = s.ssa().next_block();
        let inside = s.enter_new_block();
        assert(grown(s.ssa(), inside.ssa()));
        let point = inside.make_reset();
        let raw = variant_types(cx, sum, var);
        let first = inside.ssa().entries.len() as int;
        lemma_payload_read(cx, inside.ssa(), data, raw->0, params, 0, 0);
        let read = inside.with_ssa(payload_read(cx, inside.ssa(), data, raw->0, params, 0, 0)).queued(
            crate::pat::results(first, raw->0.len() as int),
        );
        assert(grown(inside.ssa(), read.ssa()));
        lemma_next(cx, m, read, next);
        let walked = next_step(cx, m, read, next);
        lemma_reset(m, walked.s, oblock, point);
        let back = walked.s.reset(oblock, point);
        lemma_sum_from(cx, m, back, oblock, data, tree, i + 1, blocks.push(vblock));
        let rest = sum_from(cx, m, back, oblock, data, tree, i + 1, blocks.push(vblock));
        lemma_grown_twice(walked.s.ssa(), back.ssa(), rest.s.ssa());
        lemma_grown_twice(read.ssa(), walked.s.ssa(), rest.s.ssa());
        lemma_grown_twice(inside.ssa(), read.ssa(), rest.s.ssa());
        lemma_grown_twice(s.ssa(), inside.ssa(), rest.s.ssa());
    }
}

pub(crate) proof fn lemma_list(cx: Cx, m: Bodies, s: St, on: Value, tree: Tree)
    requires
        tree is List,
        list_step(cx, m, s, on, tree).ok,
    ensures
        grown(s.ssa(), list_step(cx, m, s, on, tree).s.ssa()),
    decreases m.weight(), tree, 0nat, 0nat,
{
    let ty = tree->ty;
    let elem = tree->elem;
    let arms = tree->List_next;
    let skipped = s.skipping(false);
    assert(grown(s.ssa(), skipped.ssa()));
    let oblock = skipped.ssa().current;
    let listmt = cx.tmap.applied(ty);
    let innermt = cx.tmap.applied(elem);
    let found = cx.mir.implementation(cx.info.listable, seq![innermt], listmt);
    let imp = crate::key::Impl(found->0 as u32);
    let generics = crate::mir::settled(
        cx.mir.impls[found->0].applies(cx.info.listable, seq![innermt], listmt)->0,
    );
    let split = crate::mir::FuncOrigin::Method(imp, cx.info.listable_split);
    let ret = cx.returns_of(split, generics);
    let mfunc = skipped.f.mfunc_of(split, Some(listmt), generics);
    let asked = St { f: skipped.f.call_to_mfunc(cx, split, Some(listmt), generics), ..skipped };
    assert(grown(skipped.ssa(), asked.ssa()));
    let maybe = asked.ssa().next_value();
    let tag = asked.ssa().second_value();
    let data = asked.ssa().third_value();
    let key = key_of(ret);
    let largest = (cx.types.bits_from(key->0, 0) - crate::ssa::spec_tag_size().bitsize.0) as u32;
    let read = asked.ssa().called(mfunc, seq![on], ret).emit(
        crate::ssa::Entry::Field { of: maybe, key: key->0, field: crate::key::RecordField(0) },
        MonoType::Int(crate::ssa::spec_tag_size()),
    ).emit(
        crate::ssa::Entry::Field { of: maybe, key: key->0, field: crate::key::RecordField(1) },
        MonoType::SumDataCast { largest },
    ).emit(
        crate::ssa::Entry::Compare(
            crate::ssa::Comparison::Equal,
            tag,
            Value::spec_maybe_just(),
            crate::ssa::spec_tag_size(),
        ),
        crate::ssa::spec_truth(),
    );
    let cons = arm_of(arms, crate::tree::spec_list_cons(), 0);
    let nil = arm_of(arms, crate::tree::spec_list_nil(), 0);
    if cons is Some && nil is Some && 0 <= cons->0 < arms.len() && 0 <= nil->0 < arms.len() {
        let in_cons = asked.with_ssa(read).enter_new_block();
        assert(grown(asked.ssa(), in_cons.ssa()));
        let cons_point = in_cons.make_reset();
        let taken = in_cons.with_ssa(
            in_cons.ssa().emit(
                crate::ssa::Entry::SumField { of: data, offset: crate::ssa::BitOffset(0) },
                innermt,
            ).emit(
                crate::ssa::Entry::SumField {
                    of: data,
                    offset: crate::ssa::BitOffset(cx.types.bits(innermt) as u32),
                },
                listmt,
            ),
        ).queued(seq![in_cons.ssa().next_value(), in_cons.ssa().second_value()]);
        assert(grown(in_cons.ssa(), taken.ssa()));
        lemma_next(cx, m, taken, arms[cons->0].1);
        let first = next_step(cx, m, taken, arms[cons->0].1);
        lemma_reset(m, first.s, oblock, cons_point);
        let back = first.s.reset(oblock, cons_point);
        let in_nil = back.enter_new_block();
        assert(grown(back.ssa(), in_nil.ssa()));
        let nil_point = in_nil.make_reset();
        let queued = in_nil.queued(Seq::empty());
        assert(grown(in_nil.ssa(), queued.ssa()));
        lemma_next(cx, m, queued, arms[nil->0].1);
        let second = next_step(cx, m, queued, arms[nil->0].1);
        lemma_reset(m, second.s, oblock, nil_point);
        let done = second.s.reset(oblock, nil_point);
        let is_just = Value::V(crate::ssa::V((asked.ssa().entries.len() + 3) as usize));
        let con_block = read.next_block();
        let nil_block = back.ssa().next_block();
        lemma_selected(done.ssa(), is_just, con_block, nil_block);
        let chosen = done.with_ssa(done.ssa().select(is_just, con_block, nil_block));
        assert(grown(done.ssa(), chosen.ssa()));
        lemma_grown_twice(second.s.ssa(), done.ssa(), chosen.ssa());
        lemma_grown_twice(queued.ssa(), second.s.ssa(), chosen.ssa());
        lemma_grown_twice(back.ssa(), queued.ssa(), chosen.ssa());
        lemma_grown_twice(first.s.ssa(), back.ssa(), chosen.ssa());
        lemma_grown_twice(taken.ssa(), first.s.ssa(), chosen.ssa());
        lemma_grown_twice(asked.ssa(), taken.ssa(), chosen.ssa());
        lemma_grown_twice(s.ssa(), asked.ssa(), chosen.ssa());
    }
}

pub(crate) proof fn lemma_pass_or(m: Bodies, before: St, s: St, value: Value, falsely: Block)
    requires
        s.ssa().wf(),
        s.ssa().blocks == before.ssa().blocks,
        s.ssa().targets == before.ssa().targets,
        s.p.expressions == before.p.expressions,
        s.p.lowered == before.p.lowered,
    ensures
        grown(before.ssa(), s.pass_or(value, falsely).ssa()),
{
    let made = s.ssa().new_block(0);
    lemma_selected(made, value, s.ssa().next_block(), falsely);
    lemma_grown_twice(before.ssa(), made, made.select(value, s.ssa().next_block(), falsely));
    assert(grown(before.ssa(), s.pass_or(value, falsely).ssa()));
}

pub(crate) proof fn lemma_check(
    cx: Cx,
    m: Bodies,
    s: St,
    on: Value,
    falsely: Block,
    check: StrCheck,
    is_last: bool,
)
    requires
        check_step(cx, s, on, falsely, check, is_last).ok,
    ensures
        grown(s.ssa(), check_step(cx, s, on, falsely, check, is_last).s.ssa()),
{
    let info = cx.info;
    let ssa = s.ssa();
    match check {
        StrCheck::Literal(key) => {
            let len = Value::Int(cx.mir.read_only[key.0 as int] as i128, crate::pat::spec_word());
            let made = ssa.called(
                info.string_from_raw,
                seq![Value::ReadOnly(key), len],
                info.string,
            );
            let literal = ssa.next_value();
            if is_last {
                let held = made.called(
                    info.string_equals,
                    seq![on, literal],
                    crate::ssa::spec_truth(),
                );
                lemma_pass_or(m, s, s.with_ssa(held).seen(literal), made.next_value(), falsely);
            } else {
                let cut = made.halved(
                    info.string_split_at,
                    seq![on, len],
                    info.string_pair,
                    info.string,
                    info.string,
                );
                let held = cut.called(
                    info.string_equals,
                    seq![made.second_value(), literal],
                    crate::ssa::spec_truth(),
                );
                lemma_pass_or(m, s, s.with_ssa(held).seen(literal), cut.next_value(), falsely);
            }
        },
        StrCheck::Take(bytes) => {
            let at = Value::Int(bytes as i128, crate::pat::spec_word());
            let cut = ssa.halved(
                info.string_split_at,
                seq![on, at],
                info.string_pair,
                info.string,
                info.string,
            );
            let counted = cut.called(
                info.string_len,
                seq![ssa.second_value()],
                MonoType::Int(crate::pat::spec_word()),
            );
            let held = counted.emit(
                crate::ssa::Entry::Compare(
                    crate::ssa::Comparison::Equal,
                    at,
                    cut.next_value(),
                    crate::pat::spec_word(),
                ),
                crate::ssa::spec_truth(),
            );
            lemma_pass_or(
                m,
                s,
                s.with_ssa(held).seen(ssa.second_value()),
                counted.next_value(),
                falsely,
            );
        },
        StrCheck::TakeExcess => {
            assert(grown(s.ssa(), s.seen(on).ssa()));
        },
        StrCheck::TakeByte => {
            let cut = ssa.halved(
                info.string_split_first,
                seq![on],
                info.byte_and_string,
                MonoType::Int(crate::pat::spec_byte()),
                info.string,
            );
            let held = cut.emit(
                crate::ssa::Entry::Compare(
                    crate::ssa::Comparison::Equal,
                    ssa.second_value(),
                    Value::Int(0, crate::pat::spec_byte()),
                    crate::pat::spec_byte(),
                ),
                crate::ssa::spec_truth(),
            );
            lemma_pass_or(m, s, s.with_ssa(held).seen(ssa.second_value()), cut.next_value(), falsely);
        },
        StrCheck::TakeWhileLocal(_) => {
            assert(grown(s.ssa(), check_step(cx, s, on, falsely, check, is_last).s.ssa()));
        },
        StrCheck::TakeWhileFunc(_) => {
            assert(grown(s.ssa(), check_step(cx, s, on, falsely, check, is_last).s.ssa()));
        },
        StrCheck::TakeWhileLambda(lambda) => {
            let built = s.dyn_lambda(cx, lambda);
            assert(grown(s.ssa(), built.ssa()));
            assert(grown(built.ssa(), check_step(cx, s, on, falsely, check, is_last).s.ssa()));
            lemma_grown_twice(
                s.ssa(),
                built.ssa(),
                check_step(cx, s, on, falsely, check, is_last).s.ssa(),
            );
        },
    }
}

pub(crate) proof fn lemma_checks(
    cx: Cx,
    m: Bodies,
    s: St,
    on: Value,
    falsely: Block,
    checks: Seq<StrCheck>,
    i: int,
)
    requires
        checks_from(cx, s, on, falsely, checks, i).ok,
    ensures
        grown(s.ssa(), checks_from(cx, s, on, falsely, checks, i).s.ssa()),
    decreases checks.len() - i,
{
    if 0 <= i < checks.len() {
        lemma_check(cx, m, s, on, falsely, checks[i], i == checks.len() - 1);
        let here = check_step(cx, s, on, falsely, checks[i], i == checks.len() - 1);
        lemma_checks(cx, m, here.s, here.on, falsely, checks, i + 1);
        lemma_grown_twice(
            s.ssa(),
            here.s.ssa(),
            checks_from(cx, here.s, here.on, falsely, checks, i + 1).s.ssa(),
        );
    } else {
        assert(grown(s.ssa(), s.ssa()));
    }
}

pub(crate) proof fn lemma_string(cx: Cx, m: Bodies, s: St, on: Value, tree: Tree)
    requires
        tree is String,
        string_step(cx, m, s, on, tree).ok,
    ensures
        grown(s.ssa(), string_step(cx, m, s, on, tree).s.ssa()),
    decreases m.weight(), tree, 0nat, tree->String_next.len() + 1,
{
    let start = St { p: Pat { map: s.p.map.drop_last(), ..s.p }, ..s }.skipping(false);
    assert(grown(s.ssa(), start.ssa()));
    lemma_string_from(cx, m, start, on, tree, 0, start.make_reset());
}

pub(crate) proof fn lemma_string_from(cx: Cx, m: Bodies, s: St, on: Value, tree: Tree, i: int, point: Reset)
    requires
        tree is String,
        string_from(cx, m, s, on, tree, i, point).ok,
    ensures
        grown(s.ssa(), string_from(cx, m, s, on, tree, i, point).s.ssa()),
    decreases m.weight(), tree, 0nat, tree->String_next.len() - i,
{
    match tree {
        Tree::String { next: arms, wildcard_next } => {
            if 0 <= i < arms.len() {
                let falsely = s.ssa().next_block();
                let made = s.with_ssa(s.ssa().new_block(0));
                assert(grown(s.ssa(), made.ssa()));
                lemma_checks(cx, m, made, on, falsely, arms[i].0, 0);
                let checked = checks_from(cx, made, on, falsely, arms[i].0, 0);
                lemma_next(cx, m, checked.s, arms[i].1);
                let walked = next_step(cx, m, checked.s, arms[i].1);
                lemma_reset(m, walked.s, falsely, point);
                let back = walked.s.reset(falsely, point);
                lemma_string_from(cx, m, back, on, tree, i + 1, point);
                let rest = string_from(cx, m, back, on, tree, i + 1, point);
                lemma_grown_twice(walked.s.ssa(), back.ssa(), rest.s.ssa());
                lemma_grown_twice(checked.s.ssa(), walked.s.ssa(), rest.s.ssa());
                lemma_grown_twice(made.ssa(), checked.s.ssa(), rest.s.ssa());
                lemma_grown_twice(s.ssa(), made.ssa(), rest.s.ssa());
            } else {
                lemma_next(cx, m, s, *wildcard_next);
            }
        },
        _ => {},
    }
}

} // verus!
