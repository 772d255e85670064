//! The body of a branch is lowered exactly when the last of the leaves that
//! lead to it has jumped, and so exactly once: the proof, step by step
//! along the walk.

use crate::lower::{Cx, Func};
use crate::mir::{bodies_size, expr_size, fields_size, Expr};
use crate::pat::exact::{
    among, at_place, block_at, due, entries_of, exact, exact_at, fits, fresh_or_same, held,
    lemma_access, lemma_address, lemma_deref, lemma_lambda_call, lemma_local_call, lemma_tuple, lemma_body_yields, lemma_bump_capped, lemma_call, lemma_cast,
    lemma_chosen, lemma_compare, lemma_emits_quiet, lemma_entered_body, lemma_entering,
    lemma_fields_read, lemma_held_twice, lemma_jump_tabled, lemma_jumped, lemma_local, lemma_local_owing,
    lemma_not_due, lemma_num, lemma_pass_or, lemma_payload_read, lemma_quiet_twice,
    lemma_range_checked, lemma_record, lemma_reset, lemma_selected, lemma_size, lemma_start,
    lemma_stepped_twice, lemma_still_aside, lemma_tails_are_blocks, lemma_write, meeting, pending,
    quiet, same_walk, set_aside, stepped, tail_block_at, tail_of,
};
use crate::pat::grows;
use crate::pat::{
    arm_of, bools_step, branch_step, check_step, checks_from, fields_read, fields_step, ints_from,
    ints_step, key_of, list_step, lower_all, lower_expr, lower_fields, match_value, next_step,
    payload_read, range_check, run_step, string_from, string_step, sum_from, sum_step, tail_step,
    tree_step, variant_types, Bodies, Pat, Reset, St,
};
use crate::ssa::{Block, Value};
use crate::tree::{StrCheck, Tail, Tree};
use crate::types::MonoType;
use vstd::prelude::*;

verus! {

/// The lowering of an expression leaves the jumps into the blocks that
/// were there as they were.
pub proof fn lemma_expr_quiet(cx: Cx, f: Func, e: Expr)
    requires
        lower_expr(cx, f, e).ok,
        fits(lower_expr(cx, f, e).f.ssa),
    ensures
        quiet(f.ssa, lower_expr(cx, f, e).f.ssa),
    decreases expr_size(e), Tree::End(Tail::Poison), 0nat, 0nat,
{
    match e {
        Expr::IntCast(inner, from, to) => {
            let lowered = lower_expr(cx, f, *inner);
            lemma_cast(lowered, from, to);
            lemma_expr_quiet(cx, f, *inner);
            lemma_emits_quiet(f.ssa, lowered.f.ssa, lower_expr(cx, f, e).f.ssa);
        },
        Expr::Compare(name, left, right) => {
            let l = lower_expr(cx, f, *left);
            let r = lower_expr(cx, l.f, *right);
            lemma_compare(name@, l, r);
            grows::lemma_expr_grows(cx, l.f, *right);
            lemma_expr_quiet(cx, f, *left);
            lemma_expr_quiet(cx, l.f, *right);
            lemma_quiet_twice(f.ssa, l.f.ssa, r.f.ssa);
            lemma_emits_quiet(f.ssa, r.f.ssa, lower_expr(cx, f, e).f.ssa);
        },
        Expr::Num(name, left, right) => {
            let l = lower_expr(cx, f, *left);
            let r = lower_expr(cx, l.f, *right);
            lemma_num(name@, l, r);
            grows::lemma_expr_grows(cx, l.f, *right);
            lemma_expr_quiet(cx, f, *left);
            lemma_expr_quiet(cx, l.f, *right);
            lemma_quiet_twice(f.ssa, l.f.ssa, r.f.ssa);
            lemma_emits_quiet(f.ssa, r.f.ssa, lower_expr(cx, f, e).f.ssa);
        },
        Expr::Access(object, key, field) => {
            let lowered = lower_expr(cx, f, *object);
            lemma_access(cx, lowered, key, field);
            lemma_expr_quiet(cx, f, *object);
            lemma_emits_quiet(f.ssa, lowered.f.ssa, lower_expr(cx, f, e).f.ssa);
        },
        Expr::Write(pointer, value) => {
            let p = lower_expr(cx, f, *pointer);
            let v = lower_expr(cx, p.f, *value);
            lemma_write(p, v);
            grows::lemma_expr_grows(cx, p.f, *value);
            lemma_expr_quiet(cx, f, *pointer);
            lemma_expr_quiet(cx, p.f, *value);
            lemma_quiet_twice(f.ssa, p.f.ssa, v.f.ssa);
            lemma_emits_quiet(f.ssa, v.f.ssa, lower_expr(cx, f, e).f.ssa);
        },
        Expr::SizeOf(ty) => {
            lemma_size(cx, f, ty);
        },
        Expr::ValToRef(val) => {
            lemma_address(f, *val);
        },
        Expr::Record(key, fields) => {
            let given = lower_fields(cx, f, fields, 0, Seq::empty());
            lemma_record(key, crate::pat::names_of(fields), given);
            lemma_fields_quiet(cx, f, fields, 0, Seq::empty());
            lemma_emits_quiet(f.ssa, given.f.ssa, lower_expr(cx, f, e).f.ssa);
        },
        Expr::CallFunc(func, params) => {
            let args = lower_all(cx, f, params, 0, Seq::empty());
            lemma_call(func, params.len() as nat, args);
            lemma_all_quiet(cx, f, params, 0, Seq::empty());
            lemma_emits_quiet(f.ssa, args.f.ssa, lower_expr(cx, f, e).f.ssa);
        },
        Expr::Deref(inner) => {
            let lowered = lower_expr(cx, f, *inner);
            lemma_deref(lowered);
            lemma_expr_quiet(cx, f, *inner);
            lemma_emits_quiet(f.ssa, lowered.f.ssa, lower_expr(cx, f, e).f.ssa);
        },
        Expr::Tuple(elems) => {
            let args = lower_all(cx, f, elems, 0, Seq::empty());
            lemma_tuple(cx, args);
            lemma_all_quiet(cx, f, elems, 0, Seq::empty());
            lemma_emits_quiet(f.ssa, args.f.ssa, lower_expr(cx, f, e).f.ssa);
        },
        Expr::CallLambda(lambda, params) => {
            let args = lower_all(cx, f, params, 0, Seq::empty());
            lemma_lambda_call(cx, lambda, args);
            lemma_all_quiet(cx, f, params, 0, Seq::empty());
            lemma_emits_quiet(f.ssa, args.f.ssa, lower_expr(cx, f, e).f.ssa);
        },
        Expr::CallLocal(local, params) => {
            let args = lower_all(cx, f, params, 0, Seq::empty());
            lemma_local_call(cx, local, args);
            lemma_all_quiet(cx, f, params, 0, Seq::empty());
            lemma_emits_quiet(f.ssa, args.f.ssa, lower_expr(cx, f, e).f.ssa);
        },
        Expr::Match(matched, tree, branches, predecessors) => {
            let on = lower_expr(cx, f, *matched);
            let m = Bodies { branches, predecessors: predecessors@ };
            let s = St { f: on.f, p: Pat::start(branches.len() as nat) };
            grows::lemma_run_grows(cx, m, s, on.value, tree@);
            lemma_expr_quiet(cx, f, *matched);
            lemma_start(m, on.f, branches.len() as nat);
            lemma_run(cx, m, s, on.value, tree@);
            lemma_quiet_twice(f.ssa, on.f.ssa, run_step(cx, m, s, on.value, tree@).f.ssa);
        },
        _ => {},
    }
}

/// The same of expressions lowered one after the other.
pub proof fn lemma_all_quiet(cx: Cx, f: Func, exprs: Vec<Expr>, from: int, before: Seq<Value>)
    requires
        lower_all(cx, f, exprs, from, before).ok,
        fits(lower_all(cx, f, exprs, from, before).f.ssa),
    ensures
        quiet(f.ssa, lower_all(cx, f, exprs, from, before).f.ssa),
    decreases bodies_size(exprs, from), Tree::End(Tail::Poison), 1nat, 0nat,
{
    if 0 <= from < exprs.len() && expr_size(exprs[from]) >= 1 {
        let here = lower_expr(cx, f, exprs[from]);
        grows::lemma_all_grow(cx, here.f, exprs, from + 1, before.push(here.value));
        lemma_expr_quiet(cx, f, exprs[from]);
        lemma_all_quiet(cx, here.f, exprs, from + 1, before.push(here.value));
        lemma_quiet_twice(
            f.ssa,
            here.f.ssa,
            lower_all(cx, here.f, exprs, from + 1, before.push(here.value)).f.ssa,
        );
    }
}

/// The same of the fields of a record.
pub proof fn lemma_fields_quiet(
    cx: Cx,
    f: Func,
    fields: Vec<(crate::key::RecordField, Expr)>,
    from: int,
    before: Seq<Value>,
)
    requires
        lower_fields(cx, f, fields, from, before).ok,
        fits(lower_fields(cx, f, fields, from, before).f.ssa),
    ensures
        quiet(f.ssa, lower_fields(cx, f, fields, from, before).f.ssa),
    decreases fields_size(fields, from), Tree::End(Tail::Poison), 1nat, 0nat,
{
    if 0 <= from < fields.len() && expr_size(fields[from].1) >= 1 {
        let here = lower_expr(cx, f, fields[from].1);
        grows::lemma_fields_grow(cx, here.f, fields, from + 1, before.push(here.value));
        lemma_expr_quiet(cx, f, fields[from].1);
        lemma_fields_quiet(cx, here.f, fields, from + 1, before.push(here.value));
        lemma_quiet_twice(
            f.ssa,
            here.f.ssa,
            lower_fields(cx, here.f, fields, from + 1, before.push(here.value)).f.ssa,
        );
    }
}

/// Whether no leaf has asked for a block and no branch for the block in
/// which the branches meet.
pub open spec fn unwalked(s: St) -> bool {
    &&& s.p.continuation_block is None
    &&& forall|tail: int|
        0 <= tail < s.p.expressions.len() ==> (#[trigger] s.p.expressions[tail]) is None
}

/// The lowering of a match lowers the body of each branch exactly if as
/// many leaves jump to it as were counted for it, and then once; and it
/// leaves the jumps into the blocks that were there before it as they were.
pub proof fn lemma_run(cx: Cx, m: Bodies, s: St, on: Value, tree: Tree)
    requires
        exact(m, s),
        unwalked(s),
        run_step(cx, m, s, on, tree).ok,
        fits(run_step(cx, m, s, on, tree).f.ssa),
    ensures
        exact(m, tree_step(cx, m, s, on, tree).s),
        quiet(s.ssa(), run_step(cx, m, s, on, tree).f.ssa),
    decreases m.weight(), tree, 5nat, 0nat,
{
    let walked = tree_step(cx, m, s, on, tree);
    lemma_tree(cx, m, s, on, tree);
    assert forall|b: int| 0 <= b < s.ssa().blocks.len() implies !tail_block_at(s, b) by {
        if tail_block_at(s, b) {
            let tail = choose|tail: int|
                0 <= tail < s.p.expressions.len() && #[trigger] block_at(s, tail) == Some(b);
            assert(s.p.expressions[tail] is None);
        }
    }
    assert(quiet(s.ssa(), walked.s.ssa())) by {
        assert forall|b: int| 0 <= b < s.ssa().blocks.len() implies #[trigger] entries_of(
            walked.s.ssa(),
            b,
        ) == entries_of(s.ssa(), b) by {
            assert(!tail_block_at(s, b));
        }
    }
    assert(quiet(walked.s.ssa(), match_value(walked).f.ssa)) by {
        if !walked.s.p.can_skip {
            let (block, ty) = walked.s.p.continuation_block->0;
            let ssa = walked.s.f.ssa.switch_to_block(block).add_block_param(block, ty);
            assert forall|b: int| 0 <= b < walked.s.ssa().blocks.len() implies #[trigger] entries_of(
                ssa,
                b,
            ) == entries_of(walked.s.ssa(), b) by {}
        }
    }
    lemma_quiet_twice(s.ssa(), walked.s.ssa(), match_value(walked).f.ssa);
}

/// Along the walk of a decision tree the body of each branch is lowered
/// exactly when the leaves that have jumped to it are as many as were
/// counted for it: what `exact` says holds after the walk if it held
/// before, and the walk asks only for blocks that are new.
pub proof fn lemma_tree(cx: Cx, m: Bodies, s: St, on: Value, tree: Tree)
    requires
        exact(m, s),
        tree_step(cx, m, s, on, tree).ok,
        fits(tree_step(cx, m, s, on, tree).s.ssa()),
    ensures
        held(m, s, tree_step(cx, m, s, on, tree).s),
    decreases m.weight(), tree, 1nat, 0nat,
{
    let seen = s.seen(on);
    lemma_local(m, s, seen);
    match tree {
        Tree::Record { next } => lemma_fields(cx, m, seen, on, *next),
        Tree::Tuple { next } => lemma_fields(cx, m, seen, on, *next),
        Tree::List { .. } => lemma_list(cx, m, seen, on, tree),
        Tree::Ints { .. } => lemma_ints(cx, m, seen, on, tree),
        Tree::Bools(_) => lemma_bools(cx, m, seen, on, tree),
        Tree::Sum { .. } => lemma_sum(cx, m, seen, on, tree),
        Tree::String { .. } => lemma_string(cx, m, seen, on, tree),
        Tree::Wildcard { next } => lemma_next(cx, m, seen, *next),
        Tree::Opaque { next } => lemma_next(cx, m, seen, *next),
        Tree::End(_) => lemma_tail(cx, m, seen, tree),
    }
    lemma_held_twice(m, s, seen, tree_step(cx, m, s, on, tree).s);
}

proof fn lemma_next(cx: Cx, m: Bodies, s: St, tree: Tree)
    requires
        exact(m, s),
        next_step(cx, m, s, tree).ok,
        fits(next_step(cx, m, s, tree).s.ssa()),
    ensures
        held(m, s, next_step(cx, m, s, tree).s),
    decreases m.weight(), tree, 2nat, s.p.constructors.len(),
{
    if s.p.constructors.len() == 0 {
        match tree {
            Tree::End(_) => lemma_tail(cx, m, s, tree),
            _ => {},
        }
    } else {
        let queue = s.p.constructors.last();
        if queue.len() > 0 {
            let rest = s.p.constructors.update(s.p.constructors.len() - 1, queue.drop_first());
            let popped = St { p: Pat { constructors: rest, ..s.p }, ..s };
            lemma_local(m, s, popped);
            lemma_tree(cx, m, popped, queue[0], tree);
            lemma_held_twice(m, s, popped, tree_step(cx, m, popped, queue[0], tree).s);
        } else {
            let popped = St { p: Pat { constructors: s.p.constructors.drop_last(), ..s.p }, ..s };
            lemma_local(m, s, popped);
            lemma_next(cx, m, popped, tree);
            lemma_held_twice(m, s, popped, next_step(cx, m, popped, tree).s);
        }
    }
}

proof fn lemma_fields(cx: Cx, m: Bodies, s: St, on: Value, next: Tree)
    requires
        exact(m, s),
        fields_step(cx, m, s, on, next).ok,
        fits(fields_step(cx, m, s, on, next).s.ssa()),
    ensures
        held(m, s, fields_step(cx, m, s, on, next).s),
    decreases m.weight(), next, 3nat, 0nat,
{
    let key = key_of(s.ssa().type_of(on));
    let fields = cx.types.fields_of(key->0);
    let first = s.ssa().entries.len() as int;
    lemma_fields_read(s.ssa(), on, key->0, fields, 0);
    let read = s.with_ssa(fields_read(s.ssa(), on, key->0, fields, 0)).queued(
        crate::pat::results(first, fields.len() as int),
    );
    lemma_local(m, s, read);
    lemma_next(cx, m, read, next);
    lemma_held_twice(m, s, read, next_step(cx, m, read, next).s);
}

proof fn lemma_tail(cx: Cx, m: Bodies, s: St, leaf: Tree)
    requires
        leaf is End,
        exact(m, s),
        tail_step(cx, m, s, leaf).ok,
        fits(tail_step(cx, m, s, leaf).s.ssa()),
    ensures
        held(m, s, tail_step(cx, m, s, leaf).s),
    decreases m.weight(), leaf, 0nat, 1nat,
{
    match leaf->End_0 {
        Tail::Reached(table, _, tail) => {
            let t = tail.0 as int;
            let fresh = s.p.expressions[t] is None;
            let block = if fresh {
                s.ssa().next_block()
            } else {
                s.p.expressions[t]->0
            };
            let made = if fresh {
                St {
                    f: Func { ssa: s.ssa().new_block(table.len() as u32), ..s.f },
                    p: Pat { expressions: s.p.expressions.update(t, Some(block)), ..s.p },
                }
            } else {
                s
            };
            let args = crate::pat::bound_values(s.p.map, table);
            let jumped = St { p: made.p.jumped(t), ..made.with_ssa(made.ssa().jump(block, args)) };
            assert(tail_of(leaf) == t);
            // what follows the jump takes no block away, so the blocks can be counted here
            grows::lemma_branch(cx, m, jumped, leaf);
            lemma_jumped(made.ssa(), block, args);
            assert(fits(jumped.ssa()));
            lemma_leaf_jumped(m, s, made, jumped, t, block, fresh);
            lemma_branch(cx, m, jumped, leaf);
            lemma_held_twice(m, s, jumped, branch_step(cx, m, jumped, leaf).s);
        },
        _ => {
            lemma_local(m, s, s);
        },
    }
}

/// After the jump of a leaf, the jump is counted for the body that the
/// leaf leads to, and of all other bodies holds what held.
proof fn lemma_leaf_jumped(m: Bodies, s: St, made: St, jumped: St, t: int, block: Block, fresh: bool)
    requires
        exact(m, s),
        0 <= t < s.p.expressions.len(),
        fresh == (s.p.expressions[t] is None),
        fresh ==> block == s.ssa().next_block() && made.ssa().blocks == s.ssa().blocks.push(
            made.ssa().blocks.last(),
        ) && made.ssa().blocks.last().predecessors == 0 && made.p == (Pat {
            expressions: s.p.expressions.update(t, Some(block)),
            ..s.p
        }),
        !fresh ==> block == s.p.expressions[t]->0 && made == s,
        fits(jumped.ssa()),
        jumped.p == made.p.jumped(t),
        jumped.ssa().blocks.len() == made.ssa().blocks.len(),
        forall|b: int|
            0 <= b < made.ssa().blocks.len() && b != block.0 ==> #[trigger] entries_of(
                jumped.ssa(),
                b,
            ) == entries_of(made.ssa(), b),
        made.ssa().has(block) ==> entries_of(jumped.ssa(), block.0 as int) == crate::ssa::spec_bump(
            entries_of(made.ssa(), block.0 as int),
        ),
    ensures
        pending(m, jumped, t),
        stepped(s, jumped),
        jumped.p.expressions[t] == Some(block),
        block_at(jumped, t) == Some(block.0 as int),
{
    assert(exact_at(m, s, t));
    lemma_bump_capped(s.p.jumps[t]);
    assert(block_at(jumped, t) == Some(block.0 as int));
    assert forall|other: int|
        0 <= other < jumped.p.expressions.len() && other != t implies #[trigger] exact_at(
        m,
        jumped,
        other,
    ) by {
        assert(exact_at(m, s, other));
        assert(block_at(jumped, other) == block_at(s, other));
        if block_at(s, other) is Some {
            if !fresh {
                assert(block_at(s, other) != block_at(s, t));
            }
            assert(entries_of(made.ssa(), block_at(s, other)->0) == entries_of(
                s.ssa(),
                block_at(s, other)->0,
            ));
        }
    }
    assert forall|one: int, other: int|
        0 <= one < jumped.p.expressions.len() && 0 <= other < jumped.p.expressions.len() && one
            != other && block_at(jumped, one) is Some implies #[trigger] block_at(jumped, one)
        != #[trigger] block_at(jumped, other) by {
        if one != t && other != t {
            assert(block_at(s, one) != block_at(s, other));
        } else if one == t {
            assert(exact_at(m, s, other));
            if !fresh {
                assert(block_at(s, one) != block_at(s, other));
            }
        } else {
            assert(exact_at(m, s, one));
            if !fresh {
                assert(block_at(s, one) != block_at(s, other));
            }
        }
    }
    assert(meeting(jumped) == meeting(s));
    if meeting(s) is Some {
        let c = meeting(s)->0;
        if tail_block_at(jumped, c) {
            let at = choose|at: int|
                0 <= at < jumped.p.expressions.len() && #[trigger] block_at(jumped, at) == Some(c);
            if at != t {
                assert(block_at(s, at) == Some(c));
            } else if !fresh {
                assert(block_at(s, at) == Some(c));
            }
        }
    }
    assert forall|other: int| 0 <= other < s.p.expressions.len() implies fresh_or_same(
        s.ssa().blocks.len(),
        block_at(s, other),
        #[trigger] block_at(jumped, other),
    ) by {}
    assert forall|b: int|
        0 <= b < s.ssa().blocks.len() && !tail_block_at(s, b) && meeting(s) != Some(
            b,
        ) implies #[trigger] entries_of(jumped.ssa(), b) == entries_of(s.ssa(), b) by {
        if !fresh {
            assert(block_at(s, t) == Some(block.0 as int));
        }
        assert(entries_of(made.ssa(), b) == entries_of(s.ssa(), b));
    }
}

proof fn lemma_branch(cx: Cx, m: Bodies, s: St, leaf: Tree)
    requires
        leaf is End,
        leaf->End_0 is Reached,
        pending(m, s, tail_of(leaf)),
        tail_of(leaf) < m.predecessors.len(),
        branch_step(cx, m, s, leaf).ok,
        fits(branch_step(cx, m, s, leaf).s.ssa()),
    ensures
        held(m, s, branch_step(cx, m, s, leaf).s),
    decreases m.weight(), leaf, 0nat, 0nat,
{
    let table = leaf->End_0->Reached_0;
    let t = tail_of(leaf);
    let block = s.p.expressions[t]->0;
    assert(block_at(s, t) == Some(block.0 as int));
    if s.ssa().blocks[block.0 as int].predecessors == m.predecessors[t] as usize {
        let inside = crate::pat::entered_body(s, block, table, t);
        lemma_entered_body(m, s, block, table, t);
        let body = lower_expr(cx, inside.f, m.branches[t]);
        let after = St { f: body.f, ..inside };
        grows::lemma_body_yields(after, body.value);
        lemma_expr_quiet(cx, inside.f, m.branches[t]);
        lemma_local_owing(m, inside, after, 1);
        lemma_stepped_twice(s, inside, after);
        lemma_body_yields(m, after, body.value);
        lemma_held_twice(m, s, after, crate::pat::body_yields(after, body.value).s);
    } else {
        lemma_not_due(m, s, t);
    }
}

proof fn lemma_ints(cx: Cx, m: Bodies, s: St, on: Value, tree: Tree)
    requires
        tree is Ints,
        exact(m, s),
        ints_step(cx, m, s, on, tree).ok,
        fits(ints_step(cx, m, s, on, tree).s.ssa()),
    ensures
        held(m, s, ints_step(cx, m, s, on, tree).s),
    decreases m.weight(), tree, 0nat, tree->Ints_next.len() + 1,
{
    let skipped = s.skipping(tree->Ints_next.len() == 1);
    lemma_local(m, s, skipped);
    lemma_ints_from(cx, m, skipped, on, tree, 0, skipped.make_reset());
    lemma_held_twice(m, s, skipped, ints_from(cx, m, skipped, on, tree, 0, skipped.make_reset()).s);
}

proof fn lemma_ints_from(cx: Cx, m: Bodies, s: St, on: Value, tree: Tree, i: int, point: Reset)
    requires
        tree is Ints,
        exact(m, s),
        ints_from(cx, m, s, on, tree, i, point).ok,
        fits(ints_from(cx, m, s, on, tree, i, point).s.ssa()),
    ensures
        held(m, s, ints_from(cx, m, s, on, tree, i, point).s),
    decreases m.weight(), tree, 0nat, tree->Ints_next.len() - i,
{
    let intsize = tree->intsize;
    let arms = tree->Ints_next;
    if 0 <= i < arms.len() {
        let (range, next) = arms[i];
        if range.end == range.con.max {
            lemma_next(cx, m, s, next);
        } else {
            let on_true = s.ssa().next_block();
            let on_false = Block((s.ssa().blocks.len() + 1) as usize);
            let blocks = s.ssa().new_block(0).new_block(0);
            let checked = range_check(blocks, on, intsize, range);
            lemma_range_checked(blocks, on, intsize, range);
            let value = crate::pat::range_checked(blocks, range);
            let inside = s.with_ssa(checked.select(value, on_true, on_false).switch_to_block(on_true));
            let walked = next_step(cx, m, inside, next);
            let back = walked.s.reset(on_false, point);
            let rest = ints_from(cx, m, back, on, tree, i + 1, point);
            // nothing that follows takes a block away, so the blocks can be counted here
            grows::lemma_selected(checked, value, on_true, on_false);
            grows::lemma_next(cx, m, inside, next);
            grows::lemma_ints_from(cx, m, back, on, tree, i + 1, point);
            lemma_chosen(s.ssa(), checked, value);
            lemma_local(m, s, inside);
            lemma_next(cx, m, inside, next);
            lemma_reset(m, walked.s, on_false, point);
            lemma_ints_from(cx, m, back, on, tree, i + 1, point);
            lemma_stepped_twice(s, inside, walked.s);
            lemma_stepped_twice(s, walked.s, back);
            lemma_held_twice(m, s, back, rest.s);
        }
    } else {
        lemma_local(m, s, s);
    }
}

proof fn lemma_bools(cx: Cx, m: Bodies, s: St, on: Value, tree: Tree)
    requires
        tree is Bools,
        exact(m, s),
        bools_step(cx, m, s, on, tree).ok,
        fits(bools_step(cx, m, s, on, tree).s.ssa()),
    ensures
        held(m, s, bools_step(cx, m, s, on, tree).s),
    decreases m.weight(), tree, 0nat, 0nat,
{
    let arms = tree->Bools_0;
    let skipped = s.skipping(false);
    lemma_local(m, s, skipped);
    if arms.len() == 2 {
        let truthy = if arms[0].0 {
            arms[0]
        } else {
            arms[1]
        };
        let falsey = if arms[0].0 {
            arms[1]
        } else {
            arms[0]
        };
        let point = skipped.make_reset();
        let on_true = skipped.ssa().next_block();
        let on_false = Block((skipped.ssa().blocks.len() + 1) as usize);
        let blocks = skipped.ssa().new_block(0).new_block(0);
        let inside = skipped.with_ssa(blocks.select(on, on_true, on_false).switch_to_block(on_true));
        let first = next_step(cx, m, inside, truthy.1);
        let back = first.s.reset(on_false, point);
        let second = next_step(cx, m, back, falsey.1);
        grows::lemma_selected(blocks, on, on_true, on_false);
        grows::lemma_next(cx, m, inside, truthy.1);
        grows::lemma_next(cx, m, back, falsey.1);
        lemma_chosen(skipped.ssa(), blocks, on);
        lemma_local(m, skipped, inside);
        lemma_next(cx, m, inside, truthy.1);
        lemma_reset(m, first.s, on_false, point);
        lemma_next(cx, m, back, falsey.1);
        lemma_stepped_twice(s, skipped, inside);
        lemma_stepped_twice(s, inside, first.s);
        lemma_stepped_twice(s, first.s, back);
        lemma_held_twice(m, s, back, second.s);
    }
}

proof fn lemma_sum(cx: Cx, m: Bodies, s: St, on: Value, tree: Tree)
    requires
        tree is Sum,
        exact(m, s),
        sum_step(cx, m, s, on, tree).ok,
        fits(sum_step(cx, m, s, on, tree).s.ssa()),
    ensures
        held(m, s, sum_step(cx, m, s, on, tree).s),
    decreases m.weight(), tree, 0nat, tree->Sum_next.len() + 1,
{
    let arms = tree->Sum_next;
    let skipped = s.skipping(arms.len() == 1);
    lemma_local(m, s, skipped);
    let oblock = skipped.ssa().current;
    let key = key_of(skipped.ssa().type_of(on));
    let fields = cx.types.fields_of(key->0);
    let read = skipped.ssa().emit(
        crate::ssa::Entry::Field { of: on, key: key->0, field: crate::key::RecordField(0) },
        MonoType::Int(crate::ssa::spec_tag_size()),
    ).emit(
        crate::ssa::Entry::Field { of: on, key: key->0, field: crate::key::RecordField(1) },
        fields[1],
    );
    let tag = skipped.ssa().next_value();
    let data = skipped.ssa().second_value();
    let start = skipped.with_ssa(read);
    lemma_local(m, skipped, start);
    let base = start.ssa().blocks.len();
    let walked = sum_from(cx, m, start, oblock, data, tree, 0, Seq::empty());
    lemma_jump_tabled(walked.s.ssa(), tag, walked.blocks);
    grows::lemma_jump_tabled(walked.s.ssa(), tag, walked.blocks);
    lemma_sum_from(cx, m, start, oblock, data, tree, 0, Seq::empty(), base);
    let done = walked.s.with_ssa(walked.s.ssa().jump_table(tag, walked.blocks));
    lemma_entering(m, start, walked.s, done, Set::new(|b: int| among(walked.blocks, b)));
    lemma_stepped_twice(s, skipped, start);
    lemma_held_twice(m, s, start, done);
}

/// A block that was just made is the block of no body.
proof fn lemma_new_block_aside(m: Bodies, s: St, made: St)
    requires
        exact(m, s),
        made.p.expressions == s.p.expressions,
        made.p.continuation_block == s.p.continuation_block,
        made.ssa().blocks.len() > s.ssa().blocks.len(),
    ensures
        !tail_block_at(made, s.ssa().blocks.len() as int),
        meeting(made) != Some(s.ssa().blocks.len() as int),
{
    let b = s.ssa().blocks.len() as int;
    if tail_block_at(made, b) {
        let at = choose|at: int|
            0 <= at < made.p.expressions.len() && #[trigger] block_at(made, at) == Some(b);
        assert(block_at(s, at) == Some(b));
        assert(tail_block_at(s, b));
        lemma_tails_are_blocks(m, s, b);
    }
}

proof fn lemma_sum_from(
    cx: Cx,
    m: Bodies,
    s: St,
    oblock: Block,
    data: Value,
    tree: Tree,
    i: int,
    blocks: Seq<Block>,
    base: nat,
)
    requires
        tree is Sum,
        exact(m, s),
        base <= s.ssa().blocks.len(),
        set_aside(s, base, blocks),
        sum_from(cx, m, s, oblock, data, tree, i, blocks).ok,
        fits(sum_from(cx, m, s, oblock, data, tree, i, blocks).s.ssa()),
    ensures
        held(m, s, sum_from(cx, m, s, oblock, data, tree, i, blocks).s),
        set_aside(
            sum_from(cx, m, s, oblock, data, tree, i, blocks).s,
            base,
            sum_from(cx, m, s, oblock, data, tree, i, blocks).blocks,
        ),
    decreases m.weight(), tree, 0nat, tree->Sum_next.len() - i,
{
    let sum = tree->sum;
    let params = tree->params;
    let arms = tree->Sum_next;
    if 0 <= i < arms.len() {
        let (var, next) = arms[i];
        let vblock = s.ssa().next_block();
        let inside = s.enter_new_block();
        let point = inside.make_reset();
        let raw = variant_types(cx, sum, var);
        let first = inside.ssa().entries.len() as int;
        lemma_payload_read(cx, inside.ssa(), data, raw->0, params, 0, 0);
        let read = inside.with_ssa(payload_read(cx, inside.ssa(), data, raw->0, params, 0, 0)).queued(
            crate::pat::results(first, raw->0.len() as int),
        );
        let more = blocks.push(vblock);
        let walked = next_step(cx, m, read, next);
        let back = walked.s.reset(oblock, point);
        let rest = sum_from(cx, m, back, oblock, data, tree, i + 1, more);
        // nothing that follows takes a block away, so the blocks can be counted here
        grows::lemma_next(cx, m, read, next);
        grows::lemma_sum_from(cx, m, back, oblock, data, tree, i + 1, more);
        lemma_local(m, s, inside);
        lemma_local(m, inside, read);
        lemma_stepped_twice(s, inside, read);
        assert(set_aside(read, base, more)) by {
            lemma_still_aside(m, s, read, base, blocks);
            lemma_new_block_aside(m, s, read);
            assert forall|k: int| 0 <= k < more.len() implies base <= #[trigger] at_place(more, k)
                < read.ssa().blocks.len() && !tail_block_at(read, at_place(more, k)) && meeting(
                read,
            ) != Some(at_place(more, k)) by {
                if k < blocks.len() {
                    assert(at_place(more, k) == at_place(blocks, k));
                }
            }
        }
        lemma_next(cx, m, read, next);
        lemma_still_aside(m, read, walked.s, base, more);
        lemma_reset(m, walked.s, oblock, point);
        lemma_still_aside(m, walked.s, back, base, more);
        lemma_sum_from(cx, m, back, oblock, data, tree, i + 1, more, base);
        lemma_stepped_twice(s, read, walked.s);
        lemma_stepped_twice(s, walked.s, back);
        lemma_held_twice(m, s, back, rest.s);
    } else {
        lemma_local(m, s, s);
    }
}

proof fn lemma_list(cx: Cx, m: Bodies, s: St, on: Value, tree: Tree)
    requires
        tree is List,
        exact(m, s),
        list_step(cx, m, s, on, tree).ok,
        fits(list_step(cx, m, s, on, tree).s.ssa()),
    ensures
        held(m, s, list_step(cx, m, s, on, tree).s),
    decreases m.weight(), tree, 0nat, 0nat,
{
    let ty = tree->ty;
    let elem = tree->elem;
    let arms = tree->List_next;
    let skipped = s.skipping(false);
    lemma_local(m, s, skipped);
    let oblock = skipped.ssa().current;
    let listmt = cx.tmap.applied(ty);
    let innermt = cx.tmap.applied(elem);
    let found = cx.mir.implementation(cx.info.listable, seq![innermt], listmt);
    let imp = crate::key::Impl(found->0 as u32);
    let generics = crate::mir::settled(
        cx.mir.impls[found->0].applies(cx.info.listable, seq![innermt], listmt)->0,
    );
    let split = crate::mir::FuncOrigin::Method(imp, cx.info.listable_split);
    let ret = cx.returns_of(split, generics);
    let mfunc = skipped.f.mfunc_of(split, Some(listmt), generics);
    let asked = St { f: skipped.f.call_to_mfunc(cx, split, Some(listmt), generics), ..skipped };
    lemma_local(m, skipped, asked);
    let maybe = asked.ssa().next_value();
    let tag = asked.ssa().second_value();
    let data = asked.ssa().third_value();
    let key = key_of(ret);
    let largest = (cx.types.bits_from(key->0, 0) - crate::ssa::spec_tag_size().bitsize.0) as u32;
    let read = asked.ssa().called(mfunc, seq![on], ret).emit(
        crate::ssa::Entry::Field { of: maybe, key: key->0, field: crate::key::RecordField(0) },
        MonoType::Int(crate::ssa::spec_tag_size()),
    ).emit(
        crate::ssa::Entry::Field { of: maybe, key: key->0, field: crate::key::RecordField(1) },
        MonoType::SumDataCast { largest },
    ).emit(
        crate::ssa::Entry::Compare(
            crate::ssa::Comparison::Equal,
            tag,
            Value::spec_maybe_just(),
            crate::ssa::spec_tag_size(),
        ),
        crate::ssa::spec_truth(),
    );
    let cons = arm_of(arms, crate::tree::spec_list_cons(), 0);
    let nil = arm_of(arms, crate::tree::spec_list_nil(), 0);
    if cons is Some && nil is Some && 0 <= cons->0 < arms.len() && 0 <= nil->0 < arms.len() {
        let base = asked.ssa().blocks.len();
        let con_block = read.next_block();
        let in_cons = asked.with_ssa(read).enter_new_block();
        let cons_point = in_cons.make_reset();
        let taken = in_cons.with_ssa(
            in_cons.ssa().emit(
                crate::ssa::Entry::SumField { of: data, offset: crate::ssa::BitOffset(0) },
                innermt,
            ).emit(
                crate::ssa::Entry::SumField {
                    of: data,
                    offset: crate::ssa::BitOffset(cx.types.bits(innermt) as u32),
                },
                listmt,
            ),
        ).queued(seq![in_cons.ssa().next_value(), in_cons.ssa().second_value()]);
        let first = next_step(cx, m, taken, arms[cons->0].1);
        let back = first.s.reset(oblock, cons_point);
        let nil_block = back.ssa().next_block();
        let in_nil = back.enter_new_block();
        let nil_point = in_nil.make_reset();
        let queued = in_nil.queued(Seq::empty());
        let second = next_step(cx, m, queued, arms[nil->0].1);
        let done = second.s.reset(oblock, nil_point);
        let is_just = Value::V(crate::ssa::V((asked.ssa().entries.len() + 3) as usize));
        let chosen = done.with_ssa(done.ssa().select(is_just, con_block, nil_block));
        // nothing that follows takes a block away, so the blocks can be counted here
        lemma_selected(done.ssa(), is_just, con_block, nil_block);
        grows::lemma_next(cx, m, queued, arms[nil->0].1);
        grows::lemma_next(cx, m, taken, arms[cons->0].1);

        lemma_local(m, asked, in_cons);
        lemma_local(m, in_cons, taken);
        lemma_stepped_twice(asked, in_cons, taken);
        let one = seq![con_block];
        assert(set_aside(taken, base, one)) by {
            lemma_new_block_aside(m, asked, taken);
            assert forall|k: int| 0 <= k < one.len() implies base <= #[trigger] at_place(one, k)
                < taken.ssa().blocks.len() && !tail_block_at(taken, at_place(one, k)) && meeting(
                taken,
            ) != Some(at_place(one, k)) by {}
        }
        lemma_next(cx, m, taken, arms[cons->0].1);
        lemma_reset(m, first.s, oblock, cons_point);
        lemma_stepped_twice(taken, first.s, back);
        lemma_still_aside(m, taken, back, base, one);
        lemma_local(m, back, in_nil);
        lemma_local(m, in_nil, queued);
        lemma_stepped_twice(back, in_nil, queued);
        let both = seq![con_block, nil_block];
        assert(set_aside(queued, base, both)) by {
            lemma_still_aside(m, back, queued, base, one);
            lemma_new_block_aside(m, back, queued);
            assert forall|k: int| 0 <= k < both.len() implies base <= #[trigger] at_place(both, k)
                < queued.ssa().blocks.len() && !tail_block_at(queued, at_place(both, k))
                && meeting(queued) != Some(at_place(both, k)) by {
                if k == 0 {
                    assert(at_place(both, k) == at_place(one, 0));
                }
            }
        }
        lemma_next(cx, m, queued, arms[nil->0].1);
        lemma_reset(m, second.s, oblock, nil_point);
        lemma_stepped_twice(queued, second.s, done);
        lemma_still_aside(m, queued, done, base, both);
        // from where the test began to where both arms are walked
        lemma_stepped_twice(asked, taken, back);
        lemma_stepped_twice(asked, back, queued);
        lemma_stepped_twice(asked, queued, done);
        assert(at_place(both, 0) == con_block.0 && at_place(both, 1) == nil_block.0);
        lemma_entering(m, asked, done, chosen, set![con_block.0 as int, nil_block.0 as int]);
        lemma_stepped_twice(s, skipped, asked);
        lemma_held_twice(m, s, asked, chosen);
    }
}

proof fn lemma_check(
    cx: Cx,
    m: Bodies,
    base: St,
    s: St,
    on: Value,
    falsely: Block,
    check: StrCheck,
    is_last: bool,
)
    requires
        stepped(base, s),
        exact(m, s),
        base.ssa().blocks.len() <= falsely.0 < s.ssa().blocks.len(),
        !tail_block_at(s, falsely.0 as int),
        meeting(s) != Some(falsely.0 as int),
        check_step(cx, s, on, falsely, check, is_last).ok,
        fits(check_step(cx, s, on, falsely, check, is_last).s.ssa()),
    ensures
        held(m, base, check_step(cx, s, on, falsely, check, is_last).s),
        same_walk(s, check_step(cx, s, on, falsely, check, is_last).s),
{
    let info = cx.info;
    let ssa = s.ssa();
    match check {
        StrCheck::Literal(key) => {
            let len = Value::Int(cx.mir.read_only[key.0 as int] as i128, crate::pat::spec_word());
            let made = ssa.called(
                info.string_from_raw,
                seq![Value::ReadOnly(key), len],
                info.string,
            );
            let literal = ssa.next_value();
            if is_last {
                let held = made.called(
                    info.string_equals,
                    seq![on, literal],
                    crate::ssa::spec_truth(),
                );
                lemma_pass_or(m, base, s, s.with_ssa(held).seen(literal), made.next_value(), falsely);
            } else {
                let cut = made.halved(
                    info.string_split_at,
                    seq![on, len],
                    info.string_pair,
                    info.string,
                    info.string,
                );
                let held = cut.called(
                    info.string_equals,
                    seq![made.second_value(), literal],
                    crate::ssa::spec_truth(),
                );
                lemma_pass_or(m, base, s, s.with_ssa(held).seen(literal), cut.next_value(), falsely);
            }
        },
        StrCheck::Take(bytes) => {
            let at = Value::Int(bytes as i128, crate::pat::spec_word());
            let cut = ssa.halved(
                info.string_split_at,
                seq![on, at],
                info.string_pair,
                info.string,
                info.string,
            );
            let counted = cut.called(
                info.string_len,
                seq![ssa.second_value()],
                MonoType::Int(crate::pat::spec_word()),
            );
            let held = counted.emit(
                crate::ssa::Entry::Compare(
                    crate::ssa::Comparison::Equal,
                    at,
                    cut.next_value(),
                    crate::pat::spec_word(),
                ),
                crate::ssa::spec_truth(),
            );
            lemma_pass_or(
                m,
                base,
                s,
                s.with_ssa(held).seen(ssa.second_value()),
                counted.next_value(),
                falsely,
            );
        },
        StrCheck::TakeExcess => {
            lemma_local(m, s, s.seen(on));
            lemma_stepped_twice(base, s, s.seen(on));
        },
        StrCheck::TakeByte => {
            let cut = ssa.halved(
                info.string_split_first,
                seq![on],
                info.byte_and_string,
                MonoType::Int(crate::pat::spec_byte()),
                info.string,
            );
            let held = cut.emit(
                crate::ssa::Entry::Compare(
                    crate::ssa::Comparison::Equal,
                    ssa.second_value(),
                    Value::Int(0, crate::pat::spec_byte()),
                    crate::pat::spec_byte(),
                ),
                crate::ssa::spec_truth(),
            );
            lemma_pass_or(
                m,
                base,
                s,
                s.with_ssa(held).seen(ssa.second_value()),
                cut.next_value(),
                falsely,
            );
        },
        StrCheck::TakeWhileLocal(_) => {
            let next = check_step(cx, s, on, falsely, check, is_last).s;
            lemma_local(m, s, next);
            lemma_stepped_twice(base, s, next);
        },
        StrCheck::TakeWhileFunc(_) => {
            let next = check_step(cx, s, on, falsely, check, is_last).s;
            lemma_local(m, s, next);
            lemma_stepped_twice(base, s, next);
        },
        StrCheck::TakeWhileLambda(lambda) => {
            let built = s.dyn_lambda(cx, lambda);
            lemma_local(m, s, built);
            let next = check_step(cx, s, on, falsely, check, is_last).s;
            lemma_local(m, built, next);
            lemma_stepped_twice(s, built, next);
            lemma_stepped_twice(base, s, next);
        },
    }
}

proof fn lemma_checks(
    cx: Cx,
    m: Bodies,
    base: St,
    s: St,
    on: Value,
    falsely: Block,
    checks: Seq<StrCheck>,
    i: int,
)
    requires
        stepped(base, s),
        exact(m, s),
        base.ssa().blocks.len() <= falsely.0 < s.ssa().blocks.len(),
        !tail_block_at(s, falsely.0 as int),
        meeting(s) != Some(falsely.0 as int),
        checks_from(cx, s, on, falsely, checks, i).ok,
        fits(checks_from(cx, s, on, falsely, checks, i).s.ssa()),
    ensures
        held(m, base, checks_from(cx, s, on, falsely, checks, i).s),
    decreases checks.len() - i,
{
    if 0 <= i < checks.len() {
        let here = check_step(cx, s, on, falsely, checks[i], i == checks.len() - 1);
        grows::lemma_checks(cx, m, here.s, here.on, falsely, checks, i + 1);
        lemma_check(cx, m, base, s, on, falsely, checks[i], i == checks.len() - 1);
        assert(!tail_block_at(here.s, falsely.0 as int)) by {
            if tail_block_at(here.s, falsely.0 as int) {
                let at = choose|at: int|
                    0 <= at < here.s.p.expressions.len() && #[trigger] block_at(here.s, at)
                        == Some(falsely.0 as int);
                assert(block_at(s, at) == Some(falsely.0 as int));
            }
        }
        lemma_checks(cx, m, base, here.s, here.on, falsely, checks, i + 1);
    }
}

proof fn lemma_string(cx: Cx, m: Bodies, s: St, on: Value, tree: Tree)
    requires
        tree is String,
        exact(m, s),
        string_step(cx, m, s, on, tree).ok,
        fits(string_step(cx, m, s, on, tree).s.ssa()),
    ensures
        held(m, s, string_step(cx, m, s, on, tree).s),
    decreases m.weight(), tree, 0nat, tree->String_next.len() + 1,
{
    let start = St { p: Pat { map: s.p.map.drop_last(), ..s.p }, ..s }.skipping(false);
    lemma_local(m, s, start);
    lemma_string_from(cx, m, start, on, tree, 0, start.make_reset());
    lemma_held_twice(m, s, start, string_from(cx, m, start, on, tree, 0, start.make_reset()).s);
}

proof fn lemma_string_from(cx: Cx, m: Bodies, s: St, on: Value, tree: Tree, i: int, point: Reset)
    requires
        tree is String,
        exact(m, s),
        string_from(cx, m, s, on, tree, i, point).ok,
        fits(string_from(cx, m, s, on, tree, i, point).s.ssa()),
    ensures
        held(m, s, string_from(cx, m, s, on, tree, i, point).s),
    decreases m.weight(), tree, 0nat, tree->String_next.len() - i,
{
    match tree {
        Tree::String { next: arms, wildcard_next } => {
            if 0 <= i < arms.len() {
                let falsely = s.ssa().next_block();
                let made = s.with_ssa(s.ssa().new_block(0));
                let checked = checks_from(cx, made, on, falsely, arms[i].0, 0);
                let walked = next_step(cx, m, checked.s, arms[i].1);
                let back = walked.s.reset(falsely, point);
                let rest = string_from(cx, m, back, on, tree, i + 1, point);
                // nothing that follows takes a block away, so the blocks can be counted here
                grows::lemma_checks(cx, m, made, on, falsely, arms[i].0, 0);
                grows::lemma_next(cx, m, checked.s, arms[i].1);
                grows::lemma_string_from(cx, m, back, on, tree, i + 1, point);
                lemma_local(m, s, made);
                lemma_new_block_aside(m, s, made);
                lemma_checks(cx, m, s, made, on, falsely, arms[i].0, 0);
                lemma_next(cx, m, checked.s, arms[i].1);
                lemma_reset(m, walked.s, falsely, point);
                lemma_string_from(cx, m, back, on, tree, i + 1, point);
                lemma_stepped_twice(s, checked.s, walked.s);
                lemma_stepped_twice(s, walked.s, back);
                lemma_held_twice(m, s, back, rest.s);
            } else {
                lemma_next(cx, m, s, *wildcard_next);
            }
        },
        _ => {},
    }
}

/// The body of every branch of a match is lowered once if at least one
/// leaf was counted for it and as many leaves of the tree as were counted
/// jump to it, however many these are, and not at all if fewer do; the
/// body of a branch to which no leaf leads is not lowered.
pub proof fn lemma_each_body_once(cx: Cx, m: Bodies, f: Func, on: Value, tree: Tree)
    requires
        run_step(cx, m, St { f, p: Pat::start(m.branches.len() as nat) }, on, tree).ok,
        fits(run_step(cx, m, St { f, p: Pat::start(m.branches.len() as nat) }, on, tree).f.ssa),
    ensures
        ({
            let walked = tree_step(
                cx,
                m,
                St { f, p: Pat::start(m.branches.len() as nat) },
                on,
                tree,
            ).s;
            forall|tail: int|
                0 <= tail < m.branches.len() ==> {
                    &&& #[trigger] walked.p.lowered[tail] == due(m, walked.p.jumps[tail], tail)
                    &&& walked.p.lowered[tail] <= 1
                    &&& walked.p.jumps[tail] == 0 ==> walked.p.lowered[tail] == 0
                    &&& tail < m.predecessors.len() && 1 <= m.predecessors[tail]
                        == walked.p.jumps[tail] ==> walked.p.lowered[tail] == 1
                }
        }),
{
    let s = St { f, p: Pat::start(m.branches.len() as nat) };
    lemma_start(m, f, m.branches.len() as nat);
    lemma_run(cx, m, s, on, tree);
    let walked = tree_step(cx, m, s, on, tree).s;
    grows::lemma_tree(cx, m, s, on, tree);
    lemma_tree(cx, m, s, on, tree);
    assert forall|tail: int| 0 <= tail < m.branches.len() implies {
        &&& #[trigger] walked.p.lowered[tail] == due(m, walked.p.jumps[tail], tail)
        &&& walked.p.lowered[tail] <= 1
        &&& walked.p.jumps[tail] == 0 ==> walked.p.lowered[tail] == 0
        &&& tail < m.predecessors.len() && 1 <= m.predecessors[tail] == walked.p.jumps[tail]
            ==> walked.p.lowered[tail] == 1
    } by {
        assert(exact_at(m, walked, tail));
    }
}

/// Where a match has a test with more than one arm, the block in which
/// its branches meet is the block of no body, and into it lead as many
/// jumps as bodies have been lowered: the one with which each body hands
/// over its value, and no other.
pub proof fn lemma_only_bodies_meet(cx: Cx, m: Bodies, f: Func, on: Value, tree: Tree)
    requires
        run_step(cx, m, St { f, p: Pat::start(m.branches.len() as nat) }, on, tree).ok,
        fits(run_step(cx, m, St { f, p: Pat::start(m.branches.len() as nat) }, on, tree).f.ssa),
    ensures
        ({
            let walked = tree_step(
                cx,
                m,
                St { f, p: Pat::start(m.branches.len() as nat) },
                on,
                tree,
            ).s;
            !walked.p.can_skip ==> match meeting(walked) {
                Some(c) => 0 <= c < walked.ssa().blocks.len() && !tail_block_at(walked, c)
                    && entries_of(walked.ssa(), c) == crate::pat::exact::capped(
                    crate::pat::exact::total(walked.p.lowered),
                ),
                None => false,
            }
        }),
{
    let s = St { f, p: Pat::start(m.branches.len() as nat) };
    lemma_start(m, f, m.branches.len() as nat);
    lemma_run(cx, m, s, on, tree);
}

} // verus!
