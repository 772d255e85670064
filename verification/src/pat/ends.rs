//! Every way through a match ends where its branches meet: where the tree
//! has no leaf that nothing leads to, and each body has as many leaves as
//! were counted for it, lowering leaves no block open but the one in which
//! it goes on. The proof, step by step along the walk.

use crate::key::Bind;
use crate::lower::{Cx, Func};
use crate::mir::{bodies_size, expr_size, fields_size, Expr};
use crate::pat::exact::{
    block_at, fits, lemma_access, lemma_address, lemma_call, lemma_cast, lemma_compare,
    lemma_deref, lemma_lambda_call, lemma_local_call, lemma_num, lemma_record, lemma_size,
    lemma_tuple, lemma_write, meeting, only_emits, tail_of,
};
use crate::pat::grows::{self, grown, lemma_grown_twice};
use crate::pat::leaves::leaves;
use crate::pat::{
    arm_of, bind_params, bools_step, branch_step, check_step, checks_from, continuation,
    fields_read, fields_step, ints_from, ints_step, key_of, list_step, lower_all, lower_expr,
    lower_fields, match_value, next_step, payload_read, range_check, run_step, string_from,
    string_step, sum_from, sum_step, tail_step, tree_step, variant_types, Bodies, Pat, Reset, St,
};
use crate::ssa::{Block, ControlFlow, Ssa, Value};
use crate::tree::{StrCheck, Tail, Tree};
use crate::types::MonoType;
use vstd::prelude::*;

verus! {

/// Whether block `x` is ended.
pub open spec fn ended(ssa: Ssa, x: int) -> bool {
    !(ssa.blocks[x].flow is Open)
}

/// Whether block `x` is the block of a body that has not been lowered.
pub open spec fn waiting(s: St, x: int) -> bool {
    exists|tail: int|
        0 <= tail < s.p.expressions.len() && #[trigger] block_at(s, tail) == Some(x)
            && s.p.lowered[tail] == 0
}

/// What holds along the walk of a match that started at `base`: of the
/// block in which it started and of those made since, each is ended, but
/// the one in which the walk goes on, those in `aside`, in which it will
/// go on, the one in which the branches meet, and those of bodies that
/// have not been lowered.
pub open spec fn shut(base: Ssa, s: St, aside: Set<int>) -> bool {
    forall|x: int|
        0 <= x < s.ssa().blocks.len() && (x == base.current.0 || x >= base.blocks.len())
            ==> #[trigger] ended(s.ssa(), x) || x == s.ssa().current.0 || aside.contains(x)
            || meeting(s) == Some(x) || waiting(s, x)
}

/// What lowering that goes on from `before` leaves open: of the blocks
/// made since, none but the one in which it goes on, which is a block that
/// there is; and the block in which it went on is that one, or is ended.
pub open spec fn closed(before: Ssa, after: Ssa) -> bool {
    &&& forall|x: int|
        before.blocks.len() <= x < after.blocks.len() && x != after.current.0 ==> #[trigger] ended(
            after,
            x,
        )
    &&& after.current == before.current || (before.wf() ==> ended(after, before.current.0 as int))
    &&& before.wf() ==> after.wf()
}

/// Whether a body that has no block has not been lowered, and the block
/// of a body that has one is a block of the function.
pub open spec fn tidy(s: St) -> bool {
    &&& s.p.lowered.len() == s.p.expressions.len()
    &&& forall|tail: int|
        0 <= tail < s.p.expressions.len() ==> match #[trigger] s.p.expressions[tail] {
            Some(block) => s.ssa().has(block),
            None => s.p.lowered[tail] == 0,
        }
}

/// Whether every leaf that the walk comes to is one that a pattern leads
/// to, and every integer test has an arm that takes all that is left.
pub open spec fn alive(tree: Tree) -> bool
    decreases tree, 1nat, 0nat,
{
    match tree {
        Tree::Record { next } => alive(*next),
        Tree::Tuple { next } => alive(*next),
        Tree::Wildcard { next } => alive(*next),
        Tree::Opaque { next } => alive(*next),
        Tree::End(leaf) => leaf is Reached,
        Tree::Bools(arms) => arms.len() == 2 && alive(arms[0].1) && alive(arms[1].1),
        Tree::Ints { .. } => ints_alive(tree, 0),
        Tree::Sum { .. } => sum_alive(tree, 0),
        Tree::List { next: arms, .. } => {
            let cons = arm_of(arms, crate::tree::spec_list_cons(), 0);
            let nil = arm_of(arms, crate::tree::spec_list_nil(), 0);
            cons is Some && nil is Some && 0 <= cons->0 < arms.len() && 0 <= nil->0 < arms.len()
                && alive(arms[cons->0].1) && alive(arms[nil->0].1)
        },
        Tree::String { .. } => string_alive(tree, 0),
    }
}

/// The same of the arms of an integer test from arm `i` on.
pub open spec fn ints_alive(tree: Tree, i: int) -> bool
    decreases tree, 0nat, tree->Ints_next.len() - i,
    when tree is Ints
{
    let arms = tree->Ints_next;
    0 <= i < arms.len() && alive(arms[i].1) && (arms[i].0.end == arms[i].0.con.max || ints_alive(
        tree,
        i + 1,
    ))
}

/// The same of the arms of a test on a sum from arm `i` on.
pub open spec fn sum_alive(tree: Tree, i: int) -> bool
    decreases tree, 0nat, tree->Sum_next.len() - i,
    when tree is Sum
{
    let arms = tree->Sum_next;
    0 <= i < arms.len() ==> alive(arms[i].1) && sum_alive(tree, i + 1)
}

/// The same of the arms of a test on a string from arm `i` on, and of what
/// matches any string.
pub open spec fn string_alive(tree: Tree, i: int) -> bool
    decreases tree, 0nat, tree->String_next.len() - i,
    when tree is String
{
    match tree {
        Tree::String { next: arms, wildcard_next } => if 0 <= i < arms.len() {
            alive(arms[i].1) && string_alive(tree, i + 1)
        } else {
            alive(*wildcard_next)
        },
        _ => false,
    }
}

/// Whether the tree has no test with more than one arm, so that the walk
/// comes to one leaf and needs no block for branches to meet in.
pub open spec fn straight(tree: Tree) -> bool
    decreases tree,
{
    match tree {
        Tree::Record { next } => straight(*next),
        Tree::Tuple { next } => straight(*next),
        Tree::Wildcard { next } => straight(*next),
        Tree::Opaque { next } => straight(*next),
        Tree::End(_) => true,
        Tree::Ints { next: arms, .. } => arms.len() == 1 && straight(arms[0].1),
        Tree::Sum { next: arms, .. } => arms.len() == 1 && straight(arms[0].1),
        _ => false,
    }
}

/// Whether the tree has no test that ends a block: none on a sum, and on
/// an integer only such with one arm, which takes all. A test on a sum with
/// one variant ends the block in which it starts with a jump table and
/// keeps lowering in that block; where no test with more than one arm
/// follows, the only body gives its value in another block.
pub open spec fn direct(tree: Tree) -> bool
    decreases tree,
{
    match tree {
        Tree::Record { next } => direct(*next),
        Tree::Tuple { next } => direct(*next),
        Tree::Wildcard { next } => direct(*next),
        Tree::Opaque { next } => direct(*next),
        Tree::End(_) => true,
        Tree::Ints { next: arms, .. } => arms.len() == 1 && arms[0].0.end == arms[0].0.con.max
            && direct(arms[0].1),
        _ => false,
    }
}

/// Whether a match is whole: every leaf that the walk comes to is one that
/// a pattern leads to; for each body as many leaves are counted as the tree
/// has for it; and where the tree has no test with more than one arm, it
/// has none that ends a block.
pub open spec fn whole_match(tree: Tree, bodies: nat, counts: Seq<u16>) -> bool {
    &&& alive(tree)
    &&& straight(tree) ==> direct(tree)
    &&& counts.len() == bodies
    &&& forall|tail: int| 0 <= tail < bodies ==> #[trigger] counts[tail] == leaves(tree, tail)
}

/// Whether every match in an expression is whole.
pub open spec fn whole_expr(e: Expr) -> bool
    decreases e,
{
    match e {
        Expr::IntCast(inner, _, _) => whole_expr(*inner),
        Expr::Compare(_, left, right) => whole_expr(*left) && whole_expr(*right),
        Expr::Num(_, left, right) => whole_expr(*left) && whole_expr(*right),
        Expr::Access(object, _, _) => whole_expr(*object),
        Expr::Write(pointer, value) => whole_expr(*pointer) && whole_expr(*value),
        Expr::Record(_, fields) => fields_whole(fields, 0),
        Expr::CallFunc(_, params) => all_whole(params, 0),
        Expr::Deref(inner) => whole_expr(*inner),
        Expr::Tuple(elems) => all_whole(elems, 0),
        Expr::CallLocal(_, params) => all_whole(params, 0),
        Expr::CallLambda(_, params) => all_whole(params, 0),
        Expr::Match(on, tree, branches, counts) => whole_expr(*on) && all_whole(branches, 0)
            && whole_match(tree@, branches.len() as nat, counts@),
        _ => true,
    }
}

/// The same of the expressions from index `from` on.
pub open spec fn all_whole(exprs: Vec<Expr>, from: int) -> bool
    decreases exprs, exprs.len() - from,
{
    0 <= from < exprs.len() ==> whole_expr(exprs[from]) && all_whole(exprs, from + 1)
}

/// The same of the fields from index `from` on.
pub open spec fn fields_whole(fields: Vec<(crate::key::RecordField, Expr)>, from: int) -> bool
    decreases fields, fields.len() - from,
{
    0 <= from < fields.len() ==> whole_expr(fields[from].1) && fields_whole(fields, from + 1)
}

/// Each of expressions that are whole is whole.
pub proof fn lemma_one_whole(exprs: Vec<Expr>, from: int, at: int)
    requires
        0 <= from <= at < exprs.len(),
        all_whole(exprs, from),
    ensures
        whole_expr(exprs[at]),
    decreases at - from,
{
    if from < at {
        lemma_one_whole(exprs, from + 1, at);
    }
}

pub(crate) proof fn lemma_closed_twice(a: Ssa, b: Ssa, c: Ssa)
    requires
        closed(a, b),
        closed(b, c),
        grown(a, b),
        grown(b, c),
    ensures
        closed(a, c),
{
    assert forall|x: int| a.blocks.len() <= x < c.blocks.len() && x != c.current.0 implies #[trigger] ended(
        c,
        x,
    ) by {
        if x < b.blocks.len() {
            if x != b.current.0 {
                assert(ended(b, x));
            }
        }
    }
    if c.current != a.current && a.wf() {
        if b.current != a.current {
            assert(ended(b, a.current.0 as int));
        } else {
            assert(b.wf());
        }
    }
}

pub(crate) proof fn lemma_closed_emits(a: Ssa, b: Ssa, c: Ssa)
    requires
        closed(a, b),
        only_emits(b, c),
    ensures
        closed(a, c),
{
    assert forall|x: int| a.blocks.len() <= x < c.blocks.len() && x != c.current.0 implies #[trigger] ended(
        c,
        x,
    ) by {
        assert(ended(b, x));
    }
}

/// What is kept by a part of the walk that leaves the walk's own state as
/// it was, ends no block but the one in which it is, and leaves none of
/// the blocks that it makes open but the one in which it goes on and those
/// that it sets aside.
pub(crate) proof fn lemma_shut_moved(base: Ssa, s: St, next: St, aside: Set<int>, more: Set<int>)
    requires
        shut(base, s, aside),
        grown(s.ssa(), next.ssa()),
        next.p.expressions == s.p.expressions,
        next.p.lowered == s.p.lowered,
        next.p.continuation_block == s.p.continuation_block,
        aside.subset_of(more),
        next.ssa().current == s.ssa().current || ended(next.ssa(), s.ssa().current.0 as int)
            || more.contains(s.ssa().current.0 as int),
        forall|x: int|
            s.ssa().blocks.len() <= x < next.ssa().blocks.len() ==> #[trigger] ended(next.ssa(), x)
                || x == next.ssa().current.0 || more.contains(x),
    ensures
        shut(base, next, more),
{
    assert forall|x: int|
        0 <= x < next.ssa().blocks.len() && (x == base.current.0 || x >= base.blocks.len()) implies #[trigger] ended(
        next.ssa(),
        x,
    ) || x == next.ssa().current.0 || more.contains(x) || meeting(next) == Some(x) || waiting(
        next,
        x,
    ) by {
        if x < s.ssa().blocks.len() {
            assert(ended(s.ssa(), x) || x == s.ssa().current.0 || aside.contains(x) || meeting(s)
                == Some(x) || waiting(s, x));
            if waiting(s, x) {
                let tail = choose|tail: int|
                    0 <= tail < s.p.expressions.len() && #[trigger] block_at(s, tail) == Some(x)
                        && s.p.lowered[tail] == 0;
                assert(block_at(next, tail) == Some(x));
            }
        }
    }
}

/// Whether the block in which the branches meet, where there is one, is
/// kept apart: it is not ended, the walk is not in it and will not be, and
/// it is the block of no body.
pub open spec fn apart(s: St, aside: Set<int>) -> bool {
    match s.p.continuation_block {
        Some((block, _)) => {
            &&& s.ssa().has(block)
            &&& s.ssa().blocks[block.0 as int].flow is Open
            &&& block != s.ssa().current
            &&& !aside.contains(block.0 as int)
            &&& forall|tail: int|
                0 <= tail < s.p.expressions.len() ==> #[trigger] s.p.expressions[tail] != Some(
                    block,
                )
        },
        None => true,
    }
}

/// What the walk takes for granted at each step: what `shut`, `apart` and
/// `tidy` say, no body has given its value, and every match in a body is
/// whole.
pub open spec fn steady(base: Ssa, m: Bodies, s: St, aside: Set<int>) -> bool {
    &&& shut(base, s, aside)
    &&& apart(s, aside)
    &&& forall|x: int| aside.contains(x) ==> x < s.ssa().blocks.len()
    &&& s.ssa().wf()
    &&& tidy(s)
    &&& s.p.continuation_value is None
    &&& all_whole(m.branches, 0)
}

/// What holds after the walk of `tree` from `s`: what `shut`, `apart` and
/// `tidy` say; the block in which it started is ended; unless the only
/// body gave its value, which takes a tree with no test of more than one
/// arm, the block in which it goes on is ended too.
pub open spec fn settled(base: Ssa, s: St, after: St, aside: Set<int>, tree: Tree) -> bool {
    &&& shut(base, after, aside)
    &&& apart(after, aside)
    &&& after.ssa().wf()
    &&& tidy(after)
    &&& ended(after.ssa(), s.ssa().current.0 as int)
    &&& after.p.continuation_value is None ==> ended(after.ssa(), after.ssa().current.0 as int)
    &&& after.p.continuation_value is Some ==> s.p.can_skip && straight(tree)
    &&& after.p.can_skip ==> s.p.can_skip
}

/// Back in a block that was set aside, once the block in which the walk
/// went on is ended.
pub(crate) proof fn lemma_shut_back(base: Ssa, walked: St, block: Block, point: Reset, aside: Set<int>)
    requires
        shut(base, walked, aside.insert(block.0 as int)),
        ended(walked.ssa(), walked.ssa().current.0 as int),
    ensures
        shut(base, walked.reset(block, point), aside),
{
    let back = walked.reset(block, point);
    assert forall|x: int|
        0 <= x < back.ssa().blocks.len() && (x == base.current.0 || x >= base.blocks.len()) implies #[trigger] ended(
        back.ssa(),
        x,
    ) || x == back.ssa().current.0 || aside.contains(x) || meeting(back) == Some(x) || waiting(
        back,
        x,
    ) by {
        assert(ended(walked.ssa(), x) || x == walked.ssa().current.0 || aside.insert(
            block.0 as int,
        ).contains(x) || meeting(walked) == Some(x) || waiting(walked, x));
        if waiting(walked, x) {
            let tail = choose|tail: int|
                0 <= tail < walked.p.expressions.len() && #[trigger] block_at(walked, tail) == Some(
                    x,
                ) && walked.p.lowered[tail] == 0;
            assert(block_at(back, tail) == Some(x));
        }
    }
}

/// A choice between two blocks that were just made: on in the first, the
/// second set aside.
pub(crate) proof fn lemma_shut_chosen(base: Ssa, s: St, checked: Ssa, value: Value, aside: Set<int>)
    requires
        shut(base, s, aside),
        s.ssa().wf(),
        s.ssa().blocks.len() + 2 <= usize::MAX,
        only_emits(s.ssa().new_block(0).new_block(0), checked),
    ensures
        ({
            let on_true = s.ssa().next_block();
            let on_false = Block((s.ssa().blocks.len() + 1) as usize);
            let inside = s.with_ssa(checked.select(value, on_true, on_false).switch_to_block(on_true));
            &&& shut(base, inside, aside.insert(on_false.0 as int))
            &&& ended(inside.ssa(), s.ssa().current.0 as int)
            &&& grown(s.ssa(), inside.ssa())
        }),
{
    let on_true = s.ssa().next_block();
    let on_false = Block((s.ssa().blocks.len() + 1) as usize);
    let chosen = checked.select(value, on_true, on_false);
    let inside = s.with_ssa(chosen.switch_to_block(on_true));
    grows::lemma_selected(checked, value, on_true, on_false);
    assert(grown(s.ssa(), checked));
    lemma_grown_twice(s.ssa(), checked, chosen);
    let ended_now = checked.end(ControlFlow::Select { value, on_true, on_false });
    assert(ended(ended_now, s.ssa().current.0 as int));
    grows::lemma_entered(ended_now, on_true);
    grows::lemma_entered(ended_now.enter(on_true), on_false);
    lemma_shut_moved(base, s, inside, aside, aside.insert(on_false.0 as int));
}

/// On in a block that is made for it, the block in which the walk was set
/// aside.
pub(crate) proof fn lemma_shut_entered(base: Ssa, s: St, aside: Set<int>)
    requires
        shut(base, s, aside),
        s.ssa().blocks.len() < usize::MAX,
    ensures
        shut(base, s.enter_new_block(), aside.insert(s.ssa().current.0 as int)),
        grown(s.ssa(), s.enter_new_block().ssa()),
{
    lemma_shut_moved(base, s, s.enter_new_block(), aside, aside.insert(s.ssa().current.0 as int));
}

/// Instructions keep what holds along the walk.
pub(crate) proof fn lemma_steady_emits(base: Ssa, m: Bodies, s: St, next: St, aside: Set<int>)
    requires
        steady(base, m, s, aside),
        only_emits(s.ssa(), next.ssa()),
        next.p.expressions == s.p.expressions,
        next.p.lowered == s.p.lowered,
        next.p.continuation_block == s.p.continuation_block,
        next.p.continuation_value == s.p.continuation_value,
    ensures
        steady(base, m, next, aside),
{
    lemma_shut_moved(base, s, next, aside, aside);
}

/// The lowering of an expression in which every match is whole leaves no
/// block that it makes open but the one in which it goes on.
pub proof fn lemma_expr_closed(cx: Cx, f: Func, e: Expr)
    requires
        lower_expr(cx, f, e).ok,
        fits(lower_expr(cx, f, e).f.ssa),
        whole_expr(e),
        f.ssa.wf(),
    ensures
        closed(f.ssa, lower_expr(cx, f, e).f.ssa),
    decreases expr_size(e), Tree::End(Tail::Poison), 0nat, 0nat,
{
    match e {
        Expr::IntCast(inner, from, to) => {
            let lowered = lower_expr(cx, f, *inner);
            lemma_cast(lowered, from, to);
            lemma_expr_closed(cx, f, *inner);
            lemma_closed_emits(f.ssa, lowered.f.ssa, lower_expr(cx, f, e).f.ssa);
        },
        Expr::Compare(name, left, right) => {
            let l = lower_expr(cx, f, *left);
            let r = lower_expr(cx, l.f, *right);
            lemma_compare(name@, l, r);
            grows::lemma_expr_grows(cx, l.f, *right);
            grows::lemma_expr_grows(cx, f, *left);
            lemma_expr_closed(cx, f, *left);
            lemma_expr_closed(cx, l.f, *right);
            lemma_closed_twice(f.ssa, l.f.ssa, r.f.ssa);
            lemma_closed_emits(f.ssa, r.f.ssa, lower_expr(cx, f, e).f.ssa);
        },
        Expr::Num(name, left, right) => {
            let l = lower_expr(cx, f, *left);
            let r = lower_expr(cx, l.f, *right);
            lemma_num(name@, l, r);
            grows::lemma_expr_grows(cx, l.f, *right);
            grows::lemma_expr_grows(cx, f, *left);
            lemma_expr_closed(cx, f, *left);
            lemma_expr_closed(cx, l.f, *right);
            lemma_closed_twice(f.ssa, l.f.ssa, r.f.ssa);
            lemma_closed_emits(f.ssa, r.f.ssa, lower_expr(cx, f, e).f.ssa);
        },
        Expr::Access(object, key, field) => {
            let lowered = lower_expr(cx, f, *object);
            lemma_access(cx, lowered, key, field);
            lemma_expr_closed(cx, f, *object);
            lemma_closed_emits(f.ssa, lowered.f.ssa, lower_expr(cx, f, e).f.ssa);
        },
        Expr::Write(pointer, value) => {
            let p = lower_expr(cx, f, *pointer);
            let v = lower_expr(cx, p.f, *value);
            lemma_write(p, v);
            grows::lemma_expr_grows(cx, p.f, *value);
            grows::lemma_expr_grows(cx, f, *pointer);
            lemma_expr_closed(cx, f, *pointer);
            lemma_expr_closed(cx, p.f, *value);
            lemma_closed_twice(f.ssa, p.f.ssa, v.f.ssa);
            lemma_closed_emits(f.ssa, v.f.ssa, lower_expr(cx, f, e).f.ssa);
        },
        Expr::SizeOf(ty) => {
            lemma_size(cx, f, ty);
        },
        Expr::ValToRef(val) => {
            lemma_address(f, *val);
        },
        Expr::Record(key, fields) => {
            let given = lower_fields(cx, f, fields, 0, Seq::empty());
            lemma_record(key, crate::pat::names_of(fields), given);
            lemma_fields_closed(cx, f, fields, 0, Seq::empty());
            lemma_closed_emits(f.ssa, given.f.ssa, lower_expr(cx, f, e).f.ssa);
        },
        Expr::CallFunc(func, params) => {
            let args = lower_all(cx, f, params, 0, Seq::empty());
            lemma_call(func, params.len() as nat, args);
            lemma_all_closed(cx, f, params, 0, Seq::empty());
            lemma_closed_emits(f.ssa, args.f.ssa, lower_expr(cx, f, e).f.ssa);
        },
        Expr::Deref(inner) => {
            let lowered = lower_expr(cx, f, *inner);
            lemma_deref(lowered);
            lemma_expr_closed(cx, f, *inner);
            lemma_closed_emits(f.ssa, lowered.f.ssa, lower_expr(cx, f, e).f.ssa);
        },
        Expr::Tuple(elems) => {
            let args = lower_all(cx, f, elems, 0, Seq::empty());
            lemma_tuple(cx, args);
            lemma_all_closed(cx, f, elems, 0, Seq::empty());
            lemma_closed_emits(f.ssa, args.f.ssa, lower_expr(cx, f, e).f.ssa);
        },
        Expr::CallLambda(lambda, params) => {
            let args = lower_all(cx, f, params, 0, Seq::empty());
            lemma_lambda_call(cx, lambda, args);
            lemma_all_closed(cx, f, params, 0, Seq::empty());
            lemma_closed_emits(f.ssa, args.f.ssa, lower_expr(cx, f, e).f.ssa);
        },
        Expr::CallLocal(local, params) => {
            let args = lower_all(cx, f, params, 0, Seq::empty());
            lemma_local_call(cx, local, args);
            lemma_all_closed(cx, f, params, 0, Seq::empty());
            lemma_closed_emits(f.ssa, args.f.ssa, lower_expr(cx, f, e).f.ssa);
        },
        Expr::Match(matched, tree, branches, predecessors) => {
            let on = lower_expr(cx, f, *matched);
            let m = Bodies { branches, predecessors: predecessors@ };
            let s = St { f: on.f, p: Pat::start(branches.len() as nat) };
            grows::lemma_run_grows(cx, m, s, on.value, tree@);
            grows::lemma_expr_grows(cx, f, *matched);
            lemma_expr_closed(cx, f, *matched);
            lemma_run(cx, m, s, on.value, tree@);
            lemma_closed_twice(f.ssa, on.f.ssa, run_step(cx, m, s, on.value, tree@).f.ssa);
        },
        _ => {},
    }
}

/// The same of expressions lowered one after the other.
pub proof fn lemma_all_closed(cx: Cx, f: Func, exprs: Vec<Expr>, from: int, before: Seq<Value>)
    requires
        lower_all(cx, f, exprs, from, before).ok,
        fits(lower_all(cx, f, exprs, from, before).f.ssa),
        all_whole(exprs, from),
        f.ssa.wf(),
    ensures
        closed(f.ssa, lower_all(cx, f, exprs, from, before).f.ssa),
    decreases bodies_size(exprs, from), Tree::End(Tail::Poison), 1nat, 0nat,
{
    if 0 <= from < exprs.len() && expr_size(exprs[from]) >= 1 {
        let here = lower_expr(cx, f, exprs[from]);
        grows::lemma_all_grow(cx, here.f, exprs, from + 1, before.push(here.value));
        grows::lemma_expr_grows(cx, f, exprs[from]);
        lemma_expr_closed(cx, f, exprs[from]);
        lemma_all_closed(cx, here.f, exprs, from + 1, before.push(here.value));
        lemma_closed_twice(
            f.ssa,
            here.f.ssa,
            lower_all(cx, here.f, exprs, from + 1, before.push(here.value)).f.ssa,
        );
    }
}

/// The same of the fields of a record.
pub proof fn lemma_fields_closed(
    cx: Cx,
    f: Func,
    fields: Vec<(crate::key::RecordField, Expr)>,
    from: int,
    before: Seq<Value>,
)
    requires
        lower_fields(cx, f, fields, from, before).ok,
        fits(lower_fields(cx, f, fields, from, before).f.ssa),
        fields_whole(fields, from),
        f.ssa.wf(),
    ensures
        closed(f.ssa, lower_fields(cx, f, fields, from, before).f.ssa),
    decreases fields_size(fields, from), Tree::End(Tail::Poison), 1nat, 0nat,
{
    if 0 <= from < fields.len() && expr_size(fields[from].1) >= 1 {
        let here = lower_expr(cx, f, fields[from].1);
        grows::lemma_fields_grow(cx, here.f, fields, from + 1, before.push(here.value));
        grows::lemma_expr_grows(cx, f, fields[from].1);
        lemma_expr_closed(cx, f, fields[from].1);
        lemma_fields_closed(cx, here.f, fields, from + 1, before.push(here.value));
        lemma_closed_twice(
            f.ssa,
            here.f.ssa,
            lower_fields(cx, here.f, fields, from + 1, before.push(here.value)).f.ssa,
        );
    }
}

/// Whether every body that has a block has been lowered.
pub open spec fn finished(s: St) -> bool {
    forall|tail: int|
        0 <= tail < s.p.expressions.len() && (#[trigger] s.p.expressions[tail]) is Some
            ==> s.p.lowered[tail] >= 1
}

/// After the walk of a whole match every body that has a block has been
/// lowered.
pub proof fn lemma_finished(cx: Cx, m: Bodies, s: St, on: Value, tree: Tree)
    requires
        s.p == Pat::start(m.branches.len() as nat),
        run_step(cx, m, s, on, tree).ok,
        fits(run_step(cx, m, s, on, tree).f.ssa),
        whole_match(tree, m.branches.len() as nat, m.predecessors),
    ensures
        finished(tree_step(cx, m, s, on, tree).s),
{
    let walked = tree_step(cx, m, s, on, tree).s;
    crate::pat::exact::lemma_start(m, s.f, m.branches.len() as nat);
    crate::pat::once::lemma_run(cx, m, s, on, tree);
    crate::pat::leaves::lemma_tree(cx, m, s, on, tree);
    assert forall|tail: int|
        0 <= tail < walked.p.expressions.len() && (#[trigger] walked.p.expressions[tail]) is Some implies walked.p.lowered[tail]
        >= 1 by {
        assert(crate::pat::exact::exact_at(m, walked, tail));
        assert(walked.p.jumps[tail] == s.p.jumps[tail] + leaves(tree, tail));
        assert(m.predecessors[tail] == leaves(tree, tail));
    }
}

/// After a walk that left no body waiting, the match leaves no block that
/// it made open but the one in which lowering goes on.
proof fn lemma_walk_closed(base: Ssa, s: St, walked: St, run: Ssa, tree: Tree)
    requires
        settled(base, s, walked, Set::<int>::empty(), tree),
        finished(walked),
        s.ssa() == base,
        grown(base, walked.ssa()),
        run.blocks.len() == walked.ssa().blocks.len(),
        forall|x: int|
            0 <= x < run.blocks.len() ==> (#[trigger] run.blocks[x]).flow
                == walked.ssa().blocks[x].flow,
        match walked.p.continuation_block {
            Some((block, _)) => walked.p.continuation_value is None && run.current == block
                && walked.ssa().has(block),
            None => run.current == walked.ssa().current,
        },
    ensures
        closed(base, run),
{
    let none = Set::<int>::empty();
    assert forall|x: int| !waiting(walked, x) by {
        if waiting(walked, x) {
            let tail = choose|tail: int|
                0 <= tail < walked.p.expressions.len() && #[trigger] block_at(walked, tail) == Some(
                    x,
                ) && walked.p.lowered[tail] == 0;
            assert(walked.p.expressions[tail] is Some);
        }
    }
    assert forall|x: int| base.blocks.len() <= x < run.blocks.len() && x != run.current.0 implies #[trigger] ended(
        run,
        x,
    ) by {
        assert(ended(walked.ssa(), x) || x == walked.ssa().current.0 || none.contains(x)
            || meeting(walked) == Some(x) || waiting(walked, x));
        assert(run.blocks[x].flow == walked.ssa().blocks[x].flow);
    }
    if base.wf() && run.current != base.current {
        assert(ended(walked.ssa(), base.current.0 as int));
        assert(run.blocks[base.current.0 as int].flow == walked.ssa().blocks[base.current.0 as int].flow);
    }
}

/// The value of a match is given in the block in which the branches meet,
/// where there is one, and ends no block.
proof fn lemma_valued(walked: crate::pat::Out)
    requires
        match_value(walked).ok,
    ensures
        ({
            let run = match_value(walked).f.ssa;
            &&& run.blocks.len() == walked.s.ssa().blocks.len()
            &&& forall|x: int|
                0 <= x < run.blocks.len() ==> (#[trigger] run.blocks[x]).flow
                    == walked.s.ssa().blocks[x].flow
            &&& match walked.s.p.continuation_block {
                Some((block, _)) => walked.s.p.continuation_value is None && run.current == block
                    && walked.s.ssa().has(block),
                None => run.current == walked.s.ssa().current,
            }
        }),
{
}

/// The lowering of a whole match leaves no block that it makes open but
/// the one in which it goes on, and ends the block in which it starts.
pub proof fn lemma_run(cx: Cx, m: Bodies, s: St, on: Value, tree: Tree)
    requires
        s.p == Pat::start(m.branches.len() as nat),
        run_step(cx, m, s, on, tree).ok,
        fits(run_step(cx, m, s, on, tree).f.ssa),
        all_whole(m.branches, 0),
        whole_match(tree, m.branches.len() as nat, m.predecessors),
        s.ssa().wf(),
    ensures
        closed(s.ssa(), run_step(cx, m, s, on, tree).f.ssa),
        !tree_step(cx, m, s, on, tree).s.p.can_skip ==> !ended(
            run_step(cx, m, s, on, tree).f.ssa,
            run_step(cx, m, s, on, tree).f.ssa.current.0 as int,
        ),
    decreases m.weight(), tree, 5nat, 0nat,
{
    let base = s.ssa();
    let walked = tree_step(cx, m, s, on, tree).s;
    let run = run_step(cx, m, s, on, tree).f.ssa;
    let none = Set::<int>::empty();
    assert(shut(base, s, none));
    assert(tidy(s));
    grows::lemma_tree(cx, m, s, on, tree);
    lemma_tree(cx, m, base, s, none, on, tree);
    lemma_finished(cx, m, s, on, tree);
    lemma_valued(tree_step(cx, m, s, on, tree));
    lemma_walk_closed(base, s, walked, run, tree);
}

/// The walk of a decision tree leaves no block open that it should not.
pub proof fn lemma_tree(cx: Cx, m: Bodies, base: Ssa, s: St, aside: Set<int>, on: Value, tree: Tree)
    requires
        steady(base, m, s, aside),
        alive(tree),
        s.p.can_skip ==> !straight(tree) || direct(tree),
        tree_step(cx, m, s, on, tree).ok,
        fits(tree_step(cx, m, s, on, tree).s.ssa()),
    ensures
        settled(base, s, tree_step(cx, m, s, on, tree).s, aside, tree),
    decreases m.weight(), tree, 1nat, 0nat,
{
    let seen = s.seen(on);
    lemma_steady_emits(base, m, s, seen, aside);
    match tree {
        Tree::Record { next } => lemma_fields(cx, m, base, seen, aside, on, *next),
        Tree::Tuple { next } => lemma_fields(cx, m, base, seen, aside, on, *next),
        Tree::List { .. } => lemma_list(cx, m, base, seen, aside, on, tree),
        Tree::Ints { .. } => lemma_ints(cx, m, base, seen, aside, on, tree),
        Tree::Bools(_) => lemma_bools(cx, m, base, seen, aside, on, tree),
        Tree::Sum { .. } => lemma_sum(cx, m, base, seen, aside, on, tree),
        Tree::String { .. } => lemma_string(cx, m, base, seen, aside, on, tree),
        Tree::Wildcard { next } => lemma_next(cx, m, base, seen, aside, *next),
        Tree::Opaque { next } => lemma_next(cx, m, base, seen, aside, *next),
        Tree::End(_) => lemma_tail(cx, m, base, seen, aside, tree),
    }
}

proof fn lemma_next(cx: Cx, m: Bodies, base: Ssa, s: St, aside: Set<int>, tree: Tree)
    requires
        steady(base, m, s, aside),
        alive(tree),
        s.p.can_skip ==> !straight(tree) || direct(tree),
        next_step(cx, m, s, tree).ok,
        fits(next_step(cx, m, s, tree).s.ssa()),
    ensures
        settled(base, s, next_step(cx, m, s, tree).s, aside, tree),
    decreases m.weight(), tree, 2nat, s.p.constructors.len(),
{
    if s.p.constructors.len() == 0 {
        match tree {
            Tree::End(_) => lemma_tail(cx, m, base, s, aside, tree),
            _ => {},
        }
    } else {
        let queue = s.p.constructors.last();
        if queue.len() > 0 {
            let rest = s.p.constructors.update(s.p.constructors.len() - 1, queue.drop_first());
            let popped = St { p: Pat { constructors: rest, ..s.p }, ..s };
            lemma_steady_emits(base, m, s, popped, aside);
            lemma_tree(cx, m, base, popped, aside, queue[0], tree);
        } else {
            let popped = St { p: Pat { constructors: s.p.constructors.drop_last(), ..s.p }, ..s };
            lemma_steady_emits(base, m, s, popped, aside);
            lemma_next(cx, m, base, popped, aside, tree);
        }
    }
}

proof fn lemma_fields(cx: Cx, m: Bodies, base: Ssa, s: St, aside: Set<int>, on: Value, next: Tree)
    requires
        steady(base, m, s, aside),
        alive(next),
        s.p.can_skip ==> !straight(next) || direct(next),
        fields_step(cx, m, s, on, next).ok,
        fits(fields_step(cx, m, s, on, next).s.ssa()),
    ensures
        settled(base, s, fields_step(cx, m, s, on, next).s, aside, next),
    decreases m.weight(), next, 3nat, 0nat,
{
    let key = key_of(s.ssa().type_of(on));
    let fields = cx.types.fields_of(key->0);
    let first = s.ssa().entries.len() as int;
    crate::pat::ways::lemma_fields_read(s.ssa(), on, key->0, fields, 0);
    let read = s.with_ssa(fields_read(s.ssa(), on, key->0, fields, 0)).queued(
        crate::pat::results(first, fields.len() as int),
    );
    lemma_steady_emits(base, m, s, read, aside);
    lemma_next(cx, m, base, read, aside, next);
}

/// A leaf has jumped: the block in which the walk went on is ended, and
/// the block of the body, if it was made now, waits for its body.
proof fn lemma_leaf_jumped(base: Ssa, m: Bodies, s: St, aside: Set<int>, table: Seq<(Bind, usize)>, t: int)
    requires
        steady(base, m, s, aside),
        0 <= t < s.p.expressions.len(),
        s.ssa().wf(),
        s.p.expressions[t] is None ==> s.ssa().blocks.len() < usize::MAX,
    ensures
        ({
            let jumped = leaf_jumped(s, table, t);
            &&& steady(base, m, jumped, aside)
            &&& ended(jumped.ssa(), s.ssa().current.0 as int)
            &&& jumped.ssa().current == s.ssa().current
            &&& jumped.p.can_skip == s.p.can_skip
            &&& grown(s.ssa(), jumped.ssa())
        }),
{
    let fresh = s.p.expressions[t] is None;
    let block = if fresh {
        s.ssa().next_block()
    } else {
        s.p.expressions[t]->0
    };
    let made = if fresh {
        St {
            f: Func { ssa: s.ssa().new_block(table.len() as u32), ..s.f },
            p: Pat { expressions: s.p.expressions.update(t, Some(block)), ..s.p },
        }
    } else {
        s
    };
    let args = crate::pat::bound_values(s.p.map, table);
    let jumped = St { p: made.p.jumped(t), ..made.with_ssa(made.ssa().jump(block, args)) };
    grows::lemma_jumped(made.ssa(), block, args);
    assert(grown(s.ssa(), made.ssa()));
    lemma_grown_twice(s.ssa(), made.ssa(), jumped.ssa());
    let flow = ControlFlow::Jump(block, made.ssa().next_args(args));
    let ended_now = made.ssa().with_args(args).end(flow);
    assert(ended(ended_now, s.ssa().current.0 as int));
    grows::lemma_entered(ended_now, block);
    assert forall|x: int|
        0 <= x < jumped.ssa().blocks.len() && (x == base.current.0 || x >= base.blocks.len()) implies #[trigger] ended(
        jumped.ssa(),
        x,
    ) || x == jumped.ssa().current.0 || aside.contains(x) || meeting(jumped) == Some(x) || waiting(
        jumped,
        x,
    ) by {
        if x < s.ssa().blocks.len() {
            assert(ended(s.ssa(), x) || x == s.ssa().current.0 || aside.contains(x) || meeting(s)
                == Some(x) || waiting(s, x));
            if waiting(s, x) {
                let tail = choose|tail: int|
                    0 <= tail < s.p.expressions.len() && #[trigger] block_at(s, tail) == Some(x)
                        && s.p.lowered[tail] == 0;
                assert(s.p.expressions[tail] is Some);
                assert(tail != t || !fresh);
                assert(block_at(jumped, tail) == Some(x));
            }
        } else {
            assert(fresh && x == block.0);
            assert(block_at(jumped, t) == Some(x));
            assert(s.p.lowered[t] == 0);
        }
    }
    assert(tidy(jumped)) by {
        assert forall|tail: int|
            0 <= tail < jumped.p.expressions.len() && (#[trigger] jumped.p.expressions[tail]) is None implies jumped.p.lowered[tail]
            == 0 by {
            assert(s.p.expressions[tail] is None);
        }
    }
}

/// The parameters of a block end no block.
proof fn lemma_params_flows(s: St, block: Block, table: Seq<(Bind, usize)>, from: int)
    requires
        0 <= from,
        s.ssa().has(block),
    ensures
        forall|x: int|
            0 <= x < s.ssa().blocks.len() ==> (#[trigger] bind_params(
                s,
                block,
                table,
                from,
            ).ssa().blocks[x]).flow == s.ssa().blocks[x].flow,
    decreases table.len() - from,
{
    if from < table.len() {
        let (bind, depth) = table[from];
        let ty = s.ssa().type_of(s.p.map[depth as int]);
        let next = St {
            f: Func {
                ssa: s.ssa().add_block_param(block, ty),
                binds: s.f.binds.insert(bind.0, s.ssa().next_value()),
                ..s.f
            },
            ..s
        };
        lemma_params_flows(next, block, table, from + 1);
        assert forall|x: int| 0 <= x < s.ssa().blocks.len() implies (#[trigger] bind_params(
            s,
            block,
            table,
            from,
        ).ssa().blocks[x]).flow == s.ssa().blocks[x].flow by {
            assert(bind_params(next, block, table, from + 1).ssa().blocks[x].flow
                == next.ssa().blocks[x].flow);
        }
    }
}

/// A jump ends the block in which it is written, and no other.
proof fn lemma_jump_flows(a: Ssa, block: Block, params: Seq<Value>)
    requires
        a.wf(),
    ensures
        forall|x: int|
            0 <= x < a.blocks.len() && x != a.current.0 ==> (#[trigger] a.jump(
                block,
                params,
            ).blocks[x]).flow == a.blocks[x].flow,
        a.jump(block, params).blocks.len() == a.blocks.len(),
{
}

/// Where the lowering of a body starts: on in the block of the body, which
/// waits no more.
proof fn lemma_entered_body(
    base: Ssa,
    m: Bodies,
    s: St,
    aside: Set<int>,
    block: Block,
    table: Seq<(Bind, usize)>,
    t: int,
)
    requires
        steady(base, m, s, aside),
        ended(s.ssa(), s.ssa().current.0 as int),
        0 <= t < s.p.expressions.len(),
        s.p.expressions[t] == Some(block),
        s.ssa().has(block),
    ensures
        ({
            let inside = crate::pat::entered_body(s, block, table, t);
            &&& shut(base, inside, aside)
            &&& apart(inside, aside)
            &&& tidy(inside)
            &&& inside.p.continuation_value is None
            &&& inside.p.can_skip == s.p.can_skip
            &&& inside.ssa().current == block
            &&& inside.ssa().wf()
            &&& grown(s.ssa(), inside.ssa())
        }),
{
    reveal(crate::pat::entered_body);
    grows::lemma_params_bound(s, block, table, 0);
    lemma_params_flows(s, block, table, 0);
    let bound = bind_params(s, block, table, 0);
    let inside = crate::pat::entered_body(s, block, table, t);
    assert forall|x: int|
        0 <= x < inside.ssa().blocks.len() && (x == base.current.0 || x >= base.blocks.len()) implies #[trigger] ended(
        inside.ssa(),
        x,
    ) || x == inside.ssa().current.0 || aside.contains(x) || meeting(inside) == Some(x) || waiting(
        inside,
        x,
    ) by {
        assert(ended(s.ssa(), x) || x == s.ssa().current.0 || aside.contains(x) || meeting(s)
            == Some(x) || waiting(s, x));
        if waiting(s, x) && x != block.0 {
            let tail = choose|tail: int|
                0 <= tail < s.p.expressions.len() && #[trigger] block_at(s, tail) == Some(x)
                    && s.p.lowered[tail] == 0;
            assert(tail != t);
            assert(block_at(inside, tail) == Some(x));
        }
    }
}

/// Where the lowering of a body ends: its value is kept, or handed to the
/// block in which the branches meet, which ends the block.
proof fn lemma_body_yields(base: Ssa, m: Bodies, after: St, aside: Set<int>, value: Value)
    requires
        shut(base, after, aside),
        apart(after, aside),
        tidy(after),
        after.p.continuation_value is None,
        forall|x: int| aside.contains(x) ==> x < after.ssa().blocks.len(),
        crate::pat::body_yields(after, value).ok,
        fits(crate::pat::body_yields(after, value).s.ssa()),
    ensures
        ({
            let given = crate::pat::body_yields(after, value).s;
            &&& shut(base, given, aside)
            &&& apart(given, aside)
            &&& tidy(given)
            &&& given.p.continuation_value is None ==> ended(
                given.ssa(),
                given.ssa().current.0 as int,
            )
            &&& given.p.continuation_value is Some ==> after.p.can_skip
            &&& given.p.can_skip == after.p.can_skip
            &&& after.ssa().wf() ==> given.ssa().wf()
        }),
{
    reveal(crate::pat::body_yields);
    let given = crate::pat::body_yields(after, value).s;
    if after.p.can_skip {
        assert forall|x: int|
            0 <= x < given.ssa().blocks.len() && (x == base.current.0 || x >= base.blocks.len()) implies #[trigger] ended(
            given.ssa(),
            x,
        ) || x == given.ssa().current.0 || aside.contains(x) || meeting(given) == Some(x)
            || waiting(given, x) by {
            assert(ended(after.ssa(), x) || x == after.ssa().current.0 || aside.contains(x)
                || meeting(after) == Some(x) || waiting(after, x));
            if waiting(after, x) {
                let tail = choose|tail: int|
                    0 <= tail < after.p.expressions.len() && #[trigger] block_at(after, tail)
                        == Some(x) && after.p.lowered[tail] == 0;
                assert(block_at(given, tail) == Some(x));
            }
        }
    } else {
        let (made, con) = continuation(after, after.ssa().type_of(value));
        grows::lemma_jumped(made.ssa(), con, seq![value]);
        lemma_jump_flows(made.ssa(), con, seq![value]);
        let flow = ControlFlow::Jump(con, made.ssa().next_args(seq![value]));
        let ended_now = made.ssa().with_args(seq![value]).end(flow);
        assert(ended(ended_now, after.ssa().current.0 as int));
        grows::lemma_entered(ended_now, con);
        assert(grown(after.ssa(), made.ssa()));
        assert forall|x: int|
            0 <= x < given.ssa().blocks.len() && (x == base.current.0 || x >= base.blocks.len()) implies #[trigger] ended(
            given.ssa(),
            x,
        ) || x == given.ssa().current.0 || aside.contains(x) || meeting(given) == Some(x)
            || waiting(given, x) by {
            if x < after.ssa().blocks.len() {
                assert(ended(after.ssa(), x) || x == after.ssa().current.0 || aside.contains(x)
                    || meeting(after) == Some(x) || waiting(after, x));
                if waiting(after, x) {
                    let tail = choose|tail: int|
                        0 <= tail < after.p.expressions.len() && #[trigger] block_at(after, tail)
                            == Some(x) && after.p.lowered[tail] == 0;
                    assert(block_at(given, tail) == Some(x));
                }
            }
        }
    }
}

/// After the state in which a body was lowered: what held before holds of
/// it, with the block in which the body ended for the block of the body.
proof fn lemma_body_lowered(base: Ssa, inside: St, after: St, aside: Set<int>)
    requires
        shut(base, inside, aside),
        apart(inside, aside),
        inside.ssa().wf(),
        closed(inside.ssa(), after.ssa()),
        grown(inside.ssa(), after.ssa()),
        crate::pat::ways::kept(inside.ssa(), after.ssa()),
        after.p == inside.p,
    ensures
        shut(base, after, aside),
        apart(after, aside),
        after.ssa().wf(),
{
    lemma_shut_moved(base, inside, after, aside, aside);
}

proof fn lemma_branch(cx: Cx, m: Bodies, base: Ssa, s: St, aside: Set<int>, leaf: Tree)
    requires
        leaf is End,
        leaf->End_0 is Reached,
        steady(base, m, s, aside),
        ended(s.ssa(), s.ssa().current.0 as int),
        0 <= tail_of(leaf) < s.p.expressions.len(),
        s.p.expressions[tail_of(leaf)] is Some,
        s.ssa().has(s.p.expressions[tail_of(leaf)]->0),
        branch_step(cx, m, s, leaf).ok,
        fits(branch_step(cx, m, s, leaf).s.ssa()),
    ensures
        ({
            let given = branch_step(cx, m, s, leaf).s;
            &&& shut(base, given, aside)
            &&& apart(given, aside)
            &&& tidy(given)
            &&& given.p.continuation_value is None ==> ended(
                given.ssa(),
                given.ssa().current.0 as int,
            )
            &&& given.p.continuation_value is Some ==> s.p.can_skip
            &&& given.p.can_skip == s.p.can_skip
            &&& grown(s.ssa(), given.ssa())
            &&& given.ssa().wf()
        }),
    decreases m.weight(), leaf, 0nat, 0nat,
{
    let table = leaf->End_0->Reached_0;
    let t = tail_of(leaf);
    let block = s.p.expressions[t]->0;
    grows::lemma_branch(cx, m, s, leaf);
    if s.ssa().blocks[block.0 as int].predecessors == m.predecessors[t] as usize {
        let inside = crate::pat::entered_body(s, block, table, t);
        lemma_entered_body(base, m, s, aside, block, table, t);
        let body = lower_expr(cx, inside.f, m.branches[t]);
        let after = St { f: body.f, ..inside };
        grows::lemma_body_yields(after, body.value);
        grows::lemma_expr_grows(cx, inside.f, m.branches[t]);
        lemma_one_whole(m.branches, 0, t);
        lemma_expr_closed(cx, inside.f, m.branches[t]);
        crate::pat::ways::lemma_expr_kept(cx, inside.f, m.branches[t]);
        lemma_body_lowered(base, inside, after, aside);
        lemma_body_yields(base, m, after, aside, body.value);
    }
}

/// The state after the jump of a leaf to the body of `t`.
pub open spec fn leaf_jumped(s: St, table: Seq<(Bind, usize)>, t: int) -> St {
    let fresh = s.p.expressions[t] is None;
    let block = if fresh {
        s.ssa().next_block()
    } else {
        s.p.expressions[t]->0
    };
    let made = if fresh {
        St {
            f: Func { ssa: s.ssa().new_block(table.len() as u32), ..s.f },
            p: Pat { expressions: s.p.expressions.update(t, Some(block)), ..s.p },
        }
    } else {
        s
    };
    let args = crate::pat::bound_values(s.p.map, table);
    St { p: made.p.jumped(t), ..made.with_ssa(made.ssa().jump(block, args)) }
}

/// A leaf is its jump and then, where that was the last, its body.
pub(crate) proof fn lemma_tail_unfolded(cx: Cx, m: Bodies, s: St, leaf: Tree)
    requires
        leaf is End,
        leaf->End_0 is Reached,
        tail_step(cx, m, s, leaf).ok,
    ensures
        ({
            let table = leaf->End_0->Reached_0;
            let t = tail_of(leaf);
            let jumped = leaf_jumped(s, table, t);
            &&& tail_step(cx, m, s, leaf).s == branch_step(cx, m, jumped, leaf).s
            &&& branch_step(cx, m, jumped, leaf).ok
            &&& 0 <= t < s.p.expressions.len()
            &&& leaf->End_0->Reached_0.len() <= u32::MAX
            &&& s.ssa().wf()
            &&& jumped.p.expressions[t] is Some
            &&& jumped.ssa().has(jumped.p.expressions[t]->0)
            &&& grown(s.ssa(), jumped.ssa())
            &&& s.p.expressions[t] is None ==> jumped.ssa().blocks.len() == s.ssa().blocks.len() + 1
        }),
{
    let table = leaf->End_0->Reached_0;
    let t = tail_of(leaf);
    let fresh = s.p.expressions[t] is None;
    let block = if fresh {
        s.ssa().next_block()
    } else {
        s.p.expressions[t]->0
    };
    let made = if fresh {
        St {
            f: Func { ssa: s.ssa().new_block(table.len() as u32), ..s.f },
            p: Pat { expressions: s.p.expressions.update(t, Some(block)), ..s.p },
        }
    } else {
        s
    };
    let args = crate::pat::bound_values(s.p.map, table);
    grows::lemma_jumped(made.ssa(), block, args);
    assert(grown(s.ssa(), made.ssa()));
    lemma_grown_twice(s.ssa(), made.ssa(), made.ssa().jump(block, args));
}

proof fn lemma_tail(cx: Cx, m: Bodies, base: Ssa, s: St, aside: Set<int>, leaf: Tree)
    requires
        leaf is End,
        steady(base, m, s, aside),
        alive(leaf),
        tail_step(cx, m, s, leaf).ok,
        fits(tail_step(cx, m, s, leaf).s.ssa()),
    ensures
        settled(base, s, tail_step(cx, m, s, leaf).s, aside, leaf),
    decreases m.weight(), leaf, 0nat, 1nat,
{
    let table = leaf->End_0->Reached_0;
    let t = tail_of(leaf);
    let jumped = leaf_jumped(s, table, t);
    lemma_tail_unfolded(cx, m, s, leaf);
    // what follows the jump takes no block away, so the blocks can be counted here
    grows::lemma_branch(cx, m, jumped, leaf);
    lemma_leaf_jumped(base, m, s, aside, table, t);
    lemma_branch(cx, m, base, jumped, aside, leaf);
    lemma_leaf_settled(base, s, jumped, branch_step(cx, m, jumped, leaf).s, aside, leaf);
}

/// A leaf leaves the walk settled.
proof fn lemma_leaf_settled(base: Ssa, s: St, jumped: St, given: St, aside: Set<int>, leaf: Tree)
    requires
        leaf is End,
        shut(base, given, aside),
        apart(given, aside),
        tidy(given),
        ended(jumped.ssa(), s.ssa().current.0 as int),
        jumped.ssa().current == s.ssa().current,
        jumped.ssa().wf(),
        given.ssa().wf(),
        jumped.p.can_skip == s.p.can_skip,
        grown(jumped.ssa(), given.ssa()),
        given.p.continuation_value is None ==> ended(given.ssa(), given.ssa().current.0 as int),
        given.p.continuation_value is Some ==> jumped.p.can_skip,
        given.p.can_skip == jumped.p.can_skip,
    ensures
        settled(base, s, given, aside, leaf),
{
}

proof fn lemma_ints(cx: Cx, m: Bodies, base: Ssa, s: St, aside: Set<int>, on: Value, tree: Tree)
    requires
        tree is Ints,
        steady(base, m, s, aside),
        alive(tree),
        s.p.can_skip ==> !straight(tree) || direct(tree),
        ints_step(cx, m, s, on, tree).ok,
        fits(ints_step(cx, m, s, on, tree).s.ssa()),
    ensures
        settled(base, s, ints_step(cx, m, s, on, tree).s, aside, tree),
    decreases m.weight(), tree, 0nat, tree->Ints_next.len() + 1,
{
    let skipped = s.skipping(tree->Ints_next.len() == 1);
    lemma_steady_emits(base, m, s, skipped, aside);
    lemma_ints_from(cx, m, base, skipped, aside, on, tree, 0, skipped.make_reset());
}

proof fn lemma_ints_from(
    cx: Cx,
    m: Bodies,
    base: Ssa,
    s: St,
    aside: Set<int>,
    on: Value,
    tree: Tree,
    i: int,
    point: Reset,
)
    requires
        tree is Ints,
        steady(base, m, s, aside),
        ints_alive(tree, i),
        s.p.can_skip ==> tree->Ints_next.len() == 1 && (!straight(tree) || direct(tree)),
        ints_from(cx, m, s, on, tree, i, point).ok,
        fits(ints_from(cx, m, s, on, tree, i, point).s.ssa()),
    ensures
        settled(base, s, ints_from(cx, m, s, on, tree, i, point).s, aside, tree),
    decreases m.weight(), tree, 0nat, tree->Ints_next.len() - i,
{
    let intsize = tree->intsize;
    let arms = tree->Ints_next;
    if 0 <= i < arms.len() {
        let (range, next) = arms[i];
        if range.end == range.con.max {
            lemma_next(cx, m, base, s, aside, next);
        } else {
            let on_true = s.ssa().next_block();
            let on_false = Block((s.ssa().blocks.len() + 1) as usize);
            let blocks = s.ssa().new_block(0).new_block(0);
            let checked = range_check(blocks, on, intsize, range);
            crate::pat::ways::lemma_range_checked(blocks, on, intsize, range);
            let value = crate::pat::range_checked(blocks, range);
            let inside = s.with_ssa(checked.select(value, on_true, on_false).switch_to_block(on_true));
            let walked = next_step(cx, m, inside, next);
            let back = walked.s.reset(on_false, point);
            let rest = ints_from(cx, m, back, on, tree, i + 1, point);
            let more = aside.insert(on_false.0 as int);
            // nothing that follows takes a block away, so the blocks can be counted here
            grows::lemma_selected(checked, value, on_true, on_false);
            grows::lemma_next(cx, m, inside, next);
            grows::lemma_ints_from(cx, m, back, on, tree, i + 1, point);
            lemma_shut_chosen(base, s, checked, value, aside);
            lemma_next(cx, m, base, inside, more, next);
            lemma_shut_back(base, walked.s, on_false, point, aside);
            lemma_ints_from(cx, m, base, back, aside, on, tree, i + 1, point);
            lemma_grown_twice(inside.ssa(), walked.s.ssa(), rest.s.ssa());
        }
    }
}

proof fn lemma_bools(cx: Cx, m: Bodies, base: Ssa, s: St, aside: Set<int>, on: Value, tree: Tree)
    requires
        tree is Bools,
        steady(base, m, s, aside),
        alive(tree),
        bools_step(cx, m, s, on, tree).ok,
        fits(bools_step(cx, m, s, on, tree).s.ssa()),
    ensures
        settled(base, s, bools_step(cx, m, s, on, tree).s, aside, tree),
    decreases m.weight(), tree, 0nat, 0nat,
{
    let arms = tree->Bools_0;
    let skipped = s.skipping(false);
    lemma_steady_emits(base, m, s, skipped, aside);
    if arms.len() == 2 {
        let truthy = if arms[0].0 {
            arms[0]
        } else {
            arms[1]
        };
        let falsey = if arms[0].0 {
            arms[1]
        } else {
            arms[0]
        };
        let point = skipped.make_reset();
        let on_true = skipped.ssa().next_block();
        let on_false = Block((skipped.ssa().blocks.len() + 1) as usize);
        let blocks = skipped.ssa().new_block(0).new_block(0);
        let inside = skipped.with_ssa(blocks.select(on, on_true, on_false).switch_to_block(on_true));
        let first = next_step(cx, m, inside, truthy.1);
        let back = first.s.reset(on_false, point);
        let second = next_step(cx, m, back, falsey.1);
        let more = aside.insert(on_false.0 as int);
        grows::lemma_selected(blocks, on, on_true, on_false);
        grows::lemma_next(cx, m, inside, truthy.1);
        grows::lemma_next(cx, m, back, falsey.1);
        lemma_shut_chosen(base, skipped, blocks, on, aside);
        lemma_next(cx, m, base, inside, more, truthy.1);
        lemma_shut_back(base, first.s, on_false, point, aside);
        lemma_next(cx, m, base, back, aside, falsey.1);
        lemma_grown_twice(inside.ssa(), first.s.ssa(), second.s.ssa());
    }
}

proof fn lemma_sum(cx: Cx, m: Bodies, base: Ssa, s: St, aside: Set<int>, on: Value, tree: Tree)
    requires
        tree is Sum,
        steady(base, m, s, aside),
        alive(tree),
        s.p.can_skip ==> !straight(tree) || direct(tree),
        sum_step(cx, m, s, on, tree).ok,
        fits(sum_step(cx, m, s, on, tree).s.ssa()),
    ensures
        settled(base, s, sum_step(cx, m, s, on, tree).s, aside, tree),
    decreases m.weight(), tree, 0nat, tree->Sum_next.len() + 1,
{
    let arms = tree->Sum_next;
    let skipped = s.skipping(arms.len() == 1);
    lemma_steady_emits(base, m, s, skipped, aside);
    let oblock = skipped.ssa().current;
    let key = key_of(skipped.ssa().type_of(on));
    let fields = cx.types.fields_of(key->0);
    let read = skipped.ssa().emit(
        crate::ssa::Entry::Field { of: on, key: key->0, field: crate::key::RecordField(0) },
        MonoType::Int(crate::ssa::spec_tag_size()),
    ).emit(
        crate::ssa::Entry::Field { of: on, key: key->0, field: crate::key::RecordField(1) },
        fields[1],
    );
    let tag = skipped.ssa().next_value();
    let data = skipped.ssa().second_value();
    let start = skipped.with_ssa(read);
    lemma_steady_emits(base, m, skipped, start, aside);
    let walked = sum_from(cx, m, start, oblock, data, tree, 0, Seq::empty());
    grows::lemma_jump_tabled(walked.s.ssa(), tag, walked.blocks);
    lemma_sum_from(cx, m, base, start, aside, oblock, data, tree, 0, Seq::empty());
    let done = walked.s.with_ssa(walked.s.ssa().jump_table(tag, walked.blocks));
    lemma_tabled(walked.s.ssa(), tag, walked.blocks);
    lemma_shut_moved(base, walked.s, done, aside, aside);
}

/// A jump table ends the block in which it is written, and no other.
proof fn lemma_tabled(a: Ssa, on: Value, blocks: Seq<Block>)
    requires
        a.wf(),
    ensures
        ended(a.jump_table(on, blocks), a.current.0 as int),
        a.jump_table(on, blocks).current == a.current,
        a.jump_table(on, blocks).blocks.len() == a.blocks.len(),
        forall|x: int|
            0 <= x < a.blocks.len() && x != a.current.0 ==> (#[trigger] a.jump_table(
                on,
                blocks,
            ).blocks[x]).flow == a.blocks[x].flow,
{
    let table = crate::ssa::Args { start: a.targets.len() as usize, len: blocks.len() as usize };
    let longer = Ssa { targets: a.targets + blocks, ..a };
    let ended_now = longer.end(ControlFlow::JumpTable(on, table));
    assert(ended(ended_now, a.current.0 as int));
    lemma_entered_all(ended_now, blocks, 0);
}

proof fn lemma_entered_all(a: Ssa, blocks: Seq<Block>, i: int)
    requires
        0 <= i,
    ensures
        grown(a, a.enter_all(blocks, i)),
        a.enter_all(blocks, i).current == a.current,
        a.enter_all(blocks, i).blocks.len() == a.blocks.len(),
        forall|x: int|
            0 <= x < a.blocks.len() ==> (#[trigger] a.enter_all(blocks, i).blocks[x]).flow
                == a.blocks[x].flow,
    decreases blocks.len() - i,
{
    if i < blocks.len() {
        grows::lemma_entered(a, blocks[i]);
        lemma_entered_all(a.enter(blocks[i]), blocks, i + 1);
        lemma_grown_twice(a, a.enter(blocks[i]), a.enter(blocks[i]).enter_all(blocks, i + 1));
        let next = a.enter(blocks[i]);
        assert forall|x: int| 0 <= x < a.blocks.len() implies (#[trigger] a.enter_all(
            blocks,
            i,
        ).blocks[x]).flow == a.blocks[x].flow by {
            assert(next.enter_all(blocks, i + 1).blocks[x].flow == next.blocks[x].flow);
        }
    }
}

proof fn lemma_sum_from(
    cx: Cx,
    m: Bodies,
    base: Ssa,
    s: St,
    aside: Set<int>,
    oblock: Block,
    data: Value,
    tree: Tree,
    i: int,
    blocks: Seq<Block>,
)
    requires
        tree is Sum,
        steady(base, m, s, aside),
        s.ssa().current == oblock,
        sum_alive(tree, i),
        s.p.can_skip ==> tree->Sum_next.len() == 1 && !straight(tree),
        sum_from(cx, m, s, oblock, data, tree, i, blocks).ok,
        fits(sum_from(cx, m, s, oblock, data, tree, i, blocks).s.ssa()),
    ensures
        ({
            let after = sum_from(cx, m, s, oblock, data, tree, i, blocks).s;
            &&& steady(base, m, after, aside)
            &&& after.ssa().current == oblock
            &&& after.p.can_skip ==> s.p.can_skip
            &&& grown(s.ssa(), after.ssa())
        }),
    decreases m.weight(), tree, 0nat, tree->Sum_next.len() - i,
{
    let sum = tree->sum;
    let params = tree->params;
    let arms = tree->Sum_next;
    if 0 <= i < arms.len() {
        let (var, next) = arms[i];
        let vblock = s.ssa().next_block();
        let inside = s.enter_new_block();
        let point = inside.make_reset();
        let raw = variant_types(cx, sum, var);
        let first = inside.ssa().entries.len() as int;
        crate::pat::ways::lemma_payload_read(cx, inside.ssa(), data, raw->0, params, 0, 0);
        let read = inside.with_ssa(payload_read(cx, inside.ssa(), data, raw->0, params, 0, 0)).queued(
            crate::pat::results(first, raw->0.len() as int),
        );
        let more_blocks = blocks.push(vblock);
        let walked = next_step(cx, m, read, next);
        let back = walked.s.reset(oblock, point);
        let rest = sum_from(cx, m, back, oblock, data, tree, i + 1, more_blocks);
        let more = aside.insert(oblock.0 as int);
        // nothing that follows takes a block away, so the blocks can be counted here
        grows::lemma_next(cx, m, read, next);
        grows::lemma_sum_from(cx, m, back, oblock, data, tree, i + 1, more_blocks);
        lemma_shut_entered(base, s, aside);
        lemma_shut_moved(base, inside, read, more, more);
        lemma_next(cx, m, base, read, more, next);
        lemma_shut_back(base, walked.s, oblock, point, aside);
        lemma_sum_from(cx, m, base, back, aside, oblock, data, tree, i + 1, more_blocks);
        lemma_grown_twice(s.ssa(), read.ssa(), walked.s.ssa());
        lemma_grown_twice(s.ssa(), walked.s.ssa(), rest.s.ssa());
    } else {
        assert(grown(s.ssa(), s.ssa()));
    }
}

proof fn lemma_list(cx: Cx, m: Bodies, base: Ssa, s: St, aside: Set<int>, on: Value, tree: Tree)
    requires
        tree is List,
        steady(base, m, s, aside),
        alive(tree),
        list_step(cx, m, s, on, tree).ok,
        fits(list_step(cx, m, s, on, tree).s.ssa()),
    ensures
        settled(base, s, list_step(cx, m, s, on, tree).s, aside, tree),
    decreases m.weight(), tree, 0nat, 0nat,
{
    let ty = tree->ty;
    let elem = tree->elem;
    let arms = tree->List_next;
    let skipped = s.skipping(false);
    lemma_steady_emits(base, m, s, skipped, aside);
    let oblock = skipped.ssa().current;
    let listmt = cx.tmap.applied(ty);
    let innermt = cx.tmap.applied(elem);
    let found = cx.mir.implementation(cx.info.listable, seq![innermt], listmt);
    let imp = crate::key::Impl(found->0 as u32);
    let generics = crate::mir::settled(
        cx.mir.impls[found->0].applies(cx.info.listable, seq![innermt], listmt)->0,
    );
    let split = crate::mir::FuncOrigin::Method(imp, cx.info.listable_split);
    let ret = cx.returns_of(split, generics);
    let mfunc = skipped.f.mfunc_of(split, Some(listmt), generics);
    let asked = St { f: skipped.f.call_to_mfunc(cx, split, Some(listmt), generics), ..skipped };
    lemma_steady_emits(base, m, skipped, asked, aside);
    let maybe = asked.ssa().next_value();
    let tag = asked.ssa().second_value();
    let data = asked.ssa().third_value();
    let key = key_of(ret);
    let largest = (cx.types.bits_from(key->0, 0) - crate::ssa::spec_tag_size().bitsize.0) as u32;
    let read = asked.ssa().called(mfunc, seq![on], ret).emit(
        crate::ssa::Entry::Field { of: maybe, key: key->0, field: crate::key::RecordField(0) },
        MonoType::Int(crate::ssa::spec_tag_size()),
    ).emit(
        crate::ssa::Entry::Field { of: maybe, key: key->0, field: crate::key::RecordField(1) },
        MonoType::SumDataCast { largest },
    ).emit(
        crate::ssa::Entry::Compare(
            crate::ssa::Comparison::Equal,
            tag,
            Value::spec_maybe_just(),
            crate::ssa::spec_tag_size(),
        ),
        crate::ssa::spec_truth(),
    );
    let cons = arm_of(arms, crate::tree::spec_list_cons(), 0);
    let nil = arm_of(arms, crate::tree::spec_list_nil(), 0);
    if cons is Some && nil is Some && 0 <= cons->0 < arms.len() && 0 <= nil->0 < arms.len() {
        let con_block = read.next_block();
        let tested = asked.with_ssa(read);
        let in_cons = tested.enter_new_block();
        let cons_point = in_cons.make_reset();
        let taken = in_cons.with_ssa(
            in_cons.ssa().emit(
                crate::ssa::Entry::SumField { of: data, offset: crate::ssa::BitOffset(0) },
                innermt,
            ).emit(
                crate::ssa::Entry::SumField {
                    of: data,
                    offset: crate::ssa::BitOffset(cx.types.bits(innermt) as u32),
                },
                listmt,
            ),
        ).queued(seq![in_cons.ssa().next_value(), in_cons.ssa().second_value()]);
        let first = next_step(cx, m, taken, arms[cons->0].1);
        let back = first.s.reset(oblock, cons_point);
        let nil_block = back.ssa().next_block();
        let in_nil = back.enter_new_block();
        let nil_point = in_nil.make_reset();
        let queued = in_nil.queued(Seq::empty());
        let second = next_step(cx, m, queued, arms[nil->0].1);
        let done = second.s.reset(oblock, nil_point);
        let is_just = Value::V(crate::ssa::V((asked.ssa().entries.len() + 3) as usize));
        let chosen = done.with_ssa(done.ssa().select(is_just, con_block, nil_block));
        let more = aside.insert(oblock.0 as int);
        // nothing that follows takes a block away, so the blocks can be counted here
        grows::lemma_selected(done.ssa(), is_just, con_block, nil_block);
        grows::lemma_next(cx, m, queued, arms[nil->0].1);
        grows::lemma_next(cx, m, taken, arms[cons->0].1);

        lemma_steady_emits(base, m, asked, tested, aside);
        lemma_shut_entered(base, tested, aside);
        lemma_shut_moved(base, in_cons, taken, more, more);
        lemma_next(cx, m, base, taken, more, arms[cons->0].1);
        lemma_shut_back(base, first.s, oblock, cons_point, aside);
        lemma_shut_entered(base, back, aside);
        lemma_shut_moved(base, in_nil, queued, more, more);
        lemma_next(cx, m, base, queued, more, arms[nil->0].1);
        lemma_shut_back(base, second.s, oblock, nil_point, aside);
        let ended_now = done.ssa().end(ControlFlow::Select { value: is_just, on_true: con_block, on_false: nil_block });
        assert(ended(ended_now, oblock.0 as int));
        grows::lemma_entered(ended_now, con_block);
        grows::lemma_entered(ended_now.enter(con_block), nil_block);
        lemma_shut_moved(base, done, chosen, aside, aside);
    }
}

/// A choice between a block that is made for it, in which the walk goes
/// on, and another.
proof fn lemma_pass_or(base: Ssa, m: Bodies, before: St, s: St, aside: Set<int>, value: Value, falsely: Block)
    requires
        steady(base, m, before, aside),
        only_emits(before.ssa(), s.ssa()),
        s.p.expressions == before.p.expressions,
        s.p.lowered == before.p.lowered,
        s.p.continuation_block == before.p.continuation_block,
        s.p.continuation_value == before.p.continuation_value,
        s.ssa().wf(),
        s.ssa().blocks.len() < usize::MAX,
    ensures
        steady(base, m, s.pass_or(value, falsely), aside),
        ended(s.pass_or(value, falsely).ssa(), before.ssa().current.0 as int),
        grown(before.ssa(), s.pass_or(value, falsely).ssa()),
{
    let fresh = s.ssa().next_block();
    let made = s.ssa().new_block(0);
    let next = s.pass_or(value, falsely);
    grows::lemma_selected(made, value, fresh, falsely);
    let ended_now = made.end(ControlFlow::Select { value, on_true: fresh, on_false: falsely });
    assert(ended(ended_now, s.ssa().current.0 as int));
    grows::lemma_entered(ended_now, fresh);
    grows::lemma_entered(ended_now.enter(fresh), falsely);
    assert(grown(before.ssa(), made));
    lemma_grown_twice(before.ssa(), made, made.select(value, fresh, falsely));
    lemma_shut_moved(base, before, next, aside, aside);
}

/// What a step of a string pattern does to the blocks: nothing, or it ends
/// the block in which the walk went on and goes on in one made for it.
pub open spec fn stepped_on(base: Ssa, m: Bodies, s: St, after: St, aside: Set<int>) -> bool {
    &&& steady(base, m, after, aside)
    &&& after.ssa().current == s.ssa().current || ended(after.ssa(), s.ssa().current.0 as int)
    &&& after.p.can_skip == s.p.can_skip
    &&& grown(s.ssa(), after.ssa())
}

proof fn lemma_check(
    cx: Cx,
    m: Bodies,
    base: Ssa,
    s: St,
    aside: Set<int>,
    on: Value,
    falsely: Block,
    check: StrCheck,
    is_last: bool,
)
    requires
        steady(base, m, s, aside),
        check_step(cx, s, on, falsely, check, is_last).ok,
        fits(check_step(cx, s, on, falsely, check, is_last).s.ssa()),
    ensures
        stepped_on(base, m, s, check_step(cx, s, on, falsely, check, is_last).s, aside),
{
    let info = cx.info;
    let ssa = s.ssa();
    grows::lemma_check(cx, m, s, on, falsely, check, is_last);
    match check {
        StrCheck::Literal(key) => {
            let len = Value::Int(cx.mir.read_only[key.0 as int] as i128, crate::pat::spec_word());
            let made = ssa.called(
                info.string_from_raw,
                seq![Value::ReadOnly(key), len],
                info.string,
            );
            let literal = ssa.next_value();
            if is_last {
                let held = made.called(
                    info.string_equals,
                    seq![on, literal],
                    crate::ssa::spec_truth(),
                );
                lemma_pass_or(base, m, s, s.with_ssa(held).seen(literal), aside, made.next_value(), falsely);
            } else {
                let cut = made.halved(
                    info.string_split_at,
                    seq![on, len],
                    info.string_pair,
                    info.string,
                    info.string,
                );
                let held = cut.called(
                    info.string_equals,
                    seq![made.second_value(), literal],
                    crate::ssa::spec_truth(),
                );
                lemma_pass_or(base, m, s, s.with_ssa(held).seen(literal), aside, cut.next_value(), falsely);
            }
        },
        StrCheck::Take(bytes) => {
            let at = Value::Int(bytes as i128, crate::pat::spec_word());
            let cut = ssa.halved(
                info.string_split_at,
                seq![on, at],
                info.string_pair,
                info.string,
                info.string,
            );
            let counted = cut.called(
                info.string_len,
                seq![ssa.second_value()],
                MonoType::Int(crate::pat::spec_word()),
            );
            let held = counted.emit(
                crate::ssa::Entry::Compare(
                    crate::ssa::Comparison::Equal,
                    at,
                    cut.next_value(),
                    crate::pat::spec_word(),
                ),
                crate::ssa::spec_truth(),
            );
            lemma_pass_or(
                base,
                m,
                s,
                s.with_ssa(held).seen(ssa.second_value()),
                aside,
                counted.next_value(),
                falsely,
            );
        },
        StrCheck::TakeExcess => {
            lemma_steady_emits(base, m, s, s.seen(on), aside);
        },
        StrCheck::TakeByte => {
            let cut = ssa.halved(
                info.string_split_first,
                seq![on],
                info.byte_and_string,
                MonoType::Int(crate::pat::spec_byte()),
                info.string,
            );
            let held = cut.emit(
                crate::ssa::Entry::Compare(
                    crate::ssa::Comparison::Equal,
                    ssa.second_value(),
                    Value::Int(0, crate::pat::spec_byte()),
                    crate::pat::spec_byte(),
                ),
                crate::ssa::spec_truth(),
            );
            lemma_pass_or(
                base,
                m,
                s,
                s.with_ssa(held).seen(ssa.second_value()),
                aside,
                cut.next_value(),
                falsely,
            );
        },
        StrCheck::TakeWhileLocal(_) => {
            let next = check_step(cx, s, on, falsely, check, is_last).s;
            lemma_steady_emits(base, m, s, next, aside);
        },
        StrCheck::TakeWhileFunc(_) => {
            let next = check_step(cx, s, on, falsely, check, is_last).s;
            lemma_steady_emits(base, m, s, next, aside);
        },
        StrCheck::TakeWhileLambda(lambda) => {
            let built = s.dyn_lambda(cx, lambda);
            lemma_steady_emits(base, m, s, built, aside);
            let next = check_step(cx, s, on, falsely, check, is_last).s;
            lemma_steady_emits(base, m, built, next, aside);
        },
    }
}

proof fn lemma_checks(
    cx: Cx,
    m: Bodies,
    base: Ssa,
    s: St,
    aside: Set<int>,
    on: Value,
    falsely: Block,
    checks: Seq<StrCheck>,
    i: int,
)
    requires
        steady(base, m, s, aside),
        checks_from(cx, s, on, falsely, checks, i).ok,
        fits(checks_from(cx, s, on, falsely, checks, i).s.ssa()),
    ensures
        stepped_on(base, m, s, checks_from(cx, s, on, falsely, checks, i).s, aside),
    decreases checks.len() - i,
{
    if 0 <= i < checks.len() {
        let here = check_step(cx, s, on, falsely, checks[i], i == checks.len() - 1);
        let rest = checks_from(cx, here.s, here.on, falsely, checks, i + 1);
        grows::lemma_checks(cx, m, here.s, here.on, falsely, checks, i + 1);
        lemma_check(cx, m, base, s, aside, on, falsely, checks[i], i == checks.len() - 1);
        lemma_checks(cx, m, base, here.s, aside, here.on, falsely, checks, i + 1);
        lemma_grown_twice(s.ssa(), here.s.ssa(), rest.s.ssa());
    } else {
        assert(grown(s.ssa(), s.ssa()));
    }
}

proof fn lemma_string(cx: Cx, m: Bodies, base: Ssa, s: St, aside: Set<int>, on: Value, tree: Tree)
    requires
        tree is String,
        steady(base, m, s, aside),
        alive(tree),
        string_step(cx, m, s, on, tree).ok,
        fits(string_step(cx, m, s, on, tree).s.ssa()),
    ensures
        settled(base, s, string_step(cx, m, s, on, tree).s, aside, tree),
    decreases m.weight(), tree, 0nat, tree->String_next.len() + 1,
{
    let start = St { p: Pat { map: s.p.map.drop_last(), ..s.p }, ..s }.skipping(false);
    lemma_steady_emits(base, m, s, start, aside);
    lemma_string_from(cx, m, base, start, aside, on, tree, 0, start.make_reset());
}

proof fn lemma_string_from(
    cx: Cx,
    m: Bodies,
    base: Ssa,
    s: St,
    aside: Set<int>,
    on: Value,
    tree: Tree,
    i: int,
    point: Reset,
)
    requires
        tree is String,
        steady(base, m, s, aside),
        !s.p.can_skip,
        string_alive(tree, i),
        string_from(cx, m, s, on, tree, i, point).ok,
        fits(string_from(cx, m, s, on, tree, i, point).s.ssa()),
    ensures
        settled(base, s, string_from(cx, m, s, on, tree, i, point).s, aside, tree),
    decreases m.weight(), tree, 0nat, tree->String_next.len() - i,
{
    match tree {
        Tree::String { next: arms, wildcard_next } => {
            if 0 <= i < arms.len() {
                let falsely = s.ssa().next_block();
                let made = s.with_ssa(s.ssa().new_block(0));
                let checked = checks_from(cx, made, on, falsely, arms[i].0, 0);
                let walked = next_step(cx, m, checked.s, arms[i].1);
                let back = walked.s.reset(falsely, point);
                let rest = string_from(cx, m, back, on, tree, i + 1, point);
                let more = aside.insert(falsely.0 as int);
                // nothing that follows takes a block away, so the blocks can be counted here
                grows::lemma_checks(cx, m, made, on, falsely, arms[i].0, 0);
                grows::lemma_next(cx, m, checked.s, arms[i].1);
                grows::lemma_string_from(cx, m, back, on, tree, i + 1, point);
                lemma_shut_moved(base, s, made, aside, more);
                lemma_checks(cx, m, base, made, more, on, falsely, arms[i].0, 0);
                lemma_next(cx, m, base, checked.s, more, arms[i].1);
                lemma_shut_back(base, walked.s, falsely, point, aside);
                lemma_string_from(cx, m, base, back, aside, on, tree, i + 1, point);
                assert(grown(walked.s.ssa(), back.ssa()));
                lemma_grown_twice(walked.s.ssa(), back.ssa(), rest.s.ssa());
                lemma_grown_twice(checked.s.ssa(), walked.s.ssa(), rest.s.ssa());
                lemma_grown_twice(made.ssa(), checked.s.ssa(), rest.s.ssa());
                assert(ended(walked.s.ssa(), s.ssa().current.0 as int));
                assert(ended(rest.s.ssa(), s.ssa().current.0 as int));
            } else {
                lemma_next(cx, m, base, s, aside, *wildcard_next);
            }
        },
        _ => {},
    }
}

/// Every way through a whole match ends where lowering goes on. Where every
/// leaf that the walk comes to is one that a pattern leads to, each body
/// has as many leaves as were counted for it, and the same holds of every
/// match in the bodies, lowering leaves none of the blocks that it made
/// open but the one in which it goes on, which is a block of the function,
/// and it ends the block in which the match started unless it goes on
/// there: no way through the match stops short of that block. Where the
/// match has a test with more than one arm, that block, in which its
/// branches meet, is open.
pub proof fn lemma_match_ends_in_one_block(cx: Cx, m: Bodies, f: Func, on: Value, tree: Tree)
    requires
        run_step(cx, m, St { f, p: Pat::start(m.branches.len() as nat) }, on, tree).ok,
        fits(run_step(cx, m, St { f, p: Pat::start(m.branches.len() as nat) }, on, tree).f.ssa),
        f.ssa.wf(),
        all_whole(m.branches, 0),
        whole_match(tree, m.branches.len() as nat, m.predecessors),
    ensures
        ({
            let run = run_step(
                cx,
                m,
                St { f, p: Pat::start(m.branches.len() as nat) },
                on,
                tree,
            ).f.ssa;
            &&& forall|x: int|
                f.ssa.blocks.len() <= x < run.blocks.len() && x != run.current.0 ==> !((
                #[trigger] run.blocks[x]).flow is Open)
            &&& run.current == f.ssa.current || !(run.blocks[f.ssa.current.0 as int].flow is Open)
            &&& run.wf()
            &&& !tree_step(
                cx,
                m,
                St { f, p: Pat::start(m.branches.len() as nat) },
                on,
                tree,
            ).s.p.can_skip ==> run.blocks[run.current.0 as int].flow is Open
        }),
{
    let s = St { f, p: Pat::start(m.branches.len() as nat) };
    let run = run_step(cx, m, s, on, tree).f.ssa;
    lemma_run(cx, m, s, on, tree);
    assert forall|x: int| f.ssa.blocks.len() <= x < run.blocks.len() && x != run.current.0 implies !((
    #[trigger] run.blocks[x]).flow is Open) by {
        assert(ended(run, x));
    }
}

/// The walk of a whole match lowers the body of each branch to which a
/// leaf of the tree leads once, however many leaves lead to it, and no
/// other body.
pub proof fn lemma_whole_match_lowers_each_body_once(
    cx: Cx,
    m: Bodies,
    f: Func,
    on: Value,
    tree: Tree,
)
    requires
        run_step(cx, m, St { f, p: Pat::start(m.branches.len() as nat) }, on, tree).ok,
        fits(run_step(cx, m, St { f, p: Pat::start(m.branches.len() as nat) }, on, tree).f.ssa),
        whole_match(tree, m.branches.len() as nat, m.predecessors),
    ensures
        ({
            let walked = tree_step(
                cx,
                m,
                St { f, p: Pat::start(m.branches.len() as nat) },
                on,
                tree,
            ).s;
            forall|tail: int|
                0 <= tail < m.branches.len() ==> #[trigger] walked.p.lowered[tail] == (if leaves(
                    tree,
                    tail,
                ) >= 1 {
                    1nat
                } else {
                    0nat
                })
        }),
{
    let s = St { f, p: Pat::start(m.branches.len() as nat) };
    let walked = tree_step(cx, m, s, on, tree).s;
    crate::pat::exact::lemma_start(m, f, m.branches.len() as nat);
    crate::pat::once::lemma_run(cx, m, s, on, tree);
    crate::pat::leaves::lemma_tree(cx, m, s, on, tree);
    assert forall|tail: int| 0 <= tail < m.branches.len() implies #[trigger] walked.p.lowered[tail]
        == (if leaves(tree, tail) >= 1 {
        1nat
    } else {
        0nat
    }) by {
        assert(crate::pat::exact::exact_at(m, walked, tail));
        assert(walked.p.jumps[tail] == s.p.jumps[tail] + leaves(tree, tail));
        assert(m.predecessors[tail] == leaves(tree, tail));
        if walked.p.expressions[tail] is Some {
            assert(walked.p.jumps[tail] >= 1);
        }
    }
}

} // verus!
