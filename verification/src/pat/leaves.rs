//! The leaves of a decision tree, counted: the walk lets as many leaves
//! jump to the body of a branch as the tree has for it. The proof, step by
//! step along the walk.

use crate::lower::Cx;
use crate::pat::exact::tail_of;
use crate::pat::{
    arm_of, bools_step, branch_step, check_step, checks_from, fields_read, fields_step, ints_from,
    key_of, list_step, lower_expr, next_step, payload_read, range_check, string_from,
    sum_from, sum_step, tail_step, tree_step, variant_types, Bodies, Pat, Reset, St,
};
use crate::ssa::{Block, Value};
use crate::tree::{StrCheck, Tail, Tree};
use vstd::prelude::*;

verus! {

/// How many leaves of `tree` lead to the body of `tail`, among those that
/// the walk comes to: an integer test is walked up to the arm that takes all
/// that is left.
pub open spec fn leaves(tree: Tree, tail: int) -> nat
    decreases tree, 1nat, 0nat,
{
    match tree {
        Tree::Record { next } => leaves(*next, tail),
        Tree::Tuple { next } => leaves(*next, tail),
        Tree::Wildcard { next } => leaves(*next, tail),
        Tree::Opaque { next } => leaves(*next, tail),
        Tree::End(leaf) => match leaf {
            Tail::Reached(_, _, to) => if to.0 == tail {
                1
            } else {
                0
            },
            _ => 0,
        },
        Tree::Bools(arms) => if arms.len() == 2 {
            leaves(arms[0].1, tail) + leaves(arms[1].1, tail)
        } else {
            0
        },
        Tree::Ints { .. } => ints_leaves(tree, 0, tail),
        Tree::Sum { .. } => sum_leaves(tree, 0, tail),
        Tree::List { next: arms, .. } => {
            let cons = arm_of(arms, crate::tree::spec_list_cons(), 0);
            let nil = arm_of(arms, crate::tree::spec_list_nil(), 0);
            if cons is Some && nil is Some && 0 <= cons->0 < arms.len() && 0 <= nil->0 < arms.len() {
                leaves(arms[cons->0].1, tail) + leaves(arms[nil->0].1, tail)
            } else {
                0
            }
        },
        Tree::String { .. } => string_leaves(tree, 0, tail),
    }
}

/// The same of the arms of an integer test from arm `i` on.
pub open spec fn ints_leaves(tree: Tree, i: int, tail: int) -> nat
    decreases tree, 0nat, tree->Ints_next.len() - i,
    when tree is Ints
{
    let arms = tree->Ints_next;
    if 0 <= i < arms.len() {
        if arms[i].0.end == arms[i].0.con.max {
            leaves(arms[i].1, tail)
        } else {
            leaves(arms[i].1, tail) + ints_leaves(tree, i + 1, tail)
        }
    } else {
        0
    }
}

/// The same of the arms of a test on a sum from arm `i` on.
pub open spec fn sum_leaves(tree: Tree, i: int, tail: int) -> nat
    decreases tree, 0nat, tree->Sum_next.len() - i,
    when tree is Sum
{
    let arms = tree->Sum_next;
    if 0 <= i < arms.len() {
        leaves(arms[i].1, tail) + sum_leaves(tree, i + 1, tail)
    } else {
        0
    }
}

/// The same of the arms of a test on a string from arm `i` on, and of what
/// matches any string.
pub open spec fn string_leaves(tree: Tree, i: int, tail: int) -> nat
    decreases tree, 0nat, tree->String_next.len() - i,
    when tree is String
{
    match tree {
        Tree::String { next: arms, wildcard_next } => {
            if 0 <= i < arms.len() {
                leaves(arms[i].1, tail) + string_leaves(tree, i + 1, tail)
            } else {
                leaves(*wildcard_next, tail)
            }
        },
        _ => 0,
    }
}

/// Whether as many more leaves have jumped to each body as `more` says.
pub open spec fn counted(before: St, after: St, more: spec_fn(int) -> nat) -> bool {
    &&& after.p.jumps.len() == before.p.jumps.len()
    &&& after.p.expressions.len() == before.p.expressions.len()
    &&& forall|tail: int|
        0 <= tail < before.p.jumps.len() ==> #[trigger] after.p.jumps[tail] == before.p.jumps[tail]
            + more(tail)
}

/// Whether a leaf has jumped to every body that has a block.
pub open spec fn marked(s: St) -> bool {
    &&& s.p.jumps.len() == s.p.expressions.len()
    &&& forall|tail: int|
        0 <= tail < s.p.expressions.len() && (#[trigger] s.p.expressions[tail]) is Some
            ==> s.p.jumps[tail] >= 1
}

/// The walk of a decision tree lets as many leaves jump to each body as
/// the tree has for it.
pub proof fn lemma_tree(cx: Cx, m: Bodies, s: St, on: Value, tree: Tree)
    requires
        tree_step(cx, m, s, on, tree).ok,
        s.p.jumps.len() == s.p.expressions.len(),
    ensures
        counted(s, tree_step(cx, m, s, on, tree).s, |tail: int| leaves(tree, tail)),
        marked(s) ==> marked(tree_step(cx, m, s, on, tree).s),
    decreases m.weight(), tree, 1nat, 0nat,
{
    let seen = s.seen(on);
    match tree {
        Tree::Record { next } => lemma_fields(cx, m, seen, on, *next),
        Tree::Tuple { next } => lemma_fields(cx, m, seen, on, *next),
        Tree::List { .. } => lemma_list(cx, m, seen, on, tree),
        Tree::Ints { .. } => lemma_ints_from(cx, m, seen.skipping(tree->Ints_next.len() == 1), on, tree, 0, seen.skipping(tree->Ints_next.len() == 1).make_reset()),
        Tree::Bools(_) => lemma_bools(cx, m, seen, on, tree),
        Tree::Sum { .. } => lemma_sum(cx, m, seen, on, tree),
        Tree::String { .. } => {
            let start = St { p: Pat { map: seen.p.map.drop_last(), ..seen.p }, ..seen }.skipping(false);
            lemma_string_from(cx, m, start, on, tree, 0, start.make_reset());
        },
        Tree::Wildcard { next } => lemma_next(cx, m, seen, *next),
        Tree::Opaque { next } => lemma_next(cx, m, seen, *next),
        Tree::End(_) => lemma_tail(cx, m, seen, tree),
    }
    let after = tree_step(cx, m, s, on, tree).s;
    assert forall|tail: int| 0 <= tail < s.p.jumps.len() implies #[trigger] after.p.jumps[tail]
        == s.p.jumps[tail] + leaves(tree, tail) by {}
}

pub(crate) proof fn lemma_next(cx: Cx, m: Bodies, s: St, tree: Tree)
    requires
        next_step(cx, m, s, tree).ok,
        s.p.jumps.len() == s.p.expressions.len(),
    ensures
        counted(s, next_step(cx, m, s, tree).s, |tail: int| leaves(tree, tail)),
        marked(s) ==> marked(next_step(cx, m, s, tree).s),
    decreases m.weight(), tree, 2nat, s.p.constructors.len(),
{
    if s.p.constructors.len() == 0 {
        match tree {
            Tree::End(_) => lemma_tail(cx, m, s, tree),
            _ => {},
        }
    } else {
        let queue = s.p.constructors.last();
        if queue.len() > 0 {
            let rest = s.p.constructors.update(s.p.constructors.len() - 1, queue.drop_first());
            let popped = St { p: Pat { constructors: rest, ..s.p }, ..s };
            lemma_tree(cx, m, popped, queue[0], tree);
        } else {
            let popped = St { p: Pat { constructors: s.p.constructors.drop_last(), ..s.p }, ..s };
            lemma_next(cx, m, popped, tree);
        }
    }
    let after = next_step(cx, m, s, tree).s;
    assert forall|tail: int| 0 <= tail < s.p.jumps.len() implies #[trigger] after.p.jumps[tail]
        == s.p.jumps[tail] + leaves(tree, tail) by {}
}

pub(crate) proof fn lemma_fields(cx: Cx, m: Bodies, s: St, on: Value, next: Tree)
    requires
        fields_step(cx, m, s, on, next).ok,
        s.p.jumps.len() == s.p.expressions.len(),
    ensures
        counted(s, fields_step(cx, m, s, on, next).s, |tail: int| leaves(next, tail)),
        marked(s) ==> marked(fields_step(cx, m, s, on, next).s),
    decreases m.weight(), next, 3nat, 0nat,
{
    let key = key_of(s.ssa().type_of(on));
    let fields = cx.types.fields_of(key->0);
    let first = s.ssa().entries.len() as int;
    let read = s.with_ssa(fields_read(s.ssa(), on, key->0, fields, 0)).queued(
        crate::pat::results(first, fields.len() as int),
    );
    lemma_next(cx, m, read, next);
    let after = fields_step(cx, m, s, on, next).s;
    assert forall|tail: int| 0 <= tail < s.p.jumps.len() implies #[trigger] after.p.jumps[tail]
        == s.p.jumps[tail] + leaves(next, tail) by {}
}

/// Where the lowering of a body starts, no leaf more is counted.
pub(crate) proof fn lemma_entered(s: St, block: Block, table: Seq<(crate::key::Bind, usize)>, tail: int)
    requires
        s.ssa().has(block),
    ensures
        crate::pat::entered_body(s, block, table, tail).p.jumps == s.p.jumps,
        crate::pat::entered_body(s, block, table, tail).p.expressions == s.p.expressions,
{
    reveal(crate::pat::entered_body);
    crate::pat::grows::lemma_params_bound(s, block, table, 0);
}

/// Nor where it ends.
pub(crate) proof fn lemma_yields(after: St, value: Value)
    ensures
        crate::pat::body_yields(after, value).s.p.jumps == after.p.jumps,
        crate::pat::body_yields(after, value).s.p.expressions == after.p.expressions,
{
    reveal(crate::pat::body_yields);
}

/// The lowering of a body counts no leaf.
pub(crate) proof fn lemma_branch(cx: Cx, m: Bodies, s: St, leaf: Tree)
    requires
        leaf is End,
        leaf->End_0 is Reached,
        s.p.expressions[tail_of(leaf)] is Some,
        s.ssa().has(s.p.expressions[tail_of(leaf)]->0),
        branch_step(cx, m, s, leaf).ok,
    ensures
        branch_step(cx, m, s, leaf).s.p.jumps == s.p.jumps,
        branch_step(cx, m, s, leaf).s.p.expressions == s.p.expressions,
{
    let table = leaf->End_0->Reached_0;
    let t = tail_of(leaf);
    let block = s.p.expressions[t]->0;
    if s.ssa().blocks[block.0 as int].predecessors == m.predecessors[t] as usize {
        let inside = crate::pat::entered_body(s, block, table, t);
        lemma_entered(s, block, table, t);
        let body = lower_expr(cx, inside.f, m.branches[t]);
        lemma_yields(St { f: body.f, ..inside }, body.value);
    }
}

pub(crate) proof fn lemma_tail(cx: Cx, m: Bodies, s: St, leaf: Tree)
    requires
        leaf is End,
        tail_step(cx, m, s, leaf).ok,
        s.p.jumps.len() == s.p.expressions.len(),
    ensures
        counted(s, tail_step(cx, m, s, leaf).s, |tail: int| leaves(leaf, tail)),
        marked(s) ==> marked(tail_step(cx, m, s, leaf).s),
    decreases m.weight(), leaf, 0nat, 1nat,
{
    match leaf->End_0 {
        Tail::Reached(table, _, tail) => {
            let t = tail.0 as int;
            let fresh = s.p.expressions[t] is None;
            let block = if fresh {
                s.ssa().next_block()
            } else {
                s.p.expressions[t]->0
            };
            let made = if fresh {
                St {
                    f: crate::lower::Func { ssa: s.ssa().new_block(table.len() as u32), ..s.f },
                    p: Pat { expressions: s.p.expressions.update(t, Some(block)), ..s.p },
                }
            } else {
                s
            };
            let args = crate::pat::bound_values(s.p.map, table);
            let jumped = St { p: made.p.jumped(t), ..made.with_ssa(made.ssa().jump(block, args)) };
            assert(tail_of(leaf) == t);
            crate::pat::grows::lemma_jumped(made.ssa(), block, args);
            lemma_branch(cx, m, jumped, leaf);
            let after = tail_step(cx, m, s, leaf).s;
            assert forall|other: int| 0 <= other < s.p.jumps.len() implies #[trigger] after.p.jumps[other]
                == s.p.jumps[other] + leaves(leaf, other) by {}
            if marked(s) {
                assert forall|other: int|
                    0 <= other < after.p.expressions.len() && (
                    #[trigger] after.p.expressions[other]) is Some implies after.p.jumps[other]
                    >= 1 by {
                    if other != t {
                        assert(s.p.expressions[other] is Some);
                    }
                }
            }
        },
        _ => {},
    }
}

pub(crate) proof fn lemma_ints_from(cx: Cx, m: Bodies, s: St, on: Value, tree: Tree, i: int, point: Reset)
    requires
        tree is Ints,
        ints_from(cx, m, s, on, tree, i, point).ok,
        s.p.jumps.len() == s.p.expressions.len(),
    ensures
        counted(s, ints_from(cx, m, s, on, tree, i, point).s, |tail: int| ints_leaves(tree, i, tail)),
        marked(s) ==> marked(ints_from(cx, m, s, on, tree, i, point).s),
    decreases m.weight(), tree, 0nat, tree->Ints_next.len() - i,
{
    let intsize = tree->intsize;
    let arms = tree->Ints_next;
    let after = ints_from(cx, m, s, on, tree, i, point).s;
    if 0 <= i < arms.len() {
        let (range, next) = arms[i];
        if range.end == range.con.max {
            lemma_next(cx, m, s, next);
            assert forall|tail: int| 0 <= tail < s.p.jumps.len() implies #[trigger] after.p.jumps[tail]
                == s.p.jumps[tail] + ints_leaves(tree, i, tail) by {}
        } else {
            let on_true = s.ssa().next_block();
            let on_false = Block((s.ssa().blocks.len() + 1) as usize);
            let blocks = s.ssa().new_block(0).new_block(0);
            let checked = range_check(blocks, on, intsize, range);
            let value = crate::pat::range_checked(blocks, range);
            let inside = s.with_ssa(checked.select(value, on_true, on_false).switch_to_block(on_true));
            let walked = next_step(cx, m, inside, next);
            let back = walked.s.reset(on_false, point);
            lemma_next(cx, m, inside, next);
            lemma_ints_from(cx, m, back, on, tree, i + 1, point);
            assert forall|tail: int| 0 <= tail < s.p.jumps.len() implies #[trigger] after.p.jumps[tail]
                == s.p.jumps[tail] + ints_leaves(tree, i, tail) by {
                assert(walked.s.p.jumps[tail] == inside.p.jumps[tail] + leaves(next, tail));
                assert(after.p.jumps[tail] == back.p.jumps[tail] + ints_leaves(tree, i + 1, tail));
            }
        }
    } else {
        assert forall|tail: int| 0 <= tail < s.p.jumps.len() implies #[trigger] after.p.jumps[tail]
            == s.p.jumps[tail] + ints_leaves(tree, i, tail) by {}
    }
}

pub(crate) proof fn lemma_bools(cx: Cx, m: Bodies, s: St, on: Value, tree: Tree)
    requires
        tree is Bools,
        bools_step(cx, m, s, on, tree).ok,
        s.p.jumps.len() == s.p.expressions.len(),
    ensures
        counted(s, bools_step(cx, m, s, on, tree).s, |tail: int| leaves(tree, tail)),
        marked(s) ==> marked(bools_step(cx, m, s, on, tree).s),
    decreases m.weight(), tree, 0nat, 0nat,
{
    let arms = tree->Bools_0;
    let skipped = s.skipping(false);
    let after = bools_step(cx, m, s, on, tree).s;
    if arms.len() == 2 {
        let truthy = if arms[0].0 {
            arms[0]
        } else {
            arms[1]
        };
        let falsey = if arms[0].0 {
            arms[1]
        } else {
            arms[0]
        };
        let point = skipped.make_reset();
        let on_true = skipped.ssa().next_block();
        let on_false = Block((skipped.ssa().blocks.len() + 1) as usize);
        let blocks = skipped.ssa().new_block(0).new_block(0);
        let inside = skipped.with_ssa(blocks.select(on, on_true, on_false).switch_to_block(on_true));
        let first = next_step(cx, m, inside, truthy.1);
        let back = first.s.reset(on_false, point);
        lemma_next(cx, m, inside, truthy.1);
        lemma_next(cx, m, back, falsey.1);
        assert forall|tail: int| 0 <= tail < s.p.jumps.len() implies #[trigger] after.p.jumps[tail]
            == s.p.jumps[tail] + leaves(tree, tail) by {
            assert(first.s.p.jumps[tail] == inside.p.jumps[tail] + leaves(truthy.1, tail));
            assert(after.p.jumps[tail] == back.p.jumps[tail] + leaves(falsey.1, tail));
        }
    }
}

pub(crate) proof fn lemma_sum(cx: Cx, m: Bodies, s: St, on: Value, tree: Tree)
    requires
        tree is Sum,
        sum_step(cx, m, s, on, tree).ok,
        s.p.jumps.len() == s.p.expressions.len(),
    ensures
        counted(s, sum_step(cx, m, s, on, tree).s, |tail: int| leaves(tree, tail)),
        marked(s) ==> marked(sum_step(cx, m, s, on, tree).s),
    decreases m.weight(), tree, 0nat, tree->Sum_next.len() + 1,
{
    let arms = tree->Sum_next;
    let skipped = s.skipping(arms.len() == 1);
    let oblock = skipped.ssa().current;
    let key = key_of(skipped.ssa().type_of(on));
    let fields = cx.types.fields_of(key->0);
    let read = skipped.ssa().emit(
        crate::ssa::Entry::Field { of: on, key: key->0, field: crate::key::RecordField(0) },
        crate::types::MonoType::Int(crate::ssa::spec_tag_size()),
    ).emit(
        crate::ssa::Entry::Field { of: on, key: key->0, field: crate::key::RecordField(1) },
        fields[1],
    );
    let data = skipped.ssa().second_value();
    let start = skipped.with_ssa(read);
    lemma_sum_from(cx, m, start, oblock, data, tree, 0, Seq::empty());
    let after = sum_step(cx, m, s, on, tree).s;
    let walked = sum_from(cx, m, start, oblock, data, tree, 0, Seq::empty());
    assert forall|tail: int| 0 <= tail < s.p.jumps.len() implies #[trigger] after.p.jumps[tail]
        == s.p.jumps[tail] + leaves(tree, tail) by {
        assert(walked.s.p.jumps[tail] == start.p.jumps[tail] + sum_leaves(tree, 0, tail));
    }
}

pub(crate) proof fn lemma_sum_from(
    cx: Cx,
    m: Bodies,
    s: St,
    oblock: Block,
    data: Value,
    tree: Tree,
    i: int,
    blocks: Seq<Block>,
)
    requires
        tree is Sum,
        sum_from(cx, m, s, oblock, data, tree, i, blocks).ok,
        s.p.jumps.len() == s.p.expressions.len(),
    ensures
        counted(
            s,
            sum_from(cx, m, s, oblock, data, tree, i, blocks).s,
            |tail: int| sum_leaves(tree, i, tail),
        ),
        marked(s) ==> marked(sum_from(cx, m, s, oblock, data, tree, i, blocks).s),
    decreases m.weight(), tree, 0nat, tree->Sum_next.len() - i,
{
    let sum = tree->sum;
    let params = tree->params;
    let arms = tree->Sum_next;
    let after = sum_from(cx, m, s, oblock, data, tree, i, blocks).s;
    if 0 <= i < arms.len() {
        let (var, next) = arms[i];
        let vblock = s.ssa().next_block();
        let inside = s.enter_new_block();
        let point = inside.make_reset();
        let raw = variant_types(cx, sum, var);
        let first = inside.ssa().entries.len() as int;
        let read = inside.with_ssa(payload_read(cx, inside.ssa(), data, raw->0, params, 0, 0)).queued(
            crate::pat::results(first, raw->0.len() as int),
        );
        let more = blocks.push(vblock);
        let walked = next_step(cx, m, read, next);
        let back = walked.s.reset(oblock, point);
        lemma_next(cx, m, read, next);
        lemma_sum_from(cx, m, back, oblock, data, tree, i + 1, more);
        assert forall|tail: int| 0 <= tail < s.p.jumps.len() implies #[trigger] after.p.jumps[tail]
            == s.p.jumps[tail] + sum_leaves(tree, i, tail) by {
            assert(walked.s.p.jumps[tail] == read.p.jumps[tail] + leaves(next, tail));
            assert(after.p.jumps[tail] == back.p.jumps[tail] + sum_leaves(tree, i + 1, tail));
        }
    } else {
        assert forall|tail: int| 0 <= tail < s.p.jumps.len() implies #[trigger] after.p.jumps[tail]
            == s.p.jumps[tail] + sum_leaves(tree, i, tail) by {}
    }
}

pub(crate) proof fn lemma_list(cx: Cx, m: Bodies, s: St, on: Value, tree: Tree)
    requires
        tree is List,
        list_step(cx, m, s, on, tree).ok,
        s.p.jumps.len() == s.p.expressions.len(),
    ensures
        counted(s, list_step(cx, m, s, on, tree).s, |tail: int| leaves(tree, tail)),
        marked(s) ==> marked(list_step(cx, m, s, on, tree).s),
    decreases m.weight(), tree, 0nat, 0nat,
{
    let ty = tree->ty;
    let elem = tree->elem;
    let arms = tree->List_next;
    let skipped = s.skipping(false);
    let oblock = skipped.ssa().current;
    let listmt = cx.tmap.applied(ty);
    let innermt = cx.tmap.applied(elem);
    let found = cx.mir.implementation(cx.info.listable, seq![innermt], listmt);
    let imp = crate::key::Impl(found->0 as u32);
    let generics = crate::mir::settled(
        cx.mir.impls[found->0].applies(cx.info.listable, seq![innermt], listmt)->0,
    );
    let split = crate::mir::FuncOrigin::Method(imp, cx.info.listable_split);
    let ret = cx.returns_of(split, generics);
    let mfunc = skipped.f.mfunc_of(split, Some(listmt), generics);
    let asked = St { f: skipped.f.call_to_mfunc(cx, split, Some(listmt), generics), ..skipped };
    let maybe = asked.ssa().next_value();
    let tag = asked.ssa().second_value();
    let data = asked.ssa().third_value();
    let key = key_of(ret);
    let largest = (cx.types.bits_from(key->0, 0) - crate::ssa::spec_tag_size().bitsize.0) as u32;
    let read = asked.ssa().called(mfunc, seq![on], ret).emit(
        crate::ssa::Entry::Field { of: maybe, key: key->0, field: crate::key::RecordField(0) },
        crate::types::MonoType::Int(crate::ssa::spec_tag_size()),
    ).emit(
        crate::ssa::Entry::Field { of: maybe, key: key->0, field: crate::key::RecordField(1) },
        crate::types::MonoType::SumDataCast { largest },
    ).emit(
        crate::ssa::Entry::Compare(
            crate::ssa::Comparison::Equal,
            tag,
            Value::spec_maybe_just(),
            crate::ssa::spec_tag_size(),
        ),
        crate::ssa::spec_truth(),
    );
    let cons = arm_of(arms, crate::tree::spec_list_cons(), 0);
    let nil = arm_of(arms, crate::tree::spec_list_nil(), 0);
    if cons is Some && nil is Some && 0 <= cons->0 < arms.len() && 0 <= nil->0 < arms.len() {
        let in_cons = asked.with_ssa(read).enter_new_block();
        let cons_point = in_cons.make_reset();
        let taken = in_cons.with_ssa(
            in_cons.ssa().emit(
                crate::ssa::Entry::SumField { of: data, offset: crate::ssa::BitOffset(0) },
                innermt,
            ).emit(
                crate::ssa::Entry::SumField {
                    of: data,
                    offset: crate::ssa::BitOffset(cx.types.bits(innermt) as u32),
                },
                listmt,
            ),
        ).queued(seq![in_cons.ssa().next_value(), in_cons.ssa().second_value()]);
        let first = next_step(cx, m, taken, arms[cons->0].1);
        let back = first.s.reset(oblock, cons_point);
        let in_nil = back.enter_new_block();
        let nil_point = in_nil.make_reset();
        let queued = in_nil.queued(Seq::empty());
        let second = next_step(cx, m, queued, arms[nil->0].1);
        lemma_next(cx, m, taken, arms[cons->0].1);
        lemma_next(cx, m, queued, arms[nil->0].1);
        let after = list_step(cx, m, s, on, tree).s;
        assert forall|tail: int| 0 <= tail < s.p.jumps.len() implies #[trigger] after.p.jumps[tail]
            == s.p.jumps[tail] + leaves(tree, tail) by {
            assert(first.s.p.jumps[tail] == taken.p.jumps[tail] + leaves(arms[cons->0].1, tail));
            assert(second.s.p.jumps[tail] == queued.p.jumps[tail] + leaves(arms[nil->0].1, tail));
        }
    }
}

/// The steps of a string pattern count no leaf.
pub(crate) proof fn lemma_checks(cx: Cx, s: St, on: Value, falsely: Block, checks: Seq<StrCheck>, i: int)
    ensures
        checks_from(cx, s, on, falsely, checks, i).s.p.jumps == s.p.jumps,
        checks_from(cx, s, on, falsely, checks, i).s.p.expressions == s.p.expressions,
    decreases checks.len() - i,
{
    if 0 <= i < checks.len() {
        let here = check_step(cx, s, on, falsely, checks[i], i == checks.len() - 1);
        lemma_checks(cx, here.s, here.on, falsely, checks, i + 1);
    }
}

pub(crate) proof fn lemma_string_from(cx: Cx, m: Bodies, s: St, on: Value, tree: Tree, i: int, point: Reset)
    requires
        tree is String,
        string_from(cx, m, s, on, tree, i, point).ok,
        s.p.jumps.len() == s.p.expressions.len(),
    ensures
        counted(
            s,
            string_from(cx, m, s, on, tree, i, point).s,
            |tail: int| string_leaves(tree, i, tail),
        ),
        marked(s) ==> marked(string_from(cx, m, s, on, tree, i, point).s),
    decreases m.weight(), tree, 0nat, tree->String_next.len() - i,
{
    let after = string_from(cx, m, s, on, tree, i, point).s;
    match tree {
        Tree::String { next: arms, wildcard_next } => {
            if 0 <= i < arms.len() {
                let falsely = s.ssa().next_block();
                let made = s.with_ssa(s.ssa().new_block(0));
                let checked = checks_from(cx, made, on, falsely, arms[i].0, 0);
                let walked = next_step(cx, m, checked.s, arms[i].1);
                let back = walked.s.reset(falsely, point);
                lemma_checks(cx, made, on, falsely, arms[i].0, 0);
                lemma_next(cx, m, checked.s, arms[i].1);
                lemma_string_from(cx, m, back, on, tree, i + 1, point);
                assert forall|tail: int| 0 <= tail < s.p.jumps.len() implies #[trigger] after.p.jumps[tail]
                    == s.p.jumps[tail] + string_leaves(tree, i, tail) by {
                    assert(walked.s.p.jumps[tail] == checked.s.p.jumps[tail] + leaves(
                        arms[i].1,
                        tail,
                    ));
                    assert(after.p.jumps[tail] == back.p.jumps[tail] + string_leaves(
                        tree,
                        i + 1,
                        tail,
                    ));
                }
            } else {
                lemma_next(cx, m, s, *wildcard_next);
                assert forall|tail: int| 0 <= tail < s.p.jumps.len() implies #[trigger] after.p.jumps[tail]
                    == s.p.jumps[tail] + string_leaves(tree, i, tail) by {}
            }
        },
        _ => {},
    }
}

} // verus!
