//! What holds of every lowering of a match.

use crate::key::Bind;
use crate::lower::{Cx, Func};
use crate::pat::ends::leaf_jumped;
use crate::pat::exact::{block_at, entries_of, tail_of};
use crate::pat::{
    bind_params, body_yields, bools_step, bound_values, branch_step, continuation, entered_body,
    ints_from, lower_expr, match_value, next_step, range_check, range_checked, tail_step, Bodies,
    Out, Pat, Reset, St,
};
use crate::range::Range;
use crate::ssa::Comparison;
use crate::types::IntSize;
use crate::ssa::{BasicBlock, Block, ControlFlow, Entry, Ssa, Value};
use crate::tree::Tree;
use vstd::prelude::*;

verus! {

/// The jump of a leaf hands over, for each binding of the leaf, the value
/// that stands at the depth of the binding in what was seen when the jump
/// was made.
pub proof fn lemma_leaf_hands_over_what_was_seen(s: St, block: Block, table: Seq<(Bind, usize)>)
    requires
        s.ssa().wf(),
        s.ssa().args.len() + table.len() <= usize::MAX,
    ensures
        ({
            let jumped = s.ssa().jump(block, bound_values(s.p.map, table));
            let list = s.ssa().next_args(bound_values(s.p.map, table));
            &&& jumped.blocks[s.ssa().current.0 as int].flow == ControlFlow::Jump(block, list)
            &&& jumped.args_of(list).len() == table.len()
            &&& forall|i: int|
                0 <= i < table.len() ==> jumped.args_of(list)[i] == s.p.map[depth_of(
                    #[trigger] table[i],
                )]
        }),
{
    let args = bound_values(s.p.map, table);
    let jumped = s.ssa().jump(block, args);
    let list = s.ssa().next_args(args);
    assert(jumped.args == s.ssa().args + args);
    assert(jumped.args_of(list) =~= args);
}

/// The number of the binding of an entry of a leaf's table.
pub open spec fn bind_id(entry: (Bind, usize)) -> u32 {
    let (bind, _) = entry;
    bind.0
}

/// Whether no entry of the table from index `from` on names the binding `id`.
pub open spec fn unnamed(table: Seq<(Bind, usize)>, from: int, id: u32) -> bool {
    forall|i: int| from <= i < table.len() ==> bind_id(#[trigger] table[i]) != id
}

/// The depth of an entry of a leaf's table.
pub open spec fn depth_of(entry: (Bind, usize)) -> int {
    let (_, depth) = entry;
    depth as int
}

/// Once the bindings of a leaf are made parameters of the block of its
/// body, each of them is bound to an instruction that was added as a
/// parameter of that block, and the other bindings are as they were.
pub proof fn lemma_bindings_are_parameters(s: St, block: Block, table: Seq<(Bind, usize)>, from: int)
    requires
        0 <= from <= table.len(),
        s.ssa().entries.len() + table.len() - from <= usize::MAX,
    ensures
        ({
            let bound = bind_params(s, block, table, from);
            &&& bound.ssa().entries.len() == s.ssa().entries.len() + table.len() - from
            &&& bound.p == s.p
            &&& forall|k: int|
                0 <= k < s.ssa().entries.len() ==> bound.ssa().entries[k] == s.ssa().entries[k]
            &&& forall|k: int|
                s.ssa().entries.len() <= k < bound.ssa().entries.len() ==> (
                #[trigger] bound.ssa().entries[k]).block == block
                    && bound.ssa().entries[k].entry is BlockParam
            &&& forall|i: int|
                from <= i < table.len() ==> bound.f.binds.contains_key(bind_id(#[trigger] table[i]))
                    && (match bound.f.binds[bind_id(table[i])] {
                    Value::V(v) => s.ssa().entries.len() <= v.0 < bound.ssa().entries.len(),
                    _ => false,
                })
            &&& forall|id: u32| #[trigger]
                unnamed(table, from, id) ==> bound.f.binds.contains_key(id)
                    == s.f.binds.contains_key(id) && (s.f.binds.contains_key(id)
                    ==> bound.f.binds[id] == s.f.binds[id])
        }),
    decreases table.len() - from,
{
    if from < table.len() {
        let (bind, depth) = table[from];
        let ty = s.ssa().type_of(s.p.map[depth as int]);
        let param = s.ssa().next_value();
        let next = St {
            f: Func {
                ssa: s.ssa().add_block_param(block, ty),
                binds: s.f.binds.insert(bind.0, param),
                ..s.f
            },
            ..s
        };
        lemma_bindings_are_parameters(next, block, table, from + 1);
        let bound = bind_params(s, block, table, from);
        assert(bound == bind_params(next, block, table, from + 1));
        assert(bind_id(table[from]) == bind.0);
        assert forall|i: int| from <= i < table.len() implies bound.f.binds.contains_key(
            bind_id(#[trigger] table[i]),
        ) && (match bound.f.binds[bind_id(table[i])] {
            Value::V(v) => s.ssa().entries.len() <= v.0 < bound.ssa().entries.len(),
            _ => false,
        }) by {
            if i == from {
                if unnamed(table, from + 1, bind.0) {
                    assert(next.f.binds.contains_key(bind.0));
                    assert(bound.f.binds[bind.0] == param);
                } else {
                    let j = choose|j: int|
                        from + 1 <= j < table.len() && bind_id(#[trigger] table[j]) == bind.0;
                    assert(bound.f.binds.contains_key(bind_id(table[j])));
                }
            }
        }
        assert forall|id: u32| #[trigger] unnamed(table, from, id) implies bound.f.binds.contains_key(
            id,
        ) == s.f.binds.contains_key(id) && (s.f.binds.contains_key(id) ==> bound.f.binds[id]
            == s.f.binds[id]) by {
            assert(bind_id(table[from]) != id);
            assert(unnamed(table, from + 1, id));
        }
    }
}

/// What the search for a parameter of a block finds is such a parameter.
pub proof fn lemma_block_param_found(ssa: Ssa, block: Block, index: usize, from: int)
    requires
        0 <= from,
        ssa.entries.len() <= usize::MAX,
    ensures
        match ssa.block_param(block, index, from) {
            Some(Value::V(v)) => from <= v.0 < ssa.entries.len() && ssa.entries[v.0 as int].entry
                == Entry::BlockParam(block, index),
            Some(_) => false,
            None => true,
        },
    decreases ssa.entries.len() - from,
{
    if from < ssa.entries.len() {
        if ssa.entries[from].entry != Entry::BlockParam(block, index) {
            lemma_block_param_found(ssa, block, index, from + 1);
        }
    }
}

/// Where a match had a test with more than one arm, its value is a
/// parameter of the block in which its branches meet, and lowering goes on
/// in that block. Where it had none, its value is what the only body gave,
/// no block was made for branches to meet in, and nothing more is written.
pub proof fn lemma_match_ends_where_branches_meet(walked: Out)
    requires
        match_value(walked).ok,
        walked.s.ssa().entries.len() < usize::MAX,
    ensures
        ({
            let run = match_value(walked);
            if walked.s.p.can_skip {
                &&& run.f == walked.s.f
                &&& Some(run.value) == walked.s.p.continuation_value
                &&& walked.s.p.continuation_block is None
            } else {
                let (block, ty) = walked.s.p.continuation_block.unwrap();
                &&& run.f.ssa.current == block
                &&& run.f.ssa.has(block)
                &&& match run.value {
                    Value::V(v) => v.0 < run.f.ssa.entries.len() && (match run.f.ssa.entries[v.0 as int].entry {
                        Entry::BlockParam(of, _) => of == block,
                        _ => false,
                    }),
                    _ => false,
                }
            }
        }),
{
    if !walked.s.p.can_skip {
        let (block, ty) = walked.s.p.continuation_block->0;
        let ssa = walked.s.f.ssa.switch_to_block(block).add_block_param(block, ty);
        lemma_block_param_found(ssa, block, 0, 0);
    }
}

/// Where a match has more than one branch, the block in which a body
/// ends jumps to the block in which the branches meet and hands it what the
/// body gave, and nothing else.
pub proof fn lemma_body_hands_over(after: St, value: Value)
    requires
        body_yields(after, value).ok,
        !after.p.can_skip,
        after.ssa().args.len() < usize::MAX,
    ensures
        ({
            let out = body_yields(after, value).s;
            let list = after.ssa().next_args(seq![value]);
            &&& out.p.continuation_block is Some
            &&& out.ssa().blocks[after.ssa().current.0 as int].flow == ControlFlow::Jump(
                continuation(after, after.ssa().type_of(value)).1,
                list,
            )
            &&& out.p.continuation_block.unwrap().0 == continuation(
                after,
                after.ssa().type_of(value),
            ).1
            &&& out.ssa().args_of(list) == seq![value]
        }),
{
    reveal(body_yields);
    let (made, con) = continuation(after, after.ssa().type_of(value));
    let out = body_yields(after, value).s;
    let list = after.ssa().next_args(seq![value]);
    assert(out.ssa().args == after.ssa().args + seq![value]);
    assert(out.ssa().args_of(list) =~= seq![value]);
}

/// Where a match has no test with more than one arm, the only body keeps
/// its value: nothing is written, no block is made for branches to meet
/// in, and lowering goes on where the body ended.
pub proof fn lemma_only_body_keeps_its_value(after: St, value: Value)
    requires
        after.p.can_skip,
    ensures
        body_yields(after, value).ok,
        body_yields(after, value).s.f == after.f,
        body_yields(after, value).s.p == (Pat { continuation_value: Some(value), ..after.p }),
{
    reveal(body_yields);
}

/// A leaf to which a pattern leads writes one jump, and no instruction: to
/// the block of its body, which is made if no leaf has asked for it, and
/// with the values that stand at the depths of its bindings, in the order
/// of the bindings. The jump is counted, and then the body is lowered if
/// the jump was the last.
pub proof fn lemma_leaf_jumps_once(cx: Cx, m: Bodies, s: St, leaf: Tree)
    requires
        leaf is End,
        leaf->End_0 is Reached,
        tail_step(cx, m, s, leaf).ok,
        tail_of(leaf) < s.p.jumps.len(),
        s.ssa().blocks.len() < usize::MAX,
        s.ssa().args.len() + leaf->End_0->Reached_0.len() <= usize::MAX,
    ensures
        ({
            let table = leaf->End_0->Reached_0;
            let t = tail_of(leaf);
            let jumped = leaf_jumped(s, table, t);
            let block = jumped.p.expressions[t].unwrap();
            let list = s.ssa().next_args(bound_values(s.p.map, table));
            &&& tail_step(cx, m, s, leaf).s == branch_step(cx, m, jumped, leaf).s
            &&& jumped.p.expressions[t] is Some
            &&& match s.p.expressions[t] {
                Some(asked) => block == asked && jumped.ssa().blocks.len() == s.ssa().blocks.len(),
                None => block == s.ssa().next_block() && jumped.ssa().blocks.len()
                    == s.ssa().blocks.len() + 1 && jumped.ssa().blocks[block.0 as int].arity
                    == table.len(),
            }
            &&& jumped.ssa().blocks[s.ssa().current.0 as int].flow == ControlFlow::Jump(block, list)
            &&& jumped.ssa().current == s.ssa().current
            &&& jumped.ssa().entries == s.ssa().entries
            &&& jumped.ssa().args_of(list).len() == table.len()
            &&& forall|i: int|
                0 <= i < table.len() ==> jumped.ssa().args_of(list)[i] == s.p.map[depth_of(
                    #[trigger] table[i],
                )]
            &&& jumped.p.jumps[t] == s.p.jumps[t] + 1
            &&& jumped.p.map == s.p.map
            &&& jumped.f.binds == s.f.binds
        }),
{
    crate::pat::ends::lemma_tail_unfolded(cx, m, s, leaf);
    lemma_jump_of_a_leaf(s, leaf->End_0->Reached_0, tail_of(leaf));
}

/// The same of the jump by itself.
proof fn lemma_jump_of_a_leaf(s: St, table: Seq<(Bind, usize)>, t: int)
    requires
        0 <= t < s.p.expressions.len(),
        0 <= t < s.p.jumps.len(),
        s.ssa().wf(),
        table.len() <= u32::MAX,
        s.ssa().blocks.len() < usize::MAX,
        s.ssa().args.len() + table.len() <= usize::MAX,
    ensures
        ({
            let jumped = leaf_jumped(s, table, t);
            let block = jumped.p.expressions[t].unwrap();
            let list = s.ssa().next_args(bound_values(s.p.map, table));
            &&& jumped.p.expressions[t] is Some
            &&& match s.p.expressions[t] {
                Some(asked) => block == asked && jumped.ssa().blocks.len() == s.ssa().blocks.len(),
                None => block == s.ssa().next_block() && jumped.ssa().blocks.len()
                    == s.ssa().blocks.len() + 1 && jumped.ssa().blocks[block.0 as int].arity
                    == table.len(),
            }
            &&& jumped.ssa().blocks[s.ssa().current.0 as int].flow == ControlFlow::Jump(block, list)
            &&& jumped.ssa().current == s.ssa().current
            &&& jumped.ssa().entries == s.ssa().entries
            &&& jumped.ssa().args_of(list).len() == table.len()
            &&& forall|i: int|
                0 <= i < table.len() ==> jumped.ssa().args_of(list)[i] == s.p.map[depth_of(
                    #[trigger] table[i],
                )]
            &&& jumped.p.jumps[t] == s.p.jumps[t] + 1
            &&& jumped.p.map == s.p.map
            &&& jumped.f.binds == s.f.binds
        }),
{
    let fresh = s.p.expressions[t] is None;
    let block = if fresh {
        s.ssa().next_block()
    } else {
        s.p.expressions[t].unwrap()
    };
    let made = if fresh {
        St {
            f: Func { ssa: s.ssa().new_block(table.len() as u32), ..s.f },
            p: Pat { expressions: s.p.expressions.update(t, Some(block)), ..s.p },
        }
    } else {
        s
    };
    let args = bound_values(s.p.map, table);
    let jumped = made.ssa().jump(block, args);
    let list = made.ssa().next_args(args);
    assert(jumped.args == made.ssa().args + args);
    assert(jumped.args_of(list) =~= args);
    crate::pat::grows::lemma_jumped(made.ssa(), block, args);
}

/// The body of a branch waits for the last leaf: as long as other jumps
/// lead into its block than were counted for it, nothing is written, no
/// binding is made and lowering goes on where it was.
pub proof fn lemma_body_waits_for_the_last_leaf(cx: Cx, m: Bodies, s: St, leaf: Tree)
    requires
        leaf is End,
        leaf->End_0 is Reached,
        s.p.expressions[tail_of(leaf)] is Some,
        entries_of(s.ssa(), block_at(s, tail_of(leaf)).unwrap()) != m.predecessors[tail_of(
            leaf,
        )] as usize,
    ensures
        branch_step(cx, m, s, leaf).s == s,
        branch_step(cx, m, s, leaf).ok,
{
    let t = tail_of(leaf);
    let block = s.p.expressions[t].unwrap();
    assert(block_at(s, t) == Some(block.0 as int));
}

/// Once as many jumps lead into the block of a body as were counted for
/// it, the body is lowered, and once: the bindings of the leaf become
/// parameters of the block, lowering goes on in the block, the lowering of
/// the body is counted, the body is lowered there, and its value is kept or
/// handed to the block in which the branches meet.
pub proof fn lemma_body_is_lowered_after_the_last_leaf(cx: Cx, m: Bodies, s: St, leaf: Tree)
    requires
        leaf is End,
        leaf->End_0 is Reached,
        branch_step(cx, m, s, leaf).ok,
        s.p.expressions[tail_of(leaf)] is Some,
        s.ssa().has(s.p.expressions[tail_of(leaf)]->0),
        entries_of(s.ssa(), block_at(s, tail_of(leaf)).unwrap()) == m.predecessors[tail_of(
            leaf,
        )] as usize,
    ensures
        ({
            let table = leaf->End_0->Reached_0;
            let t = tail_of(leaf);
            let block = s.p.expressions[t]->0;
            let inside = entered_body(s, block, table, t);
            let body = lower_expr(cx, inside.f, m.branches[t]);
            &&& 0 <= t < m.branches.len()
            &&& inside.f == bind_params(s, block, table, 0).f.with_ssa(
                bind_params(s, block, table, 0).ssa().switch_to_block(block),
            )
            &&& inside.ssa().current == block
            &&& inside.p == s.p.counted(t)
            &&& body.ok
            &&& branch_step(cx, m, s, leaf).s == body_yields(
                St { f: body.f, ..inside },
                body.value,
            ).s
        }),
{
    reveal(entered_body);
    let table = leaf->End_0->Reached_0;
    let t = tail_of(leaf);
    let block = s.p.expressions[t]->0;
    crate::pat::grows::lemma_params_bound(s, block, table, 0);
}

/// A test on a boolean writes one choice, and no instruction: two blocks
/// without parameters are made, the block in which the test starts ends in
/// a choice on the matched value between them, and the match will need a
/// block for its branches to meet in. Whichever arm stands first, the arm
/// for `true` is walked in the first block, and then the other arm in the
/// second, from what was seen and queued when the test started.
pub proof fn lemma_bools_chooses_once(cx: Cx, m: Bodies, s: St, on: Value, tree: Tree)
    requires
        tree is Bools,
        tree->Bools_0.len() == 2,
        s.ssa().wf(),
        s.ssa().blocks.len() + 2 <= usize::MAX,
    ensures
        ({
            let arms = tree->Bools_0;
            let truthy = if arms[0].0 {
                arms[0].1
            } else {
                arms[1].1
            };
            let falsey = if arms[0].0 {
                arms[1].1
            } else {
                arms[0].1
            };
            let start = s.ssa().current;
            let on_true = Block(s.ssa().blocks.len() as usize);
            let on_false = Block((s.ssa().blocks.len() + 1) as usize);
            let empty = BasicBlock { arity: 0, params: 0, predecessors: 1, flow: ControlFlow::Open };
            let chosen = Ssa {
                blocks: s.ssa().blocks.update(
                    start.0 as int,
                    BasicBlock {
                        flow: ControlFlow::Select { value: on, on_true, on_false },
                        ..s.ssa().blocks[start.0 as int]
                    },
                ).push(empty).push(empty),
                current: on_true,
                ..s.ssa()
            };
            let inside = St { p: Pat { can_skip: false, ..s.p }, ..s.with_ssa(chosen) };
            let first = next_step(cx, m, inside, truthy);
            let back = St {
                f: first.s.f.with_ssa(first.s.ssa().switch_to_block(on_false)),
                p: Pat { constructors: s.p.constructors, map: s.p.map, ..first.s.p },
            };
            let second = next_step(cx, m, back, falsey);
            &&& bools_step(cx, m, s, on, tree).s == second.s
            &&& bools_step(cx, m, s, on, tree).ok == (first.ok && second.ok)
        }),
{
    let arms = tree->Bools_0;
    let q = s.skipping(false);
    let on_true = q.ssa().next_block();
    let on_false = Block((q.ssa().blocks.len() + 1) as usize);
    let made = q.ssa().new_block(0).new_block(0);
    let ended = made.end(ControlFlow::Select { value: on, on_true, on_false });
    let start = s.ssa().current;
    let empty = BasicBlock { arity: 0, params: 0, predecessors: 1, flow: ControlFlow::Open };
    let chosen = Ssa {
        blocks: s.ssa().blocks.update(
            start.0 as int,
            BasicBlock {
                flow: ControlFlow::Select { value: on, on_true, on_false },
                ..s.ssa().blocks[start.0 as int]
            },
        ).push(empty).push(empty),
        current: on_true,
        ..s.ssa()
    };
    assert(made.select(on, on_true, on_false).switch_to_block(on_true).blocks =~= chosen.blocks);
}

/// What the check of a range writes: for a range of one value one
/// comparison for equality with it; for any other a comparison for less
/// than the value after its end, and, unless the range starts at the least
/// value of the type, one for greater than the value before its start and
/// the two taken together bit by bit. No block is made or ended.
pub proof fn lemma_range_is_checked(ssa: Ssa, on: Value, intsize: IntSize, range: Range)
    ensures
        ({
            let checked = range_check(ssa, on, intsize, range);
            let first = ssa.entries.len() as int;
            &&& checked.blocks == ssa.blocks
            &&& checked.current == ssa.current
            &&& range.start == range.end ==> {
                &&& checked.entries.len() == first + 1
                &&& checked.entries[first].entry == Entry::Compare(
                    Comparison::Equal,
                    on,
                    Value::Int(range.end, intsize),
                    intsize,
                )
                &&& range_checked(ssa, range) == ssa.next_value()
            }
            &&& range.start != range.end ==> checked.entries[first].entry == Entry::Compare(
                Comparison::Less,
                on,
                Value::Int((range.end + 1) as i128, intsize),
                intsize,
            )
            &&& range.start != range.end && range.start == range.con.min ==> {
                &&& checked.entries.len() == first + 1
                &&& range_checked(ssa, range) == ssa.next_value()
            }
            &&& range.start != range.end && range.start != range.con.min ==> {
                &&& checked.entries.len() == first + 3
                &&& checked.entries[first + 1].entry == Entry::Compare(
                    Comparison::Greater,
                    on,
                    Value::Int((range.start - 1) as i128, intsize),
                    intsize,
                )
                &&& checked.entries[first + 2].entry == Entry::BitAnd(
                    ssa.next_value(),
                    ssa.second_value(),
                )
                &&& range_checked(ssa, range) == ssa.third_value()
            }
        }),
{
}

/// An arm of a test on an integer that takes all that is left is walked
/// where the test stands, and no arm after it. For any other arm two
/// blocks are made, the range is checked, the block ends in a choice on
/// the check between them, the arm is walked in the first, and the arms
/// after it follow in the second, from what was seen and queued when the
/// test started.
pub proof fn lemma_int_arm_is_checked(
    cx: Cx,
    m: Bodies,
    s: St,
    on: Value,
    tree: Tree,
    i: int,
    point: Reset,
)
    requires
        tree is Ints,
        0 <= i < tree->Ints_next.len(),
    ensures
        ({
            let (range, next) = tree->Ints_next[i];
            let on_true = s.ssa().next_block();
            let on_false = Block((s.ssa().blocks.len() + 1) as usize);
            let checked = range_check(s.ssa().new_block(0).new_block(0), on, tree->intsize, range);
            let chosen = checked.select(
                range_checked(s.ssa().new_block(0).new_block(0), range),
                on_true,
                on_false,
            );
            let walked = next_step(cx, m, s.with_ssa(chosen.switch_to_block(on_true)), next);
            if range.end == range.con.max {
                ints_from(cx, m, s, on, tree, i, point) == next_step(cx, m, s, next)
            } else {
                ints_from(cx, m, s, on, tree, i, point).s == ints_from(
                    cx,
                    m,
                    walked.s.reset(on_false, point),
                    on,
                    tree,
                    i + 1,
                    point,
                ).s
            }
        }),
{
}

/// The state in which a test on a list has asked for the function that
/// splits the list.
pub open spec fn list_asked(cx: Cx, s: St, tree: Tree) -> St {
    let listmt = cx.tmap.applied(tree->ty);
    let innermt = cx.tmap.applied(tree->elem);
    let found = cx.mir.implementation(cx.info.listable, seq![innermt], listmt);
    let generics = crate::mir::settled(
        cx.mir.impls[found.unwrap()].applies(cx.info.listable, seq![innermt], listmt).unwrap(),
    );
    let split = crate::mir::FuncOrigin::Method(
        crate::key::Impl(found.unwrap() as u32),
        cx.info.listable_split,
    );
    let q = s.skipping(false);
    St { f: q.f.call_to_mfunc(cx, split, Some(listmt), generics), ..q }
}

/// What a test on a list writes before its arms are walked. In the block
/// in which it starts: a call of the function that splits the list, by
/// the implementation of the trait of lists for the type of the list, on
/// the matched value alone; a read of the tag of what the call gave and
/// one of its payload; and a comparison of the tag with that of the
/// variant that holds a head and a tail. In a block made for the arm of
/// that variant: a read of the head at the start of the payload, and one
/// of the tail right behind the head. Both are queued to be visited, the
/// head first.
pub proof fn lemma_list_is_split(cx: Cx, m: Bodies, s: St, on: Value, tree: Tree)
    requires
        tree is List,
        crate::pat::list_step(cx, m, s, on, tree).ok,
    ensures
        ({
            let listmt = cx.tmap.applied(tree->ty);
            let innermt = cx.tmap.applied(tree->elem);
            let found = cx.mir.implementation(cx.info.listable, seq![innermt], listmt);
            let generics = crate::mir::settled(
                cx.mir.impls[found.unwrap()].applies(
                    cx.info.listable,
                    seq![innermt],
                    listmt,
                ).unwrap(),
            );
            let split = crate::mir::FuncOrigin::Method(
                crate::key::Impl(found.unwrap() as u32),
                cx.info.listable_split,
            );
            let ret = cx.returns_of(split, generics);
            let key = crate::pat::key_of(ret).unwrap();
            let asked = list_asked(cx, s, tree);
            let mfunc = s.f.mfunc_of(split, Some(listmt), generics);
            let first = asked.ssa().entries.len() as int;
            let maybe = asked.ssa().next_value();
            let tag = asked.ssa().second_value();
            let data = asked.ssa().third_value();
            let read = asked.ssa().called(mfunc, seq![on], ret).emit(
                Entry::Field { of: maybe, key, field: crate::key::RecordField(0) },
                crate::types::MonoType::Int(crate::ssa::spec_tag_size()),
            ).emit(
                Entry::Field { of: maybe, key, field: crate::key::RecordField(1) },
                crate::types::MonoType::SumDataCast {
                    largest: (cx.types.bits_from(key, 0) - crate::ssa::spec_tag_size().bitsize.0) as u32,
                },
            ).emit(
                Entry::Compare(
                    Comparison::Equal,
                    tag,
                    Value::spec_maybe_just(),
                    crate::ssa::spec_tag_size(),
                ),
                crate::ssa::spec_truth(),
            );
            let in_cons = asked.with_ssa(read).enter_new_block();
            let taken = in_cons.with_ssa(
                in_cons.ssa().emit(
                    Entry::SumField { of: data, offset: crate::ssa::BitOffset(0) },
                    innermt,
                ).emit(
                    Entry::SumField {
                        of: data,
                        offset: crate::ssa::BitOffset(cx.types.bits(innermt) as u32),
                    },
                    listmt,
                ),
            ).queued(seq![in_cons.ssa().next_value(), in_cons.ssa().second_value()]);
            let cons = crate::pat::arm_of(tree->List_next, crate::tree::spec_list_cons(), 0);
            let nil = crate::pat::arm_of(tree->List_next, crate::tree::spec_list_nil(), 0);
            let walked = next_step(cx, m, taken, tree->List_next[cons.unwrap()].1);
            let in_nil = walked.s.reset(s.ssa().current, in_cons.make_reset()).enter_new_block();
            let second = next_step(
                cx,
                m,
                in_nil.queued(Seq::empty()),
                tree->List_next[nil.unwrap()].1,
            );
            let done = second.s.reset(s.ssa().current, in_nil.make_reset());
            &&& found is Some
            &&& cons is Some
            &&& nil is Some
            &&& read.blocks == s.ssa().blocks
            &&& read.current == s.ssa().current
            &&& read.entries.len() == first + 4
            &&& read.entries[first].entry == Entry::Call(
                Value::FuncPtr(mfunc),
                asked.ssa().next_args(seq![on]),
            )
            &&& read.entries[first].ty == ret
            &&& taken.ssa().current == read.next_block()
            &&& taken.ssa().entries.len() == first + 6
            &&& taken.ssa().entries[first + 4].block == read.next_block()
            &&& taken.ssa().entries[first + 4].ty == innermt
            &&& taken.ssa().entries[first + 5].ty == listmt
            &&& taken.p.constructors.last() == seq![
                in_cons.ssa().next_value(),
                in_cons.ssa().second_value(),
            ]
            &&& !taken.p.can_skip
            &&& crate::pat::list_step(cx, m, s, on, tree).s == done.with_ssa(
                done.ssa().select(
                    Value::V(crate::ssa::V((asked.ssa().entries.len() + 3) as usize)),
                    read.next_block(),
                    walked.s.ssa().next_block(),
                ),
            )
        }),
{
}

} // verus!
