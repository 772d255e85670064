//! The body of a branch is lowered exactly when the last of the leaves that
//! lead to it has jumped, and so exactly once: what is kept along the walk,
//! and what single steps do to it.

use crate::key::Bind;
use crate::lower::{Cx, Func};
use crate::mir::{Expr, ResolvedNFunc};
use crate::pat::{
    bind_params, continuation, fields_read, payload_read, range_check, Bodies, Pat, Reset, St,
};
use crate::range::Range;
use crate::ssa::{Block, Ssa, Value};
use crate::tree::{Tail, Tree};
use crate::types::{IntSize, MonoType, MonoTypeKey, Type};
use vstd::prelude::*;

verus! {

/// A count as far as a block can count.
pub open spec fn capped(n: nat) -> usize {
    if n < usize::MAX {
        n as usize
    } else {
        usize::MAX
    }
}

/// The block of the body of `tail`, by its index, once a leaf has asked for it.
pub open spec fn block_at(s: St, tail: int) -> Option<int> {
    match s.p.expressions[tail] {
        Some(block) => Some(block.0 as int),
        None => None,
    }
}

/// Whether block `b` is the block of a body.
pub open spec fn tail_block_at(s: St, b: int) -> bool {
    exists|tail: int| 0 <= tail < s.p.expressions.len() && #[trigger] block_at(s, tail) == Some(b)
}

/// The block in which the branches meet, by its index, once a branch has
/// asked for it.
pub open spec fn meeting(s: St) -> Option<int> {
    match s.p.continuation_block {
        Some((block, _)) => Some(block.0 as int),
        None => None,
    }
}

/// How many jumps lead into block `b`.
pub open spec fn entries_of(ssa: Ssa, b: int) -> usize {
    ssa.blocks[b].predecessors
}

/// How often the body of `tail` is lowered by the time `jumps` leaves have
/// jumped to it: once, if the count of leaves that lead to it is at least
/// one and has been met.
pub open spec fn due(m: Bodies, jumps: nat, tail: int) -> nat {
    if tail < m.predecessors.len() && 1 <= m.predecessors[tail] <= jumps {
        1
    } else {
        0
    }
}

/// What holds of the body of `tail` during the walk: before a leaf asks
/// for its block, no leaf has jumped to it and it has not been lowered;
/// after, exactly the leaves that jumped to it lead into its block, and it
/// has been lowered if and only if the count that was given for it is met.
pub open spec fn exact_at(m: Bodies, s: St, tail: int) -> bool {
    match block_at(s, tail) {
        None => s.p.jumps[tail] == 0 && s.p.lowered[tail] == 0,
        Some(b) => 0 <= b < s.ssa().blocks.len() && entries_of(s.ssa(), b) == capped(
            s.p.jumps[tail],
        ) && s.p.lowered[tail] == due(m, s.p.jumps[tail], tail),
    }
}

/// How many bodies have been lowered in all.
pub open spec fn total(lowered: Seq<nat>) -> nat
    decreases lowered.len(),
{
    if lowered.len() == 0 {
        0
    } else {
        total(lowered.drop_last()) + lowered.last()
    }
}

/// What holds of the block in which the branches meet, as long as no body
/// gave its value without one: into it lead as many jumps as bodies have
/// been lowered, but for the `owed` bodies that are being lowered and have
/// not handed over their value yet.
pub open spec fn met(s: St, owed: nat) -> bool {
    s.p.continuation_value is None ==> total(s.p.lowered) >= owed && match meeting(s) {
        Some(c) => entries_of(s.ssa(), c) == capped((total(s.p.lowered) - owed) as nat),
        None => total(s.p.lowered) == owed,
    }
}

/// What holds of all bodies during the walk: of each what `exact_at` says;
/// no two share a block; the block in which the branches meet is the block
/// of no body; and of that block what `met` says.
pub open spec fn exact_owing(m: Bodies, s: St, owed: nat) -> bool {
    &&& s.p.lowered.len() == s.p.expressions.len()
    &&& s.p.jumps.len() == s.p.expressions.len()
    &&& forall|tail: int| 0 <= tail < s.p.expressions.len() ==> #[trigger] exact_at(m, s, tail)
    &&& forall|one: int, other: int|
        0 <= one < s.p.expressions.len() && 0 <= other < s.p.expressions.len() && one != other
            && block_at(s, one) is Some ==> #[trigger] block_at(s, one) != #[trigger] block_at(
            s,
            other,
        )
    &&& match meeting(s) {
        Some(c) => 0 <= c < s.ssa().blocks.len() && !tail_block_at(s, c),
        None => true,
    }
    &&& met(s, owed)
}

/// What holds of all bodies between the steps of the walk.
pub open spec fn exact(m: Bodies, s: St) -> bool {
    exact_owing(m, s, 0)
}

/// A block that was asked for stays; one that is asked for is new.
pub open spec fn fresh_or_same(len: nat, before: Option<int>, after: Option<int>) -> bool {
    match before {
        Some(b) => after == Some(b),
        None => match after {
            Some(a) => a >= len,
            None => true,
        },
    }
}

/// What a part of the walk does to the blocks that were there before it:
/// none goes; only into the blocks of bodies and into the block in which
/// the branches meet do more jumps lead; and the blocks of bodies and the
/// meeting block that it asks for are new.
pub open spec fn stepped(before: St, after: St) -> bool {
    &&& before.ssa().blocks.len() <= after.ssa().blocks.len()
    &&& after.p.expressions.len() == before.p.expressions.len()
    &&& forall|b: int|
        0 <= b < before.ssa().blocks.len() && !tail_block_at(before, b) && meeting(before)
            != Some(b) ==> #[trigger] entries_of(after.ssa(), b) == entries_of(before.ssa(), b)
    &&& forall|tail: int|
        0 <= tail < before.p.expressions.len() ==> fresh_or_same(
            before.ssa().blocks.len(),
            block_at(before, tail),
            #[trigger] block_at(after, tail),
        )
    &&& fresh_or_same(before.ssa().blocks.len(), meeting(before), meeting(after))
}

/// What a part of the walk keeps.
pub open spec fn held(m: Bodies, before: St, after: St) -> bool {
    &&& stepped(before, after)
    &&& exact(m, after)
}

/// No block has gone, and as many jumps lead into each as did.
pub open spec fn quiet(before: Ssa, after: Ssa) -> bool {
    &&& before.blocks.len() <= after.blocks.len()
    &&& forall|b: int|
        0 <= b < before.blocks.len() ==> #[trigger] entries_of(after, b) == entries_of(before, b)
}

/// A walk starts with no leaf that has jumped and no body lowered.
pub proof fn lemma_start(m: Bodies, f: Func, tails: nat)
    ensures
        exact(m, St { f, p: Pat::start(tails) }),
{
    let s = St { f, p: Pat::start(tails) };
    assert forall|tail: int| 0 <= tail < s.p.expressions.len() implies #[trigger] exact_at(
        m,
        s,
        tail,
    ) by {}
    lemma_total_zeros(s.p.lowered);
}

/// Where no body has been lowered, none has been lowered in all.
pub(crate) proof fn lemma_total_zeros(lowered: Seq<nat>)
    requires
        forall|i: int| 0 <= i < lowered.len() ==> lowered[i] == 0,
    ensures
        total(lowered) == 0,
    decreases lowered.len(),
{
    if lowered.len() > 0 {
        lemma_total_zeros(lowered.drop_last());
    }
}

/// One more lowering of a body is one more lowering in all.
pub(crate) proof fn lemma_total_counted(lowered: Seq<nat>, tail: int)
    requires
        0 <= tail < lowered.len(),
    ensures
        total(lowered.update(tail, lowered[tail] + 1)) == total(lowered) + 1,
    decreases lowered.len(),
{
    let counted = lowered.update(tail, lowered[tail] + 1);
    if tail == lowered.len() - 1 {
        assert(counted.drop_last() =~= lowered.drop_last());
    } else {
        lemma_total_counted(lowered.drop_last(), tail);
        assert(counted.drop_last() =~= lowered.drop_last().update(
            tail,
            lowered.drop_last()[tail] + 1,
        ));
    }
}

pub(crate) proof fn lemma_quiet_twice(a: Ssa, b: Ssa, c: Ssa)
    requires
        quiet(a, b),
        quiet(b, c),
    ensures
        quiet(a, c),
{
    assert forall|k: int| 0 <= k < a.blocks.len() implies #[trigger] entries_of(c, k) == entries_of(
        a,
        k,
    ) by {
        assert(entries_of(b, k) == entries_of(a, k));
    }
}

pub(crate) proof fn lemma_stepped_twice(a: St, b: St, c: St)
    requires
        stepped(a, b),
        stepped(b, c),
    ensures
        stepped(a, c),
{
    assert forall|tail: int| 0 <= tail < a.p.expressions.len() implies fresh_or_same(
        a.ssa().blocks.len(),
        block_at(a, tail),
        #[trigger] block_at(c, tail),
    ) by {
        assert(fresh_or_same(a.ssa().blocks.len(), block_at(a, tail), block_at(b, tail)));
        assert(fresh_or_same(b.ssa().blocks.len(), block_at(b, tail), block_at(c, tail)));
    }
    assert forall|k: int|
        0 <= k < a.ssa().blocks.len() && !tail_block_at(a, k) && meeting(a) != Some(
            k,
        ) implies #[trigger] entries_of(c.ssa(), k) == entries_of(a.ssa(), k) by {
        assert(entries_of(b.ssa(), k) == entries_of(a.ssa(), k));
        if tail_block_at(b, k) {
            let tail = choose|tail: int|
                0 <= tail < b.p.expressions.len() && #[trigger] block_at(b, tail) == Some(k);
            assert(fresh_or_same(a.ssa().blocks.len(), block_at(a, tail), block_at(b, tail)));
            assert(block_at(a, tail) == Some(k));
        }
    }
}

pub(crate) proof fn lemma_held_twice(m: Bodies, a: St, b: St, c: St)
    requires
        stepped(a, b),
        held(m, b, c),
    ensures
        held(m, a, c),
{
    lemma_stepped_twice(a, b, c);
}

/// A part of the walk that asks for no block, counts no jump and lowers no
/// body, and that leaves the jumps into the blocks that were there as they
/// were, keeps what holds of all bodies.
pub(crate) proof fn lemma_local_owing(m: Bodies, s: St, next: St, owed: nat)
    requires
        exact_owing(m, s, owed),
        quiet(s.ssa(), next.ssa()),
        next.p.expressions == s.p.expressions,
        next.p.lowered == s.p.lowered,
        next.p.jumps == s.p.jumps,
        next.p.continuation_block == s.p.continuation_block,
        next.p.continuation_value is None ==> s.p.continuation_value is None,
    ensures
        stepped(s, next),
        exact_owing(m, next, owed),
{
    assert forall|tail: int| 0 <= tail < next.p.expressions.len() implies #[trigger] exact_at(
        m,
        next,
        tail,
    ) by {
        assert(exact_at(m, s, tail));
        assert(block_at(next, tail) == block_at(s, tail));
        if block_at(s, tail) is Some {
            assert(entries_of(next.ssa(), block_at(s, tail)->0) == entries_of(
                s.ssa(),
                block_at(s, tail)->0,
            ));
        }
    }
    assert forall|one: int, other: int|
        0 <= one < next.p.expressions.len() && 0 <= other < next.p.expressions.len() && one
            != other && block_at(next, one) is Some implies #[trigger] block_at(next, one)
        != #[trigger] block_at(next, other) by {
        assert(block_at(s, one) != block_at(s, other));
    }
    assert forall|b: int| tail_block_at(next, b) implies tail_block_at(s, b) by {
        let tail = choose|tail: int|
            0 <= tail < next.p.expressions.len() && #[trigger] block_at(next, tail) == Some(b);
        assert(block_at(s, tail) == Some(b));
    }
    assert forall|tail: int| 0 <= tail < s.p.expressions.len() implies fresh_or_same(
        s.ssa().blocks.len(),
        block_at(s, tail),
        #[trigger] block_at(next, tail),
    ) by {}
    if meeting(s) is Some {
        assert(entries_of(next.ssa(), meeting(s)->0) == entries_of(s.ssa(), meeting(s)->0));
    }
}

/// The same between the steps of the walk.
pub(crate) proof fn lemma_local(m: Bodies, s: St, next: St)
    requires
        exact(m, s),
        quiet(s.ssa(), next.ssa()),
        next.p.expressions == s.p.expressions,
        next.p.lowered == s.p.lowered,
        next.p.jumps == s.p.jumps,
        next.p.continuation_block == s.p.continuation_block,
        next.p.continuation_value is None ==> s.p.continuation_value is None,
    ensures
        held(m, s, next),
{
    lemma_local_owing(m, s, next, 0);
}

/// A part of the walk that asks for no block, counts no jump and lowers no
/// body, and that makes more jumps lead only into blocks that are new to
/// the walk since `base` and are the block of no body, keeps what holds of
/// all bodies.
pub(crate) proof fn lemma_entering(m: Bodies, base: St, s: St, next: St, entered: Set<int>)
    requires
        stepped(base, s),
        exact(m, s),
        next.ssa().blocks.len() >= s.ssa().blocks.len(),
        forall|b: int|
            0 <= b < s.ssa().blocks.len() && !entered.contains(b) ==> #[trigger] entries_of(
                next.ssa(),
                b,
            ) == entries_of(s.ssa(), b),
        forall|b: int|
            entered.contains(b) ==> !tail_block_at(s, b) && meeting(s) != Some(b) && b
                >= base.ssa().blocks.len(),
        next.p.expressions == s.p.expressions,
        next.p.lowered == s.p.lowered,
        next.p.jumps == s.p.jumps,
        next.p.continuation_block == s.p.continuation_block,
        next.p.continuation_value is None ==> s.p.continuation_value is None,
    ensures
        held(m, base, next),
{
    if meeting(s) is Some {
        assert(entries_of(next.ssa(), meeting(s)->0) == entries_of(s.ssa(), meeting(s)->0));
    }
    assert forall|b: int| tail_block_at(next, b) implies tail_block_at(s, b) by {
        let tail = choose|tail: int|
            0 <= tail < next.p.expressions.len() && #[trigger] block_at(next, tail) == Some(b);
        assert(block_at(s, tail) == Some(b));
    }
    assert forall|tail: int| 0 <= tail < next.p.expressions.len() implies #[trigger] exact_at(
        m,
        next,
        tail,
    ) by {
        assert(exact_at(m, s, tail));
        assert(block_at(next, tail) == block_at(s, tail));
        if block_at(s, tail) is Some {
            let b = block_at(s, tail)->0;
            assert(tail_block_at(s, b));
            assert(entries_of(next.ssa(), b) == entries_of(s.ssa(), b));
        }
    }
    assert forall|one: int, other: int|
        0 <= one < next.p.expressions.len() && 0 <= other < next.p.expressions.len() && one
            != other && block_at(next, one) is Some implies #[trigger] block_at(next, one)
        != #[trigger] block_at(next, other) by {
        assert(block_at(s, one) != block_at(s, other));
    }
    assert forall|tail: int| 0 <= tail < base.p.expressions.len() implies fresh_or_same(
        base.ssa().blocks.len(),
        block_at(base, tail),
        #[trigger] block_at(next, tail),
    ) by {
        assert(block_at(next, tail) == block_at(s, tail));
    }
    assert forall|b: int|
        0 <= b < base.ssa().blocks.len() && !tail_block_at(base, b) && meeting(base) != Some(
            b,
        ) implies #[trigger] entries_of(next.ssa(), b) == entries_of(base.ssa(), b) by {
        assert(entries_of(s.ssa(), b) == entries_of(base.ssa(), b));
    }
}

/// What is no block of a body before a part of the walk, and was there
/// before it, is no block of a body after it.
pub(crate) proof fn lemma_not_tail_later(before: St, after: St, b: int)
    requires
        stepped(before, after),
        0 <= b < before.ssa().blocks.len(),
        !tail_block_at(before, b),
    ensures
        !tail_block_at(after, b),
{
    if tail_block_at(after, b) {
        let tail = choose|tail: int|
            0 <= tail < after.p.expressions.len() && #[trigger] block_at(after, tail) == Some(b);
        assert(fresh_or_same(before.ssa().blocks.len(), block_at(before, tail), block_at(after, tail)));
        assert(block_at(before, tail) == Some(b));
    }
}

/// The blocks of bodies are blocks of the function.
pub(crate) proof fn lemma_tails_are_blocks(m: Bodies, s: St, b: int)
    requires
        exact(m, s),
        tail_block_at(s, b),
    ensures
        0 <= b < s.ssa().blocks.len(),
{
    let tail = choose|tail: int|
        0 <= tail < s.p.expressions.len() && #[trigger] block_at(s, tail) == Some(b);
    assert(exact_at(m, s, tail));
}

pub(crate) proof fn lemma_entered(ssa: Ssa, block: Block)
    ensures
        ssa.enter(block).blocks.len() == ssa.blocks.len(),
        ssa.enter(block).current == ssa.current,
        forall|b: int|
            0 <= b < ssa.blocks.len() && b != block.0 ==> #[trigger] entries_of(ssa.enter(block), b)
                == entries_of(ssa, b),
        ssa.has(block) ==> entries_of(ssa.enter(block), block.0 as int) == crate::ssa::spec_bump(
            entries_of(ssa, block.0 as int),
        ),
{
}

pub(crate) proof fn lemma_entered_all(ssa: Ssa, blocks: Seq<Block>, i: int)
    requires
        0 <= i,
    ensures
        ssa.enter_all(blocks, i).blocks.len() == ssa.blocks.len(),
        ssa.enter_all(blocks, i).current == ssa.current,
        forall|b: int|
            0 <= b < ssa.blocks.len() && !among(blocks, b) ==> #[trigger] entries_of(
                ssa.enter_all(blocks, i),
                b,
            ) == entries_of(ssa, b),
    decreases blocks.len() - i,
{
    if i < blocks.len() {
        lemma_entered(ssa, blocks[i]);
        lemma_entered_all(ssa.enter(blocks[i]), blocks, i + 1);
        assert forall|b: int|
            0 <= b < ssa.blocks.len() && !among(blocks, b) implies #[trigger] entries_of(
            ssa.enter_all(blocks, i),
            b,
        ) == entries_of(ssa, b) by {
            assert(at_place(blocks, i) != b);
            assert(entries_of(ssa.enter(blocks[i]), b) == entries_of(ssa, b));
        }
    }
}

/// The index of the block in place `i`.
pub open spec fn at_place(blocks: Seq<Block>, i: int) -> int {
    blocks[i].0 as int
}

/// Whether block `b` is among `blocks`.
pub open spec fn among(blocks: Seq<Block>, b: int) -> bool {
    exists|i: int| 0 <= i < blocks.len() && #[trigger] at_place(blocks, i) == b
}

pub(crate) proof fn lemma_jumped(ssa: Ssa, block: Block, params: Seq<Value>)
    requires
        ssa.wf(),
    ensures
        ssa.jump(block, params).blocks.len() == ssa.blocks.len(),
        ssa.jump(block, params).current == ssa.current,
        forall|b: int|
            0 <= b < ssa.blocks.len() && b != block.0 ==> #[trigger] entries_of(
                ssa.jump(block, params),
                b,
            ) == entries_of(ssa, b),
        ssa.has(block) ==> entries_of(ssa.jump(block, params), block.0 as int)
            == crate::ssa::spec_bump(entries_of(ssa, block.0 as int)),
{
    let ended = ssa.with_args(params).end(crate::ssa::ControlFlow::Jump(block, ssa.next_args(params)));
    lemma_entered(ended, block);
    assert forall|b: int| 0 <= b < ssa.blocks.len() implies entries_of(ended, b) == entries_of(
        ssa,
        b,
    ) by {}
}

pub(crate) proof fn lemma_selected(ssa: Ssa, value: Value, on_true: Block, on_false: Block)
    requires
        ssa.wf(),
    ensures
        ssa.select(value, on_true, on_false).blocks.len() == ssa.blocks.len(),
        ssa.select(value, on_true, on_false).current == ssa.current,
        forall|b: int|
            0 <= b < ssa.blocks.len() && b != on_true.0 && b != on_false.0 ==> #[trigger] entries_of(
                ssa.select(value, on_true, on_false),
                b,
            ) == entries_of(ssa, b),
{
    let ended = ssa.end(crate::ssa::ControlFlow::Select { value, on_true, on_false });
    lemma_entered(ended, on_true);
    lemma_entered(ended.enter(on_true), on_false);
    assert forall|b: int|
        0 <= b < ssa.blocks.len() && b != on_true.0 && b != on_false.0 implies #[trigger] entries_of(
        ssa.select(value, on_true, on_false),
        b,
    ) == entries_of(ssa, b) by {
        assert(entries_of(ended, b) == entries_of(ssa, b));
        assert(entries_of(ended.enter(on_true), b) == entries_of(ended, b));
    }
}

pub(crate) proof fn lemma_jump_tabled(ssa: Ssa, on: Value, blocks: Seq<Block>)
    requires
        ssa.wf(),
    ensures
        ssa.jump_table(on, blocks).blocks.len() == ssa.blocks.len(),
        ssa.jump_table(on, blocks).current == ssa.current,
        forall|b: int|
            0 <= b < ssa.blocks.len() && !among(blocks, b) ==> #[trigger] entries_of(
                ssa.jump_table(on, blocks),
                b,
            ) == entries_of(ssa, b),
{
    let table = crate::ssa::Args { start: ssa.targets.len() as usize, len: blocks.len() as usize };
    let ended = Ssa { targets: ssa.targets + blocks, ..ssa }.end(
        crate::ssa::ControlFlow::JumpTable(on, table),
    );
    lemma_entered_all(ended, blocks, 0);
    assert forall|b: int|
        0 <= b < ssa.blocks.len() && !among(blocks, b) implies #[trigger] entries_of(
        ssa.jump_table(on, blocks),
        b,
    ) == entries_of(ssa, b) by {
        assert(entries_of(ended, b) == entries_of(ssa, b));
    }
}

pub(crate) proof fn lemma_fields_read(ssa: Ssa, on: Value, key: MonoTypeKey, fields: Seq<MonoType>, from: int)
    requires
        0 <= from,
    ensures
        fields_read(ssa, on, key, fields, from).blocks == ssa.blocks,
        fields_read(ssa, on, key, fields, from).current == ssa.current,
    decreases fields.len() - from,
{
    if from < fields.len() {
        lemma_fields_read(
            ssa.emit(
                crate::ssa::Entry::Field {
                    of: on,
                    key,
                    field: crate::key::RecordField(from as u32),
                },
                fields[from],
            ),
            on,
            key,
            fields,
            from + 1,
        );
    }
}

pub(crate) proof fn lemma_payload_read(
    cx: Cx,
    ssa: Ssa,
    data: Value,
    raw: Seq<Type>,
    params: Seq<Type>,
    from: int,
    offset: nat,
)
    requires
        0 <= from,
    ensures
        payload_read(cx, ssa, data, raw, params, from, offset).blocks == ssa.blocks,
        payload_read(cx, ssa, data, raw, params, from, offset).current == ssa.current,
    decreases raw.len() - from,
{
    if from < raw.len() {
        let ty = cx.tmap.applied(crate::mono::instantiated(raw[from], params));
        lemma_payload_read(
            cx,
            ssa.emit(
                crate::ssa::Entry::SumField {
                    of: data,
                    offset: crate::ssa::BitOffset(offset as u32),
                },
                ty,
            ),
            data,
            raw,
            params,
            from + 1,
            offset + cx.types.bits(ty),
        );
    }
}

pub(crate) proof fn lemma_params_bound(s: St, block: Block, table: Seq<(Bind, usize)>, from: int)
    requires
        0 <= from,
        s.ssa().has(block),
    ensures
        ({
            let bound = bind_params(s, block, table, from);
            &&& bound.p == s.p
            &&& bound.ssa().current == s.ssa().current
            &&& quiet(s.ssa(), bound.ssa())
            &&& bound.ssa().blocks.len() == s.ssa().blocks.len()
        }),
    decreases table.len() - from,
{
    if from < table.len() {
        let (bind, depth) = table[from];
        let ty = s.ssa().type_of(s.p.map[depth as int]);
        let next = St {
            f: Func {
                ssa: s.ssa().add_block_param(block, ty),
                binds: s.f.binds.insert(bind.0, s.ssa().next_value()),
                ..s.f
            },
            ..s
        };
        lemma_params_bound(next, block, table, from + 1);
        assert forall|b: int| 0 <= b < s.ssa().blocks.len() implies entries_of(next.ssa(), b)
            == entries_of(s.ssa(), b) by {}
        lemma_quiet_twice(s.ssa(), next.ssa(), bind_params(s, block, table, from).ssa());
    }
}

/// One more, as far as a block can count, is the count of one more.
pub(crate) proof fn lemma_bump_capped(n: nat)
    ensures
        crate::ssa::spec_bump(capped(n)) == capped(n + 1),
{
}

/// What holds between the jump of a leaf and what follows it: of the body
/// that the leaf jumped to, the jump is counted and the lowering is still
/// to come; of all else what `exact` says.
pub open spec fn pending(m: Bodies, s: St, tail: int) -> bool {
    &&& 0 <= tail < s.p.expressions.len()
    &&& s.p.lowered.len() == s.p.expressions.len()
    &&& s.p.jumps.len() == s.p.expressions.len()
    &&& forall|other: int|
        0 <= other < s.p.expressions.len() && other != tail ==> #[trigger] exact_at(m, s, other)
    &&& match block_at(s, tail) {
        None => false,
        Some(b) => 0 <= b < s.ssa().blocks.len() && s.p.jumps[tail] >= 1 && entries_of(s.ssa(), b)
            == capped(s.p.jumps[tail]) && s.p.lowered[tail] == due(
            m,
            (s.p.jumps[tail] - 1) as nat,
            tail,
        ),
    }
    &&& forall|one: int, other: int|
        0 <= one < s.p.expressions.len() && 0 <= other < s.p.expressions.len() && one != other
            && block_at(s, one) is Some ==> #[trigger] block_at(s, one) != #[trigger] block_at(
            s,
            other,
        )
    &&& match meeting(s) {
        Some(c) => 0 <= c < s.ssa().blocks.len() && !tail_block_at(s, c),
        None => true,
    }
    &&& met(s, 0)
}

/// The tail that a reached leaf leads to.
pub open spec fn tail_of(leaf: Tree) -> int {
    match leaf {
        Tree::End(Tail::Reached(_, _, tail)) => tail.0 as int,
        _ => 0,
    }
}

/// A part of the walk that asks for no block and leaves the jumps into the
/// blocks that were there as they were.
pub(crate) proof fn lemma_stepped_local(s: St, next: St)
    requires
        quiet(s.ssa(), next.ssa()),
        next.p.expressions == s.p.expressions,
        next.p.continuation_block == s.p.continuation_block,
    ensures
        stepped(s, next),
{
    assert forall|tail: int| 0 <= tail < s.p.expressions.len() implies fresh_or_same(
        s.ssa().blocks.len(),
        block_at(s, tail),
        #[trigger] block_at(next, tail),
    ) by {}
}

pub(crate) proof fn lemma_reset(m: Bodies, s: St, block: Block, point: Reset)
    requires
        exact(m, s),
    ensures
        held(m, s, s.reset(block, point)),
{
    lemma_local(m, s, s.reset(block, point));
}

/// A choice between two blocks that were just made leaves the jumps into
/// the blocks that were there before them as they were.
pub(crate) proof fn lemma_chosen(ssa: Ssa, checked: Ssa, value: Value)
    requires
        ssa.wf(),
        ssa.blocks.len() + 2 <= usize::MAX,
        checked.blocks == ssa.new_block(0).new_block(0).blocks,
        checked.current == ssa.current,
    ensures
        quiet(
            ssa,
            checked.select(
                value,
                ssa.next_block(),
                Block((ssa.blocks.len() + 1) as usize),
            ).switch_to_block(ssa.next_block()),
        ),
{
    let on_true = ssa.next_block();
    let on_false = Block((ssa.blocks.len() + 1) as usize);
    lemma_selected(checked, value, on_true, on_false);
    let chosen = checked.select(value, on_true, on_false);
    assert forall|b: int| 0 <= b < ssa.blocks.len() implies #[trigger] entries_of(
        chosen.switch_to_block(on_true),
        b,
    ) == entries_of(ssa, b) by {
        assert(entries_of(chosen, b) == entries_of(checked, b));
    }
}

pub(crate) proof fn lemma_range_checked(ssa: Ssa, on: Value, intsize: IntSize, range: Range)
    ensures
        range_check(ssa, on, intsize, range).blocks == ssa.blocks,
        range_check(ssa, on, intsize, range).current == ssa.current,
{
}

/// Whether each of `blocks` came after the first `base` blocks, is a block
/// of the function, and is the block of no body.
pub open spec fn set_aside(s: St, base: nat, blocks: Seq<Block>) -> bool {
    forall|i: int|
        0 <= i < blocks.len() ==> base <= #[trigger] at_place(blocks, i) < s.ssa().blocks.len()
            && !tail_block_at(s, at_place(blocks, i)) && meeting(s) != Some(at_place(blocks, i))
}

pub(crate) proof fn lemma_still_aside(m: Bodies, before: St, after: St, base: nat, blocks: Seq<Block>)
    requires
        set_aside(before, base, blocks),
        stepped(before, after),
    ensures
        set_aside(after, base, blocks),
{
    assert forall|i: int| 0 <= i < blocks.len() implies base <= #[trigger] at_place(blocks, i)
        < after.ssa().blocks.len() && !tail_block_at(after, at_place(blocks, i)) && meeting(after)
        != Some(at_place(blocks, i)) by {
        lemma_not_tail_later(before, after, at_place(blocks, i));
    }
}

pub(crate) proof fn lemma_pass_or(m: Bodies, base: St, before: St, s: St, value: Value, falsely: Block)
    requires
        stepped(base, before),
        exact(m, before),
        base.ssa().blocks.len() <= falsely.0 < before.ssa().blocks.len(),
        !tail_block_at(before, falsely.0 as int),
        meeting(before) != Some(falsely.0 as int),
        s.ssa().wf(),
        s.ssa().blocks.len() < usize::MAX,
        s.ssa().blocks == before.ssa().blocks,
        s.p.expressions == before.p.expressions,
        s.p.lowered == before.p.lowered,
        s.p.jumps == before.p.jumps,
        s.p.continuation_block == before.p.continuation_block,
        s.p.continuation_value == before.p.continuation_value,
    ensures
        held(m, base, s.pass_or(value, falsely)),
{
    let made = s.with_ssa(s.ssa().new_block(0));
    lemma_local(m, before, made);
    lemma_stepped_twice(base, before, made);
    let fresh = s.ssa().next_block();
    lemma_selected(made.ssa(), value, fresh, falsely);
    let next = s.pass_or(value, falsely);
    if tail_block_at(made, fresh.0 as int) {
        let at = choose|at: int|
            0 <= at < made.p.expressions.len() && #[trigger] block_at(made, at) == Some(
                fresh.0 as int,
            );
        assert(block_at(before, at) == Some(fresh.0 as int));
        assert(tail_block_at(before, fresh.0 as int));
        lemma_tails_are_blocks(m, before, fresh.0 as int);
    }
    lemma_not_tail_later(before, made, falsely.0 as int);
    lemma_entering(m, base, made, next, set![fresh.0 as int, falsely.0 as int]);
}

/// Whether a state differs from another in the blocks and in what was seen
/// only.
pub open spec fn same_walk(before: St, after: St) -> bool {
    &&& after.p.expressions == before.p.expressions
    &&& after.p.lowered == before.p.lowered
    &&& after.p.jumps == before.p.jumps
    &&& after.p.continuation_block == before.p.continuation_block
    &&& before.ssa().blocks.len() <= after.ssa().blocks.len()
}

/// Whether the blocks and the jump tables can be counted.
pub open spec fn fits(ssa: Ssa) -> bool {
    &&& ssa.blocks.len() <= usize::MAX
    &&& ssa.targets.len() <= usize::MAX
}

/// Where the count of a body is met by the jump that was just made, the
/// state in which the body is lowered is one of which `exact` holds.
pub(crate) proof fn lemma_entered_body(
    m: Bodies,
    s: St,
    block: Block,
    table: Seq<(Bind, usize)>,
    tail: int,
)
    requires
        pending(m, s, tail),
        tail < m.predecessors.len(),
        block_at(s, tail) == Some(block.0 as int),
        s.p.expressions[tail] == Some(block),
        entries_of(s.ssa(), block.0 as int) == m.predecessors[tail] as usize,
    ensures
        stepped(s, crate::pat::entered_body(s, block, table, tail)),
        exact_owing(m, crate::pat::entered_body(s, block, table, tail), 1),
{
    reveal(crate::pat::entered_body);
    lemma_total_counted(s.p.lowered, tail);
    let bound = bind_params(s, block, table, 0);
    lemma_params_bound(s, block, table, 0);
    let inside = crate::pat::entered_body(s, block, table, tail);
    assert(s.p.jumps[tail] == m.predecessors[tail]);
    assert(quiet(s.ssa(), inside.ssa())) by {
        assert forall|b: int| 0 <= b < s.ssa().blocks.len() implies #[trigger] entries_of(
            inside.ssa(),
            b,
        ) == entries_of(s.ssa(), b) by {
            assert(entries_of(bound.ssa(), b) == entries_of(s.ssa(), b));
        }
    }
    lemma_stepped_local(s, inside);
    assert forall|other: int| 0 <= other < inside.p.expressions.len() implies #[trigger] exact_at(
        m,
        inside,
        other,
    ) by {
        assert(block_at(inside, other) == block_at(s, other));
        if other != tail {
            assert(exact_at(m, s, other));
            if block_at(s, other) is Some {
                assert(entries_of(inside.ssa(), block_at(s, other)->0) == entries_of(
                    s.ssa(),
                    block_at(s, other)->0,
                ));
            }
        } else {
            assert(entries_of(inside.ssa(), block.0 as int) == entries_of(s.ssa(), block.0 as int));
        }
    }
    assert forall|one: int, other: int|
        0 <= one < inside.p.expressions.len() && 0 <= other < inside.p.expressions.len() && one
            != other && block_at(inside, one) is Some implies #[trigger] block_at(inside, one)
        != #[trigger] block_at(inside, other) by {
        assert(block_at(s, one) != block_at(s, other));
    }
    if meeting(s) is Some {
        let c = meeting(s)->0;
        if tail_block_at(inside, c) {
            let at = choose|at: int|
                0 <= at < inside.p.expressions.len() && #[trigger] block_at(inside, at) == Some(c);
            assert(block_at(s, at) == Some(c));
        }
    }
}

/// Where the count of a body is not met by the jump that was just made,
/// nothing is due that was not due before.
pub(crate) proof fn lemma_not_due(m: Bodies, s: St, tail: int)
    requires
        pending(m, s, tail),
        tail < m.predecessors.len(),
        block_at(s, tail) is Some,
        entries_of(s.ssa(), block_at(s, tail)->0) != m.predecessors[tail] as usize,
    ensures
        held(m, s, s),
{
    assert forall|other: int| 0 <= other < s.p.expressions.len() implies #[trigger] exact_at(
        m,
        s,
        other,
    ) by {
        if other != tail {
            assert(exact_at(m, s, other));
        }
    }
    lemma_local(m, s, s);
}

/// Keeping or handing on what a body gave restores what holds of all
/// bodies between the steps of the walk.
pub(crate) proof fn lemma_body_yields(m: Bodies, after: St, value: Value)
    requires
        exact_owing(m, after, 1),
        crate::pat::body_yields(after, value).ok,
        fits(crate::pat::body_yields(after, value).s.ssa()),
    ensures
        held(m, after, crate::pat::body_yields(after, value).s),
{
    reveal(crate::pat::body_yields);
    if after.p.can_skip {
        let kept_value = St { p: Pat { continuation_value: Some(value), ..after.p }, ..after };
        lemma_local_owing(m, after, kept_value, 1);
    } else {
        let ty = after.ssa().type_of(value);
        let (made, con) = continuation(after, ty);
        let c = con.0 as int;
        lemma_jumped(made.ssa(), con, seq![value]);
        let handed = made.with_ssa(made.ssa().jump(con, seq![value]));
        assert(meeting(handed) == Some(c));
        assert(0 <= c < made.ssa().blocks.len());
        // the meeting block is the block of no body
        assert(!tail_block_at(after, c)) by {
            if tail_block_at(after, c) {
                let at = choose|at: int|
                    0 <= at < after.p.expressions.len() && #[trigger] block_at(after, at) == Some(
                        c,
                    );
                assert(exact_at(m, after, at));
            }
        }
        assert forall|b: int| tail_block_at(handed, b) implies tail_block_at(after, b) by {
            let at = choose|at: int|
                0 <= at < handed.p.expressions.len() && #[trigger] block_at(handed, at) == Some(b);
            assert(block_at(after, at) == Some(b));
        }
        assert forall|b: int| 0 <= b < after.ssa().blocks.len() && b != c implies #[trigger] entries_of(
            handed.ssa(),
            b,
        ) == entries_of(after.ssa(), b) by {
            assert(entries_of(made.ssa(), b) == entries_of(after.ssa(), b));
        }
        assert forall|tail: int| 0 <= tail < handed.p.expressions.len() implies #[trigger] exact_at(
            m,
            handed,
            tail,
        ) by {
            assert(exact_at(m, after, tail));
            assert(block_at(handed, tail) == block_at(after, tail));
            if block_at(after, tail) is Some {
                let b = block_at(after, tail)->0;
                assert(tail_block_at(after, b));
                assert(entries_of(handed.ssa(), b) == entries_of(after.ssa(), b));
            }
        }
        assert forall|one: int, other: int|
            0 <= one < handed.p.expressions.len() && 0 <= other < handed.p.expressions.len()
                && one != other && block_at(handed, one) is Some implies #[trigger] block_at(
            handed,
            one,
        ) != #[trigger] block_at(handed, other) by {
            assert(block_at(after, one) != block_at(after, other));
        }
        assert(met(handed, 0)) by {
            if handed.p.continuation_value is None {
                lemma_bump_capped((total(after.p.lowered) - 1) as nat);
                assert(entries_of(handed.ssa(), c) == crate::ssa::spec_bump(
                    entries_of(made.ssa(), c),
                ));
            }
        }
        assert forall|tail: int| 0 <= tail < after.p.expressions.len() implies fresh_or_same(
            after.ssa().blocks.len(),
            block_at(after, tail),
            #[trigger] block_at(handed, tail),
        ) by {}
    }
}

/// What the last step of the lowering of an expression adds to the
/// lowering of its parts: instructions only.
pub open spec fn only_emits(before: Ssa, after: Ssa) -> bool {
    &&& after.blocks == before.blocks
    &&& after.current == before.current
    &&& after.targets == before.targets
}

pub(crate) proof fn lemma_cast(inner: crate::pat::Lowered, from: IntSize, to: IntSize)
    ensures
        only_emits(inner.f.ssa, crate::pat::cast_lowered(inner, from, to).f.ssa),
        crate::pat::cast_lowered(inner, from, to).ok ==> inner.ok,
{
    reveal(crate::pat::cast_lowered);
}

pub(crate) proof fn lemma_compare(name: Seq<char>, left: crate::pat::Lowered, right: crate::pat::Lowered)
    ensures
        only_emits(right.f.ssa, crate::pat::compare_lowered(name, left, right).f.ssa),
        crate::pat::compare_lowered(name, left, right).ok ==> left.ok && right.ok,
{
    reveal(crate::pat::compare_lowered);
}

pub(crate) proof fn lemma_num(name: Seq<char>, left: crate::pat::Lowered, right: crate::pat::Lowered)
    ensures
        only_emits(right.f.ssa, crate::pat::num_lowered(name, left, right).f.ssa),
        crate::pat::num_lowered(name, left, right).ok ==> left.ok && right.ok,
{
    reveal(crate::pat::num_lowered);
}

pub(crate) proof fn lemma_access(
    cx: Cx,
    object: crate::pat::Lowered,
    key: MonoTypeKey,
    field: crate::key::RecordField,
)
    ensures
        only_emits(object.f.ssa, crate::pat::access_lowered(cx, object, key, field).f.ssa),
        crate::pat::access_lowered(cx, object, key, field).ok ==> object.ok,
{
    reveal(crate::pat::access_lowered);
}

pub(crate) proof fn lemma_write(pointer: crate::pat::Lowered, value: crate::pat::Lowered)
    ensures
        only_emits(value.f.ssa, crate::pat::write_lowered(pointer, value).f.ssa),
        crate::pat::write_lowered(pointer, value).ok ==> pointer.ok && value.ok,
{
    reveal(crate::pat::write_lowered);
}

pub(crate) proof fn lemma_size(cx: Cx, f: Func, ty: Type)
    ensures
        only_emits(f.ssa, crate::pat::size_lowered(cx, f, ty).f.ssa),
{
    reveal(crate::pat::size_lowered);
}

pub(crate) proof fn lemma_address(f: Func, val: Expr)
    ensures
        only_emits(f.ssa, crate::pat::address_lowered(f, val).f.ssa),
{
    reveal(crate::pat::address_lowered);
}

pub(crate) proof fn lemma_record(
    key: MonoTypeKey,
    names: Seq<crate::key::RecordField>,
    given: crate::pat::LoweredAll,
)
    ensures
        only_emits(given.f.ssa, crate::pat::record_lowered(key, names, given).f.ssa),
        crate::pat::record_lowered(key, names, given).ok ==> given.ok,
{
    reveal(crate::pat::record_lowered);
}

pub(crate) proof fn lemma_call(func: ResolvedNFunc, count: nat, args: crate::pat::LoweredAll)
    ensures
        only_emits(args.f.ssa, crate::pat::call_lowered(func, count, args).f.ssa),
        crate::pat::call_lowered(func, count, args).ok ==> args.ok,
{
    reveal(crate::pat::call_lowered);
}

pub(crate) proof fn lemma_deref(inner: crate::pat::Lowered)
    ensures
        only_emits(inner.f.ssa, crate::pat::deref_lowered(inner).f.ssa),
        crate::pat::deref_lowered(inner).ok ==> inner.ok,
{
    reveal(crate::pat::deref_lowered);
}

pub(crate) proof fn lemma_tuple(cx: Cx, elems: crate::pat::LoweredAll)
    ensures
        only_emits(elems.f.ssa, crate::pat::tuple_lowered(cx, elems).f.ssa),
        crate::pat::tuple_lowered(cx, elems).ok ==> elems.ok,
{
    reveal(crate::pat::tuple_lowered);
    reveal(crate::pat::tupled);
}

pub(crate) proof fn lemma_local_call(cx: Cx, local: crate::tree::Local, args: crate::pat::LoweredAll)
    ensures
        only_emits(args.f.ssa, crate::pat::local_call_lowered(cx, local, args).f.ssa),
        crate::pat::local_call_lowered(cx, local, args).ok ==> args.ok,
{
    reveal(crate::pat::local_call_lowered);
    reveal(crate::pat::closure_called);
    reveal(crate::pat::tupled);
}

pub(crate) proof fn lemma_lambda_call(cx: Cx, lambda: crate::key::Lambda, args: crate::pat::LoweredAll)
    ensures
        only_emits(args.f.ssa, crate::pat::lambda_call_lowered(cx, lambda, args).f.ssa),
        crate::pat::lambda_call_lowered(cx, lambda, args).ok ==> args.ok,
{
    reveal(crate::pat::lambda_call_lowered);
}

/// What only adds instructions leaves the jumps into the blocks as they were.
pub(crate) proof fn lemma_emits_quiet(a: Ssa, b: Ssa, c: Ssa)
    requires
        quiet(a, b),
        only_emits(b, c),
    ensures
        quiet(a, c),
{
    assert forall|k: int| 0 <= k < a.blocks.len() implies #[trigger] entries_of(c, k) == entries_of(
        a,
        k,
    ) by {
        assert(entries_of(b, k) == entries_of(a, k));
    }
}

} // verus!
