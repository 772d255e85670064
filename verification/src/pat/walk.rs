//! The walk of a decision tree: from node to node, and what is done at a leaf.

use crate::key::{RecordField, Sum};
use crate::lower::FuncLower;
use crate::mir::lemma_body_size;
use crate::pat::{
    body_yields, branch_step, depths_seen, entered_body, fields_read, fields_step, key_of,
    next_step, queues, results, state, tail_step, tree_step, Branches, PatLower, PatState,
};
use crate::ssa::{Block, Value};
use crate::tree::{DecTree, PointTable, Tree, TreeTail};
use crate::types::{MonoType, MonoTypeKey};
use vstd::prelude::*;

verus! {

impl<'f, 'v, 'a> PatLower<'f, 'v, 'a> {
    pub(crate) fn tree(f: &mut FuncLower<'a>, b: Branches<'v>, st: &mut PatState, on: Value, tree: &DecTree)
        requires
            tree_step(old(f).cx(), b@, state(*old(f), *old(st)), on, tree@).ok,
        ensures
            state(*final(f), *final(st)) == tree_step(
                old(f).cx(),
                b@,
                state(*old(f), *old(st)),
                on,
                tree@,
            ).s,
            final(f).cx() == old(f).cx(),
        decreases b@.weight(), tree@, 1nat, 0nat,
    {
        st.map.push(on);
        proof {
            match tree {
                DecTree::Record { next } => {
                    assert(tree@ == Tree::Record { next: Box::new(next@) });
                },
                DecTree::Tuple { next } => {
                    assert(tree@ == Tree::Tuple { next: Box::new(next@) });
                },
                DecTree::Wildcard { next } => {
                    assert(tree@ == Tree::Wildcard { next: Box::new(next@) });
                },
                DecTree::Opaque { next } => {
                    assert(tree@ == Tree::Opaque { next: Box::new(next@) });
                },
                DecTree::List { .. } => {
                    assert(tree@ is List);
                },
                DecTree::Ints { .. } => {
                    assert(tree@ is Ints);
                },
                DecTree::Bools(_) => {
                    assert(tree@ is Bools);
                },
                DecTree::Sum { .. } => {
                    assert(tree@ is Sum);
                },
                DecTree::String { .. } => {
                    assert(tree@ is String);
                },
                DecTree::End(_) => {
                    assert(tree@ is End);
                },
            }
        }
        match tree {
            DecTree::Record { next } => Self::record(f, b, st, on, next),
            DecTree::Tuple { next } => Self::tuple(f, b, st, on, next),
            DecTree::List { .. } => Self::list(f, b, st, on, tree),
            DecTree::Ints { .. } => Self::ints(f, b, st, on, tree),
            DecTree::Bools(_) => Self::bools(f, b, st, on, tree),
            DecTree::Sum { .. } => Self::sum(f, b, st, on, tree),
            DecTree::String { .. } => Self::string(f, b, st, on, tree),
            DecTree::Wildcard { next } => Self::next(f, b, st, next),
            DecTree::Opaque { next } => Self::next(f, b, st, next),
            DecTree::End(_) => Self::tail(f, b, st, tree),
        }
    }

    pub(crate) fn next(f: &mut FuncLower<'a>, b: Branches<'v>, st: &mut PatState, tree: &DecTree)
        requires
            next_step(old(f).cx(), b@, state(*old(f), *old(st)), tree@).ok,
        ensures
            state(*final(f), *final(st)) == next_step(
                old(f).cx(),
                b@,
                state(*old(f), *old(st)),
                tree@,
            ).s,
            final(f).cx() == old(f).cx(),
        decreases b@.weight(), tree@, 2nat, old(st)@.constructors.len(),
    {
        let n = st.constructors.len();
        if n == 0 {
            match tree {
                DecTree::End(_) => Self::tail(f, b, st, tree),
                _ => {},
            }
        } else if st.constructors[n - 1].len() > 0 {
            let queue = &mut st.constructors[n - 1];
            let v = queue.remove(0);
            proof {
                let before = old(st)@.constructors;
                assert(before.last().remove(0) =~= before.last().drop_first());
                assert(st@.constructors =~= before.update(n - 1, before.last().drop_first()));
            }
            Self::tree(f, b, st, v, tree)
        } else {
            st.constructors.pop();
            proof {
                assert(st@.constructors =~= old(st)@.constructors.drop_last());
            }
            Self::next(f, b, st, tree)
        }
    }

    pub(crate) fn tail(f: &mut FuncLower<'a>, b: Branches<'v>, st: &mut PatState, leaf: &DecTree)
        requires
            leaf@ is End,
            tail_step(old(f).cx(), b@, state(*old(f), *old(st)), leaf@).ok,
        ensures
            state(*final(f), *final(st)) == tail_step(
                old(f).cx(),
                b@,
                state(*old(f), *old(st)),
                leaf@,
            ).s,
            final(f).cx() == old(f).cx(),
        decreases b@.weight(), leaf@, 0nat, 1nat,
    {
        if let DecTree::End(TreeTail::Reached(table, _excess, tail)) = leaf {
            let t = tail.0 as usize;
            let block = match st.expressions[t] {
                Some(existing) => existing,
                None => {
                    let made = f.ssa.new_block(table.binds.len() as u32);
                    st.expressions[t] = Some(made);
                    made
                },
            };
            let params = Self::bound(st, table);
            f.ssa.jump(block, params);
            proof {
                st.jumped@ = st.jumped@.update(t as int, st.jumped@[t as int] + 1);
            }
            Self::lower_expr_branch_if_last_predecessor(f, b, st, leaf);
        }
    }

    pub(crate) fn lower_expr_branch_if_last_predecessor(
        f: &mut FuncLower<'a>,
        b: Branches<'v>,
        st: &mut PatState,
        leaf: &DecTree,
    )
        requires
            leaf@ is End,
            leaf@->End_0 is Reached,
            leaf@->End_0->Reached_2.0 < old(st)@.expressions.len(),
            leaf@->End_0->Reached_2.0 < b@.predecessors.len(),
            leaf@->End_0->Reached_2.0 < b@.branches.len(),
            old(st)@.expressions[leaf@->End_0->Reached_2.0 as int] is Some,
            old(f)@.ssa.has(old(st)@.expressions[leaf@->End_0->Reached_2.0 as int]->0),
            depths_seen(old(st)@.map, leaf@->End_0->Reached_0),
            branch_step(old(f).cx(), b@, state(*old(f), *old(st)), leaf@).ok,
        ensures
            state(*final(f), *final(st)) == branch_step(
                old(f).cx(),
                b@,
                state(*old(f), *old(st)),
                leaf@,
            ).s,
            final(f).cx() == old(f).cx(),
        decreases b@.weight(), leaf@, 0nat, 0nat,
    {
        if let DecTree::End(TreeTail::Reached(table, _excess, tail)) = leaf {
            let t = tail.0 as usize;
            let block = match st.expressions[t] {
                Some(block) => block,
                None => Block::entry(),
            };
            let pred = f.ssa.predecessors(block);
            // the body is lowered once, when the last leaf that leads to it has jumped
            if pred == b.predecessors[t] as usize {
                Self::enter_body(f, st, block, table, tail.0);
                proof {
                    lemma_body_size(*b.branches, 0, t as int);
                }
                let v = f.expr_to_value(&b.branches[t]);
                Self::yield_from_branch(f, st, v);
            }
        }
    }

    /// Makes the bindings of a leaf parameters of the block of its body and
    /// goes on in that block.
    pub(crate) fn enter_body(
        f: &mut FuncLower<'a>,
        st: &mut PatState,
        block: Block,
        table: &PointTable,
        tail: u32,
    )
        requires
            depths_seen(old(st)@.map, table@),
            old(f)@.ssa.has(block),
        ensures
            state(*final(f), *final(st)) == entered_body(
                state(*old(f), *old(st)),
                block,
                table@,
                tail as int,
            ),
            final(f).cx() == old(f).cx(),
    {
        reveal(entered_body);
        Self::bind(f, st, block, table);
        f.ssa.switch_to_block(block);
        proof {
            st.lowered@ = st.lowered@.update(tail as int, st.lowered@[tail as int] + 1);
        }
    }

    /// What a branch gave is kept, where there is only one branch, or else
    /// handed to the block in which the branches meet.
    pub(crate) fn yield_from_branch(f: &mut FuncLower<'a>, st: &mut PatState, v: Value)
        requires
            body_yields(state(*old(f), *old(st)), v).ok,
        ensures
            state(*final(f), *final(st)) == body_yields(state(*old(f), *old(st)), v).s,
            final(f).cx() == old(f).cx(),
    {
        reveal(body_yields);
        if st.can_skip_continuation {
            st.continuation_value = Some(v);
        } else {
            let ty = f.type_of_value(v);
            let con = Self::continuation_of(f, st, ty);
            let params = vec![v];
            assert(params@ =~= seq![v]);
            f.ssa.jump(con, params);
        }
    }

    /// Reads every field of `on`, in declaration order, and queues the fields.
    pub(crate) fn fields(f: &mut FuncLower<'a>, st: &mut PatState, on: Value)
        requires
            key_of(old(f)@.ssa.type_of(on)) is Some,
            old(f).types.has(key_of(old(f)@.ssa.type_of(on))->0),
            old(f).types.fields_of(key_of(old(f)@.ssa.type_of(on))->0).len() <= u32::MAX,
        ensures
            state(*final(f), *final(st)) == ({
                let s = state(*old(f), *old(st));
                let key = key_of(s.ssa().type_of(on))->0;
                let fields = old(f).types.fields_of(key);
                s.with_ssa(fields_read(s.ssa(), on, key, fields, 0)).queued(
                    results(s.ssa().entries.len() as int, fields.len() as int),
                )
            }),
            final(f).cx() == old(f).cx(),
    {
        let mk = match f.type_of_value(on) {
            MonoType::Monomorphised(key) => key,
            _ => MonoTypeKey(0),
        };
        let count = f.types.fields(mk);
        let ghost fields = f.types.fields_of(mk);
        let ghost first = f@.ssa.entries.len() as int;
        let mut constructor: Vec<Value> = Vec::new();
        let mut i: usize = 0;
        while i < count
            invariant
                i <= count,
                count == fields.len(),
                count <= u32::MAX,
                f.types.has(mk),
                fields == f.types.fields_of(mk),
                f.cx() == old(f).cx(),
                f@.binds == old(f)@.binds,
                f@.funcs == old(f)@.funcs,
                f@.ssa.entries.len() == first + i,
                first == old(f)@.ssa.entries.len(),
                constructor@ == results(first, i as int),
                fields_read(f@.ssa, on, mk, fields, i as int) == fields_read(
                    old(f)@.ssa,
                    on,
                    mk,
                    fields,
                    0,
                ),
            decreases count - i,
        {
            let field = RecordField(i as u32);
            let ty = f.types.type_of_field(mk, field);
            let v = f.ssa.field(on, mk, field, ty);
            constructor.push(v);
            i += 1;
            assert(constructor@ =~= results(first, i as int));
        }
        st.constructors.push(constructor);
        proof {
            assert(st@.constructors =~= old(st)@.constructors.push(results(first, count as int)));
        }
    }

    pub(crate) fn record(f: &mut FuncLower<'a>, b: Branches<'v>, st: &mut PatState, on: Value, next: &DecTree)
        requires
            fields_step(old(f).cx(), b@, state(*old(f), *old(st)), on, next@).ok,
        ensures
            state(*final(f), *final(st)) == fields_step(
                old(f).cx(),
                b@,
                state(*old(f), *old(st)),
                on,
                next@,
            ).s,
            final(f).cx() == old(f).cx(),
        decreases b@.weight(), next@, 3nat, 0nat,
    {
        Self::fields(f, st, on);
        Self::next(f, b, st, next);
    }

    pub(crate) fn tuple(f: &mut FuncLower<'a>, b: Branches<'v>, st: &mut PatState, on: Value, next: &DecTree)
        requires
            fields_step(old(f).cx(), b@, state(*old(f), *old(st)), on, next@).ok,
        ensures
            state(*final(f), *final(st)) == fields_step(
                old(f).cx(),
                b@,
                state(*old(f), *old(st)),
                on,
                next@,
            ).s,
            final(f).cx() == old(f).cx(),
        decreases b@.weight(), next@, 3nat, 0nat,
    {
        Self::fields(f, st, on);
        Self::next(f, b, st, next);
    }

}

} // verus!
