//! Tests on the variant of a sum.

use crate::key::{RecordField, Sum};
use crate::lower::FuncLower;
use crate::pat::{
    payload_ok, payload_read, results, state, sum_from, sum_step, Branches, PatLower, PatState,
};
use crate::ssa::{BitOffset, Block, Value};
use crate::tree::{DecTree, Tree};
use crate::types::{MonoType, MonoTypeKey, Type};
use vstd::prelude::*;

verus! {

impl<'f, 'v, 'a> PatLower<'f, 'v, 'a> {
    /// Reads the parameters of a variant out of the payload `data`, each
    /// right behind the one before it.
    pub(crate) fn payload(f: &mut FuncLower<'a>, data: Value, raw: &Vec<Type>, params: &Vec<Type>) -> (r: Vec<
        Value,
    >)
        requires
            payload_ok(old(f).cx(), raw@, params@, 0, 0),
        ensures
            final(f)@ == old(f)@.with_ssa(
                payload_read(old(f).cx(), old(f)@.ssa, data, raw@, params@, 0, 0),
            ),
            r@ == results(old(f)@.ssa.entries.len() as int, raw@.len() as int),
            final(f).cx() == old(f).cx(),
    {
        let ghost first = f@.ssa.entries.len() as int;
        let mut base_offset = BitOffset(0);
        let mut out: Vec<Value> = Vec::new();
        let mut i: usize = 0;
        while i < raw.len()
            invariant
                i <= raw.len(),
                f.cx() == old(f).cx(),
                f@.binds == old(f)@.binds,
                f@.funcs == old(f)@.funcs,
                f@.ssa.entries.len() == first + i,
                first == old(f)@.ssa.entries.len(),
                out@ == results(first, i as int),
                payload_ok(f.cx(), raw@, params@, i as int, base_offset.0 as nat),
                payload_read(f.cx(), f@.ssa, data, raw@, params@, i as int, base_offset.0 as nat)
                    == payload_read(old(f).cx(), old(f)@.ssa, data, raw@, params@, 0, 0),
            decreases raw.len() - i,
        {
            let ty = crate::mono::instantiate(raw[i], params);
            let ty = f.tmap.apply(&ty);
            let size = f.types.size_of(&ty);
            let offset = base_offset;
            base_offset = BitOffset(base_offset.0 + size);
            let v = f.ssa.sum_field(data, offset, ty);
            out.push(v);
            i += 1;
            assert(out@ =~= results(first, i as int));
        }
        out
    }

    pub(crate) fn sum(f: &mut FuncLower<'a>, b: Branches<'v>, st: &mut PatState, on: Value, tree: &DecTree)
        requires
            tree@ is Sum,
            sum_step(old(f).cx(), b@, state(*old(f), *old(st)), on, tree@).ok,
        ensures
            state(*final(f), *final(st)) == sum_step(
                old(f).cx(),
                b@,
                state(*old(f), *old(st)),
                on,
                tree@,
            ).s,
            final(f).cx() == old(f).cx(),
        decreases b@.weight(), tree@, 0nat, tree@->Sum_next.len() + 1,
    {
        if let DecTree::Sum { sum, params, next } = tree {
            proof {
                assert(tree@ == Tree::Sum { sum: *sum, params: params@, next: next@ });
            }
            st.can_skip_continuation = st.can_skip_continuation && next.branches.len() == 1;
            let oblock = f.ssa.block();
            let on_mk = match f.type_of_value(on) {
                MonoType::Monomorphised(key) => key,
                _ => MonoTypeKey(0),
            };
            let tag_ty = MonoType::Int(crate::ssa::tag_size());
            let copy_tag = f.ssa.field(on, on_mk, RecordField(0), tag_ty);
            let data = f.types.type_of_field(on_mk, RecordField(1));
            let data_field = f.ssa.field(on, on_mk, RecordField(1), data);
            let blocks = Self::sum_from(f, b, st, oblock, data_field, tree, 0, Vec::new());
            f.ssa.jump_table(copy_tag, blocks);
        }
    }

    pub(crate) fn sum_from(
        f: &mut FuncLower<'a>,
        b: Branches<'v>,
        st: &mut PatState,
        oblock: Block,
        data: Value,
        tree: &DecTree,
        i: usize,
        blocks: Vec<Block>,
    ) -> (r: Vec<Block>)
        requires
            tree@ is Sum,
            sum_from(
                old(f).cx(),
                b@,
                state(*old(f), *old(st)),
                oblock,
                data,
                tree@,
                i as int,
                blocks@,
            ).ok,
        ensures
            state(*final(f), *final(st)) == sum_from(
                old(f).cx(),
                b@,
                state(*old(f), *old(st)),
                oblock,
                data,
                tree@,
                i as int,
                blocks@,
            ).s,
            r@ == sum_from(
                old(f).cx(),
                b@,
                state(*old(f), *old(st)),
                oblock,
                data,
                tree@,
                i as int,
                blocks@,
            ).blocks,
            final(f).cx() == old(f).cx(),
        decreases b@.weight(), tree@, 0nat, tree@->Sum_next.len() - i,
    {
        if let DecTree::Sum { sum, params, next } = tree {
            if i < next.branches.len() {
                let var = next.branches[i].0;
                let sub = &next.branches[i].1;
                proof {
                    crate::tree::lemma_arm(next.branches, i as int);
                    assert(tree@ == Tree::Sum { sum: *sum, params: params@, next: next@ });
                }
                let vblock = f.ssa.new_block(0);
                f.ssa.switch_to_block(vblock);
                let resetpoint = Self::make_reset(st);
                let mir: &'a crate::mir::Mir = f.mir;
                let raw = &mir.variant_types[sum.value.0 as usize][var.0 as usize];
                let payload = Self::payload(f, data, raw, params);
                st.constructors.push(payload);
                proof {
                    assert(st@.constructors =~= old(st)@.constructors.push(payload@));
                }
                Self::next(f, b, st, sub);
                Self::reset(f, st, oblock, resetpoint);
                let mut blocks = blocks;
                blocks.push(vblock);
                return Self::sum_from(f, b, st, oblock, data, tree, i + 1, blocks);
            }
        }
        blocks
    }

}

} // verus!
