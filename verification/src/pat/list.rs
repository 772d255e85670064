//! Tests on lists.

use crate::key::{Impl, RecordField, SumVariant};
use crate::lower::FuncLower;
use crate::mir::FuncOrigin;
use crate::pat::{arm_of, key_of, list_step, state, Branches, PatLower, PatState};
use crate::ssa::{BitOffset, V, Value};
use crate::tree::{Branching, DecTree, Tree};
use crate::types::{MonoType, MonoTypeKey};
use vstd::prelude::*;

verus! {

impl<'f, 'v, 'a> PatLower<'f, 'v, 'a> {
    pub(crate) fn find_arm(arms: &Branching<SumVariant>, constr: SumVariant) -> (r: Option<usize>)
        ensures
            match r {
                Some(i) => arm_of(arms@, constr, 0) == Some(i as int) && i < arms.branches.len(),
                None => arm_of(arms@, constr, 0) is None,
            },
    {
        let mut i: usize = 0;
        while i < arms.branches.len()
            invariant
                i <= arms.branches.len(),
                arm_of(arms@, constr, i as int) == arm_of(arms@, constr, 0),
            decreases arms.branches.len() - i,
        {
            proof {
                crate::tree::lemma_arm(arms.branches, i as int);
            }
            if arms.branches[i].0.0 == constr.0 {
                return Some(i);
            }
            i += 1;
        }
        None
    }

    pub(crate) fn list(f: &mut FuncLower<'a>, b: Branches<'v>, st: &mut PatState, on: Value, tree: &DecTree)
        requires
            tree@ is List,
            list_step(old(f).cx(), b@, state(*old(f), *old(st)), on, tree@).ok,
        ensures
            state(*final(f), *final(st)) == list_step(
                old(f).cx(),
                b@,
                state(*old(f), *old(st)),
                on,
                tree@,
            ).s,
            final(f).cx() == old(f).cx(),
        decreases b@.weight(), tree@, 0nat, 0nat,
    {
        if let DecTree::List { ty, elem, next: vars } = tree {
            proof {
                assert(tree@ == Tree::List { ty: *ty, elem: *elem, next: vars@ });
            }
            st.can_skip_continuation = false;
            let oblock = f.ssa.block();
            let listmt = f.tmap.apply(ty);
            let innermt = f.tmap.apply(elem);
            let trtp = vec![innermt];
            assert(trtp@ =~= seq![innermt]);
            let (ikey, tmap) = match f.find_implementation(f.info.listable, &trtp, listmt) {
                Some(found) => found,
                None => {
                    return ;
                },
            };
            let ghost cx = old(f).cx();
            let ghost found = cx.mir.implementation(cx.info.listable, seq![innermt], listmt);
            let ghost generics = crate::mir::settled(
                cx.mir.impls[found->0].applies(cx.info.listable, seq![innermt], listmt)->0,
            );
            assert(found == Some(ikey.0 as int));
            assert(ikey == Impl(found->0 as u32));
            assert(tmap.generics@ == generics);
            let split = FuncOrigin::Method(ikey, f.info.listable_split);
            let ghost origin = split;
            let (split, ret) = f.call_to_mfunc(split, tmap);
            assert(ret == cx.returns_of(origin, generics));
            let args = vec![on];
            assert(args@ =~= seq![on]);
            let ghost count = f.ssa.entries.len();
            let maybe = f.ssa.call(Value::FuncPtr(split), args, ret);
            assert(maybe == Value::V(V(count)));
            assert(f@.ssa.entries[count as int].ty == ret);
            assert(f@.ssa.type_of(maybe) == ret);
            let maybe_mk = match f.type_of_value(maybe) {
                MonoType::Monomorphised(key) => key,
                _ => MonoTypeKey(0),
            };
            assert(Some(maybe_mk) == key_of(ret));
            let tag_ty = MonoType::Int(crate::ssa::tag_size());
            let tag = f.ssa.field(maybe, maybe_mk, RecordField(0), tag_ty);
            let largest = f.types.size_of_defined(maybe_mk) - crate::ssa::tag_size().bitsize.0 as u32;
            let data_ty = MonoType::SumDataCast { largest };
            let data = f.ssa.field(maybe, maybe_mk, RecordField(1), data_ty);
            let is_just = f.ssa.eq([tag, Value::maybe_just()], crate::ssa::tag_size());
            let (cons, nil) = match (
                Self::find_arm(vars, crate::tree::list_cons()),
                Self::find_arm(vars, crate::tree::list_nil()),
            ) {
                (Some(cons), Some(nil)) => (cons, nil),
                _ => {
                    return ;
                },
            };
            proof {
                crate::tree::lemma_arm(vars.branches, cons as int);
                crate::tree::lemma_arm(vars.branches, nil as int);
            }

            // the block for `Cons x xs`
            let con_block = f.ssa.new_block(0);
            f.ssa.switch_to_block(con_block);
            let resetpoint = Self::make_reset(st);
            let x = f.ssa.sum_field(data, BitOffset(0), innermt);
            let offset = BitOffset(f.types.size_of(&innermt));
            let xs = f.ssa.sum_field(data, offset, listmt);
            let vparams = vec![x, xs];
            assert(vparams@ =~= seq![x, xs]);
            let ghost before = st@.constructors;
            st.constructors.push(vparams);
            assert(st@.constructors =~= before.push(seq![x, xs]));
            Self::next(f, b, st, &vars.branches[cons].1);
            Self::reset(f, st, oblock, resetpoint);

            // the block for `Nil`
            let nil_block = f.ssa.new_block(0);
            f.ssa.switch_to_block(nil_block);
            let resetpoint = Self::make_reset(st);
            let ghost before = st@.constructors;
            st.constructors.push(Vec::new());
            assert(st@.constructors =~= before.push(Seq::empty()));
            Self::next(f, b, st, &vars.branches[nil].1);
            Self::reset(f, st, oblock, resetpoint);

            f.ssa.select(is_just, con_block, nil_block);
        }
    }
}

} // verus!
