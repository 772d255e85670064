//! Tests on integers and booleans.

use crate::lower::FuncLower;
use crate::pat::{
    bools_step, ints_from, ints_step, range_check, range_checked, state, Branches, PatLower,
    PatState, ResetPoint,
};
use crate::range::Range;
use crate::ssa::Value;
use crate::tree::{DecTree, Tree};
use crate::types::IntSize;
use vstd::prelude::*;

verus! {

impl<'f, 'v, 'a> PatLower<'f, 'v, 'a> {
    pub(crate) fn range_check(f: &mut FuncLower<'a>, on: Value, intsize: IntSize, range: Range) -> (r: Value)
        requires
            range.end < i128::MAX,
            range.start > i128::MIN,
        ensures
            final(f)@ == old(f)@.with_ssa(range_check(old(f)@.ssa, on, intsize, range)),
            r == range_checked(old(f)@.ssa, range),
            final(f).cx() == old(f).cx(),
    {
        if range.end == range.start {
            f.ssa.eq([on, Value::Int(range.end, intsize)], intsize)
        } else {
            let check = f.ssa.lti([on, Value::Int(range.end + 1, intsize)], intsize);
            if range.con.min != range.start {
                let high_enough = f.ssa.gti([on, Value::Int(range.start - 1, intsize)], intsize);
                let ty = f.type_of_value(on);
                f.ssa.bit_and([check, high_enough], ty)
            } else {
                check
            }
        }
    }

    pub(crate) fn ints(f: &mut FuncLower<'a>, b: Branches<'v>, st: &mut PatState, on: Value, tree: &DecTree)
        requires
            tree@ is Ints,
            ints_step(old(f).cx(), b@, state(*old(f), *old(st)), on, tree@).ok,
        ensures
            state(*final(f), *final(st)) == ints_step(
                old(f).cx(),
                b@,
                state(*old(f), *old(st)),
                on,
                tree@,
            ).s,
            final(f).cx() == old(f).cx(),
        decreases b@.weight(), tree@, 0nat, tree@->Ints_next.len() + 1,
    {
        if let DecTree::Ints { intsize, next } = tree {
            proof {
                assert(tree@ == Tree::Ints { intsize: *intsize, next: next@ });
            }
            st.can_skip_continuation = st.can_skip_continuation && next.branches.len() == 1;
            let resetpoint = Self::make_reset(st);
            Self::ints_from(f, b, st, on, tree, 0, resetpoint);
        }
    }

    pub(crate) fn ints_from(
        f: &mut FuncLower<'a>,
        b: Branches<'v>,
        st: &mut PatState,
        on: Value,
        tree: &DecTree,
        i: usize,
        resetpoint: ResetPoint,
    )
        requires
            tree@ is Ints,
            ints_from(old(f).cx(), b@, state(*old(f), *old(st)), on, tree@, i as int, resetpoint@).ok,
        ensures
            state(*final(f), *final(st)) == ints_from(
                old(f).cx(),
                b@,
                state(*old(f), *old(st)),
                on,
                tree@,
                i as int,
                resetpoint@,
            ).s,
            final(f).cx() == old(f).cx(),
        decreases b@.weight(), tree@, 0nat, tree@->Ints_next.len() - i,
    {
        if let DecTree::Ints { intsize, next } = tree {
            if i < next.branches.len() {
                let range = next.branches[i].0;
                let sub = &next.branches[i].1;
                proof {
                    crate::tree::lemma_arm(next.branches, i as int);
                    assert(tree@ == Tree::Ints { intsize: *intsize, next: next@ });
                }
                if range.end == range.con.max {
                    return Self::next(f, b, st, sub);
                }
                let on_true = f.ssa.new_block(0);
                let on_false = f.ssa.new_block(0);
                let check = Self::range_check(f, on, *intsize, range);
                f.ssa.select(check, on_true, on_false);
                f.ssa.switch_to_block(on_true);
                Self::next(f, b, st, sub);
                Self::reset(f, st, on_false, resetpoint.duplicate());
                Self::ints_from(f, b, st, on, tree, i + 1, resetpoint);
            }
        }
    }

    pub(crate) fn bools(f: &mut FuncLower<'a>, b: Branches<'v>, st: &mut PatState, on: Value, tree: &DecTree)
        requires
            tree@ is Bools,
            bools_step(old(f).cx(), b@, state(*old(f), *old(st)), on, tree@).ok,
        ensures
            state(*final(f), *final(st)) == bools_step(
                old(f).cx(),
                b@,
                state(*old(f), *old(st)),
                on,
                tree@,
            ).s,
            final(f).cx() == old(f).cx(),
        decreases b@.weight(), tree@, 0nat, 0nat,
    {
        if let DecTree::Bools(v) = tree {
            st.can_skip_continuation = false;
            proof {
                assert(tree@ == Tree::Bools(v@));
                if v.branches.len() == 2 {
                    crate::tree::lemma_arm(v.branches, 0);
                    crate::tree::lemma_arm(v.branches, 1);
                }
            }
            let fst = &v.branches[0];
            let snd = &v.branches[1];
            let (truthy, falsey) = if fst.0 {
                (fst, snd)
            } else {
                (snd, fst)
            };
            let resetpoint = Self::make_reset(st);
            let on_true = f.ssa.new_block(0);
            let on_false = f.ssa.new_block(0);
            f.ssa.select(on, on_true, on_false);
            f.ssa.switch_to_block(on_true);
            Self::next(f, b, st, &truthy.1);
            Self::reset(f, st, on_false, resetpoint);
            Self::next(f, b, st, &falsey.1);
        }
    }
}

} // verus!
