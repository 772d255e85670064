//! Tests on strings.

use crate::lower::FuncLower;
use crate::mir::FuncOrigin;
use crate::mono::TypeMap;
use crate::pat::{
    byte, check_step, checks_from, next_step, state, string_from, string_step, Branches, PatLower,
    PatState, ResetPoint,
};
use crate::ssa::{Block, Value};
use crate::tree::{DecTree, StrCheck, Tree};
use vstd::prelude::*;

verus! {

impl<'f, 'v, 'a> PatLower<'f, 'v, 'a> {
    pub(crate) fn string(f: &mut FuncLower<'a>, b: Branches<'v>, st: &mut PatState, on: Value, tree: &DecTree)
        requires
            tree@ is String,
            old(st)@.map.len() > 0,
            string_step(old(f).cx(), b@, state(*old(f), *old(st)), on, tree@).ok,
        ensures
            state(*final(f), *final(st)) == string_step(
                old(f).cx(),
                b@,
                state(*old(f), *old(st)),
                on,
                tree@,
            ).s,
            final(f).cx() == old(f).cx(),
        decreases b@.weight(), tree@, 0nat, tree@->String_next.len() + 1,
    {
        // the steps of the pattern note what they see themselves, so what
        // `tree` noted is taken back
        st.map.pop();
        st.can_skip_continuation = false;
        let reset = Self::make_reset(st);
        Self::string_from(f, b, st, on, tree, 0, reset);
    }

    pub(crate) fn string_from(
        f: &mut FuncLower<'a>,
        b: Branches<'v>,
        st: &mut PatState,
        on: Value,
        tree: &DecTree,
        i: usize,
        reset: ResetPoint,
    )
        requires
            tree@ is String,
            string_from(old(f).cx(), b@, state(*old(f), *old(st)), on, tree@, i as int, reset@).ok,
        ensures
            state(*final(f), *final(st)) == string_from(
                old(f).cx(),
                b@,
                state(*old(f), *old(st)),
                on,
                tree@,
                i as int,
                reset@,
            ).s,
            final(f).cx() == old(f).cx(),
        decreases b@.weight(), tree@, 0nat, tree@->String_next.len() - i,
    {
        if let DecTree::String { next, wildcard_next } = tree {
            proof {
                assert(tree@ == Tree::String {
                    next: next@,
                    wildcard_next: Box::new(wildcard_next@),
                });
                if i < next.branches.len() {
                    crate::tree::lemma_arm(next.branches, i as int);
                }
            }
            if i < next.branches.len() {
                let falsely = f.ssa.new_block(0);
                Self::string_branch(
                    f,
                    b,
                    st,
                    (on, falsely),
                    (&next.branches[i].0.checks, &next.branches[i].1),
                );
                Self::reset(f, st, falsely, reset.duplicate());
                Self::string_from(f, b, st, on, tree, i + 1, reset);
            } else {
                Self::next(f, b, st, wildcard_next);
            }
        }
    }

    /// One step of a string pattern.
    pub(crate) fn string_check(
        f: &mut FuncLower<'a>,
        st: &mut PatState,
        on: Value,
        falsely: Block,
        check: StrCheck,
        is_last: bool,
    ) -> (r: Value)
        requires
            check_step(old(f).cx(), state(*old(f), *old(st)), on, falsely, check, is_last).ok,
        ensures
            state(*final(f), *final(st)) == check_step(
                old(f).cx(),
                state(*old(f), *old(st)),
                on,
                falsely,
                check,
                is_last,
            ).s,
            r == check_step(
                old(f).cx(),
                state(*old(f), *old(st)),
                on,
                falsely,
                check,
                is_last,
            ).on,
            final(f).cx() == old(f).cx(),
    {
        match check {
            StrCheck::Literal(key) => {
                let (str, slen_arg) = f.string_from_ro(key);
                st.map.push(str);
                let mut on = on;
                let eq = if is_last {
                    f.string_equals([on, str])
                } else {
                    let halves = f.string_split_at(on, slen_arg);
                    on = halves[1];
                    f.string_equals([halves[0], str])
                };
                Self::pass_or(f, eq, falsely);
                on
            },
            StrCheck::Take(bytes) => {
                let (at, uint) = f.uint(bytes as i128);
                let halves = f.string_split_at(on, at);
                st.map.push(halves[0]);
                let lhs_len = f.string_len(halves[0]);
                let len_ok = f.ssa.eq([at, lhs_len], uint);
                Self::pass_or(f, len_ok, falsely);
                halves[1]
            },
            StrCheck::TakeExcess => {
                st.map.push(on);
                on
            },
            StrCheck::TakeByte => {
                let halves = f.string_split_first(on);
                st.map.push(halves[0]);
                let u8 = byte();
                let null = Value::Int(0, u8);
                let ok = f.ssa.eq([halves[0], null], u8);
                Self::pass_or(f, ok, falsely);
                halves[1]
            },
            StrCheck::TakeWhileLocal(local) => {
                let by = f.yield_to_value(local);
                let halves = f.string_split_while(on, by);
                st.map.push(halves[0]);
                halves[1]
            },
            StrCheck::TakeWhileFunc(nfunc) => {
                let generics = TypeMap { self_: Some(f.info.string), generics: Vec::new() };
                assert(generics.generics@ =~= Seq::empty());
                let (mfunc, _) = f.call_to_mfunc(FuncOrigin::Defined(nfunc.value), generics);
                let halves = f.string_split_while_static(on, mfunc);
                st.map.push(halves[0]);
                halves[1]
            },
            StrCheck::TakeWhileLambda(lambda) => {
                let (mfunc, captures, _) = f.morphise_lambda(lambda);
                let by = f.dyn_lambda(mfunc, captures);
                let halves = f.string_split_while(on, by);
                st.map.push(halves[0]);
                halves[1]
            },
        }
    }

    /// Ends the block with a choice on `value` between a new block, in
    /// which lowering goes on, and `falsely`.
    pub(crate) fn pass_or(f: &mut FuncLower<'a>, value: Value, falsely: Block)
        requires
            old(f)@.ssa.wf(),
        ensures
            final(f)@ == old(f)@.with_ssa(
                old(f)@.ssa.new_block(0).select(value, old(f)@.ssa.next_block(), falsely).switch_to_block(
                    old(f)@.ssa.next_block(),
                ),
            ),
            final(f).cx() == old(f).cx(),
    {
        let next_check_block = f.ssa.new_block(0);
        f.ssa.select(value, next_check_block, falsely);
        f.ssa.switch_to_block(next_check_block);
    }

    pub(crate) fn string_branch(
        f: &mut FuncLower<'a>,
        b: Branches<'v>,
        st: &mut PatState,
        start: (Value, Block),
        arm: (&Vec<StrCheck>, &DecTree),
    )
        requires
            checks_from(old(f).cx(), state(*old(f), *old(st)), start.0, start.1, arm.0@, 0).ok,
            next_step(
                old(f).cx(),
                b@,
                checks_from(old(f).cx(), state(*old(f), *old(st)), start.0, start.1, arm.0@, 0).s,
                arm.1@,
            ).ok,
        ensures
            state(*final(f), *final(st)) == next_step(
                old(f).cx(),
                b@,
                checks_from(old(f).cx(), state(*old(f), *old(st)), start.0, start.1, arm.0@, 0).s,
                arm.1@,
            ).s,
            final(f).cx() == old(f).cx(),
        decreases b@.weight(), arm.1@, 3nat, 0nat,
    {
        let (on, falsely) = start;
        let (checks, next) = arm;
        let ghost whole = checks_from(old(f).cx(), state(*old(f), *old(st)), on, falsely, checks@, 0);
        let mut on = on;
        let mut i: usize = 0;
        while i < checks.len()
            invariant
                i <= checks.len(),
                f.cx() == old(f).cx(),
                whole.ok,
                checks_from(f.cx(), state(*f, *st), on, falsely, checks@, i as int) == whole,
            decreases checks.len() - i,
        {
            let is_last = i == checks.len() - 1;
            on = Self::string_check(f, st, on, falsely, checks[i], is_last);
            i += 1;
        }
        // all steps passed: on with what follows the string
        Self::next(f, b, st, next);
    }
}

} // verus!
