//! Merging one more pattern row into a decision tree.
//!
//! A `Merger` carries the leaf that the row ends in. Once the row's own tests
//! are merged, what is left of the row matches anything, so the leaf is
//! installed wherever the subtree below still ends unreached.

use crate::key::{Bind, DecisionTreeTail};
use crate::tree::{arms, DecTree, PointTable, Tail, Tree, TreeTail};
use vstd::prelude::*;

verus! {

/// Whether merging a row found a leaf that no earlier row had taken.
pub type IsReachable = bool;

/// The leaf that a pattern row ends in.
#[derive(Debug)]
pub struct Merger {
    pub table: PointTable,
    pub tail: DecisionTreeTail,
}

/// What a `Merger` is: its bindings and the body it selects.
pub ghost struct Row {
    pub table: Seq<(Bind, usize)>,
    pub tail: DecisionTreeTail,
}

impl View for Merger {
    type V = Row;

    open spec fn view(&self) -> Row {
        Row { table: self.table@, tail: self.tail }
    }
}

/// The tree `t` after the row's leaf took every unreached leaf of it.
pub open spec fn install(t: Tree, row: Row) -> Tree
    decreases t, 1nat,
{
    match t {
        Tree::End(Tail::Unreached(excess)) => Tree::End(Tail::Reached(row.table, excess, row.tail)),
        Tree::End(_) => t,
        Tree::Record { next } => Tree::Record { next: Box::new(install(*next, row)) },
        Tree::Tuple { next } => Tree::Tuple { next: Box::new(install(*next, row)) },
        Tree::Wildcard { next } => Tree::Wildcard { next: Box::new(install(*next, row)) },
        Tree::Opaque { next } => Tree::Opaque { next: Box::new(install(*next, row)) },
        Tree::List { ty, elem, next } => Tree::List { ty, elem, next: install_arms(next, row) },
        Tree::Ints { intsize, next } => Tree::Ints { intsize, next: install_arms(next, row) },
        Tree::Bools(next) => Tree::Bools(install_arms(next, row)),
        Tree::Sum { sum, params, next } => Tree::Sum { sum, params, next: install_arms(next, row) },
        Tree::String { next, wildcard_next } => Tree::String {
            next: install_arms(next, row),
            wildcard_next: Box::new(install(*wildcard_next, row)),
        },
    }
}

/// `install` on the subtree of every arm.
pub open spec fn install_arms<K>(arms: Seq<(K, Tree)>, row: Row) -> Seq<(K, Tree)>
    decreases arms, 0nat,
{
    Seq::new(
        arms.len(),
        |i: int|
            if 0 <= i < arms.len() {
                (arms[i].0, install(arms[i].1, row))
            } else {
                arbitrary()
            },
    )
}

/// Whether `t` has a leaf that a further row can still take: an unreached
/// one, or a poisoned one, which is reported as taken so that a type error
/// is not followed by a warning about a dead pattern.
pub open spec fn reaches(t: Tree) -> bool
    decreases t, 1nat,
{
    match t {
        Tree::End(Tail::Unreached(_)) => true,
        Tree::End(Tail::Poison) => true,
        Tree::End(Tail::Reached(..)) => false,
        Tree::Record { next } => reaches(*next),
        Tree::Tuple { next } => reaches(*next),
        Tree::Wildcard { next } => reaches(*next),
        Tree::Opaque { next } => reaches(*next),
        Tree::List { next, .. } => reaches_any(next, next.len() as int),
        Tree::Ints { next, .. } => reaches_any(next, next.len() as int),
        Tree::Bools(next) => reaches_any(next, next.len() as int),
        Tree::Sum { next, .. } => reaches_any(next, next.len() as int),
        Tree::String { next, wildcard_next } => reaches_any(next, next.len() as int) || reaches(
            *wildcard_next,
        ),
    }
}

/// Whether one of the first `n` arms has a subtree that `reaches`.
pub open spec fn reaches_any<K>(arms: Seq<(K, Tree)>, n: int) -> bool
    decreases arms, 0nat, n,
{
    if 0 < n <= arms.len() {
        reaches_any(arms, n - 1) || reaches(arms[n - 1].1)
    } else {
        false
    }
}

impl Merger {
    pub fn new(table: PointTable, tail: DecisionTreeTail) -> (r: Merger)
        ensures
            r@ == (Row { table: table@, tail }),
    {
        Merger { table, tail }
    }

    /// A second merger for the same row.
    pub fn fork(&self) -> (r: Merger)
        ensures
            r@ == self@,
    {
        Merger { table: self.table.duplicate(), tail: self.tail }
    }

    /// Installs the row's leaf in the subtree of every arm.
    fn next_arms<K: View>(&self, branches: &mut Vec<(K, DecTree)>) -> (r: IsReachable)
        ensures
            arms(*final(branches)) == install_arms(arms(*old(branches)), self@),
            r == reaches_any(arms(*old(branches)), old(branches).len() as int),
        decreases *old(branches), 0nat,
    {
        let ghost before = arms(*branches);
        let mut reachable = false;
        let mut i: usize = 0;
        while i < branches.len()
            invariant
                i <= branches.len(),
                branches.len() == before.len(),
                before == arms(*old(branches)),
                forall|j: int|
                    0 <= j < i ==> (#[trigger] branches[j]).0@ == before[j].0 && branches[j].1@
                        == install(before[j].1, self@),
                forall|j: int|
                    i <= j < branches.len() ==> (#[trigger] branches[j]) == old(branches)[j],
                reachable == reaches_any(before, i as int),
            decreases branches.len() - i,
        {
            proof {
                broadcast use vstd::std_specs::vec::axiom_vec_index_decreases;
                assert(decreases_to!(*old(branches) => old(branches)[i as int]));
            }
            let arm = &mut branches[i];
            let sub = self.fork().next(&mut arm.1);
            reachable = reachable || sub;
            i += 1;
        }
        assert(arms(*branches) =~= install_arms(before, self@));
        reachable
    }

    /// Installs the row's leaf wherever `tree` still ends unreached, and says
    /// whether it found such a place.
    pub fn next(self, tree: &mut DecTree) -> (r: IsReachable)
        ensures
            final(tree)@ == install(old(tree)@, self@),
            r == reaches(old(tree)@),
        decreases *old(tree), 1nat,
    {
        match tree {
            DecTree::End(tail) => match tail {
                TreeTail::Poison => true,
                TreeTail::Reached(..) => false,
                TreeTail::Unreached(excess) => {
                    let mut taken: Vec<crate::types::Type> = Vec::new();
                    taken.append(excess);
                    *tree = DecTree::End(TreeTail::Reached(self.table, taken, self.tail));
                    true
                }
            },
            DecTree::Record { next } => self.next(next),
            DecTree::Tuple { next } => self.next(next),
            DecTree::Wildcard { next } => self.next(next),
            DecTree::Opaque { next } => self.next(next),
            DecTree::List { next, .. } => self.next_arms(&mut next.branches),
            DecTree::Ints { next, .. } => self.next_arms(&mut next.branches),
            DecTree::Bools(next) => self.next_arms(&mut next.branches),
            DecTree::Sum { next, .. } => self.next_arms(&mut next.branches),
            DecTree::String { next, wildcard_next } => {
                let a = self.next_arms(&mut next.branches);
                let b = self.next(wildcard_next);
                a || b
            }
        }
    }
}

} // verus!
