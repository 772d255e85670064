//! Decision trees over patterns: what type checking builds for one `match`
//! and the lowerer walks.

use crate::key::{Bind, DecisionTreeTail, Func, Lambda, M, ReadOnly, Sum, SumVariant};
use crate::range::Range;
use crate::types::{IntSize, Type};
use vstd::prelude::*;

verus! {

/// A local of the function being lowered.
#[derive(Clone, Copy, PartialEq, Eq, Structural, Debug, Hash)]
pub enum Local {
    Param(crate::key::Param),
    Binding(Bind),
}

/// One step of a string pattern.
#[derive(Clone, Copy, PartialEq, Eq, Structural, Debug, Hash)]
pub enum StrCheck {
    Literal(ReadOnly),
    Take(usize),
    TakeByte,
    TakeExcess,
    TakeWhileLocal(Local),
    TakeWhileFunc(M<Func>),
    TakeWhileLambda(Lambda),
}

/// The steps of one string pattern, in order.
#[derive(Debug)]
pub struct StrChecks {
    pub checks: Vec<StrCheck>,
}

/// The variant that stands for `Cons x xs` in a list pattern.
pub open spec fn spec_list_cons() -> SumVariant {
    SumVariant(0)
}

/// The variant that stands for `Nil` in a list pattern.
pub open spec fn spec_list_nil() -> SumVariant {
    SumVariant(1)
}

#[verifier::when_used_as_spec(spec_list_cons)]
pub fn list_cons() -> (r: SumVariant)
    ensures
        r == spec_list_cons(),
{
    SumVariant(0)
}

#[verifier::when_used_as_spec(spec_list_nil)]
pub fn list_nil() -> (r: SumVariant)
    ensures
        r == spec_list_nil(),
{
    SumVariant(1)
}

/// Which bindings a leaf introduces, each with the depth at which its value
/// was seen during the walk.
#[derive(Debug)]
pub struct PointTable {
    pub binds: Vec<(Bind, usize)>,
}

impl View for PointTable {
    type V = Seq<(Bind, usize)>;

    open spec fn view(&self) -> Seq<(Bind, usize)> {
        self.binds@
    }
}

impl PointTable {
    pub fn new(binds: Vec<(Bind, usize)>) -> (r: PointTable)
        ensures
            r@ == binds@,
    {
        PointTable { binds }
    }

    /// Whether two tables list the same bindings at the same depths.
    pub fn same(&self, other: &PointTable) -> (r: bool)
        ensures
            r == (self@ == other@),
    {
        if self.binds.len() != other.binds.len() {
            return false;
        }
        let mut i: usize = 0;
        while i < self.binds.len()
            invariant
                i <= self.binds.len(),
                self.binds.len() == other.binds.len(),
                forall|j: int| 0 <= j < i ==> self.binds[j] == other.binds[j],
            decreases self.binds.len() - i,
        {
            let a = self.binds[i];
            let b = other.binds[i];
            if !(a.0 == b.0 && a.1 == b.1) {
                return false;
            }
            i += 1;
        }
        assert(self@ =~= other@);
        true
    }

    pub fn duplicate(&self) -> (r: PointTable)
        ensures
            r@ == self@,
    {
        PointTable { binds: copy_of(&self.binds) }
    }
}

impl Clone for PointTable {
    fn clone(&self) -> (r: PointTable)
        ensures
            r@ == self@,
    {
        self.duplicate()
    }
}

/// A copy of a vector of plain values.
pub fn copy_of<T: Copy>(v: &Vec<T>) -> (r: Vec<T>)
    ensures
        r@ == v@,
{
    let mut out: Vec<T> = Vec::new();
    let mut i: usize = 0;
    while i < v.len()
        invariant
            i <= v.len(),
            out@ == v@.take(i as int),
        decreases v.len() - i,
    {
        out.push(v[i]);
        assert(v@.take(i as int).push(v[i as int]) =~= v@.take(i + 1));
        i += 1;
    }
    assert(v@.take(v.len() as int) =~= v@);
    out
}

/// A leaf of a decision tree.
#[derive(Debug)]
pub enum TreeTail {
    /// What is left of a leaf after a type error.
    Poison,
    /// No pattern leads here; the types of the values left unmatched.
    Unreached(Vec<Type>),
    /// A pattern leads here: its bindings, the types left unmatched, and the
    /// body that runs.
    Reached(PointTable, Vec<Type>, DecisionTreeTail),
}

/// The arms of a test, in the order in which they are tried.
#[derive(Debug)]
pub struct Branching<K> {
    pub branches: Vec<(K, DecTree)>,
}

/// A decision tree over patterns.
#[derive(Debug)]
pub enum DecTree {
    /// Destructure all fields of a record.
    Record { next: Box<DecTree> },
    /// Destructure all elements of a tuple.
    Tuple { next: Box<DecTree> },
    /// Branch on `Cons` or `Nil`; `ty` is the list type, `elem` its element.
    List { ty: Type, elem: Type, next: Branching<SumVariant> },
    Ints { intsize: IntSize, next: Branching<Range> },
    Bools(Branching<bool>),
    Sum { sum: M<Sum>, params: Vec<Type>, next: Branching<SumVariant> },
    String { next: Branching<StrChecks>, wildcard_next: Box<DecTree> },
    /// Pass through with no test.
    Wildcard { next: Box<DecTree> },
    /// Pass through with no test.
    Opaque { next: Box<DecTree> },
    End(TreeTail),
}

/// What a `TreeTail` is: the same leaf over sequences.
pub ghost enum Tail {
    Poison,
    Unreached(Seq<Type>),
    Reached(Seq<(Bind, usize)>, Seq<Type>, DecisionTreeTail),
}

/// What a `DecTree` is: the same tree over sequences.
#[allow(inconsistent_fields)]
pub ghost enum Tree {
    Record { next: Box<Tree> },
    Tuple { next: Box<Tree> },
    List { ty: Type, elem: Type, next: Seq<(SumVariant, Tree)> },
    Ints { intsize: IntSize, next: Seq<(Range, Tree)> },
    Bools(Seq<(bool, Tree)>),
    Sum { sum: M<Sum>, params: Seq<Type>, next: Seq<(SumVariant, Tree)> },
    String { next: Seq<(Seq<StrCheck>, Tree)>, wildcard_next: Box<Tree> },
    Wildcard { next: Box<Tree> },
    Opaque { next: Box<Tree> },
    End(Tail),
}

impl View for TreeTail {
    type V = Tail;

    open spec fn view(&self) -> Tail {
        match self {
            TreeTail::Poison => Tail::Poison,
            TreeTail::Unreached(excess) => Tail::Unreached(excess@),
            TreeTail::Reached(table, excess, tail) => Tail::Reached(table@, excess@, *tail),
        }
    }
}

impl View for StrChecks {
    type V = Seq<StrCheck>;

    open spec fn view(&self) -> Seq<StrCheck> {
        self.checks@
    }
}

/// The arms of a test, as a sequence.
pub open spec fn arms<K: View>(branches: Vec<(K, DecTree)>) -> Seq<(K::V, Tree)>
    decreases branches, 0nat,
{
    Seq::new(
        branches.len() as nat,
        |i: int|
            if 0 <= i < branches.len() {
                (branches[i].0@, branches[i].1.model())
            } else {
                arbitrary()
            },
    )
}

impl DecTree {
    pub open spec fn model(&self) -> Tree
        decreases self, 1nat,
    {
        match self {
            DecTree::Record { next } => Tree::Record { next: Box::new(next.model()) },
            DecTree::Tuple { next } => Tree::Tuple { next: Box::new(next.model()) },
            DecTree::List { ty, elem, next } => Tree::List {
                ty: *ty,
                elem: *elem,
                next: arms(next.branches),
            },
            DecTree::Ints { intsize, next } => Tree::Ints {
                intsize: *intsize,
                next: arms(next.branches),
            },
            DecTree::Bools(next) => Tree::Bools(arms(next.branches)),
            DecTree::Sum { sum, params, next } => Tree::Sum {
                sum: *sum,
                params: params@,
                next: arms(next.branches),
            },
            DecTree::String { next, wildcard_next } => Tree::String {
                next: arms(next.branches),
                wildcard_next: Box::new(wildcard_next.model()),
            },
            DecTree::Wildcard { next } => Tree::Wildcard { next: Box::new(next.model()) },
            DecTree::Opaque { next } => Tree::Opaque { next: Box::new(next.model()) },
            DecTree::End(tail) => Tree::End(tail@),
        }
    }
}

/// A copy of the arms of a test whose keys are plain values.
fn copy_arms<K: Copy + View>(branches: &Vec<(K, DecTree)>) -> (r: Vec<(K, DecTree)>)
    ensures
        arms(r) == arms(*branches),
    decreases branches, 0nat,
{
    let mut out: Vec<(K, DecTree)> = Vec::new();
    let mut i: usize = 0;
    while i < branches.len()
        invariant
            i <= branches.len(),
            out.len() == i,
            forall|j: int|
                0 <= j < i ==> out[j].0@ == (#[trigger] branches[j]).0@ && out[j].1@
                    == branches[j].1@,
        decreases branches.len() - i,
    {
        proof {
            broadcast use vstd::std_specs::vec::axiom_vec_index_decreases;

            assert(decreases_to!(*branches => branches[i as int]));
        }
        let sub = branches[i].1.duplicate();
        out.push((branches[i].0, sub));
        i += 1;
    }
    assert(arms(out) =~= arms(*branches));
    out
}

/// A copy of the arms of a string test.
fn copy_str_arms(branches: &Vec<(StrChecks, DecTree)>) -> (r: Vec<(StrChecks, DecTree)>)
    ensures
        arms(r) == arms(*branches),
    decreases branches, 0nat,
{
    let mut out: Vec<(StrChecks, DecTree)> = Vec::new();
    let mut i: usize = 0;
    while i < branches.len()
        invariant
            i <= branches.len(),
            out.len() == i,
            forall|j: int|
                0 <= j < i ==> out[j].0@ == (#[trigger] branches[j]).0@ && out[j].1@
                    == branches[j].1@,
        decreases branches.len() - i,
    {
        proof {
            broadcast use vstd::std_specs::vec::axiom_vec_index_decreases;

            assert(decreases_to!(*branches => branches[i as int]));
        }
        let sub = branches[i].1.duplicate();
        let checks = StrChecks { checks: copy_of(&branches[i].0.checks) };
        out.push((checks, sub));
        i += 1;
    }
    assert(arms(out) =~= arms(*branches));
    out
}

impl TreeTail {
    /// A copy of the leaf.
    pub fn duplicate(&self) -> (r: TreeTail)
        ensures
            r@ == self@,
    {
        match self {
            TreeTail::Poison => TreeTail::Poison,
            TreeTail::Unreached(excess) => TreeTail::Unreached(copy_of(excess)),
            TreeTail::Reached(table, excess, tail) => TreeTail::Reached(
                table.duplicate(),
                copy_of(excess),
                *tail,
            ),
        }
    }
}

impl DecTree {
    /// A copy of the whole tree.
    pub fn duplicate(&self) -> (r: DecTree)
        ensures
            r@ == self@,
        decreases self, 1nat,
    {
        match self {
            DecTree::Record { next } => DecTree::Record { next: Box::new(next.duplicate()) },
            DecTree::Tuple { next } => DecTree::Tuple { next: Box::new(next.duplicate()) },
            DecTree::List { ty, elem, next } => DecTree::List {
                ty: *ty,
                elem: *elem,
                next: Branching { branches: copy_arms(&next.branches) },
            },
            DecTree::Ints { intsize, next } => DecTree::Ints {
                intsize: *intsize,
                next: Branching { branches: copy_arms(&next.branches) },
            },
            DecTree::Bools(next) => DecTree::Bools(
                Branching { branches: copy_arms(&next.branches) },
            ),
            DecTree::Sum { sum, params, next } => DecTree::Sum {
                sum: *sum,
                params: copy_of(params),
                next: Branching { branches: copy_arms(&next.branches) },
            },
            DecTree::String { next, wildcard_next } => DecTree::String {
                next: Branching { branches: copy_str_arms(&next.branches) },
                wildcard_next: Box::new(wildcard_next.duplicate()),
            },
            DecTree::Wildcard { next } => DecTree::Wildcard { next: Box::new(next.duplicate()) },
            DecTree::Opaque { next } => DecTree::Opaque { next: Box::new(next.duplicate()) },
            DecTree::End(tail) => DecTree::End(tail.duplicate()),
        }
    }
}

impl Clone for DecTree {
    fn clone(&self) -> (r: DecTree)
        ensures
            r@ == self@,
    {
        self.duplicate()
    }
}

/// Arm `i` of a test is its key and the model of its subtree.
pub proof fn lemma_arm<K: View>(branches: Vec<(K, DecTree)>, i: int)
    requires
        0 <= i < branches.len(),
    ensures
        arms(branches).len() == branches.len(),
        arms(branches)[i] == (branches[i].0@, branches[i].1@),
{
}

impl View for DecTree {
    type V = Tree;

    open spec fn view(&self) -> Tree {
        self.model()
    }
}

impl<K: View> View for Branching<K> {
    type V = Seq<(K::V, Tree)>;

    open spec fn view(&self) -> Seq<(K::V, Tree)> {
        arms(self.branches)
    }
}

} // verus!
