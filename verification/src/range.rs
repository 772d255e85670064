//! Closed integer intervals, the limits that a width puts on them, and the
//! merging of an interval into the arms of a test on an integer.

use crate::merge::{install, reaches, IsReachable, Merger, Row};
use crate::tree::{arms, Branching, DecTree, Tail, Tree, TreeTail};
use crate::types::Bitsize;
use vstd::arithmetic::power2::{
    lemma2_to64, lemma2_to64_rest, lemma_pow2_adds, lemma_pow2_strictly_increases,
    lemma_pow2_unfold, pow2,
};
use vstd::prelude::*;

verus! {

/// The least and greatest value of an integer type.
#[derive(Clone, Copy, PartialEq, Eq, Structural, Debug)]
pub struct Constraints {
    pub min: i128,
    pub max: i128,
}

/// The closed interval `[start, end]` within the limits `con`.
#[derive(Clone, Copy, PartialEq, Eq, Structural, Debug)]
pub struct Range {
    pub con: Constraints,
    pub start: i128,
    pub end: i128,
}

impl View for Range {
    type V = Range;

    open spec fn view(&self) -> Range {
        *self
    }
}

/// How an interval is written.
#[derive(Clone, Copy, PartialEq, Eq, Debug)]
pub enum Notation {
    /// An interval of one value: the value.
    One(i128),
    /// The two ends with two dots between them, each end left out where it
    /// is the limit of the type.
    Span { start: Option<i128>, end: Option<i128> },
}

impl Range {
    pub fn new(con: Constraints, start: i128, end: i128) -> (r: Range)
        ensures
            r == (Range { con, start, end }),
    {
        Range { con, start, end }
    }

    /// The interval that holds only the greatest value of the same limits.
    pub fn full(&self) -> (r: Range)
        ensures
            r == (Range { con: self.con, start: self.con.max, end: self.con.max }),
    {
        Range { con: self.con, start: self.con.max, end: self.con.max }
    }

    /// Whether the interval spans its limits.
    pub fn is_full(&self) -> (r: bool)
        ensures
            r == (self.con.min == self.start && self.con.max == self.end),
    {
        self.con.min == self.start && self.con.max == self.end
    }

    /// Whether `n` lies in the interval.
    pub open spec fn contains(&self, n: int) -> bool {
        self.start <= n <= self.end
    }

    /// How the interval is written: an interval of one value as that
    /// value, even where it is a limit; any other by its ends, of which
    /// the start is left out where it is the least value of the type and
    /// the end where it is the greatest.
    pub fn notation(&self) -> (r: Notation)
        ensures
            self.start == self.end ==> r == Notation::One(self.start),
            self.start != self.end ==> r == (Notation::Span {
                start: if self.start != self.con.min {
                    Some(self.start)
                } else {
                    None
                },
                end: if self.end != self.con.max {
                    Some(self.end)
                } else {
                    None
                },
            }),
    {
        if self.start == self.end {
            Notation::One(self.start)
        } else {
            let start = if self.start != self.con.min {
                Some(self.start)
            } else {
                None
            };
            let end = if self.end != self.con.max {
                Some(self.end)
            } else {
                None
            };
            Notation::Span { start, end }
        }
    }
}

impl Constraints {
    /// The interval that spans these limits.
    pub fn to_range(self) -> (r: Range)
        ensures
            r == (Range { con: self, start: self.min, end: self.max }),
    {
        Range { start: self.min, end: self.max, con: self }
    }
}

/// The limits of an integer of `bits` bits: `[-2^(bits-1), 2^(bits-1) - 1]`
/// signed, `[0, 2^bits - 1]` unsigned.
pub open spec fn limits(signed: bool, bits: nat) -> (int, int) {
    if signed {
        (-pow2((bits - 1) as nat), pow2((bits - 1) as nat) - 1)
    } else {
        (0, pow2(bits) - 1)
    }
}

/// The same limits as a value.
pub open spec fn limits_of(signed: bool, bitsize: Bitsize) -> Constraints {
    Constraints {
        min: limits(signed, bitsize.0 as nat).0 as i128,
        max: limits(signed, bitsize.0 as nat).1 as i128,
    }
}

/// Two to the power `n`, for an `n` whose power fits.
fn two_to_the(n: u8) -> (r: i128)
    requires
        n <= 126,
    ensures
        r == pow2(n as nat),
        0 < r <= 0x4000_0000_0000_0000_0000_0000_0000_0000,
{
    let mut p: i128 = 1;
    let mut i: u8 = 0;
    proof {
        lemma2_to64();
        lemma2_to64_rest();
        lemma_pow2_adds(63, 63);
        assert(pow2(126) == 0x4000_0000_0000_0000_0000_0000_0000_0000) by (nonlinear_arith)
            requires
                pow2(126) == pow2(63) * pow2(63),
                pow2(63) == 0x8000000000000000,
        ;
    }
    while i < n
        invariant
            i <= n <= 126,
            p == pow2(i as nat),
            0 < p <= pow2(126),
            pow2(126) == 0x4000_0000_0000_0000_0000_0000_0000_0000,
        decreases n - i,
    {
        proof {
            lemma_pow2_unfold((i + 1) as nat);
            if i + 1 < 126 {
                lemma_pow2_strictly_increases((i + 1) as nat, 126);
            }
        }
        p = p * 2;
        i += 1;
    }
    p
}

/// The limits of a signed or unsigned integer of the given width.
pub fn constraints_from_bitsize(signed: bool, bitsize: Bitsize) -> (r: Constraints)
    requires
        signed ==> 1 <= bitsize.0 <= 127,
        !signed ==> bitsize.0 <= 126,
    ensures
        r.min == limits(signed, bitsize.0 as nat).0,
        r.max == limits(signed, bitsize.0 as nat).1,
        r == limits_of(signed, bitsize),
{
    let max: i128 = if signed {
        two_to_the(bitsize.0 - 1) - 1
    } else {
        two_to_the(bitsize.0) - 1
    };
    let min: i128 = if signed {
        -max - 1
    } else {
        0
    };
    Constraints { min, max }
}

/// The arms of an integer test: each an interval and the subtree below it.
pub type Arms = Seq<(Range, Tree)>;

/// Every interval is non-empty and each ends before the next one starts.
pub open spec fn sorted(arms: Arms) -> bool {
    &&& forall|k: int| 0 <= k < arms.len() ==> (#[trigger] arms[k]).0.start <= arms[k].0.end
    &&& forall|j: int, k: int|
        0 <= j < k < arms.len() ==> (#[trigger] arms[j]).0.end < (#[trigger] arms[k]).0.start
}

/// Whether an arm at index `i` or later holds `n`.
pub open spec fn covered_from(arms: Arms, i: int, n: int) -> bool {
    exists|k: int| i <= k < arms.len() && (#[trigger] arms[k]).0.contains(n)
}

/// Whether some arm holds `n`.
pub open spec fn covered(arms: Arms, n: int) -> bool {
    covered_from(arms, 0, n)
}

/// What `merge_int_at` asks of its input: sorted arms, a non-empty incoming
/// interval, and every value of it held by an arm at index `i` or later.
pub open spec fn mergeable(arms: Arms, i: int, start: int, end: int) -> bool {
    &&& sorted(arms)
    &&& 0 <= i
    &&& start <= end
    &&& forall|n: int| start <= n <= end ==> #[trigger] covered_from(arms, i, n)
}

/// Arm `i` cut in two at `start`: `[.., start - 1]` stays at `i` and
/// `[start, ..]` follows it, both above the same subtree.
pub open spec fn split_left(arms: Arms, i: int, start: int) -> Arms {
    let (range, tree) = arms[i];
    let left = Range { con: range.con, start: range.start, end: (start - 1) as i128 };
    let right = Range { con: range.con, start: start as i128, end: range.end };
    arms.update(i, (right, tree)).insert(i, (left, tree))
}

/// Arm `i` cut in two after `end`: `[.., end]` stays at `i` and
/// `[end + 1, ..]` follows it, both above the same subtree.
pub open spec fn split_right(arms: Arms, i: int, end: int) -> Arms {
    let (range, tree) = arms[i];
    let left = Range { con: range.con, start: range.start, end: end as i128 };
    let right = Range { con: range.con, start: (end + 1) as i128, end: range.end };
    arms.update(i, (left, tree)).insert(i + 1, (right, tree))
}

/// The arms after `[start, end]` was merged in from index `i` on: arms that
/// it overlaps only in part are cut at its ends, and the row's leaf is
/// installed below every arm that lies within it.
pub open spec fn merge_at(arms: Arms, i: int, start: int, end: int, row: Row) -> Arms
    decreases arms.len() - i,
{
    if i < 0 || i >= arms.len() {
        arms
    } else if end < arms[i].0.start || start > arms[i].0.end {
        merge_at(arms, i + 1, start, end, row)
    } else {
        let cut = start > arms[i].0.start;
        let lefted = if cut {
            split_left(arms, i, start)
        } else {
            arms
        };
        let k = if cut {
            i + 1
        } else {
            i
        };
        let here = lefted[k].0;
        let rest = if end < here.end {
            split_right(lefted, k, end)
        } else if end > here.end {
            merge_at(lefted, k + 1, here.end + 1, end, row)
        } else {
            lefted
        };
        rest.update(k, (rest[k].0, install(rest[k].1, row)))
    }
}

/// Whether the merge of `[start, end]` from index `i` on finds a leaf to take.
pub open spec fn merge_reaches(arms: Arms, i: int, start: int, end: int) -> bool
    decreases arms.len() - i,
{
    if i < 0 || i >= arms.len() {
        false
    } else if end < arms[i].0.start || start > arms[i].0.end {
        merge_reaches(arms, i + 1, start, end)
    } else {
        let cut = start > arms[i].0.start;
        let lefted = if cut {
            split_left(arms, i, start)
        } else {
            arms
        };
        let k = if cut {
            i + 1
        } else {
            i
        };
        let here = lefted[k].0;
        let further = end > here.end && merge_reaches(lefted, k + 1, here.end + 1, end);
        further || reaches(arms[i].1)
    }
}

proof fn lemma_arms_insert(before: Vec<(Range, DecTree)>, after: Vec<(Range, DecTree)>, i: int, arm: (Range, DecTree))
    requires
        0 <= i <= before.len(),
        after@ == before@.insert(i, arm),
    ensures
        arms(after) == arms(before).insert(i, (arm.0, arm.1@)),
{
    assert(arms(after) =~= arms(before).insert(i, (arm.0, arm.1@)));
}

proof fn lemma_mergeable_skip(arms: Arms, i: int, start: int, end: int)
    requires
        mergeable(arms, i, start, end),
    ensures
        i < arms.len(),
        (end < arms[i].0.start || start > arms[i].0.end) ==> mergeable(arms, i + 1, start, end),
        !(end < arms[i].0.start || start > arms[i].0.end) ==> arms[i].0.start <= start,
{
    assert(covered_from(arms, i, start));
    let w = choose|k: int| i <= k < arms.len() && (#[trigger] arms[k]).0.contains(start);
    if end < arms[i].0.start || start > arms[i].0.end {
        assert forall|n: int| start <= n <= end implies #[trigger] covered_from(arms, i + 1, n) by {
            assert(covered_from(arms, i, n));
            let k = choose|k: int| i <= k < arms.len() && (#[trigger] arms[k]).0.contains(n);
            assert(k != i);
            assert(i + 1 <= k < arms.len() && arms[k].0.contains(n));
        }
    } else {
        if w != i {
            assert(arms[i].0.end < arms[w].0.start);
        }
    }
}

/// Where each arm is after a cut on the left.
proof fn lemma_split_left_places(arms: Arms, i: int, start: int)
    requires
        0 <= i < arms.len(),
    ensures
        split_left(arms, i, start).len() == arms.len() + 1,
        forall|j: int| 0 <= j < i ==> split_left(arms, i, start)[j] == arms[j],
        forall|j: int| i + 1 < j <= arms.len() ==> split_left(arms, i, start)[j] == arms[j - 1],
        split_left(arms, i, start)[i] == (
            Range { con: arms[i].0.con, start: arms[i].0.start, end: (start - 1) as i128 },
            arms[i].1,
        ),
        split_left(arms, i, start)[i + 1] == (
            Range { con: arms[i].0.con, start: start as i128, end: arms[i].0.end },
            arms[i].1,
        ),
{
}

/// Where each arm is after a cut on the right.
proof fn lemma_split_right_places(arms: Arms, i: int, end: int)
    requires
        0 <= i < arms.len(),
    ensures
        split_right(arms, i, end).len() == arms.len() + 1,
        forall|j: int| 0 <= j < i ==> split_right(arms, i, end)[j] == arms[j],
        forall|j: int| i + 1 < j <= arms.len() ==> split_right(arms, i, end)[j] == arms[j - 1],
        split_right(arms, i, end)[i] == (
            Range { con: arms[i].0.con, start: arms[i].0.start, end: end as i128 },
            arms[i].1,
        ),
        split_right(arms, i, end)[i + 1] == (
            Range { con: arms[i].0.con, start: (end + 1) as i128, end: arms[i].0.end },
            arms[i].1,
        ),
{
}

proof fn lemma_split_left_sorted(arms: Arms, i: int, start: int)
    requires
        sorted(arms),
        0 <= i < arms.len(),
        arms[i].0.start < start <= arms[i].0.end,
    ensures
        sorted(split_left(arms, i, start)),
        split_left(arms, i, start).len() == arms.len() + 1,
{
    let out = split_left(arms, i, start);
    lemma_split_left_places(arms, i, start);
    assert forall|j: int, k: int| 0 <= j < k < out.len() implies (#[trigger] out[j]).0.end < (
    #[trigger] out[k]).0.start by {
        let oj = if j <= i { j } else { j - 1 };
        let ok = if k <= i { k } else { k - 1 };
        assert(out[j].0.end <= arms[oj].0.end);
        assert(out[k].0.start >= arms[ok].0.start);
        if oj < ok {
            assert(arms[oj].0.end < arms[ok].0.start);
        }
    }
    assert forall|k: int| 0 <= k < out.len() implies (#[trigger] out[k]).0.start <= out[k].0.end by {
        let ok = if k <= i { k } else { k - 1 };
        assert(arms[ok].0.start <= arms[ok].0.end);
    }
}

proof fn lemma_split_right_sorted(arms: Arms, i: int, end: int)
    requires
        sorted(arms),
        0 <= i < arms.len(),
        arms[i].0.start <= end < arms[i].0.end,
    ensures
        sorted(split_right(arms, i, end)),
        split_right(arms, i, end).len() == arms.len() + 1,
{
    let out = split_right(arms, i, end);
    lemma_split_right_places(arms, i, end);
    assert forall|j: int, k: int| 0 <= j < k < out.len() implies (#[trigger] out[j]).0.end < (
    #[trigger] out[k]).0.start by {
        let oj = if j <= i { j } else { j - 1 };
        let ok = if k <= i { k } else { k - 1 };
        assert(out[j].0.end <= arms[oj].0.end);
        assert(out[k].0.start >= arms[ok].0.start);
        if oj < ok {
            assert(arms[oj].0.end < arms[ok].0.start);
        }
    }
    assert forall|k: int| 0 <= k < out.len() implies (#[trigger] out[k]).0.start <= out[k].0.end by {
        let ok = if k <= i { k } else { k - 1 };
        assert(arms[ok].0.start <= arms[ok].0.end);
    }
}

/// After the cut at `start`, what lies beyond arm `k` of the incoming
/// interval is still held by the arms that follow it.
proof fn lemma_mergeable_further(arms: Arms, i: int, start: int, end: int)
    requires
        mergeable(arms, i, start, end),
        0 <= i < arms.len(),
        arms[i].0.start <= start <= arms[i].0.end,
        end > arms[i].0.end,
    ensures
        ({
            let cut = start > arms[i].0.start;
            let lefted = if cut { split_left(arms, i, start) } else { arms };
            let k = if cut { i + 1 } else { i };
            mergeable(lefted, k + 1, arms[i].0.end + 1, end)
        }),
{
    let cut = start > arms[i].0.start;
    let lefted = if cut { split_left(arms, i, start) } else { arms };
    let k = if cut { i + 1 } else { i };
    if cut {
        lemma_split_left_sorted(arms, i, start);
        lemma_split_left_places(arms, i, start);
    }
    assert forall|n: int| arms[i].0.end + 1 <= n <= end implies #[trigger] covered_from(
        lefted,
        k + 1,
        n,
    ) by {
        assert(covered_from(arms, i, n));
        let w = choose|w: int| i <= w < arms.len() && (#[trigger] arms[w]).0.contains(n);
        assert(w != i);
        let w2 = if cut { w + 1 } else { w };
        assert(lefted[w2] == arms[w]);
        assert(k + 1 <= w2 < lefted.len() && lefted[w2].0.contains(n));
    }
}

/// A merge from index `i` on leaves the arms before `i` as they are and
/// drops none.
proof fn lemma_merge_at_prefix(arms: Arms, i: int, start: int, end: int, row: Row)
    requires
        0 <= i,
    ensures
        merge_at(arms, i, start, end, row).len() >= arms.len(),
        forall|j: int| 0 <= j < i && j < arms.len() ==> merge_at(arms, i, start, end, row)[j] == arms[j],
    decreases arms.len() - i,
{
    if i >= arms.len() {
    } else if end < arms[i].0.start || start > arms[i].0.end {
        lemma_merge_at_prefix(arms, i + 1, start, end, row);
    } else {
        let cut = start > arms[i].0.start;
        let lefted = if cut { split_left(arms, i, start) } else { arms };
        let k = if cut { i + 1 } else { i };
        let here = lefted[k].0;
        if cut {
            lemma_split_left_places(arms, i, start);
        }
        if end < here.end {
            lemma_split_right_places(lefted, k, end);
        } else if end > here.end {
            lemma_merge_at_prefix(lefted, k + 1, here.end + 1, end, row);
        }
    }
}

/// Cuts arm `i` in two at `start`.
fn cut_left(ints: &mut Branching<Range>, i: usize, start: i128)
    requires
        i < old(ints).branches.len(),
        old(ints)@[i as int].0.start < start,
    ensures
        final(ints)@ == split_left(old(ints)@, i as int, start as int),
{
    let range = ints.branches[i].0;
    let untouched_left = Range::new(range.con, range.start, start - 1);
    let untouched_next = ints.branches[i].1.duplicate();
    let ghost pre = ints.branches;
    ints.branches.insert(i, (untouched_left, untouched_next));
    let ghost mid = ints.branches;
    let arm = &mut ints.branches[i + 1];
    arm.0.start = start;
    proof {
        lemma_arms_insert(pre, mid, i as int, (untouched_left, untouched_next));
        assert(ints@ =~= split_left(old(ints)@, i as int, start as int));
    }
}

/// Cuts arm `i` in two after `end`.
fn cut_right(ints: &mut Branching<Range>, i: usize, end: i128)
    requires
        i < old(ints).branches.len(),
        end < old(ints)@[i as int].0.end,
    ensures
        final(ints)@ == split_right(old(ints)@, i as int, end as int),
{
    let range = ints.branches[i].0;
    let untouched_right = Range::new(range.con, end + 1, range.end);
    let untouched_next = ints.branches[i].1.duplicate();
    let ghost pre = ints.branches;
    ints.branches.insert(i + 1, (untouched_right, untouched_next));
    let ghost mid = ints.branches;
    let arm = &mut ints.branches[i];
    arm.0.end = end;
    proof {
        lemma_arms_insert(pre, mid, i + 1, (untouched_right, untouched_next));
        assert(ints@ =~= split_right(old(ints)@, i as int, end as int));
    }
}

/// Lets the row go on below arm `k`.
fn descend(row: Merger, ints: &mut Branching<Range>, k: usize) -> (r: IsReachable)
    requires
        k < old(ints).branches.len(),
    ensures
        final(ints)@ == old(ints)@.update(
            k as int,
            (old(ints)@[k as int].0, install(old(ints)@[k as int].1, row@)),
        ),
        r == reaches(old(ints)@[k as int].1),
{
    let arm = &mut ints.branches[k];
    let below = row.next(&mut arm.1);
    proof {
        assert(ints@ =~= old(ints)@.update(
            k as int,
            (old(ints)@[k as int].0, install(old(ints)@[k as int].1, row@)),
        ));
    }
    below
}

impl Merger {
    /// Merges `[start, end]` into the arms from index `i` on. Arms that the
    /// interval overlaps only in part are cut at its ends, so that the arms
    /// stay sorted; below every arm within the interval the row goes on.
    fn merge_int_at(self, i: usize, ints: &mut Branching<Range>, start: i128, end: i128) -> (r:
        IsReachable)
        requires
            mergeable(old(ints)@, i as int, start as int, end as int),
        ensures
            final(ints)@ == merge_at(old(ints)@, i as int, start as int, end as int, self@),
            r == merge_reaches(old(ints)@, i as int, start as int, end as int),
        decreases old(ints).branches.len() - i,
    {
        let ghost before = ints@;
        proof {
            lemma_mergeable_skip(before, i as int, start as int, end as int);
        }
        let range = ints.branches[i].0;
        if end < range.start || start > range.end {
            return self.merge_int_at(i + 1, ints, start, end);
        }
        let mut k = i;
        if start > range.start {
            cut_left(ints, i, start);
            k = i + 1;
            proof {
                lemma_split_left_places(before, i as int, start as int);
            }
        }
        let ghost lefted = ints@;
        let here = ints.branches[k].0;
        let mut reachable = false;
        if end < here.end {
            cut_right(ints, k, end);
            proof {
                lemma_split_right_places(lefted, k as int, end as int);
            }
        } else if end > here.end {
            proof {
                lemma_mergeable_further(before, i as int, start as int, end as int);
                lemma_merge_at_prefix(lefted, k + 1, here.end + 1, end as int, self@);
            }
            reachable = self.fork().merge_int_at(k + 1, ints, here.end + 1, end);
        }
        let ghost rest = ints@;
        assert(rest[k as int].1 == before[i as int].1);
        let below = descend(self, ints, k);
        reachable || below
    }
}

/// Whether two subtrees are leaves that a single arm can stand for: both
/// reached with the same bindings and body and equally many values left
/// unmatched, or both unreached. Two unreached leaves always go together:
/// what they left unmatched is not held against each other, and the one
/// that stands for both lists what the left one left and then what the
/// right one left.
pub open spec fn shares_tail(left: Tree, right: Tree) -> bool {
    match (left, right) {
        (
            Tree::End(Tail::Reached(ltable, lexcess, ltail)),
            Tree::End(Tail::Reached(rtable, rexcess, rtail)),
        ) => { ltable == rtable && ltail == rtail && lexcess.len() == rexcess.len() },
        (Tree::End(Tail::Unreached(_)), Tree::End(Tail::Unreached(_))) => true,
        _ => false,
    }
}

/// The one subtree that stands for two that share their tail: the left one,
/// which for unreached leaves also takes over what the right one left
/// unmatched.
pub open spec fn joined(left: Tree, right: Tree) -> Tree {
    match (left, right) {
        (Tree::End(Tail::Unreached(lexcess)), Tree::End(Tail::Unreached(rexcess))) => Tree::End(
            Tail::Unreached(lexcess + rexcess),
        ),
        _ => left,
    }
}

/// Arms `i - 1` and `i` as one arm that ends where arm `i` ended.
pub open spec fn join_arms(arms: Arms, i: int) -> Arms {
    let (lrange, left) = arms[i - 1];
    let (rrange, right) = arms[i];
    let range = Range { con: lrange.con, start: lrange.start, end: rrange.end };
    arms.update(i - 1, (range, joined(left, right))).remove(i)
}

/// The arms after neighbours that share their tail were joined, from the
/// pair `(i - 1, i)` on.
pub open spec fn coalesce(arms: Arms, i: int) -> Arms
    decreases arms.len() - i,
{
    if i < 1 || i >= arms.len() {
        arms
    } else if shares_tail(arms[i - 1].1, arms[i].1) {
        coalesce(join_arms(arms, i), i)
    } else {
        coalesce(arms, i + 1)
    }
}

/// What is to be done with a pair of neighbours.
enum Edge {
    /// They do not share their tail: both stay.
    Keep,
    /// Both reached, with the same bindings, body and count of unmatched values.
    JoinReached,
    /// Both unreached.
    JoinUnreached,
}

fn edge_between(left: &DecTree, right: &DecTree) -> (r: Edge)
    ensures
        r is Keep <==> !shares_tail(left@, right@),
        r is JoinReached <==> shares_tail(left@, right@) && left@ matches Tree::End(
            Tail::Reached(..),
        ),
        r is JoinUnreached <==> shares_tail(left@, right@) && left@ matches Tree::End(
            Tail::Unreached(_),
        ),
{
    match (left, right) {
        (DecTree::End(left), DecTree::End(right)) => match (left, right) {
            (
                TreeTail::Reached(ltable, lexcess, ltail),
                TreeTail::Reached(rtable, rexcess, rtail),
            ) => {
                if ltable.same(rtable) && ltail.0 == rtail.0 && lexcess.len() == rexcess.len() {
                    Edge::JoinReached
                } else {
                    Edge::Keep
                }
            },
            (TreeTail::Unreached(_), TreeTail::Unreached(_)) => Edge::JoinUnreached,
            _ => Edge::Keep,
        },
        _ => Edge::Keep,
    }
}

/// Joins arm `i` into arm `i - 1`.
fn join_at(ints: &mut Branching<Range>, i: usize)
    requires
        1 <= i < old(ints).branches.len(),
        shares_tail(old(ints)@[i - 1].1, old(ints)@[i as int].1),
    ensures
        final(ints)@ == join_arms(old(ints)@, i as int),
{
    let ghost pre = ints.branches;
    let removed = ints.branches.remove(i);
    let ghost mid = ints.branches;
    let arm = &mut ints.branches[i - 1];
    arm.0.end = removed.0.end;
    if let DecTree::End(TreeTail::Unreached(mut rexcess)) = removed.1 {
        if let DecTree::End(TreeTail::Unreached(lexcess)) = &mut arm.1 {
            lexcess.append(&mut rexcess);
        }
    }
    proof {
        assert(mid@ == pre@.remove(i as int));
        assert(ints@ =~= join_arms(old(ints)@, i as int));
    }
}

impl Merger {
    /// Joins neighbouring arms whose subtrees are leaves with the same tail,
    /// wherever they stand among the arms, so that one arm stands for each
    /// run of them.
    pub fn cleanup_edges_if_at_end(ints: &mut Branching<Range>)
        ensures
            final(ints)@ == coalesce(old(ints)@, 1),
    {
        let mut i: usize = 1;
        while i < ints.branches.len()
            invariant
                1 <= i,
                coalesce(ints@, i as int) == coalesce(old(ints)@, 1),
            decreases ints.branches.len() - i,
        {
            match edge_between(&ints.branches[i - 1].1, &ints.branches[i].1) {
                Edge::Keep => {
                    i += 1;
                },
                Edge::JoinReached => {
                    proof {
                        lemma_join_places(ints@, i as int);
                    }
                    join_at(ints, i);
                },
                Edge::JoinUnreached => {
                    proof {
                        lemma_join_places(ints@, i as int);
                    }
                    join_at(ints, i);
                },
            }
        }
    }
}

/// Each arm ends right before the next one starts.
pub open spec fn contiguous(arms: Arms) -> bool {
    forall|k: int| 0 <= k < arms.len() - 1 ==> (#[trigger] arms[k]).0.end + 1 == arms[k + 1].0.start
}

proof fn lemma_split_left_covers(arms: Arms, i: int, start: int)
    requires
        0 <= i < arms.len(),
        arms[i].0.start < start <= arms[i].0.end,
    ensures
        forall|n: int| covered(split_left(arms, i, start), n) <==> covered(arms, n),
        contiguous(arms) ==> contiguous(split_left(arms, i, start)),
{
    let out = split_left(arms, i, start);
    lemma_split_left_places(arms, i, start);
    assert forall|n: int| covered(out, n) <==> covered(arms, n) by {
        if covered(arms, n) {
            let w = choose|w: int| 0 <= w < arms.len() && (#[trigger] arms[w]).0.contains(n);
            let v = if w < i || (w == i && n < start) { w } else { w + 1 };
            assert(0 <= v < out.len() && out[v].0.contains(n));
        }
        if covered(out, n) {
            let v = choose|v: int| 0 <= v < out.len() && (#[trigger] out[v]).0.contains(n);
            let w = if v <= i { v } else { v - 1 };
            assert(0 <= w < arms.len() && arms[w].0.contains(n));
        }
    }
    if contiguous(arms) {
        assert forall|k: int| 0 <= k < out.len() - 1 implies (#[trigger] out[k]).0.end + 1 == out[k
            + 1].0.start by {
            if k < i {
                assert(arms[k].0.end + 1 == arms[k + 1].0.start);
            } else if k > i {
                assert(arms[k - 1].0.end + 1 == arms[k].0.start);
            }
        }
    }
}

proof fn lemma_split_right_covers(arms: Arms, i: int, end: int)
    requires
        0 <= i < arms.len(),
        arms[i].0.start <= end < arms[i].0.end,
    ensures
        forall|n: int| covered(split_right(arms, i, end), n) <==> covered(arms, n),
        contiguous(arms) ==> contiguous(split_right(arms, i, end)),
{
    let out = split_right(arms, i, end);
    lemma_split_right_places(arms, i, end);
    assert forall|n: int| covered(out, n) <==> covered(arms, n) by {
        if covered(arms, n) {
            let w = choose|w: int| 0 <= w < arms.len() && (#[trigger] arms[w]).0.contains(n);
            let v = if w < i || (w == i && n <= end) { w } else { w + 1 };
            assert(0 <= v < out.len() && out[v].0.contains(n));
        }
        if covered(out, n) {
            let v = choose|v: int| 0 <= v < out.len() && (#[trigger] out[v]).0.contains(n);
            let w = if v <= i { v } else { v - 1 };
            assert(0 <= w < arms.len() && arms[w].0.contains(n));
        }
    }
    if contiguous(arms) {
        assert forall|k: int| 0 <= k < out.len() - 1 implies (#[trigger] out[k]).0.end + 1 == out[k
            + 1].0.start by {
            if k < i {
                assert(arms[k].0.end + 1 == arms[k + 1].0.start);
            } else if k > i {
                assert(arms[k - 1].0.end + 1 == arms[k].0.start);
            }
        }
    }
}

/// Arms with the same intervals are sorted, contiguous and covering alike.
proof fn lemma_same_ranges(a: Arms, b: Arms)
    requires
        a.len() == b.len(),
        forall|k: int| 0 <= k < a.len() ==> (#[trigger] a[k]).0 == b[k].0,
    ensures
        sorted(a) ==> sorted(b),
        contiguous(a) ==> contiguous(b),
        forall|n: int| covered(a, n) <==> covered(b, n),
{
    if sorted(a) {
        assert forall|j: int, k: int| 0 <= j < k < b.len() implies (#[trigger] b[j]).0.end < (
        #[trigger] b[k]).0.start by {
            assert(a[j].0.end < a[k].0.start);
        }
        assert forall|k: int| 0 <= k < b.len() implies (#[trigger] b[k]).0.start <= b[k].0.end by {
            assert(a[k].0.start <= a[k].0.end);
        }
    }
    if contiguous(a) {
        assert forall|k: int| 0 <= k < b.len() - 1 implies (#[trigger] b[k]).0.end + 1 == b[k
            + 1].0.start by {
            assert(a[k].0.end + 1 == a[k + 1].0.start);
        }
    }
    assert forall|n: int| covered(a, n) <==> covered(b, n) by {
        if covered(a, n) {
            let w = choose|w: int| 0 <= w < a.len() && (#[trigger] a[w]).0.contains(n);
            assert(b[w].0.contains(n));
        }
        if covered(b, n) {
            let w = choose|w: int| 0 <= w < b.len() && (#[trigger] b[w]).0.contains(n);
            assert(a[w].0.contains(n));
        }
    }
}

/// Merging an interval keeps the arms sorted and changes nothing in what
/// they hold: the arms are only cut, never widened or dropped.
pub proof fn lemma_merge_at_sorted(arms: Arms, i: int, start: int, end: int, row: Row)
    requires
        mergeable(arms, i, start, end),
    ensures
        sorted(merge_at(arms, i, start, end, row)),
        forall|n: int| covered(merge_at(arms, i, start, end, row), n) <==> covered(arms, n),
        contiguous(arms) ==> contiguous(merge_at(arms, i, start, end, row)),
    decreases arms.len() - i,
{
    lemma_mergeable_skip(arms, i, start, end);
    if end < arms[i].0.start || start > arms[i].0.end {
        lemma_merge_at_sorted(arms, i + 1, start, end, row);
    } else {
        let cut = start > arms[i].0.start;
        let lefted = if cut { split_left(arms, i, start) } else { arms };
        let k = if cut { i + 1 } else { i };
        if cut {
            lemma_split_left_places(arms, i, start);
            lemma_split_left_sorted(arms, i, start);
            lemma_split_left_covers(arms, i, start);
        }
        let here = lefted[k].0;
        let rest = if end < here.end {
            split_right(lefted, k, end)
        } else if end > here.end {
            merge_at(lefted, k + 1, here.end + 1, end, row)
        } else {
            lefted
        };
        if end < here.end {
            lemma_split_right_places(lefted, k, end);
            lemma_split_right_sorted(lefted, k, end);
            lemma_split_right_covers(lefted, k, end);
        } else if end > here.end {
            lemma_mergeable_further(arms, i, start, end);
            lemma_merge_at_sorted(lefted, k + 1, here.end + 1, end, row);
            lemma_merge_at_prefix(lefted, k + 1, here.end + 1, end, row);
        }
        let out = rest.update(k, (rest[k].0, install(rest[k].1, row)));
        lemma_same_ranges(rest, out);
        assert forall|n: int| covered(out, n) <==> covered(arms, n) by {
            assert(covered(out, n) <==> covered(rest, n));
            assert(covered(rest, n) <==> covered(lefted, n));
            assert(covered(lefted, n) <==> covered(arms, n));
        }
    }
}

/// Where each arm is after two neighbours were joined.
proof fn lemma_join_places(arms: Arms, i: int)
    requires
        1 <= i < arms.len(),
    ensures
        join_arms(arms, i).len() == arms.len() - 1,
        forall|j: int| 0 <= j < i - 1 ==> join_arms(arms, i)[j] == arms[j],
        forall|j: int| i <= j < arms.len() - 1 ==> join_arms(arms, i)[j] == arms[j + 1],
        join_arms(arms, i)[i - 1] == (
            Range { con: arms[i - 1].0.con, start: arms[i - 1].0.start, end: arms[i].0.end },
            joined(arms[i - 1].1, arms[i].1),
        ),
{
}

/// Joining two neighbours keeps the arms sorted.
proof fn lemma_join_sorted(arms: Arms, i: int)
    requires
        sorted(arms),
        1 <= i < arms.len(),
    ensures
        sorted(join_arms(arms, i)),
{
    let out = join_arms(arms, i);
    lemma_join_places(arms, i);
    assert forall|j: int, k: int| 0 <= j < k < out.len() implies (#[trigger] out[j]).0.end < (
    #[trigger] out[k]).0.start by {
        let oj = if j < i { j } else { j + 1 };
        let ok = if k < i { k } else { k + 1 };
        if j == i - 1 {
            assert(arms[i].0.end < arms[ok].0.start);
        } else {
            assert(arms[oj].0.end < arms[ok].0.start);
        }
    }
    assert forall|k: int| 0 <= k < out.len() implies (#[trigger] out[k]).0.start <= out[k].0.end by {
        let ok = if k < i { k } else { k + 1 };
        assert(arms[ok].0.start <= arms[ok].0.end);
        assert(arms[i - 1].0.end < arms[i].0.start);
        assert(arms[i].0.start <= arms[i].0.end);
    }
}

/// Joining two neighbours drops nothing that the arms held.
proof fn lemma_join_covers(arms: Arms, i: int)
    requires
        sorted(arms),
        1 <= i < arms.len(),
    ensures
        forall|n: int| covered(arms, n) ==> covered(join_arms(arms, i), n),
{
    let out = join_arms(arms, i);
    lemma_join_places(arms, i);
    assert forall|n: int| covered(arms, n) implies covered(out, n) by {
        let w = choose|w: int| 0 <= w < arms.len() && (#[trigger] arms[w]).0.contains(n);
        let v = if w < i { w } else { w - 1 };
        assert(arms[i - 1].0.end < arms[i].0.start);
        assert(arms[i].0.start <= arms[i].0.end);
        assert(arms[i - 1].0.start <= arms[i - 1].0.end);
        assert(0 <= v < out.len() && out[v].0.contains(n));
    }
}

/// Joining two neighbours of which the first ends right before the second
/// adds nothing to what the arms held, and leaves each arm ending right
/// before the next.
proof fn lemma_join_contiguous(arms: Arms, i: int)
    requires
        contiguous(arms),
        1 <= i < arms.len(),
    ensures
        contiguous(join_arms(arms, i)),
        forall|n: int| covered(join_arms(arms, i), n) ==> covered(arms, n),
{
    let out = join_arms(arms, i);
    lemma_join_places(arms, i);
    assert forall|k: int| 0 <= k < out.len() - 1 implies (#[trigger] out[k]).0.end + 1 == out[k
        + 1].0.start by {
        if k < i - 1 {
            assert(arms[k].0.end + 1 == arms[k + 1].0.start);
        } else {
            assert(arms[k + 1].0.end + 1 == arms[k + 2].0.start);
        }
    }
    assert forall|n: int| covered(out, n) implies covered(arms, n) by {
        let v = choose|v: int| 0 <= v < out.len() && (#[trigger] out[v]).0.contains(n);
        assert(arms[i - 1].0.end + 1 == arms[i].0.start);
        if v == i - 1 {
            if n <= arms[i - 1].0.end {
                assert(arms[i - 1].0.contains(n));
            } else {
                assert(arms[i].0.contains(n));
            }
        } else {
            let w = if v < i { v } else { v + 1 };
            assert(0 <= w < arms.len() && arms[w].0.contains(n));
        }
    }
}

/// Joining neighbours keeps the arms sorted and drops nothing that they
/// held; where each arm ends right before the next, it adds nothing either.
pub proof fn lemma_coalesce_sorted(arms: Arms, i: int)
    requires
        sorted(arms),
        1 <= i,
    ensures
        sorted(coalesce(arms, i)),
        forall|n: int| covered(arms, n) ==> covered(coalesce(arms, i), n),
        contiguous(arms) ==> contiguous(coalesce(arms, i)) && forall|n: int|
            covered(coalesce(arms, i), n) ==> covered(arms, n),
    decreases arms.len() - i,
{
    if i >= arms.len() {
    } else if shares_tail(arms[i - 1].1, arms[i].1) {
        let out = join_arms(arms, i);
        lemma_join_places(arms, i);
        lemma_join_sorted(arms, i);
        lemma_join_covers(arms, i);
        lemma_coalesce_sorted(out, i);
        if contiguous(arms) {
            lemma_join_contiguous(arms, i);
        }
    } else {
        lemma_coalesce_sorted(arms, i + 1);
    }
}

/// Whether no two neighbours before index `i` share their tail.
pub open spec fn joined_before(arms: Arms, i: int) -> bool {
    forall|k: int|
        1 <= k < i && k < arms.len() ==> !shares_tail(arms[k - 1].1, (#[trigger] arms[k]).1)
}

/// Whether no two neighbours share their tail.
pub open spec fn joined_up(arms: Arms) -> bool {
    forall|k: int| 1 <= k < arms.len() ==> !shares_tail(arms[k - 1].1, (#[trigger] arms[k]).1)
}

/// Adjacent arms that share their tail end up as one arm: once neighbours
/// are joined, no two neighbours share their tail.
pub proof fn lemma_coalesce_joins(arms: Arms, i: int)
    requires
        1 <= i,
        joined_before(arms, i),
    ensures
        joined_up(coalesce(arms, i)),
    decreases arms.len() - i,
{
    let out = coalesce(arms, i);
    if i >= arms.len() {
        assert forall|k: int| 1 <= k < out.len() implies !shares_tail(
            out[k - 1].1,
            (#[trigger] out[k]).1,
        ) by {
            assert(1 <= k < i && k < arms.len());
        }
    } else if shares_tail(arms[i - 1].1, arms[i].1) {
        let next = join_arms(arms, i);
        lemma_join_places(arms, i);
        assert forall|k: int| 1 <= k < i && k < next.len() implies !shares_tail(
            next[k - 1].1,
            (#[trigger] next[k]).1,
        ) by {
            assert(!shares_tail(arms[k - 1].1, arms[k].1));
        }
        lemma_coalesce_joins(next, i);
    } else {
        assert forall|k: int| 1 <= k < i + 1 && k < arms.len() implies !shares_tail(
            arms[k - 1].1,
            (#[trigger] arms[k]).1,
        ) by {
            if k < i {
                assert(!shares_tail(arms[k - 1].1, arms[k].1));
            }
        }
        lemma_coalesce_joins(arms, i + 1);
    }
}

/// One end of an interval as a pattern writes it.
#[derive(Clone, Copy, PartialEq, Eq, Structural, Debug)]
pub enum Bound {
    /// Left open: the limit of the type.
    Excess,
    /// A negative literal, by its magnitude.
    Neg(u128),
    /// A literal that is not negative.
    Pos(u128),
}

impl Bound {
    /// The value that the bound stands for, `limit` where it is left open.
    pub open spec fn value(self, limit: int) -> int {
        match self {
            Bound::Excess => limit,
            Bound::Neg(n) => -(n as int),
            Bound::Pos(n) => n as int,
        }
    }

    /// Whether the bound can be held in an `i128`.
    pub open spec fn fits(self) -> bool {
        match self {
            Bound::Excess => true,
            Bound::Neg(n) => n <= i128::MAX,
            Bound::Pos(n) => n <= i128::MAX,
        }
    }

    fn to_int(self, limit: i128) -> (r: i128)
        requires
            self.fits(),
        ensures
            r == self.value(limit as int),
    {
        match self {
            Bound::Excess => limit,
            Bound::Neg(n) => -(n as i128),
            Bound::Pos(n) => n as i128,
        }
    }
}

/// Whether every arm has the limits `con`.
pub open spec fn same_limits(arms: Arms, con: Constraints) -> bool {
    forall|k: int| 0 <= k < arms.len() ==> (#[trigger] arms[k]).0.con == con
}

impl Merger {
    /// Merges the interval `[start, end]` of a pattern row into the arms of
    /// an integer test and joins neighbouring leaves that then share their
    /// tail. Says whether the row found a leaf to take.
    pub fn merge_int(self, next: &mut Branching<Range>, start: i128, end: i128) -> (r:
        IsReachable)
        requires
            mergeable(old(next)@, 0, start as int, end as int),
        ensures
            final(next)@ == coalesce(
                merge_at(old(next)@, 0, start as int, end as int, self@),
                1,
            ),
            r == merge_reaches(old(next)@, 0, start as int, end as int),
            sorted(final(next)@),
            joined_up(final(next)@),
            forall|n: int| covered(old(next)@, n) ==> covered(final(next)@, n),
            contiguous(old(next)@) ==> forall|n: int|
                covered(final(next)@, n) ==> covered(old(next)@, n),
    {
        let ghost merged = merge_at(next@, 0, start as int, end as int, self@);
        proof {
            lemma_merge_at_sorted(next@, 0, start as int, end as int, self@);
            lemma_coalesce_sorted(merged, 1);
            lemma_coalesce_joins(merged, 1);
        }
        let reachable = self.merge_int_at(0, next, start, end);
        Self::cleanup_edges_if_at_end(next);
        reachable
    }

    /// Merges an interval given by its two bounds, an open bound standing
    /// for the limit of the type. Where an arm was built for other limits
    /// the tree is poisoned: it is left alone and the row is reported as
    /// reaching, so that no warning follows the type error.
    pub fn merge_int_bounds(
        self,
        signed: bool,
        bitsize: Bitsize,
        next: &mut Branching<Range>,
        bounds: &[Bound; 2],
    ) -> (r: IsReachable)
        requires
            signed ==> 1 <= bitsize.0 <= 127,
            !signed ==> bitsize.0 <= 126,
            ({
                let (min, max) = limits(signed, bitsize.0 as nat);
                same_limits(old(next)@, limits_of(signed, bitsize)) ==> bounds[0].fits()
                    && bounds[1].fits() && mergeable(
                    old(next)@,
                    0,
                    bounds[0].value(min),
                    bounds[1].value(max),
                )
            }),
        ensures
            ({
                let (min, max) = limits(signed, bitsize.0 as nat);
                if same_limits(old(next)@, limits_of(signed, bitsize)) {
                    &&& final(next)@ == coalesce(
                        merge_at(old(next)@, 0, bounds[0].value(min), bounds[1].value(max), self@),
                        1,
                    )
                    &&& r == merge_reaches(old(next)@, 0, bounds[0].value(min), bounds[1].value(max))
                } else {
                    &&& final(next)@ == old(next)@
                    &&& r
                }
            }),
    {
        let con = constraints_from_bitsize(signed, bitsize);
        let mut i: usize = 0;
        while i < next.branches.len()
            invariant
                i <= next.branches.len(),
                *next == *old(next),
                con == limits_of(signed, bitsize),
                forall|k: int| 0 <= k < i ==> (#[trigger] next@[k]).0.con == con,
            decreases next.branches.len() - i,
        {
            let range = next.branches[i].0;
            if !(range.con.min == con.min && range.con.max == con.max) {
                assert(next@[i as int].0.con != con);
                return true;
            }
            i += 1;
        }
        let start = bounds[0].to_int(con.min);
        let end = bounds[1].to_int(con.max);
        self.merge_int(next, start, end)
    }
}

} // verus!
