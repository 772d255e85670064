use lumina_compiler::key::{Bind, DecisionTreeTail};
use lumina_compiler::merge::Merger;
use lumina_compiler::range::{constraints_from_bitsize, Bound, Constraints, Notation, Range};
use lumina_compiler::tree::{Branching, DecTree, PointTable, TreeTail};
use lumina_compiler::types::Bitsize;

fn open_leaf() -> DecTree {
    DecTree::End(TreeTail::Unreached(vec![]))
}

fn taken_leaf(tail: u32) -> DecTree {
    DecTree::End(TreeTail::Reached(PointTable::new(vec![]), vec![], DecisionTreeTail(tail)))
}

fn ranges(arms: &Branching<Range>) -> Vec<(i128, i128)> {
    arms.branches.iter().map(|(range, _)| (range.start, range.end)).collect()
}

fn tail_of(tree: &DecTree) -> Option<u32> {
    match tree {
        DecTree::End(TreeTail::Reached(_, _, tail)) => Some(tail.0),
        _ => None,
    }
}

fn tails(arms: &Branching<Range>) -> Vec<Option<u32>> {
    arms.branches.iter().map(|(_, tree)| tail_of(tree)).collect()
}

fn byte_arms() -> (Constraints, Branching<Range>) {
    let con = constraints_from_bitsize(false, Bitsize(8));
    (con, Branching { branches: vec![(con.to_range(), open_leaf())] })
}

#[test]
fn constraints() {
    let cons = constraints_from_bitsize(true, Bitsize(64));
    assert_eq!(cons.max, i64::MAX as i128);
    assert_eq!(cons.min, i64::MIN as i128);

    let cons = constraints_from_bitsize(false, Bitsize(64));
    assert_eq!(cons.max, u64::MAX as i128);
    assert_eq!(cons.min, u64::MIN as i128);
}

#[test]
fn constraints_of_narrow_widths() {
    let cons = constraints_from_bitsize(true, Bitsize(8));
    assert_eq!((cons.min, cons.max), (-128, 127));
    let cons = constraints_from_bitsize(false, Bitsize(8));
    assert_eq!((cons.min, cons.max), (0, 255));
    let cons = constraints_from_bitsize(true, Bitsize(1));
    assert_eq!((cons.min, cons.max), (-1, 0));
    let cons = constraints_from_bitsize(false, Bitsize(0));
    assert_eq!((cons.min, cons.max), (0, 0));
    let cons = constraints_from_bitsize(true, Bitsize(127));
    assert_eq!(cons.max, i128::MAX / 2);
    assert_eq!(cons.min, i128::MIN / 2);
}

#[test]
fn range_full_and_is_full() {
    let con = Constraints { min: -128, max: 127 };
    let whole = con.to_range();
    assert_eq!(whole, Range { con, start: -128, end: 127 });
    assert!(whole.is_full());
    let top = Range::new(con, 3, 9).full();
    assert_eq!(top, Range { con, start: 127, end: 127 });
    assert!(!top.is_full());
    assert!(!Range::new(con, -128, 126).is_full());
    assert!(!Range::new(con, -127, 127).is_full());
}

#[test]
fn merge_in_the_middle_cuts_on_both_sides() {
    let (_, mut arms) = byte_arms();
    let row = Merger::new(PointTable::new(vec![]), DecisionTreeTail(0));
    let reachable = row.merge_int(&mut arms, 10, 20);
    assert!(reachable);
    assert_eq!(ranges(&arms), vec![(0, 9), (10, 20), (21, 255)]);
    assert_eq!(tails(&arms), vec![None, Some(0), None]);
}

#[test]
fn merge_at_the_left_edge_cuts_on_the_right_only() {
    let (_, mut arms) = byte_arms();
    let row = Merger::new(PointTable::new(vec![]), DecisionTreeTail(3));
    assert!(row.merge_int(&mut arms, 0, 9));
    assert_eq!(ranges(&arms), vec![(0, 9), (10, 255)]);
    assert_eq!(tails(&arms), vec![Some(3), None]);
}

#[test]
fn merge_of_the_whole_range_takes_the_one_arm() {
    let (_, mut arms) = byte_arms();
    let row = Merger::new(PointTable::new(vec![]), DecisionTreeTail(1));
    assert!(row.merge_int(&mut arms, 0, 255));
    assert_eq!(ranges(&arms), vec![(0, 255)]);
    assert_eq!(tails(&arms), vec![Some(1)]);
}

#[test]
fn merge_over_several_arms_goes_on_in_each() {
    let (con, _) = byte_arms();
    let mut arms = Branching {
        branches: vec![
            (Range::new(con, 0, 9), taken_leaf(0)),
            (Range::new(con, 10, 19), open_leaf()),
            (Range::new(con, 20, 255), open_leaf()),
        ],
    };
    let row = Merger::new(PointTable::new(vec![]), DecisionTreeTail(1));
    let reachable = row.merge_int(&mut arms, 5, 25);
    assert!(reachable);
    // [0,4] keeps the body it had; [5,9] had a body already; [10,19]
    // and [20,25] take the new body and end up as one arm
    assert_eq!(ranges(&arms), vec![(0, 9), (10, 25), (26, 255)]);
    assert_eq!(tails(&arms), vec![Some(0), Some(1), None]);
}

#[test]
fn merge_into_taken_arms_reaches_nothing() {
    let (con, _) = byte_arms();
    let mut arms = Branching { branches: vec![(Range::new(con, 0, 255), taken_leaf(0))] };
    let row = Merger::new(PointTable::new(vec![]), DecisionTreeTail(1));
    let reachable = row.merge_int(&mut arms, 3, 4);
    assert!(!reachable);
    // the cuts are made and joined again: the tails are the same
    assert_eq!(ranges(&arms), vec![(0, 255)]);
    assert_eq!(tails(&arms), vec![Some(0)]);
}

#[test]
fn cleanup_joins_unreached_neighbours_and_their_excess() {
    let (con, _) = byte_arms();
    let some = lumina_compiler::types::Type::Generic(0);
    let other = lumina_compiler::types::Type::Generic(1);
    let mut arms = Branching {
        branches: vec![
            (Range::new(con, 0, 9), DecTree::End(TreeTail::Unreached(vec![some]))),
            (Range::new(con, 10, 255), DecTree::End(TreeTail::Unreached(vec![other]))),
        ],
    };
    Merger::cleanup_edges_if_at_end(&mut arms);
    assert_eq!(ranges(&arms), vec![(0, 255)]);
    match &arms.branches[0].1 {
        DecTree::End(TreeTail::Unreached(excess)) => assert_eq!(excess, &vec![some, other]),
        other => panic!("not an unreached leaf: {other:?}"),
    }
}

#[test]
fn cleanup_keeps_reached_neighbours_with_other_bindings() {
    let (con, _) = byte_arms();
    let one = PointTable::new(vec![(Bind(0), 0)]);
    let two = PointTable::new(vec![(Bind(0), 1)]);
    let mut arms = Branching {
        branches: vec![
            (Range::new(con, 0, 9), DecTree::End(TreeTail::Reached(one, vec![], DecisionTreeTail(0)))),
            (
                Range::new(con, 10, 255),
                DecTree::End(TreeTail::Reached(two, vec![], DecisionTreeTail(0))),
            ),
        ],
    };
    Merger::cleanup_edges_if_at_end(&mut arms);
    assert_eq!(ranges(&arms), vec![(0, 9), (10, 255)]);
}

#[test]
fn cleanup_joins_leaves_behind_an_arm_that_is_no_leaf() {
    let (con, _) = byte_arms();
    let mut arms = Branching {
        branches: vec![
            (Range::new(con, 0, 9), DecTree::Wildcard { next: Box::new(open_leaf()) }),
            (Range::new(con, 10, 19), open_leaf()),
            (Range::new(con, 20, 255), open_leaf()),
        ],
    };
    Merger::cleanup_edges_if_at_end(&mut arms);
    assert_eq!(ranges(&arms), vec![(0, 9), (10, 255)]);
    assert!(matches!(arms.branches[0].1, DecTree::Wildcard { .. }));
    assert!(matches!(arms.branches[1].1, DecTree::End(TreeTail::Unreached(_))));
}

#[test]
fn cleanup_joins_reached_leaves_on_both_sides_of_an_arm_that_is_no_leaf() {
    let (con, _) = byte_arms();
    let mut arms = Branching {
        branches: vec![
            (Range::new(con, 0, 4), taken_leaf(3)),
            (Range::new(con, 5, 9), taken_leaf(3)),
            (Range::new(con, 10, 19), DecTree::Wildcard { next: Box::new(taken_leaf(3)) }),
            (Range::new(con, 20, 29), taken_leaf(3)),
            (Range::new(con, 30, 99), taken_leaf(3)),
            (Range::new(con, 100, 255), taken_leaf(4)),
        ],
    };
    Merger::cleanup_edges_if_at_end(&mut arms);
    assert_eq!(ranges(&arms), vec![(0, 9), (10, 19), (20, 99), (100, 255)]);
    assert_eq!(tails(&arms), vec![Some(3), None, Some(3), Some(4)]);
}

#[test]
fn merge_by_bounds_with_open_ends() {
    let (_, mut arms) = byte_arms();
    let row = Merger::new(PointTable::new(vec![]), DecisionTreeTail(0));
    let reachable = row.merge_int_bounds(false, Bitsize(8), &mut arms, &[Bound::Excess, Bound::Pos(9)]);
    assert!(reachable);
    assert_eq!(ranges(&arms), vec![(0, 9), (10, 255)]);

    let row = Merger::new(PointTable::new(vec![]), DecisionTreeTail(1));
    let reachable =
        row.merge_int_bounds(false, Bitsize(8), &mut arms, &[Bound::Pos(200), Bound::Excess]);
    assert!(reachable);
    assert_eq!(ranges(&arms), vec![(0, 9), (10, 199), (200, 255)]);
    assert_eq!(tails(&arms), vec![Some(0), None, Some(1)]);
}

#[test]
fn merge_by_bounds_with_a_negative_bound() {
    let con = constraints_from_bitsize(true, Bitsize(8));
    let mut arms = Branching { branches: vec![(con.to_range(), open_leaf())] };
    let row = Merger::new(PointTable::new(vec![]), DecisionTreeTail(0));
    assert!(row.merge_int_bounds(true, Bitsize(8), &mut arms, &[Bound::Neg(5), Bound::Pos(5)]));
    assert_eq!(ranges(&arms), vec![(-128, -6), (-5, 5), (6, 127)]);
}

#[test]
fn merge_by_bounds_leaves_a_poisoned_tree_alone() {
    let other = constraints_from_bitsize(false, Bitsize(16));
    let mut arms = Branching { branches: vec![(other.to_range(), open_leaf())] };
    let row = Merger::new(PointTable::new(vec![]), DecisionTreeTail(0));
    let reachable =
        row.merge_int_bounds(false, Bitsize(8), &mut arms, &[Bound::Pos(1), Bound::Pos(2)]);
    assert!(reachable);
    assert_eq!(ranges(&arms), vec![(0, 65535)]);
    assert_eq!(tails(&arms), vec![None]);
    // the bounds are not read then, whatever they are
    let row = Merger::new(PointTable::new(vec![]), DecisionTreeTail(0));
    let wide = [Bound::Neg(u128::MAX), Bound::Pos(u128::MAX)];
    assert!(row.merge_int_bounds(false, Bitsize(8), &mut arms, &wide));
    assert_eq!(ranges(&arms), vec![(0, 65535)]);
}

#[test]
fn merger_installs_its_leaf_below_every_arm() {
    let (con, _) = byte_arms();
    let mut tree = DecTree::Wildcard {
        next: Box::new(DecTree::Bools(Branching {
            branches: vec![(true, open_leaf()), (false, taken_leaf(7))],
        })),
    };
    let row = Merger::new(PointTable::new(vec![(Bind(2), 1)]), DecisionTreeTail(4));
    assert!(row.next(&mut tree));
    match &tree {
        DecTree::Wildcard { next } => match &**next {
            DecTree::Bools(arms) => {
                assert_eq!(tail_of(&arms.branches[0].1), Some(4));
                assert_eq!(tail_of(&arms.branches[1].1), Some(7));
            }
            other => panic!("not a test on a boolean: {other:?}"),
        },
        other => panic!("not a wildcard: {other:?}"),
    }
    let again = Merger::new(PointTable::new(vec![]), DecisionTreeTail(5));
    assert!(!again.next(&mut tree));
    let _ = con;
}

#[test]
fn a_forked_merger_installs_the_same_leaf() {
    let row = Merger::new(PointTable::new(vec![(Bind(1), 0)]), DecisionTreeTail(2));
    let twin = row.fork();
    let mut one = open_leaf();
    let mut other = open_leaf();
    assert!(row.next(&mut one));
    assert!(twin.next(&mut other));
    assert_eq!(tail_of(&one), Some(2));
    assert_eq!(tail_of(&other), Some(2));
    match (&one, &other) {
        (
            DecTree::End(TreeTail::Reached(a, _, _)),
            DecTree::End(TreeTail::Reached(b, _, _)),
        ) => {
            assert!(a.same(b));
            assert_eq!(a.binds, vec![(Bind(1), 0)]);
        }
        _ => panic!("no reached leaves"),
    }
}

#[test]
fn a_copy_of_a_tree_is_the_same_tree() {
    let (con, _) = byte_arms();
    let tree = DecTree::Tuple {
        next: Box::new(DecTree::Ints {
            intsize: lumina_compiler::types::IntSize::new(false, 8),
            next: Branching {
                branches: vec![
                    (Range::new(con, 0, 9), taken_leaf(1)),
                    (Range::new(con, 10, 255), open_leaf()),
                ],
            },
        }),
    };
    let copy = tree.clone();
    match copy {
        DecTree::Tuple { next } => match *next {
            DecTree::Ints { next, .. } => {
                assert_eq!(ranges(&next), vec![(0, 9), (10, 255)]);
                assert_eq!(tails(&next), vec![Some(1), None]);
            }
            other => panic!("no test on an integer: {other:?}"),
        },
        other => panic!("no tuple: {other:?}"),
    }
}

#[test]
fn merge_at_the_right_edge_and_of_a_single_value() {
    let (_, mut arms) = byte_arms();
    let row = Merger::new(PointTable::new(vec![]), DecisionTreeTail(0));
    assert!(row.merge_int(&mut arms, 255, 255));
    assert_eq!(ranges(&arms), vec![(0, 254), (255, 255)]);
    let row = Merger::new(PointTable::new(vec![]), DecisionTreeTail(1));
    assert!(row.merge_int(&mut arms, 7, 7));
    assert_eq!(ranges(&arms), vec![(0, 6), (7, 7), (8, 254), (255, 255)]);
    assert_eq!(tails(&arms), vec![None, Some(1), None, Some(0)]);
    // what is merged next to an arm with the same tail is joined to it
    let row = Merger::new(PointTable::new(vec![]), DecisionTreeTail(1));
    assert!(row.merge_int(&mut arms, 8, 9));
    assert_eq!(ranges(&arms), vec![(0, 6), (7, 9), (10, 254), (255, 255)]);
}

#[test]
fn an_interval_is_written_without_the_ends_that_are_limits() {
    let con = constraints_from_bitsize(false, Bitsize(8));
    assert_eq!(Range::new(con, 3, 3).notation(), Notation::One(3));
    // a single value is written out even where it is a limit
    assert_eq!(Range::new(con, 0, 0).notation(), Notation::One(0));
    assert_eq!(Range::new(con, 255, 255).notation(), Notation::One(255));
    assert_eq!(Range::new(con, 3, 9).notation(), Notation::Span { start: Some(3), end: Some(9) });
    assert_eq!(Range::new(con, 0, 9).notation(), Notation::Span { start: None, end: Some(9) });
    assert_eq!(Range::new(con, 3, 255).notation(), Notation::Span { start: Some(3), end: None });
    assert_eq!(con.to_range().notation(), Notation::Span { start: None, end: None });
    let signed = constraints_from_bitsize(true, Bitsize(8));
    assert_eq!(
        Range::new(signed, -128, 0).notation(),
        Notation::Span { start: None, end: Some(0) }
    );
    assert_eq!(
        Range::new(signed, 0, 127).notation(),
        Notation::Span { start: Some(0), end: None }
    );
}
