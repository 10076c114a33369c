//! Stable sorting of positions.
//!
//! Positions are put in order by one coordinate first and by the other
//! among positions that agree in the first. Positions that agree in both
//! keep the order in which they came.

use crate::geometry::Position;
use vstd::prelude::*;

verus! {

/// The pair of ranks by which a position is ordered: the rank of the first
/// coordinate and then that of the second, or the other way round.
pub open spec fn key(position: Position, by_x: bool) -> (int, int) {
    if by_x {
        (position.0.rank(), position.1.rank())
    } else {
        (position.1.rank(), position.0.rank())
    }
}

/// One pair comes before another: it is less in the first place, or equal
/// there and less in the second.
pub open spec fn key_less(left: (int, int), right: (int, int)) -> bool {
    left.0 < right.0 || (left.0 == right.0 && left.1 < right.1)
}

/// Both coordinates of every position are numbers.
pub open spec fn all_numbers(positions: Seq<Position>) -> bool {
    forall|i: int|
        0 <= i < positions.len() ==> !(#[trigger] positions[i]).0.nan() && !positions[i].1.nan()
}

/// `order` lists each of the first `count` indices once.
pub open spec fn lists_each(order: Seq<usize>, count: int) -> bool {
    &&& order.len() == count
    &&& forall|k: int| 0 <= k < order.len() ==> (#[trigger] order[k]) < count
    &&& forall|a: int, b: int| 0 <= a < b < order.len() ==> #[trigger] order[a] != #[trigger] order[b]
    &&& forall|m: usize| m < count ==> #[trigger] order.contains(m)
}

/// Taken in the order of `order`, no position comes before an earlier one,
/// and positions with the same key come in the order of their indices.
pub open spec fn in_order(order: Seq<usize>, positions: Seq<Position>, by_x: bool) -> bool {
    forall|a: int, b: int|
        0 <= a < b < order.len() ==> !key_less(
            key(positions[(#[trigger] order[b]) as int], by_x),
            key(positions[(#[trigger] order[a]) as int], by_x),
        ) && (key(positions[order[a] as int], by_x) == key(positions[order[b] as int], by_x)
            ==> order[a] < order[b])
}

/// Whether one position comes before another.
pub fn comes_before(left: Position, right: Position, by_x: bool) -> (before: bool)
    ensures
        !left.0.nan() && !left.1.nan() && !right.0.nan() && !right.1.nan() ==> before == key_less(
            key(left, by_x),
            key(right, by_x),
        ),
{
    if by_x {
        left.0.is_less(right.0) || (left.0.is_same(right.0) && left.1.is_less(right.1))
    } else {
        left.1.is_less(right.1) || (left.1.is_same(right.1) && left.0.is_less(right.0))
    }
}

/// The indices of the positions, in the order in which a stable sort by
/// their keys puts the positions. Where a coordinate is not a number the
/// result still lists each index once.
pub fn sorted_order(positions: &Vec<Position>, by_x: bool) -> (order: Vec<usize>)
    ensures
        lists_each(order@, positions@.len() as int),
        all_numbers(positions@) ==> in_order(order@, positions@, by_x),
{
    let mut order: Vec<usize> = Vec::new();
    let mut current: usize = 0;
    let length = positions.len();
    while current < length
        invariant
            current <= length,
            length == positions@.len(),
            lists_each(order@, current as int),
            all_numbers(positions@) ==> in_order(order@, positions@, by_x),
        decreases length - current,
    {
        let mut at: usize = 0;
        let taken = order.len();
        while at < taken && !comes_before(positions[current], positions[order[at]], by_x)
            invariant
                at <= taken,
                taken == order@.len(),
                current < length,
                length == positions@.len(),
                lists_each(order@, current as int),
                all_numbers(positions@) ==> forall|k: int|
                    0 <= k < at ==> !key_less(
                        key(positions@[current as int], by_x),
                        key(positions@[(#[trigger] order@[k]) as int], by_x),
                    ),
            decreases taken - at,
        {
            at += 1;
        }
        let ghost before = order@;
        order.insert(at, current);
        proof {
            let after = order@;
            assert forall|k: int| 0 <= k < after.len() implies (#[trigger] after[k]) < current
                + 1 by {
                if k < at {
                    assert(after[k] == before[k]);
                } else if k > at {
                    assert(after[k] == before[k - 1]);
                }
            }
            assert forall|a: int, b: int| 0 <= a < b < after.len() implies #[trigger] after[a]
                != #[trigger] after[b] by {
                if a != at && b != at {
                    let x = if a < at {
                        a
                    } else {
                        a - 1
                    };
                    let y = if b < at {
                        b
                    } else {
                        b - 1
                    };
                    assert(after[a] == before[x]);
                    assert(after[b] == before[y]);
                } else if a == at {
                    assert(after[b] == before[b - 1]);
                } else {
                    assert(after[a] == before[a]);
                }
            }
            assert forall|m: usize| m < current + 1 implies #[trigger] after.contains(m) by {
                if m < current {
                    assert(before.contains(m));
                    let k = choose|k: int| 0 <= k < before.len() && before[k] == m;
                    if k < at {
                        assert(after[k] == before[k]);
                    } else {
                        assert(after[k + 1] == before[k]);
                    }
                } else {
                    assert(after[at as int] == current);
                }
            }
            if all_numbers(positions@) {
                assert forall|a: int, b: int| 0 <= a < b < after.len() implies !key_less(
                    key(positions@[(#[trigger] after[b]) as int], by_x),
                    key(positions@[(#[trigger] after[a]) as int], by_x),
                ) && (key(positions@[after[a] as int], by_x) == key(
                    positions@[after[b] as int],
                    by_x,
                ) ==> after[a] < after[b]) by {
                    let x = if a < at {
                        a
                    } else {
                        a - 1
                    };
                    let y = if b < at {
                        b
                    } else {
                        b - 1
                    };
                    if a != at && b != at {
                        assert(after[a] == before[x]);
                        assert(after[b] == before[y]);
                    } else if a == at {
                        assert(after[b] == before[b - 1]);
                        assert(after[a] == current);
                        if at < before.len() {
                            assert(key_less(
                                key(positions@[current as int], by_x),
                                key(positions@[before[at as int] as int], by_x),
                            ));
                            if b - 1 > at {
                                assert(!key_less(
                                    key(positions@[before[b - 1] as int], by_x),
                                    key(positions@[before[at as int] as int], by_x),
                                ));
                            }
                        }
                    } else {
                        assert(after[a] == before[a]);
                        assert(after[b] == current);
                        assert(before[a] < current);
                    }
                }
            }
        }
        current += 1;
    }
    order
}

} // verus!
