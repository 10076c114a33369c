//! The geometry world.

use crate::geometry::scalar::Scalar;
use crate::graph::processor_component::Payload;
use crate::geometry::storage::ImmutableVector;
use crate::geometry::{
    Group, GroupHandle, GeometryWorldError, Point, PointHandle, Position, Shape, ShapeHandle,
};
use crate::handled_vec::data_vector::{DataField, DataIterator, HandleIterator};
use crate::handled_vec::handles::{Handle, MarkedHandle};
use crate::handled_vec::{occupied_count, parts, Arena, HandledVec, HandledVecError, Lookup};
use std::marker::PhantomData;
use vstd::prelude::*;

verus! {

/// The handle of the slot at an index, under a generation.
pub open spec fn handle_at<T>(index: int, generation: usize) -> MarkedHandle<T> {
    MarkedHandle { index: index as usize, generation, _marker: PhantomData }
}

pub proof fn lemma_push_contains<A>(s: Seq<A>, pushed: A)
    ensures
        s.push(pushed).contains(pushed),
        forall|x: A| s.contains(x) ==> #[trigger] s.push(pushed).contains(x),
{
    assert(s.push(pushed)[s.len() as int] == pushed);
    assert forall|x: A| s.contains(x) implies #[trigger] s.push(pushed).contains(x) by {
        let k = choose|k: int| 0 <= k < s.len() && s[k] == x;
        assert(s.push(pushed)[k] == x);
    }
}

/// The handles among `handles` that find a point, in their order.
pub open spec fn found_points(points: Arena<Point>, handles: Seq<PointHandle>) -> Seq<PointHandle>
    decreases handles.len(),
{
    if handles.len() == 0 {
        Seq::empty()
    } else if points.contains(handles.last().index, handles.last().generation) {
        found_points(points, handles.drop_last()).push(handles.last())
    } else {
        found_points(points, handles.drop_last())
    }
}

/// How often a handle occurs among `handles`.
pub open spec fn occurrences(handles: Seq<PointHandle>, handle: PointHandle) -> nat
    decreases handles.len(),
{
    if handles.len() == 0 {
        0
    } else if handles.last() == handle {
        occurrences(handles.drop_last(), handle) + 1
    } else {
        occurrences(handles.drop_last(), handle)
    }
}

/// An item, `times` times.
pub open spec fn repeated<A>(item: A, times: nat) -> Seq<A> {
    Seq::new(times, |i: int| item)
}

/// `items` without every occurrence of `item`, the others in their order.
pub open spec fn removed<A>(items: Seq<A>, item: A) -> Seq<A>
    decreases items.len(),
{
    if items.len() == 0 {
        Seq::empty()
    } else if items.last() == item {
        removed(items.drop_last(), item)
    } else {
        removed(items.drop_last(), item).push(items.last())
    }
}

/// What is left after a removal is what was there and is not the item; where
/// the item was not there, nothing changes.
pub proof fn lemma_removed<A>(items: Seq<A>, item: A)
    ensures
        removed(items, item).len() <= items.len(),
        !removed(items, item).contains(item),
        forall|other: A|
            other != item && items.contains(other) ==> #[trigger] removed(items, item).contains(
                other,
            ),
        forall|k: int|
            0 <= k < removed(items, item).len() ==> items.contains(
                #[trigger] removed(items, item)[k],
            ),
        !items.contains(item) ==> removed(items, item) == items,
        removed(removed(items, item), item) == removed(items, item),
    decreases items.len(),
{
    if items.len() > 0 {
        let rest = items.drop_last();
        lemma_removed(rest, item);
        let left = removed(items, item);
        assert forall|other: A| other != item && items.contains(other) implies #[trigger] left.contains(
            other,
        ) by {
            let k = choose|k: int| 0 <= k < items.len() && items[k] == other;
            if k < rest.len() {
                assert(rest[k] == other);
                assert(rest.contains(other));
                if items.last() != item {
                    lemma_push_contains(removed(rest, item), items.last());
                }
            } else {
                lemma_push_contains(removed(rest, item), items.last());
            }
        }
        assert forall|k: int| 0 <= k < left.len() implies items.contains(#[trigger] left[k]) by {
            if k < removed(rest, item).len() {
                assert(rest.contains(removed(rest, item)[k]));
                let j = choose|j: int| 0 <= j < rest.len() && rest[j] == removed(rest, item)[k];
                assert(items[j] == left[k]);
            } else {
                assert(items[items.len() - 1] == left[k]);
            }
        }
        if !items.contains(item) {
            assert(items[items.len() - 1] != item);
            assert(!rest.contains(item)) by {
                if rest.contains(item) {
                    let j = choose|j: int| 0 <= j < rest.len() && rest[j] == item;
                    assert(items[j] == item);
                }
            }
            assert(left =~= items);
        }
        if left.contains(item) {
            let k = choose|k: int| 0 <= k < left.len() && left[k] == item;
            if k < removed(rest, item).len() {
                assert(removed(rest, item)[k] == item);
                assert(removed(rest, item).contains(item));
            }
        }
        if items.last() != item {
            assert(left.drop_last() =~= removed(rest, item));
        }
    }
}

/// Takes every occurrence of a handle out of a list of handles.
fn remove_handle<T>(handles: &mut Vec<MarkedHandle<T>>, handle: MarkedHandle<T>)
    ensures
        final(handles)@ == removed(old(handles)@, handle),
{
    let mut kept: Vec<MarkedHandle<T>> = Vec::new();
    let mut current: usize = 0;
    let length = handles.len();
    while current < length
        invariant
            current <= length,
            length == handles@.len(),
            handles@ == old(handles)@,
            kept@ == removed(handles@.take(current as int), handle),
        decreases length - current,
    {
        proof {
            assert(handles@.take(current + 1).drop_last() =~= handles@.take(current as int));
            MarkedHandle::<T>::lemma_equal_parts(handles@[current as int], handle);
        }
        let item = handles[current];
        if !(item.index == handle.index && item.generation == handle.generation) {
            kept.push(item);
        }
        current += 1;
    }
    proof {
        assert(handles@.take(length as int) =~= handles@);
    }
    *handles = kept;
}

/// Takes a point out of each of the listed groups.
fn unlist_point_from_groups(
    groups: &mut HandledVec<GroupHandle, ImmutableVector<Group>>,
    listed: &Vec<GroupHandle>,
    point_handle: PointHandle,
)
    requires
        old(groups).wf(),
    ensures
        final(groups).wf(),
        final(groups)@.same_layout(old(groups)@),
        forall|g: GroupHandle| #[trigger]
            old(groups)@.contains(g.index, g.generation) ==> {
                &&& final(groups)@.value(g.index).name@ == old(groups)@.value(g.index).name@
                &&& final(groups)@.value(g.index).points@ == if listed@.contains(g) {
                    removed(old(groups)@.value(g.index).points@, point_handle)
                } else {
                    old(groups)@.value(g.index).points@
                }
            },
{
    let mut current: usize = 0;
    let length = listed.len();
    while current < length
        invariant
            current <= length,
            length == listed@.len(),
            groups.wf(),
            groups@.same_layout(old(groups)@),
            forall|g: GroupHandle| #[trigger]
                old(groups)@.contains(g.index, g.generation) ==> {
                    &&& groups@.value(g.index).name@ == old(groups)@.value(g.index).name@
                    &&& groups@.value(g.index).points@ == if listed@.take(current as int).contains(
                        g,
                    ) {
                        removed(old(groups)@.value(g.index).points@, point_handle)
                    } else {
                        old(groups)@.value(g.index).points@
                    }
                },
        decreases length - current,
    {
        let group_handle = listed[current];
        let ghost previous = groups@;
        let ghost done = listed@.take(current as int);
        let ghost next = listed@.take(current + 1);
        proof {
            assert(next =~= done.push(group_handle));
            lemma_push_contains(done, group_handle);
            assert forall|g: GroupHandle| next.contains(g) implies done.contains(g) || g
                == group_handle by {
                let j = choose|j: int| 0 <= j < next.len() && next[j] == g;
                if j < done.len() {
                    assert(done[j] == g);
                }
            }
        }
        match groups.get_mut(&group_handle) {
            Ok(group) => {
                remove_handle(&mut group.points, point_handle);
            },
            Err(_) => {},
        }
        proof {
            previous.lemma_update_frame(
                group_handle.index,
                group_handle.generation,
                groups@.value(group_handle.index),
            );
            assert forall|g: GroupHandle| #[trigger]
                old(groups)@.contains(g.index, g.generation) implies {
                &&& groups@.value(g.index).name@ == old(groups)@.value(g.index).name@
                &&& groups@.value(g.index).points@ == if next.contains(g) {
                    removed(old(groups)@.value(g.index).points@, point_handle)
                } else {
                    old(groups)@.value(g.index).points@
                }
            } by {
                assert(previous.contains(g.index, g.generation));
                if g.index == group_handle.index && previous.contains(
                    group_handle.index,
                    group_handle.generation,
                ) {
                    assert(g == group_handle);
                    lemma_removed(old(groups)@.value(g.index).points@, point_handle);
                } else {
                    assert(groups@.slots[g.index as int] == previous.slots[g.index as int]);
                    assert(g != group_handle);
                }
            }
        }
        current += 1;
    }
    proof {
        assert(listed@.take(length as int) =~= listed@);
    }
}

/// Takes a point out of each of the listed shapes.
fn unlist_point_from_shapes(
    shapes: &mut HandledVec<ShapeHandle, ImmutableVector<Shape>>,
    listed: &Vec<ShapeHandle>,
    point_handle: PointHandle,
)
    requires
        old(shapes).wf(),
    ensures
        final(shapes).wf(),
        final(shapes)@.same_layout(old(shapes)@),
        forall|g: ShapeHandle| #[trigger]
            old(shapes)@.contains(g.index, g.generation) ==> {
                &&& final(shapes)@.value(g.index).closed == old(shapes)@.value(g.index).closed
                &&& final(shapes)@.value(g.index).vertices@ == if listed@.contains(g) {
                    removed(old(shapes)@.value(g.index).vertices@, point_handle)
                } else {
                    old(shapes)@.value(g.index).vertices@
                }
            },
{
    let mut current: usize = 0;
    let length = listed.len();
    while current < length
        invariant
            current <= length,
            length == listed@.len(),
            shapes.wf(),
            shapes@.same_layout(old(shapes)@),
            forall|g: ShapeHandle| #[trigger]
                old(shapes)@.contains(g.index, g.generation) ==> {
                    &&& shapes@.value(g.index).closed == old(shapes)@.value(g.index).closed
                    &&& shapes@.value(g.index).vertices@ == if listed@.take(current as int).contains(
                        g,
                    ) {
                        removed(old(shapes)@.value(g.index).vertices@, point_handle)
                    } else {
                        old(shapes)@.value(g.index).vertices@
                    }
                },
        decreases length - current,
    {
        let shape_handle = listed[current];
        let ghost previous = shapes@;
        let ghost done = listed@.take(current as int);
        let ghost next = listed@.take(current + 1);
        proof {
            assert(next =~= done.push(shape_handle));
            lemma_push_contains(done, shape_handle);
            assert forall|g: ShapeHandle| next.contains(g) implies done.contains(g) || g
                == shape_handle by {
                let j = choose|j: int| 0 <= j < next.len() && next[j] == g;
                if j < done.len() {
                    assert(done[j] == g);
                }
            }
        }
        match shapes.get_mut(&shape_handle) {
            Ok(shape) => {
                remove_handle(&mut shape.vertices, point_handle);
            },
            Err(_) => {},
        }
        proof {
            previous.lemma_update_frame(
                shape_handle.index,
                shape_handle.generation,
                shapes@.value(shape_handle.index),
            );
            assert forall|g: ShapeHandle| #[trigger]
                old(shapes)@.contains(g.index, g.generation) implies {
                &&& shapes@.value(g.index).closed == old(shapes)@.value(g.index).closed
                &&& shapes@.value(g.index).vertices@ == if next.contains(g) {
                    removed(old(shapes)@.value(g.index).vertices@, point_handle)
                } else {
                    old(shapes)@.value(g.index).vertices@
                }
            } by {
                assert(previous.contains(g.index, g.generation));
                if g.index == shape_handle.index && previous.contains(
                    shape_handle.index,
                    shape_handle.generation,
                ) {
                    assert(g == shape_handle);
                    lemma_removed(old(shapes)@.value(g.index).vertices@, point_handle);
                } else {
                    assert(shapes@.slots[g.index as int] == previous.slots[g.index as int]);
                    assert(g != shape_handle);
                }
            }
        }
        current += 1;
    }
    proof {
        assert(listed@.take(length as int) =~= listed@);
    }
}

/// Takes a shape out of the list of shapes of each of the listed points.
fn unlist_shape_from_points(
    points: &mut HandledVec<PointHandle, ImmutableVector<Point>>,
    listed: &Vec<PointHandle>,
    shape_handle: ShapeHandle,
)
    requires
        old(points).wf(),
    ensures
        final(points).wf(),
        final(points)@.same_layout(old(points)@),
        forall|p: PointHandle| #[trigger]
            old(points)@.contains(p.index, p.generation) ==> {
                &&& final(points)@.value(p.index).position == old(points)@.value(p.index).position
                &&& final(points)@.value(p.index).in_tangent == old(points)@.value(
                    p.index,
                ).in_tangent
                &&& final(points)@.value(p.index).out_tangent == old(points)@.value(
                    p.index,
                ).out_tangent
                &&& final(points)@.value(p.index).groups@ == old(points)@.value(p.index).groups@
                &&& final(points)@.value(p.index).shapes@ == if listed@.contains(p) {
                    removed(old(points)@.value(p.index).shapes@, shape_handle)
                } else {
                    old(points)@.value(p.index).shapes@
                }
            },
{
    let mut current: usize = 0;
    let length = listed.len();
    while current < length
        invariant
            current <= length,
            length == listed@.len(),
            points.wf(),
            points@.same_layout(old(points)@),
            forall|p: PointHandle| #[trigger]
                old(points)@.contains(p.index, p.generation) ==> {
                    &&& points@.value(p.index).position == old(points)@.value(p.index).position
                    &&& points@.value(p.index).in_tangent == old(points)@.value(p.index).in_tangent
                    &&& points@.value(p.index).out_tangent == old(points)@.value(
                        p.index,
                    ).out_tangent
                    &&& points@.value(p.index).groups@ == old(points)@.value(p.index).groups@
                    &&& points@.value(p.index).shapes@ == if listed@.take(current as int).contains(
                        p,
                    ) {
                        removed(old(points)@.value(p.index).shapes@, shape_handle)
                    } else {
                        old(points)@.value(p.index).shapes@
                    }
                },
        decreases length - current,
    {
        let point_handle = listed[current];
        let ghost previous = points@;
        let ghost done = listed@.take(current as int);
        let ghost next = listed@.take(current + 1);
        proof {
            assert(next =~= done.push(point_handle));
            lemma_push_contains(done, point_handle);
            assert forall|p: PointHandle| next.contains(p) implies done.contains(p) || p
                == point_handle by {
                let j = choose|j: int| 0 <= j < next.len() && next[j] == p;
                if j < done.len() {
                    assert(done[j] == p);
                }
            }
        }
        match points.get_mut(&point_handle) {
            Ok(point) => {
                remove_handle(&mut point.shapes, shape_handle);
            },
            Err(_) => {},
        }
        proof {
            previous.lemma_update_frame(
                point_handle.index,
                point_handle.generation,
                points@.value(point_handle.index),
            );
            assert forall|p: PointHandle| #[trigger]
                old(points)@.contains(p.index, p.generation) implies {
                &&& points@.value(p.index).position == old(points)@.value(p.index).position
                &&& points@.value(p.index).in_tangent == old(points)@.value(p.index).in_tangent
                &&& points@.value(p.index).out_tangent == old(points)@.value(p.index).out_tangent
                &&& points@.value(p.index).groups@ == old(points)@.value(p.index).groups@
                &&& points@.value(p.index).shapes@ == if next.contains(p) {
                    removed(old(points)@.value(p.index).shapes@, shape_handle)
                } else {
                    old(points)@.value(p.index).shapes@
                }
            } by {
                assert(previous.contains(p.index, p.generation));
                if p.index == point_handle.index && previous.contains(
                    point_handle.index,
                    point_handle.generation,
                ) {
                    assert(p == point_handle);
                    lemma_removed(old(points)@.value(p.index).shapes@, shape_handle);
                } else {
                    assert(points@.slots[p.index as int] == previous.slots[p.index as int]);
                    assert(p != point_handle);
                }
            }
        }
        current += 1;
    }
    proof {
        assert(listed@.take(length as int) =~= listed@);
    }
}

/// The handle of the first group from slot `from` on that has the name.
pub open spec fn first_named(slots: Seq<DataField<Group>>, name: Seq<char>, from: int) -> Option<
    GroupHandle,
>
    decreases slots.len() - from,
{
    if from < 0 || from >= slots.len() {
        None
    } else if slots[from].data is Some && slots[from].data->0.name@ == name {
        Some(handle_at::<Group>(from, slots[from].generation))
    } else {
        first_named(slots, name, from + 1)
    }
}

/// The rectangle grown to hold a position: a corner moves where the
/// position lies beyond it.
pub open spec fn grown(rect: (Position, Position), position: Position) -> (Position, Position) {
    (
        Position(
            if position.0.less(rect.0.0) {
                position.0
            } else {
                rect.0.0
            },
            if position.1.less(rect.0.1) {
                position.1
            } else {
                rect.0.1
            },
        ),
        Position(
            if rect.1.0.less(position.0) {
                position.0
            } else {
                rect.1.0
            },
            if rect.1.1.less(position.1) {
                position.1
            } else {
                rect.1.1
            },
        ),
    )
}

/// The rectangle around the points in the first `upto` slots: the first of
/// them alone, grown to hold each of the others in index order. There is none
/// where no slot holds a point.
pub open spec fn bounds(slots: Seq<DataField<Point>>, upto: int) -> Option<(Position, Position)>
    decreases upto,
{
    if upto <= 0 {
        None
    } else if slots[upto - 1].data is Some {
        let position = slots[upto - 1].data->0.position;
        match bounds(slots, upto - 1) {
            Some(rect) => Some(grown(rect, position)),
            None => Some((position, position)),
        }
    } else {
        bounds(slots, upto - 1)
    }
}

/// A rectangle around points without a coordinate that is not a number has
/// none either, and no point lies beyond a corner of it.
pub proof fn lemma_bounds(slots: Seq<DataField<Point>>, upto: int)
    requires
        0 <= upto <= slots.len(),
        forall|i: int|
            0 <= i < upto && (#[trigger] slots[i]).data is Some ==> !slots[i].data->0.position.0.nan()
                && !slots[i].data->0.position.1.nan(),
    ensures
        bounds(slots, upto) matches Some(rect) ==> {
            &&& !rect.0.0.nan() && !rect.0.1.nan() && !rect.1.0.nan() && !rect.1.1.nan()
            &&& forall|i: int|
                0 <= i < upto && (#[trigger] slots[i]).data is Some ==> {
                    let position = slots[i].data->0.position;
                    &&& !position.0.less(rect.0.0)
                    &&& !position.1.less(rect.0.1)
                    &&& !rect.1.0.less(position.0)
                    &&& !rect.1.1.less(position.1)
                }
        },
        bounds(slots, upto) is None <==> forall|i: int|
            0 <= i < upto ==> (#[trigger] slots[i]).data is None,
    decreases upto,
{
    if upto > 0 {
        lemma_bounds(slots, upto - 1);
    }
}

/// Slots without a point do not change the rectangle.
pub proof fn lemma_bounds_skip(slots: Seq<DataField<Point>>, from: int, to: int)
    requires
        0 <= from <= to <= slots.len(),
        forall|j: int| from <= j < to ==> (#[trigger] slots[j]).data is None,
    ensures
        bounds(slots, to) == bounds(slots, from),
    decreases to - from,
{
    if from < to {
        lemma_bounds_skip(slots, from, to - 1);
    }
}

/// Taking out an item that occurs once shortens the sequence by one, and
/// what is left of a sequence without duplicates has none.
pub proof fn lemma_removed_once<A>(items: Seq<A>, item: A)
    requires
        items.no_duplicates(),
    ensures
        removed(items, item).no_duplicates(),
        items.contains(item) ==> removed(items, item).len() + 1 == items.len(),
    decreases items.len(),
{
    if items.len() > 0 {
        let rest = items.drop_last();
        assert(rest.no_duplicates()) by {
            assert forall|i: int, j: int| 0 <= i < rest.len() && 0 <= j < rest.len() && i
                != j implies rest[i] != rest[j] by {
                assert(items[i] != items[j]);
            }
        }
        lemma_removed_once(rest, item);
        lemma_removed(rest, item);
        let left = removed(items, item);
        if items.last() == item {
            assert(!rest.contains(item)) by {
                if rest.contains(item) {
                    let j = choose|j: int| 0 <= j < rest.len() && rest[j] == item;
                    assert(items[j] == items[items.len() - 1]);
                }
            }
        } else {
            assert(left.no_duplicates()) by {
                assert forall|i: int, j: int| 0 <= i < left.len() && 0 <= j < left.len() && i
                    != j implies left[i] != left[j] by {
                    let shorter = removed(rest, item);
                    if i < shorter.len() && j < shorter.len() {
                        assert(shorter[i] != shorter[j]);
                    } else if i < shorter.len() {
                        assert(rest.contains(shorter[i]));
                        let k = choose|k: int| 0 <= k < rest.len() && rest[k] == shorter[i];
                        assert(items[k] != items[items.len() - 1]);
                    } else if j < shorter.len() {
                        assert(rest.contains(shorter[j]));
                        let k = choose|k: int| 0 <= k < rest.len() && rest[k] == shorter[j];
                        assert(items[k] != items[items.len() - 1]);
                    }
                }
            }
            if items.contains(item) {
                let k = choose|k: int| 0 <= k < items.len() && items[k] == item;
                assert(rest[k] == item);
                assert(rest.contains(item));
            }
        }
    }
}

/// Whether a handle finds a slot in use among `slots`.
pub open spec fn finds(slots: Seq<DataField<Point>>, handle: PointHandle) -> bool {
    handle.index < slots.len() && slots[handle.index as int].occupied
        && slots[handle.index as int].generation == handle.generation
}

/// A list without duplicates of handles that find a point, with the handle
/// of every point in it, is as long as there are points.
pub proof fn lemma_listing_counts(slots: Seq<DataField<Point>>, listing: Seq<PointHandle>)
    requires
        slots.len() <= usize::MAX,
        listing.no_duplicates(),
        forall|k: int| 0 <= k < listing.len() ==> finds(slots, #[trigger] listing[k]),
        forall|i: int|
            0 <= i < slots.len() && (#[trigger] slots[i]).occupied ==> listing.contains(
                handle_at::<Point>(i, slots[i].generation),
            ),
    ensures
        listing.len() == occupied_count(slots),
    decreases slots.len(),
{
    if slots.len() == 0 {
        if listing.len() > 0 {
            assert(finds(slots, listing[0]));
        }
    } else {
        let last = slots.len() - 1;
        let fewer = slots.drop_last();
        if slots[last].occupied {
            let handle = handle_at::<Point>(last, slots[last].generation);
            let rest = removed(listing, handle);
            lemma_removed_once(listing, handle);
            lemma_removed(listing, handle);
            assert forall|k: int| 0 <= k < rest.len() implies finds(fewer, #[trigger] rest[k]) by {
                assert(listing.contains(rest[k]));
                let j = choose|j: int| 0 <= j < listing.len() && listing[j] == rest[k];
                assert(finds(slots, listing[j]));
                assert(rest.contains(rest[k]));
                assert(rest[k] != handle);
            }
            assert forall|i: int|
                0 <= i < fewer.len() && (#[trigger] fewer[i]).occupied implies rest.contains(
                handle_at::<Point>(i, fewer[i].generation),
            ) by {
                assert(slots[i].occupied);
                assert(listing.contains(handle_at::<Point>(i, slots[i].generation)));
            }
            lemma_listing_counts(fewer, rest);
        } else {
            assert forall|k: int| 0 <= k < listing.len() implies finds(
                fewer,
                #[trigger] listing[k],
            ) by {
                assert(finds(slots, listing[k]));
            }
            assert forall|i: int|
                0 <= i < fewer.len() && (#[trigger] fewer[i]).occupied implies listing.contains(
                handle_at::<Point>(i, fewer[i].generation),
            ) by {
                assert(slots[i].occupied);
            }
            lemma_listing_counts(fewer, listing);
        }
    }
}

/// The handles that a list holds, in their order.
pub open spec fn somes(map: Seq<Option<PointHandle>>) -> Seq<PointHandle>
    decreases map.len(),
{
    if map.len() == 0 {
        Seq::empty()
    } else if map.last() is Some {
        somes(map.drop_last()).push(map.last()->0)
    } else {
        somes(map.drop_last())
    }
}

/// The handles that `map` gives for the slots of the handles in `handles`.
pub open spec fn mapped(map: Seq<Option<PointHandle>>, handles: Seq<PointHandle>) -> Seq<
    PointHandle,
> {
    Seq::new(handles.len(), |i: int| map[handles[i].index as int]->0)
}

/// Handles that all find a point are all found.
pub proof fn lemma_all_found(points: Arena<Point>, handles: Seq<PointHandle>)
    requires
        forall|k: int|
            0 <= k < handles.len() ==> points.contains(
                (#[trigger] handles[k]).index,
                handles[k].generation,
            ),
    ensures
        found_points(points, handles) == handles,
    decreases handles.len(),
{
    if handles.len() > 0 {
        let rest = handles.drop_last();
        assert forall|k: int| 0 <= k < rest.len() implies points.contains(
            (#[trigger] rest[k]).index,
            rest[k].generation,
        ) by {
            assert(rest[k] == handles[k]);
        }
        lemma_all_found(points, rest);
        assert(handles[handles.len() - 1] == handles.last());
        assert(found_points(points, handles) =~= handles);
    } else {
        assert(found_points(points, handles) =~= handles);
    }
}

/// A handle that is not among the handles does not occur among them.
pub proof fn lemma_no_occurrence(handles: Seq<PointHandle>, handle: PointHandle)
    requires
        !handles.contains(handle),
    ensures
        occurrences(handles, handle) == 0,
    decreases handles.len(),
{
    if handles.len() > 0 {
        let rest = handles.drop_last();
        assert(handles[handles.len() - 1] != handle);
        assert(!rest.contains(handle)) by {
            if rest.contains(handle) {
                let k = choose|k: int| 0 <= k < rest.len() && rest[k] == handle;
                assert(handles[k] == handle);
            }
        }
        lemma_no_occurrence(rest, handle);
    }
}

/// Slots that agree on which hold a group, under which generation and
/// of which name, give the same first group of a name.
pub proof fn lemma_first_named_same(
    slots: Seq<DataField<Group>>,
    others: Seq<DataField<Group>>,
    name: Seq<char>,
    from: int,
)
    requires
        slots.len() == others.len(),
        forall|i: int|
            0 <= i < slots.len() ==> (#[trigger] slots[i]).data is Some == others[i].data is Some
                && slots[i].generation == others[i].generation && (slots[i].data is Some
                ==> slots[i].data->0.name@ == others[i].data->0.name@),
    ensures
        first_named(slots, name, from) == first_named(others, name, from),
    decreases slots.len() - from,
{
    if 0 <= from < slots.len() {
        lemma_first_named_same(slots, others, name, from + 1);
    }
}

/// A group added behind the others is the first of its name where there
/// was none, and changes nothing for any other name.
pub proof fn lemma_first_named_push(
    slots: Seq<DataField<Group>>,
    field: DataField<Group>,
    name: Seq<char>,
    from: int,
)
    requires
        0 <= from <= slots.len(),
        field.data is Some,
    ensures
        first_named(slots.push(field), name, from) == match first_named(slots, name, from) {
            Some(handle) => Some(handle),
            None => if field.data->0.name@ == name {
                Some(handle_at::<Group>(slots.len() as int, field.generation))
            } else {
                None
            },
        },
    decreases slots.len() - from,
{
    let longer = slots.push(field);
    if from < slots.len() {
        assert(longer[from] == slots[from]);
        lemma_first_named_push(slots, field, name, from + 1);
    } else {
        assert(longer[from] == field);
        assert(first_named(longer, name, from + 1) is None);
    }
}

/// The first group of a name is a group of that name, and no group before
/// it has the name.
pub proof fn lemma_first_named(slots: Seq<DataField<Group>>, name: Seq<char>, from: int)
    requires
        0 <= from,
        slots.len() <= usize::MAX,
    ensures
        match first_named(slots, name, from) {
            Some(handle) => from <= handle.index < slots.len() && slots[handle.index as int].data
                is Some && slots[handle.index as int].data->0.name@ == name
                && slots[handle.index as int].generation == handle.generation && forall|i: int|
                from <= i < handle.index ==> !((#[trigger] slots[i]).data is Some
                    && slots[i].data->0.name@ == name),
            None => forall|i: int|
                from <= i < slots.len() ==> !((#[trigger] slots[i]).data is Some
                    && slots[i].data->0.name@ == name),
        },
    decreases slots.len() - from,
{
    if from < slots.len() {
        lemma_first_named(slots, name, from + 1);
    }
}

/// A handle that a list holds is among the handles that it holds.
pub proof fn lemma_somes_contains(map: Seq<Option<PointHandle>>, at: int)
    requires
        0 <= at < map.len(),
        map[at] is Some,
    ensures
        somes(map).contains(map[at]->0),
    decreases map.len(),
{
    let rest = map.drop_last();
    if at == map.len() - 1 {
        if map.last() is Some {
            assert(somes(map)[somes(map).len() - 1] == map[at]->0);
        }
    } else {
        lemma_somes_contains(rest, at);
        if map.last() is Some {
            lemma_push_contains(somes(rest), map.last()->0);
        }
    }
}

/// A handle among the handles that a list holds is held by the list.
pub proof fn lemma_somes_from(map: Seq<Option<PointHandle>>, handle: PointHandle)
    requires
        somes(map).contains(handle),
    ensures
        exists|i: int| 0 <= i < map.len() && map[i] == Some(handle),
    decreases map.len(),
{
    if map.len() > 0 {
        let rest = map.drop_last();
        if map.last() == Some(handle) {
            assert(map[map.len() - 1] == Some(handle));
        } else {
            let k = choose|k: int| 0 <= k < somes(map).len() && somes(map)[k] == handle;
            assert(somes(rest)[k] == handle);
            assert(somes(rest).contains(handle));
            lemma_somes_from(rest, handle);
            let i = choose|i: int| 0 <= i < rest.len() && rest[i] == Some(handle);
            assert(map[i] == Some(handle));
        }
    }
}

/// A list that holds a handle exactly for the slots in use holds as many
/// handles as slots are in use.
pub proof fn lemma_somes_count(
    slots: Seq<DataField<Point>>,
    map: Seq<Option<PointHandle>>,
    upto: int,
)
    requires
        0 <= upto <= map.len(),
        upto <= slots.len(),
        forall|i: int| 0 <= i < upto ==> ((#[trigger] map[i]) is Some <==> slots[i].occupied),
    ensures
        somes(map.take(upto)).len() == occupied_count(slots.take(upto)),
    decreases upto,
{
    if upto > 0 {
        lemma_somes_count(slots, map, upto - 1);
        assert(map.take(upto).drop_last() =~= map.take(upto - 1));
        assert(slots.take(upto).drop_last() =~= slots.take(upto - 1));
        assert(map.take(upto).last() == map[upto - 1]);
    } else {
        assert(map.take(0) =~= Seq::empty());
        assert(slots.take(0) =~= Seq::empty());
    }
}

/// A list that holds no handle twice holds handles that are all different.
pub proof fn lemma_somes_distinct(map: Seq<Option<PointHandle>>)
    requires
        forall|i: int, j: int|
            0 <= i < j < map.len() && (#[trigger] map[i]) is Some && (#[trigger] map[j]) is Some
                ==> map[i] != map[j],
    ensures
        somes(map).no_duplicates(),
    decreases map.len(),
{
    if map.len() > 0 {
        let rest = map.drop_last();
        assert forall|i: int, j: int|
            0 <= i < j < rest.len() && (#[trigger] rest[i]) is Some && (#[trigger] rest[j])
                is Some implies rest[i] != rest[j] by {
            assert(map[i] == rest[i]);
            assert(map[j] == rest[j]);
        }
        lemma_somes_distinct(rest);
        if map.last() is Some {
            let handle = map.last()->0;
            if somes(rest).contains(handle) {
                lemma_somes_from(rest, handle);
                let i = choose|i: int| 0 <= i < rest.len() && rest[i] == Some(handle);
                assert(map[i] == rest[i]);
                assert(map[map.len() - 1] == Some(handle));
            }
            assert forall|i: int, j: int|
                0 <= i < somes(map).len() && 0 <= j < somes(map).len() && i != j implies somes(
                map,
            )[i] != somes(map)[j] by {
                if i < somes(rest).len() && j < somes(rest).len() {
                } else if i < somes(rest).len() {
                    assert(somes(rest).contains(somes(rest)[i]));
                } else if j < somes(rest).len() {
                    assert(somes(rest).contains(somes(rest)[j]));
                }
            }
        }
    }
}

/// Points, shapes and groups, with the links between them. The group named
/// "all" holds every point.
pub struct GeometryWorld {
    points: HandledVec<PointHandle, ImmutableVector<Point>>,
    groups: HandledVec<GroupHandle, ImmutableVector<Group>>,
    shapes: HandledVec<ShapeHandle, ImmutableVector<Shape>>,
    all_point_group_handle: GroupHandle,
}

impl GeometryWorld {
    pub closed spec fn points(&self) -> Arena<Point> {
        self.points@
    }

    pub closed spec fn groups(&self) -> Arena<Group> {
        self.groups@
    }

    pub closed spec fn shapes(&self) -> Arena<Shape> {
        self.shapes@
    }

    /// The handle of the group that holds every point.
    pub closed spec fn all_group(&self) -> GroupHandle {
        self.all_point_group_handle
    }

    pub open spec fn has_point(&self, handle: PointHandle) -> bool {
        self.points().contains(handle.index, handle.generation)
    }

    pub open spec fn has_group(&self, handle: GroupHandle) -> bool {
        self.groups().contains(handle.index, handle.generation)
    }

    pub open spec fn has_shape(&self, handle: ShapeHandle) -> bool {
        self.shapes().contains(handle.index, handle.generation)
    }

    pub open spec fn point(&self, handle: PointHandle) -> Point {
        self.points().value(handle.index)
    }

    pub open spec fn group(&self, handle: GroupHandle) -> Group {
        self.groups().value(handle.index)
    }

    pub open spec fn shape(&self, handle: ShapeHandle) -> Shape {
        self.shapes().value(handle.index)
    }

    /// The groups that a point lists exist and hold the point.
    pub open spec fn point_in_its_groups(&self, handle: PointHandle) -> bool {
        forall|k: int|
            0 <= k < self.point(handle).groups@.len() ==> self.has_group(
                #[trigger] self.point(handle).groups@[k],
            ) && self.group(self.point(handle).groups@[k]).points@.contains(handle)
    }

    /// The shapes that a point lists exist and hold the point.
    pub open spec fn point_in_its_shapes(&self, handle: PointHandle) -> bool {
        forall|k: int|
            0 <= k < self.point(handle).shapes@.len() ==> self.has_shape(
                #[trigger] self.point(handle).shapes@[k],
            ) && self.shape(self.point(handle).shapes@[k]).vertices@.contains(handle)
    }

    /// The groups and shapes that a point lists exist and hold the point, and
    /// the group of all points holds it.
    pub open spec fn point_linked(&self, handle: PointHandle) -> bool {
        &&& self.point_in_its_groups(handle)
        &&& self.point_in_its_shapes(handle)
        &&& self.group(self.all_group()).points@.contains(handle)
    }

    /// The points that a group holds exist and list the group.
    pub open spec fn group_linked(&self, handle: GroupHandle) -> bool {
        forall|k: int|
            0 <= k < self.group(handle).points@.len() ==> self.has_point(
                #[trigger] self.group(handle).points@[k],
            ) && self.point(self.group(handle).points@[k]).groups@.contains(handle)
    }

    /// The points that a shape joins exist and list the shape.
    pub open spec fn shape_linked(&self, handle: ShapeHandle) -> bool {
        forall|k: int|
            0 <= k < self.shape(handle).vertices@.len() ==> self.has_point(
                #[trigger] self.shape(handle).vertices@[k],
            ) && self.point(self.shape(handle).vertices@[k]).shapes@.contains(handle)
    }

    /// Every point of `self` is a point of `later`, and lists there what it
    /// lists here.
    pub open spec fn points_grow(&self, later: &GeometryWorld) -> bool {
        &&& forall|p: PointHandle| #[trigger] self.has_point(p) ==> later.has_point(p)
        &&& forall|p: PointHandle, g: GroupHandle|
            self.has_point(p) && #[trigger] self.point(p).groups@.contains(g) ==> later.point(
                p,
            ).groups@.contains(g)
        &&& forall|p: PointHandle, s: ShapeHandle|
            self.has_point(p) && #[trigger] self.point(p).shapes@.contains(s) ==> later.point(
                p,
            ).shapes@.contains(s)
    }

    /// Every group of `self` is a group of `later`, and holds there what it
    /// holds here.
    pub open spec fn groups_grow(&self, later: &GeometryWorld) -> bool {
        &&& forall|g: GroupHandle| #[trigger] self.has_group(g) ==> later.has_group(g)
        &&& forall|g: GroupHandle, p: PointHandle|
            self.has_group(g) && #[trigger] self.group(g).points@.contains(p) ==> later.group(
                g,
            ).points@.contains(p)
    }

    /// Every shape of `self` is a shape of `later`, and joins there what it
    /// joins here.
    pub open spec fn shapes_grow(&self, later: &GeometryWorld) -> bool {
        &&& forall|s: ShapeHandle| #[trigger] self.has_shape(s) ==> later.has_shape(s)
        &&& forall|s: ShapeHandle, p: PointHandle|
            self.has_shape(s) && #[trigger] self.shape(s).vertices@.contains(p) ==> later.shape(
                s,
            ).vertices@.contains(p)
    }

    /// A point that lists in `later` the groups it lists in `self` stays in
    /// them when no group loses anything.
    proof fn lemma_point_stays_in_groups(&self, later: &GeometryWorld, handle: PointHandle)
        requires
            self.has_point(handle),
            self.point_in_its_groups(handle),
            later.point(handle).groups@ == self.point(handle).groups@,
            self.groups_grow(later),
        ensures
            later.point_in_its_groups(handle),
    {
        assert forall|k: int| 0 <= k < later.point(handle).groups@.len() implies later.has_group(
            #[trigger] later.point(handle).groups@[k],
        ) && later.group(later.point(handle).groups@[k]).points@.contains(handle) by {
            let g = self.point(handle).groups@[k];
            assert(self.has_group(g));
            assert(self.group(g).points@.contains(handle));
        }
    }

    /// A point that lists in `later` the shapes it lists in `self` stays in
    /// them when no shape loses anything.
    proof fn lemma_point_stays_in_shapes(&self, later: &GeometryWorld, handle: PointHandle)
        requires
            self.has_point(handle),
            self.point_in_its_shapes(handle),
            later.point(handle).shapes@ == self.point(handle).shapes@,
            self.shapes_grow(later),
        ensures
            later.point_in_its_shapes(handle),
    {
        assert forall|k: int| 0 <= k < later.point(handle).shapes@.len() implies later.has_shape(
            #[trigger] later.point(handle).shapes@[k],
        ) && later.shape(later.point(handle).shapes@[k]).vertices@.contains(handle) by {
            let s = self.point(handle).shapes@[k];
            assert(self.has_shape(s));
            assert(self.shape(s).vertices@.contains(handle));
        }
    }

    /// A point that lists in `later` what it lists in `self` stays linked
    /// when no group or shape loses anything.
    proof fn lemma_point_stays_linked(&self, later: &GeometryWorld, handle: PointHandle)
        requires
            self.has_point(handle),
            self.point_linked(handle),
            self.has_group(self.all_group()),
            later.all_group() == self.all_group(),
            later.point(handle).groups@ == self.point(handle).groups@,
            later.point(handle).shapes@ == self.point(handle).shapes@,
            self.groups_grow(later),
            self.shapes_grow(later),
        ensures
            later.point_linked(handle),
    {
        self.lemma_point_stays_in_groups(later, handle);
        self.lemma_point_stays_in_shapes(later, handle);
        assert(self.group(self.all_group()).points@.contains(handle));
    }

    /// A group that holds in `later` what it holds in `self` stays linked
    /// when no point loses anything.
    proof fn lemma_group_stays_linked(&self, later: &GeometryWorld, handle: GroupHandle)
        requires
            self.has_group(handle),
            self.group_linked(handle),
            later.group(handle).points@ == self.group(handle).points@,
            self.points_grow(later),
        ensures
            later.group_linked(handle),
    {
        assert forall|k: int| 0 <= k < later.group(handle).points@.len() implies later.has_point(
            #[trigger] later.group(handle).points@[k],
        ) && later.point(later.group(handle).points@[k]).groups@.contains(handle) by {
            let p = self.group(handle).points@[k];
            assert(self.has_point(p));
            assert(self.point(p).groups@.contains(handle));
        }
    }

    /// A shape that joins in `later` what it joins in `self` stays linked
    /// when no point loses anything.
    proof fn lemma_shape_stays_linked(&self, later: &GeometryWorld, handle: ShapeHandle)
        requires
            self.has_shape(handle),
            self.shape_linked(handle),
            later.shape(handle).vertices@ == self.shape(handle).vertices@,
            self.points_grow(later),
        ensures
            later.shape_linked(handle),
    {
        assert forall|k: int|
            0 <= k < later.shape(handle).vertices@.len() implies later.has_point(
            #[trigger] later.shape(handle).vertices@[k],
        ) && later.point(later.shape(handle).vertices@[k]).shapes@.contains(handle) by {
            let p = self.shape(handle).vertices@[k];
            assert(self.has_point(p));
            assert(self.point(p).shapes@.contains(handle));
        }
    }

    /// The group of all points holds no point twice.
    pub open spec fn all_exact(&self) -> bool {
        self.group(self.all_group()).points@.no_duplicates()
    }

    /// The three containers are in order, the group of all points is the
    /// first group and is named "all", and every link has its counterpart.
    pub closed spec fn wf(&self) -> bool {
        &&& self.points.wf()
        &&& self.groups.wf()
        &&& self.shapes.wf()
        &&& self.all_point_group_handle.index == 0
        &&& self.groups@.free.len() == 0
        &&& forall|i: int| 0 <= i < self.groups@.slots.len() ==> (#[trigger] self.groups@.slots[i]).occupied
        &&& self.has_group(self.all_point_group_handle)
        &&& self.group(self.all_point_group_handle).name@ == "all"@
        &&& forall|handle: PointHandle| self.has_point(handle) ==> #[trigger] self.point_linked(handle)
        &&& forall|handle: GroupHandle| self.has_group(handle) ==> #[trigger] self.group_linked(handle)
        &&& forall|handle: ShapeHandle| self.has_shape(handle) ==> #[trigger] self.shape_linked(handle)
    }

    /// In a world that is in order the containers are, the group of all
    /// points exists under the name "all", and every link has its
    /// counterpart: a point is in the groups and shapes it lists, and lists
    /// the groups and shapes it is in.
    pub proof fn lemma_wf(&self)
        requires
            self.wf(),
        ensures
            self.points().wf(),
            self.groups().wf(),
            self.shapes().wf(),
            self.all_group().index == 0,
            self.groups().free.len() == 0,
            forall|i: int| 0 <= i < self.groups().slots.len() ==> (#[trigger] self.groups().slots[i]).occupied,
            self.has_group(self.all_group()),
            self.group(self.all_group()).name@ == "all"@,
            forall|handle: PointHandle| self.has_point(handle) ==> #[trigger] self.point_linked(handle),
            forall|handle: GroupHandle| self.has_group(handle) ==> #[trigger] self.group_linked(handle),
            forall|handle: ShapeHandle| self.has_shape(handle) ==> #[trigger] self.shape_linked(handle),
    {
    }

    /// Every group that a point lists exists and holds the point, and so
    /// does every shape that it lists.
    pub proof fn lemma_back_references(&self, point: PointHandle)
        requires
            self.wf(),
            self.has_point(point),
        ensures
            forall|k: int|
                0 <= k < self.point(point).groups@.len() ==> self.has_group(
                    #[trigger] self.point(point).groups@[k],
                ) && self.group(self.point(point).groups@[k]).points@.contains(point),
            forall|k: int|
                0 <= k < self.point(point).shapes@.len() ==> self.has_shape(
                    #[trigger] self.point(point).shapes@[k],
                ) && self.shape(self.point(point).shapes@[k]).vertices@.contains(point),
    {
        assert(self.point_linked(point));
    }

    /// Every point that a group holds exists and lists the group, and so
    /// does every point that a shape joins: nothing in the world refers to
    /// a point that is gone.
    pub proof fn lemma_forward_references(&self)
        requires
            self.wf(),
        ensures
            forall|group: GroupHandle, k: int|
                self.has_group(group) && 0 <= k < self.group(group).points@.len()
                    ==> self.has_point(#[trigger] self.group(group).points@[k]) && self.point(
                    self.group(group).points@[k],
                ).groups@.contains(group),
            forall|shape: ShapeHandle, k: int|
                self.has_shape(shape) && 0 <= k < self.shape(shape).vertices@.len()
                    ==> self.has_point(#[trigger] self.shape(shape).vertices@[k]) && self.point(
                    self.shape(shape).vertices@[k],
                ).shapes@.contains(shape),
    {
        assert forall|group: GroupHandle, k: int|
            self.has_group(group) && 0 <= k < self.group(group).points@.len() implies self.has_point(
            #[trigger] self.group(group).points@[k],
        ) && self.point(self.group(group).points@[k]).groups@.contains(group) by {
            assert(self.group_linked(group));
        }
        assert forall|shape: ShapeHandle, k: int|
            self.has_shape(shape) && 0 <= k < self.shape(shape).vertices@.len() implies self.has_point(
            #[trigger] self.shape(shape).vertices@[k],
        ) && self.point(self.shape(shape).vertices@[k]).shapes@.contains(shape) by {
            assert(self.shape_linked(shape));
        }
    }

    /// The group named "all" holds every point of the world; where it holds
    /// none twice, it holds as many points as the world has.
    pub proof fn lemma_all_group(&self)
        requires
            self.wf(),
        ensures
            self.has_group(self.all_group()),
            self.group(self.all_group()).name@ == "all"@,
            self.group_named("all"@) == Some(self.all_group()),
            forall|point: PointHandle| #[trigger]
                self.has_point(point) ==> self.group(self.all_group()).points@.contains(point),
            self.all_exact() ==> self.group(self.all_group()).points@.len()
                == self.points().count(),
    {
        let all = self.all_group();
        assert forall|point: PointHandle| #[trigger] self.has_point(point) implies self.group(
            all,
        ).points@.contains(point) by {
            assert(self.point_linked(point));
        }
        assert(first_named(self.groups().slots, "all"@, 0) == Some(all));
        if self.all_exact() {
            let listing = self.group(all).points@;
            let slots = self.points().slots;
            assert(self.group_linked(all));
            assert forall|k: int| 0 <= k < listing.len() implies finds(slots, #[trigger] listing[k]) by {
                assert(self.has_point(listing[k]));
            }
            assert forall|i: int| 0 <= i < slots.len() && (#[trigger] slots[i]).occupied implies listing.contains(
                handle_at::<Point>(i, slots[i].generation),
            ) by {
                assert(self.has_point(handle_at::<Point>(i, slots[i].generation)));
            }
            lemma_listing_counts(slots, listing);
        }
    }

    pub fn new() -> (world: Self)
        ensures
            world.wf(),
            world.all_exact(),
            world.points() == Arena::<Point>::empty(),
            world.shapes() == Arena::<Shape>::empty(),
            world.groups().slots.len() == 1,
            world.groups().free.len() == 0,
            world.all_group() == handle_at::<Group>(0, 1),
            world.group(world.all_group()).name@ == "all"@,
            world.group(world.all_group()).points@ == Seq::<PointHandle>::empty(),
    {
        let mut groups: HandledVec<GroupHandle, ImmutableVector<Group>> = HandledVec::new();
        let all = groups.add_entry(Group::new("all"));
        let world = GeometryWorld {
            points: HandledVec::new(),
            groups,
            shapes: HandledVec::new(),
            all_point_group_handle: all,
        };
        assert(all == handle_at::<Group>(0, 1));
        assert forall|handle: GroupHandle| world.has_group(handle) implies #[trigger] world.group_linked(handle) by {
            assert(handle.index == 0);
        }
        world
    }

    /// Puts a point into the world and into the group of all points. The
    /// point starts in that group alone and in no shape, whatever its lists
    /// say.
    pub fn create_point(&mut self, point: Point) -> (handle: PointHandle)
        requires
            old(self).wf(),
        ensures
            final(self).wf(),
            old(self).all_exact() ==> final(self).all_exact(),
            parts(handle) == old(self).points().next_handle(),
            final(self).points() == old(self).points().insert(final(self).point(handle)),
            final(self).points().count() == old(self).points().count() + 1,
            final(self).has_point(handle),
            !old(self).has_point(handle),
            final(self).point(handle).position == point.position,
            final(self).point(handle).in_tangent == point.in_tangent,
            final(self).point(handle).out_tangent == point.out_tangent,
            final(self).point(handle).groups@ == seq![old(self).all_group()],
            final(self).point(handle).shapes@ == Seq::<ShapeHandle>::empty(),
            final(self).groups() == old(self).groups().update(
                old(self).all_group().index,
                old(self).all_group().generation,
                final(self).group(old(self).all_group()),
            ),
            final(self).group(old(self).all_group()).name@ == old(self).group(
                old(self).all_group(),
            ).name@,
            final(self).group(old(self).all_group()).points@ == old(self).group(
                old(self).all_group(),
            ).points@.push(handle),
            final(self).shapes() == old(self).shapes(),
            final(self).all_group() == old(self).all_group(),
    {
        let all = self.all_point_group_handle;
        let mut groups: Vec<GroupHandle> = Vec::new();
        groups.push(all);
        let stored = Point {
            position: point.position,
            in_tangent: point.in_tangent,
            out_tangent: point.out_tangent,
            groups,
            shapes: Vec::new(),
        };
        proof {
            self.points@.lemma_insert_frame(stored);
        }
        let handle = self.points.add_entry(stored);
        let ghost between = self.groups@;
        match self.groups.get_mut(&all) {
            Ok(group) => {
                group.add_point(&handle);
            },
            Err(_) => {},
        }
        proof {
            let before = old(self);
            let changed = self.group(all);
            between.lemma_update_frame(all.index, all.generation, changed);
            lemma_push_contains(before.group(all).points@, handle);
            if before.all_exact() {
                let list = before.group(all).points@;
                assert(before.group_linked(all));
                assert forall|i: int, j: int|
                    0 <= i < list.push(handle).len() && 0 <= j < list.push(handle).len() && i
                        != j implies list.push(handle)[i] != list.push(handle)[j] by {
                    if i < list.len() {
                        assert(before.has_point(list[i]));
                    }
                    if j < list.len() {
                        assert(before.has_point(list[j]));
                    }
                }
            }
            assert(self.shapes@ == before.shapes@);
            assert(before.points_grow(self));
            assert(before.groups_grow(self)) by {
                assert forall|g: GroupHandle, p: PointHandle|
                    before.has_group(g) && #[trigger] before.group(g).points@.contains(
                        p,
                    ) implies self.group(g).points@.contains(p) by {
                    if g.index != all.index {
                        assert(self.groups@.slots[g.index as int] == between.slots[g.index as int]);
                    }
                }
            }
            assert(before.shapes_grow(self));
            assert forall|h: PointHandle| self.has_point(h) implies #[trigger] self.point_linked(
                h,
            ) by {
                if h != handle {
                    assert(before.has_point(h));
                    before.lemma_point_stays_linked(self, h);
                } else {
                    assert(self.point(h).groups@[0] == all);
                }
            }
            assert forall|h: GroupHandle| self.has_group(h) implies #[trigger] self.group_linked(
                h,
            ) by {
                assert(before.has_group(h));
                if h.index != all.index {
                    assert(self.groups@.slots[h.index as int] == between.slots[h.index as int]);
                    before.lemma_group_stays_linked(self, h);
                } else {
                    assert(h == all);
                    assert forall|k: int|
                        0 <= k < self.group(h).points@.len() implies self.has_point(
                        #[trigger] self.group(h).points@[k],
                    ) && self.point(self.group(h).points@[k]).groups@.contains(h) by {
                        if k < before.group(h).points@.len() {
                            let p = before.group(h).points@[k];
                            assert(before.group_linked(h));
                            assert(before.has_point(p));
                            assert(before.point(p).groups@.contains(h));
                        } else {
                            assert(self.point(handle).groups@[0] == all);
                        }
                    }
                }
            }
            assert forall|h: ShapeHandle| self.has_shape(h) implies #[trigger] self.shape_linked(
                h,
            ) by {
                before.lemma_shape_stays_linked(self, h);
            }
        }
        handle
    }

    /// Puts a point at the end of a group, and the group at the end of the
    /// point's list of groups.
    fn link_point_to_group(&mut self, point_handle: PointHandle, group_handle: GroupHandle)
        requires
            old(self).wf(),
            old(self).has_point(point_handle),
            old(self).has_group(group_handle),
        ensures
            final(self).wf(),
            old(self).all_exact() && group_handle != old(self).all_group() ==> final(self).all_exact(),
            final(self).all_group() == old(self).all_group(),
            final(self).shapes() == old(self).shapes(),
            final(self).points() == old(self).points().update(
                point_handle.index,
                point_handle.generation,
                final(self).point(point_handle),
            ),
            final(self).groups() == old(self).groups().update(
                group_handle.index,
                group_handle.generation,
                final(self).group(group_handle),
            ),
            final(self).point(point_handle).position == old(self).point(point_handle).position,
            final(self).point(point_handle).in_tangent == old(self).point(point_handle).in_tangent,
            final(self).point(point_handle).out_tangent == old(self).point(
                point_handle,
            ).out_tangent,
            final(self).point(point_handle).shapes@ == old(self).point(point_handle).shapes@,
            final(self).point(point_handle).groups@ == old(self).point(point_handle).groups@.push(
                group_handle,
            ),
            final(self).group(group_handle).name@ == old(self).group(group_handle).name@,
            final(self).group(group_handle).points@ == old(self).group(group_handle).points@.push(
                point_handle,
            ),
    {
        let ghost points_before = self.points@;
        let ghost groups_before = self.groups@;
        match self.points.get_mut(&point_handle) {
            Ok(point) => {
                point.groups.push(group_handle);
            },
            Err(_) => {},
        }
        match self.groups.get_mut(&group_handle) {
            Ok(group) => {
                group.points.push(point_handle);
            },
            Err(_) => {},
        }
        proof {
            let before = old(self);
            points_before.lemma_update_frame(
                point_handle.index,
                point_handle.generation,
                self.point(point_handle),
            );
            groups_before.lemma_update_frame(
                group_handle.index,
                group_handle.generation,
                self.group(group_handle),
            );
            lemma_push_contains(before.group(group_handle).points@, point_handle);
            lemma_push_contains(before.point(point_handle).groups@, group_handle);
            assert(self.shapes@ == before.shapes@);
            assert(before.points_grow(self)) by {
                assert forall|p: PointHandle, g: GroupHandle|
                    before.has_point(p) && #[trigger] before.point(p).groups@.contains(
                        g,
                    ) implies self.point(p).groups@.contains(g) by {
                    if p.index != point_handle.index {
                        assert(self.points@.slots[p.index as int] == points_before.slots[p.index as int]);
                    }
                }
                assert forall|p: PointHandle, s: ShapeHandle|
                    before.has_point(p) && #[trigger] before.point(p).shapes@.contains(
                        s,
                    ) implies self.point(p).shapes@.contains(s) by {
                    if p.index != point_handle.index {
                        assert(self.points@.slots[p.index as int] == points_before.slots[p.index as int]);
                    }
                }
            }
            assert(before.groups_grow(self)) by {
                assert forall|g: GroupHandle, p: PointHandle|
                    before.has_group(g) && #[trigger] before.group(g).points@.contains(
                        p,
                    ) implies self.group(g).points@.contains(p) by {
                    if g.index != group_handle.index {
                        assert(self.groups@.slots[g.index as int] == groups_before.slots[g.index as int]);
                    }
                }
            }
            assert(before.shapes_grow(self));
            assert forall|h: PointHandle| self.has_point(h) implies #[trigger] self.point_linked(
                h,
            ) by {
                assert(before.has_point(h));
                assert(before.point_linked(h));
                if h.index != point_handle.index {
                    assert(self.points@.slots[h.index as int] == points_before.slots[h.index as int]);
                    before.lemma_point_stays_linked(self, h);
                } else {
                    assert(h == point_handle);
                    before.lemma_point_stays_in_shapes(self, h);
                    assert forall|k: int|
                        0 <= k < self.point(h).groups@.len() implies self.has_group(
                        #[trigger] self.point(h).groups@[k],
                    ) && self.group(self.point(h).groups@[k]).points@.contains(h) by {
                        if k < before.point(h).groups@.len() {
                            let g = before.point(h).groups@[k];
                            assert(before.has_group(g));
                            assert(before.group(g).points@.contains(h));
                        }
                    }
                    assert(before.group(before.all_group()).points@.contains(h));
                }
            }
            assert forall|h: GroupHandle| self.has_group(h) implies #[trigger] self.group_linked(
                h,
            ) by {
                assert(before.has_group(h));
                assert(before.group_linked(h));
                if h.index != group_handle.index {
                    assert(self.groups@.slots[h.index as int] == groups_before.slots[h.index as int]);
                    before.lemma_group_stays_linked(self, h);
                } else {
                    assert(h == group_handle);
                    assert forall|k: int|
                        0 <= k < self.group(h).points@.len() implies self.has_point(
                        #[trigger] self.group(h).points@[k],
                    ) && self.point(self.group(h).points@[k]).groups@.contains(h) by {
                        if k < before.group(h).points@.len() {
                            let p = before.group(h).points@[k];
                            assert(before.has_point(p));
                            assert(before.point(p).groups@.contains(h));
                        }
                    }
                }
            }
            assert forall|h: ShapeHandle| self.has_shape(h) implies #[trigger] self.shape_linked(
                h,
            ) by {
                before.lemma_shape_stays_linked(self, h);
            }
        }
    }

    /// Puts a point at the end of a shape, and the shape at the end of the
    /// point's list of shapes.
    fn link_point_to_shape(&mut self, point_handle: PointHandle, shape_handle: ShapeHandle)
        requires
            old(self).wf(),
            old(self).has_point(point_handle),
            old(self).has_shape(shape_handle),
        ensures
            final(self).wf(),
            old(self).all_exact() ==> final(self).all_exact(),
            final(self).all_group() == old(self).all_group(),
            final(self).groups() == old(self).groups(),
            final(self).points() == old(self).points().update(
                point_handle.index,
                point_handle.generation,
                final(self).point(point_handle),
            ),
            final(self).shapes() == old(self).shapes().update(
                shape_handle.index,
                shape_handle.generation,
                final(self).shape(shape_handle),
            ),
            final(self).point(point_handle).position == old(self).point(point_handle).position,
            final(self).point(point_handle).in_tangent == old(self).point(point_handle).in_tangent,
            final(self).point(point_handle).out_tangent == old(self).point(
                point_handle,
            ).out_tangent,
            final(self).point(point_handle).groups@ == old(self).point(point_handle).groups@,
            final(self).point(point_handle).shapes@ == old(self).point(point_handle).shapes@.push(
                shape_handle,
            ),
            final(self).shape(shape_handle).closed == old(self).shape(shape_handle).closed,
            final(self).shape(shape_handle).vertices@ == old(self).shape(shape_handle).vertices@.push(
                point_handle,
            ),
    {
        let ghost points_before = self.points@;
        let ghost shapes_before = self.shapes@;
        match self.points.get_mut(&point_handle) {
            Ok(point) => {
                point.shapes.push(shape_handle);
            },
            Err(_) => {},
        }
        match self.shapes.get_mut(&shape_handle) {
            Ok(shape) => {
                shape.vertices.push(point_handle);
            },
            Err(_) => {},
        }
        proof {
            let before = old(self);
            points_before.lemma_update_frame(
                point_handle.index,
                point_handle.generation,
                self.point(point_handle),
            );
            shapes_before.lemma_update_frame(
                shape_handle.index,
                shape_handle.generation,
                self.shape(shape_handle),
            );
            lemma_push_contains(before.shape(shape_handle).vertices@, point_handle);
            lemma_push_contains(before.point(point_handle).shapes@, shape_handle);
            assert(self.groups@ == before.groups@);
            assert(before.points_grow(self)) by {
                assert forall|p: PointHandle, g: ShapeHandle|
                    before.has_point(p) && #[trigger] before.point(p).shapes@.contains(
                        g,
                    ) implies self.point(p).shapes@.contains(g) by {
                    if p.index != point_handle.index {
                        assert(self.points@.slots[p.index as int] == points_before.slots[p.index as int]);
                    }
                }
                assert forall|p: PointHandle, s: GroupHandle|
                    before.has_point(p) && #[trigger] before.point(p).groups@.contains(
                        s,
                    ) implies self.point(p).groups@.contains(s) by {
                    if p.index != point_handle.index {
                        assert(self.points@.slots[p.index as int] == points_before.slots[p.index as int]);
                    }
                }
            }
            assert(before.groups_grow(self)) by {
                assert forall|g: ShapeHandle, p: PointHandle|
                    before.has_shape(g) && #[trigger] before.shape(g).vertices@.contains(
                        p,
                    ) implies self.shape(g).vertices@.contains(p) by {
                    if g.index != shape_handle.index {
                        assert(self.shapes@.slots[g.index as int] == shapes_before.slots[g.index as int]);
                    }
                }
            }
            assert(before.shapes_grow(self));
            assert forall|h: PointHandle| self.has_point(h) implies #[trigger] self.point_linked(
                h,
            ) by {
                assert(before.has_point(h));
                assert(before.point_linked(h));
                if h.index != point_handle.index {
                    assert(self.points@.slots[h.index as int] == points_before.slots[h.index as int]);
                    before.lemma_point_stays_linked(self, h);
                } else {
                    assert(h == point_handle);
                    before.lemma_point_stays_in_groups(self, h);
                    assert forall|k: int|
                        0 <= k < self.point(h).shapes@.len() implies self.has_shape(
                        #[trigger] self.point(h).shapes@[k],
                    ) && self.shape(self.point(h).shapes@[k]).vertices@.contains(h) by {
                        if k < before.point(h).shapes@.len() {
                            let g = before.point(h).shapes@[k];
                            assert(before.has_shape(g));
                            assert(before.shape(g).vertices@.contains(h));
                        }
                    }
                    assert(before.group(before.all_group()).points@.contains(h));
                }
            }
            assert forall|h: ShapeHandle| self.has_shape(h) implies #[trigger] self.shape_linked(
                h,
            ) by {
                assert(before.has_shape(h));
                assert(before.shape_linked(h));
                if h.index != shape_handle.index {
                    assert(self.shapes@.slots[h.index as int] == shapes_before.slots[h.index as int]);
                    before.lemma_shape_stays_linked(self, h);
                } else {
                    assert(h == shape_handle);
                    assert forall|k: int|
                        0 <= k < self.shape(h).vertices@.len() implies self.has_point(
                        #[trigger] self.shape(h).vertices@[k],
                    ) && self.point(self.shape(h).vertices@[k]).shapes@.contains(h) by {
                        if k < before.shape(h).vertices@.len() {
                            let p = before.shape(h).vertices@[k];
                            assert(before.has_point(p));
                            assert(before.point(p).shapes@.contains(h));
                        }
                    }
                }
            }
            assert forall|h: GroupHandle| self.has_group(h) implies #[trigger] self.group_linked(
                h,
            ) by {
                before.lemma_group_stays_linked(self, h);
            }
        }
    }

    /// Puts the handles that find a point at the end of a group, in their
    /// order, and the group at the end of each such point's list of groups,
    /// once for each time the point is put. Where the group does not exist
    /// nothing changes.
    pub fn add_points_to_group(
        &mut self,
        point_handles: Vec<PointHandle>,
        group_handle: &GroupHandle,
    )
        requires
            old(self).wf(),
        ensures
            final(self).wf(),
            old(self).all_exact() && *group_handle != old(self).all_group() ==> final(self).all_exact(),
            final(self).all_group() == old(self).all_group(),
            final(self).shapes() == old(self).shapes(),
            !old(self).has_group(*group_handle) ==> final(self).points() == old(self).points()
                && final(self).groups() == old(self).groups(),
            old(self).has_group(*group_handle) ==> {
                &&& final(self).groups() == old(self).groups().update(
                    group_handle.index,
                    group_handle.generation,
                    final(self).group(*group_handle),
                )
                &&& final(self).group(*group_handle).name@ == old(self).group(*group_handle).name@
                &&& final(self).group(*group_handle).points@ == old(self).group(
                    *group_handle,
                ).points@ + found_points(old(self).points(), point_handles@)
                &&& final(self).points().same_layout(old(self).points())
                &&& forall|p: PointHandle| #[trigger]
                    old(self).has_point(p) ==> {
                        &&& final(self).point(p).position == old(self).point(p).position
                        &&& final(self).point(p).in_tangent == old(self).point(p).in_tangent
                        &&& final(self).point(p).out_tangent == old(self).point(p).out_tangent
                        &&& final(self).point(p).shapes@ == old(self).point(p).shapes@
                        &&& final(self).point(p).groups@ == old(self).point(p).groups@ + repeated(
                            *group_handle,
                            occurrences(point_handles@, p),
                        )
                    }
            },
    {
        let group = *group_handle;
        if self.groups.get(&group).is_err() {
            return ;
        }
        let ghost before = *old(self);
        proof {
            let same = before.group(group);
            before.groups().lemma_update_frame(group.index, group.generation, same);
            assert(before.groups().update(group.index, group.generation, same).slots
                =~= before.groups().slots);
            assert(before.group(group).points@ + found_points(
                before.points(),
                point_handles@.take(0),
            ) =~= before.group(group).points@);
            assert forall|p: PointHandle| #[trigger] before.has_point(p) implies before.point(
                p,
            ).groups@ == before.point(p).groups@ + repeated(
                group,
                occurrences(point_handles@.take(0), p),
            ) by {
                assert(before.point(p).groups@ + repeated(group, 0) =~= before.point(p).groups@);
            }
        }
        let mut current: usize = 0;
        let length = point_handles.len();
        while current < length
            invariant
                current <= length,
                length == point_handles@.len(),
                before.wf(),
                before.has_group(group),
                before.all_exact() && group != before.all_group() ==> self.all_exact(),
                self.wf(),
                self.all_group() == before.all_group(),
                self.shapes() == before.shapes(),
                self.groups() == before.groups().update(
                    group.index,
                    group.generation,
                    self.group(group),
                ),
                self.group(group).name@ == before.group(group).name@,
                self.group(group).points@ == before.group(group).points@ + found_points(
                    before.points(),
                    point_handles@.take(current as int),
                ),
                self.points().same_layout(before.points()),
                forall|p: PointHandle| #[trigger]
                    before.has_point(p) ==> {
                        &&& self.point(p).position == before.point(p).position
                        &&& self.point(p).in_tangent == before.point(p).in_tangent
                        &&& self.point(p).out_tangent == before.point(p).out_tangent
                        &&& self.point(p).shapes@ == before.point(p).shapes@
                        &&& self.point(p).groups@ == before.point(p).groups@ + repeated(
                            group,
                            occurrences(point_handles@.take(current as int), p),
                        )
                    },
            decreases length - current,
        {
            let point_handle = point_handles[current];
            let ghost previous = *self;
            let ghost done = point_handles@.take(current as int);
            let ghost next = point_handles@.take(current + 1);
            proof {
                assert(next.drop_last() =~= done);
                assert(next.last() == point_handle);
                previous.groups().lemma_update_frame(
                    group.index,
                    group.generation,
                    previous.group(group),
                );
            }
            if self.points.get(&point_handle).is_ok() {
                self.link_point_to_group(point_handle, group);
                proof {
                    previous.points().lemma_update_frame(
                        point_handle.index,
                        point_handle.generation,
                        self.point(point_handle),
                    );
                    assert(before.has_point(point_handle));
                    assert(self.groups().slots =~= before.groups().update(
                        group.index,
                        group.generation,
                        self.group(group),
                    ).slots);
                    assert(self.group(group).points@ =~= before.group(group).points@
                        + found_points(before.points(), next));
                    assert forall|p: PointHandle| #[trigger] before.has_point(p) implies {
                        &&& self.point(p).position == before.point(p).position
                        &&& self.point(p).in_tangent == before.point(p).in_tangent
                        &&& self.point(p).out_tangent == before.point(p).out_tangent
                        &&& self.point(p).shapes@ == before.point(p).shapes@
                        &&& self.point(p).groups@ == before.point(p).groups@ + repeated(
                            group,
                            occurrences(next, p),
                        )
                    } by {
                        assert(previous.has_point(p));
                        if p.index == point_handle.index {
                            assert(p == point_handle);
                            assert(self.point(p).groups@ =~= before.point(p).groups@ + repeated(
                                group,
                                occurrences(next, p),
                            ));
                        } else {
                            assert(self.points().slots[p.index as int]
                                == previous.points().slots[p.index as int]);
                        }
                    }
                }
            } else {
                proof {
                    assert(!before.has_point(point_handle));
                    assert forall|p: PointHandle| #[trigger] before.has_point(p) implies {
                        &&& self.point(p).position == before.point(p).position
                        &&& self.point(p).in_tangent == before.point(p).in_tangent
                        &&& self.point(p).out_tangent == before.point(p).out_tangent
                        &&& self.point(p).shapes@ == before.point(p).shapes@
                        &&& self.point(p).groups@ == before.point(p).groups@ + repeated(
                            group,
                            occurrences(next, p),
                        )
                    } by {
                        assert(p != point_handle);
                    }
                }
            }
            current += 1;
        }
        proof {
            assert(point_handles@.take(length as int) =~= point_handles@);
        }
    }

    pub fn add_point_to_group(&mut self, point_handle: &PointHandle, group_handle: &GroupHandle)
        requires
            old(self).wf(),
        ensures
            final(self).wf(),
            old(self).all_exact() && *group_handle != old(self).all_group() ==> final(self).all_exact(),
            final(self).all_group() == old(self).all_group(),
            final(self).shapes() == old(self).shapes(),
            !(old(self).has_group(*group_handle)
                && old(self).has_point(*point_handle)) ==>
                final(self).points() == old(self).points()
                && final(self).groups() == old(self).groups(),
            old(self).has_group(*group_handle) && old(self).has_point(*point_handle) ==> {
                &&& final(self).groups() == old(self).groups().update(
                    group_handle.index,
                    group_handle.generation,
                    final(self).group(*group_handle),
                )
                &&& final(self).points() == old(self).points().update(
                    point_handle.index,
                    point_handle.generation,
                    final(self).point(*point_handle),
                )
                &&& final(self).group(*group_handle).name@ == old(self).group(*group_handle).name@
                &&& final(self).group(*group_handle).points@ == old(self).group(
                    *group_handle,
                ).points@.push(*point_handle)
                &&& final(self).point(*point_handle).position == old(self).point(
                    *point_handle,
                ).position
                &&& final(self).point(*point_handle).in_tangent == old(self).point(
                    *point_handle,
                ).in_tangent
                &&& final(self).point(*point_handle).out_tangent == old(self).point(
                    *point_handle,
                ).out_tangent
                &&& final(self).point(*point_handle).shapes@ == old(self).point(
                    *point_handle,
                ).shapes@
                &&& final(self).point(*point_handle).groups@ == old(self).point(
                    *point_handle,
                ).groups@.push(*group_handle)
            },
    {
        if self.groups.get(group_handle).is_ok() && self.points.get(point_handle).is_ok() {
            self.link_point_to_group(*point_handle, *group_handle);
        }
    }

    /// Puts the handles that find a point at the end of a shape, in their
    /// order, and the shape at the end of each such point's list of shapes,
    /// once for each time the point is put. Where the shape does not exist
    /// nothing changes.
    pub fn add_points_to_shape(
        &mut self,
        point_handles: Vec<PointHandle>,
        shape_handle: &ShapeHandle,
    )
        requires
            old(self).wf(),
        ensures
            final(self).wf(),
            old(self).all_exact() ==> final(self).all_exact(),
            final(self).all_group() == old(self).all_group(),
            final(self).groups() == old(self).groups(),
            !old(self).has_shape(*shape_handle) ==> final(self).points() == old(self).points()
                && final(self).shapes() == old(self).shapes(),
            old(self).has_shape(*shape_handle) ==> {
                &&& final(self).shapes() == old(self).shapes().update(
                    shape_handle.index,
                    shape_handle.generation,
                    final(self).shape(*shape_handle),
                )
                &&& final(self).shape(*shape_handle).closed == old(self).shape(*shape_handle).closed
                &&& final(self).shape(*shape_handle).vertices@ == old(self).shape(
                    *shape_handle,
                ).vertices@ + found_points(old(self).points(), point_handles@)
                &&& final(self).points().same_layout(old(self).points())
                &&& forall|p: PointHandle| #[trigger]
                    old(self).has_point(p) ==> {
                        &&& final(self).point(p).position == old(self).point(p).position
                        &&& final(self).point(p).in_tangent == old(self).point(p).in_tangent
                        &&& final(self).point(p).out_tangent == old(self).point(p).out_tangent
                        &&& final(self).point(p).groups@ == old(self).point(p).groups@
                        &&& final(self).point(p).shapes@ == old(self).point(p).shapes@ + repeated(
                            *shape_handle,
                            occurrences(point_handles@, p),
                        )
                    }
            },
    {
        let shape = *shape_handle;
        if self.shapes.get(&shape).is_err() {
            return ;
        }
        let ghost before = *old(self);
        proof {
            let same = before.shape(shape);
            before.shapes().lemma_update_frame(shape.index, shape.generation, same);
            assert(before.shapes().update(shape.index, shape.generation, same).slots
                =~= before.shapes().slots);
            assert(before.shape(shape).vertices@ + found_points(
                before.points(),
                point_handles@.take(0),
            ) =~= before.shape(shape).vertices@);
            assert forall|p: PointHandle| #[trigger] before.has_point(p) implies before.point(
                p,
            ).shapes@ == before.point(p).shapes@ + repeated(
                shape,
                occurrences(point_handles@.take(0), p),
            ) by {
                assert(before.point(p).shapes@ + repeated(shape, 0) =~= before.point(p).shapes@);
            }
        }
        let mut current: usize = 0;
        let length = point_handles.len();
        while current < length
            invariant
                current <= length,
                length == point_handles@.len(),
                before.wf(),
                before.has_shape(shape),
                before.all_exact() ==> self.all_exact(),
                self.wf(),
                self.all_group() == before.all_group(),
                self.groups() == before.groups(),
                self.shapes() == before.shapes().update(
                    shape.index,
                    shape.generation,
                    self.shape(shape),
                ),
                self.shape(shape).closed == before.shape(shape).closed,
                self.shape(shape).vertices@ == before.shape(shape).vertices@ + found_points(
                    before.points(),
                    point_handles@.take(current as int),
                ),
                self.points().same_layout(before.points()),
                forall|p: PointHandle| #[trigger]
                    before.has_point(p) ==> {
                        &&& self.point(p).position == before.point(p).position
                        &&& self.point(p).in_tangent == before.point(p).in_tangent
                        &&& self.point(p).out_tangent == before.point(p).out_tangent
                        &&& self.point(p).groups@ == before.point(p).groups@
                        &&& self.point(p).shapes@ == before.point(p).shapes@ + repeated(
                            shape,
                            occurrences(point_handles@.take(current as int), p),
                        )
                    },
            decreases length - current,
        {
            let point_handle = point_handles[current];
            let ghost previous = *self;
            let ghost done = point_handles@.take(current as int);
            let ghost next = point_handles@.take(current + 1);
            proof {
                assert(next.drop_last() =~= done);
                assert(next.last() == point_handle);
                previous.shapes().lemma_update_frame(
                    shape.index,
                    shape.generation,
                    previous.shape(shape),
                );
            }
            if self.points.get(&point_handle).is_ok() {
                self.link_point_to_shape(point_handle, shape);
                proof {
                    previous.points().lemma_update_frame(
                        point_handle.index,
                        point_handle.generation,
                        self.point(point_handle),
                    );
                    assert(before.has_point(point_handle));
                    assert(self.shapes().slots =~= before.shapes().update(
                        shape.index,
                        shape.generation,
                        self.shape(shape),
                    ).slots);
                    assert(self.shape(shape).vertices@ =~= before.shape(shape).vertices@
                        + found_points(before.points(), next));
                    assert forall|p: PointHandle| #[trigger] before.has_point(p) implies {
                        &&& self.point(p).position == before.point(p).position
                        &&& self.point(p).in_tangent == before.point(p).in_tangent
                        &&& self.point(p).out_tangent == before.point(p).out_tangent
                        &&& self.point(p).groups@ == before.point(p).groups@
                        &&& self.point(p).shapes@ == before.point(p).shapes@ + repeated(
                            shape,
                            occurrences(next, p),
                        )
                    } by {
                        assert(previous.has_point(p));
                        if p.index == point_handle.index {
                            assert(p == point_handle);
                            assert(self.point(p).shapes@ =~= before.point(p).shapes@ + repeated(
                                shape,
                                occurrences(next, p),
                            ));
                        } else {
                            assert(self.points().slots[p.index as int]
                                == previous.points().slots[p.index as int]);
                        }
                    }
                }
            } else {
                proof {
                    assert(!before.has_point(point_handle));
                    assert forall|p: PointHandle| #[trigger] before.has_point(p) implies {
                        &&& self.point(p).position == before.point(p).position
                        &&& self.point(p).in_tangent == before.point(p).in_tangent
                        &&& self.point(p).out_tangent == before.point(p).out_tangent
                        &&& self.point(p).groups@ == before.point(p).groups@
                        &&& self.point(p).shapes@ == before.point(p).shapes@ + repeated(
                            shape,
                            occurrences(next, p),
                        )
                    } by {
                        assert(p != point_handle);
                    }
                }
            }
            current += 1;
        }
        proof {
            assert(point_handles@.take(length as int) =~= point_handles@);
        }
    }

    pub fn add_point_to_shape(&mut self, point_handle: &PointHandle, shape_handle: &ShapeHandle)
        requires
            old(self).wf(),
        ensures
            final(self).wf(),
            old(self).all_exact() ==> final(self).all_exact(),
            final(self).all_group() == old(self).all_group(),
            final(self).groups() == old(self).groups(),
            !(old(self).has_shape(*shape_handle)
                && old(self).has_point(*point_handle)) ==>
                final(self).points() == old(self).points()
                && final(self).shapes() == old(self).shapes(),
            old(self).has_shape(*shape_handle) && old(self).has_point(*point_handle) ==> {
                &&& final(self).shapes() == old(self).shapes().update(
                    shape_handle.index,
                    shape_handle.generation,
                    final(self).shape(*shape_handle),
                )
                &&& final(self).points() == old(self).points().update(
                    point_handle.index,
                    point_handle.generation,
                    final(self).point(*point_handle),
                )
                &&& final(self).shape(*shape_handle).closed == old(self).shape(*shape_handle).closed
                &&& final(self).shape(*shape_handle).vertices@ == old(self).shape(
                    *shape_handle,
                ).vertices@.push(*point_handle)
                &&& final(self).point(*point_handle).position == old(self).point(
                    *point_handle,
                ).position
                &&& final(self).point(*point_handle).in_tangent == old(self).point(
                    *point_handle,
                ).in_tangent
                &&& final(self).point(*point_handle).out_tangent == old(self).point(
                    *point_handle,
                ).out_tangent
                &&& final(self).point(*point_handle).groups@ == old(self).point(
                    *point_handle,
                ).groups@
                &&& final(self).point(*point_handle).shapes@ == old(self).point(
                    *point_handle,
                ).shapes@.push(*shape_handle)
            },
    {
        if self.shapes.get(shape_handle).is_ok() && self.points.get(point_handle).is_ok() {
            self.link_point_to_shape(*point_handle, *shape_handle);
        }
    }

    /// A handle that finds no point is in no group and in no shape.
    proof fn lemma_absent_point_unlisted(&self, point_handle: PointHandle)
        requires
            self.wf(),
            !self.has_point(point_handle),
        ensures
            forall|g: GroupHandle| #[trigger]
                self.has_group(g) ==> !self.group(g).points@.contains(point_handle),
            forall|s: ShapeHandle| #[trigger]
                self.has_shape(s) ==> !self.shape(s).vertices@.contains(point_handle),
    {
        assert forall|g: GroupHandle| #[trigger] self.has_group(g) implies !self.group(
            g,
        ).points@.contains(point_handle) by {
            assert(self.group_linked(g));
            if self.group(g).points@.contains(point_handle) {
                let k = choose|k: int|
                    0 <= k < self.group(g).points@.len() && self.group(g).points@[k]
                        == point_handle;
                assert(self.has_point(self.group(g).points@[k]));
            }
        }
        assert forall|s: ShapeHandle| #[trigger] self.has_shape(s) implies !self.shape(
            s,
        ).vertices@.contains(point_handle) by {
            assert(self.shape_linked(s));
            if self.shape(s).vertices@.contains(point_handle) {
                let k = choose|k: int|
                    0 <= k < self.shape(s).vertices@.len() && self.shape(s).vertices@[k]
                        == point_handle;
                assert(self.has_point(self.shape(s).vertices@[k]));
            }
        }
    }

    /// Takes a point out of every group and shape that holds it, and then
    /// out of the world. A handle that finds no point changes nothing; it is
    /// an error where its slot does not exist or has another generation.
    pub fn remove_point(&mut self, point_handle: PointHandle) -> (result: Result<
        (),
        GeometryWorldError,
    >)
        requires
            old(self).wf(),
        ensures
            final(self).wf(),
            old(self).all_exact() ==> final(self).all_exact(),
            final(self).all_group() == old(self).all_group(),
            final(self).points() == old(self).points().remove(
                point_handle.index,
                point_handle.generation,
            ),
            final(self).groups().same_layout(old(self).groups()),
            final(self).shapes().same_layout(old(self).shapes()),
            forall|g: GroupHandle| #[trigger]
                old(self).has_group(g) ==> final(self).group(g).name@ == old(self).group(g).name@
                    && final(self).group(g).points@ == removed(
                    old(self).group(g).points@,
                    point_handle,
                ),
            forall|s: ShapeHandle| #[trigger]
                old(self).has_shape(s) ==> final(self).shape(s).closed == old(self).shape(s).closed
                    && final(self).shape(s).vertices@ == removed(
                    old(self).shape(s).vertices@,
                    point_handle,
                ),
            match old(self).points().lookup(point_handle.index, point_handle.generation) {
                Lookup::Missing => result is Err,
                Lookup::Stale => result is Err,
                _ => result is Ok,
            },
    {
        let ghost before = *old(self);
        let mut group_list: Vec<GroupHandle> = Vec::new();
        let mut shape_list: Vec<ShapeHandle> = Vec::new();
        let mut found = false;
        let mut failed = false;
        match self.points.get(&point_handle) {
            Ok(point) => {
                group_list = point.groups.clone();
                shape_list = point.shapes.clone();
                assert(group_list@ =~= point.groups@);
                assert(shape_list@ =~= point.shapes@);
                found = true;
            },
            Err(HandledVecError::IndexUnoccupied) => {},
            Err(_) => {
                failed = true;
            },
        }
        if !found {
            proof {
                before.lemma_absent_point_unlisted(point_handle);
                assert forall|g: GroupHandle| #[trigger] before.has_group(g) implies removed(
                    before.group(g).points@,
                    point_handle,
                ) == before.group(g).points@ by {
                    lemma_removed(before.group(g).points@, point_handle);
                }
                assert forall|s: ShapeHandle| #[trigger] before.has_shape(s) implies removed(
                    before.shape(s).vertices@,
                    point_handle,
                ) == before.shape(s).vertices@ by {
                    lemma_removed(before.shape(s).vertices@, point_handle);
                }
            }
            if failed {
                return Err(GeometryWorldError::Error("Couldn't remove point!"));
            }
            return Ok(());
        }
        unlist_point_from_groups(&mut self.groups, &group_list, point_handle);
        unlist_point_from_shapes(&mut self.shapes, &shape_list, point_handle);
        let removal = self.points.remove_entry(point_handle);
        proof {
            if before.all_exact() {
                lemma_removed_once(before.group(before.all_group()).points@, point_handle);
            }
            before.points().lemma_remove_frame(point_handle.index, point_handle.generation);
            assert forall|g: GroupHandle| #[trigger] before.has_group(g) implies self.group(
                g,
            ).points@ == removed(before.group(g).points@, point_handle) by {
                lemma_removed(before.group(g).points@, point_handle);
                if !group_list@.contains(g) {
                    assert(before.group_linked(g));
                    if before.group(g).points@.contains(point_handle) {
                        let k = choose|k: int|
                            0 <= k < before.group(g).points@.len() && before.group(g).points@[k]
                                == point_handle;
                        assert(before.point(before.group(g).points@[k]).groups@.contains(g));
                    }
                }
            }
            assert forall|s: ShapeHandle| #[trigger] before.has_shape(s) implies self.shape(
                s,
            ).vertices@ == removed(before.shape(s).vertices@, point_handle) by {
                lemma_removed(before.shape(s).vertices@, point_handle);
                if !shape_list@.contains(s) {
                    assert(before.shape_linked(s));
                    if before.shape(s).vertices@.contains(point_handle) {
                        let k = choose|k: int|
                            0 <= k < before.shape(s).vertices@.len() && before.shape(
                                s,
                            ).vertices@[k] == point_handle;
                        assert(before.point(before.shape(s).vertices@[k]).shapes@.contains(s));
                    }
                }
            }
            assert forall|h: PointHandle| self.has_point(h) implies #[trigger] self.point_linked(
                h,
            ) by {
                assert(before.has_point(h));
                assert(before.point_linked(h));
                assert(h != point_handle);
                assert(self.points().slots[h.index as int] == before.points().slots[h.index as int]);
                assert forall|k: int| 0 <= k < self.point(h).groups@.len() implies self.has_group(
                    #[trigger] self.point(h).groups@[k],
                ) && self.group(self.point(h).groups@[k]).points@.contains(h) by {
                    let g = before.point(h).groups@[k];
                    assert(before.has_group(g));
                    lemma_removed(before.group(g).points@, point_handle);
                }
                assert forall|k: int| 0 <= k < self.point(h).shapes@.len() implies self.has_shape(
                    #[trigger] self.point(h).shapes@[k],
                ) && self.shape(self.point(h).shapes@[k]).vertices@.contains(h) by {
                    let s = before.point(h).shapes@[k];
                    assert(before.has_shape(s));
                    lemma_removed(before.shape(s).vertices@, point_handle);
                }
                lemma_removed(before.group(before.all_group()).points@, point_handle);
            }
            assert forall|h: GroupHandle| self.has_group(h) implies #[trigger] self.group_linked(
                h,
            ) by {
                assert(before.has_group(h));
                assert(before.group_linked(h));
                lemma_removed(before.group(h).points@, point_handle);
                assert forall|k: int| 0 <= k < self.group(h).points@.len() implies self.has_point(
                    #[trigger] self.group(h).points@[k],
                ) && self.point(self.group(h).points@[k]).groups@.contains(h) by {
                    let m = self.group(h).points@[k];
                    assert(before.group(h).points@.contains(m));
                    let j = choose|j: int|
                        0 <= j < before.group(h).points@.len() && before.group(h).points@[j] == m;
                    assert(before.has_point(before.group(h).points@[j]));
                    assert(self.group(h).points@.contains(m));
                    assert(m != point_handle);
                    assert(self.points().slots[m.index as int] == before.points().slots[m.index as int]);
                }
            }
            assert forall|h: ShapeHandle| self.has_shape(h) implies #[trigger] self.shape_linked(
                h,
            ) by {
                assert(before.has_shape(h));
                assert(before.shape_linked(h));
                lemma_removed(before.shape(h).vertices@, point_handle);
                assert forall|k: int|
                    0 <= k < self.shape(h).vertices@.len() implies self.has_point(
                    #[trigger] self.shape(h).vertices@[k],
                ) && self.point(self.shape(h).vertices@[k]).shapes@.contains(h) by {
                    let m = self.shape(h).vertices@[k];
                    assert(before.shape(h).vertices@.contains(m));
                    let j = choose|j: int|
                        0 <= j < before.shape(h).vertices@.len() && before.shape(h).vertices@[j]
                            == m;
                    assert(before.has_point(before.shape(h).vertices@[j]));
                    assert(self.shape(h).vertices@.contains(m));
                    assert(m != point_handle);
                    assert(self.points().slots[m.index as int] == before.points().slots[m.index as int]);
                }
            }
        }
        Ok(())
    }

    /// Takes a shape out of the list of shapes of each of its points, and
    /// then out of the world. A handle that finds no shape changes nothing.
    pub fn remove_shape(&mut self, handle: ShapeHandle) -> (result: Result<(), HandledVecError>)
        requires
            old(self).wf(),
        ensures
            final(self).wf(),
            old(self).all_exact() ==> final(self).all_exact(),
            final(self).all_group() == old(self).all_group(),
            final(self).groups() == old(self).groups(),
            final(self).shapes() == old(self).shapes().remove(handle.index, handle.generation),
            final(self).points().same_layout(old(self).points()),
            forall|p: PointHandle| #[trigger]
                old(self).has_point(p) ==> {
                    &&& final(self).point(p).position == old(self).point(p).position
                    &&& final(self).point(p).in_tangent == old(self).point(p).in_tangent
                    &&& final(self).point(p).out_tangent == old(self).point(p).out_tangent
                    &&& final(self).point(p).groups@ == old(self).point(p).groups@
                    &&& final(self).point(p).shapes@ == removed(
                        old(self).point(p).shapes@,
                        handle,
                    )
                },
            match old(self).shapes().lookup(handle.index, handle.generation) {
                Lookup::Missing => result == Err::<(), _>(HandledVecError::IndexDoesNotExist),
                Lookup::Stale => result == Err::<(), _>(HandledVecError::GenerationMismatch),
                _ => result is Ok,
            },
    {
        let ghost before = *old(self);
        let mut vertex_list: Vec<PointHandle> = Vec::new();
        match self.shapes.get(&handle) {
            Ok(shape) => {
                vertex_list = shape.vertices.clone();
                assert(vertex_list@ =~= shape.vertices@);
            },
            Err(_) => {},
        }
        unlist_shape_from_points(&mut self.points, &vertex_list, handle);
        let result = self.shapes.remove_entry(handle);
        proof {
            before.shapes().lemma_remove_frame(handle.index, handle.generation);
            assert forall|p: PointHandle| #[trigger] before.has_point(p) implies self.point(
                p,
            ).shapes@ == removed(before.point(p).shapes@, handle) by {
                lemma_removed(before.point(p).shapes@, handle);
                if !vertex_list@.contains(p) {
                    assert(before.point_linked(p));
                    if before.point(p).shapes@.contains(handle) {
                        let k = choose|k: int|
                            0 <= k < before.point(p).shapes@.len() && before.point(p).shapes@[k]
                                == handle;
                        assert(before.has_shape(before.point(p).shapes@[k]));
                        assert(before.shape(before.point(p).shapes@[k]).vertices@.contains(p));
                    }
                }
            }
            assert forall|h: PointHandle| self.has_point(h) implies #[trigger] self.point_linked(
                h,
            ) by {
                assert(before.has_point(h));
                assert(before.point_linked(h));
                lemma_removed(before.point(h).shapes@, handle);
                assert forall|k: int| 0 <= k < self.point(h).groups@.len() implies self.has_group(
                    #[trigger] self.point(h).groups@[k],
                ) && self.group(self.point(h).groups@[k]).points@.contains(h) by {
                    let g = before.point(h).groups@[k];
                    assert(before.has_group(g));
                }
                assert forall|k: int| 0 <= k < self.point(h).shapes@.len() implies self.has_shape(
                    #[trigger] self.point(h).shapes@[k],
                ) && self.shape(self.point(h).shapes@[k]).vertices@.contains(h) by {
                    let s = self.point(h).shapes@[k];
                    assert(before.point(h).shapes@.contains(s));
                    let j = choose|j: int|
                        0 <= j < before.point(h).shapes@.len() && before.point(h).shapes@[j] == s;
                    assert(before.has_shape(before.point(h).shapes@[j]));
                    assert(self.point(h).shapes@.contains(s));
                    assert(s != handle);
                    assert(self.shapes().slots[s.index as int] == before.shapes().slots[s.index as int]);
                }
            }
            assert forall|h: GroupHandle| self.has_group(h) implies #[trigger] self.group_linked(
                h,
            ) by {
                assert(before.group_linked(h));
                assert forall|k: int| 0 <= k < self.group(h).points@.len() implies self.has_point(
                    #[trigger] self.group(h).points@[k],
                ) && self.point(self.group(h).points@[k]).groups@.contains(h) by {
                    let m = before.group(h).points@[k];
                    assert(before.has_point(m));
                }
            }
            assert forall|h: ShapeHandle| self.has_shape(h) implies #[trigger] self.shape_linked(
                h,
            ) by {
                assert(before.has_shape(h));
                assert(h != handle);
                assert(before.shape_linked(h));
                assert(self.shapes().slots[h.index as int] == before.shapes().slots[h.index as int]);
                assert forall|k: int|
                    0 <= k < self.shape(h).vertices@.len() implies self.has_point(
                    #[trigger] self.shape(h).vertices@[k],
                ) && self.point(self.shape(h).vertices@[k]).shapes@.contains(h) by {
                    let m = before.shape(h).vertices@[k];
                    assert(before.has_point(m));
                    assert(before.point(m).shapes@.contains(h));
                    lemma_removed(before.point(m).shapes@, handle);
                }
            }
        }
        result
    }

    /// A world whose containers are in order is in order when it has the
    /// slots in use that a world in order has, and every list in it is the
    /// list that is there.
    proof fn lemma_lists_kept(&self, later: &GeometryWorld)
        requires
            self.wf(),
            later.points.wf(),
            later.groups.wf(),
            later.shapes.wf(),
            later.all_group() == self.all_group(),
            later.points().same_layout(self.points()),
            later.groups().same_layout(self.groups()),
            later.shapes().same_layout(self.shapes()),
            forall|p: PointHandle| #[trigger]
                self.has_point(p) ==> later.point(p).groups@ == self.point(p).groups@
                    && later.point(p).shapes@ == self.point(p).shapes@,
            forall|g: GroupHandle| #[trigger]
                self.has_group(g) ==> later.group(g).points@ == self.group(g).points@
                    && later.group(g).name@ == self.group(g).name@,
            forall|s: ShapeHandle| #[trigger]
                self.has_shape(s) ==> later.shape(s).vertices@ == self.shape(s).vertices@,
        ensures
            later.wf(),
    {
        assert(self.points_grow(later));
        assert(self.groups_grow(later));
        assert(self.shapes_grow(later));
        assert forall|h: PointHandle| later.has_point(h) implies #[trigger] later.point_linked(
            h,
        ) by {
            assert(self.has_point(h));
            self.lemma_point_stays_linked(later, h);
        }
        assert forall|h: GroupHandle| later.has_group(h) implies #[trigger] later.group_linked(
            h,
        ) by {
            assert(self.has_group(h));
            self.lemma_group_stays_linked(later, h);
        }
        assert forall|h: ShapeHandle| later.has_shape(h) implies #[trigger] later.shape_linked(
            h,
        ) by {
            assert(self.has_shape(h));
            self.lemma_shape_stays_linked(later, h);
        }
    }

    /// Gives a point a new position and new tangents. The groups and shapes
    /// that the point is in stay as they are.
    pub fn set_point(&mut self, handle: &PointHandle, point: Point) -> (result: Result<
        (),
        GeometryWorldError,
    >)
        requires
            old(self).wf(),
        ensures
            final(self).wf(),
            old(self).all_exact() ==> final(self).all_exact(),
            final(self).all_group() == old(self).all_group(),
            final(self).groups() == old(self).groups(),
            final(self).shapes() == old(self).shapes(),
            !old(self).has_point(*handle) ==> result is Err && final(self).points() == old(self).points(),
            old(self).has_point(*handle) ==> {
                &&& result is Ok
                &&& final(self).points() == old(self).points().update(
                    handle.index,
                    handle.generation,
                    final(self).point(*handle),
                )
                &&& final(self).point(*handle).position == point.position
                &&& final(self).point(*handle).in_tangent == point.in_tangent
                &&& final(self).point(*handle).out_tangent == point.out_tangent
                &&& final(self).point(*handle).groups@ == old(self).point(*handle).groups@
                &&& final(self).point(*handle).shapes@ == old(self).point(*handle).shapes@
            },
    {
        let ghost before = *old(self);
        match self.points.get_mut(handle) {
            Ok(stored) => {
                stored.position = point.position;
                stored.in_tangent = point.in_tangent;
                stored.out_tangent = point.out_tangent;
            },
            Err(_) => {
                proof {
                    before.lemma_lists_kept(self);
                }
                return Err(GeometryWorldError::Error("Couldn't update point!"));
            },
        }
        proof {
            before.points().lemma_update_frame(
                handle.index,
                handle.generation,
                self.point(*handle),
            );
            assert forall|p: PointHandle| #[trigger] before.has_point(p) implies self.point(
                p,
            ).groups@ == before.point(p).groups@ && self.point(p).shapes@ == before.point(
                p,
            ).shapes@ by {
                if p.index != handle.index {
                    assert(self.points().slots[p.index as int] == before.points().slots[p.index as int]);
                }
            }
            before.lemma_lists_kept(self);
        }
        Ok(())
    }

    /// The handle of the point slot at an index, in use or not.
    pub fn get_point_handle_from_index(&self, index: usize) -> (handle: PointHandle)
        requires
            index < self.points().slots.len(),
        ensures
            handle == handle_at::<Point>(index as int, self.points().slots[index as int].generation),
    {
        match self.points.get_handle_for_index(index) {
            Some(handle) => handle,
            None => MarkedHandle::new(index, 0),
        }
    }

    /// The handle of the group of all points.
    pub fn get_all_group_handle(&self) -> (handle: GroupHandle)
        ensures
            handle == self.all_group(),
    {
        self.all_point_group_handle
    }

    /// The number of points.
    pub fn get_live_point_count(&self) -> (count: usize)
        requires
            self.wf(),
        ensures
            count == self.points().count(),
    {
        self.points.get_entity_count()
    }

    /// The number of shapes.
    pub fn get_shape_count(&self) -> (count: usize)
        requires
            self.wf(),
        ensures
            count == self.shapes().count(),
    {
        self.shapes.get_entity_count()
    }

    /// The number of group slots; every one of them holds a group.
    pub fn get_group_count(&self) -> (count: usize)
        requires
            self.wf(),
        ensures
            count == self.groups().slots.len(),
            count >= 1,
    {
        self.groups.get_length()
    }

    /// The handle of the group in a slot.
    pub fn get_group_handle_from_index(&self, index: usize) -> (handle: GroupHandle)
        requires
            self.wf(),
            index < self.groups().slots.len(),
        ensures
            handle == handle_at::<Group>(index as int, self.groups().slots[index as int].generation),
            self.has_group(handle),
    {
        match self.groups.get_handle_for_index(index) {
            Some(handle) => handle,
            None => MarkedHandle::new(index, 0),
        }
    }

    /// The number of shape slots, in use or not.
    pub fn get_shape_slot_count(&self) -> (count: usize)
        ensures
            count == self.shapes().slots.len(),
    {
        self.shapes.get_length()
    }

    /// The shape in a slot, if the slot holds one.
    pub fn get_shape_in_slot(&self, index: usize) -> (shape: Option<&Shape>)
        requires
            self.wf(),
        ensures
            shape == if index < self.shapes().slots.len() && self.shapes().slots[index as int].occupied {
                Some(&self.shapes().slots[index as int].data->0)
            } else {
                None
            },
    {
        match self.shapes.get_field(index) {
            Some(field) => match field.get_data() {
                Some(shape) => Some(shape),
                None => None,
            },
            None => None,
        }
    }

    /// The handle of the shape slot at an index, in use or not.
    pub fn get_shape_handle_from_index(&self, index: usize) -> (handle: ShapeHandle)
        requires
            index < self.shapes().slots.len(),
        ensures
            handle == handle_at::<Shape>(index as int, self.shapes().slots[index as int].generation),
    {
        match self.shapes.get_handle_for_index(index) {
            Some(handle) => handle,
            None => MarkedHandle::new(index, 0),
        }
    }

    /// The points of the group of all points.
    pub fn get_all_points(&self) -> (points: &[PointHandle])
        requires
            self.wf(),
        ensures
            points@ == self.group(self.all_group()).points@,
    {
        match self.groups.get(&self.all_point_group_handle) {
            Ok(group) => group.points.as_slice(),
            Err(_) => vstd::pervasive::unreached(),
        }
    }

    /// The first group, in index order, that has the name.
    pub open spec fn group_named(&self, name: Seq<char>) -> Option<GroupHandle> {
        first_named(self.groups().slots, name, 0)
    }

    pub fn get_group_by_name(&self, name: &str) -> (handle: Option<GroupHandle>)
        requires
            self.wf(),
        ensures
            handle == self.group_named(name@),
    {
        let wanted = name.to_string();
        let length = self.groups.get_length();
        let mut current: usize = 0;
        while current < length
            invariant
                current <= length,
                length == self.groups().slots.len(),
                self.wf(),
                wanted@ == name@,
                first_named(self.groups().slots, name@, 0) == first_named(
                    self.groups().slots,
                    name@,
                    current as int,
                ),
            decreases length - current,
        {
            if let Some(field) = self.groups.get_field(current) {
                if let Some(group) = field.get_data() {
                    if group.name == wanted {
                        return Some(MarkedHandle::new(current, field.get_generation()));
                    }
                }
            }
            current += 1;
        }
        None
    }

    /// Gives every point the position and the tangents that `func` makes of
    /// it, in index order.
    pub fn mutate_all_points<F: Fn(&Point) -> (Position, Position, Position)>(&mut self, func: F)
        requires
            old(self).wf(),
            forall|p: PointHandle| #[trigger]
                old(self).has_point(p) ==> call_requires(func, (&old(self).point(p),)),
        ensures
            final(self).wf(),
            old(self).all_exact() ==> final(self).all_exact(),
            final(self).all_group() == old(self).all_group(),
            final(self).groups() == old(self).groups(),
            final(self).shapes() == old(self).shapes(),
            final(self).points().same_layout(old(self).points()),
            forall|p: PointHandle| #[trigger]
                old(self).has_point(p) ==> {
                    &&& final(self).point(p).groups@ == old(self).point(p).groups@
                    &&& final(self).point(p).shapes@ == old(self).point(p).shapes@
                    &&& call_ensures(
                        func,
                        (&old(self).point(p),),
                        (
                            final(self).point(p).position,
                            final(self).point(p).in_tangent,
                            final(self).point(p).out_tangent,
                        ),
                    )
                },
    {
        let ghost before = *old(self);
        let length = self.points.get_length();
        let mut current: usize = 0;
        while current < length
            invariant
                current <= length,
                length == before.points().slots.len(),
                before.wf(),
                self.points.wf(),
                self.groups == before.groups,
                self.shapes == before.shapes,
                self.all_group() == before.all_group(),
                self.points().same_layout(before.points()),
                forall|p: PointHandle| #[trigger]
                    before.has_point(p) ==> call_requires(func, (&before.point(p),)),
                forall|i: int|
                    current <= i < length ==> #[trigger] self.points().slots[i]
                        == before.points().slots[i],
                forall|p: PointHandle| #[trigger]
                    before.has_point(p) && p.index < current ==> {
                        &&& self.point(p).groups@ == before.point(p).groups@
                        &&& self.point(p).shapes@ == before.point(p).shapes@
                        &&& call_ensures(
                            func,
                            (&before.point(p),),
                            (
                                self.point(p).position,
                                self.point(p).in_tangent,
                                self.point(p).out_tangent,
                            ),
                        )
                    },
            decreases length - current,
        {
            let ghost previous = self.points();
            if let Some(handle) = self.points.get_handle_for_index(current) {
                let mut change: Option<(Position, Position, Position)> = None;
                if let Ok(point) = self.points.get(&handle) {
                    assert(before.has_point(handle));
                    assert(*point == before.point(handle));
                    change = Some(func(point));
                }
                if let Some(made) = change {
                    match self.points.get_mut(&handle) {
                        Ok(stored) => {
                            stored.position = made.0;
                            stored.in_tangent = made.1;
                            stored.out_tangent = made.2;
                        },
                        Err(_) => {},
                    }
                    proof {
                        previous.lemma_update_frame(
                            handle.index,
                            handle.generation,
                            self.point(handle),
                        );
                    }
                }
            }
            proof {
                assert forall|p: PointHandle| #[trigger]
                    before.has_point(p) && p.index < current + 1 implies {
                    &&& self.point(p).groups@ == before.point(p).groups@
                    &&& self.point(p).shapes@ == before.point(p).shapes@
                    &&& call_ensures(
                        func,
                        (&before.point(p),),
                        (self.point(p).position, self.point(p).in_tangent, self.point(p).out_tangent),
                    )
                } by {
                    if p.index < current {
                        assert(self.points().slots[p.index as int] == previous.slots[p.index as int]);
                    }
                }
            }
            current += 1;
        }
        proof {
            before.lemma_lists_kept(self);
        }
    }

    /// Gives every point of a group the position and the tangents that `func`
    /// makes of it, in index order; a point that the group holds more than
    /// once is changed once. Where the group does not exist nothing changes.
    pub fn mutate_all_points_in_group<F: Fn(&Point) -> (Position, Position, Position)>(
        &mut self,
        group_handle: &GroupHandle,
        func: F,
    )
        requires
            old(self).wf(),
            forall|p: PointHandle| #[trigger]
                old(self).has_point(p) ==> call_requires(func, (&old(self).point(p),)),
        ensures
            final(self).wf(),
            old(self).all_exact() ==> final(self).all_exact(),
            final(self).all_group() == old(self).all_group(),
            final(self).groups() == old(self).groups(),
            final(self).shapes() == old(self).shapes(),
            final(self).points().same_layout(old(self).points()),
            !old(self).has_group(*group_handle) ==> final(self).points() == old(self).points(),
            old(self).has_group(*group_handle) ==> forall|p: PointHandle| #[trigger]
                old(self).has_point(p) ==> {
                    &&& final(self).point(p).groups@ == old(self).point(p).groups@
                    &&& final(self).point(p).shapes@ == old(self).point(p).shapes@
                    &&& if old(self).group(*group_handle).points@.contains(p) {
                        call_ensures(
                            func,
                            (&old(self).point(p),),
                            (
                                final(self).point(p).position,
                                final(self).point(p).in_tangent,
                                final(self).point(p).out_tangent,
                            ),
                        )
                    } else {
                        &&& final(self).point(p).position == old(self).point(p).position
                        &&& final(self).point(p).in_tangent == old(self).point(p).in_tangent
                        &&& final(self).point(p).out_tangent == old(self).point(p).out_tangent
                    }
                },
    {
        let ghost before = *old(self);
        let length = self.points.get_length();
        let mut member: Vec<bool> = Vec::new();
        let mut made: usize = 0;
        while made < length
            invariant
                made <= length,
                member@.len() == made,
                forall|i: int| 0 <= i < made ==> !member@[i],
            decreases length - made,
        {
            member.push(false);
            made += 1;
        }
        match self.groups.get(group_handle) {
            Ok(group) => {
                let mut at: usize = 0;
                let members = group.points.len();
                while at < members
                    invariant
                        at <= members,
                        members == group.points@.len(),
                        member@.len() == length,
                        length == self.points().slots.len(),
                        forall|i: int|
                            0 <= i < length ==> (member@[i] <==> exists|k: int|
                                0 <= k < at && (#[trigger] group.points@[k]).index == i),
                    decreases members - at,
                {
                    let listed = group.points[at];
                    let ghost marked = member@;
                    if listed.index < length {
                        member.set(listed.index, true);
                    }
                    proof {
                        assert forall|i: int| 0 <= i < length implies (member@[i] <==> exists|
                            k: int,
                        |
                            0 <= k < at + 1 && (#[trigger] group.points@[k]).index == i) by {
                            if marked[i] {
                                let k = choose|k: int|
                                    0 <= k < at && (#[trigger] group.points@[k]).index == i;
                                assert(group.points@[k].index == i);
                            }
                            if listed.index == i {
                                assert(group.points@[at as int].index == i);
                            }
                        }
                    }
                    at += 1;
                }
            },
            Err(_) => {
                return ;
            },
        }
        let ghost listed_points = before.group(*group_handle).points@;
        let mut current: usize = 0;
        while current < length
            invariant
                current <= length,
                length == before.points().slots.len(),
                member@.len() == length,
                before.wf(),
                before.has_group(*group_handle),
                listed_points == before.group(*group_handle).points@,
                forall|i: int|
                    0 <= i < length ==> (member@[i] <==> exists|k: int|
                        0 <= k < listed_points.len() && (#[trigger] listed_points[k]).index == i),
                self.points.wf(),
                self.groups == before.groups,
                self.shapes == before.shapes,
                self.all_group() == before.all_group(),
                self.points().same_layout(before.points()),
                forall|p: PointHandle| #[trigger]
                    before.has_point(p) ==> call_requires(func, (&before.point(p),)),
                forall|i: int|
                    current <= i < length ==> #[trigger] self.points().slots[i]
                        == before.points().slots[i],
                forall|p: PointHandle| #[trigger]
                    before.has_point(p) && p.index < current ==> {
                        &&& self.point(p).groups@ == before.point(p).groups@
                        &&& self.point(p).shapes@ == before.point(p).shapes@
                        &&& if listed_points.contains(p) {
                            call_ensures(
                                func,
                                (&before.point(p),),
                                (
                                    self.point(p).position,
                                    self.point(p).in_tangent,
                                    self.point(p).out_tangent,
                                ),
                            )
                        } else {
                            &&& self.point(p).position == before.point(p).position
                            &&& self.point(p).in_tangent == before.point(p).in_tangent
                            &&& self.point(p).out_tangent == before.point(p).out_tangent
                        }
                    },
            decreases length - current,
        {
            let ghost previous = self.points();
            if member[current] {
                if let Some(handle) = self.points.get_handle_for_index(current) {
                    let mut change: Option<(Position, Position, Position)> = None;
                    if let Ok(point) = self.points.get(&handle) {
                        assert(before.has_point(handle));
                        assert(*point == before.point(handle));
                        change = Some(func(point));
                    }
                    if let Some(made) = change {
                        match self.points.get_mut(&handle) {
                            Ok(stored) => {
                                stored.position = made.0;
                                stored.in_tangent = made.1;
                                stored.out_tangent = made.2;
                            },
                            Err(_) => {},
                        }
                        proof {
                            previous.lemma_update_frame(
                                handle.index,
                                handle.generation,
                                self.point(handle),
                            );
                        }
                    }
                }
            }
            proof {
                assert forall|p: PointHandle| #[trigger]
                    before.has_point(p) && p.index < current + 1 implies {
                    &&& self.point(p).groups@ == before.point(p).groups@
                    &&& self.point(p).shapes@ == before.point(p).shapes@
                    &&& if listed_points.contains(p) {
                        call_ensures(
                            func,
                            (&before.point(p),),
                            (
                                self.point(p).position,
                                self.point(p).in_tangent,
                                self.point(p).out_tangent,
                            ),
                        )
                    } else {
                        &&& self.point(p).position == before.point(p).position
                        &&& self.point(p).in_tangent == before.point(p).in_tangent
                        &&& self.point(p).out_tangent == before.point(p).out_tangent
                    }
                } by {
                    if p.index < current {
                        assert(self.points().slots[p.index as int] == previous.slots[p.index as int]);
                    } else {
                        if listed_points.contains(p) {
                            let k = choose|k: int|
                                0 <= k < listed_points.len() && listed_points[k] == p;
                            assert(listed_points[k].index == current);
                            assert(member@[current as int]);
                        } else {
                            if member@[current as int] {
                                let k = choose|k: int|
                                    0 <= k < listed_points.len() && (
                                    #[trigger] listed_points[k]).index == current;
                                assert(before.group_linked(*group_handle));
                                assert(before.has_point(listed_points[k]));
                                assert(listed_points[k] == p);
                            }
                        }
                    }
                }
            }
            current += 1;
        }
        proof {
            before.lemma_lists_kept(self);
        }
    }

    /// The rectangle around all points, as its corner of least and its
    /// corner of greatest coordinates; two corners in the origin where there
    /// is no point.
    pub fn get_bounding_rect(&self) -> (rect: (Position, Position))
        ensures
            rect == match bounds(self.points().slots, self.points().slots.len() as int) {
                Some(rect) => rect,
                None => (
                    Position(Scalar { bits: 0 }, Scalar { bits: 0 }),
                    Position(Scalar { bits: 0 }, Scalar { bits: 0 }),
                ),
            },
    {
        let mut found: Option<(Position, Position)> = None;
        let mut iterator = self.points.get_iterator();
        let ghost slots = self.points().slots;
        loop
            invariant
                iterator.slots() == slots,
                iterator.position() <= slots.len() ==> found == bounds(
                    slots,
                    iterator.position() as int,
                ),
                iterator.position() > slots.len() ==> found == bounds(slots, slots.len() as int),
                slots == self.points().slots,
            ensures
                found == bounds(slots, slots.len() as int),
            decreases
                    if iterator.position() <= slots.len() {
                        slots.len() - iterator.position() + 1
                    } else {
                        0
                    },
        {
            let ghost from = iterator.position() as int;
            match iterator.next() {
                Some(point) => {
                    proof {
                        lemma_bounds_skip(slots, from, iterator.position() - 1);
                    }
                    let position = point.position;
                    found = match found {
                        None => Some((position, position)),
                        Some((mut nw, mut se)) => {
                            if position.0.is_less(nw.0) {
                                nw.0 = position.0;
                            }
                            if position.1.is_less(nw.1) {
                                nw.1 = position.1;
                            }
                            if se.0.is_less(position.0) {
                                se.0 = position.0;
                            }
                            if se.1.is_less(position.1) {
                                se.1 = position.1;
                            }
                            Some((nw, se))
                        },
                    };
                },
                None => {
                    proof {
                        if from <= slots.len() {
                            lemma_bounds_skip(slots, from, slots.len() as int);
                        }
                    }
                    break ;
                },
            }
        }
        match found {
            Some(rect) => rect,
            None => (Position::origin(), Position::origin()),
        }
    }

    /// Puts the points of a group in another order: the new list must hold
    /// what the group holds.
    pub fn reorder_group(&mut self, group_handle: &GroupHandle, points: Vec<PointHandle>)
        requires
            old(self).wf(),
            old(self).has_group(*group_handle),
            forall|p: PointHandle|
                old(self).group(*group_handle).points@.contains(p) <==> points@.contains(p),
        ensures
            final(self).wf(),
            old(self).all_exact() && (*group_handle != old(self).all_group() || points@.no_duplicates())
                ==> final(self).all_exact(),
            final(self).all_group() == old(self).all_group(),
            final(self).points() == old(self).points(),
            final(self).shapes() == old(self).shapes(),
            final(self).groups() == old(self).groups().update(
                group_handle.index,
                group_handle.generation,
                final(self).group(*group_handle),
            ),
            final(self).group(*group_handle).name@ == old(self).group(*group_handle).name@,
            final(self).group(*group_handle).points@ == points@,
    {
        let ghost before = *old(self);
        match self.groups.get_mut(group_handle) {
            Ok(group) => {
                group.points = points;
            },
            Err(_) => {},
        }
        proof {
            before.groups().lemma_update_frame(
                group_handle.index,
                group_handle.generation,
                self.group(*group_handle),
            );
            assert(before.points_grow(self));
            assert(before.shapes_grow(self));
            assert(before.groups_grow(self)) by {
                assert forall|g: GroupHandle, p: PointHandle|
                    before.has_group(g) && #[trigger] before.group(g).points@.contains(
                        p,
                    ) implies self.group(g).points@.contains(p) by {
                    if g.index != group_handle.index {
                        assert(self.groups().slots[g.index as int] == before.groups().slots[g.index as int]);
                    }
                }
            }
            assert forall|h: PointHandle| self.has_point(h) implies #[trigger] self.point_linked(
                h,
            ) by {
                before.lemma_point_stays_linked(self, h);
            }
            assert forall|h: GroupHandle| self.has_group(h) implies #[trigger] self.group_linked(
                h,
            ) by {
                assert(before.has_group(h));
                assert(before.group_linked(h));
                if h.index != group_handle.index {
                    assert(self.groups().slots[h.index as int] == before.groups().slots[h.index as int]);
                    before.lemma_group_stays_linked(self, h);
                } else {
                    assert(h == *group_handle);
                    assert forall|k: int|
                        0 <= k < self.group(h).points@.len() implies self.has_point(
                        #[trigger] self.group(h).points@[k],
                    ) && self.point(self.group(h).points@[k]).groups@.contains(h) by {
                        let m = points@[k];
                        assert(points@.contains(m));
                        let j = choose|j: int|
                            0 <= j < before.group(h).points@.len() && before.group(h).points@[j]
                                == m;
                        assert(before.has_point(before.group(h).points@[j]));
                    }
                }
            }
            assert forall|h: ShapeHandle| self.has_shape(h) implies #[trigger] self.shape_linked(
                h,
            ) by {
                before.lemma_shape_stays_linked(self, h);
            }
        }
    }

    /// For each of the first `upto` point slots of `other` that holds a
    /// point, `map` names a point of `later` that `self` does not have, at
    /// the same place and with the same tangents, and no point twice; for
    /// the other slots it names nothing.
    pub open spec fn copied(
        &self,
        later: &GeometryWorld,
        other: &GeometryWorld,
        map: Seq<Option<PointHandle>>,
        upto: int,
    ) -> bool {
        &&& forall|i: int|
            0 <= i < upto ==> ((#[trigger] map[i]) is Some <==> other.points().slots[i].occupied)
        &&& forall|i: int|
            0 <= i < upto && (#[trigger] map[i]) is Some ==> {
                let copy = map[i]->0;
                let source = other.points().slots[i].data->0;
                &&& later.has_point(copy)
                &&& !self.has_point(copy)
                &&& later.point(copy).position == source.position
                &&& later.point(copy).in_tangent == source.in_tangent
                &&& later.point(copy).out_tangent == source.out_tangent
            }
        &&& forall|i: int, j: int|
            0 <= i < j < upto && (#[trigger] map[i]) is Some && (#[trigger] map[j]) is Some
                ==> map[i] != map[j]
    }

    /// Every point of `self` is in `later` what it is in `self`.
    pub open spec fn points_kept(&self, later: &GeometryWorld) -> bool {
        forall|p: PointHandle| #[trigger]
            self.has_point(p) ==> later.has_point(p) && later.point(p).position == self.point(
                p,
            ).position && later.point(p).in_tangent == self.point(p).in_tangent && later.point(
                p,
            ).out_tangent == self.point(p).out_tangent && later.point(p).groups@ == self.point(
                p,
            ).groups@ && later.point(p).shapes@ == self.point(p).shapes@
    }

    /// Every shape of `self` is in `later` what it is in `self`.
    pub open spec fn shapes_kept(&self, later: &GeometryWorld) -> bool {
        forall|s: ShapeHandle| #[trigger]
            self.has_shape(s) ==> later.has_shape(s) && later.shape(s).closed == self.shape(
                s,
            ).closed && later.shape(s).vertices@ == self.shape(s).vertices@
    }

    /// Copies the points of `other`, in index order. Each copy is in the
    /// group of all points and nowhere else.
    fn merge_points(&mut self, other: &GeometryWorld) -> (map: Vec<Option<PointHandle>>)
        requires
            old(self).wf(),
            other.wf(),
        ensures
            final(self).wf(),
            old(self).all_exact() ==> final(self).all_exact(),
            final(self).all_group() == old(self).all_group(),
            final(self).shapes() == old(self).shapes(),
            map@.len() == other.points().slots.len(),
            old(self).copied(final(self), other, map@, map@.len() as int),
            old(self).points_kept(final(self)),
            forall|i: int|
                0 <= i < map@.len() && (#[trigger] map@[i]) is Some ==> final(self).point(
                    map@[i]->0,
                ).groups@ == seq![old(self).all_group()] && final(self).point(map@[i]->0).shapes@
                    == Seq::<ShapeHandle>::empty(),
            final(self).points().count() == old(self).points().count() + other.points().count(),
            final(self).groups().same_layout(old(self).groups()),
            forall|g: GroupHandle| #[trigger]
                old(self).has_group(g) ==> final(self).group(g).name@ == old(self).group(g).name@
                    && final(self).group(g).points@ == if g == old(self).all_group() {
                    old(self).group(g).points@ + somes(map@)
                } else {
                    old(self).group(g).points@
                },
    {
        let ghost before = *old(self);
        let mut map: Vec<Option<PointHandle>> = Vec::new();
        let length = other.points.get_length();
        let mut current: usize = 0;
        proof {
            before.lemma_wf();
            assert(other.points().slots.take(0) =~= Seq::empty());
            assert forall|g: GroupHandle| #[trigger] before.has_group(g) implies before.group(
                g,
            ).points@ == if g == before.all_group() {
                before.group(g).points@ + somes(map@)
            } else {
                before.group(g).points@
            } by {
                assert(before.group(g).points@ + Seq::<PointHandle>::empty()
                    =~= before.group(g).points@);
            }
        }
        while current < length
            invariant
                current <= length,
                length == other.points().slots.len(),
                before.wf(),
                other.wf(),
                self.wf(),
                before.all_exact() ==> self.all_exact(),
                self.all_group() == before.all_group(),
                self.shapes() == before.shapes(),
                map@.len() == current,
                before.copied(self, other, map@, current as int),
                before.points_kept(self),
                forall|i: int|
                    0 <= i < map@.len() && (#[trigger] map@[i]) is Some ==> self.point(
                        map@[i]->0,
                    ).groups@ == seq![before.all_group()] && self.point(map@[i]->0).shapes@
                        == Seq::<ShapeHandle>::empty(),
                self.points().count() == before.points().count() + occupied_count(
                    other.points().slots.take(current as int),
                ),
                self.groups().same_layout(before.groups()),
                forall|g: GroupHandle| #[trigger]
                    before.has_group(g) ==> self.group(g).name@ == before.group(g).name@
                        && self.group(g).points@ == if g == before.all_group() {
                        before.group(g).points@ + somes(map@)
                    } else {
                        before.group(g).points@
                    },
            decreases length - current,
        {
            let ghost previous = *self;
            let ghost previous_map = map@;
            proof {
                assert(other.points().slots.take(current + 1).drop_last()
                    =~= other.points().slots.take(current as int));
                other.lemma_wf();
                previous.lemma_wf();
            }
            let mut made: Option<PointHandle> = None;
            if let Some(field) = other.points.get_field(current) {
                if field.get_occupied() {
                    if let Some(point) = field.get_data() {
                        let handle = self.create_point(
                            Point::new(point.position, point.in_tangent, point.out_tangent),
                        );
                        made = Some(handle);
                        proof {
                            previous.points().lemma_insert_frame(self.point(handle));
                            previous.groups().lemma_update_frame(
                                previous.all_group().index,
                                previous.all_group().generation,
                                self.group(previous.all_group()),
                            );
                        }
                    }
                }
            }
            map.push(made);
            proof {
                assert(map@.drop_last() =~= previous_map);
                assert(before.points_kept(self)) by {
                    assert forall|p: PointHandle| #[trigger] before.has_point(p) implies self.has_point(
                        p,
                    ) && self.point(p).position == before.point(p).position && self.point(
                        p,
                    ).in_tangent == before.point(p).in_tangent && self.point(p).out_tangent
                        == before.point(p).out_tangent && self.point(p).groups@ == before.point(
                        p,
                    ).groups@ && self.point(p).shapes@ == before.point(p).shapes@ by {
                        assert(previous.has_point(p));
                        if made is Some {
                            assert(self.points().slots[p.index as int]
                                == previous.points().slots[p.index as int]);
                        }
                    }
                }
                assert(before.copied(self, other, map@, current + 1)) by {
                    assert forall|i: int| 0 <= i < current + 1 && (#[trigger] map@[i])
                        is Some implies {
                        let copy = map@[i]->0;
                        let source = other.points().slots[i].data->0;
                        &&& self.has_point(copy)
                        &&& !before.has_point(copy)
                        &&& self.point(copy).position == source.position
                        &&& self.point(copy).in_tangent == source.in_tangent
                        &&& self.point(copy).out_tangent == source.out_tangent
                    } by {
                        if i < current {
                            assert(previous_map[i] == map@[i]);
                            let copy = map@[i]->0;
                            assert(previous.has_point(copy));
                            if made is Some {
                                assert(self.points().slots[copy.index as int]
                                    == previous.points().slots[copy.index as int]);
                            }
                        } else {
                            let copy = map@[i]->0;
                            if before.has_point(copy) {
                                assert(previous.has_point(copy));
                            }
                        }
                    }
                    assert forall|i: int, j: int|
                        0 <= i < j < current + 1 && (#[trigger] map@[i]) is Some && (
                        #[trigger] map@[j]) is Some implies map@[i] != map@[j] by {
                        if j == current {
                            assert(previous_map[i] == map@[i]);
                            assert(previous.has_point(map@[i]->0));
                        } else {
                            assert(previous_map[i] == map@[i]);
                            assert(previous_map[j] == map@[j]);
                        }
                    }
                    assert forall|i: int| 0 <= i < current + 1 implies ((#[trigger] map@[i])
                        is Some <==> other.points().slots[i].occupied) by {
                        if i < current {
                            assert(previous_map[i] == map@[i]);
                        }
                    }
                }
                assert forall|i: int| 0 <= i < map@.len() && (#[trigger] map@[i])
                    is Some implies self.point(map@[i]->0).groups@ == seq![before.all_group()]
                    && self.point(map@[i]->0).shapes@ == Seq::<ShapeHandle>::empty() by {
                    if i < current {
                        assert(previous_map[i] == map@[i]);
                        let copy = map@[i]->0;
                        assert(previous.has_point(copy));
                        if made is Some {
                            assert(self.points().slots[copy.index as int]
                                == previous.points().slots[copy.index as int]);
                        }
                    }
                }
                assert forall|g: GroupHandle| #[trigger] before.has_group(g) implies self.group(
                    g,
                ).name@ == before.group(g).name@ && self.group(g).points@ == if g
                    == before.all_group() {
                    before.group(g).points@ + somes(map@)
                } else {
                    before.group(g).points@
                } by {
                    assert(previous.has_group(g));
                    if made is Some {
                        if g.index != before.all_group().index {
                            assert(self.groups().slots[g.index as int]
                                == previous.groups().slots[g.index as int]);
                        } else {
                            assert(g == before.all_group());
                            assert(self.group(g).points@ =~= before.group(g).points@ + somes(
                                map@,
                            ));
                        }
                    }
                }
                assert(self.groups().same_layout(before.groups())) by {
                    if made is Some {
                        assert forall|i: int| 0 <= i < self.groups().slots.len() implies (
                        #[trigger] self.groups().slots[i]).occupied
                            == before.groups().slots[i].occupied && self.groups().slots[i].generation
                            == before.groups().slots[i].generation by {
                            assert(previous.groups().slots[i].occupied
                                == before.groups().slots[i].occupied);
                            if i != before.all_group().index {
                                assert(self.groups().slots[i] == previous.groups().slots[i]);
                            }
                        }
                    }
                }
            }
            current += 1;
        }
        proof {
            assert(other.points().slots.take(length as int) =~= other.points().slots);
        }
        map
    }

    /// The handles that `map` gives for the given handles.
    fn map_handles(map: &Vec<Option<PointHandle>>, handles: &Vec<PointHandle>) -> (copies: Vec<
        PointHandle,
    >)
        requires
            forall|k: int|
                0 <= k < handles@.len() ==> (#[trigger] handles@[k]).index < map@.len()
                    && map@[handles@[k].index as int] is Some,
        ensures
            copies@ == mapped(map@, handles@),
    {
        let mut copies: Vec<PointHandle> = Vec::new();
        let mut current: usize = 0;
        let length = handles.len();
        while current < length
            invariant
                current <= length,
                length == handles@.len(),
                forall|k: int|
                    0 <= k < handles@.len() ==> (#[trigger] handles@[k]).index < map@.len()
                        && map@[handles@[k].index as int] is Some,
                copies@ == mapped(map@, handles@.take(current as int)),
            decreases length - current,
        {
            let handle = handles[current];
            assert(handles@[current as int].index < map@.len());
            if let Some(copy) = map[handle.index] {
                copies.push(copy);
            }
            proof {
                assert(copies@ =~= mapped(map@, handles@.take(current + 1)));
            }
            current += 1;
        }
        proof {
            assert(handles@.take(length as int) =~= handles@);
        }
        copies
    }

    /// `map` names a point of `self` for every point of `other`.
    pub open spec fn maps_into(&self, other: &GeometryWorld, map: Seq<Option<PointHandle>>) -> bool {
        &&& map.len() == other.points().slots.len()
        &&& forall|i: int|
            0 <= i < map.len() && (#[trigger] other.points().slots[i]).occupied ==> map[i] is Some
                && self.has_point(map[i]->0)
    }

    /// For each of the first `upto` shape slots of `other` that holds a
    /// shape, `shapes` names a shape of `later` that `self` does not have,
    /// open or closed as that shape and with the copies of its points, and
    /// no shape twice; for the other slots it names nothing.
    pub open spec fn shapes_copied(
        &self,
        later: &GeometryWorld,
        other: &GeometryWorld,
        map: Seq<Option<PointHandle>>,
        shapes: Seq<Option<ShapeHandle>>,
        upto: int,
    ) -> bool {
        &&& forall|i: int|
            0 <= i < upto ==> ((#[trigger] shapes[i]) is Some <==> other.shapes().slots[i].occupied)
        &&& forall|i: int|
            0 <= i < upto && (#[trigger] shapes[i]) is Some ==> {
                let copy = shapes[i]->0;
                let source = other.shapes().slots[i].data->0;
                &&& later.has_shape(copy)
                &&& !self.has_shape(copy)
                &&& later.shape(copy).closed == source.closed
                &&& later.shape(copy).vertices@ == mapped(map, source.vertices@)
            }
        &&& forall|i: int, j: int|
            0 <= i < j < upto && (#[trigger] shapes[i]) is Some && (#[trigger] shapes[j]) is Some
                ==> shapes[i] != shapes[j]
    }

    /// Copies the shapes of `other`, in index order, onto the copies of
    /// their points.
    fn merge_shapes(&mut self, other: &GeometryWorld, map: &Vec<Option<PointHandle>>) -> (shapes:
        Vec<Option<ShapeHandle>>)
        requires
            old(self).wf(),
            other.wf(),
            old(self).maps_into(other, map@),
        ensures
            final(self).wf(),
            old(self).all_exact() ==> final(self).all_exact(),
            final(self).all_group() == old(self).all_group(),
            final(self).groups() == old(self).groups(),
            final(self).points().same_layout(old(self).points()),
            shapes@.len() == other.shapes().slots.len(),
            old(self).shapes_copied(final(self), other, map@, shapes@, shapes@.len() as int),
            old(self).shapes_kept(final(self)),
            final(self).shapes().count() == old(self).shapes().count() + other.shapes().count(),
            forall|p: PointHandle| #[trigger]
                old(self).has_point(p) ==> {
                    &&& final(self).point(p).position == old(self).point(p).position
                    &&& final(self).point(p).in_tangent == old(self).point(p).in_tangent
                    &&& final(self).point(p).out_tangent == old(self).point(p).out_tangent
                    &&& final(self).point(p).groups@ == old(self).point(p).groups@
                    &&& !somes(map@).contains(p) ==> final(self).point(p).shapes@ == old(self).point(p).shapes@
                },
    {
        let ghost before = *old(self);
        let mut shapes: Vec<Option<ShapeHandle>> = Vec::new();
        let length = other.shapes.get_length();
        let mut current: usize = 0;
        proof {
            assert(other.shapes().slots.take(0) =~= Seq::empty());
        }
        while current < length
            invariant
                current <= length,
                length == other.shapes().slots.len(),
                before.wf(),
                other.wf(),
                before.maps_into(other, map@),
                self.wf(),
                before.all_exact() ==> self.all_exact(),
                self.all_group() == before.all_group(),
                self.groups() == before.groups(),
                self.points().same_layout(before.points()),
                shapes@.len() == current,
                before.shapes_copied(self, other, map@, shapes@, current as int),
                before.shapes_kept(self),
                self.shapes().count() == before.shapes().count() + occupied_count(
                    other.shapes().slots.take(current as int),
                ),
                forall|p: PointHandle| #[trigger]
                    before.has_point(p) ==> {
                        &&& self.point(p).position == before.point(p).position
                        &&& self.point(p).in_tangent == before.point(p).in_tangent
                        &&& self.point(p).out_tangent == before.point(p).out_tangent
                        &&& self.point(p).groups@ == before.point(p).groups@
                        &&& !somes(map@).contains(p) ==> self.point(p).shapes@ == before.point(
                            p,
                        ).shapes@
                    },
            decreases length - current,
        {
            let ghost previous = *self;
            let ghost previous_shapes = shapes@;
            proof {
                assert(other.shapes().slots.take(current + 1).drop_last()
                    =~= other.shapes().slots.take(current as int));
                other.lemma_wf();
                previous.lemma_wf();
            }
            let mut made: Option<ShapeHandle> = None;
            if let Some(field) = other.shapes.get_field(current) {
                if field.get_occupied() {
                    if let Some(shape) = field.get_data() {
                        let ghost source = handle_at::<Shape>(
                            current as int,
                            other.shapes().slots[current as int].generation,
                        );
                        proof {
                            assert(other.has_shape(source));
                            assert(other.shape_linked(source));
                            assert forall|k: int|
                                0 <= k < shape.vertices@.len() implies (
                            #[trigger] shape.vertices@[k]).index < map@.len()
                                && map@[shape.vertices@[k].index as int] is Some by {
                                assert(other.has_point(other.shape(source).vertices@[k]));
                            }
                        }
                        let copies = Self::map_handles(map, &shape.vertices);
                        let handle = self.create_shape(shape.closed);
                        let ghost created = *self;
                        proof {
                            previous.shapes().lemma_insert_frame(created.shape(handle));
                            assert forall|k: int| 0 <= k < copies@.len() implies created.points().contains(
                                (#[trigger] copies@[k]).index,
                                copies@[k].generation,
                            ) by {
                                assert(other.has_point(other.shape(source).vertices@[k]));
                                let v = shape.vertices@[k];
                                assert(other.points().slots[v.index as int].occupied);
                                assert(before.has_point(map@[v.index as int]->0));
                            }
                            lemma_all_found(created.points(), copies@);
                        }
                        self.add_points_to_shape(copies, &handle);
                        made = Some(handle);
                        proof {
                            created.shapes().lemma_update_frame(
                                handle.index,
                                handle.generation,
                                self.shape(handle),
                            );
                            created.lemma_wf();
                            created.shapes().lemma_update_wf(
                                handle.index,
                                handle.generation,
                                self.shape(handle),
                            );
                            assert(self.shape(handle).vertices@ =~= mapped(
                                map@,
                                shape.vertices@,
                            ));
                            assert forall|p: PointHandle| #[trigger] before.has_point(p) implies {
                                &&& self.point(p).position == before.point(p).position
                                &&& self.point(p).in_tangent == before.point(p).in_tangent
                                &&& self.point(p).out_tangent == before.point(p).out_tangent
                                &&& self.point(p).groups@ == before.point(p).groups@
                                &&& !somes(map@).contains(p) ==> self.point(p).shapes@
                                    == before.point(p).shapes@
                            } by {
                                assert(previous.has_point(p));
                                assert(created.has_point(p));
                                if !somes(map@).contains(p) {
                                    if copies@.contains(p) {
                                        let k = choose|k: int|
                                            0 <= k < copies@.len() && copies@[k] == p;
                                        let v = shape.vertices@[k];
                                        lemma_somes_contains(map@, v.index as int);
                                    }
                                    lemma_no_occurrence(copies@, p);
                                    assert(self.point(p).shapes@ =~= created.point(p).shapes@);
                                }
                            }
                        }
                    }
                }
            }
            shapes.push(made);
            proof {
                assert(shapes@.drop_last() =~= previous_shapes);
                assert(before.shapes_kept(self)) by {
                    assert forall|t: ShapeHandle| #[trigger] before.has_shape(t) implies self.has_shape(
                        t,
                    ) && self.shape(t).closed == before.shape(t).closed && self.shape(t).vertices@
                        == before.shape(t).vertices@ by {
                        assert(previous.has_shape(t));
                        if made is Some {
                            assert(t.index != made->0.index);
                        }
                    }
                }
                assert(before.shapes_copied(self, other, map@, shapes@, current + 1)) by {
                    assert forall|i: int| 0 <= i < current + 1 implies ((#[trigger] shapes@[i])
                        is Some <==> other.shapes().slots[i].occupied) by {
                        if i < current {
                            assert(previous_shapes[i] == shapes@[i]);
                        }
                    }
                    assert forall|i: int| 0 <= i < current + 1 && (#[trigger] shapes@[i])
                        is Some implies {
                        let copy = shapes@[i]->0;
                        let source = other.shapes().slots[i].data->0;
                        &&& self.has_shape(copy)
                        &&& !before.has_shape(copy)
                        &&& self.shape(copy).closed == source.closed
                        &&& self.shape(copy).vertices@ == mapped(map@, source.vertices@)
                    } by {
                        if i < current {
                            assert(previous_shapes[i] == shapes@[i]);
                            let copy = shapes@[i]->0;
                            assert(previous.has_shape(copy));
                            if made is Some {
                                assert(copy.index != made->0.index);
                            }
                        } else {
                            let copy = shapes@[i]->0;
                            if before.has_shape(copy) {
                                assert(previous.has_shape(copy));
                            }
                        }
                    }
                    assert forall|i: int, j: int|
                        0 <= i < j < current + 1 && (#[trigger] shapes@[i]) is Some && (
                        #[trigger] shapes@[j]) is Some implies shapes@[i] != shapes@[j] by {
                        assert(previous_shapes[i] == shapes@[i]);
                        if j == current {
                            assert(previous.has_shape(shapes@[i]->0));
                        } else {
                            assert(previous_shapes[j] == shapes@[j]);
                        }
                    }
                }
            }
            current += 1;
        }
        proof {
            assert(other.shapes().slots.take(length as int) =~= other.shapes().slots);
        }
        shapes
    }

    /// No two groups of the world have one name.
    pub open spec fn names_unique(&self) -> bool {
        forall|a: GroupHandle, b: GroupHandle|
            self.has_group(a) && self.has_group(b) && a != b ==> #[trigger] self.group(a).name@
                != #[trigger] self.group(b).name@
    }

    /// The points of the first group of a name, and none where no group has
    /// the name.
    pub open spec fn named_points(&self, name: Seq<char>) -> Seq<PointHandle> {
        match self.group_named(name) {
            Some(group) => self.group(group).points@,
            None => Seq::empty(),
        }
    }

    /// Every group of `self` is a group of `later`, under its name.
    pub open spec fn groups_kept(&self, later: &GeometryWorld) -> bool {
        forall|g: GroupHandle| #[trigger]
            self.has_group(g) ==> later.has_group(g) && later.group(g).name@ == self.group(g).name@
    }

    /// The first group of a name is a group of that name; and in a world
    /// without two groups of one name, a group is the first of its name.
    pub proof fn lemma_group_named(&self, name: Seq<char>)
        requires
            self.wf(),
        ensures
            self.group_named(name) matches Some(group) ==> self.has_group(group) && self.group(
                group,
            ).name@ == name,
            self.group_named(name) is None ==> forall|g: GroupHandle| #[trigger]
                self.has_group(g) ==> self.group(g).name@ != name,
            self.names_unique() ==> forall|g: GroupHandle| #[trigger]
                self.has_group(g) && self.group(g).name@ == name ==> self.group_named(name)
                    == Some(g),
    {
        let slots = self.groups().slots;
        lemma_first_named(slots, name, 0);
        assert forall|g: GroupHandle| #[trigger]
            self.has_group(g) && self.group(g).name@ == name && self.names_unique()
                implies self.group_named(name) == Some(g) by {
            assert(slots[g.index as int].data is Some);
            assert(slots[g.index as int].data->0.name@ == name);
            assert(self.group_named(name) is Some);
            let first = self.group_named(name)->0;
            self.lemma_wf();
            assert(self.groups().slots[first.index as int].occupied);
            assert(self.has_group(first));
            assert(self.group(first).name@ == name);
        }
    }

    /// What merging the groups of `other` leaves as it is: the first group
    /// of a name stays the first group of that name; a group that is new is
    /// the first group of its name, which no group had, so that no second
    /// group of a name is made; and a group that is not the first of its
    /// name, or whose name no group of `other` has, holds the points that it
    /// held. The group of all points is left out here.
    pub open spec fn groups_merged(&self, other: &GeometryWorld, later: &GeometryWorld) -> bool {
        &&& forall|name: Seq<char>| #[trigger]
            self.group_named(name) is Some ==> later.group_named(name) == self.group_named(name)
        &&& forall|g: GroupHandle| #[trigger]
            later.has_group(g) && !self.has_group(g) ==> self.group_named(later.group(g).name@)
                is None && later.group_named(later.group(g).name@) == Some(g)
        &&& forall|g: GroupHandle| #[trigger]
            self.has_group(g) && g != self.all_group() && (self.group_named(self.group(g).name@)
                != Some(g) || self.unnamed_in(other, g)) ==> later.group(g).points@ == self.group(
                g,
            ).points@
    }

    /// No group of `other`, but for its group of all points, has the name
    /// of the group.
    pub open spec fn unnamed_in(&self, other: &GeometryWorld, group: GroupHandle) -> bool {
        forall|h: GroupHandle| #[trigger]
            other.has_group(h) && h != other.all_group() ==> other.group(h).name@ != self.group(
                group,
            ).name@
    }

    /// Puts the copies of the points of every group of `other`, but for its
    /// group of all points, into the first group of that name, or into a
    /// new group of that name where there is none.
    fn merge_groups(&mut self, other: &GeometryWorld, map: &Vec<Option<PointHandle>>)
        requires
            old(self).wf(),
            other.wf(),
            old(self).maps_into(other, map@),
        ensures
            final(self).wf(),
            final(self).all_group() == old(self).all_group(),
            final(self).shapes() == old(self).shapes(),
            final(self).points().same_layout(old(self).points()),
            old(self).groups_kept(final(self)),
            old(self).groups_merged(other, final(self)),
            forall|p: PointHandle| #[trigger]
                old(self).has_point(p) ==> {
                    &&& final(self).point(p).position == old(self).point(p).position
                    &&& final(self).point(p).in_tangent == old(self).point(p).in_tangent
                    &&& final(self).point(p).out_tangent == old(self).point(p).out_tangent
                    &&& final(self).point(p).shapes@ == old(self).point(p).shapes@
                    &&& !somes(map@).contains(p) ==> final(self).point(p).groups@ == old(self).point(p).groups@
                },
            forall|g: GroupHandle| #[trigger]
                other.has_group(g) && g != other.all_group() ==> final(self).group_named(
                    other.group(g).name@,
                ) is Some && forall|k: int|
                    0 <= k < other.group(g).points@.len() ==> final(self).named_points(
                        other.group(g).name@,
                    ).contains(#[trigger] mapped(map@, other.group(g).points@)[k]),
            other.names_unique() ==>
                final(self).group(old(self).all_group()).points@ == old(self).group(old(self).all_group()).points@,
            other.names_unique() ==> forall|g: GroupHandle| #[trigger]
                other.has_group(g) && g != other.all_group() ==> final(self).named_points(
                    other.group(g).name@,
                ) == old(self).named_points(other.group(g).name@) + mapped(
                    map@,
                    other.group(g).points@,
                ),
    {
        let ghost before = *old(self);
        let length = other.groups.get_length();
        let mut current: usize = 0;
        proof {
            assert forall|g: GroupHandle| #[trigger]
                other.has_group(g) && g != other.all_group() implies before.named_points(
                other.group(g).name@,
            ) == before.named_points(other.group(g).name@) + Seq::<PointHandle>::empty() by {
                assert(before.named_points(other.group(g).name@) + Seq::<PointHandle>::empty()
                    =~= before.named_points(other.group(g).name@));
            }
        }
        while current < length
            invariant
                current <= length,
                length == other.groups().slots.len(),
                before.wf(),
                other.wf(),
                before.maps_into(other, map@),
                self.wf(),
                self.all_group() == before.all_group(),
                self.shapes() == before.shapes(),
                self.points().same_layout(before.points()),
                before.groups_kept(self),
                before.groups_merged(other, self),
                forall|p: PointHandle| #[trigger]
                    before.has_point(p) ==> {
                        &&& self.point(p).position == before.point(p).position
                        &&& self.point(p).in_tangent == before.point(p).in_tangent
                        &&& self.point(p).out_tangent == before.point(p).out_tangent
                        &&& self.point(p).shapes@ == before.point(p).shapes@
                        &&& !somes(map@).contains(p) ==> self.point(p).groups@ == before.point(
                            p,
                        ).groups@
                    },
                forall|g: GroupHandle| #[trigger]
                    other.has_group(g) && g != other.all_group() && g.index < current
                        ==> self.group_named(other.group(g).name@) is Some && forall|k: int|
                        0 <= k < other.group(g).points@.len() ==> self.named_points(
                            other.group(g).name@,
                        ).contains(#[trigger] mapped(map@, other.group(g).points@)[k]),
                other.names_unique() ==> self.group(before.all_group()).points@ == before.group(
                    before.all_group(),
                ).points@,
                other.names_unique() ==> forall|g: GroupHandle| #[trigger]
                    other.has_group(g) && g != other.all_group() ==> self.named_points(
                        other.group(g).name@,
                    ) == before.named_points(other.group(g).name@) + if g.index < current {
                        mapped(map@, other.group(g).points@)
                    } else {
                        Seq::<PointHandle>::empty()
                    },
            decreases length - current,
        {
            let ghost previous = *self;
            proof {
                other.lemma_wf();
                previous.lemma_wf();
            }
            let all = other.all_point_group_handle;
            let mut done = false;
            if let Some(field) = other.groups.get_field(current) {
                if let Some(group) = field.get_data() {
                    if !(current == all.index && field.get_generation() == all.generation) {
                        let ghost source = handle_at::<Group>(
                            current as int,
                            other.groups().slots[current as int].generation,
                        );
                        proof {
                            assert(other.has_group(source));
                            assert(source != other.all_group());
                            assert(other.group_linked(source));
                            assert forall|k: int|
                                0 <= k < group.points@.len() implies (
                            #[trigger] group.points@[k]).index < map@.len()
                                && map@[group.points@[k].index as int] is Some by {
                                assert(other.has_point(other.group(source).points@[k]));
                            }
                            previous.lemma_group_named(group.name@);
                        }
                        let copies = Self::map_handles(map, &group.points);
                        let target = match self.get_group_by_name(group.name.as_str()) {
                            Some(found) => found,
                            None => self.create_group(group.name.as_str()),
                        };
                        let ghost created = *self;
                        proof {
                            created.lemma_wf();
                            if previous.group_named(group.name@) is None {
                                previous.groups().lemma_insert_frame(created.group(target));
                                assert(created.groups().slots =~= previous.groups().slots.push(
                                    created.groups().slots[target.index as int],
                                ));
                            }
                            assert forall|k: int| 0 <= k < copies@.len() implies created.points().contains(
                                (#[trigger] copies@[k]).index,
                                copies@[k].generation,
                            ) by {
                                assert(other.has_point(other.group(source).points@[k]));
                                let v = group.points@[k];
                                assert(other.points().slots[v.index as int].occupied);
                                assert(before.has_point(map@[v.index as int]->0));
                            }
                            lemma_all_found(created.points(), copies@);
                        }
                        self.add_points_to_group(copies, &target);
                        done = true;
                        proof {
                            created.groups().lemma_update_frame(
                                target.index,
                                target.generation,
                                self.group(target),
                            );
                            self.lemma_wf();
                            assert forall|name: Seq<char>| #[trigger]
                                self.group_named(name) == created.group_named(name) by {
                                lemma_first_named_same(
                                    self.groups().slots,
                                    created.groups().slots,
                                    name,
                                    0,
                                );
                            }
                            assert forall|name: Seq<char>| #[trigger]
                                created.group_named(name) == if previous.group_named(name) is None
                                    && name == group.name@ {
                                    Some(target)
                                } else {
                                    previous.group_named(name)
                                } by {
                                if previous.group_named(group.name@) is None {
                                    lemma_first_named_push(
                                        previous.groups().slots,
                                        created.groups().slots[target.index as int],
                                        name,
                                        0,
                                    );
                                }
                            }
                            assert(self.group_named(group.name@) == Some(target));
                            assert(self.named_points(group.name@) =~= previous.named_points(
                                group.name@,
                            ) + copies@);
                            assert(before.groups_kept(self)) by {
                                assert forall|g: GroupHandle| #[trigger]
                                    before.has_group(g) implies self.has_group(g) && self.group(
                                    g,
                                ).name@ == before.group(g).name@ by {
                                    assert(previous.has_group(g));
                                    assert(created.has_group(g));
                                    if g.index != target.index {
                                        assert(created.groups().slots[g.index as int]
                                            == previous.groups().slots[g.index as int]);
                                        assert(self.groups().slots[g.index as int]
                                            == created.groups().slots[g.index as int]);
                                    }
                                }
                            }
                            assert forall|p: PointHandle| #[trigger] before.has_point(p) implies {
                                &&& self.point(p).position == before.point(p).position
                                &&& self.point(p).in_tangent == before.point(p).in_tangent
                                &&& self.point(p).out_tangent == before.point(p).out_tangent
                                &&& self.point(p).shapes@ == before.point(p).shapes@
                                &&& !somes(map@).contains(p) ==> self.point(p).groups@
                                    == before.point(p).groups@
                            } by {
                                assert(previous.has_point(p));
                                assert(created.has_point(p));
                                if !somes(map@).contains(p) {
                                    if copies@.contains(p) {
                                        let k = choose|k: int|
                                            0 <= k < copies@.len() && copies@[k] == p;
                                        let v = group.points@[k];
                                        lemma_somes_contains(map@, v.index as int);
                                    }
                                    lemma_no_occurrence(copies@, p);
                                    assert(self.point(p).groups@ =~= created.point(p).groups@);
                                }
                            }
                            assert forall|g: GroupHandle| #[trigger]
                                other.has_group(g) && g != other.all_group() && g.index < current
                                    + 1 implies self.group_named(other.group(g).name@) is Some
                                && forall|k: int|
                                0 <= k < other.group(g).points@.len() ==> self.named_points(
                                    other.group(g).name@,
                                ).contains(#[trigger] mapped(map@, other.group(g).points@)[k]) by {
                                let name = other.group(g).name@;
                                if g.index < current {
                                    assert(previous.group_named(name) is Some);
                                    let holder = previous.group_named(name)->0;
                                    previous.lemma_group_named(name);
                                    assert(self.group_named(name) == Some(holder));
                                    assert forall|k: int|
                                        0 <= k < other.group(
                                            g,
                                        ).points@.len() implies self.named_points(name).contains(
                                        #[trigger] mapped(map@, other.group(g).points@)[k],
                                    ) by {
                                        let item = mapped(map@, other.group(g).points@)[k];
                                        assert(previous.named_points(name).contains(item));
                                        if holder.index == target.index {
                                            assert(holder == target);
                                            let j = choose|j: int|
                                                0 <= j < previous.named_points(name).len()
                                                    && previous.named_points(name)[j] == item;
                                            assert(self.named_points(name)[j] == item);
                                        } else {
                                            assert(created.groups().slots[holder.index as int]
                                                == previous.groups().slots[holder.index as int]);
                                            assert(self.groups().slots[holder.index as int]
                                                == created.groups().slots[holder.index as int]);
                                        }
                                    }
                                } else {
                                    assert(g == source);
                                    assert forall|k: int|
                                        0 <= k < other.group(
                                            g,
                                        ).points@.len() implies self.named_points(name).contains(
                                        #[trigger] mapped(map@, other.group(g).points@)[k],
                                    ) by {
                                        let at = previous.named_points(name).len() + k;
                                        assert(self.named_points(name)[at] == copies@[k]);
                                    }
                                }
                            }
                            assert(before.groups_merged(other, self)) by {
                                let name = group.name@;
                                created.lemma_group_named(name);
                                assert forall|n: Seq<char>| #[trigger]
                                    before.group_named(n) is Some implies self.group_named(n)
                                    == before.group_named(n) by {
                                    assert(previous.group_named(n) == before.group_named(n));
                                    assert(self.group_named(n) == created.group_named(n));
                                }
                                assert forall|g: GroupHandle| #[trigger]
                                    self.has_group(g) && !before.has_group(g) implies before.group_named(
                                    self.group(g).name@,
                                ) is None && self.group_named(self.group(g).name@) == Some(g) by {
                                    assert(created.has_group(g));
                                    if previous.has_group(g) {
                                        let n = previous.group(g).name@;
                                        assert(previous.group_named(n) == Some(g));
                                        if g.index != target.index {
                                            assert(created.groups().slots[g.index as int]
                                                == previous.groups().slots[g.index as int]);
                                            assert(self.groups().slots[g.index as int]
                                                == created.groups().slots[g.index as int]);
                                        } else {
                                            assert(g == target);
                                            previous.lemma_group_named(name);
                                        }
                                        assert(self.group(g).name@ == n);
                                        assert(self.group_named(n) == created.group_named(n));
                                    } else {
                                        assert(g == target);
                                        assert(previous.group_named(name) is None);
                                        if before.group_named(name) is Some {
                                            assert(previous.group_named(name) == before.group_named(
                                                name,
                                            ));
                                        }
                                    }
                                }
                                assert forall|g: GroupHandle| #[trigger]
                                    before.has_group(g) && g != before.all_group() && (
                                    before.group_named(before.group(g).name@) != Some(g)
                                        || before.unnamed_in(other, g)) implies self.group(g).points@
                                    == before.group(g).points@ by {
                                    assert(previous.has_group(g));
                                    assert(previous.group(g).points@ == before.group(g).points@);
                                    if g == target {
                                        previous.lemma_group_named(name);
                                        before.lemma_group_named(name);
                                        assert(previous.group_named(name) == Some(g));
                                        assert(before.group(g).name@ == name);
                                        assert(before.group_named(name) is Some);
                                        assert(previous.group_named(name) == before.group_named(name));
                                        assert(other.group(source).name@ == name);
                                        assert(false);
                                    }
                                    assert(g.index != target.index);
                                    assert(created.groups().slots[g.index as int]
                                        == previous.groups().slots[g.index as int]);
                                    assert(self.groups().slots[g.index as int]
                                        == created.groups().slots[g.index as int]);
                                }
                            }
                            if other.names_unique() {
                                assert(group.name@ != "all"@) by {
                                    assert(other.has_group(other.all_group()));
                                    assert(other.group(other.all_group()).name@ == "all"@);
                                }
                                assert(target != before.all_group()) by {
                                    if target == before.all_group() {
                                        assert(previous.has_group(target));
                                        assert(before.group(target).name@ == "all"@);
                                    }
                                }
                                assert(self.group(before.all_group()).points@ == before.group(
                                    before.all_group(),
                                ).points@) by {
                                    let a = before.all_group();
                                    assert(previous.has_group(a));
                                    assert(created.groups().slots[a.index as int]
                                        == previous.groups().slots[a.index as int]);
                                    assert(self.groups().slots[a.index as int]
                                        == created.groups().slots[a.index as int]);
                                }
                                assert forall|g: GroupHandle| #[trigger]
                                    other.has_group(g) && g != other.all_group() implies self.named_points(
                                    other.group(g).name@,
                                ) == before.named_points(other.group(g).name@) + if g.index
                                    < current + 1 {
                                    mapped(map@, other.group(g).points@)
                                } else {
                                    Seq::<PointHandle>::empty()
                                } by {
                                    let name = other.group(g).name@;
                                    if g == source {
                                        assert(self.named_points(name) =~= before.named_points(name)
                                            + mapped(map@, other.group(g).points@));
                                    } else {
                                        assert(name != group.name@);
                                        previous.lemma_group_named(name);
                                        assert(self.group_named(name) == previous.group_named(name));
                                        if previous.group_named(name) is Some {
                                            let holder = previous.group_named(name)->0;
                                            assert(holder != target) by {
                                                if holder == target {
                                                    created.lemma_group_named(group.name@);
                                                }
                                            }
                                            assert(created.groups().slots[holder.index as int]
                                                == previous.groups().slots[holder.index as int]);
                                            assert(self.groups().slots[holder.index as int]
                                                == created.groups().slots[holder.index as int]);
                                        }
                                    }
                                }
                            }
                        }
                    }
                }
            }
            proof {
                if !done {
                    assert forall|g: GroupHandle| #[trigger]
                        other.has_group(g) && g != other.all_group() implies g.index != current by {
                        if g.index == current {
                            assert(other.groups().slots[current as int].occupied);
                        }
                    }
                }
            }
            current += 1;
        }
    }

    /// Copies every point, shape and group of `other` into the world. Each
    /// shape is copied onto the copies of its points. The points of a group
    /// are put, as their copies, behind those of the first group of that
    /// name, or into a new group of that name where there is none; the
    /// group of all points takes the copies of all points, in index order.
    /// Returns the handle of the copy for each point slot of `other`, and
    /// likewise for each shape slot.
    pub fn merge_mapped(&mut self, other: &GeometryWorld) -> (maps: (
        Vec<Option<PointHandle>>,
        Vec<Option<ShapeHandle>>,
    ))
        requires
            old(self).wf(),
            other.wf(),
        ensures
            final(self).wf(),
            final(self).all_group() == old(self).all_group(),
            maps.0@.len() == other.points().slots.len(),
            maps.1@.len() == other.shapes().slots.len(),
            old(self).copied(final(self), other, maps.0@, maps.0@.len() as int),
            old(self).shapes_copied(final(self), other, maps.0@, maps.1@, maps.1@.len() as int),
            old(self).points_kept(final(self)),
            old(self).shapes_kept(final(self)),
            old(self).groups_kept(final(self)),
            old(self).groups_merged(other, final(self)),
            final(self).points().count() == old(self).points().count() + other.points().count(),
            final(self).shapes().count() == old(self).shapes().count() + other.shapes().count(),
            forall|g: GroupHandle| #[trigger]
                other.has_group(g) && g != other.all_group() ==> final(self).group_named(
                    other.group(g).name@,
                ) is Some && forall|k: int|
                    0 <= k < other.group(g).points@.len() ==> final(self).named_points(
                        other.group(g).name@,
                    ).contains(#[trigger] mapped(maps.0@, other.group(g).points@)[k]),
            other.names_unique() ==>
                final(self).group(old(self).all_group()).points@
                    == old(self).group(old(self).all_group()).points@ + somes(maps.0@),
            other.names_unique() ==> forall|g: GroupHandle| #[trigger]
                other.has_group(g) && g != other.all_group() ==> final(self).named_points(
                    other.group(g).name@,
                ) == old(self).named_points(other.group(g).name@) + mapped(
                    maps.0@,
                    other.group(g).points@,
                ),
    {
        let ghost before = *old(self);
        let map = self.merge_points(other);
        let ghost pointed = *self;
        proof {
            other.lemma_wf();
            assert(pointed.maps_into(other, map@));
        }
        let shapes = self.merge_shapes(other, &map);
        let ghost shaped = *self;
        proof {
            assert(shaped.maps_into(other, map@)) by {
                assert forall|i: int|
                    0 <= i < map@.len() && (#[trigger] other.points().slots[i]).occupied implies map@[i]
                    is Some && shaped.has_point(map@[i]->0) by {
                    assert(pointed.has_point(map@[i]->0));
                }
            }
        }
        self.merge_groups(other, &map);
        proof {
            before.lemma_wf();
            pointed.lemma_wf();
            shaped.lemma_wf();
            assert(before.groups_merged(other, self)) by {
                assert forall|n: Seq<char>| #[trigger]
                    before.group_named(n) == shaped.group_named(n) by {
                    assert forall|i: int| 0 <= i < before.groups().slots.len() implies (
                    #[trigger] before.groups().slots[i]).data is Some == pointed.groups().slots[i].data
                        is Some && before.groups().slots[i].generation
                        == pointed.groups().slots[i].generation && (before.groups().slots[i].data
                        is Some ==> before.groups().slots[i].data->0.name@
                        == pointed.groups().slots[i].data->0.name@) by {
                        if before.groups().slots[i].occupied {
                            let g = handle_at::<Group>(i, before.groups().slots[i].generation);
                            assert(before.has_group(g));
                            assert(pointed.group(g).name@ == before.group(g).name@);
                        }
                    }
                    lemma_first_named_same(before.groups().slots, pointed.groups().slots, n, 0);
                }
                assert forall|g: GroupHandle| #[trigger]
                    before.has_group(g) <==> shaped.has_group(g) by {}
                assert forall|g: GroupHandle| #[trigger]
                    self.has_group(g) && !before.has_group(g) implies before.group_named(
                    self.group(g).name@,
                ) is None && self.group_named(self.group(g).name@) == Some(g) by {
                    assert(!shaped.has_group(g));
                }
                assert forall|g: GroupHandle| #[trigger]
                    before.has_group(g) && g != before.all_group() && (before.group_named(
                    before.group(g).name@,
                ) != Some(g) || before.unnamed_in(other, g)) implies self.group(g).points@
                    == before.group(g).points@ by {
                    assert(shaped.has_group(g));
                    assert(shaped.group(g).name@ == before.group(g).name@);
                    assert(shaped.group(g).points@ == before.group(g).points@);
                    if before.unnamed_in(other, g) {
                        assert(shaped.unnamed_in(other, g));
                    }
                }
            }
            assert forall|p: PointHandle| #[trigger] before.has_point(p) implies !somes(
                map@,
            ).contains(p) by {
                if somes(map@).contains(p) {
                    lemma_somes_from(map@, p);
                    let i = choose|i: int| 0 <= i < map@.len() && map@[i] == Some(p);
                    assert(map@[i] is Some);
                }
            }
            assert(before.points_kept(self)) by {
                assert forall|p: PointHandle| #[trigger] before.has_point(p) implies self.has_point(
                    p,
                ) && self.point(p).position == before.point(p).position && self.point(p).in_tangent
                    == before.point(p).in_tangent && self.point(p).out_tangent == before.point(
                    p,
                ).out_tangent && self.point(p).groups@ == before.point(p).groups@ && self.point(
                    p,
                ).shapes@ == before.point(p).shapes@ by {
                    assert(pointed.has_point(p));
                    assert(shaped.has_point(p));
                }
            }
            assert(before.copied(self, other, map@, map@.len() as int)) by {
                assert forall|i: int| 0 <= i < map@.len() && (#[trigger] map@[i]) is Some implies {
                    let copy = map@[i]->0;
                    let source = other.points().slots[i].data->0;
                    &&& self.has_point(copy)
                    &&& !before.has_point(copy)
                    &&& self.point(copy).position == source.position
                    &&& self.point(copy).in_tangent == source.in_tangent
                    &&& self.point(copy).out_tangent == source.out_tangent
                } by {
                    let copy = map@[i]->0;
                    assert(pointed.has_point(copy));
                    assert(shaped.has_point(copy));
                }
            }
            assert(before.shapes_copied(self, other, map@, shapes@, shapes@.len() as int)) by {
                assert forall|i: int| 0 <= i < shapes@.len() && (#[trigger] shapes@[i])
                    is Some implies {
                    let copy = shapes@[i]->0;
                    let source = other.shapes().slots[i].data->0;
                    &&& self.has_shape(copy)
                    &&& !before.has_shape(copy)
                    &&& self.shape(copy).closed == source.closed
                    &&& self.shape(copy).vertices@ == mapped(map@, source.vertices@)
                } by {}
            }
            assert(before.groups_kept(self)) by {
                assert forall|g: GroupHandle| #[trigger] before.has_group(g) implies self.has_group(
                    g,
                ) && self.group(g).name@ == before.group(g).name@ by {
                    assert(pointed.has_group(g));
                    assert(shaped.has_group(g));
                }
            }
            assert(before.shapes_kept(self)) by {
                assert forall|t: ShapeHandle| #[trigger] before.has_shape(t) implies self.has_shape(
                    t,
                ) && self.shape(t).closed == before.shape(t).closed && self.shape(t).vertices@
                    == before.shape(t).vertices@ by {
                    assert(pointed.has_shape(t));
                }
            }
            shaped.points().lemma_same_layout_count(pointed.points());
            self.points().lemma_same_layout_count(shaped.points());
            if other.names_unique() {
                assert forall|g: GroupHandle| #[trigger]
                    other.has_group(g) && g != other.all_group() implies self.named_points(
                    other.group(g).name@,
                ) == before.named_points(other.group(g).name@) + mapped(
                    map@,
                    other.group(g).points@,
                ) by {
                    let name = other.group(g).name@;
                    assert(name != "all"@) by {
                        assert(other.has_group(other.all_group()));
                    }
                    assert forall|i: int| 0 <= i < shaped.groups().slots.len() implies (
                    #[trigger] shaped.groups().slots[i]).data is Some
                        == before.groups().slots[i].data is Some && shaped.groups().slots[i].generation
                        == before.groups().slots[i].generation && (shaped.groups().slots[i].data
                        is Some ==> shaped.groups().slots[i].data->0.name@
                        == before.groups().slots[i].data->0.name@) by {
                        let h = handle_at::<Group>(i, before.groups().slots[i].generation);
                        assert(before.groups().slots[i].occupied);
                        assert(before.has_group(h));
                        assert(pointed.has_group(h));
                        assert(pointed.group(h).name@ == before.group(h).name@);
                    }
                    lemma_first_named_same(
                        shaped.groups().slots,
                        before.groups().slots,
                        name,
                        0,
                    );
                    before.lemma_group_named(name);
                    if before.group_named(name) is Some {
                        let holder = before.group_named(name)->0;
                        assert(holder != before.all_group());
                        assert(pointed.has_group(holder));
                    }
                }
            }
        }
        (map, shapes)
    }

    /// `points` and `shapes` name the copies of the points and shapes of
    /// `other` in `merged`, by their slots: each copy of a point lies where
    /// the point lies and has its tangents, each copy of a shape is open or
    /// closed as the shape and joins the copies of its points in their
    /// order, and the first group of the name of each group of `other` holds
    /// the copies of its points; behind its own points and in their order,
    /// where no two groups of `other` have one name. The group of all
    /// points then takes the copies of all points in index order.
    pub open spec fn copies(
        &self,
        other: &GeometryWorld,
        merged: &GeometryWorld,
        points: Seq<Option<PointHandle>>,
        shapes: Seq<Option<ShapeHandle>>,
    ) -> bool {
        &&& points.len() == other.points().slots.len()
        &&& shapes.len() == other.shapes().slots.len()
        &&& self.copied(merged, other, points, points.len() as int)
        &&& self.shapes_copied(merged, other, points, shapes, shapes.len() as int)
        &&& forall|g: GroupHandle| #[trigger]
            other.has_group(g) && g != other.all_group() ==> forall|k: int|
                0 <= k < other.group(g).points@.len() ==> merged.named_points(
                    other.group(g).name@,
                ).contains(#[trigger] mapped(points, other.group(g).points@)[k])
        &&& other.names_unique() ==> merged.group(self.all_group()).points@ == self.group(
            self.all_group(),
        ).points@ + somes(points)
        &&& other.names_unique() ==> forall|g: GroupHandle| #[trigger]
            other.has_group(g) && g != other.all_group() ==> merged.named_points(
                other.group(g).name@,
            ) == self.named_points(other.group(g).name@) + mapped(points, other.group(g).points@)
    }

    /// Whether `merged` is `self` with `other` merged into it: it is in
    /// order; it has every point, shape and group of `self`, each point and
    /// shape as it is in `self` and each group under its name; it has as
    /// many points and shapes as the two together; it has a group of the
    /// name of every group of `other`; and where no two groups of `other`
    /// have one name and its group of all points holds none twice, the
    /// first group of each such name holds as many points as that group of
    /// `self` and that of `other` together. What is copied is named by two
    /// lists, as `copies` says, and `groups_merged` says which groups stay
    /// as they are.
    pub open spec fn merged_with(&self, other: &GeometryWorld, merged: &GeometryWorld) -> bool {
        &&& exists|points: Seq<Option<PointHandle>>, shapes: Seq<Option<ShapeHandle>>| #[trigger]
            self.copies(other, merged, points, shapes)
        &&& merged.wf()
        &&& merged.all_group() == self.all_group()
        &&& self.points_kept(merged)
        &&& self.shapes_kept(merged)
        &&& self.groups_kept(merged)
        &&& self.groups_merged(other, merged)
        &&& merged.points().count() == self.points().count() + other.points().count()
        &&& merged.shapes().count() == self.shapes().count() + other.shapes().count()
        &&& forall|g: GroupHandle| #[trigger]
            other.has_group(g) ==> merged.group_named(other.group(g).name@) is Some
        &&& other.names_unique() && other.all_exact() ==> forall|g: GroupHandle| #[trigger]
            other.has_group(g) ==> merged.named_points(other.group(g).name@).len()
                == self.named_points(other.group(g).name@).len() + other.group(g).points@.len()
        &&& other.names_unique() && other.all_exact() && self.all_exact() ==> merged.all_exact()
    }

    /// What `copy` is merged into is what a world with the same points,
    /// shapes and groups is merged into.
    pub proof fn lemma_merged_with_copy(
        &self,
        copy: &GeometryWorld,
        other: &GeometryWorld,
        merged: &GeometryWorld,
    )
        requires
            copy.points() == self.points(),
            copy.groups() == self.groups(),
            copy.shapes() == self.shapes(),
            copy.all_group() == self.all_group(),
            copy.merged_with(other, merged),
        ensures
            self.merged_with(other, merged),
    {
        let (points, shapes) = choose|
            points: Seq<Option<PointHandle>>,
            shapes: Seq<Option<ShapeHandle>>,
        | #[trigger] copy.copies(other, merged, points, shapes);
        assert(self.copies(other, merged, points, shapes)) by {
            assert forall|i: int| 0 <= i < points.len() && (#[trigger] points[i]) is Some implies !self.has_point(
                points[i]->0,
            ) by {
                assert(!copy.has_point(points[i]->0));
            }
            assert forall|i: int| 0 <= i < shapes.len() && (#[trigger] shapes[i]) is Some implies !self.has_shape(
                shapes[i]->0,
            ) by {
                assert(!copy.has_shape(shapes[i]->0));
            }
            assert forall|g: GroupHandle| #[trigger]
                other.has_group(g) implies copy.named_points(other.group(g).name@)
                == self.named_points(other.group(g).name@) by {}
        }
        assert(self.points_kept(merged)) by {
            assert forall|p: PointHandle| #[trigger] self.has_point(p) implies merged.has_point(p)
                && merged.point(p).position == self.point(p).position && merged.point(p).in_tangent
                == self.point(p).in_tangent && merged.point(p).out_tangent == self.point(
                p,
            ).out_tangent && merged.point(p).groups@ == self.point(p).groups@ && merged.point(
                p,
            ).shapes@ == self.point(p).shapes@ by {
                assert(copy.has_point(p));
            }
        }
        assert(self.shapes_kept(merged)) by {
            assert forall|t: ShapeHandle| #[trigger] self.has_shape(t) implies merged.has_shape(t)
                && merged.shape(t).closed == self.shape(t).closed && merged.shape(t).vertices@
                == self.shape(t).vertices@ by {
                assert(copy.has_shape(t));
            }
        }
        assert(self.groups_kept(merged)) by {
            assert forall|g: GroupHandle| #[trigger] self.has_group(g) implies merged.has_group(g)
                && merged.group(g).name@ == self.group(g).name@ by {
                assert(copy.has_group(g));
            }
        }
        assert(self.groups_merged(other, merged)) by {
            assert forall|n: Seq<char>| #[trigger] self.group_named(n) == copy.group_named(n) by {}
            assert forall|g: GroupHandle| #[trigger]
                merged.has_group(g) && !self.has_group(g) implies self.group_named(
                merged.group(g).name@,
            ) is None && merged.group_named(merged.group(g).name@) == Some(g) by {
                assert(!copy.has_group(g));
            }
            assert forall|g: GroupHandle| #[trigger]
                self.has_group(g) && g != self.all_group() && (self.group_named(self.group(g).name@)
                    != Some(g) || self.unnamed_in(other, g)) implies merged.group(g).points@
                == self.group(g).points@ by {
                assert(copy.has_group(g));
                if self.unnamed_in(other, g) {
                    assert(copy.unnamed_in(other, g));
                }
            }
        }
        if other.names_unique() && other.all_exact() {
            assert forall|g: GroupHandle| #[trigger] other.has_group(g) implies merged.named_points(
                other.group(g).name@,
            ).len() == self.named_points(other.group(g).name@).len() + other.group(g).points@.len() by {
                assert(copy.named_points(other.group(g).name@) == self.named_points(
                    other.group(g).name@,
                ));
            }
        }
    }

    /// Copies every point, shape and group of `other` into the world, as
    /// `merge_mapped` does. The world then holds its own points and shapes
    /// and those of `other`; and where no two groups of `other` have one
    /// name, the first group of each of those names holds its own points
    /// and then as many more as the group of `other` holds.
    pub fn merge(&mut self, other: &GeometryWorld)
        requires
            old(self).wf(),
            other.wf(),
        ensures
            old(self).merged_with(other, final(self)),
    {
        let ghost before = *old(self);
        let maps = self.merge_mapped(other);
        proof {
            assert(before.copies(other, &*self, maps.0@, maps.1@));
            other.lemma_wf();
            other.lemma_all_group();
            before.lemma_all_group();
            self.lemma_all_group();
            lemma_somes_count(other.points().slots, maps.0@, maps.0@.len() as int);
            assert(other.points().slots.take(maps.0@.len() as int) =~= other.points().slots);
            assert(maps.0@.take(maps.0@.len() as int) =~= maps.0@);
            assert forall|g: GroupHandle| #[trigger] other.has_group(g) implies self.group_named(
                other.group(g).name@,
            ) is Some by {
                if g == other.all_group() {
                } else {
                }
            }
            if other.names_unique() && other.all_exact() {
                assert forall|g: GroupHandle| #[trigger] other.has_group(g) implies self.named_points(
                    other.group(g).name@,
                ).len() == before.named_points(other.group(g).name@).len() + other.group(
                    g,
                ).points@.len() by {
                    if g == other.all_group() {
                    } else {
                    }
                }
                if before.all_exact() {
                    let mine = before.group(before.all_group()).points@;
                    let copies = somes(maps.0@);
                    lemma_somes_distinct(maps.0@);
                    assert(before.group_linked(before.all_group()));
                    assert((mine + copies).no_duplicates()) by {
                        assert forall|i: int, j: int|
                            0 <= i < (mine + copies).len() && 0 <= j < (mine + copies).len() && i
                                != j implies (mine + copies)[i] != (mine + copies)[j] by {
                            if i < mine.len() && j >= mine.len() {
                                assert(before.has_point(mine[i]));
                                let c = copies[j - mine.len()];
                                assert(copies.contains(c));
                                lemma_somes_from(maps.0@, c);
                            } else if j < mine.len() && i >= mine.len() {
                                assert(before.has_point(mine[j]));
                                let c = copies[i - mine.len()];
                                assert(copies.contains(c));
                                lemma_somes_from(maps.0@, c);
                            }
                        }
                    }
                }
            }
        }
    }

    pub fn create_group(&mut self, name: &str) -> (handle: GroupHandle)
        requires
            old(self).wf(),
        ensures
            final(self).wf(),
            old(self).all_exact() ==> final(self).all_exact(),
            parts(handle) == old(self).groups().next_handle(),
            final(self).groups() == old(self).groups().insert(final(self).group(handle)),
            final(self).groups().count() == old(self).groups().count() + 1,
            final(self).group(handle).name@ == name@,
            final(self).group(handle).points@ == Seq::<PointHandle>::empty(),
            final(self).has_group(handle),
            !old(self).has_group(handle),
            final(self).points() == old(self).points(),
            final(self).shapes() == old(self).shapes(),
            final(self).all_group() == old(self).all_group(),
    {
        let group = Group::new(name);
        proof {
            self.groups@.lemma_insert_frame(group);
        }
        let handle = self.groups.add_entry(group);
        proof {
            let before = old(self);
            assert(self.shapes@ == before.shapes@);
            assert(self.points@ == before.points@);
            assert(before.points_grow(self));
            assert(before.groups_grow(self));
            assert(before.shapes_grow(self));
            assert forall|h: PointHandle| self.has_point(h) implies #[trigger] self.point_linked(
                h,
            ) by {
                before.lemma_point_stays_linked(self, h);
            }
            assert forall|h: GroupHandle| self.has_group(h) implies #[trigger] self.group_linked(
                h,
            ) by {
                if h != handle {
                    before.lemma_group_stays_linked(self, h);
                }
            }
            assert forall|h: ShapeHandle| self.has_shape(h) implies #[trigger] self.shape_linked(
                h,
            ) by {
                before.lemma_shape_stays_linked(self, h);
            }
        }
        handle
    }

    pub fn create_shape(&mut self, closed: bool) -> (handle: ShapeHandle)
        requires
            old(self).wf(),
        ensures
            final(self).wf(),
            old(self).all_exact() ==> final(self).all_exact(),
            parts(handle) == old(self).shapes().next_handle(),
            final(self).shapes() == old(self).shapes().insert(final(self).shape(handle)),
            final(self).shapes().count() == old(self).shapes().count() + 1,
            final(self).shape(handle).closed == closed,
            final(self).shape(handle).vertices@ == Seq::<PointHandle>::empty(),
            final(self).has_shape(handle),
            !old(self).has_shape(handle),
            final(self).points() == old(self).points(),
            final(self).groups() == old(self).groups(),
            final(self).all_group() == old(self).all_group(),
    {
        let shape = Shape::new(closed);
        proof {
            self.shapes@.lemma_insert_frame(shape);
        }
        let handle = self.shapes.add_entry(shape);
        proof {
            let before = old(self);
            assert(self.groups@ == before.groups@);
            assert(self.points@ == before.points@);
            assert(before.points_grow(self));
            assert(before.groups_grow(self));
            assert(before.shapes_grow(self));
            assert forall|h: PointHandle| self.has_point(h) implies #[trigger] self.point_linked(
                h,
            ) by {
                before.lemma_point_stays_linked(self, h);
            }
            assert forall|h: GroupHandle| self.has_group(h) implies #[trigger] self.group_linked(
                h,
            ) by {
                before.lemma_group_stays_linked(self, h);
            }
            assert forall|h: ShapeHandle| self.has_shape(h) implies #[trigger] self.shape_linked(
                h,
            ) by {
                if h != handle {
                    before.lemma_shape_stays_linked(self, h);
                }
            }
        }
        handle
    }

    pub fn get_point(&self, handle: &PointHandle) -> (result: Result<&Point, HandledVecError>)
        requires
            self.wf(),
        ensures
            match self.points().lookup(handle.index, handle.generation) {
                Lookup::Found => result == Ok::<_, HandledVecError>(&self.point(*handle)),
                Lookup::Stale => result == Err::<&Point, _>(HandledVecError::GenerationMismatch),
                Lookup::Missing => result == Err::<&Point, _>(HandledVecError::IndexDoesNotExist),
                Lookup::Unoccupied => result == Err::<&Point, _>(HandledVecError::IndexUnoccupied),
            },
    {
        self.points.get(handle)
    }

    pub fn get_shape(&self, handle: &ShapeHandle) -> (result: Result<&Shape, HandledVecError>)
        requires
            self.wf(),
        ensures
            match self.shapes().lookup(handle.index, handle.generation) {
                Lookup::Found => result == Ok::<_, HandledVecError>(&self.shape(*handle)),
                Lookup::Stale => result == Err::<&Shape, _>(HandledVecError::GenerationMismatch),
                Lookup::Missing => result == Err::<&Shape, _>(HandledVecError::IndexDoesNotExist),
                Lookup::Unoccupied => result == Err::<&Shape, _>(HandledVecError::IndexUnoccupied),
            },
    {
        self.shapes.get(handle)
    }

    pub fn get_group(&self, handle: &GroupHandle) -> (result: Result<&Group, HandledVecError>)
        requires
            self.wf(),
        ensures
            match self.groups().lookup(handle.index, handle.generation) {
                Lookup::Found => result == Ok::<_, HandledVecError>(&self.group(*handle)),
                Lookup::Stale => result == Err::<&Group, _>(HandledVecError::GenerationMismatch),
                Lookup::Missing => result == Err::<&Group, _>(HandledVecError::IndexDoesNotExist),
                Lookup::Unoccupied => result == Err::<&Group, _>(HandledVecError::IndexUnoccupied),
            },
    {
        self.groups.get(handle)
    }

    /// The number of point slots, in use or not.
    pub fn get_point_count(&self) -> (count: usize)
        ensures
            count == self.points().slots.len(),
    {
        self.points.get_length()
    }

    pub fn get_point_handle_iterator(&self) -> (iterator: HandleIterator<
        '_,
        PointHandle,
        ImmutableVector<Point>,
    >)
        ensures
            iterator.slots() == self.points().slots,
            iterator.position() == 0,
    {
        self.points.get_handle_iterator()
    }

    pub fn get_point_iterator(&self) -> (iterator: DataIterator<'_, ImmutableVector<Point>>)
        ensures
            iterator.slots() == self.points().slots,
            iterator.position() == 0,
    {
        self.points.get_iterator()
    }

    pub fn get_shape_handle_iterator(&self) -> (iterator: HandleIterator<
        '_,
        ShapeHandle,
        ImmutableVector<Shape>,
    >)
        ensures
            iterator.slots() == self.shapes().slots,
            iterator.position() == 0,
    {
        self.shapes.get_handle_iterator()
    }

    pub fn get_group_handle_iterator(&self) -> (iterator: HandleIterator<
        '_,
        GroupHandle,
        ImmutableVector<Group>,
    >)
        ensures
            iterator.slots() == self.groups().slots,
            iterator.position() == 0,
    {
        self.groups.get_handle_iterator()
    }
}


impl Clone for GeometryWorld {
    /// A copy of the world that shares its slots with the source until
    /// either is written to.
    fn clone(&self) -> (copy: Self)
        ensures
            copy.points() == self.points(),
            copy.groups() == self.groups(),
            copy.shapes() == self.shapes(),
            copy.all_group() == self.all_group(),
            self.wf() ==> copy.wf(),
            self.all_exact() ==> copy.all_exact(),
    {
        let copy = GeometryWorld {
            points: self.points.clone(),
            groups: self.groups.clone(),
            shapes: self.shapes.clone(),
            all_point_group_handle: self.all_point_group_handle,
        };
        proof {
            if self.wf() {
                self.lemma_lists_kept(&copy);
            }
        }
        copy
    }
}


impl Payload for GeometryWorld {
    /// A world is valid when it is in order.
    open spec fn valid(&self) -> bool {
        self.wf()
    }
}

} // verus!
