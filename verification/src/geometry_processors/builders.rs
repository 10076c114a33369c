//! # Building blocks
//!
//! What the processors that compute with coordinates do to the links of a
//! world. The coordinates are computed by the caller: handed over as
//! positions, or made by a function that the caller passes.

use crate::geometry::scalar::Scalar;
use crate::geometry::world::{handle_at, GeometryWorld};
use crate::geometry::world::{occurrences, repeated};
use crate::geometry::{Group, Point, PointHandle, Position, Shape, ShapeHandle};
use crate::geometry::GroupHandle;
use crate::handled_vec::data_vector::DataField;
use crate::handled_vec::{lemma_live_handles, live_handles, occupied_count, Arena};
use crate::graph::text::{digits_of, unsigned_text};
use vstd::prelude::*;

verus! {

/// The handles of `count` points that were put one after another into a
/// world that had `first` point slots and none to use again.
pub open spec fn row(first: int, count: int) -> Seq<PointHandle> {
    Seq::new(count as nat, |k: int| handle_at::<Point>(first + k, 1))
}

/// Puts a point at each of the places, in their order, and returns the
/// handles of the points. A place is a position with an incoming and an
/// outgoing tangent.
pub fn add_points(world: &mut GeometryWorld, positions: &Vec<(Position, Position, Position)>) -> (handles:
    Vec<PointHandle>)
    requires
        old(world).wf(),
    ensures
        final(world).wf(),
        old(world).all_exact() ==> final(world).all_exact(),
        final(world).all_group() == old(world).all_group(),
        final(world).shapes() == old(world).shapes(),
        final(world).groups().same_layout(old(world).groups()),
        old(world).points_kept(final(world)),
        old(world).groups_kept(final(world)),
        handles@.len() == positions@.len(),
        final(world).points().count() == old(world).points().count() + positions@.len(),
        final(world).group(old(world).all_group()).points@ == old(world).group(
            old(world).all_group(),
        ).points@ + handles@,
        forall|g: crate::geometry::GroupHandle| #[trigger]
            old(world).has_group(g) && g != old(world).all_group() ==> final(world).group(g).points@
                == old(world).group(g).points@,
        forall|k: int|
            0 <= k < handles@.len() ==> {
                let handle = #[trigger] handles@[k];
                &&& final(world).has_point(handle)
                &&& !old(world).has_point(handle)
                &&& final(world).point(handle).position == positions@[k].0
                &&& final(world).point(handle).in_tangent == positions@[k].1
                &&& final(world).point(handle).out_tangent == positions@[k].2
                &&& final(world).point(handle).groups@ == seq![old(world).all_group()]
                &&& final(world).point(handle).shapes@ == Seq::<ShapeHandle>::empty()
            },
        forall|j: int, k: int|
            0 <= j < k < handles@.len() ==> #[trigger] handles@[j] != #[trigger] handles@[k],
        old(world).points().free.len() == 0 ==> handles@ == row(
            old(world).points().slots.len() as int,
            positions@.len() as int,
        )
            && final(world).points().free.len() == 0
            && final(world).points().slots.len() == old(world).points().slots.len() + positions@.len(),
{
    let ghost start = *world;
    let mut handles: Vec<PointHandle> = Vec::new();
    let mut current: usize = 0;
    let length = positions.len();
    proof {
        start.lemma_wf();
        assert(start.group(start.all_group()).points@ + handles@ =~= start.group(
            start.all_group(),
        ).points@);
    }
    while current < length
        invariant
            current <= length,
            length == positions@.len(),
            start.wf(),
            world.wf(),
            start.all_exact() ==> world.all_exact(),
            world.all_group() == start.all_group(),
            world.shapes() == start.shapes(),
            world.groups().same_layout(start.groups()),
            start.points_kept(&*world),
            start.groups_kept(&*world),
            handles@.len() == current,
            world.points().count() == start.points().count() + current,
            world.group(start.all_group()).points@ == start.group(start.all_group()).points@
                + handles@,
            forall|g: crate::geometry::GroupHandle| #[trigger]
                start.has_group(g) && g != start.all_group() ==> world.group(g).points@
                    == start.group(g).points@,
            forall|k: int|
                0 <= k < handles@.len() ==> {
                    let handle = #[trigger] handles@[k];
                    &&& world.has_point(handle)
                    &&& !start.has_point(handle)
                    &&& world.point(handle).position == positions@[k].0
                    &&& world.point(handle).in_tangent == positions@[k].1
                    &&& world.point(handle).out_tangent == positions@[k].2
                    &&& world.point(handle).groups@ == seq![start.all_group()]
                    &&& world.point(handle).shapes@ == Seq::<ShapeHandle>::empty()
                },
            forall|j: int, k: int|
                0 <= j < k < handles@.len() ==> #[trigger] handles@[j] != #[trigger] handles@[k],
            start.points().free.len() == 0 ==> handles@ == row(
                start.points().slots.len() as int,
                current as int,
            ) && world.points().free.len() == 0 && world.points().slots.len()
                == start.points().slots.len() + current,
        decreases length - current,
    {
        let ghost previous = *world;
        let ghost previous_handles = handles@;
        proof {
            previous.lemma_wf();
        }
        let place = positions[current];
        let handle = world.create_point(Point::new(place.0, place.1, place.2));
        handles.push(handle);
        proof {
            previous.points().lemma_insert_frame(world.point(handle));
            previous.groups().lemma_update_frame(
                previous.all_group().index,
                previous.all_group().generation,
                world.group(previous.all_group()),
            );
            assert(world.group(start.all_group()).points@ =~= start.group(
                start.all_group(),
            ).points@ + handles@);
            assert(start.points_kept(&*world)) by {
                assert forall|p: PointHandle| #[trigger] start.has_point(p) implies world.has_point(
                    p,
                ) && world.point(p).position == start.point(p).position && world.point(
                    p,
                ).in_tangent == start.point(p).in_tangent && world.point(p).out_tangent
                    == start.point(p).out_tangent && world.point(p).groups@ == start.point(
                    p,
                ).groups@ && world.point(p).shapes@ == start.point(p).shapes@ by {
                    assert(previous.has_point(p));
                    assert(world.points().slots[p.index as int]
                        == previous.points().slots[p.index as int]);
                }
            }
            assert(start.groups_kept(&*world)) by {
                assert forall|g: crate::geometry::GroupHandle| #[trigger]
                    start.has_group(g) implies world.has_group(g) && world.group(g).name@
                    == start.group(g).name@ by {
                    assert(previous.has_group(g));
                    if g.index != start.all_group().index {
                        assert(world.groups().slots[g.index as int]
                            == previous.groups().slots[g.index as int]);
                    }
                }
            }
            assert forall|g: crate::geometry::GroupHandle| #[trigger]
                start.has_group(g) && g != start.all_group() implies world.group(g).points@
                == start.group(g).points@ by {
                assert(previous.has_group(g));
                assert(world.groups().slots[g.index as int]
                    == previous.groups().slots[g.index as int]);
            }
            assert(world.groups().same_layout(start.groups())) by {
                assert forall|i: int| 0 <= i < world.groups().slots.len() implies (
                #[trigger] world.groups().slots[i]).occupied == start.groups().slots[i].occupied
                    && world.groups().slots[i].generation == start.groups().slots[i].generation by {
                    assert(previous.groups().slots[i].occupied
                        == start.groups().slots[i].occupied);
                    if i != start.all_group().index {
                        assert(world.groups().slots[i] == previous.groups().slots[i]);
                    }
                }
            }
            assert forall|k: int| 0 <= k < handles@.len() implies {
                let h = #[trigger] handles@[k];
                &&& world.has_point(h)
                &&& !start.has_point(h)
                &&& world.point(h).position == positions@[k].0
                &&& world.point(h).in_tangent == positions@[k].1
                &&& world.point(h).out_tangent == positions@[k].2
                &&& world.point(h).groups@ == seq![start.all_group()]
                &&& world.point(h).shapes@ == Seq::<ShapeHandle>::empty()
            } by {
                let h = handles@[k];
                if k < current {
                    assert(previous_handles[k] == h);
                    assert(previous.has_point(h));
                    assert(world.points().slots[h.index as int]
                        == previous.points().slots[h.index as int]);
                } else {
                    if start.has_point(h) {
                        assert(previous.has_point(h));
                    }
                }
            }
            assert forall|j: int, k: int| 0 <= j < k < handles@.len() implies #[trigger] handles@[j]
                != #[trigger] handles@[k] by {
                assert(previous_handles[j] == handles@[j]);
                if k == current {
                    assert(previous.has_point(handles@[j]));
                } else {
                    assert(previous_handles[k] == handles@[k]);
                }
            }
            if start.points().free.len() == 0 {
                assert(handles@ =~= row(start.points().slots.len() as int, current + 1));
            }
        }
        current += 1;
    }
    handles
}

/// Puts a point without tangents at each of the positions, in their order,
/// and returns the handles of the points.
pub fn add_linear_points(world: &mut GeometryWorld, positions: &Vec<Position>) -> (handles: Vec<
    PointHandle,
>)
    requires
        old(world).wf(),
    ensures
        final(world).wf(),
        old(world).all_exact() ==> final(world).all_exact(),
        final(world).all_group() == old(world).all_group(),
        final(world).shapes() == old(world).shapes(),
        final(world).groups().same_layout(old(world).groups()),
        old(world).points_kept(final(world)),
        old(world).groups_kept(final(world)),
        handles@.len() == positions@.len(),
        final(world).points().count() == old(world).points().count() + positions@.len(),
        final(world).group(old(world).all_group()).points@ == old(world).group(
            old(world).all_group(),
        ).points@ + handles@,
        forall|g: crate::geometry::GroupHandle| #[trigger]
            old(world).has_group(g) && g != old(world).all_group() ==> final(world).group(g).points@
                == old(world).group(g).points@,
        forall|k: int|
            0 <= k < handles@.len() ==> {
                let handle = #[trigger] handles@[k];
                &&& final(world).has_point(handle)
                &&& !old(world).has_point(handle)
                &&& final(world).point(handle).position == positions@[k]
                &&& final(world).point(handle).in_tangent == Position(
                    Scalar { bits: 0 },
                    Scalar { bits: 0 },
                )
                &&& final(world).point(handle).out_tangent == Position(
                    Scalar { bits: 0 },
                    Scalar { bits: 0 },
                )
                &&& final(world).point(handle).groups@ == seq![old(world).all_group()]
                &&& final(world).point(handle).shapes@ == Seq::<ShapeHandle>::empty()
            },
        forall|j: int, k: int|
            0 <= j < k < handles@.len() ==> #[trigger] handles@[j] != #[trigger] handles@[k],
        old(world).points().free.len() == 0 ==> handles@ == row(
            old(world).points().slots.len() as int,
            positions@.len() as int,
        )
            && final(world).points().free.len() == 0
            && final(world).points().slots.len() == old(world).points().slots.len() + positions@.len(),
{
    let mut places: Vec<(Position, Position, Position)> = Vec::new();
    let mut current: usize = 0;
    let length = positions.len();
    while current < length
        invariant
            current <= length,
            length == positions@.len(),
            places@.len() == current,
            forall|k: int|
                0 <= k < current ==> #[trigger] places@[k] == (
                    positions@[k],
                    Position(Scalar { bits: 0 }, Scalar { bits: 0 }),
                    Position(Scalar { bits: 0 }, Scalar { bits: 0 }),
                ),
        decreases length - current,
    {
        places.push((positions[current], Position::origin(), Position::origin()));
        current += 1;
    }
    add_points(world, &places)
}

/// A world with a point without tangents at each of the positions, in
/// their order, and with one shape, open or closed, that joins them in that
/// order.
pub fn outline(corners: &Vec<Position>, closed: bool) -> (world: GeometryWorld)
    ensures
        world.wf(),
        world.all_exact(),
        world.points().count() == corners@.len(),
        world.points().slots.len() == corners@.len(),
        world.shapes().count() == 1,
        world.groups().slots.len() == 1,
        world.has_shape(handle_at::<Shape>(0, 1)),
        world.shape(handle_at::<Shape>(0, 1)).closed == closed,
        world.shape(handle_at::<Shape>(0, 1)).vertices@ == row(0, corners@.len() as int),
        world.group(world.all_group()).points@ == row(0, corners@.len() as int),
        forall|k: int|
            0 <= k < corners@.len() ==> {
                let handle = #[trigger] row(0, corners@.len() as int)[k];
                &&& world.has_point(handle)
                &&& world.point(handle).position == corners@[k]
                &&& world.point(handle).in_tangent == Position(
                    Scalar { bits: 0 },
                    Scalar { bits: 0 },
                )
                &&& world.point(handle).out_tangent == Position(
                    Scalar { bits: 0 },
                    Scalar { bits: 0 },
                )
            },
{
    let mut world = GeometryWorld::new();
    let shape = world.create_shape(closed);
    let ghost shaped = world;
    let handles = add_linear_points(&mut world, corners);
    let ghost pointed = world;
    proof {
        assert(shaped.group(shaped.all_group()).points@ + handles@ =~= handles@);
        assert forall|k: int| 0 <= k < handles@.len() implies pointed.points().contains(
            (#[trigger] handles@[k]).index,
            handles@[k].generation,
        ) by {
            assert(pointed.has_point(handles@[k]));
        }
        crate::geometry::world::lemma_all_found(pointed.points(), handles@);
        pointed.lemma_wf();
    }
    let copies = copy_of(&handles);
    world.add_points_to_shape(copies, &shape);
    proof {
        pointed.shapes().lemma_update_frame(shape.index, shape.generation, world.shape(shape));
        pointed.shapes().lemma_update_wf(shape.index, shape.generation, world.shape(shape));
        assert(world.shape(shape).vertices@ =~= handles@);
        world.points().lemma_same_layout_count(pointed.points());
        assert forall|k: int| 0 <= k < corners@.len() implies {
            let handle = #[trigger] row(0, corners@.len() as int)[k];
            &&& world.has_point(handle)
            &&& world.point(handle).position == corners@[k]
            &&& world.point(handle).in_tangent == Position(Scalar { bits: 0 }, Scalar { bits: 0 })
            &&& world.point(handle).out_tangent == Position(Scalar { bits: 0 }, Scalar { bits: 0 })
        } by {
            let handle = handles@[k];
            assert(pointed.has_point(handle));
        }
    }
    world
}

/// A copy of a list of handles.
pub fn copy_of(handles: &Vec<PointHandle>) -> (copy: Vec<PointHandle>)
    ensures
        copy@ == handles@,
{
    let mut copy: Vec<PointHandle> = Vec::new();
    let mut current: usize = 0;
    let length = handles.len();
    while current < length
        invariant
            current <= length,
            length == handles@.len(),
            copy@ == handles@.take(current as int),
        decreases length - current,
    {
        copy.push(handles[current]);
        assert(handles@.take(current + 1) =~= handles@.take(current as int).push(
            handles@[current as int],
        ));
        current += 1;
    }
    assert(handles@.take(length as int) =~= handles@);
    copy
}


/// Puts, for every point of the world, a copy at the position that `place`
/// makes of the point, with the tangents of the point. Returns the handles
/// of the copies, in the index order of the points they are copies of.
pub fn copy_points<F: Fn(&Point) -> Position>(world: &mut GeometryWorld, place: F) -> (copies: Vec<
    PointHandle,
>)
    requires
        old(world).wf(),
        forall|p: PointHandle| #[trigger]
            old(world).has_point(p) ==> call_requires(place, (&old(world).point(p),)),
    ensures
        final(world).wf(),
        old(world).all_exact() ==> final(world).all_exact(),
        final(world).all_group() == old(world).all_group(),
        final(world).shapes() == old(world).shapes(),
        old(world).points_kept(final(world)),
        old(world).groups_kept(final(world)),
        copies@.len() == old(world).points().count(),
        copies@.len() == old(world).points().handles().len(),
        final(world).points().count() == 2 * old(world).points().count(),
        final(world).group(old(world).all_group()).points@ == old(world).group(
            old(world).all_group(),
        ).points@ + copies@,
        forall|k: int|
            0 <= k < copies@.len() ==> {
                let copy = #[trigger] copies@[k];
                let model = handle_at::<Point>(
                    old(world).points().handles()[k].0 as int,
                    old(world).points().handles()[k].1,
                );
                &&& old(world).has_point(model)
                &&& final(world).has_point(copy)
                &&& !old(world).has_point(copy)
                &&& call_ensures(place, (&old(world).point(model),), final(world).point(copy).position)
                &&& final(world).point(copy).in_tangent == old(world).point(model).in_tangent
                &&& final(world).point(copy).out_tangent == old(world).point(model).out_tangent
                &&& final(world).point(copy).groups@ == seq![old(world).all_group()]
                &&& final(world).point(copy).shapes@ == Seq::<ShapeHandle>::empty()
            },
{
    let ghost start = *world;
    let ghost slots = start.points().slots;
    let mut places: Vec<(Position, Position, Position)> = Vec::new();
    let length = world.get_point_count();
    let mut current: usize = 0;
    proof {
        start.lemma_wf();
    }
    while current < length
        invariant
            current <= length,
            length == slots.len(),
            slots == start.points().slots,
            slots.len() <= usize::MAX,
            *world == start,
            world.wf(),
            forall|p: PointHandle| #[trigger]
                start.has_point(p) ==> call_requires(place, (&start.point(p),)),
            places@.len() == live_handles(slots, current as int).len(),
            forall|k: int|
                0 <= k < places@.len() ==> {
                    let model = handle_at::<Point>(
                        live_handles(slots, current as int)[k].0 as int,
                        live_handles(slots, current as int)[k].1,
                    );
                    &&& start.has_point(model)
                    &&& call_ensures(place, (&start.point(model),), (#[trigger] places@[k]).0)
                    &&& places@[k].1 == start.point(model).in_tangent
                    &&& places@[k].2 == start.point(model).out_tangent
                },
        decreases length - current,
    {
        let ghost before = places@;
        proof {
            lemma_live_handles(slots, current as int);
        }
        let handle = world.get_point_handle_from_index(current);
        if let Ok(point) = world.get_point(&handle) {
            assert(start.has_point(handle));
            assert(*point == start.point(handle));
            let position = place(point);
            places.push((position, point.in_tangent, point.out_tangent));
        }
        proof {
            assert forall|k: int| 0 <= k < places@.len() implies {
                let model = handle_at::<Point>(
                    live_handles(slots, current + 1)[k].0 as int,
                    live_handles(slots, current + 1)[k].1,
                );
                &&& start.has_point(model)
                &&& call_ensures(place, (&start.point(model),), (#[trigger] places@[k]).0)
                &&& places@[k].1 == start.point(model).in_tangent
                &&& places@[k].2 == start.point(model).out_tangent
            } by {
                if k < before.len() {
                    assert(places@[k] == before[k]);
                    assert(live_handles(slots, current + 1)[k] == live_handles(
                        slots,
                        current as int,
                    )[k]);
                }
            }
        }
        current += 1;
    }
    proof {
        start.points().lemma_handles_complete();
    }
    add_points(world, &places)
}

/// The two neighbours of the point at a place of a shape, between which
/// the point gets its tangents: the points before and after it. In a
/// closed shape the first point comes after the last; in an open shape
/// the two ends have no such neighbours, and in a shape of less than three
/// points no point has.
pub open spec fn neighbours(vertices: Seq<PointHandle>, closed: bool, at: int) -> Option<
    (PointHandle, PointHandle),
> {
    if vertices.len() < 3 || at < 0 || at >= vertices.len() {
        None
    } else if 0 < at < vertices.len() - 1 {
        Some((vertices[at - 1], vertices[at + 1]))
    } else if closed {
        Some(
            (
                vertices[if at == 0 {
                    vertices.len() - 1
                } else {
                    at - 1
                }],
                vertices[if at + 1 == vertices.len() {
                    0
                } else {
                    at + 1
                }],
            ),
        )
    } else {
        None
    }
}

/// The neighbours of a point at the last of the first `upto` places of a
/// shape at which the point stands and has neighbours.
pub open spec fn last_in_shape(
    vertices: Seq<PointHandle>,
    closed: bool,
    point: PointHandle,
    upto: int,
) -> Option<(PointHandle, PointHandle)>
    decreases upto,
{
    if upto <= 0 {
        None
    } else if vertices[upto - 1] == point && neighbours(vertices, closed, upto - 1) is Some {
        neighbours(vertices, closed, upto - 1)
    } else {
        last_in_shape(vertices, closed, point, upto - 1)
    }
}

/// The neighbours of a point in the last of the shapes in the first `upto`
/// slots in which the point has neighbours, at the last such place of that
/// shape.
pub open spec fn last_neighbours(slots: Seq<DataField<Shape>>, point: PointHandle, upto: int) -> Option<
    (PointHandle, PointHandle),
>
    decreases upto,
{
    if upto <= 0 {
        None
    } else {
        let here = if slots[upto - 1].occupied {
            let shape = slots[upto - 1].data->0;
            last_in_shape(shape.vertices@, shape.closed, point, shape.vertices@.len() as int)
        } else {
            None
        };
        if here is Some {
            here
        } else {
            last_neighbours(slots, point, upto - 1)
        }
    }
}

/// A point has the tangents that `tangents` makes of the positions of the
/// two neighbours found for it, and the tangents that it had where none
/// were found.
pub open spec fn smoothed<F: Fn(Position, Position) -> (Position, Position)>(
    world: &GeometryWorld,
    tangents: F,
    found: Option<(PointHandle, PointHandle)>,
    before: Point,
    after: Point,
) -> bool {
    match found {
        Some((first, second)) => call_ensures(
            tangents,
            (world.point(first).position, world.point(second).position),
            (after.in_tangent, after.out_tangent),
        ),
        None => after.in_tangent == before.in_tangent && after.out_tangent == before.out_tangent,
    }
}

/// In a shape of less than three points no point has neighbours.
proof fn lemma_short_shape(vertices: Seq<PointHandle>, closed: bool, point: PointHandle, upto: int)
    requires
        vertices.len() < 3,
    ensures
        last_in_shape(vertices, closed, point, upto) is None,
    decreases upto,
{
    if upto > 0 {
        lemma_short_shape(vertices, closed, point, upto - 1);
    }
}

/// Gives the points of every shape of three points or more new tangents:
/// those that `tangents` makes of the positions of the point before and of
/// the point after, as incoming and outgoing tangent. In a closed shape
/// the first point comes after the last; in an open shape the two ends
/// keep their tangents. The shapes are gone through by their slots and
/// each shape from its first point to its last, so that a point that
/// stands at several places has the tangents of the last of them. Every
/// position is what it was.
pub fn smooth_tangents<F: Fn(Position, Position) -> (Position, Position)>(
    world: &mut GeometryWorld,
    tangents: F,
)
    requires
        old(world).wf(),
        forall|a: PointHandle, b: PointHandle|
            old(world).has_point(a) && old(world).has_point(b) ==> call_requires(
                tangents,
                (#[trigger] old(world).point(a).position, #[trigger] old(world).point(b).position),
            ),
    ensures
        final(world).wf(),
        old(world).all_exact() ==> final(world).all_exact(),
        final(world).all_group() == old(world).all_group(),
        final(world).groups() == old(world).groups(),
        final(world).shapes() == old(world).shapes(),
        final(world).points().same_layout(old(world).points()),
        forall|p: PointHandle| #[trigger]
            old(world).has_point(p) ==> {
                &&& final(world).point(p).position == old(world).point(p).position
                &&& final(world).point(p).groups@ == old(world).point(p).groups@
                &&& final(world).point(p).shapes@ == old(world).point(p).shapes@
                &&& smoothed(
                    &*old(world),
                    tangents,
                    last_neighbours(
                        old(world).shapes().slots,
                        p,
                        old(world).shapes().slots.len() as int,
                    ),
                    old(world).point(p),
                    final(world).point(p),
                )
            },
{
    let ghost start = *world;
    let ghost slots = start.shapes().slots;
    let snapshot = world.clone();
    let length = snapshot.get_shape_slot_count();
    let mut current: usize = 0;
    proof {
        start.lemma_wf();
    }
    while current < length
        invariant
            current <= length,
            length == slots.len(),
            slots == start.shapes().slots,
            start.wf(),
            snapshot.wf(),
            snapshot.points() == start.points(),
            snapshot.shapes() == start.shapes(),
            world.wf(),
            start.all_exact() ==> world.all_exact(),
            world.all_group() == start.all_group(),
            world.groups() == start.groups(),
            world.shapes() == start.shapes(),
            world.points().same_layout(start.points()),
            forall|a: PointHandle, b: PointHandle|
                start.has_point(a) && start.has_point(b) ==> call_requires(
                    tangents,
                    (#[trigger] start.point(a).position, #[trigger] start.point(b).position),
                ),
            forall|p: PointHandle| #[trigger]
                start.has_point(p) ==> {
                    &&& world.point(p).position == start.point(p).position
                    &&& world.point(p).groups@ == start.point(p).groups@
                    &&& world.point(p).shapes@ == start.point(p).shapes@
                    &&& smoothed(
                        &start,
                        tangents,
                        last_neighbours(slots, p, current as int),
                        start.point(p),
                        world.point(p),
                    )
                },
        decreases length - current,
    {
        let mut handles: Vec<PointHandle> = Vec::new();
        let mut closed = false;
        if let Some(shape) = snapshot.get_shape_in_slot(current) {
            handles = copy_of(&shape.vertices);
            closed = shape.closed;
            proof {
                snapshot.lemma_wf();
                let named = handle_at::<Shape>(
                    current as int,
                    snapshot.shapes().slots[current as int].generation,
                );
                assert(snapshot.has_shape(named));
                assert(snapshot.shape_linked(named));
                assert forall|k: int| 0 <= k < handles@.len() implies start.has_point(
                    #[trigger] handles@[k],
                ) by {
                    assert(snapshot.has_point(snapshot.shape(named).vertices@[k]));
                }
            }
        }
        // What the slot holds: the points of its shape, or nothing.
        let ghost held = slots[current as int].occupied;
        proof {
            assert(held ==> handles@ == slots[current as int].data->0.vertices@ && closed
                == slots[current as int].data->0.closed);
            assert(!held ==> handles@.len() == 0);
        }
        let count = handles.len();
        let mut at: usize = 0;
        while at < count
            invariant
                at <= count,
                count == handles@.len(),
                current < length,
                length == slots.len(),
                slots == start.shapes().slots,
                forall|k: int| 0 <= k < handles@.len() ==> start.has_point(#[trigger] handles@[k]),
                start.wf(),
                snapshot.wf(),
                snapshot.points() == start.points(),
                snapshot.shapes() == start.shapes(),
                world.wf(),
                start.all_exact() ==> world.all_exact(),
                world.all_group() == start.all_group(),
                world.groups() == start.groups(),
                world.shapes() == start.shapes(),
                world.points().same_layout(start.points()),
                forall|a: PointHandle, b: PointHandle|
                    start.has_point(a) && start.has_point(b) ==> call_requires(
                        tangents,
                        (#[trigger] start.point(a).position, #[trigger] start.point(b).position),
                    ),
                forall|p: PointHandle| #[trigger]
                    start.has_point(p) ==> {
                        &&& world.point(p).position == start.point(p).position
                        &&& world.point(p).groups@ == start.point(p).groups@
                        &&& world.point(p).shapes@ == start.point(p).shapes@
                        &&& smoothed(
                            &start,
                            tangents,
                            if last_in_shape(handles@, closed, p, at as int) is Some {
                                last_in_shape(handles@, closed, p, at as int)
                            } else {
                                last_neighbours(slots, p, current as int)
                            },
                            start.point(p),
                            world.point(p),
                        )
                    },
            decreases count - at,
        {
            let inner = at >= 1 && at + 1 < count;
            if count >= 3 && (closed || inner) {
                let before = if at == 0 {
                    count - 1
                } else {
                    at - 1
                };
                let after = if at + 1 == count {
                    0
                } else {
                    at + 1
                };
                let here = handles[at];
                let ghost previous = *world;
                let ghost first = handles@[before as int];
                let ghost second = handles@[after as int];
                assert(start.has_point(first));
                assert(start.has_point(second));
                assert(start.has_point(handles@[at as int]));
                assert(neighbours(handles@, closed, at as int) == Some((first, second)));
                let mut made: Option<(Position, Position)> = None;
                if let Ok(one) = snapshot.get_point(&handles[before]) {
                    if let Ok(other) = snapshot.get_point(&handles[after]) {
                        made = Some(tangents(one.position, other.position));
                    }
                }
                assert(made is Some);
                let mut moved: Option<Point> = None;
                if let Some(pair) = made {
                    if let Ok(point) = world.get_point(&here) {
                        moved = Some(Point::new(point.position, pair.0, pair.1));
                    }
                }
                assert(previous.has_point(here));
                assert(moved is Some);
                if let Some(point) = moved {
                    let _ = world.set_point(&here, point);
                    proof {
                        previous.points().lemma_update_frame(
                            here.index,
                            here.generation,
                            world.point(here),
                        );
                        assert forall|p: PointHandle| #[trigger] start.has_point(p) implies {
                            &&& world.point(p).position == start.point(p).position
                            &&& world.point(p).groups@ == start.point(p).groups@
                            &&& world.point(p).shapes@ == start.point(p).shapes@
                            &&& smoothed(
                                &start,
                                tangents,
                                if last_in_shape(handles@, closed, p, at + 1) is Some {
                                    last_in_shape(handles@, closed, p, at + 1)
                                } else {
                                    last_neighbours(slots, p, current as int)
                                },
                                start.point(p),
                                world.point(p),
                            )
                        } by {
                            assert(previous.has_point(p));
                            if p.index != here.index {
                                assert(world.points().slots[p.index as int]
                                    == previous.points().slots[p.index as int]);
                                assert(handles@[at as int] != p);
                            } else {
                                assert(p == here);
                                assert(call_ensures(
                                    tangents,
                                    (start.point(first).position, start.point(second).position),
                                    (world.point(p).in_tangent, world.point(p).out_tangent),
                                ));
                            }
                        }
                    }
                }
            } else {
                proof {
                    assert(neighbours(handles@, closed, at as int) is None);
                }
            }
            at += 1;
        }
        proof {
            assert forall|p: PointHandle| #[trigger] start.has_point(p) implies smoothed(
                &start,
                tangents,
                last_neighbours(slots, p, current + 1),
                start.point(p),
                world.point(p),
            ) by {
                if !held {
                    lemma_short_shape(handles@, closed, p, count as int);
                }
            }
        }
        current += 1;
    }
}

/// The number of points of the open shapes in the first `upto` slots,
/// each counted once for each time its shape joins it.
pub open spec fn open_vertices(slots: Seq<DataField<Shape>>, upto: int) -> nat
    decreases upto,
{
    if upto <= 0 {
        0
    } else if slots[upto - 1].occupied && !slots[upto - 1].data->0.closed {
        open_vertices(slots, upto - 1) + slots[upto - 1].data->0.vertices@.len()
    } else {
        open_vertices(slots, upto - 1)
    }
}

/// Every point of `start` is a point of `world`, where it was, with the
/// tangents it had and in the groups it was in.
pub open spec fn points_stay(start: &GeometryWorld, world: &GeometryWorld) -> bool {
    forall|p: PointHandle| #[trigger]
        start.has_point(p) ==> {
            &&& world.has_point(p)
            &&& world.point(p).position == start.point(p).position
            &&& world.point(p).in_tangent == start.point(p).in_tangent
            &&& world.point(p).out_tangent == start.point(p).out_tangent
            &&& world.point(p).groups@ == start.point(p).groups@
        }
}

/// Of the shapes in the slots from `from` on, and of the closed shapes in
/// the slots before, `world` has each as it is in `start`; of the open
/// shapes in the slots before `from` it has none: the slot of such a shape
/// is not in use, or is in use under a later generation.
pub open spec fn extruded(start: &GeometryWorld, world: &GeometryWorld, from: int) -> bool {
    forall|s: ShapeHandle| #[trigger]
        start.has_shape(s) ==> if s.index >= from || start.shape(s).closed {
            world.has_shape(s) && world.shape(s).closed == start.shape(s).closed && world.shape(
                s,
            ).vertices@ == start.shape(s).vertices@
        } else {
            let slot = world.shapes().slots[s.index as int];
            &&& s.index < world.shapes().slots.len()
            &&& !world.has_shape(s)
            &&& slot.generation >= s.generation
            &&& slot.occupied ==> slot.generation > s.generation
        }
}

/// The point before a place of a shape, where there is one.
pub open spec fn point_before(world: &GeometryWorld, vertices: Seq<PointHandle>, at: int) -> Option<
    &Point,
> {
    if at > 0 {
        Some(&world.point(vertices[at - 1]))
    } else {
        None
    }
}

/// The point after a place of a shape, where there is one.
pub open spec fn point_after(world: &GeometryWorld, vertices: Seq<PointHandle>, at: int) -> Option<
    &Point,
> {
    if at + 1 < vertices.len() {
        Some(&world.point(vertices[at + 1]))
    } else {
        None
    }
}

/// Two places are those of the two new points for the point at a place of
/// a shape: they lie where `sides` puts them for the point and its two
/// neighbours; the first has the tangents of the point, the second has
/// them the other way round.
pub open spec fn sided<F: Fn(&Point, Option<&Point>, Option<&Point>) -> (Position, Position)>(
    start: &GeometryWorld,
    sides: F,
    vertices: Seq<PointHandle>,
    at: int,
    first: (Position, Position, Position),
    second: (Position, Position, Position),
) -> bool {
    let point = start.point(vertices[at]);
    &&& call_ensures(
        sides,
        (&point, point_before(start, vertices, at), point_after(start, vertices, at)),
        (first.0, second.0),
    )
    &&& first.1 == point.in_tangent
    &&& first.2 == point.out_tangent
    &&& second.1 == point.out_tangent
    &&& second.2 == point.in_tangent
}

/// Where a point lies, and its two tangents.
pub open spec fn place_of(world: &GeometryWorld, point: PointHandle) -> (Position, Position, Position) {
    (world.point(point).position, world.point(point).in_tangent, world.point(point).out_tangent)
}

/// `made` is the closed shape that stands for an open shape of `start`:
/// a new shape that joins two new points for each point of the open
/// shape, the first points from the last to the first and then the
/// second points from the first to the last, each as `sided` says.
pub open spec fn outlined<F: Fn(&Point, Option<&Point>, Option<&Point>) -> (Position, Position)>(
    start: &GeometryWorld,
    world: &GeometryWorld,
    sides: F,
    vertices: Seq<PointHandle>,
    made: ShapeHandle,
) -> bool {
    let count = vertices.len() as int;
    let joined = world.shape(made).vertices@;
    &&& world.has_shape(made)
    &&& !start.has_shape(made)
    &&& world.shape(made).closed
    &&& joined.len() == 2 * count
    &&& forall|k: int|
        0 <= k < count ==> {
            let first = joined[count - 1 - k];
            let second = joined[count + k];
            &&& start.has_point(#[trigger] vertices[k])
            &&& world.has_point(first) && !start.has_point(first)
            &&& world.has_point(second) && !start.has_point(second)
            &&& sided(start, sides, vertices, k, place_of(world, first), place_of(world, second))
        }
}

/// `made` names, for each of the first `upto` shape slots of `start` that
/// holds an open shape, the closed shape that stands for it in `world`,
/// and nothing for the other slots.
pub open spec fn all_outlined<F: Fn(&Point, Option<&Point>, Option<&Point>) -> (Position, Position)>(
    start: &GeometryWorld,
    world: &GeometryWorld,
    sides: F,
    made: Seq<Option<ShapeHandle>>,
    upto: int,
) -> bool {
    &&& made.len() == upto
    &&& forall|i: int|
        0 <= i < upto ==> ((#[trigger] made[i]) is Some <==> start.shapes().slots[i].occupied
            && !start.shapes().slots[i].data->0.closed)
    &&& forall|i: int|
        0 <= i < upto && (#[trigger] made[i]) is Some ==> outlined(
            start,
            world,
            sides,
            start.shapes().slots[i].data->0.vertices@,
            made[i]->0,
        )
    &&& forall|i: int, j: int|
        0 <= i < j < upto && (#[trigger] made[i]) is Some && (#[trigger] made[j]) is Some ==> made[i]
            != made[j]
}

/// Puts a closed shape in the place of every open shape: for each point of
/// the open shape, two new points at the positions that `sides` makes of
/// the point, of the point before it in the shape and of the point after
/// it, where there is one. The first of the two has the tangents of the
/// point, the second has them the other way round. The closed shape joins
/// the first points from the last to the first, and then the second points
/// from the first to the last.
#[verifier::rlimit(60)]
pub fn extrude_open_shapes<F: Fn(&Point, Option<&Point>, Option<&Point>) -> (Position, Position)>(
    world: &mut GeometryWorld,
    sides: F,
)
    requires
        old(world).wf(),
        forall|p: &Point, a: Option<&Point>, b: Option<&Point>| call_requires(sides, (p, a, b)),
    ensures
        final(world).wf(),
        final(world).all_group() == old(world).all_group(),
        old(world).groups_kept(final(world)),
        points_stay(&*old(world), final(world)),
        extruded(&*old(world), final(world), old(world).shapes().slots.len() as int),
        exists|made: Seq<Option<ShapeHandle>>| #[trigger]
            all_outlined(
                &*old(world),
                final(world),
                sides,
                made,
                old(world).shapes().slots.len() as int,
            ),
        final(world).shapes().count() == old(world).shapes().count(),
        final(world).points().count() == old(world).points().count() + 2 * open_vertices(
            old(world).shapes().slots,
            old(world).shapes().slots.len() as int,
        ),
{
    let ghost start = *world;
    let ghost mut made: Seq<Option<ShapeHandle>> = Seq::empty();
    let snapshot = world.clone();
    let length = snapshot.get_shape_slot_count();
    let mut current: usize = 0;
    proof {
        start.lemma_wf();
        assert(start.groups_kept(&start));
    }
    while current < length
        invariant
            current <= length,
            length == start.shapes().slots.len(),
            start.wf(),
            snapshot.wf(),
            snapshot.points() == start.points(),
            snapshot.shapes() == start.shapes(),
            world.wf(),
            world.all_group() == start.all_group(),
            start.groups_kept(&*world),
            points_stay(&start, &*world),
            extruded(&start, &*world, current as int),
            all_outlined(&start, &*world, sides, made, current as int),
            world.shapes().count() == start.shapes().count(),
            world.points().count() == start.points().count() + 2 * open_vertices(
                start.shapes().slots,
                current as int,
            ),
            forall|p: &Point, a: Option<&Point>, b: Option<&Point>| call_requires(sides, (p, a, b)),
        decreases length - current,
    {
        let ghost previous = *world;
        let ghost earlier = made;
        let mut vertices: Vec<PointHandle> = Vec::new();
        let mut open = false;
        if let Some(shape) = snapshot.get_shape_in_slot(current) {
            if !shape.closed {
                vertices = copy_of(&shape.vertices);
                open = true;
            }
        }
        if open {
            let model = snapshot.get_shape_handle_from_index(current);
            let count = vertices.len();
            let mut places: Vec<(Position, Position, Position)> = Vec::new();
            let mut at: usize = 0;
            proof {
                snapshot.lemma_wf();
                assert(snapshot.has_shape(model));
                assert(snapshot.shape_linked(model));
                assert forall|k: int| 0 <= k < vertices@.len() implies snapshot.has_point(
                    #[trigger] vertices@[k],
                ) by {
                    assert(snapshot.has_point(snapshot.shape(model).vertices@[k]));
                }
            }
            while at < count
                invariant
                    at <= count,
                    count == vertices@.len(),
                    snapshot.wf(),
                    places@.len() == 2 * at,
                    forall|k: int| 0 <= k < vertices@.len() ==> snapshot.has_point(#[trigger] vertices@[k]),
                    forall|k: int|
                        0 <= k < at ==> snapshot.has_point(#[trigger] vertices@[k]) && sided(
                            &snapshot,
                            sides,
                            vertices@,
                            k,
                            places@[2 * k],
                            places@[2 * k + 1],
                        ),
                    forall|p: &Point, a: Option<&Point>, b: Option<&Point>|
                        call_requires(sides, (p, a, b)),
                decreases count - at,
            {
                assert(snapshot.has_point(vertices@[at as int]));
                if at > 0 {
                    assert(snapshot.has_point(vertices@[at - 1]));
                }
                if at + 1 < count {
                    assert(snapshot.has_point(vertices@[at + 1]));
                }
                let ghost settled = places@;
                if let Ok(point) = snapshot.get_point(&vertices[at]) {
                    let before = if at > 0 {
                        match snapshot.get_point(&vertices[at - 1]) {
                            Ok(found) => Some(found),
                            Err(_) => None,
                        }
                    } else {
                        None
                    };
                    let after = if at + 1 < count {
                        match snapshot.get_point(&vertices[at + 1]) {
                            Ok(found) => Some(found),
                            Err(_) => None,
                        }
                    } else {
                        None
                    };
                    let pair = sides(point, before, after);
                    places.push((pair.0, point.in_tangent, point.out_tangent));
                    places.push((pair.1, point.out_tangent, point.in_tangent));
                    proof {
                        assert(before == point_before(&snapshot, vertices@, at as int));
                        assert(after == point_after(&snapshot, vertices@, at as int));
                        assert forall|k: int| 0 <= k < at + 1 implies snapshot.has_point(
                            #[trigger] vertices@[k],
                        ) && sided(
                            &snapshot,
                            sides,
                            vertices@,
                            k,
                            places@[2 * k],
                            places@[2 * k + 1],
                        ) by {
                            if k < at {
                                assert(places@[2 * k] == settled[2 * k]);
                                assert(places@[2 * k + 1] == settled[2 * k + 1]);
                            }
                        }
                    }
                }
                at += 1;
            }
            let handles = add_points(world, &places);
            let ghost pointed = *world;
            let total = handles.len();
            let mut outline: Vec<PointHandle> = Vec::new();
            let mut left: usize = count;
            while left > 0
                invariant
                    left <= count,
                    total == 2 * count,
                    handles@.len() == 2 * count,
                    outline@.len() == count - left,
                    forall|k: int| 0 <= k < outline@.len() ==> handles@.contains(#[trigger] outline@[k]),
                    forall|k: int|
                        0 <= k < outline@.len() ==> #[trigger] outline@[k] == handles@[2 * (count - 1
                            - k)],
                decreases left,
            {
                left -= 1;
                let ghost before = outline@;
                outline.push(handles[2 * left]);
                proof {
                    assert forall|k: int| 0 <= k < outline@.len() implies #[trigger] outline@[k]
                        == handles@[2 * (count - 1 - k)] by {
                        if k < before.len() {
                            assert(outline@[k] == before[k]);
                        }
                    }
                    assert forall|k: int| 0 <= k < outline@.len() implies handles@.contains(
                        #[trigger] outline@[k],
                    ) by {
                        if k < before.len() {
                            assert(outline@[k] == before[k]);
                        } else {
                            assert(handles@[2 * left as int] == outline@[k]);
                        }
                    }
                }
            }
            let mut right: usize = 0;
            while right < count
                invariant
                    right <= count,
                    total == 2 * count,
                    handles@.len() == 2 * count,
                    outline@.len() == count + right,
                    forall|k: int| 0 <= k < outline@.len() ==> handles@.contains(#[trigger] outline@[k]),
                    forall|k: int|
                        0 <= k < outline@.len() ==> #[trigger] outline@[k] == if k < count {
                            handles@[2 * (count - 1 - k)]
                        } else {
                            handles@[2 * (k - count) + 1]
                        },
                decreases count - right,
            {
                let ghost before = outline@;
                outline.push(handles[2 * right + 1]);
                proof {
                    assert forall|k: int| 0 <= k < outline@.len() implies #[trigger] outline@[k]
                        == if k < count {
                        handles@[2 * (count - 1 - k)]
                    } else {
                        handles@[2 * (k - count) + 1]
                    } by {
                        if k < before.len() {
                            assert(outline@[k] == before[k]);
                        }
                    }
                    assert forall|k: int| 0 <= k < outline@.len() implies handles@.contains(
                        #[trigger] outline@[k],
                    ) by {
                        if k < before.len() {
                            assert(outline@[k] == before[k]);
                        } else {
                            assert(handles@[2 * right + 1] == outline@[k]);
                        }
                    }
                }
                right += 1;
            }
            let ghost joining = outline@;
            let fresh = world.create_shape(true);
            let ghost created = *world;
            world.add_points_to_shape(outline, &fresh);
            let ghost joined = *world;
            let _ = world.remove_shape(model);
            proof {
                made = earlier.push(Some(fresh));
            }
            proof {
                previous.lemma_wf();
                pointed.lemma_wf();
                created.lemma_wf();
                joined.lemma_wf();
                pointed.shapes().lemma_insert_frame(created.shape(fresh));
                created.shapes().lemma_update_frame(fresh.index, fresh.generation, joined.shape(fresh));
                created.shapes().lemma_update_wf(fresh.index, fresh.generation, joined.shape(fresh));
                joined.shapes().lemma_remove_frame(model.index, model.generation);
                joined.shapes().lemma_remove_wf(model.index, model.generation);
                joined.points().lemma_same_layout_count(pointed.points());
                world.points().lemma_same_layout_count(joined.points());
                assert(start.has_shape(model));
                assert(previous.has_shape(model));
                assert(fresh != model);
                assert(joined.has_shape(model)) by {
                    assert(pointed.has_shape(model));
                    assert(created.has_shape(model));
                }
                assert(start.groups_kept(&*world)) by {
                    assert forall|g: GroupHandle| #[trigger] start.has_group(g) implies world.has_group(
                        g,
                    ) && world.group(g).name@ == start.group(g).name@ by {
                        assert(previous.has_group(g));
                        assert(pointed.has_group(g));
                    }
                }
                assert(points_stay(&start, &*world)) by {
                    assert forall|p: PointHandle| #[trigger] start.has_point(p) implies {
                        &&& world.has_point(p)
                        &&& world.point(p).position == start.point(p).position
                        &&& world.point(p).in_tangent == start.point(p).in_tangent
                        &&& world.point(p).out_tangent == start.point(p).out_tangent
                        &&& world.point(p).groups@ == start.point(p).groups@
                    } by {
                        assert(previous.has_point(p));
                        assert(pointed.has_point(p));
                        assert(created.has_point(p));
                        assert(joined.has_point(p));
                    }
                }
                assert(extruded(&start, &*world, current + 1)) by {
                    assert forall|t: ShapeHandle| #[trigger] start.has_shape(t) implies if t.index
                        >= current + 1 || start.shape(t).closed {
                        world.has_shape(t) && world.shape(t).closed == start.shape(t).closed
                            && world.shape(t).vertices@ == start.shape(t).vertices@
                    } else {
                        let slot = world.shapes().slots[t.index as int];
                        &&& t.index < world.shapes().slots.len()
                        &&& !world.has_shape(t)
                        &&& slot.generation >= t.generation
                        &&& slot.occupied ==> slot.generation > t.generation
                    } by {
                        if t.index >= current + 1 || start.shape(t).closed {
                            assert(previous.has_shape(t));
                            assert(pointed.has_shape(t));
                            assert(created.has_shape(t));
                            assert(t != fresh);
                            assert(t != model);
                            assert(created.shapes().slots[t.index as int]
                                == pointed.shapes().slots[t.index as int]);
                            assert(joined.shapes().slots[t.index as int]
                                == created.shapes().slots[t.index as int]);
                            assert(world.shapes().slots[t.index as int]
                                == joined.shapes().slots[t.index as int]);
                        } else if t.index == current {
                            assert(t == model);
                        } else {
                            let before = previous.shapes().slots[t.index as int];
                            assert(pointed.shapes().slots[t.index as int] == before);
                            assert(!pointed.has_shape(t));
                            if t.index == fresh.index {
                                assert(pointed.shapes().free.len() > 0);
                                let k = pointed.shapes().free.len() - 1;
                                assert(pointed.shapes().free[k] == pointed.shapes().free.last());
                                assert(created.shapes().slots[t.index as int].generation
                                    == before.generation + 1);
                            } else {
                                assert(created.shapes().slots[t.index as int]
                                    == pointed.shapes().slots[t.index as int]);
                            }
                            if t.index != fresh.index {
                                assert(joined.shapes().slots[t.index as int]
                                    == created.shapes().slots[t.index as int]);
                            }
                            assert(t.index != model.index);
                            assert(world.shapes().slots[t.index as int]
                                == joined.shapes().slots[t.index as int]);
                        }
                    }
                }
                let source = start.shapes().slots[current as int].data->0;
                assert(source.vertices@ == vertices@);
                assert(created.points() == pointed.points());
                assert forall|k: int| 0 <= k < joining.len() implies created.points().contains(
                    (#[trigger] joining[k]).index,
                    joining[k].generation,
                ) by {
                    assert(handles@.contains(joining[k]));
                    let j = choose|j: int| 0 <= j < handles@.len() && handles@[j] == joining[k];
                    assert(pointed.has_point(handles@[j]));
                }
                crate::geometry::world::lemma_all_found(created.points(), joining);
                assert(joined.shape(fresh).vertices@ =~= joining);
                assert(world.shapes().slots[fresh.index as int] == joined.shapes().slots[fresh.index as int]);
                assert(world.shape(fresh).vertices@ == joining);
                assert(outlined(&start, &*world, sides, vertices@, fresh)) by {
                    assert forall|k: int| 0 <= k < count implies {
                        let first = joining[count - 1 - k];
                        let second = joining[count + k];
                        &&& start.has_point(#[trigger] vertices@[k])
                        &&& world.has_point(first) && !start.has_point(first)
                        &&& world.has_point(second) && !start.has_point(second)
                        &&& sided(
                            &start,
                            sides,
                            vertices@,
                            k,
                            place_of(&*world, first),
                            place_of(&*world, second),
                        )
                    } by {
                        let first = joining[count - 1 - k];
                        let second = joining[count + k];
                        assert(first == handles@[2 * k]);
                        assert(second == handles@[2 * k + 1]);
                        assert(snapshot.has_point(vertices@[k]));
                        assert(pointed.has_point(handles@[2 * k]));
                        assert(pointed.has_point(handles@[2 * k + 1]));
                        assert(created.has_point(first));
                        assert(joined.has_point(first));
                        assert(created.has_point(second));
                        assert(joined.has_point(second));
                        if start.has_point(first) {
                            assert(previous.has_point(first));
                        }
                        if start.has_point(second) {
                            assert(previous.has_point(second));
                        }
                        assert(place_of(&*world, first) == places@[2 * k]);
                        assert(place_of(&*world, second) == places@[2 * k + 1]);
                        assert(sided(&snapshot, sides, vertices@, k, places@[2 * k], places@[2 * k + 1]));
                        if k > 0 {
                            assert(snapshot.has_point(vertices@[k - 1]));
                        }
                        if k + 1 < count {
                            assert(snapshot.has_point(vertices@[k + 1]));
                        }
                        assert(point_before(&snapshot, vertices@, k) == point_before(
                            &start,
                            vertices@,
                            k,
                        ));
                        assert(point_after(&snapshot, vertices@, k) == point_after(&start, vertices@, k));
                    }
                }
                assert(all_outlined(&start, &*world, sides, made, current + 1)) by {
                    assert forall|i: int| 0 <= i < current + 1 && (#[trigger] made[i])
                        is Some implies outlined(
                        &start,
                        &*world,
                        sides,
                        start.shapes().slots[i].data->0.vertices@,
                        made[i]->0,
                    ) by {
                        if i < current {
                            assert(made[i] == earlier[i]);
                            let kept = earlier[i]->0;
                            let joins = start.shapes().slots[i].data->0.vertices@;
                            assert(outlined(&start, &previous, sides, joins, kept));
                            assert(pointed.has_shape(kept));
                            assert(kept != fresh);
                            assert(kept != model);
                            assert(created.shapes().slots[kept.index as int]
                                == pointed.shapes().slots[kept.index as int]);
                            assert(joined.shapes().slots[kept.index as int]
                                == created.shapes().slots[kept.index as int]);
                            assert(world.shapes().slots[kept.index as int]
                                == joined.shapes().slots[kept.index as int]);
                            assert(world.shape(kept) == previous.shape(kept));
                            let links = previous.shape(kept).vertices@;
                            let size = joins.len() as int;
                            assert forall|k: int| 0 <= k < size implies {
                                let first = links[size - 1 - k];
                                let second = links[size + k];
                                &&& start.has_point(#[trigger] joins[k])
                                &&& world.has_point(first) && !start.has_point(first)
                                &&& world.has_point(second) && !start.has_point(second)
                                &&& sided(
                                    &start,
                                    sides,
                                    joins,
                                    k,
                                    place_of(&*world, first),
                                    place_of(&*world, second),
                                )
                            } by {
                                let first = links[size - 1 - k];
                                let second = links[size + k];
                                assert(start.has_point(joins[k]));
                                assert(previous.has_point(first));
                                assert(pointed.has_point(first));
                                assert(created.has_point(first));
                                assert(joined.has_point(first));
                                assert(previous.has_point(second));
                                assert(pointed.has_point(second));
                                assert(created.has_point(second));
                                assert(joined.has_point(second));
                                assert(place_of(&*world, first) == place_of(&previous, first));
                                assert(place_of(&*world, second) == place_of(&previous, second));
                            }
                            assert(world.has_shape(kept));
                            assert(!start.has_shape(kept));
                            assert(world.shape(kept).closed);
                            assert(world.shape(kept).vertices@ == links);
                            assert(links.len() == 2 * size);
                            assert(outlined(&start, &*world, sides, joins, kept));
                        } else {
                            assert(made[i] == Some(fresh));
                            assert(start.shapes().slots[i].data->0.vertices@ == vertices@);
                        }
                    }
                    assert forall|i: int, j: int|
                        0 <= i < j < current + 1 && (#[trigger] made[i]) is Some && (
                        #[trigger] made[j]) is Some implies made[i] != made[j] by {
                        if j == current {
                            assert(made[i] == earlier[i]);
                            let kept = earlier[i]->0;
                            let joins = start.shapes().slots[i].data->0.vertices@;
                            assert(outlined(&start, &previous, sides, joins, kept));
                            assert(pointed.has_shape(kept));
                        } else {
                            assert(made[i] == earlier[i]);
                            assert(made[j] == earlier[j]);
                        }
                    }
                    assert forall|i: int| 0 <= i < current + 1 implies ((#[trigger] made[i])
                        is Some <==> start.shapes().slots[i].occupied
                        && !start.shapes().slots[i].data->0.closed) by {
                        if i < current {
                            assert(made[i] == earlier[i]);
                        }
                    }
                }
            }
        } else {
            proof {
                made = earlier.push(None);
                assert(all_outlined(&start, &*world, sides, made, current + 1)) by {
                    assert forall|i: int| 0 <= i < current + 1 && (#[trigger] made[i])
                        is Some implies outlined(
                        &start,
                        &*world,
                        sides,
                        start.shapes().slots[i].data->0.vertices@,
                        made[i]->0,
                    ) by {
                        assert(made[i] == earlier[i]);
                    }
                    assert forall|i: int, j: int|
                        0 <= i < j < current + 1 && (#[trigger] made[i]) is Some && (
                        #[trigger] made[j]) is Some implies made[i] != made[j] by {
                        assert(made[i] == earlier[i]);
                        assert(made[j] == earlier[j]);
                    }
                    assert forall|i: int| 0 <= i < current + 1 implies ((#[trigger] made[i])
                        is Some <==> start.shapes().slots[i].occupied
                        && !start.shapes().slots[i].data->0.closed) by {
                        if i < current {
                            assert(made[i] == earlier[i]);
                        }
                    }
                }
                assert(extruded(&start, &*world, current + 1)) by {
                    assert forall|t: ShapeHandle| #[trigger] start.has_shape(t) implies if t.index
                        >= current + 1 || start.shape(t).closed {
                        world.has_shape(t) && world.shape(t).closed == start.shape(t).closed
                            && world.shape(t).vertices@ == start.shape(t).vertices@
                    } else {
                        let slot = world.shapes().slots[t.index as int];
                        &&& t.index < world.shapes().slots.len()
                        &&& !world.has_shape(t)
                        &&& slot.generation >= t.generation
                        &&& slot.occupied ==> slot.generation > t.generation
                    } by {}
                }
            }
        }
        current += 1;
    }
}


/// The name of the group of a chain: "cg" and the number of the chain.
pub open spec fn chain_label(number: nat) -> Seq<char> {
    seq!['c', 'g'] + digits_of(number)
}

fn chain_name(number: usize) -> (name: String)
    ensures
        name@ == chain_label(number as nat),
{
    proof {
        reveal_strlit("cg");
    }
    let digits = unsigned_text(number as u64);
    let mut name = String::from_str("cg");
    name.append(digits.as_str());
    assert(name@ =~= chain_label(number as nat));
    name
}

/// Every point of `start` is a point of `world`, where it was, with the
/// tangents it had and in the shapes it was in.
pub open spec fn points_remain(start: &GeometryWorld, world: &GeometryWorld) -> bool {
    forall|p: PointHandle| #[trigger]
        start.has_point(p) ==> {
            &&& world.has_point(p)
            &&& world.point(p).position == start.point(p).position
            &&& world.point(p).in_tangent == start.point(p).in_tangent
            &&& world.point(p).out_tangent == start.point(p).out_tangent
            &&& world.point(p).shapes@ == start.point(p).shapes@
        }
}

/// `next` can put a copy at `to` for a point that lies at `from` with
/// those tangents.
pub open spec fn stepped<F: Fn(&Point) -> Position>(
    next: F,
    from: (Position, Position, Position),
    to: Position,
) -> bool {
    exists|point: Point|
        #![trigger call_ensures(next, (&point,), to)]
        point.position == from.0 && point.in_tangent == from.1 && point.out_tangent == from.2
            && call_ensures(next, (&point,), to)
}

/// The places of a chain of copies of a point: each has the tangents of
/// the point; the first lies where `next` puts it for the point, and each
/// further one where `next` puts it for the copy before.
pub open spec fn chain_places<F: Fn(&Point) -> Position>(
    next: F,
    seed: (Position, Position, Position),
    places: Seq<(Position, Position, Position)>,
) -> bool {
    forall|k: int|
        0 <= k < places.len() ==> (#[trigger] places[k]).1 == seed.1 && places[k].2 == seed.2
            && stepped(
            next,
            if k == 0 {
                seed
            } else {
                places[k - 1]
            },
            places[k].0,
        )
}

/// The places of a list of points.
pub open spec fn places_of(world: &GeometryWorld, points: Seq<PointHandle>) -> Seq<
    (Position, Position, Position),
> {
    Seq::new(points.len(), |k: int| place_of(world, points[k]))
}

/// `chains` names the copies that were made of the first `upto` members
/// of a group, and `groups` the groups made for them where groups were
/// asked for: every chain holds as many new points as asked for, at the
/// places that `chain_places` says; the group of a chain is new, is named
/// "cg" and the number of the chain, and holds the member and then its
/// copies.
pub open spec fn chained<F: Fn(&Point) -> Position>(
    start: &GeometryWorld,
    world: &GeometryWorld,
    next: F,
    members: Seq<PointHandle>,
    make_groups: bool,
    iterations: nat,
    chains: Seq<Seq<PointHandle>>,
    groups: Seq<GroupHandle>,
    upto: int,
) -> bool {
    &&& chains.len() == upto
    &&& forall|c: int|
        0 <= c < upto ==> {
            let chain = #[trigger] chains[c];
            &&& chain.len() == iterations
            &&& forall|k: int|
                0 <= k < chain.len() ==> world.has_point(#[trigger] chain[k]) && !start.has_point(
                    chain[k],
                )
            &&& chain_places(next, place_of(start, members[c]), places_of(world, chain))
        }
    &&& make_groups ==> groups.len() == upto && forall|c: int|
        0 <= c < upto ==> {
            let group = #[trigger] groups[c];
            &&& world.has_group(group)
            &&& !start.has_group(group)
            &&& world.group(group).name@ == chain_label(c as nat)
            &&& world.group(group).points@ == seq![members[c]] + chains[c]
        }
}

/// The places of a chain of `iterations` copies of a point at a place.
fn chain_of<F: Fn(&Point) -> Position>(
    seed: (Position, Position, Position),
    iterations: u32,
    next: &F,
) -> (places: Vec<(Position, Position, Position)>)
    requires
        forall|p: &Point| call_requires(*next, (p,)),
    ensures
        places@.len() == iterations,
        chain_places(*next, seed, places@),
{
    let mut places: Vec<(Position, Position, Position)> = Vec::new();
    let mut last = seed;
    let mut made: u32 = 0;
    while made < iterations
        invariant
            made <= iterations,
            places@.len() == made,
            chain_places(*next, seed, places@),
            last == if made == 0 {
                seed
            } else {
                places@[made - 1]
            },
            forall|p: &Point| call_requires(*next, (p,)),
        decreases iterations - made,
    {
        let point = Point::new(last.0, last.1, last.2);
        let position = next(&point);
        let ghost before = places@;
        places.push((position, seed.1, seed.2));
        proof {
            assert(stepped(*next, last, position));
            assert forall|k: int| 0 <= k < places@.len() implies (#[trigger] places@[k]).1 == seed.1
                && places@[k].2 == seed.2 && stepped(
                *next,
                if k == 0 {
                    seed
                } else {
                    places@[k - 1]
                },
                places@[k].0,
            ) by {
                if k < before.len() {
                    assert(places@[k] == before[k]);
                    if k > 0 {
                        assert(places@[k - 1] == before[k - 1]);
                    }
                }
            }
        }
        last = (position, seed.1, seed.2);
        made += 1;
    }
    places
}

/// Puts a point at each of the places, and with `make_groups` a group
/// named "cg" and the number, that holds `seed` and then the new points.
fn add_chain(
    world: &mut GeometryWorld,
    seed: PointHandle,
    places: &Vec<(Position, Position, Position)>,
    make_groups: bool,
    number: usize,
) -> (made: (Vec<PointHandle>, Option<GroupHandle>))
    requires
        old(world).wf(),
        old(world).has_point(seed),
    ensures
        final(world).wf(),
        final(world).all_group() == old(world).all_group(),
        final(world).shapes() == old(world).shapes(),
        final(world).points().count() == old(world).points().count() + places@.len(),
        final(world).groups().count() == old(world).groups().count() + if make_groups {
            1int
        } else {
            0
        },
        forall|p: PointHandle| #[trigger]
            old(world).has_point(p) ==> final(world).has_point(p) && place_of(final(world), p)
                == place_of(&*old(world), p) && final(world).point(p).shapes@ == old(world).point(
                p,
            ).shapes@,
        forall|g: GroupHandle| #[trigger]
            old(world).has_group(g) ==> final(world).has_group(g) && final(world).group(g).name@
                == old(world).group(g).name@ && (g != old(world).all_group() ==> final(world).group(
                g,
            ).points@ == old(world).group(g).points@),
        made.0@.len() == places@.len(),
        forall|k: int|
            0 <= k < made.0@.len() ==> final(world).has_point(#[trigger] made.0@[k])
                && !old(world).has_point(made.0@[k])
                && place_of(final(world), made.0@[k]) == places@[k],
        make_groups == made.1 is Some,
        made.1 matches Some(group) ==> final(world).has_group(group) && !old(world).has_group(group)
            && final(world).group(group).name@ == chain_label(number as nat)
            && final(world).group(group).points@ == seq![seed] + made.0@,
{
    let ghost previous = *world;
    let handles = add_points(world, places);
    let ghost pointed = *world;
    let ghost links = handles@;
    let mut fresh: Option<GroupHandle> = None;
    proof {
        previous.lemma_wf();
        pointed.lemma_wf();
        pointed.groups().lemma_same_layout_count(previous.groups());
        assert(previous.has_group(previous.all_group()));
    }
    if make_groups {
        let name = chain_name(number);
        let mut listed: Vec<PointHandle> = Vec::new();
        listed.push(seed);
        let mut at: usize = 0;
        while at < handles.len()
            invariant
                at <= handles@.len(),
                listed@ == seq![seed] + handles@.take(at as int),
            decreases handles@.len() - at,
        {
            listed.push(handles[at]);
            proof {
                assert(handles@.take(at + 1) =~= handles@.take(at as int).push(handles@[at as int]));
                assert(listed@ =~= seq![seed] + handles@.take(at + 1));
            }
            at += 1;
        }
        let ghost listing = listed@;
        let group = world.create_group(name.as_str());
        let ghost created = *world;
        world.add_points_to_group(listed, &group);
        fresh = Some(group);
        proof {
            assert(handles@.take(handles@.len() as int) =~= handles@);
            assert(listing =~= seq![seed] + links);
            created.lemma_wf();
            pointed.groups().lemma_insert_frame(created.group(group));
            created.groups().lemma_update_frame(group.index, group.generation, world.group(group));
            created.groups().lemma_update_wf(group.index, group.generation, world.group(group));
            world.groups().lemma_same_layout_count(created.groups());
            world.points().lemma_same_layout_count(created.points());
            assert(pointed.has_point(seed));
            assert forall|k: int| 0 <= k < listing.len() implies created.points().contains(
                (#[trigger] listing[k]).index,
                listing[k].generation,
            ) by {
                if k > 0 {
                    assert(listing[k] == links[k - 1]);
                    assert(pointed.has_point(handles@[k - 1]));
                }
            }
            crate::geometry::world::lemma_all_found(created.points(), listing);
            assert(world.group(group).points@ =~= listing);
            assert forall|g: GroupHandle| #[trigger] previous.has_group(g) implies world.has_group(g)
                && world.group(g).name@ == previous.group(g).name@ && (g != previous.all_group()
                ==> world.group(g).points@ == previous.group(g).points@) by {
                assert(pointed.has_group(g));
                assert(g.index != group.index);
                assert(created.groups().slots[g.index as int] == pointed.groups().slots[g.index as int]);
                assert(world.groups().slots[g.index as int] == created.groups().slots[g.index as int]);
            }
            assert forall|p: PointHandle| #[trigger] previous.has_point(p) implies world.has_point(p)
                && place_of(&*world, p) == place_of(&previous, p) && world.point(p).shapes@
                == previous.point(p).shapes@ by {
                assert(pointed.has_point(p));
                assert(created.has_point(p));
            }
            assert forall|k: int| 0 <= k < links.len() implies world.has_point(#[trigger] links[k])
                && !previous.has_point(links[k]) && place_of(&*world, links[k]) == places@[k] by {
                assert(pointed.has_point(handles@[k]));
                assert(created.has_point(links[k]));
            }
            if previous.has_group(group) {
                assert(pointed.has_group(group));
            }
        }
    } else {
        proof {
            assert forall|p: PointHandle| #[trigger] previous.has_point(p) implies world.has_point(p)
                && place_of(&*world, p) == place_of(&previous, p) && world.point(p).shapes@
                == previous.point(p).shapes@ by {}
            assert forall|k: int| 0 <= k < links.len() implies world.has_point(#[trigger] links[k])
                && !previous.has_point(links[k]) && place_of(&*world, links[k]) == places@[k] by {
                assert(pointed.has_point(handles@[k]));
            }
        }
    }
    (handles, fresh)
}

/// Starts a chain of copies at every point of the first group of a name:
/// the first copy lies where `next` puts it for the point, and each
/// further copy where `next` puts it for the copy before; all have the
/// tangents of the point. With `make_groups` every chain gets a group of
/// its own, named "cg" and the number of the chain, that holds the point
/// and then its copies. Nothing happens where no group has the name.
pub fn copy_in_chains<F: Fn(&Point) -> Position>(
    world: &mut GeometryWorld,
    group_name: &str,
    make_groups: bool,
    iterations: u32,
    next: F,
)
    requires
        old(world).wf(),
        forall|p: &Point| call_requires(next, (p,)),
    ensures
        final(world).wf(),
        final(world).all_group() == old(world).all_group(),
        final(world).shapes() == old(world).shapes(),
        old(world).groups_kept(final(world)),
        points_remain(&*old(world), final(world)),
        exists|chains: Seq<Seq<PointHandle>>, groups: Seq<GroupHandle>| #[trigger]
            chained(
                &*old(world),
                final(world),
                next,
                old(world).named_points(group_name@),
                make_groups,
                iterations as nat,
                chains,
                groups,
                old(world).named_points(group_name@).len() as int,
            ),
        final(world).points().count() == old(world).points().count() + old(world).named_points(
            group_name@,
        ).len() * iterations,
        final(world).groups().count() == old(world).groups().count() + if make_groups {
            old(world).named_points(group_name@).len()
        } else {
            0
        },
{
    let ghost start = *world;
    let ghost mut chains: Seq<Seq<PointHandle>> = Seq::empty();
    let ghost mut groups: Seq<GroupHandle> = Seq::empty();
    let snapshot = world.clone();
    proof {
        start.lemma_wf();
        start.lemma_group_named(group_name@);
        assert(start.groups_kept(&start));
    }
    let members = match snapshot.get_group_by_name(group_name) {
        Some(handle) => match snapshot.get_group(&handle) {
            Ok(group) => copy_of(&group.points),
            Err(_) => Vec::new(),
        },
        None => Vec::new(),
    };
    proof {
        if start.group_named(group_name@) is Some {
            assert(start.group_linked(start.group_named(group_name@)->0));
        }
        assert(0 * iterations == 0) by (nonlinear_arith);
    }
    let count = members.len();
    let mut chain: usize = 0;
    while chain < count
        invariant
            chain <= count,
            count == members@.len(),
            members@ == start.named_points(group_name@),
            forall|k: int| 0 <= k < members@.len() ==> start.has_point(#[trigger] members@[k]),
            start.wf(),
            snapshot.wf(),
            snapshot.points() == start.points(),
            world.wf(),
            world.all_group() == start.all_group(),
            world.shapes() == start.shapes(),
            start.groups_kept(&*world),
            points_remain(&start, &*world),
            chained(
                &start,
                &*world,
                next,
                members@,
                make_groups,
                iterations as nat,
                chains,
                groups,
                chain as int,
            ),
            world.points().count() == start.points().count() + chain * iterations,
            world.groups().count() == start.groups().count() + if make_groups {
                chain as int
            } else {
                0
            },
            forall|p: &Point| call_requires(next, (p,)),
        decreases count - chain,
    {
        let seed = members[chain];
        assert(start.has_point(members@[chain as int]));
        let ghost previous = *world;
        let ghost earlier = chains;
        let ghost named = groups;
        let place = match snapshot.get_point(&seed) {
            Ok(point) => (point.position, point.in_tangent, point.out_tangent),
            Err(_) => (Position::origin(), Position::origin(), Position::origin()),
        };
        assert(place == place_of(&start, seed));
        let places = chain_of(place, iterations, &next);
        assert(previous.has_point(seed));
        let linked = add_chain(world, seed, &places, make_groups, chain);
        let ghost links = linked.0@;
        let ghost fresh = linked.1;
        proof {
            chains = earlier.push(links);
            if make_groups {
                groups = named.push(fresh->0);
            }
            let after = *world;
            assert(previous.has_group(previous.all_group())) by {
                previous.lemma_wf();
            }
            assert(start.groups_kept(&after)) by {
                assert forall|g: GroupHandle| #[trigger] start.has_group(g) implies after.has_group(g)
                    && after.group(g).name@ == start.group(g).name@ by {
                    assert(previous.has_group(g));
                }
            }
            assert(points_remain(&start, &after)) by {
                assert forall|p: PointHandle| #[trigger] start.has_point(p) implies {
                    &&& after.has_point(p)
                    &&& after.point(p).position == start.point(p).position
                    &&& after.point(p).in_tangent == start.point(p).in_tangent
                    &&& after.point(p).out_tangent == start.point(p).out_tangent
                    &&& after.point(p).shapes@ == start.point(p).shapes@
                } by {
                    assert(previous.has_point(p));
                    assert(place_of(&after, p) == place_of(&previous, p));
                }
            }
            assert(chained(
                &start,
                &after,
                next,
                members@,
                make_groups,
                iterations as nat,
                chains,
                groups,
                chain + 1,
            )) by {
                assert forall|c: int| 0 <= c < chain + 1 implies {
                    let line = #[trigger] chains[c];
                    &&& line.len() == iterations
                    &&& forall|k: int|
                        0 <= k < line.len() ==> after.has_point(#[trigger] line[k])
                            && !start.has_point(line[k])
                    &&& chain_places(next, place_of(&start, members@[c]), places_of(&after, line))
                } by {
                    let line = chains[c];
                    if c < chain {
                        assert(line == earlier[c]);
                        assert forall|k: int| 0 <= k < line.len() implies after.has_point(
                            #[trigger] line[k],
                        ) && !start.has_point(line[k]) && place_of(&after, line[k]) == place_of(
                            &previous,
                            line[k],
                        ) by {
                            assert(previous.has_point(line[k]));
                        }
                        assert(places_of(&after, line) =~= places_of(&previous, line));
                    } else {
                        assert(line == links);
                        assert forall|k: int| 0 <= k < line.len() implies after.has_point(
                            #[trigger] line[k],
                        ) && !start.has_point(line[k]) && place_of(&after, line[k]) == places@[k] by {
                            if start.has_point(line[k]) {
                                assert(previous.has_point(line[k]));
                            }
                        }
                        assert(places_of(&after, line) =~= places@);
                    }
                }
                if make_groups {
                    assert forall|c: int| 0 <= c < chain + 1 implies {
                        let group = #[trigger] groups[c];
                        &&& after.has_group(group)
                        &&& !start.has_group(group)
                        &&& after.group(group).name@ == chain_label(c as nat)
                        &&& after.group(group).points@ == seq![members@[c]] + chains[c]
                    } by {
                        let group = groups[c];
                        if c < chain {
                            assert(group == named[c]);
                            assert(chains[c] == earlier[c]);
                            assert(previous.has_group(group));
                            assert(group != previous.all_group()) by {
                                start.lemma_wf();
                                assert(start.has_group(start.all_group()));
                            }
                        } else {
                            assert(group == fresh->0);
                            assert(chains[c] == links);
                            if start.has_group(group) {
                                assert(previous.has_group(group));
                            }
                        }
                    }
                }
            }
            assert((chain + 1) * iterations == chain * iterations + iterations) by (nonlinear_arith);
        }
        chain += 1;
    }
}

/// Of the first `upto` handles, those for which the answer is yes, in
/// their order. A handle without an answer is left out.
pub open spec fn selection(members: Seq<PointHandle>, answers: Seq<bool>, upto: int) -> Seq<
    PointHandle,
>
    decreases upto,
{
    if upto <= 0 {
        Seq::empty()
    } else if upto <= members.len() && upto <= answers.len() && answers[upto - 1] {
        selection(members, answers, upto - 1).push(members[upto - 1])
    } else {
        selection(members, answers, upto - 1)
    }
}

/// `world` is `start` with one group more, of the given name: the group
/// holds the points of the group of all points for which the answer is
/// yes, in their order, and each of these points lists the group behind
/// the groups it was in. Every point is where it was, with its tangents
/// and in its shapes, and every other group and every shape is what it
/// was.
pub open spec fn grouped(
    start: &GeometryWorld,
    world: &GeometryWorld,
    name: Seq<char>,
    answers: Seq<bool>,
) -> bool {
    let group = handle_at::<Group>(
        start.groups().next_handle().0 as int,
        start.groups().next_handle().1,
    );
    let members = start.group(start.all_group()).points@;
    let chosen = selection(members, answers, members.len() as int);
    &&& world.wf()
    &&& world.all_group() == start.all_group()
    &&& world.shapes() == start.shapes()
    &&& world.points().same_layout(start.points())
    &&& world.has_group(group)
    &&& !start.has_group(group)
    &&& world.groups() == start.groups().insert(world.group(group))
    &&& world.group(group).name@ == name
    &&& world.group(group).points@ == chosen
    &&& forall|p: PointHandle| #[trigger]
        start.has_point(p) ==> {
            &&& world.point(p).position == start.point(p).position
            &&& world.point(p).in_tangent == start.point(p).in_tangent
            &&& world.point(p).out_tangent == start.point(p).out_tangent
            &&& world.point(p).shapes@ == start.point(p).shapes@
            &&& world.point(p).groups@ == start.point(p).groups@ + repeated(
                group,
                occurrences(chosen, p),
            )
        }
}

/// Makes a group of the given name of the points of the group of all
/// points for which the answer is yes: the answers stand in the order of
/// that group. Returns the handle of the new group.
pub fn group_selected(world: &mut GeometryWorld, name: &str, answers: &Vec<bool>) -> (group:
    GroupHandle)
    requires
        old(world).wf(),
    ensures
        grouped(&*old(world), final(world), name@, answers@),
        crate::handled_vec::parts(group) == old(world).groups().next_handle(),
        old(world).all_exact() ==> final(world).all_exact(),
{
    let ghost start = *world;
    let mut chosen: Vec<PointHandle> = Vec::new();
    let mut current: usize = 0;
    let length = world.get_all_points().len();
    proof {
        start.lemma_wf();
        assert(start.group_linked(start.all_group()));
    }
    while current < length
        invariant
            current <= length,
            length == start.group(start.all_group()).points@.len(),
            *world == start,
            start.wf(),
            start.group_linked(start.all_group()),
            chosen@ == selection(
                start.group(start.all_group()).points@,
                answers@,
                current as int,
            ),
            forall|k: int| 0 <= k < chosen@.len() ==> start.has_point(#[trigger] chosen@[k]),
        decreases length - current,
    {
        if current < answers.len() && answers[current] {
            let handle = world.get_all_points()[current];
            assert(start.has_point(start.group(start.all_group()).points@[current as int]));
            chosen.push(handle);
        }
        current += 1;
    }
    let ghost picked = chosen@;
    proof {
        crate::geometry::world::lemma_all_found(start.points(), picked);
    }
    let group = world.create_group(name);
    let ghost created = *world;
    world.add_points_to_group(chosen, &group);
    proof {
        start.groups().lemma_insert_frame(created.group(group));
        created.lemma_wf();
        created.groups().lemma_update_frame(group.index, group.generation, world.group(group));
        created.groups().lemma_update_wf(group.index, group.generation, world.group(group));
        assert(world.group(group).points@ =~= picked);
        assert(world.groups() =~= start.groups().insert(world.group(group))) by {
            start.groups().lemma_insert_frame(world.group(group));
            assert(world.groups().slots =~= start.groups().insert(world.group(group)).slots);
        }
        assert(group != start.all_group());
        assert forall|p: PointHandle| #[trigger] start.has_point(p) implies world.point(p).position
            == start.point(p).position && world.point(p).in_tangent == start.point(p).in_tangent
            && world.point(p).out_tangent == start.point(p).out_tangent && world.point(p).shapes@
            == start.point(p).shapes@ && world.point(p).groups@ == start.point(p).groups@ + repeated(
            group,
            occurrences(picked, p),
        ) by {
            assert(created.has_point(p));
        }
    }
    group
}

} // verus!
