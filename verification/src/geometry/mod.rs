//! # Geometry
//!
//! A geometry world holds points, shapes and groups of points. A point has a
//! position and an incoming and an outgoing tangent. A shape is a sequence of
//! points: the outgoing tangent of one point and the incoming tangent of the
//! next describe, with the two positions, the curve between them. Groups
//! name subsets of the points, so that work can be limited to a subset.
//! Shapes and groups refer to their points by handle, and each point keeps
//! the handles of the shapes and groups it is part of.

pub mod scalar;
pub mod storage;
pub mod world;

use crate::geometry::scalar::Scalar;
use crate::handled_vec::handles::MarkedHandle;
use vstd::prelude::*;

verus! {

/// A pair of coordinates.
#[derive(Clone, Copy, Debug, PartialEq, Eq, Structural)]
pub struct Position(pub Scalar, pub Scalar);

impl Position {
    pub fn origin() -> (position: Position)
        ensures
            position == Position(Scalar { bits: 0 }, Scalar { bits: 0 }),
    {
        Position(Scalar::zero(), Scalar::zero())
    }

    /// Whether both coordinates are zero, of either sign.
    pub fn is_zero(self) -> (zero: bool)
        ensures
            zero == (self.0.same(Scalar { bits: 0 }) && self.1.same(Scalar { bits: 0 })),
    {
        self.0.is_zero() && self.1.is_zero()
    }
}

pub type PointHandle = MarkedHandle<Point>;

pub type GroupHandle = MarkedHandle<Group>;

pub type ShapeHandle = MarkedHandle<Shape>;

/// A point: where it lies, its two tangents, and the groups and shapes it is
/// part of. A world keeps the two lists itself; what a caller puts in them is
/// not used.
#[derive(Debug)]
pub struct Point {
    pub position: Position,
    pub in_tangent: Position,
    pub out_tangent: Position,
    pub groups: Vec<GroupHandle>,
    pub shapes: Vec<ShapeHandle>,
}

impl Clone for Point {
    fn clone(&self) -> (copy: Self)
        ensures
            copy.position == self.position,
            copy.in_tangent == self.in_tangent,
            copy.out_tangent == self.out_tangent,
            copy.groups@ == self.groups@,
            copy.shapes@ == self.shapes@,
    {
        let groups = self.groups.clone();
        let shapes = self.shapes.clone();
        assert(groups@ =~= self.groups@);
        assert(shapes@ =~= self.shapes@);
        Point {
            position: self.position,
            in_tangent: self.in_tangent,
            out_tangent: self.out_tangent,
            groups,
            shapes,
        }
    }
}

impl Point {
    pub fn new(position: Position, in_tangent: Position, out_tangent: Position) -> (point: Self)
        ensures
            point.position == position,
            point.in_tangent == in_tangent,
            point.out_tangent == out_tangent,
            point.groups@ == Seq::<GroupHandle>::empty(),
            point.shapes@ == Seq::<ShapeHandle>::empty(),
    {
        Point { position, in_tangent, out_tangent, groups: Vec::new(), shapes: Vec::new() }
    }

    /// A point without tangents: the segments that meet in it are straight.
    pub fn new_linear(position: Position) -> (point: Self)
        ensures
            point.position == position,
            point.in_tangent == Position(Scalar { bits: 0 }, Scalar { bits: 0 }),
            point.out_tangent == Position(Scalar { bits: 0 }, Scalar { bits: 0 }),
            point.groups@ == Seq::<GroupHandle>::empty(),
            point.shapes@ == Seq::<ShapeHandle>::empty(),
    {
        Point::new(position, Position::origin(), Position::origin())
    }

    pub fn get_position(&self) -> (position: &Position)
        ensures
            *position == self.position,
    {
        &self.position
    }
}

/// A named sequence of points.
#[derive(Debug)]
pub struct Group {
    pub name: String,
    pub points: Vec<PointHandle>,
}

impl Clone for Group {
    fn clone(&self) -> (copy: Self)
        ensures
            copy.name@ == self.name@,
            copy.points@ == self.points@,
    {
        let points = self.points.clone();
        assert(points@ =~= self.points@);
        Group { name: self.name.clone(), points }
    }
}

impl Group {
    pub fn new(name: &str) -> (group: Self)
        ensures
            group.name@ == name@,
            group.points@ == Seq::<PointHandle>::empty(),
    {
        Group { name: name.to_string(), points: Vec::new() }
    }

    pub fn add_point(&mut self, handle: &PointHandle)
        ensures
            final(self).name == old(self).name,
            final(self).points@ == old(self).points@.push(*handle),
    {
        self.points.push(*handle);
    }

    /// Moves the handles to the end of the group, in their order.
    pub fn add_points(&mut self, point_handles: &mut Vec<PointHandle>)
        ensures
            final(self).name == old(self).name,
            final(self).points@ == old(self).points@ + old(point_handles)@,
            final(point_handles)@ == Seq::<PointHandle>::empty(),
    {
        self.points.append(point_handles);
    }
}

/// A sequence of points, joined by segments from each to the next, and from
/// the last to the first where the shape is closed.
#[derive(Debug)]
pub struct Shape {
    pub vertices: Vec<PointHandle>,
    pub closed: bool,
}

impl Clone for Shape {
    fn clone(&self) -> (copy: Self)
        ensures
            copy.closed == self.closed,
            copy.vertices@ == self.vertices@,
    {
        let vertices = self.vertices.clone();
        assert(vertices@ =~= self.vertices@);
        Shape { vertices, closed: self.closed }
    }
}

impl Shape {
    pub fn new(closed: bool) -> (shape: Self)
        ensures
            shape.closed == closed,
            shape.vertices@ == Seq::<PointHandle>::empty(),
    {
        Shape { vertices: Vec::new(), closed }
    }

    /// Moves the handles to the end of the shape, in their order.
    pub fn add_points(&mut self, point_handles: &mut Vec<PointHandle>)
        ensures
            final(self).closed == old(self).closed,
            final(self).vertices@ == old(self).vertices@ + old(point_handles)@,
            final(point_handles)@ == Seq::<PointHandle>::empty(),
    {
        self.vertices.append(point_handles);
    }

    pub fn add_point(&mut self, point_handle: &PointHandle)
        ensures
            final(self).closed == old(self).closed,
            final(self).vertices@ == old(self).vertices@.push(*point_handle),
    {
        self.vertices.push(*point_handle);
    }

    pub fn is_closed(&self) -> (closed: bool)
        ensures
            closed == self.closed,
    {
        self.closed
    }

    pub fn get_vertices(&self) -> (vertices: &[PointHandle])
        ensures
            vertices@ == self.vertices@,
    {
        self.vertices.as_slice()
    }
}

#[derive(Debug)]
pub enum GeometryWorldError {
    Error(&'static str),
}

} // verus!
