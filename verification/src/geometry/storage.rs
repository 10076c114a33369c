//! Slots in a persistent vector.
//!
//! A geometry world is copied whenever a processor starts from its input. Its
//! slots therefore live in `im::Vector`, whose copies share their structure
//! until one of them is written to.

use crate::geometry::{Group, Point, Shape};
use crate::handled_vec::data_vector::{DataField, DataVector};
use vstd::prelude::*;

verus! {

#[verifier::external_type_specification]
#[verifier::external_body]
#[verifier::reject_recursive_types(A)]
pub struct ExVector<A>(im::Vector<A>);

/// The slots that a persistent vector of points holds, first to last.
pub uninterp spec fn point_fields(vector: im::Vector<DataField<Point>>) -> Seq<DataField<Point>>;

/// The slots that a persistent vector of groups holds, first to last.
pub uninterp spec fn group_fields(vector: im::Vector<DataField<Group>>) -> Seq<DataField<Group>>;

/// The slots that a persistent vector of shapes holds, first to last.
pub uninterp spec fn shape_fields(vector: im::Vector<DataField<Shape>>) -> Seq<DataField<Shape>>;

/// `im::Vector::new` makes a vector without items.
#[verifier::external_body]
fn point_vector_new() -> (vector: im::Vector<DataField<Point>>)
    ensures
        point_fields(vector) == Seq::<DataField<Point>>::empty(),
{
    im::Vector::new()
}

/// `im::Vector::len` is the number of items.
#[verifier::external_body]
fn point_vector_len(vector: &im::Vector<DataField<Point>>) -> (length: usize)
    ensures
        length == point_fields(*vector).len(),
{
    vector.len()
}

/// `im::Vector::get` hands out the item at an index, and nothing where the
/// index is past the end.
#[verifier::external_body]
fn point_vector_get(vector: &im::Vector<DataField<Point>>, index: usize) -> (field: Option<&DataField<Point>>)
    ensures
        index < point_fields(*vector).len() ==> field == Some(&point_fields(*vector)[index as int]),
        index >= point_fields(*vector).len() ==> field is None,
{
    vector.get(index)
}

/// `im::Vector::get_mut` hands out the item at an index for writing, and
/// nothing where the index is past the end; what is written becomes the item
/// at that index, and no other item changes.
#[verifier::external_body]
fn point_vector_get_mut(vector: &mut im::Vector<DataField<Point>>, index: usize) -> (field: Option<&mut DataField<Point>>)
    ensures
        index < point_fields(*old(vector)).len() ==> field is Some && *field->0 == point_fields(
            *old(vector),
        )[index as int] && point_fields(*final(vector)) == point_fields(*old(vector)).update(
            index as int,
            *final(field->0),
        ),
        index >= point_fields(*old(vector)).len() ==> field is None && point_fields(*final(vector))
            == point_fields(*old(vector)),
{
    vector.get_mut(index)
}

/// `im::Vector::push_back` adds an item behind the last.
#[verifier::external_body]
fn point_vector_push_back(vector: &mut im::Vector<DataField<Point>>, field: DataField<Point>)
    ensures
        point_fields(*final(vector)) == point_fields(*old(vector)).push(field),
{
    vector.push_back(field)
}

/// `im::Vector::set` puts an item in the place of the one at an index; it
/// panics where the index is past the end.
#[verifier::external_body]
fn point_vector_set(vector: &mut im::Vector<DataField<Point>>, index: usize, field: DataField<Point>)
    requires
        index < point_fields(*old(vector)).len(),
    ensures
        point_fields(*final(vector)) == point_fields(*old(vector)).update(index as int, field),
{
    vector.set(index, field);
}

/// `Clone::clone` of an `im::Vector` gives a vector of the same items.
#[verifier::external_body]
fn point_vector_clone(vector: &im::Vector<DataField<Point>>) -> (copy: im::Vector<DataField<Point>>)
    ensures
        point_fields(copy) == point_fields(*vector),
{
    vector.clone()
}

/// `im::Vector::new` makes a vector without items.
#[verifier::external_body]
fn group_vector_new() -> (vector: im::Vector<DataField<Group>>)
    ensures
        group_fields(vector) == Seq::<DataField<Group>>::empty(),
{
    im::Vector::new()
}

/// `im::Vector::len` is the number of items.
#[verifier::external_body]
fn group_vector_len(vector: &im::Vector<DataField<Group>>) -> (length: usize)
    ensures
        length == group_fields(*vector).len(),
{
    vector.len()
}

/// `im::Vector::get` hands out the item at an index, and nothing where the
/// index is past the end.
#[verifier::external_body]
fn group_vector_get(vector: &im::Vector<DataField<Group>>, index: usize) -> (field: Option<&DataField<Group>>)
    ensures
        index < group_fields(*vector).len() ==> field == Some(&group_fields(*vector)[index as int]),
        index >= group_fields(*vector).len() ==> field is None,
{
    vector.get(index)
}

/// `im::Vector::get_mut` hands out the item at an index for writing, and
/// nothing where the index is past the end; what is written becomes the item
/// at that index, and no other item changes.
#[verifier::external_body]
fn group_vector_get_mut(vector: &mut im::Vector<DataField<Group>>, index: usize) -> (field: Option<&mut DataField<Group>>)
    ensures
        index < group_fields(*old(vector)).len() ==> field is Some && *field->0 == group_fields(
            *old(vector),
        )[index as int] && group_fields(*final(vector)) == group_fields(*old(vector)).update(
            index as int,
            *final(field->0),
        ),
        index >= group_fields(*old(vector)).len() ==> field is None && group_fields(*final(vector))
            == group_fields(*old(vector)),
{
    vector.get_mut(index)
}

/// `im::Vector::push_back` adds an item behind the last.
#[verifier::external_body]
fn group_vector_push_back(vector: &mut im::Vector<DataField<Group>>, field: DataField<Group>)
    ensures
        group_fields(*final(vector)) == group_fields(*old(vector)).push(field),
{
    vector.push_back(field)
}

/// `im::Vector::set` puts an item in the place of the one at an index; it
/// panics where the index is past the end.
#[verifier::external_body]
fn group_vector_set(vector: &mut im::Vector<DataField<Group>>, index: usize, field: DataField<Group>)
    requires
        index < group_fields(*old(vector)).len(),
    ensures
        group_fields(*final(vector)) == group_fields(*old(vector)).update(index as int, field),
{
    vector.set(index, field);
}

/// `Clone::clone` of an `im::Vector` gives a vector of the same items.
#[verifier::external_body]
fn group_vector_clone(vector: &im::Vector<DataField<Group>>) -> (copy: im::Vector<DataField<Group>>)
    ensures
        group_fields(copy) == group_fields(*vector),
{
    vector.clone()
}

/// `im::Vector::new` makes a vector without items.
#[verifier::external_body]
fn shape_vector_new() -> (vector: im::Vector<DataField<Shape>>)
    ensures
        shape_fields(vector) == Seq::<DataField<Shape>>::empty(),
{
    im::Vector::new()
}

/// `im::Vector::len` is the number of items.
#[verifier::external_body]
fn shape_vector_len(vector: &im::Vector<DataField<Shape>>) -> (length: usize)
    ensures
        length == shape_fields(*vector).len(),
{
    vector.len()
}

/// `im::Vector::get` hands out the item at an index, and nothing where the
/// index is past the end.
#[verifier::external_body]
fn shape_vector_get(vector: &im::Vector<DataField<Shape>>, index: usize) -> (field: Option<&DataField<Shape>>)
    ensures
        index < shape_fields(*vector).len() ==> field == Some(&shape_fields(*vector)[index as int]),
        index >= shape_fields(*vector).len() ==> field is None,
{
    vector.get(index)
}

/// `im::Vector::get_mut` hands out the item at an index for writing, and
/// nothing where the index is past the end; what is written becomes the item
/// at that index, and no other item changes.
#[verifier::external_body]
fn shape_vector_get_mut(vector: &mut im::Vector<DataField<Shape>>, index: usize) -> (field: Option<&mut DataField<Shape>>)
    ensures
        index < shape_fields(*old(vector)).len() ==> field is Some && *field->0 == shape_fields(
            *old(vector),
        )[index as int] && shape_fields(*final(vector)) == shape_fields(*old(vector)).update(
            index as int,
            *final(field->0),
        ),
        index >= shape_fields(*old(vector)).len() ==> field is None && shape_fields(*final(vector))
            == shape_fields(*old(vector)),
{
    vector.get_mut(index)
}

/// `im::Vector::push_back` adds an item behind the last.
#[verifier::external_body]
fn shape_vector_push_back(vector: &mut im::Vector<DataField<Shape>>, field: DataField<Shape>)
    ensures
        shape_fields(*final(vector)) == shape_fields(*old(vector)).push(field),
{
    vector.push_back(field)
}

/// `im::Vector::set` puts an item in the place of the one at an index; it
/// panics where the index is past the end.
#[verifier::external_body]
fn shape_vector_set(vector: &mut im::Vector<DataField<Shape>>, index: usize, field: DataField<Shape>)
    requires
        index < shape_fields(*old(vector)).len(),
    ensures
        shape_fields(*final(vector)) == shape_fields(*old(vector)).update(index as int, field),
{
    vector.set(index, field);
}

/// `Clone::clone` of an `im::Vector` gives a vector of the same items.
#[verifier::external_body]
fn shape_vector_clone(vector: &im::Vector<DataField<Shape>>) -> (copy: im::Vector<DataField<Shape>>)
    ensures
        shape_fields(copy) == shape_fields(*vector),
{
    vector.clone()
}

/// An entity that a geometry world keeps in a persistent vector, with the
/// operations on such a vector that the world needs. What an operation
/// does is said over the slots that the vector holds.
pub trait Persistent: Sized + Clone {
    /// The slots that a persistent vector of such entities holds.
    spec fn fields(vector: im::Vector<DataField<Self>>) -> Seq<DataField<Self>>;

    fn new_vector() -> (vector: im::Vector<DataField<Self>>)
        ensures
            Self::fields(vector) == Seq::<DataField<Self>>::empty(),
    ;

    fn vector_len(vector: &im::Vector<DataField<Self>>) -> (length: usize)
        ensures
            length == Self::fields(*vector).len(),
    ;

    fn vector_get(vector: &im::Vector<DataField<Self>>, index: usize) -> (field: Option<
        &DataField<Self>,
    >)
        ensures
            index < Self::fields(*vector).len() ==> field == Some(
                &Self::fields(*vector)[index as int],
            ),
            index >= Self::fields(*vector).len() ==> field is None,
    ;

    fn vector_get_mut(vector: &mut im::Vector<DataField<Self>>, index: usize) -> (field: Option<
        &mut DataField<Self>,
    >)
        ensures
            index < Self::fields(*old(vector)).len() ==> field is Some && *field->0
                == Self::fields(*old(vector))[index as int] && Self::fields(*final(vector))
                == Self::fields(*old(vector)).update(index as int, *final(field->0)),
            index >= Self::fields(*old(vector)).len() ==> field is None && Self::fields(
                *final(vector),
            ) == Self::fields(*old(vector)),
    ;

    fn vector_push_back(vector: &mut im::Vector<DataField<Self>>, field: DataField<Self>)
        ensures
            Self::fields(*final(vector)) == Self::fields(*old(vector)).push(field),
    ;

    fn vector_set(vector: &mut im::Vector<DataField<Self>>, index: usize, field: DataField<Self>)
        requires
            index < Self::fields(*old(vector)).len(),
        ensures
            Self::fields(*final(vector)) == Self::fields(*old(vector)).update(index as int, field),
    ;

    fn vector_clone(vector: &im::Vector<DataField<Self>>) -> (copy: im::Vector<DataField<Self>>)
        ensures
            Self::fields(copy) == Self::fields(*vector),
    ;
}

impl Persistent for Point {
    open spec fn fields(vector: im::Vector<DataField<Point>>) -> Seq<DataField<Point>> {
        point_fields(vector)
    }

    fn new_vector() -> (vector: im::Vector<DataField<Point>>) {
        point_vector_new()
    }

    fn vector_len(vector: &im::Vector<DataField<Point>>) -> (length: usize) {
        point_vector_len(vector)
    }

    fn vector_get(vector: &im::Vector<DataField<Point>>, index: usize) -> (field: Option<&DataField<Point>>) {
        point_vector_get(vector, index)
    }

    fn vector_get_mut(vector: &mut im::Vector<DataField<Point>>, index: usize) -> (field: Option<&mut DataField<Point>>) {
        point_vector_get_mut(vector, index)
    }

    fn vector_push_back(vector: &mut im::Vector<DataField<Point>>, field: DataField<Point>) {
        point_vector_push_back(vector, field)
    }

    fn vector_set(vector: &mut im::Vector<DataField<Point>>, index: usize, field: DataField<Point>) {
        point_vector_set(vector, index, field)
    }

    fn vector_clone(vector: &im::Vector<DataField<Point>>) -> (copy: im::Vector<DataField<Point>>) {
        point_vector_clone(vector)
    }
}

impl Persistent for Group {
    open spec fn fields(vector: im::Vector<DataField<Group>>) -> Seq<DataField<Group>> {
        group_fields(vector)
    }

    fn new_vector() -> (vector: im::Vector<DataField<Group>>) {
        group_vector_new()
    }

    fn vector_len(vector: &im::Vector<DataField<Group>>) -> (length: usize) {
        group_vector_len(vector)
    }

    fn vector_get(vector: &im::Vector<DataField<Group>>, index: usize) -> (field: Option<&DataField<Group>>) {
        group_vector_get(vector, index)
    }

    fn vector_get_mut(vector: &mut im::Vector<DataField<Group>>, index: usize) -> (field: Option<&mut DataField<Group>>) {
        group_vector_get_mut(vector, index)
    }

    fn vector_push_back(vector: &mut im::Vector<DataField<Group>>, field: DataField<Group>) {
        group_vector_push_back(vector, field)
    }

    fn vector_set(vector: &mut im::Vector<DataField<Group>>, index: usize, field: DataField<Group>) {
        group_vector_set(vector, index, field)
    }

    fn vector_clone(vector: &im::Vector<DataField<Group>>) -> (copy: im::Vector<DataField<Group>>) {
        group_vector_clone(vector)
    }
}

impl Persistent for Shape {
    open spec fn fields(vector: im::Vector<DataField<Shape>>) -> Seq<DataField<Shape>> {
        shape_fields(vector)
    }

    fn new_vector() -> (vector: im::Vector<DataField<Shape>>) {
        shape_vector_new()
    }

    fn vector_len(vector: &im::Vector<DataField<Shape>>) -> (length: usize) {
        shape_vector_len(vector)
    }

    fn vector_get(vector: &im::Vector<DataField<Shape>>, index: usize) -> (field: Option<&DataField<Shape>>) {
        shape_vector_get(vector, index)
    }

    fn vector_get_mut(vector: &mut im::Vector<DataField<Shape>>, index: usize) -> (field: Option<&mut DataField<Shape>>) {
        shape_vector_get_mut(vector, index)
    }

    fn vector_push_back(vector: &mut im::Vector<DataField<Shape>>, field: DataField<Shape>) {
        shape_vector_push_back(vector, field)
    }

    fn vector_set(vector: &mut im::Vector<DataField<Shape>>, index: usize, field: DataField<Shape>) {
        shape_vector_set(vector, index, field)
    }

    fn vector_clone(vector: &im::Vector<DataField<Shape>>) -> (copy: im::Vector<DataField<Shape>>) {
        shape_vector_clone(vector)
    }
}

/// Slots in a persistent vector: a copy is cheap and shares its structure
/// with the vector it was copied from until either is written to.
#[verifier::reject_recursive_types(T)]
pub struct ImmutableVector<T: Persistent> {
    data: im::Vector<DataField<T>>,
}

impl<T: Persistent> DataVector for ImmutableVector<T> {
    type EntryDataType = T;

    closed spec fn view(&self) -> Seq<DataField<T>> {
        T::fields(self.data)
    }

    fn get(&self, index: usize) -> (field: Option<&DataField<T>>) {
        T::vector_get(&self.data, index)
    }

    fn get_mut(&mut self, index: usize) -> (field: Option<&mut DataField<T>>) {
        T::vector_get_mut(&mut self.data, index)
    }

    fn len(&self) -> (length: usize) {
        T::vector_len(&self.data)
    }

    fn push(&mut self, data: DataField<T>) {
        T::vector_push_back(&mut self.data, data)
    }

    fn set_data_field(&mut self, index: usize, data_field: DataField<T>) {
        T::vector_set(&mut self.data, index, data_field)
    }

    fn new() -> (empty: Self) {
        ImmutableVector { data: T::new_vector() }
    }
}

impl<T: Persistent> Clone for ImmutableVector<T> {
    fn clone(&self) -> (copy: Self)
        ensures
            copy@ == self@,
    {
        ImmutableVector { data: T::vector_clone(&self.data) }
    }
}

} // verus!
