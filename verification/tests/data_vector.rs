use hardeen_core::{
    DataField, DataVector, Handle, ImmutableVector, MarkedHandle, Shape, StdVec,
};

#[derive(PartialEq, Debug, Clone)]
struct MockEntity {
    data: u8,
}

// The persistent vector holds the entities of a geometry world only; a
// shape with `data` vertices stands in for the mock entity.
fn mock_shape(data: u8) -> Shape {
    let mut shape = Shape::new(false);
    for index in 0..data {
        shape.add_point(&MarkedHandle::new(index as usize, 1));
    }
    shape
}

fn shape_data(field: Option<&DataField<Shape>>) -> Option<(Option<usize>, usize, bool)> {
    field.map(|f| (f.data.as_ref().map(|s| s.get_vertices().len()), f.generation, f.occupied))
}

#[test]
fn test_std_vec_get() {
    let mut dv: StdVec<MockEntity> = StdVec::new();
    let data_field = DataField::new(Some(MockEntity { data: 1 }), 0, true);
    dv.push(data_field);

    assert_eq!(
        dv.get(0),
        Some(&DataField { data: Some(MockEntity { data: 1 }), generation: 0, occupied: true })
    );
}

#[test]
fn test_std_vec_get_mut() {
    let mut dv: StdVec<MockEntity> = StdVec::new();
    let data_field = DataField::new(Some(MockEntity { data: 1 }), 0, true);
    dv.push(data_field);

    assert_eq!(
        dv.get_mut(0),
        Some(&mut DataField { data: Some(MockEntity { data: 1 }), generation: 0, occupied: true })
    );

    assert_eq!(dv.get_mut(2), None)
}

#[test]
fn test_std_vec_len() {
    let mut dv: StdVec<MockEntity> = StdVec::new();
    let data_field = DataField::new(Some(MockEntity { data: 1 }), 0, true);
    dv.push(data_field);

    assert_eq!(dv.len(), 1)
}

#[test]
fn test_std_vec_set_datafield_in_range() {
    let mut dv: StdVec<MockEntity> = StdVec::new();
    dv.push(DataField::new(Some(MockEntity { data: 1 }), 0, true));
    dv.set_data_field(0, DataField::new(Some(MockEntity { data: 2 }), 1, true));
    assert_eq!(dv.get(0), Some(&DataField::new(Some(MockEntity { data: 2 }), 1, true)));
    assert_eq!(dv.len(), 1);
}

#[test]
fn test_im_vector_get() {
    let mut dv: ImmutableVector<Shape> = ImmutableVector::new();
    let data_field = DataField::new(Some(mock_shape(1)), 0, true);
    dv.push(data_field);

    assert_eq!(shape_data(dv.get(0)), Some((Some(1), 0, true)));
}

#[test]
fn test_im_vector_get_mut() {
    let mut dv: ImmutableVector<Shape> = ImmutableVector::new();
    let data_field = DataField::new(Some(mock_shape(1)), 0, true);
    dv.push(data_field);

    assert_eq!(shape_data(dv.get_mut(0).map(|f| &*f)), Some((Some(1), 0, true)));

    assert!(dv.get_mut(2).is_none())
}

#[test]
fn test_im_vector_len() {
    let mut dv: ImmutableVector<Shape> = ImmutableVector::new();
    let data_field = DataField::new(Some(mock_shape(1)), 0, true);
    dv.push(data_field);

    assert_eq!(dv.len(), 1)
}

#[test]
fn test_im_vector_set_datafield_in_range() {
    let mut dv: ImmutableVector<Shape> = ImmutableVector::new();
    dv.push(DataField::new(Some(mock_shape(1)), 0, true));
    dv.push(DataField::new(Some(mock_shape(7)), 0, true));
    dv.set_data_field(0, DataField::new(Some(mock_shape(2)), 1, true));
    assert_eq!(shape_data(dv.get(0)), Some((Some(2), 1, true)));
    assert_eq!(shape_data(dv.get(1)), Some((Some(7), 0, true)));
    assert_eq!(dv.len(), 2);
}

#[test]
fn test_im_vector_new_is_empty() {
    let dv: ImmutableVector<Shape> = ImmutableVector::new();
    assert_eq!(dv.len(), 0);
    assert!(dv.get(0).is_none());
}

#[test]
fn test_im_vector_get_mut_writes_through() {
    let mut dv: ImmutableVector<Shape> = ImmutableVector::new();
    dv.push(DataField::new(Some(mock_shape(1)), 3, true));
    if let Some(field) = dv.get_mut(0) {
        field.set_data(Some(mock_shape(9)));
    }
    assert_eq!(shape_data(dv.get(0)), Some((Some(9), 3, true)));
}

#[test]
fn test_im_vector_clone_diverges_on_write() {
    let mut dv: ImmutableVector<Shape> = ImmutableVector::new();
    dv.push(DataField::new(Some(mock_shape(1)), 1, true));
    let copy = dv.clone();
    dv.set_data_field(0, DataField::new(Some(mock_shape(2)), 1, true));
    dv.push(DataField::new(Some(mock_shape(3)), 1, true));
    assert_eq!(copy.len(), 1);
    assert_eq!(shape_data(copy.get(0)), Some((Some(1), 1, true)));
    assert_eq!(dv.len(), 2);
    assert_eq!(shape_data(dv.get(0)), Some((Some(2), 1, true)));
}

#[test]
fn test_data_field_accessors() {
    let mut field = DataField::new(Some(5u32), 1, true);
    assert_eq!(field.get_data(), &Some(5));
    assert_eq!(field.get_generation(), 1);
    assert!(field.get_occupied());
    field.set_data(None);
    field.set_generation(2);
    field.set_occupied(false);
    assert_eq!(field, DataField::new(None, 2, false));
    *field.get_data_mut() = Some(8);
    assert_eq!(field.get_data(), &Some(8));
}
