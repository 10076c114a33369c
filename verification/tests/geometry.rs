use hardeen_core::{
    GeometryWorld, GroupHandle, Handle, HandledVecError, MarkedHandle, Point, PointHandle,
    Position, Scalar, ShapeHandle,
};

fn s(value: f32) -> Scalar {
    Scalar::from_bits(value.to_bits())
}

fn pos(x: f32, y: f32) -> Position {
    Position(s(x), s(y))
}

fn xy(position: &Position) -> (f32, f32) {
    (f32::from_bits(position.0.to_bits()), f32::from_bits(position.1.to_bits()))
}

fn point_handles(world: &GeometryWorld) -> Vec<PointHandle> {
    let mut handles = Vec::new();
    let mut iterator = world.get_point_handle_iterator();
    while let Some(handle) = iterator.next() {
        handles.push(handle);
    }
    handles
}

fn shape_handles(world: &GeometryWorld) -> Vec<ShapeHandle> {
    let mut handles = Vec::new();
    let mut iterator = world.get_shape_handle_iterator();
    while let Some(handle) = iterator.next() {
        handles.push(handle);
    }
    handles
}

fn group_handles(world: &GeometryWorld) -> Vec<GroupHandle> {
    let mut handles = Vec::new();
    let mut iterator = world.get_group_handle_iterator();
    while let Some(handle) = iterator.next() {
        handles.push(handle);
    }
    handles
}

fn assert_links_consistent(world: &GeometryWorld) {
    for handle in point_handles(world) {
        let point = world.get_point(&handle).unwrap();
        for group in point.groups.iter() {
            assert!(world.get_group(group).unwrap().points.contains(&handle));
        }
        for shape in point.shapes.iter() {
            assert!(world.get_shape(shape).unwrap().get_vertices().contains(&handle));
        }
        assert!(world.get_all_points().contains(&handle));
    }
    for handle in group_handles(world) {
        for point in world.get_group(&handle).unwrap().points.iter() {
            assert!(world.get_point(point).unwrap().groups.contains(&handle));
        }
    }
    for handle in shape_handles(world) {
        for point in world.get_shape(&handle).unwrap().get_vertices().iter() {
            assert!(world.get_point(point).unwrap().shapes.contains(&handle));
        }
    }
}

#[test]
fn scalar_order_follows_the_numbers() {
    assert!(s(-2.5).is_less(s(1.0)));
    assert!(s(1.0).is_less(s(1.5)));
    assert!(s(-3.0).is_less(s(-2.0)));
    assert!(!s(2.0).is_less(s(2.0)));
    assert!(!s(0.0).is_less(s(-0.0)));
    assert!(s(0.0).is_same(s(-0.0)));
    assert!(s(-0.0).is_zero());
    assert!(!s(f32::NAN).is_same(s(f32::NAN)));
    assert!(!s(f32::NAN).is_less(s(1.0)));
    assert!(!s(1.0).is_less(s(f32::NAN)));
    assert!(s(f32::NAN).is_nan());
    assert!(!s(f32::INFINITY).is_nan());
    assert!(s(1.0).is_less(s(f32::INFINITY)));
    assert!(s(f32::NEG_INFINITY).is_less(s(-1.0e30)));
    assert_eq!(s(10.0).to_bits(), 0x4120_0000);
    assert!(pos(0.0, -0.0).is_zero());
    assert!(!pos(0.0, 1.0).is_zero());
}

#[test]
fn new_world_has_only_the_group_of_all_points() {
    let world = GeometryWorld::new();
    assert_eq!(world.get_point_count(), 0);
    assert_eq!(world.get_all_points().len(), 0);
    let all = world.get_group_by_name("all").unwrap();
    assert_eq!(all, world.get_all_group_handle());
    assert_eq!(all.get(), (0, 1));
    assert_eq!(world.get_group(&all).unwrap().name, "all");
    assert_eq!(world.get_group_by_name("other"), None);
    assert_eq!(group_handles(&world).len(), 1);
    assert_eq!(shape_handles(&world).len(), 0);
}

#[test]
fn created_points_join_the_group_of_all_points() {
    let mut world = GeometryWorld::new();
    let a = world.create_point(Point::new_linear(pos(1.0, 2.0)));
    let b = world.create_point(Point::new(pos(3.0, 4.0), pos(0.5, 0.5), pos(-0.5, -0.5)));
    assert_eq!(world.get_all_points(), &[a, b]);
    assert_eq!(world.get_live_point_count(), 2);
    assert_eq!(world.get_all_points().len(), world.get_live_point_count());
    let stored = world.get_point(&b).unwrap();
    assert_eq!(xy(stored.get_position()), (3.0, 4.0));
    assert_eq!(xy(&stored.in_tangent), (0.5, 0.5));
    assert_eq!(xy(&stored.out_tangent), (-0.5, -0.5));
    assert_eq!(stored.groups, vec![world.get_all_group_handle()]);
    assert!(world.get_point(&a).unwrap().in_tangent.is_zero());
    assert_links_consistent(&world);
}

#[test]
fn a_created_point_does_not_keep_foreign_links() {
    let mut world = GeometryWorld::new();
    let a = world.create_point(Point::new_linear(pos(1.0, 2.0)));
    let shape = world.create_shape(true);
    world.add_point_to_shape(&a, &shape);
    let copy = world.get_point(&a).unwrap().clone();
    let b = world.create_point(copy);
    assert_eq!(world.get_point(&b).unwrap().shapes.len(), 0);
    assert_eq!(world.get_point(&b).unwrap().groups, vec![world.get_all_group_handle()]);
    assert_links_consistent(&world);
}

#[test]
fn groups_and_shapes_take_points_in_the_order_given() {
    let mut world = GeometryWorld::new();
    let a = world.create_point(Point::new_linear(pos(0.0, 0.0)));
    let b = world.create_point(Point::new_linear(pos(1.0, 0.0)));
    let c = world.create_point(Point::new_linear(pos(2.0, 0.0)));
    let group = world.create_group("row");
    let stale: PointHandle = MarkedHandle::new(7, 1);
    world.add_points_to_group(vec![c, stale, a, a], &group);
    assert_eq!(world.get_group(&group).unwrap().points, vec![c, a, a]);
    assert_eq!(world.get_point(&a).unwrap().groups, vec![world.get_all_group_handle(), group, group]);
    assert_eq!(world.get_point(&b).unwrap().groups, vec![world.get_all_group_handle()]);
    let shape = world.create_shape(false);
    world.add_points_to_shape(vec![b, c], &shape);
    world.add_point_to_shape(&a, &shape);
    assert_eq!(world.get_shape(&shape).unwrap().get_vertices(), &[b, c, a]);
    assert!(!world.get_shape(&shape).unwrap().is_closed());
    let missing: GroupHandle = MarkedHandle::new(9, 1);
    world.add_points_to_group(vec![a], &missing);
    world.add_point_to_group(&stale, &group);
    assert_eq!(world.get_group(&group).unwrap().points, vec![c, a, a]);
    assert_eq!(world.get_group_by_name("row"), Some(group));
    assert_links_consistent(&world);
}

#[test]
fn removing_a_point_rewrites_groups_and_shapes() {
    let mut world = GeometryWorld::new();
    let a = world.create_point(Point::new_linear(pos(0.0, 0.0)));
    let b = world.create_point(Point::new_linear(pos(1.0, 0.0)));
    let c = world.create_point(Point::new_linear(pos(2.0, 0.0)));
    let group = world.create_group("row");
    world.add_points_to_group(vec![a, b, c, b], &group);
    let shape = world.create_shape(true);
    world.add_points_to_shape(vec![a, b, c], &shape);
    assert!(world.remove_point(b).is_ok());
    assert_eq!(world.get_group(&group).unwrap().points, vec![a, c]);
    assert_eq!(world.get_shape(&shape).unwrap().get_vertices(), &[a, c]);
    assert_eq!(world.get_all_points(), &[a, c]);
    assert_eq!(world.get_point(&b).err(), Some(HandledVecError::IndexUnoccupied));
    assert_eq!(world.get_live_point_count(), 2);
    assert_links_consistent(&world);
    assert!(world.remove_point(b).is_ok());
    assert_eq!(world.get_all_points(), &[a, c]);
    let d = world.create_point(Point::new_linear(pos(5.0, 5.0)));
    assert_eq!(d.get(), (1, 2));
    assert!(world.remove_point(b).is_err());
    assert!(world.remove_point(MarkedHandle::new(40, 1)).is_err());
    assert_eq!(world.get_all_points(), &[a, c, d]);
    assert_eq!(world.get_all_points().len(), world.get_live_point_count());
    assert_links_consistent(&world);
}

#[test]
fn removing_a_shape_unlists_it_from_its_points() {
    let mut world = GeometryWorld::new();
    let a = world.create_point(Point::new_linear(pos(0.0, 0.0)));
    let b = world.create_point(Point::new_linear(pos(1.0, 0.0)));
    let first = world.create_shape(true);
    let second = world.create_shape(false);
    world.add_points_to_shape(vec![a, b], &first);
    world.add_points_to_shape(vec![b], &second);
    assert_eq!(world.remove_shape(first), Ok(()));
    assert_eq!(world.get_point(&a).unwrap().shapes.len(), 0);
    assert_eq!(world.get_point(&b).unwrap().shapes, vec![second]);
    assert_eq!(world.get_shape(&first).err(), Some(HandledVecError::IndexUnoccupied));
    assert_eq!(world.remove_shape(MarkedHandle::new(0, 5)), Err(HandledVecError::GenerationMismatch));
    assert_eq!(world.remove_shape(MarkedHandle::new(8, 1)), Err(HandledVecError::IndexDoesNotExist));
    assert_eq!(world.get_shape_count(), 1);
    assert_links_consistent(&world);
}

#[test]
fn set_point_keeps_the_links() {
    let mut world = GeometryWorld::new();
    let a = world.create_point(Point::new_linear(pos(0.0, 0.0)));
    let shape = world.create_shape(true);
    world.add_point_to_shape(&a, &shape);
    let replacement = Point::new(pos(9.0, 8.0), pos(1.0, 1.0), pos(2.0, 2.0));
    assert!(world.set_point(&a, replacement).is_ok());
    let stored = world.get_point(&a).unwrap();
    assert_eq!(xy(&stored.position), (9.0, 8.0));
    assert_eq!(xy(&stored.in_tangent), (1.0, 1.0));
    assert_eq!(stored.shapes, vec![shape]);
    assert_eq!(stored.groups, vec![world.get_all_group_handle()]);
    assert!(world.set_point(&MarkedHandle::new(3, 1), Point::new_linear(pos(0.0, 0.0))).is_err());
    assert_links_consistent(&world);
}

#[test]
fn mutating_points_moves_them_only() {
    let mut world = GeometryWorld::new();
    let a = world.create_point(Point::new_linear(pos(1.0, 1.0)));
    let b = world.create_point(Point::new_linear(pos(2.0, 2.0)));
    let c = world.create_point(Point::new_linear(pos(3.0, 3.0)));
    let group = world.create_group("some");
    world.add_points_to_group(vec![c, a, c], &group);
    world.mutate_all_points(|p: &Point| {
        let (x, y) = xy(&p.position);
        (pos(x * 2.0, y * 3.0), p.in_tangent, p.out_tangent)
    });
    assert_eq!(xy(&world.get_point(&b).unwrap().position), (4.0, 6.0));
    world.mutate_all_points_in_group(&group, |p: &Point| {
        let (x, y) = xy(&p.position);
        (pos(x + 100.0, y), p.in_tangent, p.out_tangent)
    });
    assert_eq!(xy(&world.get_point(&a).unwrap().position), (102.0, 3.0));
    assert_eq!(xy(&world.get_point(&b).unwrap().position), (4.0, 6.0));
    assert_eq!(xy(&world.get_point(&c).unwrap().position), (106.0, 9.0));
    world.mutate_all_points_in_group(&MarkedHandle::new(9, 9), |p: &Point| {
        (pos(0.0, 0.0), p.in_tangent, p.out_tangent)
    });
    assert_eq!(xy(&world.get_point(&b).unwrap().position), (4.0, 6.0));
    assert_links_consistent(&world);
}

#[test]
fn bounding_rect_spans_the_points() {
    let mut world = GeometryWorld::new();
    let empty = world.get_bounding_rect();
    assert_eq!((xy(&empty.0), xy(&empty.1)), ((0.0, 0.0), (0.0, 0.0)));
    let a = world.create_point(Point::new_linear(pos(3.0, -1.0)));
    world.create_point(Point::new_linear(pos(-2.0, 4.0)));
    world.create_point(Point::new_linear(pos(1.0, 7.5)));
    let rect = world.get_bounding_rect();
    assert_eq!((xy(&rect.0), xy(&rect.1)), ((-2.0, -1.0), (3.0, 7.5)));
    world.remove_point(a).unwrap();
    let rect = world.get_bounding_rect();
    assert_eq!((xy(&rect.0), xy(&rect.1)), ((-2.0, 4.0), (1.0, 7.5)));
}

#[test]
fn a_clone_diverges_on_write() {
    let mut world = GeometryWorld::new();
    let a = world.create_point(Point::new_linear(pos(1.0, 1.0)));
    let copy = world.clone();
    world.create_point(Point::new_linear(pos(2.0, 2.0)));
    world.set_point(&a, Point::new_linear(pos(5.0, 5.0))).unwrap();
    assert_eq!(copy.get_live_point_count(), 1);
    assert_eq!(xy(&copy.get_point(&a).unwrap().position), (1.0, 1.0));
    assert_eq!(copy.get_all_points(), &[a]);
    assert_eq!(world.get_live_point_count(), 2);
    assert_eq!(point_handles(&copy), vec![a]);
}

fn square(world: &mut GeometryWorld, at: f32) {
    let corners = vec![
        world.create_point(Point::new_linear(pos(at - 1.0, -1.0))),
        world.create_point(Point::new_linear(pos(at + 1.0, -1.0))),
        world.create_point(Point::new_linear(pos(at + 1.0, 1.0))),
        world.create_point(Point::new_linear(pos(at - 1.0, 1.0))),
    ];
    let shape = world.create_shape(true);
    world.add_points_to_shape(corners, &shape);
}

#[test]
fn merge_holds_the_points_shapes_and_groups_of_both() {
    let mut a = GeometryWorld::new();
    square(&mut a, 0.0);
    let left = a.create_group("left");
    let shared = a.create_group("shared");
    let a_points = point_handles(&a);
    a.add_points_to_group(vec![a_points[0]], &left);
    a.add_points_to_group(vec![a_points[1], a_points[2]], &shared);

    let mut b = GeometryWorld::new();
    square(&mut b, 100.0);
    let b_points = point_handles(&b);
    let b_shared = b.create_group("shared");
    let right = b.create_group("right");
    b.add_points_to_group(vec![b_points[3], b_points[0], b_points[3]], &b_shared);
    b.add_points_to_group(vec![b_points[2]], &right);

    let mut merged = a.clone();
    let (map, shapes) = merged.merge_mapped(&b);
    assert_eq!(merged.get_live_point_count(), 8);
    assert_eq!(merged.get_shape_count(), 2);
    assert_eq!(merged.get_all_points().len(), 8);
    assert_eq!(map.len(), 4);
    assert_eq!(shapes.len(), 1);
    for handle in a_points.iter() {
        assert_eq!(
            xy(&merged.get_point(handle).unwrap().position),
            xy(&a.get_point(handle).unwrap().position)
        );
    }
    for (index, source) in b_points.iter().enumerate() {
        let copy = map[index].unwrap();
        assert!(!a_points.contains(&copy));
        assert_eq!(
            xy(&merged.get_point(&copy).unwrap().position),
            xy(&b.get_point(source).unwrap().position)
        );
    }
    let copied_shape = merged.get_shape(&shapes[0].unwrap()).unwrap();
    assert!(copied_shape.is_closed());
    let expected: Vec<PointHandle> = b_points.iter().map(|h| map[h.get_index()].unwrap()).collect();
    assert_eq!(copied_shape.get_vertices(), &expected[..]);
    for name in ["all", "left", "shared", "right"] {
        let size = |world: &GeometryWorld| {
            world.get_group_by_name(name).map(|g| world.get_group(&g).unwrap().points.len()).unwrap_or(0)
        };
        assert_eq!(size(&merged), size(&a) + size(&b));
    }
    let shared_points = &merged.get_group(&shared).unwrap().points;
    assert_eq!(
        shared_points,
        &vec![a_points[1], a_points[2], map[3].unwrap(), map[0].unwrap(), map[3].unwrap()]
    );
    assert_links_consistent(&merged);
    assert_eq!(a.get_live_point_count(), 4);

    let mut plain = a.clone();
    plain.merge(&b);
    assert_eq!(plain.get_live_point_count(), 8);
    assert_eq!(plain.get_all_points().len(), 8);
}

#[test]
fn lookups_report_stale_missing_and_unoccupied() {
    let mut world = GeometryWorld::new();
    let a = world.create_point(Point::new_linear(pos(0.0, 0.0)));
    assert_eq!(
        world.get_point(&MarkedHandle::new(0, 2)).err(),
        Some(HandledVecError::GenerationMismatch)
    );
    assert_eq!(
        world.get_point(&MarkedHandle::new(6, 1)).err(),
        Some(HandledVecError::IndexDoesNotExist)
    );
    world.remove_point(a).unwrap();
    assert_eq!(world.get_point(&a).err(), Some(HandledVecError::IndexUnoccupied));
    assert_eq!(
        world.get_group(&MarkedHandle::new(3, 1)).err(),
        Some(HandledVecError::IndexDoesNotExist)
    );
    assert_eq!(world.get_point_handle_from_index(0).get(), (0, 1));
}
