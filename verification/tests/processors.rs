use hardeen_core::geometry_processors::builders::{
    add_linear_points, add_points, copy_in_chains, copy_points, extrude_open_shapes,
    group_selected, outline, smooth_tangents,
};
use hardeen_core::geometry_processors::sorting::sorted_order;
use hardeen_core::graph::text::split_position_list;
use hardeen_core::{
    ProcessorHost, Shifting,
    GeometryGraph, GeometryProcessor, GeometryProject, GeometrySubgraphProcessor,
    processor_catalog, BasicProcessor, GeometryWorld, Graph, GroupPoints, HardeenError,
    HardeenProject, InstanceOnPoints, MultipleInput, NodeHandle, MarkedHandle, Handle, Point,
    PointHandle, Position, PositionShift, PredicateEvaluator, Processor, ProcessorInputType,
    ProcessorParameter, Scalar, SlottedInput,
};
use std::rc::Rc;

fn s(value: f32) -> Scalar {
    Scalar::from_bits(value.to_bits())
}

fn f(value: Scalar) -> f32 {
    f32::from_bits(value.to_bits())
}

fn pos(x: f32, y: f32) -> Position {
    Position(s(x), s(y))
}

fn xy(position: &Position) -> (f32, f32) {
    (f(position.0), f(position.1))
}

fn place(world: &GeometryWorld, handle: &PointHandle) -> (f32, f32) {
    xy(&world.get_point(handle).unwrap().position)
}

fn group_places(world: &GeometryWorld, name: &str) -> Vec<(f32, f32)> {
    let group = world.get_group_by_name(name).unwrap();
    world.get_group(&group).unwrap().points.iter().map(|p| place(world, p)).collect()
}

fn parse_positions(text: &str) -> Vec<Position> {
    split_position_list(text)
        .unwrap()
        .iter()
        .map(|(x, y)| pos(x.parse().unwrap(), y.parse().unwrap()))
        .collect()
}

struct AddPoints {
    positions: String,
}

impl Processor<GeometryWorld> for AddPoints {
    fn number_inputs(&self) -> usize {
        0
    }

    fn input_type(&self) -> ProcessorInputType {
        ProcessorInputType::Multiple { zero_allowed: true }
    }

    fn set_parameter(&mut self, param: &str, value: &str) -> Result<(), HardeenError> {
        if param != "positions" {
            return Err(HardeenError::NodeParameterDoesNotExist);
        }
        self.positions = value.to_string();
        Ok(())
    }

    fn get_parameter(&self, param: &str) -> Result<String, HardeenError> {
        if param != "positions" {
            return Err(HardeenError::NodeParameterDoesNotExist);
        }
        Ok(self.positions.clone())
    }

    fn get_parameters(&self) -> Vec<ProcessorParameter> {
        vec![ProcessorParameter { param_name: "positions", param_type: "PositionList" }]
    }

    fn is_parameter(&self, param: &str) -> bool {
        param == "positions"
    }

    fn get_processor_name(&self) -> &'static str {
        "AddPoints"
    }
}

impl BasicProcessor<GeometryWorld> for AddPoints {
    fn run(&self, inputs: Vec<Rc<GeometryWorld>>) -> Rc<GeometryWorld> {
        let mut world = match inputs.first() {
            Some(input) => (**input).clone(),
            None => GeometryWorld::new(),
        };
        add_linear_points(&mut world, &parse_positions(&self.positions));
        Rc::new(world)
    }
}

struct Rectangle {
    width: f32,
    height: f32,
}

impl Processor<GeometryWorld> for Rectangle {
    fn number_inputs(&self) -> usize {
        0
    }

    fn input_type(&self) -> ProcessorInputType {
        ProcessorInputType::Multiple { zero_allowed: true }
    }

    fn set_parameter(&mut self, _param: &str, _value: &str) -> Result<(), HardeenError> {
        Err(HardeenError::NodeParameterDoesNotExist)
    }

    fn get_parameter(&self, _param: &str) -> Result<String, HardeenError> {
        Err(HardeenError::NodeParameterDoesNotExist)
    }

    fn get_parameters(&self) -> Vec<ProcessorParameter> {
        Vec::new()
    }

    fn is_parameter(&self, _param: &str) -> bool {
        false
    }

    fn get_processor_name(&self) -> &'static str {
        "CreateRectangle"
    }
}

impl BasicProcessor<GeometryWorld> for Rectangle {
    fn run(&self, _inputs: Vec<Rc<GeometryWorld>>) -> Rc<GeometryWorld> {
        let (w, h) = (self.width / 2.0, self.height / 2.0);
        let corners = vec![pos(-w, -h), pos(w, -h), pos(w, h), pos(-w, h)];
        Rc::new(outline(&corners, true))
    }
}

struct Shift;

impl PositionShift for Shift {
    fn shifted(&self, position: Position, by: Position) -> Position {
        let (x, y) = xy(&position);
        let (dx, dy) = xy(&by);
        pos(x + dx, y + dy)
    }
}

struct RightOf {
    limit: f32,
}

impl PredicateEvaluator for RightOf {
    fn eval(&self, expression: &str, _number: usize, x: Scalar, _y: Scalar) -> bool {
        expression == "x > limit" && f(x) > self.limit
    }
}

struct Host;

impl ProcessorHost for Host {
    fn processor(&self, _processor_type: &str) -> Option<Box<dyn BasicProcessor<GeometryWorld>>> {
        None
    }

    fn shift(&self) -> Shifting {
        Shifting(Box::new(Shift))
    }

    fn evaluator(&self) -> Option<Box<dyn PredicateEvaluator>> {
        Some(Box::new(RightOf { limit: 2.0 }))
    }
}

fn add_points_node(graph: &mut GeometryGraph, positions: &str) -> NodeHandle<GeometryWorld> {
    graph.add_processor_node(Box::new(AddPoints { positions: positions.to_string() }))
}

#[test]
fn sort_points_x() {
    let mut graph: GeometryGraph = Graph::new();
    let points = add_points_node(&mut graph, "3,0;1,0;2,1;2,0");
    let sort = graph.add_processor_node_by_type("SortPointsX", &Host).unwrap();
    graph.connect(&points, &sort).unwrap();
    graph.set_output_node_handle(sort);
    let world = graph.process_graph_output(true).unwrap();
    assert_eq!(group_places(&world, "all"), vec![(1.0, 0.0), (2.0, 0.0), (2.0, 1.0), (3.0, 0.0)]);
    assert_eq!(world.get_live_point_count(), 4);
    let input = graph.get_node(&points).unwrap().get_cached_output().unwrap();
    assert_eq!(group_places(&input, "all"), vec![(3.0, 0.0), (1.0, 0.0), (2.0, 1.0), (2.0, 0.0)]);
}

#[test]
fn sort_points_y() {
    let mut graph: GeometryGraph = Graph::new();
    let points = add_points_node(&mut graph, "3,0;1,0;2,1;2,0;0,-4");
    let sort = graph.add_processor_node_by_type("SortPointsY", &Host).unwrap();
    graph.connect(&points, &sort).unwrap();
    graph.set_output_node_handle(sort);
    let world = graph.process_graph_output(true).unwrap();
    assert_eq!(
        group_places(&world, "all"),
        vec![(0.0, -4.0), (1.0, 0.0), (2.0, 0.0), (3.0, 0.0), (2.0, 1.0)]
    );
}

#[test]
fn sorted_order_is_stable() {
    let positions = vec![pos(2.0, 5.0), pos(1.0, 1.0), pos(2.0, 5.0), pos(-1.0, 9.0), pos(2.0, 0.0)];
    assert_eq!(sorted_order(&positions, true), vec![3, 1, 4, 0, 2]);
    assert_eq!(sorted_order(&positions, false), vec![4, 1, 0, 2, 3]);
    assert_eq!(sorted_order(&Vec::new(), true), Vec::<usize>::new());
    let zeros = vec![pos(0.0, 0.0), pos(-0.0, 0.0)];
    assert_eq!(sorted_order(&zeros, true), vec![0, 1]);
}

#[test]
fn instance_on_points() {
    let mut graph: GeometryGraph = Graph::new();
    let scatter = add_points_node(&mut graph, "100,0;0,50;-30,-30");
    let instance =
        graph.add_checked_subgraph_processor_node(GeometrySubgraphProcessor::InstanceOnPoints(
            InstanceOnPoints::new(Box::new(Shift)),
        ));
    assert_eq!(graph.is_node_subgraph_processor(&instance), Ok(true));
    graph.connect(&scatter, &instance).unwrap();
    graph.set_output_node_handle(instance);
    let nothing = graph.process_graph_output(true).unwrap();
    assert_eq!(nothing.get_live_point_count(), 0);
    assert_eq!(nothing.get_shape_count(), 0);
    {
        let inner = graph.get_subgraph_for_node(&instance).unwrap();
        let rect = inner.add_processor_node(Box::new(Rectangle { width: 10.0, height: 10.0 }));
        inner.set_output_node_handle(rect);
    }
    assert!(graph.get_node(&instance).unwrap().get_cached_output().is_none());
    assert!(graph.get_node(&scatter).unwrap().get_cached_output().is_some());
    let world = graph.process_graph_output(true).unwrap();
    assert_eq!(world.get_live_point_count(), 12);
    assert_eq!(world.get_shape_count(), 3);
    let mut centroids = Vec::new();
    for slot in 0..world.get_shape_slot_count() {
        let shape = world.get_shape_in_slot(slot).unwrap();
        assert!(shape.is_closed());
        assert_eq!(shape.get_vertices().len(), 4);
        let (mut x, mut y) = (0.0, 0.0);
        for vertex in shape.get_vertices() {
            let (px, py) = place(&world, vertex);
            x += px / 4.0;
            y += py / 4.0;
        }
        centroids.push((x, y));
    }
    assert_eq!(centroids, vec![(100.0, 0.0), (0.0, 50.0), (-30.0, -30.0)]);
    assert_eq!(world.get_all_points().len(), 12);
}

#[test]
fn instance_on_points_in_a_project() {
    let mut project: GeometryProject = HardeenProject::new();
    let (instance, subgraph) = {
        let graph = project.get_current_graph_mut().unwrap();
        let scatter = add_points_node(graph, "1,1;2,2");
        let instance = graph.add_checked_subgraph_processor_node(
            GeometrySubgraphProcessor::InstanceOnPoints(InstanceOnPoints::new(Box::new(Shift))),
        );
        graph.connect(&scatter, &instance).unwrap();
        graph.set_output_node_handle(instance);
        (instance, graph.get_subgraph_handle(&instance).unwrap())
    };
    project.go_level_down(subgraph);
    {
        let inner = project.get_current_graph_mut().unwrap();
        let dot = add_points_node(inner, "0,0");
        inner.set_output_node_handle(dot);
    }
    project.go_level_up();
    let graph = project.get_current_graph_mut().unwrap();
    assert!(graph.get_node(&instance).is_ok());
    let world = graph.process_graph_output(true).unwrap();
    assert_eq!(group_places(&world, "all"), vec![(1.0, 1.0), (2.0, 2.0)]);
    assert_eq!(world.get_shape_count(), 0);
}

#[test]
fn create_shape_from_group() {
    let mut graph: GeometryGraph = Graph::new();
    let points = add_points_node(&mut graph, "0,0;1,0;1,1");
    let shape = graph.add_processor_node_by_type("CreateShapeFromGroup", &Host).unwrap();
    graph.connect(&points, &shape).unwrap();
    graph.set_node_parameter(&shape, "closed", "true").unwrap();
    graph.set_output_node_handle(shape);
    let world = graph.process_graph_output(true).unwrap();
    assert_eq!(world.get_shape_count(), 1);
    let made = world.get_shape_in_slot(0).unwrap();
    assert!(made.is_closed());
    let places: Vec<(f32, f32)> = made.get_vertices().iter().map(|p| place(&world, p)).collect();
    assert_eq!(places, vec![(0.0, 0.0), (1.0, 0.0), (1.0, 1.0)]);
    for vertex in made.get_vertices() {
        assert_eq!(world.get_point(vertex).unwrap().shapes.len(), 1);
    }
    graph.set_node_parameter(&shape, "group_name", "nowhere").unwrap();
    let world = graph.process_graph_output(true).unwrap();
    assert_eq!(world.get_shape_count(), 1);
    assert!(world.get_shape_in_slot(0).unwrap().get_vertices().is_empty());
    assert_eq!(world.get_live_point_count(), 3);
}

#[test]
fn create_shape_from_all_groups() {
    let mut start = GeometryWorld::new();
    let handles = add_linear_points(&mut start, &parse_positions("0,0;1,0;1,1;5,5"));
    let left = start.create_group("left");
    let right = start.create_group("right");
    start.add_points_to_group(handles[0..2].to_vec(), &left);
    start.add_points_to_group(handles[2..4].to_vec(), &right);
    let mut graph: GeometryGraph = Graph::new();
    let source = graph.add_processor_node(Box::new(Fixed { world: Rc::new(start) }));
    let shapes = graph.add_processor_node_by_type("CreateShapeFromAllGroups", &Host).unwrap();
    graph.connect(&source, &shapes).unwrap();
    graph.set_output_node_handle(shapes);
    let world = graph.process_graph_output(true).unwrap();
    let mut lists: Vec<Vec<(f32, f32)>> = Vec::new();
    for slot in 0..world.get_shape_slot_count() {
        let shape = world.get_shape_in_slot(slot).unwrap();
        assert!(!shape.is_closed());
        lists.push(shape.get_vertices().iter().map(|p| place(&world, p)).collect());
    }
    assert!(lists.contains(&vec![(0.0, 0.0), (1.0, 0.0)]));
    assert!(lists.contains(&vec![(1.0, 1.0), (5.0, 5.0)]));
    assert_eq!(world.get_live_point_count(), 4);
}

struct Fixed {
    world: Rc<GeometryWorld>,
}

impl Processor<GeometryWorld> for Fixed {
    fn number_inputs(&self) -> usize {
        0
    }

    fn input_type(&self) -> ProcessorInputType {
        ProcessorInputType::Multiple { zero_allowed: true }
    }

    fn set_parameter(&mut self, _param: &str, _value: &str) -> Result<(), HardeenError> {
        Err(HardeenError::NodeParameterDoesNotExist)
    }

    fn get_parameter(&self, _param: &str) -> Result<String, HardeenError> {
        Err(HardeenError::NodeParameterDoesNotExist)
    }

    fn get_parameters(&self) -> Vec<ProcessorParameter> {
        Vec::new()
    }

    fn is_parameter(&self, _param: &str) -> bool {
        false
    }

    fn get_processor_name(&self) -> &'static str {
        "Fixed"
    }
}

impl BasicProcessor<GeometryWorld> for Fixed {
    fn run(&self, _inputs: Vec<Rc<GeometryWorld>>) -> Rc<GeometryWorld> {
        self.world.clone()
    }
}

#[test]
fn group_points_by_a_condition() {
    let mut graph: GeometryGraph = Graph::new();
    let points = add_points_node(&mut graph, "0,0;5,0;1,1;9,9");
    let group = graph.add_checked_processor_node(GeometryProcessor::GroupPoints(
        GroupPoints::with_evaluator(Box::new(RightOf { limit: 2.0 })),
    ));
    graph.connect(&points, &group).unwrap();
    graph.set_output_node_handle(group);
    let plain = graph.process_graph_output(true).unwrap();
    assert_eq!(plain.get_group_count(), 1);
    graph.set_node_parameter(&group, "group_name", "right").unwrap();
    graph.set_node_parameter(&group, "py_condition", "x > limit").unwrap();
    assert_eq!(graph.get_node_parameter(&group, "py_condition"), Ok("x > limit".to_string()));
    let world = graph.process_graph_output(true).unwrap();
    assert_eq!(world.get_group_count(), 2);
    assert_eq!(group_places(&world, "right"), vec![(5.0, 0.0), (9.0, 9.0)]);
    assert_eq!(group_places(&world, "all").len(), 4);
    let without = graph.add_checked_processor_node(GeometryProcessor::GroupPoints(GroupPoints::new()));
    graph.set_node_parameter(&without, "group_name", "right").unwrap();
    graph.connect(&points, &without).unwrap();
    graph.set_output_node_handle(without);
    let same = graph.process_graph_output(true).unwrap();
    assert_eq!(same.get_group_count(), 1);
    assert_eq!(same.get_live_point_count(), 4);
}

#[test]
fn empty_and_merge_by_type() {
    let mut graph: GeometryGraph = Graph::new();
    let empty = graph.add_processor_node_by_type("Empty", &Host).unwrap();
    graph.set_output_node_handle(empty);
    let world = graph.process_graph_output(true).unwrap();
    assert_eq!(world.get_live_point_count(), 0);
    assert_eq!(world.get_group_count(), 1);
    let a = add_points_node(&mut graph, "1,1;2,2");
    let b = add_points_node(&mut graph, "3,3");
    let merge = graph.add_processor_node_by_type("Merge", &Host).unwrap();
    graph.connect_to_slot(&a, &merge, 0).unwrap();
    graph.connect_to_slot(&b, &merge, 1).unwrap();
    graph.set_output_node_handle(merge);
    let world = graph.process_graph_output(true).unwrap();
    assert_eq!(group_places(&world, "all"), vec![(1.0, 1.0), (2.0, 2.0), (3.0, 3.0)]);
    assert_eq!(graph.add_processor_node_by_type("Scale", &Host).err(), Some(HardeenError::NodeTypeInvalid));
}

#[test]
fn catalog_lists_every_type() {
    let catalog = processor_catalog();
    let names: Vec<&str> = catalog.iter().map(|info| info.name).collect();
    assert_eq!(catalog.len(), 18);
    for name in [
        "Empty",
        "CreateRectangle",
        "Scale",
        "Translate",
        "RandomTranslate",
        "RandomTangents",
        "Merge",
        "ScatterPoints",
        "AddPoints",
        "CopyPointsAndOffset",
        "CopyPointsAndRandomOffset",
        "CreateShapeFromGroup",
        "CreateShapeFromAllGroups",
        "SortPointsX",
        "SortPointsY",
        "SmoothTangents",
        "GroupPoints",
        "InstanceOnPoints",
    ] {
        assert!(names.contains(&name), "{}", name);
    }
    let merge = catalog.iter().find(|info| info.name == "Merge").unwrap();
    assert_eq!(merge.input_type, ProcessorInputType::Multiple { zero_allowed: true });
    assert!(merge.parameters.is_empty());
    let rectangle = catalog.iter().find(|info| info.name == "CreateRectangle").unwrap();
    let tags: Vec<(&str, &str)> =
        rectangle.parameters.iter().map(|p| (p.param_name, p.param_type)).collect();
    assert_eq!(tags, vec![("width", "Float"), ("height", "Float"), ("position", "Position")]);
    for info in catalog.iter() {
        for parameter in info.parameters.iter() {
            assert!(hardeen_core::ParameterType::from_tag(parameter.param_type).is_some());
        }
    }
}

#[test]
fn slotted_input_slots() {
    let mut input: SlottedInput<PointHandle> = SlottedInput::new(2);
    let a: PointHandle = MarkedHandle::new(0, 1);
    let b: PointHandle = MarkedHandle::new(1, 1);
    assert_eq!(input.get_number_of_slots(), 2);
    assert!(!input.is_input_satisfied());
    assert_eq!(input.connect_input(&a, 2), Err(HardeenError::InvalidInputSlotNumber));
    assert_eq!(input.connect_input(&a, 1), Ok(()));
    assert_eq!(input.is_slot_occupied(0), Ok(false));
    assert_eq!(input.is_slot_occupied(1), Ok(true));
    assert_eq!(input.is_slot_occupied(2), Err(HardeenError::InvalidInputSlotNumber));
    assert!(!input.is_input_satisfied());
    assert_eq!(input.connect_input(&b, 0), Ok(()));
    assert!(input.is_input_satisfied());
    assert_eq!(input.get_input(0), Ok(Some(b)));
    assert_eq!(input.get_input(5), Err(HardeenError::InvalidInputSlotNumber));
    assert_eq!(input.get_all_input_handles(), vec![b, a]);
    assert_eq!(input.disconnect_handle(&b), Ok(()));
    assert_eq!(input.get_all_input_handles(), vec![a]);
    assert_eq!(input.get_input(0), Ok(None));
    assert_eq!(input.disconnect_input(1), Ok(()));
    assert_eq!(input.disconnect_input(2), Err(HardeenError::InvalidInputSlotNumber));
    assert_eq!(input.get_all_input_handles(), Vec::<PointHandle>::new());
    assert_eq!(a.get_index(), 0);
}

#[test]
fn multiple_input_handles() {
    let mut input: MultipleInput<PointHandle> = MultipleInput::new(false);
    let a: PointHandle = MarkedHandle::new(0, 1);
    let b: PointHandle = MarkedHandle::new(1, 1);
    let c: PointHandle = MarkedHandle::new(1, 2);
    assert!(!input.is_input_satisfied());
    assert_eq!(input.connect_input(&a), Ok(()));
    assert_eq!(input.connect_input(&b), Ok(()));
    assert_eq!(input.connect_input(&a), Ok(()));
    assert_eq!(input.connect_input(&c), Ok(()));
    assert_eq!(input.get_all_input_handles(), vec![a, b, c]);
    assert!(input.is_input_satisfied());
    assert_eq!(input.disconnect_input(&b), Ok(()));
    assert_eq!(input.disconnect_input(&b), Ok(()));
    assert_eq!(input.get_all_input_handles(), vec![a, c]);
    let open: MultipleInput<PointHandle> = MultipleInput::new(true);
    assert!(open.is_input_satisfied());
}

#[test]
fn builders_add_points() {
    let mut world = GeometryWorld::new();
    let rows = vec![
        (pos(1.0, 2.0), pos(0.5, 0.5), pos(-0.5, -0.5)),
        (pos(3.0, 4.0), pos(0.0, 0.0), pos(0.0, 0.0)),
    ];
    let handles = add_points(&mut world, &rows);
    assert_eq!(handles.len(), 2);
    assert_eq!(world.get_all_points(), &handles[..]);
    let first = world.get_point(&handles[0]).unwrap();
    assert_eq!(xy(&first.position), (1.0, 2.0));
    assert_eq!(xy(&first.in_tangent), (0.5, 0.5));
    assert_eq!(xy(&first.out_tangent), (-0.5, -0.5));
    let more = add_linear_points(&mut world, &vec![pos(9.0, 9.0)]);
    assert_eq!(world.get_all_points(), &[handles[0], handles[1], more[0]]);
    assert_eq!(xy(&world.get_point(&more[0]).unwrap().in_tangent), (0.0, 0.0));
}

#[test]
fn builders_outline() {
    let corners = vec![pos(0.0, 0.0), pos(4.0, 0.0), pos(4.0, 3.0)];
    let world = outline(&corners, false);
    assert_eq!(world.get_live_point_count(), 3);
    assert_eq!(world.get_shape_count(), 1);
    let shape = world.get_shape_in_slot(0).unwrap();
    assert!(!shape.is_closed());
    assert_eq!(shape.get_vertices(), world.get_all_points());
    assert_eq!(group_places(&world, "all"), vec![(0.0, 0.0), (4.0, 0.0), (4.0, 3.0)]);
    let none = outline(&Vec::new(), true);
    assert_eq!(none.get_live_point_count(), 0);
    assert_eq!(none.get_shape_count(), 1);
}

#[test]
fn builders_copy_points() {
    let mut world = outline(&vec![pos(0.0, 0.0), pos(1.0, 0.0)], false);
    let copies = copy_points(&mut world, |p: &Point| {
        let (x, y) = xy(&p.position);
        pos(x + 10.0, y + 20.0)
    });
    assert_eq!(copies.len(), 2);
    assert_eq!(world.get_live_point_count(), 4);
    assert_eq!(
        group_places(&world, "all"),
        vec![(0.0, 0.0), (1.0, 0.0), (10.0, 20.0), (11.0, 20.0)]
    );
    assert_eq!(world.get_shape_in_slot(0).unwrap().get_vertices().len(), 2);
    for copy in copies.iter() {
        assert!(world.get_point(copy).unwrap().shapes.is_empty());
    }
}

#[test]
fn builders_smooth_tangents() {
    let mut world = outline(&vec![pos(0.0, 0.0), pos(2.0, 0.0), pos(2.0, 2.0)], false);
    smooth_tangents(&mut world, |before: Position, after: Position| {
        let (ax, ay) = xy(&before);
        let (bx, by) = xy(&after);
        (pos((ax - bx) / 2.0, (ay - by) / 2.0), pos((bx - ax) / 2.0, (by - ay) / 2.0))
    });
    let handles = world.get_all_points().to_vec();
    let middle = world.get_point(&handles[1]).unwrap();
    assert_eq!(xy(&middle.position), (2.0, 0.0));
    assert_eq!(xy(&middle.in_tangent), (-1.0, -1.0));
    assert_eq!(xy(&middle.out_tangent), (1.0, 1.0));
    let first = world.get_point(&handles[0]).unwrap();
    assert_eq!(xy(&first.in_tangent), (0.0, 0.0));
    assert_eq!(xy(&first.out_tangent), (0.0, 0.0));
    let last = world.get_point(&handles[2]).unwrap();
    assert_eq!(xy(&last.in_tangent), (0.0, 0.0));
}

fn between(before: Position, after: Position) -> (Position, Position) {
    let (ax, ay) = xy(&before);
    let (bx, by) = xy(&after);
    (pos(ax - bx, ay - by), pos(bx - ax, by - ay))
}

#[test]
fn builders_smooth_tangents_closed() {
    let mut world = outline(&vec![pos(0.0, 0.0), pos(4.0, 0.0), pos(4.0, 4.0), pos(0.0, 4.0)], true);
    smooth_tangents(&mut world, between);
    let handles = world.get_all_points().to_vec();
    let out: Vec<(f32, f32)> =
        handles.iter().map(|h| xy(&world.get_point(h).unwrap().out_tangent)).collect();
    assert_eq!(out, vec![(4.0, -4.0), (4.0, 4.0), (-4.0, 4.0), (-4.0, -4.0)]);
    let into: Vec<(f32, f32)> =
        handles.iter().map(|h| xy(&world.get_point(h).unwrap().in_tangent)).collect();
    assert_eq!(into, vec![(-4.0, 4.0), (-4.0, -4.0), (4.0, -4.0), (4.0, 4.0)]);
    let places: Vec<(f32, f32)> = handles.iter().map(|h| place(&world, h)).collect();
    assert_eq!(places, vec![(0.0, 0.0), (4.0, 0.0), (4.0, 4.0), (0.0, 4.0)]);
}

#[test]
fn builders_smooth_tangents_last_place_counts() {
    let mut world = GeometryWorld::new();
    let handles = add_linear_points(
        &mut world,
        &vec![pos(0.0, 0.0), pos(1.0, 0.0), pos(2.0, 0.0), pos(3.0, 5.0), pos(9.0, 9.0)],
    );
    let short = world.create_shape(true);
    world.add_points_to_shape(vec![handles[0], handles[1]], &short);
    let first = world.create_shape(false);
    world.add_points_to_shape(vec![handles[0], handles[1], handles[2]], &first);
    let second = world.create_shape(false);
    world.add_points_to_shape(vec![handles[4], handles[1], handles[3], handles[1], handles[0]], &second);
    smooth_tangents(&mut world, between);
    let middle = world.get_point(&handles[1]).unwrap();
    assert_eq!(xy(&middle.out_tangent), (-3.0, -5.0));
    assert_eq!(xy(&middle.in_tangent), (3.0, 5.0));
    let third = world.get_point(&handles[3]).unwrap();
    assert_eq!(xy(&third.out_tangent), (0.0, 0.0));
    for end in [handles[0], handles[2], handles[4]] {
        let point = world.get_point(&end).unwrap();
        assert_eq!(xy(&point.in_tangent), (0.0, 0.0));
        assert_eq!(xy(&point.out_tangent), (0.0, 0.0));
    }
    assert_eq!(world.get_shape_count(), 3);
    assert_eq!(world.get_point(&handles[1]).unwrap().shapes.len(), 4);
}

#[test]
fn builders_extrude_open_shapes() {
    let mut world = outline(&vec![pos(0.0, 0.0), pos(1.0, 0.0), pos(2.0, 0.0)], false);
    let closed = outline(&vec![pos(5.0, 5.0), pos(6.0, 5.0)], true);
    world.merge(&closed);
    assert_eq!(world.get_live_point_count(), 5);
    extrude_open_shapes(&mut world, |p: &Point, _before: Option<&Point>, _after: Option<&Point>| {
        let (x, y) = xy(&p.position);
        (pos(x, y + 1.0), pos(x, y - 1.0))
    });
    assert_eq!(world.get_live_point_count(), 5 + 2 * 3);
    assert_eq!(world.get_shape_count(), 2);
    let mut open_lengths = Vec::new();
    let mut closed_lengths = Vec::new();
    for slot in 0..world.get_shape_slot_count() {
        if let Some(shape) = world.get_shape_in_slot(slot) {
            if shape.get_vertices().len() == 6 {
                open_lengths.push(shape.is_closed());
                let places: Vec<(f32, f32)> =
                    shape.get_vertices().iter().map(|p| place(&world, p)).collect();
                assert_eq!(
                    places,
                    vec![(2.0, 1.0), (1.0, 1.0), (0.0, 1.0), (0.0, -1.0), (1.0, -1.0), (2.0, -1.0)]
                );
            } else {
                closed_lengths.push(shape.get_vertices().len());
            }
        }
    }
    assert_eq!(open_lengths, vec![true]);
    assert_eq!(closed_lengths, vec![2]);
}

#[test]
fn builders_copy_in_chains() {
    let mut world = GeometryWorld::new();
    add_linear_points(&mut world, &vec![pos(0.0, 0.0), pos(10.0, 0.0)]);
    copy_in_chains(&mut world, "all", true, 3, |p: &Point| {
        let (x, y) = xy(&p.position);
        pos(x, y + 1.0)
    });
    assert_eq!(world.get_live_point_count(), 2 + 2 * 3);
    assert_eq!(world.get_group_count(), 3);
    assert_eq!(group_places(&world, "cg0"), vec![(0.0, 0.0), (0.0, 1.0), (0.0, 2.0), (0.0, 3.0)]);
    assert_eq!(group_places(&world, "cg1"), vec![(10.0, 0.0), (10.0, 1.0), (10.0, 2.0), (10.0, 3.0)]);
    assert_eq!(group_places(&world, "all").len(), 8);
    let mut plain = GeometryWorld::new();
    add_linear_points(&mut plain, &vec![pos(0.0, 0.0)]);
    copy_in_chains(&mut plain, "all", false, 2, |p: &Point| p.position);
    assert_eq!(plain.get_live_point_count(), 3);
    assert_eq!(plain.get_group_count(), 1);
    copy_in_chains(&mut plain, "nowhere", true, 2, |p: &Point| p.position);
    assert_eq!(plain.get_live_point_count(), 3);
    assert_eq!(plain.get_group_count(), 1);
}

#[test]
fn builders_group_selected() {
    let mut world = GeometryWorld::new();
    let handles = add_linear_points(
        &mut world,
        &vec![pos(0.0, 0.0), pos(1.0, 0.0), pos(2.0, 0.0), pos(3.0, 0.0)],
    );
    let group = group_selected(&mut world, "odd", &vec![false, true, false, true]);
    assert_eq!(world.get_group_by_name("odd"), Some(group));
    assert_eq!(world.get_group(&group).unwrap().points, vec![handles[1], handles[3]]);
    assert_eq!(world.get_group(&group).unwrap().name, "odd");
    assert_eq!(world.get_point(&handles[1]).unwrap().groups.len(), 2);
    assert_eq!(world.get_point(&handles[0]).unwrap().groups.len(), 1);
    assert_eq!(group_places(&world, "all").len(), 4);
    let short = group_selected(&mut world, "few", &vec![true]);
    assert_eq!(world.get_group(&short).unwrap().points, vec![handles[0]]);
    let long = group_selected(&mut world, "none", &vec![false, false, false, false, true, true]);
    assert!(world.get_group(&long).unwrap().points.is_empty());
    assert_eq!(world.get_group_count(), 4);
    assert_eq!(place(&world, &handles[3]), (3.0, 0.0));
}

#[test]
fn group_points_by_the_host_evaluator() {
    let mut graph: GeometryGraph = Graph::new();
    let points = add_points_node(&mut graph, "0,0;5,0;1,1;9,9");
    let group = graph.add_processor_node_by_type("GroupPoints", &Host).unwrap();
    graph.connect(&points, &group).unwrap();
    graph.set_node_parameter(&group, "group_name", "right").unwrap();
    graph.set_node_parameter(&group, "py_condition", "x > limit").unwrap();
    graph.set_output_node_handle(group);
    let world = graph.process_graph_output(true).unwrap();
    assert_eq!(group_places(&world, "right"), vec![(5.0, 0.0), (9.0, 9.0)]);
    let instance = graph.add_processor_node_by_type("InstanceOnPoints", &Host).unwrap();
    assert_eq!(graph.is_node_subgraph_processor(&instance), Ok(true));
}

#[test]
fn merge_copies_shapes_and_groups() {
    let mut first = outline(&vec![pos(0.0, 0.0), pos(1.0, 0.0), pos(1.0, 1.0)], true);
    let own = first.create_group("own");
    let a_points = first.get_all_points().to_vec();
    first.add_points_to_group(vec![a_points[0]], &own);
    let shared = first.create_group("shared");
    first.add_points_to_group(vec![a_points[1]], &shared);
    let mut second = outline(&vec![pos(95.0, -2.5), pos(105.0, -2.5), pos(105.0, 2.5), pos(95.0, 2.5)], true);
    let b_points = second.get_all_points().to_vec();
    let other_shared = second.create_group("shared");
    second.add_points_to_group(vec![b_points[2], b_points[0]], &other_shared);
    let fresh = second.create_group("fresh");
    second.add_points_to_group(vec![b_points[3]], &fresh);
    first.merge(&second);
    assert_eq!(first.get_live_point_count(), 7);
    assert_eq!(first.get_shape_count(), 2);
    assert_eq!(first.get_group_count(), 4);
    assert_eq!(
        group_places(&first, "all")[3..].to_vec(),
        vec![(95.0, -2.5), (105.0, -2.5), (105.0, 2.5), (95.0, 2.5)]
    );
    assert_eq!(group_places(&first, "own"), vec![(0.0, 0.0)]);
    assert_eq!(group_places(&first, "shared"), vec![(1.0, 0.0), (105.0, 2.5), (95.0, -2.5)]);
    assert_eq!(group_places(&first, "fresh"), vec![(95.0, 2.5)]);
    assert_eq!(first.get_group_by_name("shared"), Some(shared));
    let copied = first.get_shape_in_slot(1).unwrap();
    assert!(copied.is_closed());
    let corners: Vec<(f32, f32)> = copied.get_vertices().iter().map(|p| place(&first, p)).collect();
    assert_eq!(corners, vec![(95.0, -2.5), (105.0, -2.5), (105.0, 2.5), (95.0, 2.5)]);
    assert_eq!(first.get_shape_in_slot(0).unwrap().get_vertices(), &a_points[..]);
}
