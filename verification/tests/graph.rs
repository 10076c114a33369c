use hardeen_core::geometry_processors::builders::outline;
use hardeen_core::{
    PositionShift, PredicateEvaluator, ProcessorHost, Shifting,
    GeometryGraph, GeometryProcessor, GeometryProject, GeometrySubgraphProcessor,
    BasicProcessor, GeometryWorld, Graph, Handle, HardeenError, HardeenProject, MarkedHandle,
    NodeHandle, Point, PointHandle, Position, Processor, ProcessorInputType, ProcessorParameter,
    Scalar,
};
use std::cell::Cell;
use std::rc::Rc;

fn s(value: f32) -> Scalar {
    Scalar::from_bits(value.to_bits())
}

fn pos(x: f32, y: f32) -> Position {
    Position(s(x), s(y))
}

fn xy(position: &Position) -> (f32, f32) {
    (f32::from_bits(position.0.to_bits()), f32::from_bits(position.1.to_bits()))
}

fn positions(world: &GeometryWorld) -> Vec<(f32, f32)> {
    let mut found = Vec::new();
    let mut iterator = world.get_point_iterator();
    while let Some(point) = iterator.next() {
        found.push(xy(&point.position));
    }
    found
}

struct Rectangle {
    width: f32,
    height: f32,
    position: (f32, f32),
}

impl Processor<GeometryWorld> for Rectangle {
    fn number_inputs(&self) -> usize {
        0
    }

    fn input_type(&self) -> ProcessorInputType {
        ProcessorInputType::Multiple { zero_allowed: true }
    }

    fn set_parameter(&mut self, param: &str, value: &str) -> Result<(), HardeenError> {
        match param {
            "width" => self.width = value.parse().map_err(|_| HardeenError::ParseError)?,
            "height" => self.height = value.parse().map_err(|_| HardeenError::ParseError)?,
            _ => return Err(HardeenError::NodeParameterDoesNotExist),
        }
        Ok(())
    }

    fn get_parameter(&self, param: &str) -> Result<String, HardeenError> {
        match param {
            "width" => Ok(self.width.to_string()),
            "height" => Ok(self.height.to_string()),
            _ => Err(HardeenError::NodeParameterDoesNotExist),
        }
    }

    fn get_parameters(&self) -> Vec<ProcessorParameter> {
        vec![
            ProcessorParameter { param_name: "width", param_type: "Float" },
            ProcessorParameter { param_name: "height", param_type: "Float" },
        ]
    }

    fn is_parameter(&self, param: &str) -> bool {
        param == "width" || param == "height"
    }

    fn get_processor_name(&self) -> &'static str {
        "CreateRectangle"
    }
}

impl BasicProcessor<GeometryWorld> for Rectangle {
    fn run(&self, _inputs: Vec<Rc<GeometryWorld>>) -> Rc<GeometryWorld> {
        let (x, y) = self.position;
        let (w, h) = (self.width / 2.0, self.height / 2.0);
        let corners = vec![pos(x - w, y - h), pos(x + w, y - h), pos(x + w, y + h), pos(x - w, y + h)];
        Rc::new(outline(&corners, true))
    }
}

struct Scale {
    factor_x: f32,
    factor_y: f32,
}

impl Processor<GeometryWorld> for Scale {
    fn number_inputs(&self) -> usize {
        1
    }

    fn input_type(&self) -> ProcessorInputType {
        ProcessorInputType::Slotted { number_of_slots: 1 }
    }

    fn set_parameter(&mut self, param: &str, value: &str) -> Result<(), HardeenError> {
        match param {
            "factor_x" => self.factor_x = value.parse().map_err(|_| HardeenError::ParseError)?,
            "factor_y" => self.factor_y = value.parse().map_err(|_| HardeenError::ParseError)?,
            _ => return Err(HardeenError::NodeParameterDoesNotExist),
        }
        Ok(())
    }

    fn get_parameter(&self, param: &str) -> Result<String, HardeenError> {
        match param {
            "factor_x" => Ok(self.factor_x.to_string()),
            "factor_y" => Ok(self.factor_y.to_string()),
            _ => Err(HardeenError::NodeParameterDoesNotExist),
        }
    }

    fn get_parameters(&self) -> Vec<ProcessorParameter> {
        vec![
            ProcessorParameter { param_name: "factor_x", param_type: "Float" },
            ProcessorParameter { param_name: "factor_y", param_type: "Float" },
        ]
    }

    fn is_parameter(&self, param: &str) -> bool {
        param == "factor_x" || param == "factor_y"
    }

    fn get_processor_name(&self) -> &'static str {
        "Scale"
    }
}

impl BasicProcessor<GeometryWorld> for Scale {
    fn run(&self, inputs: Vec<Rc<GeometryWorld>>) -> Rc<GeometryWorld> {
        let mut world = (*inputs[0]).clone();
        world.mutate_all_points(|p: &Point| {
            let (x, y) = xy(&p.position);
            (pos(x * self.factor_x, y * self.factor_y), p.in_tangent, p.out_tangent)
        });
        Rc::new(world)
    }
}

struct Translate {
    offset: (f32, f32),
}

impl Processor<GeometryWorld> for Translate {
    fn number_inputs(&self) -> usize {
        1
    }

    fn input_type(&self) -> ProcessorInputType {
        ProcessorInputType::Slotted { number_of_slots: 1 }
    }

    fn set_parameter(&mut self, _param: &str, _value: &str) -> Result<(), HardeenError> {
        Err(HardeenError::NodeParameterDoesNotExist)
    }

    fn get_parameter(&self, _param: &str) -> Result<String, HardeenError> {
        Err(HardeenError::NodeParameterDoesNotExist)
    }

    fn get_parameters(&self) -> Vec<ProcessorParameter> {
        Vec::new()
    }

    fn is_parameter(&self, _param: &str) -> bool {
        false
    }

    fn get_processor_name(&self) -> &'static str {
        "Translate"
    }
}

impl BasicProcessor<GeometryWorld> for Translate {
    fn run(&self, inputs: Vec<Rc<GeometryWorld>>) -> Rc<GeometryWorld> {
        let mut world = (*inputs[0]).clone();
        let all = world.get_all_group_handle();
        world.mutate_all_points_in_group(&all, |p: &Point| {
            let (x, y) = xy(&p.position);
            (pos(x + self.offset.0, y + self.offset.1), p.in_tangent, p.out_tangent)
        });
        Rc::new(world)
    }
}

// Scatters points that differ from run to run, and counts its runs.
struct Scatter {
    num_points: u32,
    runs: Rc<Cell<u32>>,
}

impl Processor<GeometryWorld> for Scatter {
    fn number_inputs(&self) -> usize {
        0
    }

    fn input_type(&self) -> ProcessorInputType {
        ProcessorInputType::Multiple { zero_allowed: true }
    }

    fn set_parameter(&mut self, param: &str, value: &str) -> Result<(), HardeenError> {
        match param {
            "num_points" => {
                self.num_points = value.parse().map_err(|_| HardeenError::ParseError)?;
                Ok(())
            }
            _ => Err(HardeenError::NodeParameterDoesNotExist),
        }
    }

    fn get_parameter(&self, param: &str) -> Result<String, HardeenError> {
        match param {
            "num_points" => Ok(self.num_points.to_string()),
            _ => Err(HardeenError::NodeParameterDoesNotExist),
        }
    }

    fn get_parameters(&self) -> Vec<ProcessorParameter> {
        vec![ProcessorParameter { param_name: "num_points", param_type: "UnsignedInteger" }]
    }

    fn is_parameter(&self, param: &str) -> bool {
        param == "num_points"
    }

    fn get_processor_name(&self) -> &'static str {
        "ScatterPoints"
    }
}

impl BasicProcessor<GeometryWorld> for Scatter {
    fn run(&self, _inputs: Vec<Rc<GeometryWorld>>) -> Rc<GeometryWorld> {
        let run = self.runs.get() + 1;
        self.runs.set(run);
        let mut world = GeometryWorld::new();
        for index in 0..self.num_points {
            let value = (run * 100 + index) as f32;
            world.create_point(Point::new_linear(pos(value, value + 0.5)));
        }
        Rc::new(world)
    }
}

fn rectangle(width: f32, height: f32, position: (f32, f32)) -> Box<dyn BasicProcessor<GeometryWorld>> {
    Box::new(Rectangle { width, height, position })
}

struct Unmoved;

impl PositionShift for Unmoved {
    fn shifted(&self, position: Position, _by: Position) -> Position {
        position
    }
}

struct Host;

impl ProcessorHost for Host {
    fn processor(&self, processor_type: &str) -> Option<Box<dyn BasicProcessor<GeometryWorld>>> {
        match processor_type {
            "CreateRectangle" => Some(rectangle(10.0, 5.0, (0.0, 0.0))),
            "Scale" => Some(Box::new(Scale { factor_x: 1.2, factor_y: 1.2 })),
            _ => None,
        }
    }

    fn shift(&self) -> Shifting {
        Shifting(Box::new(Unmoved))
    }

    fn evaluator(&self) -> Option<Box<dyn PredicateEvaluator>> {
        None
    }
}

#[test]
fn nodes_by_type_name() {
    let mut graph: GeometryGraph = Graph::new();
    let instance = graph.add_processor_node_by_type("InstanceOnPoints", &Host).unwrap();
    assert!(instance == MarkedHandle::new(0, 1));
    assert_eq!(graph.is_node_subgraph_processor(&instance), Ok(true));
    assert!(graph.get_subgraph_handle(&instance) == Ok(MarkedHandle::new(0, 1)));
    assert_eq!(graph.get_node(&instance).unwrap().get_processor_name(), "InstanceOnPoints");
    assert_eq!(graph.get_node_parameter(&instance, "group_name"), Ok("all".to_string()));
    assert!(graph.get_subgraph(&MarkedHandle::new(0, 1)).unwrap().get_output_node_handle().is_none());
    let scale = graph.add_processor_node_by_type("Scale", &Host).unwrap();
    assert!(scale == MarkedHandle::new(1, 1));
    assert_eq!(graph.is_node_subgraph_processor(&scale), Ok(false));
    assert_eq!(graph.get_node(&scale).unwrap().get_processor_name(), "Scale");
    assert_eq!(graph.get_node_parameter(&scale, "factor_x"), Ok("1.2".to_string()));
    let corner = graph.add_processor_node_by_type("CreateRectangle", &Host).unwrap();
    assert!(graph.get_node(&corner).unwrap().is_input_satisfied());
    for name in [
        "Empty",
        "Merge",
        "SortPointsX",
        "SortPointsY",
        "CreateShapeFromGroup",
        "CreateShapeFromAllGroups",
        "GroupPoints",
    ] {
        let node = graph.add_processor_node_by_type(name, &Host).unwrap();
        assert_eq!(graph.get_node(&node).unwrap().get_processor_name(), name);
        assert_eq!(graph.is_node_subgraph_processor(&node), Ok(false));
    }
    let before = graph.get_node(&instance).unwrap().get_all_outputs().len();
    assert_eq!(
        graph.add_processor_node_by_type("Translate", &Host).err(),
        Some(HardeenError::NodeTypeInvalid)
    );
    assert_eq!(
        graph.add_processor_node_by_type("instanceonpoints", &Host).err(),
        Some(HardeenError::NodeTypeInvalid)
    );
    assert_eq!(graph.add_processor_node_by_type("", &Host).err(), Some(HardeenError::NodeTypeInvalid));
    assert_eq!(graph.get_node(&instance).unwrap().get_all_outputs().len(), before);
    let next = graph.add_processor_node_by_type("Empty", &Host).unwrap();
    assert!(next == MarkedHandle::new(10, 1));
    assert_eq!(graph.add_host_processor_node(None).err(), Some(HardeenError::NodeTypeInvalid));
    assert!(graph.add_host_processor_node(Some(rectangle(1.0, 1.0, (0.0, 0.0)))).is_ok());
}

#[test]
fn single_rectangle() {
    let mut graph: GeometryGraph = Graph::new();
    let node = graph.add_processor_node(rectangle(10.0, 5.0, (0.0, 0.0)));
    graph.set_output_node_handle(node);
    let world = graph.process_graph_output(true).unwrap();
    assert_eq!(positions(&world), vec![(-5.0, -2.5), (5.0, -2.5), (5.0, 2.5), (-5.0, 2.5)]);
    let mut shapes = world.get_shape_handle_iterator();
    let shape = world.get_shape(&shapes.next().unwrap()).unwrap();
    assert!(shapes.next().is_none());
    assert!(shape.is_closed());
    let expected: Vec<PointHandle> = (0..4).map(|index| MarkedHandle::new(index, 1)).collect();
    assert_eq!(shape.get_vertices(), &expected[..]);
    assert_eq!(world.get_all_points(), &expected[..]);
    for handle in expected.iter() {
        let point = world.get_point(handle).unwrap();
        assert!(point.in_tangent.is_zero() && point.out_tangent.is_zero());
    }
}

#[test]
fn scale_chain() {
    let mut graph: GeometryGraph = Graph::new();
    let rect = graph.add_processor_node(rectangle(10.0, 10.0, (0.0, 0.0)));
    let scale = graph.add_processor_node(Box::new(Scale { factor_x: 2.0, factor_y: 2.0 }));
    assert_eq!(graph.connect(&rect, &scale), Ok(()));
    graph.set_output_node_handle(scale);
    let world = graph.process_graph_output(true).unwrap();
    assert_eq!(positions(&world), vec![(-10.0, -10.0), (10.0, -10.0), (10.0, 10.0), (-10.0, 10.0)]);
    assert_eq!(world.get_shape_count(), 1);
    let mut shapes = world.get_shape_handle_iterator();
    assert!(world.get_shape(&shapes.next().unwrap()).unwrap().is_closed());
}

#[test]
fn merge_of_two_rectangles() {
    let mut graph: GeometryGraph = Graph::new();
    let a = graph.add_processor_node(rectangle(10.0, 5.0, (0.0, 0.0)));
    let b = graph.add_processor_node(rectangle(10.0, 5.0, (100.0, 0.0)));
    let merge = graph.add_processor_node_by_type("Merge", &Host).unwrap();
    assert_eq!(graph.connect_to_slot(&a, &merge, 0), Ok(()));
    assert_eq!(graph.connect_to_slot(&b, &merge, 1), Ok(()));
    graph.set_output_node_handle(merge);
    let world = graph.process_graph_output(true).unwrap();
    assert_eq!(world.get_live_point_count(), 8);
    assert_eq!(world.get_shape_count(), 2);
    assert_eq!(world.get_all_points().len(), 8);
    let mut shapes = world.get_shape_handle_iterator();
    while let Some(handle) = shapes.next() {
        let shape = world.get_shape(&handle).unwrap();
        assert!(shape.is_closed());
        assert_eq!(shape.get_vertices().len(), 4);
    }
    assert_eq!(positions(&world)[4], (95.0, -2.5));
}

#[test]
fn cycle_rejection() {
    let mut graph: GeometryGraph = Graph::new();
    let n1 = graph.add_processor_node(Box::new(Scale { factor_x: 1.0, factor_y: 1.0 }));
    let n2 = graph.add_processor_node(Box::new(Scale { factor_x: 1.0, factor_y: 1.0 }));
    let n3 = graph.add_processor_node(Box::new(Scale { factor_x: 1.0, factor_y: 1.0 }));
    assert_eq!(graph.connect(&n1, &n2), Ok(()));
    assert_eq!(graph.connect(&n2, &n3), Ok(()));
    assert_eq!(graph.connect(&n3, &n1), Err(HardeenError::CycleWouldBeIntroduced));
    assert_eq!(graph.connect(&n1, &n1), Err(HardeenError::CycleWouldBeIntroduced));
    assert!(graph.get_node(&n1).unwrap().get_all_input_handles() == Vec::<NodeHandle<GeometryWorld>>::new());
    assert!(graph.get_node(&n1).unwrap().get_all_outputs() == vec![n2]);
    assert!(graph.get_node(&n3).unwrap().get_all_outputs() == Vec::<NodeHandle<GeometryWorld>>::new());
    assert!(graph.get_node(&n3).unwrap().get_all_input_handles() == vec![n2]);
    assert!(!graph.get_node(&n1).unwrap().is_input_satisfied());
    assert!(graph.get_node(&n2).unwrap().is_input_satisfied());
}

#[test]
fn cache_invalidation() {
    let runs = Rc::new(Cell::new(0));
    let mut graph: GeometryGraph = Graph::new();
    let scatter = graph.add_processor_node(Box::new(Scatter { num_points: 3, runs: runs.clone() }));
    let scale = graph.add_processor_node(Box::new(Scale { factor_x: 2.0, factor_y: 1.0 }));
    let translate = graph.add_processor_node(Box::new(Translate { offset: (1.0, 1.0) }));
    graph.connect(&scatter, &scale).unwrap();
    graph.connect(&scale, &translate).unwrap();
    graph.set_output_node_handle(translate);
    let first = graph.process_graph_output(true).unwrap();
    assert_eq!(runs.get(), 1);
    assert_eq!(positions(&first), vec![(201.0, 101.5), (203.0, 102.5), (205.0, 103.5)]);
    let again = graph.process_graph_output(true).unwrap();
    assert!(Rc::ptr_eq(&first, &again));
    assert_eq!(runs.get(), 1);
    assert_eq!(graph.set_node_parameter(&scale, "factor_x", "3"), Ok(()));
    assert!(graph.get_node(&scatter).unwrap().get_cached_output().is_some());
    assert!(graph.get_node(&scale).unwrap().get_cached_output().is_none());
    assert!(graph.get_node(&translate).unwrap().get_cached_output().is_none());
    let second = graph.process_graph_output(true).unwrap();
    assert_eq!(runs.get(), 1);
    assert_eq!(positions(&second), vec![(301.0, 101.5), (304.0, 102.5), (307.0, 103.5)]);
    assert_ne!(positions(&second), positions(&first));
    let fresh = graph.process_graph_output(false).unwrap();
    assert_eq!(runs.get(), 2);
    assert_eq!(positions(&fresh), vec![(601.0, 201.5), (604.0, 202.5), (607.0, 203.5)]);
    assert_eq!(graph.get_node_parameter(&scale, "factor_x"), Ok("3".to_string()));
}

#[test]
fn evaluation_errors_leave_the_caches() {
    let mut graph: GeometryGraph = Graph::new();
    assert_eq!(graph.process_graph_output(true).err(), Some(HardeenError::GraphOutputNotSet));
    let rect = graph.add_processor_node(rectangle(2.0, 2.0, (0.0, 0.0)));
    let lonely = graph.add_processor_node(Box::new(Scale { factor_x: 1.0, factor_y: 1.0 }));
    let merge = graph.add_processor_node_by_type("Merge", &Host).unwrap();
    graph.connect(&rect, &merge).unwrap();
    graph.connect(&lonely, &merge).unwrap();
    graph.set_output_node_handle(lonely);
    assert_eq!(graph.process_graph_output(true).err(), Some(HardeenError::NodeInputNotSatisfied));
    graph.set_output_node_handle(merge);
    assert_eq!(graph.process_graph_output(true).err(), Some(HardeenError::ErrorProcessingNode));
    assert!(graph.get_node(&rect).unwrap().get_cached_output().is_none());
    assert!(graph.get_node(&merge).unwrap().get_cached_output().is_none());
    graph.remove_node(lonely).unwrap();
    assert!(graph.get_node(&merge).unwrap().get_all_input_handles() == vec![rect]);
    let world = graph.process_graph_output(true).unwrap();
    assert_eq!(world.get_live_point_count(), 4);
    assert!(graph.get_node(&rect).unwrap().get_cached_output().is_some());
    let mut other: GeometryGraph = Graph::new();
    let gone = other.add_processor_node(rectangle(2.0, 2.0, (0.0, 0.0)));
    other.set_output_node_handle(gone);
    other.remove_node(gone).unwrap();
    assert_eq!(other.process_graph_output(true).err(), Some(HardeenError::InvalidHandle));
    assert!(other.get_output_node().is_err());
    assert!(other.get_output_node_handle() == Some(gone));
    assert!(other.is_output_node_set());
}

#[test]
fn connect_and_disconnect_errors() {
    let mut graph: GeometryGraph = Graph::new();
    let rect = graph.add_processor_node(rectangle(2.0, 2.0, (0.0, 0.0)));
    let other = graph.add_processor_node(rectangle(4.0, 4.0, (0.0, 0.0)));
    let scale = graph.add_processor_node(Box::new(Scale { factor_x: 1.0, factor_y: 1.0 }));
    let merge = graph.add_processor_node_by_type("Merge", &Host).unwrap();
    let missing: NodeHandle<GeometryWorld> = MarkedHandle::new(17, 1);
    assert_eq!(graph.connect(&missing, &scale), Err(HardeenError::InvalidHandle));
    assert_eq!(graph.connect(&rect, &missing), Err(HardeenError::InvalidHandle));
    assert_eq!(graph.connect_to_slot(&rect, &scale, 1), Err(HardeenError::InvalidInputSlotNumber));
    assert_eq!(graph.connect_to_slot(&rect, &scale, 0), Ok(()));
    assert_eq!(graph.connect_to_slot(&other, &scale, 0), Ok(()));
    assert!(graph.get_node(&scale).unwrap().get_all_input_handles() == vec![other]);
    assert!(graph.get_node(&rect).unwrap().get_all_outputs() == Vec::<NodeHandle<GeometryWorld>>::new());
    assert!(graph.get_node(&other).unwrap().get_all_outputs() == vec![scale]);
    assert_eq!(graph.disconnect(&rect, &scale), Err(HardeenError::NodeOutputHandleInvalid));
    assert_eq!(graph.disconnect(&missing, &scale), Err(HardeenError::InvalidHandle));
    assert_eq!(
        graph.disconnect_from_slot(&other, &scale, 3),
        Err(HardeenError::InvalidInputSlotNumber)
    );
    assert_eq!(graph.connect(&other, &merge), Ok(()));
    assert_eq!(graph.connect(&other, &merge), Ok(()));
    assert_eq!(graph.connect(&rect, &merge), Ok(()));
    assert!(graph.get_node(&merge).unwrap().get_all_input_handles() == vec![other, rect]);
    assert_eq!(
        graph.disconnect_from_slot(&other, &merge, 0),
        Err(HardeenError::NodeInputTypeMismatch)
    );
    assert_eq!(graph.disconnect_from_slot(&other, &scale, 0), Ok(()));
    assert!(!graph.get_node(&scale).unwrap().is_input_satisfied());
    assert!(graph.get_node(&other).unwrap().get_all_outputs() == vec![merge]);
    assert_eq!(graph.disconnect(&other, &merge), Ok(()));
    assert!(graph.get_node(&merge).unwrap().get_all_input_handles() == vec![rect]);
    assert_eq!(graph.disconnect_all_nodes(&rect), Ok(()));
    assert!(graph.get_node(&merge).unwrap().get_all_input_handles() == Vec::<NodeHandle<GeometryWorld>>::new());
    assert_eq!(graph.disconnect_all_nodes(&missing), Err(HardeenError::InvalidHandle));
    assert_eq!(graph.remove_node(missing), Err(HardeenError::InvalidHandle));
    assert_eq!(graph.remove_node(rect), Ok(()));
    assert!(graph.get_node(&rect).is_err());
    assert!(graph.get_node(&merge).unwrap().is_input_satisfied());
}

#[test]
fn parameters_round_trip() {
    let mut graph: GeometryGraph = Graph::new();
    let node = graph.add_processor_node_by_type("CreateShapeFromGroup", &Host).unwrap();
    assert_eq!(graph.get_node_parameter(&node, "group_name"), Ok("all".to_string()));
    assert_eq!(graph.get_node_parameter(&node, "closed"), Ok("false".to_string()));
    assert_eq!(graph.set_node_parameter(&node, "closed", "true"), Ok(()));
    assert_eq!(graph.get_node_parameter(&node, "closed"), Ok("true".to_string()));
    assert_eq!(graph.set_node_parameter(&node, "group_name", " left side "), Ok(()));
    assert_eq!(graph.get_node_parameter(&node, "group_name"), Ok(" left side ".to_string()));
    assert_eq!(graph.set_node_parameter(&node, "closed", "yes"), Err(HardeenError::ParseError));
    assert_eq!(graph.get_node_parameter(&node, "closed"), Ok("true".to_string()));
    assert_eq!(
        graph.set_node_parameter(&node, "open", "true"),
        Err(HardeenError::NodeParameterDoesNotExist)
    );
    assert_eq!(
        graph.get_node_parameter(&node, "open"),
        Err(HardeenError::NodeParameterDoesNotExist)
    );
    assert_eq!(
        graph.set_node_parameter(&MarkedHandle::new(5, 1), "closed", "true"),
        Err(HardeenError::InvalidHandle)
    );
    let names: Vec<&str> =
        graph.get_node(&node).unwrap().get_parameters().iter().map(|p| p.param_name).collect();
    assert_eq!(names, vec!["group_name", "closed"]);
    assert!(graph.get_node(&node).unwrap().is_parameter("closed"));
    assert_eq!(graph.get_node(&node).unwrap().get_processor_name(), "CreateShapeFromGroup");
    assert_eq!(
        graph.add_processor_node_by_type("NoSuchType", &Host).err(),
        Some(HardeenError::NodeTypeInvalid)
    );
}

#[test]
fn exposed_parameters() {
    let mut graph: GeometryGraph = Graph::new();
    let rect = graph.add_processor_node(rectangle(2.0, 2.0, (0.0, 0.0)));
    let scale = graph.add_processor_node(Box::new(Scale { factor_x: 1.0, factor_y: 1.0 }));
    graph.connect(&rect, &scale).unwrap();
    graph.set_output_node_handle(scale);
    assert_eq!(
        graph.set_exposed_parameter("size", "4"),
        Err(HardeenError::ExposedParameterDoesNotExist)
    );
    assert_eq!(graph.expose_parameter("size", &rect, "width"), Ok(()));
    graph.process_graph_output(true).unwrap();
    assert_eq!(graph.set_exposed_parameter("size", "4"), Ok(()));
    assert!(graph.get_node(&rect).unwrap().get_cached_output().is_none());
    assert!(graph.get_node(&scale).unwrap().get_cached_output().is_none());
    let world = graph.process_graph_output(true).unwrap();
    assert_eq!(positions(&world)[0], (-2.0, -1.0));
    assert_eq!(graph.set_exposed_parameter("size", "wide"), Err(HardeenError::ParseError));
    graph.remove_node(rect).unwrap();
    assert_eq!(
        graph.set_exposed_parameter("size", "4"),
        Err(HardeenError::ExposedParameterDoesNotExist)
    );
}

#[test]
fn subgraphs_and_project_navigation() {
    let mut project: GeometryProject = HardeenProject::new();
    let node = {
        let graph = project.get_current_graph_mut().unwrap();
        graph.add_processor_node(rectangle(1.0, 1.0, (0.0, 0.0)))
    };
    let graph = project.get_current_graph_mut().unwrap();
    assert_eq!(graph.is_node_subgraph_processor(&node), Ok(false));
    assert_eq!(graph.get_subgraph_handle(&node).err(), Some(HardeenError::NodeRunTypeMismatch));
    assert_eq!(
        graph.get_subgraph_handle(&MarkedHandle::new(9, 1)).err(),
        Some(HardeenError::InvalidHandle)
    );
    assert!(graph.get_subgraph(&MarkedHandle::new(0, 1)).is_err());
    project.go_level_down(MarkedHandle::new(0, 1));
    assert_eq!(project.get_current_graph_mut().err(), Some(HardeenError::InvalidHandle));
    project.go_level_up();
    assert!(project.get_current_graph_mut().is_ok());
    project.go_level_up();
    assert!(project.get_current_graph_mut().is_ok());
}

#[test]
fn evaluation_writes_the_caches_of_what_it_ran() {
    let mut graph: GeometryGraph = Graph::new();
    let runs = Rc::new(Cell::new(0));
    let scatter = graph.add_processor_node(Box::new(Scatter { num_points: 3, runs: runs.clone() }));
    let scale = graph.add_processor_node(Box::new(Scale { factor_x: 2.0, factor_y: 1.0 }));
    let translate = graph.add_processor_node(Box::new(Translate { offset: (1.0, 1.0) }));
    let aside = graph.add_processor_node(rectangle(1.0, 1.0, (0.0, 0.0)));
    graph.connect(&scatter, &scale).unwrap();
    graph.connect(&scale, &translate).unwrap();
    graph.set_output_node_handle(translate);
    let first = graph.process_graph_output(true).unwrap();
    assert_eq!(runs.get(), 1);
    let cached: Vec<Rc<GeometryWorld>> = [scatter, scale, translate]
        .iter()
        .map(|node| graph.get_node(node).unwrap().get_cached_output().unwrap())
        .collect();
    assert!(graph.get_node(&aside).unwrap().get_cached_output().is_none());
    let again = graph.process_graph_output(true).unwrap();
    assert!(Rc::ptr_eq(&again, &first));
    assert_eq!(runs.get(), 1);
    for (node, before) in [scatter, scale, translate].iter().zip(cached.iter()) {
        assert!(Rc::ptr_eq(&graph.get_node(node).unwrap().get_cached_output().unwrap(), before));
    }
    graph.set_node_parameter(&scale, "factor_x", "3").unwrap();
    assert!(graph.get_node(&scale).unwrap().get_cached_output().is_none());
    assert!(graph.get_node(&translate).unwrap().get_cached_output().is_none());
    let second = graph.process_graph_output(true).unwrap();
    assert_eq!(runs.get(), 1);
    assert!(Rc::ptr_eq(&graph.get_node(&scatter).unwrap().get_cached_output().unwrap(), &cached[0]));
    assert!(graph.get_node(&scale).unwrap().get_cached_output().is_some());
    assert!(Rc::ptr_eq(&graph.get_node(&translate).unwrap().get_cached_output().unwrap(), &second));
    assert!(!Rc::ptr_eq(&second, &first));
    let fresh = graph.process_graph_output(false).unwrap();
    assert_eq!(runs.get(), 2);
    assert!(Rc::ptr_eq(&graph.get_node(&translate).unwrap().get_cached_output().unwrap(), &fresh));
    assert!(!Rc::ptr_eq(&graph.get_node(&scatter).unwrap().get_cached_output().unwrap(), &cached[0]));
}

#[test]
fn a_chain_of_three_refuses_the_cycle() {
    let mut graph: GeometryGraph = Graph::new();
    let n1 = graph.add_processor_node_by_type("Scale", &Host).unwrap();
    let n2 = graph.add_processor_node_by_type("Scale", &Host).unwrap();
    let n3 = graph.add_processor_node_by_type("Scale", &Host).unwrap();
    assert_eq!(graph.connect(&n1, &n2), Ok(()));
    assert_eq!(graph.connect(&n2, &n3), Ok(()));
    assert_eq!(graph.connect(&n3, &n1), Err(HardeenError::CycleWouldBeIntroduced));
    let none: Vec<NodeHandle<GeometryWorld>> = Vec::new();
    assert!(graph.get_node(&n1).unwrap().get_all_input_handles() == none);
    assert!(graph.get_node(&n1).unwrap().get_all_outputs() == vec![n2]);
    assert!(graph.get_node(&n2).unwrap().get_all_input_handles() == vec![n1]);
    assert!(graph.get_node(&n2).unwrap().get_all_outputs() == vec![n3]);
    assert!(graph.get_node(&n3).unwrap().get_all_input_handles() == vec![n2]);
    assert!(graph.get_node(&n3).unwrap().get_all_outputs() == none);
    assert!(graph.get_output_node_handle().is_none());
}
