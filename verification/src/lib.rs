//! A node-based procedural engine for 2D vector geometry.
//!
//! A graph of processors is evaluated by pulling from its output node. Each
//! processor makes a new geometry world of the worlds that its inputs made.

pub mod geometry;
pub mod geometry_processors;
pub mod graph;
pub mod handled_vec;
pub mod hardeen_error;
pub mod project;

pub use crate::geometry::scalar::Scalar;
pub use crate::geometry::storage::{ImmutableVector, Persistent};
pub use crate::geometry::world::GeometryWorld;
pub use crate::geometry::{
    GeometryWorldError, Group, GroupHandle, Point, PointHandle, Position, Shape, ShapeHandle,
};
pub use crate::graph::input_component::{InputComponent, MultipleInput, SlottedInput};
pub use crate::graph::nodes::{Node, NodeHandle, ProcessorComponent, SubgraphHandle};
pub use crate::graph::parameters::{
    Parameter, ParameterType, PositionList, ProcessorInputType, ProcessorParameter, ProcessorTypeInfo,
};
pub use crate::graph::processor_component::{
    BasicProcessor, CheckedBasicProcessor, CheckedProcessor, CheckedSubgraphProcessor, Payload,
    Processor, SubgraphProcessor, UncheckedBasic, UncheckedSubgraph,
};
pub use crate::graph::{ExposedParameter, Graph};
pub use crate::handled_vec::data_vector::{
    DataField, DataFieldIterator, DataIterator, DataVector, HandleIterator, StdVec,
};
pub use crate::handled_vec::handles::{Handle, MarkedHandle};
pub use crate::handled_vec::{Arena, HandledVec, HandledVecError, Lookup};
pub use crate::hardeen_error::HardeenError;
pub use crate::geometry_processors::{
    processor_catalog, CreateShapeFromAllGroups, CreateShapeFromGroup, Empty, GeometryGraph,
    GeometryProcessor, GeometryProject, GeometrySubgraphProcessor, GroupPoints, InstanceOnPoints,
    Merge, PositionShift, PredicateEvaluator, ProcessorHost, Shifting, SortPointsX, SortPointsY,
    TypeKind,
};
pub use crate::project::HardeenProject;
