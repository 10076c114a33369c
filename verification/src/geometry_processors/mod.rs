//! # Geometry processors
//!
//! The processors that work on the links of a geometry world alone: they
//! merge worlds, make shapes of groups, put groups in order and group
//! points. The catalog lists every processor type with its parameters.

pub mod builders;
pub mod sorting;

use crate::geometry::world::{handle_at, occurrences, repeated, GeometryWorld};
use crate::geometry::{Group, GroupHandle, Point, PointHandle, Position, Shape, ShapeHandle};
use crate::graph::nodes::{Node, NodeHandle};
use crate::graph::parameters::{
    pair_views, parameter_views, parameters_of, ProcessorInputType, ProcessorParameter,
    ProcessorTypeInfo,
};
use crate::geometry::scalar::Scalar;
use crate::geometry_processors::builders::{group_selected, grouped};
use crate::geometry_processors::sorting::{all_numbers, in_order, lists_each, sorted_order};
use crate::graph::nodes::ProcessorComponent;
use crate::graph::processor_component::{
    all_valid, values, BasicProcessor, CheckedBasicProcessor, CheckedProcessor,
    CheckedSubgraphProcessor, Payload, SubgraphProcessor, UncheckedBasic, UncheckedSubgraph,
};
use crate::project::HardeenProject;
use crate::graph::named;
use crate::handled_vec::{lemma_all_occupied_count, occupied_count};
use crate::graph::Graph;
use crate::handled_vec::{Arena, Lookup};
use crate::hardeen_error::HardeenError;
use std::rc::Rc;
use vstd::prelude::*;

verus! {

/// Whether two strings are the same text.
pub fn same_text(left: &str, right: &str) -> (same: bool)
    ensures
        same == (left@ == right@),
{
    left.to_string() == right.to_string()
}

/// The string that stands for a truth value.
pub open spec fn bool_text(value: bool) -> Seq<char> {
    if value {
        "true"@
    } else {
        "false"@
    }
}

/// The truth value that a string stands for: "true" or "false", and
/// nothing else.
pub fn parse_bool(text: &str) -> (value: Option<bool>)
    ensures
        value == if text@ == "true"@ {
            Some(true)
        } else if text@ == "false"@ {
            Some(false)
        } else {
            None::<bool>
        },
{
    if same_text(text, "true") {
        Some(true)
    } else if same_text(text, "false") {
        Some(false)
    } else {
        None
    }
}

pub fn bool_to_string(value: bool) -> (text: String)
    ensures
        text@ == bool_text(value),
{
    if value {
        "true".to_string()
    } else {
        "false".to_string()
    }
}

/// The first input, copied; a new world where there is no input.
fn start_from(inputs: &Vec<Rc<GeometryWorld>>) -> (world: GeometryWorld)
    requires
        all_valid(inputs@),
    ensures
        world.wf(),
        inputs@.len() > 0 ==> world.points() == inputs@[0].points() && world.groups()
            == inputs@[0].groups() && world.shapes() == inputs@[0].shapes() && world.all_group()
            == inputs@[0].all_group() && (inputs@[0].all_exact() ==> world.all_exact()),
        inputs@.len() == 0 ==> world.points() == Arena::<Point>::empty() && world.shapes()
            == Arena::<Shape>::empty() && world.groups().slots.len() == 1,
{
    if inputs.len() > 0 {
        assert(inputs@[0].valid());
        let first: &GeometryWorld = &inputs[0];
        first.clone()
    } else {
        GeometryWorld::new()
    }
}

/// Makes a world without points.
pub struct Empty {}

impl Empty {
    pub fn new() -> Self {
        Empty {  }
    }

    pub fn get_processor_type_info() -> (info: ProcessorTypeInfo)
        ensures
            describes(
                info,
                "Empty"@,
                ProcessorInputType::Multiple { zero_allowed: true },
                Seq::<(Seq<char>, Seq<char>)>::empty(),
            ),
    {
        let pairs: Vec<(&'static str, &'static str)> = Vec::new();
        assert(pair_views(pairs@) =~= Seq::<(Seq<char>, Seq<char>)>::empty());
        type_info("Empty", ProcessorInputType::Multiple { zero_allowed: true }, pairs)
    }
}

impl CheckedProcessor<GeometryWorld> for Empty {
    open spec fn lawful(&self) -> bool {
        true
    }

    open spec fn spec_name(&self) -> Seq<char> {
        "Empty"@
    }

    open spec fn spec_number_inputs(&self) -> nat {
        0
    }

    open spec fn spec_parameters(&self) -> Seq<(Seq<char>, Seq<char>)> {
        Seq::empty()
    }

    open spec fn has_parameter(&self, name: Seq<char>) -> bool {
        false
    }

    open spec fn spec_input_type(&self) -> ProcessorInputType {
        ProcessorInputType::Multiple { zero_allowed: true }
    }

    open spec fn parameter_text(&self, name: Seq<char>) -> Seq<char> {
        Seq::empty()
    }

    open spec fn canonical(&self, name: Seq<char>, value: Seq<char>) -> Option<Seq<char>> {
        None
    }

    fn number_inputs(&self) -> (number: usize) {
        0
    }

    fn input_type(&self) -> (input_type: ProcessorInputType) {
        ProcessorInputType::Multiple { zero_allowed: true }
    }

    fn set_parameter(&mut self, param: &str, value: &str) -> (result: Result<(), HardeenError>) {
        Err(HardeenError::NodeParameterDoesNotExist)
    }

    fn get_parameter(&self, param: &str) -> (result: Result<String, HardeenError>) {
        Err(HardeenError::NodeParameterDoesNotExist)
    }

    fn get_parameters(&self) -> (parameters: Vec<ProcessorParameter>) {
        let pairs: Vec<(&'static str, &'static str)> = Vec::new();
        assert(pair_views(pairs@) =~= self.spec_parameters());
        parameters_of(pairs)
    }

    fn is_parameter(&self, param: &str) -> (known: bool) {
        false
    }

    fn get_processor_name(&self) -> (name: &'static str) {
        "Empty"
    }
}

impl CheckedBasicProcessor<GeometryWorld> for Empty {
    /// The output has no point and no shape, and the group of all points
    /// as its only group.
    open spec fn produces(&self, inputs: Seq<GeometryWorld>, output: GeometryWorld) -> bool {
        &&& output.wf()
        &&& output.all_exact()
        &&& output.points() == Arena::<Point>::empty()
        &&& output.shapes() == Arena::<Shape>::empty()
        &&& output.groups().slots.len() == 1
        &&& output.group(output.all_group()).points@ == Seq::<PointHandle>::empty()
    }

    fn run(&self, inputs: Vec<Rc<GeometryWorld>>) -> (output: Rc<GeometryWorld>) {
        Rc::new(GeometryWorld::new())
    }
}

/// Merges the second input into the first.
pub struct Merge {}

impl Merge {
    pub fn new() -> Self {
        Merge {  }
    }

    pub fn get_processor_type_info() -> (info: ProcessorTypeInfo)
        ensures
            describes(
                info,
                "Merge"@,
                ProcessorInputType::Multiple { zero_allowed: true },
                Seq::<(Seq<char>, Seq<char>)>::empty(),
            ),
    {
        let pairs: Vec<(&'static str, &'static str)> = Vec::new();
        assert(pair_views(pairs@) =~= Seq::<(Seq<char>, Seq<char>)>::empty());
        type_info("Merge", ProcessorInputType::Multiple { zero_allowed: true }, pairs)
    }
}

impl CheckedProcessor<GeometryWorld> for Merge {
    open spec fn lawful(&self) -> bool {
        true
    }

    open spec fn spec_name(&self) -> Seq<char> {
        "Merge"@
    }

    open spec fn spec_number_inputs(&self) -> nat {
        2
    }

    open spec fn spec_parameters(&self) -> Seq<(Seq<char>, Seq<char>)> {
        Seq::empty()
    }

    open spec fn has_parameter(&self, name: Seq<char>) -> bool {
        false
    }

    open spec fn spec_input_type(&self) -> ProcessorInputType {
        ProcessorInputType::Multiple { zero_allowed: true }
    }

    open spec fn parameter_text(&self, name: Seq<char>) -> Seq<char> {
        Seq::empty()
    }

    open spec fn canonical(&self, name: Seq<char>, value: Seq<char>) -> Option<Seq<char>> {
        None
    }

    fn number_inputs(&self) -> (number: usize) {
        2
    }

    fn input_type(&self) -> (input_type: ProcessorInputType) {
        ProcessorInputType::Multiple { zero_allowed: true }
    }

    fn set_parameter(&mut self, param: &str, value: &str) -> (result: Result<(), HardeenError>) {
        Err(HardeenError::NodeParameterDoesNotExist)
    }

    fn get_parameter(&self, param: &str) -> (result: Result<String, HardeenError>) {
        Err(HardeenError::NodeParameterDoesNotExist)
    }

    fn get_parameters(&self) -> (parameters: Vec<ProcessorParameter>) {
        let pairs: Vec<(&'static str, &'static str)> = Vec::new();
        assert(pair_views(pairs@) =~= self.spec_parameters());
        parameters_of(pairs)
    }

    fn is_parameter(&self, param: &str) -> (known: bool) {
        false
    }

    fn get_processor_name(&self) -> (name: &'static str) {
        "Merge"
    }
}

impl CheckedBasicProcessor<GeometryWorld> for Merge {
    /// With two inputs or more the output is the first with the second
    /// merged into it. With one input it is that input, and without any it
    /// is a world in order.
    open spec fn produces(&self, inputs: Seq<GeometryWorld>, output: GeometryWorld) -> bool {
        &&& output.wf()
        &&& inputs.len() >= 2 ==> inputs[0].merged_with(&inputs[1], &output)
        &&& inputs.len() == 1 ==> output.points() == inputs[0].points() && output.groups()
            == inputs[0].groups() && output.shapes() == inputs[0].shapes()
    }

    fn run(&self, inputs: Vec<Rc<GeometryWorld>>) -> (output: Rc<GeometryWorld>) {
        let mut world = start_from(&inputs);
        if inputs.len() >= 2 {
            assert(inputs@[1].valid());
            let second: &GeometryWorld = &inputs[1];
            let ghost copy = world;
            world.merge(second);
            proof {
                assert(values(inputs@)[0] == *inputs@[0]);
                assert(values(inputs@)[1] == *inputs@[1]);
                inputs@[0].lemma_merged_with_copy(&copy, second, &world);
            }
        } else if inputs.len() == 1 {
            assert(values(inputs@)[0] == *inputs@[0]);
        }
        Rc::new(world)
    }
}


/// A copy of a list of handles.
fn copy_handles(handles: &[PointHandle]) -> (copy: Vec<PointHandle>)
    ensures
        copy@ == handles@,
{
    let mut copy: Vec<PointHandle> = Vec::new();
    let mut current: usize = 0;
    let length = handles.len();
    while current < length
        invariant
            current <= length,
            length == handles@.len(),
            copy@ == handles@.take(current as int),
        decreases length - current,
    {
        copy.push(handles[current]);
        assert(handles@.take(current + 1) =~= handles@.take(current as int).push(
            handles@[current as int],
        ));
        current += 1;
    }
    assert(handles@.take(length as int) =~= handles@);
    copy
}

/// Makes a shape of the points of a group.
pub struct CreateShapeFromGroup {
    group_name: String,
    closed: bool,
}

impl CreateShapeFromGroup {
    pub closed spec fn spec_group_name(&self) -> Seq<char> {
        self.group_name@
    }

    pub closed spec fn spec_closed(&self) -> bool {
        self.closed
    }

    pub fn new() -> (processor: Self)
        ensures
            processor.spec_group_name() == "all"@,
            !processor.spec_closed(),
    {
        CreateShapeFromGroup { group_name: "all".to_string(), closed: false }
    }

    pub fn get_processor_type_info() -> (info: ProcessorTypeInfo)
        ensures
            describes(
                info,
                "CreateShapeFromGroup"@,
                ProcessorInputType::Slotted { number_of_slots: 1 },
                seq![("group_name"@, "String"@), ("closed"@, "Boolean"@)],
            ),
    {
        let pairs: Vec<(&'static str, &'static str)> = vec![
            ("group_name", "String"),
            ("closed", "Boolean"),
        ];
        assert(pair_views(pairs@) =~= seq![("group_name"@, "String"@), ("closed"@, "Boolean"@)]);
        type_info("CreateShapeFromGroup", ProcessorInputType::Slotted { number_of_slots: 1 }, pairs)
    }
}

impl CheckedProcessor<GeometryWorld> for CreateShapeFromGroup {
    open spec fn lawful(&self) -> bool {
        true
    }

    open spec fn spec_name(&self) -> Seq<char> {
        "CreateShapeFromGroup"@
    }

    open spec fn spec_number_inputs(&self) -> nat {
        1
    }

    open spec fn spec_parameters(&self) -> Seq<(Seq<char>, Seq<char>)> {
        seq![("group_name"@, "String"@), ("closed"@, "Boolean"@)]
    }

    open spec fn has_parameter(&self, name: Seq<char>) -> bool {
        name == "group_name"@ || name == "closed"@
    }

    open spec fn spec_input_type(&self) -> ProcessorInputType {
        ProcessorInputType::Slotted { number_of_slots: 1 }
    }

    open spec fn parameter_text(&self, name: Seq<char>) -> Seq<char> {
        if name == "group_name"@ {
            self.spec_group_name()
        } else if name == "closed"@ {
            bool_text(self.spec_closed())
        } else {
            Seq::empty()
        }
    }

    open spec fn canonical(&self, name: Seq<char>, value: Seq<char>) -> Option<Seq<char>> {
        if name == "group_name"@ {
            Some(value)
        } else if name == "closed"@ && (value == "true"@ || value == "false"@) {
            Some(value)
        } else {
            None
        }
    }

    fn number_inputs(&self) -> (number: usize) {
        1
    }

    fn input_type(&self) -> (input_type: ProcessorInputType) {
        ProcessorInputType::Slotted { number_of_slots: 1 }
    }

    fn set_parameter(&mut self, param: &str, value: &str) -> (result: Result<(), HardeenError>) {
        proof {
            reveal_strlit("group_name");
            reveal_strlit("closed");
            reveal_strlit("true");
            reveal_strlit("false");
        }
        if same_text(param, "group_name") {
            self.group_name = value.to_string();
            Ok(())
        } else if same_text(param, "closed") {
            match parse_bool(value) {
                Some(closed) => {
                    self.closed = closed;
                    Ok(())
                },
                None => Err(HardeenError::ParseError),
            }
        } else {
            Err(HardeenError::NodeParameterDoesNotExist)
        }
    }

    fn get_parameter(&self, param: &str) -> (result: Result<String, HardeenError>) {
        proof {
            reveal_strlit("group_name");
            reveal_strlit("closed");
        }
        if same_text(param, "group_name") {
            Ok(self.group_name.clone())
        } else if same_text(param, "closed") {
            Ok(bool_to_string(self.closed))
        } else {
            Err(HardeenError::NodeParameterDoesNotExist)
        }
    }

    fn get_parameters(&self) -> (parameters: Vec<ProcessorParameter>) {
        let pairs: Vec<(&'static str, &'static str)> = vec![
            ("group_name", "String"),
            ("closed", "Boolean"),
        ];
        assert(pair_views(pairs@) =~= self.spec_parameters());
        parameters_of(pairs)
    }

    fn is_parameter(&self, param: &str) -> (known: bool) {
        same_text(param, "group_name") || same_text(param, "closed")
    }

    fn get_processor_name(&self) -> (name: &'static str) {
        "CreateShapeFromGroup"
    }
}

impl CheckedBasicProcessor<GeometryWorld> for CreateShapeFromGroup {
    /// The output is the first input with one shape more, open or closed
    /// as the parameter says, whose points are those of the first group of
    /// the given name, in their order; the shape has no point where there is
    /// no such group. Every point is where it was and lists the new shape
    /// once for each time the shape holds it.
    open spec fn produces(&self, inputs: Seq<GeometryWorld>, output: GeometryWorld) -> bool {
        &&& output.wf()
        &&& inputs.len() >= 1 ==> {
            let input = inputs[0];
            let shape = handle_at::<Shape>(
                input.shapes().next_handle().0 as int,
                input.shapes().next_handle().1,
            );
            let members = input.named_points(self.spec_group_name());
            &&& output.groups() == input.groups()
            &&& output.all_group() == input.all_group()
            &&& output.has_shape(shape) && !input.has_shape(shape)
            &&& output.shapes() == input.shapes().insert(output.shape(shape))
            &&& output.shape(shape).closed == self.spec_closed()
            &&& output.shape(shape).vertices@ == members
            &&& output.points().same_layout(input.points())
            &&& forall|p: PointHandle| #[trigger]
                input.has_point(p) ==> {
                    &&& output.point(p).position == input.point(p).position
                    &&& output.point(p).in_tangent == input.point(p).in_tangent
                    &&& output.point(p).out_tangent == input.point(p).out_tangent
                    &&& output.point(p).groups@ == input.point(p).groups@
                    &&& output.point(p).shapes@ == input.point(p).shapes@ + repeated(
                        shape,
                        occurrences(members, p),
                    )
                }
        }
    }

    fn run(&self, inputs: Vec<Rc<GeometryWorld>>) -> (output: Rc<GeometryWorld>) {
        let mut world = start_from(&inputs);
        let ghost start = world;
        let members = match world.get_group_by_name(self.group_name.as_str()) {
            Some(group_handle) => match world.get_group(&group_handle) {
                Ok(group) => copy_handles(group.points.as_slice()),
                Err(_) => Vec::new(),
            },
            None => Vec::new(),
        };
        proof {
            start.lemma_group_named(self.group_name@);
            start.lemma_wf();
            if start.group_named(self.group_name@) is Some {
                assert(start.group_linked(start.group_named(self.group_name@)->0));
            }
            crate::geometry::world::lemma_all_found(start.points(), members@);
            start.shapes().lemma_insert_frame(arbitrary());
        }
        let shape_handle = world.create_shape(self.closed);
        let ghost created = world;
        world.add_points_to_shape(members, &shape_handle);
        proof {
            created.shapes().lemma_update_frame(
                shape_handle.index,
                shape_handle.generation,
                world.shape(shape_handle),
            );
            start.shapes().lemma_insert_frame(created.shape(shape_handle));
            if inputs@.len() >= 1 {
                assert(values(inputs@)[0] == *inputs@[0]);
                assert(world.shape(shape_handle).vertices@ =~= members@);
                assert(world.shapes() == start.shapes().insert(world.shape(shape_handle))) by {
                    assert(world.shapes().slots =~= start.shapes().insert(
                        world.shape(shape_handle),
                    ).slots);
                }
                assert forall|p: PointHandle| #[trigger] start.has_point(p) implies {
                    &&& world.point(p).position == start.point(p).position
                    &&& world.point(p).in_tangent == start.point(p).in_tangent
                    &&& world.point(p).out_tangent == start.point(p).out_tangent
                    &&& world.point(p).groups@ == start.point(p).groups@
                    &&& world.point(p).shapes@ == start.point(p).shapes@ + repeated(
                        shape_handle,
                        occurrences(members@, p),
                    )
                } by {
                    assert(created.has_point(p));
                }
                let input = values(inputs@)[0];
                assert(input.points() == start.points());
                assert(input.groups() == start.groups());
                assert(input.shapes() == start.shapes());
                assert(input.named_points(self.spec_group_name()) == start.named_points(
                    self.group_name@,
                ));
                assert(members@ == start.named_points(self.group_name@));
                let shape = handle_at::<Shape>(
                    input.shapes().next_handle().0 as int,
                    input.shapes().next_handle().1,
                );
                assert(shape == shape_handle);
                assert(world.has_shape(shape));
                assert(!input.has_shape(shape));
                assert(world.groups() == input.groups());
                assert(world.points().same_layout(input.points()));
                assert forall|p: PointHandle| #[trigger] input.has_point(p) implies {
                    &&& world.point(p).position == input.point(p).position
                    &&& world.point(p).in_tangent == input.point(p).in_tangent
                    &&& world.point(p).out_tangent == input.point(p).out_tangent
                    &&& world.point(p).groups@ == input.point(p).groups@
                    &&& world.point(p).shapes@ == input.point(p).shapes@ + repeated(
                        shape,
                        occurrences(input.named_points(self.spec_group_name()), p),
                    )
                } by {
                    assert(start.has_point(p));
                }
            }
        }
        Rc::new(world)
    }
}


/// The positions of the points that the handles find.
pub open spec fn positions_of(world: &GeometryWorld, handles: Seq<PointHandle>) -> Seq<Position> {
    Seq::new(handles.len(), |i: int| world.point(handles[i]).position)
}

/// The handles in the order of `order`.
pub open spec fn rearranged(handles: Seq<PointHandle>, order: Seq<usize>) -> Seq<PointHandle> {
    Seq::new(order.len(), |k: int| handles[order[k] as int])
}

/// Whether `after` is `before` put in order by the positions of the points:
/// each handle once for each time it was there, no point before one that
/// comes before it, and points at the same place in the order they had.
/// Where a coordinate is not a number only the first of these holds.
pub open spec fn sorted_by(
    world: &GeometryWorld,
    before: Seq<PointHandle>,
    after: Seq<PointHandle>,
    by_x: bool,
) -> bool {
    exists|order: Seq<usize>|
        named(order) && lists_each(order, before.len() as int) && after == rearranged(before, order)
            && (all_numbers(positions_of(world, before)) ==> in_order(
            order,
            positions_of(world, before),
            by_x,
        ))
}

/// Puts the group of all points in order by position. Nothing else
/// changes.
pub fn sort_all_points(world: &mut GeometryWorld, by_x: bool)
    requires
        old(world).wf(),
    ensures
        final(world).wf(),
        old(world).all_exact() ==> final(world).all_exact(),
        final(world).all_group() == old(world).all_group(),
        final(world).points() == old(world).points(),
        final(world).shapes() == old(world).shapes(),
        final(world).groups() == old(world).groups().update(
            old(world).all_group().index,
            old(world).all_group().generation,
            final(world).group(old(world).all_group()),
        ),
        final(world).group(old(world).all_group()).name@ == old(world).group(
            old(world).all_group(),
        ).name@,
        sorted_by(
            &*old(world),
            old(world).group(old(world).all_group()).points@,
            final(world).group(old(world).all_group()).points@,
            by_x,
        ),
{
    let ghost start = *world;
    let all = world.get_all_group_handle();
    let members = copy_handles(world.get_all_points());
    let mut positions: Vec<Position> = Vec::new();
    let mut current: usize = 0;
    let length = members.len();
    proof {
        start.lemma_wf();
        assert(start.group_linked(all));
    }
    while current < length
        invariant
            current <= length,
            length == members@.len(),
            world.wf(),
            *world == start,
            members@ == start.group(start.all_group()).points@,
            start.group_linked(start.all_group()),
            positions@ == positions_of(&start, members@.take(current as int)),
        decreases length - current,
    {
        let handle = members[current];
        assert(start.has_point(members@[current as int]));
        let position = match world.get_point(&handle) {
            Ok(point) => point.position,
            Err(_) => Position::origin(),
        };
        positions.push(position);
        proof {
            assert(positions@ =~= positions_of(&start, members@.take(current + 1)));
        }
        current += 1;
    }
    proof {
        assert(members@.take(length as int) =~= members@);
    }
    let order = sorted_order(&positions, by_x);
    let mut sorted: Vec<PointHandle> = Vec::new();
    let mut placed: usize = 0;
    while placed < length
        invariant
            placed <= length,
            length == members@.len(),
            order@.len() == length,
            lists_each(order@, length as int),
            sorted@ == rearranged(members@, order@.take(placed as int)),
        decreases length - placed,
    {
        let from = order[placed];
        assert(order@[placed as int] < length);
        sorted.push(members[from]);
        proof {
            assert(sorted@ =~= rearranged(members@, order@.take(placed + 1)));
        }
        placed += 1;
    }
    proof {
        assert(order@.take(length as int) =~= order@);
        assert forall|p: PointHandle| members@.contains(p) <==> sorted@.contains(p) by {
            if members@.contains(p) {
                let m = choose|m: int| 0 <= m < members@.len() && members@[m] == p;
                assert(order@.contains(m as usize));
                let k = choose|k: int| 0 <= k < order@.len() && order@[k] == m as usize;
                assert(sorted@[k] == p);
            }
            if sorted@.contains(p) {
                let k = choose|k: int| 0 <= k < sorted@.len() && sorted@[k] == p;
                assert(members@[order@[k] as int] == p);
            }
        }
        if members@.no_duplicates() {
            assert forall|a: int, b: int|
                0 <= a < sorted@.len() && 0 <= b < sorted@.len() && a != b implies sorted@[a]
                != sorted@[b] by {
                if a < b {
                    assert(order@[a] != order@[b]);
                } else {
                    assert(order@[b] != order@[a]);
                }
            }
        }
        assert(named(order@));
    }
    world.reorder_group(&all, sorted);
}

/// Puts the group of all points in order by the first coordinate, and by
/// the second among points that agree in the first.
pub struct SortPointsX {}

/// Puts the group of all points in order by the second coordinate, and by
/// the first among points that agree in the second.
pub struct SortPointsY {}

impl SortPointsX {
    pub fn new() -> Self {
        SortPointsX {  }
    }

    pub fn get_processor_type_info() -> (info: ProcessorTypeInfo)
        ensures
            describes(
                info,
                "SortPointsX"@,
                ProcessorInputType::Slotted { number_of_slots: 1 },
                Seq::<(Seq<char>, Seq<char>)>::empty(),
            ),
    {
        let pairs: Vec<(&'static str, &'static str)> = Vec::new();
        assert(pair_views(pairs@) =~= Seq::<(Seq<char>, Seq<char>)>::empty());
        type_info("SortPointsX", ProcessorInputType::Slotted { number_of_slots: 1 }, pairs)
    }
}

impl SortPointsY {
    pub fn new() -> Self {
        SortPointsY {  }
    }

    pub fn get_processor_type_info() -> (info: ProcessorTypeInfo)
        ensures
            describes(
                info,
                "SortPointsY"@,
                ProcessorInputType::Slotted { number_of_slots: 1 },
                Seq::<(Seq<char>, Seq<char>)>::empty(),
            ),
    {
        let pairs: Vec<(&'static str, &'static str)> = Vec::new();
        assert(pair_views(pairs@) =~= Seq::<(Seq<char>, Seq<char>)>::empty());
        type_info("SortPointsY", ProcessorInputType::Slotted { number_of_slots: 1 }, pairs)
    }
}

/// Whether `output` is `input` with its group of all points put in order.
pub open spec fn sorted_world(input: &GeometryWorld, output: &GeometryWorld, by_x: bool) -> bool {
    &&& output.all_group() == input.all_group()
    &&& output.points() == input.points()
    &&& output.shapes() == input.shapes()
    &&& output.groups() == input.groups().update(
        input.all_group().index,
        input.all_group().generation,
        output.group(input.all_group()),
    )
    &&& output.group(input.all_group()).name@ == input.group(input.all_group()).name@
    &&& sorted_by(
        input,
        input.group(input.all_group()).points@,
        output.group(input.all_group()).points@,
        by_x,
    )
}

/// A world with the points, shapes and groups of another is sorted as
/// that one is.
pub proof fn lemma_sorted_copy(
    input: &GeometryWorld,
    copy: &GeometryWorld,
    output: &GeometryWorld,
    by_x: bool,
)
    requires
        copy.points() == input.points(),
        copy.groups() == input.groups(),
        copy.shapes() == input.shapes(),
        copy.all_group() == input.all_group(),
        sorted_world(copy, output, by_x),
    ensures
        sorted_world(input, output, by_x),
{
    let before = input.group(input.all_group()).points@;
    let after = output.group(input.all_group()).points@;
    let order = choose|order: Seq<usize>|
        named(order) && lists_each(order, before.len() as int) && after == rearranged(before, order)
            && (all_numbers(positions_of(copy, before)) ==> in_order(
            order,
            positions_of(copy, before),
            by_x,
        ));
    assert(positions_of(copy, before) =~= positions_of(input, before));
    assert(named(order));
}

impl CheckedProcessor<GeometryWorld> for SortPointsX {
    open spec fn lawful(&self) -> bool {
        true
    }

    open spec fn spec_name(&self) -> Seq<char> {
        "SortPointsX"@
    }

    open spec fn spec_number_inputs(&self) -> nat {
        1
    }

    open spec fn spec_parameters(&self) -> Seq<(Seq<char>, Seq<char>)> {
        Seq::empty()
    }

    open spec fn has_parameter(&self, name: Seq<char>) -> bool {
        false
    }

    open spec fn spec_input_type(&self) -> ProcessorInputType {
        ProcessorInputType::Slotted { number_of_slots: 1 }
    }

    open spec fn parameter_text(&self, name: Seq<char>) -> Seq<char> {
        Seq::empty()
    }

    open spec fn canonical(&self, name: Seq<char>, value: Seq<char>) -> Option<Seq<char>> {
        None
    }

    fn number_inputs(&self) -> (number: usize) {
        1
    }

    fn input_type(&self) -> (input_type: ProcessorInputType) {
        ProcessorInputType::Slotted { number_of_slots: 1 }
    }

    fn set_parameter(&mut self, param: &str, value: &str) -> (result: Result<(), HardeenError>) {
        Err(HardeenError::NodeParameterDoesNotExist)
    }

    fn get_parameter(&self, param: &str) -> (result: Result<String, HardeenError>) {
        Err(HardeenError::NodeParameterDoesNotExist)
    }

    fn get_parameters(&self) -> (parameters: Vec<ProcessorParameter>) {
        let pairs: Vec<(&'static str, &'static str)> = Vec::new();
        assert(pair_views(pairs@) =~= self.spec_parameters());
        parameters_of(pairs)
    }

    fn is_parameter(&self, param: &str) -> (known: bool) {
        false
    }

    fn get_processor_name(&self) -> (name: &'static str) {
        "SortPointsX"
    }
}

impl CheckedBasicProcessor<GeometryWorld> for SortPointsX {
    /// The output is the first input with its group of all points put in
    /// order by the first coordinate, then by the second.
    open spec fn produces(&self, inputs: Seq<GeometryWorld>, output: GeometryWorld) -> bool {
        &&& output.wf()
        &&& inputs.len() >= 1 ==> sorted_world(&inputs[0], &output, true)
    }

    fn run(&self, inputs: Vec<Rc<GeometryWorld>>) -> (output: Rc<GeometryWorld>) {
        let mut world = start_from(&inputs);
        let ghost start = world;
        sort_all_points(&mut world, true);
        proof {
            if inputs@.len() >= 1 {
                assert(values(inputs@)[0] == *inputs@[0]);
                lemma_sorted_copy(&values(inputs@)[0], &start, &world, true);
            }
        }
        Rc::new(world)
    }
}

impl CheckedProcessor<GeometryWorld> for SortPointsY {
    open spec fn lawful(&self) -> bool {
        true
    }

    open spec fn spec_name(&self) -> Seq<char> {
        "SortPointsY"@
    }

    open spec fn spec_number_inputs(&self) -> nat {
        1
    }

    open spec fn spec_parameters(&self) -> Seq<(Seq<char>, Seq<char>)> {
        Seq::empty()
    }

    open spec fn has_parameter(&self, name: Seq<char>) -> bool {
        false
    }

    open spec fn spec_input_type(&self) -> ProcessorInputType {
        ProcessorInputType::Slotted { number_of_slots: 1 }
    }

    open spec fn parameter_text(&self, name: Seq<char>) -> Seq<char> {
        Seq::empty()
    }

    open spec fn canonical(&self, name: Seq<char>, value: Seq<char>) -> Option<Seq<char>> {
        None
    }

    fn number_inputs(&self) -> (number: usize) {
        1
    }

    fn input_type(&self) -> (input_type: ProcessorInputType) {
        ProcessorInputType::Slotted { number_of_slots: 1 }
    }

    fn set_parameter(&mut self, param: &str, value: &str) -> (result: Result<(), HardeenError>) {
        Err(HardeenError::NodeParameterDoesNotExist)
    }

    fn get_parameter(&self, param: &str) -> (result: Result<String, HardeenError>) {
        Err(HardeenError::NodeParameterDoesNotExist)
    }

    fn get_parameters(&self) -> (parameters: Vec<ProcessorParameter>) {
        let pairs: Vec<(&'static str, &'static str)> = Vec::new();
        assert(pair_views(pairs@) =~= self.spec_parameters());
        parameters_of(pairs)
    }

    fn is_parameter(&self, param: &str) -> (known: bool) {
        false
    }

    fn get_processor_name(&self) -> (name: &'static str) {
        "SortPointsY"
    }
}

impl CheckedBasicProcessor<GeometryWorld> for SortPointsY {
    /// The output is the first input with its group of all points put in
    /// order by the second coordinate, then by the first.
    open spec fn produces(&self, inputs: Seq<GeometryWorld>, output: GeometryWorld) -> bool {
        &&& output.wf()
        &&& inputs.len() >= 1 ==> sorted_world(&inputs[0], &output, false)
    }

    fn run(&self, inputs: Vec<Rc<GeometryWorld>>) -> (output: Rc<GeometryWorld>) {
        let mut world = start_from(&inputs);
        let ghost start = world;
        sort_all_points(&mut world, false);
        proof {
            if inputs@.len() >= 1 {
                assert(values(inputs@)[0] == *inputs@[0]);
                lemma_sorted_copy(&values(inputs@)[0], &start, &world, false);
            }
        }
        Rc::new(world)
    }
}


/// Makes a shape of the points of every group but the group of all points.
pub struct CreateShapeFromAllGroups {
    closed: bool,
}

impl CreateShapeFromAllGroups {
    pub closed spec fn spec_closed(&self) -> bool {
        self.closed
    }

    pub fn new() -> (processor: Self)
        ensures
            !processor.spec_closed(),
    {
        CreateShapeFromAllGroups { closed: false }
    }

    pub fn get_processor_type_info() -> (info: ProcessorTypeInfo)
        ensures
            describes(
                info,
                "CreateShapeFromAllGroups"@,
                ProcessorInputType::Slotted { number_of_slots: 1 },
                seq![("closed"@, "Boolean"@)],
            ),
    {
        let pairs: Vec<(&'static str, &'static str)> = vec![("closed", "Boolean")];
        assert(pair_views(pairs@) =~= seq![("closed"@, "Boolean"@)]);
        type_info(
            "CreateShapeFromAllGroups",
            ProcessorInputType::Slotted { number_of_slots: 1 },
            pairs,
        )
    }
}

impl CheckedProcessor<GeometryWorld> for CreateShapeFromAllGroups {
    open spec fn lawful(&self) -> bool {
        true
    }

    open spec fn spec_name(&self) -> Seq<char> {
        "CreateShapeFromAllGroups"@
    }

    open spec fn spec_number_inputs(&self) -> nat {
        1
    }

    open spec fn spec_parameters(&self) -> Seq<(Seq<char>, Seq<char>)> {
        seq![("closed"@, "Boolean"@)]
    }

    open spec fn has_parameter(&self, name: Seq<char>) -> bool {
        name == "closed"@
    }

    open spec fn spec_input_type(&self) -> ProcessorInputType {
        ProcessorInputType::Slotted { number_of_slots: 1 }
    }

    open spec fn parameter_text(&self, name: Seq<char>) -> Seq<char> {
        if name == "closed"@ {
            bool_text(self.spec_closed())
        } else {
            Seq::empty()
        }
    }

    open spec fn canonical(&self, name: Seq<char>, value: Seq<char>) -> Option<Seq<char>> {
        if name == "closed"@ && (value == "true"@ || value == "false"@) {
            Some(value)
        } else {
            None
        }
    }

    fn number_inputs(&self) -> (number: usize) {
        1
    }

    fn input_type(&self) -> (input_type: ProcessorInputType) {
        ProcessorInputType::Slotted { number_of_slots: 1 }
    }

    fn set_parameter(&mut self, param: &str, value: &str) -> (result: Result<(), HardeenError>) {
        if same_text(param, "closed") {
            match parse_bool(value) {
                Some(closed) => {
                    self.closed = closed;
                    Ok(())
                },
                None => Err(HardeenError::ParseError),
            }
        } else {
            Err(HardeenError::NodeParameterDoesNotExist)
        }
    }

    fn get_parameter(&self, param: &str) -> (result: Result<String, HardeenError>) {
        if same_text(param, "closed") {
            Ok(bool_to_string(self.closed))
        } else {
            Err(HardeenError::NodeParameterDoesNotExist)
        }
    }

    fn get_parameters(&self) -> (parameters: Vec<ProcessorParameter>) {
        let pairs: Vec<(&'static str, &'static str)> = vec![("closed", "Boolean")];
        assert(pair_views(pairs@) =~= self.spec_parameters());
        parameters_of(pairs)
    }

    fn is_parameter(&self, param: &str) -> (known: bool) {
        same_text(param, "closed")
    }

    fn get_processor_name(&self) -> (name: &'static str) {
        "CreateShapeFromAllGroups"
    }
}

/// Whether the points of `output` are those of `input`, each where it was
/// and in the groups it was in.
pub open spec fn same_places(input: &GeometryWorld, output: &GeometryWorld) -> bool {
    &&& output.points().same_layout(input.points())
    &&& forall|p: PointHandle| #[trigger]
        input.has_point(p) ==> {
            &&& output.point(p).position == input.point(p).position
            &&& output.point(p).in_tangent == input.point(p).in_tangent
            &&& output.point(p).out_tangent == input.point(p).out_tangent
            &&& output.point(p).groups@ == input.point(p).groups@
        }
}

/// `made` names, for each of the first `upto` group slots of `input` but
/// that of the group of all points, a shape of `output` that `input` does
/// not have: open or closed as asked, it joins the points of the group in
/// their order. No shape is named twice.
pub open spec fn shapes_of_groups(
    input: &GeometryWorld,
    output: &GeometryWorld,
    closed: bool,
    made: Seq<Option<ShapeHandle>>,
    upto: int,
) -> bool {
    &&& made.len() == upto
    &&& forall|i: int| 0 <= i < upto ==> ((#[trigger] made[i]) is Some <==> i != input.all_group().index)
    &&& forall|i: int|
        0 <= i < upto && (#[trigger] made[i]) is Some ==> {
            let shape = made[i]->0;
            &&& output.has_shape(shape)
            &&& !input.has_shape(shape)
            &&& output.shape(shape).closed == closed
            &&& output.shape(shape).vertices@ == input.groups().slots[i].data->0.points@
        }
    &&& forall|i: int, j: int|
        0 <= i < j < upto && (#[trigger] made[i]) is Some && (#[trigger] made[j]) is Some ==> made[i]
            != made[j]
}

impl CheckedBasicProcessor<GeometryWorld> for CreateShapeFromAllGroups {
    /// The output is the first input with one shape more for every group
    /// but the group of all points: a shape that joins the points of the
    /// group in their order, open or closed as the parameter says. Every
    /// point is where it was, and every shape and group of the input is
    /// what it was.
    open spec fn produces(&self, inputs: Seq<GeometryWorld>, output: GeometryWorld) -> bool {
        &&& output.wf()
        &&& inputs.len() >= 1 ==> {
            let input = inputs[0];
            &&& output.groups() == input.groups()
            &&& output.all_group() == input.all_group()
            &&& same_places(&input, &output)
            &&& input.shapes_kept(&output)
            &&& output.shapes().count() == input.shapes().count() + input.groups().count() - 1
            &&& exists|made: Seq<Option<ShapeHandle>>| #[trigger]
                shapes_of_groups(
                    &input,
                    &output,
                    self.spec_closed(),
                    made,
                    input.groups().slots.len() as int,
                )
        }
    }

    fn run(&self, inputs: Vec<Rc<GeometryWorld>>) -> (output: Rc<GeometryWorld>) {
        let mut world = start_from(&inputs);
        let ghost start = world;
        let all = world.get_all_group_handle();
        let groups = world.get_group_count();
        let mut current: usize = 0;
        let ghost mut made: Seq<Option<ShapeHandle>> = Seq::empty();
        proof {
            start.lemma_wf();
            lemma_all_occupied_count(start.groups().slots);
        }
        while current < groups
            invariant
                current <= groups,
                groups == start.groups().slots.len(),
                groups >= 1,
                start.wf(),
                all == start.all_group(),
                all.index == 0,
                world.wf(),
                world.groups() == start.groups(),
                world.all_group() == start.all_group(),
                same_places(&start, &world),
                start.shapes_kept(&world),
                shapes_of_groups(&start, &world, self.spec_closed(), made, current as int),
                world.shapes().count() == start.shapes().count() + if current == 0 {
                    0int
                } else {
                    current - 1
                },
            decreases groups - current,
        {
            let ghost previous = world;
            let ghost earlier = made;
            if current != all.index {
                let handle = world.get_group_handle_from_index(current);
                proof {
                    previous.lemma_wf();
                    assert(previous.has_group(handle));
                    assert(previous.group_linked(handle));
                }
                let members = match world.get_group(&handle) {
                    Ok(group) => copy_handles(group.points.as_slice()),
                    Err(_) => Vec::new(),
                };
                let ghost joining = members@;
                let shape = world.create_shape(self.closed);
                let ghost created = world;
                world.add_points_to_shape(members, &shape);
                proof {
                    made = earlier.push(Some(shape));
                    assert(joining == start.groups().slots[current as int].data->0.points@);
                    assert forall|k: int| 0 <= k < joining.len() implies created.points().contains(
                        (#[trigger] joining[k]).index,
                        joining[k].generation,
                    ) by {
                        assert(previous.has_point(previous.group(handle).points@[k]));
                    }
                    crate::geometry::world::lemma_all_found(created.points(), joining);
                    assert(world.shape(shape).vertices@ =~= joining);
                    assert(shapes_of_groups(&start, &world, self.spec_closed(), made, current + 1)) by {
                        assert forall|i: int| 0 <= i < current + 1 && (#[trigger] made[i])
                            is Some implies {
                            let t = made[i]->0;
                            &&& world.has_shape(t)
                            &&& !start.has_shape(t)
                            &&& world.shape(t).closed == self.spec_closed()
                            &&& world.shape(t).vertices@ == start.groups().slots[i].data->0.points@
                        } by {
                            if i < current {
                                assert(made[i] == earlier[i]);
                                let t = earlier[i]->0;
                                assert(previous.has_shape(t));
                                assert(created.has_shape(t));
                                assert(t.index != shape.index);
                                assert(created.shapes().slots[t.index as int]
                                    == previous.shapes().slots[t.index as int]);
                                assert(world.shapes().slots[t.index as int]
                                    == created.shapes().slots[t.index as int]);
                            } else {
                                if start.has_shape(shape) {
                                    assert(previous.has_shape(shape));
                                }
                            }
                        }
                        assert forall|i: int, j: int|
                            0 <= i < j < current + 1 && (#[trigger] made[i]) is Some && (
                            #[trigger] made[j]) is Some implies made[i] != made[j] by {
                            assert(made[i] == earlier[i]);
                            if j < current {
                                assert(made[j] == earlier[j]);
                            } else {
                                assert(previous.has_shape(earlier[i]->0));
                            }
                        }
                        assert forall|i: int| 0 <= i < current + 1 implies ((#[trigger] made[i])
                            is Some <==> i != start.all_group().index) by {
                            if i < current {
                                assert(made[i] == earlier[i]);
                            }
                        }
                    }
                    previous.lemma_wf();
                    created.lemma_wf();
                    previous.shapes().lemma_insert_frame(created.shape(shape));
                    created.shapes().lemma_update_frame(
                        shape.index,
                        shape.generation,
                        world.shape(shape),
                    );
                    created.shapes().lemma_update_wf(
                        shape.index,
                        shape.generation,
                        world.shape(shape),
                    );
                    assert(start.shapes_kept(&world)) by {
                        assert forall|t: ShapeHandle| #[trigger] start.has_shape(t) implies world.has_shape(
                            t,
                        ) && world.shape(t).closed == start.shape(t).closed && world.shape(
                            t,
                        ).vertices@ == start.shape(t).vertices@ by {
                            assert(previous.has_shape(t));
                            assert(created.has_shape(t));
                            assert(t.index != shape.index);
                        }
                    }
                    assert(same_places(&start, &world)) by {
                        assert forall|p: PointHandle| #[trigger] start.has_point(p) implies {
                            &&& world.point(p).position == start.point(p).position
                            &&& world.point(p).in_tangent == start.point(p).in_tangent
                            &&& world.point(p).out_tangent == start.point(p).out_tangent
                            &&& world.point(p).groups@ == start.point(p).groups@
                        } by {
                            assert(previous.has_point(p));
                            assert(created.has_point(p));
                        }
                    }
                }
            } else {
                proof {
                    made = earlier.push(None);
                    assert(shapes_of_groups(&start, &world, self.spec_closed(), made, current + 1)) by {
                        assert forall|i: int| 0 <= i < current + 1 && (#[trigger] made[i])
                            is Some implies {
                            let t = made[i]->0;
                            &&& world.has_shape(t)
                            &&& !start.has_shape(t)
                            &&& world.shape(t).closed == self.spec_closed()
                            &&& world.shape(t).vertices@ == start.groups().slots[i].data->0.points@
                        } by {
                            assert(made[i] == earlier[i]);
                        }
                        assert forall|i: int, j: int|
                            0 <= i < j < current + 1 && (#[trigger] made[i]) is Some && (
                            #[trigger] made[j]) is Some implies made[i] != made[j] by {
                            assert(made[i] == earlier[i]);
                            assert(made[j] == earlier[j]);
                        }
                        assert forall|i: int| 0 <= i < current + 1 implies ((#[trigger] made[i])
                            is Some <==> i != start.all_group().index) by {
                            if i < current {
                                assert(made[i] == earlier[i]);
                            }
                        }
                    }
                }
            }
            current += 1;
        }
        proof {
            if inputs@.len() >= 1 {
                assert(values(inputs@)[0] == *inputs@[0]);
                let input = values(inputs@)[0];
                assert(shapes_of_groups(
                    &input,
                    &world,
                    self.spec_closed(),
                    made,
                    input.groups().slots.len() as int,
                )) by {
                    assert(forall|t: ShapeHandle| input.has_shape(t) == start.has_shape(t));
                }
                assert(same_places(&input, &world)) by {
                    assert forall|p: PointHandle| #[trigger] input.has_point(p) implies {
                        &&& world.point(p).position == input.point(p).position
                        &&& world.point(p).in_tangent == input.point(p).in_tangent
                        &&& world.point(p).out_tangent == input.point(p).out_tangent
                        &&& world.point(p).groups@ == input.point(p).groups@
                    } by {
                        assert(start.has_point(p));
                    }
                }
                assert(input.shapes_kept(&world)) by {
                    assert forall|t: ShapeHandle| #[trigger] input.has_shape(t) implies world.has_shape(
                        t,
                    ) && world.shape(t).closed == input.shape(t).closed && world.shape(t).vertices@
                        == input.shape(t).vertices@ by {
                        assert(start.has_shape(t));
                    }
                }
            }
        }
        Rc::new(world)
    }
}

/// What decides, for a point, whether an expression holds of it. The
/// expression can speak of the number of the point, counted from one, and
/// of its two coordinates.
pub trait PredicateEvaluator {
    fn eval(&self, expression: &str, number: usize, x: Scalar, y: Scalar) -> bool;
}

/// Puts the points of which an expression holds into a new group. Without
/// an evaluator for the expression, and without a name for the group, the
/// processor hands its input on.
pub struct GroupPoints {
    group_name: String,
    py_condition: String,
    evaluator: Option<Box<dyn PredicateEvaluator>>,
}

impl GroupPoints {
    pub closed spec fn spec_group_name(&self) -> Seq<char> {
        self.group_name@
    }

    pub closed spec fn spec_condition(&self) -> Seq<char> {
        self.py_condition@
    }

    /// Whether the processor has an evaluator for its expression.
    pub closed spec fn can_evaluate(&self) -> bool {
        self.evaluator is Some
    }

    pub fn new() -> (processor: Self)
        ensures
            processor.spec_group_name() == ""@,
            processor.spec_condition() == "False"@,
            !processor.can_evaluate(),
    {
        GroupPoints {
            group_name: "".to_string(),
            py_condition: "False".to_string(),
            evaluator: None,
        }
    }

    pub fn with_evaluator(evaluator: Box<dyn PredicateEvaluator>) -> (processor: Self)
        ensures
            processor.spec_group_name() == ""@,
            processor.spec_condition() == "False"@,
            processor.can_evaluate(),
    {
        GroupPoints {
            group_name: "".to_string(),
            py_condition: "False".to_string(),
            evaluator: Some(evaluator),
        }
    }

    pub fn get_processor_type_info() -> (info: ProcessorTypeInfo)
        ensures
            describes(
                info,
                "GroupPoints"@,
                ProcessorInputType::Slotted { number_of_slots: 1 },
                seq![("group_name"@, "String"@), ("py_condition"@, "String"@)],
            ),
    {
        let pairs: Vec<(&'static str, &'static str)> = vec![
            ("group_name", "String"),
            ("py_condition", "String"),
        ];
        assert(pair_views(pairs@) =~= seq![
            ("group_name"@, "String"@),
            ("py_condition"@, "String"@),
        ]);
        type_info("GroupPoints", ProcessorInputType::Slotted { number_of_slots: 1 }, pairs)
    }
}

impl CheckedProcessor<GeometryWorld> for GroupPoints {
    open spec fn lawful(&self) -> bool {
        true
    }

    open spec fn spec_name(&self) -> Seq<char> {
        "GroupPoints"@
    }

    open spec fn spec_number_inputs(&self) -> nat {
        1
    }

    open spec fn spec_parameters(&self) -> Seq<(Seq<char>, Seq<char>)> {
        seq![("group_name"@, "String"@), ("py_condition"@, "String"@)]
    }

    open spec fn has_parameter(&self, name: Seq<char>) -> bool {
        name == "group_name"@ || name == "py_condition"@
    }

    open spec fn spec_input_type(&self) -> ProcessorInputType {
        ProcessorInputType::Slotted { number_of_slots: 1 }
    }

    open spec fn parameter_text(&self, name: Seq<char>) -> Seq<char> {
        if name == "group_name"@ {
            self.spec_group_name()
        } else if name == "py_condition"@ {
            self.spec_condition()
        } else {
            Seq::empty()
        }
    }

    open spec fn canonical(&self, name: Seq<char>, value: Seq<char>) -> Option<Seq<char>> {
        if name == "group_name"@ || name == "py_condition"@ {
            Some(value)
        } else {
            None
        }
    }

    fn number_inputs(&self) -> (number: usize) {
        1
    }

    fn input_type(&self) -> (input_type: ProcessorInputType) {
        ProcessorInputType::Slotted { number_of_slots: 1 }
    }

    fn set_parameter(&mut self, param: &str, value: &str) -> (result: Result<(), HardeenError>) {
        proof {
            reveal_strlit("group_name");
            reveal_strlit("py_condition");
        }
        if same_text(param, "group_name") {
            self.group_name = value.to_string();
            Ok(())
        } else if same_text(param, "py_condition") {
            self.py_condition = value.to_string();
            Ok(())
        } else {
            Err(HardeenError::NodeParameterDoesNotExist)
        }
    }

    fn get_parameter(&self, param: &str) -> (result: Result<String, HardeenError>) {
        proof {
            reveal_strlit("group_name");
            reveal_strlit("py_condition");
        }
        if same_text(param, "group_name") {
            Ok(self.group_name.clone())
        } else if same_text(param, "py_condition") {
            Ok(self.py_condition.clone())
        } else {
            Err(HardeenError::NodeParameterDoesNotExist)
        }
    }

    fn get_parameters(&self) -> (parameters: Vec<ProcessorParameter>) {
        let pairs: Vec<(&'static str, &'static str)> = vec![
            ("group_name", "String"),
            ("py_condition", "String"),
        ];
        assert(pair_views(pairs@) =~= self.spec_parameters());
        parameters_of(pairs)
    }

    fn is_parameter(&self, param: &str) -> (known: bool) {
        same_text(param, "group_name") || same_text(param, "py_condition")
    }

    fn get_processor_name(&self) -> (name: &'static str) {
        "GroupPoints"
    }
}

impl CheckedBasicProcessor<GeometryWorld> for GroupPoints {
    /// Without an evaluator or without a name for the group, the output is
    /// the first input. Else it is the first input with one group more, of
    /// the given name: for some answers, one for each point of the group
    /// of all points, the group holds the points for which the answer is
    /// yes, as `grouped` says. The answers are the evaluator's.
    open spec fn produces(&self, inputs: Seq<GeometryWorld>, output: GeometryWorld) -> bool {
        &&& output.wf()
        &&& inputs.len() >= 1 ==> {
            let input = inputs[0];
            &&& output.all_group() == input.all_group()
            &&& output.shapes() == input.shapes()
            &&& output.points().same_layout(input.points())
            &&& input.groups_kept(&output)
            &&& if self.can_evaluate() && self.spec_group_name().len() > 0 {
                exists|answers: Seq<bool>| #[trigger]
                    grouped(&input, &output, self.spec_group_name(), answers) && answers.len()
                        == input.group(input.all_group()).points@.len()
            } else {
                output.points() == input.points() && output.groups() == input.groups()
            }
        }
    }

    fn run(&self, inputs: Vec<Rc<GeometryWorld>>) -> (output: Rc<GeometryWorld>) {
        let mut world = start_from(&inputs);
        let ghost start = world;
        proof {
            start.lemma_wf();
            if inputs@.len() >= 1 {
                assert(values(inputs@)[0] == *inputs@[0]);
            }
            assert(start.groups_kept(&start));
        }
        if self.group_name.as_str().unicode_len() == 0 {
            return Rc::new(world);
        }
        match &self.evaluator {
            None => {},
            Some(evaluator) => {
                let members = copy_handles(world.get_all_points());
                let mut answers: Vec<bool> = Vec::new();
                let mut current: usize = 0;
                let length = members.len();
                proof {
                    assert(start.group_linked(start.all_group()));
                }
                while current < length
                    invariant
                        current <= length,
                        length == members@.len(),
                        world == start,
                        world.wf(),
                        members@ == start.group(start.all_group()).points@,
                        start.group_linked(start.all_group()),
                        answers@.len() == current,
                    decreases length - current,
                {
                    let handle = members[current];
                    assert(start.has_point(members@[current as int]));
                    let answer = match world.get_point(&handle) {
                        Ok(point) => evaluator.eval(
                            self.py_condition.as_str(),
                            current + 1,
                            point.position.0,
                            point.position.1,
                        ),
                        Err(_) => false,
                    };
                    answers.push(answer);
                    current += 1;
                }
                let group = group_selected(&mut world, self.group_name.as_str(), &answers);
                proof {
                    if inputs@.len() >= 1 {
                        let input = values(inputs@)[0];
                        assert(forall|p: PointHandle| input.has_point(p) == start.has_point(p));
                        assert(forall|g: GroupHandle| input.has_group(g) == start.has_group(g));
                        assert(grouped(&input, &world, self.spec_group_name(), answers@));
                    }
                    start.groups().lemma_insert_frame(world.group(group));
                    assert(start.groups_kept(&world)) by {
                        assert forall|g: GroupHandle| #[trigger] start.has_group(g) implies world.has_group(
                            g,
                        ) && world.group(g).name@ == start.group(g).name@ by {
                            assert(g.index != group.index);
                        }
                    }
                }
            },
        }
        proof {
            if inputs@.len() >= 1 {
                let input = values(inputs@)[0];
                assert(input.groups_kept(&world)) by {
                    assert forall|g: GroupHandle| #[trigger] input.has_group(g) implies world.has_group(
                        g,
                    ) && world.group(g).name@ == input.group(g).name@ by {
                        assert(start.has_group(g));
                    }
                }
            }
        }
        Rc::new(world)
    }
}

/// The basic processors of a graph of geometry worlds: one of the
/// processors of this module, or one that a user of the library wrote.
pub enum GeometryProcessor {
    Empty(Empty),
    Merge(Merge),
    CreateShapeFromGroup(CreateShapeFromGroup),
    CreateShapeFromAllGroups(CreateShapeFromAllGroups),
    SortPointsX(SortPointsX),
    SortPointsY(SortPointsY),
    GroupPoints(GroupPoints),
    User(UncheckedBasic<GeometryWorld>),
}

/// The subgraph processors of a graph of geometry worlds.
pub enum GeometrySubgraphProcessor {
    InstanceOnPoints(InstanceOnPoints),
    User(UncheckedSubgraph<GeometryWorld>),
}

/// A graph of processors of geometry worlds.
pub type GeometryGraph = Graph<GeometryWorld, GeometryProcessor, GeometrySubgraphProcessor>;

/// A project of graphs of processors of geometry worlds.
pub type GeometryProject = HardeenProject<
    GeometryWorld,
    GeometryProcessor,
    GeometrySubgraphProcessor,
>;

impl CheckedProcessor<GeometryWorld> for GeometryProcessor {
    open spec fn lawful(&self) -> bool {
        match self {
            GeometryProcessor::Empty(processor) => processor.lawful(),
            GeometryProcessor::Merge(processor) => processor.lawful(),
            GeometryProcessor::CreateShapeFromGroup(processor) => processor.lawful(),
            GeometryProcessor::CreateShapeFromAllGroups(processor) => processor.lawful(),
            GeometryProcessor::SortPointsX(processor) => processor.lawful(),
            GeometryProcessor::SortPointsY(processor) => processor.lawful(),
            GeometryProcessor::GroupPoints(processor) => processor.lawful(),
            GeometryProcessor::User(processor) => processor.lawful(),
        }
    }

    open spec fn spec_name(&self) -> Seq<char> {
        match self {
            GeometryProcessor::Empty(processor) => processor.spec_name(),
            GeometryProcessor::Merge(processor) => processor.spec_name(),
            GeometryProcessor::CreateShapeFromGroup(processor) => processor.spec_name(),
            GeometryProcessor::CreateShapeFromAllGroups(processor) => processor.spec_name(),
            GeometryProcessor::SortPointsX(processor) => processor.spec_name(),
            GeometryProcessor::SortPointsY(processor) => processor.spec_name(),
            GeometryProcessor::GroupPoints(processor) => processor.spec_name(),
            GeometryProcessor::User(processor) => processor.spec_name(),
        }
    }

    open spec fn spec_number_inputs(&self) -> nat {
        match self {
            GeometryProcessor::Empty(processor) => processor.spec_number_inputs(),
            GeometryProcessor::Merge(processor) => processor.spec_number_inputs(),
            GeometryProcessor::CreateShapeFromGroup(processor) => processor.spec_number_inputs(),
            GeometryProcessor::CreateShapeFromAllGroups(processor) => processor.spec_number_inputs(),
            GeometryProcessor::SortPointsX(processor) => processor.spec_number_inputs(),
            GeometryProcessor::SortPointsY(processor) => processor.spec_number_inputs(),
            GeometryProcessor::GroupPoints(processor) => processor.spec_number_inputs(),
            GeometryProcessor::User(processor) => processor.spec_number_inputs(),
        }
    }

    open spec fn spec_parameters(&self) -> Seq<(Seq<char>, Seq<char>)> {
        match self {
            GeometryProcessor::Empty(processor) => processor.spec_parameters(),
            GeometryProcessor::Merge(processor) => processor.spec_parameters(),
            GeometryProcessor::CreateShapeFromGroup(processor) => processor.spec_parameters(),
            GeometryProcessor::CreateShapeFromAllGroups(processor) => processor.spec_parameters(),
            GeometryProcessor::SortPointsX(processor) => processor.spec_parameters(),
            GeometryProcessor::SortPointsY(processor) => processor.spec_parameters(),
            GeometryProcessor::GroupPoints(processor) => processor.spec_parameters(),
            GeometryProcessor::User(processor) => processor.spec_parameters(),
        }
    }

    open spec fn has_parameter(&self, name: Seq<char>) -> bool {
        match self {
            GeometryProcessor::Empty(processor) => processor.has_parameter(name),
            GeometryProcessor::Merge(processor) => processor.has_parameter(name),
            GeometryProcessor::CreateShapeFromGroup(processor) => processor.has_parameter(name),
            GeometryProcessor::CreateShapeFromAllGroups(processor) => processor.has_parameter(name),
            GeometryProcessor::SortPointsX(processor) => processor.has_parameter(name),
            GeometryProcessor::SortPointsY(processor) => processor.has_parameter(name),
            GeometryProcessor::GroupPoints(processor) => processor.has_parameter(name),
            GeometryProcessor::User(processor) => processor.has_parameter(name),
        }
    }

    open spec fn spec_input_type(&self) -> ProcessorInputType {
        match self {
            GeometryProcessor::Empty(processor) => processor.spec_input_type(),
            GeometryProcessor::Merge(processor) => processor.spec_input_type(),
            GeometryProcessor::CreateShapeFromGroup(processor) => processor.spec_input_type(),
            GeometryProcessor::CreateShapeFromAllGroups(processor) => processor.spec_input_type(),
            GeometryProcessor::SortPointsX(processor) => processor.spec_input_type(),
            GeometryProcessor::SortPointsY(processor) => processor.spec_input_type(),
            GeometryProcessor::GroupPoints(processor) => processor.spec_input_type(),
            GeometryProcessor::User(processor) => processor.spec_input_type(),
        }
    }

    open spec fn parameter_text(&self, name: Seq<char>) -> Seq<char> {
        match self {
            GeometryProcessor::Empty(processor) => processor.parameter_text(name),
            GeometryProcessor::Merge(processor) => processor.parameter_text(name),
            GeometryProcessor::CreateShapeFromGroup(processor) => processor.parameter_text(name),
            GeometryProcessor::CreateShapeFromAllGroups(processor) => processor.parameter_text(name),
            GeometryProcessor::SortPointsX(processor) => processor.parameter_text(name),
            GeometryProcessor::SortPointsY(processor) => processor.parameter_text(name),
            GeometryProcessor::GroupPoints(processor) => processor.parameter_text(name),
            GeometryProcessor::User(processor) => processor.parameter_text(name),
        }
    }

    open spec fn canonical(&self, name: Seq<char>, value: Seq<char>) -> Option<Seq<char>> {
        match self {
            GeometryProcessor::Empty(processor) => processor.canonical(name, value),
            GeometryProcessor::Merge(processor) => processor.canonical(name, value),
            GeometryProcessor::CreateShapeFromGroup(processor) => processor.canonical(name, value),
            GeometryProcessor::CreateShapeFromAllGroups(processor) => processor.canonical(name, value),
            GeometryProcessor::SortPointsX(processor) => processor.canonical(name, value),
            GeometryProcessor::SortPointsY(processor) => processor.canonical(name, value),
            GeometryProcessor::GroupPoints(processor) => processor.canonical(name, value),
            GeometryProcessor::User(processor) => processor.canonical(name, value),
        }
    }

    fn number_inputs(&self) -> (number: usize) {
        match self {
            GeometryProcessor::Empty(processor) => processor.number_inputs(),
            GeometryProcessor::Merge(processor) => processor.number_inputs(),
            GeometryProcessor::CreateShapeFromGroup(processor) => processor.number_inputs(),
            GeometryProcessor::CreateShapeFromAllGroups(processor) => processor.number_inputs(),
            GeometryProcessor::SortPointsX(processor) => processor.number_inputs(),
            GeometryProcessor::SortPointsY(processor) => processor.number_inputs(),
            GeometryProcessor::GroupPoints(processor) => processor.number_inputs(),
            GeometryProcessor::User(processor) => processor.number_inputs(),
        }
    }

    fn input_type(&self) -> (input_type: ProcessorInputType) {
        match self {
            GeometryProcessor::Empty(processor) => processor.input_type(),
            GeometryProcessor::Merge(processor) => processor.input_type(),
            GeometryProcessor::CreateShapeFromGroup(processor) => processor.input_type(),
            GeometryProcessor::CreateShapeFromAllGroups(processor) => processor.input_type(),
            GeometryProcessor::SortPointsX(processor) => processor.input_type(),
            GeometryProcessor::SortPointsY(processor) => processor.input_type(),
            GeometryProcessor::GroupPoints(processor) => processor.input_type(),
            GeometryProcessor::User(processor) => processor.input_type(),
        }
    }

    fn set_parameter(&mut self, param: &str, value: &str) -> (result: Result<(), HardeenError>) {
        match self {
            GeometryProcessor::Empty(processor) => processor.set_parameter(param, value),
            GeometryProcessor::Merge(processor) => processor.set_parameter(param, value),
            GeometryProcessor::CreateShapeFromGroup(processor) => processor.set_parameter(param, value),
            GeometryProcessor::CreateShapeFromAllGroups(processor) => processor.set_parameter(param, value),
            GeometryProcessor::SortPointsX(processor) => processor.set_parameter(param, value),
            GeometryProcessor::SortPointsY(processor) => processor.set_parameter(param, value),
            GeometryProcessor::GroupPoints(processor) => processor.set_parameter(param, value),
            GeometryProcessor::User(processor) => processor.set_parameter(param, value),
        }
    }

    fn get_parameter(&self, param: &str) -> (result: Result<String, HardeenError>) {
        match self {
            GeometryProcessor::Empty(processor) => processor.get_parameter(param),
            GeometryProcessor::Merge(processor) => processor.get_parameter(param),
            GeometryProcessor::CreateShapeFromGroup(processor) => processor.get_parameter(param),
            GeometryProcessor::CreateShapeFromAllGroups(processor) => processor.get_parameter(param),
            GeometryProcessor::SortPointsX(processor) => processor.get_parameter(param),
            GeometryProcessor::SortPointsY(processor) => processor.get_parameter(param),
            GeometryProcessor::GroupPoints(processor) => processor.get_parameter(param),
            GeometryProcessor::User(processor) => processor.get_parameter(param),
        }
    }

    fn get_parameters(&self) -> (parameters: Vec<ProcessorParameter>) {
        match self {
            GeometryProcessor::Empty(processor) => processor.get_parameters(),
            GeometryProcessor::Merge(processor) => processor.get_parameters(),
            GeometryProcessor::CreateShapeFromGroup(processor) => processor.get_parameters(),
            GeometryProcessor::CreateShapeFromAllGroups(processor) => processor.get_parameters(),
            GeometryProcessor::SortPointsX(processor) => processor.get_parameters(),
            GeometryProcessor::SortPointsY(processor) => processor.get_parameters(),
            GeometryProcessor::GroupPoints(processor) => processor.get_parameters(),
            GeometryProcessor::User(processor) => processor.get_parameters(),
        }
    }

    fn is_parameter(&self, param: &str) -> (known: bool) {
        match self {
            GeometryProcessor::Empty(processor) => processor.is_parameter(param),
            GeometryProcessor::Merge(processor) => processor.is_parameter(param),
            GeometryProcessor::CreateShapeFromGroup(processor) => processor.is_parameter(param),
            GeometryProcessor::CreateShapeFromAllGroups(processor) => processor.is_parameter(param),
            GeometryProcessor::SortPointsX(processor) => processor.is_parameter(param),
            GeometryProcessor::SortPointsY(processor) => processor.is_parameter(param),
            GeometryProcessor::GroupPoints(processor) => processor.is_parameter(param),
            GeometryProcessor::User(processor) => processor.is_parameter(param),
        }
    }

    fn get_processor_name(&self) -> (name: &'static str) {
        match self {
            GeometryProcessor::Empty(processor) => processor.get_processor_name(),
            GeometryProcessor::Merge(processor) => processor.get_processor_name(),
            GeometryProcessor::CreateShapeFromGroup(processor) => processor.get_processor_name(),
            GeometryProcessor::CreateShapeFromAllGroups(processor) => processor.get_processor_name(),
            GeometryProcessor::SortPointsX(processor) => processor.get_processor_name(),
            GeometryProcessor::SortPointsY(processor) => processor.get_processor_name(),
            GeometryProcessor::GroupPoints(processor) => processor.get_processor_name(),
            GeometryProcessor::User(processor) => processor.get_processor_name(),
        }
    }
}

impl CheckedBasicProcessor<GeometryWorld> for GeometryProcessor {
    open spec fn produces(&self, inputs: Seq<GeometryWorld>, output: GeometryWorld) -> bool {
        match self {
            GeometryProcessor::Empty(processor) => processor.produces(inputs, output),
            GeometryProcessor::Merge(processor) => processor.produces(inputs, output),
            GeometryProcessor::CreateShapeFromGroup(processor) => processor.produces(inputs, output),
            GeometryProcessor::CreateShapeFromAllGroups(processor) => processor.produces(inputs, output),
            GeometryProcessor::SortPointsX(processor) => processor.produces(inputs, output),
            GeometryProcessor::SortPointsY(processor) => processor.produces(inputs, output),
            GeometryProcessor::GroupPoints(processor) => processor.produces(inputs, output),
            GeometryProcessor::User(processor) => processor.produces(inputs, output),
        }
    }

    fn run(&self, inputs: Vec<Rc<GeometryWorld>>) -> (output: Rc<GeometryWorld>) {
        match self {
            GeometryProcessor::Empty(processor) => processor.run(inputs),
            GeometryProcessor::Merge(processor) => processor.run(inputs),
            GeometryProcessor::CreateShapeFromGroup(processor) => processor.run(inputs),
            GeometryProcessor::CreateShapeFromAllGroups(processor) => processor.run(inputs),
            GeometryProcessor::SortPointsX(processor) => processor.run(inputs),
            GeometryProcessor::SortPointsY(processor) => processor.run(inputs),
            GeometryProcessor::GroupPoints(processor) => processor.run(inputs),
            GeometryProcessor::User(processor) => processor.run(inputs),
        }
    }
}

impl CheckedProcessor<GeometryWorld> for GeometrySubgraphProcessor {
    open spec fn lawful(&self) -> bool {
        match self {
            GeometrySubgraphProcessor::InstanceOnPoints(processor) => processor.lawful(),
            GeometrySubgraphProcessor::User(processor) => processor.lawful(),
        }
    }

    open spec fn spec_name(&self) -> Seq<char> {
        match self {
            GeometrySubgraphProcessor::InstanceOnPoints(processor) => processor.spec_name(),
            GeometrySubgraphProcessor::User(processor) => processor.spec_name(),
        }
    }

    open spec fn spec_number_inputs(&self) -> nat {
        match self {
            GeometrySubgraphProcessor::InstanceOnPoints(processor) => processor.spec_number_inputs(),
            GeometrySubgraphProcessor::User(processor) => processor.spec_number_inputs(),
        }
    }

    open spec fn spec_parameters(&self) -> Seq<(Seq<char>, Seq<char>)> {
        match self {
            GeometrySubgraphProcessor::InstanceOnPoints(processor) => processor.spec_parameters(),
            GeometrySubgraphProcessor::User(processor) => processor.spec_parameters(),
        }
    }

    open spec fn has_parameter(&self, name: Seq<char>) -> bool {
        match self {
            GeometrySubgraphProcessor::InstanceOnPoints(processor) => processor.has_parameter(name),
            GeometrySubgraphProcessor::User(processor) => processor.has_parameter(name),
        }
    }

    open spec fn spec_input_type(&self) -> ProcessorInputType {
        match self {
            GeometrySubgraphProcessor::InstanceOnPoints(processor) => processor.spec_input_type(),
            GeometrySubgraphProcessor::User(processor) => processor.spec_input_type(),
        }
    }

    open spec fn parameter_text(&self, name: Seq<char>) -> Seq<char> {
        match self {
            GeometrySubgraphProcessor::InstanceOnPoints(processor) => processor.parameter_text(name),
            GeometrySubgraphProcessor::User(processor) => processor.parameter_text(name),
        }
    }

    open spec fn canonical(&self, name: Seq<char>, value: Seq<char>) -> Option<Seq<char>> {
        match self {
            GeometrySubgraphProcessor::InstanceOnPoints(processor) => processor.canonical(name, value),
            GeometrySubgraphProcessor::User(processor) => processor.canonical(name, value),
        }
    }

    fn number_inputs(&self) -> (number: usize) {
        match self {
            GeometrySubgraphProcessor::InstanceOnPoints(processor) => processor.number_inputs(),
            GeometrySubgraphProcessor::User(processor) => processor.number_inputs(),
        }
    }

    fn input_type(&self) -> (input_type: ProcessorInputType) {
        match self {
            GeometrySubgraphProcessor::InstanceOnPoints(processor) => processor.input_type(),
            GeometrySubgraphProcessor::User(processor) => processor.input_type(),
        }
    }

    fn set_parameter(&mut self, param: &str, value: &str) -> (result: Result<(), HardeenError>) {
        match self {
            GeometrySubgraphProcessor::InstanceOnPoints(processor) => processor.set_parameter(param, value),
            GeometrySubgraphProcessor::User(processor) => processor.set_parameter(param, value),
        }
    }

    fn get_parameter(&self, param: &str) -> (result: Result<String, HardeenError>) {
        match self {
            GeometrySubgraphProcessor::InstanceOnPoints(processor) => processor.get_parameter(param),
            GeometrySubgraphProcessor::User(processor) => processor.get_parameter(param),
        }
    }

    fn get_parameters(&self) -> (parameters: Vec<ProcessorParameter>) {
        match self {
            GeometrySubgraphProcessor::InstanceOnPoints(processor) => processor.get_parameters(),
            GeometrySubgraphProcessor::User(processor) => processor.get_parameters(),
        }
    }

    fn is_parameter(&self, param: &str) -> (known: bool) {
        match self {
            GeometrySubgraphProcessor::InstanceOnPoints(processor) => processor.is_parameter(param),
            GeometrySubgraphProcessor::User(processor) => processor.is_parameter(param),
        }
    }

    fn get_processor_name(&self) -> (name: &'static str) {
        match self {
            GeometrySubgraphProcessor::InstanceOnPoints(processor) => processor.get_processor_name(),
            GeometrySubgraphProcessor::User(processor) => processor.get_processor_name(),
        }
    }
}

impl CheckedSubgraphProcessor<GeometryWorld> for GeometrySubgraphProcessor {
    open spec fn spec_subgraph_runs(&self, inputs: Seq<GeometryWorld>) -> nat {
        match self {
            GeometrySubgraphProcessor::InstanceOnPoints(processor) => processor.spec_subgraph_runs(inputs),
            GeometrySubgraphProcessor::User(processor) => processor.spec_subgraph_runs(inputs),
        }
    }

    open spec fn produces(
        &self,
        inputs: Seq<GeometryWorld>,
        subgraph_outputs: Seq<GeometryWorld>,
        output: GeometryWorld,
    ) -> bool {
        match self {
            GeometrySubgraphProcessor::InstanceOnPoints(processor) => processor.produces(inputs, subgraph_outputs, output),
            GeometrySubgraphProcessor::User(processor) => processor.produces(inputs, subgraph_outputs, output),
        }
    }

    fn subgraph_runs(&self, inputs: &Vec<Rc<GeometryWorld>>) -> (runs: usize) {
        match self {
            GeometrySubgraphProcessor::InstanceOnPoints(processor) => processor.subgraph_runs(inputs),
            GeometrySubgraphProcessor::User(processor) => processor.subgraph_runs(inputs),
        }
    }

    fn run(&self, inputs: Vec<Rc<GeometryWorld>>, subgraph_outputs: Vec<Rc<GeometryWorld>>) -> (output: Rc<GeometryWorld>) {
        match self {
            GeometrySubgraphProcessor::InstanceOnPoints(processor) => processor.run(inputs, subgraph_outputs),
            GeometrySubgraphProcessor::User(processor) => processor.run(inputs, subgraph_outputs),
        }
    }
}

/// The processor that a node of a type starts with, for the types whose
/// processors work on the links of a world alone.
pub open spec fn starts_as(name: Seq<char>, processor: GeometryProcessor) -> bool {
    if name == "Empty"@ {
        processor is Empty
    } else if name == "Merge"@ {
        processor is Merge
    } else if name == "SortPointsX"@ {
        processor is SortPointsX
    } else if name == "SortPointsY"@ {
        processor is SortPointsY
    } else if name == "CreateShapeFromGroup"@ {
        processor matches GeometryProcessor::CreateShapeFromGroup(made) && made.spec_group_name()
            == "all"@ && !made.spec_closed()
    } else if name == "CreateShapeFromAllGroups"@ {
        processor matches GeometryProcessor::CreateShapeFromAllGroups(made) && !made.spec_closed()
    } else if name == "GroupPoints"@ {
        processor matches GeometryProcessor::GroupPoints(made) && made.spec_group_name() == ""@
            && made.spec_condition() == "False"@
    } else {
        false
    }
}

/// The names of the processor types that `add_processor_node_by_type`
/// builds.
pub open spec fn builds(name: Seq<char>) -> bool {
    name == "Empty"@ || name == "Merge"@ || name == "SortPointsX"@ || name == "SortPointsY"@
        || name == "CreateShapeFromGroup"@ || name == "CreateShapeFromAllGroups"@ || name
        == "GroupPoints"@
}

/// The names of the processor types that compute with coordinates: a
/// processor of such a type is the host's.
pub open spec fn hosted(name: Seq<char>) -> bool {
    name == "CreateRectangle"@ || name == "ScatterPoints"@ || name == "Scale"@ || name
        == "RandomTangents"@ || name == "SmoothTangents"@ || name == "AddPoints"@ || name
        == "CopyPointsAndOffset"@ || name == "Translate"@ || name == "RandomTranslate"@ || name
        == "CopyPointsAndRandomOffset"@ || name == "ExtrudeShape"@
}

/// The names of all processor types.
pub open spec fn known(name: Seq<char>) -> bool {
    builds(name) || name == "InstanceOnPoints"@ || hosted(name)
}

/// Where the processors of a type come from.
pub enum TypeKind {
    /// A basic processor of the library.
    Library,
    /// The library's subgraph processor.
    Nested,
    /// A processor of the host.
    Hosted,
    /// No processor type.
    Unknown,
}

/// Where the processors of the type of a name come from.
pub open spec fn type_kind(name: Seq<char>) -> TypeKind {
    if builds(name) {
        TypeKind::Library
    } else if name == "InstanceOnPoints"@ {
        TypeKind::Nested
    } else if hosted(name) {
        TypeKind::Hosted
    } else {
        TypeKind::Unknown
    }
}

/// Where the processors of each processor type come from: seven types are
/// basic processors of the library, one is its subgraph processor, and
/// eleven are the host's. A processor that a type of the library starts
/// as is of that type.
pub proof fn lemma_type_kinds()
    ensures
        type_kind("Empty"@) is Library,
        type_kind("Merge"@) is Library,
        type_kind("SortPointsX"@) is Library,
        type_kind("SortPointsY"@) is Library,
        type_kind("CreateShapeFromGroup"@) is Library,
        type_kind("CreateShapeFromAllGroups"@) is Library,
        type_kind("GroupPoints"@) is Library,
        type_kind("InstanceOnPoints"@) is Nested,
        type_kind("CreateRectangle"@) is Hosted,
        type_kind("ScatterPoints"@) is Hosted,
        type_kind("Scale"@) is Hosted,
        type_kind("RandomTangents"@) is Hosted,
        type_kind("SmoothTangents"@) is Hosted,
        type_kind("AddPoints"@) is Hosted,
        type_kind("CopyPointsAndOffset"@) is Hosted,
        type_kind("Translate"@) is Hosted,
        type_kind("RandomTranslate"@) is Hosted,
        type_kind("CopyPointsAndRandomOffset"@) is Hosted,
        type_kind("ExtrudeShape"@) is Hosted,
        forall|made: GeometryProcessor| #[trigger] starts_as("Empty"@, made) ==> made is Empty,
        forall|made: GeometryProcessor| #[trigger] starts_as("Merge"@, made) ==> made is Merge,
        forall|made: GeometryProcessor| #[trigger] starts_as("SortPointsX"@, made) ==> made is SortPointsX,
        forall|made: GeometryProcessor| #[trigger] starts_as("SortPointsY"@, made) ==> made is SortPointsY,
        forall|made: GeometryProcessor| #[trigger] starts_as("CreateShapeFromGroup"@, made) ==> made is CreateShapeFromGroup,
        forall|made: GeometryProcessor| #[trigger]
            starts_as("CreateShapeFromAllGroups"@, made) ==> made is CreateShapeFromAllGroups,
        forall|made: GeometryProcessor| #[trigger] starts_as("GroupPoints"@, made) ==> made is GroupPoints,
{
    reveal_strlit("Empty");
    reveal_strlit("Merge");
    reveal_strlit("SortPointsX");
    reveal_strlit("SortPointsY");
    reveal_strlit("CreateShapeFromGroup");
    reveal_strlit("CreateShapeFromAllGroups");
    reveal_strlit("GroupPoints");
    reveal_strlit("InstanceOnPoints");
    reveal_strlit("CreateRectangle");
    reveal_strlit("ScatterPoints");
    reveal_strlit("Scale");
    reveal_strlit("RandomTangents");
    reveal_strlit("SmoothTangents");
    reveal_strlit("AddPoints");
    reveal_strlit("CopyPointsAndOffset");
    reveal_strlit("Translate");
    reveal_strlit("RandomTranslate");
    reveal_strlit("CopyPointsAndRandomOffset");
    reveal_strlit("ExtrudeShape");
    assert("Empty"@.len() == 5);
    assert("Merge"@.len() == 5);
    assert("SortPointsX"@.len() == 11);
    assert("SortPointsY"@.len() == 11);
    assert("CreateShapeFromGroup"@.len() == 20);
    assert("CreateShapeFromAllGroups"@.len() == 24);
    assert("GroupPoints"@.len() == 11);
    assert("InstanceOnPoints"@.len() == 16);
    assert("CreateRectangle"@.len() == 15);
    assert("ScatterPoints"@.len() == 13);
    assert("Scale"@.len() == 5);
    assert("RandomTangents"@.len() == 14);
    assert("SmoothTangents"@.len() == 14);
    assert("AddPoints"@.len() == 9);
    assert("CopyPointsAndOffset"@.len() == 19);
    assert("Translate"@.len() == 9);
    assert("RandomTranslate"@.len() == 15);
    assert("CopyPointsAndRandomOffset"@.len() == 25);
    assert("ExtrudeShape"@.len() == 12);
    assert("Empty"@[0] != "Merge"@[0]);
    assert("Empty"@[0] != "Scale"@[0]);
    assert("Merge"@[0] != "Scale"@[0]);
    assert("SortPointsX"@[10] != "SortPointsY"@[10]);
    assert("SortPointsX"@[0] != "GroupPoints"@[0]);
    assert("SortPointsY"@[0] != "GroupPoints"@[0]);
    assert("CreateRectangle"@[0] != "RandomTranslate"@[0]);
    assert("RandomTangents"@[0] != "SmoothTangents"@[0]);
    assert("AddPoints"@[0] != "Translate"@[0]);
}

/// What moves a position by an offset, as a host hands it over.
pub struct Shifting(pub Box<dyn PositionShift>);

/// What a host supplies for the processor types: its processors for the
/// types that compute with coordinates, what moves a position by an
/// offset, and what decides the conditions of `GroupPoints`, if it has
/// that.
pub trait ProcessorHost {
    /// A new processor of a type, with the parameters that such a
    /// processor starts with; nothing where the host has none of the type.
    fn processor(&self, processor_type: &str) -> Option<Box<dyn BasicProcessor<GeometryWorld>>>;

    /// What moves a position by an offset.
    fn shift(&self) -> Shifting;

    fn evaluator(&self) -> Option<Box<dyn PredicateEvaluator>>;
}

/// A graph has one node more: a node without edges that has cached
/// nothing, in the next free slot. The output node and the exposed
/// parameters are what they were.
pub open spec fn node_added(
    before: &GeometryGraph,
    after: &GeometryGraph,
    handle: NodeHandle<GeometryWorld>,
) -> bool {
    &&& crate::handled_vec::parts(handle) == before.nodes().next_handle()
    &&& after.nodes() == before.nodes().insert(after.node(handle))
    &&& after.has_node(handle)
    &&& !before.has_node(handle)
    &&& after.node(handle).inputs() == Seq::<NodeHandle<GeometryWorld>>::empty()
    &&& after.node(handle).outputs() == Seq::<NodeHandle<GeometryWorld>>::empty()
    &&& after.node(handle).cached() is None
    &&& after.output() == before.output()
    &&& after.exposed() == before.exposed()
}

/// A graph has one subgraph more: an empty graph in the next free slot,
/// which the node works with.
pub open spec fn subgraph_added(
    before: &GeometryGraph,
    after: &GeometryGraph,
    handle: NodeHandle<GeometryWorld>,
) -> bool {
    let subgraph = after.node(handle).subgraph_handle();
    &&& after.node(handle).has_subgraph()
    &&& crate::handled_vec::parts(subgraph) == before.subgraphs().next_handle()
    &&& after.subgraphs() == before.subgraphs().insert(after.subgraph(subgraph))
    &&& after.has_subgraph(subgraph)
    &&& after.subgraph(subgraph).nodes() == Arena::<
        Node<GeometryWorld, GeometryProcessor, GeometrySubgraphProcessor>,
    >::empty()
    &&& after.subgraph(subgraph).output() is None
}

impl Graph<GeometryWorld, GeometryProcessor, GeometrySubgraphProcessor> {
    /// Adds a node with a processor that a user of the library wrote.
    /// Nothing is specified of such a processor but that its outputs are
    /// valid.
    pub fn add_processor_node(&mut self, processor: Box<dyn BasicProcessor<GeometryWorld>>) -> (handle:
        NodeHandle<GeometryWorld>)
        requires
            old(self).wf(),
        ensures
            final(self).wf(),
            old(self).caches_valid() ==> final(self).caches_valid(),
            crate::handled_vec::parts(handle) == old(self).nodes().next_handle(),
            final(self).nodes() == old(self).nodes().insert(final(self).node(handle)),
            final(self).has_node(handle),
            !old(self).has_node(handle),
            final(self).node(handle).processor() matches ProcessorComponent::BasicProcessor(
                GeometryProcessor::User(_),
            ),
            final(self).node(handle).inputs() == Seq::<NodeHandle<GeometryWorld>>::empty(),
            final(self).node(handle).outputs() == Seq::<NodeHandle<GeometryWorld>>::empty(),
            final(self).node(handle).cached() is None,
            final(self).subgraphs() == old(self).subgraphs(),
            final(self).output() == old(self).output(),
            final(self).exposed() == old(self).exposed(),
    {
        self.add_checked_processor_node(GeometryProcessor::User(UncheckedBasic { processor }))
    }

    /// Adds a node with a subgraph processor that a user of the library
    /// wrote, and an empty graph for the processor to work with.
    pub fn add_subgraph_processor_node(
        &mut self,
        processor: Box<dyn SubgraphProcessor<GeometryWorld>>,
    ) -> (handle: NodeHandle<GeometryWorld>)
        requires
            old(self).wf(),
        ensures
            final(self).wf(),
            old(self).caches_valid() ==> final(self).caches_valid(),
            crate::handled_vec::parts(handle) == old(self).nodes().next_handle(),
            final(self).nodes() == old(self).nodes().insert(final(self).node(handle)),
            final(self).has_node(handle),
            !old(self).has_node(handle),
            final(self).node(handle).processor() matches ProcessorComponent::SubgraphProcessor(
                GeometrySubgraphProcessor::User(_),
                _,
            ),
            final(self).node(handle).inputs() == Seq::<NodeHandle<GeometryWorld>>::empty(),
            final(self).node(handle).outputs() == Seq::<NodeHandle<GeometryWorld>>::empty(),
            final(self).node(handle).cached() is None,
            crate::handled_vec::parts(final(self).node(handle).subgraph_handle()) == old(
                self,
            ).subgraphs().next_handle(),
            final(self).has_subgraph(final(self).node(handle).subgraph_handle()),
            final(self).subgraph(final(self).node(handle).subgraph_handle()).nodes() == Arena::<
                Node<GeometryWorld, GeometryProcessor, GeometrySubgraphProcessor>,
            >::empty(),
            final(self).subgraph(final(self).node(handle).subgraph_handle()).output() is None,
            final(self).output() == old(self).output(),
            final(self).exposed() == old(self).exposed(),
    {
        self.add_checked_subgraph_processor_node(
            GeometrySubgraphProcessor::User(UncheckedSubgraph { processor }),
        )
    }

    /// Adds a node with the processor that a host made, if it made one.
    pub fn add_host_processor_node(
        &mut self,
        made: Option<Box<dyn BasicProcessor<GeometryWorld>>>,
    ) -> (result: Result<NodeHandle<GeometryWorld>, HardeenError>)
        requires
            old(self).wf(),
        ensures
            final(self).wf(),
            old(self).caches_valid() ==> final(self).caches_valid(),
            made is None ==> result == Err::<NodeHandle<GeometryWorld>, _>(
                HardeenError::NodeTypeInvalid,
            ) && *final(self) == *old(self),
            made is Some ==> {
                &&& result is Ok
                &&& node_added(&*old(self), final(self), result->Ok_0)
                &&& final(self).node(result->Ok_0).processor() matches ProcessorComponent::BasicProcessor(
                    GeometryProcessor::User(_),
                )
                &&& final(self).subgraphs() == old(self).subgraphs()
            },
    {
        match made {
            Some(processor) => Ok(self.add_processor_node(processor)),
            None => Err(HardeenError::NodeTypeInvalid),
        }
    }

    /// Adds a node with a new processor of a type, by the name of the type,
    /// with the parameters that such a processor starts with. A name that
    /// is no name of a processor type adds nothing. For a type that
    /// computes with coordinates the processor is the host's, and nothing
    /// is added where the host has none of that type; the other types are
    /// the library's, and `InstanceOnPoints` comes with an empty graph to
    /// work with.
    pub fn add_processor_node_by_type<H: ProcessorHost>(
        &mut self,
        processor_type: &str,
        host: &H,
    ) -> (result: Result<NodeHandle<GeometryWorld>, HardeenError>)
        requires
            old(self).wf(),
        ensures
            final(self).wf(),
            old(self).caches_valid() ==> final(self).caches_valid(),
            result matches Err(error) ==> error == HardeenError::NodeTypeInvalid && *final(self)
                == *old(self),
            type_kind(processor_type@) is Unknown ==> result is Err,
            type_kind(processor_type@) is Library || type_kind(processor_type@) is Nested
                ==> result is Ok,
            result matches Ok(handle) ==> node_added(&*old(self), final(self), handle) && match type_kind(
                processor_type@,
            ) {
                TypeKind::Library => {
                    &&& final(self).node(handle).processor() matches ProcessorComponent::BasicProcessor(
                        made,
                    ) && starts_as(processor_type@, made) && final(self).node(
                        handle,
                    ).starts_with(made.spec_input_type())
                    &&& final(self).node(handle).lawful()
                    &&& final(self).node(handle).name() == processor_type@
                    &&& final(self).subgraphs() == old(self).subgraphs()
                },
                TypeKind::Nested => {
                    &&& final(self).node(handle).processor() matches ProcessorComponent::SubgraphProcessor(
                        GeometrySubgraphProcessor::InstanceOnPoints(made),
                        _,
                    ) && made.spec_group_name() == "all"@
                    &&& final(self).node(handle).lawful()
                    &&& final(self).node(handle).name() == processor_type@
                    &&& final(self).node(handle).starts_with(
                        ProcessorInputType::Slotted { number_of_slots: 1 },
                    )
                    &&& subgraph_added(&*old(self), final(self), handle)
                },
                TypeKind::Hosted => {
                    &&& final(self).node(handle).processor() matches ProcessorComponent::BasicProcessor(
                        GeometryProcessor::User(_),
                    )
                    &&& final(self).subgraphs() == old(self).subgraphs()
                },
                TypeKind::Unknown => false,
            },
    {
        if same_text(processor_type, "Empty") {
            Ok(self.add_checked_processor_node(GeometryProcessor::Empty(Empty::new())))
        } else if same_text(processor_type, "Merge") {
            Ok(self.add_checked_processor_node(GeometryProcessor::Merge(Merge::new())))
        } else if same_text(processor_type, "SortPointsX") {
            Ok(self.add_checked_processor_node(GeometryProcessor::SortPointsX(SortPointsX::new())))
        } else if same_text(processor_type, "SortPointsY") {
            Ok(self.add_checked_processor_node(GeometryProcessor::SortPointsY(SortPointsY::new())))
        } else if same_text(processor_type, "CreateShapeFromGroup") {
            Ok(
                self.add_checked_processor_node(
                    GeometryProcessor::CreateShapeFromGroup(CreateShapeFromGroup::new()),
                ),
            )
        } else if same_text(processor_type, "CreateShapeFromAllGroups") {
            Ok(
                self.add_checked_processor_node(
                    GeometryProcessor::CreateShapeFromAllGroups(CreateShapeFromAllGroups::new()),
                ),
            )
        } else if same_text(processor_type, "GroupPoints") {
            let processor = match host.evaluator() {
                Some(evaluator) => GroupPoints::with_evaluator(evaluator),
                None => GroupPoints::new(),
            };
            Ok(self.add_checked_processor_node(GeometryProcessor::GroupPoints(processor)))
        } else if same_text(processor_type, "InstanceOnPoints") {
            Ok(
                self.add_checked_subgraph_processor_node(
                    GeometrySubgraphProcessor::InstanceOnPoints(InstanceOnPoints::new(host.shift().0)),
                ),
            )
        } else if same_text(processor_type, "CreateRectangle") || same_text(
            processor_type,
            "ScatterPoints",
        ) || same_text(processor_type, "Scale") || same_text(processor_type, "RandomTangents")
            || same_text(processor_type, "SmoothTangents") || same_text(processor_type, "AddPoints")
            || same_text(processor_type, "CopyPointsAndOffset") || same_text(
            processor_type,
            "Translate",
        ) || same_text(processor_type, "RandomTranslate") || same_text(
            processor_type,
            "CopyPointsAndRandomOffset",
        ) || same_text(processor_type, "ExtrudeShape") {
            let made = host.processor(processor_type);
            self.add_host_processor_node(made)
        } else {
            Err(HardeenError::NodeTypeInvalid)
        }
    }
}


/// What moves a position by an offset.
pub trait PositionShift {
    fn shifted(&self, position: Position, by: Position) -> Position;
}

/// The number of points of the worlds together.
pub open spec fn total_points(worlds: Seq<GeometryWorld>) -> nat
    decreases worlds.len(),
{
    if worlds.len() == 0 {
        0
    } else {
        total_points(worlds.drop_last()) + worlds.last().points().count()
    }
}

/// The number of shapes of the worlds together.
pub open spec fn total_shapes(worlds: Seq<GeometryWorld>) -> nat
    decreases worlds.len(),
{
    if worlds.len() == 0 {
        0
    } else {
        total_shapes(worlds.drop_last()) + worlds.last().shapes().count()
    }
}

/// Moves every point of a world by an offset.
fn shift_points(world: &mut GeometryWorld, shift: &Box<dyn PositionShift>, by: Position)
    requires
        old(world).wf(),
    ensures
        final(world).wf(),
        old(world).all_exact() ==> final(world).all_exact(),
        final(world).all_group() == old(world).all_group(),
        final(world).groups() == old(world).groups(),
        final(world).shapes() == old(world).shapes(),
        final(world).points().same_layout(old(world).points()),
        forall|p: PointHandle| #[trigger]
            old(world).has_point(p) ==> {
                &&& final(world).point(p).in_tangent == old(world).point(p).in_tangent
                &&& final(world).point(p).out_tangent == old(world).point(p).out_tangent
                &&& final(world).point(p).groups@ == old(world).point(p).groups@
                &&& final(world).point(p).shapes@ == old(world).point(p).shapes@
            },
{
    let ghost start = *world;
    let length = world.get_point_count();
    let mut current: usize = 0;
    while current < length
        invariant
            current <= length,
            length == start.points().slots.len(),
            start.wf(),
            world.wf(),
            start.all_exact() ==> world.all_exact(),
            world.all_group() == start.all_group(),
            world.groups() == start.groups(),
            world.shapes() == start.shapes(),
            world.points().same_layout(start.points()),
            forall|p: PointHandle| #[trigger]
                start.has_point(p) ==> {
                    &&& world.point(p).in_tangent == start.point(p).in_tangent
                    &&& world.point(p).out_tangent == start.point(p).out_tangent
                    &&& world.point(p).groups@ == start.point(p).groups@
                    &&& world.point(p).shapes@ == start.point(p).shapes@
                },
        decreases length - current,
    {
        let ghost previous = *world;
        let handle = world.get_point_handle_from_index(current);
        let mut moved: Option<Point> = None;
        if let Ok(point) = world.get_point(&handle) {
            moved = Some(
                Point::new(
                    shift.shifted(point.position, by),
                    point.in_tangent,
                    point.out_tangent,
                ),
            );
        }
        if let Some(point) = moved {
            let _ = world.set_point(&handle, point);
            proof {
                previous.points().lemma_update_frame(
                    handle.index,
                    handle.generation,
                    world.point(handle),
                );
                assert forall|p: PointHandle| #[trigger] start.has_point(p) implies {
                    &&& world.point(p).in_tangent == start.point(p).in_tangent
                    &&& world.point(p).out_tangent == start.point(p).out_tangent
                    &&& world.point(p).groups@ == start.point(p).groups@
                    &&& world.point(p).shapes@ == start.point(p).shapes@
                } by {
                    assert(previous.has_point(p));
                    if p.index != handle.index {
                        assert(world.points().slots[p.index as int]
                            == previous.points().slots[p.index as int]);
                    }
                }
            }
        }
        current += 1;
    }
}

/// Puts a copy of what its subgraph makes at every point of its input.
pub struct InstanceOnPoints {
    group_name: String,
    shift: Box<dyn PositionShift>,
}

impl InstanceOnPoints {
    pub closed spec fn spec_group_name(&self) -> Seq<char> {
        self.group_name@
    }

    pub fn new(shift: Box<dyn PositionShift>) -> (processor: Self)
        ensures
            processor.spec_group_name() == "all"@,
    {
        InstanceOnPoints { group_name: "all".to_string(), shift }
    }

    pub fn get_processor_type_info() -> (info: ProcessorTypeInfo)
        ensures
            describes(
                info,
                "InstanceOnPoints"@,
                ProcessorInputType::Slotted { number_of_slots: 1 },
                seq![("group_name"@, "String"@)],
            ),
    {
        let pairs: Vec<(&'static str, &'static str)> = vec![("group_name", "String")];
        assert(pair_views(pairs@) =~= seq![("group_name"@, "String"@)]);
        type_info("InstanceOnPoints", ProcessorInputType::Slotted { number_of_slots: 1 }, pairs)
    }
}

impl CheckedProcessor<GeometryWorld> for InstanceOnPoints {
    open spec fn lawful(&self) -> bool {
        true
    }

    open spec fn spec_name(&self) -> Seq<char> {
        "InstanceOnPoints"@
    }

    open spec fn spec_number_inputs(&self) -> nat {
        1
    }

    open spec fn spec_parameters(&self) -> Seq<(Seq<char>, Seq<char>)> {
        seq![("group_name"@, "String"@)]
    }

    open spec fn has_parameter(&self, name: Seq<char>) -> bool {
        name == "group_name"@
    }

    open spec fn spec_input_type(&self) -> ProcessorInputType {
        ProcessorInputType::Slotted { number_of_slots: 1 }
    }

    open spec fn parameter_text(&self, name: Seq<char>) -> Seq<char> {
        if name == "group_name"@ {
            self.spec_group_name()
        } else {
            Seq::empty()
        }
    }

    open spec fn canonical(&self, name: Seq<char>, value: Seq<char>) -> Option<Seq<char>> {
        if name == "group_name"@ {
            Some(value)
        } else {
            None
        }
    }

    fn number_inputs(&self) -> (number: usize) {
        1
    }

    fn input_type(&self) -> (input_type: ProcessorInputType) {
        ProcessorInputType::Slotted { number_of_slots: 1 }
    }

    fn set_parameter(&mut self, param: &str, value: &str) -> (result: Result<(), HardeenError>) {
        if same_text(param, "group_name") {
            self.group_name = value.to_string();
            Ok(())
        } else {
            Err(HardeenError::NodeParameterDoesNotExist)
        }
    }

    fn get_parameter(&self, param: &str) -> (result: Result<String, HardeenError>) {
        if same_text(param, "group_name") {
            Ok(self.group_name.clone())
        } else {
            Err(HardeenError::NodeParameterDoesNotExist)
        }
    }

    fn get_parameters(&self) -> (parameters: Vec<ProcessorParameter>) {
        let pairs: Vec<(&'static str, &'static str)> = vec![("group_name", "String")];
        assert(pair_views(pairs@) =~= self.spec_parameters());
        parameters_of(pairs)
    }

    fn is_parameter(&self, param: &str) -> (known: bool) {
        same_text(param, "group_name")
    }

    fn get_processor_name(&self) -> (name: &'static str) {
        "InstanceOnPoints"
    }
}

/// The world has a shape that is open or closed as `source` is and joins
/// as many points.
pub open spec fn holds_shape(world: &GeometryWorld, source: Shape) -> bool {
    exists|shape: ShapeHandle| #[trigger]
        world.has_shape(shape) && world.shape(shape).closed == source.closed && world.shape(
            shape,
        ).vertices@.len() == source.vertices@.len()
}

/// The world has, for every shape of the first `used` worlds, a shape that
/// is open or closed as that shape is and joins as many points.
pub open spec fn holds_shapes(world: &GeometryWorld, worlds: Seq<GeometryWorld>, used: int) -> bool {
    forall|j: int, shape: ShapeHandle|
        0 <= j < used && #[trigger] worlds[j].has_shape(shape) ==> holds_shape(
            world,
            worlds[j].shape(shape),
        )
}

/// In each of the first `used` worlds no two groups have one name, and the
/// group of all points holds no point twice.
pub open spec fn all_plain(worlds: Seq<GeometryWorld>, used: int) -> bool {
    forall|j: int|
        0 <= j < used ==> (#[trigger] worlds[j]).names_unique() && worlds[j].all_exact()
}

impl CheckedSubgraphProcessor<GeometryWorld> for InstanceOnPoints {
    /// The subgraph is to be run once for every point of the first input.
    open spec fn spec_subgraph_runs(&self, inputs: Seq<GeometryWorld>) -> nat {
        if inputs.len() > 0 {
            inputs[0].points().count()
        } else {
            0
        }
    }

    /// The output holds, for every point of the first input for which there
    /// is an output of the subgraph, the points and shapes of that output:
    /// it has as many points and shapes as those outputs together, and for
    /// each of their shapes a shape that is open or closed as it is and
    /// joins as many points. Where those outputs are plain, as `all_plain`
    /// says, the group of all points holds every point once.
    open spec fn produces(
        &self,
        inputs: Seq<GeometryWorld>,
        subgraph_outputs: Seq<GeometryWorld>,
        output: GeometryWorld,
    ) -> bool {
        &&& output.wf()
        &&& inputs.len() > 0 ==> {
            let used = if subgraph_outputs.len() <= inputs[0].points().count() {
                subgraph_outputs.len() as int
            } else {
                inputs[0].points().count() as int
            };
            &&& output.points().count() == total_points(subgraph_outputs.take(used))
            &&& output.shapes().count() == total_shapes(subgraph_outputs.take(used))
            &&& holds_shapes(&output, subgraph_outputs, used)
            &&& all_plain(subgraph_outputs, used) ==> output.all_exact()
        }
        &&& inputs.len() == 0 ==> output.points().count() == 0 && output.shapes().count() == 0
    }

    fn subgraph_runs(&self, inputs: &Vec<Rc<GeometryWorld>>) -> (runs: usize) {
        if inputs.len() > 0 {
            assert(inputs@[0].valid());
            assert(values(inputs@)[0] == *inputs@[0]);
            let first: &GeometryWorld = &inputs[0];
            first.get_live_point_count()
        } else {
            0
        }
    }

    fn run(&self, inputs: Vec<Rc<GeometryWorld>>, subgraph_outputs: Vec<Rc<GeometryWorld>>) -> (output:
        Rc<GeometryWorld>) {
        let mut world = GeometryWorld::new();
        proof {
            assert(world.all_exact());
            assert(values(subgraph_outputs@).take(0) =~= Seq::empty());
            lemma_all_occupied_count::<Point>(Seq::empty());
            lemma_all_occupied_count::<Shape>(Seq::empty());
        }
        if inputs.len() == 0 {
            return Rc::new(world);
        }
        assert(inputs@[0].valid());
        assert(values(inputs@)[0] == *inputs@[0]);
        let instance_points: &GeometryWorld = &inputs[0];
        let length = instance_points.get_point_count();
        let available = subgraph_outputs.len();
        let mut current: usize = 0;
        let mut used: usize = 0;
        proof {
            assert(instance_points.points().slots.take(0) =~= Seq::empty());
        }
        while current < length
            invariant
                current <= length,
                length == instance_points.points().slots.len(),
                available == subgraph_outputs@.len(),
                all_valid(subgraph_outputs@),
                instance_points.wf(),
                world.wf(),
                used <= available,
                used <= current,
                used == if available <= occupied_count(
                    instance_points.points().slots.take(current as int),
                ) {
                    available as int
                } else {
                    occupied_count(instance_points.points().slots.take(current as int)) as int
                },
                world.points().count() == total_points(
                    values(subgraph_outputs@).take(used as int),
                ),
                world.shapes().count() == total_shapes(
                    values(subgraph_outputs@).take(used as int),
                ),
                holds_shapes(&world, values(subgraph_outputs@), used as int),
                all_plain(values(subgraph_outputs@), used as int) ==> world.all_exact(),
            decreases length - current,
        {
            proof {
                assert(instance_points.points().slots.take(current + 1).drop_last()
                    =~= instance_points.points().slots.take(current as int));
                instance_points.lemma_wf();
            }
            let handle = instance_points.get_point_handle_from_index(current);
            if let Ok(instance_point) = instance_points.get_point(&handle) {
                if used < available {
                    assert(subgraph_outputs@[used as int].valid());
                    let made: &GeometryWorld = &subgraph_outputs[used];
                    let mut copy = made.clone();
                    shift_points(&mut copy, &self.shift, instance_point.position);
                    let ghost previous = world;
                    world.merge(&copy);
                    proof {
                        copy.points().lemma_same_layout_count(made.points());
                        assert(values(subgraph_outputs@).take(used + 1).drop_last() =~= values(
                            subgraph_outputs@,
                        ).take(used as int));
                        assert(values(subgraph_outputs@).take(used + 1).last() == *made);
                        assert(values(subgraph_outputs@)[used as int] == *made);
                        let (points, shapes) = choose|
                            points: Seq<Option<PointHandle>>,
                            shapes: Seq<Option<ShapeHandle>>,
                        | #[trigger] previous.copies(&copy, &world, points, shapes);
                        copy.lemma_wf();
                        assert forall|j: int, shape: ShapeHandle|
                            0 <= j < used + 1 && #[trigger] values(subgraph_outputs@)[j].has_shape(
                                shape,
                            ) implies holds_shape(
                            &world,
                            values(subgraph_outputs@)[j].shape(shape),
                        ) by {
                            let source = values(subgraph_outputs@)[j].shape(shape);
                            if j < used {
                                assert(holds_shape(&previous, source));
                                let kept = choose|kept: ShapeHandle| #[trigger]
                                    previous.has_shape(kept) && previous.shape(kept).closed
                                        == source.closed && previous.shape(kept).vertices@.len()
                                        == source.vertices@.len();
                                assert(world.has_shape(kept));
                            } else {
                                assert(copy.has_shape(shape));
                                assert(shapes[shape.index as int] is Some);
                                let copied = shapes[shape.index as int]->0;
                                assert(world.has_shape(copied));
                                assert(world.shape(copied).vertices@.len() == source.vertices@.len());
                            }
                        }
                        if all_plain(values(subgraph_outputs@), used + 1) {
                            assert(values(subgraph_outputs@)[used as int].names_unique());
                            assert(copy.names_unique()) by {
                                assert forall|a: GroupHandle, b: GroupHandle|
                                    copy.has_group(a) && copy.has_group(b) && a != b implies #[trigger] copy.group(
                                    a,
                                ).name@ != #[trigger] copy.group(b).name@ by {
                                    assert(made.names_unique());
                                    assert(made.has_group(a) && made.has_group(b));
                                    assert(copy.groups() == made.groups());
                                    assert(made.group(a).name@ != made.group(b).name@);
                                }
                            }
                            assert(all_plain(values(subgraph_outputs@), used as int));
                        }
                    }
                    used += 1;
                }
            }
            current += 1;
        }
        proof {
            assert(instance_points.points().slots.take(length as int)
                =~= instance_points.points().slots);
        }
        Rc::new(world)
    }
}

/// What is known of a processor type is this name, this way to take
/// inputs, and these parameters.
pub open spec fn describes(
    info: ProcessorTypeInfo,
    name: Seq<char>,
    input_type: ProcessorInputType,
    parameters: Seq<(Seq<char>, Seq<char>)>,
) -> bool {
    info.name@ == name && info.input_type == input_type && parameter_views(info.parameters@)
        == parameters
}

/// What is known of a processor type, from its name, its way to take
/// inputs, and the names and tags of its parameters.
fn type_info(
    name: &'static str,
    input_type: ProcessorInputType,
    pairs: Vec<(&'static str, &'static str)>,
) -> (info: ProcessorTypeInfo)
    ensures
        describes(info, name@, input_type, pair_views(pairs@)),
{
    ProcessorTypeInfo::new(name, input_type, parameters_of(pairs))
}

/// Every processor type, with its parameters.
pub fn processor_catalog() -> (catalog: Vec<ProcessorTypeInfo>)
    ensures
        catalog@.len() == 18,
        describes(
            catalog@[0],
            "Empty"@,
            ProcessorInputType::Multiple { zero_allowed: true },
            Seq::<(Seq<char>, Seq<char>)>::empty(),
        ),
        describes(
            catalog@[1],
            "CreateRectangle"@,
            ProcessorInputType::Multiple { zero_allowed: true },
            seq![("width"@, "Float"@), ("height"@, "Float"@), ("position"@, "Position"@)],
        ),
        describes(
            catalog@[2],
            "ScatterPoints"@,
            ProcessorInputType::Multiple { zero_allowed: true },
            seq![("num_points"@, "UnsignedInteger"@), ("min_position"@, "Position"@), ("max_position"@, "Position"@)],
        ),
        describes(
            catalog@[3],
            "Scale"@,
            ProcessorInputType::Slotted { number_of_slots: 1 },
            seq![("factor_x"@, "Float"@), ("factor_y"@, "Float"@)],
        ),
        describes(
            catalog@[4],
            "RandomTangents"@,
            ProcessorInputType::Slotted { number_of_slots: 1 },
            seq![("strength"@, "Float"@)],
        ),
        describes(
            catalog@[5],
            "AddPoints"@,
            ProcessorInputType::Slotted { number_of_slots: 1 },
            seq![("positions"@, "PositionList"@)],
        ),
        describes(
            catalog@[6],
            "Merge"@,
            ProcessorInputType::Multiple { zero_allowed: true },
            Seq::<(Seq<char>, Seq<char>)>::empty(),
        ),
        describes(
            catalog@[7],
            "CopyPointsAndOffset"@,
            ProcessorInputType::Slotted { number_of_slots: 1 },
            seq![("offset_position"@, "Position"@)],
        ),
        describes(
            catalog@[8],
            "SortPointsX"@,
            ProcessorInputType::Slotted { number_of_slots: 1 },
            Seq::<(Seq<char>, Seq<char>)>::empty(),
        ),
        describes(
            catalog@[9],
            "CreateShapeFromGroup"@,
            ProcessorInputType::Slotted { number_of_slots: 1 },
            seq![("group_name"@, "String"@), ("closed"@, "Boolean"@)],
        ),
        describes(
            catalog@[10],
            "Translate"@,
            ProcessorInputType::Slotted { number_of_slots: 1 },
            seq![("offset"@, "Position"@), ("group_name"@, "String"@)],
        ),
        describes(
            catalog@[11],
            "RandomTranslate"@,
            ProcessorInputType::Slotted { number_of_slots: 1 },
            seq![("min_offset"@, "Position"@), ("max_offset"@, "Position"@), ("group_name"@, "String"@)],
        ),
        describes(
            catalog@[12],
            "CopyPointsAndRandomOffset"@,
            ProcessorInputType::Slotted { number_of_slots: 1 },
            seq![
                ("min_offset"@, "Position"@),
                ("max_offset"@, "Position"@),
                ("group_name"@, "String"@),
                ("group"@, "Boolean"@),
                ("iterations"@, "UnsignedInteger"@),
            ],
        ),
        describes(
            catalog@[13],
            "CreateShapeFromAllGroups"@,
            ProcessorInputType::Slotted { number_of_slots: 1 },
            seq![("closed"@, "Boolean"@)],
        ),
        describes(
            catalog@[14],
            "SmoothTangents"@,
            ProcessorInputType::Slotted { number_of_slots: 1 },
            seq![("strength"@, "Float"@)],
        ),
        describes(
            catalog@[15],
            "InstanceOnPoints"@,
            ProcessorInputType::Slotted { number_of_slots: 1 },
            seq![("group_name"@, "String"@)],
        ),
        describes(
            catalog@[16],
            "SortPointsY"@,
            ProcessorInputType::Slotted { number_of_slots: 1 },
            Seq::<(Seq<char>, Seq<char>)>::empty(),
        ),
        describes(
            catalog@[17],
            "GroupPoints"@,
            ProcessorInputType::Slotted { number_of_slots: 1 },
            seq![("group_name"@, "String"@), ("py_condition"@, "String"@)],
        ),
{
    let mut catalog: Vec<ProcessorTypeInfo> = Vec::new();
    catalog.push(Empty::get_processor_type_info());
    let pairs_create_rectangle: Vec<(&'static str, &'static str)> = vec![
        ("width", "Float"),
        ("height", "Float"),
        ("position", "Position"),
    ];
    assert(pair_views(pairs_create_rectangle@) =~= seq![
        ("width"@, "Float"@),
        ("height"@, "Float"@),
        ("position"@, "Position"@),
    ]);
    catalog.push(
        type_info("CreateRectangle", ProcessorInputType::Multiple { zero_allowed: true }, pairs_create_rectangle),
    );
    let pairs_scatter_points: Vec<(&'static str, &'static str)> = vec![
        ("num_points", "UnsignedInteger"),
        ("min_position", "Position"),
        ("max_position", "Position"),
    ];
    assert(pair_views(pairs_scatter_points@) =~= seq![
        ("num_points"@, "UnsignedInteger"@),
        ("min_position"@, "Position"@),
        ("max_position"@, "Position"@),
    ]);
    catalog.push(
        type_info("ScatterPoints", ProcessorInputType::Multiple { zero_allowed: true }, pairs_scatter_points),
    );
    let pairs_scale: Vec<(&'static str, &'static str)> = vec![
        ("factor_x", "Float"),
        ("factor_y", "Float"),
    ];
    assert(pair_views(pairs_scale@) =~= seq![("factor_x"@, "Float"@), ("factor_y"@, "Float"@)]);
    catalog.push(
        type_info("Scale", ProcessorInputType::Slotted { number_of_slots: 1 }, pairs_scale),
    );
    let pairs_random_tangents: Vec<(&'static str, &'static str)> = vec![("strength", "Float")];
    assert(pair_views(pairs_random_tangents@) =~= seq![("strength"@, "Float"@)]);
    catalog.push(
        type_info("RandomTangents", ProcessorInputType::Slotted { number_of_slots: 1 }, pairs_random_tangents),
    );
    let pairs_add_points: Vec<(&'static str, &'static str)> = vec![("positions", "PositionList")];
    assert(pair_views(pairs_add_points@) =~= seq![("positions"@, "PositionList"@)]);
    catalog.push(
        type_info("AddPoints", ProcessorInputType::Slotted { number_of_slots: 1 }, pairs_add_points),
    );
    catalog.push(Merge::get_processor_type_info());
    let pairs_copy_points_and_offset: Vec<(&'static str, &'static str)> = vec![
        ("offset_position", "Position"),
    ];
    assert(pair_views(pairs_copy_points_and_offset@) =~= seq![("offset_position"@, "Position"@)]);
    catalog.push(
        type_info("CopyPointsAndOffset", ProcessorInputType::Slotted { number_of_slots: 1 }, pairs_copy_points_and_offset),
    );
    catalog.push(SortPointsX::get_processor_type_info());
    catalog.push(CreateShapeFromGroup::get_processor_type_info());
    let pairs_translate: Vec<(&'static str, &'static str)> = vec![
        ("offset", "Position"),
        ("group_name", "String"),
    ];
    assert(pair_views(pairs_translate@) =~= seq![
        ("offset"@, "Position"@),
        ("group_name"@, "String"@),
    ]);
    catalog.push(
        type_info("Translate", ProcessorInputType::Slotted { number_of_slots: 1 }, pairs_translate),
    );
    let pairs_random_translate: Vec<(&'static str, &'static str)> = vec![
        ("min_offset", "Position"),
        ("max_offset", "Position"),
        ("group_name", "String"),
    ];
    assert(pair_views(pairs_random_translate@) =~= seq![
        ("min_offset"@, "Position"@),
        ("max_offset"@, "Position"@),
        ("group_name"@, "String"@),
    ]);
    catalog.push(
        type_info("RandomTranslate", ProcessorInputType::Slotted { number_of_slots: 1 }, pairs_random_translate),
    );
    let pairs_copy_points_and_random_offset: Vec<(&'static str, &'static str)> = vec![
        ("min_offset", "Position"),
        ("max_offset", "Position"),
        ("group_name", "String"),
        ("group", "Boolean"),
        ("iterations", "UnsignedInteger"),
    ];
    assert(pair_views(pairs_copy_points_and_random_offset@) =~= seq![
        ("min_offset"@, "Position"@),
        ("max_offset"@, "Position"@),
        ("group_name"@, "String"@),
        ("group"@, "Boolean"@),
        ("iterations"@, "UnsignedInteger"@),
    ]);
    catalog.push(
        type_info(
            "CopyPointsAndRandomOffset",
            ProcessorInputType::Slotted { number_of_slots: 1 },
            pairs_copy_points_and_random_offset,
        ),
    );
    catalog.push(CreateShapeFromAllGroups::get_processor_type_info());
    let pairs_smooth_tangents: Vec<(&'static str, &'static str)> = vec![("strength", "Float")];
    assert(pair_views(pairs_smooth_tangents@) =~= seq![("strength"@, "Float"@)]);
    catalog.push(
        type_info("SmoothTangents", ProcessorInputType::Slotted { number_of_slots: 1 }, pairs_smooth_tangents),
    );
    catalog.push(InstanceOnPoints::get_processor_type_info());
    catalog.push(SortPointsY::get_processor_type_info());
    catalog.push(GroupPoints::get_processor_type_info());
    catalog
}

} // verus!
