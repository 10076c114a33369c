//! # Nodes
//!
//! A node holds a processor, the handles of the nodes it takes its inputs
//! from, the handles of the nodes that take its output, and the output it
//! made last. It does not run its processor: the graph it is part of does.

use crate::graph::input_component::{
    filled, lemma_filled_contains, lemma_position_of, position_of, without, InputComponent,
    MultipleInput, SlottedInput,
};
use crate::graph::parameters::{parameter_views, ProcessorInputType, ProcessorParameter};
use crate::graph::processor_component::{
    CheckedBasicProcessor, CheckedProcessor, CheckedSubgraphProcessor, Payload,
};
use crate::handled_vec::handles::{Handle, MarkedHandle};
use crate::handled_vec::parts;
use crate::hardeen_error::HardeenError;
use std::marker::PhantomData;
use std::rc::Rc;
use vstd::prelude::*;

verus! {

/// Marks the handles of the nodes of a graph over `T`.
pub struct NodeMark<T> {
    _marker: PhantomData<T>,
}

/// Marks the handles of the subgraphs of a graph over `T`.
pub struct SubgraphMark<T> {
    _marker: PhantomData<T>,
}

pub type NodeHandle<T> = MarkedHandle<NodeMark<T>>;

pub type SubgraphHandle<T> = MarkedHandle<SubgraphMark<T>>;

/// The processor of a node; with a subgraph processor, the handle of the
/// graph it works with.
#[verifier::reject_recursive_types(T)]
#[verifier::reject_recursive_types(P)]
#[verifier::reject_recursive_types(S)]
pub enum ProcessorComponent<T: Payload, P: CheckedBasicProcessor<T>, S: CheckedSubgraphProcessor<T>> {
    BasicProcessor(P),
    SubgraphProcessor(S, SubgraphHandle<T>),
}

#[verifier::reject_recursive_types(T)]
#[verifier::reject_recursive_types(P)]
#[verifier::reject_recursive_types(S)]
pub struct Node<T: Payload, P: CheckedBasicProcessor<T>, S: CheckedSubgraphProcessor<T>> {
    processor_component: ProcessorComponent<T, P, S>,
    input_component: InputComponent<NodeHandle<T>>,
    output_nodes: Vec<NodeHandle<T>>,
    cached_output: Option<Rc<T>>,
}

/// The input component that a processor asks for, with nothing connected.
fn build_input_component<T: Payload>(input_type: ProcessorInputType) -> (component: InputComponent<
    NodeHandle<T>,
>)
    ensures
        match input_type {
            ProcessorInputType::Slotted { number_of_slots } => component
                matches InputComponent::Slotted(slotted) && slotted@ == Seq::new(
                number_of_slots as nat,
                |i: int| None::<NodeHandle<T>>,
            ),
            ProcessorInputType::Multiple { zero_allowed } => component
                matches InputComponent::Multiple(multiple) && multiple@ == Seq::<
                NodeHandle<T>,
            >::empty() && multiple.zero_allowed() == zero_allowed && multiple.wf(),
        },
        match component {
            InputComponent::Slotted(slotted) => filled(slotted@) == Seq::<NodeHandle<T>>::empty(),
            InputComponent::Multiple(multiple) => multiple@ == Seq::<NodeHandle<T>>::empty(),
        },
{
    match input_type {
        ProcessorInputType::Slotted { number_of_slots } => {
            proof {
                lemma_filled_none::<NodeHandle<T>>(number_of_slots as nat);
            }
            InputComponent::Slotted(SlottedInput::new(number_of_slots))
        },
        ProcessorInputType::Multiple { zero_allowed } => InputComponent::Multiple(
            MultipleInput::new(zero_allowed),
        ),
    }
}

impl<T: Payload, P: CheckedBasicProcessor<T>, S: CheckedSubgraphProcessor<T>> Node<T, P, S> {
    pub closed spec fn processor(&self) -> ProcessorComponent<T, P, S> {
        self.processor_component
    }

    pub closed spec fn input(&self) -> InputComponent<NodeHandle<T>> {
        self.input_component
    }

    /// The handles of the nodes that take this node's output, in the order
    /// in which they were connected.
    pub closed spec fn outputs(&self) -> Seq<NodeHandle<T>> {
        self.output_nodes@
    }

    /// The output that the node made last, unless it was given up.
    pub closed spec fn cached(&self) -> Option<Rc<T>> {
        self.cached_output
    }

    /// Whether the node takes its inputs in slots.
    pub open spec fn is_slotted(&self) -> bool {
        self.input() is Slotted
    }

    /// The slots of a slotted input, first to last.
    pub open spec fn slots(&self) -> Seq<Option<NodeHandle<T>>> {
        match self.input() {
            InputComponent::Slotted(slotted) => slotted@,
            InputComponent::Multiple(_) => Seq::empty(),
        }
    }

    /// The nodes connected to a multiple input, in the order in which they
    /// were connected.
    pub open spec fn connected(&self) -> Seq<NodeHandle<T>> {
        match self.input() {
            InputComponent::Slotted(_) => Seq::empty(),
            InputComponent::Multiple(multiple) => multiple@,
        }
    }

    /// Whether a multiple input is satisfied without a node connected.
    pub open spec fn zero_allowed(&self) -> bool {
        match self.input() {
            InputComponent::Slotted(_) => false,
            InputComponent::Multiple(multiple) => multiple.zero_allowed(),
        }
    }

    /// The handles of the nodes that this node takes its inputs from, in the
    /// order in which their outputs are handed to the processor: by slot, or
    /// else in the order in which they were connected.
    pub open spec fn inputs(&self) -> Seq<NodeHandle<T>> {
        match self.input() {
            InputComponent::Slotted(slotted) => filled(slotted@),
            InputComponent::Multiple(multiple) => multiple@,
        }
    }

    /// Every slot is filled; or a node is connected, or none is needed.
    pub open spec fn satisfied(&self) -> bool {
        match self.input() {
            InputComponent::Slotted(slotted) => forall|i: int|
                0 <= i < slotted@.len() ==> slotted@[i] is Some,
            InputComponent::Multiple(multiple) => multiple@.len() > 0 || multiple.zero_allowed(),
        }
    }

    /// No node is connected twice to a multiple input, and none twice as an
    /// output.
    pub open spec fn wf(&self) -> bool {
        &&& self.input() matches InputComponent::Multiple(multiple) ==> multiple.wf()
        &&& distinct(self.outputs())
    }

    /// Whether the input of the node is what a processor that takes its
    /// inputs in this way starts with: the slots empty, or nothing
    /// connected.
    pub open spec fn starts_with(&self, input_type: ProcessorInputType) -> bool {
        match input_type {
            ProcessorInputType::Slotted { number_of_slots } => self.is_slotted() && self.slots()
                == Seq::new(number_of_slots as nat, |i: int| None::<NodeHandle<T>>),
            ProcessorInputType::Multiple { zero_allowed } => !self.is_slotted()
                && self.zero_allowed() == zero_allowed && self.connected() == Seq::<
                NodeHandle<T>,
            >::empty(),
        }
    }

    pub fn new_basic_processor_node(processor: P) -> (node: Self)
        ensures
            node.wf(),
            !node.has_subgraph(),
            processor.lawful() ==> node.starts_with(processor.spec_input_type()),
            node.processor() == ProcessorComponent::<T, P, S>::BasicProcessor(processor),
            node.inputs() == Seq::<NodeHandle<T>>::empty(),
            node.outputs() == Seq::<NodeHandle<T>>::empty(),
            node.cached() is None,
    {
        let input_component = build_input_component(processor.input_type());
        Self::new(ProcessorComponent::BasicProcessor(processor), input_component)
    }

    pub fn new_subgraph_processor_node(
        processor: S,
        handle: SubgraphHandle<T>,
    ) -> (node: Self)
        ensures
            node.wf(),
            node.has_subgraph(),
            node.subgraph_handle() == handle,
            processor.lawful() ==> node.starts_with(processor.spec_input_type()),
            node.processor() == ProcessorComponent::<T, P, S>::SubgraphProcessor(processor, handle),
            node.inputs() == Seq::<NodeHandle<T>>::empty(),
            node.outputs() == Seq::<NodeHandle<T>>::empty(),
            node.cached() is None,
    {
        let input_component = build_input_component(processor.input_type());
        Self::new(ProcessorComponent::SubgraphProcessor(processor, handle), input_component)
    }

    fn new(run_component: ProcessorComponent<T, P, S>, input_component: InputComponent<NodeHandle<T>>) -> (node:
        Self)
        ensures
            node.processor() == run_component,
            node.input() == input_component,
            node.outputs() == Seq::<NodeHandle<T>>::empty(),
            node.cached() is None,
    {
        Node {
            processor_component: run_component,
            input_component,
            output_nodes: Vec::new(),
            cached_output: None,
        }
    }

    pub fn get_processor_component(&self) -> (component: &ProcessorComponent<T, P, S>)
        ensures
            *component == self.processor(),
    {
        &self.processor_component
    }

    pub fn get_input_component(&self) -> (component: &InputComponent<NodeHandle<T>>)
        ensures
            *component == self.input(),
    {
        &self.input_component
    }

    /// The name of the type of the processor.
    pub open spec fn name(&self) -> Seq<char> {
        match self.processor() {
            ProcessorComponent::BasicProcessor(processor) => processor.spec_name(),
            ProcessorComponent::SubgraphProcessor(processor, _) => processor.spec_name(),
        }
    }

    pub fn get_processor_name(&self) -> (name: &'static str)
        ensures
            self.lawful() ==> name@ == self.name(),
    {
        match &self.processor_component {
            ProcessorComponent::BasicProcessor(p) => p.get_processor_name(),
            ProcessorComponent::SubgraphProcessor(p, _) => p.get_processor_name(),
        }
    }

    pub fn is_input_satisfied(&self) -> (satisfied: bool)
        ensures
            satisfied == self.satisfied(),
    {
        match &self.input_component {
            InputComponent::Multiple(multiple_input) => multiple_input.is_input_satisfied(),
            InputComponent::Slotted(slotted_input) => slotted_input.is_input_satisfied(),
        }
    }

    pub fn get_all_input_handles(&self) -> (handles: Vec<NodeHandle<T>>)
        ensures
            handles@ == self.inputs(),
    {
        match &self.input_component {
            InputComponent::Multiple(multiple_input) => multiple_input.get_all_input_handles(),
            InputComponent::Slotted(slotted_input) => slotted_input.get_all_input_handles(),
        }
    }

    /// Whether the node has a subgraph processor.
    pub open spec fn has_subgraph(&self) -> bool {
        self.processor() is SubgraphProcessor
    }

    /// The handle of the graph that a subgraph processor works with.
    pub open spec fn subgraph_handle(&self) -> SubgraphHandle<T> {
        match self.processor() {
            ProcessorComponent::BasicProcessor(_) => arbitrary(),
            ProcessorComponent::SubgraphProcessor(_, handle) => handle,
        }
    }

    /// Whether `output` is a possible output of the node's basic processor
    /// for these inputs.
    pub open spec fn produces(&self, inputs: Seq<T>, output: T) -> bool {
        match self.processor() {
            ProcessorComponent::BasicProcessor(processor) => processor.lawful()
                ==> processor.produces(inputs, output),
            ProcessorComponent::SubgraphProcessor(_, _) => false,
        }
    }

    /// How often the node's subgraph processor wants its graph run for these
    /// inputs.
    pub open spec fn subgraph_runs(&self, inputs: Seq<T>) -> nat {
        match self.processor() {
            ProcessorComponent::BasicProcessor(_) => 0,
            ProcessorComponent::SubgraphProcessor(processor, _) => processor.spec_subgraph_runs(
                inputs,
            ),
        }
    }

    /// Whether `output` is a possible output of the node's subgraph
    /// processor for these inputs and these outputs of its graph.
    pub open spec fn produces_with(&self, inputs: Seq<T>, subgraph_outputs: Seq<T>, output: T) -> bool {
        match self.processor() {
            ProcessorComponent::BasicProcessor(_) => false,
            ProcessorComponent::SubgraphProcessor(processor, _) => processor.lawful()
                ==> processor.produces(inputs, subgraph_outputs, output),
        }
    }

    /// Whether the processor keeps to what is specified of it.
    pub open spec fn lawful(&self) -> bool {
        match self.processor() {
            ProcessorComponent::BasicProcessor(processor) => processor.lawful(),
            ProcessorComponent::SubgraphProcessor(processor, _) => processor.lawful(),
        }
    }

    /// Whether the processor has a parameter of this name.
    pub open spec fn has_parameter(&self, name: Seq<char>) -> bool {
        match self.processor() {
            ProcessorComponent::BasicProcessor(processor) => processor.has_parameter(name),
            ProcessorComponent::SubgraphProcessor(processor, _) => processor.has_parameter(name),
        }
    }

    /// The value of a parameter of the processor, as the string that stands
    /// for it.
    pub open spec fn parameter_text(&self, name: Seq<char>) -> Seq<char> {
        match self.processor() {
            ProcessorComponent::BasicProcessor(processor) => processor.parameter_text(name),
            ProcessorComponent::SubgraphProcessor(processor, _) => processor.parameter_text(name),
        }
    }

    /// The string that stands for the value that a string sets a parameter
    /// of the processor to; none where the string does not read as the
    /// parameter's type.
    pub open spec fn canonical(&self, name: Seq<char>, value: Seq<char>) -> Option<Seq<char>> {
        match self.processor() {
            ProcessorComponent::BasicProcessor(processor) => processor.canonical(name, value),
            ProcessorComponent::SubgraphProcessor(processor, _) => processor.canonical(
                name,
                value,
            ),
        }
    }

    /// Everything but the processor's parameters is as it is in `other`.
    pub open spec fn same_wiring(&self, other: &Node<T, P, S>) -> bool {
        &&& self.input() == other.input()
        &&& self.outputs() == other.outputs()
        &&& self.cached() == other.cached()
        &&& self.has_subgraph() == other.has_subgraph()
        &&& self.has_subgraph() ==> self.subgraph_handle() == other.subgraph_handle()
    }

    /// What setting a parameter makes of the parameters of a node: where
    /// the node has the parameter and the string reads as its type, the
    /// parameter stands at the canonical form of the string, and else at
    /// what it stood at; every other parameter stands at what it stood at.
    pub open spec fn with_parameter(&self, name: Seq<char>, value: Seq<char>, later: &Self) -> bool {
        &&& later.lawful() == self.lawful()
        &&& forall|other: Seq<char>| later.has_parameter(other) == self.has_parameter(other)
        &&& forall|other: Seq<char>, text: Seq<char>|
            later.canonical(other, text) == self.canonical(other, text)
        &&& forall|other: Seq<char>|
            later.parameter_text(other) == if other == name && self.has_parameter(name)
                && self.canonical(name, value) is Some {
                self.canonical(name, value)->0
            } else {
                self.parameter_text(other)
            }
    }

    /// A parameter reads as the canonical form of the string that it was
    /// set to, whatever other parameters are set to after it.
    pub proof fn lemma_parameter_round_trip(
        &self,
        set: &Self,
        later: &Self,
        name: Seq<char>,
        value: Seq<char>,
        other: Seq<char>,
        other_value: Seq<char>,
    )
        requires
            self.has_parameter(name),
            self.canonical(name, value) is Some,
            self.with_parameter(name, value, set),
            set.with_parameter(other, other_value, later),
            other != name,
        ensures
            set.has_parameter(name),
            set.parameter_text(name) == self.canonical(name, value)->0,
            later.parameter_text(name) == self.canonical(name, value)->0,
    {
    }

    /// Sets a parameter of the processor from a string.
    pub fn set_parameter(&mut self, parameter_name: &str, parameter_value: &str) -> (result: Result<
        (),
        HardeenError,
    >)
        ensures
            final(self).same_wiring(old(self)),
            old(self).lawful() ==> old(self).with_parameter(
                parameter_name@,
                parameter_value@,
                final(self),
            ),
            final(self).lawful() == old(self).lawful(),
            forall|name: Seq<char>| final(self).has_parameter(name) == old(self).has_parameter(name),
            forall|name: Seq<char>, text: Seq<char>|
                final(self).canonical(name, text) == old(self).canonical(name, text),
            old(self).lawful() ==> result == if !old(self).has_parameter(parameter_name@) {
                Err::<(), _>(HardeenError::NodeParameterDoesNotExist)
            } else if old(self).canonical(parameter_name@, parameter_value@) is None {
                Err::<(), _>(HardeenError::ParseError)
            } else {
                Ok::<(), HardeenError>(())
            },
            old(self).lawful() ==> forall|name: Seq<char>|
                final(self).parameter_text(name) == if result is Ok && name == parameter_name@ {
                    old(self).canonical(parameter_name@, parameter_value@)->0
                } else {
                    old(self).parameter_text(name)
                },
    {
        match &mut self.processor_component {
            ProcessorComponent::BasicProcessor(processor) => {
                processor.set_parameter(parameter_name, parameter_value)
            },
            ProcessorComponent::SubgraphProcessor(processor, _) => {
                processor.set_parameter(parameter_name, parameter_value)
            },
        }
    }

    pub fn get_parameter(&self, parameter_name: &str) -> (result: Result<String, HardeenError>)
        ensures
            self.lawful() && self.has_parameter(parameter_name@) ==> result is Ok && result->Ok_0@
                == self.parameter_text(parameter_name@),
            self.lawful() && !self.has_parameter(parameter_name@) ==> result == Err::<String, _>(
                HardeenError::NodeParameterDoesNotExist,
            ),
    {
        match &self.processor_component {
            ProcessorComponent::BasicProcessor(processor) => {
                processor.get_parameter(parameter_name)
            },
            ProcessorComponent::SubgraphProcessor(processor, _) => {
                processor.get_parameter(parameter_name)
            },
        }
    }

    /// The names of the parameters of the processor and the tags of their
    /// types, in their order.
    pub open spec fn parameters(&self) -> Seq<(Seq<char>, Seq<char>)> {
        match self.processor() {
            ProcessorComponent::BasicProcessor(processor) => processor.spec_parameters(),
            ProcessorComponent::SubgraphProcessor(processor, _) => processor.spec_parameters(),
        }
    }

    pub fn get_parameters(&self) -> (parameters: Vec<ProcessorParameter>)
        ensures
            self.lawful() ==> parameter_views(parameters@) == self.parameters(),
    {
        match &self.processor_component {
            ProcessorComponent::BasicProcessor(processor) => processor.get_parameters(),
            ProcessorComponent::SubgraphProcessor(processor, _) => processor.get_parameters(),
        }
    }

    pub fn is_parameter(&self, parameter_name: &str) -> (known: bool)
        ensures
            self.lawful() ==> known == self.has_parameter(parameter_name@),
    {
        match &self.processor_component {
            ProcessorComponent::BasicProcessor(processor) => processor.is_parameter(parameter_name),
            ProcessorComponent::SubgraphProcessor(processor, _) => processor.is_parameter(
                parameter_name,
            ),
        }
    }

    /// Connects a node as an input: to a multiple input unless it is
    /// connected already, or into a slot, in place of what is there.
    pub(crate) fn connect_input_node(&mut self, input: &NodeHandle<T>, slot_number: usize) -> (result:
        Result<(), HardeenError>)
        requires
            old(self).wf(),
        ensures
            final(self).wf(),
            final(self).processor() == old(self).processor(),
            final(self).outputs() == old(self).outputs(),
            final(self).cached() == old(self).cached(),
            final(self).is_slotted() == old(self).is_slotted(),
            final(self).zero_allowed() == old(self).zero_allowed(),
            !old(self).is_slotted() ==> result is Ok && final(self).connected() == if old(self).connected().contains(*input) {
                old(self).connected()
            } else {
                old(self).connected().push(*input)
            },
            old(self).is_slotted() && slot_number < old(self).slots().len() ==> result is Ok
                && final(self).slots() == old(self).slots().update(
                slot_number as int,
                Some(*input),
            ),
            old(self).is_slotted() && slot_number >= old(self).slots().len() ==> result == Err::<
                (),
                _,
            >(HardeenError::InvalidInputSlotNumber) && final(self).slots() == old(self).slots(),
    {
        match &mut self.input_component {
            InputComponent::Multiple(multiple_input) => {
                proof {
                    lemma_position_of(multiple_input@, parts(*input));
                    lemma_handles_equal::<NodeMark<T>>();
                }
                multiple_input.connect_input(input)
            },
            InputComponent::Slotted(slotted_input) => slotted_input.connect_input(
                input,
                slot_number,
            ),
        }
    }

    /// Empties a slot.
    pub(crate) fn disconnect_input_node_slotted(&mut self, slot_number: usize) -> (result: Result<
        (),
        HardeenError,
    >)
        requires
            old(self).wf(),
        ensures
            final(self).wf(),
            final(self).processor() == old(self).processor(),
            final(self).outputs() == old(self).outputs(),
            final(self).cached() == old(self).cached(),
            final(self).is_slotted() == old(self).is_slotted(),
            final(self).zero_allowed() == old(self).zero_allowed(),
            final(self).connected() == old(self).connected(),
            !old(self).is_slotted() ==> result == Err::<(), _>(HardeenError::NodeInputTypeMismatch)
                && final(self).slots() == old(self).slots(),
            old(self).is_slotted() && slot_number < old(self).slots().len() ==> result is Ok
                && final(self).slots() == old(self).slots().update(slot_number as int, None),
            old(self).is_slotted() && slot_number >= old(self).slots().len() ==> result == Err::<
                (),
                _,
            >(HardeenError::InvalidInputSlotNumber) && final(self).slots() == old(self).slots(),
    {
        match &mut self.input_component {
            InputComponent::Multiple(_multiple_input) => Err(HardeenError::NodeInputTypeMismatch),
            InputComponent::Slotted(slotted_input) => slotted_input.disconnect_input(slot_number),
        }
    }

    /// Takes a node out of the inputs, wherever it is connected.
    pub(crate) fn disconnect_input_node(&mut self, node_handle: &NodeHandle<T>) -> (result: Result<
        (),
        HardeenError,
    >)
        requires
            old(self).wf(),
        ensures
            final(self).wf(),
            result is Ok,
            final(self).processor() == old(self).processor(),
            final(self).outputs() == old(self).outputs(),
            final(self).cached() == old(self).cached(),
            final(self).is_slotted() == old(self).is_slotted(),
            final(self).zero_allowed() == old(self).zero_allowed(),
            final(self).connected() == removed_handle(old(self).connected(), *node_handle),
            final(self).slots() == without(old(self).slots(), parts(*node_handle)),
            forall|other: NodeHandle<T>|
                final(self).inputs().contains(other) <==> old(self).inputs().contains(other)
                    && other != *node_handle,
    {
        proof {
            lemma_handles_equal::<NodeMark<T>>();
        }
        match &mut self.input_component {
            InputComponent::Multiple(multiple_input) => {
                proof {
                    lemma_position_of(multiple_input@, parts(*node_handle));
                    lemma_removed_handle(multiple_input@, *node_handle);
                }
                let ghost before = multiple_input@;
                let result = multiple_input.disconnect_input(node_handle);
                result
            },
            InputComponent::Slotted(slotted_input) => {
                let ghost before = slotted_input@;
                let result = slotted_input.disconnect_handle(node_handle);
                proof {
                    let after = slotted_input@;
                    assert forall|other: NodeHandle<T>|
                        filled(after).contains(other) <==> filled(before).contains(other) && other
                            != *node_handle by {
                        lemma_filled_contains(after, other);
                        lemma_filled_contains(before, other);
                        if filled(after).contains(other) {
                            let j = choose|j: int|
                                0 <= j < after.len() && #[trigger] after[j] == Some(other);
                            assert(before[j] == Some(other));
                        }
                        if filled(before).contains(other) && other != *node_handle {
                            let j = choose|j: int|
                                0 <= j < before.len() && #[trigger] before[j] == Some(other);
                            assert(after[j] == Some(other));
                        }
                    }
                }
                result
            },
        }
    }

    /// Adds a node to the outputs, unless it is there already.
    pub(crate) fn connect_output_node(&mut self, output_handle: &NodeHandle<T>) -> (result: Result<
        (),
        HardeenError,
    >)
        requires
            old(self).wf(),
        ensures
            final(self).wf(),
            result is Ok,
            final(self).processor() == old(self).processor(),
            final(self).input() == old(self).input(),
            final(self).cached() == old(self).cached(),
            final(self).outputs() == if old(self).outputs().contains(*output_handle) {
                old(self).outputs()
            } else {
                old(self).outputs().push(*output_handle)
            },
    {
        if find_handle(&self.output_nodes, output_handle).is_none() {
            proof {
                lemma_distinct_push(self.output_nodes@, *output_handle);
            }
            self.output_nodes.push(*output_handle);
        }
        Ok(())
    }

    /// Takes a node out of the outputs; an error where it is not among them.
    pub(crate) fn disconnect_output_node(&mut self, output_handle: &NodeHandle<T>) -> (result:
        Result<(), HardeenError>)
        requires
            old(self).wf(),
        ensures
            final(self).wf(),
            final(self).processor() == old(self).processor(),
            final(self).input() == old(self).input(),
            final(self).cached() == old(self).cached(),
            old(self).outputs().contains(*output_handle) ==> result is Ok,
            !old(self).outputs().contains(*output_handle) ==> result == Err::<(), _>(
                HardeenError::NodeOutputHandleInvalid,
            ),
            final(self).outputs() == removed_handle(old(self).outputs(), *output_handle),
            forall|other: NodeHandle<T>|
                final(self).outputs().contains(other) <==> old(self).outputs().contains(other)
                    && other != *output_handle,
    {
        proof {
            lemma_removed_handle(self.output_nodes@, *output_handle);
        }
        match find_handle(&self.output_nodes, output_handle) {
            Some(at) => {
                self.output_nodes.remove(at);
                Ok(())
            },
            None => Err(HardeenError::NodeOutputHandleInvalid),
        }
    }

    pub(crate) fn set_cached_output(&mut self, data: Rc<T>)
        ensures
            final(self).processor() == old(self).processor(),
            final(self).input() == old(self).input(),
            final(self).outputs() == old(self).outputs(),
            final(self).cached() == Some(data),
    {
        self.cached_output = Some(data);
    }

    pub(crate) fn invalidate_cache(&mut self)
        ensures
            final(self).processor() == old(self).processor(),
            final(self).input() == old(self).input(),
            final(self).outputs() == old(self).outputs(),
            final(self).cached() is None,
    {
        self.cached_output = None;
    }

    /// The handles of the nodes that take this node's output.
    pub fn get_all_outputs(&self) -> (handles: Vec<NodeHandle<T>>)
        ensures
            handles@ == self.outputs(),
    {
        let mut handles: Vec<NodeHandle<T>> = Vec::new();
        let mut current: usize = 0;
        let length = self.output_nodes.len();
        while current < length
            invariant
                current <= length,
                length == self.output_nodes@.len(),
                handles@ == self.output_nodes@.take(current as int),
            decreases length - current,
        {
            handles.push(self.output_nodes[current]);
            assert(self.output_nodes@.take(current + 1) =~= self.output_nodes@.take(
                current as int,
            ).push(self.output_nodes@[current as int]));
            current += 1;
        }
        assert(self.output_nodes@.take(length as int) =~= self.output_nodes@);
        handles
    }

    /// What fills a slot; nothing for a slot that does not exist, and for a
    /// multiple input.
    pub fn get_slot(&self, slot_number: usize) -> (handle: Option<NodeHandle<T>>)
        ensures
            handle == if self.is_slotted() && slot_number < self.slots().len() {
                self.slots()[slot_number as int]
            } else {
                None
            },
    {
        match &self.input_component {
            InputComponent::Multiple(_) => None,
            InputComponent::Slotted(slotted_input) => match slotted_input.get_input(slot_number) {
                Ok(handle) => handle,
                Err(_) => None,
            },
        }
    }

    /// Whether the node takes its inputs in slots, and then how many.
    pub fn get_number_of_slots(&self) -> (number: Option<usize>)
        ensures
            self.is_slotted() ==> number is Some && number->0 == self.slots().len(),
            !self.is_slotted() ==> number is None,
    {
        match &self.input_component {
            InputComponent::Multiple(_) => None,
            InputComponent::Slotted(slotted_input) => Some(slotted_input.get_number_of_slots()),
        }
    }

    /// Whether a node is among the inputs.
    pub fn has_input(&self, handle: &NodeHandle<T>) -> (found: bool)
        ensures
            found == self.inputs().contains(*handle),
    {
        let inputs = self.get_all_input_handles();
        find_handle(&inputs, handle).is_some()
    }

    /// Whether a node is among the outputs.
    pub fn has_output(&self, handle: &NodeHandle<T>) -> (found: bool)
        ensures
            found == self.outputs().contains(*handle),
    {
        find_handle(&self.output_nodes, handle).is_some()
    }

    pub fn get_cached_output(&self) -> (cached: Option<Rc<T>>)
        ensures
            cached == self.cached(),
    {
        match &self.cached_output {
            Some(output) => Some(output.clone()),
            None => None,
        }
    }
}

/// Empty slots hold no handle.
pub proof fn lemma_filled_none<H>(slots: nat)
    ensures
        filled(Seq::new(slots, |i: int| None::<H>)) == Seq::<H>::empty(),
    decreases slots,
{
    if slots > 0 {
        assert(Seq::new(slots, |i: int| None::<H>).drop_last() =~= Seq::new(
            (slots - 1) as nat,
            |i: int| None::<H>,
        ));
        lemma_filled_none::<H>((slots - 1) as nat);
    }
}


/// No handle occurs twice.
pub open spec fn distinct<M>(handles: Seq<MarkedHandle<M>>) -> bool {
    forall|i: int, j: int|
        0 <= i < j < handles.len() ==> #[trigger] handles[i] != #[trigger] handles[j]
}

/// A handle that is not among handles that are all different can join them.
pub proof fn lemma_distinct_push<M>(handles: Seq<MarkedHandle<M>>, handle: MarkedHandle<M>)
    requires
        distinct(handles),
        !handles.contains(handle),
    ensures
        distinct(handles.push(handle)),
{
    let longer = handles.push(handle);
    assert forall|i: int, j: int| 0 <= i < j < longer.len() implies #[trigger] longer[i]
        != #[trigger] longer[j] by {
        if j == handles.len() {
            assert(handles[i] == longer[i]);
            assert(handles.contains(longer[i]));
        } else {
            assert(handles[i] == longer[i]);
            assert(handles[j] == longer[j]);
        }
    }
}

/// Handles of one kind are equal exactly when their parts are.
pub proof fn lemma_handles_equal<M>()
    ensures
        forall|a: MarkedHandle<M>, b: MarkedHandle<M>|
            (#[trigger] parts(a) == #[trigger] parts(b)) <==> a == b,
{
    assert forall|a: MarkedHandle<M>, b: MarkedHandle<M>|
        (#[trigger] parts(a) == #[trigger] parts(b)) <==> a == b by {
        MarkedHandle::<M>::lemma_equal_parts(a, b);
    }
}

/// The handles without the first occurrence of one of them.
pub open spec fn removed_handle<M>(handles: Seq<MarkedHandle<M>>, handle: MarkedHandle<M>) -> Seq<
    MarkedHandle<M>,
> {
    match position_of(handles, parts(handle)) {
        Some(at) => handles.remove(at),
        None => handles,
    }
}

/// Among handles that are all different, taking one out leaves exactly the
/// others, all different still.
pub proof fn lemma_removed_handle<M>(handles: Seq<MarkedHandle<M>>, handle: MarkedHandle<M>)
    requires
        distinct(handles),
    ensures
        forall|other: MarkedHandle<M>|
            removed_handle(handles, handle).contains(other) <==> handles.contains(other) && other
                != handle,
        distinct(removed_handle(handles, handle)),
        position_of(handles, parts(handle)) is Some <==> handles.contains(handle),
{
    lemma_position_of(handles, parts(handle));
    lemma_handles_equal::<M>();
    let left = removed_handle(handles, handle);
    match position_of(handles, parts(handle)) {
        Some(at) => {
            assert(handles[at] == handle);
            assert forall|other: MarkedHandle<M>|
                left.contains(other) <==> handles.contains(other) && other != handle by {
                if left.contains(other) {
                    let k = choose|k: int| 0 <= k < left.len() && left[k] == other;
                    if k < at {
                        assert(handles[k] == other);
                    } else {
                        assert(handles[k + 1] == other);
                    }
                }
                if handles.contains(other) && other != handle {
                    let k = choose|k: int| 0 <= k < handles.len() && handles[k] == other;
                    if k < at {
                        assert(left[k] == other);
                    } else {
                        assert(left[k - 1] == other);
                    }
                }
            }
        },
        None => {
            assert forall|other: MarkedHandle<M>|
                left.contains(other) <==> handles.contains(other) && other != handle by {
                if handles.contains(other) {
                    let k = choose|k: int| 0 <= k < handles.len() && handles[k] == other;
                    assert(parts(handles[k]) != parts(handle));
                }
            }
            if handles.contains(handle) {
                let k = choose|k: int| 0 <= k < handles.len() && handles[k] == handle;
                assert(parts(handles[k]) == parts(handle));
            }
        },
    }
}

/// Where the first handle with the parts of `handle` stands in a list.
fn find_handle<M>(handles: &Vec<MarkedHandle<M>>, handle: &MarkedHandle<M>) -> (found: Option<usize>)
    ensures
        match found {
            Some(at) => position_of(handles@, parts(*handle)) == Some(at as int) && at
                < handles@.len(),
            None => position_of(handles@, parts(*handle)) is None,
        },
        found is Some <==> handles@.contains(*handle),
{
    let mut at: usize = 0;
    let length = handles.len();
    proof {
        lemma_handles_equal::<M>();
    }
    while at < length
        invariant
            at <= length,
            length == handles@.len(),
            forall|i: int| 0 <= i < at ==> parts(#[trigger] handles@[i]) != parts(*handle),
        decreases length - at,
    {
        if handles[at].index == handle.index && handles[at].generation == handle.generation {
            proof {
                lemma_position_of(handles@, parts(*handle));
                lemma_handles_equal::<M>();
                assert(handles@[at as int] == *handle);
            }
            return Some(at);
        }
        at += 1;
    }
    proof {
        lemma_position_of(handles@, parts(*handle));
        lemma_handles_equal::<M>();
        if handles@.contains(*handle) {
            let k = choose|k: int| 0 <= k < handles@.len() && handles@[k] == *handle;
            assert(parts(handles@[k]) == parts(*handle));
        }
    }
    None
}

} // verus!
