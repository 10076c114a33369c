//! # Processors
//!
//! A processor takes the outputs of the nodes before it and makes one output
//! of them. A basic processor depends on its inputs alone. A subgraph
//! processor works with a graph of its own besides, which allows nesting,
//! instancing and looping.
//!
//! This module holds the traits only. They do not depend on what flows along
//! the edges of a graph.

use crate::graph::parameters::{parameter_views, ProcessorInputType, ProcessorParameter};
use crate::hardeen_error::HardeenError;
use std::rc::Rc;
use vstd::prelude::*;

verus! {

/// What flows along the edges of a graph. A processor is handed valid
/// values only, and makes a valid value of them.
pub trait Payload {
    spec fn valid(&self) -> bool;
}

/// Whether all of the values are valid.
pub open spec fn all_valid<T: Payload>(shared: Seq<Rc<T>>) -> bool {
    forall|i: int| 0 <= i < shared.len() ==> (#[trigger] shared[i]).valid()
}

/// The values behind a list of shared references.
pub open spec fn values<T>(shared: Seq<Rc<T>>) -> Seq<T> {
    Seq::new(shared.len(), |i: int| *shared[i])
}

/// What every processor has: a name, a way to take inputs, and parameters
/// that are read and written as strings. A processor that is lawful does
/// what its specification says; of one that is not, only what holds of
/// every processor is known.
pub trait CheckedProcessor<T: Payload> {
    /// Whether the processor keeps to what is specified of it.
    spec fn lawful(&self) -> bool;

    /// The name of the type of the processor.
    spec fn spec_name(&self) -> Seq<char>;

    /// How many inputs the processor works on.
    spec fn spec_number_inputs(&self) -> nat;

    /// The names of the parameters of the processor and the tags of their
    /// types, in their order.
    spec fn spec_parameters(&self) -> Seq<(Seq<char>, Seq<char>)>;

    /// Whether the processor has a parameter of this name.
    spec fn has_parameter(&self, name: Seq<char>) -> bool;

    /// How the processor takes its inputs.
    spec fn spec_input_type(&self) -> ProcessorInputType;

    /// The value of a parameter, as the string that stands for it.
    spec fn parameter_text(&self, name: Seq<char>) -> Seq<char>;

    /// The string that stands for the value that a string sets a parameter
    /// to; none where the string does not read as the parameter's type.
    spec fn canonical(&self, name: Seq<char>, value: Seq<char>) -> Option<Seq<char>>;

    fn number_inputs(&self) -> (number: usize)
        ensures
            self.lawful() ==> number == self.spec_number_inputs(),
    ;

    fn input_type(&self) -> (input_type: ProcessorInputType)
        ensures
            self.lawful() ==> input_type == self.spec_input_type(),
    ;

    /// Sets a parameter from a string. The name must be one of the
    /// processor's, and the value must read as the parameter's type.
    fn set_parameter(&mut self, param: &str, value: &str) -> (result: Result<(), HardeenError>)
        ensures
            final(self).lawful() == old(self).lawful(),
            final(self).spec_input_type() == old(self).spec_input_type(),
            forall|name: Seq<char>| final(self).has_parameter(name) == old(self).has_parameter(name),
            forall|name: Seq<char>, text: Seq<char>|
                final(self).canonical(name, text) == old(self).canonical(name, text),
            old(self).lawful() ==> result == if !old(self).has_parameter(param@) {
                Err::<(), _>(HardeenError::NodeParameterDoesNotExist)
            } else if old(self).canonical(param@, value@) is None {
                Err::<(), _>(HardeenError::ParseError)
            } else {
                Ok::<(), HardeenError>(())
            },
            old(self).lawful() ==> forall|name: Seq<char>|
                final(self).parameter_text(name) == if result is Ok && name == param@ {
                    old(self).canonical(param@, value@)->0
                } else {
                    old(self).parameter_text(name)
                },
    ;

    fn get_parameter(&self, param: &str) -> (result: Result<String, HardeenError>)
        ensures
            self.lawful() && self.has_parameter(param@) ==> result is Ok && result->Ok_0@
                == self.parameter_text(param@),
            self.lawful() && !self.has_parameter(param@) ==> result == Err::<String, _>(
                HardeenError::NodeParameterDoesNotExist,
            ),
    ;

    fn get_parameters(&self) -> (parameters: Vec<ProcessorParameter>)
        ensures
            self.lawful() ==> parameter_views(parameters@) == self.spec_parameters(),
    ;

    fn is_parameter(&self, param: &str) -> (known: bool)
        ensures
            self.lawful() ==> known == self.has_parameter(param@),
    ;

    fn get_processor_name(&self) -> (name: &'static str)
        ensures
            self.lawful() ==> name@ == self.spec_name(),
    ;
}

/// A processor that makes its output of its inputs alone.
pub trait CheckedBasicProcessor<T: Payload>: CheckedProcessor<T> {
    /// Whether `output` is a possible output for these inputs.
    spec fn produces(&self, inputs: Seq<T>, output: T) -> bool;

    fn run(&self, inputs: Vec<Rc<T>>) -> (output: Rc<T>)
        requires
            all_valid(inputs@),
        ensures
            output.valid(),
            self.lawful() ==> self.produces(values(inputs@), *output),
    ;
}

/// A processor that makes its output of its inputs and of the outputs of a
/// graph of its own. The engine asks how often that graph is to be run for
/// the inputs at hand, runs it as often without its caches, and hands all
/// outputs over.
pub trait CheckedSubgraphProcessor<T: Payload>: CheckedProcessor<T> {
    /// How often the graph is to be run for these inputs.
    spec fn spec_subgraph_runs(&self, inputs: Seq<T>) -> nat;

    /// Whether `output` is a possible output for these inputs and these
    /// outputs of the graph.
    spec fn produces(&self, inputs: Seq<T>, subgraph_outputs: Seq<T>, output: T) -> bool;

    fn subgraph_runs(&self, inputs: &Vec<Rc<T>>) -> (runs: usize)
        requires
            all_valid(inputs@),
        ensures
            self.lawful() ==> runs == self.spec_subgraph_runs(values(inputs@)),
    ;

    fn run(&self, inputs: Vec<Rc<T>>, subgraph_outputs: Vec<Rc<T>>) -> (output: Rc<T>)
        requires
            all_valid(inputs@),
            all_valid(subgraph_outputs@),
        ensures
            output.valid(),
            self.lawful() ==> self.produces(values(inputs@), values(subgraph_outputs@), *output),
    ;
}


/// A processor as a user of the library writes it: a name, a way to take
/// inputs, and parameters that are read and written as strings.
pub trait Processor<T: Payload> {
    fn number_inputs(&self) -> usize;

    fn input_type(&self) -> ProcessorInputType;

    fn set_parameter(&mut self, param: &str, value: &str) -> Result<(), HardeenError>;

    fn get_parameter(&self, param: &str) -> Result<String, HardeenError>;

    fn get_parameters(&self) -> Vec<ProcessorParameter>;

    fn is_parameter(&self, param: &str) -> bool;

    fn get_processor_name(&self) -> &'static str;
}

/// A processor that makes its output of its inputs alone. It is handed
/// valid values, and what it makes must be valid.
pub trait BasicProcessor<T: Payload>: Processor<T> {
    fn run(&self, inputs: Vec<Rc<T>>) -> (output: Rc<T>)
        requires
            all_valid(inputs@),
        ensures
            output.valid(),
    ;
}

/// A processor that makes its output of its inputs and of the outputs of a
/// graph of its own. It is handed valid values, and what it makes must be
/// valid.
pub trait SubgraphProcessor<T: Payload>: Processor<T> {
    fn subgraph_runs(&self, inputs: &Vec<Rc<T>>) -> usize
        requires
            all_valid(inputs@),
    ;

    fn run(&self, inputs: Vec<Rc<T>>, subgraph_outputs: Vec<Rc<T>>) -> (output: Rc<T>)
        requires
            all_valid(inputs@),
            all_valid(subgraph_outputs@),
        ensures
            output.valid(),
    ;
}

/// A basic processor of which nothing is specified but that its outputs are
/// valid.
#[verifier::reject_recursive_types(T)]
pub struct UncheckedBasic<T: Payload> {
    pub processor: Box<dyn BasicProcessor<T>>,
}

/// A subgraph processor of which nothing is specified but that its outputs
/// are valid.
#[verifier::reject_recursive_types(T)]
pub struct UncheckedSubgraph<T: Payload> {
    pub processor: Box<dyn SubgraphProcessor<T>>,
}

impl<T: Payload> CheckedProcessor<T> for UncheckedBasic<T> {
    open spec fn lawful(&self) -> bool {
        false
    }

    open spec fn spec_name(&self) -> Seq<char> {
        Seq::empty()
    }

    open spec fn spec_number_inputs(&self) -> nat {
        0
    }

    open spec fn spec_parameters(&self) -> Seq<(Seq<char>, Seq<char>)> {
        Seq::empty()
    }

    open spec fn has_parameter(&self, name: Seq<char>) -> bool {
        false
    }

    open spec fn spec_input_type(&self) -> ProcessorInputType {
        ProcessorInputType::Multiple { zero_allowed: true }
    }

    open spec fn parameter_text(&self, name: Seq<char>) -> Seq<char> {
        Seq::empty()
    }

    open spec fn canonical(&self, name: Seq<char>, value: Seq<char>) -> Option<Seq<char>> {
        None
    }

    fn number_inputs(&self) -> (number: usize) {
        self.processor.number_inputs()
    }

    fn input_type(&self) -> (input_type: ProcessorInputType) {
        self.processor.input_type()
    }

    fn set_parameter(&mut self, param: &str, value: &str) -> (result: Result<(), HardeenError>) {
        self.processor.set_parameter(param, value)
    }

    fn get_parameter(&self, param: &str) -> (result: Result<String, HardeenError>) {
        self.processor.get_parameter(param)
    }

    fn get_parameters(&self) -> (parameters: Vec<ProcessorParameter>) {
        self.processor.get_parameters()
    }

    fn is_parameter(&self, param: &str) -> (known: bool) {
        self.processor.is_parameter(param)
    }

    fn get_processor_name(&self) -> (name: &'static str) {
        self.processor.get_processor_name()
    }
}

impl<T: Payload> CheckedBasicProcessor<T> for UncheckedBasic<T> {
    open spec fn produces(&self, inputs: Seq<T>, output: T) -> bool {
        output.valid()
    }

    fn run(&self, inputs: Vec<Rc<T>>) -> (output: Rc<T>) {
        self.processor.run(inputs)
    }
}

impl<T: Payload> CheckedProcessor<T> for UncheckedSubgraph<T> {
    open spec fn lawful(&self) -> bool {
        false
    }

    open spec fn spec_name(&self) -> Seq<char> {
        Seq::empty()
    }

    open spec fn spec_number_inputs(&self) -> nat {
        0
    }

    open spec fn spec_parameters(&self) -> Seq<(Seq<char>, Seq<char>)> {
        Seq::empty()
    }

    open spec fn has_parameter(&self, name: Seq<char>) -> bool {
        false
    }

    open spec fn spec_input_type(&self) -> ProcessorInputType {
        ProcessorInputType::Multiple { zero_allowed: true }
    }

    open spec fn parameter_text(&self, name: Seq<char>) -> Seq<char> {
        Seq::empty()
    }

    open spec fn canonical(&self, name: Seq<char>, value: Seq<char>) -> Option<Seq<char>> {
        None
    }

    fn number_inputs(&self) -> (number: usize) {
        self.processor.number_inputs()
    }

    fn input_type(&self) -> (input_type: ProcessorInputType) {
        self.processor.input_type()
    }

    fn set_parameter(&mut self, param: &str, value: &str) -> (result: Result<(), HardeenError>) {
        self.processor.set_parameter(param, value)
    }

    fn get_parameter(&self, param: &str) -> (result: Result<String, HardeenError>) {
        self.processor.get_parameter(param)
    }

    fn get_parameters(&self) -> (parameters: Vec<ProcessorParameter>) {
        self.processor.get_parameters()
    }

    fn is_parameter(&self, param: &str) -> (known: bool) {
        self.processor.is_parameter(param)
    }

    fn get_processor_name(&self) -> (name: &'static str) {
        self.processor.get_processor_name()
    }
}

impl<T: Payload> CheckedSubgraphProcessor<T> for UncheckedSubgraph<T> {
    open spec fn spec_subgraph_runs(&self, inputs: Seq<T>) -> nat {
        0
    }

    open spec fn produces(&self, inputs: Seq<T>, subgraph_outputs: Seq<T>, output: T) -> bool {
        output.valid()
    }

    fn subgraph_runs(&self, inputs: &Vec<Rc<T>>) -> (runs: usize) {
        self.processor.subgraph_runs(inputs)
    }

    fn run(&self, inputs: Vec<Rc<T>>, subgraph_outputs: Vec<Rc<T>>) -> (output: Rc<T>) {
        self.processor.run(inputs, subgraph_outputs)
    }
}

} // verus!
